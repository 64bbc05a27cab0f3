pub mod generators;

use vstd::prelude::*;

use crate::bits::{
    all_finite, is_finite, is_sign_positive, lemma_all_finite_is_each_component,
    lemma_finite_is_exponent_not_all_ones, lemma_positive_finite_bits, spec_all_finite,
    spec_is_positive_finite,
};
use crate::error::{ValidationError, ValidationErrorAccumulator};

verus! {

/// The largest `usize`; an index is stored as its bitwise complement.
const MASK: usize = usize::MAX;

/// `MASK` has every bit set.
proof fn lemma_mask_is_all_ones()
    ensures
        MASK == !0usize,
{
    lemma_at_most_all_ones(usize::MAX);
}

proof fn lemma_at_most_all_ones(x: usize)
    by (bit_vector)
    ensures
        x <= !0usize,
{
}

/// The id of a body within a simulation.
///
/// The index is stored as its bitwise complement, which is never zero: `usize::MAX` is the one
/// index without an id.
#[derive(Debug, Clone, Copy, PartialEq, Eq, Hash, Structural)]
pub struct BodyId {
    complement: usize,
}

impl BodyId {
    /// The stored complement is never zero.
    #[verifier::type_invariant]
    spec fn inv(self) -> bool {
        self.complement != 0
    }

    /// The index this id stands for.
    pub closed spec fn view(self) -> usize {
        !self.complement
    }

    /// Builds the id of the body at `index`; `usize::MAX` has no id.
    pub fn new(index: usize) -> (id: Option<Self>)
        ensures
            id is None <==> index == usize::MAX,
            id matches Some(i) ==> i@ == index,
            id matches Some(i) ==> forall|other: BodyId| #[trigger] other@ == index ==> i == other,
    {
        let complement = index ^ MASK;
        proof { lemma_mask_is_all_ones(); }
        assert(complement == !index && (complement == 0 <==> index == !0usize)
            && !complement == index) by (bit_vector)
            requires complement == index ^ !0usize;
        if complement == 0 {
            None
        } else {
            let id = BodyId { complement };
            proof {
                assert forall|other: BodyId| #[trigger] other@ == index implies id == other by {
                    lemma_id_determined_by_index(id, other);
                }
            }
            Some(id)
        }
    }

    /// The index of the body this id refers to.
    pub fn index(&self) -> (index: usize)
        ensures
            index == self@,
            index != usize::MAX,
    {
        proof { use_type_invariant(self); }
        let c = self.complement;
        let i = c ^ MASK;
        proof { lemma_mask_is_all_ones(); }
        assert(i == !c && (c != 0 ==> i != !0usize)) by (bit_vector)
            requires i == c ^ !0usize;
        i
    }
}

/// Two ids are the same exactly when they stand for the same index.
pub proof fn lemma_id_determined_by_index(a: BodyId, b: BodyId)
    ensures
        a == b <==> a@ == b@,
{
    let (x, y) = (a.complement, b.complement);
    assert(!x == !y ==> x == y) by (bit_vector);
}

impl From<BodyId> for usize {
    fn from(id: BodyId) -> (index: usize) {
        id.index()
    }
}

impl vstd::std_specs::convert::FromSpecImpl<BodyId> for usize {
    open spec fn obeys_from_spec() -> bool {
        true
    }

    open spec fn from_spec(v: BodyId) -> usize {
        v@
    }
}

/// A problem with a body's data. Each number is held as its IEEE 754 binary64 bit pattern.
#[derive(Debug, Clone, Copy, PartialEq, Eq)]
pub enum BodyValidationError {
    InvalidMass { id: BodyId, mass: u64 },
    InvalidPosition { id: BodyId, position: [u64; 3] },
    InvalidVelocity { id: BodyId, velocity: [u64; 3] },
}

/// The data of a body within a simulation, with each number held as its IEEE 754 binary64 bit
/// pattern: what validation reads of a body.
#[derive(Debug, Clone, Copy)]
pub struct BodyBits {
    pub id: BodyId,
    pub mass: u64,
    pub position: [u64; 3],
    pub velocity: [u64; 3],
}

/// The errors that validating `body` finds, in order: an invalid mass (one that is not
/// positive and finite), a position that is not finite, a velocity that is not finite.
pub open spec fn body_errors(body: BodyBits) -> Seq<ValidationError> {
    (if spec_is_positive_finite(body.mass) {
        Seq::empty()
    } else {
        seq![ValidationError::Body(BodyValidationError::InvalidMass { id: body.id, mass: body.mass })]
    }) + (if spec_all_finite(body.position) {
        Seq::empty()
    } else {
        seq![
            ValidationError::Body(
                BodyValidationError::InvalidPosition { id: body.id, position: body.position },
            ),
        ]
    }) + (if spec_all_finite(body.velocity) {
        Seq::empty()
    } else {
        seq![
            ValidationError::Body(
                BodyValidationError::InvalidVelocity { id: body.id, velocity: body.velocity },
            ),
        ]
    })
}

/// The place of a body error in the order in which a body's validation reports them: mass,
/// position, velocity; 3 for any other error.
pub open spec fn body_error_rank(error: ValidationError) -> int {
    match error {
        ValidationError::Body(BodyValidationError::InvalidMass { .. }) => 0,
        ValidationError::Body(BodyValidationError::InvalidPosition { .. }) => 1,
        ValidationError::Body(BodyValidationError::InvalidVelocity { .. }) => 2,
        _ => 3,
    }
}

/// The exponent field (bits 52 to 62) of a binary64 bit pattern is all ones: the number is
/// infinite or NaN.
pub open spec fn exponent_all_ones(bits: u64) -> bool {
    ((bits >> 52u64) & 0x7ffu64) == 0x7ffu64
}

/// A vector is not finite exactly when one of its components has its exponent field all ones.
proof fn lemma_one_component_bad(v: [u64; 3])
    ensures
        !spec_all_finite(v) <==> exists|i: int| 0 <= i < 3 && #[trigger] exponent_all_ones(v[i]),
{
    lemma_all_finite_is_each_component(v);
    if !spec_all_finite(v) {
        let i = choose|i: int| 0 <= i < 3 && !#[trigger] crate::bits::spec_is_finite(v[i]);
        lemma_finite_is_exponent_not_all_ones(v[i]);
        assert(exponent_all_ones(v[i]));
    }
    if exists|i: int| 0 <= i < 3 && #[trigger] exponent_all_ones(v[i]) {
        let i = choose|i: int| 0 <= i < 3 && #[trigger] exponent_all_ones(v[i]);
        lemma_finite_is_exponent_not_all_ones(v[i]);
        assert(!crate::bits::spec_is_finite(v[i]));
    }
}

/// Validating a body reports an invalid mass exactly when the mass has its sign bit set or its
/// exponent field all ones; an invalid position exactly when one of its three components (x, y
/// or z) has its exponent field all ones; and an invalid velocity in the same way. It reports
/// nothing else, each problem once, naming the body and the offending value, in the order mass,
/// position, velocity; so a body whose numbers are all finite, with a mass whose sign bit is
/// clear, gets no error.
pub proof fn lemma_body_validation(b: BodyBits)
    ensures
        ({
            let errors = body_errors(b);
            let bad_mass = (b.mass >> 63u64) == 1u64 || exponent_all_ones(b.mass);
            let bad_position = exists|i: int| 0 <= i < 3 && #[trigger] exponent_all_ones(b.position[i]);
            let bad_velocity = exists|i: int| 0 <= i < 3 && #[trigger] exponent_all_ones(b.velocity[i]);
            &&& errors.contains(
                ValidationError::Body(BodyValidationError::InvalidMass { id: b.id, mass: b.mass }),
            ) <==> bad_mass
            &&& errors.contains(
                ValidationError::Body(
                    BodyValidationError::InvalidPosition { id: b.id, position: b.position },
                ),
            ) <==> bad_position
            &&& errors.contains(
                ValidationError::Body(
                    BodyValidationError::InvalidVelocity { id: b.id, velocity: b.velocity },
                ),
            ) <==> bad_velocity
            &&& errors.len() == (if bad_mass { 1int } else { 0 }) + (if bad_position { 1int } else {
                0
            }) + (if bad_velocity { 1int } else { 0 })
            &&& forall|i: int, j: int|
                0 <= i < j < errors.len() ==> body_error_rank(errors[i]) < body_error_rank(
                    errors[j],
                )
            &&& forall|i: int|
                0 <= i < errors.len() ==> body_error_rank(#[trigger] errors[i]) < 3
        }),
{
    lemma_positive_finite_bits(b.mass);
    let mass = b.mass;
    assert((mass >> 63u64) == 0u64 || (mass >> 63u64) == 1u64) by (bit_vector);
    lemma_all_finite_is_each_component(b.position);
    lemma_all_finite_is_each_component(b.velocity);
    assert forall|i: int| 0 <= i < 3 implies (crate::bits::spec_is_finite(b.position[i])
        <==> !#[trigger] exponent_all_ones(b.position[i])) by {
        lemma_finite_is_exponent_not_all_ones(b.position[i]);
    }
    assert forall|i: int| 0 <= i < 3 implies (crate::bits::spec_is_finite(b.velocity[i])
        <==> !#[trigger] exponent_all_ones(b.velocity[i])) by {
        lemma_finite_is_exponent_not_all_ones(b.velocity[i]);
    }
    let m = if spec_is_positive_finite(b.mass) {
        Seq::<ValidationError>::empty()
    } else {
        seq![ValidationError::Body(BodyValidationError::InvalidMass { id: b.id, mass: b.mass })]
    };
    let p = if spec_all_finite(b.position) {
        Seq::<ValidationError>::empty()
    } else {
        seq![
            ValidationError::Body(
                BodyValidationError::InvalidPosition { id: b.id, position: b.position },
            ),
        ]
    };
    let v = if spec_all_finite(b.velocity) {
        Seq::<ValidationError>::empty()
    } else {
        seq![
            ValidationError::Body(
                BodyValidationError::InvalidVelocity { id: b.id, velocity: b.velocity },
            ),
        ]
    };
    let errors = body_errors(b);
    assert(errors == m + p + v);
    assert forall|x: ValidationError| errors.contains(x) <==> m.contains(x) || p.contains(x)
        || v.contains(x) by {
        if errors.contains(x) {
            let k = choose|k: int| 0 <= k < errors.len() && errors[k] == x;
            if k < m.len() {
                assert(m[k] == x);
            } else if k < m.len() + p.len() {
                assert(p[k - m.len()] == x);
            } else {
                assert(v[k - m.len() - p.len()] == x);
            }
        }
        if m.contains(x) {
            assert(errors[0] == x);
        }
        if p.contains(x) {
            assert(errors[m.len() as int] == x);
        }
        if v.contains(x) {
            assert(errors[(m.len() + p.len()) as int] == x);
        }
    }
    let bad_mass = (b.mass >> 63u64) == 1u64 || exponent_all_ones(b.mass);
    let bad_position = exists|i: int| 0 <= i < 3 && #[trigger] exponent_all_ones(b.position[i]);
    let bad_velocity = exists|i: int| 0 <= i < 3 && #[trigger] exponent_all_ones(b.velocity[i]);
    assert(bad_mass <==> !spec_is_positive_finite(b.mass));
    lemma_one_component_bad(b.position);
    lemma_one_component_bad(b.velocity);
    assert(bad_position <==> !spec_all_finite(b.position));
    assert(bad_velocity <==> !spec_all_finite(b.velocity));
    assert(errors.len() == m.len() + p.len() + v.len());
    let xm = ValidationError::Body(BodyValidationError::InvalidMass { id: b.id, mass: b.mass });
    let xp = ValidationError::Body(
        BodyValidationError::InvalidPosition { id: b.id, position: b.position },
    );
    let xv = ValidationError::Body(
        BodyValidationError::InvalidVelocity { id: b.id, velocity: b.velocity },
    );
    assert(m.contains(xm) <==> bad_mass) by {
        if bad_mass {
            assert(m[0] == xm);
        }
    }
    assert(p.contains(xp) <==> bad_position) by {
        if bad_position {
            assert(p[0] == xp);
        }
    }
    assert(v.contains(xv) <==> bad_velocity) by {
        if bad_velocity {
            assert(v[0] == xv);
        }
    }
    assert(!p.contains(xm) && !v.contains(xm) && !m.contains(xp) && !v.contains(xp) && !m.contains(
        xv,
    ) && !p.contains(xv));
    assert(errors.contains(xm) <==> bad_mass);
    assert(errors.contains(xp) <==> bad_position);
    assert(errors.contains(xv) <==> bad_velocity);
    assert forall|i: int, j: int| 0 <= i < j < errors.len() implies body_error_rank(errors[i])
        < body_error_rank(errors[j]) by {
        if i < m.len() {
            assert(errors[i] == m[i]);
        } else if i < m.len() + p.len() {
            assert(errors[i] == p[i - m.len()]);
        } else {
            assert(errors[i] == v[i - m.len() - p.len()]);
        }
        if j < m.len() {
            assert(errors[j] == m[j]);
        } else if j < m.len() + p.len() {
            assert(errors[j] == p[j - m.len()]);
        } else {
            assert(errors[j] == v[j - m.len() - p.len()]);
        }
    }
    assert forall|i: int| 0 <= i < errors.len() implies body_error_rank(#[trigger] errors[i]) < 3 by {
        if i < m.len() {
            assert(errors[i] == m[i]);
        } else if i < m.len() + p.len() {
            assert(errors[i] == p[i - m.len()]);
        } else {
            assert(errors[i] == v[i - m.len() - p.len()]);
        }
    }
}

impl BodyBits {
    /// Validates this body, appending the errors found to `errors` and returning their number.
    pub fn accumulate_validation_errors(&self, errors: &mut ValidationErrorAccumulator) -> (count:
        usize)
        ensures
            final(errors)@ == old(errors)@ + body_errors(*self),
            count == body_errors(*self).len(),
    {
        let initial = errors.len();
        let ghost e0 = errors@;

        if !(is_sign_positive(self.mass) && is_finite(self.mass)) {
            errors.push(BodyValidationError::InvalidMass { id: self.id, mass: self.mass });
            proof {
                assert(errors@ == errors@.drop_last().push(errors@.last()));
            }
        }
        let ghost e1 = errors@;

        if !all_finite(&self.position) {
            errors.push(BodyValidationError::InvalidPosition { id: self.id, position: self.position });
            proof {
                assert(errors@ == errors@.drop_last().push(errors@.last()));
            }
        }
        let ghost e2 = errors@;

        if !all_finite(&self.velocity) {
            errors.push(BodyValidationError::InvalidVelocity { id: self.id, velocity: self.velocity });
            proof {
                assert(errors@ == errors@.drop_last().push(errors@.last()));
            }
        }
        proof {
            assert(errors@ =~= e0 + body_errors(*self));
        }
        errors.len() - initial
    }
}

} // verus!
