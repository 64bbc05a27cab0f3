use vstd::prelude::*;

use crate::bits::{is_finite, is_sign_positive, spec_is_positive_finite};
use crate::body::{
    body_error_rank, body_errors, exponent_all_ones, lemma_body_validation, BodyBits, BodyId,
};
use crate::bits::lemma_positive_finite_bits;
use crate::error::{ValidationError, ValidationErrorAccumulator};

verus! {

/// A problem with a simulation's settings. Each number is held as its IEEE 754 binary64 bit
/// pattern.
#[derive(Debug, Clone, Copy, PartialEq, Eq)]
pub enum SimulationValidationError {
    InvalidTimeStep { time_step: u64 },
    InvalidDomain { half_size: u64 },
}

/// The settings and bodies of a simulation, with each number held as its IEEE 754 binary64 bit
/// pattern: what validation reads of a simulation.
#[derive(Debug)]
pub struct SimulationBits {
    pub time_step: u64,
    pub half_size: u64,
    pub bodies: Vec<BodyBits>,
}

/// The errors found in a sequence of bodies, body by body.
pub open spec fn bodies_errors(bodies: Seq<BodyBits>) -> Seq<ValidationError>
    decreases bodies.len(),
{
    if bodies.len() == 0 {
        Seq::empty()
    } else {
        bodies_errors(bodies.drop_last()) + body_errors(bodies.last())
    }
}

/// The errors that validating a simulation finds, in order: an invalid time step and an invalid
/// domain half-extent (each one that is not positive and finite), then those of each body.
pub open spec fn simulation_errors(time_step: u64, half_size: u64, bodies: Seq<BodyBits>) -> Seq<
    ValidationError,
> {
    (if spec_is_positive_finite(time_step) {
        Seq::empty()
    } else {
        seq![ValidationError::Simulation(SimulationValidationError::InvalidTimeStep { time_step })]
    }) + (if spec_is_positive_finite(half_size) {
        Seq::empty()
    } else {
        seq![ValidationError::Simulation(SimulationValidationError::InvalidDomain { half_size })]
    }) + bodies_errors(bodies)
}

/// The errors found in a sequence of bodies are those of each body in turn.
proof fn lemma_bodies_errors_flatten(bodies: Seq<BodyBits>)
    ensures
        bodies_errors(bodies) == bodies.map_values(|b: BodyBits| body_errors(b)).flatten(),
        forall|i: int|
            0 <= i < bodies_errors(bodies).len() ==> body_error_rank(#[trigger] bodies_errors(bodies)[i]) < 3,
    decreases bodies.len(),
{
    let parts = bodies.map_values(|b: BodyBits| body_errors(b));
    parts.lemma_flatten_and_flatten_alt_are_equivalent();
    if bodies.len() == 0 {
        assert(parts =~= Seq::<Seq<ValidationError>>::empty());
    } else {
        lemma_bodies_errors_flatten(bodies.drop_last());
        assert(parts.drop_last() =~= bodies.drop_last().map_values(|b: BodyBits| body_errors(b)));
        parts.drop_last().lemma_flatten_and_flatten_alt_are_equivalent();
        lemma_body_validation(bodies.last());
        let front = bodies_errors(bodies.drop_last());
        let back = body_errors(bodies.last());
        assert forall|i: int| 0 <= i < bodies_errors(bodies).len() implies body_error_rank(
            #[trigger] bodies_errors(bodies)[i],
        ) < 3 by {
            if i < front.len() {
                assert(bodies_errors(bodies)[i] == front[i]);
            } else {
                assert(bodies_errors(bodies)[i] == back[i - front.len()]);
            }
        }
    }
}

/// Validating a simulation reports an invalid time step exactly when the time step has its sign
/// bit set or its exponent field all ones, and an invalid domain half-extent in the same way;
/// these come first, the time step before the half-extent, and after them come the errors of
/// every body, each body's in turn. So a simulation with a single invalid body reports that
/// body's errors.
pub proof fn lemma_simulation_validation(time_step: u64, half_size: u64, bodies: Seq<BodyBits>)
    ensures
        ({
            let errors = simulation_errors(time_step, half_size, bodies);
            let bad_step = (time_step >> 63u64) == 1u64 || exponent_all_ones(time_step);
            let bad_domain = (half_size >> 63u64) == 1u64 || exponent_all_ones(half_size);
            let settings = (if bad_step { 1int } else { 0 }) + (if bad_domain { 1int } else { 0 });
            &&& errors.contains(
                ValidationError::Simulation(SimulationValidationError::InvalidTimeStep { time_step }),
            ) <==> bad_step
            &&& errors.contains(
                ValidationError::Simulation(SimulationValidationError::InvalidDomain { half_size }),
            ) <==> bad_domain
            &&& settings <= errors.len()
            &&& bad_step ==> errors[0] == ValidationError::Simulation(
                SimulationValidationError::InvalidTimeStep { time_step },
            )
            &&& forall|j: int| 0 <= j < settings ==> #[trigger] errors[j] is Simulation
            &&& errors.skip(settings) == bodies.map_values(|b: BodyBits| body_errors(b)).flatten()
        }),
{
    lemma_positive_finite_bits(time_step);
    lemma_positive_finite_bits(half_size);
    let (ts, hs) = (time_step, half_size);
    assert((ts >> 63u64) == 0u64 || (ts >> 63u64) == 1u64) by (bit_vector);
    assert((hs >> 63u64) == 0u64 || (hs >> 63u64) == 1u64) by (bit_vector);
    lemma_bodies_errors_flatten(bodies);
    let t = if spec_is_positive_finite(time_step) {
        Seq::<ValidationError>::empty()
    } else {
        seq![ValidationError::Simulation(SimulationValidationError::InvalidTimeStep { time_step })]
    };
    let d = if spec_is_positive_finite(half_size) {
        Seq::<ValidationError>::empty()
    } else {
        seq![ValidationError::Simulation(SimulationValidationError::InvalidDomain { half_size })]
    };
    let rest = bodies_errors(bodies);
    let errors = simulation_errors(time_step, half_size, bodies);
    assert(errors == t + d + rest);
    let settings = (t.len() + d.len()) as int;
    assert(errors.skip(settings) =~= rest);
    let xt = ValidationError::Simulation(SimulationValidationError::InvalidTimeStep { time_step });
    let xd = ValidationError::Simulation(SimulationValidationError::InvalidDomain { half_size });
    assert(body_error_rank(xt) == 3 && body_error_rank(xd) == 3);
    assert(!rest.contains(xt) && !rest.contains(xd));
    assert(errors.contains(xt) <==> t.len() == 1) by {
        if errors.contains(xt) {
            let k = choose|k: int| 0 <= k < errors.len() && errors[k] == xt;
            if k >= t.len() + d.len() {
                assert(rest[k - t.len() - d.len()] == xt);
            }
        }
        if t.len() == 1 {
            assert(errors[0] == xt);
        }
    }
    assert(errors.contains(xd) <==> d.len() == 1) by {
        if errors.contains(xd) {
            let k = choose|k: int| 0 <= k < errors.len() && errors[k] == xd;
            if k >= t.len() + d.len() {
                assert(rest[k - t.len() - d.len()] == xd);
            }
        }
        if d.len() == 1 {
            assert(errors[t.len() as int] == xd);
        }
    }
    assert forall|j: int| 0 <= j < settings implies #[trigger] errors[j] is Simulation by {
        if j < t.len() {
            assert(errors[j] == t[j]);
        } else {
            assert(errors[j] == d[j - t.len()]);
        }
    }
}

impl SimulationBits {
    /// Validates the simulation and each of its bodies, appending the errors found to `errors`
    /// and returning their number.
    pub fn accumulate_validation_errors(&self, errors: &mut ValidationErrorAccumulator) -> (count:
        usize)
        ensures
            final(errors)@ == old(errors)@ + simulation_errors(
                self.time_step,
                self.half_size,
                self.bodies@,
            ),
            count == simulation_errors(self.time_step, self.half_size, self.bodies@).len(),
    {
        let initial = errors.len();
        let ghost e0 = errors@;

        if !(is_sign_positive(self.time_step) && is_finite(self.time_step)) {
            errors.push(SimulationValidationError::InvalidTimeStep { time_step: self.time_step });
            proof {
                assert(errors@ == errors@.drop_last().push(errors@.last()));
            }
        }

        if !(is_sign_positive(self.half_size) && is_finite(self.half_size)) {
            errors.push(SimulationValidationError::InvalidDomain { half_size: self.half_size });
            proof {
                assert(errors@ == errors@.drop_last().push(errors@.last()));
            }
        }
        let ghost e1 = errors@;

        let mut i: usize = 0;
        while i < self.bodies.len()
            invariant
                i <= self.bodies@.len(),
                errors@ == e1 + bodies_errors(self.bodies@.take(i as int)),
            decreases self.bodies@.len() - i,
        {
            self.bodies[i].accumulate_validation_errors(errors);
            proof {
                assert(self.bodies@.take(i + 1).drop_last() =~= self.bodies@.take(i as int));
            }
            i = i + 1;
        }
        proof {
            assert(self.bodies@.take(i as int) =~= self.bodies@);
            assert(errors@ =~= e0 + simulation_errors(self.time_step, self.half_size, self.bodies@));
        }
        errors.len() - initial
    }
}


/// The first `k` items of `data` written, in turn, at the indices of their ids into `n` slots
/// that start out as `fill`.
pub open spec fn placed_by_id<T>(ids: Seq<BodyId>, data: Seq<T>, fill: T, n: nat, k: int) -> Seq<T>
    decreases k,
{
    if k <= 0 {
        Seq::new(n, |j: int| fill)
    } else {
        placed_by_id(ids, data, fill, n, k - 1).update(ids[k - 1]@ as int, data[k - 1])
    }
}

/// Places each item of `data` at the index of its id, `ids[i]` being the id of `data[i]`, in a
/// vector as long as `data`, whose other slots hold `fill`.
pub fn arrange_by_id<T: Copy>(ids: &[BodyId], data: &[T], fill: T) -> (arranged: Vec<T>)
    requires
        ids@.len() == data@.len(),
        forall|i: int| 0 <= i < ids@.len() ==> (#[trigger] ids@[i])@ < ids@.len(),
    ensures
        arranged@ == placed_by_id(ids@, data@, fill, data@.len(), data@.len() as int),
        arranged@.len() == data@.len(),
        (forall|a: int, b: int| 0 <= a < b < ids@.len() ==> ids@[a]@ != ids@[b]@) ==> forall|i: int|
            0 <= i < ids@.len() ==> arranged@[(#[trigger] ids@[i])@ as int] == data@[i],
{
    let n = data.len();
    let mut arranged: Vec<T> = Vec::new();
    while arranged.len() < n
        invariant
            arranged@.len() <= n,
            n == data@.len(),
            forall|j: int| 0 <= j < arranged@.len() ==> arranged@[j] == fill,
        decreases n - arranged@.len(),
    {
        arranged.push(fill);
    }
    proof {
        assert(arranged@ =~= placed_by_id(ids@, data@, fill, n as nat, 0));
    }
    let mut i: usize = 0;
    while i < n
        invariant
            i <= n,
            n == data@.len(),
            ids@.len() == n,
            forall|j: int| 0 <= j < ids@.len() ==> (#[trigger] ids@[j])@ < ids@.len(),
            arranged@ == placed_by_id(ids@, data@, fill, n as nat, i as int),
        decreases n - i,
    {
        let index = ids[i].index();
        proof {
            lemma_placed_len(ids@, data@, fill, i as int);
        }
        arranged.set(index, data[i]);
        i = i + 1;
    }
    proof {
        lemma_placed_len(ids@, data@, fill, n as int);
        if forall|a: int, b: int| 0 <= a < b < ids@.len() ==> ids@[a]@ != ids@[b]@ {
            assert forall|j: int| 0 <= j < ids@.len() implies arranged@[(#[trigger] ids@[j])@ as int]
                == data@[j] by {
                lemma_arranged_by_own_id(ids@, data@, fill, j);
            }
        }
    }
    arranged
}

/// When the ids are those of distinct bodies, each item lands at the index of its own id: the
/// index of each element of the arranged vector is the id of the item it came from.
pub proof fn lemma_arranged_by_own_id<T>(ids: Seq<BodyId>, data: Seq<T>, fill: T, i: int)
    requires
        ids.len() == data.len(),
        forall|a: int, b: int| 0 <= a < b < ids.len() ==> ids[a]@ != ids[b]@,
        forall|a: int| 0 <= a < ids.len() ==> (#[trigger] ids[a])@ < ids.len(),
        0 <= i < ids.len(),
    ensures
        placed_by_id(ids, data, fill, data.len(), data.len() as int)[ids[i]@ as int] == data[i],
{
    lemma_placed_keeps(ids, data, fill, i, data.len() as int);
}

/// Writes after the `i`-th leave its item in place when the ids are distinct.
proof fn lemma_placed_keeps<T>(ids: Seq<BodyId>, data: Seq<T>, fill: T, i: int, k: int)
    requires
        ids.len() == data.len(),
        forall|a: int, b: int| 0 <= a < b < ids.len() ==> ids[a]@ != ids[b]@,
        forall|a: int| 0 <= a < ids.len() ==> (#[trigger] ids[a])@ < ids.len(),
        0 <= i < k <= ids.len(),
    ensures
        placed_by_id(ids, data, fill, data.len(), k).len() == data.len(),
        placed_by_id(ids, data, fill, data.len(), k)[ids[i]@ as int] == data[i],
    decreases k,
{
    lemma_placed_len(ids, data, fill, k - 1);
    if k - 1 > i {
        lemma_placed_keeps(ids, data, fill, i, k - 1);
        assert(ids[i]@ != ids[k - 1]@);
    }
}

/// Placing keeps the number of slots.
proof fn lemma_placed_len<T>(ids: Seq<BodyId>, data: Seq<T>, fill: T, k: int)
    requires
        ids.len() == data.len(),
        forall|a: int| 0 <= a < ids.len() ==> (#[trigger] ids[a])@ < ids.len(),
        k <= ids.len(),
    ensures
        placed_by_id(ids, data, fill, data.len(), k).len() == data.len(),
    decreases k,
{
    if k > 0 {
        lemma_placed_len(ids, data, fill, k - 1);
    }
}

} // verus!
