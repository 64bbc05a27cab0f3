use empyrean::bits::{all_finite, is_finite, is_sign_positive};
use empyrean::body::{BodyBits, BodyId, BodyValidationError};
use empyrean::error::{ValidationError, ValidationErrorAccumulator};

#[test]
fn body_id_round_trips_its_index() {
    for index in [0usize, 1, 2, 17, 1 << 40, usize::MAX - 1] {
        let id = BodyId::new(index).expect("index has an id");
        assert_eq!(id.index(), index);
        assert_eq!(usize::from(id), index);
    }
}

#[test]
fn body_id_of_max_index_is_none() {
    assert!(BodyId::new(usize::MAX).is_none());
}

#[test]
fn body_ids_are_equal_exactly_when_indices_are() {
    let a = BodyId::new(3).unwrap();
    let b = BodyId::new(3).unwrap();
    let c = BodyId::new(4).unwrap();
    assert_eq!(a, b);
    assert_ne!(a, c);
}

#[test]
fn bit_tests_agree_with_f64() {
    let values = [
        0.0f64,
        -0.0,
        1.0,
        -1.0,
        f64::MIN_POSITIVE,
        f64::MAX,
        f64::MIN,
        f64::INFINITY,
        f64::NEG_INFINITY,
        f64::NAN,
        -f64::NAN,
        1e-310,
    ];
    for v in values {
        assert_eq!(is_sign_positive(v.to_bits()), v.is_sign_positive(), "{v}");
        assert_eq!(is_finite(v.to_bits()), v.is_finite(), "{v}");
    }
    assert!(all_finite(&[1.0f64.to_bits(), 0.0f64.to_bits(), (-3.5f64).to_bits()]));
    assert!(!all_finite(&[1.0f64.to_bits(), f64::NAN.to_bits(), 0.0f64.to_bits()]));
}

fn bits(v: [f64; 3]) -> [u64; 3] {
    [v[0].to_bits(), v[1].to_bits(), v[2].to_bits()]
}

#[test]
fn valid_body_has_no_errors() {
    let body = BodyBits {
        id: BodyId::new(0).unwrap(),
        mass: 2.0f64.to_bits(),
        position: bits([1.0, -2.0, 3.0]),
        velocity: bits([0.0, 0.0, -0.5]),
    };
    let mut errors = ValidationErrorAccumulator::default();
    assert_eq!(body.accumulate_validation_errors(&mut errors), 0);
    assert!(errors.is_empty());
    assert!(errors.into_result().is_ok());
}

#[test]
fn invalid_body_reports_each_field_in_order() {
    let id = BodyId::new(7).unwrap();
    let body = BodyBits {
        id,
        mass: (-1.0f64).to_bits(),
        position: bits([1.0, f64::INFINITY, 3.0]),
        velocity: bits([f64::NAN, 0.0, 0.0]),
    };
    let mut errors = ValidationErrorAccumulator::default();
    assert_eq!(body.accumulate_validation_errors(&mut errors), 3);
    assert_eq!(errors.len(), 3);
    let list = errors.into_inner();
    assert_eq!(
        list[0],
        ValidationError::Body(BodyValidationError::InvalidMass { id, mass: (-1.0f64).to_bits() })
    );
    assert_eq!(
        list[1],
        ValidationError::Body(BodyValidationError::InvalidPosition {
            id,
            position: bits([1.0, f64::INFINITY, 3.0])
        })
    );
    assert!(matches!(
        list[2],
        ValidationError::Body(BodyValidationError::InvalidVelocity { .. })
    ));
}

#[test]
fn negative_zero_and_infinite_masses_are_invalid() {
    for mass in [-0.0f64, f64::INFINITY, f64::NAN] {
        let body = BodyBits {
            id: BodyId::new(1).unwrap(),
            mass: mass.to_bits(),
            position: bits([0.0; 3]),
            velocity: bits([0.0; 3]),
        };
        let mut errors = ValidationErrorAccumulator::default();
        assert_eq!(body.accumulate_validation_errors(&mut errors), 1, "{mass}");
    }
    let body = BodyBits {
        id: BodyId::new(1).unwrap(),
        mass: 0.0f64.to_bits(),
        position: bits([0.0; 3]),
        velocity: bits([0.0; 3]),
    };
    let mut errors = ValidationErrorAccumulator::default();
    assert_eq!(body.accumulate_validation_errors(&mut errors), 0);
}

#[test]
fn body_id_is_rebuilt_from_its_index() {
    for index in [0usize, 5, 1 << 20, usize::MAX - 1] {
        let id = BodyId::new(index).unwrap();
        assert!(id.index() < usize::MAX);
        assert_eq!(BodyId::new(id.index()), Some(id));
    }
}
