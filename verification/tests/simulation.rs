use empyrean::body::{BodyBits, BodyId, BodyValidationError};
use empyrean::error::{Error, ValidationError, ValidationErrorAccumulator};
use empyrean::simulation::{arrange_by_id, SimulationBits, SimulationValidationError};

fn body(index: usize, mass: f64, position: [f64; 3], velocity: [f64; 3]) -> BodyBits {
    BodyBits {
        id: BodyId::new(index).unwrap(),
        mass: mass.to_bits(),
        position: [position[0].to_bits(), position[1].to_bits(), position[2].to_bits()],
        velocity: [velocity[0].to_bits(), velocity[1].to_bits(), velocity[2].to_bits()],
    }
}

#[test]
fn valid_simulation_validates() {
    let sim = SimulationBits {
        time_step: 1.0f64.to_bits(),
        half_size: 100.0f64.to_bits(),
        bodies: vec![body(0, 1.0, [0.0; 3], [0.0; 3]), body(1, 2.0, [1.0; 3], [1.0; 3])],
    };
    let mut errors = ValidationErrorAccumulator::default();
    assert_eq!(sim.accumulate_validation_errors(&mut errors), 0);
    assert_eq!(errors.into_result(), Ok(()));
}

#[test]
fn invalid_settings_come_before_body_errors() {
    let sim = SimulationBits {
        time_step: (-1.0f64).to_bits(),
        half_size: f64::INFINITY.to_bits(),
        bodies: vec![body(0, 1.0, [0.0; 3], [0.0; 3]), body(1, f64::NAN, [0.0; 3], [0.0; 3])],
    };
    let mut errors = ValidationErrorAccumulator::default();
    errors.push(SimulationValidationError::InvalidDomain { half_size: 0 });
    assert_eq!(sim.accumulate_validation_errors(&mut errors), 3);
    let list = errors.into_result().unwrap_err();
    assert_eq!(list.len(), 4);
    assert_eq!(
        list[1],
        ValidationError::Simulation(SimulationValidationError::InvalidTimeStep {
            time_step: (-1.0f64).to_bits()
        })
    );
    assert_eq!(
        list[2],
        ValidationError::Simulation(SimulationValidationError::InvalidDomain {
            half_size: f64::INFINITY.to_bits()
        })
    );
    assert_eq!(
        list[3],
        ValidationError::Body(BodyValidationError::InvalidMass {
            id: BodyId::new(1).unwrap(),
            mass: f64::NAN.to_bits()
        })
    );
}

#[test]
fn accumulator_counts_and_converts() {
    let mut errors = ValidationErrorAccumulator::default();
    assert!(errors.is_empty());
    errors.push(BodyValidationError::InvalidMass { id: BodyId::new(2).unwrap(), mass: 0 });
    errors.push(ValidationError::Simulation(SimulationValidationError::InvalidTimeStep {
        time_step: 0,
    }));
    assert_eq!(errors.len(), 2);
    assert!(!errors.is_empty());
    let inner = errors.into_inner();
    assert_eq!(
        inner[0],
        ValidationError::Body(BodyValidationError::InvalidMass { id: BodyId::new(2).unwrap(), mass: 0 })
    );
    let error: Error = inner[1].into();
    assert_eq!(error, Error::ValidationError(inner[1]));
}

#[test]
fn arrange_by_id_places_items_at_their_ids() {
    let ids: Vec<BodyId> = [2usize, 0, 3, 1].iter().map(|i| BodyId::new(*i).unwrap()).collect();
    let data = ['c', 'a', 'd', 'b'];
    assert_eq!(arrange_by_id(&ids, &data, '-'), vec!['a', 'b', 'c', 'd']);
}

#[test]
fn arrange_by_id_fills_unused_slots_and_keeps_last_write() {
    let ids: Vec<BodyId> = [1usize, 1, 0].iter().map(|i| BodyId::new(*i).unwrap()).collect();
    let data = [10u32, 20, 30];
    assert_eq!(arrange_by_id(&ids, &data, 0), vec![30, 20, 0]);
    let empty: Vec<u32> = arrange_by_id(&[], &[], 0);
    assert!(empty.is_empty());
}
