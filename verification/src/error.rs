use vstd::prelude::*;

use crate::body::BodyValidationError;
use crate::simulation::SimulationValidationError;

verus! {

/// An error of this library.
#[derive(Debug, Clone, Copy, PartialEq, Eq)]
pub enum Error {
    ValidationError(ValidationError),
}

/// A problem found by validation.
#[derive(Debug, Clone, Copy, PartialEq, Eq)]
pub enum ValidationError {
    Simulation(SimulationValidationError),
    Body(BodyValidationError),
}

impl From<ValidationError> for Error {
    fn from(error: ValidationError) -> (result: Self) {
        Error::ValidationError(error)
    }
}

impl vstd::std_specs::convert::FromSpecImpl<ValidationError> for Error {
    open spec fn obeys_from_spec() -> bool {
        true
    }

    open spec fn from_spec(v: ValidationError) -> Self {
        Error::ValidationError(v)
    }
}

impl From<SimulationValidationError> for ValidationError {
    fn from(error: SimulationValidationError) -> (result: Self) {
        ValidationError::Simulation(error)
    }
}

impl vstd::std_specs::convert::FromSpecImpl<SimulationValidationError> for ValidationError {
    open spec fn obeys_from_spec() -> bool {
        true
    }

    open spec fn from_spec(v: SimulationValidationError) -> Self {
        ValidationError::Simulation(v)
    }
}

impl From<BodyValidationError> for ValidationError {
    fn from(error: BodyValidationError) -> (result: Self) {
        ValidationError::Body(error)
    }
}

impl vstd::std_specs::convert::FromSpecImpl<BodyValidationError> for ValidationError {
    open spec fn obeys_from_spec() -> bool {
        true
    }

    open spec fn from_spec(v: BodyValidationError) -> Self {
        ValidationError::Body(v)
    }
}

/// A list of validation errors, in the order they were found.
#[derive(Debug)]
pub struct ValidationErrorAccumulator {
    errors: Vec<ValidationError>,
}

impl View for ValidationErrorAccumulator {
    type V = Seq<ValidationError>;

    closed spec fn view(&self) -> Seq<ValidationError> {
        self.errors@
    }
}

impl Default for ValidationErrorAccumulator {
    fn default() -> (accumulator: Self)
        ensures
            accumulator@ == Seq::<ValidationError>::empty(),
    {
        ValidationErrorAccumulator { errors: Vec::new() }
    }
}

impl ValidationErrorAccumulator {
    /// Appends an error, converted into a [`ValidationError`].
    pub fn push<E: Into<ValidationError>>(&mut self, error: E)
        ensures
            final(self)@.len() == old(self)@.len() + 1,
            final(self)@.drop_last() == old(self)@,
            <E as vstd::std_specs::convert::IntoSpec<ValidationError>>::obeys_into_spec()
                ==> final(self)@.last() == <E as vstd::std_specs::convert::IntoSpec<
                ValidationError,
            >>::into_spec(error),
    {
        let error: ValidationError = error.into();
        self.errors.push(error);
        proof {
            assert(self.errors@.drop_last() =~= old(self)@);
        }
    }

    /// The number of errors.
    pub fn len(&self) -> (len: usize)
        ensures
            len == self@.len(),
    {
        self.errors.len()
    }

    /// Whether no error has been found.
    pub fn is_empty(&self) -> (empty: bool)
        ensures
            empty == (self@.len() == 0),
    {
        self.errors.len() == 0
    }

    /// `Ok` when no error has been found, and otherwise every error, in order.
    pub fn into_result(self) -> (result: Result<(), Vec<ValidationError>>)
        ensures
            self@.len() == 0 ==> result is Ok,
            self@.len() > 0 ==> (result matches Err(errors) && errors@ == self@),
    {
        if self.is_empty() {
            Ok(())
        } else {
            Err(self.into_inner())
        }
    }

    /// Every error, in order.
    pub fn into_inner(self) -> (errors: Vec<ValidationError>)
        ensures
            errors@ == self@,
    {
        self.errors
    }
}

} // verus!
