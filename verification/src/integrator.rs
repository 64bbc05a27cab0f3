use vstd::prelude::*;

verus! {

/// The explicit Euler method.
#[derive(Debug, Default, Clone, Copy)]
pub struct EulerMethod;

/// The 4th order Runge-Kutta method.
#[derive(Debug, Default, Clone, Copy)]
pub struct RungeKutta;

} // verus!
