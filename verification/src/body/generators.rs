use vstd::prelude::*;

verus! {

/// A body generator that passes each body of `generator` through `f`, which changes it in place.
#[derive(Clone, Copy)]
pub struct Modify<G, F> {
    pub generator: G,
    pub f: F,
}

/// A body generator that maps each body of `generator` through `f`.
#[derive(Clone, Copy)]
pub struct Mapped<G, F> {
    pub generator: G,
    pub f: F,
}

/// A body generator that calls `f` for each body.
#[derive(Clone, Copy)]
pub struct FromFn<F> {
    pub f: F,
}

} // verus!
