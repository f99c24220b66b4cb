//! Integrators turn a scene into pixel colours.
use vstd::prelude::*;

verus! {

/// A path tracer: follows each camera ray through its bounces.
pub struct PathTracingIntegrator {}

impl PathTracingIntegrator {
    pub fn new() -> (r: Self) {
        PathTracingIntegrator {  }
    }
}

} // verus!
