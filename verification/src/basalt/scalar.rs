//! The precision in which the solver works.
use vstd::prelude::*;

verus! {

/// The precision in which the solver works. The public feed is double precision in either mode.
#[derive(Clone, Copy, Debug, PartialEq, Eq, Structural)]
pub enum ScalarMode {
    /// Single precision, for numerical reference.
    UpstreamF32,
    /// Double precision, the fixed precision of the estimator.
    ExtendedF64,
}

impl Default for ScalarMode {
    fn default() -> (mode: Self)
        ensures
            mode is ExtendedF64,
    {
        ScalarMode::ExtendedF64
    }
}

} // verus!
