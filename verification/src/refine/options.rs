use vstd::prelude::*;

verus! {

/// Options controlling which passes [`refine`](super::refine) runs.
///
/// Empty: every pass runs unconditionally. `#[non_exhaustive]` keeps adding a
/// field here additive rather than breaking.
#[derive(Debug, Clone, Default, PartialEq, Eq)]
#[non_exhaustive]
pub struct RefineOptions {}

} // verus!
