//! Results inside results.

use vstd::prelude::*;

verus! {

/// A value that holds another of the same kind and can be folded into it.
pub trait NestedSimilar<T>: Sized {
    /// What folding gives.
    spec fn denested(self) -> T;

    /// Folds the outer layer into the inner one.
    fn denest(self) -> (r: T)
        ensures
            r == self.denested(),
    ;
}

impl<T, U> NestedSimilar<Result<T, U>> for Result<Result<T, U>, U> {
    open spec fn denested(self) -> Result<T, U> {
        match self {
            Ok(res) => res,
            Err(e) => Err(e),
        }
    }

    /// The inner result where the outer one is `Ok`, the outer error otherwise.
    fn denest(self) -> (r: Result<T, U>) {
        match self {
            Ok(res) => res,
            Err(e) => Err(e),
        }
    }
}

} // verus!
