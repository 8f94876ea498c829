use crate::pagination::{Paginated, PaginatedWithTotal};
use vstd::prelude::*;

verus! {

/// A tap in a chain of builder calls. A type reports of itself what it can where it is tapped;
/// the chain goes on with the very query that came in.
pub trait DebugQuery: Sized {
    fn debug_query(self) -> (r: Self)
        ensures
            r == self,
    ;
}

/// A page descriptor is plain numbers around a query it cannot read: it has no text of its own
/// to report, and passes through.
impl<T> DebugQuery for Paginated<T> {
    fn debug_query(self) -> (r: Self) {
        self
    }
}

impl<T> DebugQuery for PaginatedWithTotal<T> {
    fn debug_query(self) -> (r: Self) {
        self
    }
}

} // verus!
