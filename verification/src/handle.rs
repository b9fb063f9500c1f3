//! The two lazy handles created by a split: one per side, each asking the
//! shared state for the next item of its side on demand.

use crate::source::Splittable;
use crate::state::SharedSplitState;
use vstd::prelude::*;

verus! {

/// One of a pair of handles. The left one (side `false`) receives the items
/// for which the predicate returns `false`, the right one (side `true`) the
/// items for which it returns `true`.
///
/// A handle carries nothing but its side; the sequence, the predicate and
/// the buffer live in the [`SharedSplitState`] the pair was created with,
/// which each produce-next call borrows exclusively for its duration.
#[derive(Debug)]
pub struct Split {
    is_right: bool,
}

impl Split {
    /// Which side this handle serves: `true` for right, `false` for left.
    pub closed spec fn side(self) -> bool {
        self.is_right
    }

    /// The handle for one side.
    pub(crate) fn new(is_right: bool) -> (r: Self)
        ensures
            r.side() == is_right,
    {
        Split { is_right }
    }

    /// Returns the next item for this handle's side, or reports that none is
    /// left for it, by a single produce-next step on the shared state.
    pub fn next<I, P>(&self, shared: &mut SharedSplitState<I, P>) -> (r: Option<
        I::Item,
    >) where I: Splittable, P: Fn(&I::Item) -> bool
        requires
            old(shared).wf(),
        ensures
            SharedSplitState::<I, P>::next_post(*old(shared), *final(shared), self.side(), r),
    {
        shared.next(self.is_right)
    }
}

} // verus!
