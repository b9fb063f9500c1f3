//! The capability a sequence must offer so that it can be split: pulling the
//! next item, destructively and in order.

use crate::handle::Split;
use crate::state::side_pred;
use crate::state::SharedSplitState;
use vstd::prelude::*;

verus! {

/// A finite, forward-only, non-restartable sequence of items.
///
/// `remaining` is the mathematical view: the items that have not been pulled
/// yet, in the order in which `pull_next` will yield them.
pub trait Splittable: Sized {
    type Item;

    /// The items not yet pulled, front first.
    spec fn remaining(&self) -> Seq<Self::Item>;

    /// Pulls the next item, or reports exhaustion. Every item is yielded
    /// exactly once, in order.
    fn pull_next(&mut self) -> (r: Option<Self::Item>)
        ensures
            match r {
                Some(x) => old(self).remaining().len() > 0 && x == old(self).remaining()[0]
                    && final(self).remaining() == old(self).remaining().drop_first(),
                None => old(self).remaining().len() == 0 && final(self).remaining()
                    == old(self).remaining(),
            },
    ;
}

/// Splits a sequence in two by `predicate`: a shared state that takes
/// ownership of the sequence and the predicate, a left handle for the items
/// the predicate maps to `false`, and a right handle for those it maps to
/// `true`. Nothing is pulled from the sequence yet — the state still owes
/// the two sides exactly the items of their sides, in original order, on
/// demand.
///
/// The predicate must be callable on every item, and must be a function of
/// the item: any two results it can return for the same item agree.
pub fn split<I, P>(iter: I, predicate: P) -> (r: (
    SharedSplitState<I, P>,
    Split,
    Split,
)) where I: Splittable, P: Fn(&I::Item) -> bool
    requires
        forall|x: I::Item| #[trigger] call_requires(predicate, (&x,)),
        forall|x: I::Item, b1: bool, b2: bool|
            call_ensures(predicate, (&x,), b1) && call_ensures(predicate, (&x,), b2) ==> b1
                == b2,
    ensures
        r.0.wf(),
        r.0.remaining() == iter.remaining(),
        r.0.cached() == Seq::<I::Item>::empty(),
        r.0.cached_side() == false,
        !r.0.done(),
        forall|x: I::Item, b: bool|
            call_ensures(predicate, (&x,), b) ==> b == (r.0.side_of())(x),
        r.0.pending(false) == iter.remaining().filter(side_pred(r.0.side_of(), false)),
        r.0.pending(true) == iter.remaining().filter(side_pred(r.0.side_of(), true)),
        r.1.side() == false,
        r.2.side() == true,
{
    let ghost side_fn = |x: I::Item| choose|b: bool| call_ensures(predicate, (&x,), b);
    proof {
        assert forall|x: I::Item, b: bool|
            call_ensures(predicate, (&x,), b) implies b == side_fn(x) by {
            assert(call_ensures(predicate, (&x,), side_fn(x)));
        }
    }
    let state = SharedSplitState::new(iter, predicate, Ghost(side_fn));
    proof {
        assert(state.pending(false) =~= state.remaining().filter(
            side_pred(state.side_of(), false),
        ));
    }
    (state, Split::new(false), Split::new(true))
}

/// A source that yields the items of a vector, front first.
pub struct VecSource<T> {
    items: Vec<T>,
}

impl<T> VecSource<T> {
    /// Wraps a vector as a source; its items are yielded front first.
    pub fn new(items: Vec<T>) -> (r: Self)
        ensures
            r.remaining() == items@,
    {
        VecSource { items }
    }
}

impl<T> Splittable for VecSource<T> {
    type Item = T;

    closed spec fn remaining(&self) -> Seq<T> {
        self.items@
    }

    fn pull_next(&mut self) -> (r: Option<T>) {
        if self.items.len() == 0 {
            None
        } else {
            let x = self.items.remove(0);
            proof {
                assert(self.remaining() =~= old(self).remaining().drop_first());
            }
            Some(x)
        }
    }
}

} // verus!
