//! The shared state behind a pair of split handles: the underlying source,
//! the predicate, and a buffer for items pulled on behalf of one side that
//! belong to the other.

use crate::source::Splittable;
use std::collections::VecDeque;
use vstd::prelude::*;

verus! {

/// The test "does `p` place this item on side `side`?", as a predicate on
/// items. Right is `true`, left is `false`.
pub open spec fn side_pred<T>(p: spec_fn(T) -> bool, side: bool) -> spec_fn(T) -> bool {
    |x: T| p(x) == side
}

/// True when some item of `s` lies on side `side` under `p`.
pub open spec fn has_side_item<T>(s: Seq<T>, p: spec_fn(T) -> bool, side: bool) -> bool {
    exists|i: int| 0 <= i < s.len() && p(s[i]) == side
}

/// The index of the first item of `s` on side `side` under `p`, or `s.len()`
/// when there is none.
pub open spec fn first_side_index<T>(s: Seq<T>, p: spec_fn(T) -> bool, side: bool) -> int
    decreases s.len(),
{
    if s.len() == 0 {
        0
    } else if p(s[0]) == side {
        0
    } else {
        1 + first_side_index(s.drop_first(), p, side)
    }
}

/// Filtering keeps nothing when no item satisfies the test.
pub proof fn lemma_filter_none<T>(s: Seq<T>, q: spec_fn(T) -> bool)
    requires
        forall|i: int| 0 <= i < s.len() ==> !q(s[i]),
    ensures
        s.filter(q) == Seq::<T>::empty(),
    decreases s.len(),
{
    reveal(Seq::filter);
    if s.len() > 0 {
        lemma_filter_none(s.drop_last(), q);
    }
}

/// Filtering keeps everything when every item satisfies the test.
pub proof fn lemma_filter_all<T>(s: Seq<T>, q: spec_fn(T) -> bool)
    requires
        forall|i: int| 0 <= i < s.len() ==> q(s[i]),
    ensures
        s.filter(q) == s,
    decreases s.len(),
{
    reveal(Seq::filter);
    if s.len() > 0 {
        lemma_filter_all(s.drop_last(), q);
        assert(s.drop_last().push(s.last()) =~= s);
    }
}

/// When some item of `s` lies on `side`, the first such index is a proper
/// index, its item lies on `side`, and everything before it does not.
pub proof fn lemma_first_side_index_props<T>(s: Seq<T>, p: spec_fn(T) -> bool, side: bool)
    requires
        has_side_item(s, p, side),
    ensures
        0 <= first_side_index(s, p, side) < s.len(),
        p(s[first_side_index(s, p, side)]) == side,
        forall|i: int| 0 <= i < first_side_index(s, p, side) ==> p(s[i]) != side,
    decreases s.len(),
{
    if s.len() > 0 && p(s[0]) != side {
        let t = s.drop_first();
        assert(has_side_item(t, p, side)) by {
            let j = choose|j: int| 0 <= j < s.len() && p(s[j]) == side;
            assert(t[j - 1] == s[j]);
        }
        lemma_first_side_index_props(t, p, side);
        assert forall|i: int| 0 <= i < first_side_index(s, p, side) implies p(s[i]) != side by {
            if i > 0 {
                assert(t[i - 1] == s[i]);
            }
        }
    }
}

/// The first index on `side` is pinned by its characteristic properties.
pub proof fn lemma_first_side_index_is<T>(s: Seq<T>, p: spec_fn(T) -> bool, side: bool, k: int)
    requires
        0 <= k < s.len(),
        p(s[k]) == side,
        forall|i: int| 0 <= i < k ==> p(s[i]) != side,
    ensures
        has_side_item(s, p, side),
        first_side_index(s, p, side) == k,
    decreases s.len(),
{
    assert(has_side_item(s, p, side));
    if k > 0 {
        let t = s.drop_first();
        assert(forall|i: int| 0 <= i < t.len() ==> t[i] == s[i + 1]);
        lemma_first_side_index_is(t, p, side, k - 1);
    }
}

/// Splitting `s` at its first item on `side`: that side's part of `s` starts
/// with the item there, and the other side's part starts with everything
/// pulled before it.
pub proof fn lemma_split_at_first<T>(s: Seq<T>, p: spec_fn(T) -> bool, side: bool)
    requires
        has_side_item(s, p, side),
    ensures
        ({
            let k = first_side_index(s, p, side);
            &&& s.filter(side_pred(p, side)) == seq![s[k]] + s.skip(k + 1).filter(
                side_pred(p, side),
            )
            &&& s.filter(side_pred(p, !side)) == s.take(k) + s.skip(k + 1).filter(
                side_pred(p, !side),
            )
        }),
{
    broadcast use vstd::seq_lib::group_seq_lib_default;

    lemma_first_side_index_props(s, p, side);
    let k = first_side_index(s, p, side);
    let before = s.take(k);
    let here = seq![s[k]];
    let after = s.skip(k + 1);
    assert(s =~= before + here + after);
    lemma_filter_none(before, side_pred(p, side));
    lemma_filter_all(here, side_pred(p, side));
    lemma_filter_all(before, side_pred(p, !side));
    lemma_filter_none(here, side_pred(p, !side));
    assert(s.filter(side_pred(p, side)) == (before + here).filter(side_pred(p, side))
        + after.filter(side_pred(p, side)));
    assert(s.filter(side_pred(p, side)) =~= here + after.filter(side_pred(p, side)));
    assert(s.filter(side_pred(p, !side)) =~= before + after.filter(side_pred(p, !side)));
}

/// Shared inner state for the two sides of a split.
///
/// It owns the underlying source and the predicate, together with a FIFO
/// buffer of items that were pulled while serving one side but belong to the
/// other, and a marker recording which side the buffer serves.
pub struct SharedSplitState<I, P> where I: Splittable, P: Fn(&I::Item) -> bool {
    /// Underlying source of items.
    iter: I,
    /// Predicate that sends an item left (`false`) or right (`true`).
    predicate: P,
    /// Items pulled from the source that the other side has yet to claim.
    cache: VecDeque<I::Item>,
    /// Which side the buffered items belong to.
    is_right_cached: bool,
    /// Whether the source has been observed exhausted; once set, the source
    /// is never queried again.
    exhausted: bool,
    /// The predicate as a mathematical function on items.
    side_fn: Ghost<spec_fn(I::Item) -> bool>,
}

impl<I, P> SharedSplitState<I, P> where I: Splittable, P: Fn(&I::Item) -> bool {
    /// The items the underlying source has not yet yielded.
    pub closed spec fn remaining(self) -> Seq<I::Item> {
        self.iter.remaining()
    }

    /// The buffered items, front first.
    pub closed spec fn cached(self) -> Seq<I::Item> {
        self.cache@
    }

    /// The side the buffered items belong to.
    pub closed spec fn cached_side(self) -> bool {
        self.is_right_cached
    }

    /// Whether exhaustion of the source has been observed.
    pub closed spec fn done(self) -> bool {
        self.exhausted
    }

    /// The mathematical function that gives each item's side.
    pub closed spec fn side_of(self) -> spec_fn(I::Item) -> bool {
        self.side_fn@
    }

    /// The stored predicate, as a value contracts can speak about.
    pub closed spec fn predicate_fn(self) -> P {
        self.predicate
    }

    /// Well-formedness: the predicate can be called on any item and agrees
    /// with `side_of`; every buffered item belongs to the marked side; and
    /// once exhaustion was observed, nothing remains in the source.
    pub open spec fn wf(self) -> bool {
        &&& forall|x: I::Item| #[trigger] call_requires(self.predicate_fn(), (&x,))
        &&& forall|x: I::Item, b: bool|
            call_ensures(self.predicate_fn(), (&x,), b) ==> b == (self.side_of())(x)
        &&& forall|i: int|
            0 <= i < self.cached().len() ==> (self.side_of())(#[trigger] self.cached()[i])
                == self.cached_side()
        &&& self.done() ==> self.remaining().len() == 0
    }

    /// The items the given side has yet to receive: first whatever the buffer
    /// holds for it, then its part of the source, in order.
    pub open spec fn pending(self, side: bool) -> Seq<I::Item> {
        let upcoming = self.remaining().filter(side_pred(self.side_of(), side));
        if self.cached_side() == side {
            self.cached() + upcoming
        } else {
            upcoming
        }
    }

    /// How one produce-next step for `side` transforms the state and what it
    /// returns: a buffered item of that side when there is one; otherwise the
    /// first matching item of the source, with the non-matching items pulled
    /// before it buffered for the other side; otherwise no item, with the
    /// whole rest of the source buffered and exhaustion recorded.
    pub open spec fn next_step(pre: Self, post: Self, side: bool, r: Option<I::Item>) -> bool {
        if pre.cached_side() == side && pre.cached().len() > 0 {
            &&& r == Some(pre.cached()[0])
            &&& post.cached() == pre.cached().drop_first()
            &&& post.remaining() == pre.remaining()
            &&& post.cached_side() == pre.cached_side()
            &&& post.done() == pre.done()
        } else if has_side_item(pre.remaining(), pre.side_of(), side) {
            let k = first_side_index(pre.remaining(), pre.side_of(), side);
            &&& r == Some(pre.remaining()[k])
            &&& post.remaining() == pre.remaining().skip(k + 1)
            &&& post.cached() == pre.cached() + pre.remaining().take(k)
            &&& post.cached_side() == (if k > 0 {
                !side
            } else {
                pre.cached_side()
            })
            &&& post.done() == pre.done()
        } else {
            &&& r is None
            &&& post.remaining().len() == 0
            &&& post.cached() == pre.cached() + pre.remaining()
            &&& post.cached_side() == (if pre.remaining().len() > 0 {
                !side
            } else {
                pre.cached_side()
            })
            &&& post.done()
        }
    }

    /// Everything one produce-next call for `side` guarantees: the step
    /// relation above, plus its reading in terms of the two pending streams —
    /// an item is returned exactly when the side still awaits one, it is the
    /// first awaited one, and the other side's stream is untouched.
    pub open spec fn next_post(pre: Self, post: Self, side: bool, r: Option<I::Item>) -> bool {
        &&& post.wf()
        &&& post.side_of() == pre.side_of()
        &&& Self::next_step(pre, post, side, r)
        &&& r is None <==> pre.pending(side).len() == 0
        &&& r matches Some(x) ==> pre.pending(side).len() > 0 && x == pre.pending(side)[0]
            && post.pending(side) == pre.pending(side).drop_first()
        &&& r is None ==> post.pending(side).len() == 0
        &&& post.pending(!side) == pre.pending(!side)
    }

    /// One step of the step relation, read on the two pending streams: an
    /// item comes back exactly when the side still awaits one, it is the
    /// first awaited one, and the other side's stream is untouched.
    proof fn lemma_step_pending(pre: Self, post: Self, side: bool, r: Option<I::Item>)
        requires
            post.side_of() == pre.side_of(),
            Self::next_step(pre, post, side, r),
        ensures
            r is None <==> pre.pending(side).len() == 0,
            r matches Some(x) ==> pre.pending(side).len() > 0 && x == pre.pending(side)[0]
                && post.pending(side) == pre.pending(side).drop_first(),
            r is None ==> post.pending(side).len() == 0,
            post.pending(!side) == pre.pending(!side),
    {
        broadcast use vstd::seq_lib::group_seq_lib_default;

        let p = pre.side_of();
        let qs = side_pred(p, side);
        let qo = side_pred(p, !side);
        if pre.cached_side() == side && pre.cached().len() > 0 {
            assert(post.pending(side) =~= pre.pending(side).drop_first());
        } else if has_side_item(pre.remaining(), p, side) {
            lemma_first_side_index_props(pre.remaining(), p, side);
            lemma_split_at_first(pre.remaining(), p, side);
            let k = first_side_index(pre.remaining(), p, side);
            let after = pre.remaining().skip(k + 1);
            assert(pre.pending(side) == seq![pre.remaining()[k]] + after.filter(qs));
            assert(pre.pending(side)[0] == pre.remaining()[k]);
            assert(post.pending(side) =~= pre.pending(side).drop_first());
            assert(pre.pending(!side) =~= (if pre.cached_side() == !side {
                pre.cached()
            } else {
                Seq::<I::Item>::empty()
            }) + pre.remaining().take(k) + after.filter(qo));
            assert(post.pending(!side) =~= pre.pending(!side));
        } else {
            assert(forall|i: int|
                0 <= i < pre.remaining().len() ==> p(#[trigger] pre.remaining()[i]) != side);
            lemma_filter_none(pre.remaining(), qs);
            lemma_filter_all(pre.remaining(), qo);
            assert(pre.pending(side).len() == 0);
            assert(post.pending(side).len() == 0);
            assert(post.pending(!side) =~= pre.pending(!side));
        }
    }

    /// Creates shared state for a fresh split: empty buffer, nothing pulled
    /// from `iter` yet, exhaustion not observed.
    pub fn new(iter: I, predicate: P, side_fn: Ghost<spec_fn(I::Item) -> bool>) -> (r: Self)
        requires
            forall|x: I::Item| #[trigger] call_requires(predicate, (&x,)),
            forall|x: I::Item, b: bool|
                call_ensures(predicate, (&x,), b) ==> b == (side_fn@)(x),
        ensures
            r.wf(),
            r.remaining() == iter.remaining(),
            r.cached() == Seq::<I::Item>::empty(),
            r.cached_side() == false,
            !r.done(),
            r.side_of() == side_fn@,
    {
        SharedSplitState {
            iter,
            predicate,
            cache: VecDeque::new(),
            is_right_cached: false,
            exhausted: false,
            side_fn,
        }
    }

    /// Returns the next item for the given side, or reports that none is
    /// left for it.
    ///
    /// A buffered item of that side is served first; otherwise the source is
    /// advanced until an item of that side appears, buffering the items of
    /// the other side passed over on the way, each pulled exactly once. Once
    /// the source is observed exhausted it is never queried again.
    pub fn next(&mut self, is_right: bool) -> (r: Option<I::Item>)
        requires
            old(self).wf(),
        ensures
            Self::next_post(*old(self), *final(self), is_right, r),
    {
        let ghost o = *old(self);
        if self.is_right_cached == is_right {
            let popped = self.cache.pop_front();
            if let Some(x) = popped {
                proof {
                    assert(self.cached() =~= o.cached().drop_first());
                    assert forall|i: int|
                        0 <= i < self.cached().len() implies (self.side_of())(
                        #[trigger] self.cached()[i]) == self.cached_side() by {
                        assert(self.cached()[i] == o.cached()[i + 1]);
                    }
                    assert(self.predicate_fn() == o.predicate_fn());
                    assert(self.side_of() == o.side_of());
                    assert(self.wf());
                    assert(Self::next_step(o, *self, is_right, Some(x)));
                    Self::lemma_step_pending(o, *self, is_right, Some(x));
                }
                return Some(x);
            }
        }
        if self.exhausted {
            proof {
                assert(self.cached() =~= o.cached());
                assert(self.cached() =~= o.cached() + o.remaining());
                assert(self.predicate_fn() == o.predicate_fn());
                assert(self.wf());
                assert(Self::next_step(o, *self, is_right, None::<I::Item>));
                Self::lemma_step_pending(o, *self, is_right, None::<I::Item>);
            }
            return None;
        }
        let ghost mut pulled: int = 0;
        proof {
            assert(self.remaining() =~= o.remaining().skip(0));
            assert(self.cached() =~= o.cached() + o.remaining().take(0));
            assert(self.cached() =~= o.cached());
            assert(self.predicate_fn() == o.predicate_fn());
            assert(self.wf());
        }
        loop
            invariant
                o == *old(self),
                self.wf(),
                !self.done(),
                !o.done(),
                self.predicate_fn() == o.predicate_fn(),
                self.side_of() == o.side_of(),
                o.cached_side() == is_right ==> o.cached().len() == 0,
                0 <= pulled <= o.remaining().len(),
                self.remaining() == o.remaining().skip(pulled),
                self.cached() == o.cached() + o.remaining().take(pulled),
                forall|i: int|
                    0 <= i < pulled ==> (o.side_of())(#[trigger] o.remaining()[i]) != is_right,
                pulled == 0 ==> self.cached_side() == o.cached_side(),
                pulled > 0 ==> self.cached_side() == !is_right,
            decreases o.remaining().len() - pulled,
        {
            let pulled_item = self.iter.pull_next();
            match pulled_item {
                None => {
                    self.exhausted = true;
                    proof {
                        assert(o.remaining().skip(pulled).len() == 0);
                        assert(pulled == o.remaining().len());
                        assert(o.remaining().take(pulled) =~= o.remaining());
                        assert(!has_side_item(o.remaining(), o.side_of(), is_right));
                        assert(self.predicate_fn() == o.predicate_fn());
                        assert(self.side_of() == o.side_of());
                        assert(self.wf());
                        assert(Self::next_step(o, *self, is_right, None::<I::Item>));
                        Self::lemma_step_pending(o, *self, is_right, None::<I::Item>);
                    }
                    return None;
                },
                Some(x) => {
                    proof {
                        assert(o.remaining().skip(pulled)[0] == o.remaining()[pulled]);
                        assert(self.remaining() =~= o.remaining().skip(pulled + 1));
                    }
                    if (self.predicate)(&x) == is_right {
                        proof {
                            assert(self.predicate_fn() == o.predicate_fn());
                            assert(self.side_of() == o.side_of());
                            assert((o.side_of())(x) == is_right);
                            lemma_first_side_index_is(
                                o.remaining(),
                                o.side_of(),
                                is_right,
                                pulled,
                            );
                            assert(self.wf());
                            assert(Self::next_step(o, *self, is_right, Some(x)));
                            Self::lemma_step_pending(o, *self, is_right, Some(x));
                        }
                        return Some(x);
                    } else {
                        self.is_right_cached = !is_right;
                        self.cache.push_back(x);
                        proof {
                            assert((o.side_of())(x) != is_right);
                            assert(o.remaining().take(pulled + 1) =~= o.remaining().take(
                                pulled,
                            ).push(x));
                            assert(self.cached() =~= o.cached() + o.remaining().take(pulled + 1));
                            pulled = pulled + 1;
                        }
                    }
                },
            }
        }
    }
}

} // verus!
