//! The guarantees of the split as a whole, over any run of produce-next
//! calls in any interleaving: each side receives exactly its part of the
//! input, in order; nothing is lost or duplicated; an exhausted side stays
//! exhausted; and the source is consumed strictly forward, once.

use crate::source::Splittable;
use crate::state::first_side_index;
use crate::state::has_side_item;
use crate::state::lemma_first_side_index_props;
use crate::state::side_pred;
use crate::state::SharedSplitState;
use vstd::prelude::*;

verus! {

/// The items a run of produce-next calls handed out for `side`, in order:
/// the run is given by the side each call asked for and the result it got.
pub open spec fn side_outputs<T>(sides: Seq<bool>, outs: Seq<Option<T>>, side: bool) -> Seq<T>
    decreases sides.len(),
{
    if sides.len() == 0 || outs.len() == 0 {
        Seq::empty()
    } else {
        (if sides[0] == side {
            match outs[0] {
                Some(x) => seq![x],
                None => Seq::empty(),
            }
        } else {
            Seq::empty()
        }) + side_outputs(sides.drop_first(), outs.drop_first(), side)
    }
}

/// A run of the split: consecutive states joined by produce-next calls,
/// `sides[j]` being the side the call asked for and `outs[j]` its result.
pub open spec fn is_run<I, P>(
    states: Seq<SharedSplitState<I, P>>,
    sides: Seq<bool>,
    outs: Seq<Option<I::Item>>,
) -> bool where I: Splittable, P: Fn(&I::Item) -> bool {
    &&& states.len() == sides.len() + 1
    &&& outs.len() == sides.len()
    &&& forall|j: int|
        0 <= j < sides.len() ==> SharedSplitState::next_post(
            #[trigger] states[j],
            states[j + 1],
            sides[j],
            outs[j],
        )
}

/// Along any run, what a side has received plus what it is still owed is
/// exactly what it was owed at the start, in that order: produce-next moves
/// items out one at a time, never reordering them, and calls for one side
/// never disturb the other.
pub proof fn lemma_run_conserves_side<I, P>(
    states: Seq<SharedSplitState<I, P>>,
    sides: Seq<bool>,
    outs: Seq<Option<I::Item>>,
    side: bool,
) where I: Splittable, P: Fn(&I::Item) -> bool
    requires
        is_run(states, sides, outs),
    ensures
        side_outputs(sides, outs, side) + states.last().pending(side) == states.first().pending(
            side,
        ),
    decreases sides.len(),
{
    if sides.len() == 0 {
        assert(side_outputs(sides, outs, side) + states.last().pending(side)
            =~= states.first().pending(side));
    } else {
        let ts = states.drop_first();
        let tsides = sides.drop_first();
        let touts = outs.drop_first();
        assert(is_run(ts, tsides, touts)) by {
            assert forall|j: int| 0 <= j < tsides.len() implies SharedSplitState::next_post(
                #[trigger] ts[j],
                ts[j + 1],
                tsides[j],
                touts[j],
            ) by {
                assert(ts[j] == states[j + 1]);
                assert(ts[j + 1] == states[j + 2]);
                assert(SharedSplitState::next_post(
                    states[j + 1],
                    states[j + 2],
                    sides[j + 1],
                    outs[j + 1],
                ));
            }
        }
        lemma_run_conserves_side(ts, tsides, touts, side);
        assert(states.last() == ts.last());
        assert(ts.first() == states[1]);
        assert(SharedSplitState::next_post(states[0], states[1], sides[0], outs[0]));
        let tail_out = side_outputs(tsides, touts, side);
        if sides[0] == side {
            if outs[0] is Some {
                let x = choose|x: I::Item| outs[0] == Some(x);
                assert(side_outputs(sides, outs, side) =~= seq![x] + tail_out);
                assert(x == states[0].pending(side)[0]);
                assert(states[1].pending(side) == states[0].pending(side).drop_first());
                assert(seq![x] + tail_out + states.last().pending(side) =~= seq![x] + (tail_out
                    + states.last().pending(side)));
                assert(seq![x] + states[0].pending(side).drop_first() =~= states[0].pending(
                    side,
                ));
            } else {
                assert(states[0].pending(side).len() == 0);
                assert(states[1].pending(side).len() == 0);
                assert(states[1].pending(side) =~= states[0].pending(side));
                assert(side_outputs(sides, outs, side) =~= tail_out);
            }
        } else {
            assert(states[1].pending(side) == states[0].pending(side));
            assert(side_outputs(sides, outs, side) =~= tail_out);
        }
    }
}

/// Draining one side completely — under any interleaving with calls for the
/// other side — yields exactly the input items the predicate places on that
/// side, in the input's order.
pub proof fn lemma_partition_complete<I, P>(
    states: Seq<SharedSplitState<I, P>>,
    sides: Seq<bool>,
    outs: Seq<Option<I::Item>>,
    side: bool,
) where I: Splittable, P: Fn(&I::Item) -> bool
    requires
        is_run(states, sides, outs),
        states.first().cached().len() == 0,
        states.last().pending(side).len() == 0,
    ensures
        side_outputs(sides, outs, side) == states.first().remaining().filter(
            side_pred(states.first().side_of(), side),
        ),
{
    lemma_run_conserves_side(states, sides, outs, side);
    assert(states.first().pending(side) =~= states.first().remaining().filter(
        side_pred(states.first().side_of(), side),
    ));
    assert(side_outputs(sides, outs, side) + states.last().pending(side) =~= side_outputs(
        sides,
        outs,
        side,
    ));
}

/// Filtering a sequence by the two sides of one side function parts its
/// items in two: as multisets, the parts add back to the whole.
pub proof fn lemma_side_partition_multiset<T>(s: Seq<T>, p: spec_fn(T) -> bool)
    ensures
        s.filter(side_pred(p, false)).to_multiset().add(
            s.filter(side_pred(p, true)).to_multiset(),
        ) == s.to_multiset(),
    decreases s.len(),
{
    broadcast use vstd::seq_lib::group_to_multiset_ensures;
    broadcast use vstd::multiset::group_multiset_axioms;

    reveal(Seq::filter);
    let lo = s.filter(side_pred(p, false));
    let hi = s.filter(side_pred(p, true));
    if s.len() == 0 {
        assert(lo.to_multiset().add(hi.to_multiset()) =~= s.to_multiset());
    } else {
        let d = s.drop_last();
        let l = s.last();
        lemma_side_partition_multiset(d, p);
        let dlo = d.filter(side_pred(p, false));
        let dhi = d.filter(side_pred(p, true));
        assert(d.push(l) =~= s);
        assert(s.to_multiset() == d.to_multiset().insert(l));
        if p(l) {
            assert(hi == dhi.push(l));
            assert(lo == dlo);
            assert(dlo.to_multiset().add(dhi.to_multiset().insert(l)) =~= dlo.to_multiset().add(
                dhi.to_multiset(),
            ).insert(l));
        } else {
            assert(lo == dlo.push(l));
            assert(hi == dhi);
            assert(dlo.to_multiset().insert(l).add(dhi.to_multiset()) =~= dlo.to_multiset().add(
                dhi.to_multiset(),
            ).insert(l));
        }
    }
}

/// No duplication, no loss: when a run has drained both sides, the two
/// output streams together hold exactly the items the input held — each
/// input item was produced by exactly one side, exactly once.
pub proof fn lemma_no_duplication_no_loss<I, P>(
    states: Seq<SharedSplitState<I, P>>,
    sides: Seq<bool>,
    outs: Seq<Option<I::Item>>,
) where I: Splittable, P: Fn(&I::Item) -> bool
    requires
        is_run(states, sides, outs),
        states.first().cached().len() == 0,
        states.last().pending(false).len() == 0,
        states.last().pending(true).len() == 0,
    ensures
        side_outputs(sides, outs, false).to_multiset().add(
            side_outputs(sides, outs, true).to_multiset(),
        ) == states.first().remaining().to_multiset(),
{
    lemma_partition_complete(states, sides, outs, false);
    lemma_partition_complete(states, sides, outs, true);
    lemma_side_partition_multiset(states.first().remaining(), states.first().side_of());
}

/// Exhaustion is idempotent: once a side has nothing pending — in
/// particular, once its produce-next has answered "no item" — any further
/// call, for either side, leaves it with nothing pending, and a further
/// call for that side answers "no item" again.
pub proof fn lemma_exhaustion_idempotent<I, P>(
    pre: SharedSplitState<I, P>,
    post: SharedSplitState<I, P>,
    side: bool,
    drained: bool,
    r: Option<I::Item>,
) where I: Splittable, P: Fn(&I::Item) -> bool
    requires
        pre.pending(drained).len() == 0,
        SharedSplitState::next_post(pre, post, side, r),
    ensures
        post.pending(drained).len() == 0,
        side == drained ==> r is None,
{
}

/// Over a whole run: a side that starts with nothing pending is handed
/// nothing by any of the run's calls — however they interleave with calls
/// for the other side — and ends with nothing pending.
pub proof fn lemma_run_keeps_side_empty<I, P>(
    states: Seq<SharedSplitState<I, P>>,
    sides: Seq<bool>,
    outs: Seq<Option<I::Item>>,
    drained: bool,
) where I: Splittable, P: Fn(&I::Item) -> bool
    requires
        is_run(states, sides, outs),
        states.first().pending(drained).len() == 0,
    ensures
        side_outputs(sides, outs, drained) == Seq::<I::Item>::empty(),
        states.last().pending(drained).len() == 0,
{
    lemma_run_conserves_side(states, sides, outs, drained);
    assert(side_outputs(sides, outs, drained) =~= Seq::<I::Item>::empty());
}

/// Single consumption: a produce-next step removes a prefix of the items
/// remaining in the source — the source is never rewound, so no item is
/// pulled twice — and a step answered from the buffer removes nothing.
pub proof fn lemma_single_consumption<I, P>(
    pre: SharedSplitState<I, P>,
    post: SharedSplitState<I, P>,
    side: bool,
    r: Option<I::Item>,
) where I: Splittable, P: Fn(&I::Item) -> bool
    requires
        SharedSplitState::next_step(pre, post, side, r),
    ensures
        exists|k: int|
            0 <= k <= pre.remaining().len() && post.remaining() == pre.remaining().skip(k),
        pre.cached_side() == side && pre.cached().len() > 0 ==> post.remaining()
            == pre.remaining(),
{
    let rem = pre.remaining();
    if pre.cached_side() == side && pre.cached().len() > 0 {
        assert(rem.skip(0) =~= rem);
        assert(0 <= 0 <= rem.len() && post.remaining() == rem.skip(0));
    } else if has_side_item(rem, pre.side_of(), side) {
        lemma_first_side_index_props(rem, pre.side_of(), side);
        let k = first_side_index(rem, pre.side_of(), side);
        assert(0 <= k + 1 <= rem.len() && post.remaining() == rem.skip(k + 1));
    } else {
        assert(post.remaining() =~= rem.skip(rem.len() as int));
        assert(0 <= rem.len() <= rem.len() && post.remaining() == rem.skip(rem.len() as int));
    }
}

} // verus!
