use split_iter::handle::Split;
use split_iter::source::split;
use split_iter::source::Splittable;
use split_iter::source::VecSource;
use split_iter::state::SharedSplitState;
use std::cell::Cell;

/// Pulls from one handle until it reports exhaustion, collecting the items.
fn drain<T, P: Fn(&T) -> bool>(
    handle: &Split,
    state: &mut SharedSplitState<VecSource<T>, P>,
) -> Vec<T> {
    let mut out = Vec::new();
    while let Some(x) = handle.next(state) {
        out.push(x);
    }
    out
}

#[test]
fn it_works() {
    let (mut state, odd, even) = split(VecSource::new((1..10).collect()), |v: &i32| v % 2 == 0);
    assert_eq!(drain(&odd, &mut state), vec![1, 3, 5, 7, 9]);
    assert_eq!(drain(&even, &mut state), vec![2, 4, 6, 8]);

    let (mut state, low, high) = split(VecSource::new((1..20).collect()), |v: &i32| v >= &10);
    assert_eq!(drain(&high, &mut state), (10..20).collect::<Vec<_>>());
    assert_eq!(drain(&low, &mut state), (1..10).collect::<Vec<_>>());
}

#[test]
fn even_scenario() {
    let (mut state, left, right) = split(VecSource::new((1..10).collect()), |v: &i32| v % 2 == 0);
    assert_eq!(drain(&left, &mut state), vec![1, 3, 5, 7, 9]);
    assert_eq!(drain(&right, &mut state), vec![2, 4, 6, 8]);
}

#[test]
fn threshold_scenario_right_first() {
    // Draining the right side first forces 1..=9 to be buffered for the left
    // side before the right side's first item appears.
    let (mut state, left, right) = split(VecSource::new((1..20).collect()), |v: &i32| *v >= 10);
    assert_eq!(drain(&right, &mut state), (10..20).collect::<Vec<_>>());
    assert_eq!(drain(&left, &mut state), (1..10).collect::<Vec<_>>());
}

#[test]
fn interleaved_pulls() {
    let (mut state, left, right) = split(VecSource::new((1..7).collect()), |v: &i32| v % 2 == 0);
    assert_eq!(left.next(&mut state), Some(1));
    assert_eq!(right.next(&mut state), Some(2));
    assert_eq!(right.next(&mut state), Some(4));
    assert_eq!(left.next(&mut state), Some(3));
    assert_eq!(left.next(&mut state), Some(5));
    assert_eq!(right.next(&mut state), Some(6));
    assert_eq!(left.next(&mut state), None);
    assert_eq!(right.next(&mut state), None);
}

#[test]
fn one_side_alone() {
    // Pulling only one handle terminates for that handle even though every
    // item it passes over must be buffered for the untouched side.
    let (mut state, _left, right) = split(
        VecSource::new(vec![1, 3, 5, 2, 4, 6, 7, 9]),
        |v: &i32| v % 2 == 0,
    );
    assert_eq!(drain(&right, &mut state), vec![2, 4, 6]);
}

#[test]
fn exhausted_side_stays_empty() {
    let (mut state, left, right) = split(VecSource::new(vec![2, 4, 6]), |v: &i32| v % 2 == 0);
    assert_eq!(left.next(&mut state), None);
    assert_eq!(left.next(&mut state), None);
    assert_eq!(drain(&right, &mut state), vec![2, 4, 6]);
    assert_eq!(right.next(&mut state), None);
    assert_eq!(left.next(&mut state), None);
    assert_eq!(right.next(&mut state), None);
}

#[test]
fn empty_input() {
    let (mut state, left, right) = split(VecSource::new(Vec::<i32>::new()), |v: &i32| *v > 0);
    assert_eq!(left.next(&mut state), None);
    assert_eq!(right.next(&mut state), None);
    assert_eq!(left.next(&mut state), None);
}

#[test]
fn all_items_on_one_side() {
    let (mut state, left, right) = split(VecSource::new(vec![1, 2, 3]), |_v: &i32| true);
    assert_eq!(drain(&right, &mut state), vec![1, 2, 3]);
    assert_eq!(drain(&left, &mut state), Vec::<i32>::new());
}

#[test]
fn predicate_called_once_per_item() {
    let calls = Cell::new(0usize);
    let (mut state, left, right) = split(VecSource::new((1..11).collect()), |v: &i32| {
        calls.set(calls.get() + 1);
        v % 2 == 0
    });
    assert_eq!(drain(&right, &mut state), vec![2, 4, 6, 8, 10]);
    assert_eq!(drain(&left, &mut state), vec![1, 3, 5, 7, 9]);
    assert_eq!(calls.get(), 10);
}

#[test]
fn source_yields_in_order() {
    let mut source = VecSource::new(vec![10, 20]);
    assert_eq!(source.pull_next(), Some(10));
    assert_eq!(source.pull_next(), Some(20));
    assert_eq!(source.pull_next(), None);
    assert_eq!(source.pull_next(), None);
}
