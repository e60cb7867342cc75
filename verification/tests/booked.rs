use corro_agent::booked::{BookedRange, BookedVersions};
use corro_agent::bookie::Bookie;
use corro_agent::known::{ActorId, KnownDbVersion, Timestamp};
use rangemap::RangeInclusiveSet;

fn current(db_version: i64, last_seq: i64) -> KnownDbVersion {
    KnownDbVersion::Current { db_version, last_seq, ts: Timestamp(7) }
}

fn partial(runs: &[(i64, i64)], last_seq: i64) -> KnownDbVersion {
    let mut seqs = RangeInclusiveSet::new();
    for (lo, hi) in runs {
        seqs.insert(*lo..=*hi);
    }
    KnownDbVersion::Partial { seqs, last_seq, ts: Timestamp(7) }
}

fn spans(b: &BookedVersions) -> Vec<(i64, i64)> {
    b.ranges().iter().map(|r| (r.start, r.end)).collect()
}

#[test]
fn new_bookkeeping_knows_nothing() {
    let b = BookedVersions::new();
    assert!(b.ranges().is_empty());
    assert_eq!(b.last(), None);
    assert!(!b.contains(1, None));
    assert!(b.need().is_empty());
    assert!(b.current_versions().is_empty());
    // an empty range of versions asks for nothing
    assert!(b.contains_all((5, 4), None));
    assert!(!b.contains_all((5, 5), None));
}

#[test]
fn insert_keeps_ranges_sorted_and_apart() {
    let mut b = BookedVersions::new();
    b.insert(5, current(50, 0));
    b.insert(1, current(10, 0));
    b.insert(3, current(30, 0));
    assert_eq!(spans(&b), vec![(1, 1), (3, 3), (5, 5)]);
    assert_eq!(b.last(), Some(5));
    assert_eq!(b.get(3), Some(&current(30, 0)));
    assert_eq!(b.get(2), None);
    assert!(b.contains_version(1));
    assert!(!b.contains_version(4));
}

#[test]
fn applied_neighbours_are_not_merged() {
    let mut b = BookedVersions::new();
    b.insert(1, current(9, 0));
    b.insert(2, current(9, 0));
    assert_eq!(spans(&b), vec![(1, 1), (2, 2)]);
}

#[test]
fn cleared_ranges_that_touch_are_merged() {
    let mut b = BookedVersions::new();
    b.insert_many((1, 3), KnownDbVersion::Cleared);
    b.insert_many((7, 9), KnownDbVersion::Cleared);
    assert_eq!(spans(&b), vec![(1, 3), (7, 9)]);
    b.insert_many((4, 5), KnownDbVersion::Cleared);
    assert_eq!(spans(&b), vec![(1, 5), (7, 9)]);
    b.insert(6, KnownDbVersion::Cleared);
    assert_eq!(spans(&b), vec![(1, 9)]);
    assert_eq!(
        b.ranges()[0],
        BookedRange { start: 1, end: 9, known: KnownDbVersion::Cleared }
    );
}

#[test]
fn cleared_range_overlapping_cleared_ranges() {
    let mut b = BookedVersions::new();
    b.insert_many((1, 4), KnownDbVersion::Cleared);
    b.insert_many((8, 12), KnownDbVersion::Cleared);
    b.insert(6, current(60, 2));
    b.insert_many((3, 9), KnownDbVersion::Cleared);
    assert_eq!(spans(&b), vec![(1, 12)]);
    assert_eq!(b.get(6), Some(&KnownDbVersion::Cleared));
}

#[test]
fn applied_version_splits_a_cleared_range() {
    let mut b = BookedVersions::new();
    b.insert_many((1, 9), KnownDbVersion::Cleared);
    b.insert(4, current(40, 1));
    assert_eq!(spans(&b), vec![(1, 3), (4, 4), (5, 9)]);
    assert_eq!(b.get(3), Some(&KnownDbVersion::Cleared));
    assert_eq!(b.get(4), Some(&current(40, 1)));
    assert_eq!(b.get(5), Some(&KnownDbVersion::Cleared));
    // at the ends of the range nothing is left on one side
    b.insert(1, current(11, 0));
    b.insert(9, current(99, 0));
    assert_eq!(spans(&b), vec![(1, 1), (2, 3), (4, 4), (5, 8), (9, 9)]);
    // clearing the applied version again joins all that is cleared
    b.insert(4, KnownDbVersion::Cleared);
    assert_eq!(spans(&b), vec![(1, 1), (2, 8), (9, 9)]);
}

#[test]
fn insert_overwrites_what_was_known() {
    let mut b = BookedVersions::new();
    b.insert(2, partial(&[(0, 1)], 5));
    assert_eq!(b.get(2), Some(&partial(&[(0, 1)], 5)));
    b.insert(2, current(20, 5));
    assert_eq!(b.get(2), Some(&current(20, 5)));
    assert_eq!(spans(&b), vec![(2, 2)]);
}

#[test]
fn insert_at_the_limits_of_the_version_space() {
    let mut b = BookedVersions::new();
    b.insert_many((i64::MIN, i64::MAX), KnownDbVersion::Cleared);
    assert_eq!(spans(&b), vec![(i64::MIN, i64::MAX)]);
    b.insert(i64::MAX, current(1, 0));
    b.insert(i64::MIN, current(2, 0));
    assert_eq!(
        spans(&b),
        vec![(i64::MIN, i64::MIN), (i64::MIN + 1, i64::MAX - 1), (i64::MAX, i64::MAX)]
    );
    assert_eq!(b.last(), Some(i64::MAX));
}

#[test]
fn contains_looks_at_sequence_numbers_of_buffered_versions_only() {
    let mut b = BookedVersions::new();
    b.insert(1, current(10, 9));
    b.insert(2, partial(&[(0, 4), (7, 9)], 9));
    b.insert(3, KnownDbVersion::Cleared);
    assert!(b.contains(1, Some((0, 100))));
    assert!(b.contains(3, Some((0, 100))));
    assert!(b.contains(2, None));
    assert!(b.contains(2, Some((0, 4))));
    assert!(b.contains(2, Some((8, 9))));
    assert!(!b.contains(2, Some((4, 7))));
    assert!(!b.contains(2, Some((5, 6))));
    assert!(!b.contains(4, Some((0, 0))));
    // sequence numbers that start after they end ask for nothing
    assert!(b.contains(2, Some((6, 5))));
}

#[test]
fn contains_all_needs_every_version() {
    let mut b = BookedVersions::new();
    b.insert_many((1, 3), KnownDbVersion::Cleared);
    b.insert(4, current(40, 0));
    b.insert(6, current(60, 0));
    assert!(b.contains_all((1, 4), None));
    assert!(b.contains_all((2, 3), None));
    assert!(!b.contains_all((1, 5), None));
    assert!(!b.contains_all((4, 6), None));
    assert!(!b.contains_all((0, 2), None));
    assert!(b.contains_all((6, 6), Some((0, 3))));
    b.insert(5, partial(&[(0, 1)], 3));
    assert!(b.contains_all((1, 6), None));
    assert!(b.contains_all((1, 6), Some((0, 1))));
    assert!(!b.contains_all((1, 6), Some((0, 2))));
}

#[test]
fn gaps_and_need() {
    let mut b = BookedVersions::new();
    b.insert(3, current(30, 0));
    b.insert_many((6, 8), KnownDbVersion::Cleared);
    b.insert(12, current(120, 0));
    assert_eq!(b.need(), vec![(1, 2), (4, 5), (9, 11)]);
    assert_eq!(b.gaps(1, 12), vec![(1, 2), (4, 5), (9, 11)]);
    assert_eq!(b.gaps(4, 20), vec![(4, 5), (9, 11), (13, 20)]);
    assert_eq!(b.gaps(6, 8), Vec::<(i64, i64)>::new());
    assert_eq!(b.gaps(7, 9), vec![(9, 9)]);
    assert_eq!(b.gaps(9, 7), Vec::<(i64, i64)>::new());
    assert_eq!(b.gaps(-3, 0), vec![(-3, 0)]);
    let mut full = BookedVersions::new();
    full.insert_many((1, 5), KnownDbVersion::Cleared);
    assert!(full.need().is_empty());
}

#[test]
fn current_versions_by_db_version() {
    let mut b = BookedVersions::new();
    b.insert(1, current(100, 0));
    b.insert(2, KnownDbVersion::Cleared);
    b.insert(3, partial(&[(0, 0)], 4));
    b.insert(4, current(90, 0));
    let m = b.current_versions();
    assert_eq!(m.len(), 2);
    assert_eq!(m.get(&100), Some(&1));
    assert_eq!(m.get(&90), Some(&4));
    // where two versions claim one db_version, the higher version is given
    b.insert(7, current(100, 0));
    assert_eq!(b.current_versions().get(&100), Some(&7));
}

#[test]
fn known_db_version_clone_and_seqs() {
    let p = partial(&[(0, 2), (5, 9)], 9);
    let c = p.clone();
    assert_eq!(p, c);
    assert!(c.has_seq(0));
    assert!(c.has_seq(9));
    assert!(!c.has_seq(3));
    assert!(c.has_seqs(5, 9));
    assert!(!c.has_seqs(2, 5));
    assert!(!c.is_fully_buffered());
    assert!(!c.is_cleared());
    assert!(partial(&[(0, 4), (5, 9)], 9).is_fully_buffered());
    assert!(!partial(&[(1, 9)], 9).is_fully_buffered());
    assert!(!current(1, 9).is_fully_buffered());
    assert!(current(1, 9).has_seq(1000));
    assert!(KnownDbVersion::Cleared.is_cleared());
    assert_eq!(current(1, 9).clone(), current(1, 9));
}

#[test]
fn bookie_keeps_actors_apart() {
    let a = ActorId(1);
    let b = ActorId(2);
    let mut bookie = Bookie::new();
    assert!(bookie.actors().is_empty());
    assert!(!bookie.contains(a, (1, 1), None));
    // of an actor never heard of nothing is known, not even nothing
    assert!(!bookie.contains(a, (2, 1), None));
    bookie.insert(a, 1, current(10, 0));
    bookie.insert_many(b, (1, 4), KnownDbVersion::Cleared);
    bookie.insert(a, 3, partial(&[(0, 1)], 2));
    assert_eq!(bookie.actors(), vec![a, b]);
    assert!(bookie.contains(a, (1, 1), Some((0, 5))));
    assert!(!bookie.contains(a, (1, 3), None));
    assert!(bookie.contains(a, (3, 3), Some((0, 1))));
    assert!(!bookie.contains(a, (3, 3), Some((0, 2))));
    assert!(bookie.contains(b, (1, 4), Some((0, 9))));
    assert!(bookie.contains(a, (2, 1), None));
    assert_eq!(bookie.last(a), Some(3));
    assert_eq!(bookie.last(b), Some(4));
    assert_eq!(bookie.last(ActorId(3)), None);
    assert_eq!(bookie.need(a), vec![(2, 2)]);
    assert!(bookie.need(b).is_empty());
    assert!(bookie.need(ActorId(3)).is_empty());
    assert_eq!(bookie.current_versions(a).get(&10), Some(&1));
    assert!(bookie.current_versions(b).is_empty());
    assert_eq!(bookie.get(a).map(|v| v.ranges().len()), Some(2));
    assert!(bookie.get(ActorId(3)).is_none());
    bookie.ensure_actor(ActorId(3));
    assert!(bookie.get(ActorId(3)).is_some());
    assert_eq!(bookie.actors(), vec![a, b, ActorId(3)]);
    bookie.ensure_actor(a);
    assert_eq!(bookie.last(a), Some(3));
}
