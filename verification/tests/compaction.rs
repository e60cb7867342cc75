use corro_agent::booked::BookedVersions;
use corro_agent::bookie::Bookie;
use corro_agent::compact::{
    clear_versions, compact_booked_for_actor, compaction_rows, db_versions_of, live_query_bounds,
    plan_compaction,
};
use corro_agent::known::{ActorId, KnownDbVersion, Timestamp};
use corro_agent::rows::BookkeepingRow;
use rangemap::RangeInclusiveSet;
use std::collections::{BTreeMap, HashSet};

const ACTOR: ActorId = ActorId(5);
const TS: Timestamp = Timestamp(1);

fn current(db_version: i64) -> KnownDbVersion {
    KnownDbVersion::Current { db_version, last_seq: 0, ts: TS }
}

fn live(of: &[i64]) -> HashSet<i64> {
    of.iter().copied().collect()
}

#[test]
fn test_in_memory_versions_compaction() {
    // the store holds an insert under db version 1 and, under db version 2,
    // the delete of all rows: of the two only db version 2 is still live
    let db_version: i64 = 2;
    let still_live = live(&[db_version]);

    assert_eq!(db_version, 2);

    let diff = compact_booked_for_actor(&vec![(1, 1)].into_iter().collect(), &still_live);

    assert!(diff.contains(&1));
    assert!(!diff.contains(&2));
}

#[test]
fn live_db_versions_are_kept() {
    let versions: BTreeMap<i64, i64> = vec![(1, 1), (2, 2)].into_iter().collect();
    assert!(compact_booked_for_actor(&versions, &live(&[1, 2])).is_empty());
    assert_eq!(compact_booked_for_actor(&versions, &live(&[1])), live(&[2]));
    assert_eq!(compact_booked_for_actor(&versions, &live(&[])), live(&[1, 2]));
    assert_eq!(compact_booked_for_actor(&versions, &live(&[7])), live(&[1, 2]));
    assert!(compact_booked_for_actor(&BTreeMap::new(), &live(&[7])).is_empty());
}

#[test]
fn bounds_of_the_live_query() {
    let versions: BTreeMap<i64, i64> = vec![(40, 1), (7, 2), (19, 3)].into_iter().collect();
    assert_eq!(live_query_bounds(&versions), Some((7, 40)));
    assert_eq!(live_query_bounds(&vec![(3, 9)].into_iter().collect()), Some((3, 3)));
    assert_eq!(live_query_bounds(&BTreeMap::new()), None);
    let mut keys = db_versions_of(&versions);
    keys.sort();
    assert_eq!(keys, vec![7, 19, 40]);
}

#[test]
fn retired_versions_are_cleared_in_memory() {
    let mut b = BookedVersions::new();
    b.insert(1, current(10));
    b.insert(2, current(20));
    b.insert(3, current(30));
    b.insert(5, current(50));
    let versions = b.current_versions();
    let to_clear = compact_booked_for_actor(&versions, &live(&[10, 50]));
    assert_eq!(to_clear, live(&[20, 30]));
    clear_versions(&mut b, &to_clear);
    assert_eq!(b.get(1), Some(&current(10)));
    assert_eq!(b.get(2), Some(&KnownDbVersion::Cleared));
    assert_eq!(b.get(3), Some(&KnownDbVersion::Cleared));
    assert_eq!(b.get(4), None);
    assert_eq!(b.get(5), Some(&current(50)));
    let spans: Vec<(i64, i64)> = b.ranges().iter().map(|r| (r.start, r.end)).collect();
    assert_eq!(spans, vec![(1, 1), (2, 3), (5, 5)]);
    // a db_version to clear under which no version is applied changes nothing
    clear_versions(&mut b, &live(&[77]));
    assert_eq!(b.get(1), Some(&current(10)));
}

#[test]
fn rows_of_a_compaction() {
    let mut b = BookedVersions::new();
    b.insert(1, current(10));
    b.insert_many((2, 4), KnownDbVersion::Cleared);
    let mut seqs = RangeInclusiveSet::new();
    seqs.insert(0..=1);
    b.insert(5, KnownDbVersion::Partial { seqs, last_seq: 3, ts: TS });
    b.insert(6, current(60));
    assert_eq!(
        compaction_rows(ACTOR, &b),
        vec![
            BookkeepingRow::current(ACTOR, 1, 10, 0, TS),
            BookkeepingRow::cleared(ACTOR, (2, 4)),
            BookkeepingRow::current(ACTOR, 6, 60, 0, TS),
        ]
    );
    assert!(compaction_rows(ACTOR, &BookedVersions::new()).is_empty());
}

#[test]
fn compaction_settles() {
    let mut bookie = Bookie::new();
    bookie.insert(ACTOR, 1, current(1));
    bookie.insert(ACTOR, 2, current(2));
    let still_live = live(&[2]);

    let versions = bookie.current_versions(ACTOR);
    let plan = plan_compaction(ACTOR, bookie.get(ACTOR).unwrap(), &versions, &still_live).unwrap();
    assert_eq!(plan.to_clear, live(&[1]));
    // the rows are those of the bookkeeping before the versions are cleared
    assert_eq!(
        plan.rows,
        vec![BookkeepingRow::current(ACTOR, 1, 1, 0, TS), BookkeepingRow::current(ACTOR, 2, 2, 0, TS)]
    );
    bookie.clear_versions(ACTOR, &plan.to_clear);
    assert_eq!(bookie.get(ACTOR).unwrap().get(1), Some(&KnownDbVersion::Cleared));
    assert_eq!(bookie.get(ACTOR).unwrap().get(2), Some(&current(2)));

    // a second run against the same live set has nothing to do
    let versions = bookie.current_versions(ACTOR);
    assert_eq!(versions.len(), 1);
    assert_eq!(plan_compaction(ACTOR, bookie.get(ACTOR).unwrap(), &versions, &still_live), None);
    assert!(compact_booked_for_actor(&versions, &still_live).is_empty());

    // clearing for an actor never heard of leaves the bookie as it is
    bookie.clear_versions(ActorId(77), &live(&[2]));
    assert_eq!(bookie.actors(), vec![ACTOR]);
    assert_eq!(bookie.get(ACTOR).unwrap().get(2), Some(&current(2)));
}

#[test]
fn compaction_settles_also_where_versions_share_a_db_version() {
    let mut bookie = Bookie::new();
    bookie.insert(ACTOR, 1, current(7));
    bookie.insert(ACTOR, 2, current(7));
    bookie.insert(ACTOR, 3, current(8));
    let still_live = live(&[8]);

    let versions = bookie.current_versions(ACTOR);
    let plan = plan_compaction(ACTOR, bookie.get(ACTOR).unwrap(), &versions, &still_live).unwrap();
    assert_eq!(plan.to_clear, live(&[7]));
    bookie.clear_versions(ACTOR, &plan.to_clear);
    let booked = bookie.get(ACTOR).unwrap();
    assert_eq!(booked.get(1), Some(&KnownDbVersion::Cleared));
    assert_eq!(booked.get(2), Some(&KnownDbVersion::Cleared));
    assert_eq!(booked.get(3), Some(&current(8)));

    let versions = bookie.current_versions(ACTOR);
    assert_eq!(plan_compaction(ACTOR, bookie.get(ACTOR).unwrap(), &versions, &still_live), None);
}
