use corro_agent::bookie::Bookie;
use corro_agent::changes::{select_impactful, Change, ChangeV1, Changeset, SqliteValue};
use corro_agent::ingest::{
    held_runs, ingest_complete, ingest_empty, ingest_fragment, plan_ingest,
    process_single_version, record_ingested, ChangeError, IngestPlan, Ingested, StorageReport,
};
use corro_agent::known::{ActorId, KnownDbVersion, Timestamp};
use corro_agent::promote::{
    process_fully_buffered_changes, promotion_ready, record_promoted, PromotionReport,
};
use corro_agent::rows::{BookkeepingRow, SeqBookkeepingRow};
use rangemap::RangeInclusiveSet;

const ACTOR: ActorId = ActorId(0xA11CE);
const TS: Timestamp = Timestamp(42);

fn change(seq: i64) -> Change {
    Change {
        table: String::from("tests"),
        pk: vec![1, seq as u8],
        cid: String::from("text"),
        val: SqliteValue::Text(format!("hello world {seq}")),
        col_version: 1,
        db_version: 1,
        seq,
        site_id: ACTOR,
        cl: 1,
    }
}

fn changes(lo: i64, hi: i64) -> Vec<Change> {
    (lo..=hi).map(change).collect()
}

fn fragment(version: i64, lo: i64, hi: i64, last_seq: i64) -> ChangeV1 {
    ChangeV1 {
        actor_id: ACTOR,
        changeset: Changeset::Full {
            version,
            changes: changes(lo, hi),
            seqs: (lo, hi),
            last_seq,
            ts: TS,
        },
    }
}

fn seqs(runs: &[(i64, i64)]) -> RangeInclusiveSet<i64> {
    let mut s = RangeInclusiveSet::new();
    for (lo, hi) in runs {
        s.insert(*lo..=*hi);
    }
    s
}

fn seq_row(version: i64, lo: i64, hi: i64, last_seq: i64) -> SeqBookkeepingRow {
    SeqBookkeepingRow { site_id: ACTOR, version, start_seq: lo, end_seq: hi, last_seq, ts: TS }
}

fn taken_in(bookie: &mut Bookie, change: ChangeV1, report: StorageReport) -> Ingested {
    let x = process_single_version(bookie, change, report).unwrap().unwrap();
    record_ingested(bookie, &x);
    x
}

#[test]
fn changeset_accessors() {
    let empty = Changeset::Empty { versions: (3, 8) };
    assert_eq!(empty.versions(), (3, 8));
    assert_eq!(empty.seqs(), None);
    assert_eq!(empty.last_seq(), None);
    assert_eq!(empty.ts(), None);
    assert!(empty.is_complete());
    assert!(empty.is_empty());
    assert!(empty.is_empty_versions());
    assert_eq!(empty.len(), 0);
    let full = fragment(4, 0, 9, 9);
    assert_eq!(full.changeset.versions(), (4, 4));
    assert_eq!(full.changeset.seqs(), Some((0, 9)));
    assert_eq!(full.changeset.last_seq(), Some(9));
    assert_eq!(full.changeset.ts(), Some(TS));
    assert!(full.is_complete());
    assert!(!full.changeset.is_empty_versions());
    assert_eq!(full.changeset.len(), 10);
    assert!(!fragment(4, 1, 9, 9).is_complete());
    assert!(!fragment(4, 0, 8, 9).is_complete());
    assert!(empty.is_well_formed());
    assert!(Changeset::Empty { versions: (3, 3) }.is_well_formed());
    assert!(!Changeset::Empty { versions: (3, 2) }.is_well_formed());
    assert!(full.changeset.is_well_formed());
    assert!(fragment(4, 5, 5, 9).changeset.is_well_formed());
    assert!(!fragment(4, 5, 4, 9).changeset.is_well_formed());
    // a complete version without a change has no sequence number to be out of order
    assert!(fragment(4, 0, -1, -1).changeset.is_well_formed());
}

#[test]
fn impactful_changes_are_those_that_grew_the_count() {
    let kept = select_impactful(changes(0, 4), &vec![1, 1, 2, 5, 5]);
    assert_eq!(kept, vec![change(0), change(2), change(3)]);
    assert!(select_impactful(changes(0, 2), &vec![0, 0, 0]).is_empty());
    assert_eq!(select_impactful(changes(0, 2), &vec![1, 2, 3]), changes(0, 2));
    // a count that falls is no growth, and growth is counted from the fall
    assert_eq!(select_impactful(changes(0, 2), &vec![3, 1, 2]), vec![change(0), change(2)]);
    assert!(select_impactful(vec![], &vec![]).is_empty());
}

#[test]
fn plan_follows_the_kind_of_changeset() {
    let bookie = Bookie::new();
    let empty = ChangeV1 { actor_id: ACTOR, changeset: Changeset::Empty { versions: (1, 3) } };
    assert_eq!(plan_ingest(&bookie, &empty), IngestPlan::StoreEmpty { versions: (1, 3) });
    assert_eq!(plan_ingest(&bookie, &fragment(2, 0, 9, 9)), IngestPlan::Apply { version: 2 });
    assert_eq!(plan_ingest(&bookie, &fragment(2, 5, 9, 9)), IngestPlan::Buffer { version: 2 });
}

#[test]
fn empty_versions_are_cleared() {
    let mut bookie = Bookie::new();
    let news = ChangeV1 { actor_id: ACTOR, changeset: Changeset::Empty { versions: (2, 6) } };
    let x = taken_in(&mut bookie, news, StorageReport::Emptied);
    assert_eq!(x, ingest_empty(ACTOR, (2, 6)));
    assert_eq!(x.known, KnownDbVersion::Cleared);
    assert_eq!(x.changeset, Changeset::Empty { versions: (2, 6) });
    assert_eq!(
        x.bookkeeping,
        Some(BookkeepingRow {
            actor_id: ACTOR,
            start_version: 2,
            end_version: Some(6),
            db_version: None,
            last_seq: None,
            ts: None,
        })
    );
    assert!(x.seq_rows.is_empty());
    assert!(!x.schedule_apply);
    assert_eq!(x.db_version, None);
    assert!(bookie.contains(ACTOR, (2, 6), None));
    assert!(!bookie.contains(ACTOR, (1, 6), None));
}

#[test]
fn complete_version_with_effect_is_applied() {
    let mut bookie = Bookie::new();
    let report = StorageReport::Applied { db_version: 17, rows_impacted: vec![1, 1, 2] };
    let x = taken_in(&mut bookie, fragment(1, 0, 2, 2), report);
    assert_eq!(x.known, KnownDbVersion::Current { db_version: 17, last_seq: 2, ts: TS });
    assert_eq!(
        x.changeset,
        Changeset::Full {
            version: 1,
            changes: vec![change(0), change(2)],
            seqs: (0, 2),
            last_seq: 2,
            ts: TS,
        }
    );
    assert_eq!(
        x.bookkeeping,
        Some(BookkeepingRow {
            actor_id: ACTOR,
            start_version: 1,
            end_version: None,
            db_version: Some(17),
            last_seq: Some(2),
            ts: Some(TS),
        })
    );
    assert_eq!(x.db_version, Some(17));
    assert!(!x.schedule_apply);
    assert_eq!(bookie.current_versions(ACTOR).get(&17), Some(&1));
}

#[test]
fn complete_version_without_effect_is_cleared() {
    let mut bookie = Bookie::new();
    let report = StorageReport::Applied { db_version: 17, rows_impacted: vec![0, 0, 0] };
    let x = taken_in(&mut bookie, fragment(1, 0, 2, 2), report);
    assert_eq!(x.known, KnownDbVersion::Cleared);
    assert_eq!(x.changeset, Changeset::Empty { versions: (1, 1) });
    assert_eq!(x.bookkeeping, Some(BookkeepingRow::cleared(ACTOR, (1, 1))));
    assert_eq!(x.db_version, None);
    assert!(bookie.current_versions(ACTOR).is_empty());
    assert!(bookie.contains(ACTOR, (1, 1), Some((0, 2))));
}

#[test]
fn partial_then_complete() {
    let mut bookie = Bookie::new();
    // the first fragment: seqs 5..=9 of 0..=9
    let x = taken_in(
        &mut bookie,
        fragment(1, 5, 9, 9),
        StorageReport::Buffered,
    );
    assert_eq!(x.known, KnownDbVersion::Partial { seqs: seqs(&[(5, 9)]), last_seq: 9, ts: TS });
    assert_eq!(x.changeset, fragment(1, 5, 9, 9).changeset);
    assert_eq!(x.bookkeeping, None);
    assert_eq!(x.seq_rows, vec![seq_row(1, 5, 9, 9)]);
    assert!(!x.schedule_apply);
    assert_eq!(promotion_ready(&bookie, ACTOR, 1), None);
    assert!(bookie.contains(ACTOR, (1, 1), Some((5, 9))));
    assert!(!bookie.contains(ACTOR, (1, 1), Some((0, 4))));
    // the second fragment completes the version
    let x = taken_in(
        &mut bookie,
        fragment(1, 0, 4, 9),
        StorageReport::Buffered,
    );
    assert_eq!(x.known, KnownDbVersion::Partial { seqs: seqs(&[(0, 9)]), last_seq: 9, ts: TS });
    assert_eq!(x.seq_rows, vec![seq_row(1, 0, 9, 9)]);
    assert!(x.schedule_apply);
    assert_eq!(promotion_ready(&bookie, ACTOR, 1), Some((9, TS)));
    // promotion ends in one applied version with last_seq 9
    let p = process_fully_buffered_changes(
        &bookie,
        ACTOR,
        1,
        PromotionReport::Moved { rows_impacted: 10, db_version: Some(3) },
    )
    .unwrap()
    .unwrap();
    assert_eq!(p.known, KnownDbVersion::Current { db_version: 3, last_seq: 9, ts: TS });
    assert_eq!(p.bookkeeping, BookkeepingRow::current(ACTOR, 1, 3, 9, TS));
    record_promoted(&mut bookie, &p);
    assert_eq!(bookie.get(ACTOR).unwrap().get(1), Some(&p.known));
    assert_eq!(promotion_ready(&bookie, ACTOR, 1), None);
    // a second promotion of the same version does nothing
    let again = process_fully_buffered_changes(
        &bookie,
        ACTOR,
        1,
        PromotionReport::Moved { rows_impacted: 10, db_version: Some(4) },
    );
    assert_eq!(again, Ok(None));
}

#[test]
fn promotion_without_effect_clears() {
    let mut bookie = Bookie::new();
    bookie.insert(ACTOR, 5, KnownDbVersion::Partial { seqs: seqs(&[(0, 3)]), last_seq: 3, ts: TS });
    let p = process_fully_buffered_changes(
        &bookie,
        ACTOR,
        5,
        PromotionReport::Moved { rows_impacted: 0, db_version: Some(8) },
    )
    .unwrap()
    .unwrap();
    assert_eq!(p.actor_id, ACTOR);
    assert_eq!(p.version, 5);
    assert_eq!(p.known, KnownDbVersion::Cleared);
    assert_eq!(p.bookkeeping, BookkeepingRow::cleared(ACTOR, (5, 5)));
}

#[test]
fn promotion_that_touched_rows_needs_a_db_version() {
    let mut bookie = Bookie::new();
    bookie.insert(ACTOR, 5, KnownDbVersion::Partial { seqs: seqs(&[(0, 3)]), last_seq: 3, ts: TS });
    assert_eq!(
        process_fully_buffered_changes(
            &bookie,
            ACTOR,
            5,
            PromotionReport::Moved { rows_impacted: 2, db_version: None },
        ),
        Err(ChangeError::Report)
    );
    let p = process_fully_buffered_changes(
        &bookie,
        ACTOR,
        5,
        PromotionReport::Moved { rows_impacted: 0, db_version: None },
    )
    .unwrap()
    .unwrap();
    assert_eq!(p.known, KnownDbVersion::Cleared);
    assert_eq!(p.bookkeeping, BookkeepingRow::cleared(ACTOR, (5, 5)));
}

#[test]
fn promotion_needs_a_fully_buffered_version() {
    let mut bookie = Bookie::new();
    let moved = || PromotionReport::Moved { rows_impacted: 1, db_version: Some(8) };
    assert_eq!(process_fully_buffered_changes(&bookie, ACTOR, 5, moved()), Ok(None));
    bookie.insert(ACTOR, 5, KnownDbVersion::Partial { seqs: seqs(&[(0, 2)]), last_seq: 3, ts: TS });
    assert_eq!(process_fully_buffered_changes(&bookie, ACTOR, 5, moved()), Ok(None));
    assert_eq!(process_fully_buffered_changes(&bookie, ACTOR, 6, moved()), Ok(None));
    assert_eq!(process_fully_buffered_changes(&bookie, ActorId(9), 5, moved()), Ok(None));
    bookie.insert(ACTOR, 5, KnownDbVersion::Cleared);
    assert_eq!(process_fully_buffered_changes(&bookie, ACTOR, 5, moved()), Ok(None));
    // a failed transaction is an error only where there was something to promote
    let failed = || PromotionReport::Failed(String::from("disk full"));
    assert_eq!(process_fully_buffered_changes(&bookie, ACTOR, 5, failed()), Ok(None));
    bookie.insert(ACTOR, 7, KnownDbVersion::Partial { seqs: seqs(&[(0, 3)]), last_seq: 3, ts: TS });
    assert_eq!(
        process_fully_buffered_changes(&bookie, ACTOR, 7, failed()),
        Err(ChangeError::Storage(String::from("disk full")))
    );
}

#[test]
fn fragments_merge_with_the_runs_held() {
    let x = ingest_fragment(ACTOR, 3, changes(4, 6), (4, 6), 20, TS, &vec![(10, 12), (0, 3), (8, 8)])
        .unwrap();
    assert_eq!(
        x.known,
        KnownDbVersion::Partial { seqs: seqs(&[(0, 6), (8, 8), (10, 12)]), last_seq: 20, ts: TS }
    );
    assert_eq!(
        x.seq_rows,
        vec![seq_row(3, 0, 6, 20), seq_row(3, 8, 8, 20), seq_row(3, 10, 12, 20)]
    );
    assert!(!x.schedule_apply);
    assert_eq!(x.versions, (3, 3));
    // a run that ends before it starts cannot be
    assert_eq!(ingest_fragment(ACTOR, 3, changes(4, 6), (4, 6), 20, TS, &vec![(3, 2)]), None);
}

#[test]
fn complete_needs_one_count_per_change() {
    assert_eq!(ingest_complete(ACTOR, 1, changes(0, 2), (0, 2), 2, TS, 5, &vec![1, 2]), None);
    assert!(ingest_complete(ACTOR, 1, changes(0, 2), (0, 2), 2, TS, 5, &vec![1, 2, 3]).is_some());
}

#[test]
fn errors_of_process_single_version() {
    let bookie = Bookie::new();
    let failed = StorageReport::Failed(String::from("locked"));
    assert_eq!(
        process_single_version(&bookie, fragment(1, 0, 2, 2), failed),
        Err(ChangeError::Storage(String::from("locked")))
    );
    // reports that do not answer the plan
    assert_eq!(
        process_single_version(&bookie, fragment(1, 0, 2, 2), StorageReport::Emptied),
        Err(ChangeError::Report)
    );
    assert_eq!(
        process_single_version(
            &bookie,
            fragment(1, 0, 2, 2),
            StorageReport::Buffered
        ),
        Err(ChangeError::Report)
    );
    assert_eq!(
        process_single_version(
            &bookie,
            fragment(1, 1, 2, 2),
            StorageReport::Applied { db_version: 1, rows_impacted: vec![1, 2] }
        ),
        Err(ChangeError::Report)
    );
    assert_eq!(
        process_single_version(
            &bookie,
            ChangeV1 { actor_id: ACTOR, changeset: Changeset::Empty { versions: (1, 2) } },
            StorageReport::Applied { db_version: 1, rows_impacted: vec![] }
        ),
        Err(ChangeError::Report)
    );
    // reports that hold what cannot be
    assert_eq!(
        process_single_version(
            &bookie,
            fragment(1, 0, 2, 2),
            StorageReport::Applied { db_version: 1, rows_impacted: vec![1] }
        ),
        Err(ChangeError::Report)
    );
}

#[test]
fn second_delivery_does_nothing() {
    let deliveries: Vec<(ChangeV1, StorageReport)> = vec![
        (
            ChangeV1 { actor_id: ACTOR, changeset: Changeset::Empty { versions: (1, 3) } },
            StorageReport::Emptied,
        ),
        (fragment(4, 2, 5, 9), StorageReport::Buffered),
        (fragment(5, 0, 3, 3), StorageReport::Applied { db_version: 2, rows_impacted: vec![1, 2, 3, 4] }),
        (fragment(6, 0, 1, 1), StorageReport::Applied { db_version: 3, rows_impacted: vec![0, 0] }),
    ];
    let mut bookie = Bookie::new();
    for (change, report) in deliveries {
        let again = ChangeV1 {
            actor_id: change.actor_id,
            changeset: match &change.changeset {
                Changeset::Empty { versions } => Changeset::Empty { versions: *versions },
                Changeset::Full { version, seqs, last_seq, ts, .. } => Changeset::Full {
                    version: *version,
                    changes: changes(seqs.0, seqs.1),
                    seqs: *seqs,
                    last_seq: *last_seq,
                    ts: *ts,
                },
            },
        };
        taken_in(&mut bookie, change, report);
        assert_eq!(plan_ingest(&bookie, &again), IngestPlan::AlreadyKnown);
        // whatever the store would say, nothing comes of it
        let r = process_single_version(&bookie, again, StorageReport::Failed(String::from("x")));
        assert_eq!(r, Ok(None));
    }
}

#[test]
fn what_is_known_stays_known() {
    let mut bookie = Bookie::new();
    let asked: Vec<((i64, i64), Option<(i64, i64)>)> = vec![
        ((1, 1), Some((0, 1))),
        ((1, 1), Some((0, 3))),
        ((1, 1), None),
        ((1, 2), None),
        ((2, 3), Some((0, 0))),
    ];
    let mut known = vec![false; asked.len()];
    let steps: Vec<(ChangeV1, StorageReport)> = vec![
        (fragment(1, 0, 1, 3), StorageReport::Buffered),
        (fragment(1, 3, 3, 3), StorageReport::Buffered),
        (fragment(2, 0, 0, 0), StorageReport::Applied { db_version: 1, rows_impacted: vec![1] }),
        (fragment(1, 2, 2, 3), StorageReport::Buffered),
        (
            ChangeV1 { actor_id: ACTOR, changeset: Changeset::Empty { versions: (3, 5) } },
            StorageReport::Emptied,
        ),
    ];
    for (change, report) in steps {
        taken_in(&mut bookie, change, report);
        for (i, (versions, seqs)) in asked.iter().enumerate() {
            let now = bookie.contains(ACTOR, *versions, *seqs);
            assert!(now || !known[i], "forgot {versions:?} {seqs:?}");
            known[i] = now;
        }
    }
    assert!(known.iter().all(|k| *k));
}

#[test]
fn order_of_fragments_is_of_no_account() {
    let fragments: Vec<(i64, i64)> = vec![(0, 1), (2, 4), (5, 5), (6, 9)];
    let orders: Vec<Vec<usize>> =
        vec![vec![0, 1, 2, 3], vec![3, 2, 1, 0], vec![2, 0, 3, 1], vec![1, 3, 0, 2]];
    let mut ends: Vec<KnownDbVersion> = vec![];
    for order in orders {
        let mut bookie = Bookie::new();
        let mut rows: Vec<(i64, i64)> = vec![];
        let mut scheduled = 0;
        for (n, i) in order.iter().enumerate() {
            let (lo, hi) = fragments[*i];
            let x = taken_in(&mut bookie, fragment(1, lo, hi, 9), StorageReport::Buffered);
            rows = x.seq_rows.iter().map(|r| (r.start_seq, r.end_seq)).collect();
            assert_eq!(rows, held_runs(&bookie, ACTOR, 1));
            assert_eq!(x.schedule_apply, n == 3);
            if x.schedule_apply {
                scheduled += 1;
            }
        }
        assert_eq!(scheduled, 1);
        assert_eq!(rows, vec![(0, 9)]);
        // promotion ends as one complete delivery would
        let p = process_fully_buffered_changes(
            &bookie,
            ACTOR,
            1,
            PromotionReport::Moved { rows_impacted: 3, db_version: Some(12) },
        )
        .unwrap()
        .unwrap();
        let mut at_once = Bookie::new();
        let x = taken_in(
            &mut at_once,
            fragment(1, 0, 9, 9),
            StorageReport::Applied { db_version: 12, rows_impacted: vec![0, 1, 1, 1, 2, 2, 2, 3, 3, 3] },
        );
        assert_eq!(p.known, x.known);
        assert_eq!(Some(p.bookkeeping), x.bookkeeping);
        ends.push(bookie.get(ACTOR).unwrap().get(1).unwrap().clone());
    }
    for end in &ends {
        assert_eq!(end, &KnownDbVersion::Partial { seqs: seqs(&[(0, 9)]), last_seq: 9, ts: TS });
    }
}

#[test]
fn fragments_are_merged_into_what_the_bookkeeping_holds() {
    let mut bookie = Bookie::new();
    assert!(held_runs(&bookie, ACTOR, 1).is_empty());
    bookie.insert(ACTOR, 1, KnownDbVersion::Partial { seqs: seqs(&[(0, 1), (7, 8)]), last_seq: 9, ts: TS });
    bookie.insert(ACTOR, 2, KnownDbVersion::Cleared);
    assert_eq!(held_runs(&bookie, ACTOR, 1), vec![(0, 1), (7, 8)]);
    assert!(held_runs(&bookie, ACTOR, 2).is_empty());
    assert!(held_runs(&bookie, ACTOR, 3).is_empty());
    assert!(held_runs(&bookie, ActorId(1), 1).is_empty());
    let x = taken_in(&mut bookie, fragment(1, 2, 3, 9), StorageReport::Buffered);
    assert_eq!(
        x.known,
        KnownDbVersion::Partial { seqs: seqs(&[(0, 3), (7, 8)]), last_seq: 9, ts: TS }
    );
    assert_eq!(x.seq_rows, vec![seq_row(1, 0, 3, 9), seq_row(1, 7, 8, 9)]);
    assert!(bookie.contains(ACTOR, (1, 1), Some((7, 8))));
    assert!(bookie.contains(ACTOR, (1, 1), Some((0, 3))));
}

#[test]
fn order_of_versions_is_of_no_account() {
    let make = |v: i64| -> (ChangeV1, StorageReport) {
        match v {
            1 => (
                fragment(1, 0, 1, 1),
                StorageReport::Applied { db_version: 11, rows_impacted: vec![1, 2] },
            ),
            2 => (
                ChangeV1 { actor_id: ACTOR, changeset: Changeset::Empty { versions: (2, 3) } },
                StorageReport::Emptied,
            ),
            4 => (fragment(4, 0, 0, 5), StorageReport::Buffered),
            _ => (
                fragment(v, 0, 0, 0),
                StorageReport::Applied { db_version: 10 * v, rows_impacted: vec![0] },
            ),
        }
    };
    let orders: Vec<Vec<i64>> =
        vec![vec![1, 2, 4, 5], vec![5, 4, 2, 1], vec![4, 1, 5, 2], vec![2, 5, 1, 4]];
    let mut ends: Vec<Bookie> = vec![];
    for order in orders {
        let mut bookie = Bookie::new();
        for v in order {
            let (change, report) = make(v);
            taken_in(&mut bookie, change, report);
        }
        ends.push(bookie);
    }
    for end in &ends {
        assert_eq!(end, &ends[0]);
        let ranges: Vec<(i64, i64)> =
            end.get(ACTOR).unwrap().ranges().iter().map(|r| (r.start, r.end)).collect();
        assert_eq!(ranges, vec![(1, 1), (2, 3), (4, 4), (5, 5)]);
    }
}

#[test]
fn buffered_seqs_stay_within_bounds() {
    let mut recorded: Vec<(i64, i64)> = vec![];
    for (lo, hi) in [(7, 9), (0, 0), (3, 5), (4, 8)] {
        let x = ingest_fragment(ACTOR, 1, changes(lo, hi), (lo, hi), 9, TS, &recorded).unwrap();
        recorded = x.seq_rows.iter().map(|r| (r.start_seq, r.end_seq)).collect();
        for (start_seq, end_seq) in &recorded {
            assert!(0 <= *start_seq && *end_seq <= 9);
        }
        match &x.known {
            KnownDbVersion::Partial { seqs, last_seq, .. } => {
                assert_eq!(*last_seq, 9);
                assert!(seqs.gaps(&(i64::MIN..=-1)).next() == Some(i64::MIN..=-1));
                assert!(seqs.gaps(&(10..=i64::MAX)).next() == Some(10..=i64::MAX));
            }
            _ => panic!("a fragment leaves its version buffered"),
        }
    }
    assert_eq!(recorded, vec![(0, 0), (3, 9)]);
}
