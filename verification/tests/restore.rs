use corro_agent::bookie::Bookie;
use corro_agent::known::{ActorId, KnownDbVersion, Timestamp};
use corro_agent::restore::{restore, setup, site_id_differs, RestoreError};
use corro_agent::rows::{BookkeepingRow, SeqBookkeepingRow};
use rangemap::RangeInclusiveSet;

const A: ActorId = ActorId(1);
const B: ActorId = ActorId(2);
const TS: Timestamp = Timestamp(3);

fn seq_row(site_id: ActorId, version: i64, lo: i64, hi: i64, last_seq: i64) -> SeqBookkeepingRow {
    SeqBookkeepingRow { site_id, version, start_seq: lo, end_seq: hi, last_seq, ts: TS }
}

fn seqs(runs: &[(i64, i64)]) -> RangeInclusiveSet<i64> {
    let mut s = RangeInclusiveSet::new();
    for (lo, hi) in runs {
        s.insert(*lo..=*hi);
    }
    s
}

#[test]
fn site_id_is_overwritten_when_it_differs() {
    assert!(!site_id_differs(Some(A), A));
    assert!(site_id_differs(Some(B), A));
    assert!(site_id_differs(None, A));
    assert!(!site_id_differs(None, ActorId(0)));
}

#[test]
fn setup_from_what_the_store_holds() {
    let rows = vec![BookkeepingRow::current(A, 1, 10, 4, TS)];
    let seq_rows = vec![seq_row(A, 2, 0, 3, 3)];
    let s = setup(A, Some(B), &rows, &seq_rows).unwrap();
    assert!(s.override_site_id);
    assert_eq!(s.to_apply, vec![(A, 2)]);
    assert_eq!(s.bookie, restore(&rows, &seq_rows).unwrap().bookie);
    assert!(!setup(A, Some(A), &rows, &seq_rows).unwrap().override_site_id);
    assert!(setup(A, None, &vec![], &vec![]).unwrap().override_site_id);
    assert_eq!(
        setup(A, None, &vec![BookkeepingRow::cleared(A, (2, 1))], &vec![]).err(),
        Some(RestoreError::Bookkeeping(0))
    );
}

#[test]
fn restore_of_nothing() {
    let r = restore(&vec![], &vec![]).unwrap();
    assert_eq!(r.bookie, Bookie::new());
    assert!(r.to_apply.is_empty());
}

#[test]
fn restore_takes_rows_in_their_order() {
    let rows = vec![
        BookkeepingRow::current(A, 1, 10, 4, TS),
        BookkeepingRow::cleared(A, (2, 5)),
        BookkeepingRow::current(B, 1, 11, 0, TS),
        // a later row wins over an earlier one
        BookkeepingRow::current(A, 3, 30, 1, TS),
        // a row with neither end nor db_version clears its one version
        BookkeepingRow {
            actor_id: B,
            start_version: 2,
            end_version: None,
            db_version: None,
            last_seq: Some(3),
            ts: Some(TS),
        },
    ];
    let r = restore(&rows, &vec![]).unwrap();
    assert!(r.to_apply.is_empty());
    assert_eq!(r.bookie.actors(), vec![A, B]);
    let a = r.bookie.get(A).unwrap();
    let spans: Vec<(i64, i64)> = a.ranges().iter().map(|r| (r.start, r.end)).collect();
    assert_eq!(spans, vec![(1, 1), (2, 2), (3, 3), (4, 5)]);
    assert_eq!(a.get(1), Some(&KnownDbVersion::Current { db_version: 10, last_seq: 4, ts: TS }));
    assert_eq!(a.get(3), Some(&KnownDbVersion::Current { db_version: 30, last_seq: 1, ts: TS }));
    assert_eq!(a.get(4), Some(&KnownDbVersion::Cleared));
    let b = r.bookie.get(B).unwrap();
    assert_eq!(b.get(2), Some(&KnownDbVersion::Cleared));
    assert_eq!(b.last(), Some(2));
}

#[test]
fn restore_gathers_buffered_versions() {
    let rows = vec![BookkeepingRow::current(A, 1, 10, 4, TS), BookkeepingRow::cleared(A, (2, 3))];
    let seq_rows = vec![
        seq_row(A, 4, 0, 2, 9),
        seq_row(B, 7, 3, 5, 5),
        seq_row(A, 4, 5, 9, 9),
        seq_row(B, 7, 0, 2, 5),
        // a buffered version wins over what the bookkeeping table says
        seq_row(A, 2, 0, 0, 0),
        seq_row(A, 4, 3, 3, 9),
    ];
    let r = restore(&rows, &seq_rows).unwrap();
    let a = r.bookie.get(A).unwrap();
    assert_eq!(
        a.get(4),
        Some(&KnownDbVersion::Partial { seqs: seqs(&[(0, 3), (5, 9)]), last_seq: 9, ts: TS })
    );
    assert_eq!(
        a.get(2),
        Some(&KnownDbVersion::Partial { seqs: seqs(&[(0, 0)]), last_seq: 0, ts: TS })
    );
    assert_eq!(a.get(3), Some(&KnownDbVersion::Cleared));
    assert_eq!(
        r.bookie.get(B).unwrap().get(7),
        Some(&KnownDbVersion::Partial { seqs: seqs(&[(0, 5)]), last_seq: 5, ts: TS })
    );
    // fully buffered versions wait for promotion, each once
    assert_eq!(r.to_apply, vec![(B, 7), (A, 2)]);
}

#[test]
fn restore_goes_by_the_last_row_for_last_seq() {
    let seq_rows = vec![seq_row(A, 1, 0, 3, 3), seq_row(A, 1, 4, 4, 6)];
    let r = restore(&vec![], &seq_rows).unwrap();
    assert_eq!(
        r.bookie.get(A).unwrap().get(1),
        Some(&KnownDbVersion::Partial { seqs: seqs(&[(0, 4)]), last_seq: 6, ts: TS })
    );
    assert!(r.to_apply.is_empty());
}

#[test]
fn restore_names_the_first_bad_row() {
    let good = BookkeepingRow::current(A, 1, 10, 4, TS);
    let reversed = BookkeepingRow::cleared(A, (5, 4));
    let spans_many = BookkeepingRow {
        actor_id: A,
        start_version: 1,
        end_version: Some(2),
        db_version: Some(1),
        last_seq: Some(0),
        ts: Some(TS),
    };
    let no_last_seq = BookkeepingRow { last_seq: None, ..good };
    let no_ts = BookkeepingRow { ts: None, ..good };
    assert_eq!(restore(&vec![good, reversed], &vec![]).err(), Some(RestoreError::Bookkeeping(1)));
    assert_eq!(restore(&vec![spans_many], &vec![]).err(), Some(RestoreError::Bookkeeping(0)));
    assert_eq!(
        restore(&vec![good, good, no_last_seq, reversed], &vec![]).err(),
        Some(RestoreError::Bookkeeping(2))
    );
    assert_eq!(restore(&vec![no_ts], &vec![]).err(), Some(RestoreError::Bookkeeping(0)));
    let bad_seq = seq_row(A, 1, 3, 2, 5);
    assert_eq!(
        restore(&vec![good], &vec![seq_row(A, 1, 0, 0, 5), bad_seq]).err(),
        Some(RestoreError::SeqBookkeeping(1))
    );
    // rows of the bookkeeping table are looked at first
    assert_eq!(restore(&vec![reversed], &vec![bad_seq]).err(), Some(RestoreError::Bookkeeping(0)));
}

#[test]
fn rows_written_are_read_back() {
    let mut bookie = Bookie::new();
    bookie.insert(A, 1, KnownDbVersion::Current { db_version: 10, last_seq: 4, ts: TS });
    bookie.insert_many(A, (2, 6), KnownDbVersion::Cleared);
    bookie.insert(A, 4, KnownDbVersion::Current { db_version: 40, last_seq: 0, ts: TS });
    bookie.insert(A, 9, KnownDbVersion::Partial { seqs: seqs(&[(0, 1)]), last_seq: 2, ts: TS });
    let rows = corro_agent::compact::compaction_rows(A, bookie.get(A).unwrap());
    let r = restore(&rows, &vec![seq_row(A, 9, 0, 1, 2)]).unwrap();
    assert_eq!(r.bookie, bookie);
}
