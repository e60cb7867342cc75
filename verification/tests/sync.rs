use corro_agent::bookie::Bookie;
use corro_agent::known::{ActorId, KnownDbVersion, Timestamp};
use corro_agent::members::{Actor, IpAddress, Members, SocketAddress};
use corro_agent::sync::{
    after_sync, choose_sync_peer, count_versions, generate_sync, on_loop_event, on_sync_response,
    pick_sync_peer, retry_backoff, sync_backoff, sync_candidates, Backoff, LoopEvent, LoopStep,
    SyncClientError, SyncDecision, SyncRecvError, SyncResponse, SyncState,
};

fn actor(n: u8) -> Actor {
    Actor {
        id: ActorId(n as u128),
        addr: SocketAddress { ip: IpAddress::V4(0x7f00_0000 + n as u32), port: 4001 },
    }
}

fn current(db_version: i64) -> KnownDbVersion {
    KnownDbVersion::Current { db_version, last_seq: 0, ts: Timestamp(0) }
}

fn state_needing(need: Vec<(ActorId, Vec<(i64, i64)>)>) -> SyncState {
    SyncState { actor_id: ActorId(0), heads: vec![], need }
}

#[test]
fn sync_state_from_the_bookkeeping() {
    let mut bookie = Bookie::new();
    bookie.insert(ActorId(1), 3, current(1));
    bookie.insert(ActorId(1), 7, current(2));
    bookie.insert_many(ActorId(2), (1, 4), KnownDbVersion::Cleared);
    bookie.ensure_actor(ActorId(3));
    let state = generate_sync(&bookie, ActorId(9));
    assert_eq!(state.actor_id, ActorId(9));
    assert_eq!(state.heads, vec![(ActorId(1), 7), (ActorId(2), 4)]);
    assert_eq!(state.need, vec![(ActorId(1), vec![(1, 2), (4, 6)])]);
    assert_eq!(state.need_len_for_actor(ActorId(1)), 5);
    assert_eq!(state.need_len_for_actor(ActorId(2)), 0);
    assert_eq!(state.need_len(), 5);
    let empty = generate_sync(&Bookie::new(), ActorId(9));
    assert!(empty.heads.is_empty() && empty.need.is_empty());
    assert_eq!(empty.need_len(), 0);
}

#[test]
fn need_lengths_count_versions() {
    assert_eq!(count_versions(&vec![]), 0);
    assert_eq!(count_versions(&vec![(5, 5)]), 1);
    assert_eq!(count_versions(&vec![(1, 10), (20, 29)]), 20);
    assert_eq!(count_versions(&vec![(i64::MIN, i64::MAX)]), u64::MAX);
    assert_eq!(count_versions(&vec![(i64::MIN, i64::MAX), (1, 2)]), u64::MAX);
    assert_eq!(count_versions(&vec![(1, i64::MAX)]), i64::MAX as u64);
    let state = state_needing(vec![
        (ActorId(1), vec![(1, 3)]),
        (ActorId(2), vec![(2, 2), (9, 12)]),
        (ActorId(1), vec![(1, 100)]),
    ]);
    // the first entry for an actor counts
    assert_eq!(state.need_len_for_actor(ActorId(1)), 3);
    assert_eq!(state.need_len_for_actor(ActorId(2)), 5);
    assert_eq!(state.need_len_for_actor(ActorId(3)), 0);
    assert_eq!(state.need_len(), 108);
}

#[test]
fn candidates_are_all_members_but_oneself() {
    let mut members = Members::new();
    for n in 1..=4 {
        assert!(members.add_member(&actor(n)));
    }
    assert_eq!(sync_candidates(&members, ActorId(3)), vec![actor(1), actor(2), actor(4)]);
    assert_eq!(sync_candidates(&members, ActorId(9)).len(), 4);
    assert!(sync_candidates(&Members::new(), ActorId(1)).is_empty());
}

#[test]
fn the_peer_needed_most_is_chosen() {
    let state = state_needing(vec![(ActorId(2), vec![(1, 3)]), (ActorId(3), vec![(1, 10)])]);
    let candidates = vec![actor(1), actor(2), actor(3), actor(4)];
    assert_eq!(choose_sync_peer(&state, &candidates, &vec![1, 2]), Some(actor(3)));
    assert_eq!(choose_sync_peer(&state, &candidates, &vec![2, 1]), Some(actor(3)));
    assert_eq!(choose_sync_peer(&state, &candidates, &vec![0, 1]), Some(actor(2)));
    // of two needed alike, the one drawn first
    assert_eq!(choose_sync_peer(&state, &candidates, &vec![3, 0]), Some(actor(4)));
    assert_eq!(choose_sync_peer(&state, &candidates, &vec![0, 3]), Some(actor(1)));
    assert_eq!(choose_sync_peer(&state, &candidates, &vec![2]), Some(actor(3)));
    assert_eq!(choose_sync_peer(&state, &candidates, &vec![]), None);
}

#[test]
fn a_peer_picked_is_a_candidate() {
    let state = state_needing(vec![(ActorId(2), vec![(1, 3)])]);
    assert_eq!(pick_sync_peer(&state, &vec![]), Err(SyncClientError::NoGoodCandidate));
    assert_eq!(pick_sync_peer(&state, &vec![actor(7)]), Ok(actor(7)));
    // with two candidates both are drawn, and the one needed more is chosen
    for _ in 0..20 {
        assert_eq!(pick_sync_peer(&state, &vec![actor(1), actor(2)]), Ok(actor(2)));
    }
    let many: Vec<Actor> = (10..40).map(actor).collect();
    for _ in 0..50 {
        let c = pick_sync_peer(&state, &many).unwrap();
        assert!(many.contains(&c));
    }
}

#[test]
fn backoff_doubles_up_to_the_longest_wait() {
    let mut b = retry_backoff();
    let mut waits = vec![];
    while let Some(w) = b.next() {
        waits.push(w);
    }
    assert_eq!(waits, vec![100, 200, 400, 800, 1000]);
    assert_eq!(b.next(), None);

    let mut b = sync_backoff();
    let waits: Vec<u64> = (0..9).map(|_| b.next().unwrap()).collect();
    assert_eq!(waits, vec![1000, 2000, 4000, 8000, 16000, 32000, 60000, 60000, 60000]);

    let mut b = Backoff::new(2, 500, 100);
    assert_eq!(b.next(), Some(100));
    assert_eq!(b.next(), Some(100));
    assert_eq!(b.next(), None);

    let mut b = Backoff::new(0, u64::MAX - 1, u64::MAX);
    assert_eq!(b.next(), Some(u64::MAX - 1));
    assert_eq!(b.next(), Some(u64::MAX));
    let mut b = Backoff::new(0, 0, 10);
    assert_eq!(b.next(), Some(0));
    assert_eq!(b.next(), Some(0));
}

#[test]
fn what_to_do_with_the_answer_of_a_peer() {
    let mut retries = retry_backoff();
    assert_eq!(on_sync_response(SyncResponse::Status(200), &mut retries), SyncDecision::Stream);
    assert_eq!(retries, retry_backoff());
    assert_eq!(
        on_sync_response(SyncResponse::Status(500), &mut retries),
        SyncDecision::Fail(SyncClientError::Status(500))
    );
    assert_eq!(
        on_sync_response(SyncResponse::Status(404), &mut retries),
        SyncDecision::Fail(SyncClientError::Status(404))
    );
    assert_eq!(
        on_sync_response(SyncResponse::TimedOut, &mut retries),
        SyncDecision::Fail(SyncClientError::RequestTimedOut)
    );
    assert_eq!(
        on_sync_response(SyncResponse::Failed(String::from("reset")), &mut retries),
        SyncDecision::Fail(SyncClientError::Hyper(String::from("reset")))
    );
    assert_eq!(retries, retry_backoff());
    for wait in [100, 200, 400, 800, 1000] {
        assert_eq!(
            on_sync_response(SyncResponse::Status(503), &mut retries),
            SyncDecision::RetryAfter(wait)
        );
    }
    let d = on_sync_response(SyncResponse::Status(503), &mut retries);
    assert_eq!(d, SyncDecision::Fail(SyncClientError::Unavailable));
    match d {
        SyncDecision::Fail(e) => assert!(e.is_unavailable()),
        _ => unreachable!(),
    }
    assert!(!SyncClientError::Status(503).is_unavailable());
    assert!(!SyncClientError::NoGoodCandidate.is_unavailable());
    assert_ne!(SyncRecvError::UnexpectedSyncMessage, SyncRecvError::Io(String::new()));
}

#[test]
fn steps_of_the_sync_loop() {
    assert_eq!(on_loop_event(LoopEvent::Apply(ActorId(3), 8)), LoopStep::Promote(ActorId(3), 8));
    assert_eq!(on_loop_event(LoopEvent::Tick), LoopStep::Sync);
    assert_eq!(on_loop_event(LoopEvent::ApplyClosed), LoopStep::Stop);
    assert_eq!(on_loop_event(LoopEvent::Tripped), LoopStep::Stop);
    let mut backoff = sync_backoff();
    assert_eq!(after_sync(false, &mut backoff), Some(1000));
    assert_eq!(after_sync(false, &mut backoff), Some(2000));
    assert_eq!(after_sync(true, &mut backoff), None);
    assert_eq!(after_sync(false, &mut backoff), Some(4000));
}
