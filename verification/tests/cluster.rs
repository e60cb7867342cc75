use corro_agent::agent::{on_run_event, CountedExecutor, RunEvent, RunStep};
use corro_agent::bookie::Bookie;
use corro_agent::bootstrap::{
    add_literal, add_resolved, choose_announce_targets, fallback_candidates, is_other_node,
    parse_bootstrap_entry, parse_port, record_type_for, take_positions, BootstrapEntry,
    RecordType, DEFAULT_GOSSIP_PORT,
};
use corro_agent::changes::{Change, ChangeV1, Changeset, SqliteValue};
use corro_agent::ingest::ChangeError;
use corro_agent::gossip::{
    ask_matchers, failed_matchers, handle_broadcast, handle_gossip, is_worth_sending,
    priority_label, process_msg, process_subs, refused_by, remove_matchers, should_handle,
    BroadcastInput, ChangeMatcher, Message, MessageV1,
};
use corro_agent::known::{ActorId, KnownDbVersion, Timestamp};
use corro_agent::members::{
    cluster_size, handle_notification, Actor, IpAddress, MemberChange, MemberEvent, Members,
    Notification, SocketAddress,
};

fn v4(n: u32, port: u16) -> SocketAddress {
    SocketAddress { ip: IpAddress::V4(n), port }
}

fn v6(n: u128, port: u16) -> SocketAddress {
    SocketAddress { ip: IpAddress::V6(n), port }
}

fn actor(n: u8) -> Actor {
    Actor { id: ActorId(n as u128), addr: v4(n as u32, 4001) }
}

fn entry(host: &str, port: u16, dns_server: Option<&str>) -> BootstrapEntry {
    BootstrapEntry {
        host: host.as_bytes().to_vec(),
        port,
        dns_server: dns_server.map(|d| d.as_bytes().to_vec()),
    }
}

fn empty_msg(actor_id: ActorId, versions: (i64, i64)) -> Message {
    Message::V1(MessageV1::Change(ChangeV1 { actor_id, changeset: Changeset::Empty { versions } }))
}

#[test]
fn bootstrap_entries_are_taken_apart() {
    assert_eq!(parse_bootstrap_entry(b"node.internal"), entry("node.internal", 4001, None));
    assert_eq!(parse_bootstrap_entry(b"node.internal:8787"), entry("node.internal", 8787, None));
    assert_eq!(
        parse_bootstrap_entry(b"node.internal:8787@10.0.0.2"),
        entry("node.internal", 8787, Some("10.0.0.2"))
    );
    assert_eq!(
        parse_bootstrap_entry(b"node.internal@[fdaa::3]:5353"),
        entry("node.internal", 4001, Some("[fdaa::3]:5353"))
    );
    // what does not name a port gives the default port
    assert_eq!(parse_bootstrap_entry(b"node:http"), entry("node", DEFAULT_GOSSIP_PORT, None));
    assert_eq!(parse_bootstrap_entry(b"node:70000"), entry("node", DEFAULT_GOSSIP_PORT, None));
    assert_eq!(parse_bootstrap_entry(b"node:"), entry("node", DEFAULT_GOSSIP_PORT, None));
    // only what stands before the second separator counts
    assert_eq!(parse_bootstrap_entry(b"node:1:2@a@b"), entry("node", 1, Some("a")));
    assert_eq!(parse_bootstrap_entry(b""), entry("", DEFAULT_GOSSIP_PORT, None));
    assert_eq!(parse_bootstrap_entry(b"@"), entry("", DEFAULT_GOSSIP_PORT, Some("")));
    assert_eq!(parse_bootstrap_entry(b":9@"), entry("", 9, Some("")));
}

#[test]
fn ports_as_they_are_written() {
    assert_eq!(parse_port(b"0"), Some(0));
    assert_eq!(parse_port(b"4001"), Some(4001));
    assert_eq!(parse_port(b"65535"), Some(65535));
    assert_eq!(parse_port(b"65536"), None);
    assert_eq!(parse_port(b"99999999999999999999"), None);
    assert_eq!(parse_port(b"+80"), Some(80));
    assert_eq!(parse_port(b"0080"), Some(80));
    assert_eq!(parse_port(b"000000000000000000080"), Some(80));
    assert_eq!(parse_port(b""), None);
    assert_eq!(parse_port(b"+"), None);
    assert_eq!(parse_port(b"-1"), None);
    assert_eq!(parse_port(b"++1"), None);
    assert_eq!(parse_port(b"80 "), None);
    assert_eq!(parse_port(b"8o"), None);
    for text in ["0", "4001", "65535", "65536", "+80", "0080", "", "+", "-1", "80 ", "1e3"] {
        assert_eq!(parse_port(text.as_bytes()), text.parse::<u16>().ok(), "{text:?}");
    }
}

#[test]
fn other_nodes_are_of_the_same_family() {
    let ours = v4(1, 4001);
    assert!(is_other_node(&ours, &v4(2, 4001)));
    assert!(is_other_node(&ours, &v4(1, 4002)));
    assert!(!is_other_node(&ours, &v4(1, 4001)));
    assert!(!is_other_node(&ours, &v6(1, 4001)));
    assert!(is_other_node(&v6(1, 1), &v6(2, 1)));
    assert!(!is_other_node(&v6(1, 1), &v6(1, 1)));
    assert!(!is_other_node(&v6(1, 1), &v4(1, 1)));
    assert_eq!(record_type_for(&ours), RecordType::A);
    assert_eq!(record_type_for(&v6(1, 1)), RecordType::AAAA);
    assert!(v6(1, 1).is_ipv6());
    assert!(!ours.is_ipv6());
}

#[test]
fn resolved_addresses_become_candidates() {
    let ours = v4(1, 4001);
    let mut candidates = vec![v4(9, 4001)];
    let found =
        vec![IpAddress::V4(2), IpAddress::V4(1), IpAddress::V6(3), IpAddress::V4(2), IpAddress::V4(9)];
    add_resolved(&mut candidates, &ours, 4001, &found);
    assert_eq!(candidates, vec![v4(9, 4001), v4(2, 4001)]);
    add_resolved(&mut candidates, &ours, 5000, &found);
    assert_eq!(
        candidates,
        vec![v4(9, 4001), v4(2, 4001), v4(2, 5000), v4(1, 5000), v4(9, 5000)]
    );
    let stored = vec![v4(1, 4001), v4(3, 1), v6(3, 1), v4(3, 1), v4(4, 1)];
    assert_eq!(fallback_candidates(&ours, &stored), vec![v4(3, 1), v4(4, 1)]);
    assert!(fallback_candidates(&ours, &vec![]).is_empty());
}

#[test]
fn announce_targets_are_few_and_are_candidates() {
    assert!(choose_announce_targets(&vec![]).is_empty());
    let three = vec![v4(1, 1), v4(2, 1), v4(3, 1)];
    let mut all = choose_announce_targets(&three);
    all.sort_by_key(|a| a.port as u64 + match a.ip { IpAddress::V4(n) => n as u64, _ => 0 });
    assert_eq!(all, three);
    let many: Vec<SocketAddress> = (0..50).map(|n| v4(n, 1)).collect();
    for _ in 0..20 {
        let chosen = choose_announce_targets(&many);
        assert_eq!(chosen.len(), 10);
        for (i, a) in chosen.iter().enumerate() {
            assert!(many.contains(a));
            assert!(!chosen[..i].contains(a));
        }
    }
    assert_eq!(take_positions(&three, &vec![2, 0]), vec![v4(3, 1), v4(1, 1)]);
}

#[test]
fn notifications_change_the_table() {
    let mut members = Members::new();
    assert_eq!(
        handle_notification(&mut members, Notification::MemberUp(actor(1))),
        Some(MemberChange { cluster_size: Some(1), event: MemberEvent::Up(actor(1)) })
    );
    assert_eq!(
        handle_notification(&mut members, Notification::MemberUp(actor(2))),
        Some(MemberChange { cluster_size: Some(2), event: MemberEvent::Up(actor(2)) })
    );
    // a member that is up already changes nothing
    assert_eq!(handle_notification(&mut members, Notification::MemberUp(actor(1))), None);
    assert_eq!(members.len(), 2);
    assert_eq!(handle_notification(&mut members, Notification::MemberDown(actor(3))), None);
    assert_eq!(
        handle_notification(&mut members, Notification::MemberDown(actor(1))),
        Some(MemberChange { cluster_size: Some(1), event: MemberEvent::Down(actor(1)) })
    );
    assert_eq!(members.states, vec![actor(2)]);
    // of an empty table no size is told
    assert_eq!(
        handle_notification(&mut members, Notification::MemberDown(actor(2))),
        Some(MemberChange { cluster_size: None, event: MemberEvent::Down(actor(2)) })
    );
    for n in [Notification::Active, Notification::Idle, Notification::Defunct, Notification::Rejoin(actor(5))] {
        assert_eq!(handle_notification(&mut members, n), None);
    }
    assert_eq!(members.len(), 0);
    assert_eq!(cluster_size(0), None);
    assert_eq!(cluster_size(7), Some(7));
    assert_eq!(cluster_size(u32::MAX as usize), Some(u32::MAX));
    assert_eq!(cluster_size(u32::MAX as usize + 1), None);
    assert!(!members.remove_member(&actor(2)));
}

#[test]
fn only_news_is_handed_on() {
    let me = ActorId(1);
    let mut bookie = Bookie::new();
    bookie.insert_many(ActorId(2), (1, 5), KnownDbVersion::Cleared);
    let known = empty_msg(ActorId(2), (2, 4));
    let news = empty_msg(ActorId(2), (4, 6));
    let mine = empty_msg(me, (1, 1));
    let stranger = empty_msg(ActorId(3), (1, 1));
    assert!(!should_handle(&bookie, me, &known));
    assert!(should_handle(&bookie, me, &news));
    assert!(!should_handle(&bookie, me, &mine));
    assert!(should_handle(&bookie, me, &stranger));
    let out = handle_broadcast(
        vec![empty_msg(ActorId(3), (1, 1)), known, mine, empty_msg(ActorId(2), (4, 6))],
        me,
        &bookie,
    );
    assert_eq!(out, vec![stranger, news]);
    assert!(handle_broadcast(vec![], me, &bookie).is_empty());
}

fn change(seq: i64) -> Change {
    Change {
        table: String::from("tests"),
        pk: vec![1],
        cid: String::from("text"),
        val: SqliteValue::Integer(seq),
        col_version: 1,
        db_version: 1,
        seq,
        site_id: ActorId(4),
        cl: 1,
    }
}

fn full_msg(actor_id: ActorId, version: i64, changes: Vec<Change>) -> Message {
    let last_seq = changes.len() as i64 - 1;
    Message::V1(MessageV1::Change(ChangeV1 {
        actor_id,
        changeset: Changeset::Full {
            version,
            changes,
            seqs: (0, last_seq),
            last_seq,
            ts: Timestamp(1),
        },
    }))
}

#[test]
fn what_came_out_is_sent_again() {
    assert_eq!(process_msg(ActorId(4), None), None);
    assert_eq!(
        process_msg(ActorId(4), Some(Changeset::Empty { versions: (1, 2) })),
        Some(empty_msg(ActorId(4), (1, 2)))
    );
    let out = handle_gossip(vec![
        Ok(None),
        Ok(Some(full_msg(ActorId(4), 1, vec![change(0), change(1)]))),
        // news of empty versions is not sent again
        Ok(Some(empty_msg(ActorId(4), (2, 3)))),
        Ok(None),
        // nor is a version without a change
        Ok(Some(full_msg(ActorId(5), 7, vec![]))),
        Ok(Some(full_msg(ActorId(5), 3, vec![change(0)]))),
    ]);
    assert_eq!(
        out,
        Ok(vec![
            BroadcastInput::Rebroadcast(full_msg(ActorId(4), 1, vec![change(0), change(1)])),
            BroadcastInput::Rebroadcast(full_msg(ActorId(5), 3, vec![change(0)])),
        ])
    );
    assert_eq!(handle_gossip(vec![Ok(Some(empty_msg(ActorId(4), (1, 1))))]), Ok(vec![]));
    assert_eq!(handle_gossip(vec![]), Ok(vec![]));
    assert!(is_worth_sending(&full_msg(ActorId(4), 1, vec![change(0)])));
    assert!(!is_worth_sending(&full_msg(ActorId(4), 1, vec![])));
    assert!(!is_worth_sending(&empty_msg(ActorId(4), (1, 2))));
    assert_eq!(priority_label(true), "high");
    assert_eq!(priority_label(false), "normal");
    assert_eq!(empty_msg(ActorId(4), (1, 2)).change().actor_id, ActorId(4));
}

#[test]
fn a_failure_leaves_nothing_to_send_again() {
    let out = handle_gossip(vec![
        Ok(Some(full_msg(ActorId(4), 1, vec![change(0)]))),
        Err(ChangeError::Storage(String::from("locked"))),
        Ok(Some(full_msg(ActorId(4), 2, vec![change(0)]))),
        Err(ChangeError::Report),
    ]);
    assert_eq!(out, Err(ChangeError::Storage(String::from("locked"))));
    assert_eq!(handle_gossip(vec![Err(ChangeError::Report)]), Err(ChangeError::Report));
}

#[test]
fn literal_addresses_are_used_directly() {
    let ours = v4(1, 4001);
    let mut candidates = vec![];
    add_literal(&mut candidates, v4(2, 4001));
    add_literal(&mut candidates, v6(9, 1));
    // also the node's own address, as it was written
    add_literal(&mut candidates, ours);
    add_literal(&mut candidates, v4(2, 4001));
    assert_eq!(candidates, vec![v4(2, 4001), v6(9, 1), ours]);
}

#[derive(Debug, PartialEq)]
struct Sub {
    alive: bool,
}

impl ChangeMatcher for Sub {
    fn process_change(&self, _changes: &Vec<Change>) -> bool {
        self.alive
    }
}

#[test]
fn failing_matchers_are_removed() {
    let mut matchers =
        vec![(1, Sub { alive: true }), (2, Sub { alive: false }), (3, Sub { alive: true }), (4, Sub { alive: false })];
    assert_eq!(failed_matchers(&matchers, &vec![]), vec![2, 4]);
    process_subs(&mut matchers, &vec![]);
    assert_eq!(matchers, vec![(1, Sub { alive: true }), (3, Sub { alive: true })]);
    process_subs(&mut matchers, &vec![]);
    assert_eq!(matchers.len(), 2);
    remove_matchers(&mut matchers, &vec![3, 9]);
    assert_eq!(matchers, vec![(1, Sub { alive: true })]);
}

#[test]
fn matchers_that_answer_no_are_listed_in_their_order() {
    let matchers =
        vec![(5, Sub { alive: false }), (1, Sub { alive: true }), (3, Sub { alive: false })];
    assert_eq!(ask_matchers(&matchers, &vec![]), vec![false, true, false]);
    assert_eq!(refused_by(&matchers, &vec![false, true, false]), vec![5, 3]);
    assert_eq!(refused_by(&matchers, &vec![true, true, true]), Vec::<u128>::new());
    assert_eq!(refused_by(&matchers, &vec![false, false, false]), vec![5, 1, 3]);
    assert_eq!(failed_matchers(&matchers, &vec![]), vec![5, 3]);
    let none: Vec<(u128, Sub)> = vec![];
    assert!(ask_matchers(&none, &vec![]).is_empty());
    assert!(refused_by(&none, &vec![]).is_empty());
    assert!(failed_matchers(&none, &vec![]).is_empty());
}

#[test]
fn steps_of_the_main_loop() {
    assert_eq!(on_run_event(RunEvent::Gossip(vec![1, 2])), RunStep::HandleGossip(vec![1, 2]));
    assert_eq!(on_run_event(RunEvent::<u8>::GossipClosed), RunStep::Stop);
    assert_eq!(on_run_event(RunEvent::<u8>::CleanupTick), RunStep::Cleanup);
    assert_eq!(on_run_event(RunEvent::<u8>::MetricsTick), RunStep::CollectMetrics);
    assert_eq!(on_run_event(RunEvent::<u8>::Tripped), RunStep::Stop);
    assert_eq!(CountedExecutor.clone(), CountedExecutor);
}
