use micronet_antenna::live::{App, LogEntry, LOG_CAPACITY};
use micronet_antenna::{Decision, Message, NodeId, ProposalId, RuntimeEvent, Vote};
use micronet_antenna::live::{hex32, tick_due, Key};

fn ids(n: u8) -> Vec<NodeId> {
    (0..n).map(|i| NodeId::new([i + 1; 32])).collect()
}

#[test]
fn new_network_floods_hellos() {
    let app = App::with_ids(ids(3));
    assert_eq!(app.nodes.len(), 3);
    assert!(app.nodes[0].auto_accept);
    assert!(!app.nodes[1].auto_accept);
    assert!(app.nodes[2].auto_accept);
    let q: Vec<(usize, usize, Message)> = app.queue.iter().cloned().collect();
    let id = |i: usize| NodeId::new([i as u8 + 1; 32]);
    assert_eq!(
        q,
        vec![
            (0, 1, Message::Hello { node: id(0) }),
            (0, 2, Message::Hello { node: id(0) }),
            (1, 0, Message::Hello { node: id(1) }),
            (1, 2, Message::Hello { node: id(1) }),
            (2, 0, Message::Hello { node: id(2) }),
            (2, 1, Message::Hello { node: id(2) }),
        ]
    );
    assert_eq!(app.log.iter().cloned().collect::<Vec<_>>(), vec![LogEntry::Boot]);
    assert_eq!(app.tick, 0);
    assert!(!app.partitioned);
    let random = App::new(7);
    assert_eq!(random.nodes.len(), 7);
    assert_eq!(random.queue.len(), 42);
}

#[test]
fn step_delivers_twice_as_many_messages_as_nodes() {
    let mut app = App::with_ids(ids(3));
    app.step();
    assert_eq!(app.tick, 1);
    // all six hellos delivered: every node knows the two others
    assert!(app.queue.is_empty());
    for n in &app.nodes {
        assert_eq!(n.rt.state().peers().len(), 2);
    }
    assert_eq!(app.log.len(), 7);
    assert_eq!(app.log[0], LogEntry::Event { node: 1, event: RuntimeEvent::PeerDiscovered(NodeId::new([3u8; 32])) });
    assert_eq!(app.log[6], LogEntry::Boot);
}

#[test]
fn step_with_many_messages_leaves_the_rest_queued() {
    let mut app = App::with_ids(ids(2));
    app.broadcast_heartbeat();
    app.broadcast_heartbeat();
    assert_eq!(app.queue.len(), 6);
    app.step();
    assert_eq!(app.queue.len(), 2);
}

#[test]
fn partition_drops_cross_messages() {
    let mut app = App::with_ids(ids(4));
    app.toggle_partition();
    assert!(app.partitioned);
    assert_eq!(app.log[0], LogEntry::PartitionEnabled { last_left: 1, split: 2, last: 3 });
    assert!(app.can_deliver(0, 1));
    assert!(!app.can_deliver(0, 2));
    assert!(app.can_deliver(3, 2));
    assert!(!app.can_deliver(3, 1));
    app.step();
    // nodes 0 and 1 only know each other
    assert_eq!(app.nodes[0].rt.state().peers(), &vec![NodeId::new([2u8; 32])]);
    assert!(app.log.iter().any(|e| *e == LogEntry::Dropped { from: 0, to: 2 }));
    app.toggle_partition();
    assert_eq!(app.log[0], LogEntry::NetworkHealed);
    assert!(app.can_deliver(0, 3));
}

#[test]
fn partition_of_one_node_network() {
    let mut app = App::with_ids(ids(1));
    app.toggle_partition();
    assert_eq!(app.log[0], LogEntry::PartitionEnabled { last_left: 0, split: 1, last: 0 });
    let mut empty = App::with_ids(vec![]);
    empty.toggle_partition();
    assert_eq!(empty.log[0], LogEntry::PartitionEnabled { last_left: 0, split: 1, last: 0 });
    empty.step();
    assert_eq!(empty.tick, 1);
}

#[test]
fn proposal_goes_to_every_node() {
    let mut app = App::with_ids(ids(3));
    app.queue.clear();
    let pid = ProposalId::new([9u8; 32]);
    app.submit_proposal_by(1, pid);
    assert_eq!(app.queue.len(), 3);
    for (k, (from, to, msg)) in app.queue.iter().enumerate() {
        assert_eq!(*from, 1);
        assert_eq!(*to, k);
        match msg {
            Message::Proposal(p) => {
                assert_eq!(p.id, pid);
                assert_eq!(p.kind, "enable_feature");
                assert_eq!(p.payload, b"spectacular_syscall".to_vec());
            },
            _ => panic!("not a proposal"),
        }
    }
    assert_eq!(app.log[0], LogEntry::ProposalSubmitted { id: pid, proposer: 1 });
}

#[test]
fn random_proposal_comes_from_a_node() {
    let mut app = App::with_ids(ids(5));
    let before = app.queue.len();
    app.submit_random_proposal();
    assert_eq!(app.queue.len(), before + 5);
    match app.log[0] {
        LogEntry::ProposalSubmitted { proposer, .. } => assert!(proposer < 5),
        _ => panic!("no proposal logged"),
    }
}

#[test]
fn auto_vote_on_pending_proposals() {
    let mut app = App::with_ids(ids(3));
    app.step();
    let pid = ProposalId::new([9u8; 32]);
    app.submit_proposal_by(0, pid);
    app.step();
    assert_eq!(app.nodes[2].rt.state().decision(pid), Some(Decision::Pending));
    app.auto_vote();
    // every node votes to every other node: 3 * 2 votes
    assert_eq!(app.queue.len(), 6);
    let (from, to, msg) = app.queue[0].clone();
    assert_eq!((from, to), (0, 1));
    assert_eq!(
        msg,
        Message::Vote { from: NodeId::new([1u8; 32]), vote: Vote { proposal_id: pid, accept: true } }
    );
    assert_eq!(
        app.queue[2].2,
        Message::Vote { from: NodeId::new([2u8; 32]), vote: Vote { proposal_id: pid, accept: false } }
    );
    app.step();
    assert_eq!(app.tick, 3);
    // each node has two eligible peers and counts the votes of the other two:
    // node 1 gets two accepts; nodes 0 and 2 get one accept and one reject
    assert_eq!(app.nodes[0].rt.state().decision(pid), Some(Decision::Pending));
    assert_eq!(app.nodes[1].rt.state().decision(pid), Some(Decision::Accepted));
    assert_eq!(app.nodes[2].rt.state().decision(pid), Some(Decision::Pending));
    // tick 3: node 0, the first to know the proposal, holds it pending, so votes go out again
    assert_eq!(app.queue.len(), 6);
}

#[test]
fn toggle_policy_flips_and_logs() {
    let mut app = App::with_ids(ids(2));
    app.toggle_policy(1);
    assert!(app.nodes[1].auto_accept);
    assert_eq!(app.log[0], LogEntry::PolicyToggled { node: 1, auto_accept: true });
    app.toggle_policy(1);
    assert!(!app.nodes[1].auto_accept);
}

#[test]
fn log_keeps_the_newest_entries() {
    let mut app = App::with_ids(ids(1));
    for i in 0..(LOG_CAPACITY + 5) {
        app.push_log(LogEntry::Dropped { from: i, to: 0 });
    }
    assert_eq!(app.log.len(), LOG_CAPACITY);
    assert_eq!(app.log[0], LogEntry::Dropped { from: LOG_CAPACITY + 4, to: 0 });
}

#[test]
fn heartbeats_every_tenth_tick() {
    let mut app = App::with_ids(ids(2));
    app.tick = 9;
    app.step();
    assert_eq!(app.tick, 10);
    assert_eq!(app.log[0], LogEntry::HeartbeatBroadcast);
    assert_eq!(app.queue.len(), 2);
    app.tick = u64::MAX;
    app.step();
    assert_eq!(app.tick, u64::MAX);
}

#[test]
fn hex_of_bytes() {
    let mut b = [0u8; 32];
    b[0] = 0xab;
    b[1] = 0x05;
    b[31] = 0xf0;
    let s = hex32(b);
    assert_eq!(s.len(), 64);
    assert!(s.starts_with("ab05"));
    assert!(s.ends_with("f0"));
    assert_eq!(&s[4..62], "0".repeat(58));
}

#[test]
fn keys_move_the_selection_within_the_nodes() {
    let mut app = App::with_ids(ids(3));
    assert!(!app.handle_key(Key::Left));
    assert_eq!(app.selected, 0);
    assert!(!app.handle_key(Key::Right));
    assert!(!app.handle_key(Key::Right));
    assert_eq!(app.selected, 2);
    assert!(!app.handle_key(Key::Right));
    assert_eq!(app.selected, 2);
    assert!(!app.handle_key(Key::Left));
    assert_eq!(app.selected, 1);
    assert!(app.handle_key(Key::Quit));
    assert_eq!(app.selected, 1);
    assert!(!app.handle_key(Key::Other));
    assert_eq!(app.log.len(), 1);
}

#[test]
fn keys_trigger_the_operations() {
    let mut app = App::with_ids(ids(3));
    app.queue.clear();
    app.handle_key(Key::Right);
    app.handle_key(Key::TogglePolicy);
    assert!(app.nodes[1].auto_accept);
    assert_eq!(app.log[0], LogEntry::PolicyToggled { node: 1, auto_accept: true });
    app.handle_key(Key::TogglePartition);
    assert!(app.partitioned);
    app.handle_key(Key::Heartbeat);
    assert_eq!(app.log[0], LogEntry::HeartbeatBroadcast);
    assert_eq!(app.queue.len(), 6);
    app.handle_key(Key::Propose);
    assert_eq!(app.queue.len(), 9);
    assert!(matches!(app.log[0], LogEntry::ProposalSubmitted { proposer, .. } if proposer < 3));
}

#[test]
fn ticks_are_due_after_120_ms() {
    assert!(!tick_due(0));
    assert!(!tick_due(119));
    assert!(tick_due(120));
    assert!(tick_due(u64::MAX));
}

#[test]
fn selected_laws_lists_at_most_18() {
    let mut app = App::with_ids(ids(1));
    for b in (0..20u8).rev() {
        app.submit_proposal_by(0, ProposalId::new([b; 32]));
    }
    for _ in 0..10 {
        app.step();
    }
    assert!(app.queue.is_empty());
    assert_eq!(app.nodes[0].rt.state().proposals().len(), 20);
    let laws = app.selected_laws();
    assert_eq!(laws.len(), 18);
    assert_eq!(laws[0], (ProposalId::new([0u8; 32]), Decision::Pending));
    assert_eq!(laws[17].0, ProposalId::new([17u8; 32]));
    let fresh = App::with_ids(ids(2));
    assert!(fresh.selected_laws().is_empty());
}

#[test]
fn loss_rate_cycles_and_drops_messages() {
    let mut app = App::with_ids(ids(2));
    assert_eq!(app.loss_percent, 0);
    app.handle_key(Key::CycleLoss);
    assert_eq!(app.loss_percent, 10);
    assert_eq!(app.log[0], LogEntry::LossRateSet { percent: 10 });
    app.handle_key(Key::CycleLoss);
    app.handle_key(Key::CycleLoss);
    assert_eq!(app.loss_percent, 50);
    // draws below 50 lose the message, draws from 50 on let it through
    app.step_with(&vec![49, 50, 0, 0]);
    assert!(app.queue.is_empty());
    assert_eq!(app.log[0], LogEntry::Event { node: 0, event: RuntimeEvent::PeerDiscovered(NodeId::new([2u8; 32])) });
    assert_eq!(app.log[1], LogEntry::Lost { from: 0, to: 1 });
    assert_eq!(app.nodes[0].rt.state().peers().len(), 1);
    assert_eq!(app.nodes[1].rt.state().peers().len(), 0);
    app.handle_key(Key::CycleLoss);
    assert_eq!(app.loss_percent, 0);
}

#[test]
fn delay_holds_back_delivery() {
    let mut app = App::with_ids(ids(2));
    app.handle_key(Key::CycleDelay);
    app.handle_key(Key::CycleDelay);
    assert_eq!(app.delay_ticks, 2);
    assert_eq!(app.log[0], LogEntry::DelaySet { ticks: 2 });
    // with a delay of 2 the network delivers on ticks 3, 6, ...
    app.step_with(&vec![0, 0, 0, 0]);
    app.step_with(&vec![0, 0, 0, 0]);
    assert_eq!(app.queue.len(), 2);
    app.step_with(&vec![0, 0, 0, 0]);
    assert_eq!(app.tick, 3);
    assert!(app.nodes[0].rt.state().peers().len() == 1);
    app.handle_key(Key::CycleDelay);
    assert_eq!(app.delay_ticks, 4);
    app.handle_key(Key::CycleDelay);
    assert_eq!(app.delay_ticks, 0);
}
