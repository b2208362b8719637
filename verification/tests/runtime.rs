use micronet_antenna::{
    Decision, GlobalState, Message, NodeId, Proposal, ProposalId, Runtime, RuntimeEvent, Vote, VoteRule,
};

fn node(b: u8) -> NodeId {
    NodeId::new([b; 32])
}

fn pid(b: u8) -> ProposalId {
    ProposalId::new([b; 32])
}

fn vote(p: ProposalId, accept: bool) -> Message {
    Message::Vote { from: node(0), vote: Vote { proposal_id: p, accept } }
}

#[test]
fn quick_start_submit_proposal() {
    let mut rt = Runtime::new_random();
    let p = Proposal::new("enable_feature", b"video_driver_v1".to_vec());
    rt.submit_proposal(p);
    let state: &GlobalState = rt.state();
    assert!(state.proposals().len() >= 1);
}

#[test]
fn basic_example_single_peer_accepts() {
    let mut rt = Runtime::new(node(3));
    let peer = rt.node_id();
    rt.apply(Message::Hello { node: peer });
    let p = Proposal::new("enable_feature", b"video_driver_v1".to_vec());
    let id = p.id;
    rt.apply(Message::Proposal(p));
    let events = rt.apply(Message::Vote { from: peer, vote: Vote { proposal_id: id, accept: true } });
    assert_eq!(rt.state().peers().len(), 1);
    assert_eq!(rt.state().proposals().len(), 1);
    assert_eq!(rt.state().decision(id), Some(Decision::Accepted));
    assert_eq!(
        events,
        vec![
            RuntimeEvent::VoteReceived(id),
            RuntimeEvent::DecisionUpdated { proposal_id: id, decision: Decision::Accepted },
        ]
    );
}

#[test]
fn hello_discovers_peer_once() {
    let mut rt = Runtime::new(node(1));
    assert_eq!(rt.apply(Message::Hello { node: node(2) }), vec![RuntimeEvent::PeerDiscovered(node(2))]);
    assert_eq!(rt.apply(Message::Hello { node: node(2) }), vec![]);
    assert_eq!(rt.apply(Message::Heartbeat { node: node(2) }), vec![]);
    assert_eq!(rt.apply(Message::Heartbeat { node: node(4) }), vec![RuntimeEvent::PeerDiscovered(node(4))]);
    assert_eq!(rt.state().peers().len(), 2);
}

#[test]
fn peers_are_kept_in_byte_order() {
    let mut rt = Runtime::new(node(1));
    for b in [9u8, 2, 7, 2, 5] {
        rt.apply(Message::Hello { node: node(b) });
    }
    let got: Vec<NodeId> = rt.state().peers().clone();
    assert_eq!(got, vec![node(2), node(5), node(7), node(9)]);
    let mut a = [0u8; 32];
    a[31] = 1;
    let mut b = [0u8; 32];
    b[0] = 1;
    rt.apply(Message::Hello { node: NodeId::new(b) });
    rt.apply(Message::Hello { node: NodeId::new(a) });
    assert_eq!(rt.state().peers()[0], NodeId::new(a));
    assert_eq!(rt.state().peers()[1], NodeId::new(b));
}

#[test]
fn proposal_received_and_first_wins() {
    let mut rt = Runtime::new(node(1));
    let first = Proposal::with_id(pid(7), "first", vec![1]);
    let second = Proposal::with_id(pid(7), "second", vec![2]);
    assert_eq!(rt.apply(Message::Proposal(first.clone())), vec![RuntimeEvent::ProposalReceived(pid(7))]);
    assert_eq!(rt.apply(Message::Proposal(second)), vec![RuntimeEvent::ProposalReceived(pid(7))]);
    assert_eq!(rt.state().proposals().len(), 1);
    assert_eq!(rt.state().proposals()[0], first);
    assert_eq!(rt.state().decision(pid(7)), Some(Decision::Pending));
}

#[test]
fn proposals_are_kept_in_id_order() {
    let mut rt = Runtime::new(node(1));
    for b in [30u8, 10, 20] {
        rt.apply(Message::Proposal(Proposal::with_id(pid(b), "k", vec![])));
    }
    let ids: Vec<ProposalId> = rt.state().proposals().iter().map(|p| p.id).collect();
    assert_eq!(ids, vec![pid(10), pid(20), pid(30)]);
}

#[test]
fn unknown_proposal_has_no_decision() {
    let rt = Runtime::new(node(1));
    assert_eq!(rt.state().decision(pid(1)), None);
}

#[test]
fn majority_needs_more_than_half_of_peers() {
    let mut rt = Runtime::new(node(1));
    for b in 1..=4u8 {
        rt.apply(Message::Hello { node: node(b) });
    }
    rt.apply(Message::Proposal(Proposal::with_id(pid(9), "k", vec![])));
    // 4 eligible: more than 2 accepts are needed.
    assert_eq!(rt.apply(vote(pid(9), true)), vec![RuntimeEvent::VoteReceived(pid(9))]);
    rt.apply(vote(pid(9), true));
    assert_eq!(rt.state().decision(pid(9)), Some(Decision::Pending));
    let ev = rt.apply(vote(pid(9), true));
    assert_eq!(
        ev,
        vec![
            RuntimeEvent::VoteReceived(pid(9)),
            RuntimeEvent::DecisionUpdated { proposal_id: pid(9), decision: Decision::Accepted },
        ]
    );
}

#[test]
fn rejection_by_majority() {
    let mut rt = Runtime::new(node(1));
    rt.apply(Message::Hello { node: node(1) });
    rt.apply(Message::Hello { node: node(2) });
    rt.apply(Message::Proposal(Proposal::with_id(pid(3), "k", vec![])));
    rt.apply(vote(pid(3), false));
    assert_eq!(rt.state().decision(pid(3)), Some(Decision::Pending));
    rt.apply(vote(pid(3), false));
    assert_eq!(rt.state().decision(pid(3)), Some(Decision::Rejected));
}

#[test]
fn new_peers_can_turn_a_decision_back_to_pending() {
    let mut rt = Runtime::new(node(1));
    rt.apply(Message::Proposal(Proposal::with_id(pid(3), "k", vec![])));
    rt.apply(vote(pid(3), true));
    // no peers: at least one voter is eligible
    assert_eq!(rt.state().decision(pid(3)), Some(Decision::Accepted));
    assert_eq!(rt.apply(Message::Hello { node: node(1) }), vec![RuntimeEvent::PeerDiscovered(node(1))]);
    let ev = rt.apply(Message::Hello { node: node(2) });
    assert_eq!(
        ev,
        vec![
            RuntimeEvent::PeerDiscovered(node(2)),
            RuntimeEvent::DecisionUpdated { proposal_id: pid(3), decision: Decision::Pending },
        ]
    );
}

#[test]
fn votes_before_the_proposal_count() {
    let mut rt = Runtime::new(node(1));
    rt.apply(vote(pid(4), true));
    let ev = rt.apply(Message::Proposal(Proposal::with_id(pid(4), "k", vec![])));
    assert_eq!(
        ev,
        vec![
            RuntimeEvent::ProposalReceived(pid(4)),
            RuntimeEvent::DecisionUpdated { proposal_id: pid(4), decision: Decision::Accepted },
        ]
    );
}

#[test]
fn decision_updates_come_in_id_order() {
    let mut rt = Runtime::new(node(1));
    rt.apply(vote(pid(8), true));
    rt.apply(vote(pid(2), false));
    rt.apply(Message::Proposal(Proposal::with_id(pid(8), "k", vec![])));
    rt.apply(Message::Proposal(Proposal::with_id(pid(2), "k", vec![])));
    // adding two peers makes both decisions pending again, reported by id
    rt.apply(Message::Hello { node: node(1) });
    let ev = rt.apply(Message::Hello { node: node(2) });
    assert_eq!(
        ev,
        vec![
            RuntimeEvent::PeerDiscovered(node(2)),
            RuntimeEvent::DecisionUpdated { proposal_id: pid(2), decision: Decision::Pending },
            RuntimeEvent::DecisionUpdated { proposal_id: pid(8), decision: Decision::Pending },
        ]
    );
}

#[test]
fn submit_replaces_and_resets_to_pending() {
    let mut rt = Runtime::new(node(1));
    rt.apply(Message::Proposal(Proposal::with_id(pid(6), "old", vec![])));
    rt.apply(vote(pid(6), true));
    assert_eq!(rt.state().decision(pid(6)), Some(Decision::Accepted));
    rt.submit_proposal(Proposal::with_id(pid(6), "new", vec![1]));
    assert_eq!(rt.state().proposals().len(), 1);
    assert_eq!(rt.state().proposals()[0].kind, "new");
    assert_eq!(rt.state().decision(pid(6)), Some(Decision::Pending));
    // the next message recomputes it
    let ev = rt.apply(Message::Hello { node: node(1) });
    assert_eq!(
        ev,
        vec![
            RuntimeEvent::PeerDiscovered(node(1)),
            RuntimeEvent::DecisionUpdated { proposal_id: pid(6), decision: Decision::Accepted },
        ]
    );
}

#[test]
fn same_messages_same_state() {
    let msgs = vec![
        Message::Hello { node: node(5) },
        Message::Proposal(Proposal::with_id(pid(1), "a", vec![])),
        vote(pid(1), true),
        Message::Heartbeat { node: node(6) },
        vote(pid(1), true),
        Message::Proposal(Proposal::with_id(pid(0), "b", vec![])),
    ];
    let mut a = Runtime::new(node(1));
    let mut b = Runtime::new(node(2));
    let mut ea = Vec::new();
    let mut eb = Vec::new();
    for m in &msgs {
        ea.extend(a.apply(m.clone()));
    }
    // replaying in two pieces gives the same
    for m in &msgs[..3] {
        eb.extend(b.apply(m.clone()));
    }
    for m in &msgs[3..] {
        eb.extend(b.apply(m.clone()));
    }
    assert_eq!(ea, eb);
    assert_eq!(a.state().peers(), b.state().peers());
    assert_eq!(a.state().proposals(), b.state().proposals());
    assert_eq!(a.state().decision(pid(1)), Some(Decision::Accepted));
    assert_eq!(b.state().decision(pid(1)), Some(Decision::Accepted));
    assert_eq!(a.state().decision(pid(0)), b.state().decision(pid(0)));
}

#[test]
fn decide_ignores_other_proposals() {
    let votes = vec![
        Vote { proposal_id: pid(1), accept: true },
        Vote { proposal_id: pid(2), accept: false },
        Vote { proposal_id: pid(2), accept: false },
        Vote { proposal_id: pid(1), accept: true },
    ];
    let rule = VoteRule::SimpleMajority;
    assert_eq!(rule.decide(pid(1), &votes, 3), Decision::Accepted);
    assert_eq!(rule.decide(pid(2), &votes, 3), Decision::Rejected);
    assert_eq!(rule.decide(pid(1), &votes, 4), Decision::Pending);
    assert_eq!(rule.decide(pid(3), &votes, 0), Decision::Pending);
    assert_eq!(rule.decide(pid(1), &votes[..1], 1), Decision::Accepted);
}

#[test]
fn accepted_stays_accepted_with_more_votes() {
    let rule = VoteRule::SimpleMajority;
    let mut votes = vec![Vote { proposal_id: pid(1), accept: true }; 3];
    assert_eq!(rule.decide(pid(1), &votes, 5), Decision::Accepted);
    votes.extend(vec![Vote { proposal_id: pid(1), accept: false }; 4]);
    assert_eq!(rule.decide(pid(1), &votes, 5), Decision::Accepted);
}

#[test]
fn default_runtime_has_zero_identity() {
    let rt = Runtime::default();
    assert_eq!(rt.node_id(), NodeId::new([0u8; 32]));
    assert!(rt.state().peers().is_empty());
    let st = GlobalState::default();
    assert!(st.proposals().is_empty());
}

#[test]
fn random_identities_differ() {
    let a = NodeId::random();
    let b = NodeId::random();
    assert_ne!(a, b);
    assert_ne!(ProposalId::random(), ProposalId::random());
    let p = Proposal::new("kind", vec![1, 2]);
    assert_eq!(p.kind, "kind");
    assert_eq!(p.payload, vec![1, 2]);
    let r = Runtime::new_random();
    assert!(r.state().peers().is_empty());
}

#[test]
fn decision_ignores_vote_order() {
    let rule = VoteRule::SimpleMajority;
    let a = vec![
        Vote { proposal_id: pid(1), accept: true },
        Vote { proposal_id: pid(1), accept: false },
        Vote { proposal_id: pid(1), accept: true },
    ];
    let b = vec![
        Vote { proposal_id: pid(2), accept: false },
        Vote { proposal_id: pid(1), accept: true },
        Vote { proposal_id: pid(1), accept: true },
        Vote { proposal_id: pid(1), accept: false },
    ];
    for e in 0..6 {
        assert_eq!(rule.decide(pid(1), &a, e), rule.decide(pid(1), &b, e));
    }
    assert_eq!(rule.decide(pid(1), &a, 3), Decision::Accepted);
}

#[test]
fn delivery_order_does_not_change_the_outcome() {
    let msgs = vec![
        Message::Hello { node: node(2) },
        Message::Proposal(Proposal::with_id(pid(1), "a", vec![])),
        vote(pid(1), true),
        Message::Heartbeat { node: node(3) },
        vote(pid(1), false),
        vote(pid(1), true),
        Message::Proposal(Proposal::with_id(pid(0), "b", vec![])),
        vote(pid(0), false),
    ];
    let mut reversed = msgs.clone();
    reversed.reverse();
    let mut a = Runtime::new(node(1));
    let mut b = Runtime::new(node(1));
    for m in msgs {
        a.apply(m);
    }
    for m in reversed {
        b.apply(m);
    }
    assert_eq!(a.state().peers(), b.state().peers());
    let ids_a: Vec<ProposalId> = a.state().proposals().iter().map(|p| p.id).collect();
    let ids_b: Vec<ProposalId> = b.state().proposals().iter().map(|p| p.id).collect();
    assert_eq!(ids_a, ids_b);
    assert_eq!(ids_a, vec![pid(0), pid(1)]);
    assert_eq!(a.state().decision(pid(1)), Some(Decision::Accepted));
    assert_eq!(b.state().decision(pid(1)), Some(Decision::Accepted));
    assert_eq!(a.state().decision(pid(0)), Some(Decision::Pending));
    assert_eq!(b.state().decision(pid(0)), Some(Decision::Pending));
}

#[test]
fn recomputing_twice_emits_nothing_more() {
    let mut rt = Runtime::new(node(1));
    rt.apply(Message::Proposal(Proposal::with_id(pid(1), "a", vec![])));
    rt.apply(vote(pid(1), true));
    // a message that changes nothing only recomputes: no decision event
    assert_eq!(rt.apply(Message::Vote { from: node(1), vote: Vote { proposal_id: pid(9), accept: true } }),
        vec![RuntimeEvent::VoteReceived(pid(9))]);
    assert_eq!(rt.state().decision(pid(1)), Some(Decision::Accepted));
}

#[test]
fn identity_is_fixed_and_has_no_influence() {
    let ops = vec![
        Message::Hello { node: node(7) },
        Message::Vote { from: node(8), vote: Vote { proposal_id: pid(1), accept: true } },
        Message::Proposal(Proposal::with_id(pid(1), "a", vec![])),
        Message::Heartbeat { node: node(9) },
    ];
    let mut a = Runtime::new(node(1));
    let mut b = Runtime::new(node(2));
    for m in ops {
        assert_eq!(a.apply(m.clone()), b.apply(m));
    }
    a.submit_proposal(Proposal::with_id(pid(2), "s", vec![]));
    b.submit_proposal(Proposal::with_id(pid(2), "s", vec![]));
    assert_eq!(a.node_id(), node(1));
    assert_eq!(b.node_id(), node(2));
    assert_eq!(a.state().peers(), b.state().peers());
    assert_eq!(a.state().proposals(), b.state().proposals());
    assert_eq!(a.state().decision(pid(1)), b.state().decision(pid(1)));
    assert_eq!(a.state().decision(pid(2)), b.state().decision(pid(2)));
}

#[test]
fn peers_are_exactly_the_announced_nodes() {
    let mut rt = Runtime::new(node(1));
    rt.apply(Message::Vote { from: node(5), vote: Vote { proposal_id: pid(1), accept: true } });
    rt.apply(Message::Heartbeat { node: node(4) });
    rt.submit_proposal(Proposal::with_id(pid(1), "a", vec![]));
    rt.apply(Message::Hello { node: node(3) });
    assert_eq!(rt.state().peers(), &vec![node(3), node(4)]);
}

#[test]
fn stored_proposal_is_last_submitted_or_first_applied() {
    let mut rt = Runtime::new(node(1));
    rt.apply(Message::Proposal(Proposal::with_id(pid(1), "first", vec![])));
    rt.apply(Message::Proposal(Proposal::with_id(pid(1), "second", vec![])));
    assert_eq!(rt.state().proposals()[0].kind, "first");
    rt.submit_proposal(Proposal::with_id(pid(1), "local", vec![]));
    rt.apply(Message::Proposal(Proposal::with_id(pid(1), "third", vec![])));
    assert_eq!(rt.state().proposals()[0].kind, "local");
    rt.submit_proposal(Proposal::with_id(pid(1), "latest", vec![]));
    assert_eq!(rt.state().proposals().len(), 1);
    assert_eq!(rt.state().proposals()[0].kind, "latest");
}
