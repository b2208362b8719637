//! The replicated state and the runtime that derives it from messages.

use vstd::prelude::*;
use crate::consensus::{decide_spec, Decision, VoteRule};
use crate::ordered::{count_below, lemma_insert_sorted, lemma_sorted_split, strictly_sorted};
use crate::types::{compare_bytes, ByteOrder, Message, NodeId, Proposal, ProposalId, Vote};

verus! {

/// The keys by which peers are ordered.
pub open spec fn peer_keys(peers: Seq<NodeId>) -> Seq<Seq<u8>> {
    peers.map_values(|n: NodeId| n.0@)
}

/// The keys by which proposals are ordered.
pub open spec fn proposal_keys(proposals: Seq<Proposal>) -> Seq<Seq<u8>> {
    proposals.map_values(|p: Proposal| p.id.0@)
}

/// Mathematical model of [`GlobalState`]: the known peers in increasing
/// order, the known proposals in increasing order of id with the decision
/// on each, and every vote received so far, in order of arrival.
pub struct GlobalStateView {
    pub peers: Seq<NodeId>,
    pub proposals: Seq<Proposal>,
    pub decisions: Seq<Decision>,
    pub votes: Seq<Vote>,
}

impl GlobalStateView {
    /// Peers and proposal ids are strictly increasing (so each occurs once),
    /// and there is one decision per proposal.
    pub open spec fn wf(self) -> bool {
        &&& strictly_sorted(peer_keys(self.peers))
        &&& strictly_sorted(proposal_keys(self.proposals))
        &&& self.decisions.len() == self.proposals.len()
    }

    /// Whether a proposal with this id is known.
    pub open spec fn has_proposal(self, id: ProposalId) -> bool {
        exists|i: int| 0 <= i < self.proposals.len() && (#[trigger] self.proposals[i]).id == id
    }

    /// Where a proposal with this id stands, or would be inserted.
    pub open spec fn proposal_pos(self, id: ProposalId) -> int {
        count_below(proposal_keys(self.proposals), id.0@) as int
    }

    /// Where this peer stands, or would be inserted.
    pub open spec fn peer_pos(self, node: NodeId) -> int {
        count_below(peer_keys(self.peers), node.0@) as int
    }

    /// The decision held for a proposal id, if the proposal is known.
    pub open spec fn decision_of(self, id: ProposalId) -> Option<Decision> {
        if self.has_proposal(id) {
            Some(self.decisions[self.proposal_pos(id)])
        } else {
            None
        }
    }

    /// The number of voters that the vote rule counts as eligible: the known
    /// peers, and at least one.
    pub open spec fn eligible(self) -> nat {
        if self.peers.len() == 0 {
            1
        } else {
            self.peers.len()
        }
    }
}

/// Deterministic replicated state: the "constitution" that a node derives
/// by applying messages through [`Runtime`].
#[derive(Clone, Debug)]
pub struct GlobalState {
    peers: Vec<NodeId>,
    proposals: Vec<Proposal>,
    decisions: Vec<Decision>,
    votes: Vec<Vote>,
}

impl View for GlobalState {
    type V = GlobalStateView;

    closed spec fn view(&self) -> GlobalStateView {
        GlobalStateView {
            peers: self.peers@,
            proposals: self.proposals@,
            decisions: self.decisions@,
            votes: self.votes@,
        }
    }
}

/// Where `node` stands, or would stand, among the sorted peers, and whether it is there.
fn locate_peer(peers: &Vec<NodeId>, node: &NodeId) -> (r: (usize, bool))
    requires
        strictly_sorted(peer_keys(peers@)),
    ensures
        r.0 == count_below(peer_keys(peers@), node.0@),
        r.1 == peers@.contains(*node),
        r.0 <= peers@.len(),
        r.1 ==> r.0 < peers@.len() && peers@[r.0 as int] == *node,
        !r.1 ==> crate::ordered::splits_at(peer_keys(peers@), node.0@, r.0 as int),
        !r.1 ==> !peer_keys(peers@).contains(node.0@),
{
    let ghost keys = peer_keys(peers@);
    let mut i: usize = 0;
    let mut stop = false;
    while i < peers.len() && !stop
        invariant
            0 <= i <= peers@.len(),
            keys == peer_keys(peers@),
            forall|j: int| 0 <= j < i ==> crate::types::bytes_lt(#[trigger] keys[j], node.0@),
            stop ==> i < peers@.len() && !crate::types::bytes_lt(keys[i as int], node.0@),
        decreases peers@.len() - i, if stop { 0int } else { 1int },
    {
        match compare_bytes(&peers[i].0, &node.0) {
            ByteOrder::Less => {
                i = i + 1;
            },
            _ => {
                stop = true;
            },
        }
    }
    let found = i < peers.len() && match compare_bytes(&peers[i].0, &node.0) {
        ByteOrder::Equal => true,
        _ => false,
    };
    proof {
        if i < peers@.len() {
            assert(keys[i as int] == peers@[i as int].0@);
        }
        lemma_sorted_split(keys, node.0@, i as int);
        if peers@.contains(*node) {
            let j = choose|j: int| 0 <= j < peers@.len() && peers@[j] == *node;
            assert(keys[j] == node.0@);
        }
        if found {
            assert(peers@[i as int].0 =~= node.0);
        }
    }
    (i, found)
}

/// Where a proposal with id `id` stands, or would stand, among the proposals
/// sorted by id, and whether it is there.
fn locate_proposal(proposals: &Vec<Proposal>, id: &ProposalId) -> (r: (usize, bool))
    requires
        strictly_sorted(proposal_keys(proposals@)),
    ensures
        r.0 == count_below(proposal_keys(proposals@), id.0@),
        r.1 == (exists|i: int| 0 <= i < proposals@.len() && (#[trigger] proposals@[i]).id == *id),
        r.0 <= proposals@.len(),
        r.1 ==> r.0 < proposals@.len() && proposals@[r.0 as int].id == *id,
        !r.1 ==> crate::ordered::splits_at(proposal_keys(proposals@), id.0@, r.0 as int),
        !r.1 ==> !proposal_keys(proposals@).contains(id.0@),
{
    let ghost keys = proposal_keys(proposals@);
    let mut i: usize = 0;
    let mut stop = false;
    while i < proposals.len() && !stop
        invariant
            0 <= i <= proposals@.len(),
            keys == proposal_keys(proposals@),
            forall|j: int| 0 <= j < i ==> crate::types::bytes_lt(#[trigger] keys[j], id.0@),
            stop ==> i < proposals@.len() && !crate::types::bytes_lt(keys[i as int], id.0@),
        decreases proposals@.len() - i, if stop { 0int } else { 1int },
    {
        match compare_bytes(&proposals[i].id.0, &id.0) {
            ByteOrder::Less => {
                i = i + 1;
            },
            _ => {
                stop = true;
            },
        }
    }
    let found = i < proposals.len() && match compare_bytes(&proposals[i].id.0, &id.0) {
        ByteOrder::Equal => true,
        _ => false,
    };
    proof {
        if i < proposals@.len() {
            assert(keys[i as int] == proposals@[i as int].id.0@);
        }
        lemma_sorted_split(keys, id.0@, i as int);
        if exists|j: int| 0 <= j < proposals@.len() && (#[trigger] proposals@[j]).id == *id {
            let j = choose|j: int| 0 <= j < proposals@.len() && (#[trigger] proposals@[j]).id == *id;
            assert(keys[j] == id.0@);
        }
        if found {
            assert(proposals@[i as int].id.0 =~= id.0);
        }
    }
    (i, found)
}

/// Side effects emitted by [`Runtime::apply`], for display, logging or
/// higher-layer reactions.
#[derive(Clone, Copy, Debug, PartialEq, Eq)]
pub enum RuntimeEvent {
    /// A new peer became known.
    PeerDiscovered(NodeId),
    /// A proposal was observed.
    ProposalReceived(ProposalId),
    /// A vote was observed.
    VoteReceived(ProposalId),
    /// The derived decision for a proposal changed.
    DecisionUpdated { proposal_id: ProposalId, decision: Decision },
}

/// The state after a peer is announced, and the event that this yields.
pub open spec fn receive_peer(s: GlobalStateView, node: NodeId) -> (GlobalStateView, Seq<RuntimeEvent>) {
    if s.peers.contains(node) {
        (s, Seq::empty())
    } else {
        (
            GlobalStateView { peers: s.peers.insert(s.peer_pos(node), node), ..s },
            seq![RuntimeEvent::PeerDiscovered(node)],
        )
    }
}

/// The state after a message is taken in (before decisions are
/// recomputed), and the event that this yields.
pub open spec fn receive(s: GlobalStateView, msg: Message) -> (GlobalStateView, Seq<RuntimeEvent>) {
    match msg {
        Message::Hello { node } => receive_peer(s, node),
        Message::Heartbeat { node } => receive_peer(s, node),
        Message::Proposal(p) => {
            let pos = s.proposal_pos(p.id);
            (
                if s.has_proposal(p.id) {
                    s
                } else {
                    GlobalStateView {
                        proposals: s.proposals.insert(pos, p),
                        decisions: s.decisions.insert(pos, Decision::Pending),
                        ..s
                    }
                },
                seq![RuntimeEvent::ProposalReceived(p.id)],
            )
        },
        Message::Vote { from, vote } => (
            GlobalStateView { votes: s.votes.push(vote), ..s },
            seq![RuntimeEvent::VoteReceived(vote.proposal_id)],
        ),
    }
}

/// The decision that the votes give on the proposal at index `i`.
pub open spec fn derived_decision(s: GlobalStateView, i: int) -> Decision {
    decide_spec(s.proposals[i].id, s.votes, s.eligible())
}

/// The decisions that the votes give on every proposal.
pub open spec fn derived_decisions(s: GlobalStateView) -> Seq<Decision> {
    Seq::new(s.proposals.len(), |i: int| derived_decision(s, i))
}

/// The `DecisionUpdated` events for the first `n` proposals, in order,
/// whose held decision differs from the derived one.
pub open spec fn decision_updates(s: GlobalStateView, n: int) -> Seq<RuntimeEvent>
    decreases n,
{
    if n <= 0 {
        Seq::empty()
    } else {
        let prev = decision_updates(s, n - 1);
        let d = derived_decision(s, n - 1);
        if s.decisions[n - 1] != d {
            prev.push(RuntimeEvent::DecisionUpdated { proposal_id: s.proposals[n - 1].id, decision: d })
        } else {
            prev
        }
    }
}

/// The state after decisions are recomputed, and the events that this yields.
pub open spec fn recompute(s: GlobalStateView) -> (GlobalStateView, Seq<RuntimeEvent>) {
    (
        GlobalStateView { decisions: derived_decisions(s), ..s },
        decision_updates(s, s.proposals.len() as int),
    )
}

/// The transition function: the state after applying `msg`, and the events emitted.
pub open spec fn apply_spec(s: GlobalStateView, msg: Message) -> (GlobalStateView, Seq<RuntimeEvent>) {
    let mid = receive(s, msg);
    let fin = recompute(mid.0);
    (fin.0, mid.1 + fin.1)
}

/// The state after a proposal is inserted locally: it replaces any proposal
/// with the same id, and its decision is reset to pending.
pub open spec fn submit_spec(s: GlobalStateView, p: Proposal) -> GlobalStateView {
    let pos = s.proposal_pos(p.id);
    if s.has_proposal(p.id) {
        GlobalStateView {
            proposals: s.proposals.update(pos, p),
            decisions: s.decisions.update(pos, Decision::Pending),
            ..s
        }
    } else {
        GlobalStateView {
            proposals: s.proposals.insert(pos, p),
            decisions: s.decisions.insert(pos, Decision::Pending),
            ..s
        }
    }
}

/// The empty state: no peers, proposals, decisions or votes.
pub open spec fn empty_state() -> GlobalStateView {
    GlobalStateView {
        peers: Seq::empty(),
        proposals: Seq::empty(),
        decisions: Seq::empty(),
        votes: Seq::empty(),
    }
}

impl GlobalState {
    /// The state's validity (see [`GlobalStateView::wf`]).
    pub open spec fn wf(&self) -> bool {
        self@.wf()
    }

    /// The known peers (citizens), in increasing order.
    pub fn peers(&self) -> (r: &Vec<NodeId>)
        ensures
            r@ == self@.peers,
    {
        &self.peers
    }

    /// All known proposals, in increasing order of id.
    pub fn proposals(&self) -> (r: &Vec<Proposal>)
        ensures
            r@ == self@.proposals,
    {
        &self.proposals
    }

    /// The current derived decision for a proposal, if it is known.
    pub fn decision(&self, id: ProposalId) -> (r: Option<Decision>)
        requires
            self.wf(),
        ensures
            r == self@.decision_of(id),
    {
        let (pos, found) = locate_proposal(&self.proposals, &id);
        if found {
            Some(self.decisions[pos])
        } else {
            None
        }
    }
}

impl Default for GlobalState {
    fn default() -> (r: GlobalState)
        ensures
            r@ == empty_state(),
            r.wf(),
    {
        GlobalState { peers: Vec::new(), proposals: Vec::new(), decisions: Vec::new(), votes: Vec::new() }
    }
}

/// Mathematical model of [`Runtime`]: this node's identity and its state.
pub struct RuntimeView {
    pub node_id: NodeId,
    pub state: GlobalStateView,
}

/// Execution engine that applies [`Message`] values to derive [`GlobalState`]:
/// it owns a node identity and the state, and provides the deterministic
/// transition function [`Runtime::apply`].
#[derive(Clone, Debug)]
pub struct Runtime {
    node_id: NodeId,
    state: GlobalState,
    vote_rule: VoteRule,
}

impl View for Runtime {
    type V = RuntimeView;

    closed spec fn view(&self) -> RuntimeView {
        RuntimeView { node_id: self.node_id, state: self.state@ }
    }
}

impl Default for Runtime {
    /// A runtime whose identity is all zero bytes.
    fn default() -> (r: Runtime)
        ensures
            r@.node_id.0@ == Seq::new(32, |i: int| 0u8),
            r@.state == empty_state(),
            r.wf(),
    {
        Runtime::new(NodeId::new([0u8; 32]))
    }
}

impl Runtime {
    /// The runtime's validity: that of its state.
    pub open spec fn wf(&self) -> bool {
        self@.state.wf()
    }

    /// A runtime with the given identity and an empty state.
    pub fn new(node_id: NodeId) -> (r: Runtime)
        ensures
            r@.node_id == node_id,
            r@.state == empty_state(),
            r.wf(),
    {
        let state = GlobalState::default();
        Runtime { node_id, state, vote_rule: VoteRule::SimpleMajority }
    }

    /// A runtime with a random identity and an empty state.
    pub fn new_random() -> (r: Runtime)
        ensures
            r@.state == empty_state(),
            r.wf(),
    {
        Runtime::new(NodeId::random())
    }

    /// This node's identity.
    pub fn node_id(&self) -> (r: NodeId)
        ensures
            r == self@.node_id,
    {
        self.node_id
    }

    /// The derived global state.
    pub fn state(&self) -> (r: &GlobalState)
        ensures
            r@ == self@.state,
    {
        &self.state
    }

    /// Inserts a proposal locally, replacing any proposal with the same id,
    /// and marks its decision pending. No decision is recomputed.
    pub fn submit_proposal(&mut self, proposal: Proposal)
        requires
            old(self).wf(),
        ensures
            final(self).wf(),
            final(self)@.node_id == old(self)@.node_id,
            final(self)@.state == submit_spec(old(self)@.state, proposal),
            final(self)@.state.decision_of(proposal.id) == Some(Decision::Pending),
            final(self)@.state.has_proposal(proposal.id),
            crate::laws::stored(final(self)@.state, proposal.id) == Some(proposal),
            final(self)@.state.peers == old(self)@.state.peers,
            final(self)@.state.votes == old(self)@.state.votes,
            forall|id: ProposalId| id != proposal.id ==> #[trigger] final(self)@.state.decision_of(id)
                == old(self)@.state.decision_of(id),
            forall|id: ProposalId| id != proposal.id ==> #[trigger] final(self)@.state.has_proposal(id)
                == old(self)@.state.has_proposal(id),
            forall|id: ProposalId| id != proposal.id ==> #[trigger] crate::laws::stored(final(self)@.state, id)
                == crate::laws::stored(old(self)@.state, id),
    {
        let ghost s = self.state@;
        let id = proposal.id;
        let (pos, found) = locate_proposal(&self.state.proposals, &id);
        if found {
            self.state.proposals.set(pos, proposal);
            self.state.decisions.set(pos, Decision::Pending);
            proof {
                let keys = proposal_keys(s.proposals);
                assert(proposal_keys(self.state.proposals@) =~= keys);
            }
        } else {
            self.state.proposals.insert(pos, proposal);
            self.state.decisions.insert(pos, Decision::Pending);
            proof {
                let keys = proposal_keys(s.proposals);
                lemma_insert_sorted(keys, id.0@, pos as int);
                assert(proposal_keys(self.state.proposals@) =~= keys.insert(pos as int, id.0@));
            }
        }
        assert(self.state@ == submit_spec(s, proposal));
        proof {
            crate::laws::law_submitted_proposal_pending(s, proposal);
            assert forall|id: ProposalId| id != proposal.id implies #[trigger] self.state@.decision_of(id)
                == s.decision_of(id) by {
                crate::laws::law_submit_keeps_other_ids(s, proposal, id);
            }
            assert forall|id: ProposalId| id != proposal.id implies #[trigger] self.state@.has_proposal(id)
                == s.has_proposal(id) by {
                crate::laws::law_submit_keeps_other_ids(s, proposal, id);
            }
            assert forall|id: ProposalId| id != proposal.id implies #[trigger] crate::laws::stored(self.state@, id)
                == crate::laws::stored(s, id) by {
                crate::laws::law_submit_keeps_other_ids(s, proposal, id);
            }
        }
    }

    /// Takes in a peer announcement.
    fn receive_peer(&mut self, node: NodeId, out: &mut Vec<RuntimeEvent>)
        requires
            old(self).wf(),
            old(out)@.len() == 0,
        ensures
            final(self).wf(),
            final(self)@.node_id == old(self)@.node_id,
            (final(self)@.state, final(out)@) == receive_peer(old(self)@.state, node),
    {
        let ghost s = self.state@;
        let (pos, found) = locate_peer(&self.state.peers, &node);
        if !found {
            self.state.peers.insert(pos, node);
            out.push(RuntimeEvent::PeerDiscovered(node));
            proof {
                let keys = peer_keys(s.peers);
                lemma_insert_sorted(keys, node.0@, pos as int);
                assert(peer_keys(self.state.peers@) =~= keys.insert(pos as int, node.0@));
            }
        }
        assert(self.state@ == receive_peer(s, node).0);
        assert(out@ =~= receive_peer(s, node).1);
    }

    /// Applies a single message and returns the resulting events.
    ///
    /// All replicas apply every received message; the same message sequence
    /// yields the same state.
    pub fn apply(&mut self, msg: Message) -> (out: Vec<RuntimeEvent>)
        requires
            old(self).wf(),
        ensures
            final(self).wf(),
            final(self)@.node_id == old(self)@.node_id,
            (final(self)@.state, out@) == apply_spec(old(self)@.state, msg),
    {
        let ghost s = self.state@;
        let mut out: Vec<RuntimeEvent> = Vec::new();
        match msg {
            Message::Hello { node } => {
                self.receive_peer(node, &mut out);
            },
            Message::Heartbeat { node } => {
                self.receive_peer(node, &mut out);
            },
            Message::Proposal(p) => {
                let id = p.id;
                let (pos, found) = locate_proposal(&self.state.proposals, &id);
                if !found {
                    self.state.proposals.insert(pos, p);
                    self.state.decisions.insert(pos, Decision::Pending);
                    proof {
                        let keys = proposal_keys(s.proposals);
                        lemma_insert_sorted(keys, id.0@, pos as int);
                        assert(proposal_keys(self.state.proposals@) =~= keys.insert(pos as int, id.0@));
                    }
                }
                out.push(RuntimeEvent::ProposalReceived(id));
            },
            Message::Vote { from: _, vote } => {
                let pid = vote.proposal_id;
                self.state.votes.push(vote);
                out.push(RuntimeEvent::VoteReceived(pid));
            },
        }
        let ghost mid = receive(s, msg);
        assert(self.state@ == mid.0);
        assert(out@ =~= mid.1);
        self.recompute_decisions(&mut out);
        out
    }

    /// Recomputes the decision on every proposal, in order of id, and emits
    /// an event for each that changed.
    fn recompute_decisions(&mut self, out: &mut Vec<RuntimeEvent>)
        requires
            old(self).wf(),
        ensures
            final(self).wf(),
            final(self)@.node_id == old(self)@.node_id,
            final(self)@.state == recompute(old(self)@.state).0,
            final(out)@ == old(out)@ + recompute(old(self)@.state).1,
    {
        let ghost s = self.state@;
        let ghost out0 = out@;
        let n: usize = self.state.peers.len();
        let eligible: usize = if n == 0 { 1 } else { n };
        let mut i: usize = 0;
        while i < self.state.proposals.len()
            invariant
                self.node_id == old(self).node_id,
                s == old(self)@.state,
                s.wf(),
                eligible as nat == s.eligible(),
                self.state.peers@ == s.peers,
                self.state.proposals@ == s.proposals,
                self.state.votes@ == s.votes,
                self.state.decisions@.len() == s.proposals.len(),
                0 <= i <= s.proposals.len(),
                forall|j: int| 0 <= j < i ==> self.state.decisions@[j] == derived_decision(s, j),
                forall|j: int| i <= j < s.proposals.len() ==> self.state.decisions@[j] == s.decisions[j],
                out@ == out0 + decision_updates(s, i as int),
            decreases s.proposals.len() - i,
        {
            let pid = self.state.proposals[i].id;
            let d = self.vote_rule.decide(pid, self.state.votes.as_slice(), eligible);
            if self.state.decisions[i] != d {
                self.state.decisions.set(i, d);
                out.push(RuntimeEvent::DecisionUpdated { proposal_id: pid, decision: d });
            }
            proof {
                assert(out@ =~= out0 + decision_updates(s, i as int + 1));
            }
            i = i + 1;
        }
        assert(self.state.decisions@ =~= derived_decisions(s));
    }
}

} // verus!
