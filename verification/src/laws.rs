//! Properties of the replicated state machine that hold across operations.

use vstd::prelude::*;
use crate::consensus::{count_votes, decide_spec, Decision};
use crate::ordered::{lemma_insert_sorted, lemma_sorted_splits_at_count, strictly_sorted};
use crate::state::{apply_spec, decision_updates, derived_decision, derived_decisions, peer_keys, proposal_keys, receive, receive_peer, recompute, submit_spec, GlobalStateView, RuntimeEvent};
use crate::types::{Message, NodeId, Proposal, ProposalId, Vote};

verus! {

/// Distinct node identities have distinct byte strings.
proof fn lemma_node_key_injective(a: NodeId, b: NodeId)
    requires
        a.0@ == b.0@,
    ensures
        a == b,
{
    assert(a.0 =~= b.0);
}

/// Distinct proposal identities have distinct byte strings.
proof fn lemma_proposal_key_injective(a: ProposalId, b: ProposalId)
    requires
        a.0@ == b.0@,
    ensures
        a == b,
{
    assert(a.0 =~= b.0);
}

/// Taking in any message keeps the state valid.
proof fn lemma_receive_wf(s: GlobalStateView, msg: Message)
    requires
        s.wf(),
    ensures
        receive(s, msg).0.wf(),
{
    match msg {
        Message::Hello { node } => lemma_receive_peer_wf(s, node),
        Message::Heartbeat { node } => lemma_receive_peer_wf(s, node),
        Message::Proposal(p) => {
            if !s.has_proposal(p.id) {
                let keys = proposal_keys(s.proposals);
                let pos = s.proposal_pos(p.id);
                lemma_sorted_splits_at_count(keys, p.id.0@);
                if keys.contains(p.id.0@) {
                    let j = choose|j: int| 0 <= j < keys.len() && keys[j] == p.id.0@;
                    lemma_proposal_key_injective(s.proposals[j].id, p.id);
                }
                lemma_insert_sorted(keys, p.id.0@, pos);
                assert(proposal_keys(s.proposals.insert(pos, p)) =~= keys.insert(pos, p.id.0@));
            }
        },
        Message::Vote { from, vote } => {},
    }
}

proof fn lemma_receive_peer_wf(s: GlobalStateView, node: NodeId)
    requires
        s.wf(),
    ensures
        receive_peer(s, node).0.wf(),
{
    if !s.peers.contains(node) {
        let keys = peer_keys(s.peers);
        let pos = s.peer_pos(node);
        lemma_sorted_splits_at_count(keys, node.0@);
        if keys.contains(node.0@) {
            let j = choose|j: int| 0 <= j < keys.len() && keys[j] == node.0@;
            lemma_node_key_injective(s.peers[j], node);
        }
        lemma_insert_sorted(keys, node.0@, pos);
        assert(peer_keys(s.peers.insert(pos, node)) =~= keys.insert(pos, node.0@));
    }
}

/// Applying any message to a valid state yields a valid state: peers and
/// proposal ids stay strictly increasing, with one decision per proposal.
pub proof fn law_apply_preserves_wf(s: GlobalStateView, msg: Message)
    requires
        s.wf(),
    ensures
        apply_spec(s, msg).0.wf(),
{
    lemma_receive_wf(s, msg);
}

/// After a message is applied, every decision is the one that the votes give
/// among the eligible voters: decisions are derived, never stale.
pub proof fn law_decisions_are_derived(s: GlobalStateView, msg: Message)
    requires
        s.wf(),
    ensures
        ({
            let t = apply_spec(s, msg).0;
            forall|i: int| 0 <= i < t.proposals.len() ==> #[trigger] t.decisions[i]
                == decide_spec(t.proposals[i].id, t.votes, t.eligible())
        }),
{
    lemma_receive_wf(s, msg);
}

/// No `DecisionUpdated` event comes from a state whose decisions are already derived.
proof fn lemma_no_updates_when_derived(s: GlobalStateView, n: int)
    requires
        0 <= n <= s.proposals.len(),
        s.decisions.len() == s.proposals.len(),
        forall|i: int| 0 <= i < s.proposals.len() ==> s.decisions[i] == derived_decision(s, i),
    ensures
        decision_updates(s, n) == Seq::<RuntimeEvent>::empty(),
    decreases n,
{
    if n > 0 {
        lemma_no_updates_when_derived(s, n - 1);
    }
}

/// Announcing a node twice changes nothing the second time: the state stays
/// as it was after the first announcement and no event is emitted. The
/// same holds of heartbeats.
pub proof fn law_announce_idempotent(s: GlobalStateView, node: NodeId)
    requires
        s.wf(),
    ensures
        ({
            let t = apply_spec(s, Message::Hello { node }).0;
            &&& apply_spec(t, Message::Hello { node }) == (t, Seq::<RuntimeEvent>::empty())
            &&& apply_spec(t, Message::Heartbeat { node }) == (t, Seq::<RuntimeEvent>::empty())
        }),
{
    let mid = receive(s, Message::Hello { node }).0;
    lemma_receive_wf(s, Message::Hello { node });
    let t = apply_spec(s, Message::Hello { node }).0;
    lemma_sorted_splits_at_count(peer_keys(s.peers), node.0@);
    assert(t.peers == mid.peers);
    if !s.peers.contains(node) {
        assert(mid.peers[s.peer_pos(node)] == node);
    } else {
        let j = choose|j: int| 0 <= j < s.peers.len() && s.peers[j] == node;
        assert(t.peers[j] == node);
    }
    assert(t.peers.contains(node));
    assert(receive(t, Message::Hello { node }).0 == t);
    assert(receive(t, Message::Heartbeat { node }).0 == t);
    assert(derived_decisions(t) =~= t.decisions);
    lemma_no_updates_when_derived(t, t.proposals.len() as int);
    assert(recompute(t).0 == t);
    assert(Seq::<RuntimeEvent>::empty() + Seq::<RuntimeEvent>::empty() =~= Seq::<RuntimeEvent>::empty());
}

/// The first proposal received under an id is kept: a later proposal with
/// the same id leaves every proposal as it was. A new id is added with the
/// proposal as received.
pub proof fn law_first_proposal_wins(s: GlobalStateView, p: Proposal)
    requires
        s.wf(),
    ensures
        s.has_proposal(p.id) ==> apply_spec(s, Message::Proposal(p)).0.proposals == s.proposals,
        !s.has_proposal(p.id) ==> apply_spec(s, Message::Proposal(p)).0.proposals
            == s.proposals.insert(s.proposal_pos(p.id), p),
{
}

/// Nothing is forgotten: every known peer stays known and every known
/// proposal stays known after any message, and no vote is lost.
pub proof fn law_knowledge_grows(s: GlobalStateView, msg: Message)
    requires
        s.wf(),
    ensures
        ({
            let t = apply_spec(s, msg).0;
            &&& forall|n: NodeId| s.peers.contains(n) ==> #[trigger] t.peers.contains(n)
            &&& forall|id: ProposalId| s.has_proposal(id) ==> #[trigger] t.has_proposal(id)
            &&& s.votes.is_prefix_of(t.votes)
        }),
{
    let t = apply_spec(s, msg).0;
    let mid = receive(s, msg).0;
    assert(t.peers == mid.peers && t.proposals == mid.proposals && t.votes == mid.votes);
    assert forall|n: NodeId| s.peers.contains(n) implies #[trigger] t.peers.contains(n) by {
        let j = choose|j: int| 0 <= j < s.peers.len() && s.peers[j] == n;
        match msg {
            Message::Hello { node } => lemma_peer_kept(s, node, j),
            Message::Heartbeat { node } => lemma_peer_kept(s, node, j),
            _ => {
                assert(t.peers[j] == n);
            },
        }
    }
    assert forall|id: ProposalId| s.has_proposal(id) implies #[trigger] t.has_proposal(id) by {
        let j = choose|j: int| 0 <= j < s.proposals.len() && (#[trigger] s.proposals[j]).id == id;
        match msg {
            Message::Proposal(p) => {
                if !s.has_proposal(p.id) {
                    let pos = s.proposal_pos(p.id);
                    lemma_sorted_splits_at_count(proposal_keys(s.proposals), p.id.0@);
                    if j < pos {
                        assert(t.proposals[j].id == id);
                    } else {
                        assert(t.proposals[j + 1].id == id);
                    }
                } else {
                    assert(t.proposals[j].id == id);
                }
            },
            _ => {
                assert(t.proposals[j].id == id);
            },
        }
    }
    assert(s.votes.is_prefix_of(t.votes));
}

/// A peer known before an announcement is still known after it.
proof fn lemma_peer_kept(s: GlobalStateView, node: NodeId, j: int)
    requires
        s.wf(),
        0 <= j < s.peers.len(),
    ensures
        receive_peer(s, node).0.peers.contains(s.peers[j]),
{
    let t = receive_peer(s, node).0;
    if !s.peers.contains(node) {
        let pos = s.peer_pos(node);
        lemma_sorted_splits_at_count(peer_keys(s.peers), node.0@);
        if j < pos {
            assert(t.peers[j] == s.peers[j]);
        } else {
            assert(t.peers[j + 1] == s.peers[j]);
        }
    } else {
        assert(t.peers[j] == s.peers[j]);
    }
}

/// Votes on other proposals do not change the decision on a proposal.
pub proof fn law_votes_on_others_ignored(pid: ProposalId, votes: Seq<Vote>, others: Seq<Vote>, eligible: nat)
    requires
        forall|i: int| 0 <= i < others.len() ==> (#[trigger] others[i]).proposal_id != pid,
    ensures
        decide_spec(pid, votes + others, eligible) == decide_spec(pid, votes, eligible),
    decreases others.len(),
{
    lemma_count_unchanged(votes, others, pid, true);
    lemma_count_unchanged(votes, others, pid, false);
}

proof fn lemma_count_unchanged(votes: Seq<Vote>, others: Seq<Vote>, pid: ProposalId, accept: bool)
    requires
        forall|i: int| 0 <= i < others.len() ==> (#[trigger] others[i]).proposal_id != pid,
    ensures
        count_votes(votes + others, pid, accept) == count_votes(votes, pid, accept),
    decreases others.len(),
{
    if others.len() > 0 {
        let o = others.drop_last();
        assert((votes + others).drop_last() =~= votes + o);
        assert(others[others.len() - 1].proposal_id != pid);
        lemma_count_unchanged(votes, o, pid, accept);
    } else {
        assert(votes + others =~= votes);
    }
}

proof fn lemma_count_monotone(votes: Seq<Vote>, more: Seq<Vote>, pid: ProposalId, accept: bool)
    ensures
        count_votes(votes + more, pid, accept) >= count_votes(votes, pid, accept),
    decreases more.len(),
{
    if more.len() > 0 {
        let m = more.drop_last();
        assert((votes + more).drop_last() =~= votes + m);
        lemma_count_monotone(votes, m, pid, accept);
    } else {
        assert(votes + more =~= votes);
    }
}

/// Among a fixed number of eligible voters, an accepted proposal stays
/// accepted whatever further votes arrive.
pub proof fn law_acceptance_is_stable(pid: ProposalId, votes: Seq<Vote>, more: Seq<Vote>, eligible: nat)
    requires
        decide_spec(pid, votes, eligible) == Decision::Accepted,
    ensures
        decide_spec(pid, votes + more, eligible) == Decision::Accepted,
{
    lemma_count_monotone(votes, more, pid, true);
}

/// The state and events that a sequence of messages yields, in order.
pub open spec fn replay(s: GlobalStateView, msgs: Seq<Message>) -> (GlobalStateView, Seq<RuntimeEvent>)
    decreases msgs.len(),
{
    if msgs.len() == 0 {
        (s, Seq::empty())
    } else {
        let prev = replay(s, msgs.drop_last());
        let step = apply_spec(prev.0, msgs.last());
        (step.0, prev.1 + step.1)
    }
}

/// A message log can be replayed in pieces: applying `a` and then `b` gives
/// the state and the events of applying `a + b`; and every state reached
/// from a valid one is valid.
pub proof fn law_replay_composes(s: GlobalStateView, a: Seq<Message>, b: Seq<Message>)
    requires
        s.wf(),
    ensures
        replay(s, a + b).0 == replay(replay(s, a).0, b).0,
        replay(s, a + b).1 == replay(s, a).1 + replay(replay(s, a).0, b).1,
        replay(s, a + b).0.wf(),
    decreases b.len(),
{
    lemma_replay_wf(s, a + b);
    if b.len() == 0 {
        assert(a + b =~= a);
        assert(replay(s, a).1 + Seq::<RuntimeEvent>::empty() =~= replay(s, a).1);
    } else {
        let b0 = b.drop_last();
        assert((a + b).drop_last() =~= a + b0);
        assert((a + b).last() == b.last());
        law_replay_composes(s, a, b0);
        let r = replay(replay(s, a).0, b0);
        let step = apply_spec(r.0, b.last());
        assert(replay(s, a + b).1 =~= replay(s, a).1 + r.1 + step.1);
        assert(replay(s, a).1 + (r.1 + step.1) =~= replay(s, a).1 + r.1 + step.1);
    }
}

proof fn lemma_replay_wf(s: GlobalStateView, msgs: Seq<Message>)
    requires
        s.wf(),
    ensures
        replay(s, msgs).0.wf(),
    decreases msgs.len(),
{
    if msgs.len() > 0 {
        lemma_replay_wf(s, msgs.drop_last());
        law_apply_preserves_wf(replay(s, msgs.drop_last()).0, msgs.last());
    }
}

/// A locally submitted proposal is known, stored as given, and pending.
pub proof fn law_submitted_proposal_pending(s: GlobalStateView, p: Proposal)
    requires
        s.wf(),
    ensures
        submit_spec(s, p).wf(),
        submit_spec(s, p).has_proposal(p.id),
        submit_spec(s, p).decision_of(p.id) == Some(Decision::Pending),
        submit_spec(s, p).proposals[s.proposal_pos(p.id)] == p,
        stored(submit_spec(s, p), p.id) == Some(p),
{
    let keys = proposal_keys(s.proposals);
    let pos = s.proposal_pos(p.id);
    lemma_sorted_splits_at_count(keys, p.id.0@);
    let t = submit_spec(s, p);
    if s.has_proposal(p.id) {
        let j = choose|j: int| 0 <= j < s.proposals.len() && (#[trigger] s.proposals[j]).id == p.id;
        // the proposal with this id stands at its position
        assert(keys[j] == p.id.0@);
        crate::types::lemma_bytes_lt_asymmetric(p.id.0@, p.id.0@);
        if j < pos {
            assert(crate::types::bytes_lt(keys[j], p.id.0@));
        }
        if j > pos {
            assert(crate::types::bytes_lt(keys[pos], keys[j]));
            crate::types::lemma_bytes_lt_total(keys[pos], p.id.0@);
            crate::types::lemma_bytes_lt_asymmetric(keys[pos], p.id.0@);
        }
        assert(j == pos);
        assert(proposal_keys(t.proposals) =~= keys);
    } else {
        if keys.contains(p.id.0@) {
            let j = choose|j: int| 0 <= j < keys.len() && keys[j] == p.id.0@;
            lemma_proposal_key_injective(s.proposals[j].id, p.id);
        }
        lemma_insert_sorted(keys, p.id.0@, pos);
        assert(proposal_keys(t.proposals) =~= keys.insert(pos, p.id.0@));
    }
    assert(t.proposals[pos].id == p.id);
    lemma_sorted_splits_at_count(proposal_keys(t.proposals), p.id.0@);
    assert(proposal_keys(t.proposals)[pos] == p.id.0@);
    crate::types::lemma_bytes_lt_asymmetric(p.id.0@, p.id.0@);
    assert forall|j: int| 0 <= j < pos implies crate::types::bytes_lt(#[trigger] proposal_keys(t.proposals)[j], p.id.0@) by {
        assert(proposal_keys(t.proposals)[j] == keys[j]);
    }
    assert(crate::ordered::splits_at(proposal_keys(t.proposals), p.id.0@, pos));
    crate::ordered::lemma_count_below_at_split(proposal_keys(t.proposals), p.id.0@, pos);
    assert(t.proposals[pos] == p);
    assert(t.has_proposal(p.id));
}

/// Recomputing decisions a second time changes nothing and emits nothing.
pub proof fn law_recompute_idempotent(s: GlobalStateView)
    requires
        s.wf(),
    ensures
        recompute(recompute(s).0) == (recompute(s).0, Seq::<RuntimeEvent>::empty()),
{
    let t = recompute(s).0;
    assert(derived_decisions(t) =~= t.decisions);
    lemma_no_updates_when_derived(t, t.proposals.len() as int);
    assert(recompute(t).0 == t);
}

/// The votes in `votes` on proposal `pid`.
pub open spec fn votes_on(votes: Seq<Vote>, pid: ProposalId) -> Seq<Vote> {
    votes.filter(|v: Vote| v.proposal_id == pid)
}

/// Counting the matching votes is counting one vote value in the multiset
/// of votes: a vote is determined by its proposal and its choice.
proof fn lemma_count_is_multiset_count(votes: Seq<Vote>, pid: ProposalId, accept: bool)
    ensures
        count_votes(votes, pid, accept) == votes.to_multiset().count(Vote { proposal_id: pid, accept }),
    decreases votes.len(),
{
    broadcast use vstd::seq_lib::group_to_multiset_ensures;
    if votes.len() > 0 {
        let init = votes.drop_last();
        lemma_count_is_multiset_count(init, pid, accept);
        assert(init.push(votes.last()) =~= votes);
    } else {
        assert(votes.to_multiset() =~= vstd::multiset::Multiset::empty());
    }
}

/// Dropping the votes on other proposals leaves the count unchanged.
proof fn lemma_count_of_votes_on(votes: Seq<Vote>, pid: ProposalId, accept: bool)
    ensures
        count_votes(votes_on(votes, pid), pid, accept) == count_votes(votes, pid, accept),
    decreases votes.len(),
{
    reveal(Seq::filter);
    if votes.len() > 0 {
        let init = votes.drop_last();
        lemma_count_of_votes_on(init, pid, accept);
        assert(votes_on(votes, pid) == if votes.last().proposal_id == pid {
            votes_on(init, pid).push(votes.last())
        } else {
            votes_on(init, pid)
        });
        if votes.last().proposal_id == pid {
            assert(votes_on(init, pid).push(votes.last()).drop_last() =~= votes_on(init, pid));
        }
    }
}

/// Only how many votes on a proposal accept and how many reject decide it:
/// reordering the votes, or adding or removing votes on other proposals,
/// leaves the decision unchanged.
pub proof fn law_decision_depends_only_on_own_votes(
    pid: ProposalId,
    votes1: Seq<Vote>,
    votes2: Seq<Vote>,
    eligible: nat,
)
    requires
        votes_on(votes1, pid).to_multiset() == votes_on(votes2, pid).to_multiset(),
    ensures
        decide_spec(pid, votes1, eligible) == decide_spec(pid, votes2, eligible),
{
    lemma_count_of_votes_on(votes1, pid, true);
    lemma_count_of_votes_on(votes1, pid, false);
    lemma_count_of_votes_on(votes2, pid, true);
    lemma_count_of_votes_on(votes2, pid, false);
    lemma_count_is_multiset_count(votes_on(votes1, pid), pid, true);
    lemma_count_is_multiset_count(votes_on(votes1, pid), pid, false);
    lemma_count_is_multiset_count(votes_on(votes2, pid), pid, true);
    lemma_count_is_multiset_count(votes_on(votes2, pid), pid, false);
}

/// Whether `m` announces node `n` (a `Hello` or a `Heartbeat`).
pub open spec fn announces(m: Message, n: NodeId) -> bool {
    m == Message::Hello { node: n } || m == Message::Heartbeat { node: n }
}

/// Whether `m` is a vote with this proposal and choice (from anyone).
pub open spec fn is_vote_on(m: Message, pid: ProposalId, accept: bool) -> bool {
    m matches Message::Vote { from, vote } && vote == Vote { proposal_id: pid, accept }
}

/// The vote that `m` carries, if any.
pub open spec fn vote_of(m: Message) -> Seq<Vote> {
    match m {
        Message::Vote { from, vote } => seq![vote],
        _ => Seq::empty(),
    }
}

/// The votes carried by `msgs`, in order.
pub open spec fn votes_of(msgs: Seq<Message>) -> Seq<Vote>
    decreases msgs.len(),
{
    if msgs.len() == 0 {
        Seq::empty()
    } else {
        votes_of(msgs.drop_last()) + vote_of(msgs.last())
    }
}

/// Number of messages in `msgs` that are votes with this proposal and choice.
pub open spec fn count_vote_msgs(msgs: Seq<Message>, pid: ProposalId, accept: bool) -> nat
    decreases msgs.len(),
{
    if msgs.len() == 0 {
        0
    } else {
        count_vote_msgs(msgs.drop_last(), pid, accept) + if is_vote_on(msgs.last(), pid, accept) {
            1nat
        } else {
            0nat
        }
    }
}

proof fn lemma_count_votes_concat(a: Seq<Vote>, b: Seq<Vote>, pid: ProposalId, accept: bool)
    ensures
        count_votes(a + b, pid, accept) == count_votes(a, pid, accept) + count_votes(b, pid, accept),
    decreases b.len(),
{
    if b.len() > 0 {
        let b0 = b.drop_last();
        assert((a + b).drop_last() =~= a + b0);
        lemma_count_votes_concat(a, b0, pid, accept);
    } else {
        assert(a + b =~= a);
    }
}

proof fn lemma_count_votes_of(msgs: Seq<Message>, pid: ProposalId, accept: bool)
    ensures
        count_votes(votes_of(msgs), pid, accept) == count_vote_msgs(msgs, pid, accept),
    decreases msgs.len(),
{
    if msgs.len() > 0 {
        lemma_count_votes_of(msgs.drop_last(), pid, accept);
        lemma_count_votes_concat(votes_of(msgs.drop_last()), vote_of(msgs.last()), pid, accept);
        let v = vote_of(msgs.last());
        match msgs.last() {
            Message::Vote { from, vote } => {
                assert(v.drop_last() =~= Seq::<Vote>::empty());
                assert(v.last() == vote);
                assert(count_votes(Seq::<Vote>::empty(), pid, accept) == 0);
                assert(count_votes(v, pid, accept) == count_votes(v.drop_last(), pid, accept) + if vote.proposal_id == pid
                    && vote.accept == accept {
                    1nat
                } else {
                    0nat
                });
                assert(is_vote_on(msgs.last(), pid, accept) == (vote.proposal_id == pid && vote.accept == accept));
            },
            _ => {
                assert(v =~= Seq::<Vote>::empty());
                assert(count_votes(v, pid, accept) == 0);
            },
        }
        assert(votes_of(msgs) == votes_of(msgs.drop_last()) + v);
    }
}

proof fn lemma_count_vote_msgs_remove(msgs: Seq<Message>, k: int, pid: ProposalId, accept: bool)
    requires
        0 <= k < msgs.len(),
    ensures
        count_vote_msgs(msgs, pid, accept) == count_vote_msgs(msgs.remove(k), pid, accept)
            + if is_vote_on(msgs[k], pid, accept) { 1nat } else { 0nat },
    decreases msgs.len(),
{
    if k == msgs.len() - 1 {
        assert(msgs.remove(k) =~= msgs.drop_last());
    } else {
        lemma_count_vote_msgs_remove(msgs.drop_last(), k, pid, accept);
        assert(msgs.remove(k).drop_last() =~= msgs.drop_last().remove(k));
        assert(msgs.remove(k).last() == msgs.last());
    }
}

/// Counting vote messages does not depend on their order.
proof fn lemma_count_vote_msgs_permutation(m1: Seq<Message>, m2: Seq<Message>, pid: ProposalId, accept: bool)
    requires
        m1.to_multiset() == m2.to_multiset(),
    ensures
        count_vote_msgs(m1, pid, accept) == count_vote_msgs(m2, pid, accept),
    decreases m1.len(),
{
    broadcast use vstd::seq_lib::group_to_multiset_ensures;
    if m1.len() == 0 {
        assert(m2.to_multiset().len() == 0);
    } else {
        let x = m1.last();
        let d = m1.drop_last();
        assert(d.push(x) =~= m1);
        assert(m1[m1.len() - 1] == x);
        assert(m1.contains(x));
        assert(m1.to_multiset().count(x) > 0);
        assert(m2.to_multiset().count(x) > 0);
        assert(m2.contains(x));
        let k = choose|k: int| 0 <= k < m2.len() && m2[k] == x;
        assert(m2.remove(k).to_multiset() =~= d.to_multiset());
        lemma_count_vote_msgs_permutation(d, m2.remove(k), pid, accept);
        lemma_count_vote_msgs_remove(m2, k, pid, accept);
    }
}

/// What one message does to peers, proposals and votes.
proof fn lemma_apply_facts(s: GlobalStateView, msg: Message)
    requires
        s.wf(),
    ensures
        ({
            let t = apply_spec(s, msg).0;
            &&& t.wf()
            &&& forall|n: NodeId| #[trigger] t.peers.contains(n) <==> (s.peers.contains(n) || announces(msg, n))
            &&& forall|id: ProposalId| #[trigger] t.has_proposal(id) <==> (s.has_proposal(id)
                || (msg matches Message::Proposal(p) && p.id == id))
            &&& t.votes == s.votes + vote_of(msg)
        }),
{
    law_apply_preserves_wf(s, msg);
    law_knowledge_grows(s, msg);
    let t = apply_spec(s, msg).0;
    let mid = receive(s, msg).0;
    assert(t.peers == mid.peers && t.proposals == mid.proposals && t.votes == mid.votes);
    assert forall|n: NodeId| #[trigger] t.peers.contains(n) <==> (s.peers.contains(n) || announces(msg, n)) by {
        match msg {
            Message::Hello { node } => lemma_peer_insert(s, node, n),
            Message::Heartbeat { node } => lemma_peer_insert(s, node, n),
            _ => {},
        }
    }
    assert forall|id: ProposalId| #[trigger] t.has_proposal(id) <==> (s.has_proposal(id)
        || (msg matches Message::Proposal(p) && p.id == id)) by {
        match msg {
            Message::Proposal(p) => {
                if !s.has_proposal(p.id) {
                    let pos = s.proposal_pos(p.id);
                    lemma_sorted_splits_at_count(proposal_keys(s.proposals), p.id.0@);
                    assert(t.proposals[pos].id == p.id);
                    if t.has_proposal(id) {
                        let j = choose|j: int| 0 <= j < t.proposals.len() && (#[trigger] t.proposals[j]).id == id;
                        if j < pos {
                            assert(s.proposals[j].id == id);
                        } else if j > pos {
                            assert(s.proposals[j - 1].id == id);
                        }
                    }
                }
            },
            _ => {},
        }
    }
    match msg {
        Message::Vote { from, vote } => {},
        _ => {
            assert(s.votes + vote_of(msg) =~= s.votes);
        },
    }
}

/// After an announcement of `node`, the peers are the old ones and `node`.
proof fn lemma_peer_insert(s: GlobalStateView, node: NodeId, n: NodeId)
    requires
        s.wf(),
    ensures
        receive_peer(s, node).0.peers.contains(n) <==> (s.peers.contains(n) || n == node),
{
    let t = receive_peer(s, node).0;
    if !s.peers.contains(node) {
        let pos = s.peer_pos(node);
        lemma_sorted_splits_at_count(peer_keys(s.peers), node.0@);
        assert(t.peers[pos] == node);
        if t.peers.contains(n) {
            let j = choose|j: int| 0 <= j < t.peers.len() && t.peers[j] == n;
            if j < pos {
                assert(s.peers[j] == n);
            } else if j > pos {
                assert(s.peers[j - 1] == n);
            }
        }
        if s.peers.contains(n) {
            let j = choose|j: int| 0 <= j < s.peers.len() && s.peers[j] == n;
            lemma_peer_kept(s, node, j);
        }
    }
}

/// What a sequence of messages does: peers and proposals are the old ones
/// and the announced or proposed ones, the votes are appended in order, and
/// once at least one message was applied every decision is derived.
proof fn lemma_replay_facts(s: GlobalStateView, msgs: Seq<Message>)
    requires
        s.wf(),
    ensures
        ({
            let t = replay(s, msgs).0;
            &&& t.wf()
            &&& forall|n: NodeId| #[trigger] t.peers.contains(n) <==> (s.peers.contains(n)
                || msgs.contains(Message::Hello { node: n }) || msgs.contains(Message::Heartbeat { node: n }))
            &&& forall|id: ProposalId| #[trigger] t.has_proposal(id) <==> (s.has_proposal(id)
                || exists|p: Proposal| p.id == id && #[trigger] msgs.contains(Message::Proposal(p)))
            &&& t.votes == s.votes + votes_of(msgs)
            &&& msgs.len() > 0 ==> forall|i: int| 0 <= i < t.proposals.len() ==> #[trigger] t.decisions[i]
                == decide_spec(t.proposals[i].id, t.votes, t.eligible())
        }),
    decreases msgs.len(),
{
    if msgs.len() == 0 {
        assert(s.votes + votes_of(msgs) =~= s.votes);
    } else {
        let d = msgs.drop_last();
        let x = msgs.last();
        lemma_replay_facts(s, d);
        let prev = replay(s, d).0;
        let t = replay(s, msgs).0;
        lemma_apply_facts(prev, x);
        law_decisions_are_derived(prev, x);
        assert(msgs =~= d.push(x));
        assert forall|m: Message| #[trigger] msgs.contains(m) <==> (d.contains(m) || m == x) by {
            if msgs.contains(m) {
                let i = choose|i: int| 0 <= i < msgs.len() && msgs[i] == m;
                if i < d.len() {
                    assert(d[i] == m);
                }
            }
            if d.contains(m) {
                let i = choose|i: int| 0 <= i < d.len() && d[i] == m;
                assert(msgs[i] == m);
            }
            if m == x {
                assert(msgs[msgs.len() - 1] == m);
            }
        }
        assert forall|id: ProposalId| #[trigger] t.has_proposal(id) <==> (s.has_proposal(id)
            || exists|p: Proposal| p.id == id && #[trigger] msgs.contains(Message::Proposal(p))) by {
            if exists|p: Proposal| p.id == id && #[trigger] msgs.contains(Message::Proposal(p)) {
                let p = choose|p: Proposal| p.id == id && #[trigger] msgs.contains(Message::Proposal(p));
                if d.contains(Message::Proposal(p)) {
                    assert(prev.has_proposal(id));
                } else {
                    assert(x == Message::Proposal(p));
                }
            }
            if prev.has_proposal(id) && !s.has_proposal(id) {
                let p = choose|p: Proposal| p.id == id && #[trigger] d.contains(Message::Proposal(p));
                assert(msgs.contains(Message::Proposal(p)));
            }
            match x {
                Message::Proposal(p) => {
                    if p.id == id {
                        assert(msgs.contains(Message::Proposal(p)));
                    }
                },
                _ => {},
            }
        }
        assert(t.votes =~= s.votes + votes_of(msgs));
    }
}

/// Final states do not depend on the order in which messages are delivered:
/// applying the same messages in any order yields the same peers, the same
/// proposal ids in the same order, and the same decisions.
pub proof fn law_delivery_order_irrelevant(s: GlobalStateView, msgs1: Seq<Message>, msgs2: Seq<Message>)
    requires
        s.wf(),
        msgs1.to_multiset() == msgs2.to_multiset(),
    ensures
        replay(s, msgs1).0.peers == replay(s, msgs2).0.peers,
        replay(s, msgs1).0.proposals.map_values(|p: Proposal| p.id)
            == replay(s, msgs2).0.proposals.map_values(|p: Proposal| p.id),
        replay(s, msgs1).0.decisions == replay(s, msgs2).0.decisions,
{
    broadcast use vstd::seq_lib::group_to_multiset_ensures;
    let t1 = replay(s, msgs1).0;
    let t2 = replay(s, msgs2).0;
    lemma_replay_facts(s, msgs1);
    lemma_replay_facts(s, msgs2);
    assert forall|m: Message| msgs1.contains(m) <==> msgs2.contains(m) by {
        assert(msgs1.contains(m) <==> msgs1.to_multiset().count(m) > 0);
        assert(msgs2.contains(m) <==> msgs2.to_multiset().count(m) > 0);
    }
    // the peers
    let pk1 = peer_keys(t1.peers);
    let pk2 = peer_keys(t2.peers);
    assert forall|n: NodeId| t1.peers.contains(n) <==> t2.peers.contains(n) by {
        assert(t1.peers.contains(n) == t2.peers.contains(n));
    }
    assert forall|x: Seq<u8>| pk1.contains(x) <==> pk2.contains(x) by {
        if pk1.contains(x) {
            let i = choose|i: int| 0 <= i < pk1.len() && pk1[i] == x;
            assert(t1.peers.contains(t1.peers[i]));
            assert(t2.peers.contains(t1.peers[i]));
            let j = choose|j: int| 0 <= j < t2.peers.len() && t2.peers[j] == t1.peers[i];
            assert(pk2[j] == x);
        }
        if pk2.contains(x) {
            let i = choose|i: int| 0 <= i < pk2.len() && pk2[i] == x;
            assert(t2.peers.contains(t2.peers[i]));
            assert(t1.peers.contains(t2.peers[i]));
            let j = choose|j: int| 0 <= j < t1.peers.len() && t1.peers[j] == t2.peers[i];
            assert(pk1[j] == x);
        }
    }
    crate::ordered::lemma_sorted_unique(pk1, pk2, 32);
    assert forall|i: int| 0 <= i < t1.peers.len() implies t1.peers[i] == t2.peers[i] by {
        assert(pk1[i] == pk2[i]);
        lemma_node_key_injective(t1.peers[i], t2.peers[i]);
    }
    assert(t1.peers.len() == pk1.len() && t2.peers.len() == pk2.len());
    assert(t1.peers =~= t2.peers);
    // the proposal ids
    let qk1 = proposal_keys(t1.proposals);
    let qk2 = proposal_keys(t2.proposals);
    assert forall|id: ProposalId| t1.has_proposal(id) <==> t2.has_proposal(id) by {
        if exists|p: Proposal| p.id == id && #[trigger] msgs1.contains(Message::Proposal(p)) {
            let p = choose|p: Proposal| p.id == id && #[trigger] msgs1.contains(Message::Proposal(p));
            assert(msgs2.contains(Message::Proposal(p)));
        }
        if exists|p: Proposal| p.id == id && #[trigger] msgs2.contains(Message::Proposal(p)) {
            let p = choose|p: Proposal| p.id == id && #[trigger] msgs2.contains(Message::Proposal(p));
            assert(msgs1.contains(Message::Proposal(p)));
        }
    }
    assert forall|x: Seq<u8>| qk1.contains(x) <==> qk2.contains(x) by {
        if qk1.contains(x) {
            let i = choose|i: int| 0 <= i < qk1.len() && qk1[i] == x;
            let id = t1.proposals[i].id;
            assert(t1.has_proposal(id));
            assert(t2.has_proposal(id));
            let j = choose|j: int| 0 <= j < t2.proposals.len() && (#[trigger] t2.proposals[j]).id == id;
            assert(qk2[j] == x);
        }
        if qk2.contains(x) {
            let i = choose|i: int| 0 <= i < qk2.len() && qk2[i] == x;
            let id = t2.proposals[i].id;
            assert(t2.has_proposal(id));
            assert(t1.has_proposal(id));
            let j = choose|j: int| 0 <= j < t1.proposals.len() && (#[trigger] t1.proposals[j]).id == id;
            assert(qk1[j] == x);
        }
    }
    crate::ordered::lemma_sorted_unique(qk1, qk2, 32);
    assert forall|i: int| 0 <= i < t1.proposals.len() implies t1.proposals[i].id == t2.proposals[i].id by {
        assert(qk1[i] == qk2[i]);
        lemma_proposal_key_injective(t1.proposals[i].id, t2.proposals[i].id);
    }
    assert(t1.proposals.len() == qk1.len() && t2.proposals.len() == qk2.len());
    assert(t1.proposals.map_values(|p: Proposal| p.id) =~= t2.proposals.map_values(|p: Proposal| p.id));
    // the decisions
    assert(msgs1.to_multiset().len() == msgs1.len());
    assert(msgs2.to_multiset().len() == msgs2.len());
    if msgs1.len() == 0 {
        assert(msgs2.len() == 0);
        assert(msgs1 =~= msgs2);
    } else {
        assert(msgs2.len() > 0);
        assert forall|i: int| 0 <= i < t1.decisions.len() implies t1.decisions[i] == t2.decisions[i] by {
            let pid = t1.proposals[i].id;
            assert(t2.proposals[i].id == pid);
            lemma_count_votes_concat(s.votes, votes_of(msgs1), pid, true);
            lemma_count_votes_concat(s.votes, votes_of(msgs1), pid, false);
            lemma_count_votes_concat(s.votes, votes_of(msgs2), pid, true);
            lemma_count_votes_concat(s.votes, votes_of(msgs2), pid, false);
            lemma_count_votes_of(msgs1, pid, true);
            lemma_count_votes_of(msgs1, pid, false);
            lemma_count_votes_of(msgs2, pid, true);
            lemma_count_votes_of(msgs2, pid, false);
            lemma_count_vote_msgs_permutation(msgs1, msgs2, pid, true);
            lemma_count_vote_msgs_permutation(msgs1, msgs2, pid, false);
        }
        assert(t1.decisions =~= t2.decisions);
    }
}

/// An operation on a runtime's state: a message applied, or a proposal
/// submitted locally.
pub enum Op {
    Apply(Message),
    Submit(Proposal),
}

/// The state and events after one operation.
pub open spec fn run_op(s: GlobalStateView, op: Op) -> (GlobalStateView, Seq<RuntimeEvent>) {
    match op {
        Op::Apply(m) => apply_spec(s, m),
        Op::Submit(p) => (submit_spec(s, p), Seq::empty()),
    }
}

/// The state and events after a sequence of operations, in order.
pub open spec fn run(s: GlobalStateView, ops: Seq<Op>) -> (GlobalStateView, Seq<RuntimeEvent>)
    decreases ops.len(),
{
    if ops.len() == 0 {
        (s, Seq::empty())
    } else {
        let prev = run(s, ops.drop_last());
        let step = run_op(prev.0, ops.last());
        (step.0, prev.1 + step.1)
    }
}

/// The proposal stored under `id`, if any.
pub open spec fn stored(s: GlobalStateView, id: ProposalId) -> Option<Proposal> {
    if s.has_proposal(id) {
        Some(s.proposals[s.proposal_pos(id)])
    } else {
        None
    }
}

/// The proposal that should be stored under `id` after `ops`: the last one
/// submitted with that id; else, if none was stored before, the first one
/// applied with that id; else the one stored before.
pub open spec fn expected_stored(s: GlobalStateView, ops: Seq<Op>, id: ProposalId) -> Option<Proposal>
    decreases ops.len(),
{
    if ops.len() == 0 {
        stored(s, id)
    } else {
        let prev = expected_stored(s, ops.drop_last(), id);
        match ops.last() {
            Op::Submit(p) => if p.id == id {
                Some(p)
            } else {
                prev
            },
            Op::Apply(Message::Proposal(p)) => if p.id == id && prev is None {
                Some(p)
            } else {
                prev
            },
            _ => prev,
        }
    }
}

/// In a valid state, a known id stands at its position, and only there.
proof fn lemma_position_of_known(s: GlobalStateView, id: ProposalId, j: int)
    requires
        s.wf(),
        0 <= j < s.proposals.len(),
        s.proposals[j].id == id,
    ensures
        s.proposal_pos(id) == j,
{
    let keys = proposal_keys(s.proposals);
    assert(keys[j] == id.0@);
    crate::types::lemma_bytes_lt_asymmetric(id.0@, id.0@);
    assert forall|i: int| 0 <= i < j implies crate::types::bytes_lt(#[trigger] keys[i], id.0@) by {
        assert(crate::types::bytes_lt(keys[i], keys[j]));
    }
    crate::ordered::lemma_sorted_split(keys, id.0@, j);
}

/// What one operation does to the proposal stored under an id.
proof fn lemma_run_op_stored(s: GlobalStateView, op: Op, id: ProposalId)
    requires
        s.wf(),
    ensures
        run_op(s, op).0.wf(),
        forall|n: NodeId| #[trigger] run_op(s, op).0.peers.contains(n) <==> (s.peers.contains(n)
            || op == Op::Apply(Message::Hello { node: n }) || op == Op::Apply(Message::Heartbeat { node: n })),
        stored(run_op(s, op).0, id) == match op {
            Op::Submit(p) => if p.id == id {
                Some(p)
            } else {
                stored(s, id)
            },
            Op::Apply(Message::Proposal(p)) => if p.id == id && stored(s, id) is None {
                Some(p)
            } else {
                stored(s, id)
            },
            _ => stored(s, id),
        },
{
    let t = run_op(s, op).0;
    match op {
        Op::Submit(p) => {
            law_submitted_proposal_pending(s, p);
            let pos = s.proposal_pos(p.id);
            lemma_sorted_splits_at_count(proposal_keys(s.proposals), p.id.0@);
            let had = s.has_proposal(p.id);
            if had {
                let j0 = choose|j: int| 0 <= j < s.proposals.len() && (#[trigger] s.proposals[j]).id == p.id;
                lemma_position_of_known(s, p.id, j0);
                assert(t.proposals == s.proposals.update(pos, p));
            } else {
                assert(t.proposals == s.proposals.insert(pos, p));
            }
            assert(0 <= pos < t.proposals.len());
            if p.id == id {
                lemma_position_of_known(t, id, pos);
            } else if s.has_proposal(id) {
                let j = choose|j: int| 0 <= j < s.proposals.len() && (#[trigger] s.proposals[j]).id == id;
                lemma_position_of_known(s, id, j);
                if had {
                    assert(j != pos);
                    assert(t.proposals[j] == s.proposals[j]);
                    lemma_position_of_known(t, id, j);
                } else if j < pos {
                    assert(t.proposals[j] == s.proposals[j]);
                    lemma_position_of_known(t, id, j);
                } else {
                    assert(t.proposals[j + 1] == s.proposals[j]);
                    lemma_position_of_known(t, id, j + 1);
                }
            } else {
                if t.has_proposal(id) {
                    let j = choose|j: int| 0 <= j < t.proposals.len() && (#[trigger] t.proposals[j]).id == id;
                    if had {
                        assert(j != pos);
                        assert(s.proposals[j].id == id);
                    } else if j < pos {
                        assert(s.proposals[j].id == id);
                    } else if j > pos {
                        assert(s.proposals[j - 1].id == id);
                    }
                }
            }
            assert forall|n: NodeId| #[trigger] t.peers.contains(n) <==> (s.peers.contains(n)
                || op == Op::Apply(Message::Hello { node: n }) || op == Op::Apply(Message::Heartbeat { node: n })) by {}
        },
        Op::Apply(m) => {
            lemma_apply_facts(s, m);
            let mid = receive(s, m).0;
            assert(t.proposals == mid.proposals);
            assert forall|n: NodeId| #[trigger] t.peers.contains(n) <==> (s.peers.contains(n)
                || op == Op::Apply(Message::Hello { node: n }) || op == Op::Apply(Message::Heartbeat { node: n })) by {
                assert(announces(m, n) <==> (op == Op::Apply(Message::Hello { node: n })
                    || op == Op::Apply(Message::Heartbeat { node: n })));
            }
            match m {
                Message::Proposal(p) => {
                    if !s.has_proposal(p.id) {
                        let pos = s.proposal_pos(p.id);
                        lemma_sorted_splits_at_count(proposal_keys(s.proposals), p.id.0@);
                        if p.id == id {
                            assert(t.proposals[pos] == p);
                            lemma_position_of_known(t, id, pos);
                        } else if s.has_proposal(id) {
                            let j = choose|j: int| 0 <= j < s.proposals.len() && (#[trigger] s.proposals[j]).id == id;
                            lemma_position_of_known(s, id, j);
                            if j < pos {
                                assert(t.proposals[j] == s.proposals[j]);
                                lemma_position_of_known(t, id, j);
                            } else {
                                assert(t.proposals[j + 1] == s.proposals[j]);
                                lemma_position_of_known(t, id, j + 1);
                            }
                        }
                    } else {
                        assert(t.proposals == s.proposals);
                    }
                },
                _ => {
                    assert(t.proposals == s.proposals);
                },
            }
        },
    }
}

/// Every state reached by operations from a valid state is valid; the
/// known peers are the earlier ones and exactly the nodes announced by an
/// applied `Hello` or `Heartbeat` (so from the empty state, exactly the
/// announced nodes, in increasing order); and the proposal stored under each
/// id is the last one submitted, or else the one stored before, or else the
/// first one applied (see [`expected_stored`]).
pub proof fn law_run_peers_and_proposals(s: GlobalStateView, ops: Seq<Op>, id: ProposalId)
    requires
        s.wf(),
    ensures
        run(s, ops).0.wf(),
        forall|n: NodeId| #[trigger] run(s, ops).0.peers.contains(n) <==> (s.peers.contains(n)
            || ops.contains(Op::Apply(Message::Hello { node: n }))
            || ops.contains(Op::Apply(Message::Heartbeat { node: n }))),
        stored(run(s, ops).0, id) == expected_stored(s, ops, id),
    decreases ops.len(),
{
    if ops.len() > 0 {
        let d = ops.drop_last();
        let x = ops.last();
        law_run_peers_and_proposals(s, d, id);
        let prev = run(s, d).0;
        lemma_run_op_stored(prev, x, id);
        assert forall|o: Op| #[trigger] ops.contains(o) <==> (d.contains(o) || o == x) by {
            if ops.contains(o) {
                let i = choose|i: int| 0 <= i < ops.len() && ops[i] == o;
                if i < d.len() {
                    assert(d[i] == o);
                }
            }
            if d.contains(o) {
                let i = choose|i: int| 0 <= i < d.len() && d[i] == o;
                assert(ops[i] == o);
            }
            if o == x {
                assert(ops[ops.len() - 1] == o);
            }
        }
    }
}

/// A known proposal id is stored exactly when one was expected.
pub proof fn law_known_exactly_when_expected(s: GlobalStateView, ops: Seq<Op>, id: ProposalId)
    requires
        s.wf(),
    ensures
        run(s, ops).0.has_proposal(id) <==> expected_stored(s, ops, id) is Some,
{
    law_run_peers_and_proposals(s, ops, id);
}

/// Submitting a proposal leaves every other proposal id as it was: known
/// or not, with the same decision and the same stored proposal. Only the
/// submitted id's decision becomes pending.
pub proof fn law_submit_keeps_other_ids(s: GlobalStateView, p: Proposal, id: ProposalId)
    requires
        s.wf(),
        id != p.id,
    ensures
        submit_spec(s, p).has_proposal(id) == s.has_proposal(id),
        submit_spec(s, p).decision_of(id) == s.decision_of(id),
        stored(submit_spec(s, p), id) == stored(s, id),
{
    law_submitted_proposal_pending(s, p);
    let t = submit_spec(s, p);
    let pos = s.proposal_pos(p.id);
    lemma_sorted_splits_at_count(proposal_keys(s.proposals), p.id.0@);
    let had = s.has_proposal(p.id);
    if had {
        let j0 = choose|j: int| 0 <= j < s.proposals.len() && (#[trigger] s.proposals[j]).id == p.id;
        lemma_position_of_known(s, p.id, j0);
        assert(t.proposals == s.proposals.update(pos, p));
        assert(t.decisions == s.decisions.update(pos, Decision::Pending));
    } else {
        assert(t.proposals == s.proposals.insert(pos, p));
        assert(t.decisions == s.decisions.insert(pos, Decision::Pending));
    }
    if s.has_proposal(id) {
        let j = choose|j: int| 0 <= j < s.proposals.len() && (#[trigger] s.proposals[j]).id == id;
        lemma_position_of_known(s, id, j);
        if had {
            assert(j != pos);
            assert(t.proposals[j] == s.proposals[j]);
            lemma_position_of_known(t, id, j);
        } else if j < pos {
            assert(t.proposals[j] == s.proposals[j]);
            lemma_position_of_known(t, id, j);
        } else {
            assert(t.proposals[j + 1] == s.proposals[j]);
            lemma_position_of_known(t, id, j + 1);
        }
    } else if t.has_proposal(id) {
        let j = choose|j: int| 0 <= j < t.proposals.len() && (#[trigger] t.proposals[j]).id == id;
        if had {
            assert(j != pos);
            assert(s.proposals[j].id == id);
        } else if j < pos {
            assert(s.proposals[j].id == id);
        } else if j > pos {
            assert(s.proposals[j - 1].id == id);
        }
    }
}

} // verus!
