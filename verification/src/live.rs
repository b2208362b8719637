//! An in-process network of citizens: nodes exchange messages through a
//! shared queue, may be split by a partition, and vote automatically on
//! pending proposals according to their policy.

use vstd::prelude::*;
use std::collections::VecDeque;
use vstd::string::{StringExecFns, StringSliceAdditionalSpecFns};
use crate::consensus::Decision;
use crate::laws::law_apply_preserves_wf;
use crate::state::{apply_spec, Runtime, RuntimeEvent, RuntimeView};
use crate::types::{Message, NodeId, Proposal, ProposalId, Vote};

verus! {

/// Most recent entries kept in the log.
pub const LOG_CAPACITY: usize = 200;

/// What the simulation records, newest first.
#[derive(Clone, Debug, PartialEq, Eq)]
pub enum LogEntry {
    /// Peer discovery started: every node announced itself to every other.
    Boot,
    /// A message from `from` to `to` was dropped by the partition.
    Dropped { from: usize, to: usize },
    /// Node `node` emitted `event` while applying a message.
    Event { node: usize, event: RuntimeEvent },
    /// Every node sent a heartbeat to every other.
    HeartbeatBroadcast,
    /// Node `proposer` sent proposal `id` to every node.
    ProposalSubmitted { id: ProposalId, proposer: usize },
    /// Node `node`'s automatic vote is now `auto_accept`.
    PolicyToggled { node: usize, auto_accept: bool },
    /// The network is split into nodes `0..split` and `split..`; `last_left`
    /// and `last` are the last node of each side (saturating at 0).
    PartitionEnabled { last_left: usize, split: usize, last: usize },
    /// The partition was removed.
    NetworkHealed,
    /// A message from `from` to `to` was lost to packet loss.
    Lost { from: usize, to: usize },
    /// The packet-loss rate is now `percent` percent.
    LossRateSet { percent: u64 },
    /// The network now delivers only every `ticks + 1`-th tick.
    DelaySet { ticks: u64 },
}

/// The packet-loss rate that follows `percent` in the cycle 0, 10, 30, 50 (then 0 again).
pub open spec fn next_loss_spec(percent: u64) -> u64 {
    if percent < 10 {
        10
    } else if percent < 30 {
        30
    } else if percent < 50 {
        50
    } else {
        0
    }
}

/// The delivery delay that follows `ticks` in the cycle 0, 1, 2, 4 (then 0 again).
pub open spec fn next_delay_spec(ticks: u64) -> u64 {
    if ticks < 1 {
        1
    } else if ticks < 2 {
        2
    } else if ticks < 4 {
        4
    } else {
        0
    }
}

/// The loss rate and the delay each run through a cycle of four settings
/// that starts at zero: four presses from any setting in the cycle bring it
/// back, the four settings are distinct, and any other value moves into
/// the cycle on the first press. The loss rate stays a percentage.
pub proof fn law_setting_cycles(percent: u64, ticks: u64)
    ensures
        next_loss_spec(percent) <= 100,
        next_loss_spec(next_loss_spec(next_loss_spec(next_loss_spec(next_loss_spec(percent))))) == next_loss_spec(percent),
        next_delay_spec(next_delay_spec(next_delay_spec(next_delay_spec(next_delay_spec(ticks))))) == next_delay_spec(ticks),
        next_loss_spec(0) != 0 && next_loss_spec(next_loss_spec(0)) != 0 && next_loss_spec(next_loss_spec(next_loss_spec(0))) != 0,
        next_loss_spec(0) != next_loss_spec(next_loss_spec(0)) && next_loss_spec(next_loss_spec(0)) != next_loss_spec(
            next_loss_spec(next_loss_spec(0)),
        ) && next_loss_spec(0) != next_loss_spec(next_loss_spec(next_loss_spec(0))),
        next_delay_spec(0) != 0 && next_delay_spec(next_delay_spec(0)) != 0 && next_delay_spec(next_delay_spec(next_delay_spec(0))) != 0,
        next_delay_spec(0) != next_delay_spec(next_delay_spec(0)) && next_delay_spec(next_delay_spec(0)) != next_delay_spec(
            next_delay_spec(next_delay_spec(0)),
        ) && next_delay_spec(0) != next_delay_spec(next_delay_spec(next_delay_spec(0))),
{
}

/// Whether the network delivers on tick `tick` under a delay of `delay`
/// ticks: every `delay + 1`-th tick.
pub open spec fn delivery_due_spec(tick: u64, delay: u64) -> bool {
    (tick as int) % (delay as int + 1) == 0
}

/// Without delay the network delivers on every tick; with a delay of `d`
/// ticks it delivers on tick 0 and, from any tick, again `d + 1` ticks later
/// exactly when it delivered on that tick, and never on the `d` ticks
/// that follow a delivering tick.
pub proof fn law_delivery_rhythm(tick: u64, delay: u64)
    ensures
        delivery_due_spec(tick, 0),
        delivery_due_spec(0, delay),
        tick + delay + 1 <= u64::MAX ==> delivery_due_spec((tick + delay + 1) as u64, delay) == delivery_due_spec(
            tick,
            delay,
        ),
        forall|j: u64| #![trigger delivery_due_spec(j, delay)]
            delivery_due_spec(tick, delay) && tick < j && j <= tick + delay ==> !delivery_due_spec(j, delay),
{
    let m = delay as int + 1;
    assert((tick as int) % 1 == 0) by (nonlinear_arith);
    assert(0int % m == 0) by (nonlinear_arith)
        requires
            m > 0,
    ;
    vstd::arithmetic::div_mod::lemma_mod_add_multiples_vanish(tick as int, m);
    assert(tick + delay + 1 == m + tick as int);
    assert forall|j: u64| #![trigger delivery_due_spec(j, delay)]
        delivery_due_spec(tick, delay) && tick < j && j <= tick + delay implies !delivery_due_spec(j, delay) by {
        let t = tick as int;
        let x = j as int;
        if delivery_due_spec(tick, delay) && tick < j && j <= tick + delay {
            let q = t / m;
            let r = x - t;
            vstd::arithmetic::div_mod::lemma_fundamental_div_mod(t, m);
            assert(t == m * q);
            assert(x == m * q + r);
            vstd::arithmetic::div_mod::lemma_mod_multiples_vanish(q, r, m);
            vstd::arithmetic::div_mod::lemma_small_mod(r as nat, m as nat);
            assert(x % m == r);
        }
    }
}

/// The next packet-loss rate in its cycle.
pub fn next_loss(percent: u64) -> (r: u64)
    ensures
        r == next_loss_spec(percent),
{
    if percent < 10 {
        10
    } else if percent < 30 {
        30
    } else if percent < 50 {
        50
    } else {
        0
    }
}

/// The next delivery delay in its cycle.
pub fn next_delay(ticks: u64) -> (r: u64)
    ensures
        r == next_delay_spec(ticks),
{
    if ticks < 1 {
        1
    } else if ticks < 2 {
        2
    } else if ticks < 4 {
        4
    } else {
        0
    }
}

/// Whether the network delivers on this tick under this delay.
pub fn delivery_due(tick: u64, delay: u64) -> (r: bool)
    ensures
        r == delivery_due_spec(tick, delay),
{
    if delay == u64::MAX {
        tick == 0
    } else {
        tick % (delay + 1) == 0
    }
}

/// The message that node `i` sends to every other node.
#[derive(Clone, Copy, Debug, PartialEq, Eq)]
pub enum Gossip {
    /// `Hello` with the sender's identity.
    Hello,
    /// `Heartbeat` with the sender's identity.
    Heartbeat,
    /// A vote on the proposal, accepting as the sender's policy says.
    Vote(ProposalId),
}

/// One citizen: its identity, its replica of the state and its voting policy.
pub struct Node {
    pub id: NodeId,
    pub rt: Runtime,
    pub auto_accept: bool,
}

/// Mathematical model of a [`Node`].
pub struct NodeView {
    pub id: NodeId,
    pub rt: RuntimeView,
    pub auto_accept: bool,
}

impl View for Node {
    type V = NodeView;

    open spec fn view(&self) -> NodeView {
        NodeView { id: self.id, rt: self.rt@, auto_accept: self.auto_accept }
    }
}

/// The simulated network: nodes, the queue of messages in flight
/// `(from, to, message)`, the log, the selected node, the tick counter,
/// whether the network is partitioned, the percentage of messages lost, and
/// the delivery delay in ticks.
pub struct App {
    pub nodes: Vec<Node>,
    pub queue: VecDeque<(usize, usize, Message)>,
    pub log: VecDeque<LogEntry>,
    pub selected: usize,
    pub tick: u64,
    pub partitioned: bool,
    pub loss_percent: u64,
    pub delay_ticks: u64,
}

/// Mathematical model of an [`App`].
pub struct AppView {
    pub nodes: Seq<NodeView>,
    pub queue: Seq<(usize, usize, Message)>,
    pub log: Seq<LogEntry>,
    pub selected: usize,
    pub tick: u64,
    pub partitioned: bool,
    pub loss_percent: u64,
    pub delay_ticks: u64,
}

impl View for App {
    type V = AppView;

    open spec fn view(&self) -> AppView {
        AppView {
            nodes: self.nodes@.map_values(|n: Node| n@),
            queue: self.queue@,
            log: self.log@,
            selected: self.selected,
            tick: self.tick,
            partitioned: self.partitioned,
            loss_percent: self.loss_percent,
            delay_ticks: self.delay_ticks,
        }
    }
}

impl AppView {
    /// Every node's replica is valid.
    pub open spec fn replicas_wf(self) -> bool {
        forall|i: int| 0 <= i < self.nodes.len() ==> (#[trigger] self.nodes[i]).rt.state.wf()
    }

    /// Every replica is valid, every queued message is between existing
    /// nodes, and twice the number of nodes fits in a `usize`.
    pub open spec fn wf(self) -> bool {
        &&& self.nodes.len() * 2 <= usize::MAX
        &&& self.replicas_wf()
        &&& forall|k: int|
            0 <= k < self.queue.len() ==> (#[trigger] self.queue[k]).0 < self.nodes.len()
                && self.queue[k].1 < self.nodes.len()
    }
}

/// The log after recording `e`: newest first, at most `LOG_CAPACITY` entries.
pub open spec fn log_push(log: Seq<LogEntry>, e: LogEntry) -> Seq<LogEntry> {
    let l = seq![e] + log;
    if l.len() > LOG_CAPACITY {
        l.take(LOG_CAPACITY as int)
    } else {
        l
    }
}

/// The log after recording the entries `es`, in order.
pub open spec fn log_push_all(log: Seq<LogEntry>, es: Seq<LogEntry>) -> Seq<LogEntry>
    decreases es.len(),
{
    if es.len() == 0 {
        log
    } else {
        log_push(log_push_all(log, es.drop_last()), es.last())
    }
}

/// Where the network splits when partitioned: half the nodes, and at least one.
pub open spec fn split_point(n: nat) -> nat {
    if n / 2 == 0 {
        1
    } else {
        n / 2
    }
}

/// Whether a message from `from` reaches `to`: always when the network is
/// whole, and otherwise only within one side of the split.
pub open spec fn can_deliver_spec(n: nat, partitioned: bool, from: nat, to: nat) -> bool {
    !partitioned || ((from < split_point(n)) == (to < split_point(n)))
}

/// A whole network delivers every message. A split one, of at least two
/// nodes, delivers exactly between nodes of the same half: the first
/// `n / 2` nodes reach one another, the others reach one another, and no
/// message crosses between the halves (in particular none between the first
/// and the last node). Every node always reaches itself.
pub proof fn law_partition_halves(n: nat, from: nat, to: nat)
    ensures
        can_deliver_spec(n, false, from, to),
        can_deliver_spec(n, true, from, from),
        n >= 2 && from < n / 2 && to < n / 2 ==> can_deliver_spec(n, true, from, to),
        n >= 2 && from >= n / 2 && to >= n / 2 ==> can_deliver_spec(n, true, from, to),
        n >= 2 && from < n / 2 && to >= n / 2 ==> !can_deliver_spec(n, true, from, to)
            && !can_deliver_spec(n, true, to, from),
        n >= 2 ==> !can_deliver_spec(n, true, 0, (n - 1) as nat),
{
}

/// The message that node `i` gossips.
pub open spec fn gossip_message(nodes: Seq<NodeView>, i: int, kind: Gossip) -> Message {
    match kind {
        Gossip::Hello => Message::Hello { node: nodes[i].id },
        Gossip::Heartbeat => Message::Heartbeat { node: nodes[i].id },
        Gossip::Vote(pid) => Message::Vote {
            from: nodes[i].id,
            vote: Vote { proposal_id: pid, accept: nodes[i].auto_accept },
        },
    }
}

/// What node `i` sends to nodes `0..m` other than itself, in order.
pub open spec fn gossip_row(nodes: Seq<NodeView>, kind: Gossip, i: int, m: int) -> Seq<(usize, usize, Message)>
    decreases m,
{
    if m <= 0 {
        Seq::empty()
    } else {
        let prev = gossip_row(nodes, kind, i, m - 1);
        if m - 1 != i {
            prev.push((i as usize, (m - 1) as usize, gossip_message(nodes, i, kind)))
        } else {
            prev
        }
    }
}

/// What nodes `0..rows` send to every other node, sender by sender.
pub open spec fn gossip_all(nodes: Seq<NodeView>, kind: Gossip, rows: int) -> Seq<(usize, usize, Message)>
    decreases rows,
{
    if rows <= 0 {
        Seq::empty()
    } else {
        gossip_all(nodes, kind, rows - 1) + gossip_row(nodes, kind, rows - 1, nodes.len() as int)
    }
}

proof fn lemma_gossip_row_in_range(nodes: Seq<NodeView>, kind: Gossip, i: int, m: int)
    requires
        0 <= i < nodes.len(),
        m <= nodes.len(),
        nodes.len() <= usize::MAX,
    ensures
        forall|k: int| 0 <= k < gossip_row(nodes, kind, i, m).len() ==>
            (#[trigger] gossip_row(nodes, kind, i, m)[k]).0 < nodes.len()
            && gossip_row(nodes, kind, i, m)[k].1 < nodes.len(),
    decreases m,
{
    if m > 0 {
        lemma_gossip_row_in_range(nodes, kind, i, m - 1);
        let prev = gossip_row(nodes, kind, i, m - 1);
        let r = gossip_row(nodes, kind, i, m);
        assert forall|k: int| 0 <= k < r.len() implies (#[trigger] r[k]).0 < nodes.len() && r[k].1 < nodes.len() by {
            if k < prev.len() {
                assert(r[k] == prev[k]);
            }
        }
    }
}

proof fn lemma_gossip_all_in_range(nodes: Seq<NodeView>, kind: Gossip, rows: int)
    requires
        rows <= nodes.len(),
        nodes.len() <= usize::MAX,
    ensures
        forall|k: int| 0 <= k < gossip_all(nodes, kind, rows).len() ==>
            (#[trigger] gossip_all(nodes, kind, rows)[k]).0 < nodes.len()
            && gossip_all(nodes, kind, rows)[k].1 < nodes.len(),
    decreases rows,
{
    if rows > 0 {
        lemma_gossip_all_in_range(nodes, kind, rows - 1);
        lemma_gossip_row_in_range(nodes, kind, rows - 1, nodes.len() as int);
        let a = gossip_all(nodes, kind, rows - 1);
        let b = gossip_row(nodes, kind, rows - 1, nodes.len() as int);
        assert forall|k: int| 0 <= k < (a + b).len() implies (#[trigger] (a + b)[k]).0 < nodes.len()
            && (a + b)[k].1 < nodes.len() by {
            if k < a.len() {
                assert((a + b)[k] == a[k]);
            } else {
                assert((a + b)[k] == b[k - a.len()]);
            }
        }
    }
}

/// The proposal that the simulation puts forward: id `pid`, kind
/// `enable_feature`, payload the bytes of `spectacular_syscall`.
pub open spec fn is_feature_proposal(p: Proposal, pid: ProposalId) -> bool {
    &&& p.id == pid
    &&& p.kind@ == "enable_feature"@
    &&& p.payload@ == "spectacular_syscall".spec_bytes()
}

/// The queue after `old` with `n` messages appended, one to each node
/// `0..n` in order, all from `proposer` and carrying the feature proposal `pid`.
pub open spec fn proposal_sent(old: Seq<(usize, usize, Message)>, new: Seq<(usize, usize, Message)>, n: nat, proposer: usize, pid: ProposalId) -> bool {
    &&& new.len() == old.len() + n
    &&& new.take(old.len() as int) == old
    &&& forall|k: int| 0 <= k < n ==> {
        let e = #[trigger] new[old.len() + k];
        &&& e.0 == proposer
        &&& e.1 == k
        &&& e.2 matches Message::Proposal(q) && is_feature_proposal(q, pid)
    }
}

/// A copy of a proposal: same id, kind and payload bytes.
fn copy_proposal(p: &Proposal) -> (r: Proposal)
    ensures
        r.id == p.id,
        r.kind == p.kind,
        r.payload@ == p.payload@,
{
    let mut payload: Vec<u8> = Vec::new();
    let mut i: usize = 0;
    while i < p.payload.len()
        invariant
            0 <= i <= p.payload@.len(),
            payload@ == p.payload@.take(i as int),
        decreases p.payload@.len() - i,
    {
        payload.push(p.payload[i]);
        i = i + 1;
        assert(payload@ =~= p.payload@.take(i as int));
    }
    assert(payload@ =~= p.payload@);
    Proposal { id: p.id, kind: p.kind.clone(), payload }
}

/// A uniformly random index below `n` (`rand::Rng::gen_range` on the
/// thread-local generator, which panics on an empty range).
#[verifier::external_body]
fn random_index(n: usize) -> (r: usize)
    requires
        n > 0,
    ensures
        r < n,
{
    rand::Rng::gen_range(&mut rand::thread_rng(), 0..n)
}

/// The log entries for the events that node `node` emitted, in order.
pub open spec fn event_entries(node: usize, events: Seq<RuntimeEvent>) -> Seq<LogEntry> {
    events.map_values(|e: RuntimeEvent| LogEntry::Event { node, event: e })
}

/// The network after its first queued message is taken off the queue:
/// if the partition separates sender and receiver, it is dropped and the
/// drop logged; else, if `roll` (a draw in `0..100`) is below the loss rate,
/// it is lost and the loss logged; else the receiving node applies it and
/// its events are logged.
pub open spec fn deliver_one(a: AppView, roll: u64) -> AppView {
    let e = a.queue[0];
    let rest = a.queue.drop_first();
    if !can_deliver_spec(a.nodes.len(), a.partitioned, e.0 as nat, e.1 as nat) {
        AppView { queue: rest, log: log_push(a.log, LogEntry::Dropped { from: e.0, to: e.1 }), ..a }
    } else if roll < a.loss_percent {
        AppView { queue: rest, log: log_push(a.log, LogEntry::Lost { from: e.0, to: e.1 }), ..a }
    } else {
        let node = a.nodes[e.1 as int];
        let r = apply_spec(node.rt.state, e.2);
        AppView {
            nodes: a.nodes.update(e.1 as int, NodeView { rt: RuntimeView { state: r.0, ..node.rt }, ..node }),
            queue: rest,
            log: log_push_all(a.log, event_entries(e.1, r.1)),
            ..a
        }
    }
}

/// The network after up to `k` queued messages are taken off the queue in
/// order (fewer if the queue runs empty), the `i`-th with the draw `rolls[i]`.
pub open spec fn deliver(a: AppView, rolls: Seq<u64>, k: nat) -> AppView
    decreases k,
{
    if k == 0 {
        a
    } else {
        let p = deliver(a, rolls, (k - 1) as nat);
        if p.queue.len() == 0 {
            p
        } else {
            deliver_one(p, rolls[k - 1])
        }
    }
}

/// Once the queue is empty, delivering more changes nothing.
proof fn lemma_deliver_stable(a: AppView, rolls: Seq<u64>, t: nat, k: nat)
    requires
        t <= k,
        deliver(a, rolls, t).queue.len() == 0,
    ensures
        deliver(a, rolls, k) == deliver(a, rolls, t),
    decreases k,
{
    if k > t {
        lemma_deliver_stable(a, rolls, t, (k - 1) as nat);
    }
}

/// `seen` with `(pid, d)` appended, unless `pid` is already in it.
pub open spec fn note_first(seen: Seq<(ProposalId, Decision)>, pid: ProposalId, d: Decision) -> Seq<(ProposalId, Decision)> {
    if exists|k: int| 0 <= k < seen.len() && (#[trigger] seen[k]).0 == pid {
        seen
    } else {
        seen.push((pid, d))
    }
}

/// `seen` after noting the first `m` proposals of `st` with their decisions.
pub open spec fn seen_in(seen: Seq<(ProposalId, Decision)>, st: crate::state::GlobalStateView, m: int) -> Seq<(ProposalId, Decision)>
    decreases m,
{
    if m <= 0 {
        seen
    } else {
        let pid = st.proposals[m - 1].id;
        note_first(
            seen_in(seen, st, m - 1),
            pid,
            match st.decision_of(pid) {
                Some(d) => d,
                None => Decision::Pending,
            },
        )
    }
}

/// Every proposal known to nodes `0..k`, once each, with the decision held
/// by the first node (in node order) that knows it.
pub open spec fn first_seen(nodes: Seq<NodeView>, k: int) -> Seq<(ProposalId, Decision)>
    decreases k,
{
    if k <= 0 {
        Seq::empty()
    } else {
        let st = nodes[k - 1].rt.state;
        seen_in(first_seen(nodes, k - 1), st, st.proposals.len() as int)
    }
}

/// For each of the first `k` entries of `seen` that is pending, every node's
/// vote on it to every other node.
pub open spec fn pending_votes(nodes: Seq<NodeView>, seen: Seq<(ProposalId, Decision)>, k: int) -> Seq<(usize, usize, Message)>
    decreases k,
{
    if k <= 0 {
        Seq::empty()
    } else {
        pending_votes(nodes, seen, k - 1) + if seen[k - 1].1 == Decision::Pending {
            gossip_all(nodes, Gossip::Vote(seen[k - 1].0), nodes.len() as int)
        } else {
            Seq::empty()
        }
    }
}

/// The votes that automatic voting queues.
pub open spec fn auto_votes(nodes: Seq<NodeView>) -> Seq<(usize, usize, Message)> {
    let seen = first_seen(nodes, nodes.len() as int);
    pending_votes(nodes, seen, seen.len() as int)
}

/// Whether `pid` is among the noted proposals.
fn seen_contains(seen: &Vec<(ProposalId, Decision)>, pid: &ProposalId) -> (r: bool)
    ensures
        r == exists|k: int| 0 <= k < seen@.len() && (#[trigger] seen@[k]).0 == *pid,
{
    let mut k: usize = 0;
    while k < seen.len()
        invariant
            0 <= k <= seen@.len(),
            forall|j: int| 0 <= j < k ==> (#[trigger] seen@[j]).0 != *pid,
        decreases seen@.len() - k,
    {
        if crate::types::proposal_id_eq(&seen[k].0, pid) {
            return true;
        }
        k = k + 1;
    }
    false
}

/// How many messages one tick takes off the queue at most: twice the
/// number of nodes, and at least one.
pub open spec fn delivery_budget(n: nat) -> nat {
    if n == 0 {
        1
    } else {
        2 * n
    }
}

/// The network after one tick, with `rolls` the packet-loss draws: the tick
/// counter advances (saturating); if delivery is due on the new tick (see
/// [`delivery_due_spec`]), up to [`delivery_budget`] messages are taken off
/// the queue; heartbeats go out every tenth tick and automatic votes every third.
pub open spec fn step_spec(a: AppView, rolls: Seq<u64>) -> AppView {
    let a1 = AppView { tick: if a.tick == u64::MAX { a.tick } else { (a.tick + 1) as u64 }, ..a };
    let n = a.nodes.len();
    let a2 = if delivery_due_spec(a1.tick, a.delay_ticks) {
        deliver(a1, rolls, delivery_budget(n))
    } else {
        a1
    };
    let a3 = if a2.tick % 10 == 0 {
        AppView {
            queue: a2.queue + gossip_all(a2.nodes, Gossip::Heartbeat, n as int),
            log: log_push(a2.log, LogEntry::HeartbeatBroadcast),
            ..a2
        }
    } else {
        a2
    };
    if a3.tick % 3 == 0 {
        AppView { queue: a3.queue + auto_votes(a3.nodes), ..a3 }
    } else {
        a3
    }
}

/// Delivering takes messages off the front of the queue only, in order, and
/// leaves the network's settings as they were.
proof fn lemma_deliver_takes_front(a: AppView, rolls: Seq<u64>, k: nat)
    ensures
        exists|d: int| 0 <= d <= a.queue.len() && deliver(a, rolls, k).queue == a.queue.subrange(d, a.queue.len() as int),
        deliver(a, rolls, k).tick == a.tick,
        deliver(a, rolls, k).selected == a.selected,
        deliver(a, rolls, k).partitioned == a.partitioned,
        deliver(a, rolls, k).loss_percent == a.loss_percent,
        deliver(a, rolls, k).delay_ticks == a.delay_ticks,
    decreases k,
{
    if k == 0 {
        assert(a.queue.subrange(0, a.queue.len() as int) =~= a.queue);
    } else {
        lemma_deliver_takes_front(a, rolls, (k - 1) as nat);
        let p = deliver(a, rolls, (k - 1) as nat);
        let d = choose|d: int| 0 <= d <= a.queue.len() && p.queue == a.queue.subrange(d, a.queue.len() as int);
        if p.queue.len() > 0 {
            assert(deliver_one(p, rolls[k - 1]).queue =~= a.queue.subrange(d + 1, a.queue.len() as int));
        }
    }
}

/// One tick advances the tick counter by one (saturating) and otherwise
/// leaves the settings alone; the queue keeps what was not delivered, in
/// order, and gains heartbeats from every node exactly on every tenth tick
/// and automatic votes exactly on every third tick, nothing else.
pub proof fn law_step_schedule(a: AppView, rolls: Seq<u64>)
    ensures
        step_spec(a, rolls).tick == if a.tick == u64::MAX { a.tick } else { (a.tick + 1) as u64 },
        step_spec(a, rolls).selected == a.selected,
        step_spec(a, rolls).partitioned == a.partitioned,
        step_spec(a, rolls).loss_percent == a.loss_percent,
        step_spec(a, rolls).delay_ticks == a.delay_ticks,
        exists|d: int| {
            let b = step_spec(a, rolls);
            &&& 0 <= d <= a.queue.len()
            &&& b.queue == #[trigger] a.queue.subrange(d, a.queue.len() as int) + (if b.tick % 10 == 0 {
                gossip_all(b.nodes, Gossip::Heartbeat, a.nodes.len() as int)
            } else {
                Seq::empty()
            }) + (if b.tick % 3 == 0 {
                auto_votes(b.nodes)
            } else {
                Seq::empty()
            })
        },
{
    let a1 = AppView { tick: if a.tick == u64::MAX { a.tick } else { (a.tick + 1) as u64 }, ..a };
    let n = a.nodes.len();
    let b = step_spec(a, rolls);
    lemma_deliver_takes_front(a1, rolls, delivery_budget(n));
    let a2 = if delivery_due_spec(a1.tick, a.delay_ticks) {
        deliver(a1, rolls, delivery_budget(n))
    } else {
        a1
    };
    let d = if delivery_due_spec(a1.tick, a.delay_ticks) {
        choose|d: int| 0 <= d <= a1.queue.len() && deliver(a1, rolls, delivery_budget(n)).queue == a1.queue.subrange(
            d,
            a1.queue.len() as int,
        )
    } else {
        0
    };
    if !delivery_due_spec(a1.tick, a.delay_ticks) {
        assert(a.queue.subrange(0, a.queue.len() as int) =~= a.queue);
    }
    assert(a2.queue == a.queue.subrange(d, a.queue.len() as int));
    let hb: Seq<(usize, usize, Message)> = if b.tick % 10 == 0 {
        gossip_all(b.nodes, Gossip::Heartbeat, n as int)
    } else {
        Seq::empty()
    };
    let av: Seq<(usize, usize, Message)> = if b.tick % 3 == 0 { auto_votes(b.nodes) } else { Seq::empty() };
    assert(b.queue =~= a.queue.subrange(d, a.queue.len() as int) + hb + av);
}

/// Time between two ticks of the simulation, in milliseconds.
pub const TICK_MS: u64 = 120;

/// A key pressed on the dashboard, by what it asks for.
#[derive(Clone, Copy, Debug, PartialEq, Eq, Structural)]
pub enum Key {
    /// `q`: quit.
    Quit,
    /// Left arrow: select the previous node.
    Left,
    /// Right arrow: select the next node.
    Right,
    /// `p`: a random node proposes.
    Propose,
    /// `h`: every node sends a heartbeat.
    Heartbeat,
    /// `v`: flip the selected node's automatic vote.
    TogglePolicy,
    /// `x`: split or heal the network.
    TogglePartition,
    /// `l`: move the packet-loss rate to the next in its cycle.
    CycleLoss,
    /// `d`: move the delivery delay to the next in its cycle.
    CycleDelay,
    /// Any other key.
    Other,
}

/// The network after every node sends a heartbeat to every other node.
pub open spec fn heartbeat_spec(a: AppView) -> AppView {
    AppView {
        queue: a.queue + gossip_all(a.nodes, Gossip::Heartbeat, a.nodes.len() as int),
        log: log_push(a.log, LogEntry::HeartbeatBroadcast),
        ..a
    }
}

/// The network after node `idx`'s automatic vote is flipped.
pub open spec fn toggle_policy_spec(a: AppView, idx: usize) -> AppView {
    AppView {
        nodes: a.nodes.update(idx as int, NodeView { auto_accept: !a.nodes[idx as int].auto_accept, ..a.nodes[idx as int] }),
        log: log_push(a.log, LogEntry::PolicyToggled { node: idx, auto_accept: !a.nodes[idx as int].auto_accept }),
        ..a
    }
}

/// The network after the partition is switched on or off.
pub open spec fn toggle_partition_spec(a: AppView) -> AppView {
    AppView {
        partitioned: !a.partitioned,
        log: log_push(
            a.log,
            if !a.partitioned {
                LogEntry::PartitionEnabled {
                    last_left: (split_point(a.nodes.len()) - 1) as usize,
                    split: split_point(a.nodes.len()) as usize,
                    last: if a.nodes.len() == 0 { 0 } else { (a.nodes.len() - 1) as usize },
                }
            } else {
                LogEntry::NetworkHealed
            },
        ),
        ..a
    }
}

/// The network after the packet-loss rate moves to the next in its cycle.
pub open spec fn cycle_loss_spec(a: AppView) -> AppView {
    AppView {
        loss_percent: next_loss_spec(a.loss_percent),
        log: log_push(a.log, LogEntry::LossRateSet { percent: next_loss_spec(a.loss_percent) }),
        ..a
    }
}

/// The network after the delivery delay moves to the next in its cycle.
pub open spec fn cycle_delay_spec(a: AppView) -> AppView {
    AppView {
        delay_ticks: next_delay_spec(a.delay_ticks),
        log: log_push(a.log, LogEntry::DelaySet { ticks: next_delay_spec(a.delay_ticks) }),
        ..a
    }
}

/// `b` is `a` after some node `proposer` (named by the newest log entry)
/// sent the feature proposal with some id to every node.
pub open spec fn random_proposal_sent(a: AppView, b: AppView) -> bool {
    &&& b.log.len() > 0
    &&& b.log[0] matches LogEntry::ProposalSubmitted { id, proposer }
        && proposer < a.nodes.len()
        && proposal_sent(a.queue, b.queue, a.nodes.len(), proposer, id)
        && b.log == log_push(a.log, LogEntry::ProposalSubmitted { id, proposer })
    &&& b.nodes == a.nodes
    &&& b.selected == a.selected
    &&& b.tick == a.tick
    &&& b.partitioned == a.partitioned
    &&& b.loss_percent == a.loss_percent
    &&& b.delay_ticks == a.delay_ticks
}

/// The selected node after a move to the left: one less, stopping at 0.
pub open spec fn select_left(selected: usize) -> usize {
    if selected > 0 {
        (selected - 1) as usize
    } else {
        selected
    }
}

/// The selected node after a move to the right: one more, stopping at the last node.
pub open spec fn select_right(selected: usize, n: nat) -> usize {
    if selected + 1 < n {
        (selected + 1) as usize
    } else {
        selected
    }
}

/// Most proposals listed for the selected node.
pub const LAWS_SHOWN: usize = 18;

/// The decision listed for a proposal id: the one held, or pending if none.
pub open spec fn listed_decision(st: crate::state::GlobalStateView, id: ProposalId) -> Decision {
    match st.decision_of(id) {
        Some(d) => d,
        None => Decision::Pending,
    }
}

/// The first `LAWS_SHOWN` proposals of a state, in order of id, with their decisions.
pub open spec fn laws_listed(st: crate::state::GlobalStateView) -> Seq<(ProposalId, Decision)> {
    let n = if st.proposals.len() < LAWS_SHOWN { st.proposals.len() } else { LAWS_SHOWN as nat };
    Seq::new(n, |i: int| (st.proposals[i].id, listed_decision(st, st.proposals[i].id)))
}

/// The laws listed for a node are its first proposals in order of id, at
/// most `LAWS_SHOWN` of them, each with exactly the decision the node holds
/// for it (every known proposal has one).
pub proof fn law_listed_laws_are_held(st: crate::state::GlobalStateView)
    ensures
        laws_listed(st).len() == if st.proposals.len() < LAWS_SHOWN { st.proposals.len() } else { LAWS_SHOWN as nat },
        forall|k: int| 0 <= k < laws_listed(st).len() ==> {
            &&& (#[trigger] laws_listed(st)[k]).0 == st.proposals[k].id
            &&& st.decision_of(laws_listed(st)[k].0) == Some(laws_listed(st)[k].1)
        },
{
    assert forall|k: int| 0 <= k < laws_listed(st).len() implies {
        &&& (#[trigger] laws_listed(st)[k]).0 == st.proposals[k].id
        &&& st.decision_of(laws_listed(st)[k].0) == Some(laws_listed(st)[k].1)
    } by {
        assert(st.has_proposal(st.proposals[k].id));
    }
}

/// Whether the simulation is due for a tick, `elapsed_ms` after the last one.
pub fn tick_due(elapsed_ms: u64) -> (r: bool)
    ensures
        r == (elapsed_ms >= TICK_MS),
{
    elapsed_ms >= TICK_MS
}

/// Some entry of `g` goes from `i` to `j`.
pub open spec fn reaches(g: Seq<(usize, usize, Message)>, i: int, j: int) -> bool {
    exists|k: int| 0 <= k < g.len() && (#[trigger] g[k]).0 == i && g[k].1 == j
}

proof fn lemma_gossip_row_entries(nodes: Seq<NodeView>, kind: Gossip, i: int, m: int)
    requires
        0 <= i < nodes.len(),
        m <= nodes.len(),
        nodes.len() <= usize::MAX,
    ensures
        forall|k: int| 0 <= k < gossip_row(nodes, kind, i, m).len() ==> {
            let e = #[trigger] gossip_row(nodes, kind, i, m)[k];
            &&& e.0 == i
            &&& e.1 < m
            &&& e.1 != i
            &&& e.2 == gossip_message(nodes, i, kind)
        },
        forall|j: int| 0 <= j < m && j != i ==> #[trigger] reaches(gossip_row(nodes, kind, i, m), i, j),
    decreases m,
{
    if m > 0 {
        lemma_gossip_row_entries(nodes, kind, i, m - 1);
        let prev = gossip_row(nodes, kind, i, m - 1);
        let r = gossip_row(nodes, kind, i, m);
        assert forall|k: int| 0 <= k < r.len() implies {
            let e = #[trigger] r[k];
            &&& e.0 == i
            &&& e.1 < m
            &&& e.1 != i
            &&& e.2 == gossip_message(nodes, i, kind)
        } by {
            if k < prev.len() {
                assert(r[k] == prev[k]);
            }
        }
        assert forall|j: int| 0 <= j < m && j != i implies #[trigger] reaches(r, i, j) by {
            if j < m - 1 {
                assert(reaches(prev, i, j));
                let k = choose|k: int| 0 <= k < prev.len() && (#[trigger] prev[k]).0 == i && prev[k].1 == j;
                assert(r[k] == prev[k]);
            } else {
                assert(r[r.len() - 1].1 == j);
                assert(r[r.len() - 1].0 == i);
            }
        }
    }
}

proof fn lemma_gossip_all_entries(nodes: Seq<NodeView>, kind: Gossip, rows: int)
    requires
        0 <= rows <= nodes.len(),
        nodes.len() <= usize::MAX,
    ensures
        forall|k: int| 0 <= k < gossip_all(nodes, kind, rows).len() ==> {
            let e = #[trigger] gossip_all(nodes, kind, rows)[k];
            &&& e.0 < rows
            &&& e.1 < nodes.len()
            &&& e.0 != e.1
            &&& e.2 == gossip_message(nodes, e.0 as int, kind)
        },
        forall|i: int, j: int| 0 <= i < rows && 0 <= j < nodes.len() && i != j ==> #[trigger] reaches(
            gossip_all(nodes, kind, rows),
            i,
            j,
        ),
    decreases rows,
{
    if rows > 0 {
        lemma_gossip_all_entries(nodes, kind, rows - 1);
        lemma_gossip_row_entries(nodes, kind, rows - 1, nodes.len() as int);
        let a = gossip_all(nodes, kind, rows - 1);
        let b = gossip_row(nodes, kind, rows - 1, nodes.len() as int);
        let g = gossip_all(nodes, kind, rows);
        assert(g == a + b);
        assert forall|k: int| 0 <= k < g.len() implies {
            let e = #[trigger] g[k];
            &&& e.0 < rows
            &&& e.1 < nodes.len()
            &&& e.0 != e.1
            &&& e.2 == gossip_message(nodes, e.0 as int, kind)
        } by {
            if k < a.len() {
                assert(g[k] == a[k]);
            } else {
                assert(g[k] == b[k - a.len()]);
            }
        }
        assert forall|i: int, j: int| 0 <= i < rows && 0 <= j < nodes.len() && i != j implies #[trigger] reaches(g, i, j) by {
            if i < rows - 1 {
                assert(reaches(a, i, j));
                let k = choose|k: int| 0 <= k < a.len() && (#[trigger] a[k]).0 == i && a[k].1 == j;
                assert(g[k] == a[k]);
            } else {
                assert(reaches(b, i, j));
                let k = choose|k: int| 0 <= k < b.len() && (#[trigger] b[k]).0 == i && b[k].1 == j;
                assert(g[a.len() + k] == b[k]);
            }
        }
    }
}

/// A broadcast sends, once from every node to every other node and to no
/// node itself, the message of the sender: its `Hello` or `Heartbeat`, or its
/// vote on the proposal, accepting exactly as the sender's current policy
/// (`auto_accept`) says.
pub proof fn law_broadcast_messages(nodes: Seq<NodeView>, kind: Gossip)
    requires
        nodes.len() <= usize::MAX,
    ensures
        forall|k: int| 0 <= k < gossip_all(nodes, kind, nodes.len() as int).len() ==> {
            let e = #[trigger] gossip_all(nodes, kind, nodes.len() as int)[k];
            let sender = nodes[e.0 as int];
            &&& e.0 < nodes.len()
            &&& e.1 < nodes.len()
            &&& e.0 != e.1
            &&& match kind {
                Gossip::Hello => e.2 == Message::Hello { node: sender.id },
                Gossip::Heartbeat => e.2 == Message::Heartbeat { node: sender.id },
                Gossip::Vote(pid) => e.2 == Message::Vote {
                    from: sender.id,
                    vote: Vote { proposal_id: pid, accept: sender.auto_accept },
                },
            }
        },
        forall|i: int, j: int| 0 <= i < nodes.len() && 0 <= j < nodes.len() && i != j ==> #[trigger] reaches(
            gossip_all(nodes, kind, nodes.len() as int),
            i,
            j,
        ),
        forall|k1: int, k2: int| 0 <= k1 < k2 < gossip_all(nodes, kind, nodes.len() as int).len() ==> #[trigger] gossip_all(
            nodes,
            kind,
            nodes.len() as int,
        )[k1] != #[trigger] gossip_all(nodes, kind, nodes.len() as int)[k2],
{
    lemma_gossip_all_entries(nodes, kind, nodes.len() as int);
    lemma_gossip_all_distinct(nodes, kind, nodes.len() as int);
}

/// `e` goes from one node to another and carries the sender's message of this
/// kind: its `Hello`, its `Heartbeat`, or its vote on the proposal accepting
/// exactly as its current policy (`auto_accept`) says.
pub open spec fn sender_message(nodes: Seq<NodeView>, kind: Gossip, e: (usize, usize, Message)) -> bool {
    let sender = nodes[e.0 as int];
    &&& e.0 < nodes.len()
    &&& e.1 < nodes.len()
    &&& e.0 != e.1
    &&& match kind {
        Gossip::Hello => e.2 == Message::Hello { node: sender.id },
        Gossip::Heartbeat => e.2 == Message::Heartbeat { node: sender.id },
        Gossip::Vote(pid) => e.2 == Message::Vote {
            from: sender.id,
            vote: Vote { proposal_id: pid, accept: sender.auto_accept },
        },
    }
}

/// Node `a` is the first node, in node order, that knows proposal `pid`.
pub open spec fn first_holder(nodes: Seq<NodeView>, pid: ProposalId, a: int) -> bool {
    &&& 0 <= a < nodes.len()
    &&& nodes[a].rt.state.has_proposal(pid)
    &&& forall|b: int| 0 <= b < a ==> !(#[trigger] nodes[b]).rt.state.has_proposal(pid)
}

/// Among nodes `0..k`, the first node that knows `pid` holds decision `d` for it.
pub open spec fn held_by_first(nodes: Seq<NodeView>, pid: ProposalId, d: Decision, k: int) -> bool {
    exists|a: int| {
        &&& #[trigger] first_holder(nodes, pid, a)
        &&& a < k
        &&& nodes[a].rt.state.decision_of(pid) == Some(d)
    }
}

/// Some entry of `seen` is about `pid`.
pub open spec fn seen_has(seen: Seq<(ProposalId, Decision)>, pid: ProposalId) -> bool {
    exists|k: int| 0 <= k < seen.len() && (#[trigger] seen[k]).0 == pid
}

proof fn lemma_seen_in(seen: Seq<(ProposalId, Decision)>, st: crate::state::GlobalStateView, m: int)
    requires
        0 <= m <= st.proposals.len(),
    ensures
        forall|t: int| 0 <= t < seen_in(seen, st, m).len() ==> {
            let e = #[trigger] seen_in(seen, st, m)[t];
            ||| exists|u: int| 0 <= u < seen.len() && #[trigger] seen[u] == e
            ||| st.has_proposal(e.0) && st.decision_of(e.0) == Some(e.1) && !seen_has(seen, e.0)
        },
        forall|pid: ProposalId| seen_has(seen, pid) ==> #[trigger] seen_has(seen_in(seen, st, m), pid),
        forall|x: int| 0 <= x < m ==> #[trigger] seen_has(seen_in(seen, st, m), st.proposals[x].id),
    decreases m,
{
    if m > 0 {
        lemma_seen_in(seen, st, m - 1);
        let prev = seen_in(seen, st, m - 1);
        let r = seen_in(seen, st, m);
        let pid = st.proposals[m - 1].id;
        assert(st.has_proposal(pid));
        if seen_has(prev, pid) {
            assert(r == prev);
        } else {
            assert(r == prev.push((pid, match st.decision_of(pid) {
                Some(d) => d,
                None => Decision::Pending,
            })));
            assert forall|t: int| 0 <= t < r.len() implies {
                let e = #[trigger] r[t];
                ||| exists|u: int| 0 <= u < seen.len() && #[trigger] seen[u] == e
                ||| st.has_proposal(e.0) && st.decision_of(e.0) == Some(e.1) && !seen_has(seen, e.0)
            } by {
                if t < prev.len() {
                    assert(r[t] == prev[t]);
                }
            }
            assert forall|p2: ProposalId| seen_has(prev, p2) implies #[trigger] seen_has(r, p2) by {
                let k = choose|k: int| 0 <= k < prev.len() && (#[trigger] prev[k]).0 == p2;
                assert(r[k] == prev[k]);
            }
            assert(r[r.len() - 1].0 == pid);
        }
    }
}

/// One entry of `first_seen(nodes, k)`, given the facts for `k - 1`.
proof fn lemma_first_seen_entry(nodes: Seq<NodeView>, k: int, t: int)
    requires
        0 < k <= nodes.len(),
        0 <= t < first_seen(nodes, k).len(),
        forall|u: int| 0 <= u < first_seen(nodes, k - 1).len() ==> #[trigger] held_by_first(
            nodes,
            first_seen(nodes, k - 1)[u].0,
            first_seen(nodes, k - 1)[u].1,
            k - 1,
        ),
        forall|pid: ProposalId, a: int| 0 <= a < k - 1 && #[trigger] nodes[a].rt.state.has_proposal(pid) ==> seen_has(
            first_seen(nodes, k - 1),
            pid,
        ),
    ensures
        held_by_first(nodes, first_seen(nodes, k)[t].0, first_seen(nodes, k)[t].1, k),
{
    let prev = first_seen(nodes, k - 1);
    let st = nodes[k - 1].rt.state;
    let r = first_seen(nodes, k);
    assert(r == seen_in(prev, st, st.proposals.len() as int));
    lemma_seen_in(prev, st, st.proposals.len() as int);
    let e = r[t];
    if exists|u: int| 0 <= u < prev.len() && #[trigger] prev[u] == e {
        let u = choose|u: int| 0 <= u < prev.len() && #[trigger] prev[u] == e;
        assert(held_by_first(nodes, prev[u].0, prev[u].1, k - 1));
        let a = choose|a: int| {
            &&& #[trigger] first_holder(nodes, prev[u].0, a)
            &&& a < k - 1
            &&& nodes[a].rt.state.decision_of(prev[u].0) == Some(prev[u].1)
        };
        assert(first_holder(nodes, r[t].0, a));
    } else {
        assert(st.has_proposal(e.0) && st.decision_of(e.0) == Some(e.1) && !seen_has(prev, e.0));
        assert forall|b: int| 0 <= b < k - 1 implies !(#[trigger] nodes[b]).rt.state.has_proposal(e.0) by {
            if nodes[b].rt.state.has_proposal(e.0) {
                assert(seen_has(prev, e.0));
            }
        }
        assert(first_holder(nodes, r[t].0, k - 1));
        assert(held_by_first(nodes, r[t].0, r[t].1, k));
    }
}

proof fn lemma_first_seen(nodes: Seq<NodeView>, k: int)
    requires
        0 <= k <= nodes.len(),
    ensures
        forall|t: int| 0 <= t < first_seen(nodes, k).len() ==> #[trigger] held_by_first(
            nodes,
            first_seen(nodes, k)[t].0,
            first_seen(nodes, k)[t].1,
            k,
        ),
        forall|pid: ProposalId, a: int| 0 <= a < k && #[trigger] nodes[a].rt.state.has_proposal(pid) ==> seen_has(
            first_seen(nodes, k),
            pid,
        ),
    decreases k,
{
    if k > 0 {
        lemma_first_seen(nodes, k - 1);
        let prev = first_seen(nodes, k - 1);
        let st = nodes[k - 1].rt.state;
        let r = first_seen(nodes, k);
        lemma_seen_in(prev, st, st.proposals.len() as int);
        assert forall|t: int| 0 <= t < first_seen(nodes, k).len() implies #[trigger] held_by_first(
            nodes,
            first_seen(nodes, k)[t].0,
            first_seen(nodes, k)[t].1,
            k,
        ) by {
            lemma_first_seen_entry(nodes, k, t);
        }
        assert forall|pid: ProposalId, a: int| 0 <= a < k && #[trigger] nodes[a].rt.state.has_proposal(pid) implies seen_has(
            r,
            pid,
        ) by {
            if a < k - 1 {
                assert(seen_has(prev, pid));
            } else {
                let x = choose|x: int| 0 <= x < st.proposals.len() && (#[trigger] st.proposals[x]).id == pid;
                assert(seen_has(r, st.proposals[x].id));
            }
        }
    }
}

proof fn lemma_pending_votes(nodes: Seq<NodeView>, seen: Seq<(ProposalId, Decision)>, k: int)
    requires
        0 <= k <= seen.len(),
    ensures
        forall|x: int| #![trigger pending_votes(nodes, seen, k)[x]] 0 <= x < pending_votes(nodes, seen, k).len() ==> exists|t: int| {
            &&& 0 <= t < k
            &&& (#[trigger] seen[t]).1 == Decision::Pending
            &&& gossip_all(nodes, Gossip::Vote(seen[t].0), nodes.len() as int).contains(pending_votes(nodes, seen, k)[x])
        },
        forall|t: int, y: int| 0 <= t < k && (#[trigger] seen[t]).1 == Decision::Pending
            && 0 <= y < gossip_all(nodes, Gossip::Vote(seen[t].0), nodes.len() as int).len() ==> pending_votes(nodes, seen, k).contains(
            #[trigger] gossip_all(nodes, Gossip::Vote(seen[t].0), nodes.len() as int)[y],
        ),
    decreases k,
{
    if k > 0 {
        lemma_pending_votes(nodes, seen, k - 1);
        let a = pending_votes(nodes, seen, k - 1);
        let g = gossip_all(nodes, Gossip::Vote(seen[k - 1].0), nodes.len() as int);
        let b = if seen[k - 1].1 == Decision::Pending { g } else { Seq::empty() };
        let r = pending_votes(nodes, seen, k);
        assert(r == a + b);
        assert forall|x: int| #![trigger r[x]] 0 <= x < r.len() implies exists|t: int| {
            &&& 0 <= t < k
            &&& (#[trigger] seen[t]).1 == Decision::Pending
            &&& gossip_all(nodes, Gossip::Vote(seen[t].0), nodes.len() as int).contains(r[x])
        } by {
            if x < a.len() {
                assert(r[x] == a[x]);
            } else {
                assert(r[x] == b[x - a.len()]);
                assert(g[x - a.len()] == r[x]);
                assert(seen[k - 1].1 == Decision::Pending);
            }
        }
        assert forall|t: int, y: int| 0 <= t < k && (#[trigger] seen[t]).1 == Decision::Pending
            && 0 <= y < gossip_all(nodes, Gossip::Vote(seen[t].0), nodes.len() as int).len() implies r.contains(
            #[trigger] gossip_all(nodes, Gossip::Vote(seen[t].0), nodes.len() as int)[y],
        ) by {
            let e = gossip_all(nodes, Gossip::Vote(seen[t].0), nodes.len() as int)[y];
            if t < k - 1 {
                assert(a.contains(e));
                let x = choose|x: int| 0 <= x < a.len() && a[x] == e;
                assert(r[x] == e);
            } else {
                assert(r[a.len() + y] == e);
            }
        }
    }
}

proof fn lemma_gossip_row_increasing(nodes: Seq<NodeView>, kind: Gossip, i: int, m: int)
    requires
        0 <= i < nodes.len(),
        0 <= m <= nodes.len(),
        nodes.len() <= usize::MAX,
    ensures
        forall|k1: int, k2: int| 0 <= k1 < k2 < gossip_row(nodes, kind, i, m).len() ==> (#[trigger] gossip_row(
            nodes,
            kind,
            i,
            m,
        )[k1]).1 < (#[trigger] gossip_row(nodes, kind, i, m)[k2]).1,
    decreases m,
{
    if m > 0 {
        lemma_gossip_row_increasing(nodes, kind, i, m - 1);
        lemma_gossip_row_entries(nodes, kind, i, m - 1);
        let prev = gossip_row(nodes, kind, i, m - 1);
        let r = gossip_row(nodes, kind, i, m);
        if m - 1 != i {
            assert(r == prev.push((i as usize, (m - 1) as usize, gossip_message(nodes, i, kind))));
            assert forall|k1: int, k2: int| 0 <= k1 < k2 < r.len() implies (#[trigger] r[k1]).1 < (#[trigger] r[k2]).1 by {
                assert(r[k1] == prev[k1]);
                if k2 < prev.len() {
                    assert(r[k2] == prev[k2]);
                }
            }
        }
    }
}

proof fn lemma_gossip_all_distinct(nodes: Seq<NodeView>, kind: Gossip, rows: int)
    requires
        0 <= rows <= nodes.len(),
        nodes.len() <= usize::MAX,
    ensures
        forall|k1: int, k2: int| 0 <= k1 < k2 < gossip_all(nodes, kind, rows).len() ==> #[trigger] gossip_all(
            nodes,
            kind,
            rows,
        )[k1] != #[trigger] gossip_all(nodes, kind, rows)[k2],
    decreases rows,
{
    if rows > 0 {
        let n = nodes.len() as int;
        lemma_gossip_all_distinct(nodes, kind, rows - 1);
        lemma_gossip_all_entries(nodes, kind, rows - 1);
        lemma_gossip_row_entries(nodes, kind, rows - 1, n);
        lemma_gossip_row_increasing(nodes, kind, rows - 1, n);
        let a = gossip_all(nodes, kind, rows - 1);
        let b = gossip_row(nodes, kind, rows - 1, n);
        let g = gossip_all(nodes, kind, rows);
        assert(g == a + b);
        assert forall|k1: int, k2: int| 0 <= k1 < k2 < g.len() implies #[trigger] g[k1] != #[trigger] g[k2] by {
            if k2 < a.len() {
                assert(g[k1] == a[k1] && g[k2] == a[k2]);
            } else if k1 >= a.len() {
                assert(g[k1] == b[k1 - a.len()] && g[k2] == b[k2 - a.len()]);
                assert(b[k1 - a.len()].1 < b[k2 - a.len()].1);
            } else {
                assert(g[k1] == a[k1] && g[k2] == b[k2 - a.len()]);
                assert(a[k1].0 < rows - 1);
            }
        }
    }
}

/// No two entries of `seen` are about the same proposal.
pub open spec fn distinct_pids(seen: Seq<(ProposalId, Decision)>) -> bool {
    forall|t1: int, t2: int| 0 <= t1 < t2 < seen.len() ==> (#[trigger] seen[t1]).0 != (#[trigger] seen[t2]).0
}

proof fn lemma_seen_in_distinct(seen: Seq<(ProposalId, Decision)>, st: crate::state::GlobalStateView, m: int)
    requires
        distinct_pids(seen),
        0 <= m <= st.proposals.len(),
    ensures
        distinct_pids(seen_in(seen, st, m)),
    decreases m,
{
    if m > 0 {
        lemma_seen_in_distinct(seen, st, m - 1);
        let prev = seen_in(seen, st, m - 1);
        let r = seen_in(seen, st, m);
        let pid = st.proposals[m - 1].id;
        if seen_has(prev, pid) {
            assert(r == prev);
        } else {
            let d = match st.decision_of(pid) {
                Some(d) => d,
                None => Decision::Pending,
            };
            assert(r == prev.push((pid, d)));
            assert forall|t1: int, t2: int| 0 <= t1 < t2 < r.len() implies (#[trigger] r[t1]).0 != (#[trigger] r[t2]).0 by {
                assert(r[t1] == prev[t1]);
                if t2 < prev.len() {
                    assert(r[t2] == prev[t2]);
                } else {
                    assert(r[t2].0 == pid);
                    if prev[t1].0 == pid {
                        assert(seen_has(prev, pid));
                    }
                }
            }
        }
    }
}

proof fn lemma_first_seen_distinct(nodes: Seq<NodeView>, k: int)
    requires
        0 <= k <= nodes.len(),
    ensures
        distinct_pids(first_seen(nodes, k)),
    decreases k,
{
    if k > 0 {
        lemma_first_seen_distinct(nodes, k - 1);
        let st = nodes[k - 1].rt.state;
        lemma_seen_in_distinct(first_seen(nodes, k - 1), st, st.proposals.len() as int);
    }
}

proof fn lemma_pending_votes_distinct(nodes: Seq<NodeView>, seen: Seq<(ProposalId, Decision)>, k: int)
    requires
        distinct_pids(seen),
        0 <= k <= seen.len(),
        nodes.len() <= usize::MAX,
    ensures
        forall|x: int, y: int| 0 <= x < y < pending_votes(nodes, seen, k).len() ==> #[trigger] pending_votes(
            nodes,
            seen,
            k,
        )[x] != #[trigger] pending_votes(nodes, seen, k)[y],
    decreases k,
{
    if k > 0 {
        let n = nodes.len() as int;
        lemma_pending_votes_distinct(nodes, seen, k - 1);
        lemma_pending_votes(nodes, seen, k - 1);
        let a = pending_votes(nodes, seen, k - 1);
        let g = gossip_all(nodes, Gossip::Vote(seen[k - 1].0), n);
        let b = if seen[k - 1].1 == Decision::Pending { g } else { Seq::empty() };
        let r = pending_votes(nodes, seen, k);
        assert(r == a + b);
        lemma_gossip_all_distinct(nodes, Gossip::Vote(seen[k - 1].0), n);
        lemma_gossip_all_entries(nodes, Gossip::Vote(seen[k - 1].0), n);
        assert forall|x: int, y: int| 0 <= x < y < r.len() implies #[trigger] r[x] != #[trigger] r[y] by {
            if y < a.len() {
                assert(r[x] == a[x] && r[y] == a[y]);
            } else if x >= a.len() {
                assert(r[x] == g[x - a.len()] && r[y] == g[y - a.len()]);
            } else {
                assert(r[x] == a[x] && r[y] == g[y - a.len()]);
                let t = choose|t: int| {
                    &&& 0 <= t < k - 1
                    &&& (#[trigger] seen[t]).1 == Decision::Pending
                    &&& gossip_all(nodes, Gossip::Vote(seen[t].0), n).contains(a[x])
                };
                let gt = gossip_all(nodes, Gossip::Vote(seen[t].0), n);
                lemma_gossip_all_entries(nodes, Gossip::Vote(seen[t].0), n);
                let z = choose|z: int| 0 <= z < gt.len() && gt[z] == a[x];
                assert(gt[z] == a[x]);
                assert(a[x].2 == gossip_message(nodes, a[x].0 as int, Gossip::Vote(seen[t].0)));
                assert(r[y].2 == gossip_message(nodes, r[y].0 as int, Gossip::Vote(seen[k - 1].0)));
                assert(seen[t].0 != seen[k - 1].0);
            }
        }
    }
}

/// `e` is node `e.0`'s vote to another node `e.1` on a proposal that the first
/// node knowing it holds pending, accepting as node `e.0`'s current policy says.
pub open spec fn vote_on_pending(nodes: Seq<NodeView>, e: (usize, usize, Message)) -> bool {
    exists|pid: ProposalId, a: int| {
        &&& #[trigger] first_holder(nodes, pid, a)
        &&& nodes[a].rt.state.decision_of(pid) == Some(Decision::Pending)
        &&& e.0 < nodes.len()
        &&& e.1 < nodes.len()
        &&& e.0 != e.1
        &&& e.2 == Message::Vote {
            from: nodes[e.0 as int].id,
            vote: Vote { proposal_id: pid, accept: nodes[e.0 as int].auto_accept },
        }
    }
}

/// Automatic voting queues votes only on proposals that the first node
/// knowing them (in node order) holds pending, and on every such proposal
/// it queues, from every node to every other node, the sender's vote
/// accepting exactly as the sender's current policy says. A proposal held
/// accepted or rejected by its first holder gets no vote, and no vote is
/// queued twice.
pub proof fn law_auto_votes(nodes: Seq<NodeView>)
    requires
        nodes.len() <= usize::MAX,
    ensures
        forall|x: int| 0 <= x < auto_votes(nodes).len() ==> #[trigger] vote_on_pending(nodes, auto_votes(nodes)[x]),
        forall|pid: ProposalId, a: int, i: int, j: int|
            #[trigger] first_holder(nodes, pid, a) && nodes[a].rt.state.decision_of(pid) == Some(Decision::Pending)
                && 0 <= i < nodes.len() && 0 <= j < nodes.len() && i != j ==> #[trigger] auto_votes(nodes).contains(
                (
                    i as usize,
                    j as usize,
                    Message::Vote {
                        from: nodes[i].id,
                        vote: Vote { accept: nodes[i].auto_accept, proposal_id: pid },
                    },
                ),
            ),
        forall|x: int, y: int| 0 <= x < y < auto_votes(nodes).len() ==> #[trigger] auto_votes(nodes)[x]
            != #[trigger] auto_votes(nodes)[y],
{
    let n = nodes.len() as int;
    let seen = first_seen(nodes, n);
    lemma_first_seen(nodes, n);
    lemma_pending_votes(nodes, seen, seen.len() as int);
    lemma_first_seen_distinct(nodes, n);
    lemma_pending_votes_distinct(nodes, seen, seen.len() as int);
    let pv = auto_votes(nodes);
    assert(pv == pending_votes(nodes, seen, seen.len() as int));
    assert forall|x: int| 0 <= x < pv.len() implies #[trigger] vote_on_pending(nodes, pv[x]) by {
        let t = choose|t: int| {
            &&& 0 <= t < seen.len()
            &&& (#[trigger] seen[t]).1 == Decision::Pending
            &&& gossip_all(nodes, Gossip::Vote(seen[t].0), n).contains(pv[x])
        };
        let pid = seen[t].0;
        let g = gossip_all(nodes, Gossip::Vote(pid), n);
        lemma_gossip_all_entries(nodes, Gossip::Vote(pid), n);
        let y = choose|y: int| 0 <= y < g.len() && g[y] == pv[x];
        assert(g[y] == pv[x]);
        assert(held_by_first(nodes, seen[t].0, seen[t].1, n));
        let a = choose|a: int| {
            &&& #[trigger] first_holder(nodes, seen[t].0, a)
            &&& a < n
            &&& nodes[a].rt.state.decision_of(seen[t].0) == Some(seen[t].1)
        };
        assert(first_holder(nodes, pid, a));
        assert(pv[x].2 == gossip_message(nodes, pv[x].0 as int, Gossip::Vote(pid)));
    }
    assert forall|pid: ProposalId, a: int, i: int, j: int|
        #[trigger] first_holder(nodes, pid, a) && nodes[a].rt.state.decision_of(pid) == Some(Decision::Pending)
            && 0 <= i < nodes.len() && 0 <= j < nodes.len() && i != j implies #[trigger] pv.contains(
            (
                i as usize,
                j as usize,
                Message::Vote { from: nodes[i].id, vote: Vote { proposal_id: pid, accept: nodes[i].auto_accept } },
            ),
        ) by {
        assert(seen_has(seen, pid));
        let t = choose|t: int| 0 <= t < seen.len() && (#[trigger] seen[t]).0 == pid;
        assert(held_by_first(nodes, seen[t].0, seen[t].1, n));
        let a2 = choose|a2: int| {
            &&& #[trigger] first_holder(nodes, seen[t].0, a2)
            &&& a2 < n
            &&& nodes[a2].rt.state.decision_of(seen[t].0) == Some(seen[t].1)
        };
        if a2 < a {
            assert(nodes[a2].rt.state.has_proposal(pid));
        }
        if a < a2 {
            assert(nodes[a].rt.state.has_proposal(pid));
        }
        assert(a2 == a);
        assert(seen[t].1 == Decision::Pending);
        let g = gossip_all(nodes, Gossip::Vote(pid), n);
        lemma_gossip_all_entries(nodes, Gossip::Vote(pid), n);
        assert(reaches(g, i, j));
        let y = choose|y: int| 0 <= y < g.len() && (#[trigger] g[y]).0 == i && g[y].1 == j;
        assert(g[y] == (
            i as usize,
            j as usize,
            Message::Vote { from: nodes[i].id, vote: Vote { proposal_id: pid, accept: nodes[i].auto_accept } },
        ));
        assert(pv.contains(g[y]));
    }
}

/// Lowercase hexadecimal digit of a value below 16, as an ASCII byte.
pub open spec fn hex_digit_spec(n: u8) -> u8 {
    if n < 10 {
        (48 + n) as u8
    } else {
        (87 + n) as u8
    }
}

/// The 64 lowercase hexadecimal digits of 32 bytes, two per byte, high nibble first.
pub open spec fn hex_spec(bytes: Seq<u8>) -> Seq<char> {
    Seq::new(
        2 * bytes.len(),
        |k: int|
            (if k % 2 == 0 {
                hex_digit_spec(bytes[k / 2] / 16)
            } else {
                hex_digit_spec(bytes[k / 2] % 16)
            }) as char,
    )
}

/// The value of a lowercase hexadecimal digit (`0`-`9`, `a`-`f`); `None` for any other character.
pub open spec fn hex_value(c: char) -> Option<int> {
    if '0' <= c && c <= '9' {
        Some(c as int - '0' as int)
    } else if 'a' <= c && c <= 'f' {
        Some(c as int - 'a' as int + 10)
    } else {
        None
    }
}

/// The hexadecimal form of bytes has two lowercase digits per byte, and
/// reading each pair back, high digit first, gives the byte again.
pub proof fn law_hex_reads_back(bytes: Seq<u8>)
    ensures
        hex_spec(bytes).len() == 2 * bytes.len(),
        forall|k: int| 0 <= k < hex_spec(bytes).len() ==> #[trigger] hex_value(hex_spec(bytes)[k]) is Some,
        forall|k: int| 0 <= k < bytes.len() ==> hex_value(hex_spec(bytes)[2 * k])->0 * 16 + hex_value(
            hex_spec(bytes)[2 * k + 1],
        )->0 == #[trigger] bytes[k],
{
    let h = hex_spec(bytes);
    assert forall|k: int| 0 <= k < h.len() implies #[trigger] hex_value(h[k]) is Some by {
        let b = bytes[k / 2];
        let n: u8 = if k % 2 == 0 { b / 16 } else { b % 16 };
        assert(n < 16);
        assert(h[k] == hex_digit_spec(n) as char);
    }
    assert forall|k: int| 0 <= k < bytes.len() implies hex_value(h[2 * k])->0 * 16 + hex_value(h[2 * k + 1])->0
        == #[trigger] bytes[k] by {
        let b = bytes[k];
        assert((2 * k) / 2 == k && (2 * k) % 2 == 0);
        assert((2 * k + 1) / 2 == k && (2 * k + 1) % 2 == 1);
        assert(h[2 * k] == hex_digit_spec(b / 16) as char);
        assert(h[2 * k + 1] == hex_digit_spec(b % 16) as char);
        assert(hex_value(h[2 * k])->0 == (b / 16) as int);
        assert(hex_value(h[2 * k + 1])->0 == (b % 16) as int);
    }
}

/// The lowercase hexadecimal digit of a value below 16, as a one-character string.
fn hex_digit_str(n: u8) -> (r: &'static str)
    requires
        n < 16,
    ensures
        r@ == seq![hex_digit_spec(n) as char],
{
    if n == 0 {
        proof {
            reveal_strlit("0");
        }
        "0"
    } else if n == 1 {
        proof {
            reveal_strlit("1");
        }
        "1"
    } else if n == 2 {
        proof {
            reveal_strlit("2");
        }
        "2"
    } else if n == 3 {
        proof {
            reveal_strlit("3");
        }
        "3"
    } else if n == 4 {
        proof {
            reveal_strlit("4");
        }
        "4"
    } else if n == 5 {
        proof {
            reveal_strlit("5");
        }
        "5"
    } else if n == 6 {
        proof {
            reveal_strlit("6");
        }
        "6"
    } else if n == 7 {
        proof {
            reveal_strlit("7");
        }
        "7"
    } else if n == 8 {
        proof {
            reveal_strlit("8");
        }
        "8"
    } else if n == 9 {
        proof {
            reveal_strlit("9");
        }
        "9"
    } else if n == 10 {
        proof {
            reveal_strlit("a");
        }
        "a"
    } else if n == 11 {
        proof {
            reveal_strlit("b");
        }
        "b"
    } else if n == 12 {
        proof {
            reveal_strlit("c");
        }
        "c"
    } else if n == 13 {
        proof {
            reveal_strlit("d");
        }
        "d"
    } else if n == 14 {
        proof {
            reveal_strlit("e");
        }
        "e"
    } else {
        proof {
            reveal_strlit("f");
        }
        "f"
    }
}

/// 32 bytes as 64 lowercase hexadecimal digits.
pub fn hex32(bytes: [u8; 32]) -> (s: String)
    ensures
        s@ == hex_spec(bytes@),
{
    let mut out = String::new();
    let mut i: usize = 0;
    while i < 32
        invariant
            0 <= i <= 32,
            bytes@.len() == 32,
            out@ == hex_spec(bytes@).take(2 * i as int),
        decreases 32 - i,
    {
        let b: u8 = bytes[i];
        out.append(hex_digit_str(b / 16));
        out.append(hex_digit_str(b % 16));
        proof {
            let h = hex_spec(bytes@);
            assert(h[2 * i as int] == (hex_digit_spec(b / 16)) as char);
            assert(h[2 * i as int + 1] == (hex_digit_spec(b % 16)) as char);
            assert(out@ =~= h.take(2 * i as int + 2));
        }
        i = i + 1;
    }
    assert(hex_spec(bytes@).take(64) =~= hex_spec(bytes@));
    out
}

impl App {
    /// Records `entry` as the newest log entry, keeping at most `LOG_CAPACITY`.
    pub fn push_log(&mut self, entry: LogEntry)
        ensures
            final(self)@.log == log_push(old(self)@.log, entry),
            final(self).nodes@ == old(self).nodes@,
            final(self)@.queue == old(self)@.queue,
            final(self)@.selected == old(self)@.selected,
            final(self)@.tick == old(self)@.tick,
            final(self)@.partitioned == old(self)@.partitioned,
            final(self)@.loss_percent == old(self)@.loss_percent,
            final(self)@.delay_ticks == old(self)@.delay_ticks,
            old(self)@.wf() ==> final(self)@.wf(),
    {
        let ghost l = seq![entry] + self.log@;
        self.log.push_front(entry);
        while self.log.len() > LOG_CAPACITY
            invariant
                l.len() > LOG_CAPACITY ==> self.log@ == l.take(self.log@.len() as int)
                    && LOG_CAPACITY <= self.log@.len() <= l.len(),
                l.len() <= LOG_CAPACITY ==> self.log@ == l,
                self.nodes@ == old(self).nodes@,
                self.queue@ == old(self).queue@,
                self.selected == old(self).selected,
                self.tick == old(self).tick,
                self.partitioned == old(self).partitioned,
                self.loss_percent == old(self).loss_percent,
                self.delay_ticks == old(self).delay_ticks,
            decreases self.log@.len(),
        {
            let ghost before = self.log@;
            self.log.pop_back();
            proof {
                assert(self.log@ =~= l.take(before.len() - 1));
            }
        }
        proof {
            if l.len() > LOG_CAPACITY {
                assert(self.log@ =~= l.take(LOG_CAPACITY as int));
            }
        }
        proof {
            if old(self)@.wf() {
                assert(self@.nodes == old(self)@.nodes);
                assert(self@.queue == old(self)@.queue);
                assert forall|i: int| 0 <= i < self@.nodes.len() implies (#[trigger] self@.nodes[i]).rt.state.wf() by {
                    assert(old(self)@.nodes[i].rt.state.wf());
                }
            }
        }
    }

    /// Queues `msg` from `from` to `to`.
    pub fn enqueue(&mut self, from: usize, to: usize, msg: Message)
        ensures
            final(self)@.queue == old(self)@.queue.push((from, to, msg)),
            final(self).nodes@ == old(self).nodes@,
            final(self)@.log == old(self)@.log,
            final(self)@.selected == old(self)@.selected,
            final(self)@.tick == old(self)@.tick,
            final(self)@.partitioned == old(self)@.partitioned,
            final(self)@.loss_percent == old(self)@.loss_percent,
            final(self)@.delay_ticks == old(self)@.delay_ticks,
    {
        self.queue.push_back((from, to, msg));
    }

    /// Whether the network carries a message from `from` to `to`.
    pub fn can_deliver(&self, from: usize, to: usize) -> (r: bool)
        ensures
            r == can_deliver_spec(self.nodes@.len(), self.partitioned, from as nat, to as nat),
    {
        if !self.partitioned {
            return true;
        }
        let half: usize = self.nodes.len() / 2;
        let split: usize = if half == 0 { 1 } else { half };
        let a = from < split;
        let b = to < split;
        a == b
    }

    /// Queues the `kind` message from every node to every other node.
    fn broadcast(&mut self, kind: Gossip)
        ensures
            old(self)@.wf() ==> final(self)@.wf(),
            final(self)@.queue == old(self)@.queue + gossip_all(old(self)@.nodes, kind, old(self)@.nodes.len() as int),
            forall|x: int| old(self)@.queue.len() <= x < final(self)@.queue.len() ==> #[trigger] sender_message(
                old(self)@.nodes,
                kind,
                final(self)@.queue[x],
            ),
            forall|i: int, j: int| 0 <= i < old(self)@.nodes.len() && 0 <= j < old(self)@.nodes.len() && i != j
                ==> #[trigger] reaches(
                final(self)@.queue.subrange(old(self)@.queue.len() as int, final(self)@.queue.len() as int),
                i,
                j,
            ),
            forall|x: int, y: int| old(self)@.queue.len() <= x < y < final(self)@.queue.len() ==> #[trigger] final(self)@.queue[x]
                != #[trigger] final(self)@.queue[y],
            final(self).nodes@ == old(self).nodes@,
            final(self)@.log == old(self)@.log,
            final(self)@.selected == old(self)@.selected,
            final(self)@.tick == old(self)@.tick,
            final(self)@.partitioned == old(self)@.partitioned,
            final(self)@.loss_percent == old(self)@.loss_percent,
            final(self)@.delay_ticks == old(self)@.delay_ticks,
    {
        let ghost a0 = self@;
        let n: usize = self.nodes.len();
        let mut i: usize = 0;
        while i < n
            invariant
                n == self.nodes@.len(),
                self.nodes@ == old(self).nodes@,
                self@.nodes == a0.nodes,
                0 <= i <= n,
                self@.queue == a0.queue + gossip_all(a0.nodes, kind, i as int),
                self@.log == a0.log,
                self@.selected == a0.selected,
                self@.tick == a0.tick,
                self@.partitioned == a0.partitioned,
                self@.loss_percent == a0.loss_percent,
                self@.delay_ticks == a0.delay_ticks,
            decreases n - i,
        {
            let id = self.nodes[i].id;
            let accept = self.nodes[i].auto_accept;
            assert(id == a0.nodes[i as int].id && accept == a0.nodes[i as int].auto_accept);
            let ghost q_row_start = self@.queue;
            let mut j: usize = 0;
            while j < n
                invariant
                    n == self.nodes@.len(),
                    self.nodes@ == old(self).nodes@,
                    self@.nodes == a0.nodes,
                    0 <= i < n,
                    0 <= j <= n,
                    id == a0.nodes[i as int].id,
                    accept == a0.nodes[i as int].auto_accept,
                    q_row_start == a0.queue + gossip_all(a0.nodes, kind, i as int),
                    self@.queue == q_row_start + gossip_row(a0.nodes, kind, i as int, j as int),
                    self@.log == a0.log,
                    self@.selected == a0.selected,
                    self@.tick == a0.tick,
                    self@.partitioned == a0.partitioned,
                    self@.loss_percent == a0.loss_percent,
                    self@.delay_ticks == a0.delay_ticks,
                decreases n - j,
            {
                if i != j {
                    let msg = match kind {
                        Gossip::Hello => Message::Hello { node: id },
                        Gossip::Heartbeat => Message::Heartbeat { node: id },
                        Gossip::Vote(pid) => Message::Vote { from: id, vote: Vote { proposal_id: pid, accept } },
                    };
                    assert(msg == gossip_message(a0.nodes, i as int, kind));
                    self.enqueue(i, j, msg);
                }
                proof {
                    assert(self@.queue =~= q_row_start + gossip_row(a0.nodes, kind, i as int, j as int + 1));
                }
                j = j + 1;
            }
            proof {
                assert(self@.queue =~= a0.queue + gossip_all(a0.nodes, kind, i as int + 1));
            }
            i = i + 1;
        }
        proof {
            lemma_gossip_all_in_range(a0.nodes, kind, n as int);
            let g = gossip_all(a0.nodes, kind, n as int);
            law_broadcast_messages(a0.nodes, kind);
            assert forall|x: int| a0.queue.len() <= x < self@.queue.len() implies #[trigger] sender_message(
                a0.nodes,
                kind,
                self@.queue[x],
            ) by {
                assert(self@.queue[x] == g[x - a0.queue.len()]);
            }
            assert(self@.queue.subrange(a0.queue.len() as int, self@.queue.len() as int) =~= g);
            lemma_gossip_all_distinct(a0.nodes, kind, n as int);
            assert forall|x: int, y: int| a0.queue.len() <= x < y < self@.queue.len() implies #[trigger] self@.queue[x]
                != #[trigger] self@.queue[y] by {
                assert(self@.queue[x] == g[x - a0.queue.len()]);
                assert(self@.queue[y] == g[y - a0.queue.len()]);
            }
            assert forall|k: int| a0.wf() && 0 <= k < self@.queue.len() implies (#[trigger] self@.queue[k]).0 < self@.nodes.len()
                && self@.queue[k].1 < self@.nodes.len() by {
                if k >= a0.queue.len() {
                    assert(self@.queue[k] == g[k - a0.queue.len()]);
                }
            }
        }
    }

    /// Every node announces itself to every other node.
    pub fn bootstrap_gossip(&mut self)
        ensures
            old(self)@.wf() ==> final(self)@.wf(),
            final(self)@.queue == old(self)@.queue + gossip_all(old(self)@.nodes, Gossip::Hello, old(self)@.nodes.len() as int),
            final(self)@.log == log_push(old(self)@.log, LogEntry::Boot),
            final(self).nodes@ == old(self).nodes@,
            final(self)@.selected == old(self)@.selected,
            final(self)@.tick == old(self)@.tick,
            final(self)@.partitioned == old(self)@.partitioned,
            final(self)@.loss_percent == old(self)@.loss_percent,
            final(self)@.delay_ticks == old(self)@.delay_ticks,
    {
        self.broadcast(Gossip::Hello);
        self.push_log(LogEntry::Boot);
    }

    /// Every node sends a heartbeat to every other node.
    pub fn broadcast_heartbeat(&mut self)
        ensures
            old(self)@.wf() ==> final(self)@.wf(),
            final(self)@.queue == old(self)@.queue + gossip_all(old(self)@.nodes, Gossip::Heartbeat, old(self)@.nodes.len() as int),
            final(self)@.log == log_push(old(self)@.log, LogEntry::HeartbeatBroadcast),
            final(self).nodes@ == old(self).nodes@,
            final(self)@.selected == old(self)@.selected,
            final(self)@.tick == old(self)@.tick,
            final(self)@.partitioned == old(self)@.partitioned,
            final(self)@.loss_percent == old(self)@.loss_percent,
            final(self)@.delay_ticks == old(self)@.delay_ticks,
    {
        self.broadcast(Gossip::Heartbeat);
        self.push_log(LogEntry::HeartbeatBroadcast);
    }

    /// Flips node `idx`'s automatic vote between accepting and rejecting.
    pub fn toggle_policy(&mut self, idx: usize)
        requires
            idx < old(self)@.nodes.len(),
        ensures
            final(self)@.nodes == old(self)@.nodes.update(
                idx as int,
                NodeView { auto_accept: !old(self)@.nodes[idx as int].auto_accept, ..old(self)@.nodes[idx as int] },
            ),
            final(self)@.log == log_push(
                old(self)@.log,
                LogEntry::PolicyToggled { node: idx, auto_accept: !old(self)@.nodes[idx as int].auto_accept },
            ),
            final(self)@.queue == old(self)@.queue,
            final(self)@.selected == old(self)@.selected,
            final(self)@.tick == old(self)@.tick,
            final(self)@.partitioned == old(self)@.partitioned,
            final(self)@.loss_percent == old(self)@.loss_percent,
            final(self)@.delay_ticks == old(self)@.delay_ticks,
            old(self)@.wf() ==> final(self)@.wf(),
    {
        let flipped = !self.nodes[idx].auto_accept;
        self.nodes[idx].auto_accept = flipped;
        assert(self@.nodes =~= old(self)@.nodes.update(
            idx as int,
            NodeView { auto_accept: flipped, ..old(self)@.nodes[idx as int] },
        ));
        self.push_log(LogEntry::PolicyToggled { node: idx, auto_accept: flipped });
        proof {
            if old(self)@.wf() {
                assert forall|i: int| 0 <= i < self@.nodes.len() implies (#[trigger] self@.nodes[i]).rt.state.wf() by {
                    assert(self@.nodes[i].rt == old(self)@.nodes[i].rt);
                    assert(old(self)@.nodes[i].rt.state.wf());
                }
                assert(self@.nodes.len() == old(self)@.nodes.len());
                assert(self@.queue == old(self)@.queue);
            }
        }
    }

    /// Splits the network in two halves, or heals it.
    pub fn toggle_partition(&mut self)
        ensures
            final(self)@.partitioned == !old(self)@.partitioned,
            final(self)@.loss_percent == old(self)@.loss_percent,
            final(self)@.delay_ticks == old(self)@.delay_ticks,
            final(self)@.log == log_push(
                old(self)@.log,
                if !old(self)@.partitioned {
                    LogEntry::PartitionEnabled {
                        last_left: (split_point(old(self)@.nodes.len()) - 1) as usize,
                        split: split_point(old(self)@.nodes.len()) as usize,
                        last: if old(self)@.nodes.len() == 0 { 0 } else { (old(self)@.nodes.len() - 1) as usize },
                    }
                } else {
                    LogEntry::NetworkHealed
                },
            ),
            final(self).nodes@ == old(self).nodes@,
            final(self)@.queue == old(self)@.queue,
            final(self)@.selected == old(self)@.selected,
            final(self)@.tick == old(self)@.tick,
            old(self)@.wf() ==> final(self)@.wf(),
    {
        self.partitioned = !self.partitioned;
        proof {
            if old(self)@.wf() {
                assert(self@.nodes == old(self)@.nodes);
                assert(self@.queue == old(self)@.queue);
                assert forall|i: int| 0 <= i < self@.nodes.len() implies (#[trigger] self@.nodes[i]).rt.state.wf() by {
                    assert(old(self)@.nodes[i].rt.state.wf());
                }
            }
        }
        if self.partitioned {
            let n: usize = self.nodes.len();
            let half: usize = n / 2;
            let split: usize = if half == 0 { 1 } else { half };
            let last: usize = if n == 0 { 0 } else { n - 1 };
            self.push_log(LogEntry::PartitionEnabled { last_left: split - 1, split, last });
        } else {
            self.push_log(LogEntry::NetworkHealed);
        }
    }

    /// A network of one node per identity: node `i` has identity `ids[i]`, an
    /// empty state, and accepts automatically when `i` is even. Every node
    /// then announces itself to every other.
    pub fn with_ids(ids: Vec<NodeId>) -> (app: App)
        requires
            ids@.len() * 2 <= usize::MAX,
        ensures
            app@.wf(),
            app@.nodes.len() == ids@.len(),
            forall|i: int| 0 <= i < ids@.len() ==> (#[trigger] app@.nodes[i]) == (NodeView {
                id: ids@[i],
                rt: RuntimeView { node_id: ids@[i], state: crate::state::empty_state() },
                auto_accept: i % 2 == 0,
            }),
            app@.queue == gossip_all(app@.nodes, Gossip::Hello, ids@.len() as int),
            app@.log == seq![LogEntry::Boot],
            app@.selected == 0,
            app@.tick == 0,
            !app@.partitioned,
            app@.loss_percent == 0,
            app@.delay_ticks == 0,
    {
        let mut nodes: Vec<Node> = Vec::new();
        let mut i: usize = 0;
        while i < ids.len()
            invariant
                0 <= i <= ids@.len(),
                nodes@.len() == i,
                forall|k: int| 0 <= k < i ==> (#[trigger] nodes@[k])@ == (NodeView {
                    id: ids@[k],
                    rt: RuntimeView { node_id: ids@[k], state: crate::state::empty_state() },
                    auto_accept: k % 2 == 0,
                }),
            decreases ids@.len() - i,
        {
            let id = ids[i];
            let rt = Runtime::new(id);
            nodes.push(Node { id, rt, auto_accept: i % 2 == 0 });
            i = i + 1;
        }
        let mut app = App {
            nodes,
            queue: VecDeque::new(),
            log: VecDeque::new(),
            selected: 0,
            tick: 0,
            partitioned: false,
            loss_percent: 0,
            delay_ticks: 0,
        };
        assert(app@.wf());
        app.bootstrap_gossip();
        assert(app@.log =~= seq![LogEntry::Boot]);
        assert(app@.queue =~= gossip_all(app@.nodes, Gossip::Hello, ids@.len() as int));
        app
    }

    /// A network of `n` nodes with random identities (see [`App::with_ids`]).
    pub fn new(n: usize) -> (app: App)
        requires
            n * 2 <= usize::MAX,
        ensures
            app@.wf(),
            app@.nodes.len() == n,
            forall|i: int| 0 <= i < n ==> (#[trigger] app@.nodes[i]).rt == (RuntimeView {
                node_id: app@.nodes[i].id,
                state: crate::state::empty_state(),
            }) && app@.nodes[i].auto_accept == (i % 2 == 0),
            app@.queue == gossip_all(app@.nodes, Gossip::Hello, n as int),
            app@.log == seq![LogEntry::Boot],
            app@.selected == 0,
            app@.tick == 0,
            !app@.partitioned,
            app@.loss_percent == 0,
            app@.delay_ticks == 0,
    {
        let mut ids: Vec<NodeId> = Vec::new();
        let mut i: usize = 0;
        while i < n
            invariant
                0 <= i <= n,
                ids@.len() == i,
            decreases n - i,
        {
            ids.push(NodeId::random());
            i = i + 1;
        }
        let app = App::with_ids(ids);
        assert forall|i: int| 0 <= i < n implies (#[trigger] app@.nodes[i]).rt == (RuntimeView {
            node_id: app@.nodes[i].id,
            state: crate::state::empty_state(),
        }) && app@.nodes[i].auto_accept == (i % 2 == 0) by {
            assert(app@.nodes[i].id == ids@[i]);
        }
        app
    }

    /// Node `proposer` sends the feature proposal `pid` to every node,
    /// itself included.
    pub fn submit_proposal_by(&mut self, proposer: usize, pid: ProposalId)
        requires
            proposer < old(self)@.nodes.len(),
        ensures
            old(self)@.wf() ==> final(self)@.wf(),
            proposal_sent(old(self)@.queue, final(self)@.queue, old(self)@.nodes.len(), proposer, pid),
            final(self)@.log == log_push(old(self)@.log, LogEntry::ProposalSubmitted { id: pid, proposer }),
            final(self).nodes@ == old(self).nodes@,
            final(self)@.selected == old(self)@.selected,
            final(self)@.tick == old(self)@.tick,
            final(self)@.partitioned == old(self)@.partitioned,
            final(self)@.loss_percent == old(self)@.loss_percent,
            final(self)@.delay_ticks == old(self)@.delay_ticks,
    {
        let ghost q0 = self@.queue;
        let p = Proposal::with_id(pid, "enable_feature", vstd::slice::slice_to_vec("spectacular_syscall".as_bytes()));
        let n: usize = self.nodes.len();
        let mut i: usize = 0;
        assert(q0.take(q0.len() as int) =~= q0);
        while i < n
            invariant
                n == self.nodes@.len(),
                self.nodes@ == old(self).nodes@,
                0 <= i <= n,
                proposer < n,
                is_feature_proposal(p, pid),
                proposal_sent(q0, self@.queue, i as nat, proposer, pid),
                q0 == old(self)@.queue,
                self@.log == old(self)@.log,
                self@.selected == old(self)@.selected,
                self@.tick == old(self)@.tick,
                self@.partitioned == old(self)@.partitioned,
                self@.loss_percent == old(self)@.loss_percent,
                self@.delay_ticks == old(self)@.delay_ticks,
            decreases n - i,
        {
            let ghost before = self@.queue;
            let q = copy_proposal(&p);
            self.enqueue(proposer, i, Message::Proposal(q));
            proof {
                assert(self@.queue.take(q0.len() as int) =~= before.take(q0.len() as int));
                assert forall|k: int| 0 <= k < i + 1 implies {
                    let e = #[trigger] self@.queue[q0.len() + k];
                    &&& e.0 == proposer
                    &&& e.1 == k
                    &&& e.2 matches Message::Proposal(q) && is_feature_proposal(q, pid)
                } by {
                    if k < i {
                        assert(self@.queue[q0.len() + k] == before[q0.len() + k]);
                    }
                }
            }
            i = i + 1;
        }
        proof {
            assert forall|k: int| old(self)@.wf() && 0 <= k < self@.queue.len() implies (#[trigger] self@.queue[k]).0 < self@.nodes.len()
                && self@.queue[k].1 < self@.nodes.len() by {
                if k < q0.len() {
                    assert(self@.queue.take(q0.len() as int)[k] == self@.queue[k]);
                } else {
                    assert(self@.queue[q0.len() + (k - q0.len())] == self@.queue[k]);
                }
            }
        }
        self.push_log(LogEntry::ProposalSubmitted { id: pid, proposer });
    }

    /// A random node sends a new feature proposal, with a random id, to
    /// every node (see [`App::submit_proposal_by`]).
    pub fn submit_random_proposal(&mut self)
        requires
            old(self)@.nodes.len() > 0,
        ensures
            old(self)@.wf() ==> final(self)@.wf(),
            final(self)@.log.len() > 0,
            final(self)@.log[0] matches LogEntry::ProposalSubmitted { id, proposer }
                && proposer < old(self)@.nodes.len()
                && proposal_sent(old(self)@.queue, final(self)@.queue, old(self)@.nodes.len(), proposer, id)
                && final(self)@.log == log_push(old(self)@.log, LogEntry::ProposalSubmitted { id, proposer }),
            final(self).nodes@ == old(self).nodes@,
            final(self)@.selected == old(self)@.selected,
            final(self)@.tick == old(self)@.tick,
            final(self)@.partitioned == old(self)@.partitioned,
            final(self)@.loss_percent == old(self)@.loss_percent,
            final(self)@.delay_ticks == old(self)@.delay_ticks,
    {
        let proposer: usize = random_index(self.nodes.len());
        let pid = ProposalId::random();
        self.submit_proposal_by(proposer, pid);
    }

    /// Records an entry for each event that node `node` emitted, in order.
    fn log_events(&mut self, node: usize, events: &Vec<RuntimeEvent>)
        ensures
            final(self)@.log == log_push_all(old(self)@.log, event_entries(node, events@)),
            final(self).nodes@ == old(self).nodes@,
            final(self)@.queue == old(self)@.queue,
            final(self)@.selected == old(self)@.selected,
            final(self)@.tick == old(self)@.tick,
            final(self)@.partitioned == old(self)@.partitioned,
            final(self)@.loss_percent == old(self)@.loss_percent,
            final(self)@.delay_ticks == old(self)@.delay_ticks,
    {
        let mut k: usize = 0;
        while k < events.len()
            invariant
                0 <= k <= events@.len(),
                self@.log == log_push_all(old(self)@.log, event_entries(node, events@.take(k as int))),
                self.nodes@ == old(self).nodes@,
                self@.queue == old(self)@.queue,
                self@.selected == old(self)@.selected,
                self@.tick == old(self)@.tick,
                self@.partitioned == old(self)@.partitioned,
                self@.loss_percent == old(self)@.loss_percent,
                self@.delay_ticks == old(self)@.delay_ticks,
            decreases events@.len() - k,
        {
            let e = events[k];
            self.push_log(LogEntry::Event { node, event: e });
            proof {
                let es = event_entries(node, events@.take(k as int + 1));
                assert(es.drop_last() =~= event_entries(node, events@.take(k as int)));
                assert(es.last() == LogEntry::Event { node, event: e });
            }
            k = k + 1;
        }
        assert(events@.take(events@.len() as int) =~= events@);
    }

    /// Delivers (or drops) the first queued message.
    fn deliver_next(&mut self, roll: u64)
        requires
            old(self)@.wf(),
            old(self)@.queue.len() > 0,
        ensures
            final(self)@.wf(),
            final(self)@ == deliver_one(old(self)@, roll),
    {
        let ghost a = self@;
        match self.queue.pop_front() {
            Some((from, to, msg)) => {
                assert(from < self.nodes@.len() && to < self.nodes@.len());
                if !self.can_deliver(from, to) {
                    self.push_log(LogEntry::Dropped { from, to });
                    proof {
                        assert(self@ == deliver_one(a, roll));
                    }
                } else if roll < self.loss_percent {
                    self.push_log(LogEntry::Lost { from, to });
                    proof {
                        assert(self@ == deliver_one(a, roll));
                    }
                } else {
                    let ghost node = a.nodes[to as int];
                    proof {
                        law_apply_preserves_wf(node.rt.state, msg);
                    }
                    let events = self.nodes[to].rt.apply(msg);
                    proof {
                        assert(self@.nodes =~= a.nodes.update(
                            to as int,
                            NodeView { rt: RuntimeView { state: apply_spec(node.rt.state, msg).0, ..node.rt }, ..node },
                        ));
                    }
                    self.log_events(to, &events);
                }
                proof {
                    assert(self@.queue =~= a.queue.drop_first());
                    assert forall|k: int| 0 <= k < self@.queue.len() implies (#[trigger] self@.queue[k]).0 < self@.nodes.len()
                        && self@.queue[k].1 < self@.nodes.len() by {
                        assert(self@.queue[k] == a.queue[k + 1]);
                    }
                }
            },
            None => {},
        }
    }

    /// For every proposal that the first node knowing it holds pending,
    /// every node sends its vote, as its policy says, to every other node.
    pub fn auto_vote(&mut self)
        requires
            old(self)@.replicas_wf(),
        ensures
            old(self)@.wf() ==> final(self)@.wf(),
            final(self)@.queue == old(self)@.queue + auto_votes(old(self)@.nodes),
            forall|x: int| old(self)@.queue.len() <= x < final(self)@.queue.len() ==> #[trigger] vote_on_pending(
                old(self)@.nodes,
                final(self)@.queue[x],
            ),
            forall|pid: ProposalId, a: int, i: int, j: int|
                #[trigger] first_holder(old(self)@.nodes, pid, a) && old(self)@.nodes[a].rt.state.decision_of(pid) == Some(
                    Decision::Pending,
                ) && 0 <= i < old(self)@.nodes.len() && 0 <= j < old(self)@.nodes.len() && i != j ==> #[trigger] final(self)@.queue.subrange(old(self)@.queue.len() as int, final(self)@.queue.len() as int).contains(
                    (
                        i as usize,
                        j as usize,
                        Message::Vote {
                            from: old(self)@.nodes[i].id,
                            vote: Vote { proposal_id: pid, accept: old(self)@.nodes[i].auto_accept },
                        },
                    ),
                ),
            forall|x: int, y: int| old(self)@.queue.len() <= x < y < final(self)@.queue.len() ==> #[trigger] final(self)@.queue[x]
                != #[trigger] final(self)@.queue[y],
            final(self).nodes@ == old(self).nodes@,
            final(self)@.log == old(self)@.log,
            final(self)@.selected == old(self)@.selected,
            final(self)@.tick == old(self)@.tick,
            final(self)@.partitioned == old(self)@.partitioned,
            final(self)@.loss_percent == old(self)@.loss_percent,
            final(self)@.delay_ticks == old(self)@.delay_ticks,
    {
        let ghost a = self@;
        let n: usize = self.nodes.len();
        let mut seen: Vec<(ProposalId, Decision)> = Vec::new();
        let mut i: usize = 0;
        while i < n
            invariant
                n == a.nodes.len(),
                self@ == a,
                a.replicas_wf(),
                0 <= i <= n,
                seen@ == first_seen(a.nodes, i as int),
            decreases n - i,
        {
            let st = self.nodes[i].rt.state();
            let ghost sv = a.nodes[i as int].rt.state;
            assert(st@ == sv);
            assert(sv.wf());
            let props = st.proposals();
            let mut m: usize = 0;
            while m < props.len()
                invariant
                    n == a.nodes.len(),
                    self@ == a,
                    0 <= i < n,
                    st@ == sv,
                    sv.wf(),
                    props@ == sv.proposals,
                    0 <= m <= props@.len(),
                    seen@ == seen_in(first_seen(a.nodes, i as int), sv, m as int),
                decreases props@.len() - m,
            {
                let pid = props[m].id;
                let d = match st.decision(pid) {
                    Some(d) => d,
                    None => Decision::Pending,
                };
                if !seen_contains(&seen, &pid) {
                    seen.push((pid, d));
                }
                m = m + 1;
            }
            i = i + 1;
        }
        let ghost seen_all = seen@;
        let mut k: usize = 0;
        while k < seen.len()
            invariant
                seen@ == seen_all,
                seen_all == first_seen(a.nodes, a.nodes.len() as int),
                self.nodes@ == old(self).nodes@,
                self@.nodes == a.nodes,
                a.wf() ==> self@.wf(),
                0 <= k <= seen@.len(),
                self@.queue == a.queue + pending_votes(a.nodes, seen_all, k as int),
                self@.log == a.log,
                self@.selected == a.selected,
                self@.tick == a.tick,
                self@.partitioned == a.partitioned,
                self@.loss_percent == a.loss_percent,
                self@.delay_ticks == a.delay_ticks,
            decreases seen@.len() - k,
        {
            let (pid, d) = seen[k];
            if d == Decision::Pending {
                self.broadcast(Gossip::Vote(pid));
            }
            proof {
                assert(self@.queue =~= a.queue + pending_votes(a.nodes, seen_all, k as int + 1));
            }
            k = k + 1;
        }
        proof {
            law_auto_votes(a.nodes);
            let added = auto_votes(a.nodes);
            assert(self@.queue.subrange(a.queue.len() as int, self@.queue.len() as int) =~= added);
            assert forall|x: int| a.queue.len() <= x < self@.queue.len() implies #[trigger] vote_on_pending(
                a.nodes,
                self@.queue[x],
            ) by {
                assert(self@.queue[x] == added[x - a.queue.len()]);
            }
            assert forall|x: int, y: int| a.queue.len() <= x < y < self@.queue.len() implies #[trigger] self@.queue[x]
                != #[trigger] self@.queue[y] by {
                assert(self@.queue[x] == added[x - a.queue.len()]);
                assert(self@.queue[y] == added[y - a.queue.len()]);
            }
        }
    }

    /// Advances the simulation by one tick (see [`step_spec`]).
    pub fn step(&mut self)
        requires
            old(self)@.wf(),
        ensures
            final(self)@.wf(),
            exists|rolls: Seq<u64>| {
                &&& rolls.len() == delivery_budget(old(self)@.nodes.len())
                &&& forall|i: int| 0 <= i < rolls.len() ==> #[trigger] rolls[i] < 100
                &&& final(self)@ == step_spec(old(self)@, rolls)
            },
    {
        let n: usize = self.nodes.len();
        let budget: usize = if n == 0 { 1 } else { n * 2 };
        let mut rolls: Vec<u64> = Vec::new();
        let mut i: usize = 0;
        while i < budget
            invariant
                0 <= i <= budget,
                rolls@.len() == i,
                forall|k: int| 0 <= k < i ==> #[trigger] rolls@[k] < 100,
            decreases budget - i,
        {
            let r: usize = random_index(100);
            rolls.push(r as u64);
            i = i + 1;
        }
        self.step_with(&rolls);
    }

    /// Advances the simulation by one tick, with `rolls` as the packet-loss
    /// draws, one per message that may be taken off the queue (see [`step_spec`]).
    pub fn step_with(&mut self, rolls: &Vec<u64>)
        requires
            old(self)@.wf(),
            rolls@.len() >= delivery_budget(old(self)@.nodes.len()),
        ensures
            final(self)@.wf(),
            final(self)@ == step_spec(old(self)@, rolls@),
    {
        let ghost a = self@;
        self.tick = self.tick.saturating_add(1);
        let ghost a1 = self@;
        assert(a1 == AppView { tick: if a.tick == u64::MAX { a.tick } else { (a.tick + 1) as u64 }, ..a });
        let n: usize = self.nodes.len();
        if delivery_due(self.tick, self.delay_ticks) {
            let deliver_max: usize = if n == 0 { 1 } else { n * 2 };
            let mut t: usize = 0;
            while t < deliver_max && self.queue.len() > 0
                invariant
                    0 <= t <= deliver_max,
                    deliver_max == delivery_budget(a.nodes.len()),
                    rolls@.len() >= deliver_max,
                    self@ == deliver(a1, rolls@, t as nat),
                    self@.wf(),
                    self@.nodes.len() == n,
                decreases deliver_max - t,
            {
                self.deliver_next(rolls[t]);
                t = t + 1;
            }
            proof {
                if t < deliver_max {
                    lemma_deliver_stable(a1, rolls@, t as nat, deliver_max as nat);
                }
            }
        }
        if self.tick % 10 == 0 {
            self.broadcast_heartbeat();
        }
        if self.tick % 3 == 0 {
            self.auto_vote();
        }
    }

    /// Moves the packet-loss rate to the next in its cycle (0, 10, 30, 50 percent).
    pub fn cycle_loss(&mut self)
        ensures
            final(self)@ == cycle_loss_spec(old(self)@),
            old(self)@.wf() ==> final(self)@.wf(),
    {
        let percent: u64 = next_loss(self.loss_percent);
        self.loss_percent = percent;
        proof {
            if old(self)@.wf() {
                assert(self@.nodes == old(self)@.nodes);
                assert(self@.queue == old(self)@.queue);
                assert forall|i: int| 0 <= i < self@.nodes.len() implies (#[trigger] self@.nodes[i]).rt.state.wf() by {
                    assert(old(self)@.nodes[i].rt.state.wf());
                }
            }
        }
        self.push_log(LogEntry::LossRateSet { percent });
    }

    /// Moves the delivery delay to the next in its cycle (0, 1, 2, 4 ticks).
    pub fn cycle_delay(&mut self)
        ensures
            final(self)@ == cycle_delay_spec(old(self)@),
            old(self)@.wf() ==> final(self)@.wf(),
    {
        let ticks: u64 = next_delay(self.delay_ticks);
        self.delay_ticks = ticks;
        proof {
            if old(self)@.wf() {
                assert(self@.nodes == old(self)@.nodes);
                assert(self@.queue == old(self)@.queue);
                assert forall|i: int| 0 <= i < self@.nodes.len() implies (#[trigger] self@.nodes[i]).rt.state.wf() by {
                    assert(old(self)@.nodes[i].rt.state.wf());
                }
            }
        }
        self.push_log(LogEntry::DelaySet { ticks });
    }

    /// Acts on a key pressed on the dashboard; returns whether to quit.
    pub fn handle_key(&mut self, key: Key) -> (quit: bool)
        requires
            old(self)@.wf(),
            old(self)@.selected < old(self)@.nodes.len(),
        ensures
            quit == (key == Key::Quit),
            final(self)@.wf(),
            final(self)@.selected < final(self)@.nodes.len(),
            match key {
                Key::Quit => final(self)@ == old(self)@,
                Key::Other => final(self)@ == old(self)@,
                Key::Left => final(self)@ == (AppView { selected: select_left(old(self)@.selected), ..old(self)@ }),
                Key::Right => final(self)@ == (AppView {
                    selected: select_right(old(self)@.selected, old(self)@.nodes.len()),
                    ..old(self)@
                }),
                Key::Propose => random_proposal_sent(old(self)@, final(self)@),
                Key::Heartbeat => final(self)@ == heartbeat_spec(old(self)@),
                Key::TogglePolicy => final(self)@ == toggle_policy_spec(old(self)@, old(self)@.selected),
                Key::TogglePartition => final(self)@ == toggle_partition_spec(old(self)@),
                Key::CycleLoss => final(self)@ == cycle_loss_spec(old(self)@),
                Key::CycleDelay => final(self)@ == cycle_delay_spec(old(self)@),
            },
    {
        match key {
            Key::Quit => {
                return true;
            },
            Key::Left => {
                if self.selected > 0 {
                    self.selected = self.selected - 1;
                }
            },
            Key::Right => {
                if self.selected + 1 < self.nodes.len() {
                    self.selected = self.selected + 1;
                }
            },
            Key::Propose => {
                self.submit_random_proposal();
            },
            Key::Heartbeat => {
                self.broadcast_heartbeat();
            },
            Key::TogglePolicy => {
                let idx: usize = self.selected;
                self.toggle_policy(idx);
            },
            Key::TogglePartition => {
                self.toggle_partition();
            },
            Key::CycleLoss => {
                self.cycle_loss();
            },
            Key::CycleDelay => {
                self.cycle_delay();
            },
            Key::Other => {},
        }
        false
    }

    /// The proposals that the selected node knows, first ones in order of
    /// id, at most `LAWS_SHOWN`, each with its decision.
    pub fn selected_laws(&self) -> (r: Vec<(ProposalId, Decision)>)
        requires
            self@.selected < self@.nodes.len(),
            self@.replicas_wf(),
        ensures
            r@ == laws_listed(self@.nodes[self@.selected as int].rt.state),
            r@.len() == if self@.nodes[self@.selected as int].rt.state.proposals.len() < LAWS_SHOWN {
                self@.nodes[self@.selected as int].rt.state.proposals.len()
            } else {
                LAWS_SHOWN as nat
            },
            forall|k: int| 0 <= k < r@.len() ==> {
                let st = self@.nodes[self@.selected as int].rt.state;
                &&& (#[trigger] r@[k]).0 == st.proposals[k].id
                &&& st.decision_of(r@[k].0) == Some(r@[k].1)
            },
    {
        let st = self.nodes[self.selected].rt.state();
        let ghost sv = self@.nodes[self@.selected as int].rt.state;
        assert(sv.wf());
        let props = st.proposals();
        let mut out: Vec<(ProposalId, Decision)> = Vec::new();
        let mut m: usize = 0;
        while m < props.len() && out.len() < LAWS_SHOWN
            invariant
                st@ == sv,
                sv.wf(),
                props@ == sv.proposals,
                0 <= m <= props@.len(),
                out@.len() == m,
                m <= LAWS_SHOWN,
                forall|k: int| 0 <= k < m ==> #[trigger] out@[k] == laws_listed(sv)[k],
            decreases props@.len() - m,
        {
            let pid = props[m].id;
            let d = match st.decision(pid) {
                Some(d) => d,
                None => Decision::Pending,
            };
            out.push((pid, d));
            m = m + 1;
        }
        assert(out@ =~= laws_listed(sv));
        proof {
            law_listed_laws_are_held(sv);
        }
        out
    }
}

} // verus!
