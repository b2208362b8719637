//! Deriving a decision on a proposal from the votes cast on it.

use vstd::prelude::*;
use crate::types::{proposal_id_eq, ProposalId, Vote};

verus! {

/// The state of a proposal under a vote rule.
#[derive(Clone, Copy, Debug, PartialEq, Eq, Structural)]
pub enum Decision {
    Pending,
    Accepted,
    Rejected,
}

/// How votes turn into a decision.
#[derive(Clone, Debug)]
pub enum VoteRule {
    /// More than half of the eligible voters decide.
    SimpleMajority,
}

/// Number of votes in `votes` on `pid` whose choice is `accept`.
pub open spec fn count_votes(votes: Seq<Vote>, pid: ProposalId, accept: bool) -> nat
    decreases votes.len(),
{
    if votes.len() == 0 {
        0
    } else {
        count_votes(votes.drop_last(), pid, accept) + if votes.last().proposal_id == pid
            && votes.last().accept == accept {
            1nat
        } else {
            0nat
        }
    }
}

/// The count of matching votes never exceeds the number of votes.
pub proof fn lemma_count_votes_bounded(votes: Seq<Vote>, pid: ProposalId, accept: bool)
    ensures
        count_votes(votes, pid, accept) <= votes.len(),
    decreases votes.len(),
{
    if votes.len() > 0 {
        lemma_count_votes_bounded(votes.drop_last(), pid, accept);
    }
}

/// Simple majority: accepted when more than half of `eligible` accept,
/// else rejected when more than half reject, else pending.
pub open spec fn majority(accept: nat, reject: nat, eligible: nat) -> Decision {
    if accept > eligible / 2 {
        Decision::Accepted
    } else if reject > eligible / 2 {
        Decision::Rejected
    } else {
        Decision::Pending
    }
}

/// The decision on `pid` that `votes` give among `eligible` voters.
pub open spec fn decide_spec(pid: ProposalId, votes: Seq<Vote>, eligible: nat) -> Decision {
    majority(count_votes(votes, pid, true), count_votes(votes, pid, false), eligible)
}

impl VoteRule {
    /// Counts the votes on `proposal_id` (ignoring votes on other proposals)
    /// and applies the rule among `eligible` voters.
    pub fn decide(&self, proposal_id: ProposalId, votes: &[Vote], eligible: usize) -> (d: Decision)
        ensures
            d == decide_spec(proposal_id, votes@, eligible as nat),
    {
        let mut accept: usize = 0;
        let mut reject: usize = 0;
        let mut i: usize = 0;
        while i < votes.len()
            invariant
                0 <= i <= votes@.len(),
                accept == count_votes(votes@.take(i as int), proposal_id, true),
                reject == count_votes(votes@.take(i as int), proposal_id, false),
            decreases votes@.len() - i,
        {
            proof {
                assert(votes@.take(i as int + 1).drop_last() =~= votes@.take(i as int));
                lemma_count_votes_bounded(votes@.take(i as int), proposal_id, true);
                lemma_count_votes_bounded(votes@.take(i as int), proposal_id, false);
            }
            let v = &votes[i];
            if proposal_id_eq(&v.proposal_id, &proposal_id) {
                if v.accept {
                    accept = accept + 1;
                } else {
                    reject = reject + 1;
                }
            }
            i = i + 1;
        }
        assert(votes@.take(votes@.len() as int) =~= votes@);
        match self {
            VoteRule::SimpleMajority => {
                if accept > eligible / 2 {
                    Decision::Accepted
                } else if reject > eligible / 2 {
                    Decision::Rejected
                } else {
                    Decision::Pending
                }
            },
        }
    }
}

} // verus!
