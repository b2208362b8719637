//! Deterministic core of a network-native micronation: identities, proposals,
//! votes, a majority vote rule and a replicated state machine driven by
//! messages, with an in-process network of citizens built on it.

pub mod boot;
pub mod consensus;
pub mod error;
pub mod laws;
pub mod live;
pub mod ordered;
pub mod state;
pub mod types;

pub use boot::AntennaInitStage;
pub use consensus::{Decision, VoteRule};
pub use error::{Error, Result, Transport};
pub use state::{GlobalState, Runtime, RuntimeEvent};
pub use types::{Message, NodeId, Proposal, ProposalId, Vote};
