//! The antenna's boot stage: bring up this node's replica and announce it.

use vstd::prelude::*;
use crate::state::{apply_spec, empty_state, Runtime, RuntimeEvent};
use crate::types::{Message, NodeId};

verus! {

/// Boot stage that initialises the antenna's runtime.
pub struct AntennaInitStage;

impl AntennaInitStage {
    /// The stage's name.
    pub fn name(&self) -> (r: &'static str)
        ensures
            r@ == "antenna.init"@,
    {
        "antenna.init"
    }

    /// The stage's work: a runtime for the node whose identity is 32 bytes of
    /// 1, which has applied its own `Hello`; also the events that this emitted.
    pub fn run(&self) -> (r: (Runtime, Vec<RuntimeEvent>))
        ensures
            r.0.wf(),
            r.0@.node_id.0@ == Seq::new(32, |i: int| 1u8),
            (r.0@.state, r.1@) == apply_spec(empty_state(), Message::Hello { node: r.0@.node_id }),
    {
        let node_id = NodeId::new([1u8; 32]);
        let mut rt = Runtime::new(node_id);
        let events = rt.apply(Message::Hello { node: node_id });
        (rt, events)
    }
}

} // verus!
