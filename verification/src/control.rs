//! The controller-facing boundary: the interface a simulation controller
//! implements to observe and steer the mesh. Commands to drones and events
//! from nodes live in `crate::drone`.

use vstd::prelude::*;
use crate::routing::NodeId;
use crate::topology::NodeType;

verus! {

/// What a controller must offer the mesh: it can be told of a crash, asked
/// to spawn a node, and notified of a delivered message. An external
/// collaborator boundary — implementations live outside the protocol core,
/// so nothing is promised of them.
pub trait SimulationController {
    fn crash(&mut self, crashed: &str);

    fn spawn_node(&mut self, node_id: NodeId, node_type: NodeType);

    fn message_sent(source: &str, target: &str);
}

} // verus!
