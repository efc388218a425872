//! A simulated packet-relay mesh: endpoint nodes exchange application
//! messages through relay drones that forward packets along an explicit,
//! sender-chosen path. The crate holds the protocol core: source-routed
//! forwarding with per-hop validation, flood-based topology discovery,
//! fragment-level acknowledgement with retransmission, and message
//! fragmentation and reassembly.

pub mod codec;
pub mod config;
pub mod control;
pub mod drone;
pub mod message;
pub mod packet;
pub mod reliability;
pub mod routing;
pub mod topology;
