//! The wire unit of the mesh: a packet is a fragment, an acknowledgement, a
//! negative acknowledgement, or a flood-discovery message, together with a
//! source-routing header and a session id.

use vstd::prelude::*;
use crate::routing::{NodeId, SourceRoutingHeader};

verus! {

/// Greatest number of payload bytes one fragment may carry.
pub const FRAGMENT_CAPACITY: u8 = 80;

/// The atomic unit placed on a link.
#[derive(Clone, Debug)]
pub struct Packet {
    pub pack_type: PacketType,
    pub routing_header: SourceRoutingHeader,
    /// Scopes fragments, acks and nacks to one logical message exchange;
    /// unique per originator for the message's lifetime.
    pub session_id: u64,
}

#[derive(Clone, Debug)]
pub enum PacketType {
    MsgFragment(Fragment),
    Nack(Nack),
    Ack(Ack),
    FloodRequest(FloodRequest),
    FloodResponse(FloodResponse),
}

/// Reports inability to deliver one fragment. `fragment_index` is 0 when the
/// rejected unit was not itself a fragment.
#[derive(Clone, Copy, Debug)]
pub struct Nack {
    pub fragment_index: u64,
    pub nack_type: NackType,
}

#[derive(Clone, Copy, Debug, PartialEq, Eq, Structural)]
pub enum NackType {
    /// The named node is not a connected neighbor of the reporting node.
    ErrorInRouting(NodeId),
    /// A fragment path ends at a relay, where no application can terminate.
    DestinationIsDrone,
    /// The fragment was discarded by drop-rate sampling.
    Dropped,
    /// The packet arrived at the named node, which the header did not name
    /// as the current hop.
    UnexpectedRecipient(NodeId),
}

/// Acknowledges exactly one fragment.
#[derive(Clone, Copy, Debug)]
pub struct Ack {
    pub fragment_index: u64,
}

/// One bounded-size chunk of a serialized message.
#[derive(Clone, Copy, Debug)]
pub struct Fragment {
    pub fragment_index: u64,
    pub total_n_fragments: u64,
    pub data: FragmentData,
}

/// The fixed-size payload buffer of a fragment: `length` bytes are in use,
/// the rest is padding.
#[derive(Clone, Copy, Debug)]
pub struct FragmentData {
    pub length: u8,
    pub data: [u8; 80],
}

impl FragmentData {
    pub open spec fn well_formed(self) -> bool {
        self.length <= FRAGMENT_CAPACITY
    }

    /// The bytes in use, without the padding.
    pub open spec fn payload(self) -> Seq<u8>
        recommends
            self.well_formed(),
    {
        self.data@.take(self.length as int)
    }
}

impl Fragment {
    pub open spec fn well_formed(self) -> bool {
        &&& self.data.well_formed()
        &&& self.fragment_index < self.total_n_fragments
    }

    pub open spec fn payload(self) -> Seq<u8> {
        self.data.payload()
    }
}

/// The kind of a node as it appears in a flood path trace.
#[derive(Clone, Copy, Debug, PartialEq, Eq, Structural)]
pub enum NodeType {
    Client,
    Drone,
    Server,
}

/// One round of flood-based topology discovery, identified by
/// `(flood_id, initiator_id)`.
#[derive(Clone, Debug)]
pub struct FloodRequest {
    pub flood_id: u64,
    pub initiator_id: NodeId,
    /// Remaining discovery radius; a relay that receives the request with
    /// `ttl == 0` answers instead of forwarding it further.
    pub ttl: u8,
    /// The nodes the request has visited, in visiting order, beginning with
    /// the initiator.
    pub path_trace: Vec<(NodeId, NodeType)>,
}

/// The answer to a flood request, routed back along the reversed trace.
#[derive(Clone, Debug)]
pub struct FloodResponse {
    pub flood_id: u64,
    pub path_trace: Vec<(NodeId, NodeType)>,
}

/// A copy of a path trace, equal to the original element for element.
pub fn clone_trace(v: &Vec<(NodeId, NodeType)>) -> (r: Vec<(NodeId, NodeType)>)
    ensures
        r@ == v@,
{
    let mut r: Vec<(NodeId, NodeType)> = Vec::new();
    let mut i: usize = 0;
    while i < v.len()
        invariant
            i <= v.len(),
            r@ == v@.take(i as int),
        decreases v.len() - i,
    {
        r.push(v[i]);
        proof {
            assert(r@ =~= v@.take(i + 1 as int));
        }
        i = i + 1;
    }
    proof {
        assert(v@.take(v@.len() as int) =~= v@);
    }
    r
}

/// Whether two packet bodies carry the same information, field for field.
pub open spec fn spec_same_pack_type(a: PacketType, b: PacketType) -> bool {
    match (a, b) {
        (PacketType::MsgFragment(x), PacketType::MsgFragment(y)) => x == y,
        (PacketType::Nack(x), PacketType::Nack(y)) => x == y,
        (PacketType::Ack(x), PacketType::Ack(y)) => x == y,
        (PacketType::FloodRequest(x), PacketType::FloodRequest(y)) => {
            &&& x.flood_id == y.flood_id
            &&& x.initiator_id == y.initiator_id
            &&& x.ttl == y.ttl
            &&& x.path_trace@ == y.path_trace@
        },
        (PacketType::FloodResponse(x), PacketType::FloodResponse(y)) => {
            &&& x.flood_id == y.flood_id
            &&& x.path_trace@ == y.path_trace@
        },
        _ => false,
    }
}

/// A copy of a packet body, carrying the same information.
pub fn clone_pack_type(p: &PacketType) -> (r: PacketType)
    ensures
        spec_same_pack_type(*p, r),
{
    match p {
        PacketType::MsgFragment(f) => PacketType::MsgFragment(*f),
        PacketType::Nack(n) => PacketType::Nack(*n),
        PacketType::Ack(a) => PacketType::Ack(*a),
        PacketType::FloodRequest(q) => PacketType::FloodRequest(
            FloodRequest {
                flood_id: q.flood_id,
                initiator_id: q.initiator_id,
                ttl: q.ttl,
                path_trace: clone_trace(&q.path_trace),
            },
        ),
        PacketType::FloodResponse(q) => PacketType::FloodResponse(
            FloodResponse { flood_id: q.flood_id, path_trace: clone_trace(&q.path_trace) },
        ),
    }
}

/// Whether the trace already names the given node.
pub open spec fn spec_trace_contains(trace: Seq<(NodeId, NodeType)>, id: NodeId) -> bool {
    exists|i: int| 0 <= i < trace.len() && trace[i].0 == id
}

pub fn trace_contains(trace: &Vec<(NodeId, NodeType)>, id: NodeId) -> (r: bool)
    ensures
        r == spec_trace_contains(trace@, id),
{
    let mut i: usize = 0;
    while i < trace.len()
        invariant
            i <= trace.len(),
            forall|j: int| 0 <= j < i ==> trace@[j].0 != id,
        decreases trace.len() - i,
    {
        if trace[i].0 == id {
            return true;
        }
        i = i + 1;
    }
    false
}

} // verus!
