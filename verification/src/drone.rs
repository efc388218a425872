//! The relay engine of a drone: consumes packets and control commands, and
//! either forwards a packet to exactly one neighbor, rejects it with a nack
//! sent back along the reverse path, or drops it per the configured drop
//! rate.
//!
//! Check order for a fragment: a header that does not name this node as the
//! current hop reports `UnexpectedRecipient`; a path that ends here reports
//! `DestinationIsDrone` (an application never terminates at a relay); a next
//! hop that is not a connected neighbor reports `ErrorInRouting`; drop-rate
//! sampling then discards the fragment with `Dropped`. Acks, nacks and flood
//! responses are forwarded without drop sampling and never answered with a
//! nack; a flood request that cannot travel on is converted to a flood
//! response, never nacked, though it remains subject to drop sampling.

use vstd::prelude::*;
use crate::packet::{
    Fragment, FloodRequest, FloodResponse, Nack, NackType, NodeType, Packet, PacketType,
    clone_pack_type, clone_trace, spec_same_pack_type, spec_trace_contains, trace_contains,
};
use crate::routing::{NodeId, SourceRoutingHeader};

verus! {

/// Drop rates are expressed in parts of this unit: a drone with
/// `pdr == PDR_UNIT` drops every fragment, one with `pdr == 0` none.
pub const PDR_UNIT: u32 = 100_000;

/// A command from the controller to a drone. The controller installs or
/// removes forwarding targets, tunes the drop rate, or shuts the drone down.
#[derive(Clone, Copy, Debug)]
pub enum DroneCommand {
    AddSender(NodeId),
    RemoveSender(NodeId),
    /// The new drop rate in parts of `PDR_UNIT`; values above the unit are
    /// clamped to it.
    SetPacketDropRate(u32),
    Crash,
}

/// An observability event from a node to the controller; never consumed back
/// into routing decisions.
#[derive(Clone, Debug)]
pub enum NodeEvent {
    PacketSent(Packet),
    PacketDropped(Packet),
}

/// The relay state of one drone.
#[derive(Clone, Debug)]
pub struct Drone {
    pub id: NodeId,
    pub neighbors: Vec<NodeId>,
    /// Drop probability in parts of `PDR_UNIT`.
    pub pdr: u32,
    pub crashed: bool,
}

/// The mathematical shape of a drone's relay state.
pub struct DroneModel {
    pub id: NodeId,
    pub neighbors: Seq<NodeId>,
    pub pdr: u32,
    pub crashed: bool,
}

impl View for Drone {
    type V = DroneModel;

    open spec fn view(&self) -> DroneModel {
        DroneModel {
            id: self.id,
            neighbors: self.neighbors@,
            pdr: self.pdr,
            crashed: self.crashed,
        }
    }
}

impl DroneModel {
    pub open spec fn well_formed(self) -> bool {
        self.pdr <= PDR_UNIT
    }

    pub open spec fn has_neighbor(self, n: NodeId) -> bool {
        self.neighbors.contains(n)
    }
}

/// What a drone decides for one received packet.
#[derive(Clone, Debug)]
pub enum DroneOutcome {
    /// Hand the packet on to this neighbor, hop index moved forward by one.
    Forward { to: NodeId, packet: Packet },
    /// Send a rejection back toward the previous hop.
    NackBack { to: NodeId, packet: Packet },
    /// Nothing can be sent, or nothing may be.
    Discard,
}

/// What a drone decides for one received flood request.
#[derive(Clone, Debug)]
pub enum FloodOutcome {
    /// Send the grown request to every connected neighbor except the one it
    /// arrived from.
    Rebroadcast { request: FloodRequest },
    /// Convert the request into a response and send it back along the
    /// reversed trace.
    Respond { to: NodeId, packet: Packet },
    Discard,
}

/// The routing verdict for a fragment at this drone, in check order.
pub open spec fn spec_fragment_check(m: DroneModel, h: SourceRoutingHeader) -> Option<NackType> {
    if !h.well_formed() || h.spec_current_hop() != m.id {
        Some(NackType::UnexpectedRecipient(m.id))
    } else if h.spec_is_last_hop() {
        Some(NackType::DestinationIsDrone)
    } else if !m.has_neighbor(h.spec_next_hop()) {
        Some(NackType::ErrorInRouting(h.spec_next_hop()))
    } else {
        None
    }
}

/// Whether a transit packet (ack, nack, flood response) can be forwarded:
/// the header names this node as the current hop, a next hop exists and is a
/// connected neighbor, and the drone is still running.
pub open spec fn spec_transit_ok(m: DroneModel, h: SourceRoutingHeader) -> bool {
    &&& !m.crashed
    &&& h.well_formed()
    &&& h.spec_current_hop() == m.id
    &&& !h.spec_is_last_hop()
    &&& m.has_neighbor(h.spec_next_hop())
}

/// The hops of a rejection's return path: the processed prefix of the
/// original path, reversed, so the rejection travels from this node back to
/// the originator.
pub open spec fn spec_reversed_prefix_hops(h: SourceRoutingHeader) -> Seq<NodeId> {
    Seq::new((h.hop_index + 1) as nat, |i: int| h.hops@[h.hop_index - i])
}

/// Whether `r` is the rejection of kind `kind` owed for a packet with
/// header `h`: sent toward the previous hop where one is named, silently
/// discarded where none can be resolved.
pub open spec fn spec_is_nack_back(
    h: SourceRoutingHeader,
    fragment_index: u64,
    session_id: u64,
    kind: NackType,
    r: DroneOutcome,
) -> bool {
    if h.well_formed() && h.hop_index >= 1 {
        &&& r matches DroneOutcome::NackBack { to, packet }
        &&& to == h.hops@[h.hop_index - 1]
        &&& packet.session_id == session_id
        &&& packet.routing_header.hop_index == 1
        &&& packet.routing_header.hops@ == spec_reversed_prefix_hops(h)
        &&& packet.pack_type matches PacketType::Nack(n)
        &&& n.fragment_index == fragment_index
        &&& n.nack_type == kind
    } else {
        r is Discard
    }
}

/// One rebroadcast hop of a flood request through the drone `id`: the trace
/// grows by exactly that drone, the remaining radius shrinks by one.
pub open spec fn spec_flood_step(q: FloodRequest, r: FloodRequest, id: NodeId) -> bool {
    &&& q.ttl >= 1
    &&& !spec_trace_contains(q.path_trace@, id)
    &&& r.flood_id == q.flood_id
    &&& r.initiator_id == q.initiator_id
    &&& r.ttl == q.ttl - 1
    &&& r.path_trace@ == q.path_trace@ + seq![(id, NodeType::Drone)]
}

/// The return path of a flood response issued by `id` for trace `trace`:
/// from the issuer back along the reversed trace to the initiator.
pub open spec fn spec_flood_return_hops(id: NodeId, trace: Seq<(NodeId, NodeType)>) -> Seq<
    NodeId,
> {
    seq![id] + Seq::new(trace.len(), |i: int| trace[trace.len() - 1 - i].0)
}

pub fn contains_id(v: &Vec<NodeId>, x: NodeId) -> (r: bool)
    ensures
        r == v@.contains(x),
{
    let mut i: usize = 0;
    while i < v.len()
        invariant
            i <= v.len(),
            forall|j: int| 0 <= j < i ==> v@[j] != x,
        decreases v.len() - i,
    {
        if v[i] == x {
            return true;
        }
        i = i + 1;
    }
    false
}

/// The ids of `v` with every occurrence of `except` left out, in order.
fn ids_without(v: &Vec<NodeId>, except: NodeId) -> (r: Vec<NodeId>)
    ensures
        r@ == v@.filter(|x: NodeId| x != except),
{
    let mut kept: Vec<NodeId> = Vec::new();
    let mut i: usize = 0;
    proof {
        reveal_with_fuel(Seq::filter, 2);
        assert(kept@ =~= v@.take(0).filter(|x: NodeId| x != except));
    }
    while i < v.len()
        invariant
            i <= v@.len(),
            kept@ == v@.take(i as int).filter(|x: NodeId| x != except),
        decreases v@.len() - i,
    {
        let keep = v[i] != except;
        proof {
            reveal_with_fuel(Seq::filter, 2);
            let t1 = v@.take(i + 1 as int);
            assert(t1.drop_last() =~= v@.take(i as int));
            assert(t1.last() == v@[i as int]);
        }
        if keep {
            kept.push(v[i]);
        }
        i = i + 1;
    }
    proof {
        assert(v@.take(v@.len() as int) =~= v@);
    }
    kept
}

impl Drone {
    /// A drone starts with no forwarding targets; the controller installs
    /// them by command.
    pub fn new(id: NodeId, pdr: u32) -> (r: Self)
        ensures
            r@.id == id,
            r@.pdr == if pdr <= PDR_UNIT {
                pdr
            } else {
                PDR_UNIT
            },
            r@.neighbors == Seq::<NodeId>::empty(),
            !r@.crashed,
            r@.well_formed(),
    {
        let clamped = if pdr <= PDR_UNIT {
            pdr
        } else {
            PDR_UNIT
        };
        let neighbors: Vec<NodeId> = Vec::new();
        proof {
            assert(neighbors@ =~= Seq::<NodeId>::empty());
        }
        Drone { id, neighbors, pdr: clamped, crashed: false }
    }

    /// Applies one control command: installs or removes a forwarding target,
    /// sets the drop rate, or marks the drone crashed.
    pub fn apply_command(&mut self, cmd: DroneCommand)
        requires
            old(self)@.well_formed(),
        ensures
            final(self)@.well_formed(),
            final(self)@.id == old(self)@.id,
            match cmd {
                DroneCommand::AddSender(n) => {
                    &&& final(self)@.neighbors == if old(self)@.neighbors.contains(n) {
                        old(self)@.neighbors
                    } else {
                        old(self)@.neighbors.push(n)
                    }
                    &&& final(self)@.pdr == old(self)@.pdr
                    &&& final(self)@.crashed == old(self)@.crashed
                },
                DroneCommand::RemoveSender(n) => {
                    &&& final(self)@.neighbors == old(self)@.neighbors.filter(
                        |x: NodeId| x != n,
                    )
                    &&& final(self)@.pdr == old(self)@.pdr
                    &&& final(self)@.crashed == old(self)@.crashed
                },
                DroneCommand::SetPacketDropRate(p) => {
                    &&& final(self)@.neighbors == old(self)@.neighbors
                    &&& final(self)@.pdr == if p <= PDR_UNIT {
                        p
                    } else {
                        PDR_UNIT
                    }
                    &&& final(self)@.crashed == old(self)@.crashed
                },
                DroneCommand::Crash => {
                    &&& final(self)@.neighbors == old(self)@.neighbors
                    &&& final(self)@.pdr == old(self)@.pdr
                    &&& final(self)@.crashed
                },
            },
    {
        match cmd {
            DroneCommand::AddSender(n) => {
                if !contains_id(&self.neighbors, n) {
                    self.neighbors.push(n);
                }
            },
            DroneCommand::RemoveSender(n) => {
                self.neighbors = ids_without(&self.neighbors, n);
            },
            DroneCommand::SetPacketDropRate(p) => {
                self.pdr = if p <= PDR_UNIT {
                    p
                } else {
                    PDR_UNIT
                };
            },
            DroneCommand::Crash => {
                self.crashed = true;
            },
        }
    }

    fn nack_back(
        &self,
        header: &SourceRoutingHeader,
        fragment_index: u64,
        session_id: u64,
        kind: NackType,
    ) -> (r: DroneOutcome)
        ensures
            spec_is_nack_back(*header, fragment_index, session_id, kind, r),
    {
        if header.is_well_formed() && header.hop_index >= 1 {
            let back = header.reversed_prefix();
            let to = header.hops[header.hop_index - 1];
            proof {
                assert(back.hops@ =~= spec_reversed_prefix_hops(*header));
            }
            DroneOutcome::NackBack {
                to,
                packet: Packet {
                    pack_type: PacketType::Nack(Nack { fragment_index, nack_type: kind }),
                    routing_header: back,
                    session_id,
                },
            }
        } else {
            DroneOutcome::Discard
        }
    }

    /// Handles one received fragment. `roll` is a uniformly drawn sample in
    /// `[0, PDR_UNIT)`; the fragment is dropped exactly when it falls below
    /// the configured drop rate. A forwarded fragment leaves with the same
    /// path and the hop index moved forward by exactly one.
    pub fn handle_fragment(
        &self,
        header: &SourceRoutingHeader,
        fragment: &Fragment,
        session_id: u64,
        roll: u32,
    ) -> (r: DroneOutcome)
        requires
            self@.well_formed(),
            roll < PDR_UNIT,
        ensures
            self@.crashed ==> spec_is_nack_back(
                *header,
                fragment.fragment_index,
                session_id,
                NackType::ErrorInRouting(self@.id),
                r,
            ),
            !self@.crashed ==> match spec_fragment_check(self@, *header) {
                Some(kind) => spec_is_nack_back(
                    *header,
                    fragment.fragment_index,
                    session_id,
                    kind,
                    r,
                ),
                None => if roll < self@.pdr {
                    spec_is_nack_back(
                        *header,
                        fragment.fragment_index,
                        session_id,
                        NackType::Dropped,
                        r,
                    )
                } else {
                    {
                        &&& r matches DroneOutcome::Forward { to, packet }
                        &&& to == header.spec_next_hop()
                        &&& packet.session_id == session_id
                        &&& packet.routing_header.hops@ == header.hops@
                        &&& packet.routing_header.hop_index == header.hop_index + 1
                        &&& packet.pack_type matches PacketType::MsgFragment(f)
                        &&& f == fragment
                    }
                },
            },
    {
        if self.crashed {
            return self.nack_back(
                header,
                fragment.fragment_index,
                session_id,
                NackType::ErrorInRouting(self.id),
            );
        }
        if !header.is_well_formed() || header.current_hop() != self.id {
            return self.nack_back(
                header,
                fragment.fragment_index,
                session_id,
                NackType::UnexpectedRecipient(self.id),
            );
        }
        if header.is_last_hop() {
            return self.nack_back(
                header,
                fragment.fragment_index,
                session_id,
                NackType::DestinationIsDrone,
            );
        }
        let next = header.hops[header.hop_index + 1];
        if !contains_id(&self.neighbors, next) {
            return self.nack_back(
                header,
                fragment.fragment_index,
                session_id,
                NackType::ErrorInRouting(next),
            );
        }
        if roll < self.pdr {
            return self.nack_back(header, fragment.fragment_index, session_id, NackType::Dropped);
        }
        DroneOutcome::Forward {
            to: next,
            packet: Packet {
                pack_type: PacketType::MsgFragment(*fragment),
                routing_header: header.advanced(),
                session_id,
            },
        }
    }

    /// Forwards a transit packet (ack, nack, flood response) along its
    /// header: no drop sampling and no nack generation; a packet that cannot
    /// travel on is silently discarded. A forwarded packet leaves with the
    /// same path, the same body and the hop index moved forward by exactly
    /// one.
    pub fn forward_transit(&self, packet: &Packet) -> (r: Option<(NodeId, Packet)>)
        requires
            self@.well_formed(),
        ensures
            spec_transit_ok(self@, packet.routing_header) ==> {
                &&& r matches Some((to, q))
                &&& to == packet.routing_header.spec_next_hop()
                &&& q.session_id == packet.session_id
                &&& q.routing_header.hops@ == packet.routing_header.hops@
                &&& q.routing_header.hop_index == packet.routing_header.hop_index + 1
                &&& spec_same_pack_type(packet.pack_type, q.pack_type)
            },
            !spec_transit_ok(self@, packet.routing_header) ==> r is None,
    {
        if self.crashed {
            return None;
        }
        let h = &packet.routing_header;
        if !h.is_well_formed() || h.current_hop() != self.id || h.is_last_hop() {
            return None;
        }
        let next = h.hops[h.hop_index + 1];
        if !contains_id(&self.neighbors, next) {
            return None;
        }
        Some(
            (
                next,
                Packet {
                    pack_type: clone_pack_type(&packet.pack_type),
                    routing_header: h.advanced(),
                    session_id: packet.session_id,
                },
            ),
        )
    }

    /// The neighbors a rebroadcast goes to: every connected neighbor except
    /// the one the request arrived from.
    pub fn broadcast_targets(&self, except: NodeId) -> (r: Vec<NodeId>)
        ensures
            r@ == self@.neighbors.filter(|x: NodeId| x != except),
    {
        ids_without(&self.neighbors, except)
    }

    /// Handles one received flood request. A request whose trace already
    /// names this drone, or whose radius is spent, is converted into a
    /// response carrying the accumulated trace and routed back along its
    /// reverse; any other request grows by this drone and travels on to
    /// every neighbor but the sender. Flood requests are subject to drop
    /// sampling like fragments, but are never answered with a nack: a
    /// sampled-out request vanishes silently.
    pub fn handle_flood_request(&self, req: &FloodRequest, session_id: u64, roll: u32) -> (r:
        FloodOutcome)
        requires
            self@.well_formed(),
            roll < PDR_UNIT,
        ensures
            self@.crashed ==> r is Discard,
            !self@.crashed && roll < self@.pdr ==> r is Discard,
            !self@.crashed && roll >= self@.pdr ==> {
                if spec_trace_contains(req.path_trace@, self@.id) || req.ttl == 0 {
                    if req.path_trace@.len() >= 1 {
                        &&& r matches FloodOutcome::Respond { to, packet }
                        &&& to == req.path_trace@.last().0
                        &&& packet.session_id == session_id
                        &&& packet.routing_header.hop_index == 1
                        &&& packet.routing_header.hops@ == spec_flood_return_hops(
                            self@.id,
                            req.path_trace@,
                        )
                        &&& packet.pack_type matches PacketType::FloodResponse(fr)
                        &&& fr.flood_id == req.flood_id
                        &&& fr.path_trace@ == req.path_trace@
                    } else {
                        r is Discard
                    }
                } else {
                    &&& r matches FloodOutcome::Rebroadcast { request }
                    &&& spec_flood_step(*req, request, self@.id)
                }
            },
    {
        if self.crashed {
            return FloodOutcome::Discard;
        }
        if roll < self.pdr {
            return FloodOutcome::Discard;
        }
        if trace_contains(&req.path_trace, self.id) || req.ttl == 0 {
            if req.path_trace.len() == 0 {
                return FloodOutcome::Discard;
            }
            let to = req.path_trace[req.path_trace.len() - 1].0;
            let hops = self.flood_return_path(&req.path_trace);
            FloodOutcome::Respond {
                to,
                packet: Packet {
                    pack_type: PacketType::FloodResponse(
                        FloodResponse {
                            flood_id: req.flood_id,
                            path_trace: clone_trace(&req.path_trace),
                        },
                    ),
                    routing_header: SourceRoutingHeader { hop_index: 1, hops },
                    session_id,
                },
            }
        } else {
            let mut trace = clone_trace(&req.path_trace);
            trace.push((self.id, NodeType::Drone));
            proof {
                assert(trace@ =~= req.path_trace@ + seq![(self@.id, NodeType::Drone)]);
            }
            FloodOutcome::Rebroadcast {
                request: FloodRequest {
                    flood_id: req.flood_id,
                    initiator_id: req.initiator_id,
                    ttl: req.ttl - 1,
                    path_trace: trace,
                },
            }
        }
    }

    /// The return path of a flood response: this node first, then the trace
    /// reversed, ending at the initiator.
    fn flood_return_path(&self, trace: &Vec<(NodeId, NodeType)>) -> (r: Vec<NodeId>)
        ensures
            r@ == spec_flood_return_hops(self@.id, trace@),
    {
        let mut hops: Vec<NodeId> = Vec::new();
        hops.push(self.id);
        let mut i: usize = trace.len();
        while i > 0
            invariant
                i <= trace@.len(),
                hops@.len() == 1 + trace@.len() - i,
                hops@[0] == self@.id,
                forall|j: int|
                    0 <= j < trace@.len() - i ==> #[trigger] hops@[1 + j] == trace@[trace@.len()
                        - 1 - j].0,
            decreases i,
        {
            i = i - 1;
            hops.push(trace[i].0);
        }
        proof {
            let want = spec_flood_return_hops(self@.id, trace@);
            assert forall|k: int| 0 <= k < hops@.len() implies hops@[k] == want[k] by {
                if k >= 1 {
                    assert(hops@[1 + (k - 1)] == trace@[trace@.len() - 1 - (k - 1)].0);
                }
            }
            assert(hops@ =~= want);
        }
        hops
    }
}

/// Starts a discovery round: a fresh request whose trace holds only the
/// initiator, with the full radius still to spend.
pub fn initiate_flood(id: NodeId, kind: NodeType, flood_id: u64, ttl: u8) -> (r: FloodRequest)
    ensures
        r.flood_id == flood_id,
        r.initiator_id == id,
        r.ttl == ttl,
        r.path_trace@ == seq![(id, kind)],
{
    let mut path_trace: Vec<(NodeId, NodeType)> = Vec::new();
    path_trace.push((id, kind));
    proof {
        assert(path_trace@ =~= seq![(id, kind)]);
    }
    FloodRequest { flood_id, initiator_id: id, ttl, path_trace }
}

/// What a client or server does with every flood request it receives: it
/// appends itself to the trace and answers at once — endpoints never forward
/// floods onward and never reject them. `None` only for a request whose
/// trace is empty, which names no sender to answer to.
pub fn endpoint_flood_response(
    id: NodeId,
    kind: NodeType,
    req: &FloodRequest,
    session_id: u64,
) -> (r: Option<(NodeId, Packet)>)
    ensures
        req.path_trace@.len() == 0 ==> r is None,
        req.path_trace@.len() >= 1 ==> {
            &&& r matches Some((to, packet))
            &&& to == req.path_trace@.last().0
            &&& packet.session_id == session_id
            &&& packet.routing_header.hop_index == 1
            &&& packet.routing_header.hops@ == spec_flood_return_hops(id, req.path_trace@)
            &&& packet.pack_type matches PacketType::FloodResponse(fr)
            &&& fr.flood_id == req.flood_id
            &&& fr.path_trace@ == req.path_trace@ + seq![(id, kind)]
        },
{
    if req.path_trace.len() == 0 {
        return None;
    }
    let to = req.path_trace[req.path_trace.len() - 1].0;
    let mut hops: Vec<NodeId> = Vec::new();
    hops.push(id);
    let mut i: usize = req.path_trace.len();
    while i > 0
        invariant
            i <= req.path_trace@.len(),
            hops@.len() == 1 + req.path_trace@.len() - i,
            hops@[0] == id,
            forall|j: int|
                0 <= j < req.path_trace@.len() - i ==> #[trigger] hops@[1 + j]
                    == req.path_trace@[req.path_trace@.len() - 1 - j].0,
        decreases i,
    {
        i = i - 1;
        hops.push(req.path_trace[i].0);
    }
    proof {
        let want = spec_flood_return_hops(id, req.path_trace@);
        assert forall|k: int| 0 <= k < hops@.len() implies hops@[k] == want[k] by {
            if k >= 1 {
                assert(hops@[1 + (k - 1)] == req.path_trace@[req.path_trace@.len() - 1 - (k
                    - 1)].0);
            }
        }
        assert(hops@ =~= want);
    }
    let mut trace = clone_trace(&req.path_trace);
    trace.push((id, kind));
    proof {
        assert(trace@ =~= req.path_trace@ + seq![(id, kind)]);
    }
    Some(
        (
            to,
            Packet {
                pack_type: PacketType::FloodResponse(
                    FloodResponse { flood_id: req.flood_id, path_trace: trace },
                ),
                routing_header: SourceRoutingHeader { hop_index: 1, hops },
                session_id,
            },
        ),
    )
}

/// A chain of rebroadcasts: `qs[0]` is the request as some drone first saw
/// it, and each later entry is the previous one grown by the drone named at
/// that position.
pub open spec fn spec_flood_chain(qs: Seq<FloodRequest>, ids: Seq<NodeId>) -> bool {
    &&& qs.len() == ids.len() + 1
    &&& forall|i: int| 0 <= i < ids.len() ==> spec_flood_step(#[trigger] qs[i], qs[i + 1], ids[i])
}

proof fn lemma_flood_chain_measure(qs: Seq<FloodRequest>, ids: Seq<NodeId>, i: int)
    requires
        spec_flood_chain(qs, ids),
        0 <= i < qs.len(),
    ensures
        qs[i].path_trace@.len() + qs[i].ttl == qs[0].path_trace@.len() + qs[0].ttl,
    decreases i,
{
    if i > 0 {
        lemma_flood_chain_measure(qs, ids, i - 1);
        assert(spec_flood_step(qs[i - 1], qs[i], ids[i - 1]));
    }
}

/// However often a flood request is rebroadcast, the sum of its trace length
/// and its remaining radius never changes; so a request initiated with one
/// trace entry and radius `t` never carries more than `1 + t` trace entries
/// before it is converted to a response.
pub proof fn lemma_flood_trace_bound(qs: Seq<FloodRequest>, ids: Seq<NodeId>)
    requires
        spec_flood_chain(qs, ids),
        qs.len() >= 1,
    ensures
        forall|i: int|
            0 <= i < qs.len() ==> (#[trigger] qs[i]).path_trace@.len() + qs[i].ttl == qs[0].path_trace@.len()
                + qs[0].ttl,
        qs.last().path_trace@.len() <= qs[0].path_trace@.len() + qs[0].ttl,
{
    assert forall|i: int| 0 <= i < qs.len() implies (#[trigger] qs[i]).path_trace@.len()
        + qs[i].ttl == qs[0].path_trace@.len() + qs[0].ttl by {
        lemma_flood_chain_measure(qs, ids, i);
    }
}

/// After the controller removes the link to `b` at a drone, a fragment at
/// that drone whose next hop is `b` is rejected with `ErrorInRouting(b)` —
/// the drone neither hangs nor fails, it answers.
pub proof fn lemma_removed_link_gives_error_in_routing(
    m0: DroneModel,
    m: DroneModel,
    b: NodeId,
    h: SourceRoutingHeader,
)
    requires
        m.neighbors == m0.neighbors.filter(|x: NodeId| x != b),
        h.well_formed(),
        h.spec_current_hop() == m.id,
        !h.spec_is_last_hop(),
        h.spec_next_hop() == b,
    ensures
        spec_fragment_check(m, h) == Some(NackType::ErrorInRouting(b)),
{
    if m.neighbors.contains(b) {
        let i = choose|i: int| 0 <= i < m.neighbors.len() && m.neighbors[i] == b;
        m0.neighbors.lemma_filter_pred(|x: NodeId| x != b, i);
        assert(false);
    }
}

} // verus!
