//! The reliability layer of an endpoint: tracks the fragments of an
//! outgoing message until each is acknowledged, resends on negative
//! acknowledgement or timeout with a bounded retry budget, and buffers
//! incoming fragments until a message can be rebuilt.

use vstd::prelude::*;
use crate::packet::{Fragment, NackType, Packet, PacketType};
use crate::routing::{NodeId, SourceRoutingHeader, clone_ids};
use crate::topology::{spec_valid_path, Topology};

verus! {

/// `acked` after one acknowledgement of `i`: set where the index is known
/// and still outstanding, untouched otherwise.
pub open spec fn spec_ack_update(acked: Seq<bool>, i: int) -> Seq<bool> {
    if 0 <= i < acked.len() && !acked[i] {
        acked.update(i, true)
    } else {
        acked
    }
}

pub open spec fn spec_all_acked(acked: Seq<bool>) -> bool {
    forall|j: int| 0 <= j < acked.len() ==> acked[j]
}

/// Whether acknowledging `i` completes the session: every index is acked
/// afterwards and was not before.
pub open spec fn spec_ack_completes(acked: Seq<bool>, i: int) -> bool {
    spec_all_acked(spec_ack_update(acked, i)) && !spec_all_acked(acked)
}

/// Acknowledgements are idempotent: delivering the same ack twice leaves the
/// same outstanding set as delivering it once, and can complete the session
/// at most once — never twice.
pub proof fn lemma_duplicate_ack_idempotent(acked: Seq<bool>, i: int)
    ensures
        spec_ack_update(spec_ack_update(acked, i), i) == spec_ack_update(acked, i),
        !(spec_ack_completes(acked, i) && spec_ack_completes(spec_ack_update(acked, i), i)),
{
    let once = spec_ack_update(acked, i);
    if 0 <= i < acked.len() && !acked[i] {
        assert(once[i]);
        assert(spec_ack_update(once, i) == once);
    }
    if spec_ack_completes(acked, i) {
        assert(spec_all_acked(once));
        assert(!spec_ack_completes(once, i));
    }
}

/// Which node a recomputed route should steer around, for one negative
/// acknowledgement: the unreachable or misdelivered-to node for a routing
/// error. A drop or a path that ends at a relay names no single culprit;
/// the route is then recomputed over the topology as it stands.
pub open spec fn spec_avoid_for_nack(kind: NackType) -> Option<NodeId> {
    match kind {
        NackType::ErrorInRouting(n) => Some(n),
        NackType::UnexpectedRecipient(n) => Some(n),
        NackType::DestinationIsDrone => None,
        NackType::Dropped => None,
    }
}

/// The avoided node as route recomputation uses it: the blamed node,
/// unless the report blames the route's own endpoints, which cannot be
/// steered around.
pub open spec fn spec_effective_avoid(kind: NackType, src: NodeId, dest: NodeId) -> Option<
    NodeId,
> {
    match spec_avoid_for_nack(kind) {
        Some(x) => if x != src && x != dest {
            Some(x)
        } else {
            None
        },
        None => None,
    }
}

pub fn avoid_for_nack(kind: &NackType) -> (r: Option<NodeId>)
    ensures
        r == spec_avoid_for_nack(*kind),
{
    match kind {
        NackType::ErrorInRouting(n) => Some(*n),
        NackType::UnexpectedRecipient(n) => Some(*n),
        NackType::DestinationIsDrone => None,
        NackType::Dropped => None,
    }
}

/// What the layer decides for one negative acknowledgement or timeout.
#[derive(Clone, Debug)]
pub enum NackAction {
    /// Resend the fragment along the route carried by the packet.
    Resend { to: NodeId, packet: Packet },
    /// The retry budget is exhausted: the session is failed for good.
    Failed,
    /// Unknown, already-acknowledged or already-failed index: nothing to do.
    Ignore,
}

/// The sending side of one session: the outstanding fragments of one
/// message, their retry counters, and the route in use.
#[derive(Clone, Debug)]
pub struct OutboundSession {
    pub session_id: u64,
    pub dest: NodeId,
    /// The full path from the originator to the destination.
    pub route: Vec<NodeId>,
    pub fragments: Vec<Fragment>,
    pub acked: Vec<bool>,
    pub retries: Vec<u32>,
    pub last_sent: Vec<u64>,
    pub max_retries: u32,
    pub retry_timeout: u64,
    pub failed: bool,
}

impl OutboundSession {
    pub open spec fn well_formed(self) -> bool {
        &&& self.acked@.len() == self.fragments@.len()
        &&& self.retries@.len() == self.fragments@.len()
        &&& self.last_sent@.len() == self.fragments@.len()
        &&& self.route@.len() >= 2
        &&& forall|i: int|
            0 <= i < self.fragments@.len() ==> {
                &&& (#[trigger] self.fragments@[i]).fragment_index == i
                &&& self.fragments@[i].total_n_fragments == self.fragments@.len()
                &&& self.fragments@[i].well_formed()
            }
    }

    /// Opens a session for the given fragments. The route runs from the
    /// originator to the destination; every fragment counts as just sent.
    pub fn new(
        session_id: u64,
        dest: NodeId,
        route: Vec<NodeId>,
        fragments: Vec<Fragment>,
        max_retries: u32,
        retry_timeout: u64,
        now: u64,
    ) -> (r: Self)
        requires
            route@.len() >= 2,
            forall|i: int|
                0 <= i < fragments@.len() ==> {
                    &&& (#[trigger] fragments@[i]).fragment_index == i
                    &&& fragments@[i].total_n_fragments == fragments@.len()
                    &&& fragments@[i].well_formed()
                },
        ensures
            r.well_formed(),
            r.session_id == session_id,
            r.dest == dest,
            r.route == route,
            r.fragments == fragments,
            forall|i: int| 0 <= i < r.acked@.len() ==> !(#[trigger] r.acked@[i]),
            forall|i: int| 0 <= i < r.retries@.len() ==> (#[trigger] r.retries@[i]) == 0,
            forall|i: int| 0 <= i < r.last_sent@.len() ==> (#[trigger] r.last_sent@[i]) == now,
            r.max_retries == max_retries,
            r.retry_timeout == retry_timeout,
            !r.failed,
    {
        let n = fragments.len();
        let mut acked: Vec<bool> = Vec::new();
        let mut retries: Vec<u32> = Vec::new();
        let mut last_sent: Vec<u64> = Vec::new();
        let mut i: usize = 0;
        while i < n
            invariant
                i <= n,
                acked@.len() == i,
                retries@.len() == i,
                last_sent@.len() == i,
                forall|j: int| 0 <= j < i ==> !(#[trigger] acked@[j]),
                forall|j: int| 0 <= j < i ==> (#[trigger] retries@[j]) == 0,
                forall|j: int| 0 <= j < i ==> (#[trigger] last_sent@[j]) == now,
            decreases n - i,
        {
            acked.push(false);
            retries.push(0);
            last_sent.push(now);
            i = i + 1;
        }
        OutboundSession {
            session_id,
            dest,
            route,
            fragments,
            acked,
            retries,
            last_sent,
            max_retries,
            retry_timeout,
            failed: false,
        }
    }

    /// Whether every fragment has been acknowledged.
    pub fn is_complete(&self) -> (r: bool)
        ensures
            r == spec_all_acked(self.acked@),
    {
        let mut i: usize = 0;
        while i < self.acked.len()
            invariant
                i <= self.acked@.len(),
                forall|j: int| 0 <= j < i ==> self.acked@[j],
            decreases self.acked@.len() - i,
        {
            if !self.acked[i] {
                return false;
            }
            i = i + 1;
        }
        true
    }

    /// Handles one acknowledgement. A first ack of a known index removes it
    /// from the outstanding set; a duplicate or unknown ack changes nothing.
    /// Returns whether this ack completed the session — true at most once
    /// over the session's life.
    pub fn handle_ack(&mut self, fragment_index: u64) -> (completed_now: bool)
        requires
            old(self).well_formed(),
        ensures
            final(self).well_formed(),
            final(self).acked@ == spec_ack_update(old(self).acked@, fragment_index as int),
            completed_now == spec_ack_completes(old(self).acked@, fragment_index as int),
            final(self).session_id == old(self).session_id,
            final(self).dest == old(self).dest,
            final(self).route == old(self).route,
            final(self).fragments == old(self).fragments,
            final(self).retries == old(self).retries,
            final(self).last_sent == old(self).last_sent,
            final(self).max_retries == old(self).max_retries,
            final(self).retry_timeout == old(self).retry_timeout,
            final(self).failed == old(self).failed,
    {
        let was_complete = self.is_complete();
        if fragment_index < self.acked.len() as u64 {
            let i = fragment_index as usize;
            if !self.acked[i] {
                self.acked.set(i, true);
            }
        }
        let now_complete = self.is_complete();
        now_complete && !was_complete
    }

    /// Handles one negative acknowledgement (or inferred timeout) for a
    /// fragment. A stale index — unknown, already acknowledged, or in an
    /// already-failed session — is ignored. A live one either exhausts the
    /// retry budget, failing the session, or bumps the retry counter and
    /// resends the fragment along `new_route` where one is given, else along
    /// the session's current route.
    pub fn handle_nack(
        &mut self,
        fragment_index: u64,
        new_route: Option<Vec<NodeId>>,
        now: u64,
    ) -> (r: NackAction)
        requires
            old(self).well_formed(),
            new_route matches Some(rt) ==> rt@.len() >= 2,
        ensures
            final(self).well_formed(),
            final(self).session_id == old(self).session_id,
            final(self).dest == old(self).dest,
            final(self).fragments == old(self).fragments,
            final(self).acked == old(self).acked,
            final(self).max_retries == old(self).max_retries,
            final(self).retry_timeout == old(self).retry_timeout,
            ({
                let i = fragment_index as int;
                let stale = i >= old(self).fragments@.len() || old(self).acked@[i] || old(
                    self,
                ).failed;
                if stale {
                    &&& r is Ignore
                    &&& *final(self) == *old(self)
                } else if old(self).retries@[i] >= old(self).max_retries {
                    &&& r is Failed
                    &&& final(self).failed
                    &&& final(self).route == old(self).route
                    &&& final(self).retries == old(self).retries
                    &&& final(self).last_sent == old(self).last_sent
                } else {
                    &&& final(self).retries@ == old(self).retries@.update(
                        i,
                        (old(self).retries@[i] + 1) as u32,
                    )
                    &&& final(self).last_sent@ == old(self).last_sent@.update(i, now)
                    &&& !final(self).failed
                    &&& final(self).route@ == (match new_route {
                        Some(rt) => rt@,
                        None => old(self).route@,
                    })
                    &&& r matches NackAction::Resend { to, packet }
                    &&& to == final(self).route@[1]
                    &&& packet.session_id == old(self).session_id
                    &&& packet.routing_header.hop_index == 1
                    &&& packet.routing_header.hops@ == final(self).route@
                    &&& packet.pack_type matches PacketType::MsgFragment(f)
                    &&& f == old(self).fragments@[i]
                }
            }),
    {
        let len = self.fragments.len();
        if fragment_index >= len as u64 {
            return NackAction::Ignore;
        }
        let i = fragment_index as usize;
        if self.acked[i] || self.failed {
            return NackAction::Ignore;
        }
        if self.retries[i] >= self.max_retries {
            self.failed = true;
            return NackAction::Failed;
        }
        let bumped = self.retries[i] + 1;
        self.retries.set(i, bumped);
        self.last_sent.set(i, now);
        match new_route {
            Some(rt) => {
                self.route = rt;
            },
            None => {},
        }
        let hops = clone_ids(&self.route);
        let to = self.route[1];
        NackAction::Resend {
            to,
            packet: Packet {
                pack_type: PacketType::MsgFragment(self.fragments[i]),
                routing_header: SourceRoutingHeader { hop_index: 1, hops },
                session_id: self.session_id,
            },
        }
    }

    /// Handles one negative acknowledgement the way the layer owes it: it
    /// consults the local topology, recomputes a shortest-hop route to the
    /// destination around the node the report blames, and resends along the
    /// new route — or along the old one where the graph holds no detour. The
    /// stale and budget-exhausted cases behave exactly as in `handle_nack`.
    pub fn handle_nack_with_topology(
        &mut self,
        fragment_index: u64,
        kind: &NackType,
        topology: &Topology,
        now: u64,
    ) -> (r: NackAction)
        requires
            old(self).well_formed(),
            topology.well_formed(),
            old(self).route@[0] != old(self).dest,
        ensures
            final(self).well_formed(),
            final(self).session_id == old(self).session_id,
            final(self).dest == old(self).dest,
            final(self).fragments == old(self).fragments,
            final(self).acked == old(self).acked,
            final(self).max_retries == old(self).max_retries,
            final(self).retry_timeout == old(self).retry_timeout,
            ({
                let i = fragment_index as int;
                let src = old(self).route@[0];
                let avoid = spec_effective_avoid(*kind, src, old(self).dest);
                let stale = i >= old(self).fragments@.len() || old(self).acked@[i] || old(
                    self,
                ).failed;
                if stale {
                    &&& r is Ignore
                    &&& *final(self) == *old(self)
                } else if old(self).retries@[i] >= old(self).max_retries {
                    &&& r is Failed
                    &&& final(self).failed
                    &&& final(self).route == old(self).route
                    &&& final(self).retries == old(self).retries
                    &&& final(self).last_sent == old(self).last_sent
                } else {
                    &&& final(self).retries@ == old(self).retries@.update(
                        i,
                        (old(self).retries@[i] + 1) as u32,
                    )
                    &&& final(self).last_sent@ == old(self).last_sent@.update(i, now)
                    &&& !final(self).failed
                    &&& r matches NackAction::Resend { to, packet }
                    &&& to == final(self).route@[1]
                    &&& packet.session_id == old(self).session_id
                    &&& packet.routing_header.hop_index == 1
                    &&& packet.routing_header.hops@ == final(self).route@
                    &&& packet.pack_type matches PacketType::MsgFragment(f)
                    &&& f == old(self).fragments@[i]
                    &&& (final(self).route@ == old(self).route@ || (spec_valid_path(
                        topology.nodes@,
                        src,
                        old(self).dest,
                        avoid,
                        final(self).route@,
                    ) && forall|p: Seq<NodeId>|
                        spec_valid_path(topology.nodes@, src, old(self).dest, avoid, p)
                            ==> final(self).route@.len() <= p.len()))
                    &&& (forall|p: Seq<NodeId>|
                        !spec_valid_path(topology.nodes@, src, old(self).dest, avoid, p))
                        ==> final(self).route@ == old(self).route@
                }
            }),
    {
        let src = self.route[0];
        let avoid = match avoid_for_nack(kind) {
            Some(x) => if x != src && x != self.dest {
                Some(x)
            } else {
                None
            },
            None => None,
        };
        let new_route = match topology.compute_route(src, self.dest, avoid) {
            Some(found) => Some(found.path),
            None => None,
        };
        self.handle_nack(fragment_index, new_route, now)
    }

    /// The indices whose acknowledgement is overdue: unacknowledged
    /// fragments last sent at least the retry timeout ago. Each is then
    /// treated exactly as an explicit drop report.
    pub fn timed_out(&self, now: u64) -> (r: Vec<u64>)
        requires
            self.well_formed(),
        ensures
            forall|k: int|
                0 <= k < r@.len() ==> {
                    let i = #[trigger] r@[k] as int;
                    &&& 0 <= i < self.fragments@.len()
                    &&& !self.acked@[i]
                    &&& self.last_sent@[i] <= now
                    &&& now - self.last_sent@[i] >= self.retry_timeout
                },
            forall|i: int|
                0 <= i < self.fragments@.len() && !self.acked@[i] && self.last_sent@[i] <= now
                    && now - self.last_sent@[i] >= self.retry_timeout ==> r@.contains(i as u64),
            forall|k1: int, k2: int| 0 <= k1 < k2 < r@.len() ==> r@[k1] < r@[k2],
    {
        let mut out: Vec<u64> = Vec::new();
        let mut i: usize = 0;
        while i < self.fragments.len()
            invariant
                i <= self.fragments@.len(),
                self.well_formed(),
                forall|k: int|
                    0 <= k < out@.len() ==> {
                        let j = #[trigger] out@[k] as int;
                        &&& 0 <= j < self.fragments@.len()
                        &&& !self.acked@[j]
                        &&& self.last_sent@[j] <= now
                        &&& now - self.last_sent@[j] >= self.retry_timeout
                    },
                forall|j: int|
                    0 <= j < i && !self.acked@[j] && self.last_sent@[j] <= now && now
                        - self.last_sent@[j] >= self.retry_timeout ==> out@.contains(j as u64),
                forall|k: int| 0 <= k < out@.len() ==> (#[trigger] out@[k]) < i,
                forall|k1: int, k2: int| 0 <= k1 < k2 < out@.len() ==> out@[k1] < out@[k2],
            decreases self.fragments@.len() - i,
        {
            let ghost out0 = out@;
            let due = !self.acked[i] && self.last_sent[i] <= now && now - self.last_sent[i]
                >= self.retry_timeout;
            if due {
                out.push(i as u64);
            }
            proof {
                assert forall|j: int|
                    0 <= j < i + 1 && !self.acked@[j] && self.last_sent@[j] <= now && now
                        - self.last_sent@[j] >= self.retry_timeout implies out@.contains(
                    j as u64,
                ) by {
                    if j < i {
                        let k = choose|k: int| 0 <= k < out0.len() && out0[k] == j as u64;
                        assert(out@[k] == j as u64);
                    } else {
                        assert(out@[out@.len() - 1] == i as u64);
                    }
                }
            }
            i = i + 1;
        }
        out
    }
}

/// The receiving side of one session: fragments buffered by index until the
/// distinct-index count reaches the announced total.
#[derive(Clone, Debug)]
pub struct ReassemblyBuffer {
    pub source_id: NodeId,
    pub session_id: u64,
    pub total: u64,
    pub slots: Vec<Option<Fragment>>,
    /// When the buffer last stored a new fragment; an inactive incomplete
    /// buffer is discarded by its owner after a configurable timeout.
    pub last_activity: u64,
}

impl ReassemblyBuffer {
    pub open spec fn well_formed(self) -> bool {
        &&& self.slots@.len() == self.total
        &&& forall|i: int|
            0 <= i < self.slots@.len() ==> ((#[trigger] self.slots@[i]) matches Some(f) ==> {
                &&& f.fragment_index == i
                &&& f.total_n_fragments == self.total
                &&& f.well_formed()
            })
    }

    pub open spec fn spec_is_complete(self) -> bool {
        forall|i: int| 0 <= i < self.slots@.len() ==> (#[trigger] self.slots@[i]) is Some
    }

    pub fn new(source_id: NodeId, session_id: u64, total: u64, now: u64) -> (r: Self)
        requires
            total <= usize::MAX,
        ensures
            r.well_formed(),
            r.source_id == source_id,
            r.session_id == session_id,
            r.total == total,
            r.last_activity == now,
            forall|i: int| 0 <= i < r.slots@.len() ==> (#[trigger] r.slots@[i]) is None,
    {
        let n = total as usize;
        let mut slots: Vec<Option<Fragment>> = Vec::new();
        let mut i: usize = 0;
        while i < n
            invariant
                i <= n,
                slots@.len() == i,
                forall|j: int| 0 <= j < i ==> (#[trigger] slots@[j]) is None,
            decreases n - i,
        {
            slots.push(None);
            i = i + 1;
        }
        ReassemblyBuffer { source_id, session_id, total, slots, last_activity: now }
    }

    /// Stores one received fragment. A fragment for a fresh index of the
    /// right shape is kept and refreshes the activity clock; a duplicate or
    /// malformed one is discarded and changes nothing.
    pub fn accept(&mut self, f: &Fragment, now: u64) -> (newly: bool)
        requires
            old(self).well_formed(),
        ensures
            final(self).well_formed(),
            final(self).source_id == old(self).source_id,
            final(self).session_id == old(self).session_id,
            final(self).total == old(self).total,
            ({
                let i = f.fragment_index as int;
                let fresh = 0 <= i < old(self).slots@.len() && old(self).slots@[i] is None
                    && f.total_n_fragments == old(self).total && f.well_formed();
                if fresh {
                    &&& newly
                    &&& final(self).slots@ == old(self).slots@.update(i, Some(*f))
                    &&& final(self).last_activity == now
                } else {
                    &&& !newly
                    &&& *final(self) == *old(self)
                }
            }),
    {
        let len = self.slots.len();
        if f.fragment_index >= len as u64 {
            return false;
        }
        let i = f.fragment_index as usize;
        if self.slots[i].is_some() {
            return false;
        }
        if f.total_n_fragments != self.total || f.data.length > 80 || f.fragment_index
            >= f.total_n_fragments {
            return false;
        }
        self.slots.set(i, Some(*f));
        self.last_activity = now;
        true
    }

    pub fn is_complete(&self) -> (r: bool)
        ensures
            r == self.spec_is_complete(),
    {
        let mut i: usize = 0;
        while i < self.slots.len()
            invariant
                i <= self.slots@.len(),
                forall|j: int| 0 <= j < i ==> (#[trigger] self.slots@[j]) is Some,
            decreases self.slots@.len() - i,
        {
            if self.slots[i].is_none() {
                return false;
            }
            i = i + 1;
        }
        true
    }

    /// The buffered fragments in index order, once all have arrived.
    pub fn fragments_in_order(&self) -> (r: Vec<Fragment>)
        requires
            self.well_formed(),
            self.spec_is_complete(),
        ensures
            r@.len() == self.slots@.len(),
            forall|i: int|
                0 <= i < r@.len() ==> Some(#[trigger] r@[i]) == self.slots@[i],
    {
        let mut out: Vec<Fragment> = Vec::new();
        let mut i: usize = 0;
        while i < self.slots.len()
            invariant
                i <= self.slots@.len(),
                self.well_formed(),
                self.spec_is_complete(),
                out@.len() == i,
                forall|j: int| 0 <= j < i ==> Some(#[trigger] out@[j]) == self.slots@[j],
            decreases self.slots@.len() - i,
        {
            let f = match &self.slots[i] {
                Some(f) => *f,
                None => {
                    proof {
                        assert(self.slots@[i as int] is Some);
                    }
                    unreached()
                },
            };
            out.push(f);
            i = i + 1;
        }
        out
    }

    /// Whether the buffer has sat incomplete past the given inactivity
    /// timeout.
    pub fn expired(&self, now: u64, timeout: u64) -> (r: bool)
        requires
            now >= self.last_activity,
        ensures
            r == (now - self.last_activity >= timeout),
    {
        now - self.last_activity >= timeout
    }
}

} // verus!
