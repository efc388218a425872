//! Node addressing and the source-routing header that carries a packet's
//! full, sender-chosen path.

use vstd::prelude::*;

verus! {

/// Unique small-integer node identifier, stable for the process lifetime.
pub type NodeId = u8;

/// An explicit forwarding path, together with the index of the hop that is
/// currently processing the packet.
///
/// Invariant for a packet in flight: `0 <= hop_index < hops.len()`;
/// `hops[0]` is the originator and `hops[hops.len() - 1]` the final
/// destination. The sender hands the packet to `hops[1]` with
/// `hop_index == 1`, and every forward increments `hop_index` by exactly one.
#[derive(Clone, Debug)]
pub struct SourceRoutingHeader {
    pub hop_index: usize,
    pub hops: Vec<NodeId>,
}

/// A copy of a path, equal to the original element for element.
pub fn clone_ids(v: &Vec<NodeId>) -> (r: Vec<NodeId>)
    ensures
        r@ == v@,
{
    let r = v.clone();
    proof {
        assert(r@ =~= v@);
    }
    r
}

impl SourceRoutingHeader {
    /// A header that a node may act on: the hop index points into the path.
    pub open spec fn well_formed(self) -> bool {
        self.hop_index < self.hops.len()
    }

    /// The node the packet is currently at, according to the header.
    pub open spec fn spec_current_hop(self) -> NodeId
        recommends
            self.well_formed(),
    {
        self.hops[self.hop_index as int]
    }

    /// Whether the current hop is the last entry of the path.
    pub open spec fn spec_is_last_hop(self) -> bool
        recommends
            self.well_formed(),
    {
        self.hop_index == self.hops.len() - 1
    }

    /// The hop after the current one, where there is one.
    pub open spec fn spec_next_hop(self) -> NodeId
        recommends
            self.well_formed(),
            !self.spec_is_last_hop(),
    {
        self.hops[self.hop_index + 1]
    }

    pub fn new(hop_index: usize, hops: Vec<NodeId>) -> (r: Self)
        ensures
            r.hop_index == hop_index,
            r.hops == hops,
    {
        SourceRoutingHeader { hop_index, hops }
    }

    pub fn is_well_formed(&self) -> (r: bool)
        ensures
            r == self.well_formed(),
    {
        self.hop_index < self.hops.len()
    }

    pub fn current_hop(&self) -> (r: NodeId)
        requires
            self.well_formed(),
        ensures
            r == self.spec_current_hop(),
    {
        self.hops[self.hop_index]
    }

    pub fn is_last_hop(&self) -> (r: bool)
        requires
            self.well_formed(),
        ensures
            r == self.spec_is_last_hop(),
    {
        self.hop_index == self.hops.len() - 1
    }

    pub fn next_hop(&self) -> (r: Option<NodeId>)
        requires
            self.well_formed(),
        ensures
            self.spec_is_last_hop() ==> r is None,
            !self.spec_is_last_hop() ==> r == Some(self.spec_next_hop()),
    {
        if self.hop_index + 1 < self.hops.len() {
            Some(self.hops[self.hop_index + 1])
        } else {
            None
        }
    }

    /// The same path with the hop index moved forward by one: the header a
    /// relay attaches before handing the packet to the next hop.
    pub fn advanced(&self) -> (r: Self)
        requires
            self.well_formed(),
            !self.spec_is_last_hop(),
        ensures
            r.hops@ == self.hops@,
            r.hop_index == self.hop_index + 1,
            r.well_formed(),
            r.spec_current_hop() == self.spec_next_hop(),
    {
        SourceRoutingHeader { hop_index: self.hop_index + 1, hops: clone_ids(&self.hops) }
    }

    /// The path from the current hop back to the originator: the prefix
    /// `hops[0..=hop_index]` reversed, with the hop index at the start.
    /// A relay uses it to route a rejection back toward the sender.
    pub fn reversed_prefix(&self) -> (r: Self)
        requires
            self.well_formed(),
        ensures
            r.hops.len() == self.hop_index + 1,
            forall|i: int|
                0 <= i <= self.hop_index ==> r.hops[i] == self.hops[self.hop_index - i],
            r.hop_index == 1 || (r.hop_index == 0 && self.hop_index == 0),
            r.well_formed(),
            r.hops[0] == self.spec_current_hop(),
    {
        let mut rev: Vec<NodeId> = Vec::new();
        let mut i: usize = self.hop_index + 1;
        while i > 0
            invariant
                i <= self.hop_index + 1,
                self.well_formed(),
                rev.len() == self.hop_index + 1 - i,
                forall|j: int|
                    0 <= j < rev.len() ==> rev[j] == self.hops[self.hop_index - j],
            decreases i,
        {
            i = i - 1;
            rev.push(self.hops[i]);
        }
        let start: usize = if self.hop_index == 0 {
            0
        } else {
            1
        };
        SourceRoutingHeader { hop_index: start, hops: rev }
    }
}

} // verus!
