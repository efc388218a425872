//! The local topology view of an endpoint or controller: an arena of nodes
//! indexed by id, neighbor relations stored as id lists, and shortest-hop
//! route search over the known graph.

use vstd::prelude::*;
use crate::routing::NodeId;
use crate::drone::contains_id;

verus! {

/// The role of a known node. Server kinds are an application-level matter;
/// the topology only needs to know what may relay.
#[derive(Clone, Copy, Debug, PartialEq, Eq, Structural)]
pub enum NodeType {
    Client,
    Drone,
    Server,
}

/// One known node: its id, its role, and the ids of its neighbors.
#[derive(Clone, Debug)]
pub struct Node {
    pub id: NodeId,
    pub kind: NodeType,
    pub neighbors: Vec<NodeId>,
}

/// A graph of known nodes, rebuilt or merged from flood responses and from
/// explicit link commands.
#[derive(Clone, Debug)]
pub struct Topology {
    pub nodes: Vec<Node>,
}

/// A computed path of node ids, from the originator to the destination.
#[derive(Clone, Debug)]
pub struct Route {
    pub path: Vec<NodeId>,
}

pub open spec fn spec_has_node(nodes: Seq<Node>, id: NodeId) -> bool {
    exists|i: int| 0 <= i < nodes.len() && nodes[i].id == id
}

/// Whether the graph records a directed link from `a` to `b`.
pub open spec fn spec_linked(nodes: Seq<Node>, a: NodeId, b: NodeId) -> bool {
    exists|i: int| 0 <= i < nodes.len() && nodes[i].id == a && nodes[i].neighbors@.contains(b)
}

/// Whether the node with the given id is recorded as a relay.
pub open spec fn spec_is_drone(nodes: Seq<Node>, id: NodeId) -> bool {
    exists|i: int| 0 <= i < nodes.len() && nodes[i].id == id && nodes[i].kind is Drone
}

impl Topology {
    /// Each id names at most one node.
    pub open spec fn well_formed(self) -> bool {
        forall|i: int, j: int|
            0 <= i < self.nodes@.len() && 0 <= j < self.nodes@.len() && i != j
                ==> (#[trigger] self.nodes@[i]).id != (#[trigger] self.nodes@[j]).id
    }

    pub fn new() -> (r: Self)
        ensures
            r.well_formed(),
            r.nodes@.len() == 0,
    {
        Topology { nodes: Vec::new() }
    }

    /// The arena index of the node with the given id.
    fn find_index(&self, id: NodeId) -> (r: Option<usize>)
        ensures
            match r {
                Some(i) => i < self.nodes@.len() && self.nodes@[i as int].id == id,
                None => !spec_has_node(self.nodes@, id),
            },
    {
        let mut i: usize = 0;
        while i < self.nodes.len()
            invariant
                i <= self.nodes@.len(),
                forall|j: int| 0 <= j < i ==> (#[trigger] self.nodes@[j]).id != id,
            decreases self.nodes@.len() - i,
        {
            if self.nodes[i].id == id {
                return Some(i);
            }
            i = i + 1;
        }
        None
    }

    pub fn has_node(&self, id: NodeId) -> (r: bool)
        ensures
            r == spec_has_node(self.nodes@, id),
    {
        self.find_index(id).is_some()
    }

    pub fn is_drone(&self, id: NodeId) -> (r: bool)
        requires
            self.well_formed(),
        ensures
            r == spec_is_drone(self.nodes@, id),
    {
        match self.find_index(id) {
            Some(i) => match self.nodes[i].kind {
                NodeType::Drone => true,
                _ => false,
            },
            None => false,
        }
    }

    pub fn is_linked(&self, a: NodeId, b: NodeId) -> (r: bool)
        requires
            self.well_formed(),
        ensures
            r == spec_linked(self.nodes@, a, b),
    {
        match self.find_index(a) {
            Some(i) => contains_id(&self.nodes[i].neighbors, b),
            None => false,
        }
    }

    /// Records a node if its id is new — and no other: an id already known
    /// keeps its entry and its kind, whatever kind the caller offers.
    pub fn ensure_node(&mut self, id: NodeId, kind: NodeType)
        requires
            old(self).well_formed(),
        ensures
            final(self).well_formed(),
            forall|x: NodeId|
                spec_has_node(final(self).nodes@, x) == (spec_has_node(old(self).nodes@, x) || x
                    == id),
            forall|a: NodeId, b: NodeId|
                spec_linked(old(self).nodes@, a, b) == spec_linked(final(self).nodes@, a, b),
            forall|x: NodeId|
                x != id ==> spec_is_drone(final(self).nodes@, x) == spec_is_drone(
                    old(self).nodes@,
                    x,
                ),
            spec_has_node(old(self).nodes@, id) ==> spec_is_drone(final(self).nodes@, id)
                == spec_is_drone(old(self).nodes@, id),
            !spec_has_node(old(self).nodes@, id) ==> spec_is_drone(final(self).nodes@, id) == (
            kind is Drone),
    {
        if self.find_index(id).is_none() {
            let ghost before = self.nodes@;
            self.nodes.push(Node { id, kind, neighbors: Vec::new() });
            proof {
                assert(self.nodes@[before.len() as int].id == id);
                assert(spec_has_node(self.nodes@, id));
                assert forall|x: NodeId|
                    spec_has_node(self.nodes@, x) == (spec_has_node(before, x) || x == id) by {
                    if spec_has_node(before, x) {
                        let i = choose|i: int| 0 <= i < before.len() && before[i].id == x;
                        assert(self.nodes@[i].id == x);
                    }
                    if spec_has_node(self.nodes@, x) {
                        let i = choose|i: int|
                            0 <= i < self.nodes@.len() && self.nodes@[i].id == x;
                        if i < before.len() {
                            assert(before[i].id == x);
                        }
                    }
                }
                assert forall|x: NodeId|
                    x != id implies spec_is_drone(self.nodes@, x) == spec_is_drone(
                    before,
                    x,
                ) by {
                    if spec_is_drone(before, x) {
                        let i = choose|i: int|
                            0 <= i < before.len() && before[i].id == x && before[i].kind is Drone;
                        assert(self.nodes@[i].id == x && self.nodes@[i].kind is Drone);
                    }
                    if spec_is_drone(self.nodes@, x) {
                        let i = choose|i: int|
                            0 <= i < self.nodes@.len() && self.nodes@[i].id == x
                                && self.nodes@[i].kind is Drone;
                        assert(i < before.len());
                        assert(before[i].id == x && before[i].kind is Drone);
                    }
                }
                if kind is Drone {
                    assert(spec_is_drone(self.nodes@, id));
                } else {
                    assert(!spec_is_drone(self.nodes@, id)) by {
                        if spec_is_drone(self.nodes@, id) {
                            let i = choose|i: int|
                                0 <= i < self.nodes@.len() && self.nodes@[i].id == id
                                    && self.nodes@[i].kind is Drone;
                            if i < before.len() {
                                assert(spec_has_node(before, id));
                            }
                        }
                    }
                }
                assert forall|a: NodeId, b: NodeId|
                    spec_linked(before, a, b) == spec_linked(self.nodes@, a, b) by {
                    if spec_linked(before, a, b) {
                        let i = choose|i: int|
                            0 <= i < before.len() && before[i].id == a
                                && before[i].neighbors@.contains(b);
                        assert(self.nodes@[i].id == a && self.nodes@[i].neighbors@.contains(b));
                    }
                    if spec_linked(self.nodes@, a, b) {
                        let i = choose|i: int|
                            0 <= i < self.nodes@.len() && self.nodes@[i].id == a
                                && self.nodes@[i].neighbors@.contains(b);
                        if i < before.len() {
                            assert(spec_linked(before, a, b));
                        } else {
                            assert(self.nodes@[i].neighbors@.len() == 0);
                        }
                    }
                }
            }
        }
    }

    /// Records a directed link from `a` to `b`; with the reverse call this
    /// makes a link undirected. Returns false and changes nothing when `a`
    /// is unknown.
    pub fn add_link(&mut self, a: NodeId, b: NodeId) -> (ok: bool)
        requires
            old(self).well_formed(),
        ensures
            final(self).well_formed(),
            ok == spec_has_node(old(self).nodes@, a),
            !ok ==> *final(self) == *old(self),
            ok ==> spec_linked(final(self).nodes@, a, b),
            forall|x: NodeId|
                spec_has_node(old(self).nodes@, x) == spec_has_node(final(self).nodes@, x),
            forall|x: NodeId| spec_is_drone(old(self).nodes@, x) == spec_is_drone(
                final(self).nodes@,
                x,
            ),
            forall|x: NodeId, y: NodeId|
                spec_linked(old(self).nodes@, x, y) ==> spec_linked(final(self).nodes@, x, y),
            forall|x: NodeId, y: NodeId|
                !(x == a && y == b) && spec_linked(final(self).nodes@, x, y) ==> spec_linked(
                    old(self).nodes@,
                    x,
                    y,
                ),
    {
        let idx = match self.find_index(a) {
            Some(i) => i,
            None => {
                return false;
            },
        };
        let ghost before = self.nodes@;
        let node = &self.nodes[idx];
        let mut neighbors = crate::routing::clone_ids(&node.neighbors);
        if !contains_id(&neighbors, b) {
            neighbors.push(b);
        }
        let updated = Node { id: node.id, kind: node.kind, neighbors };
        let ghost up = updated;
        self.nodes.set(idx, updated);
        proof {
            let after = self.nodes@;
            assert(after == before.update(idx as int, up));
            assert(up.neighbors@.contains(b)) by {
                if !before[idx as int].neighbors@.contains(b) {
                    assert(up.neighbors@.last() == b);
                }
            }
            assert(after[idx as int].id == a && after[idx as int].neighbors@.contains(b));
            assert(spec_linked(after, a, b));
            assert forall|x: NodeId|
                spec_has_node(before, x) == spec_has_node(after, x) by {
                if spec_has_node(before, x) {
                    let i = choose|i: int| 0 <= i < before.len() && before[i].id == x;
                    assert(after[i].id == x);
                }
                if spec_has_node(after, x) {
                    let i = choose|i: int| 0 <= i < after.len() && after[i].id == x;
                    assert(before[i].id == x);
                }
            }
            assert forall|x: NodeId|
                spec_is_drone(before, x) == spec_is_drone(after, x) by {
                if spec_is_drone(before, x) {
                    let i = choose|i: int|
                        0 <= i < before.len() && before[i].id == x && before[i].kind is Drone;
                    assert(after[i].id == x && after[i].kind is Drone);
                }
                if spec_is_drone(after, x) {
                    let i = choose|i: int|
                        0 <= i < after.len() && after[i].id == x && after[i].kind is Drone;
                    assert(before[i].id == x && before[i].kind is Drone);
                }
            }
            assert forall|x: NodeId, y: NodeId|
                spec_linked(before, x, y) implies spec_linked(after, x, y) by {
                let i = choose|i: int|
                    0 <= i < before.len() && before[i].id == x && before[i].neighbors@.contains(y);
                if i == idx {
                    assert(before[i].neighbors@.contains(y));
                    let k = choose|k: int|
                        0 <= k < before[i].neighbors@.len() && before[i].neighbors@[k] == y;
                    assert(up.neighbors@[k] == y);
                    assert(after[i].id == x && after[i].neighbors@.contains(y));
                } else {
                    assert(after[i].id == x && after[i].neighbors@.contains(y));
                }
            }
            assert forall|x: NodeId, y: NodeId|
                !(x == a && y == b) && spec_linked(after, x, y) implies spec_linked(
                before,
                x,
                y,
            ) by {
                let i = choose|i: int|
                    0 <= i < after.len() && after[i].id == x && after[i].neighbors@.contains(y);
                if i == idx {
                    let k = choose|k: int|
                        0 <= k < after[i].neighbors@.len() && after[i].neighbors@[k] == y;
                    if k < before[idx as int].neighbors@.len() {
                        assert(before[i].neighbors@[k] == y);
                        assert(spec_linked(before, x, y));
                    }
                } else {
                    assert(spec_linked(before, x, y));
                }
            }
        }
        true
    }

    /// Removes the directed link from `a` to `b`, if recorded. A later
    /// packet at `a` whose next hop is `b` then resolves as a routing error.
    pub fn remove_link(&mut self, a: NodeId, b: NodeId)
        requires
            old(self).well_formed(),
        ensures
            final(self).well_formed(),
            !spec_linked(final(self).nodes@, a, b),
            forall|x: NodeId|
                spec_has_node(old(self).nodes@, x) == spec_has_node(final(self).nodes@, x),
            forall|x: NodeId| spec_is_drone(old(self).nodes@, x) == spec_is_drone(
                final(self).nodes@,
                x,
            ),
            forall|x: NodeId, y: NodeId|
                !(x == a && y == b) ==> spec_linked(old(self).nodes@, x, y) == spec_linked(
                    final(self).nodes@,
                    x,
                    y,
                ),
    {
        let idx = match self.find_index(a) {
            Some(i) => i,
            None => {
                proof {
                    assert(!spec_linked(self.nodes@, a, b));
                }
                return ;
            },
        };
        let ghost before = self.nodes@;
        let node = &self.nodes[idx];
        let mut kept: Vec<NodeId> = Vec::new();
        let mut i: usize = 0;
        while i < node.neighbors.len()
            invariant
                i <= node.neighbors@.len(),
                forall|k: int| 0 <= k < kept@.len() ==> (#[trigger] kept@[k]) != b,
                forall|y: NodeId|
                    y != b && node.neighbors@.take(i as int).contains(y) ==> kept@.contains(y),
                forall|k: int|
                    0 <= k < kept@.len() ==> node.neighbors@.contains(#[trigger] kept@[k]),
            decreases node.neighbors@.len() - i,
        {
            let ghost kept0 = kept@;
            let x = node.neighbors[i];
            if x != b {
                kept.push(x);
            }
            proof {
                assert forall|y: NodeId|
                    y != b && node.neighbors@.take(i + 1 as int).contains(y) implies kept@.contains(
                    y,
                ) by {
                    let k = choose|k: int|
                        0 <= k < i + 1 && #[trigger] node.neighbors@.take(i + 1 as int)[k] == y;
                    if k < i {
                        assert(node.neighbors@.take(i as int)[k] == y);
                        assert(node.neighbors@.take(i as int).contains(y));
                        assert(kept0.contains(y));
                        let m = choose|m: int| 0 <= m < kept0.len() && kept0[m] == y;
                        assert(kept@[m] == y);
                    } else {
                        assert(node.neighbors@.take(i + 1 as int)[i as int] == node.neighbors@[
                            i as int
                        ]);
                        assert(x == y);
                        assert(kept@.last() == y);
                    }
                }
            }
            i = i + 1;
        }
        let updated = Node { id: node.id, kind: node.kind, neighbors: kept };
        let ghost up = updated;
        self.nodes.set(idx, updated);
        proof {
            let after = self.nodes@;
            assert(node.neighbors@.take(node.neighbors@.len() as int) =~= node.neighbors@);
            assert(!spec_linked(after, a, b)) by {
                if spec_linked(after, a, b) {
                    let i = choose|i: int|
                        0 <= i < after.len() && after[i].id == a && after[i].neighbors@.contains(
                            b,
                        );
                    assert(i == idx);
                }
            }
            assert forall|x: NodeId|
                spec_has_node(before, x) == spec_has_node(after, x) by {
                if spec_has_node(before, x) {
                    let i = choose|i: int| 0 <= i < before.len() && before[i].id == x;
                    assert(after[i].id == x);
                }
                if spec_has_node(after, x) {
                    let i = choose|i: int| 0 <= i < after.len() && after[i].id == x;
                    assert(before[i].id == x);
                }
            }
            assert forall|x: NodeId|
                spec_is_drone(before, x) == spec_is_drone(after, x) by {
                if spec_is_drone(before, x) {
                    let i = choose|i: int|
                        0 <= i < before.len() && before[i].id == x && before[i].kind is Drone;
                    assert(after[i].id == x && after[i].kind is Drone);
                }
                if spec_is_drone(after, x) {
                    let i = choose|i: int|
                        0 <= i < after.len() && after[i].id == x && after[i].kind is Drone;
                    assert(before[i].id == x && before[i].kind is Drone);
                }
            }
            assert forall|x: NodeId, y: NodeId|
                !(x == a && y == b) implies spec_linked(before, x, y) == spec_linked(
                after,
                x,
                y,
            ) by {
                if spec_linked(before, x, y) {
                    let i = choose|i: int|
                        0 <= i < before.len() && before[i].id == x && before[i].neighbors@.contains(
                            y,
                        );
                    if i == idx {
                        assert(x == a && y != b);
                        assert(up.neighbors@.contains(y));
                        assert(after[i].id == x && after[i].neighbors@.contains(y));
                    } else {
                        assert(after[i].id == x && after[i].neighbors@.contains(y));
                    }
                }
                if spec_linked(after, x, y) {
                    let i = choose|i: int|
                        0 <= i < after.len() && after[i].id == x && after[i].neighbors@.contains(
                            y,
                        );
                    if i == idx {
                        let k = choose|k: int|
                            0 <= k < up.neighbors@.len() && up.neighbors@[k] == y;
                        assert(before[i].neighbors@.contains(y));
                    } else {
                        assert(spec_linked(before, x, y));
                    }
                }
            }
        }
    }

    /// Breadth-first route search over the known graph, avoiding one node.
    ///
    /// Returns a route exactly when the recorded graph holds a valid path:
    /// one that starts at `src`, ends at `dst`, follows only recorded links,
    /// relays only through drones, and never touches the avoided node. The
    /// returned route is itself such a path, and a shortest one: no valid
    /// path has fewer hops.
    #[verifier::rlimit(100)]
    pub fn compute_route(&self, src: NodeId, dst: NodeId, avoid: Option<NodeId>) -> (r: Option<
        Route,
    >)
        requires
            self.well_formed(),
            src != dst,
            avoid matches Some(x) ==> x != src && x != dst,
        ensures
            r matches Some(route) ==> {
                &&& spec_valid_path(self.nodes@, src, dst, avoid, route.path@)
                &&& forall|p: Seq<NodeId>|
                    spec_valid_path(self.nodes@, src, dst, avoid, p) ==> route.path@.len()
                        <= p.len()
            },
            r is None ==> forall|p: Seq<NodeId>| !spec_valid_path(self.nodes@, src, dst, avoid, p),
    {
        let (has_avoid, avoid_id): (bool, NodeId) = match avoid {
            Some(x) => (true, x),
            None => (false, 0),
        };
        let mut visited: Vec<bool> = Vec::new();
        let mut parent: Vec<NodeId> = Vec::new();
        let mut dist: Vec<u16> = Vec::new();
        let mut i: usize = 0;
        while i < 256
            invariant
                i <= 256,
                visited@.len() == i,
                parent@.len() == i,
                dist@.len() == i,
                forall|j: int| 0 <= j < i ==> !(#[trigger] visited@[j]),
                forall|j: int| 0 <= j < i ==> (#[trigger] dist@[j]) == 0,
            decreases 256 - i,
        {
            visited.push(false);
            parent.push(0);
            dist.push(0);
            i = i + 1;
        }
        proof {
            lemma_count_false_all(visited@);
            lemma_count_false_update(visited@, src as int);
        }
        visited.set(src as usize, true);
        let mut queue: Vec<NodeId> = Vec::new();
        queue.push(src);
        proof {
            assert(queue@[0] == src);
            assert forall|v: int| 0 <= v < 256 && visited@[v] implies queue@.contains(v as u8) by {
                assert(v == src as int);
                assert(queue@[0] == v as u8);
            }
        }
        let mut head: usize = 0;
        while head < queue.len()
            invariant
                self.well_formed(),
                src != dst,
                avoid matches Some(x) ==> x != src && x != dst,
                has_avoid == (avoid is Some),
                has_avoid ==> avoid == Some(avoid_id),
                visited@.len() == 256,
                parent@.len() == 256,
                dist@.len() == 256,
                head <= queue@.len(),
                visited@[src as int],
                dist@[src as int] == 0,
                forall|k: int| 0 <= k < queue@.len() ==> visited@[(#[trigger] queue@[k]) as int],
                forall|v: int| 0 <= v < 256 && #[trigger] visited@[v] ==> queue@.contains(v as u8),
                forall|k: int|
                    0 <= k < head ==> spec_expanded(
                        self.nodes@,
                        src,
                        avoid,
                        #[trigger] queue@[k],
                        visited@,
                        dist@,
                    ),
                forall|k1: int, k2: int|
                    #![trigger queue@[k1], queue@[k2]]
                    0 <= k1 <= k2 < queue@.len() ==> dist@[queue@[k1] as int] <= dist@[queue@[k2] as int],
                head < queue@.len() ==> dist@[queue@[queue@.len() - 1] as int] <= dist@[queue@[head as int] as int] + 1,
                forall|v: int|
                    0 <= v < 256 && #[trigger] visited@[v] ==> dist@[v] < 256 - count_false(
                        visited@,
                    ),
                forall|v: int|
                    0 <= v < 256 && #[trigger] visited@[v] && v != src ==> {
                        let p = parent@[v];
                        &&& visited@[p as int]
                        &&& dist@[p as int] + 1 == dist@[v]
                        &&& dist@[v] >= 1
                        &&& spec_linked(self.nodes@, p, v as NodeId)
                        &&& (p == src || spec_is_drone(self.nodes@, p))
                        &&& spec_avoid_ok(avoid, v as NodeId)
                    },
            decreases count_false(visited@), queue@.len() - head,
        {
            let ghost visited_at_start = visited@;
            let ghost queue_at_start = queue@;
            let v = queue[head];
            let expandable = v == src || self.is_drone(v);
            if expandable {
                match self.find_index(v) {
                    Some(vi) => {
                        let dv = dist[v as usize];
                        proof {
                            lemma_count_false_bounds(visited@);
                            assert(dv < 256);
                        }
                        let node = &self.nodes[vi];
                        let mut n: usize = 0;
                        while n < node.neighbors.len()
                            invariant
                                self.well_formed(),
                                src != dst,
                                avoid matches Some(x) ==> x != src && x != dst,
                                has_avoid == (avoid is Some),
                                has_avoid ==> avoid == Some(avoid_id),
                                n <= node.neighbors@.len(),
                                head < queue@.len(),
                                vi < self.nodes@.len(),
                                node == self.nodes@[vi as int],
                                node.id == v,
                                v == src || spec_is_drone(self.nodes@, v),
                                dv < 256,
                                dv == dist@[v as int],
                                visited@.len() == 256,
                                parent@.len() == 256,
                                dist@.len() == 256,
                                visited@[src as int],
                                visited@[v as int],
                                dist@[src as int] == 0,
                                count_false(visited@) <= count_false(visited_at_start),
                                queue@.len() - queue_at_start.len() == count_false(
                                    visited_at_start,
                                ) - count_false(visited@),
                                forall|k: int|
                                    0 <= k < queue_at_start.len() ==> #[trigger] queue@[k]
                                        == queue_at_start[k],
                                forall|u: int|
                                    0 <= u < 256 && #[trigger] visited_at_start[u] ==> visited@[u],
                                forall|k: int|
                                    0 <= k < queue@.len() ==> visited@[(#[trigger] queue@[k]) as int],
                                forall|u: int|
                                    0 <= u < 256 && #[trigger] visited@[u] ==> queue@.contains(
                                        u as u8,
                                    ),
                                forall|k: int|
                                    0 <= k < head ==> spec_expanded(
                                        self.nodes@,
                                        src,
                                        avoid,
                                        #[trigger] queue@[k],
                                        visited@,
                                        dist@,
                                    ),
                                forall|k1: int, k2: int|
                                    #![trigger queue@[k1], queue@[k2]]
                                    0 <= k1 <= k2 < queue@.len() ==> dist@[queue@[k1] as int]
                                        <= dist@[queue@[k2] as int],
                                dist@[queue@[queue@.len() - 1] as int] <= dv + 1,
                                forall|m: int|
                                    0 <= m < n && spec_avoid_ok(
                                        avoid,
                                        #[trigger] node.neighbors@[m],
                                    ) ==> visited@[node.neighbors@[m] as int]
                                        && dist@[node.neighbors@[m] as int] <= dv + 1,
                                forall|u: int|
                                    0 <= u < 256 && #[trigger] visited@[u] ==> dist@[u] < 256
                                        - count_false(visited@),
                                forall|u: int|
                                    0 <= u < 256 && #[trigger] visited@[u] && u != src ==> {
                                        let p = parent@[u];
                                        &&& visited@[p as int]
                                        &&& dist@[p as int] + 1 == dist@[u]
                                        &&& dist@[u] >= 1
                                        &&& spec_linked(self.nodes@, p, u as NodeId)
                                        &&& (p == src || spec_is_drone(self.nodes@, p))
                                        &&& spec_avoid_ok(avoid, u as NodeId)
                                    },
                            decreases node.neighbors@.len() - n,
                        {
                            let w = node.neighbors[n];
                            let blocked = has_avoid && w == avoid_id;
                            if !visited[w as usize] && !blocked {
                                let ghost visited_before = visited@;
                                let ghost queue_before = queue@;
                                let ghost dist_before = dist@;
                                proof {
                                    lemma_count_false_update(visited@, w as int);
                                    assert forall|k: int|
                                        0 <= k < queue_before.len() implies #[trigger] queue_before[k]
                                            != w by {
                                        assert(visited_before[queue_before[k] as int]);
                                    }
                                }
                                visited.set(w as usize, true);
                                parent.set(w as usize, v);
                                dist.set(w as usize, dv + 1);
                                queue.push(w);
                                proof {
                                    assert(node.neighbors@[n as int] == w);
                                    assert(node.neighbors@.contains(w));
                                    assert(spec_linked(self.nodes@, v, w));
                                    assert forall|k: int|
                                        0 <= k < queue_before.len() implies dist@[(
                                        #[trigger] queue@[k]) as int] == dist_before[queue_before[k] as int] by {
                                        assert(queue@[k] == queue_before[k]);
                                        assert(queue_before[k] != w);
                                    }
                                    assert(queue@.last() == w);
                                    assert(dist@[w as int] == dv + 1);
                                    assert forall|u: int|
                                        0 <= u < 256 && #[trigger] visited@[u] implies queue@.contains(
                                        u as u8,
                                    ) by {
                                        if u != w as int {
                                            assert(visited_before[u]);
                                            assert(queue_before.contains(u as u8));
                                            let k = choose|k: int|
                                                0 <= k < queue_before.len() && queue_before[k]
                                                    == u as u8;
                                            assert(queue@[k] == u as u8);
                                        } else {
                                            assert(queue@.last() == w);
                                        }
                                    }
                                    assert forall|k: int|
                                        0 <= k < head implies spec_expanded(
                                        self.nodes@,
                                        src,
                                        avoid,
                                        #[trigger] queue@[k],
                                        visited@,
                                        dist@,
                                    ) by {
                                        assert(queue@[k] == queue_before[k]);
                                        assert(spec_expanded(
                                            self.nodes@,
                                            src,
                                            avoid,
                                            queue_before[k],
                                            visited_before,
                                            dist_before,
                                        ));
                                        let u = queue_before[k];
                                        assert(visited_before[u as int]);
                                        assert(u != w);
                                        assert(dist@[u as int] == dist_before[u as int]);
                                        if u == src || spec_is_drone(self.nodes@, u) {
                                            assert forall|x: NodeId|
                                                spec_linked(self.nodes@, u, x) && spec_avoid_ok(
                                                    avoid,
                                                    x,
                                                ) implies visited@[x as int] && dist@[x as int]
                                                <= dist@[u as int] + 1 by {
                                                assert(visited_before[x as int]);
                                                assert(x != w);
                                                assert(dist@[x as int] == dist_before[x as int]);
                                            }
                                        }
                                    }
                                    assert forall|k1: int, k2: int|
                                        #![trigger queue@[k1], queue@[k2]]
                                        0 <= k1 <= k2 < queue@.len() implies dist@[queue@[k1] as int]
                                            <= dist@[queue@[k2] as int] by {
                                        if k2 < queue@.len() - 1 {
                                            assert(queue@[k1] == queue_before[k1]);
                                            assert(queue@[k2] == queue_before[k2]);
                                            assert(dist_before[queue_before[k1] as int]
                                                <= dist_before[queue_before[k2] as int]);
                                        } else {
                                            if k1 < queue@.len() - 1 {
                                                assert(queue@[k1] == queue_before[k1]);
                                                assert(dist_before[queue_before[k1] as int]
                                                    <= dist_before[queue_before[queue_before.len()
                                                    - 1] as int]);
                                                assert(dist_before[queue_before[queue_before.len()
                                                    - 1] as int] <= dv + 1);
                                            }
                                        }
                                    }
                                }
                            } else {
                                proof {
                                    if !blocked {
                                        let u = w as int;
                                        assert(visited@[u]);
                                        assert(queue@.contains(w));
                                        let k = choose|k: int|
                                            0 <= k < queue@.len() && queue@[k] == w;
                                        assert(dist@[queue@[k] as int] <= dist@[queue@[queue@.len()
                                            - 1] as int]);
                                        assert(dist@[w as int] <= dv + 1);
                                    }
                                }
                            }
                            n = n + 1;
                        }
                        proof {
                            assert(spec_expanded(self.nodes@, src, avoid, v, visited@, dist@)) by {
                                assert forall|w: NodeId|
                                    spec_linked(self.nodes@, v, w) && spec_avoid_ok(
                                        avoid,
                                        w,
                                    ) implies visited@[w as int] && dist@[w as int] <= dist@[v as int]
                                    + 1 by {
                                    let i2 = choose|i2: int|
                                        0 <= i2 < self.nodes@.len() && self.nodes@[i2].id == v
                                            && self.nodes@[i2].neighbors@.contains(w);
                                    assert(i2 == vi);
                                    let m = choose|m: int|
                                        0 <= m < node.neighbors@.len() && node.neighbors@[m] == w;
                                    assert(visited@[node.neighbors@[m] as int]);
                                    assert(dist@[node.neighbors@[m] as int] <= dv + 1);
                                }
                            }
                        }
                    },
                    None => {
                        proof {
                            assert(spec_expanded(self.nodes@, src, avoid, v, visited@, dist@)) by {
                                assert forall|w: NodeId|
                                    spec_linked(self.nodes@, v, w) && spec_avoid_ok(
                                        avoid,
                                        w,
                                    ) implies visited@[w as int] && dist@[w as int] <= dist@[v as int]
                                    + 1 by {
                                    let i2 = choose|i2: int|
                                        0 <= i2 < self.nodes@.len() && self.nodes@[i2].id == v
                                            && self.nodes@[i2].neighbors@.contains(w);
                                    assert(spec_has_node(self.nodes@, v));
                                }
                            }
                        }
                    },
                }
            } else {
                proof {
                    assert(spec_expanded(self.nodes@, src, avoid, v, visited@, dist@));
                }
            }
            proof {
                assert(queue@[head as int] == v);
                assert forall|k: int| 0 <= k < head + 1 implies spec_expanded(
                    self.nodes@,
                    src,
                    avoid,
                    #[trigger] queue@[k],
                    visited@,
                    dist@,
                ) by {
                    if k == head {
                        assert(queue@[k] == v);
                    }
                }
                if head + 1 < queue@.len() {
                    assert(dist@[queue@[head as int] as int] <= dist@[queue@[head + 1] as int]);
                }
            }
            head = head + 1;
        }
        proof {
            assert forall|u: NodeId| visited@[u as int] implies spec_expanded(
                self.nodes@,
                src,
                avoid,
                u,
                visited@,
                dist@,
            ) by {
                assert(queue@.contains(u));
                let k = choose|k: int| 0 <= k < queue@.len() && queue@[k] == u;
            }
        }
        if !visited[dst as usize] {
            proof {
                assert forall|p: Seq<NodeId>| !spec_valid_path(
                    self.nodes@,
                    src,
                    dst,
                    avoid,
                    p,
                ) by {
                    if spec_valid_path(self.nodes@, src, dst, avoid, p) {
                        lemma_path_reaches(
                            self.nodes@,
                            src,
                            dst,
                            avoid,
                            p,
                            visited@,
                            dist@,
                            p.len() - 1,
                        );
                    }
                }
            }
            return None;
        }
        let mut rev: Vec<NodeId> = Vec::new();
        rev.push(dst);
        let mut cur: NodeId = dst;
        while cur != src
            invariant
                self.well_formed(),
                src != dst,
                avoid matches Some(x) ==> x != src && x != dst,
                visited@.len() == 256,
                parent@.len() == 256,
                dist@.len() == 256,
                visited@[src as int],
                dist@[src as int] == 0,
                forall|v: int|
                    0 <= v < 256 && #[trigger] visited@[v] && v != src ==> {
                        let p = parent@[v];
                        &&& visited@[p as int]
                        &&& dist@[p as int] + 1 == dist@[v]
                        &&& dist@[v] >= 1
                        &&& spec_linked(self.nodes@, p, v as NodeId)
                        &&& (p == src || spec_is_drone(self.nodes@, p))
                        &&& spec_avoid_ok(avoid, v as NodeId)
                    },
                rev@.len() >= 1,
                rev@[0] == dst,
                rev@.last() == cur,
                visited@[cur as int],
                rev@.len() + dist@[cur as int] == 1 + dist@[dst as int],
                forall|k: int| 0 <= k < rev@.len() - 1 ==> (#[trigger] rev@[k]) != src,
                forall|k: int|
                    0 <= k < rev@.len() - 1 ==> spec_linked(
                        self.nodes@,
                        rev@[k + 1],
                        #[trigger] rev@[k],
                    ),
                forall|k: int|
                    1 <= k < rev@.len() ==> (#[trigger] rev@[k]) == src || spec_is_drone(
                        self.nodes@,
                        rev@[k],
                    ),
                forall|k: int| 0 <= k < rev@.len() ==> spec_avoid_ok(avoid, #[trigger] rev@[k]),
            decreases dist@[cur as int],
        {
            let p = parent[cur as usize];
            rev.push(p);
            cur = p;
        }
        let mut path: Vec<NodeId> = Vec::new();
        let mut i2: usize = rev.len();
        while i2 > 0
            invariant
                i2 <= rev@.len(),
                path@.len() == rev@.len() - i2,
                forall|k: int|
                    0 <= k < path@.len() ==> #[trigger] path@[k] == rev@[rev@.len() - 1 - k],
            decreases i2,
        {
            i2 = i2 - 1;
            path.push(rev[i2]);
        }
        proof {
            let l = rev@.len() as int;
            assert(path@.len() == l);
            assert(path@[0] == rev@[l - 1]);
            assert(path@.last() == rev@[0]);
            assert(rev@.last() == src);
            assert(l >= 2) by {
                assert(rev@[0] == dst && rev@.last() == src && src != dst);
            }
            assert forall|k: int|
                0 <= k < path@.len() - 1 implies spec_linked(
                self.nodes@,
                #[trigger] path@[k],
                path@[k + 1],
            ) by {
                let j = l - 2 - k;
                assert(path@[k] == rev@[j + 1]);
                assert(path@[k + 1] == rev@[j]);
            }
            assert forall|k: int|
                1 <= k < path@.len() - 1 implies spec_is_drone(
                self.nodes@,
                #[trigger] path@[k],
            ) by {
                let j = l - 1 - k;
                assert(path@[k] == rev@[j]);
                assert(1 <= j < l - 1);
                assert(rev@[j] != src);
                assert(rev@[j] == src || spec_is_drone(self.nodes@, rev@[j]));
            }
            assert forall|k: int| 0 <= k < path@.len() implies spec_avoid_ok(
                avoid,
                #[trigger] path@[k],
            ) by {
                assert(path@[k] == rev@[l - 1 - k]);
            }
            assert(spec_valid_path(self.nodes@, src, dst, avoid, path@));
            assert(path@.len() == 1 + dist@[dst as int]);
            assert forall|p2: Seq<NodeId>|
                spec_valid_path(self.nodes@, src, dst, avoid, p2) implies path@.len()
                <= p2.len() by {
                lemma_path_reaches(
                    self.nodes@,
                    src,
                    dst,
                    avoid,
                    p2,
                    visited@,
                    dist@,
                    p2.len() - 1,
                );
                assert(dist@[dst as int] <= p2.len() - 1);
            }
        }
        Some(Route { path })
    }

    /// Folds one flood trace into the local view: every node on the trace
    /// is recorded under its reported role, and every pair of consecutive
    /// trace entries becomes an undirected link. Nothing already known is
    /// lost.
    pub fn merge_trace(&mut self, trace: &Vec<(NodeId, crate::packet::NodeType)>)
        requires
            old(self).well_formed(),
        ensures
            final(self).well_formed(),
            forall|k: int|
                0 <= k < trace@.len() ==> spec_has_node(
                    final(self).nodes@,
                    (#[trigger] trace@[k]).0,
                ),
            forall|k: int|
                0 <= k < trace@.len() - 1 ==> spec_linked(
                    final(self).nodes@,
                    (#[trigger] trace@[k]).0,
                    trace@[k + 1].0,
                ) && spec_linked(final(self).nodes@, trace@[k + 1].0, trace@[k].0),
            forall|x: NodeId|
                spec_has_node(old(self).nodes@, x) ==> spec_has_node(final(self).nodes@, x),
            forall|x: NodeId, y: NodeId|
                spec_linked(old(self).nodes@, x, y) ==> spec_linked(final(self).nodes@, x, y),
            forall|x: NodeId|
                spec_has_node(final(self).nodes@, x) ==> spec_has_node(old(self).nodes@, x)
                    || crate::packet::spec_trace_contains(trace@, x),
            forall|x: NodeId, y: NodeId|
                spec_linked(final(self).nodes@, x, y) ==> spec_linked(old(self).nodes@, x, y)
                    || spec_trace_pair(trace@, x, y),
    {
        let ghost start = self.nodes@;
        let mut i: usize = 0;
        while i < trace.len()
            invariant
                self.well_formed(),
                forall|k: int|
                    0 <= k < i ==> spec_has_node(self.nodes@, (#[trigger] trace@[k]).0),
                forall|x: NodeId|
                    spec_has_node(self.nodes@, x) ==> spec_has_node(start, x)
                        || crate::packet::spec_trace_contains(trace@, x),
                forall|x: NodeId| spec_has_node(start, x) ==> spec_has_node(self.nodes@, x),
                forall|x: NodeId, y: NodeId|
                    spec_linked(start, x, y) == spec_linked(self.nodes@, x, y),
            decreases trace@.len() - i,
        {
            let kind = match trace[i].1 {
                crate::packet::NodeType::Client => NodeType::Client,
                crate::packet::NodeType::Drone => NodeType::Drone,
                crate::packet::NodeType::Server => NodeType::Server,
            };
            self.ensure_node(trace[i].0, kind);
            proof {
                assert(crate::packet::spec_trace_contains(trace@, trace@[i as int].0)) by {
                    assert(trace@[i as int].0 == trace@[i as int].0);
                }
            }
            i = i + 1;
        }
        if trace.len() == 0 {
            return ;
        }
        let mut j: usize = 0;
        while j < trace.len() - 1
            invariant
                self.well_formed(),
                trace@.len() >= 1,
                forall|k: int|
                    0 <= k < trace@.len() ==> spec_has_node(self.nodes@, (#[trigger] trace@[k]).0),
                forall|k: int|
                    0 <= k < j ==> spec_linked(
                        self.nodes@,
                        (#[trigger] trace@[k]).0,
                        trace@[k + 1].0,
                    ) && spec_linked(self.nodes@, trace@[k + 1].0, trace@[k].0),
                forall|x: NodeId| spec_has_node(start, x) ==> spec_has_node(self.nodes@, x),
                forall|x: NodeId|
                    spec_has_node(self.nodes@, x) ==> spec_has_node(start, x)
                        || crate::packet::spec_trace_contains(trace@, x),
                forall|x: NodeId, y: NodeId|
                    spec_linked(start, x, y) ==> spec_linked(self.nodes@, x, y),
                forall|x: NodeId, y: NodeId|
                    spec_linked(self.nodes@, x, y) ==> spec_linked(start, x, y)
                        || spec_trace_pair(trace@, x, y),
            decreases trace@.len() - 1 - j,
        {
            let a = trace[j].0;
            let b = trace[j + 1].0;
            let ok_ab = self.add_link(a, b);
            let ok_ba = self.add_link(b, a);
            proof {
                assert(ok_ab && ok_ba);
                assert(spec_trace_pair(trace@, a, b)) by {
                    assert(0 <= j < trace@.len() - 1 && (#[trigger] trace@[j as int]).0 == a
                        && trace@[j as int + 1].0 == b);
                }
                assert(spec_trace_pair(trace@, b, a)) by {
                    assert(0 <= j < trace@.len() - 1 && (#[trigger] trace@[j as int]).0 == a
                        && trace@[j as int + 1].0 == b);
                }
            }
            j = j + 1;
        }
    }
}

/// Whether a link from `x` to `y` joins two consecutive entries of a flood
/// trace, in either direction.
pub open spec fn spec_trace_pair(
    trace: Seq<(NodeId, crate::packet::NodeType)>,
    x: NodeId,
    y: NodeId,
) -> bool {
    exists|k: int|
        0 <= k < trace.len() - 1 && (((#[trigger] trace[k]).0 == x && trace[k + 1].0 == y) || (
        trace[k].0 == y && trace[k + 1].0 == x))
}

/// Whether a hop is allowed with the given node avoided.
pub open spec fn spec_avoid_ok(avoid: Option<NodeId>, v: NodeId) -> bool {
    match avoid {
        Some(x) => v != x,
        None => true,
    }
}

/// A usable delivery path in the recorded graph: from `src` to `dst`, every
/// link recorded, every inner hop a drone, never touching the avoided node.
pub open spec fn spec_valid_path(
    nodes: Seq<Node>,
    src: NodeId,
    dst: NodeId,
    avoid: Option<NodeId>,
    p: Seq<NodeId>,
) -> bool {
    &&& p.len() >= 2
    &&& p[0] == src
    &&& p.last() == dst
    &&& forall|k: int| 0 <= k < p.len() - 1 ==> spec_linked(nodes, #[trigger] p[k], p[k + 1])
    &&& forall|k: int| 1 <= k < p.len() - 1 ==> spec_is_drone(nodes, #[trigger] p[k])
    &&& forall|k: int| 0 <= k < p.len() ==> spec_avoid_ok(avoid, #[trigger] p[k])
}

/// A node the search is done with: if it may relay (or is the source), every
/// allowed neighbor of it has been reached, at most one hop further out.
pub open spec fn spec_expanded(
    nodes: Seq<Node>,
    src: NodeId,
    avoid: Option<NodeId>,
    u: NodeId,
    visited: Seq<bool>,
    dist: Seq<u16>,
) -> bool {
    (u == src || spec_is_drone(nodes, u)) ==> forall|w: NodeId|
        spec_linked(nodes, u, w) && spec_avoid_ok(avoid, w) ==> visited[w as int] && dist[w as int]
            <= dist[u as int] + 1
}

/// How many entries of the reach table are still unset.
pub open spec fn count_false(s: Seq<bool>) -> nat
    decreases s.len(),
{
    if s.len() == 0 {
        0
    } else {
        count_false(s.drop_last()) + if s.last() {
            0nat
        } else {
            1nat
        }
    }
}

proof fn lemma_count_false_all(s: Seq<bool>)
    requires
        forall|i: int| 0 <= i < s.len() ==> !s[i],
    ensures
        count_false(s) == s.len(),
    decreases s.len(),
{
    if s.len() > 0 {
        lemma_count_false_all(s.drop_last());
    }
}

proof fn lemma_count_false_bounds(s: Seq<bool>)
    ensures
        count_false(s) <= s.len(),
    decreases s.len(),
{
    if s.len() > 0 {
        lemma_count_false_bounds(s.drop_last());
    }
}

proof fn lemma_count_false_update(s: Seq<bool>, i: int)
    requires
        0 <= i < s.len(),
        !s[i],
    ensures
        count_false(s) >= 1,
        count_false(s.update(i, true)) == count_false(s) - 1,
    decreases s.len(),
{
    let t = s.update(i, true);
    if i == s.len() - 1 {
        assert(t.drop_last() =~= s.drop_last());
        lemma_count_false_bounds(s.drop_last());
    } else {
        lemma_count_false_update(s.drop_last(), i);
        assert(t.drop_last() =~= s.drop_last().update(i, true));
        assert(t.last() == s.last());
    }
}

/// Along a valid path, a closed search front that holds the source holds
/// every later hop too, within as many hops as the path has walked:
/// reachability cannot escape a closed front, and no path can undercut the
/// recorded hop counts.
proof fn lemma_path_reaches(
    nodes: Seq<Node>,
    src: NodeId,
    dst: NodeId,
    avoid: Option<NodeId>,
    p: Seq<NodeId>,
    visited: Seq<bool>,
    dist: Seq<u16>,
    j: int,
)
    requires
        spec_valid_path(nodes, src, dst, avoid, p),
        visited.len() == 256,
        dist.len() == 256,
        visited[src as int],
        dist[src as int] == 0,
        forall|u: NodeId| visited[u as int] ==> spec_expanded(nodes, src, avoid, u, visited, dist),
        0 <= j < p.len(),
    ensures
        visited[p[j] as int],
        dist[p[j] as int] <= j,
    decreases j,
{
    if j == 0 {
        assert(p[0] == src);
    } else {
        lemma_path_reaches(nodes, src, dst, avoid, p, visited, dist, j - 1);
        let u = p[j - 1];
        assert(u == src || spec_is_drone(nodes, u)) by {
            if j - 1 != 0 {
                assert(spec_is_drone(nodes, p[j - 1]));
            }
        }
        assert(spec_expanded(nodes, src, avoid, u, visited, dist));
        assert(spec_linked(nodes, u, p[j]));
        assert(spec_avoid_ok(avoid, p[j]));
    }
}

} // verus!
