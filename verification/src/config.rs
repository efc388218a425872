//! The initial-topology description handed in at startup: node ids, link
//! lists and drop rates. A trivial external structure, not part of the core
//! protocol contract; loading it from a file is the surrounding
//! application's business.

use vstd::prelude::*;
use crate::routing::NodeId;

verus! {

/// One relay in the initial topology. The drop rate is expressed in parts
/// of `crate::drone::PDR_UNIT`.
#[derive(Clone, Debug)]
pub struct Drone {
    pub id: NodeId,
    pub connected_drone_ids: Vec<NodeId>,
    pub pdr: u32,
}

#[derive(Clone, Debug)]
pub struct Client {
    pub id: NodeId,
    pub connected_drone_ids: Vec<NodeId>,
}

#[derive(Clone, Debug)]
pub struct Server {
    pub id: NodeId,
    pub connected_drone_ids: Vec<NodeId>,
}

#[derive(Clone, Debug)]
pub struct Config {
    pub drone: Vec<Drone>,
    pub client: Vec<Client>,
    pub server: Vec<Server>,
}

impl Config {
    /// All node ids named by the configuration, drones first, then clients,
    /// then servers.
    pub open spec fn spec_ids(self) -> Seq<NodeId> {
        self.drone@.map_values(|d: Drone| d.id) + self.client@.map_values(|c: Client| c.id)
            + self.server@.map_values(|s: Server| s.id)
    }

    /// A usable configuration names every node exactly once.
    pub open spec fn spec_ids_unique(self) -> bool {
        forall|i: int, j: int|
            0 <= i < self.spec_ids().len() && 0 <= j < self.spec_ids().len() && i != j
                ==> self.spec_ids()[i] != self.spec_ids()[j]
    }

    fn collect_ids(&self) -> (r: Vec<NodeId>)
        ensures
            r@ == self.spec_ids(),
    {
        let mut out: Vec<NodeId> = Vec::new();
        let mut i: usize = 0;
        while i < self.drone.len()
            invariant
                i <= self.drone@.len(),
                out@ == self.drone@.take(i as int).map_values(|d: Drone| d.id),
            decreases self.drone@.len() - i,
        {
            out.push(self.drone[i].id);
            proof {
                assert(self.drone@.take(i + 1 as int).map_values(|d: Drone| d.id) =~= out@);
            }
            i = i + 1;
        }
        proof {
            assert(self.drone@.take(self.drone@.len() as int) =~= self.drone@);
        }
        let mut j: usize = 0;
        while j < self.client.len()
            invariant
                j <= self.client@.len(),
                out@ == self.drone@.map_values(|d: Drone| d.id) + self.client@.take(
                    j as int,
                ).map_values(|c: Client| c.id),
            decreases self.client@.len() - j,
        {
            out.push(self.client[j].id);
            proof {
                assert(self.drone@.map_values(|d: Drone| d.id) + self.client@.take(
                    j + 1 as int,
                ).map_values(|c: Client| c.id) =~= out@);
            }
            j = j + 1;
        }
        proof {
            assert(self.client@.take(self.client@.len() as int) =~= self.client@);
        }
        let mut k: usize = 0;
        while k < self.server.len()
            invariant
                k <= self.server@.len(),
                out@ == self.drone@.map_values(|d: Drone| d.id) + self.client@.map_values(
                    |c: Client| c.id,
                ) + self.server@.take(k as int).map_values(|s: Server| s.id),
            decreases self.server@.len() - k,
        {
            out.push(self.server[k].id);
            proof {
                assert(self.drone@.map_values(|d: Drone| d.id) + self.client@.map_values(
                    |c: Client| c.id,
                ) + self.server@.take(k + 1 as int).map_values(|s: Server| s.id) =~= out@);
            }
            k = k + 1;
        }
        proof {
            assert(self.server@.take(self.server@.len() as int) =~= self.server@);
            assert(out@ =~= self.spec_ids());
        }
        out
    }

    /// Whether every node id in the configuration is distinct.
    pub fn ids_unique(&self) -> (r: bool)
        ensures
            r == self.spec_ids_unique(),
    {
        let ids = self.collect_ids();
        let mut i: usize = 0;
        while i < ids.len()
            invariant
                i <= ids@.len(),
                ids@ == self.spec_ids(),
                forall|a: int, b: int| 0 <= a < i && a < b < ids@.len() ==> ids@[a] != ids@[b],
            decreases ids@.len() - i,
        {
            let mut j: usize = i + 1;
            while j < ids.len()
                invariant
                    i < j || j == i + 1,
                    i + 1 <= j <= ids@.len(),
                    i < ids@.len(),
                    ids@ == self.spec_ids(),
                    forall|b: int| i < b < j ==> ids@[i as int] != ids@[b],
                decreases ids@.len() - j,
            {
                if ids[i] == ids[j] {
                    return false;
                }
                j = j + 1;
            }
            i = i + 1;
        }
        true
    }
}

} // verus!
