//! The declarative topology description: one entry per node, each with its
//! id and the ids of its neighbors. Edges coming from configuration are
//! assumed to be listed on both endpoints already.

use vstd::prelude::*;

verus! {

/// Address of a node, unique across the whole topology.
pub type NodeId = u8;

/// Denominator of a [`DropRate`]: rates are stored in parts per million.
pub const DROP_RATE_UNIT: u32 = 1000000;

/// Probability that a drone discards a packet it would otherwise forward,
/// stored in parts per million so that it stays exact arithmetic.
/// A well-formed rate lies in `[0, 1)`.
#[derive(Clone, Copy, Debug, PartialEq, Eq, Structural)]
pub struct DropRate {
    pub ppm: u32,
}

impl DropRate {
    /// A rate is a probability strictly below one.
    pub open spec fn wf(self) -> bool {
        self.ppm < DROP_RATE_UNIT
    }

    /// The rate at which nothing is ever dropped.
    pub fn zero() -> (r: DropRate)
        ensures
            r.ppm == 0,
            r.wf(),
    {
        DropRate { ppm: 0 }
    }

    /// Builds a rate from parts per million; rejects values of one or more.
    pub fn from_ppm(ppm: u32) -> (r: Option<DropRate>)
        ensures
            match r {
                Some(d) => d.ppm == ppm && d.wf(),
                None => ppm >= DROP_RATE_UNIT,
            },
    {
        if ppm < DROP_RATE_UNIT {
            Some(DropRate { ppm })
        } else {
            None
        }
    }
}

/// A relay node: forwards packets and may drop a fraction of them.
pub struct DroneEntry {
    pub id: NodeId,
    pub pdr: DropRate,
    pub connected_node_ids: Vec<NodeId>,
}

/// An endpoint that originates traffic.
pub struct ClientEntry {
    pub id: NodeId,
    pub connected_drone_ids: Vec<NodeId>,
}

/// An endpoint that terminates traffic.
pub struct ServerEntry {
    pub id: NodeId,
    pub connected_drone_ids: Vec<NodeId>,
}

/// Ordered lists of every declared node, the input of the wiring step.
pub struct TopologyDescription {
    pub drones: Vec<DroneEntry>,
    pub clients: Vec<ClientEntry>,
    pub servers: Vec<ServerEntry>,
}

impl TopologyDescription {
    /// Ids of the declared drones, in declaration order.
    pub open spec fn drone_id_seq(self) -> Seq<NodeId> {
        self.drones@.map_values(|d: DroneEntry| d.id)
    }

    /// Ids of the declared clients, in declaration order.
    pub open spec fn client_id_seq(self) -> Seq<NodeId> {
        self.clients@.map_values(|c: ClientEntry| c.id)
    }

    /// Ids of the declared servers, in declaration order.
    pub open spec fn server_id_seq(self) -> Seq<NodeId> {
        self.servers@.map_values(|s: ServerEntry| s.id)
    }

    /// Whether some declared node carries this id.
    pub open spec fn has_id(self, id: NodeId) -> bool {
        ||| self.drone_id_seq().contains(id)
        ||| self.client_id_seq().contains(id)
        ||| self.server_id_seq().contains(id)
    }

    /// The declared ids as a set.
    pub open spec fn id_set(self) -> Set<NodeId> {
        Set::new(|id: NodeId| self.has_id(id))
    }

    /// The drone ids as a set.
    pub open spec fn drone_id_set(self) -> Set<NodeId> {
        Set::new(|id: NodeId| self.drone_id_seq().contains(id))
    }

    /// How many nodes are declared in all.
    pub open spec fn node_count(self) -> int {
        self.drones@.len() + self.clients@.len() + self.servers@.len() as int
    }

    /// No id is declared twice.
    pub open spec fn ids_distinct(self) -> bool {
        &&& self.drone_id_seq().no_duplicates()
        &&& self.client_id_seq().no_duplicates()
        &&& self.server_id_seq().no_duplicates()
        &&& forall|x: NodeId|
            #[trigger] self.drone_id_seq().contains(x) ==> !self.client_id_seq().contains(x)
        &&& forall|x: NodeId|
            #[trigger] self.drone_id_seq().contains(x) ==> !self.server_id_seq().contains(x)
        &&& forall|x: NodeId|
            #[trigger] self.client_id_seq().contains(x) ==> !self.server_id_seq().contains(x)
    }

    /// Every drop rate lies in `[0, 1)`.
    pub open spec fn rates_wf(self) -> bool {
        forall|i: int| 0 <= i < self.drones@.len() ==> (#[trigger] self.drones@[i]).pdr.wf()
    }

    /// A description is well formed when its ids are unique and its rates
    /// are probabilities below one. This must hold before wiring begins.
    pub open spec fn wf(self) -> bool {
        self.ids_distinct() && self.rates_wf()
    }

    /// An empty description, to be filled entry by entry.
    pub fn new() -> (r: TopologyDescription)
        ensures
            r.drones@.len() == 0,
            r.clients@.len() == 0,
            r.servers@.len() == 0,
    {
        TopologyDescription { drones: Vec::new(), clients: Vec::new(), servers: Vec::new() }
    }

    /// Whether some declared node carries this id, decided by scanning the
    /// three lists.
    pub fn contains_id(&self, id: NodeId) -> (r: bool)
        ensures
            r == self.has_id(id),
    {
        let mut i: usize = 0;
        while i < self.drones.len()
            invariant
                i <= self.drones@.len(),
                forall|k: int| 0 <= k < i ==> self.drones@[k].id != id,
            decreases self.drones@.len() - i,
        {
            if self.drones[i].id == id {
                assert(self.drone_id_seq()[i as int] == id);
                return true;
            }
            i += 1;
        }
        let mut j: usize = 0;
        while j < self.clients.len()
            invariant
                j <= self.clients@.len(),
                forall|k: int| 0 <= k < j ==> self.clients@[k].id != id,
            decreases self.clients@.len() - j,
        {
            if self.clients[j].id == id {
                assert(self.client_id_seq()[j as int] == id);
                return true;
            }
            j += 1;
        }
        let mut k: usize = 0;
        while k < self.servers.len()
            invariant
                k <= self.servers@.len(),
                forall|m: int| 0 <= m < k ==> self.servers@[m].id != id,
            decreases self.servers@.len() - k,
        {
            if self.servers[k].id == id {
                assert(self.server_id_seq()[k as int] == id);
                return true;
            }
            k += 1;
        }
        false
    }

    /// The drone ids, in declaration order, as a fresh vector.
    pub fn drone_id_list(&self) -> (r: Vec<NodeId>)
        ensures
            r@ == self.drone_id_seq(),
    {
        let mut r: Vec<NodeId> = Vec::new();
        let mut i: usize = 0;
        while i < self.drones.len()
            invariant
                i <= self.drones@.len(),
                r@ == self.drone_id_seq().take(i as int),
            decreases self.drones@.len() - i,
        {
            r.push(self.drones[i].id);
            proof {
                assert(self.drone_id_seq().take(i + 1) == self.drone_id_seq().take(i as int).push(
                    self.drones@[i as int].id,
                ));
            }
            i += 1;
        }
        proof {
            assert(self.drone_id_seq().take(self.drones@.len() as int) == self.drone_id_seq());
        }
        r
    }
}

/// A sequence gains exactly one member by a push.
pub proof fn lemma_push_contains<A>(s: Seq<A>, x: A, y: A)
    ensures
        s.push(x).contains(y) <==> s.contains(y) || y == x,
{
    if s.contains(y) {
        let i = choose|i: int| 0 <= i < s.len() && s[i] == y;
        assert(s.push(x)[i] == y);
    }
    assert(s.push(x)[s.len() as int] == x);
    if s.push(x).contains(y) && y != x {
        let i = choose|i: int| 0 <= i < s.push(x).len() && s.push(x)[i] == y;
        assert(i < s.len());
        assert(s[i] == y);
    }
}

/// Copies a list of ids element by element.
pub fn copy_ids(v: &Vec<NodeId>) -> (r: Vec<NodeId>)
    ensures
        r@ == v@,
{
    let mut r: Vec<NodeId> = Vec::new();
    let mut i: usize = 0;
    while i < v.len()
        invariant
            i <= v@.len(),
            r@ == v@.take(i as int),
        decreases v@.len() - i,
    {
        r.push(v[i]);
        proof {
            assert(v@.take(i + 1) == v@.take(i as int).push(v@[i as int]));
        }
        i += 1;
    }
    proof {
        assert(v@.take(v@.len() as int) == v@);
    }
    r
}

} // verus!
