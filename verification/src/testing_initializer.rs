//! Grafting synthetic probe nodes into a topology description: id hints are
//! resolved against the declared ids (re-drawn at random on collision),
//! edges to the declared neighbors are added on both endpoints, and the
//! drop-rate policy is re-applied to every drone on each pass.

use vstd::prelude::*;
use vstd::seq_lib::seq_to_set_is_finite;
use rand::Rng;
use std::collections::HashMap;
use crossbeam_channel::{Receiver, Sender};
use crate::channels::send_drone_command;
use crate::protocol::{DroneCommand, Packet};
use crate::topology::{
    copy_ids, lemma_push_contains, ClientEntry, DroneEntry, DropRate, NodeId, ServerEntry,
    TopologyDescription, DROP_RATE_UNIT,
};
use crate::topology_setup::IntermediateNode;

verus! {

broadcast use vstd::std_specs::hash::group_hash_axioms;

/// Relies on rand's thread_rng and Rng::gen_range: a sample drawn uniformly
/// from `[lo, hi)`. gen_range panics only on an empty range, which the
/// precondition rules out.
#[verifier::external_body]
fn sample_uniform(lo: u32, hi: u32) -> (r: u32)
    requires
        lo < hi,
    ensures
        lo <= r < hi,
{
    rand::thread_rng().gen_range(lo..hi)
}

/// Relies on rand::random: some node id; nothing is promised of which one.
#[verifier::external_body]
fn random_node_id() -> NodeId {
    rand::random()
}

/// Rule for (re)computing a drone's drop rate whenever a probe is grafted
/// into the description.
#[derive(Clone, Copy, Debug, PartialEq, Eq, Structural)]
pub enum PDRPolicy {
    /// Every drone drops nothing.
    Zero,
    /// Rates drawn uniformly from `[0, 0.1)`.
    Gentle,
    /// Rates drawn uniformly from `[0.1, 0.5)`.
    Medium,
    /// Rates drawn uniformly from `[0.5, 0.75)`.
    Severe,
    /// Every drone gets exactly this rate.
    Constant(DropRate),
    /// Rates drawn uniformly from the given half-open interval.
    Uniform(DropRate, DropRate),
    /// Every drone keeps the rate it already has.
    Unchanged,
}

impl PDRPolicy {
    /// A policy's own parameters must describe a non-empty range of
    /// probabilities below one.
    pub open spec fn wf(self) -> bool {
        match self {
            PDRPolicy::Constant(p) => p.wf(),
            PDRPolicy::Uniform(lo, hi) => lo.ppm < hi.ppm && hi.ppm <= DROP_RATE_UNIT,
            _ => true,
        }
    }

    /// Exactly the rates this policy may hand back for a drone whose rate
    /// was `orig` before the pass.
    pub open spec fn admits(self, orig: DropRate, r: DropRate) -> bool {
        match self {
            PDRPolicy::Zero => r.ppm == 0,
            PDRPolicy::Gentle => r.ppm < 100000,
            PDRPolicy::Medium => 100000 <= r.ppm < 500000,
            PDRPolicy::Severe => 500000 <= r.ppm < 750000,
            PDRPolicy::Constant(p) => r == p,
            PDRPolicy::Uniform(lo, hi) => lo.ppm <= r.ppm < hi.ppm,
            PDRPolicy::Unchanged => r == orig,
        }
    }

    /// Applies the policy once to a drone's current rate.
    pub fn get_pdr(&self, original: DropRate) -> (r: DropRate)
        requires
            self.wf(),
            original.wf(),
        ensures
            self.admits(original, r),
            r.wf(),
    {
        match self {
            PDRPolicy::Zero => DropRate { ppm: 0 },
            PDRPolicy::Gentle => DropRate { ppm: sample_uniform(0, 100000) },
            PDRPolicy::Medium => DropRate { ppm: sample_uniform(100000, 500000) },
            PDRPolicy::Severe => DropRate { ppm: sample_uniform(500000, 750000) },
            PDRPolicy::Constant(p) => *p,
            PDRPolicy::Uniform(lo, hi) => DropRate { ppm: sample_uniform(lo.ppm, hi.ppm) },
            PDRPolicy::Unchanged => original,
        }
    }
}

/// The rates a policy can leave on a probe's drone entry, whose rate starts
/// at zero, however many times the policy is then re-applied to it.
pub open spec fn fresh_rate_admitted(policy: PDRPolicy, r: DropRate) -> bool {
    match policy {
        PDRPolicy::Zero => r.ppm == 0,
        PDRPolicy::Gentle => r.ppm < 100000,
        PDRPolicy::Medium => 100000 <= r.ppm < 500000,
        PDRPolicy::Severe => 500000 <= r.ppm < 750000,
        PDRPolicy::Constant(p) => r == p,
        PDRPolicy::Uniform(lo, hi) => lo.ppm <= r.ppm < hi.ppm,
        PDRPolicy::Unchanged => r.ppm == 0,
    }
}

/// Re-applying a policy composes: a rate admitted from a rate that was
/// itself admitted from `a` is admitted from `a` directly.
pub proof fn lemma_admits_trans(policy: PDRPolicy, a: DropRate, b: DropRate, c: DropRate)
    requires
        policy.admits(a, b),
        policy.admits(b, c),
    ensures
        policy.admits(a, c),
{
}

/// A probe's rate stays admitted under further re-applications of the
/// policy that produced it.
pub proof fn lemma_fresh_rate_stable(policy: PDRPolicy, b: DropRate, c: DropRate)
    requires
        fresh_rate_admitted(policy, b),
        policy.admits(b, c),
    ensures
        fresh_rate_admitted(policy, c),
{
}

/// A synthetic probe to graft into a description: an id (an explicit id is
/// a hint, not a guarantee) and the ids of the nodes it plugs into.
#[derive(Clone, Debug)]
pub struct TestNodeInstructions {
    pub id: NodeId,
    pub connected_drone_ids: Vec<NodeId>,
}

impl TestNodeInstructions {
    /// A probe with an explicit id hint.
    pub fn with_node_id(id: NodeId, connected_drone_ids: Vec<NodeId>) -> (r: Self)
        ensures
            r.id == id,
            r.connected_drone_ids@ == connected_drone_ids@,
    {
        TestNodeInstructions { id, connected_drone_ids }
    }

    /// A probe whose id hint is drawn at random.
    pub fn with_random_id(connected_drone_ids: Vec<NodeId>) -> (r: Self)
        ensures
            r.connected_drone_ids@ == connected_drone_ids@,
    {
        TestNodeInstructions { id: random_node_id(), connected_drone_ids }
    }
}

/// Whether this list of ids holds the given id.
pub fn ids_contain(v: &Vec<NodeId>, id: NodeId) -> (r: bool)
    ensures
        r == v@.contains(id),
{
    let mut i: usize = 0;
    while i < v.len()
        invariant
            i <= v@.len(),
            forall|k: int| 0 <= k < i ==> v@[k] != id,
        decreases v@.len() - i,
    {
        if v[i] == id {
            return true;
        }
        i += 1;
    }
    false
}

/// A description that declares all 256 possible ids holds at least 256
/// entries: there is always a free id below that count.
proof fn lemma_id_space_exhausted(desc: TopologyDescription)
    requires
        forall|x: NodeId| desc.has_id(x),
    ensures
        desc.node_count() >= 256,
{
    let d = desc.drone_id_seq();
    let c = desc.client_id_seq();
    let s = desc.server_id_seq();
    let all = d + c + s;
    assert forall|x: NodeId| all.contains(x) by {
        assert(desc.has_id(x));
        if d.contains(x) {
            let i = choose|i: int| 0 <= i < d.len() && d[i] == x;
            assert((d + c)[i] == x);
            assert(all[i] == x);
        } else if c.contains(x) {
            let i = choose|i: int| 0 <= i < c.len() && c[i] == x;
            assert((d + c)[d.len() + i] == x);
            assert(all[d.len() + i] == x);
        } else {
            assert(s.contains(x));
            let i = choose|i: int| 0 <= i < s.len() && s[i] == x;
            assert((d + c).len() == d.len() + c.len());
            assert(all[(d + c).len() + i] == x);
        }
    }
    let u = Seq::<u8>::new(256, |i: int| i as u8);
    assert(u.no_duplicates()) by {
        assert forall|i: int, j: int|
            0 <= i < u.len() && 0 <= j < u.len() && i != j implies u[i] != u[j] by {
            assert((i as u8) as int == i);
            assert((j as u8) as int == j);
        }
    }
    u.unique_seq_to_set();
    seq_to_set_is_finite::<u8>(all);
    assert(u.to_set().subset_of(all.to_set())) by {
        assert forall|x: u8| u.to_set().contains(x) implies all.to_set().contains(x) by {
            assert(all.contains(x));
        }
    }
    vstd::set_lib::lemma_len_subset(u.to_set(), all.to_set());
    all.lemma_cardinality_of_set();
}

/// Resolves a probe's id hint against the declared ids: the hint is kept
/// when it is free, otherwise ids are drawn at random; a bounded number of
/// draws is followed by a scan for the smallest free id, so resolution
/// always returns. Collisions are resolved silently, never surfaced.
fn resolve_id(desc: &TopologyDescription, hint: NodeId) -> (r: NodeId)
    requires
        desc.node_count() < 256,
    ensures
        !desc.has_id(r),
        !desc.has_id(hint) ==> r == hint,
{
    let mut candidate = hint;
    let mut attempts: usize = 0;
    while attempts < 64
        invariant
            attempts == 0 ==> candidate == hint,
            attempts > 0 ==> desc.has_id(hint),
        decreases 64 - attempts,
    {
        if !desc.contains_id(candidate) {
            return candidate;
        }
        candidate = random_node_id();
        attempts += 1;
    }
    let mut i: usize = 0;
    while i < 256
        invariant
            i <= 256,
            desc.has_id(hint),
            forall|k: int| 0 <= k < i ==> desc.has_id(#[trigger] (k as u8)),
        decreases 256 - i,
    {
        if !desc.contains_id(i as u8) {
            return i as u8;
        }
        i += 1;
    }
    proof {
        assert forall|x: NodeId| desc.has_id(x) by {
            let k: int = x as int;
            assert(desc.has_id(k as u8));
            assert(k as u8 == x);
        }
        lemma_id_space_exhausted(*desc);
    }
    // never reached: fewer than 256 ids are declared, so one is free
    0
}

/// The neighbor list of a node with id `self_id` after a probe with id
/// `new_id` and declared neighbor list `members` was grafted in: the list
/// gains the probe's id exactly when the node is a declared neighbor.
pub open spec fn extended(
    ids: Seq<NodeId>,
    members: Seq<NodeId>,
    self_id: NodeId,
    new_id: NodeId,
) -> Seq<NodeId> {
    if members.contains(self_id) {
        ids.push(new_id)
    } else {
        ids
    }
}

/// Grafts one probe, already resolved to a fresh id, into the description:
/// a new drone entry with the declared neighbor list is appended, the
/// probe's id is added to the neighbor list of every declared neighbor, and
/// the drop-rate policy is re-applied to every drone.
fn add_test_drone(
    desc: TopologyDescription,
    new_id: NodeId,
    neighbors: &Vec<NodeId>,
    policy: &PDRPolicy,
) -> (r: TopologyDescription)
    requires
        desc.wf(),
        policy.wf(),
        !desc.has_id(new_id),
    ensures
        r.wf(),
        r.drones@.len() == desc.drones@.len() + 1,
        r.clients@.len() == desc.clients@.len(),
        r.servers@.len() == desc.servers@.len(),
        forall|k: int|
            0 <= k < desc.drones@.len() ==> {
                &&& (#[trigger] r.drones@[k]).id == desc.drones@[k].id
                &&& r.drones@[k].connected_node_ids@ == extended(
                    desc.drones@[k].connected_node_ids@,
                    neighbors@,
                    desc.drones@[k].id,
                    new_id,
                )
                &&& policy.admits(desc.drones@[k].pdr, r.drones@[k].pdr)
                &&& r.drones@[k].pdr.wf()
            },
        r.drones@.last().id == new_id,
        r.drones@.last().connected_node_ids@ == extended(
            neighbors@,
            neighbors@,
            new_id,
            new_id,
        ),
        fresh_rate_admitted(*policy, r.drones@.last().pdr),
        r.drones@.last().pdr.wf(),
        forall|k: int|
            0 <= k < desc.clients@.len() ==> {
                &&& (#[trigger] r.clients@[k]).id == desc.clients@[k].id
                &&& r.clients@[k].connected_drone_ids@ == extended(
                    desc.clients@[k].connected_drone_ids@,
                    neighbors@,
                    desc.clients@[k].id,
                    new_id,
                )
            },
        forall|k: int|
            0 <= k < desc.servers@.len() ==> {
                &&& (#[trigger] r.servers@[k]).id == desc.servers@[k].id
                &&& r.servers@[k].connected_drone_ids@ == extended(
                    desc.servers@[k].connected_drone_ids@,
                    neighbors@,
                    desc.servers@[k].id,
                    new_id,
                )
            },
        r.drone_id_seq() == desc.drone_id_seq().push(new_id),
        r.client_id_seq() == desc.client_id_seq(),
        r.server_id_seq() == desc.server_id_seq(),
        forall|x: NodeId| r.has_id(x) <==> desc.has_id(x) || x == new_id,
{
    let mut new_drones: Vec<DroneEntry> = Vec::new();
    let mut i: usize = 0;
    while i < desc.drones.len()
        invariant
            desc.wf(),
            policy.wf(),
            i <= desc.drones@.len(),
            new_drones@.len() == i,
            forall|k: int|
                0 <= k < i ==> {
                    &&& (#[trigger] new_drones@[k]).id == desc.drones@[k].id
                    &&& new_drones@[k].connected_node_ids@ == extended(
                        desc.drones@[k].connected_node_ids@,
                        neighbors@,
                        desc.drones@[k].id,
                        new_id,
                    )
                    &&& policy.admits(desc.drones@[k].pdr, new_drones@[k].pdr)
                    &&& new_drones@[k].pdr.wf()
                },
        decreases desc.drones@.len() - i,
    {
        let e = &desc.drones[i];
        assert(desc.drones@[i as int].pdr.wf());
        let pdr = policy.get_pdr(e.pdr);
        let mut ids = copy_ids(&e.connected_node_ids);
        if ids_contain(neighbors, e.id) {
            ids.push(new_id);
        }
        new_drones.push(DroneEntry { id: e.id, pdr, connected_node_ids: ids });
        i += 1;
    }
    let mut new_clients: Vec<ClientEntry> = Vec::new();
    let mut j: usize = 0;
    while j < desc.clients.len()
        invariant
            j <= desc.clients@.len(),
            new_clients@.len() == j,
            forall|k: int|
                0 <= k < j ==> {
                    &&& (#[trigger] new_clients@[k]).id == desc.clients@[k].id
                    &&& new_clients@[k].connected_drone_ids@ == extended(
                        desc.clients@[k].connected_drone_ids@,
                        neighbors@,
                        desc.clients@[k].id,
                        new_id,
                    )
                },
        decreases desc.clients@.len() - j,
    {
        let e = &desc.clients[j];
        let mut ids = copy_ids(&e.connected_drone_ids);
        if ids_contain(neighbors, e.id) {
            ids.push(new_id);
        }
        new_clients.push(ClientEntry { id: e.id, connected_drone_ids: ids });
        j += 1;
    }
    let mut new_servers: Vec<ServerEntry> = Vec::new();
    let mut m: usize = 0;
    while m < desc.servers.len()
        invariant
            m <= desc.servers@.len(),
            new_servers@.len() == m,
            forall|k: int|
                0 <= k < m ==> {
                    &&& (#[trigger] new_servers@[k]).id == desc.servers@[k].id
                    &&& new_servers@[k].connected_drone_ids@ == extended(
                        desc.servers@[k].connected_drone_ids@,
                        neighbors@,
                        desc.servers@[k].id,
                        new_id,
                    )
                },
        decreases desc.servers@.len() - m,
    {
        let e = &desc.servers[m];
        let mut ids = copy_ids(&e.connected_drone_ids);
        if ids_contain(neighbors, e.id) {
            ids.push(new_id);
        }
        new_servers.push(ServerEntry { id: e.id, connected_drone_ids: ids });
        m += 1;
    }
    let base = policy.get_pdr(DropRate::zero());
    let probe_pdr = policy.get_pdr(base);
    let mut probe_ids = copy_ids(neighbors);
    if ids_contain(neighbors, new_id) {
        probe_ids.push(new_id);
    }
    new_drones.push(DroneEntry { id: new_id, pdr: probe_pdr, connected_node_ids: probe_ids });
    let r = TopologyDescription { drones: new_drones, clients: new_clients, servers: new_servers };
    proof {
        let d = desc.drone_id_seq();
        let dn = r.drone_id_seq();
        assert forall|k: int| 0 <= k < dn.len() implies dn[k] == d.push(new_id)[k] by {
            if k < d.len() {
                assert(r.drones@[k].id == desc.drones@[k].id);
            } else {
                assert(r.drones@[k].id == new_id);
            }
        }
        assert(dn =~= d.push(new_id));
        assert forall|k: int| 0 <= k < r.clients@.len() implies r.client_id_seq()[k]
            == desc.client_id_seq()[k] by {
            assert(r.clients@[k].id == desc.clients@[k].id);
        }
        assert(r.client_id_seq() =~= desc.client_id_seq());
        assert forall|k: int| 0 <= k < r.servers@.len() implies r.server_id_seq()[k]
            == desc.server_id_seq()[k] by {
            assert(r.servers@[k].id == desc.servers@[k].id);
        }
        assert(r.server_id_seq() =~= desc.server_id_seq());
        lemma_push_contains(d, new_id, new_id);
        assert forall|x: NodeId| r.has_id(x) <==> desc.has_id(x) || x == new_id by {
            lemma_push_contains(d, new_id, x);
        }
        assert(dn.no_duplicates()) by {
            assert forall|p: int, q: int|
                0 <= p < dn.len() && 0 <= q < dn.len() && p != q implies dn[p] != dn[q] by {
                if p < d.len() && q < d.len() {
                    assert(d.no_duplicates());
                } else if p < d.len() {
                    assert(dn[q] == new_id);
                    assert(d.contains(d[p]));
                } else {
                    assert(dn[p] == new_id);
                    assert(d.contains(d[q]));
                }
            }
        }
        assert forall|x: NodeId| #[trigger] dn.contains(x)
            implies !r.client_id_seq().contains(x) by {
            lemma_push_contains(d, new_id, x);
        }
        assert forall|x: NodeId| #[trigger] dn.contains(x)
            implies !r.server_id_seq().contains(x) by {
            lemma_push_contains(d, new_id, x);
        }
        assert(r.rates_wf()) by {
            assert forall|k: int| 0 <= k < r.drones@.len() implies (#[trigger] r.drones@[k]).pdr.wf() by {
                if k < desc.drones@.len() {
                } else {
                    assert(r.drones@[k].pdr == probe_pdr);
                }
            }
        }
        lemma_fresh_rate_stable(*policy, base, probe_pdr);
    }
    r
}

/// Every probe's drone entry lists every declared neighbor of its spec:
/// the entry for the probe of `specs[i]` stands at index `base + i` of the
/// drone list, where `base` counts the drones declared before injection.
pub open spec fn probe_lists_neighbors(
    desc: TopologyDescription,
    specs: Seq<TestNodeInstructions>,
    out: TopologyDescription,
) -> bool {
    forall|i: int, n: NodeId|
        0 <= i < specs.len() && #[trigger] specs[i].connected_drone_ids@.contains(n)
            ==> out.drones@[desc.drones@.len() + i].connected_node_ids@.contains(n)
}

/// Every node that a probe declared as neighbor, and that existed when the
/// probe was grafted, lists the probe's resolved id in return. A drone
/// "existed" at pass `i` when its index lies below `base + i`: declared
/// drones and earlier probes; clients and servers all predate injection.
pub open spec fn neighbors_list_probe(
    desc: TopologyDescription,
    specs: Seq<TestNodeInstructions>,
    out: TopologyDescription,
    resolved: Seq<NodeId>,
) -> bool {
    let base = desc.drones@.len() as int;
    &&& forall|i: int, k: int|
        #![trigger specs[i].connected_drone_ids@.contains(out.drones@[k].id)]
        0 <= i < specs.len() && 0 <= k < base + i && specs[i].connected_drone_ids@.contains(
            out.drones@[k].id,
        ) ==> out.drones@[k].connected_node_ids@.contains(resolved[i])
    &&& forall|i: int, k: int|
        #![trigger specs[i].connected_drone_ids@.contains(out.clients@[k].id)]
        0 <= i < specs.len() && 0 <= k < out.clients@.len()
            && specs[i].connected_drone_ids@.contains(out.clients@[k].id)
            ==> out.clients@[k].connected_drone_ids@.contains(resolved[i])
    &&& forall|i: int, k: int|
        #![trigger specs[i].connected_drone_ids@.contains(out.servers@[k].id)]
        0 <= i < specs.len() && 0 <= k < out.servers@.len()
            && specs[i].connected_drone_ids@.contains(out.servers@[k].id)
            ==> out.servers@[k].connected_drone_ids@.contains(resolved[i])
}

/// After `n` injection passes, a declared drone's rate is one the policy
/// admits from its declared rate (or untouched when there was no pass),
/// and every probe's rate is one the policy produces from a zero baseline.
pub open spec fn rates_follow_policy(
    desc: TopologyDescription,
    out: TopologyDescription,
    policy: PDRPolicy,
    n: int,
) -> bool {
    let base = desc.drones@.len() as int;
    &&& forall|k: int|
        0 <= k < base ==> if n == 0 {
            (#[trigger] out.drones@[k]).pdr == desc.drones@[k].pdr
        } else {
            policy.admits(desc.drones@[k].pdr, out.drones@[k].pdr)
        }
    &&& forall|k: int|
        base <= k < out.drones@.len() ==> fresh_rate_admitted(
            policy,
            (#[trigger] out.drones@[k]).pdr,
        )
}

/// Grafts every probe into the description, in caller-declared order. Each
/// id hint that collides with a declared id or an earlier probe's resolved
/// id is silently replaced by a fresh one, so the resolved ids are fresh
/// and pairwise distinct; each probe becomes one drone entry wired to its
/// declared neighbors on both endpoints; and the drop-rate policy is
/// re-applied to every drone on every pass. Returns the finished
/// description and the resolved id of every probe, in declaration order.
pub fn inject_test_nodes(
    desc: TopologyDescription,
    test_nodes: &Vec<TestNodeInstructions>,
    policy: &PDRPolicy,
) -> (r: (TopologyDescription, Vec<NodeId>))
    requires
        desc.wf(),
        policy.wf(),
        desc.node_count() + test_nodes@.len() <= 256,
    ensures
        r.0.wf(),
        r.1@.len() == test_nodes@.len(),
        forall|i: int| 0 <= i < r.1@.len() ==> !desc.has_id(#[trigger] r.1@[i]),
        r.1@.no_duplicates(),
        r.0.drone_id_seq() == desc.drone_id_seq() + r.1@,
        r.0.client_id_seq() == desc.client_id_seq(),
        r.0.server_id_seq() == desc.server_id_seq(),
        forall|x: NodeId| r.0.has_id(x) <==> desc.has_id(x) || r.1@.contains(x),
        r.0.drones@.len() == desc.drones@.len() + test_nodes@.len(),
        r.0.clients@.len() == desc.clients@.len(),
        r.0.servers@.len() == desc.servers@.len(),
        probe_lists_neighbors(desc, test_nodes@, r.0),
        neighbors_list_probe(desc, test_nodes@, r.0, r.1@),
        rates_follow_policy(desc, r.0, *policy, test_nodes@.len() as int),
        forall|i: int|
            0 <= i < test_nodes@.len() && !desc.has_id((#[trigger] test_nodes@[i]).id)
                && !r.1@.take(i).contains(test_nodes@[i].id) ==> r.1@[i] == test_nodes@[i].id,
{
    let ghost orig = desc;
    let mut cur = desc;
    let mut resolved: Vec<NodeId> = Vec::new();
    let mut i: usize = 0;
    while i < test_nodes.len()
        invariant
            policy.wf(),
            orig.wf(),
            cur.wf(),
            i <= test_nodes@.len(),
            resolved@.len() == i,
            orig.node_count() + test_nodes@.len() <= 256,
            cur.node_count() == orig.node_count() + i,
            forall|k: int| 0 <= k < i ==> !orig.has_id(#[trigger] resolved@[k]),
            resolved@.no_duplicates(),
            cur.drone_id_seq() == orig.drone_id_seq() + resolved@,
            cur.client_id_seq() == orig.client_id_seq(),
            cur.server_id_seq() == orig.server_id_seq(),
            forall|x: NodeId| cur.has_id(x) <==> orig.has_id(x) || resolved@.contains(x),
            cur.drones@.len() == orig.drones@.len() + i,
            cur.clients@.len() == orig.clients@.len(),
            cur.servers@.len() == orig.servers@.len(),
            probe_lists_neighbors(orig, test_nodes@.take(i as int), cur),
            neighbors_list_probe(orig, test_nodes@.take(i as int), cur, resolved@),
            rates_follow_policy(orig, cur, *policy, i as int),
            forall|j: int|
                0 <= j < i && !orig.has_id((#[trigger] test_nodes@[j]).id)
                    && !resolved@.take(j).contains(test_nodes@[j].id) ==> resolved@[j]
                    == test_nodes@[j].id,
        decreases test_nodes@.len() - i,
    {
        let tn = &test_nodes[i];
        let new_id = resolve_id(&cur, tn.id);
        let ghost prev = cur;
        let ghost rprev = resolved@;
        cur = add_test_drone(cur, new_id, &tn.connected_drone_ids, policy);
        resolved.push(new_id);
        proof {
            let base = orig.drones@.len() as int;
            let specs1 = test_nodes@.take(i + 1);
            assert(specs1[i as int] == test_nodes@[i as int]);
            assert(forall|j: int| 0 <= j < i ==> specs1[j] == test_nodes@[j]);
            // freshness of the new id relative to everything declared or resolved
            assert(!orig.has_id(new_id) && !rprev.contains(new_id));
            // the drone id row grows by exactly the new id
            assert(cur.drone_id_seq() =~= orig.drone_id_seq() + resolved@);
            // the resolved ids stay pairwise distinct
            assert(resolved@.no_duplicates()) by {
                assert forall|p: int, q: int|
                    0 <= p < resolved@.len() && 0 <= q < resolved@.len() && p != q implies resolved@[p]
                    != resolved@[q] by {
                    if p < rprev.len() && q < rprev.len() {
                        assert(rprev.no_duplicates());
                    } else if p < rprev.len() {
                        assert(rprev.contains(rprev[p]));
                    } else if q < rprev.len() {
                        assert(rprev.contains(rprev[q]));
                    }
                }
            }
            assert forall|x: NodeId| cur.has_id(x) <==> orig.has_id(x) || resolved@.contains(
                x,
            ) by {
                lemma_push_contains(rprev, new_id, x);
            }
            // a hint that collided with nothing was kept as the resolved id
            assert forall|j: int|
                0 <= j < i + 1 && !orig.has_id((#[trigger] test_nodes@[j]).id)
                    && !resolved@.take(j).contains(test_nodes@[j].id) implies resolved@[j]
                == test_nodes@[j].id by {
                assert(resolved@.take(j) =~= rprev.take(j));
                if j == i {
                    assert(rprev.take(j) == rprev);
                    assert(!prev.has_id(test_nodes@[j].id));
                }
            }
            // every probe's entry keeps listing its declared neighbors
            assert(probe_lists_neighbors(orig, specs1, cur)) by {
                assert forall|j: int, n: NodeId|
                    0 <= j < specs1.len() && #[trigger] specs1[j].connected_drone_ids@.contains(n)
                    implies cur.drones@[base + j].connected_node_ids@.contains(n) by {
                    if j < i {
                        assert(test_nodes@.take(i as int)[j] == test_nodes@[j]);
                        assert(test_nodes@[j].connected_drone_ids@.contains(n));
                        assert(prev.drones@[base + j].connected_node_ids@.contains(n));
                        assert(cur.drones@[base + j].connected_node_ids@ == extended(
                            prev.drones@[base + j].connected_node_ids@,
                            tn.connected_drone_ids@,
                            prev.drones@[base + j].id,
                            new_id,
                        ));
                        lemma_push_contains(
                            prev.drones@[base + j].connected_node_ids@,
                            new_id,
                            n,
                        );
                    } else {
                        assert(cur.drones@[base + i] == cur.drones@.last());
                        lemma_push_contains(tn.connected_drone_ids@, new_id, n);
                    }
                }
            }
            // every declared neighbor that already existed answers in kind
            assert(neighbors_list_probe(orig, specs1, cur, resolved@)) by {
                assert forall|j: int, k: int|
                    0 <= j < specs1.len() && 0 <= k < base + j
                        && #[trigger] specs1[j].connected_drone_ids@.contains(cur.drones@[k].id)
                    implies cur.drones@[k].connected_node_ids@.contains(resolved@[j]) by {
                    assert(k < prev.drones@.len());
                    assert(cur.drones@[k].id == prev.drones@[k].id);
                    assert(cur.drones@[k].connected_node_ids@ == extended(
                        prev.drones@[k].connected_node_ids@,
                        tn.connected_drone_ids@,
                        prev.drones@[k].id,
                        new_id,
                    ));
                    lemma_push_contains(
                        prev.drones@[k].connected_node_ids@,
                        new_id,
                        resolved@[j],
                    );
                    if j < i {
                        assert(test_nodes@.take(i as int)[j] == test_nodes@[j]);
                        assert(prev.drones@[k].connected_node_ids@.contains(rprev[j]));
                    } else {
                        assert(tn.connected_drone_ids@.contains(prev.drones@[k].id));
                    }
                }
                assert forall|j: int, k: int|
                    0 <= j < specs1.len() && 0 <= k < cur.clients@.len()
                        && #[trigger] specs1[j].connected_drone_ids@.contains(cur.clients@[k].id)
                    implies cur.clients@[k].connected_drone_ids@.contains(resolved@[j]) by {
                    assert(cur.clients@[k].id == prev.clients@[k].id);
                    assert(cur.clients@[k].connected_drone_ids@ == extended(
                        prev.clients@[k].connected_drone_ids@,
                        tn.connected_drone_ids@,
                        prev.clients@[k].id,
                        new_id,
                    ));
                    lemma_push_contains(
                        prev.clients@[k].connected_drone_ids@,
                        new_id,
                        resolved@[j],
                    );
                    if j < i {
                        assert(test_nodes@.take(i as int)[j] == test_nodes@[j]);
                        assert(prev.clients@[k].connected_drone_ids@.contains(rprev[j]));
                    } else {
                        assert(tn.connected_drone_ids@.contains(prev.clients@[k].id));
                    }
                }
                assert forall|j: int, k: int|
                    0 <= j < specs1.len() && 0 <= k < cur.servers@.len()
                        && #[trigger] specs1[j].connected_drone_ids@.contains(cur.servers@[k].id)
                    implies cur.servers@[k].connected_drone_ids@.contains(resolved@[j]) by {
                    assert(cur.servers@[k].id == prev.servers@[k].id);
                    assert(cur.servers@[k].connected_drone_ids@ == extended(
                        prev.servers@[k].connected_drone_ids@,
                        tn.connected_drone_ids@,
                        prev.servers@[k].id,
                        new_id,
                    ));
                    lemma_push_contains(
                        prev.servers@[k].connected_drone_ids@,
                        new_id,
                        resolved@[j],
                    );
                    if j < i {
                        assert(test_nodes@.take(i as int)[j] == test_nodes@[j]);
                        assert(prev.servers@[k].connected_drone_ids@.contains(rprev[j]));
                    } else {
                        assert(tn.connected_drone_ids@.contains(prev.servers@[k].id));
                    }
                }
            }
            // the policy keeps governing every drone's rate
            assert(rates_follow_policy(orig, cur, *policy, i + 1)) by {
                assert forall|k: int| 0 <= k < base implies policy.admits(
                    orig.drones@[k].pdr,
                    (#[trigger] cur.drones@[k]).pdr,
                ) by {
                    assert(policy.admits(prev.drones@[k].pdr, cur.drones@[k].pdr));
                    if i == 0 {
                        assert(prev.drones@[k].pdr == orig.drones@[k].pdr);
                    } else {
                        lemma_admits_trans(
                            *policy,
                            orig.drones@[k].pdr,
                            prev.drones@[k].pdr,
                            cur.drones@[k].pdr,
                        );
                    }
                }
                assert forall|k: int| base <= k < cur.drones@.len() implies fresh_rate_admitted(
                    *policy,
                    (#[trigger] cur.drones@[k]).pdr,
                ) by {
                    if k < prev.drones@.len() {
                        assert(fresh_rate_admitted(*policy, prev.drones@[k].pdr));
                        assert(policy.admits(prev.drones@[k].pdr, cur.drones@[k].pdr));
                        lemma_fresh_rate_stable(
                            *policy,
                            prev.drones@[k].pdr,
                            cur.drones@[k].pdr,
                        );
                    } else {
                        assert(cur.drones@[k] == cur.drones@.last());
                    }
                }
            }
        }
        i += 1;
    }
    proof {
        assert(test_nodes@.take(i as int) == test_nodes@);
    }
    (cur, resolved)
}

/// The forget-neighbor commands the shutdown broadcast owes the drone with
/// id `target`: one for every other drone id, in id-list order.
pub open spec fn forget_commands(drone_ids: Seq<NodeId>, target: NodeId) -> Seq<DroneCommand>
    decreases drone_ids.len(),
{
    if drone_ids.len() == 0 {
        Seq::empty()
    } else {
        let rest = forget_commands(drone_ids.drop_last(), target);
        if drone_ids.last() == target {
            rest
        } else {
            rest.push(DroneCommand::RemoveSender(drone_ids.last()))
        }
    }
}

/// The whole command sequence the shutdown broadcast owes the drone with
/// id `target`: its forget-neighbor commands, then the terminate command.
pub open spec fn shutdown_commands_spec(drone_ids: Seq<NodeId>, target: NodeId) -> Seq<
    DroneCommand,
> {
    forget_commands(drone_ids, target).push(DroneCommand::Crash)
}

proof fn lemma_forget_commands_shape(drone_ids: Seq<NodeId>, target: NodeId)
    ensures
        forall|k: int|
            0 <= k < forget_commands(drone_ids, target).len() ==> forget_commands(
                drone_ids,
                target,
            )[k] != DroneCommand::Crash,
        forall|x: NodeId|
            drone_ids.contains(x) && x != target ==> forget_commands(drone_ids, target).contains(
                DroneCommand::RemoveSender(x),
            ),
    decreases drone_ids.len(),
{
    let cs = forget_commands(drone_ids, target);
    if drone_ids.len() == 0 {
    } else {
        let prefix = drone_ids.drop_last();
        lemma_forget_commands_shape(prefix, target);
        let rest = forget_commands(prefix, target);
        assert forall|k: int| 0 <= k < cs.len() implies cs[k] != DroneCommand::Crash by {
            if drone_ids.last() != target && k == rest.len() {
                assert(cs[k] == DroneCommand::RemoveSender(drone_ids.last()));
            }
        }
        assert forall|x: NodeId| drone_ids.contains(x) && x != target implies cs.contains(
            DroneCommand::RemoveSender(x),
        ) by {
            let idx = choose|i: int| 0 <= i < drone_ids.len() && drone_ids[i] == x;
            if idx == drone_ids.len() - 1 {
                assert(drone_ids.last() == x);
                assert(cs[cs.len() - 1] == DroneCommand::RemoveSender(x));
            } else {
                assert(prefix[idx] == x);
                assert(prefix.contains(x));
                assert(rest.contains(DroneCommand::RemoveSender(x)));
                if drone_ids.last() != target {
                    lemma_push_contains(
                        rest,
                        DroneCommand::RemoveSender(drone_ids.last()),
                        DroneCommand::RemoveSender(x),
                    );
                }
            }
        }
    }
}

/// Each broadcast owes a drone exactly one terminate command, standing
/// last, after every one of its forget-neighbor commands; and it owes a
/// forget-neighbor command for every other drone id.
pub proof fn lemma_shutdown_broadcast_shape(drone_ids: Seq<NodeId>, target: NodeId)
    ensures
        ({
            let cmds = shutdown_commands_spec(drone_ids, target);
            &&& cmds.len() > 0
            &&& cmds.last() == DroneCommand::Crash
            &&& forall|k: int| 0 <= k < cmds.len() - 1 ==> cmds[k] != DroneCommand::Crash
            &&& forall|x: NodeId|
                drone_ids.contains(x) && x != target ==> cmds.contains(
                    DroneCommand::RemoveSender(x),
                )
        }),
{
    lemma_forget_commands_shape(drone_ids, target);
    let fc = forget_commands(drone_ids, target);
    let cmds = shutdown_commands_spec(drone_ids, target);
    assert forall|x: NodeId| drone_ids.contains(x) && x != target implies cmds.contains(
        DroneCommand::RemoveSender(x),
    ) by {
        lemma_push_contains(fc, DroneCommand::Crash, DroneCommand::RemoveSender(x));
    }
}

/// Builds the command sequence the broadcast sends to the drone with id
/// `target`: a forget-neighbor command for every other drone id, then the
/// terminate command.
pub fn shutdown_commands(drone_ids: &Vec<NodeId>, target: NodeId) -> (r: Vec<DroneCommand>)
    ensures
        r@ == shutdown_commands_spec(drone_ids@, target),
{
    let mut r: Vec<DroneCommand> = Vec::new();
    let mut i: usize = 0;
    while i < drone_ids.len()
        invariant
            i <= drone_ids@.len(),
            r@ == forget_commands(drone_ids@.take(i as int), target),
        decreases drone_ids@.len() - i,
    {
        let id = drone_ids[i];
        if id != target {
            r.push(DroneCommand::RemoveSender(id));
        }
        proof {
            assert(drone_ids@.take(i + 1).drop_last() =~= drone_ids@.take(i as int));
            assert(drone_ids@.take(i + 1).last() == drone_ids@[i as int]);
        }
        i += 1;
    }
    proof {
        assert(drone_ids@.take(drone_ids@.len() as int) == drone_ids@);
    }
    r.push(DroneCommand::Crash);
    r
}

/// Performs the shutdown broadcast: to every drone whose command sender
/// was retained, its forget-neighbor commands, then its terminate command.
/// For one drone all forget commands precede the terminate; nothing is
/// ordered across drones. Send failures are ignored: a command to an
/// already-gone drone is a no-op, so repeating the broadcast is harmless.
pub fn broadcast_shutdown(
    command_senders: &HashMap<NodeId, Sender<DroneCommand>>,
    drone_ids: &Vec<NodeId>,
) {
    let mut i: usize = 0;
    while i < drone_ids.len()
        invariant
            i <= drone_ids@.len(),
        decreases drone_ids@.len() - i,
    {
        let target = drone_ids[i];
        match command_senders.get(&target) {
            Some(s) => {
                let cmds = shutdown_commands(drone_ids, target);
                let mut k: usize = 0;
                while k < cmds.len()
                    invariant
                        k <= cmds@.len(),
                    decreases cmds@.len() - k,
                {
                    send_drone_command(s, cmds[k]);
                    k += 1;
                }
            },
            None => {},
        }
        i += 1;
    }
}

/// The shutdown coordinator's phases. A run traverses them in this order
/// and never backwards: running, joining the test-node threads in
/// declaration order, broadcasting the shutdown commands, joining every
/// remaining thread, ended.
#[derive(Clone, Copy, Debug, PartialEq, Eq, Structural)]
pub enum CoordinatorState {
    Running,
    DrainingTestNodes { next: usize },
    BroadcastingShutdown,
    DrainingRemainder,
    Ended,
}

/// What the runtime performs on the coordinator's behalf for one step.
#[derive(Clone, Copy, Debug, PartialEq, Eq, Structural)]
pub enum CoordinatorAction {
    /// Nothing: a phase boundary was crossed.
    Proceed,
    /// Block on the thread of this test node; a panic there is swallowed.
    JoinTestNode(NodeId),
    /// Perform the shutdown broadcast towards every drone.
    Broadcast,
    /// Join every remaining thread; panics are swallowed.
    JoinRemainder,
}

/// The draining cursor never points past the list of test nodes.
pub open spec fn coordinator_state_wf(state: CoordinatorState, resolved: Seq<NodeId>) -> bool {
    match state {
        CoordinatorState::DrainingTestNodes { next } => next <= resolved.len(),
        _ => true,
    }
}

/// One decision of the shutdown coordinator: the state it moves to, and
/// the action the runtime performs for that move. The test nodes are
/// joined one by one in declaration order, and the broadcast is decided
/// only once the cursor has passed every one of them, so no drone is told
/// to terminate before all test-node threads have returned.
pub fn coordinator_step(state: CoordinatorState, resolved: &Vec<NodeId>) -> (r: (
    CoordinatorState,
    CoordinatorAction,
))
    requires
        coordinator_state_wf(state, resolved@),
    ensures
        coordinator_state_wf(r.0, resolved@),
        match state {
            CoordinatorState::Running => r == (
                CoordinatorState::DrainingTestNodes { next: 0usize },
                CoordinatorAction::Proceed,
            ),
            CoordinatorState::DrainingTestNodes { next } => if next < resolved@.len() {
                r == (
                    CoordinatorState::DrainingTestNodes { next: (next + 1) as usize },
                    CoordinatorAction::JoinTestNode(resolved@[next as int]),
                )
            } else {
                r == (CoordinatorState::BroadcastingShutdown, CoordinatorAction::Proceed)
            },
            CoordinatorState::BroadcastingShutdown => r == (
                CoordinatorState::DrainingRemainder,
                CoordinatorAction::Broadcast,
            ),
            CoordinatorState::DrainingRemainder => r == (
                CoordinatorState::Ended,
                CoordinatorAction::JoinRemainder,
            ),
            CoordinatorState::Ended => r == (CoordinatorState::Ended, CoordinatorAction::Proceed),
        },
{
    match state {
        CoordinatorState::Running => (
            CoordinatorState::DrainingTestNodes { next: 0 },
            CoordinatorAction::Proceed,
        ),
        CoordinatorState::DrainingTestNodes { next } => {
            if next < resolved.len() {
                let id = resolved[next];
                (
                    CoordinatorState::DrainingTestNodes { next: next + 1 },
                    CoordinatorAction::JoinTestNode(id),
                )
            } else {
                (CoordinatorState::BroadcastingShutdown, CoordinatorAction::Proceed)
            }
        },
        CoordinatorState::BroadcastingShutdown => (
            CoordinatorState::DrainingRemainder,
            CoordinatorAction::Broadcast,
        ),
        CoordinatorState::DrainingRemainder => (
            CoordinatorState::Ended,
            CoordinatorAction::JoinRemainder,
        ),
        CoordinatorState::Ended => (CoordinatorState::Ended, CoordinatorAction::Proceed),
    }
}

/// Witness that a test script invoked termination; the only values of this
/// type are made by [`TestNodeParams::end_simulation`].
pub struct SimulationEnd {
    _obtained_by_ending: (),
}

/// The one-shot bundle a test script runs with: the probe's id, its
/// inbound receiver, its outbound senders, and the capability to end the
/// simulation. The bundle's single terminal operation consumes it and
/// yields the only obtainable [`SimulationEnd`] value, so a script whose
/// return type is that sentinel cannot be well formed unless it invokes
/// termination on every exit path.
pub struct TestNodeParams {
    pub id: NodeId,
    pub packet_recv: Receiver<Packet>,
    pub packet_send: HashMap<NodeId, Sender<Packet>>,
    pub command_senders: HashMap<NodeId, Sender<DroneCommand>>,
    pub drone_ids: Vec<NodeId>,
}

impl TestNodeParams {
    /// Ends the simulation: performs the shutdown broadcast towards every
    /// drone and consumes the bundle, yielding the sentinel.
    pub fn end_simulation(self) -> SimulationEnd {
        broadcast_shutdown(&self.command_senders, &self.drone_ids);
        SimulationEnd { _obtained_by_ending: () }
    }
}

/// A fresh map holding, for each given drone id that has a retained
/// command sender, a clone of that sender keyed by the id.
fn clone_command_senders(
    command_senders: &HashMap<NodeId, Sender<DroneCommand>>,
    drone_ids: &Vec<NodeId>,
) -> (r: HashMap<NodeId, Sender<DroneCommand>>)
    ensures
        r@.dom() == Set::new(
            |x: NodeId| drone_ids@.contains(x) && command_senders@.dom().contains(x),
        ),
{
    let mut r: HashMap<NodeId, Sender<DroneCommand>> = HashMap::new();
    let mut i: usize = 0;
    while i < drone_ids.len()
        invariant
            i <= drone_ids@.len(),
            r@.dom() == Set::new(
                |x: NodeId| drone_ids@.take(i as int).contains(x)
                    && command_senders@.dom().contains(x),
            ),
        decreases drone_ids@.len() - i,
    {
        let nid = drone_ids[i];
        match command_senders.get(&nid) {
            Some(s) => {
                r.insert(nid, s.clone());
            },
            None => {},
        }
        proof {
            assert(drone_ids@.take(i + 1) =~= drone_ids@.take(i as int).push(
                drone_ids@[i as int],
            ));
            assert forall|x: NodeId|
                drone_ids@.take(i + 1).contains(x) <==> drone_ids@.take(i as int).contains(x)
                    || x == drone_ids@[i as int] by {
                lemma_push_contains(drone_ids@.take(i as int), drone_ids@[i as int], x);
            }
            assert(r@.dom() =~= Set::new(
                |x: NodeId| drone_ids@.take(i + 1).contains(x)
                    && command_senders@.dom().contains(x),
            ));
        }
        i += 1;
    }
    proof {
        assert(drone_ids@.take(drone_ids@.len() as int) == drone_ids@);
    }
    r
}

/// Takes the probes out of the wired node map, in resolved-id order: each
/// probe's bundle gives up its inbound receiver and outbound map to a
/// [`TestNodeParams`] (its command receiver and event sender are dropped:
/// probes never receive drone commands), together with the termination
/// capability. The remaining nodes are untouched.
pub fn take_test_probes(
    nodes: &mut HashMap<NodeId, IntermediateNode>,
    resolved: &Vec<NodeId>,
    command_senders: &HashMap<NodeId, Sender<DroneCommand>>,
    drone_ids: &Vec<NodeId>,
) -> (r: Vec<TestNodeParams>)
    requires
        resolved@.no_duplicates(),
        forall|k: int|
            0 <= k < resolved@.len() ==> old(nodes)@.contains_key(#[trigger] resolved@[k]),
    ensures
        r@.len() == resolved@.len(),
        forall|k: int|
            0 <= k < r@.len() ==> {
                &&& (#[trigger] r@[k]).id == resolved@[k]
                &&& r@[k].packet_send@.dom() == old(nodes)@[resolved@[k]].send_targets()
                &&& r@[k].drone_ids@ == drone_ids@
                &&& r@[k].command_senders@.dom() == Set::new(
                    |x: NodeId| drone_ids@.contains(x) && command_senders@.dom().contains(x),
                )
            },
        forall|x: NodeId|
            final(nodes)@.contains_key(x) <==> old(nodes)@.contains_key(x)
                && !resolved@.contains(x),
        forall|x: NodeId|
            #[trigger] final(nodes)@.contains_key(x) ==> final(nodes)@[x] == old(nodes)@[x],
{
    let mut r: Vec<TestNodeParams> = Vec::new();
    let mut i: usize = 0;
    while i < resolved.len()
        invariant
            i <= resolved@.len(),
            r@.len() == i,
            resolved@.no_duplicates(),
            forall|k: int|
                i <= k < resolved@.len() ==> nodes@.contains_key(#[trigger] resolved@[k]),
            forall|k: int|
                0 <= k < i ==> {
                    &&& (#[trigger] r@[k]).id == resolved@[k]
                    &&& r@[k].packet_send@.dom() == old(nodes)@[resolved@[k]].send_targets()
                    &&& r@[k].drone_ids@ == drone_ids@
                    &&& r@[k].command_senders@.dom() == Set::new(
                        |x: NodeId| drone_ids@.contains(x) && command_senders@.dom().contains(x),
                    )
                },
            forall|x: NodeId|
                nodes@.contains_key(x) <==> old(nodes)@.contains_key(x) && !resolved@.take(
                    i as int,
                ).contains(x),
            forall|x: NodeId|
                #[trigger] nodes@.contains_key(x) ==> nodes@[x] == old(nodes)@[x],
        decreases resolved@.len() - i,
    {
        let id = resolved[i];
        proof {
            assert(nodes@.contains_key(id));
        }
        let node = nodes.remove(&id).unwrap();
        let (packet_recv, packet_send) = match node {
            IntermediateNode::Drone { packet_recv, packet_send, .. } => (packet_recv, packet_send),
            IntermediateNode::Client { packet_recv, packet_send, .. } => (
                packet_recv,
                packet_send,
            ),
            IntermediateNode::Server { packet_recv, packet_send, .. } => (
                packet_recv,
                packet_send,
            ),
        };
        let cs = clone_command_senders(command_senders, drone_ids);
        r.push(
            TestNodeParams {
                id,
                packet_recv,
                packet_send,
                command_senders: cs,
                drone_ids: copy_ids(drone_ids),
            },
        );
        proof {
            assert(resolved@.take(i + 1) =~= resolved@.take(i as int).push(resolved@[i as int]));
            assert forall|x: NodeId|
                resolved@.take(i + 1).contains(x) <==> resolved@.take(i as int).contains(x) || x
                    == resolved@[i as int] by {
                lemma_push_contains(resolved@.take(i as int), resolved@[i as int], x);
            }
            assert forall|k: int| i + 1 <= k < resolved@.len() implies nodes@.contains_key(
                #[trigger] resolved@[k],
            ) by {
                assert(resolved@[k] != resolved@[i as int]);
            }
        }
        i += 1;
    }
    proof {
        assert(resolved@.take(resolved@.len() as int) == resolved@);
    }
    r
}

} // verus!
