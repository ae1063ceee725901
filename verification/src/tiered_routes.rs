//! Where the copies of a value lie when nodes keep them in memory and on an SSD.
use vstd::prelude::*;

use crate::assoc::{lemma_map_has_row, AssocMap};
use crate::ids::PutIDForAKey;
use crate::name_set::{names_has, NameSet};
use crate::routes::{Allocation, NodeTombTag};

verus! {

/// A copy on an SSD.
#[derive(Clone, Copy, Debug, PartialEq, Eq, Structural)]
pub struct KvSsdReplicaInfo {
    pub len: u64,
}

/// The copies on one node, in one generation of the node.
#[derive(Clone, Copy, Debug, PartialEq, Eq, Structural)]
pub struct KvNodeReplicas {
    pub tomb_tag: NodeTombTag,
    pub generation: i64,
    pub memory: Option<Allocation>,
    pub ssd: Option<KvSsdReplicaInfo>,
}

impl KvNodeReplicas {
    /// The node is there and has a copy.
    pub open spec fn live(self) -> bool {
        !self.tomb_tag.tomb && (self.memory is Some || self.ssd is Some)
    }
}

/// What became of the news of a copy on an SSD.
#[derive(Clone, Copy, Debug, PartialEq, Eq, Structural)]
pub enum SsdReplicaCommitStatus {
    /// The node has no copy in memory that the one on the SSD could stand for.
    MissingMemory,
    /// The node is gone.
    TombedNode,
    Committed,
}

/// The copies by node.
pub type Replicas = Map<Seq<char>, KvNodeReplicas>;

/// All copies of one version of a key. The number tells routes apart that were made for the same
/// version.
pub struct TieredKvRoutes {
    pub route_id: u64,
    pub put_id: PutIDForAKey,
    pub lease_id: Option<u64>,
    pub node_replicas: AssocMap<String, KvNodeReplicas>,
}

impl TieredKvRoutes {
    pub open spec fn wf(&self) -> bool {
        self.node_replicas.wf()
    }

    /// Everything but the copies is the same.
    pub open spec fn same_but_replicas(&self, other: &Self) -> bool {
        &&& self.route_id == other.route_id
        &&& self.put_id == other.put_id
        &&& self.lease_id == other.lease_id
    }

    /// Some node has a copy.
    pub open spec fn live(&self) -> bool {
        exists|n: Seq<char>| #[trigger]
            self.node_replicas@.contains_key(n) && self.node_replicas@[n].live()
    }

    pub fn new(route_id: u64, put_id: PutIDForAKey, lease_id: Option<u64>) -> (r: Self)
        ensures
            r.wf(),
            r.route_id == route_id,
            r.put_id == put_id,
            r.lease_id == lease_id,
            r.node_replicas@ == Map::<Seq<char>, KvNodeReplicas>::empty(),
    {
        TieredKvRoutes {
            route_id,
            put_id,
            lease_id,
            node_replicas: AssocMap::new(),
        }
    }

    /// Whether some node has a copy.
    pub fn has_live_replica(&self) -> (r: bool)
        requires
            self.wf(),
        ensures
            r == self.live(),
    {
        let mut i: usize = 0;
        while i < self.node_replicas.len()
            invariant
                self.wf(),
                i <= self.node_replicas.rows().len(),
                forall|j: int| 0 <= j < i ==> !(#[trigger] self.node_replicas.rows()[j]).1.live(),
            decreases self.node_replicas.rows().len() - i,
        {
            let row = self.node_replicas.row(i);
            if !row.1.tomb_tag.is_tomb() && (row.1.memory.is_some() || row.1.ssd.is_some()) {
                assert(self.node_replicas@.contains_key(row.0@));
                return true;
            }
            i += 1;
        }
        proof {
            self.node_replicas.lemma_rows();
            assert forall|n: Seq<char>| #[trigger]
                self.node_replicas@.contains_key(n) implies !self.node_replicas@[n].live() by {
                let j = lemma_map_has_row(self.node_replicas.rows(), n);
            }
        }
        false
    }

    /// The copies with one in a node's memory.
    pub open spec fn with_memory(
        m: Replicas,
        node: Seq<char>,
        generation: i64,
        allocation: Allocation,
        tomb_tag: NodeTombTag,
    ) -> Replicas {
        m.insert(
            node,
            KvNodeReplicas {
                tomb_tag,
                generation,
                memory: Some(allocation),
                ssd: if m.contains_key(node) && m[node].generation == generation {
                    m[node].ssd
                } else {
                    None
                },
            },
        )
    }

    /// The copy in a node's memory was dropped, if there was one.
    pub open spec fn memory_dropped(m: Replicas, node: Seq<char>, r: bool, after: Replicas) -> bool {
        &&& r == (m.contains_key(node) && m[node].memory is Some)
        &&& after == if r {
            Self::without_memory(m, node)
        } else {
            m
        }
    }

    /// The copy on a node's SSD was dropped, if there was one.
    pub open spec fn ssd_dropped(m: Replicas, node: Seq<char>, r: bool, after: Replicas) -> bool {
        &&& r == (m.contains_key(node) && m[node].ssd is Some)
        &&& after == if r {
            Self::without_ssd(m, node)
        } else {
            m
        }
    }

    /// All copies of a node were dropped, if they were of the generation.
    pub open spec fn generation_dropped(
        m: Replicas,
        node: Seq<char>,
        generation: i64,
        r: bool,
        after: Replicas,
    ) -> bool {
        &&& r == (m.contains_key(node) && m[node].generation == generation)
        &&& after == if r {
            m.remove(node)
        } else {
            m
        }
    }

    /// A copy on a node's SSD was noted, or not.
    pub open spec fn ssd_noted(
        m: Replicas,
        node: Seq<char>,
        len: u64,
        r: SsdReplicaCommitStatus,
        after: Replicas,
    ) -> bool {
        if !m.contains_key(node) || m[node].memory is None {
            r == SsdReplicaCommitStatus::MissingMemory && after == m
        } else if m[node].tomb_tag.tomb {
            r == SsdReplicaCommitStatus::TombedNode && after == m
        } else {
            &&& r == SsdReplicaCommitStatus::Committed
            &&& after == m.insert(
                node,
                KvNodeReplicas { ssd: Some(KvSsdReplicaInfo { len }), ..m[node] },
            )
        }
    }

    /// The copies of some nodes were dropped, if the route is of the version.
    pub open spec fn nodes_dropped(
        m: Replicas,
        current: PutIDForAKey,
        put_id: PutIDForAKey,
        nodes: Set<Seq<char>>,
        r: bool,
        after: Replicas,
    ) -> bool {
        &&& r == (current == put_id)
        &&& after == if r {
            m.remove_keys(nodes)
        } else {
            m
        }
    }

    /// Puts a copy in memory in place; a copy on the node's SSD stays if the generation does.
    pub fn insert_memory_replica(
        &mut self,
        node: String,
        generation: i64,
        allocation: Allocation,
        tomb_tag: NodeTombTag,
    )
        requires
            old(self).wf(),
        ensures
            final(self).wf(),
            final(self).same_but_replicas(old(self)),
            final(self).node_replicas@ == Self::with_memory(
                old(self).node_replicas@,
                node@,
                generation,
                allocation,
                tomb_tag,
            ),
    {
        let ssd = match self.node_replicas.get(&node) {
            Some(replicas) => if replicas.generation == generation {
                replicas.ssd
            } else {
                None
            },
            None => None,
        };
        self.node_replicas.insert(
            node,
            KvNodeReplicas { tomb_tag, generation, memory: Some(allocation), ssd },
        );
    }

    /// The copies without the one in a node's memory; a node without copies is not listed.
    pub open spec fn without_memory(m: Replicas, node: Seq<char>) -> Replicas {
        if m[node].ssd is None {
            m.remove(node)
        } else {
            m.insert(node, KvNodeReplicas { memory: None, ..m[node] })
        }
    }

    /// The copies without the one on a node's SSD; a node without copies is not listed.
    pub open spec fn without_ssd(m: Replicas, node: Seq<char>) -> Replicas {
        if m[node].memory is None {
            m.remove(node)
        } else {
            m.insert(node, KvNodeReplicas { ssd: None, ..m[node] })
        }
    }

    /// Removes the copy in a node's memory and tells whether there was one.
    pub fn remove_memory_replica(&mut self, node: &String) -> (r: bool)
        requires
            old(self).wf(),
        ensures
            final(self).wf(),
            final(self).same_but_replicas(old(self)),
            Self::memory_dropped(
                old(self).node_replicas@,
                node@,
                r,
                final(self).node_replicas@,
            ),
    {
        let replicas = match self.node_replicas.get(node) {
            Some(replicas) => *replicas,
            None => {
                return false;
            },
        };
        if replicas.memory.is_none() {
            return false;
        }
        if replicas.ssd.is_none() {
            self.node_replicas.remove(node);
        } else {
            self.node_replicas.insert(
                node.clone(),
                KvNodeReplicas {
                    tomb_tag: replicas.tomb_tag,
                    generation: replicas.generation,
                    memory: None,
                    ssd: replicas.ssd,
                },
            );
        }
        true
    }

    /// Removes the copy on a node's SSD and tells whether there was one.
    pub fn remove_ssd_replica(&mut self, node: &String) -> (r: bool)
        requires
            old(self).wf(),
        ensures
            final(self).wf(),
            final(self).same_but_replicas(old(self)),
            Self::ssd_dropped(old(self).node_replicas@, node@, r, final(self).node_replicas@),
    {
        let replicas = match self.node_replicas.get(node) {
            Some(replicas) => *replicas,
            None => {
                return false;
            },
        };
        if replicas.ssd.is_none() {
            return false;
        }
        if replicas.memory.is_none() {
            self.node_replicas.remove(node);
        } else {
            self.node_replicas.insert(
                node.clone(),
                KvNodeReplicas {
                    tomb_tag: replicas.tomb_tag,
                    generation: replicas.generation,
                    memory: replicas.memory,
                    ssd: None,
                },
            );
        }
        true
    }

    /// The node has exactly this copy in memory, in this generation.
    pub open spec fn has_allocation(
        &self,
        node: Seq<char>,
        generation: i64,
        allocation: Allocation,
    ) -> bool {
        &&& self.node_replicas@.contains_key(node)
        &&& self.node_replicas@[node].generation == generation
        &&& self.node_replicas@[node].memory == Some(allocation)
    }

    pub fn has_memory_replica_allocation(
        &self,
        node: &String,
        generation: i64,
        allocation: &Allocation,
    ) -> (r: bool)
        requires
            self.wf(),
        ensures
            r == self.has_allocation(node@, generation, *allocation),
    {
        match self.node_replicas.get(node) {
            Some(replicas) => replicas.generation == generation && match replicas.memory {
                Some(memory) => memory == *allocation,
                None => false,
            },
            None => false,
        }
    }

    /// Removes exactly this copy from a node's memory, if it is there.
    pub fn remove_memory_replica_if_allocation(
        &mut self,
        node: &String,
        generation: i64,
        allocation: &Allocation,
    ) -> (r: bool)
        requires
            old(self).wf(),
        ensures
            final(self).wf(),
            final(self).same_but_replicas(old(self)),
            r == old(self).has_allocation(node@, generation, *allocation),
            final(self).node_replicas@ == if r {
                Self::without_memory(old(self).node_replicas@, node@)
            } else {
                old(self).node_replicas@
            },
    {
        if !self.has_memory_replica_allocation(node, generation, allocation) {
            return false;
        }
        self.remove_memory_replica(node)
    }

    /// Removes all copies of a node that are of the given generation.
    pub fn remove_node_replicas_if_generation(&mut self, node: &String, generation: i64) -> (r: bool)
        requires
            old(self).wf(),
        ensures
            final(self).wf(),
            final(self).same_but_replicas(old(self)),
            Self::generation_dropped(
                old(self).node_replicas@,
                node@,
                generation,
                r,
                final(self).node_replicas@,
            ),
    {
        let same = match self.node_replicas.get(node) {
            Some(replicas) => replicas.generation == generation,
            None => false,
        };
        if same {
            self.node_replicas.remove(node);
        }
        same
    }

    /// Takes note of a copy on a node's SSD. It counts only beside a copy in the node's memory.
    pub fn commit_ssd_replica(&mut self, node: &String, len: u64) -> (r: SsdReplicaCommitStatus)
        requires
            old(self).wf(),
        ensures
            final(self).wf(),
            final(self).same_but_replicas(old(self)),
            Self::ssd_noted(
                old(self).node_replicas@,
                node@,
                len,
                r,
                final(self).node_replicas@,
            ),
    {
        let replicas = match self.node_replicas.get(node) {
            Some(replicas) => *replicas,
            None => {
                return SsdReplicaCommitStatus::MissingMemory;
            },
        };
        if replicas.memory.is_none() {
            return SsdReplicaCommitStatus::MissingMemory;
        }
        if replicas.tomb_tag.is_tomb() {
            return SsdReplicaCommitStatus::TombedNode;
        }
        self.node_replicas.insert(
            node.clone(),
            KvNodeReplicas {
                tomb_tag: replicas.tomb_tag,
                generation: replicas.generation,
                memory: replicas.memory,
                ssd: Some(KvSsdReplicaInfo { len }),
            },
        );
        SsdReplicaCommitStatus::Committed
    }

    /// Removes the copies of the given nodes, if the route is of the expected version.
    pub fn remove_tombed_node_replicas(&mut self, put_id: PutIDForAKey, tombs: &NameSet) -> (r: bool)
        requires
            old(self).wf(),
        ensures
            final(self).wf(),
            final(self).same_but_replicas(old(self)),
            Self::nodes_dropped(
                old(self).node_replicas@,
                old(self).put_id,
                put_id,
                tombs@,
                r,
                final(self).node_replicas@,
            ),
    {
        if self.put_id.0 != put_id.0 || self.put_id.1 != put_id.1 {
            return false;
        }
        let ghost start = self.node_replicas@;
        let mut i: usize = 0;
        while i < tombs.len()
            invariant
                self.wf(),
                self.same_but_replicas(old(self)),
                i <= tombs.list().len(),
                forall|n: Seq<char>| #[trigger]
                    self.node_replicas@.contains_key(n) <==> start.contains_key(n) && !names_has(
                        tombs.list().take(i as int),
                        n,
                    ),
                forall|n: Seq<char>| #[trigger]
                    self.node_replicas@.contains_key(n) ==> self.node_replicas@[n] == start[n],
            decreases tombs.list().len() - i,
        {
            let name = tombs.get(i);
            self.node_replicas.remove(name);
            proof {
                let now = tombs.list().take(i + 1);
                let prev = tombs.list().take(i as int);
                assert forall|n: Seq<char>|
                    names_has(now, n) == (names_has(prev, n) || n == name@) by {
                    if names_has(now, n) {
                        let j = choose|j: int| 0 <= j < now.len() && (#[trigger] now[j])@ == n;
                        if j < i {
                            assert(prev[j]@ == n);
                        }
                    }
                    if names_has(prev, n) {
                        let j = choose|j: int| 0 <= j < prev.len() && (#[trigger] prev[j])@ == n;
                        assert(now[j]@ == n);
                    }
                    if n == name@ {
                        assert(now[i as int]@ == n);
                    }
                }
            }
            i += 1;
        }
        proof {
            tombs.lemma_list();
            assert(tombs.list().take(tombs.list().len() as int) =~= tombs.list());
            assert(self.node_replicas@ =~= start.remove_keys(tombs@)) by {
                assert forall|n: Seq<char>| #[trigger]
                    self.node_replicas@.contains_key(n) == start.remove_keys(tombs@).contains_key(
                        n,
                    ) by {
                    assert(tombs@.contains(n) == names_has(tombs.list(), n));
                }
            }
        }
        true
    }
}

/// The copy in a node's memory, if there is one.
pub open spec fn memory_at(m: Replicas, node: Seq<char>) -> Option<Allocation> {
    if m.contains_key(node) {
        m[node].memory
    } else {
        None
    }
}

/// The length of the copy on a node's SSD, if there is one.
pub open spec fn ssd_at(m: Replicas, node: Seq<char>) -> Option<u64> {
    if m.contains_key(node) && m[node].ssd is Some {
        Some(m[node].ssd->0.len)
    } else {
        None
    }
}

/// A copy is in a node's memory once it was put there. A copy on the SSD stays only if the node has not
/// been restarted, and the copies of other nodes stay as they are.
pub proof fn a_copy_is_where_it_was_put(
    m: Replicas,
    node: Seq<char>,
    generation: i64,
    allocation: Allocation,
    tomb_tag: NodeTombTag,
    other: Seq<char>,
)
    ensures
        ({
            let after = TieredKvRoutes::with_memory(m, node, generation, allocation, tomb_tag);
            &&& memory_at(after, node) == Some(allocation)
            &&& after[node].generation == generation
            &&& after[node].tomb_tag == tomb_tag
            &&& m.contains_key(node) && m[node].generation == generation ==> ssd_at(after, node)
                == ssd_at(m, node)
            &&& m.contains_key(node) && m[node].generation != generation ==> ssd_at(after, node)
                is None
            &&& !m.contains_key(node) ==> ssd_at(after, node) is None
            &&& other != node ==> (after.contains_key(other) <==> m.contains_key(other))
                && after[other] == m[other]
        }),
{
}

/// Dropping the copy in a node's memory touches no other copy, and tells whether there was one.
pub proof fn only_the_memory_copy_is_dropped(
    m: Replicas,
    node: Seq<char>,
    r: bool,
    after: Replicas,
    other: Seq<char>,
)
    requires
        TieredKvRoutes::memory_dropped(m, node, r, after),
    ensures
        r <==> memory_at(m, node) is Some,
        memory_at(after, node) is None,
        ssd_at(after, node) == ssd_at(m, node),
        other != node ==> memory_at(after, other) == memory_at(m, other) && ssd_at(after, other)
            == ssd_at(m, other),
        r && ssd_at(m, node) is None ==> !after.contains_key(node),
        !r ==> after == m,
{
}

/// Dropping the copy on a node's SSD touches no other copy, and tells whether there was one.
pub proof fn only_the_ssd_copy_is_dropped(
    m: Replicas,
    node: Seq<char>,
    r: bool,
    after: Replicas,
    other: Seq<char>,
)
    requires
        TieredKvRoutes::ssd_dropped(m, node, r, after),
    ensures
        r <==> ssd_at(m, node) is Some,
        ssd_at(after, node) is None,
        memory_at(after, node) == memory_at(m, node),
        other != node ==> memory_at(after, other) == memory_at(m, other) && ssd_at(after, other)
            == ssd_at(m, other),
        r && memory_at(m, node) is None ==> !after.contains_key(node),
        !r ==> after == m,
{
}

/// A node that was restarted keeps its copies when news of an earlier generation come; otherwise it keeps
/// none.
pub proof fn a_generation_goes_with_all_its_copies(
    m: Replicas,
    node: Seq<char>,
    generation: i64,
    r: bool,
    after: Replicas,
    other: Seq<char>,
)
    requires
        TieredKvRoutes::generation_dropped(m, node, generation, r, after),
    ensures
        m.contains_key(node) && m[node].generation != generation ==> !r && after == m,
        m.contains_key(node) && m[node].generation == generation ==> r && !after.contains_key(node),
        !m.contains_key(node) ==> !r && after == m,
        other != node ==> (after.contains_key(other) <==> m.contains_key(other)) && after[other]
            == m[other],
{
}

/// A copy on the SSD is noted only for a node that is there and has the value in memory; what is noted is
/// its length, and nothing else changes.
pub proof fn an_ssd_copy_is_noted_beside_memory(
    m: Replicas,
    node: Seq<char>,
    len: u64,
    r: SsdReplicaCommitStatus,
    after: Replicas,
    other: Seq<char>,
)
    requires
        TieredKvRoutes::ssd_noted(m, node, len, r, after),
    ensures
        r == SsdReplicaCommitStatus::Committed <==> memory_at(m, node) is Some
            && !m[node].tomb_tag.tomb,
        r == SsdReplicaCommitStatus::MissingMemory <==> memory_at(m, node) is None,
        r == SsdReplicaCommitStatus::Committed ==> ssd_at(after, node) == Some(len)
            && after[node].generation == m[node].generation,
        r != SsdReplicaCommitStatus::Committed ==> after == m,
        memory_at(after, node) == memory_at(m, node),
        other != node ==> memory_at(after, other) == memory_at(m, other) && ssd_at(after, other)
            == ssd_at(m, other),
{
}

/// The copies of exactly the given nodes are dropped, and none if the route is of another version by now.
pub proof fn copies_of_other_nodes_stay(
    m: Replicas,
    current: PutIDForAKey,
    put_id: PutIDForAKey,
    nodes: Set<Seq<char>>,
    r: bool,
    after: Replicas,
    node: Seq<char>,
)
    requires
        TieredKvRoutes::nodes_dropped(m, current, put_id, nodes, r, after),
    ensures
        current != put_id ==> !r && after == m,
        current == put_id ==> r && (after.contains_key(node) <==> m.contains_key(node)
            && !nodes.contains(node)),
        after.contains_key(node) ==> after[node] == m[node],
{
}

/// Dropping a copy in memory leaves the one on the SSD, and the other way round.
pub proof fn tiers_are_dropped_separately(m: Replicas, node: Seq<char>)
    requires
        m.contains_key(node),
        m[node].memory is Some,
        m[node].ssd is Some,
    ensures
        TieredKvRoutes::without_memory(m, node)[node].ssd == m[node].ssd,
        TieredKvRoutes::without_ssd(m, node)[node].memory == m[node].memory,
        !TieredKvRoutes::without_ssd(TieredKvRoutes::without_memory(m, node), node).contains_key(
            node,
        ),
{
}

} // verus!
