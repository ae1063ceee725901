//! Where the copies of a value lie.
use vstd::prelude::*;

use crate::assoc::{lemma_map_has_row, AssocMap};
use crate::ids::{NodeID, PutIDForAKey};
use crate::name_set::NameSet;

verus! {

/// Durable copies that reads may add to a route at a time.
pub const MAX_GET_DURABLE_REPLICA_SLOTS: u32 = 2;

/// A piece of memory on a node. The number tells allocations apart.
#[derive(Clone, Copy, Debug, PartialEq, Eq, Structural)]
pub struct Allocation {
    pub id: u64,
    pub base_addr: u64,
    pub addr: u64,
    pub size: u64,
    pub capacity: u64,
}

impl Allocation {
    /// The address in the node's memory.
    pub open spec fn spec_abs_addr(self) -> int {
        self.base_addr + self.addr
    }

    pub fn abs_addr(&self) -> (r: u64)
        requires
            self.base_addr + self.addr <= u64::MAX,
        ensures
            r == self.spec_abs_addr(),
    {
        self.base_addr + self.addr
    }
}

/// A mark on what belonged to a node that is gone.
#[derive(Clone, Copy, Debug, PartialEq, Eq, Structural)]
pub struct NodeTombTag {
    pub tomb: bool,
}

impl NodeTombTag {
    pub fn new() -> (r: Self)
        ensures
            !r.tomb,
    {
        NodeTombTag { tomb: false }
    }

    pub fn set_tomb(&mut self)
        ensures
            final(self).tomb,
    {
        self.tomb = true;
    }

    pub fn is_tomb(&self) -> (r: bool)
        ensures
            r == self.tomb,
    {
        self.tomb
    }
}

/// A slot of granted memory that holds a value.
#[derive(Debug)]
pub struct CommittedSlotReplica {
    pub owner_node_id: NodeID,
    pub grant_id: u64,
    pub slot_index: u32,
    pub slot_size: u64,
    pub addr: u64,
    pub len: u64,
    pub base_addr: u64,
}

/// What a copy lies in.
#[derive(Debug)]
pub enum KvReplicaBacking {
    Allocation(Allocation),
    CommittedSlot(CommittedSlotReplica),
}

impl KvReplicaBacking {
    /// The address of the copy in its node's memory.
    pub fn abs_addr(&self) -> (r: u64)
        requires
            self matches KvReplicaBacking::Allocation(a) ==> a.base_addr + a.addr <= u64::MAX,
        ensures
            r == match self {
                KvReplicaBacking::Allocation(a) => a.base_addr + a.addr,
                KvReplicaBacking::CommittedSlot(slot) => slot.addr as int,
            },
    {
        match self {
            KvReplicaBacking::Allocation(a) => a.base_addr + a.addr,
            KvReplicaBacking::CommittedSlot(slot) => slot.addr,
        }
    }

    /// The address of the segment that the copy lies in.
    pub fn base_addr(&self) -> (r: u64)
        ensures
            r == match self {
                KvReplicaBacking::Allocation(a) => a.base_addr,
                KvReplicaBacking::CommittedSlot(slot) => slot.base_addr,
            },
    {
        match self {
            KvReplicaBacking::Allocation(a) => a.base_addr,
            KvReplicaBacking::CommittedSlot(slot) => slot.base_addr,
        }
    }

    /// The length of the value.
    pub fn len(&self) -> (r: u64)
        ensures
            r == match self {
                KvReplicaBacking::Allocation(a) => a.size,
                KvReplicaBacking::CommittedSlot(slot) => slot.len,
            },
    {
        match self {
            KvReplicaBacking::Allocation(a) => a.size,
            KvReplicaBacking::CommittedSlot(slot) => slot.len,
        }
    }
}

/// One copy of a value.
#[derive(Debug)]
pub struct KvRouteInfo {
    pub node_id: NodeID,
    pub backing: KvReplicaBacking,
    /// The owner has the copy in its own index of keys.
    pub owner_local_indexed: bool,
    pub tomb_tag: NodeTombTag,
}

/// A key of a group that is put together.
#[derive(Debug)]
pub struct PutAtomicGroupMember {
    pub key: String,
    pub put_id: PutIDForAKey,
}

/// Keys that are put together.
#[derive(Debug)]
pub struct PutAtomicGroup {
    pub members: Vec<PutAtomicGroupMember>,
}

/// A key and a version, as a mathematical value.
pub type MemberId = (Seq<char>, PutIDForAKey);

/// The members of a list.
pub open spec fn member_ids(members: Seq<PutAtomicGroupMember>) -> Seq<MemberId> {
    Seq::new(members.len(), |i: int| (members[i].key@, members[i].put_id))
}

/// The keys of a list of members.
pub open spec fn member_keys(members: Seq<MemberId>) -> Seq<Seq<char>> {
    Seq::new(members.len(), |i: int| members[i].0)
}

impl View for PutAtomicGroup {
    type V = Seq<MemberId>;

    open spec fn view(&self) -> Seq<MemberId> {
        member_ids(self.members@)
    }
}

impl PutAtomicGroup {
    /// The two groups have the same members in the same order.
    pub fn same(&self, other: &PutAtomicGroup) -> (r: bool)
        ensures
            r == (self@ == other@),
    {
        if self.members.len() != other.members.len() {
            assert(self@.len() != other@.len());
            return false;
        }
        let mut i: usize = 0;
        while i < self.members.len()
            invariant
                i <= self.members@.len() == other.members@.len(),
                forall|j: int| 0 <= j < i ==> #[trigger] self@[j] == other@[j],
            decreases self.members@.len() - i,
        {
            let a = &self.members[i];
            let b = &other.members[i];
            if a.key != b.key || a.put_id.0 != b.put_id.0 || a.put_id.1 != b.put_id.1 {
                assert(self@[i as int] != other@[i as int]);
                return false;
            }
            i += 1;
        }
        assert(self@ =~= other@);
        true
    }

    /// One of the members is this version of this key.
    pub fn has_member(&self, key: &String, put_id: PutIDForAKey) -> (r: bool)
        ensures
            r == self@.contains((key@, put_id)),
    {
        let mut i: usize = 0;
        while i < self.members.len()
            invariant
                i <= self.members@.len(),
                forall|j: int| 0 <= j < i ==> #[trigger] self@[j] != (key@, put_id),
            decreases self.members@.len() - i,
        {
            let m = &self.members[i];
            if m.key == *key && m.put_id.0 == put_id.0 && m.put_id.1 == put_id.1 {
                assert(self@[i as int] == (key@, put_id));
                return true;
            }
            assert(self@[i as int] != (key@, put_id));
            i += 1;
        }
        false
    }
}

/// What the cache of a node knows of a value.
#[derive(Clone, Copy, Debug)]
pub struct NodeValueReplicaDesc {
    pub weight_bytes: u32,
    pub put_id: PutIDForAKey,
}

/// All copies of one version of a key.
pub struct OneKvNodesRoutes {
    pub put_id: PutIDForAKey,
    /// The lease that the version belongs to. Leased versions are never evicted by a cache.
    pub lease_id: Option<u64>,
    /// The keys that were put together with this one.
    pub atomic_group: Option<PutAtomicGroup>,
    pub nodes_replicas: AssocMap<String, KvRouteInfo>,
    pub get_durable_slots_used: u32,
}

impl OneKvNodesRoutes {
    /// A route without copies.
    pub fn new(put_id: PutIDForAKey, lease_id: Option<u64>) -> (r: Self)
        ensures
            r.wf(),
            r.put_id == put_id,
            r.lease_id == lease_id,
            r.atomic_group is None,
            r.nodes_replicas@ == Map::<Seq<char>, KvRouteInfo>::empty(),
            r.get_durable_slots_used == 0,
    {
        OneKvNodesRoutes {
            put_id,
            lease_id,
            atomic_group: None,
            nodes_replicas: AssocMap::new(),
            get_durable_slots_used: 0,
        }
    }

    /// No more durable copies than allowed are being added.
    pub open spec fn wf(&self) -> bool {
        &&& self.nodes_replicas.wf()
        &&& self.get_durable_slots_used <= MAX_GET_DURABLE_REPLICA_SLOTS
    }

    /// The members of the group, if there is one.
    pub open spec fn group(&self) -> Option<Seq<MemberId>> {
        match self.atomic_group {
            Some(g) => Some(g@),
            None => None,
        }
    }

    /// A copy on the node is alive.
    pub open spec fn live_on(&self, node: Seq<char>) -> bool {
        self.nodes_replicas@.contains_key(node) && !self.nodes_replicas@[node].tomb_tag.tomb
    }

    /// A node other than `owner` has a copy that is alive.
    pub open spec fn live_elsewhere(&self, owner: Seq<char>) -> bool {
        exists|n: Seq<char>| n != owner && #[trigger] self.live_on(n)
    }

    /// Everything but the copies is the same.
    pub open spec fn same_but_replicas(&self, other: &Self) -> bool {
        &&& self.put_id == other.put_id
        &&& self.lease_id == other.lease_id
        &&& self.atomic_group == other.atomic_group
        &&& self.get_durable_slots_used == other.get_durable_slots_used
    }

    /// Drops the copies that name one of the given nodes, if the route is of the expected version.
    pub fn clean_up_tomb_nodes_replicas(&mut self, verify_put_id: PutIDForAKey, tombs: &NameSet) -> (r:
        bool)
        requires
            old(self).wf(),
        ensures
            final(self).wf(),
            final(self).same_but_replicas(old(self)),
            r == (old(self).put_id == verify_put_id),
            !r ==> *final(self) == *old(self),
            r ==> {
                &&& forall|n: Seq<char>| #[trigger]
                    final(self).nodes_replicas@.contains_key(n)
                        <==> old(self).nodes_replicas@.contains_key(n) && !tombs@.contains(
                        old(self).nodes_replicas@[n].node_id@,
                    )
                &&& forall|n: Seq<char>| #[trigger]
                    final(self).nodes_replicas@.contains_key(n)
                        ==> final(self).nodes_replicas@[n] == old(self).nodes_replicas@[n]
            },
    {
        if self.put_id.0 != verify_put_id.0 || self.put_id.1 != verify_put_id.1 {
            return false;
        }
        let ghost start = self.nodes_replicas@;
        let mut gone: Vec<String> = Vec::new();
        let mut i: usize = 0;
        while i < self.nodes_replicas.len()
            invariant
                self.wf(),
                *self == *old(self),
                start == self.nodes_replicas@,
                i <= self.nodes_replicas.rows().len(),
                forall|j: int|
                    0 <= j < gone@.len() ==> start.contains_key((#[trigger] gone@[j])@)
                        && tombs@.contains(start[gone@[j]@].node_id@),
                forall|j: int|
                    0 <= j < i && tombs@.contains(
                        (#[trigger] self.nodes_replicas.rows()[j]).1.node_id@,
                    ) ==> exists|h: int|
                        0 <= h < gone@.len() && (#[trigger] gone@[h])@
                            == self.nodes_replicas.rows()[j].0@,
            decreases self.nodes_replicas.rows().len() - i,
        {
            let row = self.nodes_replicas.row(i);
            if tombs.contains(&row.1.node_id) {
                let ghost before = gone@;
                gone.push(row.0.clone());
                proof {
                    assert(gone@[before.len() as int]@ == self.nodes_replicas.rows()[i as int].0@);
                    assert forall|j: int|
                        0 <= j < i && tombs@.contains(
                            (#[trigger] self.nodes_replicas.rows()[j]).1.node_id@,
                        ) implies exists|h: int|
                        0 <= h < gone@.len() && (#[trigger] gone@[h])@
                            == self.nodes_replicas.rows()[j].0@ by {
                        let h = choose|h: int|
                            0 <= h < before.len() && (#[trigger] before[h])@
                                == self.nodes_replicas.rows()[j].0@;
                        assert(gone@[h]@ == self.nodes_replicas.rows()[j].0@);
                    }
                }
            }
            i += 1;
        }
        proof {
            self.nodes_replicas.lemma_rows();
            assert forall|n: Seq<char>| #[trigger]
                start.contains_key(n) && tombs@.contains(start[n].node_id@) implies
                crate::name_set::names_has(gone@, n) by {
                let j = lemma_map_has_row(self.nodes_replicas.rows(), n);
                let h = choose|h: int|
                    0 <= h < gone@.len() && (#[trigger] gone@[h])@
                        == self.nodes_replicas.rows()[j].0@;
                assert(gone@[h]@ == n);
            }
        }
        let mut g: usize = 0;
        while g < gone.len()
            invariant
                self.wf(),
                self.same_but_replicas(old(self)),
                start == old(self).nodes_replicas@,
                g <= gone@.len(),
                forall|n: Seq<char>| #[trigger]
                    self.nodes_replicas@.contains_key(n) <==> start.contains_key(n)
                        && !crate::name_set::names_has(gone@.take(g as int), n),
                forall|n: Seq<char>| #[trigger]
                    self.nodes_replicas@.contains_key(n) ==> self.nodes_replicas@[n] == start[n],
            decreases gone@.len() - g,
        {
            self.nodes_replicas.remove(&gone[g]);
            proof {
                let now = gone@.take(g + 1);
                let prev = gone@.take(g as int);
                assert forall|n: Seq<char>|
                    crate::name_set::names_has(now, n) == (crate::name_set::names_has(prev, n) || n
                        == gone@[g as int]@) by {
                    if crate::name_set::names_has(now, n) {
                        let j = choose|j: int| 0 <= j < now.len() && (#[trigger] now[j])@ == n;
                        if j < g {
                            assert(prev[j]@ == n);
                        }
                    }
                    if crate::name_set::names_has(prev, n) {
                        let j = choose|j: int| 0 <= j < prev.len() && (#[trigger] prev[j])@ == n;
                        assert(now[j]@ == n);
                    }
                    if n == gone@[g as int]@ {
                        assert(now[g as int]@ == n);
                    }
                }
            }
            g += 1;
        }
        proof {
            assert(gone@.take(gone@.len() as int) =~= gone@);
            assert forall|n: Seq<char>|
                start.contains_key(n) && crate::name_set::names_has(gone@, n) implies tombs@.contains(
                start[n].node_id@,
            ) by {
                let j = choose|j: int| 0 <= j < gone@.len() && (#[trigger] gone@[j])@ == n;
                assert(tombs@.contains(start[gone@[j]@].node_id@));
            }
        }
        true
    }

    /// A right to add a durable copy was given out, if one was left.
    pub open spec fn slot_reserved(&self, r: bool, after: Self) -> bool {
        &&& r == (self.get_durable_slots_used < MAX_GET_DURABLE_REPLICA_SLOTS)
        &&& after.get_durable_slots_used == self.get_durable_slots_used + if r {
            1int
        } else {
            0int
        }
        &&& after.put_id == self.put_id
        &&& after.lease_id == self.lease_id
        &&& after.atomic_group == self.atomic_group
        &&& after.nodes_replicas == self.nodes_replicas
    }

    /// A right to add a durable copy was given back.
    pub open spec fn slot_released(&self, after: Self) -> bool {
        &&& after.get_durable_slots_used == self.get_durable_slots_used - 1
        &&& after.put_id == self.put_id
        &&& after.lease_id == self.lease_id
        &&& after.atomic_group == self.atomic_group
        &&& after.nodes_replicas == self.nodes_replicas
    }

    /// Two durable copies may be added to a route at a time: a third is refused until one of the rights is
    /// given back, and giving back undoes exactly one reservation.
    pub proof fn two_durable_copies_at_a_time(
        &self,
        first: bool,
        one: Self,
        second: bool,
        two: Self,
        third: bool,
        three: Self,
        back: Self,
        again: bool,
        last: Self,
    )
        requires
            self.get_durable_slots_used == 0,
            self.slot_reserved(first, one),
            one.slot_reserved(second, two),
            two.slot_reserved(third, three),
            three.slot_released(back),
            back.slot_reserved(again, last),
        ensures
            first && second && !third && again,
            three.get_durable_slots_used == two.get_durable_slots_used,
            back.get_durable_slots_used == one.get_durable_slots_used,
            last.nodes_replicas == self.nodes_replicas,
            last.put_id == self.put_id,
            last.lease_id == self.lease_id,
    {
    }

    /// Reserves the right to add a durable copy, while there is one left.
    pub fn try_reserve_get_durable_slot(&mut self) -> (r: bool)
        requires
            old(self).wf(),
        ensures
            final(self).wf(),
            old(self).slot_reserved(r, *final(self)),
    {
        if self.get_durable_slots_used < MAX_GET_DURABLE_REPLICA_SLOTS {
            self.get_durable_slots_used = self.get_durable_slots_used + 1;
            true
        } else {
            false
        }
    }

    /// Gives the right to add a durable copy back.
    pub fn release_get_durable_slot(&mut self)
        requires
            old(self).wf(),
            old(self).get_durable_slots_used > 0,
        ensures
            final(self).wf(),
            old(self).slot_released(*final(self)),
    {
        self.get_durable_slots_used = self.get_durable_slots_used - 1;
    }

    /// Whether the node has a copy that is alive.
    pub fn has_live_replica_on_node(&self, node: &String) -> (r: bool)
        requires
            self.wf(),
        ensures
            r == self.live_on(node@),
    {
        match self.nodes_replicas.get(node) {
            Some(replica) => !replica.tomb_tag.is_tomb(),
            None => false,
        }
    }

    /// Whether another node than `owner` has a copy that is alive.
    pub fn has_other_live_replica(&self, owner: &String) -> (r: bool)
        requires
            self.wf(),
        ensures
            r == self.live_elsewhere(owner@),
    {
        let mut i: usize = 0;
        while i < self.nodes_replicas.len()
            invariant
                self.wf(),
                i <= self.nodes_replicas.rows().len(),
                forall|j: int|
                    0 <= j < i ==> (#[trigger] self.nodes_replicas.rows()[j]).0@ == owner@
                        || !self.live_on(self.nodes_replicas.rows()[j].0@),
            decreases self.nodes_replicas.rows().len() - i,
        {
            let row = self.nodes_replicas.row(i);
            if row.0 != *owner && !row.1.tomb_tag.is_tomb() {
                assert(self.live_on(row.0@));
                return true;
            }
            i += 1;
        }
        proof {
            self.nodes_replicas.lemma_rows();
            assert forall|n: Seq<char>| n != owner@ implies !#[trigger] self.live_on(n) by {
                if self.live_on(n) {
                    let j = lemma_map_has_row(self.nodes_replicas.rows(), n);
                }
            }
        }
        false
    }

    /// Whether any node has a copy that is alive.
    pub open spec fn live_somewhere(&self) -> bool {
        exists|n: Seq<char>| #[trigger] self.live_on(n)
    }

    pub fn has_live_replica(&self) -> (r: bool)
        requires
            self.wf(),
        ensures
            r == self.live_somewhere(),
    {
        let mut i: usize = 0;
        while i < self.nodes_replicas.len()
            invariant
                self.wf(),
                i <= self.nodes_replicas.rows().len(),
                forall|j: int|
                    0 <= j < i ==> !self.live_on((#[trigger] self.nodes_replicas.rows()[j]).0@),
            decreases self.nodes_replicas.rows().len() - i,
        {
            let row = self.nodes_replicas.row(i);
            if !row.1.tomb_tag.is_tomb() {
                assert(self.live_on(row.0@));
                return true;
            }
            i += 1;
        }
        proof {
            self.nodes_replicas.lemma_rows();
            assert forall|n: Seq<char>| !#[trigger] self.live_on(n) by {
                if self.live_on(n) {
                    let j = lemma_map_has_row(self.nodes_replicas.rows(), n);
                }
            }
        }
        false
    }

    /// The nodes of the remote tier that have a copy that is alive.
    pub open spec fn live_remote(&self, remote: Set<Seq<char>>) -> Set<Seq<char>> {
        Set::new(|n: Seq<char>| self.live_on(n) && remote.contains(n))
    }

    /// The nodes of the remote tier that have a copy that is alive. `remote` holds the nodes of that
    /// tier.
    pub fn live_remote_cache_nodes(&self, remote: &NameSet) -> (r: NameSet)
        requires
            self.wf(),
        ensures
            r@ == self.live_remote(remote@),
    {
        let mut r = NameSet::new();
        let mut i: usize = 0;
        while i < self.nodes_replicas.len()
            invariant
                self.wf(),
                i <= self.nodes_replicas.rows().len(),
                forall|n: Seq<char>| #[trigger]
                    r@.contains(n) ==> self.live_on(n) && remote@.contains(n),
                forall|j: int|
                    0 <= j < i && self.live_on((#[trigger] self.nodes_replicas.rows()[j]).0@)
                        && remote@.contains(self.nodes_replicas.rows()[j].0@) ==> r@.contains(
                        self.nodes_replicas.rows()[j].0@,
                    ),
            decreases self.nodes_replicas.rows().len() - i,
        {
            let row = self.nodes_replicas.row(i);
            if !row.1.tomb_tag.is_tomb() && remote.contains(&row.0) {
                r.insert(row.0.clone());
            }
            i += 1;
        }
        proof {
            self.nodes_replicas.lemma_rows();
            assert forall|n: Seq<char>|
                self.live_on(n) && remote@.contains(n) implies #[trigger] r@.contains(n) by {
                let j = lemma_map_has_row(self.nodes_replicas.rows(), n);
            }
            assert(r@ =~= self.live_remote(remote@));
        }
        r
    }
}

} // verus!
