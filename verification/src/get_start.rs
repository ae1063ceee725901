//! Beginning a get: which copy is read, where the bytes go, and what the reader is told.
//!
//! A copy in memory is preferred. If the reader's node has one, it is used in place. Otherwise memory
//! is allocated on the reader's node, and, for a copy on the SSD of another node, on that node too.
use vstd::prelude::*;

use crate::align::{
    align_ssd_io_len, align_ssd_stage_addr, aligned_up, checked_add_u64, SSD_ALIGNMENT_BYTES,
};
use crate::assoc::{lemma_map_has_row, AssocMap};
use crate::delete::{some_live, tiered_wf, TieredMap};
use crate::error::ArgumentError;
use crate::get_alloc::AllocateError;
use crate::ids::{NodeID, PutIDForAKey};
use crate::key_table::KeyTable;
use crate::msg_pack::GetAllocationMode;
use crate::name_set::{names_has, NameSet};
use crate::placement::random_index;
use crate::routes::Allocation;
use crate::tiered_routes::{KvNodeReplicas, Replicas, TieredKvRoutes};

verus! {

/// Where the bytes of a get come from.
#[derive(Clone, Copy, Debug, PartialEq, Eq, Structural)]
pub enum GetSourceKind {
    Memory,
    Ssd,
}

/// A get that is under way.
#[derive(Debug)]
pub struct InflightGetInfo {
    pub put_id: PutIDForAKey,
    pub src_node_id: NodeID,
    pub key: String,
    pub req_node_id: NodeID,
    pub len: u64,
    /// Where the bytes go.
    pub allocation: Allocation,
    /// Where the bytes come from, as far as that has to stay in place.
    pub source_allocation: Option<Allocation>,
    /// The route that was read.
    pub route_id: u64,
    pub allocation_mode: GetAllocationMode,
    pub source_kind: GetSourceKind,
    /// Another node reads the bytes from its SSD first.
    pub remote_ssd_stage: bool,
    /// The cache capacity that is kept back for the bytes.
    pub cache_capacity_reservation: Option<u64>,
}

/// What the reader is told.
#[derive(Debug)]
pub struct GetSource {
    pub put_id: PutIDForAKey,
    pub get_id: u64,
    pub node_id: NodeID,
    pub source_kind: GetSourceKind,
    pub src_addr: u64,
    pub target_addr: u64,
    pub src_base_addr: u64,
    pub target_base_addr: u64,
    pub len: u64,
    pub ssd_stage_len: u64,
}

/// A get that has begun.
#[derive(Debug)]
pub struct StartedGet {
    pub source: GetSource,
    pub info: InflightGetInfo,
    /// The cache of the node that is read is to count this as a use of the key.
    pub touch_source_cache: bool,
}

/// Why a get cannot begin.
pub enum GetStartError {
    KeyNotFound,
    Allocate(AllocateError),
    InvalidArgument(ArgumentError),
}

/// What is to be done next.
pub enum GetStartAction {
    /// Allocate memory on a node.
    Allocate { node: NodeID, len: u64 },
    /// Ask for the right to keep the bytes as a further copy of this size.
    ReserveDurable { capacity: u64 },
    Started(StartedGet),
    Failed(GetStartError),
}

/// Where the beginning of a get stands.
pub enum GetStartPhase {
    Searching,
    MemoryTarget { src_node: NodeID, src: Allocation },
    MemoryDurable { src_node: NodeID, src: Allocation, target: Allocation },
    SsdTarget { node: NodeID, len: u64, stage_len: u64 },
    SsdSource { node: NodeID, len: u64, stage_len: u64, target: Allocation, target_addr: u64 },
    SsdDurable {
        node: NodeID,
        len: u64,
        target: Allocation,
        target_addr: u64,
        source: Option<Allocation>,
        src_base: u64,
        src_addr: u64,
        stage_len: u64,
    },
    Over,
}

/// The node is there and has a copy in memory.
pub open spec fn live_memory(m: Replicas, n: Seq<char>) -> bool {
    m.contains_key(n) && !m[n].tomb_tag.tomb && m[n].memory is Some
}

/// The node is there and has a copy on its SSD.
pub open spec fn live_ssd(m: Replicas, n: Seq<char>) -> bool {
    m.contains_key(n) && !m[n].tomb_tag.tomb && m[n].ssd is Some
}

/// The list names the nodes for which the property holds, each once.
pub open spec fn names_exactly(list: Seq<String>, names: Set<Seq<char>>) -> bool {
    &&& forall|n: Seq<char>| #[trigger] names.contains(n) <==> names_has(list, n)
    &&& names_distinct(list)
}

/// No name is listed twice.
pub open spec fn names_distinct(list: Seq<String>) -> bool {
    forall|i: int, j: int|
        0 <= i < list.len() && 0 <= j < list.len() && i != j ==> (#[trigger] list[i])@ != (
        #[trigger] list[j])@
}

/// The nodes with a copy in memory.
pub open spec fn memory_nodes(m: Replicas) -> Set<Seq<char>> {
    Set::new(|n: Seq<char>| m.contains_key(n) && m[n].memory is Some)
}

/// The nodes with a copy on their SSDs.
pub open spec fn ssd_nodes(m: Replicas) -> Set<Seq<char>> {
    Set::new(|n: Seq<char>| m.contains_key(n) && m[n].ssd is Some)
}

/// The beginning of a get.
pub struct GetStart {
    pub get_id: u64,
    pub key: String,
    pub req_node_id: NodeID,
    pub put_id: PutIDForAKey,
    pub route_id: u64,
    /// The key is leased; caches do not know of it.
    pub leased: bool,
    /// The copies as they were when the get began.
    pub replicas: AssocMap<String, KvNodeReplicas>,
    /// The nodes with a copy in memory that have not been looked at.
    pub memory_left: Vec<String>,
    /// The nodes with a copy on their SSDs that have not been looked at.
    pub ssd_left: Vec<String>,
    /// The nodes that turned out to be gone.
    pub tombs: NameSet,
    pub phase: GetStartPhase,
}

/// The address of a piece of memory is in range.
pub open spec fn addressable(a: Allocation) -> bool {
    a.base_addr + a.addr <= u64::MAX
}

/// The get reads a copy in memory and says so.
pub open spec fn memory_started(
    s: GetStart,
    src_node: Seq<char>,
    src: Allocation,
    target: Allocation,
    mode: GetAllocationMode,
    reservation: Option<u64>,
    r: StartedGet,
) -> bool {
    let reuse = mode == GetAllocationMode::ReuseReplica;
    &&& r.source.put_id == s.put_id
    &&& r.source.get_id == s.get_id
    &&& r.source.source_kind == GetSourceKind::Memory
    &&& r.source.len == src.size
    &&& r.source.ssd_stage_len == 0
    &&& r.source.target_addr == target.base_addr + target.addr
    &&& r.source.target_base_addr == target.base_addr
    &&& if reuse {
        &&& r.source.node_id@ == s.req_node_id@
        &&& r.source.src_addr == target.base_addr + target.addr
        &&& r.source.src_base_addr == target.base_addr
    } else {
        &&& r.source.node_id@ == src_node
        &&& r.source.src_addr == src.base_addr + src.addr
        &&& r.source.src_base_addr == src.base_addr
    }
    &&& r.info.put_id == s.put_id
    &&& r.info.src_node_id@ == src_node
    &&& r.info.key@ == s.key@
    &&& r.info.req_node_id@ == s.req_node_id@
    &&& r.info.len == src.size
    &&& r.info.allocation == target
    &&& r.info.source_allocation == Some(src)
    &&& r.info.route_id == s.route_id
    &&& r.info.allocation_mode == mode
    &&& r.info.source_kind == GetSourceKind::Memory
    &&& !r.info.remote_ssd_stage
    &&& r.info.cache_capacity_reservation == reservation
    &&& r.touch_source_cache == !s.leased
}

/// The get reads a copy on an SSD and says so.
pub open spec fn ssd_started(
    s: GetStart,
    node: Seq<char>,
    len: u64,
    target: Allocation,
    target_addr: u64,
    source: Option<Allocation>,
    src_base: u64,
    src_addr: u64,
    stage_len: u64,
    mode: GetAllocationMode,
    reservation: Option<u64>,
    r: StartedGet,
) -> bool {
    &&& r.source.put_id == s.put_id
    &&& r.source.get_id == s.get_id
    &&& r.source.node_id@ == node
    &&& r.source.source_kind == GetSourceKind::Ssd
    &&& r.source.src_addr == src_addr
    &&& r.source.target_addr == target_addr
    &&& r.source.src_base_addr == src_base
    &&& r.source.target_base_addr == target.base_addr
    &&& r.source.len == len
    &&& r.source.ssd_stage_len == stage_len
    &&& r.info.put_id == s.put_id
    &&& r.info.src_node_id@ == node
    &&& r.info.key@ == s.key@
    &&& r.info.req_node_id@ == s.req_node_id@
    &&& r.info.len == len
    &&& r.info.allocation == target
    &&& r.info.source_allocation == source
    &&& r.info.route_id == s.route_id
    &&& r.info.allocation_mode == mode
    &&& r.info.source_kind == GetSourceKind::Ssd
    &&& r.info.remote_ssd_stage == (node != s.req_node_id@)
    &&& r.info.cache_capacity_reservation == reservation
    &&& !r.touch_source_cache
}

/// Only what has been looked at and the phase differ.
pub open spec fn same_search(a: GetStart, b: GetStart) -> bool {
    &&& a.get_id == b.get_id
    &&& a.key == b.key
    &&& a.req_node_id == b.req_node_id
    &&& a.put_id == b.put_id
    &&& a.route_id == b.route_id
    &&& a.leased == b.leased
    &&& a.replicas == b.replicas
}

/// The names that a list has lost, but for the node that was found.
pub open spec fn passed(
    before: Seq<String>,
    after: Seq<String>,
    found: Option<Seq<char>>,
) -> Set<Seq<char>> {
    Set::new(
        |n: Seq<char>| names_has(before, n) && !names_has(after, n) && found != Some(n),
    )
}

/// Candidates were looked at, up to the one that was found, if any was: only that one and nodes that
/// are gone have left the list, and exactly these nodes that are gone were noted.
pub open spec fn looked_at(
    m: Replicas,
    before: Seq<String>,
    after: Seq<String>,
    found: Option<Seq<char>>,
    tombs: Set<Seq<char>>,
    tombs_after: Set<Seq<char>>,
) -> bool {
    &&& forall|n: Seq<char>| #[trigger] names_has(after, n) ==> names_has(before, n)
    &&& found matches Some(n) ==> names_has(before, n) && !names_has(after, n)
    &&& forall|n: Seq<char>| #[trigger]
        passed(before, after, found).contains(n) ==> m[n].tomb_tag.tomb
    &&& tombs_after == tombs.union(passed(before, after, found))
}

/// What follows when a node with a copy in memory is found.
pub open spec fn memory_found(
    s: GetStart,
    n: Seq<char>,
    after: GetStart,
    action: GetStartAction,
) -> bool {
    let src = s.replicas@[n].memory->0;
    &&& live_memory(s.replicas@, n)
    &&& looked_at(
        s.replicas@,
        s.memory_left@,
        after.memory_left@,
        Some(n),
        s.tombs@,
        after.tombs@,
    )
    &&& after.ssd_left == s.ssd_left
    &&& if live_memory(s.replicas@, s.req_node_id@) {
        &&& action matches GetStartAction::Started(r)
        &&& memory_started(
            s,
            n,
            src,
            s.replicas@[s.req_node_id@].memory->0,
            GetAllocationMode::ReuseReplica,
            None,
            r,
        )
        &&& after.phase is Over
    } else {
        &&& action matches GetStartAction::Allocate { node, len }
        &&& node@ == s.req_node_id@ && len == src.size
        &&& after.phase matches GetStartPhase::MemoryTarget { src_node, src: a }
        &&& src_node@ == n && a == src
    }
}

/// What follows when a node with a copy on its SSD is found. `tombs` are the nodes that were known to
/// be gone before.
pub open spec fn ssd_found(
    s: GetStart,
    tombs: Set<Seq<char>>,
    n: Seq<char>,
    after: GetStart,
    action: GetStartAction,
) -> bool {
    let len = s.replicas@[n].ssd->0.len;
    &&& live_ssd(s.replicas@, n)
    &&& looked_at(s.replicas@, s.ssd_left@, after.ssd_left@, Some(n), tombs, after.tombs@)
    &&& if len + SSD_ALIGNMENT_BYTES - 1 > u64::MAX {
        &&& action == GetStartAction::Failed(
            GetStartError::InvalidArgument(ArgumentError::AlignmentOverflow { value: len }),
        )
        &&& after.phase is Over
    } else {
        &&& action matches GetStartAction::Allocate { node, len: wanted }
        &&& node@ == s.req_node_id@ && wanted == len
        &&& after.phase matches GetStartPhase::SsdTarget { node: m, len: l, stage_len }
        &&& m@ == n && l == len && stage_len == aligned_up(len as int, SSD_ALIGNMENT_BYTES as int)
    }
}

/// The names of a list.
pub open spec fn names_of(list: Seq<String>) -> Set<Seq<char>> {
    Set::new(|n: Seq<char>| names_has(list, n))
}

impl GetStart {
    pub open spec fn wf(&self) -> bool {
        &&& self.replicas.wf()
        &&& forall|n: Seq<char>| #[trigger]
            self.replicas@.contains_key(n) && self.replicas@[n].memory is Some ==> addressable(
                self.replicas@[n].memory->0,
            )
        &&& forall|i: int|
            0 <= i < self.memory_left@.len() ==> memory_nodes(self.replicas@).contains(
                (#[trigger] self.memory_left@[i])@,
            )
        &&& forall|i: int|
            0 <= i < self.ssd_left@.len() ==> ssd_nodes(self.replicas@).contains(
                (#[trigger] self.ssd_left@[i])@,
            )
        &&& names_distinct(self.memory_left@)
        &&& names_distinct(self.ssd_left@)
        &&& match self.phase {
            GetStartPhase::MemoryTarget { src_node, src } => addressable(src),
            GetStartPhase::MemoryDurable { src_node, src, target } => addressable(src)
                && addressable(target),
            _ => true,
        }
    }

    /// Begins to look for a copy. All copies are candidates, each once.
    pub fn begin(route: &TieredKvRoutes, get_id: u64, key: &String, req_node_id: &NodeID) -> (r:
        Self)
        requires
            route.wf(),
            forall|n: Seq<char>| #[trigger]
                route.node_replicas@.contains_key(n) && route.node_replicas@[n].memory is Some
                    ==> addressable(route.node_replicas@[n].memory->0),
        ensures
            r.wf(),
            get_begun(*route, get_id, key@, req_node_id@, r),
    {
        let mut replicas: AssocMap<String, KvNodeReplicas> = AssocMap::new();
        let mut memory_left: Vec<String> = Vec::new();
        let mut ssd_left: Vec<String> = Vec::new();
        let ghost rows = route.node_replicas.rows();
        proof {
            route.node_replicas.lemma_rows();
        }
        let mut i: usize = 0;
        while i < route.node_replicas.len()
            invariant
                route.wf(),
                route.node_replicas.wf(),
                rows == route.node_replicas.rows(),
                crate::assoc::rows_unique(rows),
                replicas.wf(),
                i <= rows.len(),
                forall|n: Seq<char>| #[trigger]
                    replicas@.contains_key(n) <==> crate::assoc::rows_has(rows.take(i as int), n),
                forall|n: Seq<char>| #[trigger]
                    replicas@.contains_key(n) ==> route.node_replicas@.contains_key(n)
                        && replicas@[n] == route.node_replicas@[n],
                forall|n: Seq<char>| #[trigger]
                    names_has(memory_left@, n) <==> replicas@.contains_key(n)
                        && replicas@[n].memory is Some,
                forall|n: Seq<char>| #[trigger]
                    names_has(ssd_left@, n) <==> replicas@.contains_key(n)
                        && replicas@[n].ssd is Some,
                names_distinct(memory_left@),
                names_distinct(ssd_left@),
            decreases rows.len() - i,
        {
            let row = route.node_replicas.row(i);
            let ghost before = replicas@;
            proof {
                lemma_take_has(rows, i as int);
                assert(!before.contains_key(row.0@)) by {
                    if crate::assoc::rows_has(rows.take(i as int), row.0@) {
                        let h = choose|h: int|
                            0 <= h < rows.take(i as int).len() && (#[trigger] rows.take(
                                i as int,
                            )[h]).0@ == row.0@;
                        assert(rows[h].0@ == rows[i as int].0@);
                    }
                }
                assert(!names_has(memory_left@, row.0@));
                assert(!names_has(ssd_left@, row.0@));
            }
            if row.1.memory.is_some() {
                let ghost list = memory_left@;
                memory_left.push(row.0.clone());
                proof {
                    lemma_names_push(list, memory_left@[list.len() as int]);
                }
            }
            if row.1.ssd.is_some() {
                let ghost list = ssd_left@;
                ssd_left.push(row.0.clone());
                proof {
                    lemma_names_push(list, ssd_left@[list.len() as int]);
                }
            }
            replicas.insert(row.0.clone(), row.1);
            i += 1;
        }
        proof {
            assert(rows.take(rows.len() as int) =~= rows);
            assert forall|n: Seq<char>| #[trigger]
                replicas@.contains_key(n) <==> route.node_replicas@.contains_key(n) by {
                if route.node_replicas@.contains_key(n) {
                    let h = lemma_map_has_row(rows, n);
                    assert(rows[h].0@ == n);
                    assert(crate::assoc::rows_has(rows, n));
                }
            }
            assert(replicas@ =~= route.node_replicas@);
        }
        let r = GetStart {
            get_id,
            key: key.clone(),
            req_node_id: req_node_id.clone(),
            put_id: route.put_id,
            route_id: route.route_id,
            leased: route.lease_id.is_some(),
            replicas,
            memory_left,
            ssd_left,
            tombs: NameSet::new(),
            phase: GetStartPhase::Searching,
        };
        proof {
            assert forall|i: int| 0 <= i < r.memory_left@.len() implies memory_nodes(
                r.replicas@,
            ).contains((#[trigger] r.memory_left@[i])@) by {
                assert(names_has(r.memory_left@, r.memory_left@[i]@));
            }
            assert forall|i: int| 0 <= i < r.ssd_left@.len() implies ssd_nodes(
                r.replicas@,
            ).contains((#[trigger] r.ssd_left@[i])@) by {
                assert(names_has(r.ssd_left@, r.ssd_left@[i]@));
            }
        }
        r
    }

    /// Looks at the candidate at position `at` among the copies in memory. A node that is gone is
    /// noted, and the search goes on.
    pub fn examine_memory(&mut self, at: usize) -> (r: Option<GetStartAction>)
        requires
            old(self).wf(),
            at < old(self).memory_left@.len(),
        ensures
            final(self).wf(),
            same_search(*final(self), *old(self)),
            final(self).memory_left@ == old(self).memory_left@.remove(at as int),
            final(self).ssd_left == old(self).ssd_left,
            ({
                let n = old(self).memory_left@[at as int]@;
                match r {
                    None => {
                        &&& old(self).replicas@[n].tomb_tag.tomb
                        &&& final(self).tombs@ == old(self).tombs@.insert(n)
                        &&& final(self).phase == old(self).phase
                    },
                    Some(action) => {
                        &&& final(self).tombs == old(self).tombs
                        &&& memory_found(*old(self), n, *final(self), action)
                    },
                }
            }),
    {
        assert(memory_nodes(self.replicas@).contains(self.memory_left@[at as int]@));
        let ghost list = self.memory_left@;
        let node = self.memory_left.remove(at);
        proof {
            lemma_candidate_removed(self.replicas@, list, at as int, self.tombs@);
            assert forall|i: int| 0 <= i < self.memory_left@.len() implies memory_nodes(
                self.replicas@,
            ).contains((#[trigger] self.memory_left@[i])@) by {
                let h = if i < at { i } else { i + 1 };
                assert(self.memory_left@[i] == list[h]);
            }
        }
        let (tomb, memory) = match self.replicas.get(&node) {
            Some(replicas) => (replicas.tomb_tag.is_tomb(), replicas.memory),
            None => (true, None),
        };
        match memory {
            Some(src) if !tomb => {
                let reuse = match self.replicas.get(&self.req_node_id) {
                    Some(replicas) => if replicas.tomb_tag.is_tomb() {
                        None
                    } else {
                        replicas.memory
                    },
                    None => None,
                };
                match reuse {
                    Some(target) => {
                        self.phase = GetStartPhase::Over;
                        let started = self.start_memory(
                            node,
                            src,
                            target,
                            GetAllocationMode::ReuseReplica,
                            None,
                        );
                        Some(GetStartAction::Started(started))
                    },
                    None => {
                        self.phase = GetStartPhase::MemoryTarget { src_node: node, src };
                        Some(
                            GetStartAction::Allocate {
                                node: self.req_node_id.clone(),
                                len: src.size,
                            },
                        )
                    },
                }
            },
            _ => {
                self.tombs.insert(node);
                None
            },
        }
    }

    /// Looks at the candidate at position `at` among the copies on SSDs.
    pub fn examine_ssd(&mut self, at: usize) -> (r: Option<GetStartAction>)
        requires
            old(self).wf(),
            at < old(self).ssd_left@.len(),
        ensures
            final(self).wf(),
            same_search(*final(self), *old(self)),
            final(self).ssd_left@ == old(self).ssd_left@.remove(at as int),
            final(self).memory_left == old(self).memory_left,
            ({
                let n = old(self).ssd_left@[at as int]@;
                match r {
                    None => {
                        &&& old(self).replicas@[n].tomb_tag.tomb
                        &&& final(self).tombs@ == old(self).tombs@.insert(n)
                        &&& final(self).phase == old(self).phase
                    },
                    Some(action) => {
                        &&& final(self).tombs == old(self).tombs
                        &&& ssd_found(*old(self), old(self).tombs@, n, *final(self), action)
                    },
                }
            }),
    {
        assert(ssd_nodes(self.replicas@).contains(self.ssd_left@[at as int]@));
        let ghost list = self.ssd_left@;
        let node = self.ssd_left.remove(at);
        proof {
            lemma_candidate_removed(self.replicas@, list, at as int, self.tombs@);
            assert forall|i: int| 0 <= i < self.ssd_left@.len() implies ssd_nodes(
                self.replicas@,
            ).contains((#[trigger] self.ssd_left@[i])@) by {
                let h = if i < at { i } else { i + 1 };
                assert(self.ssd_left@[i] == list[h]);
            }
        }
        let (tomb, ssd) = match self.replicas.get(&node) {
            Some(replicas) => (replicas.tomb_tag.is_tomb(), replicas.ssd),
            None => (true, None),
        };
        match ssd {
            Some(replica) if !tomb => match align_ssd_io_len(replica.len) {
                Err(e) => {
                    self.phase = GetStartPhase::Over;
                    Some(GetStartAction::Failed(GetStartError::InvalidArgument(e)))
                },
                Ok(stage_len) => {
                    self.phase = GetStartPhase::SsdTarget { node, len: replica.len, stage_len };
                    Some(
                        GetStartAction::Allocate {
                            node: self.req_node_id.clone(),
                            len: replica.len,
                        },
                    )
                },
            },
            _ => {
                self.tombs.insert(node);
                None
            },
        }
    }

    fn start_memory(
        &self,
        src_node: NodeID,
        src: Allocation,
        target: Allocation,
        mode: GetAllocationMode,
        reservation: Option<u64>,
    ) -> (r: StartedGet)
        requires
            addressable(src),
            addressable(target),
        ensures
            memory_started(*self, src_node@, src, target, mode, reservation, r),
    {
        let reuse = match mode {
            GetAllocationMode::ReuseReplica => true,
            _ => false,
        };
        let target_addr: u64 = target.abs_addr();
        let source = GetSource {
            put_id: self.put_id,
            get_id: self.get_id,
            node_id: if reuse {
                self.req_node_id.clone()
            } else {
                src_node.clone()
            },
            source_kind: GetSourceKind::Memory,
            src_addr: if reuse {
                target_addr
            } else {
                src.abs_addr()
            },
            target_addr,
            src_base_addr: if reuse {
                target.base_addr
            } else {
                src.base_addr
            },
            target_base_addr: target.base_addr,
            len: src.size,
            ssd_stage_len: 0,
        };
        let info = InflightGetInfo {
            put_id: self.put_id,
            src_node_id: src_node,
            key: self.key.clone(),
            req_node_id: self.req_node_id.clone(),
            len: src.size,
            allocation: target,
            source_allocation: Some(src),
            route_id: self.route_id,
            allocation_mode: mode,
            source_kind: GetSourceKind::Memory,
            remote_ssd_stage: false,
            cache_capacity_reservation: reservation,
        };
        StartedGet { source, info, touch_source_cache: !self.leased }
    }

    /// Looks at the copies in memory, in a random order, until one can be read.
    fn search_memory(&mut self) -> (r: Option<GetStartAction>)
        requires
            old(self).wf(),
        ensures
            final(self).wf(),
            same_search(*final(self), *old(self)),
            match r {
                None => {
                    &&& final(self).phase == old(self).phase
                    &&& final(self).memory_left@.len() == 0
                    &&& final(self).ssd_left == old(self).ssd_left
                    &&& looked_at(
                        old(self).replicas@,
                        old(self).memory_left@,
                        final(self).memory_left@,
                        None,
                        old(self).tombs@,
                        final(self).tombs@,
                    )
                },
                Some(action) => exists|n: Seq<char>| #[trigger]
                    memory_found(*old(self), n, *final(self), action),
            },
    {
        proof {
            lemma_nothing_looked_at(self.replicas@, self.memory_left@, self.tombs@);
        }
        while self.memory_left.len() > 0
            invariant
                self.wf(),
                same_search(*self, *old(self)),
                self.ssd_left == old(self).ssd_left,
                self.phase == old(self).phase,
                looked_at(
                    old(self).replicas@,
                    old(self).memory_left@,
                    self.memory_left@,
                    None,
                    old(self).tombs@,
                    self.tombs@,
                ),
            decreases self.memory_left@.len(),
        {
            let at: usize = random_index(self.memory_left.len());
            let ghost before = *self;
            let ghost n = self.memory_left@[at as int]@;
            proof {
                assert(memory_nodes(self.replicas@).contains(self.memory_left@[at as int]@));
                lemma_candidate_removed(self.replicas@, self.memory_left@, at as int, self.tombs@);
            }
            let found = self.examine_memory(at);
            proof {
                lemma_looked_on(
                    old(self).replicas@,
                    old(self).memory_left@,
                    before.memory_left@,
                    self.memory_left@,
                    if found is Some {
                        Some(n)
                    } else {
                        None
                    },
                    old(self).tombs@,
                    before.tombs@,
                    self.tombs@,
                );
            }
            if let Some(action) = found {
                assert(memory_found(*old(self), n, *self, action));
                return Some(action);
            }
        }
        None
    }

    /// Looks at the copies on SSDs, in a random order, until one can be read.
    fn search_ssd(&mut self) -> (r: Option<GetStartAction>)
        requires
            old(self).wf(),
        ensures
            final(self).wf(),
            same_search(*final(self), *old(self)),
            final(self).memory_left == old(self).memory_left,
            match r {
                None => {
                    &&& final(self).phase == old(self).phase
                    &&& final(self).ssd_left@.len() == 0
                    &&& looked_at(
                        old(self).replicas@,
                        old(self).ssd_left@,
                        final(self).ssd_left@,
                        None,
                        old(self).tombs@,
                        final(self).tombs@,
                    )
                },
                Some(action) => exists|n: Seq<char>| #[trigger]
                    ssd_found(*old(self), old(self).tombs@, n, *final(self), action),
            },
    {
        proof {
            lemma_nothing_looked_at(self.replicas@, self.ssd_left@, self.tombs@);
        }
        while self.ssd_left.len() > 0
            invariant
                self.wf(),
                same_search(*self, *old(self)),
                self.memory_left == old(self).memory_left,
                self.phase == old(self).phase,
                looked_at(
                    old(self).replicas@,
                    old(self).ssd_left@,
                    self.ssd_left@,
                    None,
                    old(self).tombs@,
                    self.tombs@,
                ),
            decreases self.ssd_left@.len(),
        {
            let at: usize = random_index(self.ssd_left.len());
            let ghost before = *self;
            let ghost n = self.ssd_left@[at as int]@;
            proof {
                assert(ssd_nodes(self.replicas@).contains(self.ssd_left@[at as int]@));
                lemma_candidate_removed(self.replicas@, self.ssd_left@, at as int, self.tombs@);
            }
            let found = self.examine_ssd(at);
            proof {
                lemma_looked_on(
                    old(self).replicas@,
                    old(self).ssd_left@,
                    before.ssd_left@,
                    self.ssd_left@,
                    if found is Some {
                        Some(n)
                    } else {
                        None
                    },
                    old(self).tombs@,
                    before.tombs@,
                    self.tombs@,
                );
            }
            if let Some(action) = found {
                assert(ssd_found(*old(self), old(self).tombs@, n, *self, action));
                return Some(action);
            }
        }
        None
    }

    /// What is to be done first: a copy in memory is looked for, then one on an SSD.
    pub fn first_step(&mut self) -> (r: GetStartAction)
        requires
            old(self).wf(),
        ensures
            final(self).wf(),
            same_search(*final(self), *old(self)),
            first_step_is(*old(self), *final(self), r),
    {
        if let Some(action) = self.search_memory() {
            proof {
                let n = choose|n: Seq<char>| #[trigger]
                    memory_found(*old(self), n, *self, action);
                assert(candidate(old(self).replicas@, old(self).memory_left@, n, true));
            }
            return action;
        }
        let ghost middle = *self;
        let r = self.search_ssd_or_fail();
        proof {
            assert forall|n: Seq<char>| #[trigger]
                candidate(old(self).replicas@, old(self).memory_left@, n, true) implies false by {
                assert(passed(old(self).memory_left@, middle.memory_left@, None).contains(n));
            }
            assert(middle.tombs@ =~= old(self).tombs@.union(names_of(old(self).memory_left@)));
            lemma_same_step(middle, *old(self), middle.tombs@, *self, r);
        }
        r
    }

    fn search_ssd_or_fail(&mut self) -> (r: GetStartAction)
        requires
            old(self).wf(),
        ensures
            final(self).wf(),
            same_search(*final(self), *old(self)),
            final(self).memory_left == old(self).memory_left,
            ssd_step_is(*old(self), old(self).tombs@, *final(self), r),
    {
        match self.search_ssd() {
            Some(action) => {
                proof {
                    let n = choose|n: Seq<char>| #[trigger]
                        ssd_found(*old(self), old(self).tombs@, n, *self, action);
                    assert(candidate(old(self).replicas@, old(self).ssd_left@, n, false));
                }
                action
            },
            None => {
                self.phase = GetStartPhase::Over;
                proof {
                    assert forall|n: Seq<char>| #[trigger]
                        candidate(
                            old(self).replicas@,
                            old(self).ssd_left@,
                            n,
                            false,
                        ) implies false by {
                        assert(passed(old(self).ssd_left@, self.ssd_left@, None).contains(n));
                    }
                }
                GetStartAction::Failed(GetStartError::KeyNotFound)
            },
        }
    }

    /// Memory was asked for; this is the answer.
    pub fn allocated(&mut self, answer: Result<Allocation, AllocateError>) -> (r: GetStartAction)
        requires
            old(self).wf(),
            match old(self).phase {
                GetStartPhase::MemoryTarget { .. } => answer matches Ok(a) ==> addressable(a),
                GetStartPhase::SsdTarget { .. } => true,
                GetStartPhase::SsdSource { .. } => true,
                _ => false,
            },
        ensures
            final(self).wf(),
            same_search(*final(self), *old(self)),
            answered(*old(self), answer, *final(self), r),
    {
        let mut phase = GetStartPhase::Over;
        std::mem::swap(&mut self.phase, &mut phase);
        match phase {
            GetStartPhase::MemoryTarget { src_node, src } => match answer {
                Err(e) => GetStartAction::Failed(GetStartError::Allocate(e)),
                Ok(target) => {
                    self.phase = GetStartPhase::MemoryDurable { src_node, src, target };
                    GetStartAction::ReserveDurable { capacity: target.capacity }
                },
            },
            GetStartPhase::SsdTarget { node, len, stage_len } => match answer {
                Err(e) => GetStartAction::Failed(GetStartError::Allocate(e)),
                Ok(target) => {
                    let target_addr: u64 = match target.base_addr.checked_add(target.addr) {
                        Some(a) => a,
                        None => {
                            return GetStartAction::Failed(
                                GetStartError::InvalidArgument(
                                    ArgumentError::AddressOverflow {
                                        base: target.base_addr,
                                        offset: target.addr,
                                    },
                                ),
                            );
                        },
                    };
                    if node == self.req_node_id {
                        self.phase =
                        GetStartPhase::SsdDurable {
                            node,
                            len,
                            target,
                            target_addr,
                            source: None,
                            src_base: target.base_addr,
                            src_addr: target_addr,
                            stage_len: target.capacity,
                        };
                        return GetStartAction::ReserveDurable { capacity: target.capacity };
                    }
                    match checked_add_u64(stage_len, SSD_ALIGNMENT_BYTES - 1) {
                        Err(e) => GetStartAction::Failed(GetStartError::InvalidArgument(e)),
                        Ok(source_len) => {
                            let wanted = GetStartAction::Allocate {
                                node: node.clone(),
                                len: source_len,
                            };
                            self.phase =
                            GetStartPhase::SsdSource { node, len, stage_len, target, target_addr };
                            wanted
                        },
                    }
                },
            },
            GetStartPhase::SsdSource { node, len, stage_len, target, target_addr } => match answer {
                Err(_) => {
                    let ghost middle = *self;
                    let r = self.search_ssd_or_fail();
                    proof {
                        lemma_same_step(middle, *old(self), old(self).tombs@, *self, r);
                    }
                    r
                },
                Ok(source) => {
                    let raw_addr: u64 = match source.base_addr.checked_add(source.addr) {
                        Some(a) => a,
                        None => {
                            return GetStartAction::Failed(
                                GetStartError::InvalidArgument(
                                    ArgumentError::AddressOverflow {
                                        base: source.base_addr,
                                        offset: source.addr,
                                    },
                                ),
                            );
                        },
                    };
                    match align_ssd_stage_addr(raw_addr) {
                        Err(e) => GetStartAction::Failed(GetStartError::InvalidArgument(e)),
                        Ok(src_addr) => {
                            self.phase =
                            GetStartPhase::SsdDurable {
                                node,
                                len,
                                target,
                                target_addr,
                                source: Some(source),
                                src_base: source.base_addr,
                                src_addr,
                                stage_len,
                            };
                            GetStartAction::ReserveDurable { capacity: target.capacity }
                        },
                    }
                },
            },
            _ => vstd::pervasive::unreached(),
        }
    }

    /// The right to keep the bytes as a further copy was asked for; `mode` is the answer, and
    /// `reservation` the cache capacity that is kept back.
    pub fn reserved(&mut self, mode: GetAllocationMode, reservation: Option<u64>) -> (r: StartedGet)
        requires
            old(self).wf(),
            old(self).phase is MemoryDurable || old(self).phase is SsdDurable,
            mode != GetAllocationMode::ReuseReplica,
        ensures
            final(self).wf(),
            reserved_is(*old(self), mode, reservation, *final(self), r),
    {
        let mut phase = GetStartPhase::Over;
        std::mem::swap(&mut self.phase, &mut phase);
        match phase {
            GetStartPhase::MemoryDurable { src_node, src, target } => self.start_memory(
                src_node,
                src,
                target,
                mode,
                reservation,
            ),
            GetStartPhase::SsdDurable {
                node,
                len,
                target,
                target_addr,
                source,
                src_base,
                src_addr,
                stage_len,
            } => {
                let remote = node != self.req_node_id;
                StartedGet {
                    source: GetSource {
                        put_id: self.put_id,
                        get_id: self.get_id,
                        node_id: node.clone(),
                        source_kind: GetSourceKind::Ssd,
                        src_addr,
                        target_addr,
                        src_base_addr: src_base,
                        target_base_addr: target.base_addr,
                        len,
                        ssd_stage_len: stage_len,
                    },
                    info: InflightGetInfo {
                        put_id: self.put_id,
                        src_node_id: node,
                        key: self.key.clone(),
                        req_node_id: self.req_node_id.clone(),
                        len,
                        allocation: target,
                        source_allocation: source,
                        route_id: self.route_id,
                        allocation_mode: mode,
                        source_kind: GetSourceKind::Ssd,
                        remote_ssd_stage: remote,
                        cache_capacity_reservation: reservation,
                    },
                    touch_source_cache: false,
                }
            },
            _ => vstd::pervasive::unreached(),
        }
    }
}

/// The right to keep the bytes was asked for, and the get begins.
pub open spec fn reserved_is(
    s: GetStart,
    mode: GetAllocationMode,
    reservation: Option<u64>,
    after: GetStart,
    r: StartedGet,
) -> bool {
    &&& same_search(after, s)
    &&& after.memory_left == s.memory_left
    &&& after.ssd_left == s.ssd_left
    &&& after.tombs == s.tombs
    &&& after.phase is Over
    &&& match s.phase {
        GetStartPhase::MemoryDurable { src_node, src, target } => memory_started(
            s,
            src_node@,
            src,
            target,
            mode,
            reservation,
            r,
        ),
        GetStartPhase::SsdDurable {
            node,
            len,
            target,
            target_addr,
            source,
            src_base,
            src_addr,
            stage_len,
        } => ssd_started(
            s,
            node@,
            len,
            target,
            target_addr,
            source,
            src_base,
            src_addr,
            stage_len,
            mode,
            reservation,
            r,
        ),
        _ => true,
    }
}

/// A get of a route begins: all copies are candidates, each once.
pub open spec fn get_begun(
    route: TieredKvRoutes,
    get_id: u64,
    key: Seq<char>,
    req_node_id: Seq<char>,
    s: GetStart,
) -> bool {
    &&& s.get_id == get_id
    &&& s.key@ == key
    &&& s.req_node_id@ == req_node_id
    &&& s.put_id == route.put_id
    &&& s.route_id == route.route_id
    &&& s.leased == (route.lease_id is Some)
    &&& s.replicas@ == route.node_replicas@
    &&& names_exactly(s.memory_left@, memory_nodes(route.node_replicas@))
    &&& names_exactly(s.ssd_left@, ssd_nodes(route.node_replicas@))
    &&& s.tombs@ == Set::<Seq<char>>::empty()
    &&& s.phase is Searching
}

/// The node is on the list and its copy can be read.
pub open spec fn candidate(m: Replicas, list: Seq<String>, n: Seq<char>, memory: bool) -> bool {
    names_has(list, n) && if memory {
        live_memory(m, n)
    } else {
        live_ssd(m, n)
    }
}

/// A copy on an SSD is found, or there is none. `tombs` are the nodes that were known to be gone before.
pub open spec fn ssd_step_is(
    s: GetStart,
    tombs: Set<Seq<char>>,
    after: GetStart,
    action: GetStartAction,
) -> bool {
    if exists|n: Seq<char>| candidate(s.replicas@, s.ssd_left@, n, false) {
        exists|n: Seq<char>|
            candidate(s.replicas@, s.ssd_left@, n, false) && #[trigger] ssd_found(
                s,
                tombs,
                n,
                after,
                action,
            )
    } else {
        &&& action == GetStartAction::Failed(GetStartError::KeyNotFound)
        &&& after.phase is Over
        &&& after.ssd_left@.len() == 0
        &&& looked_at(s.replicas@, s.ssd_left@, after.ssd_left@, None, tombs, after.tombs@)
    }
}

proof fn lemma_same_step(
    a: GetStart,
    b: GetStart,
    tombs: Set<Seq<char>>,
    after: GetStart,
    action: GetStartAction,
)
    requires
        same_search(a, b),
        a.ssd_left == b.ssd_left,
        ssd_step_is(a, tombs, after, action),
    ensures
        ssd_step_is(b, tombs, after, action),
{
    if exists|n: Seq<char>| candidate(b.replicas@, b.ssd_left@, n, false) {
        let n = choose|n: Seq<char>|
            candidate(a.replicas@, a.ssd_left@, n, false) && #[trigger] ssd_found(
                a,
                tombs,
                n,
                after,
                action,
            );
        assert(ssd_found(b, tombs, n, after, action));
    }
}

/// A copy in memory is found, or else one on an SSD, or there is none.
pub open spec fn first_step_is(s: GetStart, after: GetStart, action: GetStartAction) -> bool {
    if exists|n: Seq<char>| candidate(s.replicas@, s.memory_left@, n, true) {
        exists|n: Seq<char>|
            candidate(s.replicas@, s.memory_left@, n, true) && #[trigger] memory_found(
                s,
                n,
                after,
                action,
            )
    } else {
        &&& after.memory_left@.len() == 0
        &&& ssd_step_is(s, s.tombs@.union(names_of(s.memory_left@)), after, action)
    }
}

/// Memory was asked for and the answer taken. Where a node has no memory to stage bytes from its SSD,
/// the next copy on an SSD is looked for.
pub open spec fn answered(
    s: GetStart,
    answer: Result<Allocation, AllocateError>,
    after: GetStart,
    action: GetStartAction,
) -> bool {
    &&& after.memory_left == s.memory_left
    &&& !(s.phase is SsdSource && answer is Err) ==> after.tombs == s.tombs && after.ssd_left
        == s.ssd_left
    &&& match s.phase {
        GetStartPhase::MemoryTarget { src_node, src } => match answer {
            Err(e) => action == GetStartAction::Failed(GetStartError::Allocate(e))
                && after.phase is Over,
            Ok(a) => {
                &&& action == (GetStartAction::ReserveDurable { capacity: a.capacity })
                &&& after.phase == (GetStartPhase::MemoryDurable { src_node, src, target: a })
            },
        },
        GetStartPhase::SsdTarget { node, len, stage_len } => match answer {
            Err(e) => action == GetStartAction::Failed(GetStartError::Allocate(e))
                && after.phase is Over,
            Ok(target) => ssd_target_got(
                s.req_node_id@,
                node,
                len,
                stage_len,
                target,
                after.phase,
                action,
            ),
        },
        GetStartPhase::SsdSource { node, len, stage_len, target, target_addr } => match answer {
            Err(_) => ssd_step_is(s, s.tombs@, after, action),
            Ok(source) => ssd_source_got(
                node,
                len,
                stage_len,
                target,
                target_addr,
                source,
                after.phase,
                action,
            ),
        },
        _ => false,
    }
}

/// What follows when there is memory for the bytes of a copy on an SSD: the reader's own SSD is read
/// straight into it; another node needs memory to stage the bytes.
pub open spec fn ssd_target_got(
    reader: Seq<char>,
    node: NodeID,
    len: u64,
    stage_len: u64,
    target: Allocation,
    phase: GetStartPhase,
    action: GetStartAction,
) -> bool {
    if !addressable(target) {
        &&& action == GetStartAction::Failed(
            GetStartError::InvalidArgument(
                ArgumentError::AddressOverflow { base: target.base_addr, offset: target.addr },
            ),
        )
        &&& phase is Over
    } else {
        let target_addr = (target.base_addr + target.addr) as u64;
        if node@ == reader {
            &&& action == (GetStartAction::ReserveDurable { capacity: target.capacity })
            &&& phase == (GetStartPhase::SsdDurable {
                node,
                len,
                target,
                target_addr,
                source: None,
                src_base: target.base_addr,
                src_addr: target_addr,
                stage_len: target.capacity,
            })
        } else if stage_len + SSD_ALIGNMENT_BYTES - 1 > u64::MAX {
            &&& action == GetStartAction::Failed(
                GetStartError::InvalidArgument(
                    ArgumentError::SumOverflow {
                        lhs: stage_len,
                        rhs: (SSD_ALIGNMENT_BYTES - 1) as u64,
                    },
                ),
            )
            &&& phase is Over
        } else {
            &&& action matches GetStartAction::Allocate { node: on, len: wanted }
            &&& on@ == node@ && wanted == stage_len + SSD_ALIGNMENT_BYTES - 1
            &&& phase == (GetStartPhase::SsdSource { node, len, stage_len, target, target_addr })
        }
    }
}

/// What follows when there is memory to stage the bytes of a copy on another node's SSD.
pub open spec fn ssd_source_got(
    node: NodeID,
    len: u64,
    stage_len: u64,
    target: Allocation,
    target_addr: u64,
    source: Allocation,
    phase: GetStartPhase,
    action: GetStartAction,
) -> bool {
    if !addressable(source) {
        &&& action == GetStartAction::Failed(
            GetStartError::InvalidArgument(
                ArgumentError::AddressOverflow { base: source.base_addr, offset: source.addr },
            ),
        )
        &&& phase is Over
    } else {
        let raw = source.base_addr + source.addr;
        if raw + SSD_ALIGNMENT_BYTES - 1 > u64::MAX {
            &&& action == GetStartAction::Failed(
                GetStartError::InvalidArgument(
                    ArgumentError::AlignmentOverflow { value: raw as u64 },
                ),
            )
            &&& phase is Over
        } else {
            &&& action == (GetStartAction::ReserveDurable { capacity: target.capacity })
            &&& phase == (GetStartPhase::SsdDurable {
                node,
                len,
                target,
                target_addr,
                source: Some(source),
                src_base: source.base_addr,
                src_addr: aligned_up(raw as int, SSD_ALIGNMENT_BYTES as int) as u64,
                stage_len,
            })
        }
    }
}

/// The staging memory on the source's node is aligned, and the staged bytes lie within what was
/// allocated.
pub proof fn staged_bytes_fit(source: Allocation, stage_len: u64)
    requires
        source.base_addr + source.addr + SSD_ALIGNMENT_BYTES - 1 <= u64::MAX,
        source.size == stage_len + SSD_ALIGNMENT_BYTES - 1,
    ensures
        ({
            let raw = source.base_addr + source.addr;
            let at = aligned_up(raw, SSD_ALIGNMENT_BYTES as int);
            &&& at % (SSD_ALIGNMENT_BYTES as int) == 0
            &&& raw <= at
            &&& at + stage_len <= raw + source.size
        }),
{
    crate::align::lemma_aligned_up(source.base_addr + source.addr, SSD_ALIGNMENT_BYTES as int);
}

/// A get begins with all copies as candidates and goes on from one answer to the next: `states[0]` is
/// the beginning, each of the `actions` is followed by an answer, and the last one comes last.
pub open spec fn search_run(
    states: Seq<GetStart>,
    answers: Seq<Result<Allocation, AllocateError>>,
    actions: Seq<GetStartAction>,
) -> bool {
    &&& actions.len() == answers.len() + 1
    &&& states.len() == answers.len() + 2
    &&& names_exactly(states[0].memory_left@, memory_nodes(states[0].replicas@))
    &&& names_exactly(states[0].ssd_left@, ssd_nodes(states[0].replicas@))
    &&& states[0].tombs@ == Set::<Seq<char>>::empty()
    &&& same_search(states[1], states[0])
    &&& first_step_is(states[0], states[1], actions[0])
    &&& forall|i: int|
        0 <= i < answers.len() ==> #[trigger] run_step(states, answers, actions, i)
}

/// The `i`-th answer of a get is taken.
pub open spec fn run_step(
    states: Seq<GetStart>,
    answers: Seq<Result<Allocation, AllocateError>>,
    actions: Seq<GetStartAction>,
    i: int,
) -> bool {
    &&& same_search(states[i + 2], states[i + 1])
    &&& answered(states[i + 1], answers[i], states[i + 2], actions[i + 1])
}

/// The `i`-th answer was that the node has no memory to stage the bytes of its copy.
pub open spec fn no_staging(
    states: Seq<GetStart>,
    answers: Seq<Result<Allocation, AllocateError>>,
    i: int,
    n: Seq<char>,
) -> bool {
    &&& states[i + 1].phase matches GetStartPhase::SsdSource { node, .. }
    &&& node@ == n
    &&& answers[i] is Err
}

/// One of the first `k` answers was that the node has no memory to stage the bytes of its copy.
pub open spec fn had_no_staging(
    states: Seq<GetStart>,
    answers: Seq<Result<Allocation, AllocateError>>,
    k: int,
    n: Seq<char>,
) -> bool {
    exists|i: int| 0 <= i < k && #[trigger] no_staging(states, answers, i, n)
}

/// The node whose copy on an SSD is being read.
pub open spec fn ssd_source(phase: GetStartPhase) -> Option<Seq<char>> {
    match phase {
        GetStartPhase::SsdTarget { node, .. } => Some(node@),
        GetStartPhase::SsdSource { node, .. } => Some(node@),
        GetStartPhase::SsdDurable { node, .. } => Some(node@),
        _ => None,
    }
}

/// No copy in memory can be read, and each copy on an SSD is still a candidate, being read, on a node
/// that is gone, or on one without memory to stage it.
spec fn ssd_covered(
    states: Seq<GetStart>,
    answers: Seq<Result<Allocation, AllocateError>>,
    k: int,
    reading: Option<Seq<char>>,
) -> bool {
    let s = states[k];
    let m = states[0].replicas@;
    &&& forall|n: Seq<char>| #[trigger]
        memory_nodes(m).contains(n) ==> m[n].tomb_tag.tomb && s.tombs@.contains(n)
    &&& forall|n: Seq<char>| #[trigger]
        ssd_nodes(m).contains(n) ==> {
            ||| names_has(s.ssd_left@, n)
            ||| m[n].tomb_tag.tomb && s.tombs@.contains(n)
            ||| reading == Some(n)
            ||| had_no_staging(states, answers, k - 1, n)
        }
}

/// After `k` steps of a get: only nodes that are gone are noted as gone, and if a copy on an SSD is
/// being read, or there was none to read, no other one was passed over.
proof fn lemma_run(
    states: Seq<GetStart>,
    answers: Seq<Result<Allocation, AllocateError>>,
    actions: Seq<GetStartAction>,
    k: int,
)
    requires
        search_run(states, answers, actions),
        1 <= k < states.len(),
    ensures
        states[k].replicas == states[0].replicas,
        forall|n: Seq<char>| #[trigger]
            states[k].tombs@.contains(n) ==> states[0].replicas@[n].tomb_tag.tomb,
        ssd_source(states[k].phase) is Some ==> ssd_covered(
            states,
            answers,
            k,
            ssd_source(states[k].phase),
        ),
        actions[k - 1] == GetStartAction::Failed(GetStartError::KeyNotFound) ==> ssd_covered(
            states,
            answers,
            k,
            None,
        ) && states[k].ssd_left@.len() == 0,
    decreases k,
{
    let first = states[0];
    let m = first.replicas@;
    let after = states[k];
    let action = actions[k - 1];
    if k == 1 {
        if exists|n: Seq<char>| candidate(m, first.memory_left@, n, true) {
            let n = choose|n: Seq<char>|
                candidate(m, first.memory_left@, n, true) && #[trigger] memory_found(
                    first,
                    n,
                    after,
                    action,
                );
            assert forall|x: Seq<char>| #[trigger] after.tombs@.contains(x) implies m[x].tomb_tag.tomb by {
                assert(passed(first.memory_left@, after.memory_left@, Some(n)).contains(x));
            }
        } else {
            let tombs = first.tombs@.union(names_of(first.memory_left@));
            assert forall|x: Seq<char>| #[trigger] memory_nodes(m).contains(x) implies {
                m[x].tomb_tag.tomb && tombs.contains(x)
            } by {
                assert(names_has(first.memory_left@, x));
                assert(!candidate(m, first.memory_left@, x, true));
            }
            assert forall|x: Seq<char>| #[trigger] tombs.contains(x) implies m[x].tomb_tag.tomb by {
                assert(memory_nodes(m).contains(x));
            }
            lemma_ssd_step(states, answers, 0, tombs, 1, action);
        }
    } else {
        lemma_run(states, answers, actions, k - 1);
        assert(run_step(states, answers, actions, k - 2));
        let before = states[k - 1];
        let answer = answers[k - 2];
        assert forall|x: Seq<char>| had_no_staging(states, answers, k - 2, x) implies #[trigger]
            had_no_staging(states, answers, k - 1, x) by {
            let i = choose|i: int| 0 <= i < k - 2 && #[trigger] no_staging(states, answers, i, x);
            assert(no_staging(states, answers, i, x));
        }
        if before.phase is SsdSource && answer is Err {
            assert(no_staging(states, answers, k - 2, ssd_source(before.phase)->0));
            assert(had_no_staging(states, answers, k - 1, ssd_source(before.phase)->0));
            lemma_ssd_step(states, answers, k - 1, before.tombs@, k, action);
        } else if before.phase is SsdTarget || before.phase is SsdSource {
            assert forall|x: Seq<char>| #[trigger] ssd_nodes(m).contains(x) implies {
                ||| names_has(after.ssd_left@, x)
                ||| m[x].tomb_tag.tomb && after.tombs@.contains(x)
                ||| ssd_source(before.phase) == Some(x)
                ||| had_no_staging(states, answers, k - 1, x)
            } by {
                if had_no_staging(states, answers, k - 2, x) {
                    assert(had_no_staging(states, answers, k - 1, x));
                }
            }
        }
    }
}

/// A search among the copies on SSDs passes over no copy that can be read.
proof fn lemma_ssd_step(
    states: Seq<GetStart>,
    answers: Seq<Result<Allocation, AllocateError>>,
    from: int,
    tombs: Set<Seq<char>>,
    k: int,
    action: GetStartAction,
)
    requires
        k == from + 1,
        0 <= from,
        k < states.len(),
        states[from].replicas == states[0].replicas,
        ssd_step_is(states[from], tombs, states[k], action),
        forall|n: Seq<char>| #[trigger]
            tombs.contains(n) ==> states[0].replicas@[n].tomb_tag.tomb,
        forall|n: Seq<char>| #[trigger]
            memory_nodes(states[0].replicas@).contains(n) ==> states[0].replicas@[n].tomb_tag.tomb
                && tombs.contains(n),
        forall|n: Seq<char>| #[trigger]
            ssd_nodes(states[0].replicas@).contains(n) ==> {
                ||| names_has(states[from].ssd_left@, n)
                ||| states[0].replicas@[n].tomb_tag.tomb && tombs.contains(n)
                ||| had_no_staging(states, answers, k - 1, n)
            },
    ensures
        forall|n: Seq<char>| #[trigger]
            states[k].tombs@.contains(n) ==> states[0].replicas@[n].tomb_tag.tomb,
        ssd_source(states[k].phase) is Some ==> ssd_covered(
            states,
            answers,
            k,
            ssd_source(states[k].phase),
        ),
        action == GetStartAction::Failed(GetStartError::KeyNotFound) ==> ssd_covered(
            states,
            answers,
            k,
            None,
        ) && states[k].ssd_left@.len() == 0,
{
    let s = states[from];
    let m = states[0].replicas@;
    let after = states[k];
    let found = if exists|n: Seq<char>| candidate(m, s.ssd_left@, n, false) {
        let n = choose|n: Seq<char>|
            candidate(m, s.ssd_left@, n, false) && #[trigger] ssd_found(
                s,
                tombs,
                n,
                after,
                action,
            );
        Some(n)
    } else {
        None
    };
    assert(looked_at(m, s.ssd_left@, after.ssd_left@, found, tombs, after.tombs@));
    let gone = passed(s.ssd_left@, after.ssd_left@, found);
    assert forall|x: Seq<char>| #[trigger] after.tombs@.contains(x) implies m[x].tomb_tag.tomb by {
        if !tombs.contains(x) {
            assert(gone.contains(x));
        }
    }
    assert forall|x: Seq<char>| #[trigger] ssd_nodes(m).contains(x) implies {
        ||| names_has(after.ssd_left@, x)
        ||| m[x].tomb_tag.tomb && after.tombs@.contains(x)
        ||| found == Some(x)
        ||| had_no_staging(states, answers, k - 1, x)
    } by {
        if names_has(s.ssd_left@, x) && !names_has(after.ssd_left@, x) && found != Some(x) {
            assert(gone.contains(x));
        }
    }
}

/// A get is answered that there is no such key only if every copy is on a node that is gone, or on the
/// SSD of a node that had no memory to stage it.
pub proof fn a_get_gives_up_only_without_copies(
    states: Seq<GetStart>,
    answers: Seq<Result<Allocation, AllocateError>>,
    actions: Seq<GetStartAction>,
)
    requires
        search_run(states, answers, actions),
        actions.last() == GetStartAction::Failed(GetStartError::KeyNotFound),
    ensures
        forall|n: Seq<char>| #[trigger]
            memory_nodes(states[0].replicas@).contains(n) ==> states[0].replicas@[n].tomb_tag.tomb,
        forall|n: Seq<char>| #[trigger]
            ssd_nodes(states[0].replicas@).contains(n) ==> states[0].replicas@[n].tomb_tag.tomb
                || had_no_staging(states, answers, answers.len() as int, n),
{
    let k = states.len() - 1;
    lemma_run(states, answers, actions, k);
    assert forall|n: Seq<char>| #[trigger] ssd_nodes(states[0].replicas@).contains(n) implies
        states[0].replicas@[n].tomb_tag.tomb || had_no_staging(
        states,
        answers,
        answers.len() as int,
        n,
    ) by {
        assert(!names_has(states[k].ssd_left@, n));
    }
}

/// A get notes a node as gone only if it is, so that cleaning up takes no copy that can be read out of
/// a route.
pub proof fn only_gone_nodes_are_noted(
    states: Seq<GetStart>,
    answers: Seq<Result<Allocation, AllocateError>>,
    actions: Seq<GetStartAction>,
)
    requires
        search_run(states, answers, actions),
    ensures
        forall|n: Seq<char>| #[trigger]
            states.last().tombs@.contains(n) ==> states[0].replicas@[n].tomb_tag.tomb,
{
    lemma_run(states, answers, actions, states.len() - 1);
}

/// Takes the copies of nodes that are gone out of a route, and the route with them if nothing that is
/// alive is left. Another version of the key is left alone.
pub fn clean_up_tombs(
    routes: &mut KeyTable<TieredKvRoutes>,
    key: &String,
    put_id: PutIDForAKey,
    tombs: &NameSet,
)
    requires
        old(routes).wf(),
        tiered_wf(old(routes)@),
    ensures
        final(routes).wf(),
        tiered_wf(final(routes)@),
        tombs_cleaned(old(routes)@, key@, put_id, tombs@, final(routes)@),
{
    let ghost before = routes@;
    let here = match routes.get(key.as_str()) {
        None => false,
        Some(route) => route.put_id.0 == put_id.0 && route.put_id.1 == put_id.1,
    };
    if !here {
        return;
    }
    if let Some(mut route) = routes.remove(key.as_str()) {
        route.remove_tombed_node_replicas(put_id, tombs);
        proof {
            assert forall|k: Seq<char>| #[trigger]
                routes@.contains_key(k) implies routes@[k].wf() by {
                assert(before.contains_key(k));
            }
            assert(route.live() == some_live(route.node_replicas@));
        }
        if route.has_live_replica() {
            let ghost put_back = route;
            routes.insert(key.clone(), route);
            proof {
                assert(routes@ =~= before.insert(key@, put_back));
                assert forall|k: Seq<char>| #[trigger]
                    routes@.contains_key(k) implies routes@[k].wf() by {
                    if k != key@ {
                        assert(before.contains_key(k));
                    }
                }
            }
        }
    }
}

/// The routes after the copies of nodes that are gone were taken out of one of them.
pub open spec fn tombs_cleaned(
    before: TieredMap,
    key: Seq<char>,
    put_id: PutIDForAKey,
    tombs: Set<Seq<char>>,
    after: TieredMap,
) -> bool {
    if !before.contains_key(key) || before[key].put_id != put_id {
        after == before
    } else {
        let left = before[key].node_replicas@.remove_keys(tombs);
        if some_live(left) {
            &&& after.contains_key(key)
            &&& after[key].node_replicas@ == left
            &&& after[key].same_but_replicas(&before[key])
            &&& after == before.insert(key, after[key])
        } else {
            after == before.remove(key)
        }
    }
}

proof fn lemma_names_remove(list: Seq<String>, at: int)
    requires
        0 <= at < list.len(),
    ensures
        forall|n: Seq<char>| #[trigger]
            names_has(list.remove(at), n) ==> names_has(list, n),
        forall|n: Seq<char>| #[trigger]
            names_has(list, n) ==> names_has(list.remove(at), n) || n == list[at]@,
{
    let next = list.remove(at);
    assert forall|n: Seq<char>| #[trigger] names_has(next, n) implies names_has(list, n) by {
        let i = choose|i: int| 0 <= i < next.len() && (#[trigger] next[i])@ == n;
        let h = if i < at { i } else { i + 1 };
        assert(list[h]@ == n);
    }
    assert forall|n: Seq<char>| #[trigger] names_has(list, n) implies names_has(next, n) || n
        == list[at]@ by {
        let i = choose|i: int| 0 <= i < list.len() && (#[trigger] list[i])@ == n;
        if i != at {
            let h = if i < at { i } else { i - 1 };
            assert(next[h]@ == n);
        }
    }
}

proof fn lemma_nothing_looked_at(m: Replicas, list: Seq<String>, tombs: Set<Seq<char>>)
    ensures
        looked_at(m, list, list, None, tombs, tombs),
{
    assert(tombs =~= tombs.union(passed(list, list, None)));
}

/// Taking one candidate off a list on which each stands once.
proof fn lemma_candidate_removed(m: Replicas, list: Seq<String>, at: int, tombs: Set<Seq<char>>)
    requires
        0 <= at < list.len(),
        names_distinct(list),
    ensures
        names_distinct(list.remove(at)),
        looked_at(m, list, list.remove(at), Some(list[at]@), tombs, tombs),
        m[list[at]@].tomb_tag.tomb ==> looked_at(
            m,
            list,
            list.remove(at),
            None,
            tombs,
            tombs.insert(list[at]@),
        ),
{
    let next = list.remove(at);
    let n = list[at]@;
    lemma_names_remove(list, at);
    assert(names_has(list, n));
    assert(!names_has(next, n)) by {
        if names_has(next, n) {
            let i = choose|i: int| 0 <= i < next.len() && (#[trigger] next[i])@ == n;
            let h = if i < at { i } else { i + 1 };
            assert(list[h]@ == list[at]@);
        }
    }
    assert forall|i: int, j: int|
        0 <= i < next.len() && 0 <= j < next.len() && i != j implies (#[trigger] next[i])@ != (
    #[trigger] next[j])@ by {
        let g = if i < at { i } else { i + 1 };
        let h = if j < at { j } else { j + 1 };
        assert(list[g]@ != list[h]@);
    }
    assert(tombs =~= tombs.union(passed(list, next, Some(n))));
    assert(tombs.insert(n) =~= tombs.union(passed(list, next, None)));
}

/// Looking on where a search stopped.
proof fn lemma_looked_on(
    m: Replicas,
    a: Seq<String>,
    b: Seq<String>,
    c: Seq<String>,
    found: Option<Seq<char>>,
    tombs_a: Set<Seq<char>>,
    tombs_b: Set<Seq<char>>,
    tombs_c: Set<Seq<char>>,
)
    requires
        looked_at(m, a, b, None, tombs_a, tombs_b),
        looked_at(m, b, c, found, tombs_b, tombs_c),
    ensures
        looked_at(m, a, c, found, tombs_a, tombs_c),
{
    assert forall|n: Seq<char>| #[trigger]
        passed(a, c, found).contains(n) implies m[n].tomb_tag.tomb by {
        if names_has(b, n) {
            assert(passed(b, c, found).contains(n));
        } else {
            assert(passed(a, b, None).contains(n));
        }
    }
    assert(tombs_c =~= tombs_a.union(passed(a, c, found)));
}

pub proof fn lemma_take_has(rows: Seq<(String, KvNodeReplicas)>, i: int)
    requires
        0 <= i < rows.len(),
    ensures
        forall|n: Seq<char>| #[trigger]
            crate::assoc::rows_has(rows.take(i + 1), n) <==> crate::assoc::rows_has(
                rows.take(i),
                n,
            ) || n == rows[i].0@,
{
    let a = rows.take(i);
    let b = rows.take(i + 1);
    assert forall|n: Seq<char>| #[trigger]
        crate::assoc::rows_has(b, n) <==> crate::assoc::rows_has(a, n) || n == rows[i].0@ by {
        if crate::assoc::rows_has(a, n) {
            let h = choose|h: int| 0 <= h < a.len() && (#[trigger] a[h]).0@ == n;
            assert(b[h].0@ == n);
        }
        if n == rows[i].0@ {
            assert(b[i].0@ == n);
        }
        if crate::assoc::rows_has(b, n) {
            let h = choose|h: int| 0 <= h < b.len() && (#[trigger] b[h]).0@ == n;
            if h < i {
                assert(a[h].0@ == n);
            }
        }
    }
}

proof fn lemma_names_push(list: Seq<String>, name: String)
    ensures
        forall|n: Seq<char>| #[trigger]
            names_has(list.push(name), n) <==> names_has(list, n) || n == name@,
        names_distinct(list) && !names_has(list, name@) ==> names_distinct(list.push(name)),
{
    let next = list.push(name);
    assert forall|n: Seq<char>| #[trigger] names_has(next, n) <==> names_has(list, n) || n
        == name@ by {
        if names_has(list, n) {
            let h = choose|h: int| 0 <= h < list.len() && (#[trigger] list[h])@ == n;
            assert(next[h]@ == n);
        }
        if n == name@ {
            assert(next[list.len() as int]@ == n);
        }
        if names_has(next, n) {
            let h = choose|h: int| 0 <= h < next.len() && (#[trigger] next[h])@ == n;
            if h < list.len() {
                assert(list[h]@ == n);
            }
        }
    }
    if names_distinct(list) && !names_has(list, name@) {
        assert forall|i: int, j: int|
            0 <= i < next.len() && 0 <= j < next.len() && i != j implies (#[trigger] next[i])@ != (
        #[trigger] next[j])@ by {
            if i < list.len() {
                assert(list[i]@ == next[i]@);
            }
            if j < list.len() {
                assert(list[j]@ == next[j]@);
            }
        }
    }
}

} // verus!
