//! Beginning a put: who may put for whom, which version it writes, where the bytes are staged and
//! where they go.
use vstd::prelude::*;

use crate::admission::AdmissionError;
use crate::cluster::ClusterMember;
use crate::get_alloc::SegmentUsage;
use crate::get_start::addressable;
use crate::ids::{NodeID, PutIDForAKey};
use crate::inflight_puts::{InflightPutAllocation, InflightPutInfo};
use crate::key_table::KeyTable;
use crate::observe::PutPlacementMode;
use crate::placement::{pick_segment, NoSpaceContext, PutPlacementTarget};
use crate::routes::Allocation;
use crate::text::{parse_i64, signed_value};

verus! {

/// How often a segment is tried for the staging memory of a put.
pub const PUT_SOURCE_ATTEMPTS: u32 = 3;

/// The names under which members tell about the node they work for.
pub struct OwnerMetaKeys {
    /// The node whose memory the member uses.
    pub owner_id: String,
    /// The generation of that node.
    pub owner_start_time: String,
    /// Where the member meets others on the same machine.
    pub local_ipc_root: String,
}

/// Why a node may not put on behalf of another one.
#[derive(Clone, Copy, Debug, PartialEq, Eq, Structural)]
pub enum SourceOverrideError {
    RequesterUnknown,
    SourceUnknown,
    /// Only members that transfer for others may do so.
    NotATransferWorker,
    /// The member works for another node.
    OwnerMismatch,
    /// The member works for another generation of the node.
    OwnerGenerationMismatch,
    /// The two are not on the same machine.
    LocalIpcRootMismatch,
}

/// What a member tells under a name.
pub open spec fn told(member: ClusterMember, name: Seq<char>) -> Option<Seq<char>> {
    if member.metadata@.contains_key(name) {
        Some(member.metadata@[name]@)
    } else {
        None
    }
}

/// What keeps `requester` from putting on behalf of `source`.
pub open spec fn override_fault(
    requester: Option<ClusterMember>,
    requester_id: Seq<char>,
    source: Option<ClusterMember>,
    source_id: Seq<char>,
    keys: OwnerMetaKeys,
) -> Option<SourceOverrideError> {
    if requester is None {
        Some(SourceOverrideError::RequesterUnknown)
    } else if requester_id == source_id {
        None
    } else if source is None {
        Some(SourceOverrideError::SourceUnknown)
    } else {
        let worker = requester->0;
        let owner = source->0;
        if !worker.flag("side_transfer_worker"@) {
            Some(SourceOverrideError::NotATransferWorker)
        } else if told(worker, keys.owner_id@) != Some(source_id) {
            Some(SourceOverrideError::OwnerMismatch)
        } else if !(told(worker, keys.owner_start_time@) is Some && signed_value(
            told(worker, keys.owner_start_time@)->0,
        ) == Some(owner.node_start_time)) {
            Some(SourceOverrideError::OwnerGenerationMismatch)
        } else if told(worker, keys.local_ipc_root@) is None || told(worker, keys.local_ipc_root@)
            != told(owner, keys.local_ipc_root@) {
            Some(SourceOverrideError::LocalIpcRootMismatch)
        } else {
            None
        }
    }
}

/// Whether `requester` may put on behalf of `source`: always on its own behalf; on behalf of another
/// node only as a member that transfers for exactly this generation of that node, on the same machine.
/// Returns the generations of the two.
pub fn validate_put_start_source_node_override(
    requester: Option<&ClusterMember>,
    requester_id: &NodeID,
    source: Option<&ClusterMember>,
    source_id: &NodeID,
    keys: &OwnerMetaKeys,
) -> (r: Result<(i64, i64), SourceOverrideError>)
    requires
        requester matches Some(m) ==> m.wf(),
        source matches Some(m) ==> m.wf(),
    ensures
        ({
            let known = match requester {
                Some(m) => Some(*m),
                None => None,
            };
            let other = match source {
                Some(m) => Some(*m),
                None => None,
            };
            match override_fault(known, requester_id@, other, source_id@, *keys) {
                Some(e) => r == Err::<(i64, i64), SourceOverrideError>(e),
                None => r == Ok::<(i64, i64), SourceOverrideError>(
                    (
                        known->0.node_start_time,
                        if requester_id@ == source_id@ {
                            known->0.node_start_time
                        } else {
                            other->0.node_start_time
                        },
                    ),
                ),
            }
        }),
{
    let worker = match requester {
        None => {
            return Err(SourceOverrideError::RequesterUnknown);
        },
        Some(m) => m,
    };
    if *requester_id == *source_id {
        return Ok((worker.node_start_time, worker.node_start_time));
    }
    let owner = match source {
        None => {
            return Err(SourceOverrideError::SourceUnknown);
        },
        Some(m) => m,
    };
    if !worker.is_set("side_transfer_worker") {
        return Err(SourceOverrideError::NotATransferWorker);
    }
    let for_owner = match worker.metadata.get(&keys.owner_id) {
        Some(id) => *id == *source_id,
        None => false,
    };
    if !for_owner {
        return Err(SourceOverrideError::OwnerMismatch);
    }
    let for_generation = match worker.metadata.get(&keys.owner_start_time) {
        Some(time) => match parse_i64(time.as_str()) {
            Some(start) => start == owner.node_start_time,
            None => false,
        },
        None => false,
    };
    if !for_generation {
        return Err(SourceOverrideError::OwnerGenerationMismatch);
    }
    let same_machine = match worker.metadata.get(&keys.local_ipc_root) {
        None => false,
        Some(root) => match owner.metadata.get(&keys.local_ipc_root) {
            Some(other) => *root == *other,
            None => false,
        },
    };
    if !same_machine {
        return Err(SourceOverrideError::LocalIpcRootMismatch);
    }
    Ok((worker.node_start_time, owner.node_start_time))
}

/// The node that the bytes of a put come from: the one that is named, or else the one that asks.
pub fn put_source_node(named: Option<&NodeID>, req_node_id: &NodeID) -> (r: NodeID)
    ensures
        r@ == match named {
            Some(n) => n@,
            None => req_node_id@,
        },
{
    match named {
        Some(n) => n.clone(),
        None => req_node_id.clone(),
    }
}

/// The counters from which keys get their version numbers.
pub struct RecentVersions {
    counters: KeyTable<u32>,
}

impl View for RecentVersions {
    type V = Map<Seq<char>, u32>;

    closed spec fn view(&self) -> Map<Seq<char>, u32> {
        self.counters@
    }
}

/// The number that a key's next version gets.
pub open spec fn next_version(m: Map<Seq<char>, u32>, key: Seq<char>) -> u32 {
    if m.contains_key(key) {
        m[key]
    } else {
        0
    }
}

/// A put of the key was given a version.
pub open spec fn version_given(
    m: Map<Seq<char>, u32>,
    key: Seq<char>,
    now_ms: u64,
    r: PutIDForAKey,
    after: Map<Seq<char>, u32>,
) -> bool {
    &&& r == (now_ms, next_version(m, key))
    &&& after == m.insert(
        key,
        vstd::wrapping::u32_specs::wrapping_add(next_version(m, key), 1),
    )
}

impl RecentVersions {
    pub closed spec fn wf(&self) -> bool {
        self.counters.wf()
    }

    pub fn new() -> (r: Self)
        ensures
            r.wf(),
            r@ == Map::<Seq<char>, u32>::empty(),
    {
        RecentVersions { counters: KeyTable::new() }
    }

    /// The version that the next put of a key writes: the time, and a counter of the key's.
    pub fn get_recent_key_versionid(&mut self, key: &String, now_ms: u64) -> (r: PutIDForAKey)
        requires
            old(self).wf(),
        ensures
            final(self).wf(),
            version_given(old(self)@, key@, now_ms, r, final(self)@),
    {
        let current: u32 = match self.counters.get(key.as_str()) {
            Some(n) => *n,
            None => 0,
        };
        self.counters.insert(key.clone(), current.wrapping_add(1));
        (now_ms, current)
    }

    /// A counter that has not been used for long is dropped.
    pub fn forget(&mut self, key: &String)
        requires
            old(self).wf(),
        ensures
            final(self).wf(),
            final(self)@ == old(self)@.remove(key@),
    {
        self.counters.remove(key.as_str());
    }
}

/// Two puts of a key, one right after the other, write different versions, whatever the clock says. A version
/// tells the time that it was given, and giving it changes nothing for other keys.
pub proof fn versions_in_a_row_differ(
    m: Map<Seq<char>, u32>,
    key: Seq<char>,
    first_ms: u64,
    first: PutIDForAKey,
    between: Map<Seq<char>, u32>,
    second_ms: u64,
    second: PutIDForAKey,
    after: Map<Seq<char>, u32>,
    other: Seq<char>,
)
    requires
        version_given(m, key, first_ms, first, between),
        version_given(between, key, second_ms, second, after),
    ensures
        first != second,
        first.1 != second.1,
        first.0 == first_ms,
        second.0 == second_ms,
        other != key ==> next_version(after, other) == next_version(m, other),
        first.1 < u32::MAX ==> second.1 == first.1 + 1,
{
}

/// Why a put cannot begin.
#[derive(Debug)]
pub enum PutStartError {
    /// The key exists, or is being put or reclaimed.
    Refused(AdmissionError),
    /// The node may not put on behalf of the one that the bytes come from.
    Source(SourceOverrideError),
    /// The node that the bytes come from has registered no memory.
    RegisterSegmentFailed,
    NoSpace { node: NodeID, segment: String, total_capacity: u64, free_capacity: u64 },
    /// The node that the bytes were to go to has left.
    TargetDeparted,
    /// A node that takes part has left or was restarted.
    ParticipantLeft,
}

/// The error for a put whose bytes have no place: the last segment that was tried, if any was.
pub fn no_space(context: Option<NoSpaceContext>) -> (r: PutStartError)
    ensures
        ({
            &&& r matches PutStartError::NoSpace { node, segment, total_capacity, free_capacity }
            &&& match context {
                Some(c) => {
                    &&& node == c.node
                    &&& segment == c.segment
                    &&& total_capacity == c.total_capacity
                    &&& free_capacity == c.free_capacity
                },
                None => {
                    &&& node@ == "unknown"@
                    &&& segment@ == "unknown"@
                    &&& total_capacity == 0
                    &&& free_capacity == 0
                },
            }
        }),
{
    match context {
        Some(c) => PutStartError::NoSpace {
            node: c.node,
            segment: c.segment,
            total_capacity: c.total_capacity,
            free_capacity: c.free_capacity,
        },
        None => PutStartError::NoSpace {
            node: "unknown".to_string(),
            segment: "unknown".to_string(),
            total_capacity: 0,
            free_capacity: 0,
        },
    }
}

/// What the client is told.
#[derive(Debug)]
pub struct PutPlan {
    pub put_id: PutIDForAKey,
    pub node_id: NodeID,
    pub src_addr: u64,
    pub target_addr: u64,
    pub src_base_addr: u64,
    pub target_base_addr: u64,
    pub len: u64,
}

/// A put that is about to begin.
#[derive(Debug)]
pub struct StartedPut {
    pub plan: PutPlan,
    pub info: InflightPutInfo,
    pub mode: PutPlacementMode,
}

/// What is to be done next.
pub enum PutStartAction {
    /// Allocate the staging memory in this segment of the source.
    TrySource { segment: usize, len: u64 },
    /// Choose where the bytes go.
    SelectTarget,
    Failed(PutStartError),
}

/// The beginning of a put.
pub struct PutStart {
    /// The number under which the put holds its key.
    pub number: u64,
    pub key: String,
    pub put_id: PutIDForAKey,
    pub req_node_id: NodeID,
    pub source_node_id: NodeID,
    pub requester_generation: i64,
    pub source_generation: i64,
    pub len: u64,
    /// The segment in which staging memory is allocated.
    pub segment: usize,
    pub attempts: u32,
    pub source: Option<Allocation>,
}

/// Only the attempts and the staging memory differ.
pub open spec fn same_put(a: PutStart, b: PutStart) -> bool {
    &&& a.number == b.number
    &&& a.key == b.key
    &&& a.put_id == b.put_id
    &&& a.req_node_id == b.req_node_id
    &&& a.source_node_id == b.source_node_id
    &&& a.requester_generation == b.requester_generation
    &&& a.source_generation == b.source_generation
    &&& a.len == b.len
    &&& a.segment == b.segment
}

/// The put is described by what is known of its beginning.
pub open spec fn describes(
    info: InflightPutInfo,
    s: PutStart,
    target_node: Seq<char>,
    target_generation: i64,
    persist_to_ssd: bool,
    len: u64,
    allocation: InflightPutAllocation,
) -> bool {
    &&& info.info_id == s.number
    &&& info.key@ == s.key@
    &&& info.req_node_id@ == s.req_node_id@
    &&& info.requester_generation == s.requester_generation
    &&& info.source_node_id@ == s.source_node_id@
    &&& info.source_generation == s.source_generation
    &&& info.target_node_id@ == target_node
    &&& info.target_generation == target_generation
    &&& info.persist_to_ssd == persist_to_ssd
    &&& info.len == len
    &&& info.allocation == Some(allocation)
}

/// The segment was tried for staging memory, and `action` comes next.
pub open spec fn staging_tried(
    before: PutStart,
    after: PutStart,
    answer: Option<Allocation>,
    usage: SegmentUsage,
    action: PutStartAction,
) -> bool {
    &&& same_put(after, before)
    &&& after.attempts == before.attempts + 1
    &&& after.source == answer
    &&& match answer {
        Some(_) => action is SelectTarget,
        None => if before.attempts + 1 < PUT_SOURCE_ATTEMPTS {
            action == (PutStartAction::TrySource { segment: before.segment, len: before.len })
        } else {
            &&& action matches PutStartAction::Failed(
                PutStartError::NoSpace { node, segment, total_capacity, free_capacity },
            )
            &&& node@ == before.source_node_id@
            &&& segment@ == usage.device_id@
            &&& total_capacity == usage.total
            &&& free_capacity == usage.spec_free()
        },
    }
}

/// It was decided where the bytes of a put go.
pub open spec fn put_placed(
    s: PutStart,
    target: PutPlacementTarget,
    target_generation: Option<i64>,
    started: StartedPut,
) -> bool {
    let src = s.source->0;
    match target {
        PutPlacementTarget::Local { node_id, persist_to_ssd } => {
            &&& started.mode == PutPlacementMode::Local
            &&& started.plan.put_id == s.put_id
            &&& started.plan.node_id@ == node_id@
            &&& started.plan.src_addr == src.spec_abs_addr()
            &&& started.plan.target_addr == src.spec_abs_addr()
            &&& started.plan.src_base_addr == src.base_addr
            &&& started.plan.target_base_addr == src.base_addr
            &&& started.plan.len == src.size
            &&& describes(
                started.info,
                s,
                node_id@,
                s.source_generation,
                persist_to_ssd,
                src.size,
                InflightPutAllocation::Local(src),
            )
        },
        PutPlacementTarget::Remote { node_id, allocation, persist_to_ssd } => {
            &&& target_generation matches Some(generation)
            &&& started.mode == PutPlacementMode::Remote
            &&& started.plan.put_id == s.put_id
            &&& started.plan.node_id@ == node_id@
            &&& started.plan.src_addr == src.spec_abs_addr()
            &&& started.plan.target_addr == allocation.spec_abs_addr()
            &&& started.plan.src_base_addr == src.base_addr
            &&& started.plan.target_base_addr == allocation.base_addr
            &&& started.plan.len == allocation.size
            &&& describes(
                started.info,
                s,
                node_id@,
                generation,
                persist_to_ssd,
                allocation.size,
                (InflightPutAllocation::Remote { src, target: allocation }),
            )
        },
    }
}

/// The bytes can go where they are to: to the source itself, or to addressable memory.
pub open spec fn target_fits(s: PutStart, target: PutPlacementTarget) -> bool {
    match target {
        PutPlacementTarget::Local { node_id, .. } => node_id@ == s.source_node_id@,
        PutPlacementTarget::Remote { allocation, .. } => addressable(allocation),
    }
}

impl PutStart {
    pub open spec fn wf(&self) -> bool {
        &&& self.attempts <= PUT_SOURCE_ATTEMPTS
        &&& self.source matches Some(a) ==> addressable(a)
    }

    /// The put is as it was asked for, and staging memory for all its bytes is looked for.
    pub open spec fn stages(
        &self,
        number: u64,
        key: Seq<char>,
        put_id: PutIDForAKey,
        req_node_id: Seq<char>,
        source_node_id: Seq<char>,
        generations: (i64, i64),
        len: u64,
        action: PutStartAction,
    ) -> bool {
        &&& self.wf()
        &&& self.number == number
        &&& self.key@ == key
        &&& self.put_id == put_id
        &&& self.req_node_id@ == req_node_id
        &&& self.source_node_id@ == source_node_id
        &&& self.requester_generation == generations.0
        &&& self.source_generation == generations.1
        &&& self.len == len
        &&& self.attempts == 0
        &&& self.source is None
        &&& action == (PutStartAction::TrySource { segment: self.segment, len })
    }

    /// Begins with the segment `segment` of the source.
    pub fn begin_at(
        number: u64,
        key: &String,
        put_id: PutIDForAKey,
        req_node_id: &NodeID,
        source_node_id: &NodeID,
        generations: (i64, i64),
        len: u64,
        segment: usize,
    ) -> (r: (Self, PutStartAction))
        ensures
            r.0.segment == segment,
            r.0.stages(
                number,
                key@,
                put_id,
                req_node_id@,
                source_node_id@,
                generations,
                len,
                r.1,
            ),
    {
        let s = PutStart {
            number,
            key: key.clone(),
            put_id,
            req_node_id: req_node_id.clone(),
            source_node_id: source_node_id.clone(),
            requester_generation: generations.0,
            source_generation: generations.1,
            len,
            segment,
            attempts: 0,
            source: None,
        };
        (s, PutStartAction::TrySource { segment, len })
    }

    /// Begins with a segment of the source, picked at random among `segments`.
    pub fn begin(
        number: u64,
        key: &String,
        put_id: PutIDForAKey,
        req_node_id: &NodeID,
        source_node_id: &NodeID,
        generations: (i64, i64),
        len: u64,
        segments: usize,
    ) -> (r: Result<(Self, PutStartAction), PutStartError>)
        ensures
            match r {
                Err(e) => segments == 0 && e is RegisterSegmentFailed,
                Ok((s, action)) => {
                    &&& s.segment < segments
                    &&& s.stages(
                        number,
                        key@,
                        put_id,
                        req_node_id@,
                        source_node_id@,
                        generations,
                        len,
                        action,
                    )
                },
            },
    {
        match pick_segment(segments) {
            None => Err(PutStartError::RegisterSegmentFailed),
            Some(segment) => Ok(
                Self::begin_at(
                    number,
                    key,
                    put_id,
                    req_node_id,
                    source_node_id,
                    generations,
                    len,
                    segment,
                ),
            ),
        }
    }

    /// The segment was tried for staging memory. It is tried again a few times; `usage` is what the
    /// segment says of itself.
    pub fn source_tried(&mut self, answer: Option<Allocation>, usage: &SegmentUsage) -> (r:
        PutStartAction)
        requires
            old(self).wf(),
            old(self).attempts < PUT_SOURCE_ATTEMPTS,
            old(self).source is None,
            answer matches Some(a) ==> addressable(a),
        ensures
            final(self).wf(),
            staging_tried(*old(self), *final(self), answer, *usage, r),
    {
        self.attempts = self.attempts + 1;
        self.source = answer;
        match answer {
            Some(_) => PutStartAction::SelectTarget,
            None => if self.attempts < PUT_SOURCE_ATTEMPTS {
                PutStartAction::TrySource { segment: self.segment, len: self.len }
            } else {
                PutStartAction::Failed(
                    PutStartError::NoSpace {
                        node: self.source_node_id.clone(),
                        segment: usage.device_id.clone(),
                        total_capacity: usage.total,
                        free_capacity: usage.free(),
                    },
                )
            },
        }
    }

    /// It is decided where the bytes go: they stay where they are staged, or go to another node, whose
    /// generation is `target_generation` if it is still there.
    pub fn target_selected(
        self,
        target: PutPlacementTarget,
        target_generation: Option<i64>,
    ) -> (r: Result<StartedPut, PutStartError>)
        requires
            self.wf(),
            self.source is Some,
            target_fits(self, target),
        ensures
            match r {
                Ok(started) => put_placed(self, target, target_generation, started),
                Err(e) => e is TargetDeparted && target is Remote && target_generation is None,
            },
    {
        let src = match self.source {
            Some(a) => a,
            None => {
                return Err(PutStartError::RegisterSegmentFailed);
            },
        };
        let (node_id, generation, persist_to_ssd, target, inflight, mode) = match target {
            PutPlacementTarget::Local { node_id, persist_to_ssd } => (
                node_id,
                self.source_generation,
                persist_to_ssd,
                src,
                InflightPutAllocation::Local(src),
                PutPlacementMode::Local,
            ),
            PutPlacementTarget::Remote { node_id, allocation, persist_to_ssd } => {
                let generation: i64 = match target_generation {
                    Some(g) => g,
                    None => {
                        return Err(PutStartError::TargetDeparted);
                    },
                };
                (
                    node_id,
                    generation,
                    persist_to_ssd,
                    allocation,
                    InflightPutAllocation::Remote { src, target: allocation },
                    PutPlacementMode::Remote,
                )
            },
        };
        let plan = PutPlan {
            put_id: self.put_id,
            node_id: node_id.clone(),
            src_addr: src.abs_addr(),
            target_addr: target.abs_addr(),
            src_base_addr: src.base_addr,
            target_base_addr: target.base_addr,
            len: target.size,
        };
        let info = InflightPutInfo {
            info_id: self.number,
            target_node_id: node_id,
            source_node_id: self.source_node_id,
            key: self.key,
            req_node_id: self.req_node_id,
            target_generation: generation,
            source_generation: self.source_generation,
            requester_generation: self.requester_generation,
            len: target.size,
            persist_to_ssd,
            allocation: Some(inflight),
        };
        Ok(StartedPut { plan, info, mode })
    }
}

/// The two nodes that a put begins with, and what the cluster knows of them.
pub struct PutOrigin<'a> {
    pub req_node_id: &'a NodeID,
    pub requester: Option<&'a ClusterMember>,
    pub source_node_id: &'a NodeID,
    pub source: Option<&'a ClusterMember>,
}

impl<'a> PutOrigin<'a> {
    pub open spec fn wf(&self) -> bool {
        &&& self.requester matches Some(m) ==> m.wf()
        &&& self.source matches Some(m) ==> m.wf()
    }

    /// What keeps the put from being made on behalf of the source.
    pub open spec fn fault(&self, keys: OwnerMetaKeys) -> Option<SourceOverrideError> {
        override_fault(
            match self.requester {
                Some(m) => Some(*m),
                None => None,
            },
            self.req_node_id@,
            match self.source {
                Some(m) => Some(*m),
                None => None,
            },
            self.source_node_id@,
            keys,
        )
    }

    /// The answer `r` to the wish to begin a put of `len` bytes.
    pub open spec fn put_answered(
        &self,
        number: u64,
        versions: Map<Seq<char>, u32>,
        keys: OwnerMetaKeys,
        key: Seq<char>,
        len: u64,
        segments: usize,
        now_ms: u64,
        r: Result<(PutStart, PutStartAction), PutStartError>,
        versions_after: Map<Seq<char>, u32>,
    ) -> bool {
        match self.fault(keys) {
            Some(e) => {
                &&& r == Err::<(PutStart, PutStartAction), PutStartError>(PutStartError::Source(e))
                &&& versions_after == versions
            },
            None => {
                let put_id = (now_ms, next_version(versions, key));
                &&& version_given(versions, key, now_ms, put_id, versions_after)
                &&& match r {
                    Err(e) => segments == 0 && e is RegisterSegmentFailed,
                    Ok((s, action)) => {
                        &&& s.segment < segments
                        &&& s.stages(
                            number,
                            key,
                            put_id,
                            self.req_node_id@,
                            self.source_node_id@,
                            (
                                self.requester->0.node_start_time,
                                if self.req_node_id@ == self.source_node_id@ {
                                    self.requester->0.node_start_time
                                } else {
                                    self.source->0.node_start_time
                                },
                            ),
                            len,
                            action,
                        )
                    },
                }
            },
        }
    }
}

/// A put that begins is the one that was asked for: of the key, for the nodes in their current generations, with
/// staging memory for exactly its bytes still to be found. It begins whenever the requester is known and may put
/// for the source, and the source has memory; and only a put that may be made uses up a version.
pub proof fn a_put_is_begun_as_asked(
    origin: PutOrigin<'_>,
    number: u64,
    versions: Map<Seq<char>, u32>,
    keys: OwnerMetaKeys,
    key: Seq<char>,
    len: u64,
    segments: usize,
    now_ms: u64,
    r: Result<(PutStart, PutStartAction), PutStartError>,
    after: Map<Seq<char>, u32>,
)
    requires
        origin.put_answered(number, versions, keys, key, len, segments, now_ms, r, after),
    ensures
        r is Ok ==> segments > 0 && origin.requester is Some,
        origin.requester is Some && origin.req_node_id@ == origin.source_node_id@ && segments > 0
            ==> r is Ok,
        origin.requester is None ==> r is Err && after == versions,
        r matches Err(PutStartError::Source(_)) ==> after == versions,
        r matches Ok((s, action)) ==> {
            &&& s.key@ == key
            &&& s.put_id.0 == now_ms
            &&& s.put_id.1 != next_version(after, key)
            &&& s.len == len
            &&& s.segment < segments
            &&& action matches PutStartAction::TrySource { segment, len: wanted }
            &&& segment == s.segment && wanted == len
            &&& s.source is None
            &&& s.req_node_id@ == origin.req_node_id@
            &&& s.source_node_id@ == origin.source_node_id@
            &&& s.requester_generation == origin.requester->0.node_start_time
            &&& origin.req_node_id@ == origin.source_node_id@ ==> s.source_generation
                == s.requester_generation
            &&& origin.req_node_id@ != origin.source_node_id@ ==> origin.source is Some
                && s.source_generation == origin.source->0.node_start_time
        },
{
}

/// Begins a put: the requester may put on behalf of the source, the key gets a version, and staging
/// memory is looked for on the source, which has `segments` segments.
pub fn begin_put(
    number: u64,
    versions: &mut RecentVersions,
    origin: &PutOrigin<'_>,
    keys: &OwnerMetaKeys,
    key: &String,
    len: u64,
    segments: usize,
    now_ms: u64,
) -> (r: Result<(PutStart, PutStartAction), PutStartError>)
    requires
        old(versions).wf(),
        origin.wf(),
    ensures
        final(versions).wf(),
        origin.put_answered(
            number,
            old(versions)@,
            *keys,
            key@,
            len,
            segments,
            now_ms,
            r,
            final(versions)@,
        ),
{
    let generations = match validate_put_start_source_node_override(
        origin.requester,
        origin.req_node_id,
        origin.source,
        origin.source_node_id,
        keys,
    ) {
        Err(e) => {
            return Err(PutStartError::Source(e));
        },
        Ok(generations) => generations,
    };
    let put_id = versions.get_recent_key_versionid(key, now_ms);
    PutStart::begin(
        number,
        key,
        put_id,
        origin.req_node_id,
        origin.source_node_id,
        generations,
        len,
        segments,
    )
}

} // verus!
