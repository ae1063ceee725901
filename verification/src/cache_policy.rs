//! When the cache of a node must shrink, and what it may drop.
use vstd::prelude::*;

use crate::ids::PutIDForAKey;
use crate::key_table::KeyTable;
use crate::recoverability::RecoverableReplicaStatus;
use crate::routes::{NodeValueReplicaDesc, OneKvNodesRoutes};
use crate::recoverability::{
    has_status, route_recoverable_replica_status_with, routes_wf, Routes,
};
use crate::name_set::NameSet;
use crate::assoc::lemma_map_has_row;

verus! {

/// Takes finished work off the weight that waits to be reclaimed.
pub fn subtract_pending_eviction_weight(pending_weight: &mut u64, completed_weight: u64)
    requires
        completed_weight <= *old(pending_weight),
    ensures
        *final(pending_weight) == *old(pending_weight) - completed_weight,
{
    if completed_weight == 0 {
        return ;
    }
    *pending_weight = *pending_weight - completed_weight;
}

/// Why a cache has to drop something.
#[derive(Clone, Copy, Debug, PartialEq, Eq, Structural)]
pub enum UnrecoverableCacheEvictionContext {
    NormalCapacity,
    OwnerLocalReserveNoSpace,
}

/// Whether a copy may be dropped that cannot be brought back: where the owner has no room for new
/// slots, where the owner is of the remote tier itself, and where there is no remote tier.
pub fn allow_unrecoverable_cache_eviction(
    owner_is_remote_only: bool,
    has_ready_remote_only_owner: bool,
    context: UnrecoverableCacheEvictionContext,
) -> (r: bool)
    ensures
        r == (context == UnrecoverableCacheEvictionContext::OwnerLocalReserveNoSpace
            || owner_is_remote_only || !has_ready_remote_only_owner),
{
    context == UnrecoverableCacheEvictionContext::OwnerLocalReserveNoSpace || owner_is_remote_only
        || !has_ready_remote_only_owner
}

/// A member with what matters of it here: whether it is of the remote tier, and how much memory it
/// has registered.
#[derive(Clone, Copy, Debug, PartialEq, Eq, Structural)]
pub struct MemberSpace {
    pub remote_only: bool,
    pub space_bytes: u64,
}

/// A node of the remote tier that has memory.
pub open spec fn ready_remote(m: MemberSpace) -> bool {
    m.remote_only && m.space_bytes != 0
}

/// The cache of an owner may drop copies that cannot be brought back.
pub open spec fn may_lose(
    owner_is_remote_only: bool,
    members: Seq<MemberSpace>,
    context: UnrecoverableCacheEvictionContext,
) -> bool {
    context == UnrecoverableCacheEvictionContext::OwnerLocalReserveNoSpace || owner_is_remote_only
        || !exists|i: int| 0 <= i < members.len() && ready_remote(#[trigger] members[i])
}

/// Whether the cache of an owner may drop copies that cannot be brought back.
pub fn owner_cache_allows_unrecoverable_eviction_in_context(
    owner_is_remote_only: bool,
    members: &Vec<MemberSpace>,
    context: UnrecoverableCacheEvictionContext,
) -> (r: bool)
    ensures
        r == may_lose(owner_is_remote_only, members@, context),
{
    let mut ready = false;
    let mut i: usize = 0;
    while i < members.len()
        invariant
            i <= members@.len(),
            ready == exists|j: int| 0 <= j < i && ready_remote(#[trigger] members@[j]),
        decreases members@.len() - i,
    {
        if members[i].remote_only && members[i].space_bytes != 0 {
            assert(ready_remote(members@[i as int]));
            ready = true;
        }
        i += 1;
    }
    allow_unrecoverable_cache_eviction(owner_is_remote_only, ready, context)
}

/// What memory of a node is kept back for.
#[derive(Clone, Copy, Debug, PartialEq, Eq, Structural)]
pub enum ReservedCapacityReason {
    LeaseBoundKv,
}

/// Memory of a node that its cache must not use.
#[derive(Clone, Copy, Debug, PartialEq, Eq, Structural)]
pub struct NodeCacheReservedCapacity {
    pub total_bytes: u64,
    pub lease_bound_kv_bytes: u64,
}

/// A counter of 64 bits after a change; it wraps around.
pub open spec fn counter_after(counter: u64, delta: i64) -> u64 {
    if delta >= 0 {
        vstd::wrapping::u64_specs::wrapping_add(counter, delta as u64)
    } else {
        vstd::wrapping::u64_specs::wrapping_sub(counter, (-delta) as u64)
    }
}

impl NodeCacheReservedCapacity {
    pub fn new() -> (r: Self)
        ensures
            r.total_bytes == 0,
            r.lease_bound_kv_bytes == 0,
    {
        NodeCacheReservedCapacity { total_bytes: 0, lease_bound_kv_bytes: 0 }
    }

    /// The memory that is kept back after a change.
    pub open spec fn changed(self, reason: ReservedCapacityReason, delta: i64) -> Self {
        NodeCacheReservedCapacity {
            total_bytes: counter_after(self.total_bytes, delta),
            lease_bound_kv_bytes: match reason {
                ReservedCapacityReason::LeaseBoundKv => counter_after(
                    self.lease_bound_kv_bytes,
                    delta,
                ),
            },
        }
    }

    /// Keeps more or less memory back.
    pub fn apply_delta(&mut self, reason: ReservedCapacityReason, delta_bytes: i64)
        requires
            delta_bytes > i64::MIN,
        ensures
            *final(self) == old(self).changed(reason, delta_bytes),
    {
        if delta_bytes >= 0 {
            let delta: u64 = delta_bytes as u64;
            self.total_bytes = self.total_bytes.wrapping_add(delta);
            match reason {
                ReservedCapacityReason::LeaseBoundKv => {
                    self.lease_bound_kv_bytes = self.lease_bound_kv_bytes.wrapping_add(delta);
                },
            }
        } else {
            let delta: u64 = (-delta_bytes) as u64;
            self.total_bytes = self.total_bytes.wrapping_sub(delta);
            match reason {
                ReservedCapacityReason::LeaseBoundKv => {
                    self.lease_bound_kv_bytes = self.lease_bound_kv_bytes.wrapping_sub(delta);
                },
            }
        }
    }

    pub fn total_reserved_bytes(&self) -> (r: u64)
        ensures
            r == self.total_bytes,
    {
        self.total_bytes
    }
}

/// A change and its opposite leave what is kept back as it was.
pub proof fn opposite_delta_restores(
    c: NodeCacheReservedCapacity,
    reason: ReservedCapacityReason,
    delta: i64,
)
    requires
        delta > i64::MIN,
    ensures
        c.changed(reason, delta).changed(reason, (-delta) as i64) == c,
{
}

/// A difference that does not go below zero.
pub open spec fn minus(a: int, b: int) -> int {
    if a > b {
        a - b
    } else {
        0
    }
}

/// What the cache of a node may hold.
pub fn effective_capacity(base_capacity: u64, reserved: u64) -> (r: u64)
    ensures
        r == minus(base_capacity as int, reserved as int),
{
    base_capacity.saturating_sub(reserved)
}

/// Why memory could not be kept back.
#[derive(Clone, Copy, Debug, PartialEq, Eq, Structural)]
pub enum AdjustError {
    /// The node has no memory registered.
    NoSegment,
    /// The node has no cache.
    NoCache,
    /// The cache refused its new capacity.
    CapacityRefused,
}

/// How keeping memory back goes on.
#[derive(Clone, Copy, Debug, PartialEq, Eq, Structural)]
pub enum AdjustStep {
    /// There are no caches; nothing was changed.
    Disabled,
    /// The cache is to be cut down to this capacity.
    Resize { capacity: u64 },
}

/// Memory of a node is kept back, or nothing changes.
pub open spec fn capacity_adjusted(
    before: NodeCacheReservedCapacity,
    cache_enabled: bool,
    node_space_size: u64,
    base_capacity: u64,
    cache_found: bool,
    reason: ReservedCapacityReason,
    delta_bytes: i64,
    r: Result<AdjustStep, AdjustError>,
    after: NodeCacheReservedCapacity,
) -> bool {
    match r {
        Ok(AdjustStep::Disabled) => !cache_enabled && after == before,
        Ok(AdjustStep::Resize { capacity }) => {
            &&& cache_enabled && node_space_size != 0 && cache_found
            &&& after == before.changed(reason, delta_bytes)
            &&& capacity == minus(base_capacity as int, after.total_bytes as int)
        },
        Err(e) => {
            &&& cache_enabled
            &&& after == before
            &&& e == if node_space_size == 0 {
                AdjustError::NoSegment
            } else {
                AdjustError::NoCache
            }
            &&& node_space_size == 0 || !cache_found
        },
    }
}

/// Keeps memory of a node back and computes the capacity that is left to its cache. Where the node
/// has no memory or no cache nothing is kept back.
pub fn adjust_node_cache_reserved_capacity(
    reserved: &mut NodeCacheReservedCapacity,
    cache_enabled: bool,
    node_space_size: u64,
    base_capacity: u64,
    cache_found: bool,
    reason: ReservedCapacityReason,
    delta_bytes: i64,
) -> (r: Result<AdjustStep, AdjustError>)
    requires
        delta_bytes > i64::MIN,
    ensures
        capacity_adjusted(
            *old(reserved),
            cache_enabled,
            node_space_size,
            base_capacity,
            cache_found,
            reason,
            delta_bytes,
            r,
            *final(reserved),
        ),
{
    if !cache_enabled {
        return Ok(AdjustStep::Disabled);
    }
    let ghost before = *reserved;
    reserved.apply_delta(reason, delta_bytes);
    let reserved_total: u64 = reserved.total_reserved_bytes();
    proof {
        opposite_delta_restores(before, reason, delta_bytes);
    }
    if node_space_size == 0 {
        reserved.apply_delta(reason, -delta_bytes);
        return Err(AdjustError::NoSegment);
    }
    let capacity: u64 = effective_capacity(base_capacity, reserved_total);
    if !cache_found {
        reserved.apply_delta(reason, -delta_bytes);
        return Err(AdjustError::NoCache);
    }
    Ok(AdjustStep::Resize { capacity })
}

/// The capacity of the first tier.
pub open spec fn tier1_share(tier1_base: Option<u64>, capacity: u64) -> u64 {
    match tier1_base {
        Some(base) => if base < capacity {
            base
        } else {
            capacity
        },
        None => 0,
    }
}

/// The first tier is as large as it may be, and no larger than the cache; without a share it is empty.
pub proof fn the_first_tier_is_part_of_the_cache(base: u64, capacity: u64, other: u64)
    ensures
        tier1_share(Some(base), capacity) <= capacity,
        tier1_share(Some(base), capacity) <= base,
        other <= base && other <= capacity ==> other <= tier1_share(Some(base), capacity),
        tier1_share(None, capacity) == 0,
{
}

/// The capacity of the first tier, which never exceeds that of the whole cache.
pub fn tier1_capacity(tier1_base: Option<u64>, capacity: u64) -> (r: u64)
    ensures
        r <= capacity,
        r == tier1_share(tier1_base, capacity),
{
    let base: u64 = match tier1_base {
        Some(base) => base,
        None => 0,
    };
    if base < capacity {
        base
    } else {
        capacity
    }
}

/// Undoes keeping memory back, after the cache refused its new capacity.
pub fn capacity_refused(
    reserved: &mut NodeCacheReservedCapacity,
    reason: ReservedCapacityReason,
    delta_bytes: i64,
) -> (r: AdjustError)
    requires
        delta_bytes > i64::MIN,
    ensures
        r == AdjustError::CapacityRefused,
        *final(reserved) == old(reserved).changed(reason, (-delta_bytes) as i64),
        forall|c: NodeCacheReservedCapacity| #[trigger]
            c.changed(reason, delta_bytes) == *old(reserved) ==> *final(reserved) == c,
{
    let ghost before = *reserved;
    reserved.apply_delta(reason, -delta_bytes);
    proof {
        assert forall|c: NodeCacheReservedCapacity| #[trigger]
            c.changed(reason, delta_bytes) == before implies *reserved == c by {
            opposite_delta_restores(c, reason, delta_bytes);
        }
    }
    AdjustError::CapacityRefused
}

/// A number of bytes, cut off at the largest that fits.
pub open spec fn capped(bytes: int) -> int {
    if bytes > u64::MAX {
        u64::MAX as int
    } else {
        bytes
    }
}

/// The weight of a cache after some entries were replaced by others, as far as it can be counted.
pub open spec fn projected_of(current: int, replaced: int, incoming: int) -> int {
    capped(minus(current, replaced) + incoming)
}

/// The weight that must go for a cache to keep to its capacity.
pub open spec fn requested_of(projected: int, capacity: int) -> int {
    minus(projected, capacity)
}

/// The weight that must go besides what can be brought back.
pub open spec fn fallback_of(requested: int, recoverable_selected: int, allowed: bool) -> int {
    if allowed {
        minus(requested, recoverable_selected)
    } else {
        0
    }
}

/// The weight of a cache after some entries were replaced by others.
pub fn projected_weight(current_weight: u64, replaced_weight: u64, incoming_weight: u64) -> (r: u64)
    ensures
        r == projected_of(current_weight as int, replaced_weight as int, incoming_weight as int),
{
    current_weight.saturating_sub(replaced_weight).saturating_add(incoming_weight)
}

/// The weight that must go for a cache to keep to its capacity.
pub fn requested_weight(projected_weight: u64, capacity: u64) -> (r: u64)
    ensures
        r == requested_of(projected_weight as int, capacity as int),
{
    projected_weight.saturating_sub(capacity)
}

/// The weight that must go besides what can be brought back: none where that is not allowed.
pub fn fallback_weight(requested: u64, recoverable_selected: u64, allowed: bool) -> (r: u64)
    ensures
        r == fallback_of(requested as int, recoverable_selected as int, allowed),
{
    if allowed {
        requested.saturating_sub(recoverable_selected)
    } else {
        0
    }
}

/// A cache keeps to its capacity if everything that was asked for goes.
pub proof fn eviction_meets_the_capacity(projected: int, capacity: int, selected: int)
    requires
        0 <= projected,
        0 <= capacity,
        selected >= minus(projected, capacity),
    ensures
        projected - selected <= capacity,
{
}

/// What happened to the reclaim of copies of one owner. The counters wrap around.
#[derive(Clone, Copy, Debug, PartialEq, Eq, Structural)]
pub struct EvictionReclaimCounters {
    pub master_activity_deferred: u64,
    pub master_get_holder_observed: u64,
    pub owner_holder_deferred: u64,
    pub owner_other_deferred: u64,
    pub route_changed: u64,
    pub retry_queued: u64,
    pub retry_completed: u64,
    pub retry_restored: u64,
    pub completed: u64,
    pub owner_hot_demotion_attempts: u64,
    pub owner_hot_demotion_cohorts: u64,
    pub owner_hot_demotion_selected_bytes: u64,
    pub owner_hot_demotion_precheck_rejected: u64,
    pub owner_hot_demotion_partial_mismatch: u64,
    pub recoverable_first_requested_bytes: u64,
    pub recoverable_first_selected_bytes: u64,
    pub recoverable_first_shortfall_bytes: u64,
    pub recoverable_first_eligible_checks: u64,
    pub recoverable_first_route_absent_checks: u64,
    pub recoverable_first_version_changed_checks: u64,
    pub recoverable_first_route_ineligible_checks: u64,
    pub recoverable_first_cpu_route_absent_checks: u64,
    pub recoverable_first_atomic_group_incomplete_checks: u64,
    pub recoverable_first_tp_cohort_incomplete_checks: u64,
}

/// A counter after `n` more.
pub open spec fn plus(counter: u64, n: u64) -> u64 {
    vstd::wrapping::u64_specs::wrapping_add(counter, n)
}

impl EvictionReclaimCounters {
    pub open spec fn zero() -> Self {
        EvictionReclaimCounters {
            master_activity_deferred: 0,
            master_get_holder_observed: 0,
            owner_holder_deferred: 0,
            owner_other_deferred: 0,
            route_changed: 0,
            retry_queued: 0,
            retry_completed: 0,
            retry_restored: 0,
            completed: 0,
            owner_hot_demotion_attempts: 0,
            owner_hot_demotion_cohorts: 0,
            owner_hot_demotion_selected_bytes: 0,
            owner_hot_demotion_precheck_rejected: 0,
            owner_hot_demotion_partial_mismatch: 0,
            recoverable_first_requested_bytes: 0,
            recoverable_first_selected_bytes: 0,
            recoverable_first_shortfall_bytes: 0,
            recoverable_first_eligible_checks: 0,
            recoverable_first_route_absent_checks: 0,
            recoverable_first_version_changed_checks: 0,
            recoverable_first_route_ineligible_checks: 0,
            recoverable_first_cpu_route_absent_checks: 0,
            recoverable_first_atomic_group_incomplete_checks: 0,
            recoverable_first_tp_cohort_incomplete_checks: 0,
        }
    }

    pub fn new() -> (r: Self)
        ensures
            r == Self::zero(),
    {
        EvictionReclaimCounters {
            master_activity_deferred: 0,
            master_get_holder_observed: 0,
            owner_holder_deferred: 0,
            owner_other_deferred: 0,
            route_changed: 0,
            retry_queued: 0,
            retry_completed: 0,
            retry_restored: 0,
            completed: 0,
            owner_hot_demotion_attempts: 0,
            owner_hot_demotion_cohorts: 0,
            owner_hot_demotion_selected_bytes: 0,
            owner_hot_demotion_precheck_rejected: 0,
            owner_hot_demotion_partial_mismatch: 0,
            recoverable_first_requested_bytes: 0,
            recoverable_first_selected_bytes: 0,
            recoverable_first_shortfall_bytes: 0,
            recoverable_first_eligible_checks: 0,
            recoverable_first_route_absent_checks: 0,
            recoverable_first_version_changed_checks: 0,
            recoverable_first_route_ineligible_checks: 0,
            recoverable_first_cpu_route_absent_checks: 0,
            recoverable_first_atomic_group_incomplete_checks: 0,
            recoverable_first_tp_cohort_incomplete_checks: 0,
        }
    }

    /// The counters after a copy was judged.
    pub open spec fn judged(self, status: RecoverableReplicaStatus) -> Self {
        match status {
            RecoverableReplicaStatus::Recoverable => EvictionReclaimCounters {
                recoverable_first_eligible_checks: plus(self.recoverable_first_eligible_checks, 1),
                ..self
            },
            RecoverableReplicaStatus::RouteAbsent => EvictionReclaimCounters {
                recoverable_first_route_absent_checks: plus(
                    self.recoverable_first_route_absent_checks,
                    1,
                ),
                ..self
            },
            RecoverableReplicaStatus::VersionChanged => EvictionReclaimCounters {
                recoverable_first_version_changed_checks: plus(
                    self.recoverable_first_version_changed_checks,
                    1,
                ),
                ..self
            },
            RecoverableReplicaStatus::RouteIneligible => EvictionReclaimCounters {
                recoverable_first_route_ineligible_checks: plus(
                    self.recoverable_first_route_ineligible_checks,
                    1,
                ),
                ..self
            },
            RecoverableReplicaStatus::CpuRouteAbsent => EvictionReclaimCounters {
                recoverable_first_cpu_route_absent_checks: plus(
                    self.recoverable_first_cpu_route_absent_checks,
                    1,
                ),
                ..self
            },
            RecoverableReplicaStatus::AtomicGroupIncomplete => EvictionReclaimCounters {
                recoverable_first_atomic_group_incomplete_checks: plus(
                    self.recoverable_first_atomic_group_incomplete_checks,
                    1,
                ),
                ..self
            },
            RecoverableReplicaStatus::TpCohortIncomplete => EvictionReclaimCounters {
                recoverable_first_tp_cohort_incomplete_checks: plus(
                    self.recoverable_first_tp_cohort_incomplete_checks,
                    1,
                ),
                ..self
            },
        }
    }

    /// The counters after an eviction of recoverable copies.
    pub open spec fn evicted(self, requested: u64, selected: u64) -> Self {
        EvictionReclaimCounters {
            recoverable_first_requested_bytes: plus(
                self.recoverable_first_requested_bytes,
                requested,
            ),
            recoverable_first_selected_bytes: plus(self.recoverable_first_selected_bytes, selected),
            recoverable_first_shortfall_bytes: plus(
                self.recoverable_first_shortfall_bytes,
                minus(requested as int, selected as int) as u64,
            ),
            ..self
        }
    }

    /// How many copies were found with a status.
    pub open spec fn found_with(self, status: RecoverableReplicaStatus) -> u64 {
        match status {
            RecoverableReplicaStatus::Recoverable => self.recoverable_first_eligible_checks,
            RecoverableReplicaStatus::RouteAbsent => self.recoverable_first_route_absent_checks,
            RecoverableReplicaStatus::VersionChanged => self.recoverable_first_version_changed_checks,
            RecoverableReplicaStatus::RouteIneligible => self.recoverable_first_route_ineligible_checks,
            RecoverableReplicaStatus::CpuRouteAbsent => self.recoverable_first_cpu_route_absent_checks,
            RecoverableReplicaStatus::AtomicGroupIncomplete => {
                self.recoverable_first_atomic_group_incomplete_checks
            },
            RecoverableReplicaStatus::TpCohortIncomplete => {
                self.recoverable_first_tp_cohort_incomplete_checks
            },
        }
    }

    /// A judgement counts once, under its status and under no other.
    pub proof fn a_judgement_counts_under_its_status(
        self,
        status: RecoverableReplicaStatus,
        other: RecoverableReplicaStatus,
    )
        requires
            self.found_with(status) < u64::MAX,
        ensures
            self.judged(status).found_with(status) == self.found_with(status) + 1,
            other != status ==> self.judged(status).found_with(other) == self.found_with(other),
            self.judged(status).completed == self.completed,
            self.judged(status).recoverable_first_selected_bytes
                == self.recoverable_first_selected_bytes,
    {
    }

    /// What is asked for is either selected or missing.
    pub proof fn what_is_not_selected_is_missing(self, requested: u64, selected: u64)
        requires
            self.recoverable_first_requested_bytes + requested <= u64::MAX,
            self.recoverable_first_selected_bytes + selected <= u64::MAX,
            self.recoverable_first_shortfall_bytes + requested <= u64::MAX,
        ensures
            ({
                let after = self.evicted(requested, selected);
                let missing = after.recoverable_first_shortfall_bytes
                    - self.recoverable_first_shortfall_bytes;
                &&& after.recoverable_first_requested_bytes - self.recoverable_first_requested_bytes
                    == requested
                &&& after.recoverable_first_selected_bytes - self.recoverable_first_selected_bytes
                    == selected
                &&& selected <= requested ==> missing + selected == requested
                &&& selected > requested ==> missing == 0
            }),
    {
    }

    /// Counts the judgement of a copy under its status.
    pub fn record_recoverable_first_status(&mut self, status: RecoverableReplicaStatus)
        ensures
            *final(self) == old(self).judged(status),
    {
        match status {
            RecoverableReplicaStatus::Recoverable => {
                self.recoverable_first_eligible_checks = self.recoverable_first_eligible_checks.wrapping_add(
                1);
            },
            RecoverableReplicaStatus::RouteAbsent => {
                self.recoverable_first_route_absent_checks = self.recoverable_first_route_absent_checks.wrapping_add(
                1);
            },
            RecoverableReplicaStatus::VersionChanged => {
                self.recoverable_first_version_changed_checks = self.recoverable_first_version_changed_checks.wrapping_add(
                1);
            },
            RecoverableReplicaStatus::RouteIneligible => {
                self.recoverable_first_route_ineligible_checks = self.recoverable_first_route_ineligible_checks.wrapping_add(
                1);
            },
            RecoverableReplicaStatus::CpuRouteAbsent => {
                self.recoverable_first_cpu_route_absent_checks = self.recoverable_first_cpu_route_absent_checks.wrapping_add(
                1);
            },
            RecoverableReplicaStatus::AtomicGroupIncomplete => {
                self.recoverable_first_atomic_group_incomplete_checks = self.recoverable_first_atomic_group_incomplete_checks.wrapping_add(
                1);
            },
            RecoverableReplicaStatus::TpCohortIncomplete => {
                self.recoverable_first_tp_cohort_incomplete_checks = self.recoverable_first_tp_cohort_incomplete_checks.wrapping_add(
                1);
            },
        }
    }

    /// Counts what an eviction of recoverable copies asked for and got.
    pub fn record_recoverable_first_eviction(&mut self, requested: u64, selected: u64)
        ensures
            *final(self) == old(self).evicted(requested, selected),
    {
        self.recoverable_first_requested_bytes = self.recoverable_first_requested_bytes.wrapping_add(
        requested);
        self.recoverable_first_selected_bytes = self.recoverable_first_selected_bytes.wrapping_add(
        selected);
        let shortfall: u64 = requested.saturating_sub(selected);
        self.recoverable_first_shortfall_bytes = self.recoverable_first_shortfall_bytes.wrapping_add(
        shortfall);
    }
}

/// The entry of a cache stands for a copy that is alive, unleased and of the current version.
pub open spec fn entry_current(
    routes: Routes,
    owner: Seq<char>,
    key: Seq<char>,
    put_id: PutIDForAKey,
) -> bool {
    &&& routes.contains_key(key)
    &&& routes[key].put_id == put_id
    &&& routes[key].lease_id is None
    &&& routes[key].live_on(owner)
}

/// Whether the entry of a cache still stands for a copy.
pub fn eviction_cache_entry_is_current(
    routes: &KeyTable<OneKvNodesRoutes>,
    owner_node_id: &String,
    key: &str,
    desc: &NodeValueReplicaDesc,
) -> (r: bool)
    requires
        routes.wf(),
        routes_wf(routes@),
    ensures
        r == entry_current(routes@, owner_node_id@, key@, desc.put_id),
{
    match routes.get(key) {
        Some(route) => route.put_id.0 == desc.put_id.0 && route.put_id.1 == desc.put_id.1
            && route.lease_id.is_none() && route.has_live_replica_on_node(owner_node_id),
        None => false,
    }
}

/// `status` tells whether the copy behind the entry of a cache can be brought back.
pub open spec fn entry_status(
    routes: Routes,
    remote: Set<Seq<char>>,
    owner: Seq<char>,
    key: Seq<char>,
    put_id: PutIDForAKey,
    status: RecoverableReplicaStatus,
) -> bool {
    if routes.contains_key(key) {
        has_status(owner, key, routes[key], put_id, routes, remote, status)
    } else {
        status == RecoverableReplicaStatus::RouteAbsent
    }
}

/// Whether the copy behind the entry of a cache can be brought back.
pub fn eviction_cache_entry_recoverable_status(
    routes: &KeyTable<OneKvNodesRoutes>,
    remote: &NameSet,
    owner_node_id: &String,
    key: &String,
    desc: &NodeValueReplicaDesc,
) -> (r: RecoverableReplicaStatus)
    requires
        routes.wf(),
        routes_wf(routes@),
    ensures
        entry_status(routes@, remote@, owner_node_id@, key@, desc.put_id, r),
{
    match routes.get(key.as_str()) {
        Some(route) => route_recoverable_replica_status_with(
            owner_node_id,
            key,
            route,
            desc,
            routes,
            remote,
        ),
        None => RecoverableReplicaStatus::RouteAbsent,
    }
}

/// An entry may be dropped first, or not, and how that was counted.
pub open spec fn evicts_first_is(
    routes: Routes,
    remote: Set<Seq<char>>,
    owner: Seq<char>,
    key: Seq<char>,
    put_id: PutIDForAKey,
    excluded: Set<Seq<char>>,
    before: EvictionReclaimCounters,
    r: bool,
    after: EvictionReclaimCounters,
) -> bool {
    if excluded.contains(key) {
        !r && after == before
    } else {
        exists|status: RecoverableReplicaStatus|
            {
                &&& #[trigger] entry_status(routes, remote, owner, key, put_id, status)
                &&& after == before.judged(status)
                &&& r == (status == RecoverableReplicaStatus::Recoverable)
            }
    }
}

/// Whether a cache may drop an entry first, because the copy can be brought back. Entries that are
/// just coming in are left alone.
pub fn evicts_first(
    routes: &KeyTable<OneKvNodesRoutes>,
    remote: &NameSet,
    owner_node_id: &String,
    key: &String,
    desc: &NodeValueReplicaDesc,
    excluded_keys: &NameSet,
    counters: &mut EvictionReclaimCounters,
) -> (r: bool)
    requires
        routes.wf(),
        routes_wf(routes@),
    ensures
        evicts_first_is(
            routes@,
            remote@,
            owner_node_id@,
            key@,
            desc.put_id,
            excluded_keys@,
            *old(counters),
            r,
            *final(counters),
        ),
{
    if excluded_keys.contains(key) {
        return false;
    }
    let status = eviction_cache_entry_recoverable_status(routes, remote, owner_node_id, key, desc);
    counters.record_recoverable_first_status(status);
    matches!(status, RecoverableReplicaStatus::Recoverable)
}

/// A copy is the only live one of its version, unleased, and not being copied already.
pub open spec fn sole_copy(
    routes: Routes,
    source: Seq<char>,
    key: Seq<char>,
    put_id: PutIDForAKey,
    copy_inflight: bool,
) -> bool {
    &&& !copy_inflight
    &&& routes.contains_key(key)
    &&& routes[key].put_id == put_id
    &&& routes[key].lease_id is None
    &&& exists|n: Seq<char>| #[trigger]
        routes[key].nodes_replicas@.contains_key(n) && routes[key].nodes_replicas@[n].node_id@
            == source && !routes[key].nodes_replicas@[n].tomb_tag.tomb
    &&& forall|n: Seq<char>| #[trigger]
        routes[key].nodes_replicas@.contains_key(n) ==> routes[key].nodes_replicas@[n].tomb_tag.tomb
            || routes[key].nodes_replicas@[n].node_id@ == source
}

/// Whether a copy that left the first tier still has to be copied to the remote tier.
pub fn tier1_writeback_entry_is_current(
    routes: &KeyTable<OneKvNodesRoutes>,
    copy_inflight: bool,
    source_node_id: &String,
    key: &str,
    desc: &NodeValueReplicaDesc,
) -> (r: bool)
    requires
        routes.wf(),
        routes_wf(routes@),
    ensures
        r == sole_copy(routes@, source_node_id@, key@, desc.put_id, copy_inflight),
{
    if copy_inflight {
        return false;
    }
    let route = match routes.get(key) {
        Some(route) => route,
        None => {
            return false;
        },
    };
    if route.put_id.0 != desc.put_id.0 || route.put_id.1 != desc.put_id.1
        || route.lease_id.is_some() {
        return false;
    }
    let ghost replicas = route.nodes_replicas@;
    let mut here = false;
    let mut i: usize = 0;
    while i < route.nodes_replicas.len()
        invariant
            route.wf(),
            replicas == route.nodes_replicas@,
            i <= route.nodes_replicas.rows().len(),
            forall|j: int|
                0 <= j < i ==> (#[trigger] route.nodes_replicas.rows()[j]).1.tomb_tag.tomb
                    || route.nodes_replicas.rows()[j].1.node_id@ == source_node_id@,
            here ==> exists|n: Seq<char>| #[trigger]
                replicas.contains_key(n) && replicas[n].node_id@ == source_node_id@
                    && !replicas[n].tomb_tag.tomb,
            !here ==> forall|j: int|
                0 <= j < i ==> (#[trigger] route.nodes_replicas.rows()[j]).1.tomb_tag.tomb,
            routes@.contains_key(key@),
            routes@[key@] == *route,
        decreases route.nodes_replicas.rows().len() - i,
    {
        let row = route.nodes_replicas.row(i);
        if !row.1.tomb_tag.is_tomb() {
            if row.1.node_id != *source_node_id {
                assert(replicas.contains_key(row.0@));
                return false;
            }
            assert(replicas.contains_key(row.0@));
            here = true;
        }
        i += 1;
    }
    proof {
        route.nodes_replicas.lemma_rows();
        assert forall|n: Seq<char>| #[trigger] replicas.contains_key(n) implies replicas[n].tomb_tag.tomb
            || replicas[n].node_id@ == source_node_id@ by {
            let j = lemma_map_has_row(route.nodes_replicas.rows(), n);
        }
        if !here {
            assert forall|n: Seq<char>| #[trigger]
                replicas.contains_key(n) implies replicas[n].tomb_tag.tomb by {
                let j = lemma_map_has_row(route.nodes_replicas.rows(), n);
            }
        }
    }
    here
}

/// The weight of each owner that waits to be reclaimed.
pub struct PendingReclaimWeights {
    by_owner: KeyTable<u64>,
}

impl View for PendingReclaimWeights {
    type V = Map<Seq<char>, u64>;

    closed spec fn view(&self) -> Map<Seq<char>, u64> {
        self.by_owner@
    }
}

/// The weight of an owner that waits.
pub open spec fn pending_of(m: Map<Seq<char>, u64>, owner: Seq<char>) -> u64 {
    if m.contains_key(owner) {
        m[owner]
    } else {
        0
    }
}

/// What waits after more was queued for an owner.
pub open spec fn weight_queued(m: Map<Seq<char>, u64>, owner: Seq<char>, weight: u32) -> Map<
    Seq<char>,
    u64,
> {
    m.insert(owner, (pending_of(m, owner) + weight) as u64)
}

/// What waits after some of it was done with.
pub open spec fn weight_done(m: Map<Seq<char>, u64>, owner: Seq<char>, weight: u64) -> Map<
    Seq<char>,
    u64,
> {
    if weight == 0 {
        m
    } else {
        m.insert(owner, (pending_of(m, owner) - weight) as u64)
    }
}

/// What is queued for an owner waits until it is done with, and the weights of other owners stay.
pub proof fn what_is_queued_waits_until_it_is_done(
    m: Map<Seq<char>, u64>,
    owner: Seq<char>,
    weight: u32,
    done: u64,
    other: Seq<char>,
)
    requires
        pending_of(m, owner) + weight <= u64::MAX,
        done <= pending_of(m, owner) + weight,
    ensures
        ({
            let queued = weight_queued(m, owner, weight);
            &&& pending_of(queued, owner) == pending_of(m, owner) + weight
            &&& pending_of(weight_done(queued, owner, done), owner) == pending_of(m, owner) + weight
                - done
            &&& other != owner ==> pending_of(queued, other) == pending_of(m, other)
            &&& other != owner ==> pending_of(weight_done(queued, owner, done), other)
                == pending_of(m, other)
        }),
{
}

impl PendingReclaimWeights {
    pub closed spec fn wf(&self) -> bool {
        self.by_owner.wf()
    }

    pub fn new() -> (r: Self)
        ensures
            r.wf(),
            r@ == Map::<Seq<char>, u64>::empty(),
    {
        PendingReclaimWeights { by_owner: KeyTable::new() }
    }

    pub fn eviction_reclaim_pending_weight(&self, owner_node_id: &str) -> (r: u64)
        requires
            self.wf(),
        ensures
            r == pending_of(self@, owner_node_id@),
    {
        match self.by_owner.get(owner_node_id) {
            Some(weight) => *weight,
            None => 0,
        }
    }

    /// A copy was queued to be reclaimed.
    pub fn enqueued(&mut self, owner_node_id: &String, weight_bytes: u32)
        requires
            old(self).wf(),
            pending_of(old(self)@, owner_node_id@) + weight_bytes <= u64::MAX,
        ensures
            final(self).wf(),
            final(self)@ == weight_queued(old(self)@, owner_node_id@, weight_bytes),
    {
        let before: u64 = self.eviction_reclaim_pending_weight(owner_node_id.as_str());
        self.by_owner.insert(owner_node_id.clone(), before + weight_bytes as u64);
    }

    /// A copy that a cache has dropped is to be reclaimed. If the queue does not take it, it does not
    /// wait, and is to go back into the cache; that is the result.
    pub fn enqueue_eviction_reclaim(
        &mut self,
        owner_node_id: &String,
        weight_bytes: u32,
        queued: bool,
    ) -> (restore: bool)
        requires
            old(self).wf(),
            pending_of(old(self)@, owner_node_id@) + weight_bytes <= u64::MAX,
        ensures
            final(self).wf(),
            restore == !queued,
            forall|owner: Seq<char>| #[trigger]
                pending_of(final(self)@, owner) == pending_of(old(self)@, owner) + if queued
                    && owner == owner_node_id@ {
                    weight_bytes as int
                } else {
                    0
                },
    {
        self.enqueued(owner_node_id, weight_bytes);
        if !queued {
            self.complete_eviction_reclaim_weight(owner_node_id, weight_bytes as u64);
        }
        !queued
    }

    /// Copies need not be reclaimed any more, or have been.
    pub fn complete_eviction_reclaim_weight(
        &mut self,
        owner_node_id: &String,
        completed_weight: u64,
    )
        requires
            old(self).wf(),
            completed_weight <= pending_of(old(self)@, owner_node_id@),
        ensures
            final(self).wf(),
            final(self)@ == weight_done(old(self)@, owner_node_id@, completed_weight),
    {
        if completed_weight == 0 {
            return ;
        }
        let mut weight: u64 = self.eviction_reclaim_pending_weight(owner_node_id.as_str());
        subtract_pending_eviction_weight(&mut weight, completed_weight);
        self.by_owner.insert(owner_node_id.clone(), weight);
    }
}

/// Finishing one of two queued copies leaves exactly the other.
pub proof fn completing_leaves_what_was_queued_since(
    m: Map<Seq<char>, u64>,
    owner: Seq<char>,
    first: u32,
    second: u32,
)
    requires
        pending_of(m, owner) + first + second <= u64::MAX,
    ensures
        ({
            let a = weight_queued(m, owner, first);
            let b = weight_queued(a, owner, second);
            let c = weight_done(b, owner, first as u64);
            pending_of(c, owner) == pending_of(m, owner) + second
        }),
{
}

} // verus!
