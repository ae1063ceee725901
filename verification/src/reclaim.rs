//! Taking copies back from their owners.
//!
//! The master fences a key, asks the owner to prepare and to commit, removes the copy from the route
//! and only then lets the owner finish. A copy that the owner does not know of is removed by the
//! master alone.
use vstd::arithmetic::power2::{lemma2_to64, lemma_pow2_strictly_increases, pow2};
use vstd::prelude::*;

use crate::cache_policy::{
    eviction_cache_entry_is_current, plus, EvictionReclaimCounters, PendingReclaimWeights,
};
use crate::ids::PutIDForAKey;
use crate::key_activity::{
    activity_of, with_activity, ActivityMap, ActivityModel, ItemId, MasterKeyActivityTable,
    OwnerReclaimBacking, OwnerReclaimItem, OwnerReclaimReason,
};
use crate::key_table::KeyTable;
use crate::name_set::NameSet;
use crate::recoverability::{
    has_status, route_recoverable_replica_status_with, routes_wf, status_is_unique,
    RecoverableReplicaStatus, Routes,
};
use crate::routes::{KvReplicaBacking, KvRouteInfo, NodeValueReplicaDesc, OneKvNodesRoutes};
use crate::text::str_eq;

verus! {

/// The most copies that are taken back at a time.
pub const OWNER_RECLAIM_MAX_BATCH: usize = 256;

/// Milliseconds until a copy is tried again.
pub const EVICTION_RECLAIM_RETRY_INITIAL_MS: u64 = 100;

/// The most milliseconds between two tries.
pub const EVICTION_RECLAIM_RETRY_MAX_MS: u64 = 1000;

/// The number of tries after which a copy goes back into the cache.
pub const EVICTION_RECLAIM_MAX_RETRY_COUNT: u32 = 5;

/// Whether a copy was tried often enough to go back into the cache.
pub fn should_restore_after_retry(retry_count: u32) -> (r: bool)
    ensures
        r == (retry_count >= EVICTION_RECLAIM_MAX_RETRY_COUNT),
{
    retry_count >= EVICTION_RECLAIM_MAX_RETRY_COUNT
}

/// The delay before a try: twice as long each time, up to the limit.
pub open spec fn retry_delay_ms(retry_count: int) -> int {
    let steps = if retry_count <= 1 {
        0
    } else {
        retry_count - 1
    };
    let delay = EVICTION_RECLAIM_RETRY_INITIAL_MS * pow2(
        if steps < 16 {
            steps as nat
        } else {
            16
        },
    );
    if delay < EVICTION_RECLAIM_RETRY_MAX_MS {
        delay
    } else {
        EVICTION_RECLAIM_RETRY_MAX_MS as int
    }
}

/// Milliseconds until the next try of a copy.
pub fn eviction_reclaim_retry_delay(retry_count: u32) -> (r: u64)
    ensures
        r == retry_delay_ms(retry_count as int),
{
    proof {
        lemma2_to64();
    }
    let steps: u32 = if retry_count == 0 {
        0
    } else {
        retry_count - 1
    };
    if steps == 0 {
        EVICTION_RECLAIM_RETRY_INITIAL_MS
    } else if steps == 1 {
        2 * EVICTION_RECLAIM_RETRY_INITIAL_MS
    } else if steps == 2 {
        4 * EVICTION_RECLAIM_RETRY_INITIAL_MS
    } else if steps == 3 {
        8 * EVICTION_RECLAIM_RETRY_INITIAL_MS
    } else {
        proof {
            let k: nat = if steps < 16 {
                steps as nat
            } else {
                16
            };
            if k > 4 {
                lemma_pow2_strictly_increases(4, k);
            }
        }
        EVICTION_RECLAIM_RETRY_MAX_MS
    }
}

/// What an owner is asked to do.
#[derive(Clone, Copy, Debug, PartialEq, Eq, Structural)]
pub enum OwnerReclaimPhase {
    Prepare,
    Commit,
    Abort,
    Finalize,
}

/// What an owner has done.
#[derive(Clone, Copy, Debug, PartialEq, Eq, Structural)]
pub enum OwnerReclaimItemState {
    Prepared,
    Committed,
    Aborted,
    Finalized,
    Stale,
    Busy,
    Failed,
}

/// The owner's answer for one copy.
#[derive(Debug)]
pub struct OwnerReclaimItemResp {
    pub key: String,
    pub epoch: u64,
    pub state: OwnerReclaimItemState,
    /// What kept the owner from doing it.
    pub detail: String,
}

/// What the cache of an owner may drop although it cannot be brought back.
#[derive(Clone, Copy, Debug, PartialEq, Eq, Structural)]
pub struct EvictionRights {
    /// To keep to its capacity.
    pub normal: bool,
    /// To make room for slots.
    pub reserve_pressure: bool,
}

/// What a copy that is to be reclaimed lies in, if it may be reclaimed that way.
pub open spec fn backing_of(
    info: KvRouteInfo,
    owner: Seq<char>,
    required_slot_size: Option<u64>,
) -> Option<OwnerReclaimBacking> {
    match info.backing {
        KvReplicaBacking::Allocation(_) => if required_slot_size is None {
            if info.owner_local_indexed {
                Some(OwnerReclaimBacking::Allocation)
            } else {
                Some(OwnerReclaimBacking::UnindexedAllocation)
            }
        } else {
            None
        },
        KvReplicaBacking::CommittedSlot(slot) => if slot.owner_node_id@ == owner && (
        required_slot_size matches Some(size) ==> slot.slot_size == size) {
            Some(
                OwnerReclaimBacking::CommittedSlot {
                    grant_id: slot.grant_id,
                    slot_index: slot.slot_index,
                    slot_size: slot.slot_size,
                },
            )
        } else {
            None
        },
    }
}

/// Another node has the value, and losing this copy is allowed or can be undone.
pub open spec fn normally_recoverable(
    routes: Routes,
    remote: Set<Seq<char>>,
    owner: Seq<char>,
    key: Seq<char>,
    rights: EvictionRights,
) -> bool {
    &&& routes[key].live_elsewhere(owner)
    &&& rights.normal || has_status(
        owner,
        key,
        routes[key],
        routes[key].put_id,
        routes,
        remote,
        RecoverableReplicaStatus::Recoverable,
    )
}

/// What the copy of a key on its owner lies in, if the copy may be reclaimed.
pub open spec fn reclaimable(
    routes: Routes,
    remote: Set<Seq<char>>,
    owner: Seq<char>,
    key: Seq<char>,
    expected_put_id: Option<PutIDForAKey>,
    required_slot_size: Option<u64>,
    reason: OwnerReclaimReason,
    rights: EvictionRights,
) -> Option<OwnerReclaimBacking> {
    if !routes.contains_key(key) {
        None
    } else {
        let route = routes[key];
        if (expected_put_id matches Some(id) && id != route.put_id) || route.lease_id is Some
            || !route.live_on(owner) {
            None
        } else if reason == OwnerReclaimReason::Reserve && !normally_recoverable(
            routes,
            remote,
            owner,
            key,
            rights,
        ) && !rights.reserve_pressure {
            None
        } else {
            backing_of(route.nodes_replicas@[owner], owner, required_slot_size)
        }
    }
}

/// The copy of a key on its owner is offered for reclaiming, or not.
pub open spec fn item_offered(
    routes: Routes,
    remote: Set<Seq<char>>,
    owner: Seq<char>,
    key: Seq<char>,
    expected_put_id: Option<PutIDForAKey>,
    required_slot_size: Option<u64>,
    reason: OwnerReclaimReason,
    epoch: u64,
    rights: EvictionRights,
    r: Option<OwnerReclaimItem>,
) -> bool {
    let found = reclaimable(
        routes,
        remote,
        owner,
        key,
        expected_put_id,
        required_slot_size,
        reason,
        rights,
    );
    match r {
        None => found is None,
        Some(item) => {
            &&& found == Some(item.backing)
            &&& item.key@ == key
            &&& item.put_id == routes[key].put_id
            &&& item.epoch == epoch
            &&& item.reason == reason
        },
    }
}

/// Describes the copy of a key on its owner, if it may be reclaimed.
pub fn route_item(
    routes: &KeyTable<OneKvNodesRoutes>,
    remote: &NameSet,
    owner_node_id: &String,
    key: &String,
    expected_put_id: Option<PutIDForAKey>,
    required_slot_size: Option<u64>,
    reason: OwnerReclaimReason,
    epoch: u64,
    rights: EvictionRights,
) -> (r: Option<OwnerReclaimItem>)
    requires
        routes.wf(),
        routes_wf(routes@),
    ensures
        item_offered(
            routes@,
            remote@,
            owner_node_id@,
            key@,
            expected_put_id,
            required_slot_size,
            reason,
            epoch,
            rights,
            r,
        ),
{
    let route = match routes.get(key.as_str()) {
        Some(route) => route,
        None => {
            return None;
        },
    };
    match expected_put_id {
        Some(id) => {
            if id.0 != route.put_id.0 || id.1 != route.put_id.1 {
                return None;
            }
        },
        None => {},
    }
    if route.lease_id.is_some() {
        return None;
    }
    let target = match route.nodes_replicas.get(owner_node_id) {
        Some(info) => info,
        None => {
            return None;
        },
    };
    if target.tomb_tag.is_tomb() {
        return None;
    }
    let backing = match &target.backing {
        KvReplicaBacking::Allocation(_) => {
            if required_slot_size.is_some() {
                return None;
            }
            if target.owner_local_indexed {
                OwnerReclaimBacking::Allocation
            } else {
                OwnerReclaimBacking::UnindexedAllocation
            }
        },
        KvReplicaBacking::CommittedSlot(slot) => {
            let fits = match required_slot_size {
                Some(size) => slot.slot_size == size,
                None => true,
            };
            if slot.owner_node_id != *owner_node_id || !fits {
                return None;
            }
            OwnerReclaimBacking::CommittedSlot {
                grant_id: slot.grant_id,
                slot_index: slot.slot_index,
                slot_size: slot.slot_size,
            }
        },
    };
    if matches!(reason, OwnerReclaimReason::Reserve) {
        let elsewhere = route.has_other_live_replica(owner_node_id);
        let recoverable = if !elsewhere {
            false
        } else if rights.normal {
            true
        } else {
            let desc = NodeValueReplicaDesc { weight_bytes: 0, put_id: route.put_id };
            let status = route_recoverable_replica_status_with(
                owner_node_id,
                key,
                route,
                &desc,
                routes,
                remote,
            );
            proof {
                if has_status(
                    owner_node_id@,
                    key@,
                    *route,
                    route.put_id,
                    routes@,
                    remote@,
                    RecoverableReplicaStatus::Recoverable,
                ) {
                    status_is_unique(
                        owner_node_id@,
                        key@,
                        *route,
                        route.put_id,
                        routes@,
                        remote@,
                        status,
                        RecoverableReplicaStatus::Recoverable,
                    );
                }
            }
            matches!(status, RecoverableReplicaStatus::Recoverable)
        };
        if !recoverable && !rights.reserve_pressure {
            return None;
        }
    }
    Some(OwnerReclaimItem { key: key.clone(), put_id: route.put_id, epoch, backing, reason })
}

/// The slot size that an item insists on.
pub open spec fn slot_size_of(backing: OwnerReclaimBacking) -> Option<u64> {
    match backing {
        OwnerReclaimBacking::CommittedSlot { slot_size, .. } => Some(slot_size),
        _ => None,
    }
}

/// The key is fenced for the item, and its copy may still be reclaimed as the item says.
pub open spec fn still_valid(
    routes: Routes,
    activity: ActivityMap,
    remote: Set<Seq<char>>,
    owner: Seq<char>,
    item: ItemId,
    rights: EvictionRights,
) -> bool {
    &&& activity_of(activity, item.key).reclaim == Some(item)
    &&& reclaimable(
        routes,
        remote,
        owner,
        item.key,
        Some(item.put_id),
        slot_size_of(item.backing),
        item.reason,
        rights,
    ) == Some(item.backing)
}

/// Whether an item may still be reclaimed.
pub fn item_still_valid(
    routes: &KeyTable<OneKvNodesRoutes>,
    activity: &MasterKeyActivityTable,
    remote: &NameSet,
    owner: &String,
    item: &OwnerReclaimItem,
    rights: EvictionRights,
) -> (r: bool)
    requires
        routes.wf(),
        routes_wf(routes@),
        activity.wf(),
    ensures
        r == still_valid(routes@, activity@, remote@, owner@, item@, rights),
{
    if !activity.reclaim_matches(item) {
        return false;
    }
    let required = match item.backing {
        OwnerReclaimBacking::CommittedSlot { slot_size, .. } => Some(slot_size),
        _ => None,
    };
    match route_item(
        routes,
        remote,
        owner,
        &item.key,
        Some(item.put_id),
        required,
        item.reason,
        item.epoch,
        rights,
    ) {
        Some(current) => current.backing == item.backing,
        None => false,
    }
}

/// What is wrong with the answer of an owner.
#[derive(Clone, Copy, Debug, PartialEq, Eq, Structural)]
pub enum PhaseFault {
    LengthMismatch { expected: usize, got: usize },
    IdentityMismatch { index: usize },
}

/// The answer is about the item.
pub open spec fn answers(item: OwnerReclaimItem, resp: OwnerReclaimItemResp) -> bool {
    item.key@ == resp.key@ && item.epoch == resp.epoch
}

/// All answers are about their items.
pub open spec fn all_answered(
    items: Seq<OwnerReclaimItem>,
    responses: Seq<OwnerReclaimItemResp>,
) -> bool {
    &&& items.len() == responses.len()
    &&& forall|i: int| 0 <= i < items.len() ==> answers(#[trigger] items[i], responses[i])
}

/// The answers of an owner were checked.
pub open spec fn phase_checked(
    items: Seq<OwnerReclaimItem>,
    responses: Seq<OwnerReclaimItemResp>,
    r: Result<(), PhaseFault>,
) -> bool {
    match r {
        Ok(_) => all_answered(items, responses),
        Err(PhaseFault::LengthMismatch { expected, got }) => expected == items.len() && got
            == responses.len() && expected != got,
        Err(PhaseFault::IdentityMismatch { index }) => {
            &&& items.len() == responses.len()
            &&& index < items.len()
            &&& !answers(items[index as int], responses[index as int])
            &&& forall|j: int| 0 <= j < index ==> answers(#[trigger] items[j], responses[j])
        },
    }
}

/// Checks that an owner has answered for each item, in order.
pub fn check_phase_response(
    items: &Vec<OwnerReclaimItem>,
    responses: &Vec<OwnerReclaimItemResp>,
) -> (r: Result<(), PhaseFault>)
    ensures
        phase_checked(items@, responses@, r),
{
    if responses.len() != items.len() {
        return Err(PhaseFault::LengthMismatch { expected: items.len(), got: responses.len() });
    }
    let mut i: usize = 0;
    while i < items.len()
        invariant
            i <= items@.len() == responses@.len(),
            forall|j: int| 0 <= j < i ==> answers(#[trigger] items@[j], responses@[j]),
        decreases items@.len() - i,
    {
        if items[i].key != responses[i].key || items[i].epoch != responses[i].epoch {
            return Err(PhaseFault::IdentityMismatch { index: i });
        }
        i += 1;
    }
    Ok(())
}

/// The identities of items.
pub open spec fn item_ids(items: Seq<OwnerReclaimItem>) -> Seq<ItemId> {
    Seq::new(items.len(), |i: int| items[i]@)
}

/// The activity after the fence of an item is taken away, if it is this item's.
pub open spec fn unfenced(m: ActivityMap, item: ItemId) -> ActivityMap {
    if activity_of(m, item.key).reclaim == Some(item) {
        m.remove(item.key)
    } else {
        m
    }
}

/// The activity after the fences of those items are taken away that are in one of the given states.
pub open spec fn unfenced_where(
    m: ActivityMap,
    items: Seq<ItemId>,
    drop_fence: spec_fn(int) -> bool,
) -> ActivityMap
    decreases items.len(),
{
    if items.len() == 0 {
        m
    } else {
        let before = unfenced_where(m, items.drop_last(), drop_fence);
        if drop_fence(items.len() - 1) {
            unfenced(before, items.last())
        } else {
            before
        }
    }
}

/// The items whose answer is in one of the given states.
pub open spec fn items_where(items: Seq<ItemId>, keep: spec_fn(int) -> bool) -> Seq<ItemId>
    decreases items.len(),
{
    if items.len() == 0 {
        Seq::empty()
    } else {
        let before = items_where(items.drop_last(), keep);
        if keep(items.len() - 1) {
            before.push(items.last())
        } else {
            before
        }
    }
}

/// An abort is settled: the owner has nothing of the item any more.
pub open spec fn abort_settled(state: OwnerReclaimItemState) -> bool {
    state == OwnerReclaimItemState::Aborted || state == OwnerReclaimItemState::Stale || state
        == OwnerReclaimItemState::Finalized
}

/// What became of items that were to be aborted.
pub struct AbortOutcome {
    /// The owner had committed them already.
    pub committed: Vec<OwnerReclaimItem>,
    /// The owner has not settled them; their fences stay.
    pub unresolved: Vec<OwnerReclaimItem>,
}

/// Takes note of the answers to an abort: what is settled loses its fence.
pub fn apply_abort(
    activity: &mut MasterKeyActivityTable,
    items: Vec<OwnerReclaimItem>,
    responses: &Vec<OwnerReclaimItemResp>,
) -> (r: AbortOutcome)
    requires
        old(activity).wf(),
        items@.len() == responses@.len(),
    ensures
        final(activity).wf(),
        item_ids(r.committed@) == items_where(
            item_ids(items@),
            |i: int| responses@[i].state == OwnerReclaimItemState::Committed,
        ),
        item_ids(r.unresolved@) == items_where(
            item_ids(items@),
            |i: int|
                responses@[i].state != OwnerReclaimItemState::Committed && !abort_settled(
                    responses@[i].state,
                ),
        ),
        final(activity)@ == unfenced_where(
            old(activity)@,
            item_ids(items@),
            |i: int| abort_settled(responses@[i].state),
        ),
{
    let ghost ids = item_ids(items@);
    let ghost is_committed = |i: int| responses@[i].state == OwnerReclaimItemState::Committed;
    let ghost is_open = |i: int|
        responses@[i].state != OwnerReclaimItemState::Committed && !abort_settled(
            responses@[i].state,
        );
    let ghost is_settled = |i: int| abort_settled(responses@[i].state);
    let mut committed: Vec<OwnerReclaimItem> = Vec::new();
    let mut unresolved: Vec<OwnerReclaimItem> = Vec::new();
    let mut i: usize = 0;
    proof {
        assert(ids.take(0) =~= Seq::empty());
        assert(item_ids(committed@) =~= Seq::empty());
        assert(item_ids(unresolved@) =~= Seq::empty());
    }
    while i < items.len()
        invariant
            activity.wf(),
            i <= items@.len() == responses@.len(),
            ids == item_ids(items@),
            is_committed == (|i: int|
                responses@[i].state == OwnerReclaimItemState::Committed),
            is_open == (|i: int|
                responses@[i].state != OwnerReclaimItemState::Committed && !abort_settled(
                    responses@[i].state,
                )),
            is_settled == (|i: int| abort_settled(responses@[i].state)),
            item_ids(committed@) == items_where(ids.take(i as int), is_committed),
            item_ids(unresolved@) == items_where(ids.take(i as int), is_open),
            activity@ == unfenced_where(old(activity)@, ids.take(i as int), is_settled),
        decreases items@.len() - i,
    {
        let item = &items[i];
        proof {
            assert(ids.take(i + 1).drop_last() =~= ids.take(i as int));
            assert(ids.take(i + 1).last() == item@);
        }
        match responses[i].state {
            OwnerReclaimItemState::Committed => {
                let ghost before = committed@;
                committed.push(item.dup());
                assert(item_ids(committed@) =~= item_ids(before).push(item@));
            },
            OwnerReclaimItemState::Aborted
            | OwnerReclaimItemState::Stale
            | OwnerReclaimItemState::Finalized => {
                activity.clear_reclaim(item);
            },
            _ => {
                let ghost before = unresolved@;
                unresolved.push(item.dup());
                assert(item_ids(unresolved@) =~= item_ids(before).push(item@));
            },
        }
        i += 1;
    }
    assert(ids.take(ids.len() as int) =~= ids);
    AbortOutcome { committed, unresolved }
}

/// What became of items that were to be finished.
pub struct FinalizeOutcome {
    pub finalized: u32,
    /// The owner has not finished them; they are tried again.
    pub retry: Vec<OwnerReclaimItem>,
}

/// Takes note of the answers to a finalize: what is finished loses its fence.
pub fn apply_finalize(
    activity: &mut MasterKeyActivityTable,
    items: Vec<OwnerReclaimItem>,
    responses: &Vec<OwnerReclaimItemResp>,
) -> (r: FinalizeOutcome)
    requires
        old(activity).wf(),
        items@.len() == responses@.len(),
        items@.len() <= u32::MAX,
    ensures
        final(activity).wf(),
        item_ids(r.retry@) == items_where(
            item_ids(items@),
            |i: int| responses@[i].state != OwnerReclaimItemState::Finalized,
        ),
        r.finalized + r.retry@.len() == items@.len(),
        final(activity)@ == unfenced_where(
            old(activity)@,
            item_ids(items@),
            |i: int| responses@[i].state == OwnerReclaimItemState::Finalized,
        ),
{
    let ghost ids = item_ids(items@);
    let ghost is_open = |i: int| responses@[i].state != OwnerReclaimItemState::Finalized;
    let ghost is_done = |i: int| responses@[i].state == OwnerReclaimItemState::Finalized;
    let mut finalized: u32 = 0;
    let mut retry: Vec<OwnerReclaimItem> = Vec::new();
    let mut i: usize = 0;
    proof {
        assert(ids.take(0) =~= Seq::empty());
        assert(item_ids(retry@) =~= Seq::empty());
    }
    while i < items.len()
        invariant
            activity.wf(),
            i <= items@.len() == responses@.len(),
            items@.len() <= u32::MAX,
            ids == item_ids(items@),
            is_open == (|i: int| responses@[i].state != OwnerReclaimItemState::Finalized),
            is_done == (|i: int| responses@[i].state == OwnerReclaimItemState::Finalized),
            item_ids(retry@) == items_where(ids.take(i as int), is_open),
            finalized + retry@.len() == i,
            activity@ == unfenced_where(old(activity)@, ids.take(i as int), is_done),
        decreases items@.len() - i,
    {
        let item = &items[i];
        proof {
            assert(ids.take(i + 1).drop_last() =~= ids.take(i as int));
            assert(ids.take(i + 1).last() == item@);
        }
        if matches!(responses[i].state, OwnerReclaimItemState::Finalized) {
            activity.clear_reclaim(item);
            finalized = finalized + 1;
        } else {
            let ghost before = retry@;
            retry.push(item.dup());
            assert(item_ids(retry@) =~= item_ids(before).push(item@));
        }
        i += 1;
    }
    assert(ids.take(ids.len() as int) =~= ids);
    FinalizeOutcome { finalized, retry }
}

/// The copy lies in what the item says.
pub open spec fn backing_matches(replica: KvRouteInfo, expected: OwnerReclaimBacking) -> bool {
    match (replica.backing, expected) {
        (KvReplicaBacking::Allocation(_), OwnerReclaimBacking::Allocation) =>
            replica.owner_local_indexed,
        (KvReplicaBacking::Allocation(_), OwnerReclaimBacking::UnindexedAllocation) =>
            !replica.owner_local_indexed,
        (
            KvReplicaBacking::CommittedSlot(slot),
            OwnerReclaimBacking::CommittedSlot { grant_id, slot_index, slot_size },
        ) => slot.grant_id == grant_id && slot.slot_index == slot_index && slot.slot_size
            == slot_size,
        _ => false,
    }
}

pub fn reclaim_backing_matches(replica: &KvRouteInfo, expected: &OwnerReclaimBacking) -> (r: bool)
    ensures
        r == backing_matches(*replica, *expected),
{
    match (&replica.backing, expected) {
        (KvReplicaBacking::Allocation(_), OwnerReclaimBacking::Allocation) =>
            replica.owner_local_indexed,
        (KvReplicaBacking::Allocation(_), OwnerReclaimBacking::UnindexedAllocation) =>
            !replica.owner_local_indexed,
        (
            KvReplicaBacking::CommittedSlot(slot),
            OwnerReclaimBacking::CommittedSlot { grant_id, slot_index, slot_size },
        ) => slot.grant_id == *grant_id && slot.slot_index == *slot_index && slot.slot_size
            == *slot_size,
        _ => false,
    }
}

/// What removing a reclaimed copy did.
#[derive(Clone, Copy, Debug, PartialEq, Eq, Structural)]
pub enum RemovalOutcome {
    /// The key is not fenced for the item.
    NotFenced,
    /// The route no longer shows the copy.
    AlreadyGone,
    /// The copy was removed; other copies are left.
    ReplicaRemoved,
    /// The copy was removed, and with it the route, which had no other.
    RouteRemoved,
}

impl RemovalOutcome {
    /// The copy is gone.
    pub open spec fn spec_gone(self) -> bool {
        self != RemovalOutcome::NotFenced
    }

    pub fn is_gone(self) -> (r: bool)
        ensures
            r == self.spec_gone(),
    {
        !matches!(self, RemovalOutcome::NotFenced)
    }
}

/// The route shows the copy that the item speaks of.
pub open spec fn shows_copy(routes: Routes, owner: Seq<char>, item: ItemId) -> bool {
    &&& routes.contains_key(item.key)
    &&& routes[item.key].put_id == item.put_id
    &&& routes[item.key].nodes_replicas@.contains_key(owner)
    &&& backing_matches(routes[item.key].nodes_replicas@[owner], item.backing)
}

/// The routes after the copy of an owner was removed.
pub open spec fn copy_removed(
    before: Routes,
    owner: Seq<char>,
    key: Seq<char>,
    after: Routes,
) -> bool {
    let left = before[key].nodes_replicas@.remove(owner);
    if left == Map::<Seq<char>, KvRouteInfo>::empty() {
        after == before.remove(key)
    } else {
        &&& after.contains_key(key)
        &&& after[key].nodes_replicas@ == left
        &&& after[key].same_but_replicas(&before[key])
        &&& after == before.insert(key, after[key])
    }
}

/// Removes a copy that its owner has given up from the route, and the route with its last copy.
pub fn remove_reclaimed_replica(
    routes: &mut KeyTable<OneKvNodesRoutes>,
    activity: &MasterKeyActivityTable,
    owner: &String,
    item: &OwnerReclaimItem,
) -> (r: RemovalOutcome)
    requires
        old(routes).wf(),
        routes_wf(old(routes)@),
        activity.wf(),
    ensures
        final(routes).wf(),
        routes_wf(final(routes)@),
        r == if activity_of(activity@, item.key@).reclaim != Some(item@) {
            RemovalOutcome::NotFenced
        } else if !shows_copy(old(routes)@, owner@, item@) {
            RemovalOutcome::AlreadyGone
        } else if old(routes)@[item.key@].nodes_replicas@.remove(owner@) == Map::<
            Seq<char>,
            KvRouteInfo,
        >::empty() {
            RemovalOutcome::RouteRemoved
        } else {
            RemovalOutcome::ReplicaRemoved
        },
        if r == RemovalOutcome::NotFenced || r == RemovalOutcome::AlreadyGone {
            final(routes)@ == old(routes)@
        } else {
            copy_removed(old(routes)@, owner@, item.key@, final(routes)@)
        },
{
    if !activity.reclaim_matches(item) {
        return RemovalOutcome::NotFenced;
    }
    let ghost before = routes@;
    let shown = match routes.get(item.key.as_str()) {
        None => false,
        Some(route) => {
            if route.put_id.0 != item.put_id.0 || route.put_id.1 != item.put_id.1 {
                false
            } else {
                match route.nodes_replicas.get(owner) {
                    None => false,
                    Some(replica) => reclaim_backing_matches(replica, &item.backing),
                }
            }
        },
    };
    if !shown {
        return RemovalOutcome::AlreadyGone;
    }
    match routes.remove(item.key.as_str()) {
        None => RemovalOutcome::AlreadyGone,
        Some(mut route) => {
            route.nodes_replicas.remove(owner);
            proof {
                assert forall|k: Seq<char>| #[trigger] routes@.contains_key(k) implies routes@[k].wf() by {
                    assert(before.contains_key(k));
                }
                route.nodes_replicas.lemma_rows();
            }
            if route.nodes_replicas.len() == 0 {
                assert(route.nodes_replicas@ =~= Map::<Seq<char>, KvRouteInfo>::empty());
                return RemovalOutcome::RouteRemoved;
            }
            proof {
                let row = route.nodes_replicas.rows()[0];
                crate::assoc::lemma_row_in_map(route.nodes_replicas.rows(), 0);
                assert(route.nodes_replicas@.contains_key(row.0@));
            }
            let ghost put_back = route;
            routes.insert(item.key.clone(), route);
            proof {
                assert(routes@ =~= before.insert(item.key@, put_back));
                assert forall|k: Seq<char>| #[trigger] routes@.contains_key(k) implies routes@[k].wf() by {
                    if k != item.key@ {
                        assert(before.contains_key(k));
                    }
                }
            }
            RemovalOutcome::ReplicaRemoved
        },
    }
}

/// A copy was reclaimed for good: its route does not show it any more.
pub proof fn removed_copy_is_not_shown(before: Routes, owner: Seq<char>, item: ItemId, after: Routes)
    requires
        shows_copy(before, owner, item),
        copy_removed(before, owner, item.key, after),
    ensures
        !shows_copy(after, owner, item),
        forall|k: Seq<char>| k != item.key ==> (#[trigger] after.contains_key(k)
            == before.contains_key(k)),
{
}

/// The items whose copies the owner does not know of, and the others.
pub fn partition_reclaim_coordination(items: Vec<OwnerReclaimItem>) -> (r: (
    Vec<OwnerReclaimItem>,
    Vec<OwnerReclaimItem>,
))
    ensures
        item_ids(r.0@) == items_where(
            item_ids(items@),
            |i: int| items@[i].backing == OwnerReclaimBacking::UnindexedAllocation,
        ),
        item_ids(r.1@) == items_where(
            item_ids(items@),
            |i: int| items@[i].backing != OwnerReclaimBacking::UnindexedAllocation,
        ),
{
    let ghost ids = item_ids(items@);
    let ghost alone = |i: int| items@[i].backing == OwnerReclaimBacking::UnindexedAllocation;
    let ghost shared = |i: int| items@[i].backing != OwnerReclaimBacking::UnindexedAllocation;
    let mut master_only: Vec<OwnerReclaimItem> = Vec::new();
    let mut owner_coordinated: Vec<OwnerReclaimItem> = Vec::new();
    let mut i: usize = 0;
    proof {
        assert(ids.take(0) =~= Seq::empty());
        assert(item_ids(master_only@) =~= Seq::empty());
        assert(item_ids(owner_coordinated@) =~= Seq::empty());
    }
    while i < items.len()
        invariant
            i <= items@.len(),
            ids == item_ids(items@),
            alone == (|i: int| items@[i].backing == OwnerReclaimBacking::UnindexedAllocation),
            shared == (|i: int| items@[i].backing != OwnerReclaimBacking::UnindexedAllocation),
            item_ids(master_only@) == items_where(ids.take(i as int), alone),
            item_ids(owner_coordinated@) == items_where(ids.take(i as int), shared),
        decreases items@.len() - i,
    {
        let item = &items[i];
        proof {
            assert(ids.take(i + 1).drop_last() =~= ids.take(i as int));
            assert(ids.take(i + 1).last() == item@);
        }
        if matches!(item.backing, OwnerReclaimBacking::UnindexedAllocation) {
            let ghost before = master_only@;
            master_only.push(item.dup());
            assert(item_ids(master_only@) =~= item_ids(before).push(item@));
        } else {
            let ghost before = owner_coordinated@;
            owner_coordinated.push(item.dup());
            assert(item_ids(owner_coordinated@) =~= item_ids(before).push(item@));
        }
        i += 1;
    }
    assert(ids.take(ids.len() as int) =~= ids);
    (master_only, owner_coordinated)
}

/// What is known while items are being fenced.
#[verifier::ext_equal]
pub struct FenceModel {
    pub activity: ActivityMap,
    pub fenced: Seq<ItemId>,
    pub counters: EvictionReclaimCounters,
}

/// The counters after a get was seen to hold the key.
pub open spec fn holder_seen(
    c: EvictionReclaimCounters,
    holders: Set<Seq<char>>,
    key: Seq<char>,
) -> EvictionReclaimCounters {
    if holders.contains(key) {
        EvictionReclaimCounters {
            master_get_holder_observed: plus(c.master_get_holder_observed, 1),
            ..c
        }
    } else {
        c
    }
}

/// One item is fenced, if nothing is under way for its key and it may still be reclaimed.
pub open spec fn fence_one(
    m: FenceModel,
    routes: Routes,
    remote: Set<Seq<char>>,
    owner: Seq<char>,
    holders: Set<Seq<char>>,
    item: ItemId,
    rights: EvictionRights,
) -> FenceModel {
    let c = holder_seen(m.counters, holders, item.key);
    if activity_of(m.activity, item.key) != ActivityModel::idle() {
        FenceModel {
            counters: EvictionReclaimCounters {
                master_activity_deferred: plus(c.master_activity_deferred, 1),
                ..c
            },
            ..m
        }
    } else {
        let installed = with_activity(
            m.activity,
            item.key,
            ActivityModel { reclaim: Some(item), ..ActivityModel::idle() },
        );
        if still_valid(routes, installed, remote, owner, item, rights) {
            FenceModel { activity: installed, fenced: m.fenced.push(item), counters: c }
        } else {
            FenceModel {
                counters: EvictionReclaimCounters { route_changed: plus(c.route_changed, 1), ..c },
                ..m
            }
        }
    }
}

/// Items are fenced one after another.
pub open spec fn fence_all(
    m: FenceModel,
    routes: Routes,
    remote: Set<Seq<char>>,
    owner: Seq<char>,
    holders: Set<Seq<char>>,
    items: Seq<ItemId>,
    rights: EvictionRights,
) -> FenceModel
    decreases items.len(),
{
    if items.len() == 0 {
        m
    } else {
        fence_one(
            fence_all(m, routes, remote, owner, holders, items.drop_last(), rights),
            routes,
            remote,
            owner,
            holders,
            items.last(),
            rights,
        )
    }
}

/// Fences the candidates for which nothing is under way and that may still be reclaimed. `holders`
/// holds the keys that completed gets hold, which is only counted.
pub fn fence_candidates(
    routes: &KeyTable<OneKvNodesRoutes>,
    activity: &mut MasterKeyActivityTable,
    remote: &NameSet,
    owner: &String,
    holders: &NameSet,
    candidates: Vec<OwnerReclaimItem>,
    rights: EvictionRights,
    counters: &mut EvictionReclaimCounters,
) -> (fenced: Vec<OwnerReclaimItem>)
    requires
        routes.wf(),
        routes_wf(routes@),
        old(activity).wf(),
    ensures
        final(activity).wf(),
        (FenceModel {
            activity: final(activity)@,
            fenced: item_ids(fenced@),
            counters: *final(counters),
        }) == fence_all(
            FenceModel {
                activity: old(activity)@,
                fenced: Seq::empty(),
                counters: *old(counters),
            },
            routes@,
            remote@,
            owner@,
            holders@,
            item_ids(candidates@),
            rights,
        ),
{
    let ghost start = FenceModel {
        activity: activity@,
        fenced: Seq::empty(),
        counters: *counters,
    };
    let ghost ids = item_ids(candidates@);
    let mut fenced: Vec<OwnerReclaimItem> = Vec::new();
    let mut i: usize = 0;
    proof {
        assert(ids.take(0) =~= Seq::empty());
        assert(item_ids(fenced@) =~= Seq::empty());
    }
    while i < candidates.len()
        invariant
            routes.wf(),
            routes_wf(routes@),
            activity.wf(),
            i <= candidates@.len(),
            ids == item_ids(candidates@),
            (FenceModel { activity: activity@, fenced: item_ids(fenced@), counters: *counters })
                == fence_all(
                start,
                routes@,
                remote@,
                owner@,
                holders@,
                ids.take(i as int),
                rights,
            ),
        decreases candidates@.len() - i,
    {
        let item = &candidates[i];
        proof {
            assert(ids.take(i + 1).drop_last() =~= ids.take(i as int));
            assert(ids.take(i + 1).last() == item@);
        }
        if holders.contains(&item.key) {
            counters.master_get_holder_observed =
            counters.master_get_holder_observed.wrapping_add(1);
        }
        let ghost idle_table = *activity;
        let ghost idle = activity@;
        match activity.try_install_reclaim(item) {
            Ok(_) => {
                if item_still_valid(routes, activity, remote, owner, item, rights) {
                    let ghost before = fenced@;
                    fenced.push(item.dup());
                    assert(item_ids(fenced@) =~= item_ids(before).push(item@));
                } else {
                    counters.route_changed = counters.route_changed.wrapping_add(1);
                    activity.clear_reclaim(item);
                    proof {
                        assert(!idle.contains_key(item.key@)) by {
                            if idle.contains_key(item.key@) {
                                idle_table.listed_keys_are_active(item.key@);
                            }
                        }
                        assert(activity@ =~= idle);
                    }
                }
            },
            Err(_) => {
                counters.master_activity_deferred =
                counters.master_activity_deferred.wrapping_add(1);
            },
        }
        i += 1;
    }
    assert(ids.take(ids.len() as int) =~= ids);
    fenced
}

/// The owner's words for a copy that its readers keep busy.
pub open spec fn holders_detail() -> Seq<char> {
    "owner local memory still has active holders"@
}

/// What is known while the answers to a prepare are sorted.
#[verifier::ext_equal]
pub struct PrepareModel {
    pub activity: ActivityMap,
    pub prepared: Seq<ItemId>,
    pub committed: Seq<ItemId>,
    pub counters: EvictionReclaimCounters,
}

/// One answer to a prepare: the item goes on, was committed before, or loses its fence.
pub open spec fn prepare_one(
    m: PrepareModel,
    item: ItemId,
    state: OwnerReclaimItemState,
    detail: Seq<char>,
) -> PrepareModel {
    match state {
        OwnerReclaimItemState::Prepared => PrepareModel { prepared: m.prepared.push(item), ..m },
        OwnerReclaimItemState::Committed => PrepareModel { committed: m.committed.push(item), ..m },
        _ => PrepareModel {
            activity: unfenced(m.activity, item),
            counters: if state == OwnerReclaimItemState::Busy && detail == holders_detail() {
                EvictionReclaimCounters {
                    owner_holder_deferred: plus(m.counters.owner_holder_deferred, 1),
                    ..m.counters
                }
            } else {
                EvictionReclaimCounters {
                    owner_other_deferred: plus(m.counters.owner_other_deferred, 1),
                    ..m.counters
                }
            },
            ..m
        },
    }
}

/// The answers to a prepare, one after another.
pub open spec fn prepare_all(
    m: PrepareModel,
    items: Seq<ItemId>,
    responses: Seq<OwnerReclaimItemResp>,
) -> PrepareModel
    decreases items.len(),
{
    if items.len() == 0 {
        m
    } else {
        let last = items.len() - 1;
        prepare_one(
            prepare_all(m, items.drop_last(), responses),
            items.last(),
            responses[last].state,
            responses[last].detail@,
        )
    }
}

/// The items that an owner has prepared, and those it had committed before.
pub struct PrepareOutcome {
    pub prepared: Vec<OwnerReclaimItem>,
    pub committed: Vec<OwnerReclaimItem>,
}

/// Sorts the answers to a prepare.
pub fn sort_prepare(
    activity: &mut MasterKeyActivityTable,
    items: Vec<OwnerReclaimItem>,
    responses: &Vec<OwnerReclaimItemResp>,
    counters: &mut EvictionReclaimCounters,
) -> (r: PrepareOutcome)
    requires
        old(activity).wf(),
        items@.len() == responses@.len(),
    ensures
        final(activity).wf(),
        (PrepareModel {
            activity: final(activity)@,
            prepared: item_ids(r.prepared@),
            committed: item_ids(r.committed@),
            counters: *final(counters),
        }) == prepare_all(
            PrepareModel {
                activity: old(activity)@,
                prepared: Seq::empty(),
                committed: Seq::empty(),
                counters: *old(counters),
            },
            item_ids(items@),
            responses@,
        ),
{
    let ghost start = PrepareModel {
        activity: activity@,
        prepared: Seq::empty(),
        committed: Seq::empty(),
        counters: *counters,
    };
    let ghost ids = item_ids(items@);
    let mut prepared: Vec<OwnerReclaimItem> = Vec::new();
    let mut committed: Vec<OwnerReclaimItem> = Vec::new();
    let mut i: usize = 0;
    proof {
        assert(ids.take(0) =~= Seq::empty());
        assert(item_ids(prepared@) =~= Seq::empty());
        assert(item_ids(committed@) =~= Seq::empty());
    }
    while i < items.len()
        invariant
            activity.wf(),
            i <= items@.len() == responses@.len(),
            ids == item_ids(items@),
            (PrepareModel {
                activity: activity@,
                prepared: item_ids(prepared@),
                committed: item_ids(committed@),
                counters: *counters,
            }) == prepare_all(start, ids.take(i as int), responses@),
        decreases items@.len() - i,
    {
        let item = &items[i];
        proof {
            assert(ids.take(i + 1).drop_last() =~= ids.take(i as int));
            assert(ids.take(i + 1).last() == item@);
        }
        match responses[i].state {
            OwnerReclaimItemState::Prepared => {
                let ghost before = prepared@;
                prepared.push(item.dup());
                assert(item_ids(prepared@) =~= item_ids(before).push(item@));
            },
            OwnerReclaimItemState::Committed => {
                let ghost before = committed@;
                committed.push(item.dup());
                assert(item_ids(committed@) =~= item_ids(before).push(item@));
            },
            OwnerReclaimItemState::Busy => {
                if str_eq(
                    responses[i].detail.as_str(),
                    "owner local memory still has active holders",
                ) {
                    counters.owner_holder_deferred = counters.owner_holder_deferred.wrapping_add(1);
                } else {
                    counters.owner_other_deferred = counters.owner_other_deferred.wrapping_add(1);
                }
                activity.clear_reclaim(item);
            },
            _ => {
                counters.owner_other_deferred = counters.owner_other_deferred.wrapping_add(1);
                activity.clear_reclaim(item);
            },
        }
        i += 1;
    }
    assert(ids.take(ids.len() as int) =~= ids);
    PrepareOutcome { prepared, committed }
}

/// What is known while prepared items are looked at again.
#[verifier::ext_equal]
pub struct RevalidateModel {
    pub valid: Seq<ItemId>,
    pub invalid: Seq<ItemId>,
    pub counters: EvictionReclaimCounters,
}

/// One prepared item is looked at again.
pub open spec fn revalidate_one(
    m: RevalidateModel,
    routes: Routes,
    activity: ActivityMap,
    remote: Set<Seq<char>>,
    owner: Seq<char>,
    holders: Set<Seq<char>>,
    item: ItemId,
    rights: EvictionRights,
) -> RevalidateModel {
    let c = holder_seen(m.counters, holders, item.key);
    if still_valid(routes, activity, remote, owner, item, rights) {
        RevalidateModel { valid: m.valid.push(item), counters: c, ..m }
    } else {
        RevalidateModel {
            invalid: m.invalid.push(item),
            counters: EvictionReclaimCounters { route_changed: plus(c.route_changed, 1), ..c },
            ..m
        }
    }
}

/// Prepared items are looked at again, one after another.
pub open spec fn revalidate_all(
    m: RevalidateModel,
    routes: Routes,
    activity: ActivityMap,
    remote: Set<Seq<char>>,
    owner: Seq<char>,
    holders: Set<Seq<char>>,
    items: Seq<ItemId>,
    rights: EvictionRights,
) -> RevalidateModel
    decreases items.len(),
{
    if items.len() == 0 {
        m
    } else {
        revalidate_one(
            revalidate_all(
                m,
                routes,
                activity,
                remote,
                owner,
                holders,
                items.drop_last(),
                rights,
            ),
            routes,
            activity,
            remote,
            owner,
            holders,
            items.last(),
            rights,
        )
    }
}

/// Prepared items that may be committed, and those that must be aborted.
pub struct RevalidateOutcome {
    pub valid: Vec<OwnerReclaimItem>,
    pub invalid: Vec<OwnerReclaimItem>,
}

/// Looks at prepared items again: the routes may have changed while the owner prepared.
pub fn revalidate_prepared(
    routes: &KeyTable<OneKvNodesRoutes>,
    activity: &MasterKeyActivityTable,
    remote: &NameSet,
    owner: &String,
    holders: &NameSet,
    prepared: Vec<OwnerReclaimItem>,
    rights: EvictionRights,
    counters: &mut EvictionReclaimCounters,
) -> (r: RevalidateOutcome)
    requires
        routes.wf(),
        routes_wf(routes@),
        activity.wf(),
    ensures
        (RevalidateModel {
            valid: item_ids(r.valid@),
            invalid: item_ids(r.invalid@),
            counters: *final(counters),
        }) == revalidate_all(
            RevalidateModel {
                valid: Seq::empty(),
                invalid: Seq::empty(),
                counters: *old(counters),
            },
            routes@,
            activity@,
            remote@,
            owner@,
            holders@,
            item_ids(prepared@),
            rights,
        ),
{
    let ghost start = RevalidateModel {
        valid: Seq::empty(),
        invalid: Seq::empty(),
        counters: *counters,
    };
    let ghost ids = item_ids(prepared@);
    let mut valid: Vec<OwnerReclaimItem> = Vec::new();
    let mut invalid: Vec<OwnerReclaimItem> = Vec::new();
    let mut i: usize = 0;
    proof {
        assert(ids.take(0) =~= Seq::empty());
        assert(item_ids(valid@) =~= Seq::empty());
        assert(item_ids(invalid@) =~= Seq::empty());
    }
    while i < prepared.len()
        invariant
            routes.wf(),
            routes_wf(routes@),
            activity.wf(),
            i <= prepared@.len(),
            ids == item_ids(prepared@),
            (RevalidateModel {
                valid: item_ids(valid@),
                invalid: item_ids(invalid@),
                counters: *counters,
            }) == revalidate_all(
                start,
                routes@,
                activity@,
                remote@,
                owner@,
                holders@,
                ids.take(i as int),
                rights,
            ),
        decreases prepared@.len() - i,
    {
        let item = &prepared[i];
        proof {
            assert(ids.take(i + 1).drop_last() =~= ids.take(i as int));
            assert(ids.take(i + 1).last() == item@);
        }
        if holders.contains(&item.key) {
            counters.master_get_holder_observed =
            counters.master_get_holder_observed.wrapping_add(1);
        }
        if item_still_valid(routes, activity, remote, owner, item, rights) {
            let ghost before = valid@;
            valid.push(item.dup());
            assert(item_ids(valid@) =~= item_ids(before).push(item@));
        } else {
            counters.route_changed = counters.route_changed.wrapping_add(1);
            let ghost before = invalid@;
            invalid.push(item.dup());
            assert(item_ids(invalid@) =~= item_ids(before).push(item@));
        }
        i += 1;
    }
    assert(ids.take(ids.len() as int) =~= ids);
    RevalidateOutcome { valid, invalid }
}

/// Splits the answers to a commit: what is committed, and what is to be aborted.
pub fn split_commit(items: Vec<OwnerReclaimItem>, responses: &Vec<OwnerReclaimItemResp>) -> (r: (
    Vec<OwnerReclaimItem>,
    Vec<OwnerReclaimItem>,
))
    requires
        items@.len() == responses@.len(),
    ensures
        item_ids(r.0@) == items_where(
            item_ids(items@),
            |i: int| responses@[i].state == OwnerReclaimItemState::Committed,
        ),
        item_ids(r.1@) == items_where(
            item_ids(items@),
            |i: int| responses@[i].state != OwnerReclaimItemState::Committed,
        ),
{
    let ghost ids = item_ids(items@);
    let ghost done = |i: int| responses@[i].state == OwnerReclaimItemState::Committed;
    let ghost not_done = |i: int| responses@[i].state != OwnerReclaimItemState::Committed;
    let mut committed: Vec<OwnerReclaimItem> = Vec::new();
    let mut unresolved: Vec<OwnerReclaimItem> = Vec::new();
    let mut i: usize = 0;
    proof {
        assert(ids.take(0) =~= Seq::empty());
        assert(item_ids(committed@) =~= Seq::empty());
        assert(item_ids(unresolved@) =~= Seq::empty());
    }
    while i < items.len()
        invariant
            i <= items@.len() == responses@.len(),
            ids == item_ids(items@),
            done == (|i: int| responses@[i].state == OwnerReclaimItemState::Committed),
            not_done == (|i: int| responses@[i].state != OwnerReclaimItemState::Committed),
            item_ids(committed@) == items_where(ids.take(i as int), done),
            item_ids(unresolved@) == items_where(ids.take(i as int), not_done),
        decreases items@.len() - i,
    {
        let item = &items[i];
        proof {
            assert(ids.take(i + 1).drop_last() =~= ids.take(i as int));
            assert(ids.take(i + 1).last() == item@);
        }
        if matches!(responses[i].state, OwnerReclaimItemState::Committed) {
            let ghost before = committed@;
            committed.push(item.dup());
            assert(item_ids(committed@) =~= item_ids(before).push(item@));
        } else {
            let ghost before = unresolved@;
            unresolved.push(item.dup());
            assert(item_ids(unresolved@) =~= item_ids(before).push(item@));
        }
        i += 1;
    }
    assert(ids.take(ids.len() as int) =~= ids);
    (committed, unresolved)
}

/// The key is fenced for one of the items, and its route shows the copy that the item speaks of.
pub open spec fn copy_taken(
    routes: Routes,
    owner: Seq<char>,
    items: Seq<ItemId>,
    fences: ActivityMap,
    key: Seq<char>,
) -> bool {
    exists|i: int|
        {
            &&& 0 <= i < items.len()
            &&& (#[trigger] items[i]).key == key
            &&& activity_of(fences, key).reclaim == Some(items[i])
            &&& shows_copy(routes, owner, items[i])
        }
}

/// The routes lost exactly the copies of the owner that the items speak of and that are fenced for
/// them; a route that had no other copy is gone.
pub open spec fn copies_taken(
    before: Routes,
    after: Routes,
    owner: Seq<char>,
    items: Seq<ItemId>,
    fences: ActivityMap,
) -> bool {
    forall|k: Seq<char>|
        #![trigger after.contains_key(k)]
        #![trigger before.contains_key(k)]
        if copy_taken(before, owner, items, fences, k) {
            let left = before[k].nodes_replicas@.remove(owner);
            if left == Map::<Seq<char>, KvRouteInfo>::empty() {
                !after.contains_key(k)
            } else {
                &&& after.contains_key(k)
                &&& after[k].nodes_replicas@ == left
                &&& after[k].same_but_replicas(&before[k])
            }
        } else {
            &&& after.contains_key(k) == before.contains_key(k)
            &&& after.contains_key(k) ==> after[k] == before[k]
        }
}

proof fn lemma_taken_step(
    before: Routes,
    mid: Routes,
    after: Routes,
    owner: Seq<char>,
    items: Seq<ItemId>,
    item: ItemId,
    fences: ActivityMap,
    removed: bool,
)
    requires
        copies_taken(before, mid, owner, items, fences),
        removed == (activity_of(fences, item.key).reclaim == Some(item) && shows_copy(
            mid,
            owner,
            item,
        )),
        removed ==> copy_removed(mid, owner, item.key, after),
        !removed ==> after == mid,
    ensures
        copies_taken(before, after, owner, items.push(item), fences),
        activity_of(fences, item.key).reclaim == Some(item) ==> !shows_copy(after, owner, item),
{
    let all = items.push(item);
    assert(all[items.len() as int] == item);
    let fenced = activity_of(fences, item.key).reclaim == Some(item);
    assert forall|k: Seq<char>|
        copy_taken(before, owner, all, fences, k) == (copy_taken(before, owner, items, fences, k) || (
        k == item.key && fenced && shows_copy(before, owner, item))) by {
        if copy_taken(before, owner, items, fences, k) {
            let i = choose|i: int|
                {
                    &&& 0 <= i < items.len()
                    &&& (#[trigger] items[i]).key == k
                    &&& activity_of(fences, k).reclaim == Some(items[i])
                    &&& shows_copy(before, owner, items[i])
                };
            assert(all[i] == items[i]);
        }
        if copy_taken(before, owner, all, fences, k) {
            let i = choose|i: int|
                {
                    &&& 0 <= i < all.len()
                    &&& (#[trigger] all[i]).key == k
                    &&& activity_of(fences, k).reclaim == Some(all[i])
                    &&& shows_copy(before, owner, all[i])
                };
            if i < items.len() {
                assert(all[i] == items[i]);
            }
        }
    }
    let key = item.key;
    if copy_taken(before, owner, items, fences, key) {
        assert(mid.contains_key(key) ==> !mid[key].nodes_replicas@.contains_key(owner));
    }
    assert(before.contains_key(key) == before.contains_key(key));
    assert forall|k: Seq<char>|
        #![trigger after.contains_key(k)]
        #![trigger before.contains_key(k)]
        if copy_taken(before, owner, all, fences, k) {
            let left = before[k].nodes_replicas@.remove(owner);
            if left == Map::<Seq<char>, KvRouteInfo>::empty() {
                !after.contains_key(k)
            } else {
                &&& after.contains_key(k)
                &&& after[k].nodes_replicas@ == left
                &&& after[k].same_but_replicas(&before[k])
            }
        } else {
            &&& after.contains_key(k) == before.contains_key(k)
            &&& after.contains_key(k) ==> after[k] == before[k]
        } by {
        assert(mid.contains_key(k) == mid.contains_key(k));
    }
}

/// A copy of an owner that was taken out of its route. The key has to leave the owner's cache and its
/// first tier, and, if the route is gone, the index of prefixes.
#[derive(Debug)]
pub struct RemovedCopy {
    pub key: String,
    pub put_id: PutIDForAKey,
    pub route_removed: bool,
}

/// The list has the key.
pub open spec fn lists_copy(list: Seq<RemovedCopy>, key: Seq<char>) -> bool {
    exists|i: int| 0 <= i < list.len() && (#[trigger] list[i]).key@ == key
}

/// The list tells of exactly the copies that were taken out of their routes, each once.
pub open spec fn removals_told(
    list: Seq<RemovedCopy>,
    before: Routes,
    after: Routes,
    owner: Seq<char>,
    items: Seq<ItemId>,
    fences: ActivityMap,
) -> bool {
    &&& forall|i: int|
        0 <= i < list.len() ==> {
            let c = #[trigger] list[i];
            &&& copy_taken(before, owner, items, fences, c.key@)
            &&& c.put_id == before[c.key@].put_id
            &&& c.route_removed == !after.contains_key(c.key@)
        }
    &&& forall|k: Seq<char>| #[trigger]
        copy_taken(before, owner, items, fences, k) ==> lists_copy(list, k)
    &&& forall|i: int, j: int|
        0 <= i < list.len() && 0 <= j < list.len() && i != j ==> (#[trigger] list[i]).key@ != (
        #[trigger] list[j]).key@
}

proof fn lemma_told_step(
    list: Seq<RemovedCopy>,
    next: Seq<RemovedCopy>,
    before: Routes,
    mid: Routes,
    after: Routes,
    owner: Seq<char>,
    items: Seq<ItemId>,
    item: ItemId,
    fences: ActivityMap,
    removed: bool,
)
    requires
        copies_taken(before, mid, owner, items, fences),
        removals_told(list, before, mid, owner, items, fences),
        removed == (activity_of(fences, item.key).reclaim == Some(item) && shows_copy(
            mid,
            owner,
            item,
        )),
        removed ==> copy_removed(mid, owner, item.key, after),
        !removed ==> after == mid && next == list,
        removed ==> next.len() == list.len() + 1 && next.drop_last() == list && next.last().key@
            == item.key && next.last().put_id == item.put_id && next.last().route_removed
            == !after.contains_key(item.key),
    ensures
        removals_told(next, before, after, owner, items.push(item), fences),
{
    let all = items.push(item);
    let key = item.key;
    assert(all[items.len() as int] == item);
    assert(before.contains_key(key) == before.contains_key(key));
    assert forall|k: Seq<char>| #[trigger]
        copy_taken(before, owner, items, fences, k) implies copy_taken(
        before,
        owner,
        all,
        fences,
        k,
    ) by {
        let i = choose|i: int|
            {
                &&& 0 <= i < items.len()
                &&& (#[trigger] items[i]).key == k
                &&& activity_of(fences, k).reclaim == Some(items[i])
                &&& shows_copy(before, owner, items[i])
            };
        assert(all[i] == items[i]);
    }
    if copy_taken(before, owner, items, fences, key) {
        assert(mid.contains_key(key) ==> !mid[key].nodes_replicas@.contains_key(owner));
        assert(!removed);
    } else {
        assert(mid.contains_key(key) == before.contains_key(key));
    }
    assert forall|k: Seq<char>| #[trigger] copy_taken(before, owner, all, fences, k) implies
        lists_copy(next, k) by {
        let i = choose|i: int|
            {
                &&& 0 <= i < all.len()
                &&& (#[trigger] all[i]).key == k
                &&& activity_of(fences, k).reclaim == Some(all[i])
                &&& shows_copy(before, owner, all[i])
            };
        if i < items.len() {
            assert(all[i] == items[i]);
            assert(copy_taken(before, owner, items, fences, k));
        }
        if copy_taken(before, owner, items, fences, k) {
            let j = choose|j: int| 0 <= j < list.len() && (#[trigger] list[j]).key@ == k;
            assert(next[j] == list[j]) by {
                if removed {
                    assert(next.drop_last()[j] == next[j]);
                }
            }
        } else {
            assert(removed);
            assert(next[next.len() - 1].key@ == k);
        }
    }
    if removed {
        assert(copy_taken(before, owner, all, fences, key));
        assert forall|i: int| 0 <= i < next.len() implies {
            let c = #[trigger] next[i];
            &&& copy_taken(before, owner, all, fences, c.key@)
            &&& c.put_id == before[c.key@].put_id
            &&& c.route_removed == !after.contains_key(c.key@)
            &&& i < list.len() ==> c == list[i] && c.key@ != key
        } by {
            if i < list.len() {
                assert(next.drop_last()[i] == list[i]);
                assert(copy_taken(before, owner, items, fences, list[i].key@));
            }
        }
        assert forall|i: int, j: int|
            0 <= i < next.len() && 0 <= j < next.len() && i != j implies (
        #[trigger] next[i]).key@ != (#[trigger] next[j]).key@ by {
            if i < list.len() && j < list.len() {
                assert(list[i].key@ != list[j].key@);
            }
        }
    } else {
        assert forall|i: int| 0 <= i < next.len() implies copy_taken(
            before,
            owner,
            all,
            fences,
            (#[trigger] next[i]).key@,
        ) by {
            assert(copy_taken(before, owner, items, fences, list[i].key@));
        }
    }
}

/// Notes a copy that was taken out of its route.
fn note_removed(copies: &mut Vec<RemovedCopy>, item: &OwnerReclaimItem, outcome: RemovalOutcome)
    ensures
        match outcome {
            RemovalOutcome::NotFenced => final(copies)@ == old(copies)@,
            RemovalOutcome::AlreadyGone => final(copies)@ == old(copies)@,
            _ => {
                &&& final(copies)@.len() == old(copies)@.len() + 1
                &&& final(copies)@.drop_last() == old(copies)@
                &&& final(copies)@.last().key@ == item.key@
                &&& final(copies)@.last().put_id == item.put_id
                &&& final(copies)@.last().route_removed == (outcome
                    == RemovalOutcome::RouteRemoved)
            },
        },
{
    let route_removed = match outcome {
        RemovalOutcome::NotFenced => {
            return;
        },
        RemovalOutcome::AlreadyGone => {
            return;
        },
        RemovalOutcome::ReplicaRemoved => false,
        RemovalOutcome::RouteRemoved => true,
    };
    let ghost before = copies@;
    copies.push(RemovedCopy { key: item.key.clone(), put_id: item.put_id, route_removed });
    assert(copies@.drop_last() =~= before);
}

/// Removes the copies that owners have given up from their routes and returns the items whose
/// copies are gone, those whose key is fenced for them, and the copies that were removed.
pub fn remove_committed(
    routes: &mut KeyTable<OneKvNodesRoutes>,
    activity: &MasterKeyActivityTable,
    owner: &String,
    items: Vec<OwnerReclaimItem>,
) -> (r: (Vec<OwnerReclaimItem>, Vec<RemovedCopy>))
    requires
        old(routes).wf(),
        routes_wf(old(routes)@),
        activity.wf(),
    ensures
        final(routes).wf(),
        routes_wf(final(routes)@),
        item_ids(r.0@) == items_where(
            item_ids(items@),
            |i: int| activity_of(activity@, items@[i].key@).reclaim == Some(items@[i]@),
        ),
        copies_taken(
            old(routes)@,
            final(routes)@,
            owner@,
            item_ids(items@),
            activity@,
        ),
        removals_told(
            r.1@,
            old(routes)@,
            final(routes)@,
            owner@,
            item_ids(items@),
            activity@,
        ),
{
    let ghost ids = item_ids(items@);
    let ghost fenced = |i: int|
        activity_of(activity@, items@[i].key@).reclaim == Some(items@[i]@);
    let ghost before = routes@;
    let mut removed: Vec<OwnerReclaimItem> = Vec::new();
    let mut copies: Vec<RemovedCopy> = Vec::new();
    let mut i: usize = 0;
    proof {
        assert(ids.take(0) =~= Seq::empty());
        assert(item_ids(removed@) =~= Seq::empty());
    }
    while i < items.len()
        invariant
            routes.wf(),
            routes_wf(routes@),
            activity.wf(),
            before == old(routes)@,
            i <= items@.len(),
            ids == item_ids(items@),
            fenced == (|i: int|
                activity_of(activity@, items@[i].key@).reclaim == Some(items@[i]@)),
            item_ids(removed@) == items_where(ids.take(i as int), fenced),
            copies_taken(before, routes@, owner@, ids.take(i as int), activity@),
            removals_told(copies@, before, routes@, owner@, ids.take(i as int), activity@),
        decreases items@.len() - i,
    {
        let item = &items[i];
        let ghost mid = routes@;
        proof {
            assert(ids.take(i + 1).drop_last() =~= ids.take(i as int));
            assert(ids.take(i + 1).last() == item@);
        }
        let outcome = remove_reclaimed_replica(routes, activity, owner, item);
        let ghost told = copies@;
        note_removed(&mut copies, item, outcome);
        proof {
            lemma_told_step(
                told,
                copies@,
                before,
                mid,
                routes@,
                owner@,
                ids.take(i as int),
                item@,
                activity@,
                outcome == RemovalOutcome::ReplicaRemoved || outcome
                    == RemovalOutcome::RouteRemoved,
            );
            lemma_taken_step(
                before,
                mid,
                routes@,
                owner@,
                ids.take(i as int),
                item@,
                activity@,
                outcome == RemovalOutcome::ReplicaRemoved || outcome
                    == RemovalOutcome::RouteRemoved,
            );
            assert(ids.take(i as int).push(item@) =~= ids.take(i + 1));
        }
        if outcome.is_gone() {
            let ghost so_far = removed@;
            removed.push(item.dup());
            assert(item_ids(removed@) =~= item_ids(so_far).push(item@));
        }
        i += 1;
    }
    assert(ids.take(ids.len() as int) =~= ids);
    (removed, copies)
}

/// Reclaims copies that the owner does not know of: the master removes them alone.
pub fn finish_unindexed_allocations(
    routes: &mut KeyTable<OneKvNodesRoutes>,
    activity: &mut MasterKeyActivityTable,
    owner: &String,
    items: Vec<OwnerReclaimItem>,
) -> (r: (u32, Vec<RemovedCopy>))
    requires
        old(routes).wf(),
        routes_wf(old(routes)@),
        old(activity).wf(),
        items@.len() <= u32::MAX,
    ensures
        final(routes).wf(),
        routes_wf(final(routes)@),
        final(activity).wf(),
        r.0 == unfenced_count(old(activity)@, item_ids(items@)).1,
        final(activity)@ == unfenced_count(old(activity)@, item_ids(items@)).0,
        copies_taken(
            old(routes)@,
            final(routes)@,
            owner@,
            item_ids(items@),
            old(activity)@,
        ),
        removals_told(
            r.1@,
            old(routes)@,
            final(routes)@,
            owner@,
            item_ids(items@),
            old(activity)@,
        ),
{
    let ghost ids = item_ids(items@);
    let ghost before = routes@;
    let ghost fences = activity@;
    let mut reclaimed: u32 = 0;
    let mut copies: Vec<RemovedCopy> = Vec::new();
    let mut i: usize = 0;
    assert(ids.take(0) =~= Seq::empty());
    while i < items.len()
        invariant
            routes.wf(),
            routes_wf(routes@),
            activity.wf(),
            before == old(routes)@,
            fences == old(activity)@,
            i <= items@.len() <= u32::MAX,
            ids == item_ids(items@),
            reclaimed <= i,
            (activity@, reclaimed as int) == unfenced_count(fences, ids.take(i as int)),
            copies_taken(before, routes@, owner@, ids.take(i as int), fences),
            removals_told(copies@, before, routes@, owner@, ids.take(i as int), fences),
            forall|k: Seq<char>| #[trigger]
                activity_of(activity@, k).reclaim == activity_of(fences, k).reclaim || (exists|
                    j: int,
                |
                    0 <= j < i && (#[trigger] ids[j]).key == k && activity_of(fences, k).reclaim
                        == Some(ids[j]) && !shows_copy(routes@, owner@, ids[j])),
            forall|k: Seq<char>| #[trigger]
                activity_of(activity@, k).reclaim is Some ==> activity_of(activity@, k).reclaim
                    == activity_of(fences, k).reclaim,
        decreases items@.len() - i,
    {
        let item = &items[i];
        let ghost mid = routes@;
        let ghost act = activity@;
        proof {
            assert(ids.take(i + 1).drop_last() =~= ids.take(i as int));
            assert(ids.take(i + 1).last() == item@);
        }
        let outcome = remove_reclaimed_replica(routes, activity, owner, item);
        let ghost told = copies@;
        note_removed(&mut copies, item, outcome);
        proof {
            lemma_told_step(
                told,
                copies@,
                before,
                mid,
                routes@,
                owner@,
                ids.take(i as int),
                item@,
                fences,
                outcome == RemovalOutcome::ReplicaRemoved || outcome
                    == RemovalOutcome::RouteRemoved,
            );
            lemma_taken_step(
                before,
                mid,
                routes@,
                owner@,
                ids.take(i as int),
                item@,
                fences,
                outcome == RemovalOutcome::ReplicaRemoved || outcome
                    == RemovalOutcome::RouteRemoved,
            );
            assert(ids.take(i as int).push(item@) =~= ids.take(i + 1));
        }
        if outcome.is_gone() {
            activity.clear_reclaim(item);
            reclaimed = reclaimed + 1;
        }
        proof {
            assert(ids[i as int] == item@);
            assert forall|k: Seq<char>| #[trigger]
                activity_of(activity@, k).reclaim == activity_of(fences, k).reclaim || (exists|
                    j: int,
                |
                    0 <= j < i + 1 && (#[trigger] ids[j]).key == k && activity_of(fences, k).reclaim
                        == Some(ids[j]) && !shows_copy(routes@, owner@, ids[j])) by {
                assert(activity_of(act, k).reclaim == activity_of(act, k).reclaim);
                if k != item.key@ || !outcome.spec_gone() {
                    assert(activity_of(activity@, k) == activity_of(act, k));
                    if activity_of(act, k).reclaim != activity_of(fences, k).reclaim {
                        let j = choose|j: int|
                            0 <= j < i && (#[trigger] ids[j]).key == k && activity_of(
                                fences,
                                k,
                            ).reclaim == Some(ids[j]) && !shows_copy(mid, owner@, ids[j]);
                        assert(!shows_copy(routes@, owner@, ids[j]));
                    }
                }
            }
            assert forall|k: Seq<char>| #[trigger]
                activity_of(activity@, k).reclaim is Some implies activity_of(activity@, k).reclaim
                == activity_of(fences, k).reclaim by {
                assert(activity_of(act, k).reclaim is Some ==> activity_of(act, k).reclaim
                    == activity_of(fences, k).reclaim);
            }
        }
        i += 1;
    }
    assert(ids.take(ids.len() as int) =~= ids);
    (reclaimed, copies)
}

/// The activity after the fences of all items that have one are taken away, and their number.
pub open spec fn unfenced_count(m: ActivityMap, items: Seq<ItemId>) -> (ActivityMap, int)
    decreases items.len(),
{
    if items.len() == 0 {
        (m, 0)
    } else {
        let (before, n) = unfenced_count(m, items.drop_last());
        if activity_of(before, items.last().key).reclaim == Some(items.last()) {
            (before.remove(items.last().key), n + 1)
        } else {
            (before, n)
        }
    }
}

/// Every item that was fenced holds its key, so that nothing else can begin for it.
pub proof fn fenced_items_hold_their_keys(
    m: FenceModel,
    routes: Routes,
    remote: Set<Seq<char>>,
    owner: Seq<char>,
    holders: Set<Seq<char>>,
    items: Seq<ItemId>,
    rights: EvictionRights,
)
    requires
        m.fenced.len() == 0,
    ensures
        ({
            let after = fence_all(m, routes, remote, owner, holders, items, rights);
            forall|i: int|
                0 <= i < after.fenced.len() ==> activity_of(
                    after.activity,
                    (#[trigger] after.fenced[i]).key,
                ).reclaim == Some(after.fenced[i])
        }),
    decreases items.len(),
{
    if items.len() > 0 {
        let less = items.drop_last();
        fenced_items_hold_their_keys(m, routes, remote, owner, holders, less, rights);
        let before = fence_all(m, routes, remote, owner, holders, less, rights);
        let after = fence_all(m, routes, remote, owner, holders, items, rights);
        let item = items.last();
        assert forall|i: int| 0 <= i < after.fenced.len() implies activity_of(
            after.activity,
            (#[trigger] after.fenced[i]).key,
        ).reclaim == Some(after.fenced[i]) by {
            if i < before.fenced.len() {
                assert(after.fenced[i] == before.fenced[i]);
                assert(activity_of(before.activity, before.fenced[i].key).reclaim == Some(
                    before.fenced[i],
                ));
            }
        }
    }
}

/// Candidates that were found, and the epoch that is next.
#[verifier::ext_equal]
pub struct CandidateModel {
    pub items: Seq<ItemId>,
    pub epoch: int,
}

/// The candidates among some rows: keys that nothing is under way for, and whose copy in a slot of
/// the right size may be reclaimed. Each key that is looked at uses up one epoch.
pub open spec fn candidates(
    rows: Seq<(String, OneKvNodesRoutes)>,
    routes: Routes,
    activity: ActivityMap,
    remote: Set<Seq<char>>,
    owner: Seq<char>,
    slot_size: u64,
    limit: int,
    epoch: int,
    rights: EvictionRights,
) -> CandidateModel
    decreases rows.len(),
{
    if rows.len() == 0 {
        CandidateModel { items: Seq::empty(), epoch }
    } else {
        let before = candidates(
            rows.drop_last(),
            routes,
            activity,
            remote,
            owner,
            slot_size,
            limit,
            epoch,
            rights,
        );
        let key = rows.last().0@;
        if before.items.len() >= limit || activity_of(activity, key) != ActivityModel::idle() {
            before
        } else {
            match reclaimable(
                routes,
                remote,
                owner,
                key,
                None,
                Some(slot_size),
                OwnerReclaimReason::Reserve,
                rights,
            ) {
                None => CandidateModel { epoch: before.epoch + 1, ..before },
                Some(backing) => CandidateModel {
                    items: before.items.push(
                        ItemId {
                            key,
                            put_id: routes[key].put_id,
                            epoch: before.epoch as u64,
                            backing,
                            reason: OwnerReclaimReason::Reserve,
                        },
                    ),
                    epoch: before.epoch + 1,
                },
            }
        }
    }
}

/// Finds up to `limit` copies on an owner that lie in slots of the given size and may be reclaimed.
pub fn collect_reserve_candidates(
    routes: &KeyTable<OneKvNodesRoutes>,
    activity: &MasterKeyActivityTable,
    remote: &NameSet,
    owner: &String,
    slot_size: u64,
    limit: usize,
    next_epoch: &mut u64,
    rights: EvictionRights,
) -> (r: Vec<OwnerReclaimItem>)
    requires
        routes.wf(),
        routes_wf(routes@),
        activity.wf(),
        *old(next_epoch) + routes.rows().len() <= u64::MAX,
    ensures
        (CandidateModel { items: item_ids(r@), epoch: *final(next_epoch) as int }) == candidates(
            routes.rows(),
            routes@,
            activity@,
            remote@,
            owner@,
            slot_size,
            limit as int,
            *old(next_epoch) as int,
            rights,
        ),
        r@.len() <= limit,
{
    let ghost rows = routes.rows();
    let ghost first = *next_epoch as int;
    let mut items: Vec<OwnerReclaimItem> = Vec::new();
    let mut i: usize = 0;
    proof {
        assert(rows.take(0) =~= Seq::empty());
        assert(item_ids(items@) =~= Seq::empty());
    }
    while i < routes.len()
        invariant
            routes.wf(),
            routes_wf(routes@),
            activity.wf(),
            rows == routes.rows(),
            i <= rows.len(),
            first + rows.len() <= u64::MAX,
            first <= *next_epoch <= first + i,
            items@.len() <= limit,
            (CandidateModel { items: item_ids(items@), epoch: *next_epoch as int }) == candidates(
                rows.take(i as int),
                routes@,
                activity@,
                remote@,
                owner@,
                slot_size,
                limit as int,
                first,
                rights,
            ),
        decreases rows.len() - i,
    {
        let row = routes.row(i);
        proof {
            assert(rows.take(i + 1).drop_last() =~= rows.take(i as int));
            assert(rows.take(i + 1).last() == rows[i as int]);
            assert(item_ids(items@).len() == items@.len());
        }
        if items.len() < limit && activity.is_quiescent(&row.0) {
            let epoch: u64 = *next_epoch;
            *next_epoch = epoch + 1;
            match route_item(
                routes,
                remote,
                owner,
                &row.0,
                None,
                Some(slot_size),
                OwnerReclaimReason::Reserve,
                epoch,
                rights,
            ) {
                Some(item) => {
                    let ghost before = items@;
                    let ghost id = item@;
                    items.push(item);
                    assert(item_ids(items@) =~= item_ids(before).push(id));
                },
                None => {},
            }
        }
        i += 1;
    }
    assert(rows.take(rows.len() as int) =~= rows);
    items
}

/// A walk through candidates, batch by batch, until enough slots are free.
#[derive(Clone, Copy, Debug, PartialEq, Eq, Structural)]
pub struct ReserveScan {
    pub candidates: usize,
    pub required_free_slots: u32,
    pub reclaimed: u32,
    pub scanned: usize,
}

impl ReserveScan {
    /// No more candidates were looked at than there are, and no more slots freed than needed.
    pub open spec fn wf(&self) -> bool {
        self.scanned <= self.candidates && self.reclaimed <= self.required_free_slots
    }

    pub fn new(candidates: usize, required_free_slots: u32) -> (r: Self)
        ensures
            r.wf(),
            r == (ReserveScan { candidates, required_free_slots, reclaimed: 0, scanned: 0 }),
    {
        ReserveScan { candidates, required_free_slots, reclaimed: 0, scanned: 0 }
    }

    /// The length of the next batch: as many candidates as slots are still needed.
    pub open spec fn batch_len(&self) -> int {
        let needed = self.required_free_slots - self.reclaimed;
        let left = self.candidates - self.scanned;
        if needed < left {
            needed
        } else {
            left
        }
    }

    /// The next batch was taken.
    pub open spec fn batch_taken(&self, after: Self, r: Option<(usize, usize)>) -> bool {
        &&& after.wf()
        &&& r is None <==> self.batch_len() == 0
        &&& r is None ==> after == *self
        &&& r matches Some((from, to)) ==> {
            &&& from == self.scanned
            &&& to == from + self.batch_len()
            &&& after == (ReserveScan { scanned: to, ..*self })
        }
    }

    /// Note was taken of the slots that a batch has freed.
    pub open spec fn batch_noted(
        &self,
        batch_size: usize,
        batch_reclaimed: u32,
        after: Self,
    ) -> bool {
        &&& after.wf()
        &&& after == (ReserveScan {
            reclaimed: (self.reclaimed + if batch_reclaimed < batch_size {
                batch_reclaimed as int
            } else {
                batch_size as int
            }) as u32,
            ..*self
        })
    }

    /// The next batch, from the first to behind the last candidate, or nothing when enough slots are
    /// free or no candidates are left.
    pub fn next_batch(&mut self) -> (r: Option<(usize, usize)>)
        requires
            old(self).wf(),
        ensures
            old(self).batch_taken(*final(self), r),
    {
        if self.reclaimed >= self.required_free_slots || self.scanned >= self.candidates {
            return None;
        }
        let needed: u32 = self.required_free_slots - self.reclaimed;
        let left: usize = self.candidates - self.scanned;
        let len: usize = if (needed as u64) < left as u64 {
            needed as usize
        } else {
            left
        };
        let from: usize = self.scanned;
        let to: usize = from + len;
        self.scanned = to;
        Some((from, to))
    }

    /// Takes note of the slots that a batch has freed, which are no more than its candidates.
    pub fn batch_done(&mut self, batch_size: usize, batch_reclaimed: u32)
        requires
            old(self).wf(),
            batch_size <= old(self).required_free_slots - old(self).reclaimed,
        ensures
            old(self).batch_noted(batch_size, batch_reclaimed, *final(self)),
    {
        let freed: u32 = if (batch_reclaimed as u64) < batch_size as u64 {
            batch_reclaimed
        } else {
            batch_size as u32
        };
        self.reclaimed = self.reclaimed + freed;
    }
}

/// A walk ends only when enough slots are free or all candidates were looked at.
pub proof fn scan_ends_when_done(scan: ReserveScan)
    requires
        scan.wf(),
    ensures
        scan.batch_len() == 0 <==> scan.reclaimed == scan.required_free_slots || scan.scanned
            == scan.candidates,
{
}

/// A copy that a cache has dropped and that waits to be reclaimed.
#[derive(Debug)]
pub struct EvictionReclaimRequest {
    pub owner_node_id: String,
    pub key: String,
    pub desc: NodeValueReplicaDesc,
    pub retry_count: u32,
}

/// What becomes of a copy that could not be reclaimed.
#[derive(Clone, Copy, Debug, PartialEq, Eq, Structural)]
pub enum RetryStep {
    /// The copy need not be reclaimed any more.
    Finished,
    /// The copy is to go back into the cache.
    TryRestore,
    /// The copy is tried again later.
    Delay,
}

/// The counters after a copy changed before it could be reclaimed.
pub open spec fn changed_meanwhile(c: EvictionReclaimCounters) -> EvictionReclaimCounters {
    EvictionReclaimCounters {
        route_changed: plus(c.route_changed, 1),
        retry_completed: plus(c.retry_completed, 1),
        ..c
    }
}

impl EvictionReclaimRequest {
    /// The entry of the cache still stands for a copy.
    pub open spec fn current(&self, routes: Routes) -> bool {
        crate::cache_policy::entry_current(
            routes,
            self.owner_node_id@,
            self.key@,
            self.desc.put_id,
        )
    }

    /// The weight of the copy can be taken off what waits.
    pub open spec fn pending(&self, weights: Map<Seq<char>, u64>) -> bool {
        self.desc.weight_bytes <= crate::cache_policy::pending_of(weights, self.owner_node_id@)
    }

    /// What waits after the copy was taken off.
    pub open spec fn taken_off(&self, weights: Map<Seq<char>, u64>) -> Map<Seq<char>, u64> {
        if self.desc.weight_bytes == 0 {
            weights
        } else {
            weights.insert(
                self.owner_node_id@,
                (crate::cache_policy::pending_of(weights, self.owner_node_id@)
                    - self.desc.weight_bytes) as u64,
            )
        }
    }

    /// Everything but the number of tries is the same.
    pub open spec fn same_copy(&self, other: &Self) -> bool {
        &&& self.owner_node_id == other.owner_node_id
        &&& self.key == other.key
        &&& self.desc == other.desc
    }

    /// It was decided about a copy that could not be reclaimed once more.
    pub open spec fn retried(
        &self,
        routes: Routes,
        weights: Map<Seq<char>, u64>,
        counters: EvictionReclaimCounters,
        r: RetryStep,
        after: Self,
        weights_after: Map<Seq<char>, u64>,
        counters_after: EvictionReclaimCounters,
    ) -> bool {
        &&& after.same_copy(self)
        &&& after.retry_count == if self.retry_count == u32::MAX {
            u32::MAX as int
        } else {
            self.retry_count + 1
        }
        &&& if !self.current(routes) {
            &&& r == RetryStep::Finished
            &&& counters_after == changed_meanwhile(counters)
            &&& weights_after == self.taken_off(weights)
        } else if after.retry_count >= EVICTION_RECLAIM_MAX_RETRY_COUNT {
            &&& r == RetryStep::TryRestore
            &&& counters_after == counters
            &&& weights_after == weights
        } else {
            &&& r == RetryStep::Delay
            &&& counters_after == (EvictionReclaimCounters {
                retry_queued: plus(counters.retry_queued, 1),
                ..counters
            })
            &&& weights_after == weights
        }
    }

    /// It was decided about a copy after an attempt to put it back into the cache.
    pub open spec fn restore_settled(
        &self,
        restored: bool,
        routes: Routes,
        weights: Map<Seq<char>, u64>,
        counters: EvictionReclaimCounters,
        r: RetryStep,
        weights_after: Map<Seq<char>, u64>,
        counters_after: EvictionReclaimCounters,
    ) -> bool {
        if restored {
            &&& r == RetryStep::Finished
            &&& counters_after == (EvictionReclaimCounters {
                retry_restored: plus(counters.retry_restored, 1),
                retry_completed: plus(counters.retry_completed, 1),
                ..counters
            })
            &&& weights_after == self.taken_off(weights)
        } else if !self.current(routes) {
            &&& r == RetryStep::Finished
            &&& counters_after == changed_meanwhile(counters)
            &&& weights_after == self.taken_off(weights)
        } else {
            &&& r == RetryStep::Delay
            &&& counters_after == (EvictionReclaimCounters {
                retry_queued: plus(counters.retry_queued, 1),
                ..counters
            })
            &&& weights_after == weights
        }
    }

    /// It was decided about a copy that waited to be tried again.
    pub open spec fn delay_settled(
        &self,
        routes: Routes,
        weights: Map<Seq<char>, u64>,
        counters: EvictionReclaimCounters,
        r: bool,
        weights_after: Map<Seq<char>, u64>,
        counters_after: EvictionReclaimCounters,
    ) -> bool {
        &&& r == self.current(routes)
        &&& if r {
            &&& counters_after == counters
            &&& weights_after == weights
        } else {
            &&& counters_after == changed_meanwhile(counters)
            &&& weights_after == self.taken_off(weights)
        }
    }

    /// The copy waits no more, as the queue is closed.
    pub open spec fn closing_settled(
        &self,
        restored: bool,
        weights: Map<Seq<char>, u64>,
        counters: EvictionReclaimCounters,
        weights_after: Map<Seq<char>, u64>,
        counters_after: EvictionReclaimCounters,
    ) -> bool {
        &&& weights_after == self.taken_off(weights)
        &&& counters_after == (EvictionReclaimCounters {
            retry_completed: plus(counters.retry_completed, 1),
            retry_restored: if restored {
                plus(counters.retry_restored, 1)
            } else {
                counters.retry_restored
            },
            ..counters
        })
    }

    /// Decides about a copy that could not be reclaimed once more.
    pub fn retry(
        &mut self,
        routes: &KeyTable<OneKvNodesRoutes>,
        weights: &mut PendingReclaimWeights,
        counters: &mut EvictionReclaimCounters,
    ) -> (r: RetryStep)
        requires
            routes.wf(),
            routes_wf(routes@),
            old(weights).wf(),
            old(self).pending(old(weights)@),
        ensures
            final(weights).wf(),
            old(self).retried(
                routes@,
                old(weights)@,
                *old(counters),
                r,
                *final(self),
                final(weights)@,
                *final(counters),
            ),
    {
        self.retry_count = self.retry_count.saturating_add(1);
        if !eviction_cache_entry_is_current(
            routes,
            &self.owner_node_id,
            self.key.as_str(),
            &self.desc,
        ) {
            weights.complete_eviction_reclaim_weight(
                &self.owner_node_id,
                self.desc.weight_bytes as u64,
            );
            counters.route_changed = counters.route_changed.wrapping_add(1);
            counters.retry_completed = counters.retry_completed.wrapping_add(1);
            return RetryStep::Finished;
        }
        if should_restore_after_retry(self.retry_count) {
            return RetryStep::TryRestore;
        }
        counters.retry_queued = counters.retry_queued.wrapping_add(1);
        RetryStep::Delay
    }

    /// Decides about a copy after an attempt to put it back into the cache.
    pub fn after_restore(
        &self,
        restored: bool,
        routes: &KeyTable<OneKvNodesRoutes>,
        weights: &mut PendingReclaimWeights,
        counters: &mut EvictionReclaimCounters,
    ) -> (r: RetryStep)
        requires
            routes.wf(),
            routes_wf(routes@),
            old(weights).wf(),
            self.pending(old(weights)@),
        ensures
            final(weights).wf(),
            self.restore_settled(
                restored,
                routes@,
                old(weights)@,
                *old(counters),
                r,
                final(weights)@,
                *final(counters),
            ),
    {
        if restored {
            weights.complete_eviction_reclaim_weight(
                &self.owner_node_id,
                self.desc.weight_bytes as u64,
            );
            counters.retry_restored = counters.retry_restored.wrapping_add(1);
            counters.retry_completed = counters.retry_completed.wrapping_add(1);
            return RetryStep::Finished;
        }
        if !eviction_cache_entry_is_current(
            routes,
            &self.owner_node_id,
            self.key.as_str(),
            &self.desc,
        ) {
            weights.complete_eviction_reclaim_weight(
                &self.owner_node_id,
                self.desc.weight_bytes as u64,
            );
            counters.route_changed = counters.route_changed.wrapping_add(1);
            counters.retry_completed = counters.retry_completed.wrapping_add(1);
            return RetryStep::Finished;
        }
        counters.retry_queued = counters.retry_queued.wrapping_add(1);
        RetryStep::Delay
    }

    /// Decides about a copy that waited to be tried again. Tells whether it goes back into the queue.
    pub fn after_delay(
        &self,
        routes: &KeyTable<OneKvNodesRoutes>,
        weights: &mut PendingReclaimWeights,
        counters: &mut EvictionReclaimCounters,
    ) -> (r: bool)
        requires
            routes.wf(),
            routes_wf(routes@),
            old(weights).wf(),
            self.pending(old(weights)@),
        ensures
            final(weights).wf(),
            self.delay_settled(
                routes@,
                old(weights)@,
                *old(counters),
                r,
                final(weights)@,
                *final(counters),
            ),
    {
        if !eviction_cache_entry_is_current(
            routes,
            &self.owner_node_id,
            self.key.as_str(),
            &self.desc,
        ) {
            weights.complete_eviction_reclaim_weight(
                &self.owner_node_id,
                self.desc.weight_bytes as u64,
            );
            counters.route_changed = counters.route_changed.wrapping_add(1);
            counters.retry_completed = counters.retry_completed.wrapping_add(1);
            return false;
        }
        true
    }

    /// The queue is closed: the copy does not wait any more. `restored` tells whether it went back
    /// into the cache.
    pub fn queue_closed(
        &self,
        restored: bool,
        weights: &mut PendingReclaimWeights,
        counters: &mut EvictionReclaimCounters,
    )
        requires
            old(weights).wf(),
            self.pending(old(weights)@),
        ensures
            final(weights).wf(),
            self.closing_settled(
                restored,
                old(weights)@,
                *old(counters),
                final(weights)@,
                *final(counters),
            ),
    {
        weights.complete_eviction_reclaim_weight(
            &self.owner_node_id,
            self.desc.weight_bytes as u64,
        );
        counters.retry_completed = counters.retry_completed.wrapping_add(1);
        if restored {
            counters.retry_restored = counters.retry_restored.wrapping_add(1);
        }
    }
}

/// The delay after the most tries that one of some copies has had.
pub open spec fn batch_delay_is(delayed: Seq<EvictionReclaimRequest>, r: u64) -> bool {
    exists|n: u32|
        {
            &&& r == #[trigger] retry_delay_ms(n as int)
            &&& forall|i: int| 0 <= i < delayed.len() ==> (#[trigger] delayed[i]).retry_count <= n
            &&& if delayed.len() == 0 {
                n == 1
            } else {
                exists|i: int| 0 <= i < delayed.len() && (#[trigger] delayed[i]).retry_count == n
            }
        }
}

/// The longest delay that one of some copies calls for.
pub fn batch_retry_delay(delayed: &Vec<EvictionReclaimRequest>) -> (r: u64)
    ensures
        batch_delay_is(delayed@, r),
{
    let mut max: u32 = 1;
    let mut i: usize = 0;
    while i < delayed.len()
        invariant
            i <= delayed@.len(),
            i == 0 ==> max == 1,
            forall|j: int| 0 <= j < i ==> (#[trigger] delayed@[j]).retry_count <= max,
            i > 0 ==> exists|j: int| 0 <= j < i && (#[trigger] delayed@[j]).retry_count == max,
        decreases delayed@.len() - i,
    {
        let n: u32 = delayed[i].retry_count;
        assert(delayed@[i as int].retry_count == n);
        if i == 0 || n > max {
            max = n;
        }
        i += 1;
    }
    eviction_reclaim_retry_delay(max)
}

/// A request for the same version of the same key came before.
pub open spec fn asked_before(requests: Seq<EvictionReclaimRequest>, i: int) -> bool {
    exists|j: int|
        0 <= j < i && (#[trigger] requests[j]).key@ == requests[i].key@ && requests[j].desc.put_id
            == requests[i].desc.put_id
}

/// The requests that are the first for their version of their key.
pub open spec fn first_requests(requests: Seq<EvictionReclaimRequest>, n: int) -> Seq<int>
    decreases n,
{
    if n <= 0 {
        Seq::empty()
    } else if asked_before(requests, n - 1) {
        first_requests(requests, n - 1)
    } else {
        first_requests(requests, n - 1).push(n - 1)
    }
}

/// The weight of the requests that repeat an earlier one.
pub open spec fn repeated_weight(requests: Seq<EvictionReclaimRequest>, n: int) -> int
    decreases n,
{
    if n <= 0 {
        0
    } else if asked_before(requests, n - 1) {
        repeated_weight(requests, n - 1) + requests[n - 1].desc.weight_bytes
    } else {
        repeated_weight(requests, n - 1)
    }
}

proof fn lemma_repeated_weight(requests: Seq<EvictionReclaimRequest>, n: int)
    requires
        0 <= n <= requests.len(),
    ensures
        0 <= repeated_weight(requests, n) <= n * u32::MAX,
    decreases n,
{
    if n > 0 {
        lemma_repeated_weight(requests, n - 1);
        assert(n * u32::MAX == (n - 1) * u32::MAX + u32::MAX) by (nonlinear_arith);
    }
}

/// Finds the requests of a batch that are the first for their version of their key, and the weight
/// of the others, which are done with.
pub fn deduplicate_requests(requests: &Vec<EvictionReclaimRequest>) -> (r: (Vec<usize>, u64))
    requires
        requests@.len() <= OWNER_RECLAIM_MAX_BATCH,
    ensures
        r.0@.len() == first_requests(requests@, requests@.len() as int).len(),
        forall|i: int|
            0 <= i < r.0@.len() ==> #[trigger] r.0@[i] == first_requests(
                requests@,
                requests@.len() as int,
            )[i],
        r.1 == repeated_weight(requests@, requests@.len() as int),
{
    let mut firsts: Vec<usize> = Vec::new();
    let mut weight: u64 = 0;
    let mut i: usize = 0;
    while i < requests.len()
        invariant
            i <= requests@.len() <= OWNER_RECLAIM_MAX_BATCH,
            firsts@.len() == first_requests(requests@, i as int).len(),
            forall|j: int|
                0 <= j < firsts@.len() ==> #[trigger] firsts@[j] == first_requests(
                    requests@,
                    i as int,
                )[j],
            weight == repeated_weight(requests@, i as int),
        decreases requests@.len() - i,
    {
        proof {
            lemma_repeated_weight(requests@, i + 1);
        }
        let mut seen = false;
        let mut j: usize = 0;
        while j < i
            invariant
                j <= i < requests@.len(),
                seen == exists|h: int|
                    0 <= h < j && (#[trigger] requests@[h]).key@ == requests@[i as int].key@
                        && requests@[h].desc.put_id == requests@[i as int].desc.put_id,
            decreases i - j,
        {
            let a = &requests[j];
            let b = &requests[i];
            if a.key == b.key && a.desc.put_id.0 == b.desc.put_id.0 && a.desc.put_id.1
                == b.desc.put_id.1 {
                assert(requests@[j as int].key@ == requests@[i as int].key@);
                seen = true;
            }
            j += 1;
        }
        assert(seen == asked_before(requests@, i as int));
        if seen {
            weight = weight + requests[i].desc.weight_bytes as u64;
        } else {
            firsts.push(i);
        }
        i += 1;
    }
    (firsts, weight)
}

/// What is known while the requests of a batch are settled.
#[verifier::ext_equal]
pub struct SettleModel {
    /// The requests that are tried again, by their place in the batch.
    pub retry: Seq<int>,
    /// The weight that need not be reclaimed any more.
    pub completed_weight: int,
    pub counters: EvictionReclaimCounters,
}

/// The requests at the given places are settled, one after another: those that still stand for a
/// copy are tried again.
pub open spec fn settled(
    m: SettleModel,
    requests: Seq<EvictionReclaimRequest>,
    places: Seq<usize>,
    routes: Routes,
) -> SettleModel
    decreases places.len(),
{
    if places.len() == 0 {
        m
    } else {
        let before = settled(m, requests, places.drop_last(), routes);
        let at = places.last() as int;
        let request = requests[at];
        if request.current(routes) {
            SettleModel { retry: before.retry.push(at), ..before }
        } else {
            SettleModel {
                completed_weight: before.completed_weight + request.desc.weight_bytes,
                counters: EvictionReclaimCounters {
                    route_changed: plus(before.counters.route_changed, 1),
                    retry_completed: if request.retry_count != 0 {
                        plus(before.counters.retry_completed, 1)
                    } else {
                        before.counters.retry_completed
                    },
                    ..before.counters
                },
                ..before
            }
        }
    }
}

/// Settles the requests of a batch after an attempt to reclaim their copies. Returns the places of
/// those that are tried again, and the weight that need not be reclaimed any more, to which
/// `repeated` is added.
pub fn settle_requests(
    requests: &Vec<EvictionReclaimRequest>,
    places: &Vec<usize>,
    repeated: u64,
    routes: &KeyTable<OneKvNodesRoutes>,
    counters: &mut EvictionReclaimCounters,
) -> (r: (Vec<usize>, u64))
    requires
        routes.wf(),
        routes_wf(routes@),
        forall|i: int| 0 <= i < places@.len() ==> #[trigger] places@[i] < requests@.len(),
        places@.len() <= OWNER_RECLAIM_MAX_BATCH,
        repeated <= OWNER_RECLAIM_MAX_BATCH * u32::MAX,
    ensures
        (SettleModel {
            retry: Seq::new(r.0@.len(), |i: int| r.0@[i] as int),
            completed_weight: r.1 as int,
            counters: *final(counters),
        }) == settled(
            SettleModel {
                retry: Seq::empty(),
                completed_weight: repeated as int,
                counters: *old(counters),
            },
            requests@,
            places@,
            routes@,
        ),
{
    let ghost start = SettleModel {
        retry: Seq::empty(),
        completed_weight: repeated as int,
        counters: *counters,
    };
    let mut retry: Vec<usize> = Vec::new();
    let mut completed_weight: u64 = repeated;
    let mut i: usize = 0;
    proof {
        assert(places@.take(0) =~= Seq::empty());
        assert(Seq::new(retry@.len(), |i: int| retry@[i] as int) =~= Seq::empty());
    }
    while i < places.len()
        invariant
            routes.wf(),
            routes_wf(routes@),
            i <= places@.len() <= OWNER_RECLAIM_MAX_BATCH,
            forall|i: int| 0 <= i < places@.len() ==> #[trigger] places@[i] < requests@.len(),
            completed_weight <= (OWNER_RECLAIM_MAX_BATCH + i) * u32::MAX,
            (SettleModel {
                retry: Seq::new(retry@.len(), |i: int| retry@[i] as int),
                completed_weight: completed_weight as int,
                counters: *counters,
            }) == settled(start, requests@, places@.take(i as int), routes@),
        decreases places@.len() - i,
    {
        let at: usize = places[i];
        let request = &requests[at];
        let ghost before = retry@;
        proof {
            assert(places@.take(i + 1).drop_last() =~= places@.take(i as int));
            assert(places@.take(i + 1).last() == at);
            assert((OWNER_RECLAIM_MAX_BATCH + i + 1) * u32::MAX == (OWNER_RECLAIM_MAX_BATCH + i)
                * u32::MAX + u32::MAX) by (nonlinear_arith);
            assert((OWNER_RECLAIM_MAX_BATCH + i + 1) * u32::MAX <= u64::MAX) by (nonlinear_arith)
                requires
                    i < 256,
                    OWNER_RECLAIM_MAX_BATCH == 256,
            ;
        }
        if eviction_cache_entry_is_current(
            routes,
            &request.owner_node_id,
            request.key.as_str(),
            &request.desc,
        ) {
            retry.push(at);
        } else {
            completed_weight = completed_weight.saturating_add(request.desc.weight_bytes as u64);
            counters.route_changed = counters.route_changed.wrapping_add(1);
            if request.retry_count != 0 {
                counters.retry_completed = counters.retry_completed.wrapping_add(1);
            }
        }
        proof {
            if retry@.len() > before.len() {
                assert(Seq::new(retry@.len(), |i: int| retry@[i] as int) =~= Seq::new(
                    before.len(),
                    |i: int| before[i] as int,
                ).push(at as int));
            } else {
                assert(retry@ == before);
            }
        }
        i += 1;
    }
    assert(places@.take(places@.len() as int) =~= places@);
    (retry, completed_weight)
}

} // verus!
