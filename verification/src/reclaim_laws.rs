//! What may be reclaimed, and what a run of reclaiming leaves alone.
use vstd::prelude::*;

use crate::cache_policy::{pending_of, EvictionReclaimCounters};
use crate::ids::PutIDForAKey;
use crate::key_activity::{
    activity_of, ActivityMap, ActivityModel, ItemId, OwnerReclaimBacking, OwnerReclaimItem,
    OwnerReclaimReason,
};
use crate::reclaim::{
    candidates, copies_taken, copy_taken, fence_all, fence_one, item_ids, item_offered, items_where,
    phase_checked, prepare_all, revalidate_all, unfenced_where, EvictionReclaimRequest,
    EvictionRights, FenceModel, OwnerReclaimItemResp, OwnerReclaimItemState, OwnerReclaimPhase,
    PhaseFault, PrepareModel, RetryStep, RevalidateModel,
};
use crate::reclaim_run::{
    abort_noted, answer_taken, heard, is_unindexed, next_delay, run_begun, state_at, AbortRetry,
    FinalizeRetry, RunModel, RunPhase, RunStep,
};
use crate::recoverability::Routes;
use crate::routes::{KvReplicaBacking, KvRouteInfo, OneKvNodesRoutes};

verus! {

/// The node has a copy and is there.
pub open spec fn copy_on(route: OneKvNodesRoutes, node: Seq<char>) -> bool {
    route.nodes_replicas@.contains_key(node) && !route.nodes_replicas@[node].tomb_tag.tomb
}

/// The copy lies in what is described.
pub open spec fn lies_in(copy: KvRouteInfo, owner: Seq<char>, backing: OwnerReclaimBacking) -> bool {
    match copy.backing {
        KvReplicaBacking::Allocation(_) => if copy.owner_local_indexed {
            backing == OwnerReclaimBacking::Allocation
        } else {
            backing == OwnerReclaimBacking::UnindexedAllocation
        },
        KvReplicaBacking::CommittedSlot(slot) => {
            &&& slot.owner_node_id@ == owner
            &&& backing == (OwnerReclaimBacking::CommittedSlot {
                grant_id: slot.grant_id,
                slot_index: slot.slot_index,
                slot_size: slot.slot_size,
            })
        },
    }
}

/// The version of the key has no lease, and its owner is there with a copy.
pub open spec fn free_to_go(routes: Routes, owner: Seq<char>, key: Seq<char>, put_id: PutIDForAKey) -> bool {
    &&& routes.contains_key(key)
    &&& routes[key].put_id == put_id
    &&& routes[key].lease_id is None
    &&& copy_on(routes[key], owner)
}

/// Only a copy of the current version is offered, of a key without a lease, on an owner that is there;
/// it is described as it lies. To make room for slots, it must lie in a slot of the right size, and the
/// value must be on another node too unless losing it is allowed. Nothing else keeps a copy from being
/// offered.
pub proof fn what_is_offered_may_go(
    routes: Routes,
    remote: Set<Seq<char>>,
    owner: Seq<char>,
    key: Seq<char>,
    expected_put_id: Option<PutIDForAKey>,
    required_slot_size: Option<u64>,
    reason: OwnerReclaimReason,
    epoch: u64,
    rights: EvictionRights,
    r: Option<OwnerReclaimItem>,
)
    requires
        item_offered(
            routes,
            remote,
            owner,
            key,
            expected_put_id,
            required_slot_size,
            reason,
            epoch,
            rights,
            r,
        ),
    ensures
        r matches Some(item) ==> {
            &&& item.key@ == key
            &&& item.epoch == epoch
            &&& item.reason == reason
            &&& free_to_go(routes, owner, key, item.put_id)
            &&& expected_put_id matches Some(id) ==> id == item.put_id
            &&& lies_in(routes[key].nodes_replicas@[owner], owner, item.backing)
            &&& required_slot_size matches Some(size) ==> {
                &&& item.backing matches OwnerReclaimBacking::CommittedSlot { slot_size, .. }
                &&& slot_size == size
            }
            &&& reason == OwnerReclaimReason::Reserve && !rights.reserve_pressure ==> exists|
                n: Seq<char>,
            |
                n != owner && #[trigger] copy_on(routes[key], n)
        },
        r is None && routes.contains_key(key) && free_to_go(routes, owner, key, routes[key].put_id)
            && (expected_put_id is None || expected_put_id == Some(routes[key].put_id)) && (reason
            != OwnerReclaimReason::Reserve || rights.reserve_pressure) ==> {
            let copy = routes[key].nodes_replicas@[owner];
            match copy.backing {
                KvReplicaBacking::Allocation(_) => required_slot_size is Some,
                KvReplicaBacking::CommittedSlot(slot) => slot.owner_node_id@ != owner || (
                required_slot_size matches Some(size) && size != slot.slot_size),
            }
        },
{
    if routes.contains_key(key) {
        let route = routes[key];
        if route.live_elsewhere(owner) {
            let n = choose|n: Seq<char>| n != owner && #[trigger] route.live_on(n);
            assert(copy_on(route, n));
        }
    }
}

/// Copies are looked for only among keys that nothing is under way for; each is offered once, none of a
/// key with a lease, no more than asked for, and each with an epoch of its own.
pub proof fn candidates_may_go(
    rows: Seq<(String, OneKvNodesRoutes)>,
    routes: Routes,
    activity: ActivityMap,
    remote: Set<Seq<char>>,
    owner: Seq<char>,
    slot_size: u64,
    limit: int,
    epoch: int,
    rights: EvictionRights,
)
    requires
        0 <= limit,
        0 <= epoch,
        epoch + rows.len() <= u64::MAX,
        forall|i: int, j: int|
            0 <= i < rows.len() && 0 <= j < rows.len() && i != j ==> (#[trigger] rows[i]).0@ != (
            #[trigger] rows[j]).0@,
    ensures
        ({
            let found = candidates(
                rows,
                routes,
                activity,
                remote,
                owner,
                slot_size,
                limit,
                epoch,
                rights,
            );
            &&& found.items.len() <= limit
            &&& epoch <= found.epoch <= epoch + rows.len()
            &&& forall|i: int|
                0 <= i < found.items.len() ==> {
                    let item = #[trigger] found.items[i];
                    &&& free_to_go(routes, owner, item.key, item.put_id)
                    &&& activity_of(activity, item.key) == ActivityModel::idle()
                    &&& lies_in(routes[item.key].nodes_replicas@[owner], owner, item.backing)
                    &&& item.backing matches OwnerReclaimBacking::CommittedSlot { slot_size: s, .. }
                    &&& s == slot_size
                    &&& epoch <= item.epoch < found.epoch
                }
            &&& forall|i: int, j: int|
                0 <= i < j < found.items.len() ==> (#[trigger] found.items[i]).key != (
                #[trigger] found.items[j]).key && found.items[i].epoch < found.items[j].epoch
        }),
    decreases rows.len(),
{
    let found = candidates(
        rows,
        routes,
        activity,
        remote,
        owner,
        slot_size,
        limit,
        epoch,
        rights,
    );
    if rows.len() > 0 {
        let less = rows.drop_last();
        candidates_may_go(less, routes, activity, remote, owner, slot_size, limit, epoch, rights);
        lemma_candidates_from(less, routes, activity, remote, owner, slot_size, limit, epoch, rights);
        let before = candidates(
            less,
            routes,
            activity,
            remote,
            owner,
            slot_size,
            limit,
            epoch,
            rights,
        );
        assert forall|i: int, j: int| 0 <= i < j < found.items.len() implies (
        #[trigger] found.items[i]).key != (#[trigger] found.items[j]).key && found.items[i].epoch
            < found.items[j].epoch by {
            if j < before.items.len() {
                assert(before.items[i].key != before.items[j].key);
            } else {
                assert(before.items[i] == found.items[i]);
                let h = choose|h: int| 0 <= h < less.len() && (#[trigger] less[h]).0@
                    == before.items[i].key;
                assert(rows[h].0@ != rows[rows.len() - 1].0@);
            }
        }
    }
}

/// Each candidate is one of the rows.
proof fn lemma_candidates_from(
    rows: Seq<(String, OneKvNodesRoutes)>,
    routes: Routes,
    activity: ActivityMap,
    remote: Set<Seq<char>>,
    owner: Seq<char>,
    slot_size: u64,
    limit: int,
    epoch: int,
    rights: EvictionRights,
)
    ensures
        ({
            let found = candidates(
                rows,
                routes,
                activity,
                remote,
                owner,
                slot_size,
                limit,
                epoch,
                rights,
            );
            forall|i: int|
                0 <= i < found.items.len() ==> exists|h: int|
                    0 <= h < rows.len() && (#[trigger] rows[h]).0@ == (#[trigger] found.items[i]).key
        }),
    decreases rows.len(),
{
    if rows.len() > 0 {
        let less = rows.drop_last();
        lemma_candidates_from(less, routes, activity, remote, owner, slot_size, limit, epoch, rights);
        let before = candidates(
            less,
            routes,
            activity,
            remote,
            owner,
            slot_size,
            limit,
            epoch,
            rights,
        );
        let found = candidates(
            rows,
            routes,
            activity,
            remote,
            owner,
            slot_size,
            limit,
            epoch,
            rights,
        );
        assert forall|i: int| 0 <= i < found.items.len() implies exists|h: int|
            0 <= h < rows.len() && (#[trigger] rows[h]).0@ == (#[trigger] found.items[i]).key by {
            if i < before.items.len() {
                assert(found.items[i] == before.items[i]);
                let h = choose|h: int| 0 <= h < less.len() && (#[trigger] less[h]).0@
                    == before.items[i].key;
                assert(rows[h].0@ == found.items[i].key);
            } else {
                assert(rows[rows.len() - 1].0@ == found.items[i].key);
            }
        }
    }
}

/// A copy that may be reclaimed and that nothing is under way for is found, unless enough others were.
pub proof fn candidates_are_all_found(
    rows: Seq<(String, OneKvNodesRoutes)>,
    routes: Routes,
    activity: ActivityMap,
    remote: Set<Seq<char>>,
    owner: Seq<char>,
    slot_size: u64,
    limit: int,
    epoch: int,
    rights: EvictionRights,
    h: int,
)
    requires
        0 <= h < rows.len(),
        rights.reserve_pressure,
        activity_of(activity, rows[h].0@) == ActivityModel::idle(),
        routes.contains_key(rows[h].0@),
        free_to_go(routes, owner, rows[h].0@, routes[rows[h].0@].put_id),
        routes[rows[h].0@].nodes_replicas@[owner].backing matches KvReplicaBacking::CommittedSlot(s)
            && s.owner_node_id@ == owner && s.slot_size == slot_size,
    ensures
        ({
            let found = candidates(
                rows,
                routes,
                activity,
                remote,
                owner,
                slot_size,
                limit,
                epoch,
                rights,
            );
            found.items.len() >= limit || exists|i: int|
                0 <= i < found.items.len() && (#[trigger] found.items[i]).key == rows[h].0@
        }),
    decreases rows.len(),
{
    let found = candidates(
        rows,
        routes,
        activity,
        remote,
        owner,
        slot_size,
        limit,
        epoch,
        rights,
    );
    let less = rows.drop_last();
    let before = candidates(
        less,
        routes,
        activity,
        remote,
        owner,
        slot_size,
        limit,
        epoch,
        rights,
    );
    if h < less.len() {
        candidates_are_all_found(
            less,
            routes,
            activity,
            remote,
            owner,
            slot_size,
            limit,
            epoch,
            rights,
            h,
        );
        if before.items.len() < limit {
            let i = choose|i: int|
                0 <= i < before.items.len() && (#[trigger] before.items[i]).key == rows[h].0@;
            assert(found.items[i].key == rows[h].0@);
        }
    } else if before.items.len() < limit {
        assert(found.items[found.items.len() - 1].key == rows[h].0@);
    }
}

/// One of the items is of the key.
pub open spec fn has_key(items: Seq<ItemId>, key: Seq<char>) -> bool {
    exists|i: int| 0 <= i < items.len() && (#[trigger] items[i]).key == key
}

/// The copy that the item speaks of may go, and is described as it lies.
pub open spec fn item_may_go(routes: Routes, owner: Seq<char>, item: ItemId) -> bool {
    free_to_go(routes, owner, item.key, item.put_id) && lies_in(
        routes[item.key].nodes_replicas@[owner],
        owner,
        item.backing,
    )
}

proof fn lemma_fence_step(
    m: FenceModel,
    routes: Routes,
    remote: Set<Seq<char>>,
    owner: Seq<char>,
    holders: Set<Seq<char>>,
    item: ItemId,
    rights: EvictionRights,
)
    ensures
        ({
            let after = fence_one(m, routes, remote, owner, holders, item, rights);
            ||| after.fenced == m.fenced && after.activity == m.activity
            ||| {
                &&& after.fenced == m.fenced.push(item)
                &&& activity_of(m.activity, item.key) == ActivityModel::idle()
                &&& activity_of(after.activity, item.key).reclaim == Some(item)
                &&& item_may_go(routes, owner, item)
                &&& forall|k: Seq<char>|
                    k != item.key ==> #[trigger] activity_of(after.activity, k) == activity_of(
                        m.activity,
                        k,
                    )
            }
        }),
{
}

/// An item is fenced only for a key without a lease that nothing was under way for, whose owner has the
/// copy of this version; it is one of the candidates, and no key is fenced twice.
pub proof fn fenced_items_may_go(
    m: FenceModel,
    routes: Routes,
    remote: Set<Seq<char>>,
    owner: Seq<char>,
    holders: Set<Seq<char>>,
    items: Seq<ItemId>,
    rights: EvictionRights,
)
    requires
        m.fenced.len() == 0,
    ensures
        ({
            let after = fence_all(m, routes, remote, owner, holders, items, rights);
            &&& forall|i: int|
                0 <= i < after.fenced.len() ==> {
                    let item = #[trigger] after.fenced[i];
                    &&& item_may_go(routes, owner, item)
                    &&& activity_of(m.activity, item.key) == ActivityModel::idle()
                    &&& activity_of(after.activity, item.key).reclaim == Some(item)
                    &&& items.contains(item)
                }
            &&& forall|i: int, j: int|
                0 <= i < j < after.fenced.len() ==> (#[trigger] after.fenced[i]).key != (
                #[trigger] after.fenced[j]).key
            &&& forall|k: Seq<char>|
                !has_key(after.fenced, k) ==> #[trigger] activity_of(after.activity, k)
                    == activity_of(m.activity, k)
        }),
    decreases items.len(),
{
    let after = fence_all(m, routes, remote, owner, holders, items, rights);
    if items.len() > 0 {
        let less = items.drop_last();
        fenced_items_may_go(m, routes, remote, owner, holders, less, rights);
        let before = fence_all(m, routes, remote, owner, holders, less, rights);
        let item = items.last();
        lemma_fence_step(before, routes, remote, owner, holders, item, rights);
        assert(items[items.len() - 1] == item);
        assert forall|x: ItemId| less.contains(x) implies #[trigger] items.contains(x) by {
            let h = choose|h: int| 0 <= h < less.len() && less[h] == x;
            assert(items[h] == x);
        }
        if after.fenced == before.fenced && after.activity == before.activity {
        } else {
            assert(!has_key(before.fenced, item.key)) by {
                if has_key(before.fenced, item.key) {
                    let h = choose|h: int|
                        0 <= h < before.fenced.len() && (#[trigger] before.fenced[h]).key
                            == item.key;
                    assert(activity_of(before.activity, before.fenced[h].key).reclaim is Some);
                }
            }
            assert forall|i: int| 0 <= i < after.fenced.len() implies {
                let x = #[trigger] after.fenced[i];
                &&& item_may_go(routes, owner, x)
                &&& activity_of(m.activity, x.key) == ActivityModel::idle()
                &&& activity_of(after.activity, x.key).reclaim == Some(x)
                &&& items.contains(x)
            } by {
                if i < before.fenced.len() {
                    assert(after.fenced[i] == before.fenced[i]);
                    assert(before.fenced[i].key != item.key);
                }
            }
            assert forall|i: int, j: int| 0 <= i < j < after.fenced.len() implies (
            #[trigger] after.fenced[i]).key != (#[trigger] after.fenced[j]).key by {
                assert(after.fenced[i] == before.fenced[i]);
                if j < before.fenced.len() {
                    assert(after.fenced[j] == before.fenced[j]);
                } else {
                    assert(before.fenced[i].key != item.key);
                }
            }
            assert forall|k: Seq<char>| !has_key(after.fenced, k) implies #[trigger] activity_of(
                after.activity,
                k,
            ) == activity_of(m.activity, k) by {
                assert(after.fenced[after.fenced.len() - 1].key == item.key);
                if has_key(before.fenced, k) {
                    let h = choose|h: int|
                        0 <= h < before.fenced.len() && (#[trigger] before.fenced[h]).key == k;
                    assert(after.fenced[h].key == k);
                }
                assert(activity_of(before.activity, k) == activity_of(m.activity, k));
            }
        }
    }
}

/// A candidate that may go, of a key that nothing is under way for, is fenced.
pub proof fn a_lone_candidate_is_fenced(
    m: FenceModel,
    routes: Routes,
    remote: Set<Seq<char>>,
    owner: Seq<char>,
    holders: Set<Seq<char>>,
    item: ItemId,
    rights: EvictionRights,
)
    requires
        m.fenced.len() == 0,
        activity_of(m.activity, item.key) == ActivityModel::idle(),
        free_to_go(routes, owner, item.key, item.put_id),
        lies_in(routes[item.key].nodes_replicas@[owner], owner, item.backing),
        item.reason != OwnerReclaimReason::Reserve || rights.reserve_pressure,
    ensures
        fence_all(m, routes, remote, owner, holders, seq![item], rights).fenced == seq![item],
{
    assert(seq![item].drop_last() =~= Seq::<ItemId>::empty());
    assert(m.fenced =~= Seq::<ItemId>::empty());
    assert(fence_all(m, routes, remote, owner, holders, seq![item].drop_last(), rights) == m);
    assert(fence_all(m, routes, remote, owner, holders, seq![item], rights).fenced =~= seq![item]);
}

/// Items of prepared copies are committed only if they may still go; the others are aborted, and none
/// is lost.
pub proof fn revalidated_items_may_go(
    m: RevalidateModel,
    routes: Routes,
    activity: ActivityMap,
    remote: Set<Seq<char>>,
    owner: Seq<char>,
    holders: Set<Seq<char>>,
    items: Seq<ItemId>,
    rights: EvictionRights,
)
    requires
        m.valid.len() == 0,
        m.invalid.len() == 0,
    ensures
        ({
            let after = revalidate_all(
                m,
                routes,
                activity,
                remote,
                owner,
                holders,
                items,
                rights,
            );
            &&& forall|i: int|
                0 <= i < after.valid.len() ==> {
                    let item = #[trigger] after.valid[i];
                    &&& free_to_go(routes, owner, item.key, item.put_id)
                    &&& activity_of(activity, item.key).reclaim == Some(item)
                    &&& lies_in(routes[item.key].nodes_replicas@[owner], owner, item.backing)
                    &&& items.contains(item)
                }
            &&& forall|i: int|
                0 <= i < after.invalid.len() ==> items.contains(#[trigger] after.invalid[i])
            &&& after.valid.len() + after.invalid.len() == items.len()
        }),
    decreases items.len(),
{
    let after = revalidate_all(m, routes, activity, remote, owner, holders, items, rights);
    if items.len() > 0 {
        let less = items.drop_last();
        revalidated_items_may_go(m, routes, activity, remote, owner, holders, less, rights);
        let before = revalidate_all(m, routes, activity, remote, owner, holders, less, rights);
        assert(items[items.len() - 1] == items.last());
        assert forall|x: ItemId| less.contains(x) implies #[trigger] items.contains(x) by {
            let h = choose|h: int| 0 <= h < less.len() && less[h] == x;
            assert(items[h] == x);
        }
        assert forall|i: int| 0 <= i < after.valid.len() implies {
            let item = #[trigger] after.valid[i];
            &&& free_to_go(routes, owner, item.key, item.put_id)
            &&& activity_of(activity, item.key).reclaim == Some(item)
            &&& lies_in(routes[item.key].nodes_replicas@[owner], owner, item.backing)
            &&& items.contains(item)
        } by {
            if i < before.valid.len() {
                assert(after.valid[i] == before.valid[i]);
            }
        }
        assert forall|i: int| 0 <= i < after.invalid.len() implies items.contains(
            #[trigger] after.invalid[i],
        ) by {
            if i < before.invalid.len() {
                assert(after.invalid[i] == before.invalid[i]);
            }
        }
    }
}

/// None of the items is of one of the keys.
pub open spec fn avoids(items: Seq<ItemId>, keys: Set<Seq<char>>) -> bool {
    forall|i: int| 0 <= i < items.len() ==> !keys.contains((#[trigger] items[i]).key)
}

/// All that a run is about avoids the keys.
pub open spec fn run_avoids(run: RunModel, keys: Set<Seq<char>>) -> bool {
    &&& avoids(run.asked, keys)
    &&& run.phase != RunPhase::Preparing ==> avoids(run.prepared, keys) && avoids(
        run.committed,
        keys,
    )
}

/// The routes of the keys are the same.
pub open spec fn same_on(keys: Set<Seq<char>>, a: Routes, b: Routes) -> bool {
    forall|k: Seq<char>| #[trigger]
        keys.contains(k) ==> (a.contains_key(k) <==> b.contains_key(k)) && (a.contains_key(k)
            ==> a[k] == b[k])
}

proof fn lemma_where_avoids(items: Seq<ItemId>, keep: spec_fn(int) -> bool, keys: Set<Seq<char>>)
    requires
        avoids(items, keys),
    ensures
        avoids(items_where(items, keep), keys),
    decreases items.len(),
{
    if items.len() > 0 {
        let less = items.drop_last();
        assert(avoids(less, keys)) by {
            assert forall|i: int| 0 <= i < less.len() implies !keys.contains(
                (#[trigger] less[i]).key,
            ) by {
                assert(less[i] == items[i]);
            }
        }
        lemma_where_avoids(less, keep, keys);
        let before = items_where(less, keep);
        let all = items_where(items, keep);
        assert(!keys.contains(items[items.len() - 1].key));
        assert forall|i: int| 0 <= i < all.len() implies !keys.contains((#[trigger] all[i]).key) by {
            if i < before.len() {
                assert(all[i] == before[i]);
            }
        }
    }
}

proof fn lemma_prepare_avoids(
    m: PrepareModel,
    items: Seq<ItemId>,
    responses: Seq<OwnerReclaimItemResp>,
    keys: Set<Seq<char>>,
)
    requires
        avoids(items, keys),
        m.prepared.len() == 0,
        m.committed.len() == 0,
    ensures
        avoids(prepare_all(m, items, responses).prepared, keys),
        avoids(prepare_all(m, items, responses).committed, keys),
    decreases items.len(),
{
    if items.len() > 0 {
        let less = items.drop_last();
        assert(avoids(less, keys)) by {
            assert forall|i: int| 0 <= i < less.len() implies !keys.contains(
                (#[trigger] less[i]).key,
            ) by {
                assert(less[i] == items[i]);
            }
        }
        lemma_prepare_avoids(m, less, responses, keys);
        assert(!keys.contains(items[items.len() - 1].key));
    }
}

proof fn lemma_taken_avoids(
    before: Routes,
    after: Routes,
    owner: Seq<char>,
    items: Seq<ItemId>,
    fences: ActivityMap,
    keys: Set<Seq<char>>,
)
    requires
        copies_taken(before, after, owner, items, fences),
        avoids(items, keys),
    ensures
        same_on(keys, before, after),
{
    assert forall|k: Seq<char>| #[trigger] keys.contains(k) implies (before.contains_key(k)
        <==> after.contains_key(k)) && (before.contains_key(k) ==> before[k] == after[k]) by {
        assert(!copy_taken(before, owner, items, fences, k));
        assert(after.contains_key(k) == after.contains_key(k));
    }
}

proof fn lemma_finish_avoids(
    run0: RunModel,
    routes0: Routes,
    activity: ActivityMap,
    c0: EvictionReclaimCounters,
    run1: RunModel,
    routes1: Routes,
    c1: EvictionReclaimCounters,
    step: RunStep,
    keys: Set<Seq<char>>,
)
    requires
        crate::reclaim_run::finish_begun(run0, routes0, activity, c0, run1, routes1, c1, step),
        avoids(run0.committed, keys),
    ensures
        same_on(keys, routes0, routes1),
        run1.phase == RunPhase::Finalizing || run1.phase == RunPhase::Over,
        run1.phase == RunPhase::Finalizing ==> avoids(run1.asked, keys),
{
    lemma_taken_avoids(routes0, routes1, run0.owner, run0.committed, activity, keys);
    lemma_where_avoids(
        run0.committed,
        |i: int| activity_of(activity, run0.committed[i].key).reclaim == Some(run0.committed[i]),
        keys,
    );
}

/// The run goes on: it asks the owner again.
pub open spec fn goes_on_avoiding(run: RunModel, keys: Set<Seq<char>>) -> bool {
    match run.phase {
        RunPhase::Over => true,
        RunPhase::Finalizing => avoids(run.asked, keys),
        RunPhase::AbortingAll => avoids(run.asked, keys),
        _ => run_avoids(run, keys),
    }
}

/// An answer of the owner leads to no change of the routes of keys that the run is not about, and the
/// run goes on being about the same keys.
pub proof fn a_run_keeps_to_its_keys(
    run0: RunModel,
    routes0: Routes,
    activity0: ActivityMap,
    c0: EvictionReclaimCounters,
    remote: Set<Seq<char>>,
    holders: Set<Seq<char>>,
    rights: EvictionRights,
    answer: Option<Vec<OwnerReclaimItemResp>>,
    run1: RunModel,
    routes1: Routes,
    activity1: ActivityMap,
    c1: EvictionReclaimCounters,
    step: RunStep,
    keys: Set<Seq<char>>,
)
    requires
        answer_taken(
            run0,
            routes0,
            activity0,
            c0,
            remote,
            holders,
            rights,
            answer,
            run1,
            routes1,
            activity1,
            c1,
            step,
        ),
        run0.phase != RunPhase::Over,
        step.call is None <==> run1.phase == RunPhase::Over,
        goes_on_avoiding(run0, keys),
    ensures
        same_on(keys, routes0, routes1),
        goes_on_avoiding(run1, keys),
{
    match run0.phase {
        RunPhase::Preparing => {
            if heard(run0.asked, answer) {
                let start = PrepareModel {
                    activity: activity0,
                    prepared: Seq::empty(),
                    committed: Seq::empty(),
                    counters: c0,
                };
                let sorted = prepare_all(start, run0.asked, answer->0@);
                lemma_prepare_avoids(start, run0.asked, answer->0@, keys);
                let again = RevalidateModel {
                    valid: Seq::empty(),
                    invalid: Seq::empty(),
                    counters: sorted.counters,
                };
                revalidated_items_may_go(
                    again,
                    routes0,
                    sorted.activity,
                    remote,
                    run0.owner,
                    holders,
                    sorted.prepared,
                    rights,
                );
                let looked = revalidate_all(
                    again,
                    routes0,
                    sorted.activity,
                    remote,
                    run0.owner,
                    holders,
                    sorted.prepared,
                    rights,
                );
                assert(avoids(looked.valid, keys)) by {
                    assert forall|i: int| 0 <= i < looked.valid.len() implies !keys.contains(
                        (#[trigger] looked.valid[i]).key,
                    ) by {
                        assert(sorted.prepared.contains(looked.valid[i]));
                    }
                }
                assert(avoids(looked.invalid, keys)) by {
                    assert forall|i: int| 0 <= i < looked.invalid.len() implies !keys.contains(
                        (#[trigger] looked.invalid[i]).key,
                    ) by {
                        assert(sorted.prepared.contains(looked.invalid[i]));
                    }
                }
                let next = RunModel { prepared: looked.valid, committed: sorted.committed, ..run0 };
                if looked.invalid.len() == 0 && looked.valid.len() == 0 {
                    lemma_finish_avoids(
                        next,
                        routes0,
                        activity1,
                        looked.counters,
                        run1,
                        routes1,
                        c1,
                        step,
                        keys,
                    );
                }
            }
        },
        RunPhase::AbortingAll => {},
        RunPhase::AbortingInvalid => {
            let newly = choose|newly: Seq<ItemId>|
                {
                    &&& #[trigger] abort_noted(
                        run0.asked,
                        answer,
                        activity0,
                        activity1,
                        newly,
                        crate::reclaim::item_ids(step.retry_abort@),
                    )
                    &&& crate::reclaim_run::commit_begun(
                        RunModel { committed: run0.committed + newly, ..run0 },
                        routes0,
                        activity1,
                        c0,
                        run1,
                        routes1,
                        c1,
                        step,
                    )
                };
            lemma_newly_avoids(run0, answer, activity0, activity1, newly, step, keys);
            if run0.prepared.len() == 0 {
                lemma_finish_avoids(
                    RunModel { committed: run0.committed + newly, ..run0 },
                    routes0,
                    activity1,
                    c0,
                    run1,
                    routes1,
                    c1,
                    step,
                    keys,
                );
            }
        },
        RunPhase::Committing => {
            if heard(run0.asked, answer) {
                let done = |i: int| state_at(answer, i) == OwnerReclaimItemState::Committed;
                let open = |i: int| state_at(answer, i) != OwnerReclaimItemState::Committed;
                lemma_where_avoids(run0.asked, done, keys);
                lemma_where_avoids(run0.asked, open, keys);
                let newly = items_where(run0.asked, done);
                lemma_sum_avoids(run0.committed, newly, keys);
                if items_where(run0.asked, open).len() == 0 {
                    lemma_finish_avoids(
                        RunModel { committed: run0.committed + newly, ..run0 },
                        routes0,
                        activity1,
                        c0,
                        run1,
                        routes1,
                        c1,
                        step,
                        keys,
                    );
                }
            }
        },
        RunPhase::AbortingUnresolved => {
            let newly = choose|newly: Seq<ItemId>|
                {
                    &&& #[trigger] abort_noted(
                        run0.asked,
                        answer,
                        activity0,
                        activity1,
                        newly,
                        crate::reclaim::item_ids(step.retry_abort@),
                    )
                    &&& crate::reclaim_run::finish_begun(
                        RunModel { committed: run0.committed + newly, ..run0 },
                        routes0,
                        activity1,
                        c0,
                        run1,
                        routes1,
                        c1,
                        step,
                    )
                };
            lemma_newly_avoids(run0, answer, activity0, activity1, newly, step, keys);
            lemma_finish_avoids(
                RunModel { committed: run0.committed + newly, ..run0 },
                routes0,
                activity1,
                c0,
                run1,
                routes1,
                c1,
                step,
                keys,
            );
        },
        RunPhase::Finalizing => {},
        RunPhase::Over => {},
    }
}

proof fn lemma_sum_avoids(a: Seq<ItemId>, b: Seq<ItemId>, keys: Set<Seq<char>>)
    requires
        avoids(a, keys),
        avoids(b, keys),
    ensures
        avoids(a + b, keys),
{
    assert forall|i: int| 0 <= i < (a + b).len() implies !keys.contains((#[trigger] (a + b)[i]).key) by {
        if i < a.len() {
            assert((a + b)[i] == a[i]);
        } else {
            assert((a + b)[i] == b[i - a.len()]);
        }
    }
}

proof fn lemma_newly_avoids(
    run0: RunModel,
    answer: Option<Vec<OwnerReclaimItemResp>>,
    activity0: ActivityMap,
    activity1: ActivityMap,
    newly: Seq<ItemId>,
    step: RunStep,
    keys: Set<Seq<char>>,
)
    requires
        abort_noted(
            run0.asked,
            answer,
            activity0,
            activity1,
            newly,
            crate::reclaim::item_ids(step.retry_abort@),
        ),
        avoids(run0.asked, keys),
        avoids(run0.committed, keys),
    ensures
        avoids(run0.committed + newly, keys),
{
    lemma_where_avoids(
        run0.asked,
        |i: int| state_at(answer, i) == OwnerReclaimItemState::Committed,
        keys,
    );
    lemma_sum_avoids(run0.committed, newly, keys);
}

/// A run and what it works on.
pub struct RunState {
    pub run: RunModel,
    pub routes: Routes,
    pub activity: ActivityMap,
    pub counters: EvictionReclaimCounters,
}

/// A run begins with `start` and goes on from answer to answer.
pub open spec fn reclaim_trace(
    start: RunState,
    remote: Set<Seq<char>>,
    owner: Seq<char>,
    holders: Set<Seq<char>>,
    candidates: Seq<ItemId>,
    rights: EvictionRights,
    states: Seq<RunState>,
    answers: Seq<Option<Vec<OwnerReclaimItemResp>>>,
    steps: Seq<RunStep>,
) -> bool {
    &&& states.len() == answers.len() + 1
    &&& steps.len() == answers.len() + 1
    &&& run_begun(
        start.routes,
        start.activity,
        start.counters,
        remote,
        owner,
        holders,
        candidates,
        rights,
        states[0].run,
        steps[0],
        states[0].routes,
        states[0].activity,
        states[0].counters,
    )
    &&& forall|i: int|
        0 <= i < answers.len() ==> #[trigger] trace_step(
            states,
            answers,
            steps,
            remote,
            holders,
            rights,
            i,
        )
}

/// The `i`-th answer of a run is taken.
pub open spec fn trace_step(
    states: Seq<RunState>,
    answers: Seq<Option<Vec<OwnerReclaimItemResp>>>,
    steps: Seq<RunStep>,
    remote: Set<Seq<char>>,
    holders: Set<Seq<char>>,
    rights: EvictionRights,
    i: int,
) -> bool {
    &&& steps[i].call is Some
    &&& states[i].run.phase != RunPhase::Over
    &&& steps[i + 1].call is None <==> states[i + 1].run.phase == RunPhase::Over
    &&& answer_taken(
        states[i].run,
        states[i].routes,
        states[i].activity,
        states[i].counters,
        remote,
        holders,
        rights,
        answers[i],
        states[i + 1].run,
        states[i + 1].routes,
        states[i + 1].activity,
        states[i + 1].counters,
        steps[i + 1],
    )
}

/// The keys that a run may not touch: those with a lease, those that something is under way for, and
/// those that are no candidates.
pub open spec fn off_limits(start: RunState, candidates: Seq<ItemId>) -> Set<Seq<char>> {
    Set::new(
        |k: Seq<char>|
            {
                ||| start.routes.contains_key(k) && start.routes[k].lease_id is Some
                ||| activity_of(start.activity, k) != ActivityModel::idle()
                ||| forall|i: int| 0 <= i < candidates.len() ==> (#[trigger] candidates[i]).key != k
            },
    )
}

proof fn lemma_trace(
    start: RunState,
    remote: Set<Seq<char>>,
    owner: Seq<char>,
    holders: Set<Seq<char>>,
    candidates: Seq<ItemId>,
    rights: EvictionRights,
    states: Seq<RunState>,
    answers: Seq<Option<Vec<OwnerReclaimItemResp>>>,
    steps: Seq<RunStep>,
    k: int,
)
    requires
        reclaim_trace(
            start,
            remote,
            owner,
            holders,
            candidates,
            rights,
            states,
            answers,
            steps,
        ),
        0 <= k < states.len(),
    ensures
        same_on(off_limits(start, candidates), start.routes, states[k].routes),
        steps[k].call is Some ==> goes_on_avoiding(states[k].run, off_limits(start, candidates)),
    decreases k,
{
    let keys = off_limits(start, candidates);
    if k == 0 {
        let model = FenceModel {
            activity: start.activity,
            fenced: Seq::empty(),
            counters: start.counters,
        };
        fenced_items_may_go(model, start.routes, remote, owner, holders, candidates, rights);
        let fences = fence_all(model, start.routes, remote, owner, holders, candidates, rights);
        let fenced = fences.fenced;
        assert(avoids(fenced, keys)) by {
            assert forall|i: int| 0 <= i < fenced.len() implies !keys.contains(
                (#[trigger] fenced[i]).key,
            ) by {
                assert(candidates.contains(fenced[i]));
                let h = choose|h: int| 0 <= h < candidates.len() && candidates[h] == fenced[i];
                assert(candidates[h].key == fenced[i].key);
            }
        }
        let alone = |i: int| is_unindexed(fenced[i]);
        let shared = |i: int| !is_unindexed(fenced[i]);
        lemma_where_avoids(fenced, alone, keys);
        lemma_where_avoids(fenced, shared, keys);
        if fenced.len() > 0 {
            lemma_taken_avoids(
                start.routes,
                states[0].routes,
                owner,
                items_where(fenced, alone),
                fences.activity,
                keys,
            );
        }
    } else {
        lemma_trace(
            start,
            remote,
            owner,
            holders,
            candidates,
            rights,
            states,
            answers,
            steps,
            k - 1,
        );
        assert(trace_step(states, answers, steps, remote, holders, rights, k - 1));
        let (a, b) = (states[k - 1], states[k]);
        a_run_keeps_to_its_keys(
            a.run,
            a.routes,
            a.activity,
            a.counters,
            remote,
            holders,
            rights,
            answers[k - 1],
            b.run,
            b.routes,
            b.activity,
            b.counters,
            steps[k],
            keys,
        );
        assert forall|x: Seq<char>| #[trigger] keys.contains(x) implies (
        start.routes.contains_key(x) <==> b.routes.contains_key(x)) && (start.routes.contains_key(x)
            ==> start.routes[x] == b.routes[x]) by {
            assert(a.routes.contains_key(x) <==> b.routes.contains_key(x));
        }
    }
}

/// No run of fencing, preparing, committing and finishing, whatever the owner answers, changes the
/// copies of a key that has a lease, of a key that a put, a get or another run is under way for, or of a
/// key that it was not asked about.
pub proof fn leased_and_busy_keys_are_never_reclaimed(
    start: RunState,
    remote: Set<Seq<char>>,
    owner: Seq<char>,
    holders: Set<Seq<char>>,
    candidates: Seq<ItemId>,
    rights: EvictionRights,
    states: Seq<RunState>,
    answers: Seq<Option<Vec<OwnerReclaimItemResp>>>,
    steps: Seq<RunStep>,
    k: int,
    key: Seq<char>,
)
    requires
        reclaim_trace(
            start,
            remote,
            owner,
            holders,
            candidates,
            rights,
            states,
            answers,
            steps,
        ),
        0 <= k < states.len(),
        start.routes.contains_key(key),
        start.routes[key].lease_id is Some || activity_of(start.activity, key)
            != ActivityModel::idle() || forall|i: int|
            0 <= i < candidates.len() ==> (#[trigger] candidates[i]).key != key,
    ensures
        states[k].routes.contains_key(key),
        states[k].routes[key] == start.routes[key],
{
    lemma_trace(start, remote, owner, holders, candidates, rights, states, answers, steps, k);
    assert(off_limits(start, candidates).contains(key));
}

/// One of the items that the owner was asked about was answered as committed.
pub open spec fn answered_committed(
    run: RunModel,
    answer: Option<Vec<OwnerReclaimItemResp>>,
    item: ItemId,
) -> bool {
    heard(run.asked, answer) && exists|i: int|
        0 <= i < run.asked.len() && #[trigger] run.asked[i] == item && answer->0@[i].state
            == OwnerReclaimItemState::Committed
}

/// The owner has committed the item, now or before.
pub open spec fn was_committed(
    run: RunModel,
    answer: Option<Vec<OwnerReclaimItemResp>>,
    item: ItemId,
) -> bool {
    answered_committed(run, answer, item) || run.committed.contains(item)
}

pub proof fn lemma_where_from(items: Seq<ItemId>, keep: spec_fn(int) -> bool, item: ItemId)
    requires
        items_where(items, keep).contains(item),
    ensures
        exists|i: int| 0 <= i < items.len() && #[trigger] items[i] == item && keep(i),
    decreases items.len(),
{
    let all = items_where(items, keep);
    let h = choose|h: int| 0 <= h < all.len() && all[h] == item;
    if items.len() > 0 {
        let less = items.drop_last();
        let before = items_where(less, keep);
        if h < before.len() {
            assert(before[h] == item);
            lemma_where_from(less, keep, item);
            let i = choose|i: int| 0 <= i < less.len() && #[trigger] less[i] == item && keep(i);
            assert(items[i] == item && keep(i));
        } else {
            assert(items[items.len() - 1] == item);
        }
    }
}

proof fn lemma_prepared_from(
    m: PrepareModel,
    items: Seq<ItemId>,
    responses: Seq<OwnerReclaimItemResp>,
)
    requires
        m.prepared.len() == 0,
        m.committed.len() == 0,
    ensures
        ({
            let r = prepare_all(m, items, responses);
            &&& forall|x: ItemId| #[trigger]
                r.prepared.contains(x) ==> exists|i: int|
                    0 <= i < items.len() && #[trigger] items[i] == x && responses[i].state
                        == OwnerReclaimItemState::Prepared
            &&& forall|x: ItemId| #[trigger]
                r.committed.contains(x) ==> exists|i: int|
                    0 <= i < items.len() && #[trigger] items[i] == x && responses[i].state
                        == OwnerReclaimItemState::Committed
        }),
    decreases items.len(),
{
    let r = prepare_all(m, items, responses);
    if items.len() > 0 {
        let less = items.drop_last();
        lemma_prepared_from(m, less, responses);
        let before = prepare_all(m, less, responses);
        let last = items.len() - 1;
        assert forall|x: ItemId| #[trigger] r.prepared.contains(x) implies exists|i: int|
            0 <= i < items.len() && #[trigger] items[i] == x && responses[i].state
                == OwnerReclaimItemState::Prepared by {
            let h = choose|h: int| 0 <= h < r.prepared.len() && r.prepared[h] == x;
            if h < before.prepared.len() {
                assert(before.prepared[h] == x);
                assert(before.prepared.contains(x));
                let i = choose|i: int|
                    0 <= i < less.len() && #[trigger] less[i] == x && responses[i].state
                        == OwnerReclaimItemState::Prepared;
                assert(items[i] == x);
            } else {
                assert(items[last] == x);
            }
        }
        assert forall|x: ItemId| #[trigger] r.committed.contains(x) implies exists|i: int|
            0 <= i < items.len() && #[trigger] items[i] == x && responses[i].state
                == OwnerReclaimItemState::Committed by {
            let h = choose|h: int| 0 <= h < r.committed.len() && r.committed[h] == x;
            if h < before.committed.len() {
                assert(before.committed[h] == x);
                assert(before.committed.contains(x));
                let i = choose|i: int|
                    0 <= i < less.len() && #[trigger] less[i] == x && responses[i].state
                        == OwnerReclaimItemState::Committed;
                assert(items[i] == x);
            } else {
                assert(items[last] == x);
            }
        }
    }
}

/// The owner is told to commit only what it has prepared and what may still go: copies of keys without a
/// lease, in the version and place that were fenced.
pub proof fn only_prepared_copies_are_committed(
    run0: RunModel,
    routes0: Routes,
    activity0: ActivityMap,
    c0: EvictionReclaimCounters,
    remote: Set<Seq<char>>,
    holders: Set<Seq<char>>,
    rights: EvictionRights,
    answer: Option<Vec<OwnerReclaimItemResp>>,
    run1: RunModel,
    routes1: Routes,
    activity1: ActivityMap,
    c1: EvictionReclaimCounters,
    step: RunStep,
)
    requires
        answer_taken(
            run0,
            routes0,
            activity0,
            c0,
            remote,
            holders,
            rights,
            answer,
            run1,
            routes1,
            activity1,
            c1,
            step,
        ),
        run0.phase == RunPhase::Preparing,
    ensures
        step.call == Some(OwnerReclaimPhase::Commit) ==> {
            &&& heard(run0.asked, answer)
            &&& run1.asked.len() > 0
            &&& forall|i: int|
                0 <= i < run1.asked.len() ==> {
                    let item = #[trigger] run1.asked[i];
                    &&& free_to_go(routes0, run0.owner, item.key, item.put_id)
                    &&& activity_of(activity1, item.key).reclaim == Some(item)
                    &&& exists|j: int|
                        0 <= j < run0.asked.len() && #[trigger] run0.asked[j] == item
                            && answer->0@[j].state == OwnerReclaimItemState::Prepared
                }
        },
        step.call == Some(OwnerReclaimPhase::Commit) ==> routes1 == routes0,
{
    if heard(run0.asked, answer) {
        let start = PrepareModel {
            activity: activity0,
            prepared: Seq::empty(),
            committed: Seq::empty(),
            counters: c0,
        };
        let sorted = prepare_all(start, run0.asked, answer->0@);
        lemma_prepared_from(start, run0.asked, answer->0@);
        let again = RevalidateModel {
            valid: Seq::empty(),
            invalid: Seq::empty(),
            counters: sorted.counters,
        };
        revalidated_items_may_go(
            again,
            routes0,
            sorted.activity,
            remote,
            run0.owner,
            holders,
            sorted.prepared,
            rights,
        );
        if step.call == Some(OwnerReclaimPhase::Commit) {
            assert forall|i: int| 0 <= i < run1.asked.len() implies {
                let item = #[trigger] run1.asked[i];
                &&& free_to_go(routes0, run0.owner, item.key, item.put_id)
                &&& activity_of(activity1, item.key).reclaim == Some(item)
                &&& exists|j: int|
                    0 <= j < run0.asked.len() && #[trigger] run0.asked[j] == item
                        && answer->0@[j].state == OwnerReclaimItemState::Prepared
            } by {
                assert(sorted.prepared.contains(run1.asked[i]));
            }
        }
    }
}

/// A copy leaves its route only after its owner has committed it, and while its key is fenced for it;
/// without an answer of the owner no copy leaves. All other routes stay as they are.
pub proof fn copies_go_only_after_the_owner_committed(
    run0: RunModel,
    routes0: Routes,
    activity0: ActivityMap,
    c0: EvictionReclaimCounters,
    remote: Set<Seq<char>>,
    holders: Set<Seq<char>>,
    rights: EvictionRights,
    answer: Option<Vec<OwnerReclaimItemResp>>,
    run1: RunModel,
    routes1: Routes,
    activity1: ActivityMap,
    c1: EvictionReclaimCounters,
    step: RunStep,
    key: Seq<char>,
)
    requires
        answer_taken(
            run0,
            routes0,
            activity0,
            c0,
            remote,
            holders,
            rights,
            answer,
            run1,
            routes1,
            activity1,
            c1,
            step,
        ),
        run0.phase == RunPhase::Committing,
        routes0.contains_key(key),
        !(routes1.contains_key(key) && routes1[key] == routes0[key]),
    ensures
        exists|item: ItemId|
            {
                &&& item.key == key
                &&& #[trigger] was_committed(run0, answer, item)
                &&& activity_of(activity1, key).reclaim == Some(item)
                &&& routes0[key].put_id == item.put_id
            },
        heard(run0.asked, answer),
        step.call == Some(OwnerReclaimPhase::Finalize),
{
    let done = |i: int| state_at(answer, i) == OwnerReclaimItemState::Committed;
    let newly = items_where(run0.asked, done);
    let all = run0.committed + newly;
    assert(routes1.contains_key(key) == routes1.contains_key(key));
    assert(copy_taken(routes0, run0.owner, all, activity1, key));
    let i = choose|i: int|
        {
            &&& 0 <= i < all.len()
            &&& (#[trigger] all[i]).key == key
            &&& activity_of(activity1, key).reclaim == Some(all[i])
            &&& crate::reclaim::shows_copy(routes0, run0.owner, all[i])
        };
    let item = all[i];
    if i < run0.committed.len() {
        assert(run0.committed[i] == item);
        assert(run0.committed.contains(item));
    } else {
        assert(newly[i - run0.committed.len()] == item);
        assert(newly.contains(item));
        lemma_where_from(run0.asked, done, item);
        assert(answered_committed(run0, answer, item));
    }
    assert(was_committed(run0, answer, item));
    lemma_kept_item(all, activity1, i);
}

/// An item whose key is fenced for it is among those that are told to be finished.
proof fn lemma_kept_item(items: Seq<ItemId>, activity: ActivityMap, i: int)
    requires
        0 <= i < items.len(),
        activity_of(activity, items[i].key).reclaim == Some(items[i]),
    ensures
        items_where(
            items,
            |j: int| activity_of(activity, items[j].key).reclaim == Some(items[j]),
        ).len() > 0,
{
    lemma_kept_some(
        items,
        |j: int| activity_of(activity, items[j].key).reclaim == Some(items[j]),
        i,
    );
}

proof fn lemma_kept_some(items: Seq<ItemId>, keep: spec_fn(int) -> bool, i: int)
    requires
        0 <= i < items.len(),
        keep(i),
    ensures
        items_where(items, keep).len() > 0,
    decreases items.len(),
{
    if i < items.len() - 1 {
        lemma_kept_some(items.drop_last(), keep, i);
    }
}

/// Only copies of the owner leave their routes: other copies of a key stay where they are, the version
/// and the lease stay, and a route goes only with its last copy.
pub proof fn only_copies_of_the_owner_go(
    before: Routes,
    after: Routes,
    owner: Seq<char>,
    items: Seq<ItemId>,
    fences: ActivityMap,
    key: Seq<char>,
    node: Seq<char>,
)
    requires
        copies_taken(before, after, owner, items, fences),
        before.contains_key(key),
        before[key].nodes_replicas@.contains_key(node),
        node != owner,
    ensures
        after.contains_key(key),
        after[key].nodes_replicas@.contains_key(node),
        after[key].nodes_replicas@[node] == before[key].nodes_replicas@[node],
        after[key].put_id == before[key].put_id,
        after[key].lease_id == before[key].lease_id,
        after[key].nodes_replicas@.contains_key(owner) ==> before[key].nodes_replicas@.contains_key(
            owner,
        ),
{
    assert(after.contains_key(key) == after.contains_key(key));
    let left = before[key].nodes_replicas@.remove(owner);
    assert(left.contains_key(node));
}

/// A copy that the owner has given up leaves its route while its key is fenced for it.
pub proof fn a_committed_copy_leaves_its_route(
    before: Routes,
    after: Routes,
    owner: Seq<char>,
    items: Seq<ItemId>,
    fences: ActivityMap,
    i: int,
)
    requires
        copies_taken(before, after, owner, items, fences),
        0 <= i < items.len(),
        activity_of(fences, items[i].key).reclaim == Some(items[i]),
        before.contains_key(items[i].key),
        before[items[i].key].put_id == items[i].put_id,
        before[items[i].key].nodes_replicas@.contains_key(owner),
        lies_in(before[items[i].key].nodes_replicas@[owner], owner, items[i].backing),
    ensures
        after.contains_key(items[i].key) ==> !after[items[i].key].nodes_replicas@.contains_key(
            owner,
        ),
{
    let k = items[i].key;
    assert(crate::reclaim::shows_copy(before, owner, items[i]));
    assert(copy_taken(before, owner, items, fences, k));
    assert(after.contains_key(k) == after.contains_key(k));
}

pub proof fn lemma_unfenced(
    m: ActivityMap,
    items: Seq<ItemId>,
    drop_fence: spec_fn(int) -> bool,
    k: Seq<char>,
)
    requires
        forall|i: int, j: int|
            0 <= i < j < items.len() ==> (#[trigger] items[i]).key != (#[trigger] items[j]).key,
        forall|i: int|
            0 <= i < items.len() ==> activity_of(m, (#[trigger] items[i]).key).reclaim == Some(
                items[i],
            ),
    ensures
        ({
            let after = unfenced_where(m, items, drop_fence);
            &&& forall|i: int|
                0 <= i < items.len() && (#[trigger] items[i]).key == k ==> activity_of(after, k)
                    == if drop_fence(i) {
                    ActivityModel::idle()
                } else {
                    activity_of(m, k)
                }
            &&& !has_key(items, k) ==> activity_of(after, k) == activity_of(m, k)
        }),
    decreases items.len(),
{
    if items.len() > 0 {
        let less = items.drop_last();
        assert forall|i: int, j: int| 0 <= i < j < less.len() implies (#[trigger] less[i]).key != (
        #[trigger] less[j]).key by {
            assert(items[i].key != items[j].key);
        }
        assert forall|i: int| 0 <= i < less.len() implies activity_of(
            m,
            (#[trigger] less[i]).key,
        ).reclaim == Some(less[i]) by {
            assert(less[i] == items[i]);
        }
        let last = items.last();
        lemma_unfenced(m, less, drop_fence, k);
        lemma_unfenced(m, less, drop_fence, last.key);
        assert(!has_key(less, last.key)) by {
            if has_key(less, last.key) {
                let h = choose|h: int| 0 <= h < less.len() && (#[trigger] less[h]).key == last.key;
                assert(items[h].key != items[items.len() - 1].key);
            }
        }
        assert(activity_of(m, items[items.len() - 1].key).reclaim == Some(last));
        if has_key(less, k) {
            let h = choose|h: int| 0 <= h < less.len() && (#[trigger] less[h]).key == k;
            assert(items[h].key == k);
        }
        assert forall|i: int| 0 <= i < items.len() && (#[trigger] items[i]).key == k implies
            activity_of(unfenced_where(m, items, drop_fence), k) == if drop_fence(i) {
            ActivityModel::idle()
        } else {
            activity_of(m, k)
        } by {
            if i < less.len() {
                assert(less[i] == items[i]);
                assert(k != last.key);
            }
        }
        if !has_key(items, k) {
            assert(items[items.len() - 1].key != k);
        }
    }
}

/// When the owner has answered an abort, the fence of an item falls exactly if the owner has nothing of
/// it any more: it was aborted, is unknown or was finished before. Without an answer all fences stay, and
/// the owner is told again. What the owner had committed goes on as committed.
pub proof fn fences_fall_only_when_settled(
    asked: Seq<ItemId>,
    answer: Option<Vec<OwnerReclaimItemResp>>,
    activity0: ActivityMap,
    activity1: ActivityMap,
    newly_committed: Seq<ItemId>,
    retry: Seq<ItemId>,
    i: int,
)
    requires
        abort_noted(asked, answer, activity0, activity1, newly_committed, retry),
        forall|a: int, b: int|
            0 <= a < b < asked.len() ==> (#[trigger] asked[a]).key != (#[trigger] asked[b]).key,
        forall|a: int|
            0 <= a < asked.len() ==> activity_of(activity0, (#[trigger] asked[a]).key).reclaim == Some(
                asked[a],
            ),
        0 <= i < asked.len(),
    ensures
        ({
            let state = answer->0@[i].state;
            let settled = heard(asked, answer) && (state == OwnerReclaimItemState::Aborted || state
                == OwnerReclaimItemState::Stale || state == OwnerReclaimItemState::Finalized);
            &&& settled <==> activity_of(activity1, asked[i].key) == ActivityModel::idle()
            &&& !settled ==> activity_of(activity1, asked[i].key).reclaim == Some(asked[i])
            &&& newly_committed.contains(asked[i]) ==> heard(asked, answer) && exists|j: int|
                0 <= j < asked.len() && #[trigger] asked[j] == asked[i] && answer->0@[j].state
                    == OwnerReclaimItemState::Committed
            &&& !heard(asked, answer) ==> retry == asked && activity1 == activity0
        }),
{
    if heard(asked, answer) {
        lemma_unfenced(
            activity0,
            asked,
            |j: int| crate::reclaim::abort_settled(state_at(answer, j)),
            asked[i].key,
        );
        let done = |j: int| state_at(answer, j) == OwnerReclaimItemState::Committed;
        if newly_committed.contains(asked[i]) {
            lemma_where_from(asked, done, asked[i]);
        }
    }
}

/// When the owner has finished copies, their fences fall and they count as reclaimed; the others keep
/// their fences, and the owner is told again.
pub proof fn finished_copies_are_counted(
    run0: RunModel,
    routes0: Routes,
    activity0: ActivityMap,
    c0: EvictionReclaimCounters,
    remote: Set<Seq<char>>,
    holders: Set<Seq<char>>,
    rights: EvictionRights,
    answer: Option<Vec<OwnerReclaimItemResp>>,
    run1: RunModel,
    routes1: Routes,
    activity1: ActivityMap,
    c1: EvictionReclaimCounters,
    step: RunStep,
    i: int,
)
    requires
        answer_taken(
            run0,
            routes0,
            activity0,
            c0,
            remote,
            holders,
            rights,
            answer,
            run1,
            routes1,
            activity1,
            c1,
            step,
        ),
        run0.phase == RunPhase::Finalizing,
        forall|a: int, b: int|
            0 <= a < b < run0.asked.len() ==> (#[trigger] run0.asked[a]).key != (
            #[trigger] run0.asked[b]).key,
        forall|a: int|
            0 <= a < run0.asked.len() ==> activity_of(
                activity0,
                (#[trigger] run0.asked[a]).key,
            ).reclaim == Some(run0.asked[a]),
        0 <= i < run0.asked.len(),
    ensures
        routes1 == routes0,
        step.call is None,
        step.reclaimed + step.retry_finalize@.len() == run0.master_reclaimed + run0.asked.len(),
        heard(run0.asked, answer) && answer->0@[i].state == OwnerReclaimItemState::Finalized
            <==> activity_of(activity1, run0.asked[i].key) == ActivityModel::idle(),
        !heard(run0.asked, answer) ==> step.reclaimed == run0.master_reclaimed && activity1
            == activity0,
{
    assert(crate::reclaim::item_ids(step.retry_finalize@).len() == step.retry_finalize@.len());
    if heard(run0.asked, answer) {
        lemma_unfenced(
            activity0,
            run0.asked,
            |j: int| state_at(answer, j) == OwnerReclaimItemState::Finalized,
            run0.asked[i].key,
        );
    }
}

/// A copy that could not be reclaimed is tried again four times and then put back into the cache; one
/// that has changed meanwhile is done with. What waits to be reclaimed of its owner shrinks by its weight
/// exactly when it is done with.
pub proof fn a_copy_is_put_back_after_five_tries(
    request: EvictionReclaimRequest,
    routes: Routes,
    weights: Map<Seq<char>, u64>,
    counters: EvictionReclaimCounters,
    r: RetryStep,
    after: EvictionReclaimRequest,
    weights_after: Map<Seq<char>, u64>,
    counters_after: EvictionReclaimCounters,
)
    requires
        request.retried(
            routes,
            weights,
            counters,
            r,
            after,
            weights_after,
            counters_after,
        ),
        request.pending(weights),
        request.retry_count < u32::MAX,
    ensures
        ({
            let current = free_to_go(
                routes,
                request.owner_node_id@,
                request.key@,
                request.desc.put_id,
            );
            let owner = request.owner_node_id@;
            &&& r == RetryStep::Finished <==> !current
            &&& r == RetryStep::TryRestore <==> current && request.retry_count >= 4
            &&& r == RetryStep::Delay <==> current && request.retry_count < 4
            &&& after.retry_count == request.retry_count + 1
            &&& after.key == request.key && after.desc == request.desc
            &&& pending_of(weights_after, owner) == pending_of(weights, owner) - if r
                == RetryStep::Finished {
                request.desc.weight_bytes as int
            } else {
                0
            }
            &&& forall|o: Seq<char>| o != owner ==> #[trigger] pending_of(weights_after, o)
                == pending_of(weights, o)
        }),
{
}

/// A copy that was put back into the cache, or that has changed, is done with, and no longer waits; any
/// other is tried again.
pub proof fn a_restored_copy_is_done_with(
    request: EvictionReclaimRequest,
    restored: bool,
    routes: Routes,
    weights: Map<Seq<char>, u64>,
    counters: EvictionReclaimCounters,
    r: RetryStep,
    weights_after: Map<Seq<char>, u64>,
    counters_after: EvictionReclaimCounters,
)
    requires
        request.restore_settled(
            restored,
            routes,
            weights,
            counters,
            r,
            weights_after,
            counters_after,
        ),
        request.pending(weights),
    ensures
        r == RetryStep::Finished || r == RetryStep::Delay,
        r == RetryStep::Finished <==> restored || !free_to_go(
            routes,
            request.owner_node_id@,
            request.key@,
            request.desc.put_id,
        ),
        pending_of(weights_after, request.owner_node_id@) == pending_of(
            weights,
            request.owner_node_id@,
        ) - if r == RetryStep::Finished {
            request.desc.weight_bytes as int
        } else {
            0
        },
{
}

/// An answer is taken only if it speaks of each item that the owner was asked about, in the same order and
/// in the same epoch; otherwise the first item that it does not speak of is named.
pub proof fn an_answer_speaks_of_what_was_asked(
    items: Seq<OwnerReclaimItem>,
    responses: Seq<OwnerReclaimItemResp>,
    r: Result<(), PhaseFault>,
    i: int,
)
    requires
        phase_checked(items, responses, r),
        0 <= i < items.len(),
    ensures
        r is Ok ==> responses.len() == items.len() && responses[i].key@ == items[i].key@
            && responses[i].epoch == items[i].epoch,
        items.len() == responses.len() && (responses[i].key@ != items[i].key@ || responses[i].epoch
            != items[i].epoch) ==> (r matches Err(PhaseFault::IdentityMismatch { index }) && index
            <= i),
        items.len() != responses.len() <==> r matches Err(PhaseFault::LengthMismatch { .. }),
        r matches Err(PhaseFault::IdentityMismatch { index }) ==> responses[index as int].key@
            != items[index as int].key@ || responses[index as int].epoch
            != items[index as int].epoch,
{
    if r is Ok {
        assert(crate::reclaim::answers(items[i], responses[i]));
    }
    if let Err(PhaseFault::IdentityMismatch { index }) = r {
        if i < index {
            assert(crate::reclaim::answers(items[i], responses[i]));
        }
    }
}

/// The delay before an owner is told again doubles until it is a second, and never shrinks.
pub proof fn an_owner_is_told_again_ever_later(delay: int)
    requires
        0 <= delay <= 1000,
    ensures
        delay <= next_delay(delay) <= 1000,
        2 * delay <= 1000 ==> next_delay(delay) == 2 * delay,
        2 * delay > 1000 ==> next_delay(delay) == 1000,
{
}

proof fn lemma_where_has(items: Seq<ItemId>, keep: spec_fn(int) -> bool, i: int)
    requires
        0 <= i < items.len(),
        keep(i),
    ensures
        items_where(items, keep).contains(items[i]),
    decreases items.len(),
{
    let all = items_where(items, keep);
    let less = items.drop_last();
    let before = items_where(less, keep);
    if i < items.len() - 1 {
        lemma_where_has(less, keep, i);
        let h = choose|h: int| 0 <= h < before.len() && before[h] == less[i];
        assert(all[h] == items[i]);
    } else {
        assert(all[all.len() - 1] == items[i]);
    }
}

/// When an owner is told again to abort, each copy that waits is settled, turns out to be committed, or goes
/// on waiting; only what is settled loses its fence. Without an answer all go on waiting. It is told eight
/// times at most.
pub proof fn no_copy_is_lost_while_aborting(
    retry: AbortRetry,
    activity: ActivityMap,
    answer: Option<Vec<OwnerReclaimItemResp>>,
    after: AbortRetry,
    activity_after: ActivityMap,
    i: int,
)
    requires
        retry.told_again(activity, answer, after, activity_after),
        retry.unfinished(),
        ({
            let asked = item_ids(retry.pending@);
            &&& forall|a: int, b: int|
                0 <= a < b < asked.len() ==> (#[trigger] asked[a]).key != (#[trigger] asked[b]).key
            &&& forall|a: int|
                0 <= a < asked.len() ==> activity_of(activity, (#[trigger] asked[a]).key).reclaim
                    == Some(asked[a])
        }),
        0 <= i < retry.pending@.len(),
    ensures
        ({
            let asked = item_ids(retry.pending@);
            let item = asked[i];
            let state = answer->0@[i].state;
            let fenced = activity_of(activity_after, item.key).reclaim == Some(item);
            &&& !heard(asked, answer) ==> item_ids(after.pending@).contains(item) && fenced
            &&& heard(asked, answer) ==> {
                &&& state == OwnerReclaimItemState::Committed ==> item_ids(
                    after.committed@,
                ).contains(item) && fenced
                &&& (state == OwnerReclaimItemState::Prepared || state
                    == OwnerReclaimItemState::Busy || state == OwnerReclaimItemState::Failed)
                    ==> item_ids(after.pending@).contains(item)
                    && fenced
                &&& (state == OwnerReclaimItemState::Aborted || state
                    == OwnerReclaimItemState::Stale || state == OwnerReclaimItemState::Finalized)
                    ==> activity_of(activity_after, item.key) == ActivityModel::idle()
            }
            &&& after.attempt == retry.attempt + 1
            &&& after.attempt == 8 ==> !after.unfinished()
            &&& after.attempt < 8 && after.pending@.len() > 0 ==> after.unfinished()
        }),
{
    let asked = item_ids(retry.pending@);
    if heard(asked, answer) {
        let open = |j: int| crate::reclaim_run::abort_open(state_at(answer, j));
        let done = |j: int| state_at(answer, j) == OwnerReclaimItemState::Committed;
        lemma_unfenced(
            activity,
            asked,
            |j: int| crate::reclaim::abort_settled(state_at(answer, j)),
            asked[i].key,
        );
        if open(i) {
            lemma_where_has(asked, open, i);
        }
        if done(i) {
            lemma_where_has(asked, done, i);
            let more = items_where(asked, done);
            let h = choose|h: int| 0 <= h < more.len() && more[h] == asked[i];
            let before = item_ids(retry.committed@);
            assert((before + more)[before.len() + h] == asked[i]);
        }
    } else {
        assert(item_ids(after.pending@)[i] == asked[i]);
    }
}

/// When an owner is told again to finish, exactly the copies that it has finished lose their fences, and the
/// others go on waiting. Without an answer all go on waiting. It is told eight times at most.
pub proof fn an_unfinished_copy_goes_on_waiting(
    retry: FinalizeRetry,
    activity: ActivityMap,
    answer: Option<Vec<OwnerReclaimItemResp>>,
    after: FinalizeRetry,
    activity_after: ActivityMap,
    i: int,
)
    requires
        retry.told_again(activity, answer, after, activity_after),
        retry.unfinished(),
        ({
            let asked = item_ids(retry.pending@);
            &&& forall|a: int, b: int|
                0 <= a < b < asked.len() ==> (#[trigger] asked[a]).key != (#[trigger] asked[b]).key
            &&& forall|a: int|
                0 <= a < asked.len() ==> activity_of(activity, (#[trigger] asked[a]).key).reclaim
                    == Some(asked[a])
        }),
        0 <= i < retry.pending@.len(),
    ensures
        ({
            let asked = item_ids(retry.pending@);
            let item = asked[i];
            let finished = heard(asked, answer) && answer->0@[i].state
                == OwnerReclaimItemState::Finalized;
            &&& finished ==> activity_of(activity_after, item.key) == ActivityModel::idle()
            &&& !finished ==> item_ids(after.pending@).contains(item) && activity_of(
                activity_after,
                item.key,
            ).reclaim == Some(item)
            &&& after.attempt == retry.attempt + 1
            &&& after.attempt == 8 ==> !after.unfinished()
            &&& after.attempt < 8 && after.pending@.len() > 0 ==> after.unfinished()
        }),
{
    let asked = item_ids(retry.pending@);
    if heard(asked, answer) {
        let open = |j: int| state_at(answer, j) != OwnerReclaimItemState::Finalized;
        lemma_unfenced(
            activity,
            asked,
            |j: int| state_at(answer, j) == OwnerReclaimItemState::Finalized,
            asked[i].key,
        );
        if open(i) {
            lemma_where_has(asked, open, i);
        }
    } else {
        assert(item_ids(after.pending@)[i] == asked[i]);
    }
}

/// Copies that their owner does not know of are reclaimed without it: the owner is asked only about
/// fenced copies that it knows of, and about all of them.
pub proof fn the_owner_is_asked_about_what_it_knows(
    start: RunState,
    remote: Set<Seq<char>>,
    owner: Seq<char>,
    holders: Set<Seq<char>>,
    candidates: Seq<ItemId>,
    rights: EvictionRights,
    run: RunModel,
    step: RunStep,
    routes: Routes,
    activity: ActivityMap,
    counters: EvictionReclaimCounters,
    i: int,
)
    requires
        run_begun(
            start.routes,
            start.activity,
            start.counters,
            remote,
            owner,
            holders,
            candidates,
            rights,
            run,
            step,
            routes,
            activity,
            counters,
        ),
        step.call is Some,
        0 <= i < run.asked.len(),
    ensures
        step.call == Some(OwnerReclaimPhase::Prepare),
        run.asked[i].backing != OwnerReclaimBacking::UnindexedAllocation,
        item_may_go(start.routes, owner, run.asked[i]),
        candidates.contains(run.asked[i]),
{
    let model = FenceModel {
        activity: start.activity,
        fenced: Seq::empty(),
        counters: start.counters,
    };
    fenced_items_may_go(model, start.routes, remote, owner, holders, candidates, rights);
    let fenced = fence_all(
        model,
        start.routes,
        remote,
        owner,
        holders,
        candidates,
        rights,
    ).fenced;
    assert(fenced.len() > 0);
    let shared = |j: int| !is_unindexed(fenced[j]);
    assert(items_where(fenced, shared).contains(run.asked[i]));
    lemma_where_from(fenced, shared, run.asked[i]);
}

} // verus!
