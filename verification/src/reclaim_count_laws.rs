//! How a run of reclaiming accounts for its copies: none is lost or counted twice on the way.
use vstd::prelude::*;

use crate::cache_policy::EvictionReclaimCounters;
use crate::key_activity::{activity_of, ActivityMap, ActivityModel, ItemId};
use crate::reclaim::{
    copies_taken, fence_all, items_where, prepare_all, removals_told, revalidate_all,
    unfenced_count, unfenced_where, EvictionRights, FenceModel, OwnerReclaimItemResp,
    OwnerReclaimItemState, OwnerReclaimPhase, PrepareModel, RemovedCopy, RevalidateModel,
};
use crate::reclaim_laws::{fenced_items_may_go, has_key, lemma_unfenced, lemma_where_from};
use crate::reclaim_run::{
    answer_taken, heard, is_unindexed, run_begun, RunModel, RunPhase, RunStep,
};
use crate::recoverability::Routes;

verus! {

/// Every candidate is fenced, counts as held up by something that is under way, or counts as changed.
pub proof fn each_candidate_is_accounted_for(
    m: FenceModel,
    routes: Routes,
    remote: Set<Seq<char>>,
    owner: Seq<char>,
    holders: Set<Seq<char>>,
    items: Seq<ItemId>,
    rights: EvictionRights,
)
    requires
        m.fenced.len() == 0,
        m.counters.master_activity_deferred + items.len() <= u64::MAX,
        m.counters.route_changed + items.len() <= u64::MAX,
        m.counters.master_get_holder_observed + items.len() <= u64::MAX,
    ensures
        ({
            let c = fence_all(m, routes, remote, owner, holders, items, rights).counters;
            let fenced = fence_all(m, routes, remote, owner, holders, items, rights).fenced;
            &&& m.counters.master_activity_deferred <= c.master_activity_deferred
            &&& m.counters.route_changed <= c.route_changed
            &&& m.counters.master_get_holder_observed <= c.master_get_holder_observed
            &&& fenced.len() + (c.master_activity_deferred - m.counters.master_activity_deferred) + (
            c.route_changed - m.counters.route_changed) == items.len()
            &&& c.master_get_holder_observed - m.counters.master_get_holder_observed <= items.len()
            &&& (forall|i: int|
                0 <= i < items.len() ==> !holders.contains((#[trigger] items[i]).key))
                ==> c.master_get_holder_observed == m.counters.master_get_holder_observed
            &&& (forall|i: int|
                0 <= i < items.len() ==> holders.contains((#[trigger] items[i]).key))
                ==> c.master_get_holder_observed == m.counters.master_get_holder_observed
                + items.len()
            &&& c.completed == m.counters.completed
            &&& c.owner_holder_deferred == m.counters.owner_holder_deferred
            &&& c.owner_other_deferred == m.counters.owner_other_deferred
        }),
    decreases items.len(),
{
    if items.len() > 0 {
        let less = items.drop_last();
        each_candidate_is_accounted_for(m, routes, remote, owner, holders, less, rights);
        assert(items[items.len() - 1] == items.last());
        if forall|i: int| 0 <= i < items.len() ==> !holders.contains((#[trigger] items[i]).key) {
            assert forall|i: int| 0 <= i < less.len() implies !holders.contains(
                (#[trigger] less[i]).key,
            ) by {
                assert(less[i] == items[i]);
            }
        }
        if forall|i: int| 0 <= i < items.len() ==> holders.contains((#[trigger] items[i]).key) {
            assert forall|i: int| 0 <= i < less.len() implies holders.contains(
                (#[trigger] less[i]).key,
            ) by {
                assert(less[i] == items[i]);
            }
        }
    }
}

/// Every copy that an owner was asked to prepare is prepared, was committed before, or counts as held up by the
/// owner; a reclaim is over for none of them yet.
pub proof fn each_answer_is_accounted_for(
    m: PrepareModel,
    items: Seq<ItemId>,
    responses: Seq<OwnerReclaimItemResp>,
)
    requires
        m.prepared.len() == 0,
        m.committed.len() == 0,
        m.counters.owner_holder_deferred + items.len() <= u64::MAX,
        m.counters.owner_other_deferred + items.len() <= u64::MAX,
    ensures
        ({
            let r = prepare_all(m, items, responses);
            &&& m.counters.owner_holder_deferred <= r.counters.owner_holder_deferred
            &&& m.counters.owner_other_deferred <= r.counters.owner_other_deferred
            &&& r.prepared.len() + r.committed.len() + (r.counters.owner_holder_deferred
                - m.counters.owner_holder_deferred) + (r.counters.owner_other_deferred
                - m.counters.owner_other_deferred) == items.len()
            &&& (forall|i: int|
                0 <= i < items.len() ==> (#[trigger] responses[i]).state
                    != OwnerReclaimItemState::Busy) ==> r.counters.owner_holder_deferred
                == m.counters.owner_holder_deferred
            &&& r.counters.completed == m.counters.completed
            &&& r.counters.route_changed == m.counters.route_changed
        }),
    decreases items.len(),
{
    if items.len() > 0 {
        each_answer_is_accounted_for(m, items.drop_last(), responses);
        let last = items.len() - 1;
        if forall|i: int|
            0 <= i < items.len() ==> (#[trigger] responses[i]).state
                != OwnerReclaimItemState::Busy {
            assert(responses[last].state != OwnerReclaimItemState::Busy);
        }
    }
}

/// Every copy that may not be committed after all counts as changed.
pub proof fn each_changed_copy_is_accounted_for(
    m: RevalidateModel,
    routes: Routes,
    activity: ActivityMap,
    remote: Set<Seq<char>>,
    owner: Seq<char>,
    holders: Set<Seq<char>>,
    items: Seq<ItemId>,
    rights: EvictionRights,
)
    requires
        m.invalid.len() == 0,
        m.counters.route_changed + items.len() <= u64::MAX,
    ensures
        ({
            let r = revalidate_all(
                m,
                routes,
                activity,
                remote,
                owner,
                holders,
                items,
                rights,
            );
            &&& r.invalid.len() <= items.len()
            &&& r.counters.route_changed == m.counters.route_changed + r.invalid.len()
            &&& r.counters.completed == m.counters.completed
            &&& r.counters.owner_holder_deferred == m.counters.owner_holder_deferred
            &&& r.counters.owner_other_deferred == m.counters.owner_other_deferred
        }),
    decreases items.len(),
{
    if items.len() > 0 {
        each_changed_copy_is_accounted_for(
            m,
            routes,
            activity,
            remote,
            owner,
            holders,
            items.drop_last(),
            rights,
        );
    }
}

/// The owner has not taken the copy up.
pub open spec fn passed_over(state: OwnerReclaimItemState) -> bool {
    state != OwnerReclaimItemState::Prepared && state != OwnerReclaimItemState::Committed
}

proof fn lemma_prepare_unfences(
    m: PrepareModel,
    items: Seq<ItemId>,
    responses: Seq<OwnerReclaimItemResp>,
)
    ensures
        prepare_all(m, items, responses).activity == unfenced_where(
            m.activity,
            items,
            |i: int| passed_over(responses[i].state),
        ),
    decreases items.len(),
{
    if items.len() > 0 {
        lemma_prepare_unfences(m, items.drop_last(), responses);
    }
}

/// A copy that the owner has not taken up loses its fence, so that its key can be used again; the others keep
/// theirs.
pub proof fn a_copy_that_is_passed_over_is_let_go(
    m: PrepareModel,
    items: Seq<ItemId>,
    responses: Seq<OwnerReclaimItemResp>,
    i: int,
)
    requires
        forall|a: int, b: int|
            0 <= a < b < items.len() ==> (#[trigger] items[a]).key != (#[trigger] items[b]).key,
        forall|a: int|
            0 <= a < items.len() ==> activity_of(m.activity, (#[trigger] items[a]).key).reclaim
                == Some(items[a]),
        0 <= i < items.len(),
    ensures
        ({
            let after = prepare_all(m, items, responses).activity;
            let state = responses[i].state;
            &&& state == OwnerReclaimItemState::Prepared || state
                == OwnerReclaimItemState::Committed ==> activity_of(after, items[i].key).reclaim
                == Some(items[i])
            &&& state != OwnerReclaimItemState::Prepared && state
                != OwnerReclaimItemState::Committed ==> activity_of(after, items[i].key)
                == ActivityModel::idle()
            &&& forall|k: Seq<char>|
                !has_key(items, k) ==> #[trigger] activity_of(after, k) == activity_of(m.activity, k)
        }),
{
    lemma_prepare_unfences(m, items, responses);
    let drop_fence = |j: int| passed_over(responses[j].state);
    lemma_unfenced(m.activity, items, drop_fence, items[i].key);
    let after = prepare_all(m, items, responses).activity;
    assert forall|k: Seq<char>| !has_key(items, k) implies #[trigger] activity_of(after, k)
        == activity_of(m.activity, k) by {
        lemma_unfenced(m.activity, items, drop_fence, k);
    }
}

/// While it is not known what the owner did, nothing is taken out of a route and nothing loses its fence: the
/// owner is told to abort exactly what it was asked about.
pub proof fn silence_changes_nothing(
    run0: RunModel,
    routes0: Routes,
    activity0: ActivityMap,
    c0: EvictionReclaimCounters,
    remote: Set<Seq<char>>,
    holders: Set<Seq<char>>,
    rights: EvictionRights,
    answer: Option<Vec<OwnerReclaimItemResp>>,
    run1: RunModel,
    routes1: Routes,
    activity1: ActivityMap,
    c1: EvictionReclaimCounters,
    step: RunStep,
)
    requires
        answer_taken(
            run0,
            routes0,
            activity0,
            c0,
            remote,
            holders,
            rights,
            answer,
            run1,
            routes1,
            activity1,
            c1,
            step,
        ),
        run0.phase == RunPhase::Preparing || run0.phase == RunPhase::Committing,
        !heard(run0.asked, answer),
    ensures
        routes1 == routes0,
        activity1 == activity0,
        c1 == c0,
        step.call == Some(OwnerReclaimPhase::Abort),
        step.removed@.len() == 0,
        run1.asked == run0.asked,
        run1.committed == run0.committed,
        run1.owner == run0.owner,
        run1.master_reclaimed == run0.master_reclaimed,
        run0.phase == RunPhase::Preparing ==> run1.phase == RunPhase::AbortingAll,
        run0.phase == RunPhase::Committing ==> run1.phase == RunPhase::AbortingUnresolved,
{
}

/// When a run is over, what it has reclaimed counts as completed, once, and nothing does before.
pub proof fn what_was_reclaimed_is_counted_at_the_end(
    run0: RunModel,
    routes0: Routes,
    activity0: ActivityMap,
    c0: EvictionReclaimCounters,
    remote: Set<Seq<char>>,
    holders: Set<Seq<char>>,
    rights: EvictionRights,
    answer: Option<Vec<OwnerReclaimItemResp>>,
    run1: RunModel,
    routes1: Routes,
    activity1: ActivityMap,
    c1: EvictionReclaimCounters,
    step: RunStep,
)
    requires
        answer_taken(
            run0,
            routes0,
            activity0,
            c0,
            remote,
            holders,
            rights,
            answer,
            run1,
            routes1,
            activity1,
            c1,
            step,
        ),
        run0.phase != RunPhase::Preparing,
        run0.phase != RunPhase::Over,
        c0.completed + run0.master_reclaimed + run0.asked.len() <= u64::MAX,
    ensures
        step.call is None ==> c1.completed == c0.completed + step.reclaimed,
        step.call is Some ==> c1.completed == c0.completed,
        step.call is None && run0.phase != RunPhase::Finalizing ==> step.reclaimed
            == run0.master_reclaimed,
        c1.route_changed == c0.route_changed,
{
    if run0.phase == RunPhase::Finalizing {
        assert(crate::reclaim::item_ids(step.retry_finalize@).len() == step.retry_finalize@.len());
    }
}

/// The copies that are told of are exactly those that left their routes, each with its version, and with its key
/// if that has no route any more.
pub proof fn what_is_told_removed_is_gone(
    list: Seq<RemovedCopy>,
    before: Routes,
    after: Routes,
    owner: Seq<char>,
    items: Seq<ItemId>,
    fences: ActivityMap,
    i: int,
    key: Seq<char>,
)
    requires
        copies_taken(before, after, owner, items, fences),
        removals_told(list, before, after, owner, items, fences),
        0 <= i < list.len(),
    ensures
        before.contains_key(list[i].key@),
        before[list[i].key@].nodes_replicas@.contains_key(owner),
        list[i].put_id == before[list[i].key@].put_id,
        after.contains_key(list[i].key@) ==> !after[list[i].key@].nodes_replicas@.contains_key(owner)
            && !list[i].route_removed,
        !after.contains_key(list[i].key@) ==> list[i].route_removed,
        (forall|j: int| 0 <= j < list.len() ==> (#[trigger] list[j]).key@ != key) ==> (
        after.contains_key(key) <==> before.contains_key(key)) && (before.contains_key(key)
            ==> after[key] == before[key]),
        forall|j: int| 0 <= j < list.len() && j != i ==> (#[trigger] list[j]).key@ != list[i].key@,
{
    let k = list[i].key@;
    assert(crate::reclaim::copy_taken(before, owner, items, fences, k));
    let h = choose|h: int|
        {
            &&& 0 <= h < items.len()
            &&& (#[trigger] items[h]).key == k
            &&& activity_of(fences, k).reclaim == Some(items[h])
            &&& crate::reclaim::shows_copy(before, owner, items[h])
        };
    assert(crate::reclaim::shows_copy(before, owner, items[h]));
    assert(after.contains_key(k) == after.contains_key(k));
    assert(after.contains_key(key) == after.contains_key(key));
    if forall|j: int| 0 <= j < list.len() ==> (#[trigger] list[j]).key@ != key {
        assert(!crate::reclaim::lists_copy(list, key));
    }
}

/// Copies that the master takes back alone all count, and their keys can be used again.
pub proof fn copies_that_go_alone_are_counted(m: ActivityMap, items: Seq<ItemId>, k: Seq<char>)
    requires
        forall|a: int, b: int|
            0 <= a < b < items.len() ==> (#[trigger] items[a]).key != (#[trigger] items[b]).key,
        forall|a: int|
            0 <= a < items.len() ==> activity_of(m, (#[trigger] items[a]).key).reclaim == Some(
                items[a],
            ),
    ensures
        unfenced_count(m, items).1 == items.len(),
        activity_of(unfenced_count(m, items).0, k) == if has_key(items, k) {
            ActivityModel::idle()
        } else {
            activity_of(m, k)
        },
    decreases items.len(),
{
    if items.len() > 0 {
        let less = items.drop_last();
        let last = items.last();
        assert forall|a: int, b: int| 0 <= a < b < less.len() implies (#[trigger] less[a]).key != (
        #[trigger] less[b]).key by {
            assert(items[a].key != items[b].key);
        }
        assert forall|a: int| 0 <= a < less.len() implies activity_of(
            m,
            (#[trigger] less[a]).key,
        ).reclaim == Some(less[a]) by {
            assert(less[a] == items[a]);
        }
        copies_that_go_alone_are_counted(m, less, k);
        copies_that_go_alone_are_counted(m, less, last.key);
        assert(items[items.len() - 1] == last);
        assert(!has_key(less, last.key)) by {
            if has_key(less, last.key) {
                let h = choose|h: int| 0 <= h < less.len() && (#[trigger] less[h]).key == last.key;
                assert(items[h].key != items[items.len() - 1].key);
            }
        }
        if has_key(less, k) {
            let h = choose|h: int| 0 <= h < less.len() && (#[trigger] less[h]).key == k;
            assert(items[h].key == k);
        }
        if has_key(items, k) && k != last.key {
            let h = choose|h: int| 0 <= h < items.len() && (#[trigger] items[h]).key == k;
            assert(less[h].key == k);
        }
    }
}

/// While a run goes on it stays with its owner, and what the master took back alone goes on counting.
pub proof fn a_run_stays_with_its_owner(
    run0: RunModel,
    routes0: Routes,
    activity0: ActivityMap,
    c0: EvictionReclaimCounters,
    remote: Set<Seq<char>>,
    holders: Set<Seq<char>>,
    rights: EvictionRights,
    answer: Option<Vec<OwnerReclaimItemResp>>,
    run1: RunModel,
    routes1: Routes,
    activity1: ActivityMap,
    c1: EvictionReclaimCounters,
    step: RunStep,
)
    requires
        answer_taken(
            run0,
            routes0,
            activity0,
            c0,
            remote,
            holders,
            rights,
            answer,
            run1,
            routes1,
            activity1,
            c1,
            step,
        ),
        run0.phase != RunPhase::Over,
        step.call is Some,
    ensures
        run1.owner == run0.owner,
        run1.master_reclaimed == run0.master_reclaimed,
{
}

/// A run begins with its keys fenced: what the owner is asked about stays fenced, what the master takes back alone
/// is free again, and all other keys are as they were. Every candidate is accounted for.
pub proof fn a_run_begins_with_its_keys_fenced(
    start_routes: Routes,
    activity0: ActivityMap,
    c0: EvictionReclaimCounters,
    remote: Set<Seq<char>>,
    owner: Seq<char>,
    holders: Set<Seq<char>>,
    candidates: Seq<ItemId>,
    rights: EvictionRights,
    run: RunModel,
    step: RunStep,
    routes1: Routes,
    activity1: ActivityMap,
    c1: EvictionReclaimCounters,
    k: Seq<char>,
)
    requires
        run_begun(
            start_routes,
            activity0,
            c0,
            remote,
            owner,
            holders,
            candidates,
            rights,
            run,
            step,
            routes1,
            activity1,
            c1,
        ),
        c0.master_activity_deferred + candidates.len() <= u64::MAX,
        c0.route_changed + candidates.len() <= u64::MAX,
        c0.master_get_holder_observed + candidates.len() <= u64::MAX,
        c0.completed + candidates.len() <= u64::MAX,
    ensures
        ({
            let fences = fence_all(
                FenceModel { activity: activity0, fenced: Seq::empty(), counters: c0 },
                start_routes,
                remote,
                owner,
                holders,
                candidates,
                rights,
            );
            &&& !has_key(fences.fenced, k) ==> activity_of(activity1, k) == activity_of(activity0, k)
            &&& step.call is Some ==> forall|i: int|
                0 <= i < run.asked.len() ==> activity_of(
                    activity1,
                    (#[trigger] run.asked[i]).key,
                ).reclaim == Some(run.asked[i])
            &&& step.call is None ==> c1.completed == c0.completed + step.reclaimed
            &&& step.call is Some ==> c1.completed == c0.completed
            &&& fences.fenced.len() + (c1.master_activity_deferred - c0.master_activity_deferred) + (
            c1.route_changed - c0.route_changed) == candidates.len()
            &&& step.call is None ==> step.reclaimed == fences.fenced.len()
            &&& step.call is Some ==> run.master_reclaimed + run.asked.len() == fences.fenced.len()
        }),
        (forall|j: int| 0 <= j < step.removed@.len() ==> (#[trigger] step.removed@[j]).key@ != k)
            ==> (routes1.contains_key(k) <==> start_routes.contains_key(k)) && (
        start_routes.contains_key(k) ==> routes1[k] == start_routes[k]),
{
    let m = FenceModel { activity: activity0, fenced: Seq::empty(), counters: c0 };
    let fences = fence_all(m, start_routes, remote, owner, holders, candidates, rights);
    let fenced = fences.fenced;
    each_candidate_is_accounted_for(m, start_routes, remote, owner, holders, candidates, rights);
    fenced_items_may_go(m, start_routes, remote, owner, holders, candidates, rights);
    if fenced.len() > 0 {
        let own = |i: int| is_unindexed(fenced[i]);
        let other = |i: int| !is_unindexed(fenced[i]);
        let alone = items_where(fenced, own);
        let shared = items_where(fenced, other);
        lemma_some_of(fenced, own);
        lemma_some_of(fenced, other);
        assert(alone.len() <= fenced.len());
        lemma_part_fenced(fenced, own, fences.activity);
        copies_that_go_alone_are_counted(fences.activity, alone, k);
        if has_key(alone, k) {
            let h = choose|h: int| 0 <= h < alone.len() && (#[trigger] alone[h]).key == k;
            assert(fenced.contains(alone[h]));
            let g = choose|g: int| 0 <= g < fenced.len() && fenced[g] == alone[h];
            assert(fenced[g].key == k);
        }
        assert forall|i: int| 0 <= i < shared.len() implies activity_of(
            activity1,
            (#[trigger] shared[i]).key,
        ).reclaim == Some(shared[i]) by {
            let item = shared[i];
            assert(shared.contains(item));
            lemma_where_from(fenced, other, item);
            let g = choose|g: int| 0 <= g < fenced.len() && #[trigger] fenced[g] == item && other(g);
            copies_that_go_alone_are_counted(fences.activity, alone, item.key);
            if has_key(alone, item.key) {
                let h = choose|h: int| 0 <= h < alone.len() && (#[trigger] alone[h]).key == item.key;
                assert(alone.contains(alone[h]));
                lemma_where_from(fenced, own, alone[h]);
                let f = choose|f: int|
                    0 <= f < fenced.len() && #[trigger] fenced[f] == alone[h] && own(f);
                assert(fenced[f].key == fenced[g].key);
            }
        }
        lemma_parts_make_up(fenced);
        lemma_changes_are_told(
            step.removed@,
            start_routes,
            routes1,
            owner,
            alone,
            fences.activity,
            k,
        );
    }
}

/// A route that changed is told of.
proof fn lemma_changes_are_told(
    list: Seq<RemovedCopy>,
    before: Routes,
    after: Routes,
    owner: Seq<char>,
    items: Seq<ItemId>,
    fences: ActivityMap,
    key: Seq<char>,
)
    requires
        copies_taken(before, after, owner, items, fences),
        removals_told(list, before, after, owner, items, fences),
    ensures
        (forall|j: int| 0 <= j < list.len() ==> (#[trigger] list[j]).key@ != key) ==> (
        after.contains_key(key) <==> before.contains_key(key)) && (before.contains_key(key)
            ==> after[key] == before[key]),
{
    assert(after.contains_key(key) == after.contains_key(key));
    if forall|j: int| 0 <= j < list.len() ==> (#[trigger] list[j]).key@ != key {
        assert(!crate::reclaim::lists_copy(list, key));
    }
}

/// Every route that changes while a run goes on is told of.
pub proof fn every_removal_is_told(
    run0: RunModel,
    routes0: Routes,
    activity0: ActivityMap,
    c0: EvictionReclaimCounters,
    remote: Set<Seq<char>>,
    holders: Set<Seq<char>>,
    rights: EvictionRights,
    answer: Option<Vec<OwnerReclaimItemResp>>,
    run1: RunModel,
    routes1: Routes,
    activity1: ActivityMap,
    c1: EvictionReclaimCounters,
    step: RunStep,
    k: Seq<char>,
)
    requires
        answer_taken(
            run0,
            routes0,
            activity0,
            c0,
            remote,
            holders,
            rights,
            answer,
            run1,
            routes1,
            activity1,
            c1,
            step,
        ),
        run0.phase != RunPhase::Over,
        forall|j: int| 0 <= j < step.removed@.len() ==> (#[trigger] step.removed@[j]).key@ != k,
    ensures
        routes1.contains_key(k) <==> routes0.contains_key(k),
        routes0.contains_key(k) ==> routes1[k] == routes0[k],
{
    assert forall|items: Seq<ItemId>|
        copies_taken(routes0, routes1, run0.owner, items, activity1) && #[trigger] removals_told(
            step.removed@,
            routes0,
            routes1,
            run0.owner,
            items,
            activity1,
        ) implies (routes1.contains_key(k) <==> routes0.contains_key(k)) && (routes0.contains_key(k)
        ==> routes1[k] == routes0[k]) by {
        lemma_changes_are_told(
            step.removed@,
            routes0,
            routes1,
            run0.owner,
            items,
            activity1,
            k,
        );
    }
}

/// Each of the items is on one side or the other.
proof fn lemma_parts_make_up(items: Seq<ItemId>)
    ensures
        items_where(items, |i: int| is_unindexed(items[i])).len() + items_where(
            items,
            |i: int| !is_unindexed(items[i]),
        ).len() == items.len(),
{
    lemma_split(items, |i: int| is_unindexed(items[i]), |i: int| !is_unindexed(items[i]));
}

proof fn lemma_split(items: Seq<ItemId>, a: spec_fn(int) -> bool, b: spec_fn(int) -> bool)
    requires
        forall|i: int| 0 <= i < items.len() ==> #[trigger] a(i) == !b(i),
    ensures
        items_where(items, a).len() + items_where(items, b).len() == items.len(),
    decreases items.len(),
{
    if items.len() > 0 {
        lemma_split(items.drop_last(), a, b);
        assert(a(items.len() - 1) == !b(items.len() - 1));
    }
}

proof fn lemma_some_of(items: Seq<ItemId>, keep: spec_fn(int) -> bool)
    ensures
        items_where(items, keep).len() <= items.len(),
        forall|x: ItemId| #[trigger] items_where(items, keep).contains(x) ==> items.contains(x),
        forall|i: int|
            0 <= i < items_where(items, keep).len() ==> items.contains(
                #[trigger] items_where(items, keep)[i],
            ),
    decreases items.len(),
{
    let all = items_where(items, keep);
    assert forall|x: ItemId| #[trigger] all.contains(x) implies items.contains(x) by {
        lemma_where_from(items, keep, x);
    }
    assert forall|i: int| 0 <= i < all.len() implies items.contains(#[trigger] all[i]) by {
        assert(all.contains(all[i]));
    }
    if items.len() > 0 {
        lemma_some_of(items.drop_last(), keep);
    }
}

/// A part of items with different keys that are all fenced is such, too.
proof fn lemma_part_fenced(items: Seq<ItemId>, keep: spec_fn(int) -> bool, activity: ActivityMap)
    requires
        forall|a: int, b: int|
            0 <= a < b < items.len() ==> (#[trigger] items[a]).key != (#[trigger] items[b]).key,
        forall|a: int|
            0 <= a < items.len() ==> activity_of(activity, (#[trigger] items[a]).key).reclaim
                == Some(items[a]),
    ensures
        ({
            let part = items_where(items, keep);
            &&& forall|a: int, b: int|
                0 <= a < b < part.len() ==> (#[trigger] part[a]).key != (#[trigger] part[b]).key
            &&& forall|a: int|
                0 <= a < part.len() ==> activity_of(activity, (#[trigger] part[a]).key).reclaim
                    == Some(part[a])
        }),
    decreases items.len(),
{
    let part = items_where(items, keep);
    if items.len() > 0 {
        let less = items.drop_last();
        let before = items_where(less, keep);
        assert forall|a: int, b: int| 0 <= a < b < less.len() implies (#[trigger] less[a]).key != (
        #[trigger] less[b]).key by {
            assert(items[a].key != items[b].key);
        }
        assert forall|a: int| 0 <= a < less.len() implies activity_of(
            activity,
            (#[trigger] less[a]).key,
        ).reclaim == Some(less[a]) by {
            assert(less[a] == items[a]);
        }
        lemma_part_fenced(less, keep, activity);
        lemma_some_of(less, keep);
        assert(items[items.len() - 1] == items.last());
        assert forall|a: int, b: int| 0 <= a < b < part.len() implies (#[trigger] part[a]).key != (
        #[trigger] part[b]).key by {
            assert(part[a] == before[a]);
            if b < before.len() {
                assert(part[b] == before[b]);
            } else {
                assert(less.contains(before[a]));
                let h = choose|h: int| 0 <= h < less.len() && less[h] == before[a];
                assert(items[h].key != items[items.len() - 1].key);
            }
        }
        assert forall|a: int| 0 <= a < part.len() implies activity_of(
            activity,
            (#[trigger] part[a]).key,
        ).reclaim == Some(part[a]) by {
            if a < before.len() {
                assert(part[a] == before[a]);
            }
        }
    }
}

} // verus!
