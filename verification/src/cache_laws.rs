//! What the caches of nodes may drop and what they take in.
use vstd::prelude::*;

use crate::cache_policy::{
    capacity_adjusted, entry_status, evicts_first_is, fallback_of, may_lose, projected_of,
    requested_of, sole_copy, AdjustError, AdjustStep, EvictionReclaimCounters,
    MemberSpace, NodeCacheReservedCapacity, ReservedCapacityReason,
    UnrecoverableCacheEvictionContext,
};
use crate::demotion::{cached_weight, step_decided, Cached, DemotionStep};
use crate::ids::PutIDForAKey;
use crate::recoverability::{
    all_held_by, group_members, has_status, recoverable_group_is_on_one_remote_node,
    RecoverableReplicaStatus, Routes,
};
use crate::route_maintenance::{
    batch_asks, entries_of, entries_weight, events_of_owner, is_last, last_events, latest_entries,
    places_where, BatchAdmission, OwnerEvent, RoutePublishEvent,
};
use crate::routes::{member_keys, NodeValueReplicaDesc, OneKvNodesRoutes};
use crate::tp_key::is_tp_key;

verus! {

/// The node is there and has a copy.
pub open spec fn has_live_copy(route: OneKvNodesRoutes, node: Seq<char>) -> bool {
    route.nodes_replicas@.contains_key(node) && !route.nodes_replicas@[node].tomb_tag.tomb
}

/// The key stands for itself: nothing was put together with it, and it names no rank among several.
pub open spec fn stands_alone(key: Seq<char>, route: OneKvNodesRoutes) -> bool {
    &&& route.atomic_group is None
    &&& forall|prefix: Seq<char>, rank: nat, size: nat| #[trigger]
        is_tp_key(key, prefix, rank, size) ==> size == 1
}

/// A copy of a key that stands for itself can be brought back exactly if it is the current one, without a
/// lease, and a node of the remote tier other than its owner has a copy too.
pub proof fn a_lone_copy_is_recoverable_from_the_remote_tier(
    owner: Seq<char>,
    key: Seq<char>,
    put_id: PutIDForAKey,
    routes: Routes,
    remote: Set<Seq<char>>,
    status: RecoverableReplicaStatus,
)
    requires
        entry_status(routes, remote, owner, key, put_id, status),
        routes.contains_key(key) ==> stands_alone(key, routes[key]),
    ensures
        status == RecoverableReplicaStatus::Recoverable <==> {
            &&& routes.contains_key(key)
            &&& routes[key].put_id == put_id
            &&& routes[key].lease_id is None
            &&& has_live_copy(routes[key], owner)
            &&& exists|n: Seq<char>|
                n != owner && remote.contains(n) && #[trigger] has_live_copy(routes[key], n)
        },
{
    if routes.contains_key(key) {
        let route = routes[key];
        let others = route.live_remote(remote).remove(owner);
        if exists|n: Seq<char>|
            n != owner && remote.contains(n) && #[trigger] has_live_copy(route, n) {
            let n = choose|n: Seq<char>|
                n != owner && remote.contains(n) && #[trigger] has_live_copy(route, n);
            assert(others.contains(n));
            assert(others != Set::<Seq<char>>::empty());
        }
        if others != Set::<Seq<char>>::empty() {
            assert(exists|n: Seq<char>| others.contains(n)) by {
                if !exists|n: Seq<char>| others.contains(n) {
                    assert(others =~= Set::<Seq<char>>::empty());
                }
            }
            let n = choose|n: Seq<char>| others.contains(n);
            assert(has_live_copy(route, n));
        }
    }
}

/// What a cache drops first is not just coming in, has no lease, and all that was put together with it is
/// on one node of the remote tier other than its owner.
pub proof fn what_goes_first_can_be_brought_back(
    routes: Routes,
    remote: Set<Seq<char>>,
    owner: Seq<char>,
    key: Seq<char>,
    put_id: PutIDForAKey,
    excluded: Set<Seq<char>>,
    before: EvictionReclaimCounters,
    r: bool,
    after: EvictionReclaimCounters,
)
    requires
        evicts_first_is(routes, remote, owner, key, put_id, excluded, before, r, after),
    ensures
        r ==> {
            &&& !excluded.contains(key)
            &&& routes.contains_key(key)
            &&& routes[key].put_id == put_id
            &&& routes[key].lease_id is None
            &&& group_members(key, routes[key], put_id) is Ok
            &&& exists|n: Seq<char>| #[trigger]
                all_held_by(
                    routes,
                    remote,
                    owner,
                    n,
                    member_keys(group_members(key, routes[key], put_id)->Ok_0),
                )
        },
        !excluded.contains(key) && routes.contains_key(key) && stands_alone(key, routes[key])
            && routes[key].put_id == put_id && routes[key].lease_id is None && has_live_copy(
            routes[key],
            owner,
        ) && (exists|n: Seq<char>|
            n != owner && remote.contains(n) && #[trigger] has_live_copy(routes[key], n)) ==> r,
{
    if !excluded.contains(key) {
        let status = choose|status: RecoverableReplicaStatus|
            {
                &&& #[trigger] entry_status(routes, remote, owner, key, put_id, status)
                &&& r == (status == RecoverableReplicaStatus::Recoverable)
            };
        if r {
            recoverable_group_is_on_one_remote_node(owner, key, put_id, routes, remote);
        }
        if routes.contains_key(key) && stands_alone(key, routes[key]) {
            a_lone_copy_is_recoverable_from_the_remote_tier(
                owner,
                key,
                put_id,
                routes,
                remote,
                status,
            );
        }
    }
}

/// Copies that cannot be brought back are kept exactly while a node of the remote tier has memory for
/// them, the owner is not of that tier itself, and no room for slots is wanted.
pub proof fn values_are_kept_while_the_remote_tier_can_take_them(
    owner_is_remote_only: bool,
    members: Seq<MemberSpace>,
    context: UnrecoverableCacheEvictionContext,
)
    ensures
        !may_lose(owner_is_remote_only, members, context) <==> {
            &&& context == UnrecoverableCacheEvictionContext::NormalCapacity
            &&& !owner_is_remote_only
            &&& exists|i: int|
                0 <= i < members.len() && (#[trigger] members[i]).remote_only
                    && members[i].space_bytes > 0
        },
{
    if exists|i: int|
        0 <= i < members.len() && (#[trigger] members[i]).remote_only && members[i].space_bytes > 0 {
        let i = choose|i: int|
            0 <= i < members.len() && (#[trigger] members[i]).remote_only && members[i].space_bytes
                > 0;
        assert(crate::cache_policy::ready_remote(members[i]));
    }
}

/// A cache that may drop anything keeps to its capacity, as far as it can drop what it is asked for; it is
/// asked for no more than that. Where a copy must not be lost, nothing is asked for beside what can be
/// brought back.
pub proof fn a_cache_keeps_to_its_capacity(
    current: int,
    replaced: int,
    incoming: int,
    capacity: int,
    recoverable_selected: int,
    allowed: bool,
)
    requires
        0 <= replaced <= current,
        0 <= incoming,
        current - replaced + incoming <= u64::MAX,
        0 <= capacity,
        0 <= recoverable_selected,
    ensures
        ({
            let projected = projected_of(current, replaced, incoming);
            let requested = requested_of(projected, capacity);
            let fallback = fallback_of(requested, recoverable_selected, allowed);
            &&& projected == current - replaced + incoming
            &&& requested == 0 <==> current - replaced + incoming <= capacity
            &&& requested > 0 ==> projected - requested == capacity
            &&& allowed ==> projected - recoverable_selected - fallback <= capacity
            &&& !allowed ==> fallback == 0
            &&& recoverable_selected >= requested ==> fallback == 0
        }),
{
}

/// Memory is kept back only where a cache can make room for it, and then no more than it leaves to the
/// cache; otherwise nothing changes.
pub proof fn reserved_memory_is_not_used_by_the_cache(
    before: NodeCacheReservedCapacity,
    cache_enabled: bool,
    node_space_size: u64,
    base_capacity: u64,
    cache_found: bool,
    reason: ReservedCapacityReason,
    delta_bytes: i64,
    r: Result<AdjustStep, AdjustError>,
    after: NodeCacheReservedCapacity,
)
    requires
        capacity_adjusted(
            before,
            cache_enabled,
            node_space_size,
            base_capacity,
            cache_found,
            reason,
            delta_bytes,
            r,
            after,
        ),
        delta_bytes > i64::MIN,
        0 <= before.total_bytes + delta_bytes <= u64::MAX,
        0 <= before.lease_bound_kv_bytes + delta_bytes <= u64::MAX,
    ensures
        r matches Ok(AdjustStep::Resize { capacity }) ==> {
            &&& after.total_bytes == before.total_bytes + delta_bytes
            &&& after.lease_bound_kv_bytes == before.lease_bound_kv_bytes + delta_bytes
            &&& after.total_bytes <= base_capacity ==> capacity + after.total_bytes == base_capacity
            &&& after.total_bytes > base_capacity ==> capacity == 0
        },
        !(r matches Ok(AdjustStep::Resize { .. })) ==> after == before,
        r matches Ok(AdjustStep::Resize { .. }) <==> cache_enabled && node_space_size > 0
            && cache_found,
        r is Err <==> cache_enabled && (node_space_size == 0 || !cache_found),
{
}

/// A copy is written back from the first tier only if it is the only one of its version that is alive, it
/// has no lease, and it is not being copied already.
pub proof fn only_a_sole_copy_is_written_back(
    routes: Routes,
    source: Seq<char>,
    key: Seq<char>,
    put_id: PutIDForAKey,
    copy_inflight: bool,
)
    ensures
        sole_copy(routes, source, key, put_id, copy_inflight) ==> {
            &&& !copy_inflight
            &&& routes.contains_key(key)
            &&& routes[key].put_id == put_id
            &&& routes[key].lease_id is None
            &&& forall|n: Seq<char>| #[trigger]
                has_live_copy(routes[key], n) ==> routes[key].nodes_replicas@[n].node_id@ == source
            &&& exists|n: Seq<char>| #[trigger] has_live_copy(routes[key], n)
        },
        !copy_inflight && routes.contains_key(key) && routes[key].put_id == put_id
            && routes[key].lease_id is None && (exists|n: Seq<char>| #[trigger]
            has_live_copy(routes[key], n)) && (forall|n: Seq<char>| #[trigger]
            has_live_copy(routes[key], n) ==> routes[key].nodes_replicas@[n].node_id@ == source)
            ==> sole_copy(routes, source, key, put_id, copy_inflight),
{
    if routes.contains_key(key) {
        let copies = routes[key].nodes_replicas@;
        if sole_copy(routes, source, key, put_id, copy_inflight) {
            let n = choose|n: Seq<char>| #[trigger]
                copies.contains_key(n) && copies[n].node_id@ == source && !copies[n].tomb_tag.tomb;
            assert(has_live_copy(routes[key], n));
        }
        if exists|n: Seq<char>| #[trigger] has_live_copy(routes[key], n) {
            let n = choose|n: Seq<char>| #[trigger] has_live_copy(routes[key], n);
            assert(copies.contains_key(n));
        }
        if forall|n: Seq<char>| #[trigger]
            has_live_copy(routes[key], n) ==> copies[n].node_id@ == source {
            assert forall|n: Seq<char>| #[trigger] copies.contains_key(n) implies copies[n].tomb_tag.tomb
                || copies[n].node_id@ == source by {
                if !copies[n].tomb_tag.tomb {
                    assert(has_live_copy(routes[key], n));
                }
            }
        }
    }
}

/// A cohort is dropped only as a whole: each of its keys is in the cache, once, without a lease, and can
/// be brought back from one node of the remote tier; what is freed is what they weigh together. A key
/// that stands for itself is dropped exactly if it can be brought back.
pub proof fn a_cohort_goes_as_a_whole(
    owner: Seq<char>,
    key: Seq<char>,
    put_id: PutIDForAKey,
    keys: Seq<Seq<char>>,
    cached: Cached,
    routes: Routes,
    remote: Set<Seq<char>>,
    step: DemotionStep,
)
    requires
        step_decided(owner, key, put_id, keys, cached, routes, remote, step),
    ensures
        step matches DemotionStep::Evict { weight } ==> {
            &&& cached.contains_key(key) && cached[key].put_id == put_id
            &&& keys.len() > 0 && keys.no_duplicates()
            &&& weight == cached_weight(keys, cached)
            &&& forall|i: int|
                0 <= i < keys.len() ==> {
                    let k = #[trigger] keys[i];
                    &&& cached.contains_key(k)
                    &&& routes.contains_key(k)
                    &&& routes[k].put_id == cached[k].put_id
                    &&& routes[k].lease_id is None
                    &&& exists|n: Seq<char>|
                        n != owner && remote.contains(n) && #[trigger] has_live_copy(routes[k], n)
                }
        },
        keys == seq![key] && routes.contains_key(key) && stands_alone(key, routes[key])
            && cached.contains_key(key) && cached[key].put_id == put_id && routes[key].put_id
            == put_id && routes[key].lease_id is None && has_live_copy(routes[key], owner)
            && cached[key].weight_bytes > 0 && (exists|n: Seq<char>|
            n != owner && remote.contains(n) && #[trigger] has_live_copy(routes[key], n)) ==> step
            == (DemotionStep::Evict { weight: cached[key].weight_bytes as u64 }),
{
    if let DemotionStep::Evict { weight } = step {
        assert forall|i: int| 0 <= i < keys.len() implies {
            let k = #[trigger] keys[i];
            &&& cached.contains_key(k)
            &&& routes.contains_key(k)
            &&& routes[k].put_id == cached[k].put_id
            &&& routes[k].lease_id is None
            &&& exists|n: Seq<char>|
                n != owner && remote.contains(n) && #[trigger] has_live_copy(routes[k], n)
        } by {
            let k = keys[i];
            assert(crate::demotion::may_go(owner, keys[i], cached, routes, remote));
            recoverable_group_is_on_one_remote_node(owner, k, cached[k].put_id, routes, remote);
            let members = group_members(k, routes[k], cached[k].put_id)->Ok_0;
            let n = choose|n: Seq<char>| #[trigger]
                all_held_by(routes, remote, owner, n, member_keys(members));
            assert(members.contains((k, cached[k].put_id))) by {
                if routes[k].group() is None {
                    assert(members[0] == (k, cached[k].put_id));
                }
            }
            let h = choose|h: int| 0 <= h < members.len() && members[h] == (k, cached[k].put_id);
            assert(member_keys(members)[h] == k);
            assert(has_live_copy(routes[k], n));
        }
    }
    if keys == seq![key] && routes.contains_key(key) && stands_alone(key, routes[key])
        && cached.contains_key(key) && cached[key].put_id == put_id && routes[key].put_id == put_id
        && routes[key].lease_id is None && has_live_copy(routes[key], owner)
        && cached[key].weight_bytes > 0 && (exists|n: Seq<char>|
        n != owner && remote.contains(n) && #[trigger] has_live_copy(routes[key], n)) {
        lemma_lone_cohort(owner, key, put_id, keys, cached, routes, remote, step);
    }
}

proof fn lemma_lone_cohort(
    owner: Seq<char>,
    key: Seq<char>,
    put_id: PutIDForAKey,
    keys: Seq<Seq<char>>,
    cached: Cached,
    routes: Routes,
    remote: Set<Seq<char>>,
    step: DemotionStep,
)
    requires
        step_decided(owner, key, put_id, keys, cached, routes, remote, step),
        keys == seq![key],
        routes.contains_key(key),
        stands_alone(key, routes[key]),
        cached.contains_key(key),
        cached[key].put_id == put_id,
        routes[key].put_id == put_id,
        routes[key].lease_id is None,
        has_live_copy(routes[key], owner),
        cached[key].weight_bytes > 0,
        exists|n: Seq<char>|
            n != owner && remote.contains(n) && #[trigger] has_live_copy(routes[key], n),
    ensures
        step == (DemotionStep::Evict { weight: cached[key].weight_bytes as u64 }),
{
    let route = routes[key];
    let members = seq![(key, put_id)];
    assert(group_members(key, route, put_id) == Ok::<
        Seq<(Seq<char>, PutIDForAKey)>,
        RecoverableReplicaStatus,
    >(members));
    assert(member_keys(members) =~= keys);
    assert(crate::demotion::cohort_of(key, route, put_id, keys));
    assert(crate::demotion::anchored(key, put_id, cached, routes));
    let others = route.live_remote(remote).remove(owner);
    let n = choose|n: Seq<char>|
        n != owner && remote.contains(n) && #[trigger] has_live_copy(route, n);
    assert(others.contains(n));
    assert(has_status(
        owner,
        key,
        route,
        put_id,
        routes,
        remote,
        RecoverableReplicaStatus::Recoverable,
    ));
    assert(entry_status(
        routes,
        remote,
        owner,
        key,
        put_id,
        RecoverableReplicaStatus::Recoverable,
    ));
    assert(keys.drop_last() =~= Seq::<Seq<char>>::empty());
    assert(cached_weight(keys.drop_last(), cached) == 0);
    assert(keys.last() == key);
    let w = cached[key].weight_bytes as int;
    assert(cached_weight(keys, cached) == w);
    assert(keys.no_duplicates());
    assert forall|i: int| 0 <= i < keys.len() implies crate::demotion::may_go(
        owner,
        #[trigger] keys[i],
        cached,
        routes,
        remote,
    ) by {}
    assert(crate::demotion::demotable(owner, key, put_id, keys, cached, routes, remote, w));
}

/// A batch brings into the cache of a node exactly the copies on it that are current and have no lease,
/// each with its weight.
pub proof fn only_current_copies_enter_a_cache(
    events: Seq<RoutePublishEvent>,
    routes: Routes,
    owner: Seq<char>,
    r: Seq<OwnerEvent>,
)
    requires
        events.len() <= usize::MAX,
        events_of_owner(events, routes, owner, r),
    ensures
        forall|j: int|
            0 <= j < r.len() ==> {
                let e = #[trigger] r[j];
                let event = events[e.0 as int];
                &&& e.0 < events.len()
                &&& event.node_id@ == owner
                &&& event.lease_id is None
                &&& e.1@ == event.key@
                &&& e.2.put_id == event.put_id
                &&& event.capacity_bytes <= u32::MAX ==> e.2.weight_bytes == event.capacity_bytes
                &&& routes.contains_key(event.key@)
                &&& routes[event.key@].put_id == event.put_id
                &&& routes[event.key@].lease_id is None
                &&& has_live_copy(routes[event.key@], owner)
            },
        forall|i: int|
            0 <= i < events.len() && (#[trigger] events[i]).node_id@ == owner && events[i].lease_id is None
                && routes.contains_key(events[i].key@) && routes[events[i].key@].put_id
                == events[i].put_id && routes[events[i].key@].lease_id is None && has_live_copy(
                routes[events[i].key@],
                owner,
            ) ==> exists|j: int| 0 <= j < r.len() && (#[trigger] r[j]).0 == i,
{
    let keep = |i: int| crate::route_maintenance::enters_cache_of(events[i], routes, owner);
    let n = events.len() as int;
    let places = places_where(n, keep);
    lemma_places(n, keep);
    assert forall|i: int|
        0 <= i < events.len() && (#[trigger] events[i]).node_id@ == owner && events[i].lease_id is None
            && routes.contains_key(events[i].key@) && routes[events[i].key@].put_id
            == events[i].put_id && routes[events[i].key@].lease_id is None && has_live_copy(
            routes[events[i].key@],
            owner,
        ) implies exists|j: int| 0 <= j < r.len() && (#[trigger] r[j]).0 == i by {
        assert(keep(i));
        assert(places.contains(i as usize));
        let j = choose|j: int| 0 <= j < places.len() && places[j] == i as usize;
        assert(r[j].0 == i);
    }
    assert forall|j: int| 0 <= j < r.len() implies {
        let e = #[trigger] r[j];
        let event = events[e.0 as int];
        &&& e.0 < events.len()
        &&& event.node_id@ == owner
        &&& event.lease_id is None
        &&& routes.contains_key(event.key@)
        &&& routes[event.key@].put_id == event.put_id
        &&& routes[event.key@].lease_id is None
        &&& has_live_copy(routes[event.key@], owner)
    } by {
        assert(places[j] < n && keep(places[j] as int));
    }
}

proof fn lemma_places(n: int, keep: spec_fn(int) -> bool)
    requires
        0 <= n <= usize::MAX,
    ensures
        forall|j: int|
            0 <= j < places_where(n, keep).len() ==> (#[trigger] places_where(n, keep)[j]) < n && keep(
                places_where(n, keep)[j] as int,
            ),
        forall|i: int|
            0 <= i < n && #[trigger] keep(i) ==> places_where(n, keep).contains(i as usize),
    decreases n,
{
    if n > 0 {
        lemma_places(n - 1, keep);
        let less = places_where(n - 1, keep);
        let all = places_where(n, keep);
        assert forall|j: int| 0 <= j < all.len() implies (#[trigger] all[j]) < n && keep(all[j] as int) by {
            if j < less.len() {
                assert(all[j] == less[j]);
            }
        }
        assert forall|i: int| 0 <= i < n && #[trigger] keep(i) implies all.contains(i as usize) by {
            if i < n - 1 {
                let j = choose|j: int| 0 <= j < less.len() && less[j] == i as usize;
                assert(all[j] == i as usize);
            } else {
                assert(all[all.len() - 1] == i as usize);
            }
        }
    }
}

/// The `i`-th event is the last one about its key.
pub open spec fn no_later(events: Seq<OwnerEvent>, i: int) -> bool {
    forall|h: int| i < h < events.len() ==> (#[trigger] events[h]).1@ != events[i].1@
}

/// The entry is that of the `i`-th event.
pub open spec fn entry_from(
    events: Seq<OwnerEvent>,
    i: int,
    entry: (String, NodeValueReplicaDesc),
) -> bool {
    0 <= i < events.len() && events[i].1@ == entry.0@ && events[i].2 == entry.1
}

/// The entries have the key.
pub open spec fn has_entry(entries: Seq<(String, NodeValueReplicaDesc)>, key: Seq<char>) -> bool {
    exists|j: int| 0 <= j < entries.len() && (#[trigger] entries[j]).0@ == key
}

/// Of several entries for a key the last one counts, and every key that comes in has one.
pub proof fn the_last_entry_of_a_key_counts(
    events: Seq<OwnerEvent>,
    entries: Seq<(String, NodeValueReplicaDesc)>,
    j: int,
    i: int,
)
    requires
        latest_entries(events, entries),
        0 <= j < entries.len(),
        0 <= i < events.len(),
    ensures
        exists|l: int| #[trigger] entry_from(events, l, entries[j]) && no_later(events, l),
        has_entry(entries, events[i].1@),
        forall|b: int| 0 <= b < entries.len() && b != j ==> (#[trigger] entries[b]).0@ != entries[j].0@,
{
    let n = events.len() as int;
    let picked = choose|picked: Seq<int>| #[trigger]
        last_events(events, n, picked) && entries_of(events, picked, entries);
    assert(is_last(events, picked[j], n));
    assert(entry_from(events, picked[j], entries[j]) && no_later(events, picked[j]));
    let l = lemma_last_of_key(events, i);
    assert(picked.contains(l));
    let k = choose|k: int| 0 <= k < picked.len() && picked[k] == l;
    assert(entries[k].0@ == events[i].1@);
    assert forall|b: int| 0 <= b < entries.len() && b != j implies (#[trigger] entries[b]).0@
        != entries[j].0@ by {
        assert(picked[b] != picked[j]);
        assert(is_last(events, picked[b], n));
        if picked[j] < picked[b] {
            assert(events[picked[b]].1@ != events[picked[j]].1@);
        } else {
            assert(events[picked[j]].1@ != events[picked[b]].1@);
        }
    }
}

proof fn lemma_last_of_key(events: Seq<OwnerEvent>, i: int) -> (l: int)
    requires
        0 <= i < events.len(),
    ensures
        i <= l < events.len(),
        events[l].1@ == events[i].1@,
        is_last(events, l, events.len() as int),
    decreases events.len() - i,
{
    if is_last(events, i, events.len() as int) {
        i
    } else {
        let j = choose|j: int| i < j < events.len() && (#[trigger] events[j]).1@ == events[i].1@;
        lemma_last_of_key(events, j)
    }
}

/// A batch that replaces nothing adds its weight to the cache; exactly what is too much must go.
pub proof fn a_batch_makes_room_for_itself(
    entries: Seq<(String, NodeValueReplicaDesc)>,
    existing: Seq<Option<u32>>,
    current_weight: u64,
    capacity: u64,
    r: BatchAdmission,
)
    requires
        batch_asks(entries, existing, current_weight, capacity, r),
        forall|i: int| 0 <= i < existing.len() ==> (#[trigger] existing[i]) is None,
        0 <= entries_weight(entries),
        current_weight + entries_weight(entries) <= u64::MAX,
    ensures
        r.projected_weight == current_weight + entries_weight(entries),
        current_weight + entries_weight(entries) <= capacity ==> r.requested_weight == 0,
        current_weight + entries_weight(entries) > capacity ==> r.projected_weight
            - r.requested_weight == capacity,
{
    lemma_nothing_replaced(existing);
}

proof fn lemma_nothing_replaced(existing: Seq<Option<u32>>)
    requires
        forall|i: int| 0 <= i < existing.len() ==> (#[trigger] existing[i]) is None,
    ensures
        crate::route_maintenance::replaced(existing) == 0,
    decreases existing.len(),
{
    if existing.len() > 0 {
        lemma_nothing_replaced(existing.drop_last());
        assert(existing[existing.len() - 1] is None);
    }
}

} // verus!
