//! Acting on the news that a member is there or gone.
use vstd::prelude::*;

use crate::binded_state::{
    cleanup_indexed_replicas, count_dropped, dropped_in_turn, keys_dropped, node_dropped,
    route_state, route_unbound, still_routed, MemberLifecycleBindedStateCtrl, ReplicaCleanup,
    RouteState,
};
use crate::delete::{tiered_wf, TieredMap};
use crate::ids::PutIDForAKey;
use crate::key_activity::MasterKeyActivityTable;
use crate::key_table::KeyTable;
use crate::member_lifecycle::{
    admits_member, after_absent, after_present, bound, displaced_by, drained_by, ensured,
    indexed_from, is_current, lists, IndexedReplica, MemberMap, ReplicaIndexKey,
};
use crate::member_transitions::MemberCleanupStats;
use crate::put::{
    count_ended, departure_ends_its_puts, is_new_route, puts_are_active, restart_ends_its_puts,
    PutTarget,
};
use crate::put_table::{
    bindings_known, ended, lemma_absent_keeps_bindings_known, lemma_ended,
    lemma_present_keeps_bindings_known, put_state, PutState, PutTable,
};
use crate::recoverability::key_views;
use crate::ssd_ring::KeyId;
use crate::tiered_routes::TieredKvRoutes;

verus! {

/// What was removed because a generation of a member is over.
#[derive(Debug)]
pub struct MemberCleanup {
    pub stats: MemberCleanupStats,
    /// The keys that have no route any more.
    pub removed_route_keys: Vec<String>,
}

/// What was removed elsewhere because a generation of a member is over.
#[derive(Clone, Copy, Debug, PartialEq, Eq, Structural)]
pub struct OtherCleanup {
    pub inflight_gets_released: usize,
    pub inflight_gets_deferred: usize,
    pub holdings_removed: usize,
    pub cache_removed: bool,
    pub reservation_state_removed: bool,
}

/// The counts tell of what was removed elsewhere.
pub open spec fn tells_of(stats: MemberCleanupStats, other: OtherCleanup) -> bool {
    &&& stats.inflight_gets_released == other.inflight_gets_released
    &&& stats.inflight_gets_deferred == other.inflight_gets_deferred
    &&& stats.holdings_removed == other.holdings_removed
    &&& stats.cache_removed == other.cache_removed
    &&& stats.reservation_state_removed == other.reservation_state_removed
}

fn member_cleanup(
    inflight_puts_removed: usize,
    cleanup: ReplicaCleanup,
    other: OtherCleanup,
) -> (r: MemberCleanup)
    ensures
        r.stats.inflight_puts_removed == inflight_puts_removed,
        r.stats.replicas_removed == cleanup.replicas_removed,
        r.stats.routes_removed == cleanup.removed_route_keys@.len(),
        tells_of(r.stats, other),
        r.removed_route_keys == cleanup.removed_route_keys,
{
    MemberCleanup {
        stats: MemberCleanupStats {
            inflight_puts_removed,
            inflight_gets_released: other.inflight_gets_released,
            inflight_gets_deferred: other.inflight_gets_deferred,
            holdings_removed: other.holdings_removed,
            replicas_removed: cleanup.replicas_removed,
            routes_removed: cleanup.removed_route_keys.len(),
            cache_removed: other.cache_removed,
            reservation_state_removed: other.reservation_state_removed,
        },
        removed_route_keys: cleanup.removed_route_keys,
    }
}

/// The puts of a list were ended.
pub open spec fn puts_cleaned(
    before: PutState,
    entries: Map<KeyId, u64>,
    after: PutState,
    removed: usize,
) -> bool {
    exists|gone: Seq<(ReplicaIndexKey, u64)>|
        {
            &&& #[trigger] lists(gone, entries)
            &&& after == ended(before, gone, gone.len() as int)
            &&& removed == count_ended(
                before.members,
                before.table.puts,
                gone,
                gone.len() as int,
            )
        }
}

/// The copies of a list were taken out of their routes.
pub open spec fn replicas_cleaned(
    before: RouteState,
    node: Seq<char>,
    gone: Seq<IndexedReplica>,
    after: RouteState,
    r: MemberCleanup,
) -> bool {
    exists|states: Seq<RouteState>|
        {
            &&& #[trigger] dropped_in_turn(states, node, gone)
            &&& states[0] == before
            &&& states[gone.len() as int] == after
            &&& r.stats.replicas_removed == count_dropped(states, node, gone, gone.len() as int)
            &&& r.stats.routes_removed == r.removed_route_keys@.len()
            &&& key_views(r.removed_route_keys@) == keys_dropped(
                states,
                node,
                gone,
                gone.len() as int,
            )
        }
}

/// A generation of a member has left: its puts are ended, and its copies taken out of their routes.
pub fn apply_absent(
    ctrl: &mut MemberLifecycleBindedStateCtrl,
    routes: &mut KeyTable<TieredKvRoutes>,
    puts: &mut PutTable,
    activity: &mut MasterKeyActivityTable,
    node_id: &String,
    generation: i64,
    other: OtherCleanup,
) -> (r: MemberCleanup)
    requires
        old(ctrl).wf(),
        old(routes).wf(),
        tiered_wf(old(routes)@),
        old(activity).wf(),
        old(puts).wf(old(activity)@),
    ensures
        final(ctrl).wf(),
        final(routes).wf(),
        tiered_wf(final(routes)@),
        final(activity).wf(),
        final(puts).wf(final(activity)@),
        puts_cleaned(
            PutState {
                members: after_absent(old(ctrl).inflight_puts.index@, node_id@, generation),
                ..put_state(old(puts), old(activity), old(ctrl))
            },
            drained_by(old(ctrl).inflight_puts.index@, node_id@, generation),
            put_state(final(puts), final(activity), final(ctrl)),
            r.stats.inflight_puts_removed,
        ),
        bindings_known(old(ctrl).inflight_puts.index@, old(puts)@.puts) ==> bindings_known(
            final(ctrl).inflight_puts.index@,
            final(puts)@.puts,
        ),
        exists|gone: Seq<IndexedReplica>|
            {
                &&& indexed_from(
                    gone,
                    drained_by(old(ctrl).replicas.index@, node_id@, generation),
                    generation,
                )
                &&& #[trigger] replicas_cleaned(
                    RouteState {
                        routes: old(routes)@,
                        members: after_absent(old(ctrl).replicas.index@, node_id@, generation),
                    },
                    node_id@,
                    gone,
                    route_state(final(routes), final(ctrl)),
                    r,
                )
            },
        tells_of(r.stats, other),
        puts_are_active(old(ctrl).inflight_puts.index@, old(puts)@.puts) ==> puts_are_active(
            final(ctrl).inflight_puts.index@,
            final(puts)@.puts,
        ),
{
    let ghost m = ctrl.inflight_puts.index@;
    let gone = ctrl.mark_absent(node_id.as_str(), generation);
    let ghost here = put_state(puts, activity, ctrl);
    proof {
        if bindings_known(m, puts@.puts) {
            lemma_absent_keeps_bindings_known(m, puts@.puts, node_id@, generation);
        }
    }
    let inflight_puts_removed: usize = puts.cleanup_indexed_inflight_puts(
        activity,
        ctrl,
        &gone.inflight_puts,
    );
    let ghost start = route_state(routes, ctrl);
    let cleanup = cleanup_indexed_replicas(ctrl, routes, node_id, &gone.replicas);
    proof {
        assert(lists(gone.inflight_puts@, drained_by(m, node_id@, generation)));
        lemma_ended(here, gone.inflight_puts@, gone.inflight_puts@.len() as int);
        if puts_are_active(m, old(puts)@.puts) {
            departure_ends_its_puts(
                m,
                old(puts)@.puts,
                node_id@,
                generation,
                gone.inflight_puts@,
            );
        }
    }
    let r = member_cleanup(inflight_puts_removed, cleanup, other);
    assert(replicas_cleaned(start, node_id@, gone.replicas@, route_state(routes, ctrl), r));
    r
}

/// A member is there in a generation. What was bound to another generation of it is removed as if that
/// one had left.
pub fn apply_present(
    ctrl: &mut MemberLifecycleBindedStateCtrl,
    routes: &mut KeyTable<TieredKvRoutes>,
    puts: &mut PutTable,
    activity: &mut MasterKeyActivityTable,
    node_id: &String,
    generation: i64,
    other: OtherCleanup,
) -> (r: MemberCleanup)
    requires
        old(ctrl).wf(),
        old(routes).wf(),
        tiered_wf(old(routes)@),
        old(activity).wf(),
        old(puts).wf(old(activity)@),
    ensures
        final(ctrl).wf(),
        final(routes).wf(),
        tiered_wf(final(routes)@),
        final(activity).wf(),
        final(puts).wf(final(activity)@),
        puts_cleaned(
            PutState {
                members: after_present(old(ctrl).inflight_puts.index@, node_id@, generation),
                ..put_state(old(puts), old(activity), old(ctrl))
            },
            displaced_by(old(ctrl).inflight_puts.index@, node_id@, generation),
            put_state(final(puts), final(activity), final(ctrl)),
            r.stats.inflight_puts_removed,
        ),
        bindings_known(old(ctrl).inflight_puts.index@, old(puts)@.puts) ==> bindings_known(
            final(ctrl).inflight_puts.index@,
            final(puts)@.puts,
        ),
        exists|gone: Seq<IndexedReplica>|
            {
                &&& ({
                    let displaced = displaced_by(old(ctrl).replicas.index@, node_id@, generation);
                    if displaced == Map::<KeyId, u64>::empty() {
                        gone.len() == 0
                    } else {
                        indexed_from(
                            gone,
                            displaced,
                            old(ctrl).replicas.index@[node_id@].generation,
                        )
                    }
                })
                &&& #[trigger] replicas_cleaned(
                    RouteState {
                        routes: old(routes)@,
                        members: after_present(old(ctrl).replicas.index@, node_id@, generation),
                    },
                    node_id@,
                    gone,
                    route_state(final(routes), final(ctrl)),
                    r,
                )
            },
        tells_of(r.stats, other),
        puts_are_active(old(ctrl).inflight_puts.index@, old(puts)@.puts) ==> puts_are_active(
            final(ctrl).inflight_puts.index@,
            final(puts)@.puts,
        ),
{
    let ghost m = ctrl.inflight_puts.index@;
    let gone = ctrl.observe_present(node_id.as_str(), generation);
    let ghost here = put_state(puts, activity, ctrl);
    proof {
        if bindings_known(m, puts@.puts) {
            lemma_present_keeps_bindings_known(m, puts@.puts, node_id@, generation);
        }
    }
    let inflight_puts_removed: usize = puts.cleanup_indexed_inflight_puts(
        activity,
        ctrl,
        &gone.inflight_puts,
    );
    let ghost start = route_state(routes, ctrl);
    let cleanup = cleanup_indexed_replicas(ctrl, routes, node_id, &gone.replicas);
    proof {
        assert(lists(gone.inflight_puts@, displaced_by(m, node_id@, generation)));
        lemma_ended(here, gone.inflight_puts@, gone.inflight_puts@.len() as int);
        if puts_are_active(m, old(puts)@.puts) {
            restart_ends_its_puts(m, old(puts)@.puts, node_id@, generation, gone.inflight_puts@);
        }
    }
    let r = member_cleanup(inflight_puts_removed, cleanup, other);
    assert(replicas_cleaned(start, node_id@, gone.replicas@, route_state(routes, ctrl), r));
    r
}

/// A route shows a copy of the node.
pub open spec fn shows(routes: TieredMap, key: Seq<char>, node: Seq<char>) -> bool {
    routes.contains_key(key) && routes[key].node_replicas@.contains_key(node)
}

/// A copy that a route shows is bound to the current generation of its node.
pub open spec fn copy_indexed(
    m: MemberMap,
    routes: TieredMap,
    key: Seq<char>,
    node: Seq<char>,
) -> bool {
    is_current(
        m,
        node,
        routes[key].node_replicas@[node].generation,
        (key, routes[key].put_id),
        routes[key].route_id,
    )
}

/// All copies that routes show are bound to the current generations of their nodes.
pub open spec fn copies_indexed(m: MemberMap, routes: TieredMap) -> bool {
    forall|key: Seq<char>, node: Seq<char>| #[trigger]
        shows(routes, key, node) ==> copy_indexed(m, routes, key, node)
}

/// The copy of a node is the same in both.
pub open spec fn same_copy(a: TieredMap, b: TieredMap, key: Seq<char>, node: Seq<char>) -> bool {
    &&& shows(a, key, node) && shows(b, key, node)
    &&& a[key].node_replicas@[node] == b[key].node_replicas@[node]
    &&& a[key].put_id == b[key].put_id
    &&& a[key].route_id == b[key].route_id
}

/// What is shown at last was shown all the time.
proof fn lemma_shown_before(
    states: Seq<RouteState>,
    node: Seq<char>,
    gone: Seq<IndexedReplica>,
    i: int,
    j: int,
    key: Seq<char>,
    other: Seq<char>,
)
    requires
        dropped_in_turn(states, node, gone),
        0 <= i <= j < states.len(),
        shows(states[j].routes, key, other),
    ensures
        same_copy(states[i].routes, states[j].routes, key, other),
    decreases j - i,
{
    if i < j {
        assert(node_dropped(states[j - 1], node, gone[j - 1], states[j - 1 + 1]));
        lemma_shown_before(states, node, gone, i, j - 1, key, other);
    }
}

/// A copy that is shown at last stays bound to its node all the time.
proof fn lemma_bound_all_the_time(
    states: Seq<RouteState>,
    node: Seq<char>,
    gone: Seq<IndexedReplica>,
    j: int,
    key: Seq<char>,
    other: Seq<char>,
)
    requires
        dropped_in_turn(states, node, gone),
        0 <= j < states.len(),
        shows(states[j].routes, key, other),
        copy_indexed(states[0].members, states[0].routes, key, other),
    ensures
        copy_indexed(states[j].members, states[j].routes, key, other),
    decreases j,
{
    if j > 0 {
        lemma_shown_before(states, node, gone, j - 1, j, key, other);
        lemma_bound_all_the_time(states, node, gone, j - 1, key, other);
        assert(node_dropped(states[j - 1], node, gone[j - 1], states[j - 1 + 1]));
    }
}

/// When a generation of a member leaves, no route shows a copy of it any more, and all copies that are
/// shown are still bound to the current generations of their nodes.
pub proof fn departure_drops_its_copies(
    m: MemberMap,
    routes: TieredMap,
    node: Seq<char>,
    generation: i64,
    gone: Seq<IndexedReplica>,
    after: RouteState,
    r: MemberCleanup,
)
    requires
        copies_indexed(m, routes),
        indexed_from(gone, drained_by(m, node, generation), generation),
        replicas_cleaned(
            RouteState { routes, members: after_absent(m, node, generation) },
            node,
            gone,
            after,
            r,
        ),
    ensures
        copies_indexed(after.members, after.routes),
        forall|key: Seq<char>| #[trigger]
            shows(after.routes, key, node) ==> m[node].generation != generation,
{
    let left = after_absent(m, node, generation);
    let states = choose|states: Seq<RouteState>|
        {
            &&& #[trigger] dropped_in_turn(states, node, gone)
            &&& states[0] == RouteState { routes, members: left }
            &&& states[gone.len() as int] == after
            &&& r.stats.replicas_removed == count_dropped(states, node, gone, gone.len() as int)
            &&& r.stats.routes_removed == r.removed_route_keys@.len()
            &&& key_views(r.removed_route_keys@) == keys_dropped(
                states,
                node,
                gone,
                gone.len() as int,
            )
        };
    let last = gone.len() as int;
    assert forall|key: Seq<char>| #[trigger]
        shows(after.routes, key, node) implies m[node].generation != generation by {
        lemma_shown_before(states, node, gone, 0, last, key, node);
        assert(copy_indexed(m, routes, key, node));
        if m[node].generation == generation {
            let id = (key, routes[key].put_id);
            assert(drained_by(m, node, generation).contains_key(id));
            let i = choose|i: int|
                0 <= i < gone.len() && ((#[trigger] gone[i]).key@, gone[i].put_id) == id;
            lemma_shown_before(states, node, gone, i, last, key, node);
            lemma_shown_before(states, node, gone, 0, i, key, node);
            lemma_shown_before(states, node, gone, i + 1, last, key, node);
            assert(still_routed(states[i].routes, node, gone[i]));
            assert(node_dropped(states[i], node, gone[i], states[i + 1]));
            assert(!shows(states[i + 1].routes, key, node));
        }
    }
    assert forall|key: Seq<char>, other: Seq<char>| #[trigger]
        shows(after.routes, key, other) implies copy_indexed(
        after.members,
        after.routes,
        key,
        other,
    ) by {
        lemma_shown_before(states, node, gone, 0, last, key, other);
        assert(copy_indexed(m, routes, key, other));
        if other == node {
            assert(m[node].generation != generation);
        }
        assert(copy_indexed(left, routes, key, other));
        lemma_bound_all_the_time(states, node, gone, last, key, other);
    }
}

/// Publishing a new version, under a number that the version before does not have, keeps all copies
/// that are shown bound to the current generations of their nodes.
pub proof fn publishing_keeps_copies_indexed(
    m: MemberMap,
    routes: TieredMap,
    target: PutTarget,
    put_id: PutIDForAKey,
    lease_id: Option<u64>,
    route: TieredKvRoutes,
)
    requires
        copies_indexed(m, routes),
        admits_member(m, target.node_id@, target.generation),
        is_new_route(route, route.route_id, put_id, lease_id, target),
        routes.contains_key(target.key@) ==> routes[target.key@].route_id != route.route_id,
    ensures
        ({
            let key = target.key@;
            let registered = bound(
                ensured(m, target.node_id@, target.generation),
                target.node_id@,
                (key, put_id),
                route.route_id,
            );
            let index = if routes.contains_key(key) {
                route_unbound(registered, routes[key], key)
            } else {
                registered
            };
            copies_indexed(index, routes.insert(key, route))
        }),
{
    let key = target.key@;
    let node = target.node_id@;
    let registered = bound(
        ensured(m, node, target.generation),
        node,
        (key, put_id),
        route.route_id,
    );
    let index = if routes.contains_key(key) {
        route_unbound(registered, routes[key], key)
    } else {
        registered
    };
    let now = routes.insert(key, route);
    assert forall|k: Seq<char>, n: Seq<char>| #[trigger] shows(now, k, n) implies copy_indexed(
        index,
        now,
        k,
        n,
    ) by {
        if k == key {
            assert(n == node);
        } else {
            assert(shows(routes, k, n));
            assert(copy_indexed(m, routes, k, n));
        }
    }
}

} // verus!
