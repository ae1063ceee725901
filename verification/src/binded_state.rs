//! What is bound to a generation of a member: puts under way, and copies of values with their
//! routes.
use vstd::prelude::*;

use crate::delete::{some_live, tiered_wf, TieredMap};
use crate::inflight_puts::{
    all_admitted, bound_range, not_bound, unbound_all, InflightPutInfo, MemberInflightPutIndex,
};
use crate::key_table::KeyTable;
use crate::member_lifecycle::{
    admits_member, after_absent, after_present, bound, bound_if_active, displaced_by, drained_by,
    ensured, indexed_from, is_bound, is_current, lists, unbound_from, BucketModel, IndexedReplica,
    MemberMap, MemberReplicaIndex, ReplicaIndexKey,
};
use crate::recoverability::key_views;
use crate::routes::{Allocation, NodeTombTag};
use crate::ssd_ring::KeyId;
use crate::tiered_routes::{memory_at, ssd_at, KvNodeReplicas, Replicas, TieredKvRoutes};

verus! {

/// What was bound to a generation of a member that is over.
pub struct MemberBindedStateTransition {
    pub inflight_puts: Vec<(ReplicaIndexKey, u64)>,
    pub replicas: Vec<IndexedReplica>,
}

/// Decides what may be bound to a generation of a member.
pub struct MemberLifecycleBindedStateCtrl {
    pub inflight_puts: MemberInflightPutIndex,
    pub replicas: MemberReplicaIndex,
}

impl MemberLifecycleBindedStateCtrl {
    pub open spec fn wf(&self) -> bool {
        self.inflight_puts.index.wf() && self.replicas.index.wf()
    }

    pub fn new() -> (r: Self)
        ensures
            r.wf(),
            r.inflight_puts.index@ == Map::<Seq<char>, BucketModel>::empty(),
            r.replicas.index@ == Map::<Seq<char>, BucketModel>::empty(),
    {
        MemberLifecycleBindedStateCtrl {
            inflight_puts: MemberInflightPutIndex::new(),
            replicas: MemberReplicaIndex::new(),
        }
    }

    /// A member is seen in a generation; what was bound to another generation is handed out.
    pub fn observe_present(&mut self, member_id: &str, generation: i64) -> (r:
        MemberBindedStateTransition)
        requires
            old(self).wf(),
        ensures
            final(self).wf(),
            final(self).inflight_puts.index@ == after_present(
                old(self).inflight_puts.index@,
                member_id@,
                generation,
            ),
            final(self).replicas.index@ == after_present(
                old(self).replicas.index@,
                member_id@,
                generation,
            ),
            lists(
                r.inflight_puts@,
                displaced_by(old(self).inflight_puts.index@, member_id@, generation),
            ),
            ({
                let displaced = displaced_by(old(self).replicas.index@, member_id@, generation);
                if displaced == Map::<KeyId, u64>::empty() {
                    r.replicas@.len() == 0
                } else {
                    indexed_from(
                        r.replicas@,
                        displaced,
                        old(self).replicas.index@[member_id@].generation,
                    )
                }
            }),
    {
        MemberBindedStateTransition {
            inflight_puts: self.inflight_puts.observe_present(member_id, generation),
            replicas: self.replicas.observe_present(member_id, generation),
        }
    }

    /// A generation of a member has left. Nothing can be bound to it any more, and what was bound
    /// to it is handed out.
    pub fn mark_absent(&mut self, member_id: &str, generation: i64) -> (r:
        MemberBindedStateTransition)
        requires
            old(self).wf(),
        ensures
            final(self).wf(),
            final(self).inflight_puts.index@ == after_absent(
                old(self).inflight_puts.index@,
                member_id@,
                generation,
            ),
            final(self).replicas.index@ == after_absent(
                old(self).replicas.index@,
                member_id@,
                generation,
            ),
            lists(
                r.inflight_puts@,
                drained_by(old(self).inflight_puts.index@, member_id@, generation),
            ),
            indexed_from(
                r.replicas@,
                drained_by(old(self).replicas.index@, member_id@, generation),
                generation,
            ),
    {
        MemberBindedStateTransition {
            inflight_puts: self.inflight_puts.mark_absent(member_id, generation),
            replicas: self.replicas.mark_absent(member_id, generation),
        }
    }

    /// Binds a put to all its participants, or to none.
    pub fn register_inflight_put_if_active(
        &mut self,
        key: &ReplicaIndexKey,
        info: &InflightPutInfo,
    ) -> (r: bool)
        requires
            old(self).wf(),
            forall|i: int|
                0 <= i < info.participants_model().len() ==> not_bound(
                    old(self).inflight_puts.index@,
                    (#[trigger] info.participants_model()[i]).0,
                    key@,
                ),
        ensures
            final(self).wf(),
            final(self).replicas == old(self).replicas,
            ({
                let m = old(self).inflight_puts.index@;
                let after = final(self).inflight_puts.index@;
                let ps = info.participants_model();
                let n = ps.len() as int;
                &&& r == all_admitted(m, ps, n)
                &&& r ==> after == bound_range(m, ps, 0, n, key@, info.info_id)
                &&& !r ==> exists|i: int|
                    {
                        &&& 0 <= i < n
                        &&& #[trigger] all_admitted(m, ps, i)
                        &&& !admits_member(m, ps[i].0, ps[i].1)
                        &&& after == bound_range(m, ps, i, i, key@, info.info_id)
                    }
            }),
    {
        self.inflight_puts.register_if_active(key, info)
    }

    pub fn unregister_inflight_put(&mut self, key: &ReplicaIndexKey, info: &InflightPutInfo)
        requires
            old(self).wf(),
        ensures
            final(self).wf(),
            final(self).replicas == old(self).replicas,
            final(self).inflight_puts.index@ == unbound_all(
                old(self).inflight_puts.index@,
                info.participants_model(),
                info.participants_model().len() as int,
                key@,
                info.info_id,
            ),
    {
        self.inflight_puts.unregister(key, info);
    }

    pub fn contains_current_inflight_put(&self, key: &ReplicaIndexKey, info: &InflightPutInfo) -> (r:
        bool)
        requires
            self.wf(),
        ensures
            r == forall|i: int|
                0 <= i < info.participants_model().len() ==> is_current(
                    self.inflight_puts.index@,
                    (#[trigger] info.participants_model()[i]).0,
                    info.participants_model()[i].1,
                    key@,
                    info.info_id,
                ),
    {
        self.inflight_puts.contains_current(key, info)
    }

    /// Binds a copy to a generation of a member, if that is the current one.
    pub fn register_replica_if_active(
        &mut self,
        node_id: &str,
        generation: i64,
        key: &str,
        route: &TieredKvRoutes,
    ) -> (r: bool)
        requires
            old(self).wf(),
        ensures
            final(self).wf(),
            final(self).inflight_puts == old(self).inflight_puts,
            bound_if_active(
                old(self).replicas.index@,
                node_id@,
                generation,
                (key@, route.put_id),
                route.route_id,
                r,
                final(self).replicas.index@,
            ),
    {
        self.replicas.register_if_active(node_id, generation, key, route)
    }

    pub fn contains_current_replica(
        &self,
        node_id: &str,
        generation: i64,
        key: &str,
        route: &TieredKvRoutes,
    ) -> (r: bool)
        requires
            self.wf(),
        ensures
            r == is_current(
                self.replicas.index@,
                node_id@,
                generation,
                (key@, route.put_id),
                route.route_id,
            ),
    {
        self.replicas.contains_current(node_id, generation, key, route)
    }

    pub fn remove_current_replica(
        &mut self,
        node_id: &str,
        generation: i64,
        key: &str,
        route: &TieredKvRoutes,
    )
        requires
            old(self).wf(),
        ensures
            final(self).wf(),
            final(self).inflight_puts == old(self).inflight_puts,
            final(self).replicas.index@ == unbound_from(
                old(self).replicas.index@,
                node_id@,
                Some(generation),
                (key@, route.put_id),
                route.route_id,
            ),
    {
        self.replicas.remove_current(node_id, generation, key, route);
    }

    /// The first half of publishing a copy: it is bound to the member and put in the route.
    pub fn begin_publish(
        &mut self,
        node_id: &String,
        generation: i64,
        key: &str,
        route: &mut TieredKvRoutes,
        allocation: Allocation,
        tomb_tag: NodeTombTag,
    ) -> (r: bool)
        requires
            old(self).wf(),
            old(route).wf(),
        ensures
            final(self).wf(),
            final(route).wf(),
            final(self).inflight_puts == old(self).inflight_puts,
            publish_decided(
                old(self).replicas.index@,
                *old(route),
                node_id@,
                generation,
                key@,
                allocation,
                tomb_tag,
                r,
                final(self).replicas.index@,
                *final(route),
            ),
    {
        if tomb_tag.is_tomb() {
            return false;
        }
        if !self.register_replica_if_active(node_id.as_str(), generation, key, route) {
            return false;
        }
        route.insert_memory_replica(node_id.clone(), generation, allocation, tomb_tag);
        true
    }

    /// The second half of publishing a copy: if the member has left meanwhile, the copy is taken out
    /// of the route.
    pub fn confirm_publish(
        &self,
        node_id: &String,
        generation: i64,
        key: &str,
        route: &mut TieredKvRoutes,
        allocation: &Allocation,
    ) -> (r: bool)
        requires
            self.wf(),
            old(route).wf(),
        ensures
            final(route).wf(),
            publish_confirmed(
                self.replicas.index@,
                *old(route),
                node_id@,
                generation,
                key@,
                *allocation,
                r,
                *final(route),
            ),
    {
        if self.contains_current_replica(node_id.as_str(), generation, key, route) {
            return true;
        }
        route.remove_memory_replica_if_allocation(node_id, generation, allocation);
        false
    }

    /// Publishes a copy in a member's memory, if the member is there in this generation.
    pub fn publish_memory_replica(
        &mut self,
        node_id: &String,
        generation: i64,
        key: &str,
        route: &mut TieredKvRoutes,
        allocation: Allocation,
        tomb_tag: NodeTombTag,
    ) -> (r: bool)
        requires
            old(self).wf(),
            old(route).wf(),
        ensures
            final(self).wf(),
            final(route).wf(),
            final(self).inflight_puts == old(self).inflight_puts,
            publish_decided(
                old(self).replicas.index@,
                *old(route),
                node_id@,
                generation,
                key@,
                allocation,
                tomb_tag,
                r,
                final(self).replicas.index@,
                *final(route),
            ),
    {
        if !self.begin_publish(node_id, generation, key, route, allocation, tomb_tag) {
            return false;
        }
        self.confirm_publish(node_id, generation, key, route, &allocation)
    }
}

/// The copies with one more in the memory of a node; a copy on the node's SSD stays if the
/// generation does.
pub open spec fn published(
    m: Map<Seq<char>, KvNodeReplicas>,
    node: Seq<char>,
    generation: i64,
    allocation: Allocation,
    tomb_tag: NodeTombTag,
) -> Map<Seq<char>, KvNodeReplicas> {
    m.insert(
        node,
        KvNodeReplicas {
            tomb_tag,
            generation,
            memory: Some(allocation),
            ssd: if m.contains_key(node) && m[node].generation == generation {
                m[node].ssd
            } else {
                None
            },
        },
    )
}

/// It was decided whether a copy is published, and done.
pub open spec fn publish_decided(
    index: MemberMap,
    route: TieredKvRoutes,
    node: Seq<char>,
    generation: i64,
    key: Seq<char>,
    allocation: Allocation,
    tomb_tag: NodeTombTag,
    r: bool,
    index_after: MemberMap,
    after: TieredKvRoutes,
) -> bool {
    &&& r == (!tomb_tag.tomb && admits_member(index, node, generation))
    &&& !r ==> after == route && index_after == index
    &&& r ==> {
        &&& after.same_but_replicas(&route)
        &&& after.node_replicas@ == published(
            route.node_replicas@,
            node,
            generation,
            allocation,
            tomb_tag,
        )
        &&& index_after == bound(
            ensured(index, node, generation),
            node,
            (key, route.put_id),
            route.route_id,
        )
    }
}

/// A copy that is being published stays in its route, or is taken out of it again.
pub open spec fn publish_confirmed(
    index: MemberMap,
    route: TieredKvRoutes,
    node: Seq<char>,
    generation: i64,
    key: Seq<char>,
    allocation: Allocation,
    r: bool,
    after: TieredKvRoutes,
) -> bool {
    &&& r == is_current(index, node, generation, (key, route.put_id), route.route_id)
    &&& after.same_but_replicas(&route)
    &&& after.node_replicas@ == if !r && route.has_allocation(node, generation, allocation) {
        TieredKvRoutes::without_memory(route.node_replicas@, node)
    } else {
        route.node_replicas@
    }
}

/// A copy is published exactly for a node that is there, in its current generation or not known before.
/// The route then tells of it where it is, and it is bound to the node under the route's number and
/// version. Otherwise nothing changes. The copies of other nodes stay as they are.
pub proof fn copies_are_published_for_the_living(
    index: MemberMap,
    route: TieredKvRoutes,
    node: Seq<char>,
    generation: i64,
    key: Seq<char>,
    allocation: Allocation,
    tomb_tag: NodeTombTag,
    r: bool,
    index_after: MemberMap,
    after: TieredKvRoutes,
    other: Seq<char>,
)
    requires
        publish_decided(
            index,
            route,
            node,
            generation,
            key,
            allocation,
            tomb_tag,
            r,
            index_after,
            after,
        ),
    ensures
        r <==> !tomb_tag.tomb && (!index.contains_key(node) || (!index[node].departed
            && index[node].generation == generation)),
        r ==> {
            &&& memory_at(after.node_replicas@, node) == Some(allocation)
            &&& after.node_replicas@[node].generation == generation
            &&& after.live()
            &&& after.put_id == route.put_id && after.route_id == route.route_id
            &&& after.lease_id == route.lease_id
            &&& is_current(index_after, node, generation, (key, route.put_id), route.route_id)
        },
        !r ==> after == route && index_after == index,
        other != node ==> memory_at(after.node_replicas@, other) == memory_at(
            route.node_replicas@,
            other,
        ) && ssd_at(after.node_replicas@, other) == ssd_at(route.node_replicas@, other),
        other != node ==> (index_after.contains_key(other) <==> index.contains_key(other))
            && index_after[other] == index[other],
{
    if r {
        assert(after.node_replicas@.contains_key(node) && after.node_replicas@[node].live());
    }
}

/// A copy that was published stays if nothing happened in between. If its node has left or was restarted,
/// exactly this copy is taken out again, and no copy that came since.
pub proof fn a_copy_stays_only_while_its_node_does(
    index: MemberMap,
    route: TieredKvRoutes,
    node: Seq<char>,
    generation: i64,
    key: Seq<char>,
    allocation: Allocation,
    r: bool,
    after: TieredKvRoutes,
    other: Seq<char>,
)
    requires
        publish_confirmed(index, route, node, generation, key, allocation, r, after),
    ensures
        r ==> after.node_replicas@ == route.node_replicas@,
        !index.contains_key(node) || index[node].departed || index[node].generation != generation
            ==> !r,
        index.contains_key(node) && !index[node].departed && index[node].generation == generation
            && index[node].entries.contains_key((key, route.put_id)) && index[node].entries[(
            key,
            route.put_id,
        )] == route.route_id ==> r,
        !r && memory_at(route.node_replicas@, node) == Some(allocation)
            && route.node_replicas@[node].generation == generation ==> memory_at(
            after.node_replicas@,
            node,
        ) is None,
        memory_at(route.node_replicas@, node) != Some(allocation) ==> after.node_replicas@
            == route.node_replicas@,
        ssd_at(after.node_replicas@, node) == ssd_at(route.node_replicas@, node),
        other != node ==> memory_at(after.node_replicas@, other) == memory_at(
            route.node_replicas@,
            other,
        ) && ssd_at(after.node_replicas@, other) == ssd_at(route.node_replicas@, other),
        after.put_id == route.put_id && after.route_id == route.route_id,
{
}

/// If a member leaves between the two halves of publishing a copy, no copy in its memory is left in
/// the route.
pub proof fn departure_undoes_publishing(
    index: Map<Seq<char>, BucketModel>,
    route: TieredKvRoutes,
    node: Seq<char>,
    generation: i64,
    key: Seq<char>,
    allocation: Allocation,
    tomb_tag: NodeTombTag,
)
    requires
        admits_member(index, node, generation),
    ensures
        ({
            let registered = bound(
                ensured(index, node, generation),
                node,
                (key, route.put_id),
                route.route_id,
            );
            let left = after_absent(registered, node, generation);
            let copies = published(
                route.node_replicas@,
                node,
                generation,
                allocation,
                tomb_tag,
            );
            let undone = TieredKvRoutes::without_memory(copies, node);
            &&& !is_current(left, node, generation, (key, route.put_id), route.route_id)
            &&& copies[node].generation == generation && copies[node].memory == Some(allocation)
            &&& undone.contains_key(node) ==> undone[node].memory is None
        }),
{
}

/// A node's copy of this route is bound to its current generation's list.
pub open spec fn copy_binds(
    m: MemberMap,
    copies: Replicas,
    id: KeyId,
    route_id: u64,
    node: Seq<char>,
) -> bool {
    &&& copies.contains_key(node)
    &&& is_bound(m, node, id, route_id)
    &&& m[node].generation == copies[node].generation
}

/// The members after none of some copies of a route is bound to any.
pub open spec fn copies_unbound(
    m: MemberMap,
    copies: Replicas,
    id: KeyId,
    route_id: u64,
) -> MemberMap {
    Map::new(
        |n: Seq<char>| m.contains_key(n),
        |n: Seq<char>|
            if copy_binds(m, copies, id, route_id, n) {
                BucketModel { entries: m[n].entries.remove(id), ..m[n] }
            } else {
                m[n]
            },
    )
}

/// The members after no copy of a route is bound to any.
pub open spec fn route_unbound(m: MemberMap, route: TieredKvRoutes, key: Seq<char>) -> MemberMap {
    copies_unbound(m, route.node_replicas@, (key, route.put_id), route.route_id)
}

/// The copies of a route that was replaced are no longer bound to their nodes.
pub fn unregister_route_replicas(
    ctrl: &mut MemberLifecycleBindedStateCtrl,
    key: &String,
    route: &TieredKvRoutes,
)
    requires
        old(ctrl).wf(),
        route.wf(),
    ensures
        final(ctrl).wf(),
        final(ctrl).inflight_puts == old(ctrl).inflight_puts,
        final(ctrl).replicas.index@ == route_unbound(old(ctrl).replicas.index@, *route, key@),
{
    let ghost m0 = ctrl.replicas.index@;
    let ghost rows = route.node_replicas.rows();
    proof {
        route.node_replicas.lemma_rows();
    }
    let mut i: usize = 0;
    while i < route.node_replicas.len()
        invariant
            ctrl.wf(),
            route.wf(),
            ctrl.inflight_puts == old(ctrl).inflight_puts,
            rows == route.node_replicas.rows(),
            crate::assoc::rows_unique(rows),
            i <= rows.len(),
            ctrl.replicas.index@.dom() =~= m0.dom(),
            forall|n: Seq<char>| #[trigger]
                m0.contains_key(n) ==> ctrl.replicas.index@[n] == if crate::assoc::rows_has(
                    rows.take(i as int),
                    n,
                ) {
                    route_unbound(m0, *route, key@)[n]
                } else {
                    m0[n]
                },
        decreases rows.len() - i,
    {
        let row = route.node_replicas.row(i);
        let ghost m = ctrl.replicas.index@;
        proof {
            crate::get_start::lemma_take_has(rows, i as int);
            assert(!crate::assoc::rows_has(rows.take(i as int), row.0@)) by {
                if crate::assoc::rows_has(rows.take(i as int), row.0@) {
                    let h = choose|h: int|
                        0 <= h < rows.take(i as int).len() && (#[trigger] rows.take(
                            i as int,
                        )[h]).0@ == row.0@;
                    assert(rows[h].0@ == rows[i as int].0@);
                }
            }
            assert(m.dom().contains(row.0@) == m0.dom().contains(row.0@));
        }
        ctrl.remove_current_replica(row.0.as_str(), row.1.generation, key.as_str(), route);
        proof {
            let now = ctrl.replicas.index@;
            assert(now.dom() =~= m0.dom());
            assert forall|n: Seq<char>| #[trigger] m0.contains_key(n) implies now[n]
                == if crate::assoc::rows_has(rows.take(i + 1), n) {
                route_unbound(m0, *route, key@)[n]
            } else {
                m0[n]
            } by {
                assert(m.dom().contains(n));
                assert(m[n] == if crate::assoc::rows_has(rows.take(i as int), n) {
                    route_unbound(m0, *route, key@)[n]
                } else {
                    m0[n]
                });
            }
        }
        i += 1;
    }
    proof {
        assert(rows.take(rows.len() as int) =~= rows);
        let now = ctrl.replicas.index@;
        let want = route_unbound(m0, *route, key@);
        assert forall|n: Seq<char>| #[trigger] now.contains_key(n) implies now[n] == want[n] by {
            assert(now.dom().contains(n));
            assert(m0.contains_key(n));
            if !crate::assoc::rows_has(rows, n) && route.node_replicas@.contains_key(n) {
                let h = crate::assoc::lemma_map_has_row(rows, n);
                assert(rows[h].0@ == n);
            }
        }
        assert(now.dom() =~= want.dom());
        assert(now =~= want);
    }
}

/// The route that a copy was bound for is in place, and has copies of the node of that generation.
pub open spec fn still_routed(routes: TieredMap, node: Seq<char>, indexed: IndexedReplica) -> bool {
    &&& routes.contains_key(indexed.key@)
    &&& routes[indexed.key@].route_id == indexed.route_id
    &&& routes[indexed.key@].put_id == indexed.put_id
    &&& routes[indexed.key@].node_replicas@.contains_key(node)
    &&& routes[indexed.key@].node_replicas@[node].generation == indexed.generation
}

/// The routes, and the members with the copies that are bound to them.
#[verifier::ext_equal]
pub struct RouteState {
    pub routes: TieredMap,
    pub members: MemberMap,
}

/// The copies of a node were taken out of a route. The route goes if nothing that is alive is left, and
/// none of its other copies stays bound to its node.
pub open spec fn node_dropped(
    before: RouteState,
    node: Seq<char>,
    indexed: IndexedReplica,
    after: RouteState,
) -> bool {
    if !still_routed(before.routes, node, indexed) {
        after == before
    } else {
        let key = indexed.key@;
        let route = before.routes[key];
        let left = route.node_replicas@.remove(node);
        if some_live(left) {
            &&& after.routes.contains_key(key)
            &&& after.routes[key].node_replicas@ == left
            &&& after.routes[key].same_but_replicas(&route)
            &&& after.routes == before.routes.insert(key, after.routes[key])
            &&& after.members == before.members
        } else {
            &&& after.routes == before.routes.remove(key)
            &&& after.members == copies_unbound(
                before.members,
                left,
                (key, route.put_id),
                route.route_id,
            )
        }
    }
}

/// A route that goes because nothing that is alive is left is bound to no node any more, given that only
/// its copies were bound to theirs.
pub proof fn a_removed_route_is_bound_to_nothing(
    before: RouteState,
    node: Seq<char>,
    indexed: IndexedReplica,
    after: RouteState,
    n: Seq<char>,
)
    requires
        node_dropped(before, node, indexed, after),
        before.routes.contains_key(indexed.key@),
        !after.routes.contains_key(indexed.key@),
        forall|x: Seq<char>| #[trigger]
            is_bound(before.members, x, (indexed.key@, indexed.put_id), indexed.route_id) ==> x
                != node && before.routes[indexed.key@].node_replicas@.contains_key(x)
                && before.routes[indexed.key@].node_replicas@[x].generation
                == before.members[x].generation,
    ensures
        !is_bound(after.members, n, (indexed.key@, indexed.put_id), indexed.route_id),
{
    let id = (indexed.key@, indexed.put_id);
    if is_bound(after.members, n, id, indexed.route_id) {
        assert(is_bound(before.members, n, id, indexed.route_id));
    }
}

/// The routes while the copies of a list are taken out one after another.
pub open spec fn dropped_in_turn(
    states: Seq<RouteState>,
    node: Seq<char>,
    replicas: Seq<IndexedReplica>,
) -> bool {
    &&& states.len() == replicas.len() + 1
    &&& forall|i: int|
        0 <= i < replicas.len() ==> node_dropped(
            #[trigger] states[i],
            node,
            replicas[i],
            states[i + 1],
        )
}

/// The number of copies that were taken out.
pub open spec fn count_dropped(
    states: Seq<RouteState>,
    node: Seq<char>,
    replicas: Seq<IndexedReplica>,
    n: int,
) -> int
    decreases n,
{
    if n <= 0 {
        0
    } else {
        count_dropped(states, node, replicas, n - 1) + if still_routed(
            states[n - 1].routes,
            node,
            replicas[n - 1],
        ) {
            1int
        } else {
            0int
        }
    }
}

/// The keys whose routes went.
pub open spec fn keys_dropped(
    states: Seq<RouteState>,
    node: Seq<char>,
    replicas: Seq<IndexedReplica>,
    n: int,
) -> Seq<Seq<char>>
    decreases n,
{
    if n <= 0 {
        Seq::empty()
    } else {
        let before = keys_dropped(states, node, replicas, n - 1);
        let key = replicas[n - 1].key@;
        if states[n - 1].routes.contains_key(key) && !states[n].routes.contains_key(key) {
            before.push(key)
        } else {
            before
        }
    }
}

/// What taking out the copies of a generation did.
pub struct ReplicaCleanup {
    pub replicas_removed: usize,
    /// The keys that have no route any more.
    pub removed_route_keys: Vec<String>,
}

/// The routes and the members as they are.
pub open spec fn route_state(
    routes: &KeyTable<TieredKvRoutes>,
    ctrl: &MemberLifecycleBindedStateCtrl,
) -> RouteState {
    RouteState { routes: routes@, members: ctrl.replicas.index@ }
}

/// Takes the copies of one node out of one route.
fn drop_node(
    ctrl: &mut MemberLifecycleBindedStateCtrl,
    routes: &mut KeyTable<TieredKvRoutes>,
    node_id: &String,
    indexed: &IndexedReplica,
) -> (r: (bool, bool))
    requires
        old(ctrl).wf(),
        old(routes).wf(),
        tiered_wf(old(routes)@),
    ensures
        final(ctrl).wf(),
        final(ctrl).inflight_puts == old(ctrl).inflight_puts,
        final(routes).wf(),
        tiered_wf(final(routes)@),
        node_dropped(
            route_state(old(routes), old(ctrl)),
            node_id@,
            *indexed,
            route_state(final(routes), final(ctrl)),
        ),
        r.0 == still_routed(old(routes)@, node_id@, *indexed),
        r.1 == (old(routes)@.contains_key(indexed.key@) && !final(routes)@.contains_key(
            indexed.key@,
        )),
{
    let ghost before = routes@;
    let here = match routes.get(indexed.key.as_str()) {
        None => false,
        Some(route) => route.route_id == indexed.route_id && route.put_id.0 == indexed.put_id.0
            && route.put_id.1 == indexed.put_id.1 && match route.node_replicas.get(node_id) {
            Some(replicas) => replicas.generation == indexed.generation,
            None => false,
        },
    };
    if !here {
        return (false, false);
    }
    match routes.remove(indexed.key.as_str()) {
        None => (false, false),
        Some(mut route) => {
            route.remove_node_replicas_if_generation(node_id, indexed.generation);
            proof {
                assert forall|k: Seq<char>| #[trigger]
                    routes@.contains_key(k) implies routes@[k].wf() by {
                    assert(before.contains_key(k));
                }
                assert(route.live() == some_live(route.node_replicas@));
            }
            if !route.has_live_replica() {
                unregister_route_replicas(ctrl, &indexed.key, &route);
                return (true, true);
            }
            let ghost put_back = route;
            routes.insert(indexed.key.clone(), route);
            proof {
                assert(routes@ =~= before.insert(indexed.key@, put_back));
                assert forall|k: Seq<char>| #[trigger]
                    routes@.contains_key(k) implies routes@[k].wf() by {
                    if k != indexed.key@ {
                        assert(before.contains_key(k));
                    }
                }
            }
            (true, false)
        },
    }
}

/// Takes the copies that were bound to a generation of a node out of their routes. A copy whose
/// route has been replaced, or which is of another generation by now, is left alone.
pub fn cleanup_indexed_replicas(
    ctrl: &mut MemberLifecycleBindedStateCtrl,
    routes: &mut KeyTable<TieredKvRoutes>,
    node_id: &String,
    replicas: &Vec<IndexedReplica>,
) -> (r: ReplicaCleanup)
    requires
        old(ctrl).wf(),
        old(routes).wf(),
        tiered_wf(old(routes)@),
    ensures
        final(ctrl).wf(),
        final(ctrl).inflight_puts == old(ctrl).inflight_puts,
        final(routes).wf(),
        tiered_wf(final(routes)@),
        exists|states: Seq<RouteState>|
            {
                &&& #[trigger] dropped_in_turn(states, node_id@, replicas@)
                &&& states[0] == route_state(old(routes), old(ctrl))
                &&& states[replicas@.len() as int] == route_state(final(routes), final(ctrl))
                &&& r.replicas_removed == count_dropped(
                    states,
                    node_id@,
                    replicas@,
                    replicas@.len() as int,
                )
                &&& key_views(r.removed_route_keys@) == keys_dropped(
                    states,
                    node_id@,
                    replicas@,
                    replicas@.len() as int,
                )
            },
{
    let mut replicas_removed: usize = 0;
    let mut removed_route_keys: Vec<String> = Vec::new();
    let ghost mut states: Seq<RouteState> = seq![route_state(routes, ctrl)];
    let mut i: usize = 0;
    assert(key_views(removed_route_keys@) =~= Seq::<Seq<char>>::empty());
    while i < replicas.len()
        invariant
            ctrl.wf(),
            ctrl.inflight_puts == old(ctrl).inflight_puts,
            routes.wf(),
            tiered_wf(routes@),
            i <= replicas@.len(),
            states.len() == i + 1,
            states[0] == route_state(old(routes), old(ctrl)),
            states[i as int] == route_state(routes, ctrl),
            forall|j: int|
                0 <= j < i ==> node_dropped(
                    #[trigger] states[j],
                    node_id@,
                    replicas@[j],
                    states[j + 1],
                ),
            replicas_removed <= i,
            replicas_removed == count_dropped(states, node_id@, replicas@, i as int),
            key_views(removed_route_keys@) == keys_dropped(
                states,
                node_id@,
                replicas@,
                i as int,
            ),
        decreases replicas@.len() - i,
    {
        let indexed = &replicas[i];
        let (removed, route_removed) = drop_node(ctrl, routes, node_id, indexed);
        let ghost s0 = states;
        proof {
            states = states.push(route_state(routes, ctrl));
            lemma_prefix(s0, states, node_id@, replicas@, i as int);
            assert forall|j: int| 0 <= j < i + 1 implies node_dropped(
                #[trigger] states[j],
                node_id@,
                replicas@[j],
                states[j + 1],
            ) by {
                if j < i {
                    assert(node_dropped(s0[j], node_id@, replicas@[j], s0[j + 1]));
                }
            }
        }
        if removed {
            replicas_removed += 1;
        }
        if route_removed {
            let ghost before = removed_route_keys@;
            removed_route_keys.push(indexed.key.clone());
            assert(key_views(removed_route_keys@) =~= key_views(before).push(indexed.key@));
        }
        i += 1;
    }
    assert(dropped_in_turn(states, node_id@, replicas@));
    ReplicaCleanup { replicas_removed, removed_route_keys }
}

proof fn lemma_prefix(
    s0: Seq<RouteState>,
    s1: Seq<RouteState>,
    node: Seq<char>,
    replicas: Seq<IndexedReplica>,
    n: int,
)
    requires
        0 <= n < s0.len(),
        s0.len() <= s1.len(),
        forall|j: int| 0 <= j < s0.len() ==> s0[j] == #[trigger] s1[j],
    ensures
        count_dropped(s0, node, replicas, n) == count_dropped(s1, node, replicas, n),
        keys_dropped(s0, node, replicas, n) == keys_dropped(s1, node, replicas, n),
    decreases n,
{
    if n > 0 {
        lemma_prefix(s0, s1, node, replicas, n - 1);
        assert(s0[n - 1] == s1[n - 1]);
        assert(s0[n] == s1[n]);
    }
}

/// Cleaning up after a generation of a node never touches the copies of other nodes, nor those of
/// another generation.
pub proof fn cleanup_keeps_other_copies(
    before: RouteState,
    node: Seq<char>,
    indexed: IndexedReplica,
    after: RouteState,
    key: Seq<char>,
    other: Seq<char>,
)
    requires
        node_dropped(before, node, indexed, after),
        before.routes.contains_key(key),
        before.routes[key].node_replicas@.contains_key(other),
        before.routes[key].node_replicas@[other].live(),
        other != node || before.routes[key].node_replicas@[other].generation != indexed.generation,
    ensures
        after.routes.contains_key(key),
        after.routes[key].node_replicas@.contains_key(other),
        after.routes[key].node_replicas@[other] == before.routes[key].node_replicas@[other],
{
    if still_routed(before.routes, node, indexed) && key == indexed.key@ {
        let left = before.routes[key].node_replicas@.remove(node);
        assert(left.contains_key(other) && left[other].live());
        assert(some_live(left));
    }
}

} // verus!
