//! Removing keys and single copies of them.
use vstd::prelude::*;

use crate::ids::PutIDForAKey;
use crate::key_table::KeyTable;
use crate::msg_pack::{
    BatchDeleteClientKvMetaCacheReq, DeleteClientKvMetaCacheItem, DeleteReq,
};
use crate::name_set::names_has;
use crate::ssd_storage::SsdReplicaEviction;
use crate::tiered_routes::{KvNodeReplicas, TieredKvRoutes};

verus! {

/// The routes of all keys.
pub type TieredMap = Map<Seq<char>, TieredKvRoutes>;

/// All routes are well-formed.
pub open spec fn tiered_wf(routes: TieredMap) -> bool {
    forall|k: Seq<char>| #[trigger] routes.contains_key(k) ==> routes[k].wf()
}

/// What is told to all clients.
pub enum DeleteKeyInfo {
    /// A version of a key is gone. The route keeps its memory from being used again until all clients
    /// know.
    Key { key: String, nodes_kv_route_info: TieredKvRoutes },
    /// There will be no more news.
    Shutdown,
}

/// A key that was deleted, and what is left to be done.
pub struct DeletedKey {
    pub put_id: PutIDForAKey,
    /// The news for all clients.
    pub announcement: DeleteKeyInfo,
    /// The nodes whose caches have to drop the key: every one that has a cache, since a cache may
    /// still have the key of a version before.
    pub cache_nodes: Vec<String>,
    /// The index of prefixes has to drop the key.
    pub forget_prefix: bool,
}

/// What deleting a key does: its route is handed out, to be announced, and the key has to leave the
/// cache of every node.
pub open spec fn key_deleted(
    before: TieredMap,
    key: Seq<char>,
    cache_owners: Seq<String>,
    prefix_index_enabled: bool,
    r: Option<DeletedKey>,
    after: TieredMap,
) -> bool {
    &&& after == before.remove(key)
    &&& r is Some <==> before.contains_key(key)
    &&& r matches Some(deleted) ==> {
        &&& deleted.put_id == before[key].put_id
        &&& deleted.announcement matches DeleteKeyInfo::Key { key: k, nodes_kv_route_info }
        &&& k@ == key
        &&& nodes_kv_route_info == before[key]
        &&& forall|n: Seq<char>|
            names_has(cache_owners, n) <==> #[trigger] names_has(deleted.cache_nodes@, n)
        &&& deleted.forget_prefix == prefix_index_enabled
    }
}

/// Deletes a key with all its copies. `cache_owners` are the nodes that have a cache.
pub fn do_delete_one_kv_all_replicas(
    routes: &mut KeyTable<TieredKvRoutes>,
    key: &str,
    cache_owners: Vec<String>,
    prefix_index_enabled: bool,
) -> (r: Option<DeletedKey>)
    requires
        old(routes).wf(),
        tiered_wf(old(routes)@),
    ensures
        final(routes).wf(),
        tiered_wf(final(routes)@),
        key_deleted(
            old(routes)@,
            key@,
            cache_owners@,
            prefix_index_enabled,
            r,
            final(routes)@,
        ),
{
    let ghost before = routes@;
    match routes.remove(key) {
        None => None,
        Some(route) => {
            proof {
                assert forall|k: Seq<char>| #[trigger]
                    routes@.contains_key(k) implies routes@[k].wf() by {
                    assert(before.contains_key(k));
                }
            }
            Some(
                DeletedKey {
                    put_id: route.put_id,
                    announcement: DeleteKeyInfo::Key {
                        key: key.to_owned(),
                        nodes_kv_route_info: route,
                    },
                    cache_nodes: cache_owners,
                    forget_prefix: prefix_index_enabled,
                },
            )
        },
    }
}

/// Deletes a key because a client asks for it.
pub fn handle_delete(
    routes: &mut KeyTable<TieredKvRoutes>,
    req: &DeleteReq,
    cache_owners: Vec<String>,
    prefix_index_enabled: bool,
) -> (r: Option<DeletedKey>)
    requires
        old(routes).wf(),
        tiered_wf(old(routes)@),
    ensures
        final(routes).wf(),
        tiered_wf(final(routes)@),
        key_deleted(
            old(routes)@,
            req.key@,
            cache_owners@,
            prefix_index_enabled,
            r,
            final(routes)@,
        ),
{
    do_delete_one_kv_all_replicas(routes, req.key.as_str(), cache_owners, prefix_index_enabled)
}

/// What removing one copy did.
#[derive(Clone, Copy, Debug, PartialEq, Eq, Structural)]
pub struct SsdReplicaRemoval {
    pub replica_removed: bool,
    pub route_removed: bool,
}

/// A copy in one tier of a node.
#[derive(Clone, Copy, Debug, PartialEq, Eq, Structural)]
pub enum Tier {
    Memory,
    Ssd,
}

/// The route of this version of the key has a copy in this tier of the node.
pub open spec fn has_copy(
    routes: TieredMap,
    key: Seq<char>,
    node: Seq<char>,
    put_id: PutIDForAKey,
    tier: Tier,
) -> bool {
    &&& routes.contains_key(key)
    &&& routes[key].put_id == put_id
    &&& routes[key].node_replicas@.contains_key(node)
    &&& match tier {
        Tier::Memory => routes[key].node_replicas@[node].memory is Some,
        Tier::Ssd => routes[key].node_replicas@[node].ssd is Some,
    }
}

/// The copies that are left when one is removed.
pub open spec fn left_without(
    m: Map<Seq<char>, KvNodeReplicas>,
    node: Seq<char>,
    tier: Tier,
) -> Map<Seq<char>, KvNodeReplicas> {
    match tier {
        Tier::Memory => TieredKvRoutes::without_memory(m, node),
        Tier::Ssd => TieredKvRoutes::without_ssd(m, node),
    }
}

/// Some of the copies is alive.
pub open spec fn some_live(m: Map<Seq<char>, KvNodeReplicas>) -> bool {
    exists|n: Seq<char>| #[trigger] m.contains_key(n) && m[n].live()
}

/// What removing a copy does to the routes: the route goes when nothing that is alive is left.
pub open spec fn one_copy_removed(
    before: TieredMap,
    key: Seq<char>,
    node: Seq<char>,
    put_id: PutIDForAKey,
    tier: Tier,
    r: SsdReplicaRemoval,
    after: TieredMap,
) -> bool {
    if !has_copy(before, key, node, put_id, tier) {
        &&& r == (SsdReplicaRemoval { replica_removed: false, route_removed: false })
        &&& after == before
    } else {
        let left = left_without(before[key].node_replicas@, node, tier);
        &&& r.replica_removed
        &&& r.route_removed == !some_live(left)
        &&& if r.route_removed {
            after == before.remove(key)
        } else {
            &&& after.contains_key(key)
            &&& after[key].node_replicas@ == left
            &&& after[key].same_but_replicas(&before[key])
            &&& after == before.insert(key, after[key])
        }
    }
}

/// Removes the copy on a node's SSD, if the route is of the given version.
pub fn remove_ssd_replica_if_version(
    route: &mut TieredKvRoutes,
    node_id: &String,
    put_id: PutIDForAKey,
) -> (r: bool)
    requires
        old(route).wf(),
    ensures
        final(route).wf(),
        final(route).same_but_replicas(old(route)),
        r == (old(route).put_id == put_id && old(route).node_replicas@.contains_key(node_id@)
            && old(route).node_replicas@[node_id@].ssd is Some),
        final(route).node_replicas@ == if r {
            TieredKvRoutes::without_ssd(old(route).node_replicas@, node_id@)
        } else {
            old(route).node_replicas@
        },
{
    route.put_id.0 == put_id.0 && route.put_id.1 == put_id.1 && route.remove_ssd_replica(node_id)
}

/// Removes one copy, and the route with it if nothing that is alive is left.
fn remove_one_copy(
    routes: &mut KeyTable<TieredKvRoutes>,
    key: &String,
    node_id: &String,
    put_id: PutIDForAKey,
    tier: Tier,
) -> (r: SsdReplicaRemoval)
    requires
        old(routes).wf(),
        tiered_wf(old(routes)@),
    ensures
        final(routes).wf(),
        tiered_wf(final(routes)@),
        one_copy_removed(old(routes)@, key@, node_id@, put_id, tier, r, final(routes)@),
{
    let ghost before = routes@;
    let nothing = SsdReplicaRemoval { replica_removed: false, route_removed: false };
    let present = match routes.get(key.as_str()) {
        None => false,
        Some(route) => {
            if route.put_id.0 != put_id.0 || route.put_id.1 != put_id.1 {
                false
            } else {
                match route.node_replicas.get(node_id) {
                    None => false,
                    Some(replicas) => match tier {
                        Tier::Memory => replicas.memory.is_some(),
                        Tier::Ssd => replicas.ssd.is_some(),
                    },
                }
            }
        },
    };
    if !present {
        return nothing;
    }
    match routes.remove(key.as_str()) {
        None => nothing,
        Some(mut route) => {
            match tier {
                Tier::Memory => {
                    route.remove_memory_replica(node_id);
                },
                Tier::Ssd => {
                    remove_ssd_replica_if_version(&mut route, node_id, put_id);
                },
            }
            proof {
                assert forall|k: Seq<char>| #[trigger]
                    routes@.contains_key(k) implies routes@[k].wf() by {
                    assert(before.contains_key(k));
                }
                assert(route.live() == some_live(route.node_replicas@));
            }
            if !route.has_live_replica() {
                return SsdReplicaRemoval { replica_removed: true, route_removed: true };
            }
            let ghost put_back = route;
            routes.insert(key.clone(), route);
            proof {
                assert(routes@ =~= before.insert(key@, put_back));
                assert forall|k: Seq<char>| #[trigger]
                    routes@.contains_key(k) implies routes@[k].wf() by {
                    if k != key@ {
                        assert(before.contains_key(k));
                    }
                }
            }
            SsdReplicaRemoval { replica_removed: true, route_removed: false }
        },
    }
}

/// A copy in memory that the cache of its node dropped, and what is left to be done.
pub struct LocalEviction {
    pub removal: SsdReplicaRemoval,
    /// The index of prefixes has to drop the key.
    pub forget_prefix: bool,
    /// What the node is told, so that it drops the copy too.
    pub notice: Option<BatchDeleteClientKvMetaCacheReq>,
}

/// The request tells a node to drop this version of a key, and nothing else.
pub open spec fn tells_to_drop(
    req: BatchDeleteClientKvMetaCacheReq,
    key: Seq<char>,
    put_id: PutIDForAKey,
) -> bool {
    &&& req.delete_items@.len() == 1
    &&& req.delete_items@[0].key@ == key
    &&& (req.delete_items@[0].put_time_ms, req.delete_items@[0].put_version) == put_id
}

/// The cache of a node has dropped a key, and the copy in its memory is gone.
pub open spec fn dropped_from_cache(
    before: TieredMap,
    key: Seq<char>,
    node: Seq<char>,
    put_id: PutIDForAKey,
    prefix_index_enabled: bool,
    r: LocalEviction,
    after: TieredMap,
) -> bool {
    &&& one_copy_removed(before, key, node, put_id, Tier::Memory, r.removal, after)
    &&& r.forget_prefix == (r.removal.route_removed && prefix_index_enabled)
    &&& r.notice is Some <==> r.removal.replica_removed
    &&& r.notice matches Some(req) ==> tells_to_drop(req, key, put_id)
}

/// A node is told to drop exactly the version that its cache has dropped, and only if it had a copy in
/// memory; the prefix is forgotten when the key has no route any more.
pub proof fn a_node_is_told_what_its_cache_dropped(
    before: TieredMap,
    key: Seq<char>,
    node: Seq<char>,
    put_id: PutIDForAKey,
    prefix_index_enabled: bool,
    r: LocalEviction,
    after: TieredMap,
)
    requires
        dropped_from_cache(before, key, node, put_id, prefix_index_enabled, r, after),
    ensures
        r.notice is Some <==> before.contains_key(key) && before[key].put_id == put_id
            && before[key].node_replicas@.contains_key(node)
            && before[key].node_replicas@[node].memory is Some,
        r.notice is None ==> after == before && !r.forget_prefix,
        r.notice matches Some(req) ==> {
            &&& req.delete_items@.len() == 1
            &&& req.delete_items@[0].key@ == key
            &&& req.delete_items@[0].put_time_ms == put_id.0
            &&& req.delete_items@[0].put_version == put_id.1
            &&& after.contains_key(key) ==> after[key].node_replicas@.contains_key(node)
                ==> after[key].node_replicas@[node].memory is None
        },
        r.forget_prefix <==> prefix_index_enabled && before.contains_key(key) && !after.contains_key(
            key,
        ),
{
}

/// The cache of a node has dropped a key: the copy in its memory goes, and the node is told if there
/// was one.
pub fn evict_one_kv_replica_for_node(
    routes: &mut KeyTable<TieredKvRoutes>,
    key: &String,
    node_id: &String,
    put_id: PutIDForAKey,
    prefix_index_enabled: bool,
) -> (r: LocalEviction)
    requires
        old(routes).wf(),
        tiered_wf(old(routes)@),
    ensures
        final(routes).wf(),
        tiered_wf(final(routes)@),
        dropped_from_cache(
            old(routes)@,
            key@,
            node_id@,
            put_id,
            prefix_index_enabled,
            r,
            final(routes)@,
        ),
{
    let removal = remove_one_copy(routes, key, node_id, put_id, Tier::Memory);
    let notice = if removal.replica_removed {
        let item = DeleteClientKvMetaCacheItem {
            key: key.clone(),
            put_time_ms: put_id.0,
            put_version: put_id.1,
        };
        Some(BatchDeleteClientKvMetaCacheReq { delete_items: vec![item] })
    } else {
        None
    };
    LocalEviction {
        removal,
        forget_prefix: removal.route_removed && prefix_index_enabled,
        notice,
    }
}

/// The SSD of a node has lost a key: the copy on it goes.
pub fn remove_one_ssd_replica_for_node(
    routes: &mut KeyTable<TieredKvRoutes>,
    key: &String,
    node_id: &String,
    put_id: PutIDForAKey,
) -> (r: SsdReplicaRemoval)
    requires
        old(routes).wf(),
        tiered_wf(old(routes)@),
    ensures
        final(routes).wf(),
        tiered_wf(final(routes)@),
        one_copy_removed(old(routes)@, key@, node_id@, put_id, Tier::Ssd, r, final(routes)@),
{
    remove_one_copy(routes, key, node_id, put_id, Tier::Ssd)
}

/// The outcome of a batch of evictions.
pub struct EvictionBatch {
    pub removed_count: u32,
    /// The keys that have no route any more.
    pub removed_route_keys: Vec<String>,
}

/// The routes after a number of evictions from one node's SSD, one after another, each with what it
/// did.
pub open spec fn evicted_in_turn(
    states: Seq<TieredMap>,
    node: Seq<char>,
    evictions: Seq<SsdReplicaEviction>,
    removals: Seq<SsdReplicaRemoval>,
) -> bool {
    &&& states.len() == evictions.len() + 1
    &&& removals.len() == evictions.len()
    &&& forall|i: int|
        0 <= i < evictions.len() ==> one_copy_removed(
            #[trigger] states[i],
            evictions[i].key@,
            node,
            evictions[i].put_id,
            Tier::Ssd,
            removals[i],
            states[i + 1],
        )
}

/// The number of copies that were removed.
pub open spec fn count_removed(removals: Seq<SsdReplicaRemoval>) -> int
    decreases removals.len(),
{
    if removals.len() == 0 {
        0
    } else {
        count_removed(removals.drop_last()) + if removals.last().replica_removed {
            1int
        } else {
            0int
        }
    }
}

/// The keys whose routes were removed.
pub open spec fn keys_removed(
    evictions: Seq<SsdReplicaEviction>,
    removals: Seq<SsdReplicaRemoval>,
) -> Seq<Seq<char>>
    decreases removals.len(),
{
    if removals.len() == 0 {
        Seq::empty()
    } else {
        let before = keys_removed(evictions, removals.drop_last());
        if removals.last().route_removed {
            before.push(evictions[removals.len() - 1].key@)
        } else {
            before
        }
    }
}

/// A batch of evictions counts each copy that it removed once, and names a key exactly if its route went
/// with one of them.
pub proof fn a_batch_names_the_keys_that_are_gone(
    states: Seq<TieredMap>,
    node: Seq<char>,
    evictions: Seq<SsdReplicaEviction>,
    removals: Seq<SsdReplicaRemoval>,
    key: Seq<char>,
)
    requires
        evicted_in_turn(states, node, evictions, removals),
    ensures
        0 <= count_removed(removals) <= evictions.len(),
        keys_removed(evictions, removals).len() <= count_removed(removals),
        states[0].contains_key(key) && !states[evictions.len() as int].contains_key(key)
            <==> keys_removed(evictions, removals).contains(key),
        states[evictions.len() as int].contains_key(key) ==> states[0].contains_key(key),
    decreases evictions.len(),
{
    let n = evictions.len() as int;
    if n > 0 {
        let less = evictions.drop_last();
        let fewer = removals.drop_last();
        let earlier = states.drop_last();
        assert forall|i: int| 0 <= i < less.len() implies one_copy_removed(
            #[trigger] earlier[i],
            less[i].key@,
            node,
            less[i].put_id,
            Tier::Ssd,
            fewer[i],
            earlier[i + 1],
        ) by {
            assert(earlier[i] == states[i]);
        }
        a_batch_names_the_keys_that_are_gone(earlier, node, less, fewer, key);
        lemma_keys_of_part(evictions, fewer, n - 1);
        assert(earlier[n - 1] == states[n - 1]);
        assert(one_copy_removed(
            states[n - 1],
            evictions[n - 1].key@,
            node,
            evictions[n - 1].put_id,
            Tier::Ssd,
            removals[n - 1],
            states[n],
        ));
        let before = keys_removed(evictions, fewer);
        let all = keys_removed(evictions, removals);
        if removals.last().route_removed {
            assert(all == before.push(evictions[n - 1].key@));
            assert(all[before.len() as int] == evictions[n - 1].key@);
            assert forall|k: Seq<char>| #[trigger] before.contains(k) implies all.contains(k) by {
                let h = choose|h: int| 0 <= h < before.len() && before[h] == k;
                assert(all[h] == k);
            }
            if all.contains(key) && key != evictions[n - 1].key@ {
                let h = choose|h: int| 0 <= h < all.len() && all[h] == key;
                assert(before[h] == key);
            }
        }
    } else {
        assert(keys_removed(evictions, removals) =~= Seq::empty());
    }
}

/// Which keys were removed depends only on the evictions that were made.
proof fn lemma_keys_of_part(
    evictions: Seq<SsdReplicaEviction>,
    removals: Seq<SsdReplicaRemoval>,
    n: int,
)
    requires
        0 <= removals.len() <= n <= evictions.len(),
    ensures
        keys_removed(evictions.take(n), removals) == keys_removed(evictions, removals),
        evictions.len() > 0 && n == evictions.len() - 1 ==> evictions.take(n)
            == evictions.drop_last(),
    decreases removals.len(),
{
    if removals.len() > 0 {
        lemma_keys_of_part(evictions, removals.drop_last(), n);
    }
    if evictions.len() > 0 && n == evictions.len() - 1 {
        assert(evictions.take(n) =~= evictions.drop_last());
    }
}

/// The SSD of a node has lost several keys.
pub fn handle_batch_ssd_replica_evict(
    routes: &mut KeyTable<TieredKvRoutes>,
    evictions: &Vec<SsdReplicaEviction>,
    node_id: &String,
) -> (r: EvictionBatch)
    requires
        old(routes).wf(),
        tiered_wf(old(routes)@),
    ensures
        final(routes).wf(),
        tiered_wf(final(routes)@),
        exists|states: Seq<TieredMap>, removals: Seq<SsdReplicaRemoval>|
            {
                &&& #[trigger] evicted_in_turn(states, node_id@, evictions@, removals)
                &&& states[0] == old(routes)@
                &&& states[evictions@.len() as int] == final(routes)@
                &&& r.removed_count == if count_removed(removals) < u32::MAX {
                    count_removed(removals)
                } else {
                    u32::MAX as int
                }
                &&& crate::recoverability::key_views(r.removed_route_keys@) == keys_removed(
                    evictions@,
                    removals,
                )
            },
{
    let mut removed_count: u32 = 0;
    let mut removed_route_keys: Vec<String> = Vec::new();
    let ghost mut states: Seq<TieredMap> = seq![routes@];
    let ghost mut removals: Seq<SsdReplicaRemoval> = Seq::empty();
    let mut i: usize = 0;
    assert(crate::recoverability::key_views(removed_route_keys@) =~= Seq::empty());
    while i < evictions.len()
        invariant
            routes.wf(),
            tiered_wf(routes@),
            i <= evictions@.len(),
            states.len() == i + 1,
            removals.len() == i,
            states[0] == old(routes)@,
            states[i as int] == routes@,
            evicted_in_turn(states, node_id@, evictions@.take(i as int), removals),
            0 <= count_removed(removals),
            removed_count == if count_removed(removals) < u32::MAX {
                count_removed(removals)
            } else {
                u32::MAX as int
            },
            crate::recoverability::key_views(removed_route_keys@) == keys_removed(
                evictions@,
                removals,
            ),
        decreases evictions@.len() - i,
    {
        let eviction = &evictions[i];
        let removal = remove_one_ssd_replica_for_node(
            routes,
            &eviction.key,
            node_id,
            eviction.put_id,
        );
        proof {
            let s0 = states;
            let r0 = removals;
            states = states.push(routes@);
            removals = removals.push(removal);
            assert(removals.drop_last() =~= r0);
            assert forall|j: int| 0 <= j < i + 1 implies one_copy_removed(
                #[trigger] states[j],
                evictions@.take(i + 1)[j].key@,
                node_id@,
                evictions@.take(i + 1)[j].put_id,
                Tier::Ssd,
                removals[j],
                states[j + 1],
            ) by {
                if j < i {
                    assert(one_copy_removed(
                        s0[j],
                        evictions@.take(i as int)[j].key@,
                        node_id@,
                        evictions@.take(i as int)[j].put_id,
                        Tier::Ssd,
                        r0[j],
                        s0[j + 1],
                    ));
                }
            }
        }
        if removal.replica_removed {
            removed_count = removed_count.saturating_add(1);
        }
        if removal.route_removed {
            let ghost before = removed_route_keys@;
            removed_route_keys.push(eviction.key.clone());
            assert(crate::recoverability::key_views(removed_route_keys@)
                =~= crate::recoverability::key_views(before).push(eviction.key@));
        }
        i += 1;
    }
    assert(evictions@.take(evictions@.len() as int) =~= evictions@);
    EvictionBatch { removed_count, removed_route_keys }
}

/// News of another version changes nothing: cleanup is confined to the version it is about.
pub proof fn cleanup_is_scoped_to_the_version(
    before: TieredMap,
    key: Seq<char>,
    node: Seq<char>,
    put_id: PutIDForAKey,
    tier: Tier,
    r: SsdReplicaRemoval,
    after: TieredMap,
)
    requires
        one_copy_removed(before, key, node, put_id, tier, r, after),
        !before.contains_key(key) || before[key].put_id != put_id,
    ensures
        after == before,
        !r.replica_removed,
        !r.route_removed,
{
}

/// A route that is left after a copy was removed still has a copy that is alive.
pub proof fn routes_without_live_copies_go(
    before: TieredMap,
    key: Seq<char>,
    node: Seq<char>,
    put_id: PutIDForAKey,
    tier: Tier,
    r: SsdReplicaRemoval,
    after: TieredMap,
)
    requires
        one_copy_removed(before, key, node, put_id, tier, r, after),
        r.replica_removed,
    ensures
        after.contains_key(key) ==> after[key].live(),
        forall|k: Seq<char>| k != key ==> (#[trigger] after.contains_key(k) == before.contains_key(k)),
{
    if after.contains_key(key) {
        assert(some_live(after[key].node_replicas@));
        let n = choose|n: Seq<char>| #[trigger]
            after[key].node_replicas@.contains_key(n) && after[key].node_replicas@[n].live();
        assert(after[key].node_replicas@.contains_key(n));
    }
}

} // verus!
