//! Marking what a node had as gone, when the node is.
use vstd::prelude::*;

use crate::assoc::{lemma_map_has_row, lemma_row_in_map, rows_map, rows_unique};
use crate::delete::{tiered_wf, TieredMap};
use crate::key_table::KeyTable;
use crate::recoverability::{key_views, routes_wf, Routes};
use crate::routes::{KvRouteInfo, NodeTombTag, OneKvNodesRoutes};
use crate::tiered_routes::{KvNodeReplicas, Replicas, TieredKvRoutes};

verus! {

/// The list holds all keys of a table, each once.
pub open spec fn all_keys<V>(list: Seq<Seq<char>>, m: Map<Seq<char>, V>) -> bool {
    &&& list.no_duplicates()
    &&& forall|k: Seq<char>| #[trigger] m.contains_key(k) <==> list.contains(k)
}

/// The keys of a table.
fn keys_of<V>(table: &KeyTable<V>) -> (r: Vec<String>)
    requires
        table.wf(),
    ensures
        all_keys(key_views(r@), table@),
{
    let mut r: Vec<String> = Vec::new();
    let ghost rows = table.rows();
    proof {
        table.lemma_rows();
    }
    let mut i: usize = 0;
    while i < table.len()
        invariant
            table.wf(),
            rows == table.rows(),
            rows_unique(rows),
            table@ == rows_map(rows),
            i <= rows.len(),
            r@.len() == i,
            forall|j: int| 0 <= j < i ==> (#[trigger] r@[j])@ == rows[j].0@,
        decreases rows.len() - i,
    {
        r.push(table.row(i).0.clone());
        i += 1;
    }
    proof {
        let keys = key_views(r@);
        assert forall|k: Seq<char>| #[trigger] table@.contains_key(k) <==> keys.contains(k) by {
            if table@.contains_key(k) {
                let j = lemma_map_has_row(rows, k);
                assert(keys[j] == r@[j]@);
            }
            if keys.contains(k) {
                let j = choose|j: int| 0 <= j < keys.len() && keys[j] == k;
                assert(keys[j] == r@[j]@);
                lemma_row_in_map(rows, j);
            }
        }
        assert forall|a: int, b: int|
            0 <= a < keys.len() && 0 <= b < keys.len() && a != b implies keys[a] != keys[b] by {
            assert(r@[a]@ == rows[a].0@ && r@[b]@ == rows[b].0@);
        }
    }
    r
}

/// The copies after those of one node were marked as gone.
pub open spec fn tombed(copies: Replicas, node: Seq<char>) -> Replicas {
    if copies.contains_key(node) {
        copies.insert(
            node,
            KvNodeReplicas { tomb_tag: NodeTombTag { tomb: true }, ..copies[node] },
        )
    } else {
        copies
    }
}

/// The copies of a node are marked as gone in all routes, and nothing else changed.
pub open spec fn node_tombed(before: TieredMap, node: Seq<char>, after: TieredMap) -> bool {
    &&& after.dom() == before.dom()
    &&& forall|k: Seq<char>| #[trigger]
        after.contains_key(k) ==> after[k].same_but_replicas(&before[k])
            && after[k].node_replicas@ == tombed(before[k].node_replicas@, node)
}

/// Marks the copies of a node in one route as gone.
fn tomb_copies(route: &mut TieredKvRoutes, node_id: &String)
    requires
        old(route).wf(),
    ensures
        final(route).wf(),
        final(route).same_but_replicas(old(route)),
        final(route).node_replicas@ == tombed(old(route).node_replicas@, node_id@),
{
    let marked = match route.node_replicas.get(node_id) {
        None => {
            return;
        },
        Some(copies) => {
            let mut tomb_tag = copies.tomb_tag;
            tomb_tag.set_tomb();
            KvNodeReplicas {
                tomb_tag,
                generation: copies.generation,
                memory: copies.memory,
                ssd: copies.ssd,
            }
        },
    };
    route.node_replicas.insert(node_id.clone(), marked);
}

/// A node is gone: its copies are marked in all routes. Copies that it publishes later, in another
/// generation, are not.
pub fn mark_node_tomb(routes: &mut KeyTable<TieredKvRoutes>, node_id: &String)
    requires
        old(routes).wf(),
        tiered_wf(old(routes)@),
    ensures
        final(routes).wf(),
        tiered_wf(final(routes)@),
        node_tombed(old(routes)@, node_id@, final(routes)@),
{
    let ghost start = routes@;
    let keys = keys_of(routes);
    let ghost ks = key_views(keys@);
    let mut i: usize = 0;
    while i < keys.len()
        invariant
            routes.wf(),
            tiered_wf(routes@),
            start == old(routes)@,
            ks == key_views(keys@),
            all_keys(ks, start),
            i <= keys@.len(),
            routes@.dom() =~= start.dom(),
            forall|k: Seq<char>| #[trigger]
                routes@.contains_key(k) ==> if ks.take(i as int).contains(k) {
                    routes@[k].same_but_replicas(&start[k]) && routes@[k].node_replicas@ == tombed(
                        start[k].node_replicas@,
                        node_id@,
                    )
                } else {
                    routes@[k] == start[k]
                },
        decreases keys@.len() - i,
    {
        let key = &keys[i];
        let ghost before = routes@;
        proof {
            assert(ks[i as int] == key@);
            assert(ks.contains(key@));
            assert(start.contains_key(key@));
            assert(start.dom().contains(key@));
            assert(!ks.take(i as int).contains(key@)) by {
                if ks.take(i as int).contains(key@) {
                    let j = choose|j: int| 0 <= j < i && ks.take(i as int)[j] == key@;
                    assert(ks[j] == ks[i as int]);
                }
            }
        }
        if let Some(mut route) = routes.remove(key.as_str()) {
            tomb_copies(&mut route, node_id);
            routes.insert(key.clone(), route);
        }
        proof {
            assert(routes@.dom() =~= start.dom());
            assert(ks.take(i + 1) =~= ks.take(i as int).push(key@));
            assert forall|k: Seq<char>| #[trigger]
                routes@.contains_key(k) implies if ks.take(i + 1).contains(k) {
                routes@[k].same_but_replicas(&start[k]) && routes@[k].node_replicas@ == tombed(
                    start[k].node_replicas@,
                    node_id@,
                )
            } else {
                routes@[k] == start[k]
            } by {
                assert(ks.take(i + 1)[i as int] == key@);
                if k != key@ {
                    assert(before.contains_key(k));
                    if ks.take(i as int).contains(k) {
                        let j = choose|j: int| 0 <= j < i && ks.take(i as int)[j] == k;
                        assert(ks.take(i + 1)[j] == k);
                    }
                }
            }
            assert forall|k: Seq<char>| #[trigger]
                routes@.contains_key(k) implies routes@[k].wf() by {
                if k != key@ {
                    assert(before.contains_key(k));
                }
            }
        }
        i += 1;
    }
    proof {
        assert(ks.take(ks.len() as int) =~= ks);
        assert forall|k: Seq<char>| #[trigger] routes@.contains_key(k) implies routes@[k]
            .same_but_replicas(&start[k]) && routes@[k].node_replicas@ == tombed(
            start[k].node_replicas@,
            node_id@,
        ) by {
            assert(start.dom().contains(k));
            assert(start.contains_key(k));
        }
    }
}

/// The copies after those of one node were marked as gone.
pub open spec fn tombed_slots(
    copies: Map<Seq<char>, KvRouteInfo>,
    node: Seq<char>,
) -> Map<Seq<char>, KvRouteInfo> {
    if copies.contains_key(node) {
        copies.insert(node, KvRouteInfo { tomb_tag: NodeTombTag { tomb: true }, ..copies[node] })
    } else {
        copies
    }
}

/// The copies of a node are marked as gone in all routes, and nothing else changed.
pub open spec fn slots_tombed(before: Routes, node: Seq<char>, after: Routes) -> bool {
    &&& after.dom() == before.dom()
    &&& forall|k: Seq<char>| #[trigger]
        after.contains_key(k) ==> after[k].same_but_replicas(&before[k])
            && after[k].nodes_replicas@ == tombed_slots(before[k].nodes_replicas@, node)
}

/// Marks the copy of a node in one route as gone.
fn tomb_slots(route: &mut OneKvNodesRoutes, node_id: &String)
    requires
        old(route).wf(),
    ensures
        final(route).wf(),
        final(route).same_but_replicas(old(route)),
        final(route).nodes_replicas@ == tombed_slots(old(route).nodes_replicas@, node_id@),
{
    let ghost before = route.nodes_replicas@;
    if let Some(mut copy) = route.nodes_replicas.remove(node_id) {
        copy.tomb_tag.set_tomb();
        route.nodes_replicas.insert(node_id.clone(), copy);
        assert(route.nodes_replicas@ =~= tombed_slots(before, node_id@));
    } else {
        assert(route.nodes_replicas@ =~= before);
    }
}

/// A node is gone: its copies in slots and allocations are marked in all routes.
pub fn mark_node_tomb_in_slots(routes: &mut KeyTable<OneKvNodesRoutes>, node_id: &String)
    requires
        old(routes).wf(),
        routes_wf(old(routes)@),
    ensures
        final(routes).wf(),
        routes_wf(final(routes)@),
        slots_tombed(old(routes)@, node_id@, final(routes)@),
{
    let ghost start = routes@;
    let keys = keys_of(routes);
    let ghost ks = key_views(keys@);
    let mut i: usize = 0;
    while i < keys.len()
        invariant
            routes.wf(),
            routes_wf(routes@),
            start == old(routes)@,
            ks == key_views(keys@),
            all_keys(ks, start),
            i <= keys@.len(),
            routes@.dom() =~= start.dom(),
            forall|k: Seq<char>| #[trigger]
                routes@.contains_key(k) ==> if ks.take(i as int).contains(k) {
                    routes@[k].same_but_replicas(&start[k]) && routes@[k].nodes_replicas@ == tombed_slots(
                        start[k].nodes_replicas@,
                        node_id@,
                    )
                } else {
                    routes@[k] == start[k]
                },
        decreases keys@.len() - i,
    {
        let key = &keys[i];
        let ghost before = routes@;
        proof {
            assert(ks[i as int] == key@);
            assert(ks.contains(key@));
            assert(start.contains_key(key@));
            assert(start.dom().contains(key@));
            assert(!ks.take(i as int).contains(key@)) by {
                if ks.take(i as int).contains(key@) {
                    let j = choose|j: int| 0 <= j < i && ks.take(i as int)[j] == key@;
                    assert(ks[j] == ks[i as int]);
                }
            }
        }
        if let Some(mut route) = routes.remove(key.as_str()) {
            tomb_slots(&mut route, node_id);
            routes.insert(key.clone(), route);
        }
        proof {
            assert(routes@.dom() =~= start.dom());
            assert(ks.take(i + 1) =~= ks.take(i as int).push(key@));
            assert forall|k: Seq<char>| #[trigger]
                routes@.contains_key(k) implies if ks.take(i + 1).contains(k) {
                routes@[k].same_but_replicas(&start[k]) && routes@[k].nodes_replicas@ == tombed_slots(
                    start[k].nodes_replicas@,
                    node_id@,
                )
            } else {
                routes@[k] == start[k]
            } by {
                assert(ks.take(i + 1)[i as int] == key@);
                if k != key@ {
                    assert(before.contains_key(k));
                    if ks.take(i as int).contains(k) {
                        let j = choose|j: int| 0 <= j < i && ks.take(i as int)[j] == k;
                        assert(ks.take(i + 1)[j] == k);
                    }
                }
            }
            assert forall|k: Seq<char>| #[trigger]
                routes@.contains_key(k) implies routes@[k].wf() by {
                if k != key@ {
                    assert(before.contains_key(k));
                }
            }
        }
        i += 1;
    }
    proof {
        assert(ks.take(ks.len() as int) =~= ks);
        assert forall|k: Seq<char>| #[trigger] routes@.contains_key(k) implies routes@[k]
            .same_but_replicas(&start[k]) && routes@[k].nodes_replicas@ == tombed_slots(
            start[k].nodes_replicas@,
            node_id@,
        ) by {
            assert(start.dom().contains(k));
            assert(start.contains_key(k));
        }
    }
}

/// Marking a node as gone takes no copy away, and the copies of other nodes are as alive as they were.
pub proof fn marking_a_node_spares_the_others(
    before: TieredMap,
    node: Seq<char>,
    after: TieredMap,
    key: Seq<char>,
    other: Seq<char>,
)
    requires
        node_tombed(before, node, after),
    ensures
        after.contains_key(key) <==> before.contains_key(key),
        before.contains_key(key) ==> {
            let (a, b) = (after[key].node_replicas@, before[key].node_replicas@);
            &&& a.contains_key(other) <==> b.contains_key(other)
            &&& other != node && b.contains_key(other) ==> a[other] == b[other]
            &&& b.contains_key(node) ==> a[node].tomb_tag.tomb && a[node].memory == b[node].memory
                && a[node].ssd == b[node].ssd && a[node].generation == b[node].generation
            &&& after[key].put_id == before[key].put_id
            &&& after[key].lease_id == before[key].lease_id
        },
{
    assert(after.contains_key(key) <==> after.dom().contains(key));
    assert(before.contains_key(key) <==> before.dom().contains(key));
}

/// The same holds of copies in slots and allocations: those of the node are marked and otherwise as they
/// were, and all others are untouched.
pub proof fn marking_slots_spares_the_others(
    before: Routes,
    node: Seq<char>,
    after: Routes,
    key: Seq<char>,
    other: Seq<char>,
)
    requires
        slots_tombed(before, node, after),
    ensures
        after.contains_key(key) <==> before.contains_key(key),
        before.contains_key(key) ==> {
            let (a, b) = (after[key].nodes_replicas@, before[key].nodes_replicas@);
            &&& a.contains_key(other) <==> b.contains_key(other)
            &&& other != node && b.contains_key(other) ==> a[other] == b[other]
            &&& b.contains_key(node) ==> a[node].tomb_tag.tomb && a[node].backing == b[node].backing
            &&& after[key].put_id == before[key].put_id
            &&& after[key].lease_id == before[key].lease_id
        },
{
    assert(after.contains_key(key) <==> after.dom().contains(key));
    assert(before.contains_key(key) <==> before.dom().contains(key));
}

/// Once a node is marked as gone, no copy of it is alive.
pub proof fn a_tombed_node_has_no_live_copy(
    before: TieredMap,
    node: Seq<char>,
    after: TieredMap,
    key: Seq<char>,
)
    requires
        node_tombed(before, node, after),
        after.contains_key(key),
        after[key].node_replicas@.contains_key(node),
    ensures
        !after[key].node_replicas@[node].live(),
{
}

} // verus!
