//! The work that follows the publication of routes: the index of prefixes and the caches of the
//! owners.
use vstd::prelude::*;

use crate::cache_policy::{
    capped, entry_current, eviction_cache_entry_is_current, minus, projected_weight,
    requested_weight,
};
use crate::ids::{NodeID, PutIDForAKey};
use crate::key_table::KeyTable;
use crate::name_set::NameSet;
use crate::recoverability::{routes_wf, Routes};
use crate::routes::{NodeValueReplicaDesc, OneKvNodesRoutes};

verus! {

/// The most events that are handled at a time.
pub const POST_ROUTE_MAINTENANCE_MAX_BATCH: usize = 512;

/// What was published.
#[derive(Clone, Copy, Debug, PartialEq, Eq, Structural)]
pub enum RoutePublishKind {
    PrimaryPut,
    ReplicaAppend,
}

/// A copy was published on a route.
#[derive(Debug)]
pub struct RoutePublishEvent {
    pub kind: RoutePublishKind,
    pub key: String,
    pub put_id: PutIDForAKey,
    pub lease_id: Option<u64>,
    pub node_id: NodeID,
    pub capacity_bytes: u64,
}

impl RoutePublishEvent {
    pub fn primary_put(
        key: String,
        put_id: PutIDForAKey,
        lease_id: Option<u64>,
        node_id: NodeID,
        capacity_bytes: u64,
    ) -> (r: Self)
        ensures
            r == (RoutePublishEvent {
                kind: RoutePublishKind::PrimaryPut,
                key,
                put_id,
                lease_id,
                node_id,
                capacity_bytes,
            }),
    {
        RoutePublishEvent {
            kind: RoutePublishKind::PrimaryPut,
            key,
            put_id,
            lease_id,
            node_id,
            capacity_bytes,
        }
    }

    pub fn replica_append(
        key: String,
        put_id: PutIDForAKey,
        lease_id: Option<u64>,
        node_id: NodeID,
        capacity_bytes: u64,
    ) -> (r: Self)
        ensures
            r == (RoutePublishEvent {
                kind: RoutePublishKind::ReplicaAppend,
                key,
                put_id,
                lease_id,
                node_id,
                capacity_bytes,
            }),
    {
        RoutePublishEvent {
            kind: RoutePublishKind::ReplicaAppend,
            key,
            put_id,
            lease_id,
            node_id,
            capacity_bytes,
        }
    }

    /// There may be something to do for the event.
    pub open spec fn has_use(&self, prefix_index_enabled: bool, replica_cache_enabled: bool) -> bool {
        self.kind == RoutePublishKind::PrimaryPut && prefix_index_enabled || self.lease_id is None
            && replica_cache_enabled
    }

    /// An event is passed over only if it would change neither the index of prefixes nor a cache, whatever
    /// the routes are by then; and nothing is done for one that is not of use.
    pub proof fn only_events_without_use_are_passed_over(
        &self,
        prefix_index_enabled: bool,
        replica_cache_enabled: bool,
        routes: Routes,
    )
        ensures
            prefix_index_enabled && self.indexes_prefix(routes) ==> self.has_use(
                prefix_index_enabled,
                replica_cache_enabled,
            ),
            replica_cache_enabled && self.enters_cache(routes) ==> self.has_use(
                prefix_index_enabled,
                replica_cache_enabled,
            ),
            !self.has_use(false, false),
            self.lease_id is Some ==> !self.has_use(false, replica_cache_enabled),
            self.kind != RoutePublishKind::PrimaryPut ==> !self.has_use(prefix_index_enabled, false),
            self.indexes_prefix(routes) ==> routes.contains_key(self.key@)
                && routes[self.key@].put_id == self.put_id && exists|n: Seq<char>|
                routes[self.key@].nodes_replicas@.contains_key(n) && !(
                #[trigger] routes[self.key@].nodes_replicas@[n]).tomb_tag.tomb,
    {
        if self.indexes_prefix(routes) {
            let route = routes[self.key@];
            let n = choose|n: Seq<char>| #[trigger] route.live_on(n);
            assert(!route.nodes_replicas@[n].tomb_tag.tomb);
        }
    }

    /// Whether there is anything to do for the event.
    pub fn needs_maintenance(&self, prefix_index_enabled: bool, replica_cache_enabled: bool) -> (r:
        bool)
        ensures
            r == self.has_use(prefix_index_enabled, replica_cache_enabled),
    {
        let update_prefix_index = matches!(self.kind, RoutePublishKind::PrimaryPut)
            && prefix_index_enabled;
        let insert_replica_cache = self.lease_id.is_none() && replica_cache_enabled;
        update_prefix_index || insert_replica_cache
    }

    /// The event puts its key into the index of prefixes: it published a key, and the version is
    /// still there.
    pub open spec fn indexes_prefix(&self, routes: Routes) -> bool {
        &&& self.kind == RoutePublishKind::PrimaryPut
        &&& routes.contains_key(self.key@)
        &&& routes[self.key@].put_id == self.put_id
        &&& routes[self.key@].live_somewhere()
    }

    /// The event puts an entry into the cache of its node.
    pub open spec fn enters_cache(&self, routes: Routes) -> bool {
        self.lease_id is None && entry_current(routes, self.node_id@, self.key@, self.put_id)
    }
}

/// The weight of a copy in a cache: its capacity, as far as it can be counted.
pub open spec fn weight_of(capacity_bytes: u64) -> u32 {
    if capacity_bytes > u32::MAX {
        u32::MAX
    } else {
        capacity_bytes as u32
    }
}

pub fn saturating_moka_weight_bytes(capacity_bytes: u64) -> (r: u32)
    ensures
        r == weight_of(capacity_bytes),
{
    if capacity_bytes > u32::MAX as u64 {
        u32::MAX
    } else {
        capacity_bytes as u32
    }
}

/// A larger copy never weighs less, and only an empty one weighs nothing.
pub proof fn weight_keeps_order(a: u64, b: u64)
    requires
        a <= b,
    ensures
        weight_of(a) <= weight_of(b),
        weight_of(a) == 0 <==> a == 0,
{
}

/// The weight of a cache after a batch came in and replaced what it had of the same keys.
pub fn projected_batch_weight(current_weight: u64, replaced_weight: u64, incoming_weight: u64) -> (r:
    u64)
    ensures
        r == capped(minus(current_weight as int, replaced_weight as int) + incoming_weight),
{
    projected_weight(current_weight, replaced_weight, incoming_weight)
}

/// An entry that comes in: its place in the batch, its key and what the cache keeps of it.
pub type OwnerEvent = (usize, String, NodeValueReplicaDesc);

/// No event behind the `i`-th and before the `n`-th is about the same key.
pub open spec fn is_last(events: Seq<OwnerEvent>, i: int, n: int) -> bool {
    forall|j: int| i < j < n ==> (#[trigger] events[j]).1@ != events[i].1@
}

/// `picked` lists the last event of each key among the first `n`, each once, in order of their
/// places.
pub open spec fn last_events(events: Seq<OwnerEvent>, n: int, picked: Seq<int>) -> bool {
    &&& forall|j: int|
        0 <= j < picked.len() ==> 0 <= #[trigger] picked[j] < n && is_last(events, picked[j], n)
    &&& forall|i: int| 0 <= i < n && #[trigger] is_last(events, i, n) ==> picked.contains(i)
    &&& picked.no_duplicates()
    &&& forall|a: int, b: int|
        0 <= a < b < picked.len() ==> events[#[trigger] picked[a]].0 <= events[#[trigger] picked[b]].0
}

/// The entries are those of the picked events.
pub open spec fn entries_of(
    events: Seq<OwnerEvent>,
    picked: Seq<int>,
    entries: Seq<(String, NodeValueReplicaDesc)>,
) -> bool {
    &&& entries.len() == picked.len()
    &&& forall|j: int|
        0 <= j < entries.len() ==> (#[trigger] entries[j]).0@ == events[picked[j]].1@
            && entries[j].1 == events[picked[j]].2
}

/// The entries are those of the last event of each key.
pub open spec fn latest_entries(
    events: Seq<OwnerEvent>,
    entries: Seq<(String, NodeValueReplicaDesc)>,
) -> bool {
    exists|picked: Seq<int>| #[trigger]
        last_events(events, events.len() as int, picked) && entries_of(events, picked, entries)
}

/// The events are those that were picked.
spec fn same_events(
    events: Seq<OwnerEvent>,
    picked: Seq<int>,
    latest: Seq<OwnerEvent>,
) -> bool {
    &&& latest.len() == picked.len()
    &&& forall|j: int|
        0 <= j < latest.len() ==> {
            &&& (#[trigger] latest[j]).0 == events[picked[j]].0
            &&& latest[j].1@ == events[picked[j]].1@
            &&& latest[j].2 == events[picked[j]].2
        }
}

/// Keeps the last event of each key, in order of their places in the batch.
pub fn deduplicate_owner_events(events: Vec<OwnerEvent>) -> (r: Vec<(String, NodeValueReplicaDesc)>)
    ensures
        latest_entries(events@, r@),
{
    let mut latest: Vec<OwnerEvent> = Vec::new();
    let ghost mut picked: Seq<int> = Seq::empty();
    let mut i: usize = 0;
    while i < events.len()
        invariant
            i <= events@.len(),
            last_events(events@, i as int, picked),
            same_events(events@, picked, latest@),
        decreases events@.len() - i,
    {
        let event = &events[i];
        let ghost before = picked;
        let (p, found) = find_key(&latest, &event.1);
        proof {
            if !found {
                assert forall|j: int| 0 <= j < before.len() implies events@[#[trigger] before[j]].1@
                    != event.1@ by {
                    assert(latest@[j].1@ != event.1@);
                }
            }
        }
        if found {
            latest.remove(p);
            proof {
                picked = picked.remove(p as int);
            }
        }
        proof {
            assert(same_events(events@, picked, latest@)) by {
                assert forall|j: int| 0 <= j < latest@.len() implies {
                    &&& (#[trigger] latest@[j]).0 == events@[picked[j]].0
                    &&& latest@[j].1@ == events@[picked[j]].1@
                    &&& latest@[j].2 == events@[picked[j]].2
                } by {}
            }
            assert forall|a: int, b: int| 0 <= a < b < latest@.len() implies (
            #[trigger] latest@[a]).0 <= (#[trigger] latest@[b]).0 by {
                let a0 = if found && a >= p {
                    a + 1
                } else {
                    a
                };
                let b0 = if found && b >= p {
                    b + 1
                } else {
                    b
                };
                assert(picked[a] == before[a0]);
                assert(picked[b] == before[b0]);
            }
        }
        let ghost sorted = latest@;
        let q: usize = find_place(&latest, event.0);
        proof {
            assert forall|j: int| 0 <= j < q implies events@[#[trigger] picked[j]].0
                <= event.0 by {
                assert(sorted[j].0 <= event.0);
            }
            assert forall|j: int| q <= j < picked.len() implies event.0 <= events@[
            #[trigger] picked[j]].0 by {
                assert(event.0 <= sorted[j].0);
            }
        }
        latest.insert(q, (event.0, event.1.clone(), event.2));
        proof {
            let less = picked;
            picked = picked.insert(q as int, i as int);
            lemma_event_added(
                events@,
                i as int,
                before,
                p as int,
                found,
                less,
                q as int,
                picked,
            );
            assert(same_events(events@, picked, latest@)) by {
                assert forall|j: int| 0 <= j < latest@.len() implies {
                    &&& (#[trigger] latest@[j]).0 == events@[picked[j]].0
                    &&& latest@[j].1@ == events@[picked[j]].1@
                    &&& latest@[j].2 == events@[picked[j]].2
                } by {}
            }
        }
        i += 1;
    }
    let mut r: Vec<(String, NodeValueReplicaDesc)> = Vec::new();
    let mut k: usize = 0;
    while k < latest.len()
        invariant
            k <= latest@.len(),
            r@.len() == k,
            forall|j: int|
                0 <= j < k ==> (#[trigger] r@[j]).0@ == latest@[j].1@ && r@[j].1 == latest@[j].2,
        decreases latest@.len() - k,
    {
        r.push((latest[k].1.clone(), latest[k].2));
        k += 1;
    }
    proof {
        assert(entries_of(events@, picked, r@)) by {
            assert forall|j: int| 0 <= j < r@.len() implies (#[trigger] r@[j]).0@
                == events@[picked[j]].1@ && r@[j].1 == events@[picked[j]].2 by {
                assert(latest@[j].1@ == events@[picked[j]].1@);
            }
        }
    }
    r
}

/// The place of the event of a key, if there is one.
fn find_key(latest: &Vec<OwnerEvent>, key: &String) -> (r: (usize, bool))
    ensures
        r.1 ==> r.0 < latest@.len() && latest@[r.0 as int].1@ == key@,
        !r.1 ==> forall|j: int| 0 <= j < latest@.len() ==> (#[trigger] latest@[j]).1@ != key@,
{
    let mut i: usize = 0;
    while i < latest.len()
        invariant
            i <= latest@.len(),
            forall|j: int| 0 <= j < i ==> (#[trigger] latest@[j]).1@ != key@,
        decreases latest@.len() - i,
    {
        if latest[i].1 == *key {
            return (i, true);
        }
        i += 1;
    }
    (0, false)
}

/// The place behind all events that come no later.
fn find_place(latest: &Vec<OwnerEvent>, sequence: usize) -> (q: usize)
    ensures
        q <= latest@.len(),
        (forall|a: int, b: int|
            0 <= a < b < latest@.len() ==> (#[trigger] latest@[a]).0 <= (#[trigger] latest@[b]).0)
            ==> (forall|j: int| 0 <= j < q ==> (#[trigger] latest@[j]).0 <= sequence) && (forall|
            j: int,
        |
            q <= j < latest@.len() ==> sequence <= (#[trigger] latest@[j]).0),
{
    let mut q: usize = latest.len();
    while q > 0
        invariant
            q <= latest@.len(),
            forall|j: int| q <= j < latest@.len() ==> sequence <= (#[trigger] latest@[j]).0,
        decreases q,
    {
        if latest[q - 1].0 <= sequence {
            assert(latest@[q - 1].0 <= sequence);
            return q;
        }
        q -= 1;
    }
    q
}

#[verifier::rlimit(60)]
proof fn lemma_event_added(
    events: Seq<OwnerEvent>,
    i: int,
    before: Seq<int>,
    p: int,
    found: bool,
    less: Seq<int>,
    q: int,
    after: Seq<int>,
)
    requires
        0 <= i < events.len(),
        last_events(events, i, before),
        found ==> 0 <= p < before.len() && events[before[p]].1@ == events[i].1@ && less
            == before.remove(p),
        !found ==> less == before && forall|j: int|
            0 <= j < before.len() ==> events[#[trigger] before[j]].1@ != events[i].1@,
        0 <= q <= less.len(),
        forall|j: int| 0 <= j < q ==> events[#[trigger] less[j]].0 <= events[i].0,
        forall|j: int| q <= j < less.len() ==> events[i].0 <= events[#[trigger] less[j]].0,
        after == less.insert(q, i),
    ensures
        last_events(events, i + 1, after),
{
    // An index of `less` stands for one of `before`.
    assert forall|j: int| 0 <= j < less.len() implies {
        let b = if found && j >= p {
            j + 1
        } else {
            j
        };
        0 <= b < before.len() && #[trigger] less[j] == before[b] && !(found && b == p)
    } by {}
    assert forall|j: int| 0 <= j < less.len() implies 0 <= #[trigger] less[j] < i && is_last(
        events,
        less[j],
        i + 1,
    ) by {
        let b = if found && j >= p {
            j + 1
        } else {
            j
        };
        assert(less[j] == before[b]);
        assert(is_last(events, before[b], i));
        assert(events[before[b]].1@ != events[i].1@) by {
            if found {
                if events[before[b]].1@ == events[i].1@ {
                    assert(before[b] != before[p]);
                    assert(is_last(events, before[p], i));
                    if before[b] < before[p] {
                        assert(events[before[p]].1@ != events[before[b]].1@);
                    } else {
                        assert(events[before[b]].1@ != events[before[p]].1@);
                    }
                }
            }
        }
    }
    assert forall|j: int| 0 <= j < after.len() implies 0 <= #[trigger] after[j] < i + 1 && is_last(
        events,
        after[j],
        i + 1,
    ) by {
        if j < q {
            assert(after[j] == less[j]);
        } else if j > q {
            assert(after[j] == less[j - 1]);
        }
    }
    assert forall|k: int| 0 <= k < i + 1 && #[trigger] is_last(events, k, i + 1) implies after.contains(
    k) by {
        if k == i {
            assert(after[q] == i);
        } else {
            assert(is_last(events, k, i)) by {
                assert forall|j: int| k < j < i implies (#[trigger] events[j]).1@
                    != events[k].1@ by {}
            }
            let b = choose|b: int| 0 <= b < before.len() && before[b] == k;
            assert(before.contains(k));
            assert(!(found && b == p)) by {
                assert(events[i].1@ != events[k].1@);
            }
            let j = if found && b > p {
                b - 1
            } else {
                b
            };
            assert(less[j] == k);
            if j < q {
                assert(after[j] == k);
            } else {
                assert(after[j + 1] == k);
            }
        }
    }
    assert(after.no_duplicates()) by {
        assert forall|a: int, b: int| 0 <= a < after.len() && 0 <= b < after.len() && a != b implies after[a]
            != after[b] by {
            let a0 = if a > q {
                a - 1
            } else {
                a
            };
            let b0 = if b > q {
                b - 1
            } else {
                b
            };
            if a != q {
                assert(after[a] == less[a0]);
            }
            if b != q {
                assert(after[b] == less[b0]);
            }
            if a != q && b != q {
                let a1 = if found && a0 >= p {
                    a0 + 1
                } else {
                    a0
                };
                let b1 = if found && b0 >= p {
                    b0 + 1
                } else {
                    b0
                };
                assert(less[a0] == before[a1]);
                assert(less[b0] == before[b1]);
                assert(a1 != b1);
            }
        }
    }
    assert forall|a: int, b: int| 0 <= a < b < after.len() implies events[#[trigger] after[a]].0
        <= events[#[trigger] after[b]].0 by {
        let a0 = if a > q {
            a - 1
        } else {
            a
        };
        let b0 = if b > q {
            b - 1
        } else {
            b
        };
        if a != q {
            assert(after[a] == less[a0]);
        }
        if b != q {
            assert(after[b] == less[b0]);
        }
        if a != q && b != q {
            let a1 = if found && a0 >= p {
                a0 + 1
            } else {
                a0
            };
            let b1 = if found && b0 >= p {
                b0 + 1
            } else {
                b0
            };
            assert(less[a0] == before[a1]);
            assert(less[b0] == before[b1]);
        }
    }
}

/// The events that put their keys into the index of prefixes, by their place.
pub fn prefix_insertions(
    events: &Vec<RoutePublishEvent>,
    routes: &KeyTable<OneKvNodesRoutes>,
) -> (r: Vec<usize>)
    requires
        routes.wf(),
        routes_wf(routes@),
    ensures
        r@ == places_where(
            events@.len() as int,
            |i: int| events@[i].indexes_prefix(routes@),
        ),
{
    let ghost keep = |i: int| events@[i].indexes_prefix(routes@);
    let mut r: Vec<usize> = Vec::new();
    let mut i: usize = 0;
    while i < events.len()
        invariant
            routes.wf(),
            routes_wf(routes@),
            i <= events@.len(),
            keep == (|i: int| events@[i].indexes_prefix(routes@)),
            r@ == places_where(i as int, keep),
        decreases events@.len() - i,
    {
        let event = &events[i];
        if matches!(event.kind, RoutePublishKind::PrimaryPut) {
            match routes.get(event.key.as_str()) {
                Some(route) => {
                    if route.put_id.0 == event.put_id.0 && route.put_id.1 == event.put_id.1
                        && route.has_live_replica() {
                        r.push(i);
                    }
                },
                None => {},
            }
        }
        i += 1;
    }
    r
}

/// The places below `n` that satisfy a condition, in order.
pub open spec fn places_where(n: int, keep: spec_fn(int) -> bool) -> Seq<usize>
    decreases n,
{
    if n <= 0 {
        Seq::empty()
    } else if keep(n - 1) {
        places_where(n - 1, keep).push((n - 1) as usize)
    } else {
        places_where(n - 1, keep)
    }
}

/// The event puts an entry into the cache of this node.
pub open spec fn enters_cache_of(
    event: RoutePublishEvent,
    routes: Routes,
    owner: Seq<char>,
) -> bool {
    event.node_id@ == owner && event.enters_cache(routes)
}

/// The entries that a batch brings into the cache of one node, in order.
pub open spec fn events_of_owner(
    events: Seq<RoutePublishEvent>,
    routes: Routes,
    owner: Seq<char>,
    r: Seq<OwnerEvent>,
) -> bool {
    let places = places_where(
        events.len() as int,
        |i: int| enters_cache_of(events[i], routes, owner),
    );
    &&& r.len() == places.len()
    &&& forall|j: int|
        0 <= j < r.len() ==> {
            let event = events[places[j] as int];
            &&& (#[trigger] r[j]).0 == places[j]
            &&& r[j].1@ == event.key@
            &&& r[j].2.put_id == event.put_id
            &&& r[j].2.weight_bytes == weight_of(event.capacity_bytes)
        }
}

/// The entries that a batch of events brings into the cache of one node.
pub fn owner_events(
    events: &Vec<RoutePublishEvent>,
    routes: &KeyTable<OneKvNodesRoutes>,
    owner: &String,
) -> (r: Vec<OwnerEvent>)
    requires
        routes.wf(),
        routes_wf(routes@),
    ensures
        events_of_owner(events@, routes@, owner@, r@),
{
    let ghost keep = |i: int| enters_cache_of(events@[i], routes@, owner@);
    let mut r: Vec<OwnerEvent> = Vec::new();
    let mut i: usize = 0;
    while i < events.len()
        invariant
            routes.wf(),
            routes_wf(routes@),
            i <= events@.len(),
            keep == (|i: int| enters_cache_of(events@[i], routes@, owner@)),
            r@.len() == places_where(i as int, keep).len(),
            forall|j: int|
                0 <= j < r@.len() ==> {
                    let place = places_where(i as int, keep)[j];
                    let event = events@[place as int];
                    &&& (#[trigger] r@[j]).0 == place
                    &&& r@[j].1@ == event.key@
                    &&& r@[j].2.put_id == event.put_id
                    &&& r@[j].2.weight_bytes == weight_of(event.capacity_bytes)
                },
        decreases events@.len() - i,
    {
        let event = &events[i];
        if event.node_id == *owner && event.lease_id.is_none() {
            let desc = NodeValueReplicaDesc {
                weight_bytes: saturating_moka_weight_bytes(event.capacity_bytes),
                put_id: event.put_id,
            };
            if eviction_cache_entry_is_current(routes, owner, event.key.as_str(), &desc) {
                r.push((i, event.key.clone(), desc));
            }
        }
        i += 1;
    }
    r
}

/// The nodes whose caches a batch of events brings entries into.
pub fn event_owners(events: &Vec<RoutePublishEvent>, routes: &KeyTable<OneKvNodesRoutes>) -> (r:
    NameSet)
    requires
        routes.wf(),
        routes_wf(routes@),
    ensures
        forall|n: Seq<char>| #[trigger]
            r@.contains(n) <==> exists|i: int|
                0 <= i < events@.len() && enters_cache_of(#[trigger] events@[i], routes@, n),
{
    let mut r = NameSet::new();
    let mut i: usize = 0;
    while i < events.len()
        invariant
            routes.wf(),
            routes_wf(routes@),
            i <= events@.len(),
            forall|n: Seq<char>| #[trigger]
                r@.contains(n) <==> exists|j: int|
                    0 <= j < i && enters_cache_of(#[trigger] events@[j], routes@, n),
        decreases events@.len() - i,
    {
        let event = &events[i];
        let ghost before = r@;
        let desc = NodeValueReplicaDesc {
            weight_bytes: saturating_moka_weight_bytes(event.capacity_bytes),
            put_id: event.put_id,
        };
        let enters = event.lease_id.is_none() && eviction_cache_entry_is_current(
            routes,
            &event.node_id,
            event.key.as_str(),
            &desc,
        );
        if enters {
            r.insert(event.node_id.clone());
        }
        proof {
            assert(enters == events@[i as int].enters_cache(routes@));
            assert forall|n: Seq<char>| #[trigger]
                r@.contains(n) <==> exists|j: int|
                    0 <= j < i + 1 && enters_cache_of(#[trigger] events@[j], routes@, n) by {
                if before.contains(n) {
                    let j = choose|j: int|
                        0 <= j < i && enters_cache_of(#[trigger] events@[j], routes@, n);
                    assert(enters_cache_of(events@[j], routes@, n));
                }
                if enters && event.node_id@ == n {
                    assert(enters_cache_of(events@[i as int], routes@, n));
                }
            }
        }
        i += 1;
    }
    r
}

/// The weights of some entries together.
pub open spec fn entries_weight(entries: Seq<(String, NodeValueReplicaDesc)>) -> int
    decreases entries.len(),
{
    if entries.len() == 0 {
        0
    } else {
        entries_weight(entries.drop_last()) + entries.last().1.weight_bytes
    }
}

/// The weights together of what the cache had of the same keys.
pub open spec fn replaced(existing: Seq<Option<u32>>) -> int
    decreases existing.len(),
{
    if existing.len() == 0 {
        0
    } else {
        replaced(existing.drop_last()) + match existing.last() {
            Some(weight) => weight as int,
            None => 0,
        }
    }
}

proof fn lemma_entries_weight(entries: Seq<(String, NodeValueReplicaDesc)>)
    ensures
        entries_weight(entries) >= 0,
    decreases entries.len(),
{
    if entries.len() > 0 {
        lemma_entries_weight(entries.drop_last());
    }
}

proof fn lemma_replaced(existing: Seq<Option<u32>>)
    ensures
        replaced(existing) >= 0,
    decreases existing.len(),
{
    if existing.len() > 0 {
        lemma_replaced(existing.drop_last());
    }
}

/// What a batch asks of the cache of its node.
#[derive(Clone, Copy, Debug, PartialEq, Eq, Structural)]
pub struct BatchAdmission {
    pub projected_weight: u64,
    /// The weight that must go for the batch to fit.
    pub requested_weight: u64,
}

/// What a batch asks of the cache of its node.
pub open spec fn batch_asks(
    entries: Seq<(String, NodeValueReplicaDesc)>,
    existing: Seq<Option<u32>>,
    current_weight: u64,
    capacity: u64,
    r: BatchAdmission,
) -> bool {
    &&& r.projected_weight == capped(
        minus(current_weight as int, capped(replaced(existing))) + capped(entries_weight(entries)),
    )
    &&& r.requested_weight == minus(r.projected_weight as int, capacity as int)
}

/// Computes what a batch asks of the cache of its node. `existing` holds, for each entry, the weight
/// of what the cache has of the same key.
pub fn admit_batch(
    entries: &Vec<(String, NodeValueReplicaDesc)>,
    existing: &Vec<Option<u32>>,
    current_weight: u64,
    capacity: u64,
) -> (r: BatchAdmission)
    requires
        existing@.len() == entries@.len(),
    ensures
        batch_asks(entries@, existing@, current_weight, capacity, r),
{
    let mut incoming: u64 = 0;
    let mut gone: u64 = 0;
    let mut i: usize = 0;
    proof {
        assert(entries@.take(0) =~= Seq::empty());
        assert(existing@.take(0) =~= Seq::empty());
    }
    while i < entries.len()
        invariant
            i <= entries@.len() == existing@.len(),
            incoming == capped(entries_weight(entries@.take(i as int))),
            gone == capped(replaced(existing@.take(i as int))),
        decreases entries@.len() - i,
    {
        proof {
            assert(entries@.take(i + 1).drop_last() =~= entries@.take(i as int));
            assert(existing@.take(i + 1).drop_last() =~= existing@.take(i as int));
            lemma_entries_weight(entries@.take(i as int));
            lemma_replaced(existing@.take(i as int));
        }
        incoming = incoming.saturating_add(entries[i].1.weight_bytes as u64);
        let weight: u64 = match existing[i] {
            Some(weight) => weight as u64,
            None => 0,
        };
        gone = gone.saturating_add(weight);
        i += 1;
    }
    assert(entries@.take(entries@.len() as int) =~= entries@);
    assert(existing@.take(existing@.len() as int) =~= existing@);
    let projected: u64 = projected_batch_weight(current_weight, gone, incoming);
    BatchAdmission {
        projected_weight: projected,
        requested_weight: requested_weight(projected, capacity),
    }
}

/// The keys of a batch, which the cache must not drop to make room for the batch itself.
pub fn incoming_keys(entries: &Vec<(String, NodeValueReplicaDesc)>) -> (r: NameSet)
    ensures
        forall|n: Seq<char>| #[trigger]
            r@.contains(n) <==> exists|i: int|
                0 <= i < entries@.len() && (#[trigger] entries@[i]).0@ == n,
{
    let mut r = NameSet::new();
    let mut i: usize = 0;
    while i < entries.len()
        invariant
            i <= entries@.len(),
            forall|n: Seq<char>| #[trigger]
                r@.contains(n) <==> exists|j: int|
                    0 <= j < i && (#[trigger] entries@[j]).0@ == n,
        decreases entries@.len() - i,
    {
        let ghost before = r@;
        r.insert(entries[i].0.clone());
        proof {
            assert forall|n: Seq<char>| #[trigger]
                r@.contains(n) <==> exists|j: int|
                    0 <= j < i + 1 && (#[trigger] entries@[j]).0@ == n by {
                if r@.contains(n) {
                    if n == entries@[i as int].0@ {
                        assert(entries@[i as int].0@ == n);
                    } else {
                        assert(before.contains(n));
                        let j = choose|j: int| 0 <= j < i && (#[trigger] entries@[j]).0@ == n;
                        assert(entries@[j].0@ == n);
                    }
                }
                if exists|j: int| 0 <= j < i + 1 && (#[trigger] entries@[j]).0@ == n {
                    let j = choose|j: int| 0 <= j < i + 1 && (#[trigger] entries@[j]).0@ == n;
                    if j < i {
                        assert(before.contains(n));
                    }
                }
            }
        }
        i += 1;
    }
    r
}

} // verus!
