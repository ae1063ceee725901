//! Dropping a whole cohort from the cache of its owner, once the remote tier has all of it.
use vstd::prelude::*;

use crate::assoc::AssocMap;
use crate::cache_policy::{
    entry_status, eviction_cache_entry_recoverable_status, plus, EvictionReclaimCounters,
};
use crate::ids::PutIDForAKey;
use crate::key_table::KeyTable;
use crate::name_set::{names_has, NameSet};
use crate::recoverability::{
    all_of_rank, cohort_keys, current_tp_cohort_keys, group_members, key_views,
    lemma_prefixes_unique, routes_wf, status_is_unique, RecoverableReplicaStatus, Routes,
};
use crate::routes::{member_keys, NodeValueReplicaDesc, OneKvNodesRoutes};
use crate::tp_key::is_tp_key;

verus! {

/// What a node's cache holds.
pub type Cached = Map<Seq<char>, NodeValueReplicaDesc>;

/// `keys` are the keys that are useful only together with `key`.
pub open spec fn cohort_of(
    key: Seq<char>,
    route: OneKvNodesRoutes,
    put_id: PutIDForAKey,
    keys: Seq<Seq<char>>,
) -> bool {
    match group_members(key, route, put_id) {
        Err(_) => false,
        Ok(members) => {
            &&& (forall|prefix: Seq<char>, rank: nat, size: nat| #[trigger]
                is_tp_key(key, prefix, rank, size) ==> size == 1) ==> keys == member_keys(members)
            &&& forall|prefix: Seq<char>, rank: nat, size: nat| #[trigger]
                is_tp_key(key, prefix, rank, size) && size > 1 ==> exists|
                    prefixes: Seq<Seq<char>>,
                | #[trigger]
                    all_of_rank(members, prefixes, rank, size) && keys == cohort_keys(
                        prefixes,
                        size,
                        size,
                    )
        },
    }
}

/// A key belongs to one cohort only.
pub proof fn cohort_is_unique(
    key: Seq<char>,
    route: OneKvNodesRoutes,
    put_id: PutIDForAKey,
    a: Seq<Seq<char>>,
    b: Seq<Seq<char>>,
)
    requires
        cohort_of(key, route, put_id, a),
        cohort_of(key, route, put_id, b),
    ensures
        a == b,
{
    let members = group_members(key, route, put_id)->Ok_0;
    if exists|prefix: Seq<char>, rank: nat, size: nat| #[trigger]
        is_tp_key(key, prefix, rank, size) && size > 1 {
        let (prefix, rank, size) = choose|prefix: Seq<char>, rank: nat, size: nat| #[trigger]
            is_tp_key(key, prefix, rank, size) && size > 1;
        let p = choose|prefixes: Seq<Seq<char>>| #[trigger]
            all_of_rank(members, prefixes, rank, size) && a == cohort_keys(prefixes, size, size);
        let q = choose|prefixes: Seq<Seq<char>>| #[trigger]
            all_of_rank(members, prefixes, rank, size) && b == cohort_keys(prefixes, size, size);
        assert(all_of_rank(members, p, rank, size));
        assert(all_of_rank(members, q, rank, size));
        lemma_prefixes_unique(members, p, q, rank, size);
    } else {
        assert forall|prefix: Seq<char>, rank: nat, size: nat| #[trigger]
            is_tp_key(key, prefix, rank, size) implies size == 1 by {}
    }
}

/// The key is in the cache in this version, has a route, and belongs to a cohort.
pub open spec fn anchored(
    key: Seq<char>,
    put_id: PutIDForAKey,
    cached: Cached,
    routes: Routes,
) -> bool {
    &&& cached.contains_key(key)
    &&& cached[key].put_id == put_id
    &&& routes.contains_key(key)
    &&& exists|keys: Seq<Seq<char>>| #[trigger] cohort_of(key, routes[key], put_id, keys)
}

/// The weight of some keys in the cache.
pub open spec fn cached_weight(keys: Seq<Seq<char>>, cached: Cached) -> int
    decreases keys.len(),
{
    if keys.len() == 0 {
        0
    } else {
        cached_weight(keys.drop_last(), cached) + cached[keys.last()].weight_bytes
    }
}

/// A key is in the cache and can be brought back.
pub open spec fn may_go(
    owner: Seq<char>,
    key: Seq<char>,
    cached: Cached,
    routes: Routes,
    remote: Set<Seq<char>>,
) -> bool {
    cached.contains_key(key) && entry_status(
        routes,
        remote,
        owner,
        key,
        cached[key].put_id,
        RecoverableReplicaStatus::Recoverable,
    )
}

/// The cohort may be dropped as a whole, which frees `weight` bytes.
pub open spec fn demotable(
    owner: Seq<char>,
    key: Seq<char>,
    put_id: PutIDForAKey,
    keys: Seq<Seq<char>>,
    cached: Cached,
    routes: Routes,
    remote: Set<Seq<char>>,
    weight: int,
) -> bool {
    &&& cohort_of(key, routes[key], put_id, keys)
    &&& keys.len() > 0
    &&& keys.no_duplicates()
    &&& forall|i: int| 0 <= i < keys.len() ==> may_go(owner, #[trigger] keys[i], cached, routes, remote)
    &&& weight == cached_weight(keys, cached)
    &&& 0 < weight <= u64::MAX
}

/// What to do with a cohort.
#[derive(Clone, Copy, Debug, PartialEq, Eq, Structural)]
pub enum DemotionStep {
    /// There is nothing to drop.
    Skip,
    /// The cohort cannot be dropped as a whole.
    Rejected,
    /// Drop the cohort, which frees so many bytes.
    Evict { weight: u64 },
}

/// What to do with a cohort, and how its copies were judged on the way.
pub struct DemotionPlan {
    pub step: DemotionStep,
    pub judged: Vec<RecoverableReplicaStatus>,
}

/// What is to be done with a cohort was decided.
pub open spec fn step_decided(
    owner: Seq<char>,
    key: Seq<char>,
    put_id: PutIDForAKey,
    keys: Seq<Seq<char>>,
    cached: Cached,
    routes: Routes,
    remote: Set<Seq<char>>,
    step: DemotionStep,
) -> bool {
    match step {
        DemotionStep::Skip => !anchored(key, put_id, cached, routes),
        DemotionStep::Rejected => anchored(key, put_id, cached, routes) && forall|w: int|
            !#[trigger] demotable(owner, key, put_id, keys, cached, routes, remote, w),
        DemotionStep::Evict { weight } => anchored(key, put_id, cached, routes) && demotable(
            owner,
            key,
            put_id,
            keys,
            cached,
            routes,
            remote,
            weight as int,
        ),
    }
}

/// The cohort of a key that is in the cache, for whose demotion a lock is then taken.
pub fn demotion_cohort(
    key: &String,
    put_id: PutIDForAKey,
    cached: &AssocMap<String, NodeValueReplicaDesc>,
    routes: &KeyTable<OneKvNodesRoutes>,
) -> (r: Option<Vec<String>>)
    requires
        cached.wf(),
        routes.wf(),
        routes_wf(routes@),
    ensures
        match r {
            Some(keys) => anchored(key@, put_id, cached@, routes@) && cohort_of(
                key@,
                routes@[key@],
                put_id,
                key_views(keys@),
            ),
            None => !anchored(key@, put_id, cached@, routes@),
        },
{
    let desc = match cached.get(key) {
        Some(desc) => desc,
        None => {
            return None;
        },
    };
    if desc.put_id.0 != put_id.0 || desc.put_id.1 != put_id.1 {
        return None;
    }
    let route = match routes.get(key.as_str()) {
        Some(route) => route,
        None => {
            return None;
        },
    };
    match current_tp_cohort_keys(key, route, desc) {
        Ok(keys) => {
            assert(cohort_of(key@, routes@[key@], put_id, key_views(keys@)));
            Some(keys)
        },
        Err(_) => {
            proof {
                assert forall|keys: Seq<Seq<char>>|
                    !#[trigger] cohort_of(key@, routes@[key@], put_id, keys) by {
                    if cohort_of(key@, routes@[key@], put_id, keys) {
                        let members = group_members(key@, *route, put_id)->Ok_0;
                        if exists|prefix: Seq<char>, rank: nat, size: nat| #[trigger]
                            is_tp_key(key@, prefix, rank, size) && size > 1 {
                            let (prefix, rank, size) = choose|
                                prefix: Seq<char>,
                                rank: nat,
                                size: nat,
                            | #[trigger]
                                is_tp_key(key@, prefix, rank, size) && size > 1;
                            let p = choose|prefixes: Seq<Seq<char>>| #[trigger]
                                all_of_rank(members, prefixes, rank, size) && keys == cohort_keys(
                                    prefixes,
                                    size,
                                    size,
                                );
                            assert(all_of_rank(members, p, rank, size));
                        } else {
                            assert forall|prefix: Seq<char>, rank: nat, size: nat| #[trigger]
                                is_tp_key(key@, prefix, rank, size) implies size == 1 by {}
                        }
                    }
                }
            }
            None
        },
    }
}

fn same_keys(a: &Vec<String>, b: &Vec<String>) -> (r: bool)
    ensures
        r == (key_views(a@) == key_views(b@)),
{
    if a.len() != b.len() {
        assert(key_views(a@).len() != key_views(b@).len());
        return false;
    }
    let mut i: usize = 0;
    while i < a.len()
        invariant
            i <= a@.len() == b@.len(),
            forall|j: int| 0 <= j < i ==> #[trigger] key_views(a@)[j] == key_views(b@)[j],
        decreases a@.len() - i,
    {
        if a[i] != b[i] {
            assert(key_views(a@)[i as int] != key_views(b@)[i as int]);
            return false;
        }
        i += 1;
    }
    assert(key_views(a@) =~= key_views(b@));
    true
}

/// Whether all keys are in the cache and none is listed twice.
fn all_cached_once(keys: &Vec<String>, cached: &AssocMap<String, NodeValueReplicaDesc>) -> (r: bool)
    requires
        cached.wf(),
    ensures
        r == (key_views(keys@).no_duplicates() && forall|i: int|
            0 <= i < keys@.len() ==> cached@.contains_key(#[trigger] key_views(keys@)[i])),
{
    let ghost ks = key_views(keys@);
    let mut seen = NameSet::new();
    let mut i: usize = 0;
    while i < keys.len()
        invariant
            cached.wf(),
            ks == key_views(keys@),
            i <= keys@.len(),
            forall|n: Seq<char>| #[trigger]
                seen@.contains(n) <==> exists|j: int| 0 <= j < i && #[trigger] ks[j] == n,
            forall|j: int, h: int| 0 <= j < i && 0 <= h < i && j != h ==> ks[j] != ks[h],
            forall|j: int| 0 <= j < i ==> cached@.contains_key(#[trigger] ks[j]),
        decreases keys@.len() - i,
    {
        let key = &keys[i];
        assert(ks[i as int] == key@);
        let ghost before = seen@;
        if !cached.contains_key(key) {
            return false;
        }
        if !seen.insert(key.clone()) {
            proof {
                assert(before.contains(key@));
                let j = choose|j: int| 0 <= j < i && #[trigger] ks[j] == key@;
                assert(ks[j] == ks[i as int]);
            }
            return false;
        }
        proof {
            assert forall|n: Seq<char>| #[trigger]
                seen@.contains(n) <==> exists|j: int| 0 <= j < i + 1 && #[trigger] ks[j] == n by {
                if seen@.contains(n) && n != key@ {
                    assert(before.contains(n));
                    let j = choose|j: int| 0 <= j < i && #[trigger] ks[j] == n;
                    assert(ks[j] == n);
                }
                if exists|j: int| 0 <= j < i + 1 && #[trigger] ks[j] == n {
                    let j = choose|j: int| 0 <= j < i + 1 && #[trigger] ks[j] == n;
                    if j < i {
                        assert(before.contains(n));
                    }
                }
            }
            assert forall|j: int| 0 <= j < i implies ks[j] != ks[i as int] by {
                if ks[j] == ks[i as int] {
                    assert(before.contains(key@));
                }
            }
        }
        i += 1;
    }
    true
}

/// The cohort is the group as it stands, and each of its keys is cached once.
pub open spec fn worth_judging(
    key: Seq<char>,
    put_id: PutIDForAKey,
    keys: Seq<Seq<char>>,
    cached: Cached,
    routes: Routes,
) -> bool {
    &&& anchored(key, put_id, cached, routes)
    &&& cohort_of(key, routes[key], put_id, keys)
    &&& keys.len() > 0
    &&& keys.no_duplicates()
    &&& forall|i: int| 0 <= i < keys.len() ==> cached.contains_key(#[trigger] keys[i])
}

/// Copies are judged in the order of the cohort, if it is worth judging, and
/// the first that is not recoverable is the last judged. With none such, all
/// of them are judged, or as many as weigh no more than can be counted, and
/// one more.
pub open spec fn judging_ends(
    key: Seq<char>,
    put_id: PutIDForAKey,
    keys: Seq<Seq<char>>,
    cached: Cached,
    routes: Routes,
    plan: DemotionPlan,
) -> bool {
    let judged = plan.judged@;
    if worth_judging(key, put_id, keys, cached, routes) {
        &&& 0 < judged.len() <= keys.len()
        &&& forall|i: int|
            0 <= i < judged.len() - 1 ==> #[trigger] judged[i]
                == RecoverableReplicaStatus::Recoverable
        &&& judged.last() == RecoverableReplicaStatus::Recoverable ==> {
            ||| judged.len() == keys.len()
            ||| cached_weight(keys.take(judged.len() as int), cached) > u64::MAX
        }
    } else {
        judged.len() == 0
    }
}

/// Decides, under the lock for the cohort, whether the cohort of a key is dropped from the cache of
/// its owner. `cohort` is the cohort for which the lock was taken. Nothing is dropped unless all of
/// the cohort is in the cache and can be brought back.
pub fn plan_demotion(
    owner_node_id: &String,
    key: &String,
    put_id: PutIDForAKey,
    cohort: &Vec<String>,
    cached: &AssocMap<String, NodeValueReplicaDesc>,
    routes: &KeyTable<OneKvNodesRoutes>,
    remote: &NameSet,
) -> (r: DemotionPlan)
    requires
        cached.wf(),
        routes.wf(),
        routes_wf(routes@),
    ensures
        step_decided(
            owner_node_id@,
            key@,
            put_id,
            key_views(cohort@),
            cached@,
            routes@,
            remote@,
            r.step,
        ),
        judging_ends(key@, put_id, key_views(cohort@), cached@, routes@, r),
        forall|i: int|
            0 <= i < r.judged@.len() ==> entry_status(
                routes@,
                remote@,
                owner_node_id@,
                cohort@[i]@,
                cached@[cohort@[i]@].put_id,
                #[trigger] r.judged@[i],
            ),
{
    let mut judged: Vec<RecoverableReplicaStatus> = Vec::new();
    let ghost ks = key_views(cohort@);
    let now = match demotion_cohort(key, put_id, cached, routes) {
        Some(keys) => keys,
        None => {
            return DemotionPlan { step: DemotionStep::Skip, judged };
        },
    };
    if !same_keys(&now, cohort) {
        assert(!cohort_of(key@, routes@[key@], put_id, ks)) by {
            if cohort_of(key@, routes@[key@], put_id, ks) {
                cohort_is_unique(key@, routes@[key@], put_id, ks, key_views(now@));
            }
        }
        return DemotionPlan { step: DemotionStep::Rejected, judged };
    }
    if cohort.len() == 0 || !all_cached_once(cohort, cached) {
        proof {
            assert forall|w: int|
                !#[trigger] demotable(
                    owner_node_id@,
                    key@,
                    put_id,
                    ks,
                    cached@,
                    routes@,
                    remote@,
                    w,
                ) by {
                if demotable(owner_node_id@, key@, put_id, ks, cached@, routes@, remote@, w) {
                    assert forall|i: int| 0 <= i < ks.len() implies cached@.contains_key(
                        #[trigger] ks[i],
                    ) by {
                        assert(may_go(owner_node_id@, ks[i], cached@, routes@, remote@));
                    }
                }
            }
        }
        return DemotionPlan { step: DemotionStep::Rejected, judged };
    }
    let mut weight: u64 = 0;
    let mut i: usize = 0;
    assert(ks.take(0) =~= Seq::empty());
    while i < cohort.len()
        invariant
            cached.wf(),
            routes.wf(),
            routes_wf(routes@),
            ks == key_views(cohort@),
            i <= cohort@.len(),
            anchored(key@, put_id, cached@, routes@),
            judged@.len() == i,
            worth_judging(key@, put_id, ks, cached@, routes@),
            forall|j: int|
                0 <= j < i ==> #[trigger] judged@[j] == RecoverableReplicaStatus::Recoverable,
            forall|j: int|
                0 <= j < judged@.len() ==> entry_status(
                    routes@,
                    remote@,
                    owner_node_id@,
                    cohort@[j]@,
                    cached@[cohort@[j]@].put_id,
                    #[trigger] judged@[j],
                ),
            forall|j: int| 0 <= j < ks.len() ==> cached@.contains_key(#[trigger] ks[j]),
            forall|j: int|
                0 <= j < i ==> may_go(
                    owner_node_id@,
                    #[trigger] ks[j],
                    cached@,
                    routes@,
                    remote@,
                ),
            weight == cached_weight(ks.take(i as int), cached@),
        decreases cohort@.len() - i,
    {
        let cohort_key = &cohort[i];
        proof {
            assert(ks[i as int] == cohort_key@);
            assert(ks.take(i + 1).drop_last() =~= ks.take(i as int));
            assert(ks.take(i + 1).last() == ks[i as int]);
            lemma_part_weighs_no_more(ks, cached@, i + 1);
        }
        let desc = match cached.get(cohort_key) {
            Some(desc) => *desc,
            None => {
                return DemotionPlan { step: DemotionStep::Rejected, judged };
            },
        };
        let status = eviction_cache_entry_recoverable_status(
            routes,
            remote,
            owner_node_id,
            cohort_key,
            &desc,
        );
        judged.push(status);
        if !matches!(status, RecoverableReplicaStatus::Recoverable) {
            proof {
                assert(!may_go(owner_node_id@, ks[i as int], cached@, routes@, remote@)) by {
                    if may_go(owner_node_id@, ks[i as int], cached@, routes@, remote@)
                        && routes@.contains_key(cohort_key@) {
                        status_is_unique(
                            owner_node_id@,
                            cohort_key@,
                            routes@[cohort_key@],
                            desc.put_id,
                            routes@,
                            remote@,
                            status,
                            RecoverableReplicaStatus::Recoverable,
                        );
                    }
                }
            }
            return DemotionPlan { step: DemotionStep::Rejected, judged };
        }
        match weight.checked_add(desc.weight_bytes as u64) {
            Some(w) => {
                weight = w;
            },
            None => {
                return DemotionPlan { step: DemotionStep::Rejected, judged };
            },
        }
        i += 1;
    }
    assert(ks.take(ks.len() as int) =~= ks);
    if weight == 0 {
        return DemotionPlan { step: DemotionStep::Rejected, judged };
    }
    DemotionPlan { step: DemotionStep::Evict { weight }, judged }
}

proof fn lemma_part_weighs_no_more(keys: Seq<Seq<char>>, cached: Cached, n: int)
    requires
        0 <= n <= keys.len(),
    ensures
        cached_weight(keys.take(n), cached) <= cached_weight(keys, cached),
    decreases keys.len() - n,
{
    if n == keys.len() {
        assert(keys.take(n) =~= keys);
    } else {
        lemma_part_weighs_no_more(keys, cached, n + 1);
        assert(keys.take(n + 1).drop_last() =~= keys.take(n));
    }
}

/// Nothing is judged of a cohort that is not whole in the cache. A cohort that is dropped was judged in full, and
/// each of its copies was found to be recoverable; one that is rejected after its copies were judged has a copy
/// that was not, or weighs nothing or too much.
pub proof fn a_dropped_cohort_was_judged_in_full(
    owner: Seq<char>,
    key: Seq<char>,
    put_id: PutIDForAKey,
    keys: Seq<Seq<char>>,
    cached: Cached,
    routes: Routes,
    remote: Set<Seq<char>>,
    plan: DemotionPlan,
)
    requires
        step_decided(owner, key, put_id, keys, cached, routes, remote, plan.step),
        judging_ends(key, put_id, keys, cached, routes, plan),
        forall|i: int|
            0 <= i < plan.judged@.len() ==> entry_status(
                routes,
                remote,
                owner,
                keys[i],
                cached[keys[i]].put_id,
                #[trigger] plan.judged@[i],
            ),
    ensures
        plan.judged@.len() <= keys.len(),
        plan.step is Skip ==> plan.judged@.len() == 0,
        (exists|i: int| 0 <= i < keys.len() && !cached.contains_key(#[trigger] keys[i]))
            ==> plan.judged@.len() == 0,
        plan.step is Evict ==> plan.judged@.len() == keys.len() && forall|i: int|
            0 <= i < keys.len() ==> #[trigger] plan.judged@[i]
                == RecoverableReplicaStatus::Recoverable,
        forall|i: int|
            0 <= i < plan.judged@.len() - 1 ==> #[trigger] plan.judged@[i]
                == RecoverableReplicaStatus::Recoverable,
        plan.judged@.len() == keys.len() && keys.len() > 0 && plan.judged@.last()
            == RecoverableReplicaStatus::Recoverable && 0 < cached_weight(keys, cached) <= u64::MAX
            ==> plan.step is Evict,
{
    let judged = plan.judged@;
    if let DemotionStep::Evict { weight } = plan.step {
        assert forall|i: int| 0 <= i < keys.len() implies cached.contains_key(
            #[trigger] keys[i],
        ) by {
            assert(may_go(owner, keys[i], cached, routes, remote));
        }
        assert(worth_judging(key, put_id, keys, cached, routes));
        assert forall|i: int| 0 <= i < judged.len() implies #[trigger] judged[i]
            == RecoverableReplicaStatus::Recoverable by {
            assert(may_go(owner, keys[i], cached, routes, remote));
            if routes.contains_key(keys[i]) {
                status_is_unique(
                    owner,
                    keys[i],
                    routes[keys[i]],
                    cached[keys[i]].put_id,
                    routes,
                    remote,
                    judged[i],
                    RecoverableReplicaStatus::Recoverable,
                );
            }
        }
        lemma_part_weighs_no_more(keys, cached, judged.len() as int);
    }
    if judged.len() == keys.len() && keys.len() > 0 && judged.last()
        == RecoverableReplicaStatus::Recoverable && 0 < cached_weight(keys, cached) <= u64::MAX {
        assert(worth_judging(key, put_id, keys, cached, routes));
        assert forall|i: int| 0 <= i < keys.len() implies may_go(
            owner,
            #[trigger] keys[i],
            cached,
            routes,
            remote,
        ) by {
            assert(judged[i] == RecoverableReplicaStatus::Recoverable);
        }
        assert(demotable(
            owner,
            key,
            put_id,
            keys,
            cached,
            routes,
            remote,
            cached_weight(keys, cached),
        ));
    }
}

/// Whether an entry of the cache goes with a cohort: its key is one of the cohort, and the entry is the
/// one that was judged.
pub fn goes_with_cohort(
    cohort: &Vec<String>,
    expected: &AssocMap<String, NodeValueReplicaDesc>,
    key: &String,
    desc: &NodeValueReplicaDesc,
) -> (r: bool)
    requires
        expected.wf(),
    ensures
        r == (names_has(cohort@, key@) && expected@.contains_key(key@) && expected@[key@] == *desc),
{
    let mut i: usize = 0;
    while i < cohort.len()
        invariant
            expected.wf(),
            i <= cohort@.len(),
            forall|j: int| 0 <= j < i ==> (#[trigger] cohort@[j])@ != key@,
        decreases cohort@.len() - i,
    {
        if crate::text::str_eq(cohort[i].as_str(), key.as_str()) {
            assert(names_has(cohort@, key@));
            return match expected.get(key) {
                Some(wanted) => wanted.put_id.0 == desc.put_id.0 && wanted.put_id.1 == desc.put_id.1
                    && wanted.weight_bytes == desc.weight_bytes,
                None => false,
            };
        }
        i += 1;
    }
    false
}

/// The counters after the outcome of a demotion was counted.
pub open spec fn demotion_counted(
    counters: EvictionReclaimCounters,
    step: DemotionStep,
    selected_weight: u64,
) -> EvictionReclaimCounters {
    let before = EvictionReclaimCounters {
        owner_hot_demotion_attempts: plus(counters.owner_hot_demotion_attempts, 1),
        ..counters
    };
    match step {
        DemotionStep::Skip => before,
        DemotionStep::Rejected => EvictionReclaimCounters {
            owner_hot_demotion_precheck_rejected: plus(
                counters.owner_hot_demotion_precheck_rejected,
                1,
            ),
            ..before
        },
        DemotionStep::Evict { weight } => if selected_weight == weight {
            EvictionReclaimCounters {
                owner_hot_demotion_cohorts: plus(counters.owner_hot_demotion_cohorts, 1),
                owner_hot_demotion_selected_bytes: plus(
                    counters.owner_hot_demotion_selected_bytes,
                    weight,
                ),
                ..before
            }
        } else {
            EvictionReclaimCounters {
                owner_hot_demotion_partial_mismatch: plus(
                    counters.owner_hot_demotion_partial_mismatch,
                    1,
                ),
                ..before
            }
        },
    }
}

/// Each attempt counts once, and so does what became of it: a cohort that was dropped counts with its
/// bytes, and one that was dropped in part counts as a mismatch, without.
pub proof fn a_demotion_counts_once(
    c: EvictionReclaimCounters,
    step: DemotionStep,
    selected_weight: u64,
)
    requires
        c.owner_hot_demotion_attempts < u64::MAX,
        c.owner_hot_demotion_precheck_rejected < u64::MAX,
        c.owner_hot_demotion_cohorts < u64::MAX,
        c.owner_hot_demotion_partial_mismatch < u64::MAX,
        c.owner_hot_demotion_selected_bytes + selected_weight <= u64::MAX,
    ensures
        ({
            let after = demotion_counted(c, step, selected_weight);
            let whole = step == (DemotionStep::Evict { weight: selected_weight });
            &&& after.owner_hot_demotion_attempts == c.owner_hot_demotion_attempts + 1
            &&& after.owner_hot_demotion_cohorts - c.owner_hot_demotion_cohorts == if whole {
                1int
            } else {
                0
            }
            &&& after.owner_hot_demotion_selected_bytes - c.owner_hot_demotion_selected_bytes
                == if whole {
                selected_weight as int
            } else {
                0
            }
            &&& after.owner_hot_demotion_precheck_rejected - c.owner_hot_demotion_precheck_rejected
                == if step == DemotionStep::Rejected {
                1int
            } else {
                0
            }
            &&& after.owner_hot_demotion_partial_mismatch - c.owner_hot_demotion_partial_mismatch
                == if step is Evict && !whole {
                1int
            } else {
                0
            }
            &&& after.completed == c.completed
            &&& after.route_changed == c.route_changed
        }),
{
}

/// Counts the outcome of a demotion: how many bytes of the cohort the cache dropped.
pub fn record_demotion(
    counters: &mut EvictionReclaimCounters,
    step: DemotionStep,
    selected_weight: u64,
)
    ensures
        *final(counters) == demotion_counted(*old(counters), step, selected_weight),
{
    counters.owner_hot_demotion_attempts = counters.owner_hot_demotion_attempts.wrapping_add(1);
    match step {
        DemotionStep::Skip => {},
        DemotionStep::Rejected => {
            counters.owner_hot_demotion_precheck_rejected =
            counters.owner_hot_demotion_precheck_rejected.wrapping_add(1);
        },
        DemotionStep::Evict { weight } => {
            if selected_weight == weight {
                counters.owner_hot_demotion_cohorts =
                counters.owner_hot_demotion_cohorts.wrapping_add(1);
                counters.owner_hot_demotion_selected_bytes =
                counters.owner_hot_demotion_selected_bytes.wrapping_add(weight);
            } else {
                counters.owner_hot_demotion_partial_mismatch =
                counters.owner_hot_demotion_partial_mismatch.wrapping_add(1);
            }
        },
    }
}

} // verus!
