//! Whether a copy may be dropped because the remote tier can bring it back.
//!
//! A value that is part of a group of keys that were put together, or of a tensor-parallel cohort,
//! is useful only with the others. So it counts as recoverable only if one node of the remote tier
//! holds all of them.
use vstd::prelude::*;

use crate::ids::PutIDForAKey;
use crate::key_table::KeyTable;
use crate::name_set::NameSet;
use crate::routes::{
    member_ids, member_keys, MemberId, NodeValueReplicaDesc, OneKvNodesRoutes, PutAtomicGroup,
    PutAtomicGroupMember,
};
use crate::tp_key::{format_tp_key, infer_sglang_tp_key, is_tp_key, tp_key, tp_key_parts_are_unique};

verus! {

/// Whether a copy can be brought back, or why not.
#[derive(Clone, Copy, Debug, PartialEq, Eq, Structural)]
pub enum RecoverableReplicaStatus {
    Recoverable,
    RouteAbsent,
    VersionChanged,
    RouteIneligible,
    CpuRouteAbsent,
    AtomicGroupIncomplete,
    TpCohortIncomplete,
}

/// The routes of all keys.
pub type Routes = Map<Seq<char>, OneKvNodesRoutes>;

/// The nodes that can bring something back, or why none can.
pub type RemoteNodes = Result<Set<Seq<char>>, RecoverableReplicaStatus>;

/// All routes are well-formed.
pub open spec fn routes_wf(routes: Routes) -> bool {
    forall|k: Seq<char>| #[trigger] routes.contains_key(k) ==> routes[k].wf()
}

/// The nodes that hold one more value besides the values before it.
pub open spec fn intersect_nodes(
    common: Option<Set<Seq<char>>>,
    member: Set<Seq<char>>,
    owner: Seq<char>,
) -> RemoteNodes {
    let others = member.remove(owner);
    if others == Set::<Seq<char>>::empty() {
        Err(RecoverableReplicaStatus::CpuRouteAbsent)
    } else {
        let both = match common {
            Some(c) => c.intersect(others),
            None => others,
        };
        if both == Set::<Seq<char>>::empty() {
            Err(RecoverableReplicaStatus::AtomicGroupIncomplete)
        } else {
            Ok(both)
        }
    }
}

/// Keeps of the common nodes those that hold the next value too.
pub fn intersect_remote_nodes(
    common: Option<NameSet>,
    member_remote_nodes: NameSet,
    owner_node_id: &String,
) -> (r: Result<NameSet, RecoverableReplicaStatus>)
    ensures
        ({
            let before = match common {
                Some(c) => Some(c@),
                None => None,
            };
            match r {
                Ok(nodes) => intersect_nodes(before, member_remote_nodes@, owner_node_id@) == Ok::<
                    Set<Seq<char>>,
                    RecoverableReplicaStatus,
                >(nodes@),
                Err(e) => intersect_nodes(before, member_remote_nodes@, owner_node_id@) == Err::<
                    Set<Seq<char>>,
                    RecoverableReplicaStatus,
                >(e),
            }
        }),
{
    let others = member_remote_nodes.without(owner_node_id);
    if others.is_empty() {
        return Err(RecoverableReplicaStatus::CpuRouteAbsent);
    }
    let both = match common {
        Some(c) => c.intersect(&others),
        None => others,
    };
    if both.is_empty() {
        return Err(RecoverableReplicaStatus::AtomicGroupIncomplete);
    }
    Ok(both)
}

/// The members that belong with a key: its group, or the key alone.
pub open spec fn group_members(
    key: Seq<char>,
    route: OneKvNodesRoutes,
    put_id: PutIDForAKey,
) -> Result<Seq<MemberId>, RecoverableReplicaStatus> {
    match route.group() {
        None => Ok(seq![(key, put_id)]),
        Some(members) => if members.contains((key, put_id)) {
            Ok(members)
        } else {
            Err(RecoverableReplicaStatus::AtomicGroupIncomplete)
        },
    }
}

fn clone_members(members: &Vec<PutAtomicGroupMember>) -> (r: Vec<PutAtomicGroupMember>)
    ensures
        member_ids(r@) == member_ids(members@),
{
    let mut r: Vec<PutAtomicGroupMember> = Vec::new();
    let mut i: usize = 0;
    while i < members.len()
        invariant
            i <= members@.len(),
            r@.len() == i,
            forall|j: int|
                0 <= j < i ==> (#[trigger] r@[j]).key@ == members@[j].key@ && r@[j].put_id
                    == members@[j].put_id,
        decreases members@.len() - i,
    {
        r.push(PutAtomicGroupMember { key: members[i].key.clone(), put_id: members[i].put_id });
        i += 1;
    }
    assert(member_ids(r@) =~= member_ids(members@));
    r
}

/// The members that belong with a key.
pub fn current_atomic_group_members(
    key: &String,
    route: &OneKvNodesRoutes,
    desc: &NodeValueReplicaDesc,
) -> (r: Result<Vec<PutAtomicGroupMember>, RecoverableReplicaStatus>)
    ensures
        match r {
            Ok(members) => group_members(key@, *route, desc.put_id) == Ok::<
                Seq<MemberId>,
                RecoverableReplicaStatus,
            >(member_ids(members@)),
            Err(e) => group_members(key@, *route, desc.put_id) == Err::<
                Seq<MemberId>,
                RecoverableReplicaStatus,
            >(e),
        },
{
    match &route.atomic_group {
        None => {
            let mut members: Vec<PutAtomicGroupMember> = Vec::new();
            members.push(PutAtomicGroupMember { key: key.clone(), put_id: desc.put_id });
            assert(member_ids(members@) =~= seq![(key@, desc.put_id)]);
            Ok(members)
        },
        Some(group) => {
            if !group.has_member(key, desc.put_id) {
                return Err(RecoverableReplicaStatus::AtomicGroupIncomplete);
            }
            Ok(clone_members(&group.members))
        },
    }
}

/// The nodes that hold the members of a group from the `i`-th on and are among the common ones.
pub open spec fn group_nodes(
    owner: Seq<char>,
    members: Seq<MemberId>,
    routes: Routes,
    remote: Set<Seq<char>>,
    i: int,
    common: Option<Set<Seq<char>>>,
) -> RemoteNodes
    decreases members.len() - i,
{
    if i >= members.len() {
        match common {
            Some(c) => Ok(c),
            None => Err(RecoverableReplicaStatus::CpuRouteAbsent),
        }
    } else {
        let (key, put_id) = members[i];
        if !routes.contains_key(key) {
            Err(RecoverableReplicaStatus::RouteAbsent)
        } else {
            let route = routes[key];
            if route.put_id != put_id || route.lease_id is Some || route.group() != Some(members) {
                Err(RecoverableReplicaStatus::AtomicGroupIncomplete)
            } else {
                match intersect_nodes(common, route.live_remote(remote), owner) {
                    Err(e) => Err(e),
                    Ok(c) => group_nodes(owner, members, routes, remote, i + 1, Some(c)),
                }
            }
        }
    }
}

/// The nodes that hold the values of all given keys, where the keys are a whole group.
pub open spec fn valid_group(
    owner: Seq<char>,
    keys: Seq<Seq<char>>,
    put_ids: Option<Seq<PutIDForAKey>>,
    routes: Routes,
    remote: Set<Seq<char>>,
) -> RemoteNodes {
    if put_ids matches Some(ids) && ids.len() != keys.len() {
        Err(RecoverableReplicaStatus::AtomicGroupIncomplete)
    } else if keys.len() == 0 {
        Err(RecoverableReplicaStatus::AtomicGroupIncomplete)
    } else if !routes.contains_key(keys[0]) {
        Err(RecoverableReplicaStatus::RouteAbsent)
    } else {
        let first = routes[keys[0]];
        if keys.len() == 1 {
            if put_ids matches Some(ids) && first.put_id != ids[0] {
                Err(RecoverableReplicaStatus::VersionChanged)
            } else if first.lease_id is Some || first.atomic_group is Some {
                Err(RecoverableReplicaStatus::AtomicGroupIncomplete)
            } else {
                intersect_nodes(None, first.live_remote(remote), owner)
            }
        } else {
            match first.group() {
                None => Err(RecoverableReplicaStatus::AtomicGroupIncomplete),
                Some(members) => if member_keys(members) != keys || !(put_ids matches Some(ids)
                    ==> ids == Seq::new(members.len(), |i: int| members[i].1)) {
                    Err(RecoverableReplicaStatus::AtomicGroupIncomplete)
                } else {
                    group_nodes(owner, members, routes, remote, 0, None)
                },
            }
        }
    }
}

/// The identities of keys.
pub open spec fn key_views(keys: Seq<String>) -> Seq<Seq<char>> {
    Seq::new(keys.len(), |i: int| keys[i]@)
}

/// What an executable answer says.
pub open spec fn answer(r: Result<NameSet, RecoverableReplicaStatus>) -> RemoteNodes {
    match r {
        Ok(nodes) => Ok(nodes@),
        Err(e) => Err(e),
    }
}

/// Finds the nodes of the remote tier that hold the values of all given keys. `expected_put_ids`
/// names the versions, where they are known.
pub fn validate_recoverable_group(
    owner_node_id: &String,
    expected_keys: &Vec<String>,
    expected_put_ids: Option<&Vec<PutIDForAKey>>,
    routes: &KeyTable<OneKvNodesRoutes>,
    remote: &NameSet,
) -> (r: Result<NameSet, RecoverableReplicaStatus>)
    requires
        routes.wf(),
        routes_wf(routes@),
    ensures
        answer(r) == valid_group(
            owner_node_id@,
            key_views(expected_keys@),
            match expected_put_ids {
                Some(ids) => Some(ids@),
                None => None,
            },
            routes@,
            remote@,
        ),
{
    let ghost keys = key_views(expected_keys@);
    match expected_put_ids {
        Some(ids) => {
            if ids.len() != expected_keys.len() {
                return Err(RecoverableReplicaStatus::AtomicGroupIncomplete);
            }
        },
        None => {},
    }
    if expected_keys.len() == 0 {
        return Err(RecoverableReplicaStatus::AtomicGroupIncomplete);
    }
    assert(keys[0] == expected_keys@[0]@);
    let first_route = match routes.get(expected_keys[0].as_str()) {
        Some(route) => route,
        None => {
            return Err(RecoverableReplicaStatus::RouteAbsent);
        },
    };
    if expected_keys.len() == 1 {
        match expected_put_ids {
            Some(ids) => {
                let want = ids[0];
                if first_route.put_id.0 != want.0 || first_route.put_id.1 != want.1 {
                    return Err(RecoverableReplicaStatus::VersionChanged);
                }
            },
            None => {},
        }
        if first_route.lease_id.is_some() || first_route.atomic_group.is_some() {
            return Err(RecoverableReplicaStatus::AtomicGroupIncomplete);
        }
        return intersect_remote_nodes(
            None,
            first_route.live_remote_cache_nodes(remote),
            owner_node_id,
        );
    }
    let group = match &first_route.atomic_group {
        Some(group) => group,
        None => {
            return Err(RecoverableReplicaStatus::AtomicGroupIncomplete);
        },
    };
    if !lists_members(group, expected_keys, expected_put_ids) {
        return Err(RecoverableReplicaStatus::AtomicGroupIncomplete);
    }
    group_remote_nodes(owner_node_id, first_route, routes, remote)
}

/// Whether the keys, and the versions where they are given, are those of the group.
fn lists_members(
    group: &PutAtomicGroup,
    expected_keys: &Vec<String>,
    expected_put_ids: Option<&Vec<PutIDForAKey>>,
) -> (r: bool)
    requires
        expected_put_ids matches Some(ids) ==> ids@.len() == expected_keys@.len(),
    ensures
        r == (member_keys(group@) == key_views(expected_keys@) && (expected_put_ids matches Some(ids)
            ==> ids@ == Seq::new(group@.len(), |i: int| group@[i].1))),
{
    let ghost keys = key_views(expected_keys@);
    let ghost members = group@;
    let ghost versions = Seq::new(members.len(), |i: int| members[i].1);
    if group.members.len() != expected_keys.len() {
        assert(member_keys(members).len() != keys.len());
        return false;
    }
    let mut i: usize = 0;
    while i < group.members.len()
        invariant
            i <= group.members@.len() == expected_keys@.len(),
            members == group@,
            keys == key_views(expected_keys@),
            versions == Seq::new(members.len(), |i: int| members[i].1),
            expected_put_ids matches Some(ids) ==> ids@.len() == expected_keys@.len(),
            forall|j: int| 0 <= j < i ==> #[trigger] member_keys(members)[j] == keys[j],
            expected_put_ids matches Some(ids) ==> forall|j: int|
                0 <= j < i ==> #[trigger] ids@[j] == versions[j],
        decreases group.members@.len() - i,
    {
        if group.members[i].key != expected_keys[i] {
            assert(member_keys(members)[i as int] != keys[i as int]);
            return false;
        }
        match expected_put_ids {
            Some(ids) => {
                let want = ids[i];
                if group.members[i].put_id.0 != want.0 || group.members[i].put_id.1 != want.1 {
                    assert(versions[i as int] != ids@[i as int]);
                    return false;
                }
            },
            None => {},
        }
        i += 1;
    }
    proof {
        assert(member_keys(members) =~= keys);
        match expected_put_ids {
            Some(ids) => {
                assert(ids@ =~= versions);
            },
            None => {},
        }
    }
    true
}

/// Finds the nodes that hold all members of the group of a route.
fn group_remote_nodes(
    owner_node_id: &String,
    first_route: &OneKvNodesRoutes,
    routes: &KeyTable<OneKvNodesRoutes>,
    remote: &NameSet,
) -> (r: Result<NameSet, RecoverableReplicaStatus>)
    requires
        routes.wf(),
        routes_wf(routes@),
        first_route.atomic_group is Some,
    ensures
        answer(r) == group_nodes(
            owner_node_id@,
            first_route.group()->Some_0,
            routes@,
            remote@,
            0,
            None,
        ),
{
    let group = match &first_route.atomic_group {
        Some(group) => group,
        None => {
            return Err(RecoverableReplicaStatus::AtomicGroupIncomplete);
        },
    };
    let ghost members = group@;
    let mut common: Option<NameSet> = None;
    let mut i: usize = 0;
    while i < group.members.len()
        invariant
            routes.wf(),
            routes_wf(routes@),
            members == group@,
            first_route.group() == Some(members),
            i <= group.members@.len(),
            group_nodes(owner_node_id@, members, routes@, remote@, 0, None) == group_nodes(
                owner_node_id@,
                members,
                routes@,
                remote@,
                i as int,
                match common {
                    Some(c) => Some(c@),
                    None => None,
                },
            ),
        decreases group.members@.len() - i,
    {
        let member = &group.members[i];
        assert(members[i as int] == (member.key@, member.put_id));
        let route = match routes.get(member.key.as_str()) {
            Some(route) => route,
            None => {
                return Err(RecoverableReplicaStatus::RouteAbsent);
            },
        };
        let same_group = match &route.atomic_group {
            Some(other) => other.same(group),
            None => false,
        };
        if route.put_id.0 != member.put_id.0 || route.put_id.1 != member.put_id.1
            || route.lease_id.is_some() || !same_group {
            return Err(RecoverableReplicaStatus::AtomicGroupIncomplete);
        }
        match intersect_remote_nodes(
            common,
            route.live_remote_cache_nodes(remote),
            owner_node_id,
        ) {
            Ok(nodes) => {
                common = Some(nodes);
            },
            Err(e) => {
                return Err(e);
            },
        }
        i += 1;
    }
    match common {
        Some(nodes) => Ok(nodes),
        None => Err(RecoverableReplicaStatus::CpuRouteAbsent),
    }
}

/// The nodes that hold the members that belong with a key.
pub open spec fn valid_current_group(
    owner: Seq<char>,
    route: OneKvNodesRoutes,
    members: Seq<MemberId>,
    routes: Routes,
    remote: Set<Seq<char>>,
) -> RemoteNodes {
    if members.len() == 1 {
        intersect_nodes(None, route.live_remote(remote), owner)
    } else {
        valid_group(
            owner,
            member_keys(members),
            Some(Seq::new(members.len(), |i: int| members[i].1)),
            routes,
            remote,
        )
    }
}

/// Finds the nodes of the remote tier that hold the members that belong with a key.
pub fn validate_current_recoverable_group(
    owner_node_id: &String,
    route: &OneKvNodesRoutes,
    current_members: &Vec<PutAtomicGroupMember>,
    routes: &KeyTable<OneKvNodesRoutes>,
    remote: &NameSet,
) -> (r: Result<NameSet, RecoverableReplicaStatus>)
    requires
        route.wf(),
        routes.wf(),
        routes_wf(routes@),
    ensures
        answer(r) == valid_current_group(
            owner_node_id@,
            *route,
            member_ids(current_members@),
            routes@,
            remote@,
        ),
{
    if current_members.len() == 1 {
        return intersect_remote_nodes(None, route.live_remote_cache_nodes(remote), owner_node_id);
    }
    let mut keys: Vec<String> = Vec::new();
    let mut put_ids: Vec<PutIDForAKey> = Vec::new();
    let mut i: usize = 0;
    while i < current_members.len()
        invariant
            i <= current_members@.len(),
            keys@.len() == i,
            put_ids@.len() == i,
            forall|j: int| 0 <= j < i ==> (#[trigger] keys@[j])@ == current_members@[j].key@,
            forall|j: int| 0 <= j < i ==> #[trigger] put_ids@[j] == current_members@[j].put_id,
        decreases current_members@.len() - i,
    {
        keys.push(current_members[i].key.clone());
        put_ids.push(current_members[i].put_id);
        i += 1;
    }
    proof {
        let members = member_ids(current_members@);
        assert(key_views(keys@) =~= member_keys(members));
        assert(put_ids@ =~= Seq::new(members.len(), |i: int| members[i].1));
    }
    validate_recoverable_group(owner_node_id, &keys, Some(&put_ids), routes, remote)
}

/// The prefixes of members that are all of one rank of a cohort of one size.
pub open spec fn all_of_rank(
    members: Seq<MemberId>,
    prefixes: Seq<Seq<char>>,
    rank: nat,
    size: nat,
) -> bool {
    &&& prefixes.len() == members.len()
    &&& forall|i: int|
        0 <= i < members.len() ==> is_tp_key(
            (#[trigger] members[i]).0,
            prefixes[i],
            rank,
            size,
        )
}

/// The keys of one rank.
pub open spec fn rank_keys(prefixes: Seq<Seq<char>>, rank: nat, size: nat) -> Seq<Seq<char>> {
    Seq::new(prefixes.len(), |i: int| tp_key(prefixes[i], rank, size))
}

/// The nodes that hold one rank of the cohort of a key.
pub open spec fn rank_nodes(
    owner: Seq<char>,
    route: OneKvNodesRoutes,
    members: Seq<MemberId>,
    prefixes: Seq<Seq<char>>,
    own_rank: nat,
    rank: nat,
    size: nat,
    routes: Routes,
    remote: Set<Seq<char>>,
) -> RemoteNodes {
    if rank == own_rank {
        valid_current_group(owner, route, members, routes, remote)
    } else {
        valid_group(owner, rank_keys(prefixes, rank, size), None, routes, remote)
    }
}

/// One node holds the ranks from `rank` on, and is among the common ones.
pub open spec fn cohort_recoverable(
    owner: Seq<char>,
    route: OneKvNodesRoutes,
    members: Seq<MemberId>,
    prefixes: Seq<Seq<char>>,
    own_rank: nat,
    rank: nat,
    size: nat,
    routes: Routes,
    remote: Set<Seq<char>>,
    common: Option<Set<Seq<char>>>,
) -> bool
    decreases size - rank,
{
    if rank >= size {
        common matches Some(c) && c != Set::<Seq<char>>::empty()
    } else {
        match rank_nodes(
            owner,
            route,
            members,
            prefixes,
            own_rank,
            rank,
            size,
            routes,
            remote,
        ) {
            Err(_) => false,
            Ok(nodes) => {
                let both = match common {
                    Some(c) => c.intersect(nodes),
                    None => nodes,
                };
                &&& both != Set::<Seq<char>>::empty()
                &&& cohort_recoverable(
                    owner,
                    route,
                    members,
                    prefixes,
                    own_rank,
                    (rank + 1) as nat,
                    size,
                    routes,
                    remote,
                    Some(both),
                )
            },
        }
    }
}

/// The status that an answer stands for.
pub open spec fn status_of(nodes: RemoteNodes) -> RecoverableReplicaStatus {
    match nodes {
        Ok(_) => RecoverableReplicaStatus::Recoverable,
        Err(e) => e,
    }
}

/// `status` tells whether the copy of a key on its owner can be brought back.
pub open spec fn has_status(
    owner: Seq<char>,
    key: Seq<char>,
    route: OneKvNodesRoutes,
    put_id: PutIDForAKey,
    routes: Routes,
    remote: Set<Seq<char>>,
    status: RecoverableReplicaStatus,
) -> bool {
    if route.put_id != put_id {
        status == RecoverableReplicaStatus::VersionChanged
    } else if route.lease_id is Some || !route.live_on(owner) {
        status == RecoverableReplicaStatus::RouteIneligible
    } else {
        match group_members(key, route, put_id) {
            Err(e) => status == e,
            Ok(members) => {
                &&& forall|prefix: Seq<char>, rank: nat, size: nat| #[trigger]
                    is_tp_key(key, prefix, rank, size) && size > 1 ==> status == if exists|
                        prefixes: Seq<Seq<char>>,
                    | #[trigger]
                        all_of_rank(members, prefixes, rank, size) && cohort_recoverable(
                            owner,
                            route,
                            members,
                            prefixes,
                            rank,
                            0,
                            size,
                            routes,
                            remote,
                            None,
                        ) {
                        RecoverableReplicaStatus::Recoverable
                    } else {
                        RecoverableReplicaStatus::TpCohortIncomplete
                    }
                &&& (forall|prefix: Seq<char>, rank: nat, size: nat| #[trigger]
                    is_tp_key(key, prefix, rank, size) ==> size == 1) ==> status == status_of(
                    valid_current_group(owner, route, members, routes, remote),
                )
            },
        }
    }
}

/// The prefixes of members, if all are of one rank of a cohort of one size.
fn logical_prefixes(members: &Vec<PutAtomicGroupMember>, rank: usize, size: usize) -> (r: Option<
    Vec<String>,
>)
    requires
        rank < size <= 256,
    ensures
        match r {
            Some(prefixes) => all_of_rank(
                member_ids(members@),
                key_views(prefixes@),
                rank as nat,
                size as nat,
            ),
            None => forall|prefixes: Seq<Seq<char>>|
                !#[trigger] all_of_rank(
                    member_ids(members@),
                    prefixes,
                    rank as nat,
                    size as nat,
                ),
        },
{
    let ghost ids = member_ids(members@);
    let mut prefixes: Vec<String> = Vec::new();
    let mut i: usize = 0;
    while i < members.len()
        invariant
            rank < size <= 256,
            ids == member_ids(members@),
            i <= members@.len(),
            prefixes@.len() == i,
            forall|j: int|
                0 <= j < i ==> is_tp_key(
                    (#[trigger] ids[j]).0,
                    prefixes@[j]@,
                    rank as nat,
                    size as nat,
                ),
        decreases members@.len() - i,
    {
        assert(ids[i as int].0 == members@[i as int].key@);
        let tp = infer_sglang_tp_key(members[i].key.as_str());
        match tp {
            Some(tp) => {
                if tp.rank != rank || tp.size != size {
                    proof {
                        assert forall|ps: Seq<Seq<char>>|
                            !#[trigger] all_of_rank(ids, ps, rank as nat, size as nat) by {
                            if all_of_rank(ids, ps, rank as nat, size as nat) {
                                assert(is_tp_key(
                                    ids[i as int].0,
                                    ps[i as int],
                                    rank as nat,
                                    size as nat,
                                ));
                                tp_key_parts_are_unique(
                                    ps[i as int],
                                    rank as nat,
                                    size as nat,
                                    tp.logical_prefix@,
                                    tp.rank as nat,
                                    tp.size as nat,
                                );
                            }
                        }
                    }
                    return None;
                }
                prefixes.push(tp.logical_prefix.to_owned());
            },
            None => {
                proof {
                    assert forall|ps: Seq<Seq<char>>|
                        !#[trigger] all_of_rank(ids, ps, rank as nat, size as nat) by {
                        if all_of_rank(ids, ps, rank as nat, size as nat) {
                            assert(is_tp_key(
                                ids[i as int].0,
                                ps[i as int],
                                rank as nat,
                                size as nat,
                            ));
                        }
                    }
                }
                return None;
            },
        }
        i += 1;
    }
    proof {
        let ps = key_views(prefixes@);
        assert forall|j: int| 0 <= j < ids.len() implies is_tp_key(
            (#[trigger] ids[j]).0,
            ps[j],
            rank as nat,
            size as nat,
        ) by {
            assert(ps[j] == prefixes@[j]@);
        }
    }
    Some(prefixes)
}

/// The keys of one rank.
fn format_rank_keys(prefixes: &Vec<String>, rank: usize, size: usize) -> (r: Vec<String>)
    ensures
        key_views(r@) == rank_keys(key_views(prefixes@), rank as nat, size as nat),
{
    let mut keys: Vec<String> = Vec::new();
    let mut i: usize = 0;
    while i < prefixes.len()
        invariant
            i <= prefixes@.len(),
            keys@.len() == i,
            forall|j: int|
                0 <= j < i ==> (#[trigger] keys@[j])@ == tp_key(
                    prefixes@[j]@,
                    rank as nat,
                    size as nat,
                ),
        decreases prefixes@.len() - i,
    {
        keys.push(format_tp_key(prefixes[i].as_str(), rank, size));
        i += 1;
    }
    assert(key_views(keys@) =~= rank_keys(key_views(prefixes@), rank as nat, size as nat));
    keys
}

/// Prefixes that fit are the only ones.
pub proof fn lemma_prefixes_unique(
    members: Seq<MemberId>,
    a: Seq<Seq<char>>,
    b: Seq<Seq<char>>,
    rank: nat,
    size: nat,
)
    requires
        all_of_rank(members, a, rank, size),
        all_of_rank(members, b, rank, size),
    ensures
        a == b,
{
    assert forall|i: int| 0 <= i < a.len() implies a[i] == b[i] by {
        assert(is_tp_key(members[i].0, a[i], rank, size));
        assert(is_tp_key(members[i].0, b[i], rank, size));
        tp_key_parts_are_unique(a[i], rank, size, b[i], rank, size);
    }
    assert(a =~= b);
}

/// Tells whether the copy of a key on its owner can be brought back from the remote tier. `remote`
/// holds the nodes of that tier.
pub fn route_recoverable_replica_status_with(
    owner_node_id: &String,
    key: &String,
    route: &OneKvNodesRoutes,
    desc: &NodeValueReplicaDesc,
    routes: &KeyTable<OneKvNodesRoutes>,
    remote: &NameSet,
) -> (r: RecoverableReplicaStatus)
    requires
        route.wf(),
        routes.wf(),
        routes_wf(routes@),
    ensures
        has_status(owner_node_id@, key@, *route, desc.put_id, routes@, remote@, r),
{
    if route.put_id.0 != desc.put_id.0 || route.put_id.1 != desc.put_id.1 {
        return RecoverableReplicaStatus::VersionChanged;
    }
    if route.lease_id.is_some() || !route.has_live_replica_on_node(owner_node_id) {
        return RecoverableReplicaStatus::RouteIneligible;
    }
    let current_members = match current_atomic_group_members(key, route, desc) {
        Ok(members) => members,
        Err(status) => {
            return status;
        },
    };
    let ghost members = member_ids(current_members@);
    let tp = infer_sglang_tp_key(key.as_str());
    let plain = match tp {
        None => true,
        Some(tp) => tp.size == 1,
    };
    proof {
        match tp {
            Some(tp) => {
                assert forall|prefix: Seq<char>, rank: nat, size: nat| #[trigger]
                    is_tp_key(key@, prefix, rank, size) implies rank == tp.rank && size
                    == tp.size by {
                    tp_key_parts_are_unique(
                        prefix,
                        rank,
                        size,
                        tp.logical_prefix@,
                        tp.rank as nat,
                        tp.size as nat,
                    );
                }
            },
            None => {},
        }
    }
    if plain {
        return match validate_current_recoverable_group(
            owner_node_id,
            route,
            &current_members,
            routes,
            remote,
        ) {
            Ok(_) => RecoverableReplicaStatus::Recoverable,
            Err(status) => status,
        };
    }
    let (own_rank, size) = match tp {
        Some(tp) => (tp.rank, tp.size),
        None => (0, 1),
    };
    let prefixes = match logical_prefixes(&current_members, own_rank, size) {
        Some(prefixes) => prefixes,
        None => {
            return RecoverableReplicaStatus::TpCohortIncomplete;
        },
    };
    let ghost ps = key_views(prefixes@);
    proof {
        assert(all_of_rank(members, ps, own_rank as nat, size as nat));
        assert forall|q: Seq<Seq<char>>| #[trigger]
            all_of_rank(members, q, own_rank as nat, size as nat) implies q == ps by {
            lemma_prefixes_unique(members, q, ps, own_rank as nat, size as nat);
        }
        assert(is_tp_key(key@, tp->Some_0.logical_prefix@, own_rank as nat, size as nat));
    }
    if cohort_is_recoverable(
        owner_node_id,
        route,
        &current_members,
        &prefixes,
        own_rank,
        size,
        routes,
        remote,
    ) {
        RecoverableReplicaStatus::Recoverable
    } else {
        RecoverableReplicaStatus::TpCohortIncomplete
    }
}

/// Whether one node of the remote tier holds all ranks of a cohort.
fn cohort_is_recoverable(
    owner_node_id: &String,
    route: &OneKvNodesRoutes,
    members: &Vec<PutAtomicGroupMember>,
    prefixes: &Vec<String>,
    own_rank: usize,
    size: usize,
    routes: &KeyTable<OneKvNodesRoutes>,
    remote: &NameSet,
) -> (r: bool)
    requires
        route.wf(),
        routes.wf(),
        routes_wf(routes@),
    ensures
        r == cohort_recoverable(
            owner_node_id@,
            *route,
            member_ids(members@),
            key_views(prefixes@),
            own_rank as nat,
            0,
            size as nat,
            routes@,
            remote@,
            None,
        ),
{
    let mut common: Option<NameSet> = None;
    let mut rank: usize = 0;
    while rank < size
        invariant
            route.wf(),
            routes.wf(),
            routes_wf(routes@),
            rank <= size,
            cohort_recoverable(
                owner_node_id@,
                *route,
                member_ids(members@),
                key_views(prefixes@),
                own_rank as nat,
                0,
                size as nat,
                routes@,
                remote@,
                None,
            ) == cohort_recoverable(
                owner_node_id@,
                *route,
                member_ids(members@),
                key_views(prefixes@),
                own_rank as nat,
                rank as nat,
                size as nat,
                routes@,
                remote@,
                match common {
                    Some(c) => Some(c@),
                    None => None,
                },
            ),
        decreases size - rank,
    {
        let result = if rank == own_rank {
            validate_current_recoverable_group(owner_node_id, route, members, routes, remote)
        } else {
            let keys = format_rank_keys(prefixes, rank, size);
            validate_recoverable_group(owner_node_id, &keys, None, routes, remote)
        };
        let nodes = match result {
            Ok(nodes) => nodes,
            Err(_) => {
                return false;
            },
        };
        let both = match common {
            Some(c) => c.intersect(&nodes),
            None => nodes,
        };
        if both.is_empty() {
            return false;
        }
        common = Some(both);
        rank += 1;
    }
    match common {
        Some(nodes) => !nodes.is_empty(),
        None => false,
    }
}

/// A copy has one status only.
pub proof fn status_is_unique(
    owner: Seq<char>,
    key: Seq<char>,
    route: OneKvNodesRoutes,
    put_id: PutIDForAKey,
    routes: Routes,
    remote: Set<Seq<char>>,
    a: RecoverableReplicaStatus,
    b: RecoverableReplicaStatus,
)
    requires
        has_status(owner, key, route, put_id, routes, remote, a),
        has_status(owner, key, route, put_id, routes, remote, b),
    ensures
        a == b,
{
    if exists|prefix: Seq<char>, rank: nat, size: nat| #[trigger]
        is_tp_key(key, prefix, rank, size) && size > 1 {
        let (prefix, rank, size) = choose|prefix: Seq<char>, rank: nat, size: nat| #[trigger]
            is_tp_key(key, prefix, rank, size) && size > 1;
        assert(is_tp_key(key, prefix, rank, size));
    } else {
        assert forall|prefix: Seq<char>, rank: nat, size: nat| #[trigger]
            is_tp_key(key, prefix, rank, size) implies size == 1 by {}
    }
}

/// Whether the copy of a key on its owner can be brought back.
pub fn route_has_recoverable_replica_with(
    owner_node_id: &String,
    key: &String,
    route: &OneKvNodesRoutes,
    desc: &NodeValueReplicaDesc,
    routes: &KeyTable<OneKvNodesRoutes>,
    remote: &NameSet,
) -> (r: bool)
    requires
        route.wf(),
        routes.wf(),
        routes_wf(routes@),
    ensures
        r == has_status(
            owner_node_id@,
            key@,
            *route,
            desc.put_id,
            routes@,
            remote@,
            RecoverableReplicaStatus::Recoverable,
        ),
{
    let status = route_recoverable_replica_status_with(
        owner_node_id,
        key,
        route,
        desc,
        routes,
        remote,
    );
    proof {
        if has_status(
            owner_node_id@,
            key@,
            *route,
            desc.put_id,
            routes@,
            remote@,
            RecoverableReplicaStatus::Recoverable,
        ) {
            status_is_unique(
                owner_node_id@,
                key@,
                *route,
                desc.put_id,
                routes@,
                remote@,
                status,
                RecoverableReplicaStatus::Recoverable,
            );
        }
    }
    matches!(status, RecoverableReplicaStatus::Recoverable)
}

/// The remote node has an unleased copy of the key that is alive.
pub open spec fn held_by(
    routes: Routes,
    remote: Set<Seq<char>>,
    owner: Seq<char>,
    node: Seq<char>,
    key: Seq<char>,
) -> bool {
    &&& node != owner
    &&& remote.contains(node)
    &&& routes.contains_key(key)
    &&& routes[key].live_on(node)
    &&& routes[key].lease_id is None
}

/// The remote node has all of the keys.
pub open spec fn all_held_by(
    routes: Routes,
    remote: Set<Seq<char>>,
    owner: Seq<char>,
    node: Seq<char>,
    keys: Seq<Seq<char>>,
) -> bool {
    forall|i: int|
        0 <= i < keys.len() ==> held_by(routes, remote, owner, node, #[trigger] keys[i])
}

proof fn lemma_intersect(
    common: Option<Set<Seq<char>>>,
    member: Set<Seq<char>>,
    owner: Seq<char>,
    c: Set<Seq<char>>,
)
    requires
        intersect_nodes(common, member, owner) == Ok::<Set<Seq<char>>, RecoverableReplicaStatus>(c),
    ensures
        c != Set::<Seq<char>>::empty(),
        forall|n: Seq<char>| #[trigger]
            c.contains(n) ==> n != owner && member.contains(n) && (common matches Some(b)
                ==> b.contains(n)),
{
}

proof fn lemma_group_nodes(
    owner: Seq<char>,
    members: Seq<MemberId>,
    routes: Routes,
    remote: Set<Seq<char>>,
    i: int,
    common: Option<Set<Seq<char>>>,
    c: Set<Seq<char>>,
)
    requires
        0 <= i <= members.len(),
        group_nodes(owner, members, routes, remote, i, common) == Ok::<
            Set<Seq<char>>,
            RecoverableReplicaStatus,
        >(c),
        common matches Some(b) ==> b != Set::<Seq<char>>::empty(),
    ensures
        c != Set::<Seq<char>>::empty(),
        forall|n: Seq<char>| #[trigger]
            c.contains(n) ==> {
                &&& common matches Some(b) ==> b.contains(n)
                &&& forall|j: int|
                    i <= j < members.len() ==> held_by(
                        routes,
                        remote,
                        owner,
                        n,
                        (#[trigger] members[j]).0,
                    )
            },
    decreases members.len() - i,
{
    if i < members.len() {
        let route = routes[members[i].0];
        let next = intersect_nodes(common, route.live_remote(remote), owner);
        let b = next->Ok_0;
        lemma_intersect(common, route.live_remote(remote), owner, b);
        lemma_group_nodes(owner, members, routes, remote, i + 1, Some(b), c);
        assert forall|n: Seq<char>| #[trigger] c.contains(n) implies {
            &&& common matches Some(b) ==> b.contains(n)
            &&& forall|j: int|
                i <= j < members.len() ==> held_by(
                    routes,
                    remote,
                    owner,
                    n,
                    (#[trigger] members[j]).0,
                )
        } by {
            assert(b.contains(n));
            assert(route.live_remote(remote).contains(n));
        }
    }
}

proof fn lemma_valid_group(
    owner: Seq<char>,
    keys: Seq<Seq<char>>,
    put_ids: Option<Seq<PutIDForAKey>>,
    routes: Routes,
    remote: Set<Seq<char>>,
    c: Set<Seq<char>>,
)
    requires
        valid_group(owner, keys, put_ids, routes, remote) == Ok::<
            Set<Seq<char>>,
            RecoverableReplicaStatus,
        >(c),
    ensures
        c != Set::<Seq<char>>::empty(),
        forall|n: Seq<char>| #[trigger]
            c.contains(n) ==> all_held_by(routes, remote, owner, n, keys),
{
    let first = routes[keys[0]];
    if keys.len() == 1 {
        lemma_intersect(None, first.live_remote(remote), owner, c);
        assert forall|n: Seq<char>| #[trigger] c.contains(n) implies all_held_by(
            routes,
            remote,
            owner,
            n,
            keys,
        ) by {
            assert(first.live_remote(remote).contains(n));
        }
    } else {
        let members = first.group()->Some_0;
        lemma_group_nodes(owner, members, routes, remote, 0, None, c);
        assert forall|n: Seq<char>| #[trigger] c.contains(n) implies all_held_by(
            routes,
            remote,
            owner,
            n,
            keys,
        ) by {
            assert forall|i: int| 0 <= i < keys.len() implies held_by(
                routes,
                remote,
                owner,
                n,
                #[trigger] keys[i],
            ) by {
                assert(member_keys(members)[i] == members[i].0);
            }
        }
    }
}

/// A group that cannot be brought back is not called recoverable.
proof fn lemma_group_refusals(
    owner: Seq<char>,
    keys: Seq<Seq<char>>,
    put_ids: Option<Seq<PutIDForAKey>>,
    routes: Routes,
    remote: Set<Seq<char>>,
)
    ensures
        valid_group(owner, keys, put_ids, routes, remote) != Err::<
            Set<Seq<char>>,
            RecoverableReplicaStatus,
        >(RecoverableReplicaStatus::Recoverable),
{
    if keys.len() > 1 && routes.contains_key(keys[0]) {
        match routes[keys[0]].group() {
            Some(members) => lemma_nodes_refusals(owner, members, routes, remote, 0, None),
            None => {},
        }
    }
}

proof fn lemma_nodes_refusals(
    owner: Seq<char>,
    members: Seq<MemberId>,
    routes: Routes,
    remote: Set<Seq<char>>,
    i: int,
    common: Option<Set<Seq<char>>>,
)
    requires
        0 <= i,
    ensures
        group_nodes(owner, members, routes, remote, i, common) != Err::<
            Set<Seq<char>>,
            RecoverableReplicaStatus,
        >(RecoverableReplicaStatus::Recoverable),
    decreases members.len() - i,
{
    if i < members.len() {
        match intersect_nodes(common, routes[members[i].0].live_remote(remote), owner) {
            Ok(c) => lemma_nodes_refusals(owner, members, routes, remote, i + 1, Some(c)),
            Err(_) => {},
        }
    }
}

proof fn lemma_valid_current_group(
    owner: Seq<char>,
    key: Seq<char>,
    put_id: PutIDForAKey,
    route: OneKvNodesRoutes,
    members: Seq<MemberId>,
    routes: Routes,
    remote: Set<Seq<char>>,
    c: Set<Seq<char>>,
)
    requires
        valid_current_group(owner, route, members, routes, remote) == Ok::<
            Set<Seq<char>>,
            RecoverableReplicaStatus,
        >(c),
        group_members(key, route, put_id) == Ok::<Seq<MemberId>, RecoverableReplicaStatus>(members),
        routes.contains_key(key),
        routes[key] == route,
        route.lease_id is None,
    ensures
        c != Set::<Seq<char>>::empty(),
        forall|n: Seq<char>| #[trigger]
            c.contains(n) ==> all_held_by(routes, remote, owner, n, member_keys(members)),
{
    if members.len() == 1 {
        lemma_intersect(None, route.live_remote(remote), owner, c);
        assert(members[0].0 == key) by {
            assert(members.contains((key, put_id)));
        }
        assert forall|n: Seq<char>| #[trigger] c.contains(n) implies all_held_by(
            routes,
            remote,
            owner,
            n,
            member_keys(members),
        ) by {
            assert(route.live_remote(remote).contains(n));
        }
    } else {
        lemma_valid_group(
            owner,
            member_keys(members),
            Some(Seq::new(members.len(), |i: int| members[i].1)),
            routes,
            remote,
            c,
        );
    }
}

/// The remote node has the ranks of a cohort from `rank` on.
pub open spec fn ranks_held_by(
    routes: Routes,
    remote: Set<Seq<char>>,
    owner: Seq<char>,
    node: Seq<char>,
    prefixes: Seq<Seq<char>>,
    rank: nat,
    size: nat,
) -> bool {
    forall|r: nat|
        rank <= r < size ==> all_held_by(
            routes,
            remote,
            owner,
            node,
            #[trigger] rank_keys(prefixes, r, size),
        )
}

proof fn lemma_cohort(
    owner: Seq<char>,
    key: Seq<char>,
    put_id: PutIDForAKey,
    route: OneKvNodesRoutes,
    members: Seq<MemberId>,
    prefixes: Seq<Seq<char>>,
    own_rank: nat,
    rank: nat,
    size: nat,
    routes: Routes,
    remote: Set<Seq<char>>,
    common: Option<Set<Seq<char>>>,
) -> (n: Seq<char>)
    requires
        rank <= size,
        own_rank < size,
        all_of_rank(members, prefixes, own_rank, size),
        cohort_recoverable(
            owner,
            route,
            members,
            prefixes,
            own_rank,
            rank,
            size,
            routes,
            remote,
            common,
        ),
        group_members(key, route, put_id) == Ok::<Seq<MemberId>, RecoverableReplicaStatus>(members),
        routes.contains_key(key),
        routes[key] == route,
        route.lease_id is None,
    ensures
        common matches Some(b) ==> b.contains(n),
        ranks_held_by(routes, remote, owner, n, prefixes, rank, size),
    decreases size - rank,
{
    if rank >= size {
        let c = common->Some_0;
        let n = choose|n: Seq<char>| c.contains(n);
        assert(exists|n: Seq<char>| c.contains(n)) by {
            if !exists|n: Seq<char>| c.contains(n) {
                assert(c =~= Set::<Seq<char>>::empty());
            }
        }
        n
    } else {
        let nodes = rank_nodes(
            owner,
            route,
            members,
            prefixes,
            own_rank,
            rank,
            size,
            routes,
            remote,
        )->Ok_0;
        if rank == own_rank {
            lemma_valid_current_group(
                owner,
                key,
                put_id,
                route,
                members,
                routes,
                remote,
                nodes,
            );
            assert(member_keys(members) =~= rank_keys(prefixes, rank, size)) by {
                assert forall|i: int| 0 <= i < members.len() implies member_keys(members)[i]
                    == rank_keys(prefixes, rank, size)[i] by {
                    assert(is_tp_key(members[i].0, prefixes[i], own_rank, size));
                }
            }
        } else {
            lemma_valid_group(
                owner,
                rank_keys(prefixes, rank, size),
                None,
                routes,
                remote,
                nodes,
            );
        }
        let both = match common {
            Some(c) => c.intersect(nodes),
            None => nodes,
        };
        let n = lemma_cohort(
            owner,
            key,
            put_id,
            route,
            members,
            prefixes,
            own_rank,
            (rank + 1) as nat,
            size,
            routes,
            remote,
            Some(both),
        );
        assert(nodes.contains(n));
        assert forall|r: nat| rank <= r < size implies all_held_by(
            routes,
            remote,
            owner,
            n,
            #[trigger] rank_keys(prefixes, r, size),
        ) by {
            if r > rank {
                assert(rank + 1 <= r);
            }
        }
        n
    }
}

/// A copy counts as recoverable only if one node of the remote tier, other than the owner, has a
/// live unleased copy of every key that was put together with it.
pub proof fn recoverable_group_is_on_one_remote_node(
    owner: Seq<char>,
    key: Seq<char>,
    put_id: PutIDForAKey,
    routes: Routes,
    remote: Set<Seq<char>>,
)
    requires
        routes.contains_key(key),
        has_status(
            owner,
            key,
            routes[key],
            put_id,
            routes,
            remote,
            RecoverableReplicaStatus::Recoverable,
        ),
    ensures
        routes[key].put_id == put_id,
        routes[key].live_on(owner),
        group_members(key, routes[key], put_id) is Ok,
        exists|n: Seq<char>| #[trigger]
            all_held_by(
                routes,
                remote,
                owner,
                n,
                member_keys(group_members(key, routes[key], put_id)->Ok_0),
            ),
{
    let route = routes[key];
    let members = group_members(key, route, put_id)->Ok_0;
    if exists|prefix: Seq<char>, rank: nat, size: nat| #[trigger]
        is_tp_key(key, prefix, rank, size) && size > 1 {
        let (prefix, rank, size) = choose|prefix: Seq<char>, rank: nat, size: nat| #[trigger]
            is_tp_key(key, prefix, rank, size) && size > 1;
        recoverable_cohort_is_on_one_remote_node(
            owner,
            key,
            put_id,
            routes,
            remote,
            prefix,
            rank,
            size,
        );
        let prefixes = choose|prefixes: Seq<Seq<char>>| #[trigger]
            all_of_rank(members, prefixes, rank, size);
        let n = choose|n: Seq<char>| #[trigger]
            ranks_held_by(routes, remote, owner, n, prefixes, 0, size);
        assert(all_held_by(routes, remote, owner, n, rank_keys(prefixes, rank, size)));
        assert(member_keys(members) =~= rank_keys(prefixes, rank, size)) by {
            assert forall|i: int| 0 <= i < members.len() implies member_keys(members)[i]
                == rank_keys(prefixes, rank, size)[i] by {
                assert(is_tp_key(members[i].0, prefixes[i], rank, size));
            }
        }
    } else {
        assert forall|prefix: Seq<char>, rank: nat, size: nat| #[trigger]
            is_tp_key(key, prefix, rank, size) implies size == 1 by {}
        lemma_group_refusals(
            owner,
            member_keys(members),
            Some(Seq::new(members.len(), |i: int| members[i].1)),
            routes,
            remote,
        );
        let c = valid_current_group(owner, route, members, routes, remote)->Ok_0;
        lemma_valid_current_group(owner, key, put_id, route, members, routes, remote, c);
        assert(exists|n: Seq<char>| c.contains(n)) by {
            if !exists|n: Seq<char>| c.contains(n) {
                assert(c =~= Set::<Seq<char>>::empty());
            }
        }
        let n = choose|n: Seq<char>| c.contains(n);
        assert(all_held_by(routes, remote, owner, n, member_keys(members)));
    }
}

/// A copy whose key names a rank of a cohort counts as recoverable only if one node of the remote
/// tier, other than the owner, has a live unleased copy of every rank.
pub proof fn recoverable_cohort_is_on_one_remote_node(
    owner: Seq<char>,
    key: Seq<char>,
    put_id: PutIDForAKey,
    routes: Routes,
    remote: Set<Seq<char>>,
    prefix: Seq<char>,
    rank: nat,
    size: nat,
)
    requires
        routes.contains_key(key),
        is_tp_key(key, prefix, rank, size),
        size > 1,
        has_status(
            owner,
            key,
            routes[key],
            put_id,
            routes,
            remote,
            RecoverableReplicaStatus::Recoverable,
        ),
    ensures
        group_members(key, routes[key], put_id) is Ok,
        exists|prefixes: Seq<Seq<char>>| #[trigger]
            all_of_rank(
                group_members(key, routes[key], put_id)->Ok_0,
                prefixes,
                rank,
                size,
            ),
        forall|prefixes: Seq<Seq<char>>| #[trigger]
            all_of_rank(
                group_members(key, routes[key], put_id)->Ok_0,
                prefixes,
                rank,
                size,
            ) ==> exists|n: Seq<char>| #[trigger]
                ranks_held_by(routes, remote, owner, n, prefixes, 0, size),
{
    let route = routes[key];
    let members = group_members(key, route, put_id)->Ok_0;
    let good = choose|prefixes: Seq<Seq<char>>| #[trigger]
        all_of_rank(members, prefixes, rank, size) && cohort_recoverable(
            owner,
            route,
            members,
            prefixes,
            rank,
            0,
            size,
            routes,
            remote,
            None,
        );
    assert(all_of_rank(members, good, rank, size));
    let n = lemma_cohort(
        owner,
        key,
        put_id,
        route,
        members,
        good,
        rank,
        0,
        size,
        routes,
        remote,
        None,
    );
    assert forall|prefixes: Seq<Seq<char>>| #[trigger]
        all_of_rank(members, prefixes, rank, size) implies exists|n: Seq<char>| #[trigger]
        ranks_held_by(routes, remote, owner, n, prefixes, 0, size) by {
        lemma_prefixes_unique(members, prefixes, good, rank, size);
        assert(ranks_held_by(routes, remote, owner, n, prefixes, 0, size));
    }
}

/// The keys that must all be there for one of them to be useful, rank by rank.
pub open spec fn cohort_keys(prefixes: Seq<Seq<char>>, ranks: nat, size: nat) -> Seq<Seq<char>>
    decreases ranks,
{
    if ranks == 0 {
        Seq::empty()
    } else {
        cohort_keys(prefixes, (ranks - 1) as nat, size) + rank_keys(
            prefixes,
            (ranks - 1) as nat,
            size,
        )
    }
}

/// A key that names no rank of a larger cohort is listed with its group.
pub open spec fn listed_as_group(
    key: Seq<char>,
    members: Seq<MemberId>,
    r: Result<Vec<String>, RecoverableReplicaStatus>,
) -> bool {
    (forall|prefix: Seq<char>, rank: nat, size: nat| #[trigger]
        is_tp_key(key, prefix, rank, size) ==> size == 1) ==> (r matches Ok(keys) && key_views(
        keys@,
    ) == member_keys(members))
}

/// A key that names a rank of a larger cohort is listed with all ranks of the members of its group,
/// if those are all of the same rank.
pub open spec fn listed_as_cohort(
    key: Seq<char>,
    members: Seq<MemberId>,
    r: Result<Vec<String>, RecoverableReplicaStatus>,
) -> bool {
    forall|prefix: Seq<char>, rank: nat, size: nat| #[trigger]
        is_tp_key(key, prefix, rank, size) && size > 1 ==> match r {
            Ok(keys) => exists|prefixes: Seq<Seq<char>>| #[trigger]
                all_of_rank(members, prefixes, rank, size) && key_views(keys@) == cohort_keys(
                    prefixes,
                    size,
                    size,
                ),
            Err(e) => e == RecoverableReplicaStatus::TpCohortIncomplete && forall|
                prefixes: Seq<Seq<char>>,
            |
                !#[trigger] all_of_rank(members, prefixes, rank, size),
        }
}

/// Lists the keys of the group of a key, or of its cohort where the key names a rank.
pub fn current_tp_cohort_keys(
    key: &String,
    route: &OneKvNodesRoutes,
    desc: &NodeValueReplicaDesc,
) -> (r: Result<Vec<String>, RecoverableReplicaStatus>)
    ensures
        match group_members(key@, *route, desc.put_id) {
            Err(e) => r matches Err(x) && x == e,
            Ok(members) => listed_as_group(key@, members, r) && listed_as_cohort(key@, members, r),
        },
{
    let current_members = match current_atomic_group_members(key, route, desc) {
        Ok(members) => members,
        Err(status) => {
            return Err(status);
        },
    };
    let ghost members = member_ids(current_members@);
    let tp = infer_sglang_tp_key(key.as_str());
    proof {
        match tp {
            Some(tp) => {
                assert forall|prefix: Seq<char>, rank: nat, size: nat| #[trigger]
                    is_tp_key(key@, prefix, rank, size) implies rank == tp.rank && size
                    == tp.size by {
                    tp_key_parts_are_unique(
                        prefix,
                        rank,
                        size,
                        tp.logical_prefix@,
                        tp.rank as nat,
                        tp.size as nat,
                    );
                }
            },
            None => {},
        }
    }
    let (own_rank, size) = match tp {
        Some(tp) => (tp.rank, tp.size),
        None => (0, 1),
    };
    if size == 1 {
        let mut keys: Vec<String> = Vec::new();
        let mut i: usize = 0;
        while i < current_members.len()
            invariant
                i <= current_members@.len(),
                keys@.len() == i,
                forall|j: int| 0 <= j < i ==> (#[trigger] keys@[j])@ == current_members@[j].key@,
            decreases current_members@.len() - i,
        {
            keys.push(current_members[i].key.clone());
            i += 1;
        }
        assert(key_views(keys@) =~= member_keys(members));
        return Ok(keys);
    }
    proof {
        assert(is_tp_key(key@, tp->Some_0.logical_prefix@, own_rank as nat, size as nat));
    }
    let prefixes = match logical_prefixes(&current_members, own_rank, size) {
        Some(prefixes) => prefixes,
        None => {
            return Err(RecoverableReplicaStatus::TpCohortIncomplete);
        },
    };
    let ghost ps = key_views(prefixes@);
    let mut keys: Vec<String> = Vec::new();
    assert(key_views(keys@) =~= cohort_keys(ps, 0, size as nat));
    let mut rank: usize = 0;
    while rank < size
        invariant
            rank <= size,
            ps == key_views(prefixes@),
            key_views(keys@) == cohort_keys(ps, rank as nat, size as nat),
        decreases size - rank,
    {
        let ghost before = key_views(keys@);
        let mut peers = format_rank_keys(&prefixes, rank, size);
        let ghost more = key_views(peers@);
        keys.append(&mut peers);
        assert(key_views(keys@) =~= before + more);
        rank += 1;
    }
    assert(all_of_rank(members, ps, own_rank as nat, size as nat));
    let r = Ok(keys);
    assert(listed_as_cohort(key@, members, r));
    assert(listed_as_group(key@, members, r));
    r
}

/// The bytes of some entries together.
pub open spec fn weight_sum(entries: Seq<(NodeValueReplicaDesc, RecoverableReplicaStatus)>) -> int
    decreases entries.len(),
{
    if entries.len() == 0 {
        0
    } else {
        weight_sum(entries.drop_last()) + entries.last().0.weight_bytes
    }
}

/// The entry can be brought back.
pub open spec fn entry_recoverable(
    entry: (NodeValueReplicaDesc, RecoverableReplicaStatus),
) -> bool {
    entry.1 == RecoverableReplicaStatus::Recoverable
}

/// The bytes that dropping a whole cohort frees, if it may be dropped.
pub open spec fn cohort_weight(
    entries: Seq<(NodeValueReplicaDesc, RecoverableReplicaStatus)>,
) -> Option<u64> {
    if (forall|i: int| 0 <= i < entries.len() ==> entry_recoverable(#[trigger] entries[i])) && 0
        < weight_sum(entries) <= u64::MAX {
        Some(weight_sum(entries) as u64)
    } else {
        None
    }
}

/// A cohort is dropped only if each of its entries can be brought back, and frees the weight of all of them;
/// an entry that cannot be brought back keeps all the others.
pub proof fn one_entry_keeps_the_whole_cohort(
    entries: Seq<(NodeValueReplicaDesc, RecoverableReplicaStatus)>,
    more: (NodeValueReplicaDesc, RecoverableReplicaStatus),
    i: int,
)
    requires
        0 <= i < entries.len(),
    ensures
        entries[i].1 != RecoverableReplicaStatus::Recoverable ==> cohort_weight(entries) is None,
        more.1 != RecoverableReplicaStatus::Recoverable ==> cohort_weight(entries.push(more))
            is None,
        cohort_weight(entries) matches Some(w) ==> {
            &&& w > 0
            &&& w >= entries[i].0.weight_bytes
            &&& more.1 == RecoverableReplicaStatus::Recoverable && w + more.0.weight_bytes
                <= u64::MAX ==> cohort_weight(entries.push(more)) == Some(
                (w + more.0.weight_bytes) as u64,
            )
        },
        more.1 == RecoverableReplicaStatus::Recoverable && more.0.weight_bytes > 0
            ==> cohort_weight(seq![more]) == Some(more.0.weight_bytes as u64),
        cohort_weight(Seq::<(NodeValueReplicaDesc, RecoverableReplicaStatus)>::empty()) is None,
{
    let all = entries.push(more);
    assert(all.drop_last() =~= entries);
    assert(all[entries.len() as int] == more);
    lemma_entry_weighs_no_more(entries, i);
    if entries[i].1 != RecoverableReplicaStatus::Recoverable {
        assert(!entry_recoverable(entries[i]));
    }
    if more.1 != RecoverableReplicaStatus::Recoverable {
        assert(!entry_recoverable(all[entries.len() as int]));
    }
    if cohort_weight(entries) is Some && more.1 == RecoverableReplicaStatus::Recoverable {
        assert forall|j: int| 0 <= j < all.len() implies entry_recoverable(#[trigger] all[j]) by {
            if j < entries.len() {
                assert(entry_recoverable(entries[j]));
            }
        }
    }
    let none = Seq::<(NodeValueReplicaDesc, RecoverableReplicaStatus)>::empty();
    assert(seq![more].drop_last() =~= none);
    assert(weight_sum(none) == 0);
    assert(weight_sum(seq![more]) == more.0.weight_bytes);
}

proof fn lemma_entry_weighs_no_more(
    entries: Seq<(NodeValueReplicaDesc, RecoverableReplicaStatus)>,
    i: int,
)
    requires
        0 <= i < entries.len(),
    ensures
        entries[i].0.weight_bytes <= weight_sum(entries),
    decreases entries.len(),
{
    lemma_weight_nonnegative(entries.drop_last());
    if i < entries.len() - 1 {
        lemma_entry_weighs_no_more(entries.drop_last(), i);
    }
}

proof fn lemma_weight_nonnegative(entries: Seq<(NodeValueReplicaDesc, RecoverableReplicaStatus)>)
    ensures
        weight_sum(entries) >= 0,
    decreases entries.len(),
{
    if entries.len() > 0 {
        lemma_weight_nonnegative(entries.drop_last());
    }
}

/// The bytes that dropping a whole cohort frees: nothing unless every entry can be brought back.
pub fn recoverable_cohort_weight(
    entries: &Vec<(NodeValueReplicaDesc, RecoverableReplicaStatus)>,
) -> (r: Option<u64>)
    ensures
        r == cohort_weight(entries@),
{
    let mut expected_weight: u64 = 0;
    let mut i: usize = 0;
    assert(entries@.take(0) =~= Seq::empty());
    while i < entries.len()
        invariant
            i <= entries@.len(),
            expected_weight == weight_sum(entries@.take(i as int)),
            forall|j: int| 0 <= j < i ==> entry_recoverable(#[trigger] entries@[j]),
        decreases entries@.len() - i,
    {
        let entry = entries[i];
        proof {
            assert(entries@.take(i + 1).drop_last() =~= entries@.take(i as int));
            lemma_weight_sum(entries@, i + 1);
        }
        if !matches!(entry.1, RecoverableReplicaStatus::Recoverable) {
            assert(!entry_recoverable(entries@[i as int]));
            return None;
        }
        match expected_weight.checked_add(entry.0.weight_bytes as u64) {
            Some(w) => {
                expected_weight = w;
            },
            None => {
                return None;
            },
        }
        i += 1;
    }
    assert(entries@.take(entries@.len() as int) =~= entries@);
    if expected_weight != 0 {
        Some(expected_weight)
    } else {
        None
    }
}

/// A part of the entries weighs no more than all.
proof fn lemma_weight_sum(
    entries: Seq<(NodeValueReplicaDesc, RecoverableReplicaStatus)>,
    n: int,
)
    requires
        0 <= n <= entries.len(),
    ensures
        weight_sum(entries.take(n)) <= weight_sum(entries),
    decreases entries.len() - n,
{
    if n == entries.len() {
        assert(entries.take(n) =~= entries);
    } else {
        lemma_weight_sum(entries, n + 1);
        assert(entries.take(n + 1).drop_last() =~= entries.take(n));
    }
}

} // verus!
