//! Who may begin to put, get or copy a key.
use vstd::prelude::*;

use crate::ids::PutIDForAKey;
use crate::key_activity::{
    activity_of, admits, with_activity, ActivityMap, MasterKeyActivityKind, MasterKeyActivityLease,
    MasterKeyActivityTable,
};
use crate::key_table::KeyTable;
use crate::name_set::NameSet;
use crate::recoverability::{routes_wf, Routes};
use crate::routes::{MemberId, OneKvNodesRoutes, PutAtomicGroup};

verus! {

/// Why an activity cannot begin.
#[derive(Clone, Copy, Debug, PartialEq, Eq, Structural)]
pub enum AdmissionError {
    KeyAlreadyExists,
    KeyBeingWritten,
    KeyNotFound,
}

/// The key has a copy that is alive.
pub open spec fn key_is_live(routes: Routes, key: Seq<char>) -> bool {
    routes.contains_key(key) && routes[key].live_somewhere()
}

/// Whether a key has a copy that is alive.
pub fn key_has_live_replica(routes: &KeyTable<OneKvNodesRoutes>, key: &str) -> (r: bool)
    requires
        routes.wf(),
        routes_wf(routes@),
    ensures
        r == key_is_live(routes@, key@),
{
    match routes.get(key) {
        Some(route) => route.has_live_replica(),
        None => false,
    }
}

/// It was decided about the beginning of a put.
pub open spec fn put_decided(
    routes: Routes,
    before: ActivityMap,
    key: Seq<char>,
    reject_if_inflight_same_key: bool,
    reject_if_exist_same_key: bool,
    r: Result<MasterKeyActivityLease, AdmissionError>,
    after: ActivityMap,
) -> bool {
    let a = activity_of(before, key);
    match r {
        Err(AdmissionError::KeyAlreadyExists) => reject_if_exist_same_key && key_is_live(routes, key)
            && after == before,
        Err(AdmissionError::KeyBeingWritten) => {
            &&& !(reject_if_exist_same_key && key_is_live(routes, key))
            &&& !admits(a, MasterKeyActivityKind::Put, reject_if_inflight_same_key)
            &&& after == before
        },
        Err(AdmissionError::KeyNotFound) => false,
        Ok(lease) => {
            &&& !(reject_if_exist_same_key && key_is_live(routes, key))
            &&& admits(a, MasterKeyActivityKind::Put, reject_if_inflight_same_key)
            &&& lease.key@ == key && lease.kind == MasterKeyActivityKind::Put && !lease.released
            &&& after == with_activity(before, key, a.step(MasterKeyActivityKind::Put, 1))
        },
    }
}

/// It was decided about the beginning of an activity that only a reclaim keeps from beginning, with
/// `refusal` where it is kept from it.
pub open spec fn activity_decided(
    before: ActivityMap,
    key: Seq<char>,
    kind: MasterKeyActivityKind,
    refusal: AdmissionError,
    r: Result<MasterKeyActivityLease, AdmissionError>,
    after: ActivityMap,
) -> bool {
    match r {
        Err(e) => {
            &&& e == refusal
            &&& activity_of(before, key).reclaim is Some
            &&& after == before
        },
        Ok(lease) => {
            &&& activity_of(before, key).reclaim is None
            &&& lease.key@ == key && lease.kind == kind && !lease.released
            &&& after == with_activity(before, key, activity_of(before, key).step(kind, 1))
        },
    }
}

/// Begins a put. It is refused where the key must not exist and does, and where the key is being
/// reclaimed or, if that is to count, being put already.
pub fn reserve_inflight_put_key(
    routes: &KeyTable<OneKvNodesRoutes>,
    activity: &mut MasterKeyActivityTable,
    key: &String,
    reject_if_inflight_same_key: bool,
    reject_if_exist_same_key: bool,
) -> (r: Result<MasterKeyActivityLease, AdmissionError>)
    requires
        routes.wf(),
        routes_wf(routes@),
        old(activity).wf(),
        activity_of(old(activity)@, key@).puts < u32::MAX,
    ensures
        final(activity).wf(),
        put_decided(
            routes@,
            old(activity)@,
            key@,
            reject_if_inflight_same_key,
            reject_if_exist_same_key,
            r,
            final(activity)@,
        ),
{
    if reject_if_exist_same_key && key_has_live_replica(routes, key.as_str()) {
        return Err(AdmissionError::KeyAlreadyExists);
    }
    match activity.reserve(key, MasterKeyActivityKind::Put, reject_if_inflight_same_key) {
        Some(lease) => Ok(lease),
        None => Err(AdmissionError::KeyBeingWritten),
    }
}

/// Begins a get; a key that is being reclaimed counts as gone.
pub fn reserve_inflight_get_key(activity: &mut MasterKeyActivityTable, key: &String) -> (r: Result<
    MasterKeyActivityLease,
    AdmissionError,
>)
    requires
        old(activity).wf(),
        activity_of(old(activity)@, key@).gets < u32::MAX,
    ensures
        final(activity).wf(),
        activity_decided(
            old(activity)@,
            key@,
            MasterKeyActivityKind::Get,
            AdmissionError::KeyNotFound,
            r,
            final(activity)@,
        ),
{
    match activity.reserve(key, MasterKeyActivityKind::Get, false) {
        Some(lease) => Ok(lease),
        None => Err(AdmissionError::KeyNotFound),
    }
}

/// Begins the making of a further copy, unless the key is being reclaimed.
pub fn reserve_inflight_replica_key(
    activity: &mut MasterKeyActivityTable,
    key: &String,
) -> (r: Result<MasterKeyActivityLease, AdmissionError>)
    requires
        old(activity).wf(),
        activity_of(old(activity)@, key@).replicas < u32::MAX,
    ensures
        final(activity).wf(),
        activity_decided(
            old(activity)@,
            key@,
            MasterKeyActivityKind::Replica,
            AdmissionError::KeyBeingWritten,
            r,
            final(activity)@,
        ),
{
    match activity.reserve(key, MasterKeyActivityKind::Replica, false) {
        Some(lease) => Ok(lease),
        None => Err(AdmissionError::KeyBeingWritten),
    }
}

/// A put begins unless the key is being reclaimed, the key is there although it must not be, or another
/// put of it is under way although none may be. One that is refused leaves everything as it was, and
/// one that begins counts once.
pub proof fn a_put_is_admitted_unless_the_key_is_taken(
    routes: Routes,
    before: ActivityMap,
    key: Seq<char>,
    alone: bool,
    fresh: bool,
    r: Result<MasterKeyActivityLease, AdmissionError>,
    after: ActivityMap,
)
    requires
        put_decided(routes, before, key, alone, fresh, r, after),
    ensures
        ({
            let exists_already = routes.contains_key(key) && exists|n: Seq<char>|
                routes[key].nodes_replicas@.contains_key(n)
                    && !(#[trigger] routes[key].nodes_replicas@[n]).tomb_tag.tomb;
            let a = activity_of(before, key);
            &&& r is Ok <==> !(fresh && exists_already) && a.reclaim is None && !(alone && a.puts > 0)
            &&& r == Err::<MasterKeyActivityLease, AdmissionError>(AdmissionError::KeyAlreadyExists)
                <==> fresh && exists_already
            &&& r is Err ==> after == before
            &&& r is Ok ==> activity_of(after, key).puts == a.puts + 1
            &&& activity_of(after, key).gets == a.gets
            &&& activity_of(after, key).replicas == a.replicas
            &&& activity_of(after, key).reclaim == a.reclaim
            &&& forall|k: Seq<char>|
                k != key ==> #[trigger] activity_of(after, k) == activity_of(before, k)
        }),
{
    if routes.contains_key(key) {
        let route = routes[key];
        if route.live_somewhere() {
            let n = choose|n: Seq<char>| #[trigger] route.live_on(n);
            assert(!route.nodes_replicas@[n].tomb_tag.tomb);
        }
        assert forall|n: Seq<char>|
            route.nodes_replicas@.contains_key(n)
                && !(#[trigger] route.nodes_replicas@[n]).tomb_tag.tomb implies route.live_somewhere() by {
            assert(route.live_on(n));
        }
    }
}

/// A get, or the making of a copy, begins unless the key is being reclaimed, whatever else is under way.
pub proof fn only_a_reclaim_keeps_a_get_from_beginning(
    before: ActivityMap,
    key: Seq<char>,
    kind: MasterKeyActivityKind,
    refusal: AdmissionError,
    r: Result<MasterKeyActivityLease, AdmissionError>,
    after: ActivityMap,
)
    requires
        activity_decided(before, key, kind, refusal, r, after),
    ensures
        r is Ok <==> activity_of(before, key).reclaim is None,
        r is Err ==> after == before && r->Err_0 == refusal,
        r matches Ok(lease) ==> {
            &&& lease.key@ == key
            &&& lease.kind == kind
            &&& activity_of(after, key).count(kind) == activity_of(before, key).count(kind) + 1
            &&& activity_of(after, key).puts + activity_of(after, key).gets + activity_of(
                after,
                key,
            ).replicas == activity_of(before, key).puts + activity_of(before, key).gets
                + activity_of(before, key).replicas + 1
        },
        forall|k: Seq<char>|
            k != key ==> #[trigger] activity_of(after, k) == activity_of(before, k),
{
}

/// The fewest and the most keys that can be put together.
pub const MIN_ATOMIC_GROUP_MEMBERS: usize = 2;

pub const MAX_ATOMIC_GROUP_MEMBERS: usize = 4096;

/// What is wrong with a group.
#[derive(Clone, Copy, Debug, PartialEq, Eq, Structural)]
pub enum GroupError {
    /// It has too few or too many members.
    MemberCount { count: usize },
    /// A key is empty or listed twice.
    MemberKeys,
    /// The key that is being put is not listed.
    CurrentMember,
    /// Another group has the same first member.
    AnchorReused,
}

/// The `i`-th key is empty or was listed before.
pub open spec fn bad_key(members: Seq<MemberId>, i: int) -> bool {
    ||| members[i].0.len() == 0
    ||| exists|j: int| 0 <= j < i && (#[trigger] members[j]).0 == members[i].0
}

/// What is wrong with a group that is put, where `existing` is the group known by the same first
/// member.
pub open spec fn group_fault(
    key: Seq<char>,
    put_id: PutIDForAKey,
    members: Seq<MemberId>,
    existing: Option<Seq<MemberId>>,
) -> Option<GroupError> {
    if !(MIN_ATOMIC_GROUP_MEMBERS <= members.len() <= MAX_ATOMIC_GROUP_MEMBERS) {
        Some(GroupError::MemberCount { count: members.len() as usize })
    } else if exists|i: int| 0 <= i < members.len() && #[trigger] bad_key(members, i) {
        Some(GroupError::MemberKeys)
    } else if !members.contains((key, put_id)) {
        Some(GroupError::CurrentMember)
    } else if existing matches Some(known) && known != members {
        Some(GroupError::AnchorReused)
    } else {
        None
    }
}

/// Checks the group that a key is put with. `existing` is the group that is known by the first
/// member of this one. The result tells whether the group is new.
pub fn resolve_put_atomic_group(
    key: &String,
    put_id: PutIDForAKey,
    group: &PutAtomicGroup,
    existing: Option<&PutAtomicGroup>,
) -> (r: Result<bool, GroupError>)
    ensures
        ({
            let known = match existing {
                Some(g) => Some(g@),
                None => None,
            };
            match r {
                Ok(new) => group_fault(key@, put_id, group@, known) is None && new == (
                existing is None),
                Err(e) => group_fault(key@, put_id, group@, known) == Some(e),
            }
        }),
{
    let ghost members = group@;
    let count: usize = group.members.len();
    if count < MIN_ATOMIC_GROUP_MEMBERS || count > MAX_ATOMIC_GROUP_MEMBERS {
        return Err(GroupError::MemberCount { count });
    }
    let mut keys = NameSet::new();
    let mut i: usize = 0;
    while i < count
        invariant
            members == group@,
            i <= count == group.members@.len(),
            MIN_ATOMIC_GROUP_MEMBERS <= count <= MAX_ATOMIC_GROUP_MEMBERS,
            forall|j: int| 0 <= j < i ==> !#[trigger] bad_key(members, j),
            forall|n: Seq<char>| #[trigger]
                keys@.contains(n) <==> exists|j: int| 0 <= j < i && (#[trigger] members[j]).0 == n,
        decreases count - i,
    {
        let member = &group.members[i];
        let ghost before = keys@;
        assert(members[i as int].0 == member.key@);
        if member.key.as_str().is_empty() || !keys.insert(member.key.clone()) {
            proof {
                if member.key@.len() != 0 {
                    assert(before.contains(member.key@));
                }
                assert(bad_key(members, i as int));
            }
            return Err(GroupError::MemberKeys);
        }
        proof {
            assert(!bad_key(members, i as int)) by {
                if exists|j: int| 0 <= j < i && (#[trigger] members[j]).0 == members[i as int].0 {
                    assert(before.contains(member.key@));
                }
            }
            assert forall|n: Seq<char>| #[trigger]
                keys@.contains(n) <==> exists|j: int|
                    0 <= j < i + 1 && (#[trigger] members[j]).0 == n by {
                if keys@.contains(n) && n != member.key@ {
                    assert(before.contains(n));
                    let j = choose|j: int| 0 <= j < i && (#[trigger] members[j]).0 == n;
                    assert(members[j].0 == n);
                }
                if exists|j: int| 0 <= j < i + 1 && (#[trigger] members[j]).0 == n {
                    let j = choose|j: int| 0 <= j < i + 1 && (#[trigger] members[j]).0 == n;
                    if j < i {
                        assert(before.contains(n));
                    }
                }
            }
        }
        i += 1;
    }
    if !group.has_member(key, put_id) {
        return Err(GroupError::CurrentMember);
    }
    match existing {
        Some(known) => {
            if !known.same(group) {
                return Err(GroupError::AnchorReused);
            }
            Ok(false)
        },
        None => Ok(true),
    }
}

/// In a group that was accepted the key is listed exactly once.
pub proof fn accepted_group_lists_the_key_once(
    key: Seq<char>,
    put_id: PutIDForAKey,
    members: Seq<MemberId>,
    existing: Option<Seq<MemberId>>,
    i: int,
    j: int,
)
    requires
        group_fault(key, put_id, members, existing) is None,
        0 <= i < members.len(),
        0 <= j < members.len(),
        members[i] == (key, put_id),
        members[j] == (key, put_id),
    ensures
        i == j,
{
    assert(!bad_key(members, i));
    assert(!bad_key(members, j));
}

} // verus!
