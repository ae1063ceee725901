//! What holds of members, of the activity of keys and of deleted keys, whatever happens.
use vstd::prelude::*;

use crate::admission::{bad_key, group_fault};
use crate::cluster::{ClusterMember, MemberModel};
use crate::delete::{
    key_deleted, one_copy_removed, DeleteKeyInfo, DeletedKey, SsdReplicaRemoval, Tier, TieredMap,
};
use crate::get_laws::{memory_on, ssd_on};
use crate::ids::PutIDForAKey;
use crate::key_activity::{
    activity_of, admits, with_activity, ActivityMap, MasterKeyActivityKind,
};
use crate::member_transitions::{
    absents_news, departed, enumerates, left_news, present_news, presents_news,
    snapshot_reconciled, Observed, TransitionModel,
};
use crate::name_set::names_has;
use crate::registration::{
    reply_taken, retry_taken, seen_taken, waits_for, ActorAction, ActorWait, RegistrationActor,
    RegistrationReply,
};
use crate::routes::MemberId;

verus! {

/// The news say that a generation of a member is gone.
pub open spec fn told_gone(told: Seq<TransitionModel>, node: Seq<char>, generation: i64) -> bool {
    exists|i: int|
        0 <= i < told.len() && #[trigger] told[i] == TransitionModel::Absent(node, generation)
}

/// The news say that a member is there.
pub open spec fn told_here(told: Seq<TransitionModel>, member: MemberModel) -> bool {
    exists|i: int| 0 <= i < told.len() && #[trigger] told[i] == TransitionModel::Present(member)
}

proof fn lemma_present_news(
    observed: Observed,
    current: Observed,
    here: Seq<Seq<char>>,
    node: Seq<char>,
)
    requires
        forall|k: Seq<char>| #[trigger] here.contains(k) ==> current.contains_key(k)
            && current[k].id == k,
        here.contains(node),
    ensures
        ({
            let told = presents_news(observed, current, here);
            let one = present_news(observed, current[node]);
            forall|t: TransitionModel| #[trigger] one.contains(t) ==> told.contains(t)
        }),
    decreases here.len(),
{
    let told = presents_news(observed, current, here);
    let one = present_news(observed, current[node]);
    let less = here.drop_last();
    let before = presents_news(observed, current, less);
    assert forall|t: TransitionModel| #[trigger] one.contains(t) implies told.contains(t) by {
        let i = choose|i: int| 0 <= i < one.len() && one[i] == t;
        if here.last() == node {
            assert(told[before.len() + i] == t);
        } else {
            let h = choose|h: int| 0 <= h < here.len() && here[h] == node;
            assert(less[h] == node);
            assert forall|k: Seq<char>| #[trigger] less.contains(k) implies current.contains_key(k)
                && current[k].id == k by {
                let g = choose|g: int| 0 <= g < less.len() && less[g] == k;
                assert(here[g] == k);
                assert(here.contains(k));
            }
            lemma_present_news(observed, current, less, node);
            assert(before.contains(t));
            let g = choose|g: int| 0 <= g < before.len() && before[g] == t;
            assert(told[g] == t);
        }
    }
}

proof fn lemma_news_about(
    observed: Observed,
    current: Observed,
    here: Seq<Seq<char>>,
    i: int,
)
    requires
        forall|k: Seq<char>| #[trigger] here.contains(k) ==> current.contains_key(k)
            && current[k].id == k,
        0 <= i < presents_news(observed, current, here).len(),
    ensures
        ({
            let t = presents_news(observed, current, here)[i];
            match t {
                TransitionModel::Present(m) => current.contains_key(m.id) && current[m.id] == m && !(
                observed.contains_key(m.id) && observed[m.id] == m),
                TransitionModel::Absent(node, generation) => observed.contains_key(node)
                    && observed[node].node_start_time == generation && current.contains_key(node)
                    && current[node].node_start_time != generation,
            }
        }),
    decreases here.len(),
{
    if here.len() > 0 {
        let less = here.drop_last();
        let before = presents_news(observed, current, less);
        assert(here.contains(here.last())) by {
            assert(here[here.len() - 1] == here.last());
        }
        if i < before.len() {
            assert forall|k: Seq<char>| #[trigger] less.contains(k) implies current.contains_key(k)
                && current[k].id == k by {
                let g = choose|g: int| 0 <= g < less.len() && less[g] == k;
                assert(here[g] == k);
                assert(here.contains(k));
            }
            lemma_news_about(observed, current, less, i);
        }
    }
}

/// A snapshot of the cluster is told in full and no more: every member that is no longer there is told
/// gone in the generation that was known, every one that is new or has changed is told there, one in a
/// new generation is also told gone in the old one, and nothing is told of one that is as it was.
pub proof fn a_snapshot_is_told_in_full(
    observed: Observed,
    current: Observed,
    told: Seq<TransitionModel>,
    node: Seq<char>,
)
    requires
        snapshot_reconciled(observed, current, told),
        forall|k: Seq<char>| #[trigger] current.contains_key(k) ==> current[k].id == k,
        forall|k: Seq<char>| #[trigger] observed.contains_key(k) ==> observed[k].id == k,
    ensures
        observed.contains_key(node) && !current.contains_key(node) ==> told_gone(
            told,
            node,
            observed[node].node_start_time,
        ),
        current.contains_key(node) && !(observed.contains_key(node) && observed[node]
            == current[node]) ==> told_here(told, current[node]),
        observed.contains_key(node) && current.contains_key(node)
            && observed[node].node_start_time != current[node].node_start_time ==> told_gone(
            told,
            node,
            observed[node].node_start_time,
        ),
        forall|generation: i64| #[trigger]
            told_gone(told, node, generation) ==> observed.contains_key(node)
                && observed[node].node_start_time == generation && !(current.contains_key(node)
                && current[node].node_start_time == generation),
        forall|member: MemberModel| #[trigger]
            told_here(told, member) ==> current.contains_key(member.id) && current[member.id]
                == member && !(observed.contains_key(member.id) && observed[member.id] == member),
{
    let (gone, here) = choose|gone: Seq<Seq<char>>, here: Seq<Seq<char>>|
        {
            &&& #[trigger] enumerates(gone, departed(observed, current))
            &&& #[trigger] enumerates(here, current.dom())
            &&& told == absents_news(observed, gone) + presents_news(observed, current, here)
        };
    let absents = absents_news(observed, gone);
    let presents = presents_news(observed, current, here);
    assert forall|k: Seq<char>| #[trigger] here.contains(k) implies current.contains_key(k)
        && current[k].id == k by {
        assert(current.dom().contains(k));
    }
    if observed.contains_key(node) && !current.contains_key(node) {
        assert(departed(observed, current).contains(node));
        let i = choose|i: int| 0 <= i < gone.len() && gone[i] == node;
        assert(told[i] == TransitionModel::Absent(node, observed[node].node_start_time));
    }
    if current.contains_key(node) {
        assert(current.dom().contains(node));
        lemma_present_news(observed, current, here, node);
        let one = present_news(observed, current[node]);
        if !(observed.contains_key(node) && observed[node] == current[node]) {
            let t = TransitionModel::Present(current[node]);
            assert(one[one.len() - 1] == t);
            assert(one.contains(t));
            assert(presents.contains(t));
            let i = choose|i: int| 0 <= i < presents.len() && presents[i] == t;
            assert(told[absents.len() + i] == t);
        }
        if observed.contains_key(node) && observed[node].node_start_time
            != current[node].node_start_time {
            let t = TransitionModel::Absent(node, observed[node].node_start_time);
            assert(one[0] == t);
            assert(one.contains(t));
            assert(presents.contains(t));
            let i = choose|i: int| 0 <= i < presents.len() && presents[i] == t;
            assert(told[absents.len() + i] == t);
        }
    }
    assert forall|generation: i64| #[trigger] told_gone(told, node, generation) implies
        observed.contains_key(node) && observed[node].node_start_time == generation && !(
    current.contains_key(node) && current[node].node_start_time == generation) by {
        let i = choose|i: int|
            0 <= i < told.len() && #[trigger] told[i] == TransitionModel::Absent(node, generation);
        if i < absents.len() {
            assert(gone.contains(gone[i]));
            assert(departed(observed, current).contains(gone[i]));
        } else {
            lemma_news_about(observed, current, here, i - absents.len());
        }
    }
    assert forall|member: MemberModel| #[trigger] told_here(told, member) implies
        current.contains_key(member.id) && current[member.id] == member && !(observed.contains_key(
        member.id,
    ) && observed[member.id] == member) by {
        let i = choose|i: int|
            0 <= i < told.len() && #[trigger] told[i] == TransitionModel::Present(member);
        if i >= absents.len() {
            lemma_news_about(observed, current, here, i - absents.len());
        }
    }
}

/// A member that has left is told gone in the generation in which it was known, or else in the one that
/// the cluster last had.
pub proof fn a_member_that_left_is_told_gone(
    observed: Observed,
    node: Seq<char>,
    previous: Option<i64>,
)
    ensures
        observed.contains_key(node) ==> told_gone(
            left_news(observed, node, None, previous),
            node,
            observed[node].node_start_time,
        ) && left_news(observed, node, None, previous).len() == 1,
        !observed.contains_key(node) && previous is Some ==> told_gone(
            left_news(observed, node, None, previous),
            node,
            previous->0,
        ),
        !observed.contains_key(node) && previous is None ==> left_news(
            observed,
            node,
            None,
            previous,
        ).len() == 0,
{
    let told = left_news(observed, node, None, previous);
    if observed.contains_key(node) {
        assert(told[0] == TransitionModel::Absent(node, observed[node].node_start_time));
    } else if previous is Some {
        assert(told[0] == TransitionModel::Absent(node, previous->0));
    }
}

/// A node is asked to register its memory only in the generation in which it was seen last and is there,
/// ready for it, and only if that generation is not registered already.
pub proof fn only_the_current_generation_is_registered(
    a: RegistrationActor,
    member: Option<&ClusterMember>,
    r: ActorAction,
    b: RegistrationActor,
)
    requires
        a.wf(),
        retry_taken(a, member, r, b),
    ensures
        r matches ActorAction::RequestRegistration { epoch } ==> {
            &&& a.desired_epoch == Some(epoch)
            &&& a.registered_epoch != Some(epoch)
            &&& b.inflight_epoch == Some(epoch)
            &&& member matches Some(m)
            &&& m.node_start_time == epoch
            &&& m.owns_segments()
        },
        !(r matches ActorAction::RequestRegistration { .. }) ==> b.desired_epoch is None
            && b.inflight_epoch == a.inflight_epoch,
        b.registered_epoch == a.registered_epoch,
        b.retry_secs is None,
{
}

/// A node that is seen in a new generation loses what it had in the old one; its memory is to be
/// registered at once if it is ready and this was not done.
pub proof fn a_new_generation_is_to_be_registered(
    a: RegistrationActor,
    member: ClusterMember,
    r: ActorAction,
    b: RegistrationActor,
    wait: ActorWait,
    c: RegistrationActor,
)
    requires
        seen_taken(a, member, r, b),
        waits_for(b, wait, c),
        member.role == crate::cluster::NodeRole::Client,
    ensures
        r == ActorAction::MarkTomb <==> (a.last_seen_epoch matches Some(e) && e
            != member.node_start_time),
        b.last_seen_epoch == Some(member.node_start_time),
        member.owns_segments() && a.registered_epoch != Some(member.node_start_time) ==> {
            &&& b.desired_epoch == Some(member.node_start_time)
            &&& wait == (ActorWait::Retry { secs: 0 })
        },
        !(member.owns_segments() && a.registered_epoch != Some(member.node_start_time))
            ==> b.desired_epoch == a.desired_epoch,
{
}

/// An answer counts only for the generation that is wanted: then a success ends the matter, and a failure
/// is tried again, after twice as long the next time, up to a limit.
pub proof fn an_answer_counts_for_its_generation(
    a: RegistrationActor,
    reply: RegistrationReply,
    b: RegistrationActor,
)
    requires
        a.wf(),
        a.inflight_epoch is Some,
        a.retry_secs is None,
        reply_taken(a, reply, b),
    ensures
        b.inflight_epoch is None,
        b.registered_epoch != a.registered_epoch ==> reply == RegistrationReply::Registered
            && b.registered_epoch == a.inflight_epoch && a.desired_epoch == a.inflight_epoch,
        a.desired_epoch != a.inflight_epoch ==> b.desired_epoch == a.desired_epoch
            && b.registered_epoch == a.registered_epoch && b.backoff_secs == a.backoff_secs,
        a.desired_epoch == a.inflight_epoch && reply == RegistrationReply::Registered
            ==> b.registered_epoch == a.desired_epoch && b.desired_epoch is None,
        a.desired_epoch == a.inflight_epoch && reply == RegistrationReply::Failed ==> {
            &&& b.desired_epoch == a.desired_epoch
            &&& b.retry_secs == Some(a.backoff_secs)
            &&& a.backoff_secs <= b.backoff_secs <= 2 * a.backoff_secs
        },
{
}

/// An activity counts for its key and kind alone: one more while it lasts, and nothing is left of it once
/// it has ended.
pub proof fn an_activity_counts_once(
    m: ActivityMap,
    key: Seq<char>,
    kind: MasterKeyActivityKind,
    other: MasterKeyActivityKind,
    k: Seq<char>,
)
    requires
        0 <= activity_of(m, key).puts,
        0 <= activity_of(m, key).gets,
        0 <= activity_of(m, key).replicas,
    ensures
        ({
            let more = with_activity(m, key, activity_of(m, key).step(kind, 1));
            let ended = with_activity(more, key, activity_of(more, key).step(kind, -1));
            &&& activity_of(more, key).count(kind) == activity_of(m, key).count(kind) + 1
            &&& other != kind ==> activity_of(more, key).count(other) == activity_of(m, key).count(
                other,
            )
            &&& activity_of(more, key).reclaim == activity_of(m, key).reclaim
            &&& k != key ==> activity_of(more, k) == activity_of(m, k)
            &&& activity_of(ended, k) == activity_of(m, k)
        }),
{
}

/// A new activity begins exactly if no reclaim holds the key, and, if it minds, none of its kind is under
/// way.
pub proof fn an_activity_begins_unless_the_key_is_held(
    m: ActivityMap,
    key: Seq<char>,
    kind: MasterKeyActivityKind,
    reject_same: bool,
)
    ensures
        admits(activity_of(m, key), kind, reject_same) <==> activity_of(m, key).reclaim is None && (
        !reject_same || activity_of(m, key).count(kind) <= 0),
        !m.contains_key(key) ==> admits(activity_of(m, key), kind, reject_same),
{
}

/// A group is accepted exactly if it has two members or more, but not too many, each key is named and
/// listed once, the key that is put is one of them in this version, and no other group begins with the
/// same member.
pub proof fn an_accepted_group_is_whole(
    key: Seq<char>,
    put_id: PutIDForAKey,
    members: Seq<MemberId>,
    existing: Option<Seq<MemberId>>,
)
    ensures
        group_fault(key, put_id, members, existing) is None ==> {
            &&& 2 <= members.len() <= 4096
            &&& forall|i: int| 0 <= i < members.len() ==> (#[trigger] members[i]).0.len() > 0
            &&& forall|i: int, j: int|
                0 <= j < i < members.len() ==> (#[trigger] members[i]).0 != (#[trigger] members[j]).0
            &&& members.contains((key, put_id))
            &&& existing matches Some(known) ==> known == members
        },
{
    if group_fault(key, put_id, members, existing) is None {
        assert forall|i: int| 0 <= i < members.len() implies (#[trigger] members[i]).0.len() > 0 by {
            assert(!bad_key(members, i));
        }
        assert forall|i: int, j: int| 0 <= j < i < members.len() implies (#[trigger] members[i]).0 != (
        #[trigger] members[j]).0 by {
            assert(!bad_key(members, i));
        }
    }
}

/// A deleted key is gone: it has no route, every node with a cache has to drop it, and all clients are
/// told of the version that is gone, with all its copies. No other key is touched, and a key that is not
/// there is not deleted.
pub proof fn a_deleted_key_is_gone(
    before: TieredMap,
    key: Seq<char>,
    cache_owners: Seq<String>,
    prefix_index_enabled: bool,
    r: Option<DeletedKey>,
    after: TieredMap,
)
    requires
        key_deleted(before, key, cache_owners, prefix_index_enabled, r, after),
    ensures
        !after.contains_key(key),
        forall|k: Seq<char>| k != key ==> (#[trigger] after.contains_key(k) <==> before.contains_key(k)),
        forall|k: Seq<char>| k != key && #[trigger] before.contains_key(k) ==> after[k] == before[k],
        r is Some <==> before.contains_key(key),
        r matches Some(deleted) ==> {
            &&& deleted.put_id == before[key].put_id
            &&& forall|i: int|
                0 <= i < cache_owners.len() ==> names_has(
                    deleted.cache_nodes@,
                    (#[trigger] cache_owners[i])@,
                )
            &&& deleted.announcement matches DeleteKeyInfo::Key { key: told, nodes_kv_route_info }
            &&& told@ == key
            &&& nodes_kv_route_info.put_id == before[key].put_id
            &&& nodes_kv_route_info.node_replicas@ == before[key].node_replicas@
            &&& deleted.forget_prefix <==> prefix_index_enabled
        },
{
    if let Some(deleted) = r {
        assert forall|i: int| 0 <= i < cache_owners.len() implies names_has(
            deleted.cache_nodes@,
            (#[trigger] cache_owners[i])@,
        ) by {
            assert(names_has(cache_owners, cache_owners[i]@));
        }
    }
}

/// One copy is removed and no other: the copy in the other tier of the node and the copies on other nodes
/// stay, and the key goes only when nothing that is alive is left of it.
pub proof fn one_copy_goes_and_no_other(
    before: TieredMap,
    key: Seq<char>,
    node: Seq<char>,
    put_id: PutIDForAKey,
    tier: Tier,
    r: SsdReplicaRemoval,
    after: TieredMap,
)
    requires
        one_copy_removed(before, key, node, put_id, tier, r, after),
    ensures
        forall|k: Seq<char>| k != key ==> (#[trigger] after.contains_key(k) <==> before.contains_key(k)),
        forall|k: Seq<char>| k != key && #[trigger] before.contains_key(k) ==> after[k] == before[k],
        r.replica_removed <==> before.contains_key(key) && before[key].put_id == put_id
            && before[key].node_replicas@.contains_key(node) && match tier {
            Tier::Memory => before[key].node_replicas@[node].memory is Some,
            Tier::Ssd => before[key].node_replicas@[node].ssd is Some,
        },
        !r.replica_removed ==> after == before,
        r.route_removed <==> before.contains_key(key) && !after.contains_key(key),
        r.replica_removed && after.contains_key(key) ==> {
            let (a, b) = (before[key].node_replicas@, after[key].node_replicas@);
            &&& after[key].put_id == put_id
            &&& after[key].lease_id == before[key].lease_id
            &&& forall|n: Seq<char>|
                n != node && #[trigger] a.contains_key(n) ==> b.contains_key(n) && b[n] == a[n]
            &&& tier == Tier::Memory ==> !memory_on(b, node) && (ssd_on(a, node) ==> ssd_on(b, node)
                && b[node].ssd == a[node].ssd)
            &&& tier == Tier::Ssd ==> !ssd_on(b, node) && (memory_on(a, node) ==> memory_on(b, node)
                && b[node].memory == a[node].memory)
        },
        r.route_removed ==> {
            let a = before[key].node_replicas@;
            &&& forall|n: Seq<char>| n != node ==> !#[trigger] memory_on(a, n)
            &&& forall|n: Seq<char>| n != node ==> !#[trigger] ssd_on(a, n)
            &&& tier == Tier::Memory ==> !ssd_on(a, node)
            &&& tier == Tier::Ssd ==> !memory_on(a, node)
        },
{
    if r.route_removed {
        let a = before[key].node_replicas@;
        let left = crate::delete::left_without(a, node, tier);
        assert(!crate::delete::some_live(left));
        assert forall|n: Seq<char>| n != node implies !#[trigger] memory_on(a, n) by {
            if memory_on(a, n) {
                assert(left.contains_key(n) && left[n].live());
            }
        }
        assert forall|n: Seq<char>| n != node implies !#[trigger] ssd_on(a, n) by {
            if ssd_on(a, n) {
                assert(left.contains_key(n) && left[n].live());
            }
        }
        if left.contains_key(node) {
            assert(!left[node].live());
        }
    }
}

} // verus!
