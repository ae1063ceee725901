//! What a put tells its client and what it publishes, from its beginning to the gets that read it.
use vstd::prelude::*;

use crate::delete::{one_copy_removed, SsdReplicaRemoval, Tier, TieredMap};
use crate::get_alloc::{AllocateError, SegmentUsage};
use crate::get_laws::{a_get_tells_of_a_live_copy, get_told, memory_on, ssd_on};
use crate::get_start::{GetSourceKind, GetStart, GetStartAction, StartedGet};
use crate::ids::PutIDForAKey;
use crate::inflight_puts::{all_admitted, InflightPutAllocation, InflightPutInfo};
use crate::key_activity::activity_of;
use crate::member_lifecycle::{admits_member, MemberMap};
use crate::msg_pack::GetAllocationMode;
use crate::observe::PutPlacementMode;
use crate::placement::PutPlacementTarget;
use crate::put::{
    put_finished, ssd_copy_noted, target_resolved, PutAnswers, PutCompletion, PutDoneError,
    PutTarget, RoomRelease, SsdCommitOutcome,
};
use crate::put_start::{
    override_fault, put_placed, staging_tried, told, OwnerMetaKeys, PutOrigin, PutPlan, PutStart,
    PutStartAction, PutStartError, StartedPut,
};
use crate::put_table::{
    given_up, put_reported, put_start_answered, put_taken_up, PutBeginState, PutRequest, PutState,
};
use crate::routes::{Allocation, NodeTombTag};
use crate::ssd_ring::KeyId;
use crate::tiered_routes::SsdReplicaCommitStatus;

verus! {

/// Staging memory is looked for, try after try: `puts[0]` is the beginning, and each of the answers is
/// followed by an action.
pub open spec fn staging_run(
    puts: Seq<PutStart>,
    answers: Seq<Option<Allocation>>,
    usages: Seq<SegmentUsage>,
    actions: Seq<PutStartAction>,
) -> bool {
    &&& puts.len() == answers.len() + 1
    &&& usages.len() == answers.len()
    &&& actions.len() == answers.len()
    &&& answers.len() > 0
    &&& puts[0].attempts == 0
    &&& puts[0].source is None
    &&& forall|i: int|
        0 <= i < answers.len() ==> staging_tried(
            #[trigger] puts[i],
            puts[i + 1],
            answers[i],
            usages[i],
            actions[i],
        )
    &&& forall|i: int| 0 <= i < answers.len() - 1 ==> (#[trigger] actions[i]) is TrySource
}

proof fn lemma_staging(
    puts: Seq<PutStart>,
    answers: Seq<Option<Allocation>>,
    usages: Seq<SegmentUsage>,
    actions: Seq<PutStartAction>,
    k: int,
)
    requires
        staging_run(puts, answers, usages, actions),
        1 <= k <= answers.len(),
    ensures
        puts[k].attempts == k,
        puts[k].number == puts[0].number,
        puts[k].key == puts[0].key,
        puts[k].put_id == puts[0].put_id,
        puts[k].req_node_id == puts[0].req_node_id,
        puts[k].source_node_id == puts[0].source_node_id,
        puts[k].requester_generation == puts[0].requester_generation,
        puts[k].source_generation == puts[0].source_generation,
        puts[k].len == puts[0].len,
        puts[k].segment == puts[0].segment,
        puts[k].source == answers[k - 1],
        forall|i: int| 0 <= i < k - 1 ==> (#[trigger] answers[i]) is None,
    decreases k,
{
    assert(staging_tried(
        puts[k - 1],
        puts[k - 1 + 1],
        answers[k - 1],
        usages[k - 1],
        actions[k - 1],
    ));
    if k > 1 {
        lemma_staging(puts, answers, usages, actions, k - 1);
        assert(actions[k - 2] is TrySource);
        assert(staging_tried(
            puts[k - 2],
            puts[k - 2 + 1],
            answers[k - 2],
            usages[k - 2],
            actions[k - 2],
        ));
    }
}

/// Staging memory is asked for in the same segment and for all bytes, until some is granted, three times
/// at most. Only then is the put refused, for want of space on the source.
pub proof fn staging_is_tried_three_times(
    puts: Seq<PutStart>,
    answers: Seq<Option<Allocation>>,
    usages: Seq<SegmentUsage>,
    actions: Seq<PutStartAction>,
)
    requires
        staging_run(puts, answers, usages, actions),
    ensures
        answers.len() <= 3,
        forall|i: int|
            0 <= i < answers.len() - 1 ==> #[trigger] actions[i] == (PutStartAction::TrySource {
                segment: puts[0].segment,
                len: puts[0].len,
            }),
        actions.last() is SelectTarget <==> answers.last() is Some,
        actions.last() is SelectTarget ==> puts.last().source == answers.last(),
        actions.last() is Failed ==> {
            &&& answers.len() == 3
            &&& forall|i: int| 0 <= i < answers.len() ==> (#[trigger] answers[i]) is None
            &&& actions.last() matches PutStartAction::Failed(
                PutStartError::NoSpace { node, total_capacity, .. },
            )
            &&& node@ == puts[0].source_node_id@
            &&& total_capacity == usages.last().total
        },
        actions.last() == (PutStartAction::TrySource {
            segment: puts[0].segment,
            len: puts[0].len,
        }) || actions.last() is SelectTarget || actions.last() is Failed,
{
    let n = answers.len() as int;
    lemma_staging(puts, answers, usages, actions, n);
    assert forall|i: int| 0 <= i < n - 1 implies #[trigger] actions[i] == (
    PutStartAction::TrySource { segment: puts[0].segment, len: puts[0].len }) by {
        lemma_staging(puts, answers, usages, actions, i + 1);
        if i > 0 {
            lemma_staging(puts, answers, usages, actions, i);
        }
        assert(staging_tried(puts[i], puts[i + 1], answers[i], usages[i], actions[i]));
    }
    assert(staging_tried(
        puts[n - 1],
        puts[n - 1 + 1],
        answers[n - 1],
        usages[n - 1],
        actions[n - 1],
    ));
    if n > 1 {
        lemma_staging(puts, answers, usages, actions, n - 1);
        assert(actions[n - 2] is TrySource);
        assert(staging_tried(
            puts[n - 2],
            puts[n - 2 + 1],
            answers[n - 2],
            usages[n - 2],
            actions[n - 2],
        ));
    }
}

/// A put for which no staging memory is found is told where it was looked for: on the source, in the segment that
/// was tried, with what that segment says of itself; and nothing is staged.
pub proof fn a_put_without_room_is_told_where_it_was_looked_for(
    before: PutStart,
    after: PutStart,
    usage: SegmentUsage,
    action: PutStartAction,
)
    requires
        staging_tried(before, after, None, usage, action),
        before.attempts >= 2,
    ensures
        after.source is None,
        after.key == before.key && after.put_id == before.put_id && after.len == before.len,
        action matches PutStartAction::Failed(
            PutStartError::NoSpace { node, segment, total_capacity, free_capacity },
        ) && {
            &&& node@ == before.source_node_id@
            &&& segment@ == usage.device_id@
            &&& total_capacity == usage.total
            &&& usage.used <= usage.total ==> free_capacity + usage.used == usage.total
            &&& usage.used > usage.total ==> free_capacity == 0
        },
{
}

/// The client is told to take the bytes from where they are staged, whatever the placement: from the
/// memory that the segment of the source granted. They stay there, or go to the memory that was
/// allocated on the other node.
pub proof fn the_source_is_where_the_bytes_are_staged(
    puts: Seq<PutStart>,
    answers: Seq<Option<Allocation>>,
    usages: Seq<SegmentUsage>,
    actions: Seq<PutStartAction>,
    target: PutPlacementTarget,
    target_generation: Option<i64>,
    started: StartedPut,
)
    requires
        staging_run(puts, answers, usages, actions),
        answers.last() is Some,
        put_placed(puts.last(), target, target_generation, started),
    ensures
        ({
            let staged = answers.last()->0;
            let plan = started.plan;
            &&& plan.put_id == puts[0].put_id
            &&& plan.src_addr == staged.base_addr + staged.addr
            &&& plan.src_base_addr == staged.base_addr
            &&& match target {
                PutPlacementTarget::Local { node_id, .. } => {
                    &&& plan.node_id@ == node_id@
                    &&& plan.target_addr == plan.src_addr
                    &&& plan.target_base_addr == plan.src_base_addr
                    &&& plan.len == staged.size
                    &&& started.mode == PutPlacementMode::Local
                },
                PutPlacementTarget::Remote { node_id, allocation, .. } => {
                    &&& plan.node_id@ == node_id@
                    &&& plan.target_addr == allocation.base_addr + allocation.addr
                    &&& plan.target_base_addr == allocation.base_addr
                    &&& plan.len == allocation.size
                    &&& plan.len <= staged.size ==> plan.src_addr + plan.len <= staged.base_addr
                        + staged.addr + staged.size
                    &&& started.mode == PutPlacementMode::Remote
                },
            }
        }),
{
    lemma_staging(puts, answers, usages, actions, answers.len() as int);
}

/// What is noted of a put agrees with what its client is told and with its beginning: the memory that is
/// noted is that of the plan, and the members that take part are those of the beginning and the target,
/// each in its generation.
pub proof fn a_put_is_noted_as_told(
    s: PutStart,
    target: PutPlacementTarget,
    target_generation: Option<i64>,
    started: StartedPut,
)
    requires
        s.source is Some,
        put_placed(s, target, target_generation, started),
    ensures
        ({
            let (plan, info) = (started.plan, started.info);
            &&& info.key@ == s.key@
            &&& info.info_id == s.number
            &&& info.len == plan.len
            &&& info.target_node_id@ == plan.node_id@
            &&& info.req_node_id@ == s.req_node_id@
            &&& info.source_node_id@ == s.source_node_id@
            &&& info.requester_generation == s.requester_generation
            &&& info.source_generation == s.source_generation
            &&& info.persist_to_ssd == match target {
                PutPlacementTarget::Local { persist_to_ssd, .. } => persist_to_ssd,
                PutPlacementTarget::Remote { persist_to_ssd, .. } => persist_to_ssd,
            }
            &&& match target {
                PutPlacementTarget::Local { .. } => info.target_generation == s.source_generation
                    && info.allocation == Some(InflightPutAllocation::Local(s.source->0)),
                PutPlacementTarget::Remote { allocation, .. } => Some(info.target_generation)
                    == target_generation && info.allocation == Some(
                    InflightPutAllocation::Remote { src: s.source->0, target: allocation },
                ),
            }
        }),
{
}

/// A put begins exactly if it is not refused, its source may be put for and has memory. It then writes a
/// version of its own, for all its bytes, into a segment of the source, and holds its key. A put that
/// does not begin holds nothing.
pub proof fn a_put_begins_unless_something_is_in_the_way(
    before: PutBeginState,
    routes: TieredMap,
    origin: PutOrigin<'_>,
    keys: OwnerMetaKeys,
    request: PutRequest,
    segments: usize,
    now_ms: u64,
    r: Result<(PutStart, PutStartAction), PutStartError>,
    after: PutBeginState,
)
    requires
        put_start_answered(before, routes, origin, keys, request, segments, now_ms, r, after),
        before.table.next_number < u64::MAX,
    ensures
        ({
            let key = request.key@;
            let busy = activity_of(before.activity, key);
            let exists_already = routes.contains_key(key) && exists|n: Seq<char>|
                #[trigger] routes[key].node_replicas@.contains_key(n) && (memory_on(
                    routes[key].node_replicas@,
                    n,
                ) || ssd_on(routes[key].node_replicas@, n));
            &&& r matches Ok((s, action)) ==> {
                &&& !(request.reject_if_exists && exists_already)
                &&& !(request.reject_if_inflight_same_key && busy.puts > 0)
                &&& busy.reclaim is None
                &&& segments > 0
                &&& origin.requester is Some
                &&& action matches PutStartAction::TrySource { segment, len }
                &&& segment < segments && segment == s.segment
                &&& len == request.len && s.len == request.len
                &&& s.key@ == key
                &&& s.req_node_id@ == origin.req_node_id@
                &&& s.source_node_id@ == origin.source_node_id@
                &&& s.requester_generation == origin.requester->0.node_start_time
                &&& origin.req_node_id@ == origin.source_node_id@ ==> s.source_generation
                    == origin.requester->0.node_start_time
                &&& origin.req_node_id@ != origin.source_node_id@ ==> origin.source is Some
                    && s.source_generation == origin.source->0.node_start_time
                &&& s.put_id.0 == now_ms
                &&& before.versions.contains_key(key) ==> s.put_id.1 == before.versions[key]
                &&& after.versions.contains_key(key)
                &&& after.versions[key] != s.put_id.1
                &&& !before.table.held.contains_key(s.number) ==> after.table.held
                    == before.table.held.insert(s.number, (key, false))
                &&& after.table.next_number == s.number + 1
                &&& after.table.puts == before.table.puts
            }
            &&& r is Err ==> {
                &&& after.table.held == before.table.held
                &&& after.table.puts == before.table.puts
                &&& after.activity == before.activity
            }
            &&& r matches Err(PutStartError::Refused(_)) ==> after == before && (
            request.reject_if_exists && exists_already || request.reject_if_inflight_same_key
                && busy.puts > 0 || busy.reclaim is Some)
            &&& request.reject_if_exists && exists_already ==> r is Err
            &&& forall|k: Seq<char>|
                k != key && #[trigger] before.versions.contains_key(k)
                    ==> after.versions.contains_key(k) && after.versions[k] == before.versions[k]
        }),
{
    let key = request.key@;
    if routes.contains_key(key) {
        let m = routes[key].node_replicas@;
        if routes[key].live() {
            let n = choose|n: Seq<char>| #[trigger] m.contains_key(n) && m[n].live();
            assert(m.contains_key(n) && (memory_on(m, n) || ssd_on(m, n)));
        }
        if exists|n: Seq<char>|
            #[trigger] m.contains_key(n) && (memory_on(m, n) || ssd_on(m, n)) {
            let n = choose|n: Seq<char>|
                #[trigger] m.contains_key(n) && (memory_on(m, n) || ssd_on(m, n));
            assert(m.contains_key(n) && m[n].live());
        }
    }
}

/// A member puts on behalf of another one only if it transfers for it: it names this very node and
/// generation, and both meet at the same place. On its own behalf every member may put.
pub proof fn only_its_own_worker_puts_for_a_node(
    requester: Option<crate::cluster::ClusterMember>,
    requester_id: Seq<char>,
    source: Option<crate::cluster::ClusterMember>,
    source_id: Seq<char>,
    keys: OwnerMetaKeys,
)
    ensures
        ({
            let fault = override_fault(requester, requester_id, source, source_id, keys);
            &&& requester is Some && requester_id == source_id ==> fault is None
            &&& requester is None ==> fault is Some
            &&& fault is None && requester_id != source_id ==> {
                &&& source is Some
                &&& requester->0.flag("side_transfer_worker"@)
                &&& told(requester->0, keys.owner_id@) == Some(source_id)
                &&& told(requester->0, keys.local_ipc_root@) is Some
                &&& told(requester->0, keys.local_ipc_root@) == told(
                    source->0,
                    keys.local_ipc_root@,
                )
                &&& told(requester->0, keys.owner_start_time@) matches Some(t)
                &&& crate::text::signed_value(t) == Some(source->0.node_start_time)
            }
        }),
{
}

/// A put is under way exactly if its target is known and all members that take part are there; its
/// client is told the plan that is noted. Otherwise the put lets go of its key.
pub proof fn a_put_is_under_way_or_lets_go(
    before: PutState,
    put: PutStart,
    target: PutPlacementTarget,
    target_generation: Option<i64>,
    r: Result<(PutPlan, PutPlacementMode), PutStartError>,
    after: PutState,
)
    requires
        put.source is Some,
        put_taken_up(before, put, target, target_generation, r, after),
    ensures
        ({
            let id = (put.key@, put.put_id);
            &&& r matches Ok((plan, mode)) ==> {
                &&& after.table.puts.contains_key(id)
                &&& after.table.held.contains_key(put.number)
                &&& after.table.held[put.number] == (put.key@, true)
                &&& after.activity == before.activity
                &&& plan.put_id == put.put_id
                &&& plan.src_addr == put.source->0.base_addr + put.source->0.addr
                &&& after.table.puts[id].target_node_id@ == plan.node_id@
                &&& after.table.puts[id].len == plan.len
                &&& after.table.puts[id].info_id == put.number
                &&& admits_member(
                    before.members,
                    put.req_node_id@,
                    put.requester_generation,
                )
                &&& mode == PutPlacementMode::Remote <==> target is Remote
                &&& target is Remote ==> target_generation is Some
            }
            &&& r is Err ==> {
                &&& after.table.puts == before.table.puts
                &&& !after.table.held.contains_key(put.number)
            }
            &&& forall|k: KeyId|
                k != id && #[trigger] before.table.puts.contains_key(k)
                    ==> after.table.puts.contains_key(k) && after.table.puts[k]
                    == before.table.puts[k]
        }),
{
    if !(target is Remote && target_generation is None) {
        let started = choose|started: StartedPut|
            {
                let ps = started.info.participants_model();
                let n = ps.len() as int;
                &&& #[trigger] put_placed(put, target, target_generation, started)
                &&& if all_admitted(before.members, ps, n) {
                    &&& r matches Ok((plan, mode))
                    &&& plan == started.plan && mode == started.mode
                    &&& after.table == crate::put_table::taken_up(
                        before.table,
                        (put.key@, put.put_id),
                        started.info,
                    )
                    &&& after.activity == before.activity
                } else {
                    &&& r is Err
                    &&& after.table == crate::put_table::without_hold(before.table, put.number)
                }
            };
        let ps = started.info.participants_model();
        if all_admitted(before.members, ps, ps.len() as int) {
            assert(ps[0] == (put.req_node_id@, put.requester_generation));
        }
    }
}

/// A put that is reported done counts only once, and one that does not count lets go of its key.
pub proof fn a_put_counts_once(
    before: PutState,
    id: KeyId,
    r: Option<InflightPutInfo>,
    after: PutState,
    again: Option<InflightPutInfo>,
    last: PutState,
)
    requires
        put_reported(before, id, r, after),
        put_reported(after, id, again, last),
    ensures
        r matches Some(info) ==> before.table.puts.contains_key(id) && info == before.table.puts[id],
        !after.table.puts.contains_key(id),
        again is None,
        last == after,
        forall|k: KeyId|
            k != id && #[trigger] before.table.puts.contains_key(k) ==> after.table.puts.contains_key(
                k,
            ) && after.table.puts[k] == before.table.puts[k],
{
}

/// A put that is given up is no longer under way and lets go of its key; other puts go on.
pub proof fn a_put_that_is_given_up_lets_go(before: PutState, id: KeyId)
    ensures
        ({
            let after = given_up(before, id);
            &&& !after.table.puts.contains_key(id)
            &&& before.table.puts.contains_key(id) ==> !after.table.held.contains_key(
                before.table.puts[id].info_id,
            )
            &&& !before.table.puts.contains_key(id) ==> after == before
            &&& forall|k: KeyId|
                k != id && #[trigger] before.table.puts.contains_key(k)
                    ==> after.table.puts.contains_key(k) && after.table.puts[k]
                    == before.table.puts[k]
        }),
{
}

/// The bytes of a put count only while the node that has them is there, in the generation in which the
/// put began; they are where the plan said.
pub proof fn bytes_count_in_the_generation_they_were_put_in(
    s: PutStart,
    target: PutPlacementTarget,
    target_generation: Option<i64>,
    started: StartedPut,
    tomb_tag: Option<NodeTombTag>,
    start_time: Option<i64>,
    r: Result<PutTarget, PutDoneError>,
)
    requires
        s.source is Some,
        put_placed(s, target, target_generation, started),
        target_resolved(started.info, tomb_tag, start_time, r),
    ensures
        r is Ok <==> (tomb_tag matches Some(tag) && !tag.tomb) && start_time == Some(
            started.info.target_generation,
        ),
        r matches Ok(t) ==> {
            &&& t.key@ == s.key@
            &&& t.number == s.number
            &&& t.node_id@ == started.plan.node_id@
            &&& t.allocation.base_addr + t.allocation.addr == started.plan.target_addr
            &&& t.allocation.base_addr == started.plan.target_base_addr
            &&& t.allocation.size == started.plan.len
            &&& t.len == started.plan.len
            &&& t.persist_to_ssd == started.info.persist_to_ssd
            &&& Some(t.generation) == start_time
            &&& !t.tomb_tag.tomb
        },
{
}

/// A put is published exactly if the cache has room, the key is tied to its lease if it has one, and the
/// node with the bytes is there. Then the key has this version and no other, with one copy, where the
/// bytes are; the version before is handed out. Otherwise nothing changes. Other keys are not touched.
pub proof fn a_published_version_is_the_only_one(
    m: MemberMap,
    routes: TieredMap,
    target: PutTarget,
    put_id: PutIDForAKey,
    lease_id: Option<u64>,
    route_id: u64,
    answers: PutAnswers,
    cache_enabled: bool,
    m_after: MemberMap,
    after: TieredMap,
    r: Result<PutCompletion, PutDoneError>,
)
    requires
        put_finished(
            m,
            routes,
            target,
            put_id,
            lease_id,
            route_id,
            answers,
            cache_enabled,
            m_after,
            after,
            r,
        ),
    ensures
        ({
            let key = target.key@;
            let node = target.node_id@;
            &&& r is Ok <==> answers.capacity_granted && (lease_id is None
                || answers.lease_attached) && !target.tomb_tag.tomb && admits_member(
                m,
                node,
                target.generation,
            )
            &&& r is Err ==> after == routes && m_after == m
            &&& r matches Ok(done) ==> {
                &&& after.contains_key(key)
                &&& after[key].put_id == put_id
                &&& after[key].lease_id == lease_id
                &&& after[key].route_id == route_id
                &&& forall|n: Seq<char>|
                    #[trigger] after[key].node_replicas@.contains_key(n) <==> n == node
                &&& after[key].node_replicas@[node].memory == Some(target.allocation)
                &&& after[key].node_replicas@[node].ssd is None
                &&& after[key].node_replicas@[node].generation == target.generation
                &&& !after[key].node_replicas@[node].tomb_tag.tomb
                &&& done.replaced is Some <==> routes.contains_key(key)
                &&& done.replaced matches Some(old_route) ==> old_route == routes[key]
                &&& done.follow_up.persist_from is Some <==> target.persist_to_ssd
                &&& done.follow_up.persist_from matches Some(a) ==> a == target.allocation.base_addr
                    + target.allocation.addr
                &&& done.follow_up.cache_weight is Some <==> lease_id is None && cache_enabled
                &&& target.allocation.capacity <= u32::MAX && lease_id is None && cache_enabled
                    ==> done.follow_up.cache_weight == Some(target.allocation.capacity as u32)
                &&& done.follow_up.room == RoomRelease::WithMemory <==> lease_id is Some
                &&& done.follow_up.room == RoomRelease::AfterPersisting <==> lease_id is None
                    && target.persist_to_ssd
            }
            &&& forall|k: Seq<char>|
                k != key ==> (#[trigger] after.contains_key(k) <==> routes.contains_key(k))
            &&& forall|k: Seq<char>|
                k != key && #[trigger] routes.contains_key(k) ==> after[k] == routes[k]
        }),
{
}

/// The bytes that were staged for a put are those that a get of the published version reads: the get is
/// told of the version that was put, of the node and the memory to which the client was told to bring
/// the bytes from the staging memory, and of their number.
pub proof fn a_get_reads_what_was_staged(
    puts: Seq<PutStart>,
    staging: Seq<Option<Allocation>>,
    usages: Seq<SegmentUsage>,
    tries: Seq<PutStartAction>,
    placed: PutPlacementTarget,
    target_generation: Option<i64>,
    started: StartedPut,
    tomb_tag: Option<NodeTombTag>,
    start_time: Option<i64>,
    target: PutTarget,
    m: MemberMap,
    routes: TieredMap,
    lease_id: Option<u64>,
    route_id: u64,
    granted: PutAnswers,
    cache_enabled: bool,
    m_after: MemberMap,
    after: TieredMap,
    done: PutCompletion,
    get_id: u64,
    reader: Seq<char>,
    states: Seq<GetStart>,
    answers: Seq<Result<Allocation, AllocateError>>,
    actions: Seq<GetStartAction>,
    mode: GetAllocationMode,
    reservation: Option<u64>,
    last: GetStart,
    r: StartedGet,
)
    requires
        staging_run(puts, staging, usages, tries),
        staging.last() is Some,
        put_placed(puts.last(), placed, target_generation, started),
        target_resolved(started.info, tomb_tag, start_time, Ok(target)),
        put_finished(
            m,
            routes,
            target,
            puts[0].put_id,
            lease_id,
            route_id,
            granted,
            cache_enabled,
            m_after,
            after,
            Ok(done),
        ),
        get_told(
            after[puts[0].key@],
            get_id,
            puts[0].key@,
            reader,
            states,
            answers,
            actions,
            mode,
            reservation,
            last,
            r,
        ),
    ensures
        started.plan.src_addr == staging.last()->0.base_addr + staging.last()->0.addr,
        r.source.put_id == started.plan.put_id,
        r.source.source_kind == GetSourceKind::Memory,
        r.source.node_id@ == started.plan.node_id@,
        r.source.src_addr == started.plan.target_addr,
        r.source.src_base_addr == started.plan.target_base_addr,
        r.source.len == started.plan.len,
        placed is Local ==> r.source.src_addr == started.plan.src_addr,
{
    lemma_staging(puts, staging, usages, tries, staging.len() as int);
    the_source_is_where_the_bytes_are_staged(
        puts,
        staging,
        usages,
        tries,
        placed,
        target_generation,
        started,
    );
    bytes_count_in_the_generation_they_were_put_in(
        puts.last(),
        placed,
        target_generation,
        started,
        tomb_tag,
        start_time,
        Ok(target),
    );
    a_published_version_is_the_only_one(
        m,
        routes,
        target,
        puts[0].put_id,
        lease_id,
        route_id,
        granted,
        cache_enabled,
        m_after,
        after,
        Ok(done),
    );
    let route = after[puts[0].key@];
    let copies = route.node_replicas@;
    a_get_tells_of_a_live_copy(
        route,
        get_id,
        puts[0].key@,
        reader,
        states,
        answers,
        actions,
        mode,
        reservation,
        last,
        r,
    );
    let node = target.node_id@;
    assert(copies.contains_key(node));
    assert(memory_on(copies, node));
    assert(copies.contains_key(r.info.src_node_id@));
    assert(r.info.src_node_id@ == node);
    if memory_on(copies, reader) {
        assert(copies.contains_key(reader));
    }
}

/// News of a copy on an SSD counts exactly for the current version, beside a copy in the memory of a node
/// that is there; then the copy has the length that was told, and all other copies stay as they are.
pub proof fn an_ssd_copy_stands_beside_its_memory_copy(
    before: TieredMap,
    key: Seq<char>,
    put_id: PutIDForAKey,
    node: Seq<char>,
    len: u64,
    r: SsdCommitOutcome,
    after: TieredMap,
)
    requires
        ssd_copy_noted(before, key, put_id, node, len, r, after),
    ensures
        ({
            let counts = before.contains_key(key) && before[key].put_id == put_id && memory_on(
                before[key].node_replicas@,
                node,
            );
            &&& r == SsdCommitOutcome::Noted(SsdReplicaCommitStatus::Committed) <==> counts
            &&& !counts ==> after == before
            &&& counts ==> {
                let (a, b) = (before[key].node_replicas@, after[key].node_replicas@);
                &&& after.contains_key(key)
                &&& after[key].put_id == put_id
                &&& after[key].lease_id == before[key].lease_id
                &&& ssd_on(b, node)
                &&& b[node].ssd->0.len == len
                &&& b[node].memory == a[node].memory
                &&& b[node].generation == a[node].generation
                &&& forall|n: Seq<char>|
                    n != node ==> (#[trigger] b.contains_key(n) <==> a.contains_key(n))
                &&& forall|n: Seq<char>| n != node && #[trigger] a.contains_key(n) ==> b[n] == a[n]
            }
            &&& forall|k: Seq<char>|
                k != key ==> (#[trigger] after.contains_key(k) <==> before.contains_key(k))
            &&& forall|k: Seq<char>|
                k != key && #[trigger] before.contains_key(k) ==> after[k] == before[k]
        }),
{
}

/// A get that reads a copy on an SSD after the one in memory is gone tells the length with which the copy
/// was noted.
pub proof fn a_get_tells_the_length_that_was_noted(
    before: TieredMap,
    key: Seq<char>,
    put_id: PutIDForAKey,
    node: Seq<char>,
    len: u64,
    noted: TieredMap,
    removal: SsdReplicaRemoval,
    after: TieredMap,
    get_id: u64,
    reader: Seq<char>,
    states: Seq<GetStart>,
    answers: Seq<Result<Allocation, AllocateError>>,
    actions: Seq<GetStartAction>,
    mode: GetAllocationMode,
    reservation: Option<u64>,
    last: GetStart,
    r: StartedGet,
)
    requires
        ssd_copy_noted(
            before,
            key,
            put_id,
            node,
            len,
            SsdCommitOutcome::Noted(SsdReplicaCommitStatus::Committed),
            noted,
        ),
        one_copy_removed(noted, key, node, put_id, Tier::Memory, removal, after),
        after.contains_key(key),
        get_told(
            after[key],
            get_id,
            key,
            reader,
            states,
            answers,
            actions,
            mode,
            reservation,
            last,
            r,
        ),
        r.info.src_node_id@ == node,
    ensures
        r.source.source_kind == GetSourceKind::Ssd,
        r.source.put_id == put_id,
        r.source.node_id@ == node,
        r.source.len == len,
{
    an_ssd_copy_stands_beside_its_memory_copy(
        before,
        key,
        put_id,
        node,
        len,
        SsdCommitOutcome::Noted(SsdReplicaCommitStatus::Committed),
        noted,
    );
    a_get_tells_of_a_live_copy(
        after[key],
        get_id,
        key,
        reader,
        states,
        answers,
        actions,
        mode,
        reservation,
        last,
        r,
    );
}

} // verus!
