//! Ending a put: the new version takes the place of the old one, or nothing changes.
use vstd::prelude::*;

use crate::assoc::{lemma_map_has_row, rows_map, rows_unique, AssocMap};
use crate::binded_state::{
    published, route_unbound, unregister_route_replicas, MemberLifecycleBindedStateCtrl,
};
use crate::delete::{tiered_wf, TieredMap};
use crate::get_start::{
    addressable, candidate, first_step_is, live_memory, memory_found, memory_nodes, names_exactly,
    GetStart, GetStartAction, GetStartPhase,
};
use crate::ids::{NodeID, PutIDForAKey};
use crate::inflight_puts::{
    admitted_put_is_current, all_admitted, bound_range, distinct, not_bound, unbound_all,
    InflightPutAllocation, InflightPutInfo,
};
use crate::key_table::KeyTable;
use crate::member_lifecycle::{
    admits_member, after_absent, after_present, bound, displaced_by, drained_by, ensured, is_current,
    lists, MemberMap, ReplicaIndexKey,
};
use crate::name_set::names_has;
use crate::route_maintenance::{saturating_moka_weight_bytes, weight_of};
use crate::routes::{Allocation, NodeTombTag};
use crate::ssd_ring::KeyId;
use crate::tiered_routes::{KvNodeReplicas, KvSsdReplicaInfo, SsdReplicaCommitStatus, TieredKvRoutes};

verus! {

/// The puts that are under way.
pub type PutMap = Map<KeyId, InflightPutInfo>;

/// Takes a put up: it is bound to its participants, if they are all there.
pub fn insert_inflight_put(
    ctrl: &mut MemberLifecycleBindedStateCtrl,
    puts: &mut AssocMap<ReplicaIndexKey, InflightPutInfo>,
    key: ReplicaIndexKey,
    info: InflightPutInfo,
) -> (r: bool)
    requires
        old(ctrl).wf(),
        old(puts).wf(),
        forall|i: int|
            0 <= i < info.participants_model().len() ==> not_bound(
                old(ctrl).inflight_puts.index@,
                (#[trigger] info.participants_model()[i]).0,
                key@,
            ),
    ensures
        final(ctrl).wf(),
        final(puts).wf(),
        final(ctrl).replicas == old(ctrl).replicas,
        ({
            let m = old(ctrl).inflight_puts.index@;
            let ps = info.participants_model();
            let n = ps.len() as int;
            &&& r == all_admitted(m, ps, n)
            &&& r ==> {
                &&& final(puts)@ == old(puts)@.insert(key@, info)
                &&& final(ctrl).inflight_puts.index@ == bound_range(
                    m,
                    ps,
                    0,
                    n,
                    key@,
                    info.info_id,
                )
            }
            &&& !r ==> {
                &&& final(puts)@ == old(puts)@
                &&& exists|i: int|
                    {
                        &&& 0 <= i < n
                        &&& #[trigger] all_admitted(m, ps, i)
                        &&& !admits_member(m, ps[i].0, ps[i].1)
                        &&& final(ctrl).inflight_puts.index@ == bound_range(
                            m,
                            ps,
                            i,
                            i,
                            key@,
                            info.info_id,
                        )
                    }
            }
        }),
{
    if !ctrl.register_inflight_put_if_active(&key, &info) {
        return false;
    }
    puts.insert(key, info);
    true
}

/// The participants of a put that is under way, if there is one, are no longer bound to it.
pub open spec fn put_unbound(m: MemberMap, puts: PutMap, key: KeyId) -> MemberMap {
    if puts.contains_key(key) {
        let ps = puts[key].participants_model();
        unbound_all(m, ps, ps.len() as int, key, puts[key].info_id)
    } else {
        m
    }
}

/// A put is given up. Without such a put nothing changes.
pub fn cancel_inflight_put(
    ctrl: &mut MemberLifecycleBindedStateCtrl,
    puts: &mut AssocMap<ReplicaIndexKey, InflightPutInfo>,
    key: &ReplicaIndexKey,
) -> (r: Option<InflightPutInfo>)
    requires
        old(ctrl).wf(),
        old(puts).wf(),
    ensures
        final(ctrl).wf(),
        final(puts).wf(),
        final(ctrl).replicas == old(ctrl).replicas,
        final(puts)@ == old(puts)@.remove(key@),
        final(ctrl).inflight_puts.index@ == put_unbound(
            old(ctrl).inflight_puts.index@,
            old(puts)@,
            key@,
        ),
        r == if old(puts)@.contains_key(key@) {
            Some(old(puts)@[key@])
        } else {
            None
        },
{
    match puts.remove(key) {
        None => None,
        Some(info) => {
            ctrl.unregister_inflight_put(key, &info);
            Some(info)
        },
    }
}

/// All participants of the put are there in the generations in which it began.
pub open spec fn put_is_active(m: MemberMap, info: InflightPutInfo, key: KeyId) -> bool {
    forall|i: int|
        0 <= i < info.participants_model().len() ==> is_current(
            m,
            (#[trigger] info.participants_model()[i]).0,
            info.participants_model()[i].1,
            key,
            info.info_id,
        )
}

/// Takes a put that is reported done out of those under way. It counts only if its participants are
/// all still there.
pub fn take_active_inflight_put(
    ctrl: &mut MemberLifecycleBindedStateCtrl,
    puts: &mut AssocMap<ReplicaIndexKey, InflightPutInfo>,
    key: &ReplicaIndexKey,
) -> (r: Option<InflightPutInfo>)
    requires
        old(ctrl).wf(),
        old(puts).wf(),
    ensures
        final(ctrl).wf(),
        final(puts).wf(),
        final(ctrl).replicas == old(ctrl).replicas,
        final(puts)@ == old(puts)@.remove(key@),
        final(ctrl).inflight_puts.index@ == put_unbound(
            old(ctrl).inflight_puts.index@,
            old(puts)@,
            key@,
        ),
        r == if old(puts)@.contains_key(key@) && put_is_active(
            old(ctrl).inflight_puts.index@,
            old(puts)@[key@],
            key@,
        ) {
            Some(old(puts)@[key@])
        } else {
            None
        },
{
    match puts.remove(key) {
        None => None,
        Some(info) => {
            let active = ctrl.contains_current_inflight_put(key, &info);
            ctrl.unregister_inflight_put(key, &info);
            if active {
                Some(info)
            } else {
                None
            }
        },
    }
}

/// Exactly this put is under way.
pub open spec fn put_under_way(puts: PutMap, indexed: (ReplicaIndexKey, u64)) -> bool {
    puts.contains_key(indexed.0@) && puts[indexed.0@].info_id == indexed.1
}

/// The puts that are under way, and the members bound to them, when the first `n` of a list have
/// ended.
pub open spec fn puts_ended(
    m: MemberMap,
    puts: PutMap,
    indexed: Seq<(ReplicaIndexKey, u64)>,
    n: int,
) -> (MemberMap, PutMap)
    decreases n,
{
    if n <= 0 {
        (m, puts)
    } else {
        let before = puts_ended(m, puts, indexed, n - 1);
        if put_under_way(before.1, indexed[n - 1]) {
            let key = indexed[n - 1].0@;
            (put_unbound(before.0, before.1, key), before.1.remove(key))
        } else {
            before
        }
    }
}

/// The number of puts that ended.
pub open spec fn count_ended(
    m: MemberMap,
    puts: PutMap,
    indexed: Seq<(ReplicaIndexKey, u64)>,
    n: int,
) -> int
    decreases n,
{
    if n <= 0 {
        0
    } else {
        count_ended(m, puts, indexed, n - 1) + if put_under_way(
            puts_ended(m, puts, indexed, n - 1).1,
            indexed[n - 1],
        ) {
            1int
        } else {
            0int
        }
    }
}

/// Each put that ended is counted once, and no put is counted that goes on.
pub proof fn ended_puts_are_counted(
    m: MemberMap,
    puts: PutMap,
    indexed: Seq<(ReplicaIndexKey, u64)>,
    n: int,
)
    requires
        0 <= n <= indexed.len(),
        puts.dom().finite(),
    ensures
        puts_ended(m, puts, indexed, n).1.dom().finite(),
        count_ended(m, puts, indexed, n) == puts.dom().len() - puts_ended(
            m,
            puts,
            indexed,
            n,
        ).1.dom().len(),
    decreases n,
{
    if n > 0 {
        ended_puts_are_counted(m, puts, indexed, n - 1);
    }
}

/// All participants of all puts that are under way are there, in the generations in which the puts
/// began.
pub open spec fn puts_are_active(m: MemberMap, puts: PutMap) -> bool {
    forall|k: KeyId| #[trigger] puts.contains_key(k) ==> put_is_active(m, puts[k], k)
}

proof fn lemma_unbound_elsewhere(
    m: MemberMap,
    ps: Seq<(Seq<char>, i64)>,
    n: int,
    key: KeyId,
    id: u64,
    member: Seq<char>,
    generation: i64,
    other: KeyId,
    other_id: u64,
)
    requires
        0 <= n <= ps.len(),
        other != key,
    ensures
        is_current(unbound_all(m, ps, n, key, id), member, generation, other, other_id)
            == is_current(m, member, generation, other, other_id),
    decreases n,
{
    if n > 0 {
        lemma_unbound_elsewhere(
            m,
            ps,
            n - 1,
            key,
            id,
            member,
            generation,
            other,
            other_id,
        );
    }
}

/// Giving up a put leaves the others active.
pub proof fn giving_up_leaves_others_active(m: MemberMap, puts: PutMap, key: KeyId)
    requires
        puts_are_active(m, puts),
    ensures
        puts_are_active(put_unbound(m, puts, key), puts.remove(key)),
{
    let left = puts.remove(key);
    let after = put_unbound(m, puts, key);
    assert forall|k: KeyId| #[trigger] left.contains_key(k) implies put_is_active(
        after,
        left[k],
        k,
    ) by {
        assert(puts.contains_key(k));
        assert(put_is_active(m, puts[k], k));
        lemma_put_unbound_elsewhere(m, puts, key, k, puts[k]);
    }
}

proof fn lemma_put_unbound_elsewhere(
    m: MemberMap,
    puts: PutMap,
    key: KeyId,
    other: KeyId,
    info: InflightPutInfo,
)
    requires
        other != key,
    ensures
        put_is_active(m, info, other) == put_is_active(put_unbound(m, puts, key), info, other),
        forall|member: Seq<char>, generation: i64, id: u64|
            is_current(m, member, generation, other, id) == #[trigger] is_current(
                put_unbound(m, puts, key),
                member,
                generation,
                other,
                id,
            ),
{
    let after = put_unbound(m, puts, key);
    if puts.contains_key(key) {
        let ps = puts[key].participants_model();
        assert forall|member: Seq<char>, generation: i64, id: u64|
            is_current(m, member, generation, other, id) == #[trigger] is_current(
                after,
                member,
                generation,
                other,
                id,
            ) by {
            lemma_unbound_elsewhere(
                m,
                ps,
                ps.len() as int,
                key,
                puts[key].info_id,
                member,
                generation,
                other,
                id,
            );
        }
    }
    let qs = info.participants_model();
    if put_is_active(m, info, other) {
        assert forall|i: int| 0 <= i < qs.len() implies is_current(
            after,
            (#[trigger] qs[i]).0,
            qs[i].1,
            other,
            info.info_id,
        ) by {
            assert(is_current(m, qs[i].0, qs[i].1, other, info.info_id));
        }
    }
    if put_is_active(after, info, other) {
        assert forall|i: int| 0 <= i < qs.len() implies is_current(
            m,
            (#[trigger] qs[i]).0,
            qs[i].1,
            other,
            info.info_id,
        ) by {
            assert(is_current(after, qs[i].0, qs[i].1, other, info.info_id));
        }
    }
}

/// A put that is taken up is active, and so are the others still.
pub proof fn taking_up_keeps_puts_active(
    m: MemberMap,
    puts: PutMap,
    key: KeyId,
    info: InflightPutInfo,
)
    requires
        puts_are_active(m, puts),
        !puts.contains_key(key),
        all_admitted(m, info.participants_model(), info.participants_model().len() as int),
    ensures
        puts_are_active(
            bound_range(
                m,
                info.participants_model(),
                0,
                info.participants_model().len() as int,
                key,
                info.info_id,
            ),
            puts.insert(key, info),
        ),
{
    let ps = info.participants_model();
    let n = ps.len() as int;
    let after = bound_range(m, ps, 0, n, key, info.info_id);
    let now = puts.insert(key, info);
    assert(distinct(ps));
    assert forall|k: KeyId| #[trigger] now.contains_key(k) implies put_is_active(
        after,
        now[k],
        k,
    ) by {
        if k == key {
            assert forall|i: int| 0 <= i < ps.len() implies is_current(
                after,
                (#[trigger] ps[i]).0,
                ps[i].1,
                key,
                info.info_id,
            ) by {
                admitted_put_is_current(m, ps, i, n, key, info.info_id);
            }
        } else {
            assert(puts.contains_key(k));
            assert(put_is_active(m, puts[k], k));
            let qs = puts[k].participants_model();
            assert forall|i: int| 0 <= i < qs.len() implies is_current(
                after,
                (#[trigger] qs[i]).0,
                qs[i].1,
                k,
                puts[k].info_id,
            ) by {
                lemma_bound_elsewhere(
                    m,
                    ps,
                    n,
                    key,
                    info.info_id,
                    qs[i].0,
                    qs[i].1,
                    k,
                    puts[k].info_id,
                );
            }
        }
    }
}

proof fn lemma_bound_elsewhere(
    m: MemberMap,
    ps: Seq<(Seq<char>, i64)>,
    n: int,
    key: KeyId,
    id: u64,
    member: Seq<char>,
    generation: i64,
    other: KeyId,
    other_id: u64,
)
    requires
        0 <= n <= ps.len(),
        other != key,
        is_current(m, member, generation, other, other_id),
    ensures
        is_current(bound_range(m, ps, 0, n, key, id), member, generation, other, other_id),
    decreases n,
{
    if n > 0 {
        lemma_bound_elsewhere(
            m,
            ps,
            n - 1,
            key,
            id,
            member,
            generation,
            other,
            other_id,
        );
    }
}

/// When a generation of a member leaves, all puts that it takes part in are ended, and those that are
/// left have all their participants.
pub proof fn departure_ends_its_puts(
    m: MemberMap,
    puts: PutMap,
    member: Seq<char>,
    generation: i64,
    drained: Seq<(ReplicaIndexKey, u64)>,
)
    requires
        puts_are_active(m, puts),
        lists(drained, drained_by(m, member, generation)),
    ensures
        ({
            let left = puts_ended(
                after_absent(m, member, generation),
                puts,
                drained,
                drained.len() as int,
            );
            puts_are_active(left.0, left.1)
        }),
{
    lemma_cleanup_restores(m, after_absent(m, member, generation), puts, member, drained);
}

/// When a member comes back in a new generation, all puts that the old one takes part in are ended,
/// and those that are left have all their participants.
pub proof fn restart_ends_its_puts(
    m: MemberMap,
    puts: PutMap,
    member: Seq<char>,
    generation: i64,
    displaced: Seq<(ReplicaIndexKey, u64)>,
)
    requires
        puts_are_active(m, puts),
        lists(displaced, displaced_by(m, member, generation)),
    ensures
        ({
            let left = puts_ended(
                after_present(m, member, generation),
                puts,
                displaced,
                displaced.len() as int,
            );
            puts_are_active(left.0, left.1)
        }),
{
    lemma_cleanup_restores(m, after_present(m, member, generation), puts, member, displaced);
}

proof fn lemma_cleanup_restores(
    m: MemberMap,
    changed: MemberMap,
    puts: PutMap,
    member: Seq<char>,
    gone: Seq<(ReplicaIndexKey, u64)>,
)
    requires
        puts_are_active(m, puts),
        rows_unique(gone),
        forall|n: Seq<char>| n != member && #[trigger] m.contains_key(n) ==> changed.contains_key(n)
            && changed[n] == m[n],
        m.contains_key(member) ==> rows_map(gone) == m[member].entries || (changed.contains_key(
            member,
        ) && changed[member] == m[member]) || m[member].departed,
    ensures
        ({
            let left = puts_ended(changed, puts, gone, gone.len() as int);
            puts_are_active(left.0, left.1)
        }),
{
    let left = puts_ended(changed, puts, gone, gone.len() as int);
    assert forall|k: KeyId| #[trigger] left.1.contains_key(k) implies put_is_active(
        left.0,
        left.1[k],
        k,
    ) by {
        lemma_left(changed, puts, gone, gone.len() as int, k);
        let info = puts[k];
        assert(put_is_active(m, info, k));
        let qs = info.participants_model();
        assert forall|i: int| 0 <= i < qs.len() implies is_current(
            changed,
            (#[trigger] qs[i]).0,
            qs[i].1,
            k,
            info.info_id,
        ) by {
            assert(is_current(m, qs[i].0, qs[i].1, k, info.info_id));
            if qs[i].0 == member {
                if rows_map(gone) == m[member].entries {
                    assert(rows_map(gone).contains_key(k));
                    let h = lemma_map_has_row(gone, k);
                    assert(gone[h].0@ == k && gone[h].1 == info.info_id);
                    lemma_listed_is_ended(changed, puts, gone, gone.len() as int, h);
                    assert(false);
                }
            }
        }
        assert(put_is_active(changed, info, k));
    }
}

/// A put that is left was under way all the time, and keeps its participants.
proof fn lemma_left(
    m: MemberMap,
    puts: PutMap,
    gone: Seq<(ReplicaIndexKey, u64)>,
    n: int,
    k: KeyId,
)
    requires
        0 <= n <= gone.len(),
        puts_ended(m, puts, gone, n).1.contains_key(k),
    ensures
        puts.contains_key(k),
        puts_ended(m, puts, gone, n).1[k] == puts[k],
        put_is_active(m, puts[k], k) ==> put_is_active(
            puts_ended(m, puts, gone, n).0,
            puts[k],
            k,
        ),
    decreases n,
{
    if n > 0 {
        let before = puts_ended(m, puts, gone, n - 1);
        lemma_left(m, puts, gone, n - 1, k);
        if put_under_way(before.1, gone[n - 1]) {
            lemma_put_unbound_elsewhere(before.0, before.1, gone[n - 1].0@, k, puts[k]);
        }
    }
}

/// A put that is listed is not left.
proof fn lemma_listed_is_ended(
    m: MemberMap,
    puts: PutMap,
    gone: Seq<(ReplicaIndexKey, u64)>,
    n: int,
    h: int,
)
    requires
        0 <= h < n <= gone.len(),
    ensures
        ({
            let left = puts_ended(m, puts, gone, n).1;
            left.contains_key(gone[h].0@) ==> left[gone[h].0@].info_id != gone[h].1
        }),
    decreases n,
{
    if h < n - 1 {
        lemma_listed_is_ended(m, puts, gone, n - 1, h);
    }
}

/// Why a put that is reported done does not count.
#[derive(Clone, Copy, Debug, PartialEq, Eq, Structural)]
pub enum PutDoneError {
    /// No such put is under way, or not any more.
    NotFound,
    /// The put has been ended already.
    AllocationTaken,
    /// The node that has the bytes is not known.
    TargetUnknown,
    /// The node that has the bytes is gone.
    TargetTombed,
    /// The node that has the bytes was restarted.
    GenerationReplaced,
    /// The cache of the node has no room.
    CapacityRefused,
    /// The key could not be tied to the lease.
    LeaseRefused,
    /// The node left before the new version could be published.
    GenerationLost,
}

/// Where a put has its bytes.
#[derive(Debug)]
pub struct PutTarget {
    /// The number under which the put holds its key.
    pub number: u64,
    pub key: String,
    pub node_id: NodeID,
    pub generation: i64,
    pub len: u64,
    pub persist_to_ssd: bool,
    pub allocation: Allocation,
    pub tomb_tag: NodeTombTag,
}

/// What keeps a put from being ended.
pub open spec fn put_done_fault(
    info: InflightPutInfo,
    tomb_tag: Option<NodeTombTag>,
    target_start_time: Option<i64>,
) -> Option<PutDoneError> {
    if info.allocation is None {
        Some(PutDoneError::AllocationTaken)
    } else if tomb_tag is None {
        Some(PutDoneError::TargetUnknown)
    } else if tomb_tag->0.tomb {
        Some(PutDoneError::TargetTombed)
    } else if target_start_time != Some(info.target_generation) {
        Some(PutDoneError::GenerationReplaced)
    } else {
        None
    }
}

/// The memory that a put has its bytes in.
pub open spec fn target_memory(a: InflightPutAllocation) -> Allocation {
    match a {
        InflightPutAllocation::Local(target) => target,
        InflightPutAllocation::Remote { target, .. } => target,
        InflightPutAllocation::LocalCommittedSlot(_) => arbitrary(),
    }
}

/// The put has its bytes there.
pub open spec fn is_target_of(t: PutTarget, info: InflightPutInfo, tomb_tag: NodeTombTag) -> bool {
    &&& t.number == info.info_id
    &&& t.key == info.key
    &&& t.node_id == info.target_node_id
    &&& t.generation == info.target_generation
    &&& t.len == info.len
    &&& t.persist_to_ssd == info.persist_to_ssd
    &&& t.allocation == target_memory(info.allocation->0)
    &&& t.tomb_tag == tomb_tag
}

/// The bytes of a put that is reported done are found, or do not count.
pub open spec fn target_resolved(
    info: InflightPutInfo,
    tomb_tag: Option<NodeTombTag>,
    target_start_time: Option<i64>,
    r: Result<PutTarget, PutDoneError>,
) -> bool {
    match put_done_fault(info, tomb_tag, target_start_time) {
        Some(e) => r == Err::<PutTarget, PutDoneError>(e),
        None => {
            &&& r matches Ok(t)
            &&& is_target_of(t, info, tomb_tag->0)
        },
    }
}

/// The bytes of a put that is reported done are found. `tomb_tag` is the mark on the node that has
/// them, and `target_start_time` its generation, as far as the node is known.
pub fn resolve_put_target(
    info: InflightPutInfo,
    tomb_tag: Option<NodeTombTag>,
    target_start_time: Option<i64>,
) -> (r: Result<PutTarget, PutDoneError>)
    requires
        !(info.allocation matches Some(InflightPutAllocation::LocalCommittedSlot(_))),
    ensures
        target_resolved(info, tomb_tag, target_start_time, r),
{
    let allocation = match info.allocation {
        Some(InflightPutAllocation::Local(target)) => target,
        Some(InflightPutAllocation::Remote { src: _, target }) => target,
        _ => {
            return Err(PutDoneError::AllocationTaken);
        },
    };
    let tag = match tomb_tag {
        Some(tag) => tag,
        None => {
            return Err(PutDoneError::TargetUnknown);
        },
    };
    if tag.is_tomb() {
        return Err(PutDoneError::TargetTombed);
    }
    let current = match target_start_time {
        Some(start) => start == info.target_generation,
        None => false,
    };
    if !current {
        return Err(PutDoneError::GenerationReplaced);
    }
    Ok(
        PutTarget {
            number: info.info_id,
            key: info.key,
            node_id: info.target_node_id,
            generation: info.target_generation,
            len: info.len,
            persist_to_ssd: info.persist_to_ssd,
            allocation,
            tomb_tag: tag,
        },
    )
}

/// Whether a put that is done may be published.
pub open spec fn put_admission(leased: bool, capacity_granted: bool, lease_attached: bool) -> Result<
    (),
    PutDoneError,
> {
    if !capacity_granted {
        Err(PutDoneError::CapacityRefused)
    } else if leased && !lease_attached {
        Err(PutDoneError::LeaseRefused)
    } else {
        Ok(())
    }
}

/// A put is published only with capacity, and a leased one only with its lease; a put without a lease needs
/// none.
pub proof fn a_put_needs_capacity_and_its_lease(granted: bool, attached: bool)
    ensures
        forall|leased: bool, lease: bool| #[trigger]
            put_admission(leased, false, lease) == Err::<(), PutDoneError>(
                PutDoneError::CapacityRefused,
            ),
        put_admission(false, granted, attached) is Ok <==> granted,
        put_admission(true, granted, attached) is Ok <==> granted && attached,
        put_admission(true, true, false) == Err::<(), PutDoneError>(PutDoneError::LeaseRefused),
{
}

/// The answers to what a put needs before it can be published: room in the cache of the node, and, for
/// a leased key, that the key is tied to the lease.
pub fn admit_put(leased: bool, capacity_granted: bool, lease_attached: bool) -> (r: Result<
    (),
    PutDoneError,
>)
    ensures
        r == put_admission(leased, capacity_granted, lease_attached),
{
    if !capacity_granted {
        Err(PutDoneError::CapacityRefused)
    } else if leased && !lease_attached {
        Err(PutDoneError::LeaseRefused)
    } else {
        Ok(())
    }
}

/// The only copy of a new version.
pub open spec fn sole_copy(t: PutTarget) -> Map<Seq<char>, KvNodeReplicas> {
    Map::<Seq<char>, KvNodeReplicas>::empty().insert(
        t.node_id@,
        KvNodeReplicas {
            tomb_tag: t.tomb_tag,
            generation: t.generation,
            memory: Some(t.allocation),
            ssd: None,
        },
    )
}

/// The route is that of the new version.
pub open spec fn is_new_route(
    route: TieredKvRoutes,
    route_id: u64,
    put_id: PutIDForAKey,
    lease_id: Option<u64>,
    t: PutTarget,
) -> bool {
    &&& route.wf()
    &&& route.route_id == route_id
    &&& route.put_id == put_id
    &&& route.lease_id == lease_id
    &&& route.node_replicas@ == sole_copy(t)
}

/// Publishes a new version. The old route of the key, if there is one, is handed out. If the node has
/// left, nothing changes.
pub fn publish_put(
    ctrl: &mut MemberLifecycleBindedStateCtrl,
    routes: &mut KeyTable<TieredKvRoutes>,
    target: &PutTarget,
    put_id: PutIDForAKey,
    lease_id: Option<u64>,
    route_id: u64,
) -> (r: Result<Option<TieredKvRoutes>, PutDoneError>)
    requires
        old(ctrl).wf(),
        old(routes).wf(),
        tiered_wf(old(routes)@),
    ensures
        final(ctrl).wf(),
        final(routes).wf(),
        tiered_wf(final(routes)@),
        final(ctrl).inflight_puts == old(ctrl).inflight_puts,
        ({
            let m = old(ctrl).replicas.index@;
            let node = target.node_id@;
            let key = target.key@;
            let admitted = !target.tomb_tag.tomb && admits_member(m, node, target.generation);
            match r {
                Err(e) => {
                    &&& !admitted
                    &&& e == PutDoneError::GenerationLost
                    &&& final(routes)@ == old(routes)@
                    &&& final(ctrl).replicas.index@ == m
                },
                Ok(old_route) => {
                    &&& admitted
                    &&& old_route == if old(routes)@.contains_key(key) {
                        Some(old(routes)@[key])
                    } else {
                        None
                    }
                    &&& final(routes)@.contains_key(key)
                    &&& is_new_route(final(routes)@[key], route_id, put_id, lease_id, *target)
                    &&& final(routes)@ == old(routes)@.insert(key, final(routes)@[key])
                    &&& final(ctrl).replicas.index@ == bound(
                        ensured(m, node, target.generation),
                        node,
                        (key, put_id),
                        route_id,
                    )
                },
            }
        }),
{
    let ghost before = routes@;
    let key = &target.key;
    let mut route = TieredKvRoutes::new(route_id, put_id, lease_id);
    let ok = ctrl.publish_memory_replica(
        &target.node_id,
        target.generation,
        key.as_str(),
        &mut route,
        target.allocation,
        target.tomb_tag,
    );
    if !ok {
        return Err(PutDoneError::GenerationLost);
    }
    assert(route.node_replicas@ =~= sole_copy(*target));
    let old_route = routes.insert(key.clone(), route);
    proof {
        assert forall|k: Seq<char>| #[trigger] routes@.contains_key(k) implies routes@[k].wf() by {
            if k != key@ {
                assert(before.contains_key(k));
            }
        }
        assert(routes@ =~= before.insert(key@, routes@[key@]));
    }
    Ok(old_route)
}

/// When the room that was set aside for a put in the cache of the node is given back.
#[derive(Clone, Copy, Debug, PartialEq, Eq, Structural)]
pub enum RoomRelease {
    /// Together with the memory, for leased keys.
    WithMemory,
    /// Once it was tried to write the bytes to the node's SSD.
    AfterPersisting,
    AtOnce,
}

/// When the room that was set aside for a put is given back.
pub open spec fn room_release(leased: bool, persist_to_ssd: bool) -> RoomRelease {
    if leased {
        RoomRelease::WithMemory
    } else if persist_to_ssd {
        RoomRelease::AfterPersisting
    } else {
        RoomRelease::AtOnce
    }
}

/// What is left to be done once a new version is published: the bytes are written to the node's SSD,
/// then the room in the cache is given back, then the cache takes the key in.
#[derive(Clone, Copy, Debug, PartialEq, Eq, Structural)]
pub struct PutFollowUp {
    /// The weight with which the cache of the node takes the key in, if it is to.
    pub cache_weight: Option<u32>,
    /// The bytes are to be written to the node's SSD first; from this address.
    pub persist_from: Option<u64>,
    pub room: RoomRelease,
}

/// What is left to be done once a new version is published: the cache of the node takes the key in,
/// unless it is leased, and the bytes are written to the node's SSD where that was decided.
pub fn put_follow_up(target: &PutTarget, leased: bool, cache_enabled: bool) -> (r: PutFollowUp)
    requires
        addressable(target.allocation),
    ensures
        r.cache_weight == if !leased && cache_enabled {
            Some(weight_of(target.allocation.capacity))
        } else {
            None
        },
        r.persist_from matches Some(a) ==> a == target.allocation.spec_abs_addr(),
        r.persist_from is Some == target.persist_to_ssd,
        r.room == room_release(leased, target.persist_to_ssd),
{
    let cache_weight: Option<u32> = if !leased && cache_enabled {
        Some(saturating_moka_weight_bytes(target.allocation.capacity))
    } else {
        None
    };
    let persist_from: Option<u64> = if target.persist_to_ssd {
        Some(target.allocation.abs_addr())
    } else {
        None
    };
    let room = if leased {
        RoomRelease::WithMemory
    } else if target.persist_to_ssd {
        RoomRelease::AfterPersisting
    } else {
        RoomRelease::AtOnce
    };
    PutFollowUp { cache_weight, persist_from, room }
}

/// The answers to what a put needs before it can be published.
#[derive(Clone, Copy, Debug, PartialEq, Eq, Structural)]
pub struct PutAnswers {
    /// The cache of the node has room.
    pub capacity_granted: bool,
    /// The key is tied to its lease; of no account without a lease.
    pub lease_attached: bool,
}

/// A put that has been ended.
pub struct PutCompletion {
    /// The route of the version before, if there was one.
    pub replaced: Option<TieredKvRoutes>,
    pub follow_up: PutFollowUp,
}

/// What keeps a put from being published.
pub open spec fn publish_fault(
    m: MemberMap,
    target: PutTarget,
    leased: bool,
    answers: PutAnswers,
) -> Option<PutDoneError> {
    if !answers.capacity_granted {
        Some(PutDoneError::CapacityRefused)
    } else if leased && !answers.lease_attached {
        Some(PutDoneError::LeaseRefused)
    } else if target.tomb_tag.tomb || !admits_member(m, target.node_id@, target.generation) {
        Some(PutDoneError::GenerationLost)
    } else {
        None
    }
}

/// A put whose bytes are in place was ended: the new version was published under the number `route_id`,
/// and the copies of the version before are no longer bound to their nodes. If anything was in the way,
/// nothing changed.
pub open spec fn put_finished(
    m: MemberMap,
    routes: TieredMap,
    target: PutTarget,
    put_id: PutIDForAKey,
    lease_id: Option<u64>,
    route_id: u64,
    answers: PutAnswers,
    cache_enabled: bool,
    m_after: MemberMap,
    routes_after: TieredMap,
    r: Result<PutCompletion, PutDoneError>,
) -> bool {
    let node = target.node_id@;
    let key = target.key@;
    let leased = lease_id is Some;
    match publish_fault(m, target, leased, answers) {
        Some(e) => {
            &&& r == Err::<PutCompletion, PutDoneError>(e)
            &&& routes_after == routes
            &&& m_after == m
        },
        None => {
            let registered = bound(
                ensured(m, node, target.generation),
                node,
                (key, put_id),
                route_id,
            );
            &&& r matches Ok(done)
            &&& done.replaced == if routes.contains_key(key) {
                Some(routes[key])
            } else {
                None
            }
            &&& done.follow_up.cache_weight == if !leased && cache_enabled {
                Some(weight_of(target.allocation.capacity))
            } else {
                None
            }
            &&& done.follow_up.persist_from is Some == target.persist_to_ssd
            &&& done.follow_up.persist_from matches Some(a) ==> a
                == target.allocation.spec_abs_addr()
            &&& done.follow_up.room == room_release(leased, target.persist_to_ssd)
            &&& routes_after.contains_key(key)
            &&& is_new_route(routes_after[key], route_id, put_id, lease_id, target)
            &&& routes_after == routes.insert(key, routes_after[key])
            &&& m_after == match done.replaced {
                Some(old_route) => route_unbound(registered, old_route, key),
                None => registered,
            }
        },
    }
}

/// Ends a put whose bytes are in place: the new version is published under the number `route_id`, and
/// the copies of the version before are no longer bound to their nodes. If anything is in the way,
/// nothing changes.
pub fn finish_put(
    ctrl: &mut MemberLifecycleBindedStateCtrl,
    routes: &mut KeyTable<TieredKvRoutes>,
    target: &PutTarget,
    put_id: PutIDForAKey,
    lease_id: Option<u64>,
    route_id: u64,
    answers: PutAnswers,
    cache_enabled: bool,
) -> (r: Result<PutCompletion, PutDoneError>)
    requires
        old(ctrl).wf(),
        old(routes).wf(),
        tiered_wf(old(routes)@),
        addressable(target.allocation),
    ensures
        final(ctrl).wf(),
        final(routes).wf(),
        tiered_wf(final(routes)@),
        final(ctrl).inflight_puts == old(ctrl).inflight_puts,
        put_finished(
            old(ctrl).replicas.index@,
            old(routes)@,
            *target,
            put_id,
            lease_id,
            route_id,
            answers,
            cache_enabled,
            final(ctrl).replicas.index@,
            final(routes)@,
            r,
        ),
{
    let leased = lease_id.is_some();
    match admit_put(leased, answers.capacity_granted, answers.lease_attached) {
        Err(e) => {
            return Err(e);
        },
        Ok(_) => {},
    }
    let replaced = match publish_put(ctrl, routes, target, put_id, lease_id, route_id) {
        Err(e) => {
            return Err(e);
        },
        Ok(replaced) => replaced,
    };
    if let Some(old_route) = &replaced {
        assert(old(routes)@.contains_key(target.key@));
        unregister_route_replicas(ctrl, &target.key, old_route);
    }
    let follow_up = put_follow_up(target, leased, cache_enabled);
    Ok(PutCompletion { replaced, follow_up })
}

/// Whether the cache of a node is to take a key in: the version is current, and exactly this copy is
/// in place.
pub fn insert_memory_replica_into_cache_if_current(
    routes: &KeyTable<TieredKvRoutes>,
    key: &String,
    put_id: PutIDForAKey,
    node_id: &NodeID,
    generation: i64,
    allocation: &Allocation,
) -> (r: bool)
    requires
        routes.wf(),
        tiered_wf(routes@),
    ensures
        r == (routes@.contains_key(key@) && routes@[key@].put_id == put_id
            && routes@[key@].has_allocation(node_id@, generation, *allocation)),
{
    match routes.get(key.as_str()) {
        None => false,
        Some(route) => route.put_id.0 == put_id.0 && route.put_id.1 == put_id.1
            && route.has_memory_replica_allocation(node_id, generation, allocation),
    }
}

/// What became of the news that a node has a copy on its SSD.
#[derive(Clone, Copy, Debug, PartialEq, Eq, Structural)]
pub enum SsdCommitOutcome {
    MissingKey,
    StaleVersion,
    Noted(SsdReplicaCommitStatus),
}

/// What becomes of the news that a node has a copy on its SSD: it counts for the current version,
/// beside a copy in the memory of a node that is there.
pub open spec fn ssd_commit_outcome(
    routes: TieredMap,
    key: Seq<char>,
    put_id: PutIDForAKey,
    node: Seq<char>,
) -> SsdCommitOutcome {
    if !routes.contains_key(key) {
        SsdCommitOutcome::MissingKey
    } else if routes[key].put_id != put_id {
        SsdCommitOutcome::StaleVersion
    } else {
        let m = routes[key].node_replicas@;
        if !m.contains_key(node) || m[node].memory is None {
            SsdCommitOutcome::Noted(SsdReplicaCommitStatus::MissingMemory)
        } else if m[node].tomb_tag.tomb {
            SsdCommitOutcome::Noted(SsdReplicaCommitStatus::TombedNode)
        } else {
            SsdCommitOutcome::Noted(SsdReplicaCommitStatus::Committed)
        }
    }
}

/// The news of a copy on an SSD was taken.
pub open spec fn ssd_copy_noted(
    before: TieredMap,
    key: Seq<char>,
    put_id: PutIDForAKey,
    node: Seq<char>,
    len: u64,
    r: SsdCommitOutcome,
    after: TieredMap,
) -> bool {
    &&& r == ssd_commit_outcome(before, key, put_id, node)
    &&& if r == SsdCommitOutcome::Noted(SsdReplicaCommitStatus::Committed) {
        let m = before[key].node_replicas@;
        &&& after.contains_key(key)
        &&& after[key].same_but_replicas(&before[key])
        &&& after[key].node_replicas@ == m.insert(
            node,
            KvNodeReplicas { ssd: Some(KvSsdReplicaInfo { len }), ..m[node] },
        )
        &&& after == before.insert(key, after[key])
    } else {
        after == before
    }
}

/// A node reports a copy on its SSD.
pub fn handle_ssd_replica_commit(
    routes: &mut KeyTable<TieredKvRoutes>,
    key: &String,
    put_id: PutIDForAKey,
    node_id: &NodeID,
    len: u64,
) -> (r: SsdCommitOutcome)
    requires
        old(routes).wf(),
        tiered_wf(old(routes)@),
    ensures
        final(routes).wf(),
        tiered_wf(final(routes)@),
        ssd_copy_noted(old(routes)@, key@, put_id, node_id@, len, r, final(routes)@),
{
    let ghost before = routes@;
    match routes.get(key.as_str()) {
        None => {
            return SsdCommitOutcome::MissingKey;
        },
        Some(route) => {
            if route.put_id.0 != put_id.0 || route.put_id.1 != put_id.1 {
                return SsdCommitOutcome::StaleVersion;
            }
            match route.node_replicas.get(node_id) {
                None => {
                    return SsdCommitOutcome::Noted(SsdReplicaCommitStatus::MissingMemory);
                },
                Some(replicas) => {
                    if replicas.memory.is_none() {
                        return SsdCommitOutcome::Noted(SsdReplicaCommitStatus::MissingMemory);
                    }
                    if replicas.tomb_tag.is_tomb() {
                        return SsdCommitOutcome::Noted(SsdReplicaCommitStatus::TombedNode);
                    }
                },
            }
        },
    }
    match routes.remove(key.as_str()) {
        None => SsdCommitOutcome::MissingKey,
        Some(mut route) => {
            let status = route.commit_ssd_replica(node_id, len);
            routes.insert(key.clone(), route);
            proof {
                assert(routes@ =~= before.insert(key@, routes@[key@]));
                assert forall|k: Seq<char>| #[trigger]
                    routes@.contains_key(k) implies routes@[k].wf() by {
                    if k != key@ {
                        assert(before.contains_key(k));
                    }
                }
            }
            SsdCommitOutcome::Noted(status)
        },
    }
}

/// A get that begins right after a put reads the version that was put, from the memory that the put
/// wrote: either in place, if the reader's node has it, or into memory that is asked for on the
/// reader's node.
pub proof fn a_get_reads_what_was_put(
    route: TieredKvRoutes,
    route_id: u64,
    put_id: PutIDForAKey,
    lease_id: Option<u64>,
    target: PutTarget,
    get: GetStart,
    after: GetStart,
    action: GetStartAction,
)
    requires
        is_new_route(route, route_id, put_id, lease_id, target),
        !target.tomb_tag.tomb,
        get.put_id == route.put_id,
        get.replicas@ == route.node_replicas@,
        names_exactly(get.memory_left@, memory_nodes(route.node_replicas@)),
        first_step_is(get, after, action),
    ensures
        get.put_id == put_id,
        if get.req_node_id@ == target.node_id@ {
            &&& action matches GetStartAction::Started(started)
            &&& started.source.put_id == put_id
            &&& started.source.src_addr == target.allocation.spec_abs_addr()
            &&& started.source.target_addr == target.allocation.spec_abs_addr()
            &&& started.source.len == target.allocation.size
        } else {
            &&& action matches GetStartAction::Allocate { node, len }
            &&& node@ == get.req_node_id@ && len == target.allocation.size
            &&& after.phase matches GetStartPhase::MemoryTarget { src_node, src }
            &&& src_node@ == target.node_id@ && src == target.allocation
        },
{
    let m = route.node_replicas@;
    let node = target.node_id@;
    assert(m =~= sole_copy(target));
    assert(m.contains_key(node));
    assert(memory_nodes(m).contains(node));
    assert(names_has(get.memory_left@, node));
    assert(candidate(get.replicas@, get.memory_left@, node, true));
    let n = choose|n: Seq<char>|
        candidate(get.replicas@, get.memory_left@, n, true) && #[trigger] memory_found(
            get,
            n,
            after,
            action,
        );
    assert(live_memory(m, n));
    assert(n == node);
    assert(live_memory(m, get.req_node_id@) == (get.req_node_id@ == node));
}

/// News about a version that is no longer the current one changes nothing.
pub proof fn stale_ssd_news_is_ignored(
    routes: TieredMap,
    key: Seq<char>,
    put_id: PutIDForAKey,
    node: Seq<char>,
)
    requires
        routes.contains_key(key) ==> routes[key].put_id != put_id,
    ensures
        ssd_commit_outcome(routes, key, put_id, node)
            != SsdCommitOutcome::Noted(SsdReplicaCommitStatus::Committed),
{
}

} // verus!
