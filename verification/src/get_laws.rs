//! What a get tells the reader and what it leaves behind, from its beginning to its end.
use vstd::prelude::*;

use crate::align::{lemma_aligned_up, SSD_ALIGNMENT_BYTES};
use crate::delete::TieredMap;
use crate::get::{
    committed, done_case, get_abandoned, get_start_answered, meta_told, next_number,
    reader_gave_up, revoke_answered, revoked_get, slot_asked, slot_settled, slot_taken,
    source_gave_up, stage_reported, used_of, CacheReservation, CapacityAnswer, DoneStep, EndedGet,
    GetCommit, GetError, GetTableModel, RevokeStep,
};
use crate::get_alloc::AllocateError;
use crate::get_start::{
    answered, candidate, get_begun, memory_found, memory_nodes, reserved_is, run_step, same_search,
    search_run, ssd_found, ssd_step_is, tombs_cleaned, GetSourceKind, GetStart, GetStartAction,
    GetStartPhase, StartedGet,
};
use crate::holdings::{held_elsewhere, key_held, HoldingMap};
use crate::msg_pack::GetAllocationMode;
use crate::name_set::names_has;
use crate::routes::{Allocation, NodeTombTag};
use crate::tiered_routes::{Replicas, TieredKvRoutes};

verus! {

/// The node is there and has a copy in memory.
pub open spec fn memory_on(m: Replicas, n: Seq<char>) -> bool {
    m.contains_key(n) && !m[n].tomb_tag.tomb && m[n].memory is Some
}

/// The node is there and has a copy on its SSD.
pub open spec fn ssd_on(m: Replicas, n: Seq<char>) -> bool {
    m.contains_key(n) && !m[n].tomb_tag.tomb && m[n].ssd is Some
}

/// Memory of `len` bytes was asked for on a node, and this memory was granted.
pub open spec fn granted(
    actions: Seq<GetStartAction>,
    answers: Seq<Result<Allocation, AllocateError>>,
    i: int,
    a: Allocation,
    node: Seq<char>,
    len: int,
) -> bool {
    &&& actions[i] matches GetStartAction::Allocate { node: on, len: wanted }
    &&& on@ == node && wanted == len
    &&& answers[i] == Ok::<Allocation, AllocateError>(a)
}

/// One of the first `k` answers granted this memory.
pub open spec fn was_granted(
    actions: Seq<GetStartAction>,
    answers: Seq<Result<Allocation, AllocateError>>,
    k: int,
    a: Allocation,
    node: Seq<char>,
    len: int,
) -> bool {
    exists|i: int| 0 <= i < k && #[trigger] granted(actions, answers, i, a, node, len)
}

/// The bytes staged for a value of `len` bytes are whole blocks, and no more than it takes.
pub open spec fn whole_blocks(stage_len: int, len: int) -> bool {
    stage_len % 512 == 0 && len <= stage_len < len + 512
}

/// What is known where a get stands.
spec fn phase_known(
    m: Replicas,
    reader: Seq<char>,
    actions: Seq<GetStartAction>,
    answers: Seq<Result<Allocation, AllocateError>>,
    k: int,
    phase: GetStartPhase,
) -> bool {
    match phase {
        GetStartPhase::Searching => true,
        GetStartPhase::Over => true,
        GetStartPhase::MemoryTarget { src_node, src } => {
            &&& memory_on(m, src_node@) && m[src_node@].memory == Some(src)
            &&& !memory_on(m, reader)
            &&& actions[k - 1] matches GetStartAction::Allocate { node, len }
            &&& node@ == reader && len == src.size
        },
        GetStartPhase::MemoryDurable { src_node, src, target } => {
            &&& memory_on(m, src_node@) && m[src_node@].memory == Some(src)
            &&& !memory_on(m, reader)
            &&& was_granted(actions, answers, k - 1, target, reader, src.size as int)
        },
        GetStartPhase::SsdTarget { node, len, stage_len } => {
            &&& ssd_known(m, node@, len, stage_len as int)
            &&& actions[k - 1] matches GetStartAction::Allocate { node: on, len: wanted }
            &&& on@ == reader && wanted == len
        },
        GetStartPhase::SsdSource { node, len, stage_len, target, target_addr } => {
            &&& ssd_known(m, node@, len, stage_len as int)
            &&& node@ != reader
            &&& target_addr == target.base_addr + target.addr
            &&& was_granted(actions, answers, k - 1, target, reader, len as int)
            &&& actions[k - 1] matches GetStartAction::Allocate { node: on, len: wanted }
            &&& on@ == node@ && wanted == stage_len + 511
        },
        GetStartPhase::SsdDurable {
            node,
            len,
            target,
            target_addr,
            source,
            src_base,
            src_addr,
            stage_len,
        } => {
            &&& ssd_on(m, node@) && m[node@].ssd->0.len == len
            &&& forall|n: Seq<char>| !#[trigger] memory_on(m, n)
            &&& target_addr == target.base_addr + target.addr
            &&& was_granted(actions, answers, k - 1, target, reader, len as int)
            &&& match source {
                None => {
                    &&& node@ == reader
                    &&& src_base == target.base_addr
                    &&& src_addr == target_addr
                    &&& stage_len == target.capacity
                },
                Some(a) => {
                    &&& node@ != reader
                    &&& whole_blocks(stage_len as int, len as int)
                    &&& was_granted(actions, answers, k - 1, a, node@, stage_len + 511)
                    &&& src_base == a.base_addr
                    &&& src_addr as int % 512 == 0
                    &&& a.base_addr + a.addr <= src_addr <= a.base_addr + a.addr + 511
                },
            }
        },
    }
}

/// The copy on the SSD of a node is read, since no copy in memory can be.
spec fn ssd_known(m: Replicas, node: Seq<char>, len: u64, stage_len: int) -> bool {
    &&& ssd_on(m, node)
    &&& m[node].ssd->0.len == len
    &&& whole_blocks(stage_len, len as int)
    &&& forall|n: Seq<char>| !#[trigger] memory_on(m, n)
}

proof fn lemma_ssd_step(
    s: GetStart,
    tombs: Set<Seq<char>>,
    after: GetStart,
    actions: Seq<GetStartAction>,
    answers: Seq<Result<Allocation, AllocateError>>,
    k: int,
)
    requires
        ssd_step_is(s, tombs, after, actions[k - 1]),
        forall|n: Seq<char>| !#[trigger] memory_on(s.replicas@, n),
    ensures
        phase_known(s.replicas@, s.req_node_id@, actions, answers, k, after.phase),
        !(actions[k - 1] is Started),
        !(actions[k - 1] is ReserveDurable),
        after.phase is Over || after.phase is SsdTarget,
{
    let m = s.replicas@;
    if exists|n: Seq<char>| candidate(m, s.ssd_left@, n, false) {
        let n = choose|n: Seq<char>|
            candidate(m, s.ssd_left@, n, false) && #[trigger] ssd_found(
                s,
                tombs,
                n,
                after,
                actions[k - 1],
            );
        lemma_aligned_up(m[n].ssd->0.len as int, SSD_ALIGNMENT_BYTES as int);
        assert(ssd_on(m, n));
    }
}

proof fn lemma_get_run(
    states: Seq<GetStart>,
    answers: Seq<Result<Allocation, AllocateError>>,
    actions: Seq<GetStartAction>,
    k: int,
)
    requires
        search_run(states, answers, actions),
        1 <= k < states.len(),
    ensures
        same_search(states[k], states[0]),
        phase_known(
            states[0].replicas@,
            states[0].req_node_id@,
            actions,
            answers,
            k,
            states[k].phase,
        ),
        actions[k - 1] matches GetStartAction::ReserveDurable { capacity } ==> match states[k].phase {
            GetStartPhase::MemoryDurable { target, .. } => capacity == target.capacity,
            GetStartPhase::SsdDurable { target, .. } => capacity == target.capacity,
            _ => false,
        },
        (states[k].phase is MemoryDurable || states[k].phase is SsdDurable)
            ==> actions[k - 1] is ReserveDurable,
        actions[k - 1] is Started ==> k == 1 && memory_on(
            states[0].replicas@,
            states[0].req_node_id@,
        ),
        memory_on(states[0].replicas@, states[0].req_node_id@) ==> k > 1 || actions[0] is Started,
    decreases k,
{
    let m = states[0].replicas@;
    let reader = states[0].req_node_id@;
    let action = actions[k - 1];
    if k == 1 {
        let (first, after) = (states[0], states[1]);
        if exists|n: Seq<char>| candidate(m, first.memory_left@, n, true) {
            let n = choose|n: Seq<char>|
                candidate(m, first.memory_left@, n, true) && #[trigger] memory_found(
                    first,
                    n,
                    after,
                    action,
                );
            assert(memory_on(m, n));
        } else {
            assert forall|n: Seq<char>| !#[trigger] memory_on(m, n) by {
                if memory_on(m, n) {
                    assert(memory_nodes(m).contains(n));
                    assert(names_has(first.memory_left@, n));
                    assert(candidate(m, first.memory_left@, n, true));
                }
            }
            lemma_ssd_step(
                first,
                first.tombs@.union(crate::get_start::names_of(first.memory_left@)),
                after,
                actions,
                answers,
                1,
            );
        }
    } else {
        lemma_get_run(states, answers, actions, k - 1);
        assert(run_step(states, answers, actions, k - 2));
        let before = states[k - 1];
        let after = states[k];
        let answer = answers[k - 2];
        assert(answered(before, answer, after, action));
        lemma_grants_stay(actions, answers, k - 2);
        match before.phase {
            GetStartPhase::MemoryTarget { src_node, src } => {
                if let Ok(a) = answer {
                    assert(granted(actions, answers, k - 2, a, reader, src.size as int));
                    assert(was_granted(actions, answers, k - 1, a, reader, src.size as int));
                }
            },
            GetStartPhase::SsdTarget { node, len, stage_len } => {
                if let Ok(a) = answer {
                    assert(granted(actions, answers, k - 2, a, reader, len as int));
                    assert(was_granted(actions, answers, k - 1, a, reader, len as int));
                }
            },
            GetStartPhase::SsdSource { node, len, stage_len, target, target_addr } => {
                match answer {
                    Ok(a) => {
                        assert(granted(actions, answers, k - 2, a, node@, stage_len + 511));
                        assert(was_granted(actions, answers, k - 1, a, node@, stage_len + 511));
                        assert(was_granted(actions, answers, k - 1, target, reader, len as int));
                        lemma_aligned_up(a.base_addr + a.addr, SSD_ALIGNMENT_BYTES as int);
                    },
                    Err(_) => {
                        lemma_ssd_step(before, before.tombs@, after, actions, answers, k);
                    },
                }
            },
            _ => {},
        }
    }
}

proof fn lemma_grants_stay(
    actions: Seq<GetStartAction>,
    answers: Seq<Result<Allocation, AllocateError>>,
    k: int,
)
    ensures
        forall|a: Allocation, node: Seq<char>, len: int| #[trigger]
            was_granted(actions, answers, k, a, node, len) ==> was_granted(
                actions,
                answers,
                k + 1,
                a,
                node,
                len,
            ),
{
    assert forall|a: Allocation, node: Seq<char>, len: int| #[trigger]
        was_granted(actions, answers, k, a, node, len) implies was_granted(
        actions,
        answers,
        k + 1,
        a,
        node,
        len,
    ) by {
        let i = choose|i: int| 0 <= i < k && #[trigger] granted(actions, answers, i, a, node, len);
        assert(granted(actions, answers, i, a, node, len));
    }
}

/// A get of a key runs until the reader is told where the bytes are: it reuses a copy on the reader's
/// node, or the right to leave a further copy was asked for and answered by `mode` and `reservation`.
pub open spec fn get_told(
    route: TieredKvRoutes,
    get_id: u64,
    key: Seq<char>,
    reader: Seq<char>,
    states: Seq<GetStart>,
    answers: Seq<Result<Allocation, AllocateError>>,
    actions: Seq<GetStartAction>,
    mode: GetAllocationMode,
    reservation: Option<u64>,
    after: GetStart,
    r: StartedGet,
) -> bool {
    &&& get_begun(route, get_id, key, reader, states[0])
    &&& search_run(states, answers, actions)
    &&& mode != GetAllocationMode::ReuseReplica
    &&& {
        ||| actions.last() == GetStartAction::Started(r)
        ||| actions.last() is ReserveDurable && reserved_is(
            states.last(),
            mode,
            reservation,
            after,
            r,
        )
    }
}

/// The reader is told of the version that is the current one, and of a copy that there is: the length is
/// that of the copy, and the source is where the copy lies. A copy in memory is preferred, and one on
/// the reader's own node is used in place.
pub proof fn a_get_tells_of_a_live_copy(
    route: TieredKvRoutes,
    get_id: u64,
    key: Seq<char>,
    reader: Seq<char>,
    states: Seq<GetStart>,
    answers: Seq<Result<Allocation, AllocateError>>,
    actions: Seq<GetStartAction>,
    mode: GetAllocationMode,
    reservation: Option<u64>,
    after: GetStart,
    r: StartedGet,
)
    requires
        get_told(
            route,
            get_id,
            key,
            reader,
            states,
            answers,
            actions,
            mode,
            reservation,
            after,
            r,
        ),
    ensures
        ({
            let m = route.node_replicas@;
            let n = r.info.src_node_id@;
            &&& r.source.put_id == route.put_id
            &&& r.source.get_id == get_id
            &&& r.source.len == match r.source.source_kind {
                GetSourceKind::Memory => m[n].memory->0.size,
                GetSourceKind::Ssd => m[n].ssd->0.len,
            }
            &&& match r.source.source_kind {
                GetSourceKind::Memory => memory_on(m, n),
                GetSourceKind::Ssd => ssd_on(m, n) && forall|x: Seq<char>|
                    !#[trigger] memory_on(m, x),
            }
            &&& memory_on(m, reader) ==> {
                &&& r.info.allocation_mode == GetAllocationMode::ReuseReplica
                &&& r.source.node_id@ == reader
                &&& r.source.src_addr == m[reader].memory->0.base_addr + m[reader].memory->0.addr
                &&& r.source.src_base_addr == m[reader].memory->0.base_addr
            }
            &&& !memory_on(m, reader) ==> {
                &&& r.info.allocation_mode == mode
                &&& r.source.node_id@ == n
                &&& r.source.source_kind == GetSourceKind::Memory ==> {
                    &&& r.source.src_addr == m[n].memory->0.base_addr + m[n].memory->0.addr
                    &&& r.source.src_base_addr == m[n].memory->0.base_addr
                }
            }
        }),
{
    lemma_get_run(states, answers, actions, states.len() - 1);
    lemma_first_memory(states, answers, actions);
}

/// A copy in memory on the reader's node ends the search at once.
proof fn lemma_first_memory(
    states: Seq<GetStart>,
    answers: Seq<Result<Allocation, AllocateError>>,
    actions: Seq<GetStartAction>,
)
    requires
        search_run(states, answers, actions),
        actions.last() is Started || actions.last() is ReserveDurable,
    ensures
        memory_on(states[0].replicas@, states[0].req_node_id@) ==> actions.last() is Started,
        actions.last() is Started ==> {
            let s = states[0];
            let m = s.replicas@;
            exists|n: Seq<char>|
                memory_on(m, n) && #[trigger] memory_found(s, n, states[1], actions.last())
        },
{
    let k = states.len() - 1;
    let s = states[0];
    let m = s.replicas@;
    lemma_get_run(states, answers, actions, k);
    lemma_get_run(states, answers, actions, 1);
    if memory_on(m, s.req_node_id@) {
        assert(states[1].phase is Over);
        if k > 1 {
            assert(run_step(states, answers, actions, 0));
        }
    }
    if actions.last() is Started {
        assert(k == 1);
        if exists|n: Seq<char>| candidate(m, s.memory_left@, n, true) {
            let n = choose|n: Seq<char>|
                candidate(m, s.memory_left@, n, true) && #[trigger] memory_found(
                    s,
                    n,
                    states[1],
                    actions[0],
                );
            assert(memory_on(m, n));
        } else {
            assert(names_has(s.memory_left@, s.req_node_id@)) by {
                assert(memory_nodes(m).contains(s.req_node_id@));
            }
            assert(candidate(m, s.memory_left@, s.req_node_id@, true));
        }
    }
}

/// The bytes of a value go to memory that was granted on the reader's node for exactly that many bytes,
/// or to the copy that is used in place. Bytes of another node's SSD are staged there, in whole blocks,
/// within memory that was granted for them; bytes of the reader's own SSD are read straight into the
/// target.
pub proof fn a_get_writes_where_it_may(
    route: TieredKvRoutes,
    get_id: u64,
    key: Seq<char>,
    reader: Seq<char>,
    states: Seq<GetStart>,
    answers: Seq<Result<Allocation, AllocateError>>,
    actions: Seq<GetStartAction>,
    mode: GetAllocationMode,
    reservation: Option<u64>,
    after: GetStart,
    r: StartedGet,
)
    requires
        get_told(
            route,
            get_id,
            key,
            reader,
            states,
            answers,
            actions,
            mode,
            reservation,
            after,
            r,
        ),
    ensures
        ({
            let m = route.node_replicas@;
            let n = r.info.src_node_id@;
            let to = r.info.allocation;
            let all = answers.len() as int;
            &&& r.source.target_base_addr == to.base_addr
            &&& r.source.target_addr == to.base_addr + to.addr
            &&& if r.info.allocation_mode == GetAllocationMode::ReuseReplica {
                &&& memory_on(m, reader)
                &&& to == m[reader].memory->0
                &&& r.source.src_addr == r.source.target_addr
            } else {
                was_granted(actions, answers, all, to, reader, r.source.len as int)
            }
            &&& r.source.source_kind == GetSourceKind::Memory ==> {
                &&& r.source.ssd_stage_len == 0
                &&& r.info.source_allocation == m[n].memory
                &&& !r.info.remote_ssd_stage
            }
            &&& r.source.source_kind == GetSourceKind::Ssd && n == reader ==> {
                &&& r.source.src_addr == r.source.target_addr
                &&& r.source.src_base_addr == to.base_addr
                &&& r.source.ssd_stage_len == to.capacity
                &&& r.info.source_allocation is None
                &&& !r.info.remote_ssd_stage
            }
            &&& r.source.source_kind == GetSourceKind::Ssd && n != reader ==> {
                let stage = r.source.ssd_stage_len as int;
                &&& r.info.remote_ssd_stage
                &&& whole_blocks(stage, r.source.len as int)
                &&& r.source.src_addr as int % 512 == 0
                &&& r.info.source_allocation matches Some(a)
                &&& was_granted(actions, answers, all, a, n, stage + 511)
                &&& r.source.src_base_addr == a.base_addr
                &&& a.base_addr + a.addr <= r.source.src_addr
                &&& r.source.src_addr + stage <= a.base_addr + a.addr + (stage + 511)
            }
        }),
{
    lemma_get_run(states, answers, actions, states.len() - 1);
    lemma_first_memory(states, answers, actions);
}

/// What is noted of a get agrees with what the reader is told, and with what was asked for.
pub proof fn a_get_is_noted_as_told(
    route: TieredKvRoutes,
    get_id: u64,
    key: Seq<char>,
    reader: Seq<char>,
    states: Seq<GetStart>,
    answers: Seq<Result<Allocation, AllocateError>>,
    actions: Seq<GetStartAction>,
    mode: GetAllocationMode,
    reservation: Option<u64>,
    after: GetStart,
    r: StartedGet,
)
    requires
        get_told(
            route,
            get_id,
            key,
            reader,
            states,
            answers,
            actions,
            mode,
            reservation,
            after,
            r,
        ),
    ensures
        r.info.put_id == r.source.put_id,
        r.info.key@ == key,
        r.info.req_node_id@ == reader,
        r.info.len == r.source.len,
        r.info.source_kind == r.source.source_kind,
        r.info.route_id == route.route_id,
        r.info.allocation_mode == GetAllocationMode::ReuseReplica ==> {
            &&& actions.len() == 1
            &&& r.info.cache_capacity_reservation is None
        },
        r.info.allocation_mode != GetAllocationMode::ReuseReplica ==> {
            &&& r.info.allocation_mode == mode
            &&& r.info.cache_capacity_reservation == reservation
            &&& actions.last() == (GetStartAction::ReserveDurable {
                capacity: r.info.allocation.capacity,
            })
        },
        r.touch_source_cache <==> r.source.source_kind == GetSourceKind::Memory && route.lease_id
            is None,
{
    lemma_get_run(states, answers, actions, states.len() - 1);
    lemma_first_memory(states, answers, actions);
}

/// A key whose length is told can be read, and the other way round; the length is that of a copy which a
/// get of the same route may read, from memory if there is one there.
pub proof fn a_told_length_is_that_of_a_copy(routes: TieredMap, key: Seq<char>, r: Option<u64>)
    requires
        meta_told(routes, key, r),
    ensures
        r is Some <==> routes.contains_key(key) && ((exists|n: Seq<char>| #[trigger]
            memory_on(routes[key].node_replicas@, n)) || (exists|n: Seq<char>| #[trigger]
            ssd_on(routes[key].node_replicas@, n))),
        r matches Some(len) ==> {
            let m = routes[key].node_replicas@;
            ||| exists|n: Seq<char>| #[trigger] memory_on(m, n) && m[n].memory->0.size == len
            ||| (exists|n: Seq<char>| #[trigger] ssd_on(m, n) && m[n].ssd->0.len == len) && (
            forall|n: Seq<char>| !#[trigger] memory_on(m, n))
        },
{
    if routes.contains_key(key) {
        let m = routes[key].node_replicas@;
        if routes[key].live() {
            let n = choose|n: Seq<char>| #[trigger] m.contains_key(n) && m[n].live();
            assert(memory_on(m, n) || ssd_on(m, n));
            if exists|x: Seq<char>| crate::get_start::live_memory(m, x) {
                let x = choose|x: Seq<char>| #[trigger]
                    crate::get_start::live_memory(m, x) && r == Some(m[x].memory->0.size);
                assert(memory_on(m, x));
            } else {
                let x = choose|x: Seq<char>| #[trigger]
                    crate::get_start::live_ssd(m, x) && r == Some(m[x].ssd->0.len);
                assert(ssd_on(m, x));
                assert forall|y: Seq<char>| !#[trigger] memory_on(m, y) by {
                    assert(!crate::get_start::live_memory(m, y));
                }
            }
        } else {
            assert forall|y: Seq<char>| !#[trigger] memory_on(m, y) by {
                if m.contains_key(y) {
                    assert(!m[y].live());
                }
            }
            assert forall|y: Seq<char>| !#[trigger] ssd_on(m, y) by {
                if m.contains_key(y) {
                    assert(!m[y].live());
                }
            }
        }
    }
}

/// Two gets that begin one after another have different numbers, and so have two values that readers
/// come to hold.
pub proof fn numbers_in_a_row_differ(n: u64)
    ensures
        next_number(n) != n,
        n < u64::MAX ==> next_number(n) == n + 1,
{
}

/// A get that is done by a reader that is still there: the reader holds the bytes under the number that
/// it is told, whatever becomes of the copy.
pub proof fn a_done_get_is_held(
    m0: GetTableModel,
    r0: TieredMap,
    get_id: u64,
    tomb_tag: Option<NodeTombTag>,
    generation: i64,
    m1: GetTableModel,
    r1: TieredMap,
    r: Result<GetCommit, (GetError, Option<CacheReservation>)>,
)
    requires
        committed(m0, r0, get_id, true, tomb_tag, generation, m1, r1, r),
        m0.inflight.contains_key(get_id),
    ensures
        r is Ok,
        ({
            let info = m0.inflight[get_id];
            let holder = (info.req_node_id@, r->Ok_0.response.holder_id);
            &&& m1.holdings.contains_key(holder)
            &&& m1.holdings[holder].key@ == info.key@
            &&& m1.holdings[holder].len == info.len
            &&& m1.holdings[holder].allocation == info.allocation
            &&& r->Ok_0.response.holder_id == m0.next_holder_id
            &&& m1.next_holder_id != m0.next_holder_id
            &&& forall|h: (Seq<char>, u64)|
                h != holder && #[trigger] m0.holdings.contains_key(h) ==> m1.holdings.contains_key(h)
                    && m1.holdings[h] == m0.holdings[h]
            &&& !m1.inflight.contains_key(get_id)
            &&& forall|other: u64|
                other != get_id && #[trigger] m0.inflight.contains_key(other)
                    ==> m1.inflight.contains_key(other) && m1.inflight[other]
                    == m0.inflight[other]
        }),
{
}

/// A get that is done is remembered: the reader, and the node that staged the bytes if there was one, are given
/// the same answer again, and no one else is. What enters the cache of the reader is the copy that was left, with
/// its version and weight.
pub proof fn a_done_get_is_remembered(
    m0: GetTableModel,
    r0: TieredMap,
    get_id: u64,
    tomb_tag: Option<NodeTombTag>,
    generation: i64,
    m1: GetTableModel,
    r1: TieredMap,
    r: Result<GetCommit, (GetError, Option<CacheReservation>)>,
    caller: Seq<char>,
)
    requires
        committed(m0, r0, get_id, true, tomb_tag, generation, m1, r1, r),
        m0.inflight.contains_key(get_id),
    ensures
        ({
            let info = m0.inflight[get_id];
            let response = r->Ok_0.response;
            let holder = (info.req_node_id@, response.holder_id);
            let done = m1.completed[get_id];
            &&& m1.completed.contains_key(get_id)
            &&& done.answer_for(info.req_node_id@) == Some(response)
            &&& info.remote_ssd_stage ==> done.answer_for(info.src_node_id@) == Some(response)
            &&& caller != info.req_node_id@ && !(info.remote_ssd_stage && caller
                == info.src_node_id@) ==> done.answer_for(caller) is None
            &&& done.holder_key@ == holder
            &&& m1.holdings[holder].holding_node_id@ == info.req_node_id@
            &&& forall|other: u64|
                other != get_id && #[trigger] m0.completed.contains_key(other)
                    ==> m1.completed.contains_key(other) && m1.completed[other]
                    == m0.completed[other]
            &&& r->Ok_0.cache_entry matches Some(entry) ==> {
                &&& entry.key@ == info.key@
                &&& entry.put_id == info.put_id
                &&& info.allocation.capacity <= u32::MAX ==> entry.weight_bytes
                    == info.allocation.capacity
                &&& info.allocation.capacity > u32::MAX ==> entry.weight_bytes == u32::MAX
            }
        }),
{
}

/// A get leaves a further copy exactly if it was to, the version that it read is still the current one
/// and the reader's node is there: then the copy lies where the bytes went. Otherwise no route changes.
/// The reader is told which it was, and the slot of the route stays in use only for a copy.
pub proof fn a_done_get_leaves_a_copy_where_the_bytes_went(
    m0: GetTableModel,
    r0: TieredMap,
    get_id: u64,
    tomb_tag: Option<NodeTombTag>,
    generation: i64,
    m1: GetTableModel,
    r1: TieredMap,
    r: Result<GetCommit, (GetError, Option<CacheReservation>)>,
)
    requires
        committed(m0, r0, get_id, true, tomb_tag, generation, m1, r1, r),
        m0.inflight.contains_key(get_id),
        m0.inflight[get_id].allocation_mode == GetAllocationMode::DurableReplica
            ==> m0.slots.contains_key(get_id) && used_of(m0.used, m0.slots[get_id]) > 0,
    ensures
        ({
            let info = m0.inflight[get_id];
            let key = info.key@;
            let reader = info.req_node_id@;
            let leaves = info.allocation_mode == GetAllocationMode::DurableReplica
                && r0.contains_key(key) && r0[key].put_id == info.put_id && (tomb_tag matches Some(
                tag,
            ) && !tag.tomb);
            &&& r->Ok_0.response.allocation_mode == GetAllocationMode::DurableReplica <==> leaves
            &&& leaves ==> {
                let (a, b) = (r0[key].node_replicas@, r1[key].node_replicas@);
                &&& r1.dom() == r0.dom()
                &&& r1[key].put_id == r0[key].put_id
                &&& r1[key].lease_id == r0[key].lease_id
                &&& memory_on(b, reader)
                &&& b[reader].memory == Some(info.allocation)
                &&& b[reader].generation == generation
                &&& a.contains_key(reader) && a[reader].generation == generation
                    ==> b[reader].ssd == a[reader].ssd
                &&& forall|n: Seq<char>|
                    n != reader ==> (#[trigger] b.contains_key(n) <==> a.contains_key(n))
                &&& forall|n: Seq<char>|
                    n != reader && #[trigger] a.contains_key(n) ==> b[n] == a[n]
                &&& forall|k: Seq<char>|
                    k != key && #[trigger] r0.contains_key(k) ==> r1[k] == r0[k]
                &&& used_of(m1.used, m0.slots[get_id]) == used_of(m0.used, m0.slots[get_id])
                &&& r->Ok_0.cache_entry is Some <==> r0[key].lease_id is None
            }
            &&& !leaves ==> r1 == r0 && r->Ok_0.cache_entry is None
            &&& !leaves && info.allocation_mode == GetAllocationMode::DurableReplica ==> {
                &&& r->Ok_0.response.allocation_mode == GetAllocationMode::Temporary
                &&& used_of(m1.used, m0.slots[get_id]) == used_of(m0.used, m0.slots[get_id]) - 1
            }
            &&& forall|route: u64|
                !(info.allocation_mode == GetAllocationMode::DurableReplica && route
                    == m0.slots[get_id]) ==> #[trigger] used_of(m1.used, route) == used_of(
                    m0.used,
                    route,
                )
            &&& info.cache_capacity_reservation matches Some(bytes) ==> {
                &&& r->Ok_0.released_reservation matches Some(back)
                &&& back.bytes == bytes && back.node_id@ == reader
            }
            &&& info.cache_capacity_reservation is None ==> r->Ok_0.released_reservation is None
        }),
{
    let info = m0.inflight[get_id];
    if r1 != r0 {
        assert(r1.dom() =~= r0.dom());
    }
}

/// A reader that has left gets nothing: no route changes, nothing is held, and what was set aside for the
/// get is free again.
pub proof fn a_get_of_a_reader_that_left_leaves_nothing(
    m0: GetTableModel,
    r0: TieredMap,
    get_id: u64,
    tomb_tag: Option<NodeTombTag>,
    generation: i64,
    m1: GetTableModel,
    r1: TieredMap,
    r: Result<GetCommit, (GetError, Option<CacheReservation>)>,
)
    requires
        committed(m0, r0, get_id, false, tomb_tag, generation, m1, r1, r),
        m0.inflight.contains_key(get_id),
        m0.inflight[get_id].allocation_mode == GetAllocationMode::DurableReplica
            ==> m0.slots.contains_key(get_id) && used_of(m0.used, m0.slots[get_id]) > 0,
    ensures
        r is Err,
        r1 == r0,
        m1.holdings == m0.holdings,
        m1.completed == m0.completed,
        m1.inflight == m0.inflight.remove(get_id),
        m0.inflight[get_id].allocation_mode == GetAllocationMode::DurableReplica ==> used_of(
            m1.used,
            m0.slots[get_id],
        ) == used_of(m0.used, m0.slots[get_id]) - 1,
        m0.inflight[get_id].cache_capacity_reservation matches Some(bytes) ==> {
            &&& r->Err_0.1 matches Some(back)
            &&& back.bytes == bytes && back.node_id@ == m0.inflight[get_id].req_node_id@
        },
{
}

/// Only the reader ends a get, or the node that stages bytes for it; both only while it is under way. A
/// get that is done is answered as before.
pub proof fn only_those_who_take_part_end_a_get(m: GetTableModel, get_id: u64, caller: Seq<char>)
    ensures
        ({
            let step = done_case(m, get_id, caller);
            let info = m.inflight[get_id];
            let under_way = m.inflight.contains_key(get_id) && !m.completed.contains_key(get_id);
            &&& step is Commit <==> under_way && !info.remote_ssd_stage && caller
                == info.req_node_id@
            &&& step is AskStage <==> under_way && info.remote_ssd_stage && caller
                == info.src_node_id@
            &&& step is Reply <==> m.completed.contains_key(get_id) && (caller
                == m.completed[get_id].requester_node_id@ || caller
                == m.completed[get_id].committer_node_id@)
            &&& step matches DoneStep::Reply(reply) ==> reply == m.completed[get_id].response
        }),
{
}

/// Whoever takes no part in a get can neither give it up nor change anything by trying.
pub proof fn strangers_give_nothing_up(
    m0: GetTableModel,
    r0: TieredMap,
    get_id: u64,
    caller: Seq<char>,
    drop_ssd_source: bool,
    r: RevokeStep,
    m1: GetTableModel,
    r1: TieredMap,
)
    requires
        revoke_answered(m0, r0, get_id, caller, drop_ssd_source, r, m1, r1),
        m0.inflight.contains_key(get_id),
        !m0.completed.contains_key(get_id),
        caller != m0.inflight[get_id].req_node_id@,
        m0.inflight[get_id].remote_ssd_stage ==> caller != m0.inflight[get_id].src_node_id@,
    ensures
        r is Refused,
        m1 == m0,
        r1 == r0,
{
}

/// The reader of a get that nobody stages gives it up: it is over at once. Where another node stages the
/// bytes, the stage is asked first. A reader that gives up what it already has lets go of it.
pub proof fn the_reader_can_give_up(
    m0: GetTableModel,
    r0: TieredMap,
    get_id: u64,
    caller: Seq<char>,
    drop_ssd_source: bool,
    r: RevokeStep,
    m1: GetTableModel,
    r1: TieredMap,
)
    requires
        revoke_answered(m0, r0, get_id, caller, drop_ssd_source, r, m1, r1),
    ensures
        m0.inflight.contains_key(get_id) && !m0.completed.contains_key(get_id) && caller
            == m0.inflight[get_id].req_node_id@ && !m0.inflight[get_id].remote_ssd_stage ==> {
            &&& r is Done
            &&& !m1.inflight.contains_key(get_id)
        },
        m0.inflight.contains_key(get_id) && !m0.completed.contains_key(get_id)
            && m0.inflight[get_id].remote_ssd_stage && (caller == m0.inflight[get_id].req_node_id@
            || caller == m0.inflight[get_id].src_node_id@) ==> {
            &&& r == (RevokeStep::AskStage {
                from_source: caller == m0.inflight[get_id].src_node_id@,
            })
            &&& m1 == m0
        },
        m0.completed.contains_key(get_id) && caller == m0.completed[get_id].requester_node_id@ ==> {
            &&& !m1.completed.contains_key(get_id)
            &&& !m1.holdings.contains_key(m0.completed[get_id].holder_key@)
            &&& r1 == r0
        },
{
}

/// Giving up what is not under way costs nothing: of a get that is not known, or that was delivered by the one that
/// gives up, nothing changes; a reader that gives up what it has loses no copy and ends no other get. Whoever is
/// not concerned is refused.
pub proof fn giving_up_what_is_over_costs_nothing(
    m0: GetTableModel,
    r0: TieredMap,
    get_id: u64,
    caller: Seq<char>,
    drop_ssd_source: bool,
    r: RevokeStep,
    m1: GetTableModel,
    r1: TieredMap,
)
    requires
        revoke_answered(m0, r0, get_id, caller, drop_ssd_source, r, m1, r1),
        m0.completed.contains_key(get_id) || !m0.inflight.contains_key(get_id) || (caller
            != m0.inflight[get_id].req_node_id@ || m0.inflight[get_id].remote_ssd_stage),
    ensures
        r1 == r0,
        m1.inflight == m0.inflight && m1.slots == m0.slots && m1.used == m0.used,
        m1.next_holder_id == m0.next_holder_id,
        r matches RevokeStep::Done(ended) ==> ended.removal is None && ended.reservation is None,
        r matches RevokeStep::Refused(e) ==> e == GetError::WrongCaller && m1 == m0,
        !m0.completed.contains_key(get_id) ==> m1 == m0,
        !m0.completed.contains_key(get_id) && !m0.inflight.contains_key(get_id) ==> r is Done,
        m0.completed.contains_key(get_id) ==> {
            let done = m0.completed[get_id];
            &&& r is Done <==> caller == done.requester_node_id@ || caller == done.committer_node_id@
            &&& r is Refused <==> caller != done.requester_node_id@ && caller
                != done.committer_node_id@
            &&& caller != done.requester_node_id@ ==> m1 == m0
            &&& caller == done.requester_node_id@ ==> m1.completed == m0.completed.remove(get_id)
                && m1.holdings == m0.holdings.remove(done.holder_key@)
        },
{
}

/// A get that was given up leaves nothing behind: its slot and the capacity kept back for it are free
/// again, other gets go on, and no copy is lost but the one on the SSD that could not be read, if that
/// was asked for.
pub proof fn a_get_that_was_given_up_leaves_nothing(
    m0: GetTableModel,
    r0: TieredMap,
    get_id: u64,
    drop_ssd_source: bool,
    m1: GetTableModel,
    r1: TieredMap,
    ended: EndedGet,
)
    requires
        revoked_get(m0, r0, get_id, drop_ssd_source, m1, r1, ended),
        m0.inflight.contains_key(get_id),
        m0.inflight[get_id].allocation_mode == GetAllocationMode::DurableReplica
            ==> m0.slots.contains_key(get_id) && used_of(m0.used, m0.slots[get_id]) > 0,
    ensures
        ({
            let info = m0.inflight[get_id];
            let key = info.key@;
            let node = info.src_node_id@;
            &&& m1.inflight == m0.inflight.remove(get_id)
            &&& m1.holdings == m0.holdings
            &&& m1.completed == m0.completed
            &&& info.allocation_mode == GetAllocationMode::DurableReplica ==> used_of(
                m1.used,
                m0.slots[get_id],
            ) == used_of(m0.used, m0.slots[get_id]) - 1 && !m1.slots.contains_key(get_id)
            &&& info.cache_capacity_reservation matches Some(bytes) ==> {
                &&& ended.reservation matches Some(back)
                &&& back.bytes == bytes && back.node_id@ == info.req_node_id@
            }
            &&& info.cache_capacity_reservation is None ==> ended.reservation is None
            &&& !drop_ssd_source || info.source_kind == GetSourceKind::Memory ==> r1 == r0
            &&& forall|k: Seq<char>|
                k != key ==> (#[trigger] r1.contains_key(k) <==> r0.contains_key(k))
            &&& forall|k: Seq<char>| k != key && #[trigger] r0.contains_key(k) ==> r1[k] == r0[k]
            &&& r1.contains_key(key) ==> r0.contains_key(key)
            &&& r1.contains_key(key) ==> forall|n: Seq<char>|
                n != node && #[trigger] r0[key].node_replicas@.contains_key(n)
                    ==> r1[key].node_replicas@.contains_key(n) && r1[key].node_replicas@[n]
                    == r0[key].node_replicas@[n]
            &&& r1.contains_key(key) && memory_on(r0[key].node_replicas@, node) ==> memory_on(
                r1[key].node_replicas@,
                node,
            )
            &&& drop_ssd_source && info.source_kind == GetSourceKind::Ssd && r0.contains_key(key)
                && r0[key].put_id == info.put_id && r1.contains_key(key) ==> !ssd_on(
                r1[key].node_replicas@,
                node,
            )
            &&& r0.contains_key(key) && !r1.contains_key(key) ==> {
                &&& forall|n: Seq<char>| !#[trigger] memory_on(r0[key].node_replicas@, n)
                &&& forall|n: Seq<char>|
                    n != node ==> !#[trigger] ssd_on(r0[key].node_replicas@, n)
            }
        }),
{
    let info = m0.inflight[get_id];
    let key = info.key@;
    let node = info.src_node_id@;
    if r0.contains_key(key) && !r1.contains_key(key) {
        let left = TieredKvRoutes::without_ssd(r0[key].node_replicas@, node);
        assert(!crate::delete::some_live(left));
        assert forall|n: Seq<char>| !#[trigger] memory_on(r0[key].node_replicas@, n) by {
            if memory_on(r0[key].node_replicas@, n) {
                assert(left.contains_key(n) && left[n].live());
            }
        }
        assert forall|n: Seq<char>| n != node implies !#[trigger] ssd_on(
            r0[key].node_replicas@,
            n,
        ) by {
            if ssd_on(r0[key].node_replicas@, n) {
                assert(left.contains_key(n) && left[n].live());
            }
        }
    }
}

/// A get that asked for a slot either is to leave a further copy and holds the slot, or is not and the
/// route has as many slots left as before.
pub proof fn a_slot_is_held_exactly_for_a_copy(
    m0: GetTableModel,
    get_id: u64,
    route_id: u64,
    leased: bool,
    answer: CapacityAnswer,
    r: (GetAllocationMode, Option<u64>),
    m1: GetTableModel,
)
    requires
        !m0.slots.contains_key(get_id),
        used_of(m0.used, route_id) < u32::MAX,
        slot_settled(slot_taken(m0, get_id, route_id), get_id, leased, answer, r, m1),
    ensures
        r.0 == GetAllocationMode::DurableReplica <==> !(answer is Refused),
        r.0 == GetAllocationMode::DurableReplica || r.0 == GetAllocationMode::Temporary,
        r.0 == GetAllocationMode::DurableReplica <==> m1.slots.contains_key(get_id),
        used_of(m1.used, route_id) == used_of(m0.used, route_id) + if r.0
            == GetAllocationMode::DurableReplica {
            1int
        } else {
            0int
        },
        forall|other: u64| other != route_id ==> #[trigger] used_of(m1.used, other) == used_of(
            m0.used,
            other,
        ),
        forall|other: u64|
            other != get_id ==> (#[trigger] m1.slots.contains_key(other) <==> m0.slots.contains_key(
                other,
            )),
        r.1 matches Some(bytes) ==> !leased && answer == (CapacityAnswer::Reserved { bytes }),
        !leased && answer is Reserved ==> r.1 is Some,
        m1.inflight == m0.inflight,
{
}

/// Cleaning up after a get takes only copies on the nodes that were found gone out of the version that
/// was read, and the route only if nothing that is alive is left.
pub proof fn cleaning_up_spares_the_living(
    before: TieredMap,
    key: Seq<char>,
    put_id: (u64, u32),
    tombs: Set<Seq<char>>,
    after: TieredMap,
)
    requires
        tombs_cleaned(before, key, put_id, tombs, after),
    ensures
        forall|k: Seq<char>| k != key ==> (#[trigger] after.contains_key(k) <==> before.contains_key(k)),
        forall|k: Seq<char>| k != key && #[trigger] before.contains_key(k) ==> after[k] == before[k],
        before.contains_key(key) && before[key].put_id != put_id ==> after.contains_key(key)
            && after[key] == before[key],
        before.contains_key(key) && !after.contains_key(key) ==> {
            &&& forall|n: Seq<char>| #[trigger]
                memory_on(before[key].node_replicas@, n) ==> tombs.contains(n)
            &&& forall|n: Seq<char>| #[trigger]
                ssd_on(before[key].node_replicas@, n) ==> tombs.contains(n)
        },
        before.contains_key(key) && after.contains_key(key) ==> {
            let (a, b) = (before[key].node_replicas@, after[key].node_replicas@);
            &&& forall|n: Seq<char>|
                !tombs.contains(n) && #[trigger] a.contains_key(n) ==> b.contains_key(n) && b[n]
                    == a[n]
            &&& before[key].put_id == put_id ==> forall|n: Seq<char>| #[trigger]
                b.contains_key(n) ==> a.contains_key(n) && !tombs.contains(n)
        },
{
    if before.contains_key(key) && !after.contains_key(key) {
        let left = before[key].node_replicas@.remove_keys(tombs);
        assert forall|n: Seq<char>| #[trigger]
            memory_on(before[key].node_replicas@, n) implies tombs.contains(n) by {
            if !tombs.contains(n) {
                assert(left.contains_key(n) && left[n].live());
            }
        }
        assert forall|n: Seq<char>| #[trigger]
            ssd_on(before[key].node_replicas@, n) implies tombs.contains(n) by {
            if !tombs.contains(n) {
                assert(left.contains_key(n) && left[n].live());
            }
        }
    }
}

/// A get finds every key that has a route, and no other; each get has a number of its own.
pub proof fn every_key_with_a_route_is_found(
    m0: GetTableModel,
    routes: TieredMap,
    key: Seq<char>,
    reader: Seq<char>,
    r: Option<GetStart>,
    m1: GetTableModel,
)
    requires
        get_start_answered(m0, routes, key, reader, r, m1),
    ensures
        r is Some <==> routes.contains_key(key),
        r matches Some(s) ==> {
            &&& s.get_id == m0.next_get_id
            &&& s.put_id == routes[key].put_id
            &&& s.replicas@ == routes[key].node_replicas@
            &&& forall|n: Seq<char>| #[trigger]
                memory_on(routes[key].node_replicas@, n) ==> names_has(s.memory_left@, n)
            &&& forall|n: Seq<char>| #[trigger]
                ssd_on(routes[key].node_replicas@, n) ==> names_has(s.ssd_left@, n)
        },
        m1.next_get_id != m0.next_get_id,
        m1.inflight == m0.inflight,
        m1.slots == m0.slots,
        m1.used == m0.used,
{
    if let Some(s) = r {
        let m = routes[key].node_replicas@;
        assert forall|n: Seq<char>| #[trigger] memory_on(m, n) implies names_has(s.memory_left@, n) by {
            assert(memory_nodes(m).contains(n));
        }
        assert forall|n: Seq<char>| #[trigger] ssd_on(m, n) implies names_has(s.ssd_left@, n) by {
            assert(crate::get_start::ssd_nodes(m).contains(n));
        }
    }
}

/// Two gets of a route may leave further copies at a time, and no more; a slot that is granted is counted
/// once.
pub proof fn a_route_has_two_slots(
    m0: GetTableModel,
    get_id: u64,
    route_id: u64,
    r: bool,
    m1: GetTableModel,
)
    requires
        slot_asked(m0, get_id, route_id, r, m1),
    ensures
        r <==> used_of(m0.used, route_id) < 2,
        r ==> used_of(m1.used, route_id) == used_of(m0.used, route_id) + 1
            && m1.slots.contains_key(get_id) && m1.slots[get_id] == route_id,
        !r ==> m1 == m0,
        forall|other: u64| other != route_id ==> #[trigger] used_of(m1.used, other) == used_of(
            m0.used,
            other,
        ),
        m1.inflight == m0.inflight,
{
}

/// A get whose time is over loses no copy: all routes stay, and what was set aside for it is free again.
pub proof fn a_get_that_is_abandoned_costs_no_copy(
    m0: GetTableModel,
    r0: TieredMap,
    get_id: u64,
    reservation: Option<CacheReservation>,
    m1: GetTableModel,
    r1: TieredMap,
)
    requires
        get_abandoned(m0, r0, get_id, reservation, m1, r1),
        m0.inflight.contains_key(get_id) && m0.inflight[get_id].allocation_mode
            == GetAllocationMode::DurableReplica ==> m0.slots.contains_key(get_id) && used_of(
            m0.used,
            m0.slots[get_id],
        ) > 0,
    ensures
        r1 == r0,
        !m1.inflight.contains_key(get_id),
        m0.inflight.contains_key(get_id) ==> {
            let info = m0.inflight[get_id];
            &&& info.cache_capacity_reservation is Some <==> reservation is Some
            &&& reservation matches Some(back) ==> Some(back.bytes)
                == info.cache_capacity_reservation && back.node_id@ == info.req_node_id@
            &&& info.allocation_mode == GetAllocationMode::DurableReplica ==> used_of(
                m1.used,
                m0.slots[get_id],
            ) == used_of(m0.used, m0.slots[get_id]) - 1
        },
{
}

/// Where another node stages the bytes, a get ends as the stage says: a stage that has ended before, or
/// that goes on, changes nothing; otherwise the get is over.
pub proof fn the_stage_decides(
    m0: GetTableModel,
    r0: TieredMap,
    get_id: u64,
    outcome: Option<bool>,
    given_up: Result<EndedGet, GetError>,
    m1: GetTableModel,
    r1: TieredMap,
    defer: bool,
    drop_ssd_source: bool,
    ended: EndedGet,
    m2: GetTableModel,
    r2: TieredMap,
    report: Option<(bool, bool)>,
    reported: Result<(), (GetError, EndedGet)>,
    m3: GetTableModel,
    r3: TieredMap,
)
    requires
        source_gave_up(m0, r0, get_id, outcome, given_up, m1, r1),
        reader_gave_up(m0, r0, get_id, defer, drop_ssd_source, ended, m2, r2),
        stage_reported(m0, r0, get_id, report, reported, m3, r3),
    ensures
        given_up is Ok <==> outcome is Some,
        outcome is Some ==> !m1.inflight.contains_key(get_id),
        outcome is None ==> m1 == m0 && r1 == r0,
        outcome == Some(false) ==> r1 == r0,
        defer ==> m2 == m0 && r2 == r0,
        !defer ==> !m2.inflight.contains_key(get_id),
        !defer && !drop_ssd_source ==> r2 == r0,
        reported is Ok <==> (report matches Some((revoked, _)) && !revoked),
        reported is Ok ==> m3 == m0 && r3 == r0,
        report matches Some((true, _)) ==> !m3.inflight.contains_key(get_id),
        report is None ==> m3 == m0 && r3 == r0,
{
}

/// A node that is gone holds nothing any more, and every other node holds what it held.
pub proof fn a_node_that_is_gone_holds_nothing(m: HoldingMap, node: Seq<char>, h: (Seq<char>, u64))
    ensures
        held_elsewhere(m, node).contains_key(h) <==> m.contains_key(h) && h.0 != node,
        m.contains_key(h) && h.0 != node ==> held_elsewhere(m, node)[h] == m[h],
        m.contains_key(h) && h.0 != node ==> key_held(held_elsewhere(m, node), m[h].key@),
{
    if m.contains_key(h) && h.0 != node {
        assert(held_elsewhere(m, node).contains_key(h));
    }
}

} // verus!
