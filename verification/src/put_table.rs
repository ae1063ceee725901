//! The puts of a node, from the moment at which they hold their keys until they let go of them.
//!
//! A put holds its key while it begins, while it is under way and while its version is published.
//! The activity of a key counts the puts that hold it.
use vstd::prelude::*;

use crate::admission::AdmissionError;
use crate::assoc::AssocMap;
use crate::binded_state::MemberLifecycleBindedStateCtrl;
use crate::delete::{tiered_wf, TieredMap};
use crate::get_alloc::SegmentUsage;
use crate::get_start::addressable;
use crate::ids::PutIDForAKey;
use crate::inflight_puts::{
    all_admitted, bound_range, not_bound, unbound_all, InflightPutAllocation, InflightPutInfo,
};
use crate::key_activity::{
    activity_of, admits, release_undoes_reserve, with_activity, ActivityMap,
    MasterKeyActivityKind, MasterKeyActivityTable,
};
use crate::key_table::KeyTable;
use crate::member_lifecycle::{
    admits_member, after_absent, after_present, MemberMap, ReplicaIndexKey,
};
use crate::observe::PutPlacementMode;
use crate::placement::PutPlacementTarget;
use crate::put::{
    cancel_inflight_put, count_ended, finish_put, insert_inflight_put, put_finished, put_is_active,
    put_unbound, put_under_way, puts_ended, resolve_put_target, take_active_inflight_put,
    target_resolved, PutAnswers, PutCompletion, PutDoneError, PutMap, PutTarget,
};
use crate::put_start::{
    begin_put, next_version, put_placed, staging_tried, target_fits, OwnerMetaKeys, PutOrigin,
    PutPlan, PutStart, PutStartAction, PutStartError, RecentVersions, StartedPut,
    PUT_SOURCE_ATTEMPTS,
};
use crate::routes::{Allocation, NodeTombTag};
use crate::ssd_ring::KeyId;
use crate::tiered_routes::TieredKvRoutes;

verus! {

/// A put's hold on its key.
pub struct HeldKey {
    pub key: String,
    /// The put is one of those under way, rather than about to begin or to end.
    pub under_way: bool,
}

/// The holds on keys by their numbers: the key, and whether the put is under way.
pub type Holds = Map<u64, (Seq<char>, bool)>;

/// The puts, as mathematical values.
#[verifier::ext_equal]
pub struct PutTableModel {
    pub puts: PutMap,
    pub held: Holds,
    pub next_number: u64,
}

/// The puts of a node.
pub struct PutTable {
    puts: AssocMap<ReplicaIndexKey, InflightPutInfo>,
    held: AssocMap<u64, HeldKey>,
    next_number: u64,
}

impl View for PutTable {
    type V = PutTableModel;

    closed spec fn view(&self) -> PutTableModel {
        PutTableModel {
            puts: self.puts@,
            held: self.held@.map_values(|h: HeldKey| (h.key@, h.under_way)),
            next_number: self.next_number,
        }
    }
}

/// The holds on one key.
pub open spec fn keepers(held: Holds, key: Seq<char>) -> Set<u64> {
    held.dom().filter(|n: u64| held[n].0 == key)
}

/// The activity of each key covers the puts that hold it.
pub open spec fn holds_counted(held: Holds, a: ActivityMap) -> bool {
    &&& held.dom().finite()
    &&& forall|k: Seq<char>| #[trigger] keepers(held, k).len() <= activity_of(a, k).puts
}

/// Each put that is under way has a hold of its own on its key.
pub open spec fn puts_hold_keys(puts: PutMap, held: Holds) -> bool {
    &&& forall|id: KeyId| #[trigger]
        puts.contains_key(id) ==> {
            &&& puts[id].key@ == id.0
            &&& held.contains_key(puts[id].info_id)
            &&& held[puts[id].info_id] == (id.0, true)
        }
    &&& forall|a: KeyId, b: KeyId| #[trigger]
        puts.contains_key(a) && #[trigger] puts.contains_key(b) && a != b ==> puts[a].info_id
            != puts[b].info_id
}

/// What holds of the puts at any time.
pub open spec fn puts_inv(t: PutTableModel, a: ActivityMap) -> bool {
    &&& holds_counted(t.held, a)
    &&& puts_hold_keys(t.puts, t.held)
    &&& forall|n: u64| #[trigger] t.held.contains_key(n) ==> n < t.next_number
}

/// One put less holds the key.
pub open spec fn one_put_less(a: ActivityMap, key: Seq<char>) -> ActivityMap {
    with_activity(a, key, activity_of(a, key).step(MasterKeyActivityKind::Put, -1))
}

/// One put more holds the key.
pub open spec fn one_put_more(a: ActivityMap, key: Seq<char>) -> ActivityMap {
    with_activity(a, key, activity_of(a, key).step(MasterKeyActivityKind::Put, 1))
}

proof fn lemma_hold_added(t: PutTableModel, a: ActivityMap, key: Seq<char>)
    requires
        puts_inv(t, a),
        t.next_number < u64::MAX,
    ensures
        puts_inv(
            PutTableModel {
                held: t.held.insert(t.next_number, (key, false)),
                next_number: (t.next_number + 1) as u64,
                ..t
            },
            one_put_more(a, key),
        ),
{
    let n = t.next_number;
    let next = t.held.insert(n, (key, false));
    let after = one_put_more(a, key);
    assert(!t.held.contains_key(n));
    assert(next.dom() =~= t.held.dom().insert(n));
    assert forall|k: Seq<char>| #[trigger] keepers(next, k).len() <= activity_of(after, k).puts by {
        let was = keepers(t.held, k);
        assert(was.len() <= activity_of(a, k).puts);
        if k == key {
            assert(keepers(next, k) =~= was.insert(n));
        } else {
            assert(keepers(next, k) =~= was);
        }
    }
}

proof fn lemma_hold_counts(held: Holds, a: ActivityMap, n: u64)
    requires
        holds_counted(held, a),
        held.contains_key(n),
    ensures
        activity_of(a, held[n].0).puts > 0,
{
    let k = held[n].0;
    assert(keepers(held, k).contains(n));
    assert(keepers(held, k).len() > 0);
    assert(keepers(held, k).len() <= activity_of(a, k).puts);
}

proof fn lemma_hold_removed(held: Holds, a: ActivityMap, n: u64)
    requires
        holds_counted(held, a),
        held.contains_key(n),
    ensures
        holds_counted(held.remove(n), one_put_less(a, held[n].0)),
{
    let key = held[n].0;
    let next = held.remove(n);
    let after = one_put_less(a, key);
    assert(next.dom() =~= held.dom().remove(n));
    assert forall|k: Seq<char>| #[trigger] keepers(next, k).len() <= activity_of(after, k).puts by {
        let was = keepers(held, k);
        assert(was.len() <= activity_of(a, k).puts);
        if k == key {
            assert(was.contains(n));
            assert(keepers(next, k) =~= was.remove(n));
        } else {
            assert(keepers(next, k) =~= was);
        }
    }
}

/// The put is bound to the member.
pub open spec fn binds(m: MemberMap, member: Seq<char>, id: KeyId) -> bool {
    m.contains_key(member) && m[member].entries.contains_key(id)
}

/// The member takes part in the put.
pub open spec fn takes_part(info: InflightPutInfo, member: Seq<char>) -> bool {
    exists|i: int|
        0 <= i < info.participants_model().len() && (#[trigger] info.participants_model()[i]).0
            == member
}

/// Members are bound to puts that are under way only, and only if they take part in them.
pub open spec fn bindings_known(m: MemberMap, puts: PutMap) -> bool {
    forall|member: Seq<char>, id: KeyId| #[trigger]
        binds(m, member, id) ==> {
            &&& puts.contains_key(id)
            &&& m[member].entries[id] == puts[id].info_id
            &&& takes_part(puts[id], member)
        }
}

proof fn lemma_unbound_binds(
    m: MemberMap,
    ps: Seq<(Seq<char>, i64)>,
    n: int,
    key: KeyId,
    id: u64,
    member: Seq<char>,
    other: KeyId,
)
    requires
        0 <= n <= ps.len(),
    ensures
        binds(unbound_all(m, ps, n, key, id), member, other) ==> {
            &&& binds(m, member, other)
            &&& unbound_all(m, ps, n, key, id)[member].entries[other] == m[member].entries[other]
        },
        other == key && binds(m, member, key) && m[member].entries[key] == id && (exists|i: int|
            0 <= i < n && (#[trigger] ps[i]).0 == member) ==> !binds(
            unbound_all(m, ps, n, key, id),
            member,
            key,
        ),
    decreases n,
{
    if n > 0 {
        lemma_unbound_binds(m, ps, n - 1, key, id, member, other);
        let before = unbound_all(m, ps, n - 1, key, id);
        if other == key && binds(m, member, key) && m[member].entries[key] == id && (exists|i: int|
            0 <= i < n && (#[trigger] ps[i]).0 == member) {
            let i = choose|i: int| 0 <= i < n && (#[trigger] ps[i]).0 == member;
            if i < n - 1 {
                assert(!binds(before, member, key));
            }
        }
    }
}

proof fn lemma_range_binds(
    m: MemberMap,
    ps: Seq<(Seq<char>, i64)>,
    j: int,
    n: int,
    key: KeyId,
    id: u64,
    member: Seq<char>,
    other: KeyId,
)
    requires
        0 <= n <= ps.len(),
        binds(bound_range(m, ps, j, n, key, id), member, other),
    ensures
        ({
            let bucket = bound_range(m, ps, j, n, key, id)[member];
            ||| other == key && bucket.entries[key] == id && exists|i: int|
                j <= i < n && (#[trigger] ps[i]).0 == member
            ||| binds(m, member, other) && bucket.entries[other] == m[member].entries[other]
        }),
    decreases n,
{
    if n > 0 {
        let before = bound_range(m, ps, j, n - 1, key, id);
        if binds(before, member, other) {
            lemma_range_binds(m, ps, j, n - 1, key, id, member, other);
        }
        if ps[n - 1].0 == member && j <= n - 1 && other == key {
            assert(j <= n - 1 < n && ps[n - 1].0 == member);
        }
    }
}

/// A member that leaves is bound to nothing.
pub(crate) proof fn lemma_absent_keeps_bindings_known(
    m: MemberMap,
    puts: PutMap,
    member: Seq<char>,
    generation: i64,
)
    requires
        bindings_known(m, puts),
    ensures
        bindings_known(after_absent(m, member, generation), puts),
{
    lemma_fewer_bindings(m, after_absent(m, member, generation), puts);
}

/// A member that comes back is bound to nothing, and one that is still there to the same puts.
pub(crate) proof fn lemma_present_keeps_bindings_known(
    m: MemberMap,
    puts: PutMap,
    member: Seq<char>,
    generation: i64,
)
    requires
        bindings_known(m, puts),
    ensures
        bindings_known(after_present(m, member, generation), puts),
{
    lemma_fewer_bindings(m, after_present(m, member, generation), puts);
}

/// The puts, the members bound to them and the activity of keys.
#[verifier::ext_equal]
pub struct PutState {
    pub members: MemberMap,
    pub table: PutTableModel,
    pub activity: ActivityMap,
}

/// The puts, the members bound to them and the activity of keys, as they are.
pub open spec fn put_state(
    puts: &PutTable,
    activity: &MasterKeyActivityTable,
    ctrl: &MemberLifecycleBindedStateCtrl,
) -> PutState {
    PutState { members: ctrl.inflight_puts.index@, table: puts@, activity: activity@ }
}

/// A put that is under way has ended: no member is bound to it, and it lets go of its key. Without such
/// a put nothing changes.
pub open spec fn given_up(s: PutState, id: KeyId) -> PutState {
    if s.table.puts.contains_key(id) {
        PutState {
            members: put_unbound(s.members, s.table.puts, id),
            table: PutTableModel {
                puts: s.table.puts.remove(id),
                held: s.table.held.remove(s.table.puts[id].info_id),
                ..s.table
            },
            activity: one_put_less(s.activity, id.0),
        }
    } else {
        s
    }
}

/// The first `n` puts of a list have ended, as far as they were under way.
pub open spec fn ended(s: PutState, indexed: Seq<(ReplicaIndexKey, u64)>, n: int) -> PutState
    decreases n,
{
    if n <= 0 {
        s
    } else {
        let before = ended(s, indexed, n - 1);
        if put_under_way(before.table.puts, indexed[n - 1]) {
            given_up(before, indexed[n - 1].0@)
        } else {
            before
        }
    }
}

/// Ending puts has the same effect on the puts and the members, whatever holds their keys.
pub(crate) proof fn lemma_ended(s: PutState, indexed: Seq<(ReplicaIndexKey, u64)>, n: int)
    ensures
        (ended(s, indexed, n).members, ended(s, indexed, n).table.puts) == puts_ended(
            s.members,
            s.table.puts,
            indexed,
            n,
        ),
    decreases n,
{
    if n > 0 {
        lemma_ended(s, indexed, n - 1);
    }
}

proof fn lemma_given_up(s: PutState, id: KeyId)
    requires
        puts_inv(s.table, s.activity),
    ensures
        puts_inv(given_up(s, id).table, given_up(s, id).activity),
        bindings_known(s.members, s.table.puts) ==> bindings_known(
            given_up(s, id).members,
            given_up(s, id).table.puts,
        ),
        s.table.puts.contains_key(id) ==> activity_of(s.activity, id.0).puts > 0,
{
    if s.table.puts.contains_key(id) {
        let n = s.table.puts[id].info_id;
        let after = given_up(s, id);
        lemma_hold_counts(s.table.held, s.activity, n);
        lemma_hold_removed(s.table.held, s.activity, n);
        assert forall|k: KeyId| #[trigger] after.table.puts.contains_key(k) implies {
            &&& after.table.held.contains_key(after.table.puts[k].info_id)
            &&& after.table.held[after.table.puts[k].info_id] == (k.0, true)
        } by {
            assert(s.table.puts.contains_key(k));
            assert(s.table.puts[k].info_id != n);
        }
        if bindings_known(s.members, s.table.puts) {
            lemma_unbinding_is_known(s.members, s.table.puts, id);
        }
    }
}

proof fn lemma_unbinding_is_known(m: MemberMap, puts: PutMap, id: KeyId)
    requires
        bindings_known(m, puts),
    ensures
        bindings_known(put_unbound(m, puts, id), puts.remove(id)),
{
    let after = put_unbound(m, puts, id);
    assert forall|member: Seq<char>, k: KeyId| #[trigger] binds(after, member, k) implies {
        &&& puts.remove(id).contains_key(k)
        &&& after[member].entries[k] == puts[k].info_id
        &&& takes_part(puts[k], member)
    } by {
        if puts.contains_key(id) {
            let ps = puts[id].participants_model();
            lemma_unbound_binds(m, ps, ps.len() as int, id, puts[id].info_id, member, k);
        }
        assert(binds(m, member, k));
    }
}

/// Where members are bound to fewer puts, all bindings are still known.
proof fn lemma_fewer_bindings(m: MemberMap, after: MemberMap, puts: PutMap)
    requires
        bindings_known(m, puts),
        forall|member: Seq<char>, id: KeyId| #[trigger]
            binds(after, member, id) ==> binds(m, member, id) && after[member].entries[id]
                == m[member].entries[id],
    ensures
        bindings_known(after, puts),
{
    assert forall|member: Seq<char>, id: KeyId| #[trigger] binds(after, member, id) implies {
        &&& puts.contains_key(id)
        &&& after[member].entries[id] == puts[id].info_id
        &&& takes_part(puts[id], member)
    } by {
        assert(binds(m, member, id));
    }
}

impl PutTable {
    pub closed spec fn wf(&self, a: ActivityMap) -> bool {
        &&& self.puts.wf()
        &&& self.held.wf()
        &&& puts_inv(self@, a)
    }

    /// Each put that is under way holds its key, and the activity of a key covers the puts that hold
    /// it.
    pub proof fn puts_hold_their_keys(&self, a: ActivityMap)
        requires
            self.wf(a),
        ensures
            puts_inv(self@, a),
    {
    }

    /// What else is under way for keys does not matter to the puts.
    pub proof fn other_activity_does_not_matter(&self, a: ActivityMap, b: ActivityMap)
        requires
            self.wf(a),
            forall|k: Seq<char>| #[trigger] activity_of(b, k).puts == activity_of(a, k).puts,
        ensures
            self.wf(b),
    {
        assert forall|k: Seq<char>| #[trigger] keepers(self@.held, k).len() <= activity_of(
            b,
            k,
        ).puts by {
            assert(activity_of(b, k).puts == activity_of(a, k).puts);
        }
    }

    pub fn new() -> (r: Self)
        ensures
            forall|a: ActivityMap|
                (forall|k: Seq<char>| 0 <= #[trigger] activity_of(a, k).puts) ==> #[trigger] r.wf(a),
            r@ == (PutTableModel { puts: Map::empty(), held: Map::empty(), next_number: 1 }),
    {
        let r = PutTable { puts: AssocMap::new(), held: AssocMap::new(), next_number: 1 };
        proof {
            assert(r@.held =~= Map::empty());
            assert forall|a: ActivityMap|
                (forall|k: Seq<char>| 0 <= #[trigger] activity_of(a, k).puts) implies
                #[trigger] r.wf(a) by {
                assert forall|k: Seq<char>| #[trigger] keepers(r@.held, k).len() <= activity_of(
                    a,
                    k,
                ).puts by {
                    assert(keepers(r@.held, k) =~= Set::<u64>::empty());
                    assert(0 <= activity_of(a, k).puts);
                }
            }
        }
        r
    }

    /// Whether one more put of a key can be counted.
    pub fn has_room(&self, activity: &MasterKeyActivityTable, key: &String) -> (r: bool)
        requires
            activity.wf(),
        ensures
            r == (self@.next_number < u64::MAX && activity_of(activity@, key@).puts < u32::MAX),
    {
        self.next_number < u64::MAX && activity.count(key, MasterKeyActivityKind::Put) < u32::MAX
    }

    /// Whether a put that is about to begin or to end holds the key under this number.
    pub fn holds(&self, activity: &MasterKeyActivityTable, number: u64, key: &String) -> (r: bool)
        requires
            self.wf(activity@),
        ensures
            r == (self@.held.contains_key(number) && self@.held[number] == (key@, false)),
    {
        match self.held.get(&number) {
            Some(held) => held.key == *key && !held.under_way,
            None => false,
        }
    }

    /// A put begins to hold a key.
    fn hold(&mut self, activity: &mut MasterKeyActivityTable, key: &String, reject_same: bool) -> (r:
        Option<u64>)
        requires
            old(activity).wf(),
            old(self).wf(old(activity)@),
            old(self)@.next_number < u64::MAX,
            activity_of(old(activity)@, key@).puts < u32::MAX,
        ensures
            final(activity).wf(),
            final(self).wf(final(activity)@),
            r is Some <==> admits(
                activity_of(old(activity)@, key@),
                MasterKeyActivityKind::Put,
                reject_same,
            ),
            match r {
                None => final(self)@ == old(self)@ && final(activity)@ == old(activity)@,
                Some(n) => {
                    &&& n == old(self)@.next_number
                    &&& final(activity)@ == one_put_more(old(activity)@, key@)
                    &&& final(self)@ == (PutTableModel {
                        held: old(self)@.held.insert(n, (key@, false)),
                        next_number: (n + 1) as u64,
                        ..old(self)@
                    })
                },
            },
    {
        let ghost before = self@;
        let ghost a = activity@;
        match activity.reserve(key, MasterKeyActivityKind::Put, reject_same) {
            None => None,
            Some(_) => {
                let number: u64 = self.next_number;
                self.held.insert(number, HeldKey { key: key.clone(), under_way: false });
                self.next_number = number + 1;
                proof {
                    lemma_hold_added(before, a, key@);
                    assert(self@.held =~= before.held.insert(number, (key@, false)));
                }
                Some(number)
            },
        }
    }

    /// A put that is about to begin or to end lets go of its key.
    fn let_go(&mut self, activity: &mut MasterKeyActivityTable, number: u64)
        requires
            old(activity).wf(),
            old(self).wf(old(activity)@),
            old(self)@.held.contains_key(number),
            !old(self)@.held[number].1,
        ensures
            final(activity).wf(),
            final(self).wf(final(activity)@),
            final(activity)@ == one_put_less(old(activity)@, old(self)@.held[number].0),
            final(self)@ == (PutTableModel {
                held: old(self)@.held.remove(number),
                ..old(self)@
            }),
    {
        let ghost before = self@;
        let ghost a = activity@;
        match self.held.remove(&number) {
            None => {},
            Some(held) => {
                proof {
                    lemma_hold_counts(before.held, a, number);
                    lemma_hold_removed(before.held, a, number);
                }
                activity.release(&held.key, MasterKeyActivityKind::Put);
                assert(self@.held =~= before.held.remove(number));
            },
        }
    }
}

/// What a client asks for when it begins a put.
pub struct PutRequest {
    pub key: String,
    pub len: u64,
    /// The put is refused while the key is being put already.
    pub reject_if_inflight_same_key: bool,
    /// The put is refused if the key exists.
    pub reject_if_exists: bool,
}

/// Why a put must not begin.
pub open spec fn put_refusal(
    routes: TieredMap,
    a: ActivityMap,
    request: PutRequest,
) -> Option<AdmissionError> {
    let key = request.key@;
    if request.reject_if_exists && routes.contains_key(key) && routes[key].live() {
        Some(AdmissionError::KeyAlreadyExists)
    } else if !admits(
        activity_of(a, key),
        MasterKeyActivityKind::Put,
        request.reject_if_inflight_same_key,
    ) {
        Some(AdmissionError::KeyBeingWritten)
    } else {
        None
    }
}

/// The put begins, holding its key under the next number.
pub open spec fn put_began(
    before: PutTableModel,
    origin: PutOrigin<'_>,
    request: PutRequest,
    put_id: PutIDForAKey,
    segments: usize,
    s: PutStart,
    action: PutStartAction,
) -> bool {
    &&& s.wf()
    &&& s.number == before.next_number
    &&& s.key@ == request.key@
    &&& s.put_id == put_id
    &&& s.req_node_id@ == origin.req_node_id@
    &&& s.source_node_id@ == origin.source_node_id@
    &&& s.requester_generation == origin.requester->0.node_start_time
    &&& s.source_generation == if origin.req_node_id@ == origin.source_node_id@ {
        origin.requester->0.node_start_time
    } else {
        origin.source->0.node_start_time
    }
    &&& s.len == request.len
    &&& s.segment < segments
    &&& s.attempts == 0
    &&& s.source is None
    &&& action == (PutStartAction::TrySource { segment: s.segment, len: request.len })
}

/// The put holds its key, and is not under way yet, or not any more.
pub open spec fn holds_key(t: PutTableModel, number: u64, key: Seq<char>) -> bool {
    t.held.contains_key(number) && t.held[number] == (key, false)
}

/// The put has let go of its key.
pub open spec fn without_hold(t: PutTableModel, number: u64) -> PutTableModel {
    PutTableModel { held: t.held.remove(number), ..t }
}

/// The put is one of those under way.
pub open spec fn taken_up(t: PutTableModel, id: KeyId, info: InflightPutInfo) -> PutTableModel {
    PutTableModel {
        puts: t.puts.insert(id, info),
        held: t.held.insert(info.info_id, (id.0, true)),
        ..t
    }
}

/// The puts, the activity of keys and the counters of versions.
#[verifier::ext_equal]
pub struct PutBeginState {
    pub table: PutTableModel,
    pub activity: ActivityMap,
    pub versions: Map<Seq<char>, u32>,
}

/// The puts, the activity of keys and the counters of versions, as they are.
pub open spec fn put_begin_state(
    table: PutTableModel,
    activity: ActivityMap,
    versions: Map<Seq<char>, u32>,
) -> PutBeginState {
    PutBeginState { table, activity, versions }
}

/// The answer `r` to the wish to begin a put.
pub open spec fn put_start_answered(
    before: PutBeginState,
    routes: TieredMap,
    origin: PutOrigin<'_>,
    keys: OwnerMetaKeys,
    request: PutRequest,
    segments: usize,
    now_ms: u64,
    r: Result<(PutStart, PutStartAction), PutStartError>,
    after: PutBeginState,
) -> bool {
    let key = request.key@;
    let t = before.table;
    let version = next_version(before.versions, key);
    let counted = before.versions.insert(
        key,
        vstd::wrapping::u32_specs::wrapping_add(version, 1),
    );
    let passed = PutTableModel { next_number: (t.next_number + 1) as u64, ..t };
    let refusal = put_refusal(routes, before.activity, request);
    let fault = origin.fault(keys);
    if refusal is Some {
        &&& r == Err::<(PutStart, PutStartAction), PutStartError>(PutStartError::Refused(refusal->0))
        &&& after == before
    } else if fault is Some {
        &&& r == Err::<(PutStart, PutStartAction), PutStartError>(PutStartError::Source(fault->0))
        &&& after == (PutBeginState { table: passed, ..before })
    } else if segments == 0 {
        &&& r == Err::<(PutStart, PutStartAction), PutStartError>(
            PutStartError::RegisterSegmentFailed,
        )
        &&& after == (PutBeginState { table: passed, versions: counted, ..before })
    } else {
        &&& r matches Ok((s, action))
        &&& put_began(t, origin, request, (now_ms, version), segments, s, action)
        &&& after == (PutBeginState {
            table: PutTableModel { held: t.held.insert(t.next_number, (key, false)), ..passed },
            activity: one_put_more(before.activity, key),
            versions: counted,
        })
    }
}

/// It was decided where the bytes go: the put is under way, or lets go of its key.
pub open spec fn put_taken_up(
    before: PutState,
    put: PutStart,
    target: PutPlacementTarget,
    target_generation: Option<i64>,
    r: Result<(PutPlan, PutPlacementMode), PutStartError>,
    after: PutState,
) -> bool {
    let m = before.members;
    let id = (put.key@, put.put_id);
    let let_go = PutState {
        table: without_hold(before.table, put.number),
        activity: one_put_less(before.activity, put.key@),
        ..before
    };
    if target is Remote && target_generation is None {
        &&& r matches Err(PutStartError::TargetDeparted)
        &&& after == let_go
    } else {
        exists|started: StartedPut|
            {
                let ps = started.info.participants_model();
                let n = ps.len() as int;
                &&& #[trigger] put_placed(put, target, target_generation, started)
                &&& if all_admitted(m, ps, n) {
                    &&& r matches Ok((plan, mode))
                    &&& plan == started.plan && mode == started.mode
                    &&& after == (PutState {
                        members: bound_range(m, ps, 0, n, id, put.number),
                        table: taken_up(before.table, id, started.info),
                        activity: before.activity,
                    })
                } else {
                    &&& r matches Err(PutStartError::ParticipantLeft)
                    &&& exists|i: int|
                        {
                            &&& 0 <= i < n
                            &&& #[trigger] all_admitted(m, ps, i)
                            &&& !admits_member(m, ps[i].0, ps[i].1)
                            &&& after == (PutState {
                                members: bound_range(m, ps, i, i, id, put.number),
                                ..let_go
                            })
                        }
                }
            }
    }
}

/// A put was reported done: it counts if its participants are all still there.
pub open spec fn put_reported(
    before: PutState,
    id: KeyId,
    r: Option<InflightPutInfo>,
    after: PutState,
) -> bool {
    if before.table.puts.contains_key(id) && put_is_active(
        before.members,
        before.table.puts[id],
        id,
    ) {
        let info = before.table.puts[id];
        &&& r == Some(info)
        &&& info.key@ == id.0
        &&& after == (PutState {
            members: put_unbound(before.members, before.table.puts, id),
            table: PutTableModel {
                puts: before.table.puts.remove(id),
                held: before.table.held.insert(info.info_id, (id.0, false)),
                ..before.table
            },
            ..before
        })
    } else {
        r is None && after == given_up(before, id)
    }
}

impl PutTable {
    /// Begins a put. Unless it is refused, it holds its key from now on; if it cannot be made on
    /// behalf of its source, or the source has no segments, it lets go at once.
    pub fn handle_put_start(
        &mut self,
        activity: &mut MasterKeyActivityTable,
        routes: &KeyTable<TieredKvRoutes>,
        versions: &mut RecentVersions,
        origin: &PutOrigin<'_>,
        keys: &OwnerMetaKeys,
        request: &PutRequest,
        segments: usize,
        now_ms: u64,
    ) -> (r: Result<(PutStart, PutStartAction), PutStartError>)
        requires
            old(activity).wf(),
            old(self).wf(old(activity)@),
            routes.wf(),
            tiered_wf(routes@),
            old(versions).wf(),
            origin.wf(),
            old(self)@.next_number < u64::MAX,
            activity_of(old(activity)@, request.key@).puts < u32::MAX,
        ensures
            final(activity).wf(),
            final(self).wf(final(activity)@),
            final(versions).wf(),
            put_start_answered(
                put_begin_state(old(self)@, old(activity)@, old(versions)@),
                routes@,
                *origin,
                *keys,
                *request,
                segments,
                now_ms,
                r,
                put_begin_state(final(self)@, final(activity)@, final(versions)@),
            ),
    {
        let key = &request.key;
        if request.reject_if_exists {
            let exists = match routes.get(key.as_str()) {
                Some(route) => route.has_live_replica(),
                None => false,
            };
            if exists {
                return Err(PutStartError::Refused(AdmissionError::KeyAlreadyExists));
            }
        }
        let ghost t = self@;
        let ghost table = *activity;
        let number: u64 = match self.hold(activity, key, request.reject_if_inflight_same_key) {
            None => {
                return Err(PutStartError::Refused(AdmissionError::KeyBeingWritten));
            },
            Some(n) => n,
        };
        match begin_put(
            number,
            versions,
            origin,
            keys,
            key,
            request.len,
            segments,
            now_ms,
        ) {
            Ok(begun) => Ok(begun),
            Err(e) => {
                self.let_go(activity, number);
                proof {
                    abandoning_undoes_beginning(&table, key@);
                    assert(!t.held.contains_key(number));
                    assert(t.held.insert(number, (key@, false)).remove(number) =~= t.held);
                }
                Err(e)
            },
        }
    }

    /// The segment was tried for staging memory. A put that fails lets go of its key.
    pub fn source_tried(
        &mut self,
        activity: &mut MasterKeyActivityTable,
        put: &mut PutStart,
        answer: Option<Allocation>,
        usage: &SegmentUsage,
    ) -> (r: PutStartAction)
        requires
            old(activity).wf(),
            old(self).wf(old(activity)@),
            old(put).wf(),
            old(put).attempts < PUT_SOURCE_ATTEMPTS,
            old(put).source is None,
            answer matches Some(a) ==> addressable(a),
            holds_key(old(self)@, old(put).number, old(put).key@),
        ensures
            final(activity).wf(),
            final(self).wf(final(activity)@),
            final(put).wf(),
            staging_tried(*old(put), *final(put), answer, *usage, r),
            if r is Failed {
                &&& final(self)@ == without_hold(old(self)@, old(put).number)
                &&& final(activity)@ == one_put_less(old(activity)@, old(put).key@)
            } else {
                &&& final(self)@ == old(self)@
                &&& final(activity)@ == old(activity)@
            },
    {
        let action = put.source_tried(answer, usage);
        if let PutStartAction::Failed(_) = &action {
            self.let_go(activity, put.number);
        }
        action
    }

    /// A put is given up before it is under way, or before its version is published.
    pub fn abandon(&mut self, activity: &mut MasterKeyActivityTable, number: u64, key: &String)
        requires
            old(activity).wf(),
            old(self).wf(old(activity)@),
            holds_key(old(self)@, number, key@),
        ensures
            final(activity).wf(),
            final(self).wf(final(activity)@),
            final(self)@ == without_hold(old(self)@, number),
            final(activity)@ == one_put_less(old(activity)@, key@),
    {
        self.let_go(activity, number);
    }

    /// Whether a version is being put.
    pub fn is_under_way(&self, activity: &MasterKeyActivityTable, id: &ReplicaIndexKey) -> (r: bool)
        requires
            self.wf(activity@),
        ensures
            r == self@.puts.contains_key(id@),
    {
        self.puts.contains_key(id)
    }

    /// It is decided where the bytes go: the put is under way from now on, if all nodes that take
    /// part are there. Otherwise it lets go of its key.
    pub fn insert_inflight_put(
        &mut self,
        activity: &mut MasterKeyActivityTable,
        ctrl: &mut MemberLifecycleBindedStateCtrl,
        put: PutStart,
        target: PutPlacementTarget,
        target_generation: Option<i64>,
    ) -> (r: Result<(PutPlan, PutPlacementMode), PutStartError>)
        requires
            old(activity).wf(),
            old(ctrl).wf(),
            old(self).wf(old(activity)@),
            bindings_known(old(ctrl).inflight_puts.index@, old(self)@.puts),
            put.wf(),
            put.source is Some,
            target_fits(put, target),
            holds_key(old(self)@, put.number, put.key@),
            !old(self)@.puts.contains_key((put.key@, put.put_id)),
        ensures
            final(activity).wf(),
            final(ctrl).wf(),
            final(self).wf(final(activity)@),
            bindings_known(final(ctrl).inflight_puts.index@, final(self)@.puts),
            final(ctrl).replicas == old(ctrl).replicas,
            put_taken_up(
                put_state(old(self), old(activity), old(ctrl)),
                put,
                target,
                target_generation,
                r,
                put_state(final(self), final(activity), final(ctrl)),
            ),
    {
        let number: u64 = put.number;
        let id = ReplicaIndexKey { key: put.key.clone(), put_id: put.put_id };
        let started = match put.target_selected(target, target_generation) {
            Err(e) => {
                self.let_go(activity, number);
                return Err(e);
            },
            Ok(started) => started,
        };
        let ghost t = self@;
        let ghost m = ctrl.inflight_puts.index@;
        let ghost info = started.info;
        let ghost ps = info.participants_model();
        proof {
            assert forall|i: int| 0 <= i < ps.len() implies not_bound(
                m,
                (#[trigger] ps[i]).0,
                id@,
            ) by {
                assert(!binds(m, ps[i].0, id@));
            }
        }
        let held_key = id.key.clone();
        if !insert_inflight_put(ctrl, &mut self.puts, id, started.info) {
            proof {
                let i = choose|i: int|
                    {
                        &&& 0 <= i < ps.len()
                        &&& #[trigger] all_admitted(m, ps, i)
                        &&& !admits_member(m, ps[i].0, ps[i].1)
                        &&& ctrl.inflight_puts.index@ == bound_range(m, ps, i, i, id@, number)
                    };
                lemma_nothing_bound(m, ps, i, id@, number, t.puts);
                assert(self@ =~= t);
            }
            self.let_go(activity, number);
            return Err(PutStartError::ParticipantLeft);
        }
        self.held.insert(number, HeldKey { key: held_key, under_way: true });
        proof {
            assert(self@.held =~= t.held.insert(number, (id@.0, true)));
            assert(self@ =~= taken_up(t, id@, info));
            lemma_taken_up(t, activity@, m, id@, info);
        }
        Ok((started.plan, started.mode))
    }

    /// A put that is under way is given up. Without such a put nothing changes.
    pub fn cancel_inflight_put(
        &mut self,
        activity: &mut MasterKeyActivityTable,
        ctrl: &mut MemberLifecycleBindedStateCtrl,
        id: &ReplicaIndexKey,
    ) -> (r: Option<InflightPutInfo>)
        requires
            old(activity).wf(),
            old(ctrl).wf(),
            old(self).wf(old(activity)@),
        ensures
            final(activity).wf(),
            final(ctrl).wf(),
            final(self).wf(final(activity)@),
            final(ctrl).replicas == old(ctrl).replicas,
            put_state(final(self), final(activity), final(ctrl)) == given_up(
                put_state(old(self), old(activity), old(ctrl)),
                id@,
            ),
            bindings_known(old(ctrl).inflight_puts.index@, old(self)@.puts) ==> bindings_known(
                final(ctrl).inflight_puts.index@,
                final(self)@.puts,
            ),
            r == if old(self)@.puts.contains_key(id@) {
                Some(old(self)@.puts[id@])
            } else {
                None
            },
    {
        let ghost before = put_state(self, activity, ctrl);
        match cancel_inflight_put(ctrl, &mut self.puts, id) {
            None => {
                assert(before.table.puts.remove(id@) =~= before.table.puts);
                assert(put_state(self, activity, ctrl) =~= before);
                None
            },
            Some(info) => {
                proof {
                    lemma_given_up(before, id@);
                }
                self.held.remove(&info.info_id);
                activity.release(&id.key, MasterKeyActivityKind::Put);
                assert(self@.held =~= before.table.held.remove(info.info_id));
                assert(put_state(self, activity, ctrl) =~= given_up(before, id@));
                Some(info)
            },
        }
    }

    /// A put is given up by its client. Tells whether it was under way.
    pub fn handle_put_revoke(
        &mut self,
        activity: &mut MasterKeyActivityTable,
        ctrl: &mut MemberLifecycleBindedStateCtrl,
        id: &ReplicaIndexKey,
    ) -> (r: bool)
        requires
            old(activity).wf(),
            old(ctrl).wf(),
            old(self).wf(old(activity)@),
        ensures
            final(activity).wf(),
            final(ctrl).wf(),
            final(self).wf(final(activity)@),
            final(ctrl).replicas == old(ctrl).replicas,
            put_state(final(self), final(activity), final(ctrl)) == given_up(
                put_state(old(self), old(activity), old(ctrl)),
                id@,
            ),
            bindings_known(old(ctrl).inflight_puts.index@, old(self)@.puts) ==> bindings_known(
                final(ctrl).inflight_puts.index@,
                final(self)@.puts,
            ),
            r == old(self)@.puts.contains_key(id@),
    {
        self.cancel_inflight_put(activity, ctrl, id).is_some()
    }

    /// Ends the puts that were bound to a generation of a member. A put that has ended already, or was
    /// begun anew, is left alone.
    pub fn cleanup_indexed_inflight_puts(
        &mut self,
        activity: &mut MasterKeyActivityTable,
        ctrl: &mut MemberLifecycleBindedStateCtrl,
        indexed_puts: &Vec<(ReplicaIndexKey, u64)>,
    ) -> (removed: usize)
        requires
            old(activity).wf(),
            old(ctrl).wf(),
            old(self).wf(old(activity)@),
        ensures
            final(activity).wf(),
            final(ctrl).wf(),
            final(self).wf(final(activity)@),
            final(ctrl).replicas == old(ctrl).replicas,
            put_state(final(self), final(activity), final(ctrl)) == ended(
                put_state(old(self), old(activity), old(ctrl)),
                indexed_puts@,
                indexed_puts@.len() as int,
            ),
            bindings_known(old(ctrl).inflight_puts.index@, old(self)@.puts) ==> bindings_known(
                final(ctrl).inflight_puts.index@,
                final(self)@.puts,
            ),
            removed == count_ended(
                old(ctrl).inflight_puts.index@,
                old(self)@.puts,
                indexed_puts@,
                indexed_puts@.len() as int,
            ),
    {
        let ghost before = put_state(self, activity, ctrl);
        let mut removed: usize = 0;
        let mut i: usize = 0;
        while i < indexed_puts.len()
            invariant
                activity.wf(),
                ctrl.wf(),
                self.wf(activity@),
                ctrl.replicas == old(ctrl).replicas,
                i <= indexed_puts@.len(),
                removed <= i,
                put_state(self, activity, ctrl) == ended(before, indexed_puts@, i as int),
                bindings_known(before.members, before.table.puts) ==> bindings_known(
                    ctrl.inflight_puts.index@,
                    self@.puts,
                ),
                removed == count_ended(
                    before.members,
                    before.table.puts,
                    indexed_puts@,
                    i as int,
                ),
            decreases indexed_puts@.len() - i,
        {
            let indexed = &indexed_puts[i];
            proof {
                lemma_ended(before, indexed_puts@, i as int);
            }
            let here = match self.puts.get(&indexed.0) {
                Some(info) => info.info_id == indexed.1,
                None => false,
            };
            if here {
                self.cancel_inflight_put(activity, ctrl, &indexed.0);
                removed += 1;
            }
            i += 1;
        }
        removed
    }

    /// Takes a put that is reported done out of those under way. It counts only if its participants
    /// are all still there; it then goes on holding its key until its version is published.
    pub fn take_active_inflight_put(
        &mut self,
        activity: &mut MasterKeyActivityTable,
        ctrl: &mut MemberLifecycleBindedStateCtrl,
        id: &ReplicaIndexKey,
    ) -> (r: Option<InflightPutInfo>)
        requires
            old(activity).wf(),
            old(ctrl).wf(),
            old(self).wf(old(activity)@),
        ensures
            final(activity).wf(),
            final(ctrl).wf(),
            final(self).wf(final(activity)@),
            final(ctrl).replicas == old(ctrl).replicas,
            bindings_known(old(ctrl).inflight_puts.index@, old(self)@.puts) ==> bindings_known(
                final(ctrl).inflight_puts.index@,
                final(self)@.puts,
            ),
            put_reported(
                put_state(old(self), old(activity), old(ctrl)),
                id@,
                r,
                put_state(final(self), final(activity), final(ctrl)),
            ),
    {
        let ghost before = put_state(self, activity, ctrl);
        let number: Option<u64> = match self.puts.get(id) {
            Some(info) => Some(info.info_id),
            None => None,
        };
        proof {
            lemma_given_up(before, id@);
        }
        let taken = take_active_inflight_put(ctrl, &mut self.puts, id);
        match number {
            None => {
                assert(before.table.puts.remove(id@) =~= before.table.puts);
                assert(put_state(self, activity, ctrl) =~= before);
            },
            Some(n) => if taken.is_some() {
                self.held.insert(n, HeldKey { key: id.key.clone(), under_way: false });
                proof {
                    assert(self@.held =~= before.table.held.insert(n, (id@.0, false)));
                    lemma_detached(before.table, before.activity, id@);
                    if bindings_known(before.members, before.table.puts) {
                        lemma_unbinding_is_known(before.members, before.table.puts, id@);
                    }
                }
            } else {
                self.held.remove(&n);
                activity.release(&id.key, MasterKeyActivityKind::Put);
                assert(self@.held =~= before.table.held.remove(n));
                assert(put_state(self, activity, ctrl) =~= given_up(before, id@));
            },
        }
        taken
    }

    /// The bytes of a put that is reported done are found. A put that does not count lets go of its
    /// key.
    pub fn resolve_put_target(
        &mut self,
        activity: &mut MasterKeyActivityTable,
        info: InflightPutInfo,
        tomb_tag: Option<NodeTombTag>,
        target_start_time: Option<i64>,
    ) -> (r: Result<PutTarget, PutDoneError>)
        requires
            old(activity).wf(),
            old(self).wf(old(activity)@),
            holds_key(old(self)@, info.info_id, info.key@),
            !(info.allocation matches Some(InflightPutAllocation::LocalCommittedSlot(_))),
        ensures
            final(activity).wf(),
            final(self).wf(final(activity)@),
            target_resolved(info, tomb_tag, target_start_time, r),
            match r {
                Err(_) => {
                    &&& final(self)@ == without_hold(old(self)@, info.info_id)
                    &&& final(activity)@ == one_put_less(old(activity)@, info.key@)
                },
                Ok(_) => {
                    &&& final(self)@ == old(self)@
                    &&& final(activity)@ == old(activity)@
                },
            },
    {
        let number: u64 = info.info_id;
        match resolve_put_target(info, tomb_tag, target_start_time) {
            Ok(target) => Ok(target),
            Err(e) => {
                self.let_go(activity, number);
                Err(e)
            },
        }
    }

    /// Ends a put whose bytes are in place. The new version is published before the put lets go of its
    /// key.
    pub fn handle_put_done(
        &mut self,
        activity: &mut MasterKeyActivityTable,
        ctrl: &mut MemberLifecycleBindedStateCtrl,
        routes: &mut KeyTable<TieredKvRoutes>,
        target: &PutTarget,
        put_id: PutIDForAKey,
        lease_id: Option<u64>,
        route_id: u64,
        answers: PutAnswers,
        cache_enabled: bool,
    ) -> (r: Result<PutCompletion, PutDoneError>)
        requires
            old(activity).wf(),
            old(ctrl).wf(),
            old(self).wf(old(activity)@),
            old(routes).wf(),
            tiered_wf(old(routes)@),
            addressable(target.allocation),
            holds_key(old(self)@, target.number, target.key@),
        ensures
            final(activity).wf(),
            final(ctrl).wf(),
            final(self).wf(final(activity)@),
            final(routes).wf(),
            tiered_wf(final(routes)@),
            final(ctrl).inflight_puts == old(ctrl).inflight_puts,
            final(self)@ == without_hold(old(self)@, target.number),
            final(activity)@ == one_put_less(old(activity)@, target.key@),
            put_finished(
                old(ctrl).replicas.index@,
                old(routes)@,
                *target,
                put_id,
                lease_id,
                route_id,
                answers,
                cache_enabled,
                final(ctrl).replicas.index@,
                final(routes)@,
                r,
            ),
    {
        let r = finish_put(
            ctrl,
            routes,
            target,
            put_id,
            lease_id,
            route_id,
            answers,
            cache_enabled,
        );
        self.let_go(activity, target.number);
        r
    }
}

/// A put that is no longer under way can go on holding its key.
proof fn lemma_detached(t: PutTableModel, a: ActivityMap, id: KeyId)
    requires
        puts_inv(t, a),
        t.puts.contains_key(id),
    ensures
        puts_inv(
            PutTableModel {
                puts: t.puts.remove(id),
                held: t.held.insert(t.puts[id].info_id, (id.0, false)),
                ..t
            },
            a,
        ),
{
    let n = t.puts[id].info_id;
    let held = t.held.insert(n, (id.0, false));
    let puts = t.puts.remove(id);
    assert(held.dom() =~= t.held.dom());
    assert forall|k: Seq<char>| #[trigger] keepers(held, k).len() <= activity_of(a, k).puts by {
        assert(keepers(held, k) =~= keepers(t.held, k));
        assert(keepers(t.held, k).len() <= activity_of(a, k).puts);
    }
    assert forall|k: KeyId| #[trigger] puts.contains_key(k) implies {
        &&& held.contains_key(puts[k].info_id)
        &&& held[puts[k].info_id] == (k.0, true)
    } by {
        assert(t.puts.contains_key(k));
        assert(t.puts[k].info_id != n);
    }
}

/// A put that is taken up holds its key as before, and its participants are bound to it.
proof fn lemma_taken_up(
    t: PutTableModel,
    a: ActivityMap,
    m: MemberMap,
    id: KeyId,
    info: InflightPutInfo,
)
    requires
        puts_inv(t, a),
        bindings_known(m, t.puts),
        holds_key(t, info.info_id, id.0),
        info.key@ == id.0,
        !t.puts.contains_key(id),
    ensures
        puts_inv(taken_up(t, id, info), a),
        bindings_known(
            bound_range(
                m,
                info.participants_model(),
                0,
                info.participants_model().len() as int,
                id,
                info.info_id,
            ),
            t.puts.insert(id, info),
        ),
{
    let after = taken_up(t, id, info);
    let n = info.info_id;
    assert(after.held.dom() =~= t.held.dom());
    assert forall|k: Seq<char>| #[trigger] keepers(after.held, k).len() <= activity_of(a, k).puts by {
        assert(keepers(after.held, k) =~= keepers(t.held, k));
        assert(keepers(t.held, k).len() <= activity_of(a, k).puts);
    }
    assert forall|k: KeyId| #[trigger] after.puts.contains_key(k) implies {
        &&& after.puts[k].key@ == k.0
        &&& after.held.contains_key(after.puts[k].info_id)
        &&& after.held[after.puts[k].info_id] == (k.0, true)
        &&& k != id ==> after.puts[k].info_id != n
    } by {
        if k != id {
            assert(t.puts.contains_key(k));
            assert(t.held[t.puts[k].info_id].1);
        }
    }
    let ps = info.participants_model();
    let now = bound_range(m, ps, 0, ps.len() as int, id, n);
    assert forall|member: Seq<char>, k: KeyId| #[trigger] binds(now, member, k) implies {
        &&& after.puts.contains_key(k)
        &&& now[member].entries[k] == after.puts[k].info_id
        &&& takes_part(after.puts[k], member)
    } by {
        lemma_range_binds(m, ps, 0, ps.len() as int, id, n, member, k);
        if binds(m, member, k) {
            assert(t.puts.contains_key(k));
        }
    }
}

/// Members that became known are not bound to anything.
proof fn lemma_nothing_bound(
    m: MemberMap,
    ps: Seq<(Seq<char>, i64)>,
    i: int,
    id: KeyId,
    n: u64,
    puts: PutMap,
)
    requires
        bindings_known(m, puts),
        0 <= i <= ps.len(),
    ensures
        bindings_known(bound_range(m, ps, i, i, id, n), puts),
{
    let after = bound_range(m, ps, i, i, id, n);
    assert forall|member: Seq<char>, k: KeyId| #[trigger] binds(after, member, k) implies binds(
        m,
        member,
        k,
    ) && after[member].entries[k] == m[member].entries[k] by {
        lemma_range_binds(m, ps, i, i, id, n, member, k);
    }
    lemma_fewer_bindings(m, after, puts);
}

/// While a put holds a key, no other put of the key that minds can begin.
pub proof fn a_held_key_is_not_put_again(
    t: PutTableModel,
    a: ActivityMap,
    number: u64,
    routes: TieredMap,
    request: PutRequest,
)
    requires
        puts_inv(t, a),
        t.held.contains_key(number),
        t.held[number].0 == request.key@,
        request.reject_if_inflight_same_key,
    ensures
        put_refusal(routes, a, request) is Some,
{
    lemma_hold_counts(t.held, a, number);
}

/// A put that must not meet another one, nor an existing key, is refused at every moment while a put
/// of the key ends: before its version is published, after that, and when the put has let go of the
/// key.
pub proof fn publishing_leaves_no_gap(
    t: PutTableModel,
    a: ActivityMap,
    m: MemberMap,
    routes: TieredMap,
    target: PutTarget,
    put_id: PutIDForAKey,
    lease_id: Option<u64>,
    route_id: u64,
    answers: PutAnswers,
    cache_enabled: bool,
    m_after: MemberMap,
    routes_after: TieredMap,
    r: Result<PutCompletion, PutDoneError>,
    request: PutRequest,
)
    requires
        puts_inv(t, a),
        holds_key(t, target.number, target.key@),
        put_finished(
            m,
            routes,
            target,
            put_id,
            lease_id,
            route_id,
            answers,
            cache_enabled,
            m_after,
            routes_after,
            r,
        ),
        r is Ok,
        request.key@ == target.key@,
        request.reject_if_inflight_same_key,
        request.reject_if_exists,
    ensures
        put_refusal(routes, a, request) is Some,
        put_refusal(routes_after, a, request) is Some,
        put_refusal(routes_after, one_put_less(a, target.key@), request) == Some(
            AdmissionError::KeyAlreadyExists,
        ),
{
    a_held_key_is_not_put_again(t, a, target.number, routes, request);
    a_held_key_is_not_put_again(t, a, target.number, routes_after, request);
    let copies = routes_after[target.key@].node_replicas@;
    assert(copies.contains_key(target.node_id@));
    assert(copies[target.node_id@].live());
    assert(routes_after[target.key@].live());
}

/// A put that begins and is abandoned leaves the activity of its key as it was.
pub proof fn abandoning_undoes_beginning(activity: &MasterKeyActivityTable, key: Seq<char>)
    requires
        activity.wf(),
    ensures
        one_put_less(one_put_more(activity@, key), key) == activity@,
{
    let a = activity@;
    assert forall|k: Seq<char>| #[trigger] a.contains_key(k) implies a[k].inv() by {
        activity.listed_keys_are_active(k);
    }
    release_undoes_reserve(a, key, MasterKeyActivityKind::Put);
}

} // verus!
