//! Settings, numbers and tables of the router that stand on their own.
use vstd::prelude::*;

use crate::assoc::{lemma_map_has_row, AssocMap};
use crate::cluster::{in_roles, member_matches_roles, ClusterMember};
use crate::ids::NodeID;
use crate::key_activity::MasterKeyActivityLease;
use crate::key_table::KeyTable;
use crate::member_lifecycle::ReplicaIndexKey;
use crate::routes::Allocation;
use crate::ssd_ring::KeyId;
use crate::text::{a_prefix_is_followed_by_the_rest, begins_with, starts_with};

verus! {

/// How long a put may take, in seconds.
pub const INFLIGHT_PUT_TTL_SECONDS: u64 = 60;

/// How long a put may take, in seconds, where puts are never ended.
pub const INFLIGHT_PUT_TTL_SECONDS_SKIP_PUT_END_COMMIT: u64 = 5;

/// Memory of an owner that the owner hands out itself.
#[derive(Debug)]
pub struct LocalReserveGrantInfo {
    pub owner_node_id: NodeID,
    pub allocation: Allocation,
}

/// A key that an owner may put without asking again.
pub struct PreparedPutKeyReservationInfo {
    pub owner_node_id: NodeID,
    pub key: String,
    pub activity_lease: MasterKeyActivityLease,
}

/// What can be switched.
#[derive(Clone, Copy, Debug, PartialEq, Eq, Structural)]
pub struct RouterSettings {
    pub disable_master_replica_cache: bool,
    pub disable_prefix_index: bool,
    /// There is a first tier from which values are written back.
    pub tier1_configured: bool,
    /// Puts are never ended.
    pub skip_put_end_commit: bool,
}

/// The router's settings, numbers and tables.
pub struct MasterKvRouter {
    settings: RouterSettings,
    next_local_reserve_grant_id: u64,
    next_prepared_put_key_reservation_id: u64,
    next_owner_reclaim_epoch: u64,
    local_reserve_grants: AssocMap<u64, LocalReserveGrantInfo>,
    prepared_put_key_reservations: AssocMap<u64, PreparedPutKeyReservationInfo>,
}

/// The router's settings, numbers and tables, as mathematical values.
#[verifier::ext_equal]
pub struct RouterModel {
    pub settings: RouterSettings,
    pub next_local_reserve_grant_id: u64,
    pub next_prepared_put_key_reservation_id: u64,
    pub next_owner_reclaim_epoch: u64,
    pub grants: Map<u64, LocalReserveGrantInfo>,
    pub reservations: Map<u64, PreparedPutKeyReservationInfo>,
}

impl View for MasterKvRouter {
    type V = RouterModel;

    closed spec fn view(&self) -> RouterModel {
        RouterModel {
            settings: self.settings,
            next_local_reserve_grant_id: self.next_local_reserve_grant_id,
            next_prepared_put_key_reservation_id: self.next_prepared_put_key_reservation_id,
            next_owner_reclaim_epoch: self.next_owner_reclaim_epoch,
            grants: self.local_reserve_grants@,
            reservations: self.prepared_put_key_reservations@,
        }
    }
}

/// A number after the next one was given out; it wraps around.
pub open spec fn counted(n: u64) -> u64 {
    vstd::wrapping::u64_specs::wrapping_add(n, 1)
}

/// The first tier of a node, if it has one; `base_capacity` is its share of the node's memory.
pub open spec fn first_tier_of(
    settings: RouterSettings,
    member: Option<&ClusterMember>,
    remote_only_node_roles: Seq<String>,
    base_capacity: Option<u64>,
) -> Option<u64> {
    if settings.tier1_configured && !settings.disable_master_replica_cache && (member matches Some(m)
        && !in_roles(*m, remote_only_node_roles)) && base_capacity != Some(0u64) {
        base_capacity
    } else {
        None
    }
}

/// A node has a first tier only while caches are used, and never if it is unknown or belongs to the remote
/// tier; a tier is as large as the node's share, and never empty.
pub proof fn the_remote_tier_has_no_first_tier(
    settings: RouterSettings,
    member: Option<&ClusterMember>,
    roles: Seq<String>,
    base_capacity: Option<u64>,
)
    ensures
        ({
            let r = first_tier_of(settings, member, roles, base_capacity);
            &&& settings.disable_master_replica_cache ==> r is None
            &&& !settings.tier1_configured ==> r is None
            &&& member is None ==> r is None
            &&& forall|i: int|
                0 <= i < roles.len() && member is Some && member->0.sub_cluster is Some
                    && member->0.sub_cluster->0@ == (#[trigger] roles[i])@ ==> r is None
            &&& r matches Some(capacity) ==> capacity > 0 && base_capacity == Some(capacity)
            &&& r is None && settings.tier1_configured && !settings.disable_master_replica_cache
                && member is Some && (base_capacity is Some && base_capacity->0 > 0) ==> exists|i: int|
                0 <= i < roles.len() && member->0.sub_cluster is Some && member->0.sub_cluster->0@ == (
                #[trigger] roles[i])@
        }),
{
}

/// The numbers that are given out one after the other are different, until all have been given out.
pub proof fn given_numbers_differ(n: u64, k: nat, j: nat)
    requires
        j < k,
        k <= u64::MAX,
    ensures
        numbered(n, j) != numbered(n, k),
{
    lemma_numbered(n, j);
    lemma_numbered(n, k);
}

/// The number that is given out after `k` others, beginning with `n`.
pub open spec fn numbered(n: u64, k: nat) -> u64
    decreases k,
{
    if k == 0 {
        n
    } else {
        counted(numbered(n, (k - 1) as nat))
    }
}

proof fn lemma_numbered(n: u64, k: nat)
    requires
        k <= u64::MAX,
    ensures
        numbered(n, k) == if n + k <= u64::MAX {
            n + k
        } else {
            n + k - u64::MAX - 1
        },
    decreases k,
{
    if k > 0 {
        lemma_numbered(n, (k - 1) as nat);
    }
}

impl MasterKvRouter {
    pub closed spec fn wf(&self) -> bool {
        self.local_reserve_grants.wf() && self.prepared_put_key_reservations.wf()
    }

    pub fn new(settings: RouterSettings) -> (r: Self)
        ensures
            r.wf(),
            r@ == (RouterModel {
                settings,
                next_local_reserve_grant_id: 1,
                next_prepared_put_key_reservation_id: 1,
                next_owner_reclaim_epoch: 1,
                grants: Map::empty(),
                reservations: Map::empty(),
            }),
    {
        MasterKvRouter {
            settings,
            next_local_reserve_grant_id: 1,
            next_prepared_put_key_reservation_id: 1,
            next_owner_reclaim_epoch: 1,
            local_reserve_grants: AssocMap::new(),
            prepared_put_key_reservations: AssocMap::new(),
        }
    }

    pub fn replica_cache_enabled(&self) -> (r: bool)
        ensures
            r == !self@.settings.disable_master_replica_cache,
    {
        !self.settings.disable_master_replica_cache
    }

    pub fn prefix_index_enabled(&self) -> (r: bool)
        ensures
            r == !self@.settings.disable_prefix_index,
    {
        !self.settings.disable_prefix_index
    }

    pub fn tiered_writeback_enabled(&self) -> (r: bool)
        ensures
            r == (self@.settings.tier1_configured && !self@.settings.disable_master_replica_cache),
    {
        self.settings.tier1_configured && self.replica_cache_enabled()
    }

    /// How long a put may take, in seconds.
    pub fn inflight_put_ttl_seconds(&self) -> (r: u64)
        ensures
            r == if self@.settings.skip_put_end_commit {
                INFLIGHT_PUT_TTL_SECONDS_SKIP_PUT_END_COMMIT
            } else {
                INFLIGHT_PUT_TTL_SECONDS
            },
    {
        if self.settings.skip_put_end_commit {
            INFLIGHT_PUT_TTL_SECONDS_SKIP_PUT_END_COMMIT
        } else {
            INFLIGHT_PUT_TTL_SECONDS
        }
    }

    /// Whether values of a node are written back from the first tier: the node is known and not of
    /// the remote tier itself.
    pub fn tier1_source_member_eligible(
        member: Option<&ClusterMember>,
        remote_only_node_roles: &Vec<String>,
    ) -> (r: bool)
        ensures
            r == (member matches Some(m) && !in_roles(*m, remote_only_node_roles@)),
    {
        member.is_some() && !member_matches_roles(member, remote_only_node_roles)
    }

    pub fn tier1_source_node_eligible(
        &self,
        member: Option<&ClusterMember>,
        remote_only_node_roles: &Vec<String>,
    ) -> (r: bool)
        ensures
            r == (self@.settings.tier1_configured && !self@.settings.disable_master_replica_cache
                && (member matches Some(m) && !in_roles(*m, remote_only_node_roles@))),
    {
        self.tiered_writeback_enabled() && Self::tier1_source_member_eligible(
            member,
            remote_only_node_roles,
        )
    }

    /// Whether a node has a cache: caches are switched on, and the node has registered memory.
    pub fn node_has_cache(&self, node_space_size: u64) -> (r: bool)
        ensures
            r == (!self@.settings.disable_master_replica_cache && node_space_size != 0),
    {
        self.replica_cache_enabled() && node_space_size != 0
    }

    /// The capacity of the first tier of a node, if it has one. `base_capacity` is its share of the
    /// node's memory.
    pub fn tier1_cache_capacity(
        &self,
        member: Option<&ClusterMember>,
        remote_only_node_roles: &Vec<String>,
        base_capacity: Option<u64>,
    ) -> (r: Option<u64>)
        ensures
            r == first_tier_of(
                self@.settings,
                member,
                remote_only_node_roles@,
                base_capacity,
            ),
    {
        if !self.tier1_source_node_eligible(member, remote_only_node_roles) {
            return None;
        }
        match base_capacity {
            Some(capacity) => if capacity == 0 {
                None
            } else {
                Some(capacity)
            },
            None => None,
        }
    }

    pub fn next_local_reserve_grant_id(&mut self) -> (r: u64)
        requires
            old(self).wf(),
        ensures
            final(self).wf(),
            r == old(self)@.next_local_reserve_grant_id,
            final(self)@ == (RouterModel { next_local_reserve_grant_id: counted(r), ..old(self)@ }),
    {
        let r: u64 = self.next_local_reserve_grant_id;
        self.next_local_reserve_grant_id = r.wrapping_add(1);
        r
    }

    pub fn next_prepared_put_key_reservation_id(&mut self) -> (r: u64)
        requires
            old(self).wf(),
        ensures
            final(self).wf(),
            r == old(self)@.next_prepared_put_key_reservation_id,
            final(self)@ == (RouterModel {
                next_prepared_put_key_reservation_id: counted(r),
                ..old(self)@
            }),
    {
        let r: u64 = self.next_prepared_put_key_reservation_id;
        self.next_prepared_put_key_reservation_id = r.wrapping_add(1);
        r
    }

    pub fn next_owner_reclaim_epoch(&mut self) -> (r: u64)
        requires
            old(self).wf(),
        ensures
            final(self).wf(),
            r == old(self)@.next_owner_reclaim_epoch,
            final(self)@ == (RouterModel { next_owner_reclaim_epoch: counted(r), ..old(self)@ }),
    {
        let r: u64 = self.next_owner_reclaim_epoch;
        self.next_owner_reclaim_epoch = r.wrapping_add(1);
        r
    }

    /// A grant comes into force. Its number must be new.
    pub fn install_local_reserve_grant(&mut self, grant_id: u64, grant: LocalReserveGrantInfo)
        requires
            old(self).wf(),
            !old(self)@.grants.contains_key(grant_id),
        ensures
            final(self).wf(),
            final(self)@ == (RouterModel {
                grants: old(self)@.grants.insert(grant_id, grant),
                ..old(self)@
            }),
    {
        self.local_reserve_grants.insert(grant_id, grant);
    }

    /// A grant ends.
    pub fn take_local_reserve_grant(&mut self, grant_id: u64) -> (r: Option<LocalReserveGrantInfo>)
        requires
            old(self).wf(),
        ensures
            final(self).wf(),
            r == if old(self)@.grants.contains_key(grant_id) {
                Some(old(self)@.grants[grant_id])
            } else {
                None
            },
            final(self)@ == (RouterModel {
                grants: old(self)@.grants.remove(grant_id),
                ..old(self)@
            }),
    {
        self.local_reserve_grants.remove(&grant_id)
    }

    /// A key is set aside for an owner. The number must be new.
    pub fn install_prepared_put_key_reservation(
        &mut self,
        reservation_id: u64,
        info: PreparedPutKeyReservationInfo,
    )
        requires
            old(self).wf(),
            !old(self)@.reservations.contains_key(reservation_id),
        ensures
            final(self).wf(),
            final(self)@ == (RouterModel {
                reservations: old(self)@.reservations.insert(reservation_id, info),
                ..old(self)@
            }),
    {
        self.prepared_put_key_reservations.insert(reservation_id, info);
    }

    /// A key is no longer set aside, or is used.
    pub fn take_prepared_put_key_reservation(&mut self, reservation_id: u64) -> (r: Option<
        PreparedPutKeyReservationInfo,
    >)
        requires
            old(self).wf(),
        ensures
            final(self).wf(),
            r == if old(self)@.reservations.contains_key(reservation_id) {
                Some(old(self)@.reservations[reservation_id])
            } else {
                None
            },
            final(self)@ == (RouterModel {
                reservations: old(self)@.reservations.remove(reservation_id),
                ..old(self)@
            }),
    {
        self.prepared_put_key_reservations.remove(&reservation_id)
    }
}

/// A grant is taken once: what was installed comes back, and then nothing.
pub proof fn grants_are_taken_once(
    m: Map<u64, LocalReserveGrantInfo>,
    grant_id: u64,
    grant: LocalReserveGrantInfo,
)
    requires
        !m.contains_key(grant_id),
    ensures
        m.insert(grant_id, grant)[grant_id] == grant,
        m.insert(grant_id, grant).remove(grant_id) == m,
        !m.insert(grant_id, grant).remove(grant_id).contains_key(grant_id),
{
    assert(m.insert(grant_id, grant).remove(grant_id) =~= m);
}

/// Why a cache has let an entry go.
#[derive(Clone, Copy, Debug, PartialEq, Eq, Structural)]
pub enum EntryRemoval {
    Expired,
    Explicit,
    Replaced,
    Size,
}

impl EntryRemoval {
    /// Whether the copy that the entry stood for is to be reclaimed: the cache itself gave it up.
    pub fn reclaims_copy(self) -> (r: bool)
        ensures
            r == (self == EntryRemoval::Size || self == EntryRemoval::Expired),
    {
        matches!(self, EntryRemoval::Size | EntryRemoval::Expired)
    }

    /// Whether the copy that an entry of the first tier stood for is to be written back: there was no
    /// room for it.
    pub fn writes_back(self) -> (r: bool)
        ensures
            r == (self == EntryRemoval::Size),
    {
        matches!(self, EntryRemoval::Size)
    }
}

/// The keys of a table that begin with `prefix`.
pub open spec fn keys_with_prefix<V>(m: Map<Seq<char>, V>, prefix: Seq<char>) -> Set<Seq<char>> {
    m.dom().filter(|k: Seq<char>| begins_with(k, prefix))
}

/// A key that begins with the prefix counts once it is there, and no other key does.
pub proof fn keys_count_under_their_prefixes<V>(
    m: Map<Seq<char>, V>,
    prefix: Seq<char>,
    rest: Seq<char>,
    key: Seq<char>,
    v: V,
)
    ensures
        keys_with_prefix(m.insert(prefix + rest, v), prefix) == keys_with_prefix(m, prefix).insert(
            prefix + rest,
        ),
        keys_with_prefix(m, prefix).contains(key) ==> m.contains_key(key) && exists|tail: Seq<char>|
            key == #[trigger] (prefix + tail),
        keys_with_prefix(m, Seq::<char>::empty()) == m.dom(),
        !begins_with(key, prefix) ==> keys_with_prefix(m.insert(key, v), prefix) == keys_with_prefix(
            m,
            prefix,
        ),
{
    a_prefix_is_followed_by_the_rest(prefix, rest, key);
    assert(keys_with_prefix(m.insert(prefix + rest, v), prefix) =~= keys_with_prefix(
        m,
        prefix,
    ).insert(prefix + rest));
    if keys_with_prefix(m, prefix).contains(key) {
        assert(key == prefix + key.skip(prefix.len() as int));
    }
    assert forall|k: Seq<char>| #[trigger] m.dom().contains(k) implies begins_with(
        k,
        Seq::<char>::empty(),
    ) by {
        a_prefix_is_followed_by_the_rest(prefix, rest, k);
    }
    assert(keys_with_prefix(m, Seq::<char>::empty()) =~= m.dom());
    if !begins_with(key, prefix) {
        assert(keys_with_prefix(m.insert(key, v), prefix) =~= keys_with_prefix(m, prefix));
    }
}

/// Counts the keys that begin with `prefix`.
pub fn handle_count_prefix<V>(routes: &KeyTable<V>, prefix: &str) -> (r: u64)
    requires
        routes.wf(),
    ensures
        keys_with_prefix(routes@, prefix@).finite(),
        r == keys_with_prefix(routes@, prefix@).len(),
{
    let ghost mut counted_keys: Set<Seq<char>> = Set::empty();
    let ghost rows = routes.rows();
    let mut count: u64 = 0;
    let mut i: usize = 0;
    proof {
        routes.lemma_rows();
    }
    while i < routes.len()
        invariant
            routes.wf(),
            rows == routes.rows(),
            crate::assoc::rows_unique(rows),
            i <= rows.len(),
            counted_keys.finite(),
            count == counted_keys.len(),
            count <= i,
            forall|k: Seq<char>| #[trigger]
                counted_keys.contains(k) ==> routes@.contains_key(k) && begins_with(k, prefix@)
                    && exists|j: int| 0 <= j < i && (#[trigger] rows[j]).0@ == k,
            forall|j: int|
                0 <= j < i && begins_with((#[trigger] rows[j]).0@, prefix@)
                    ==> counted_keys.contains(rows[j].0@),
        decreases rows.len() - i,
    {
        let row = routes.row(i);
        if starts_with(row.0.as_str(), prefix) {
            proof {
                if counted_keys.contains(row.0@) {
                    let j = choose|j: int| 0 <= j < i && (#[trigger] rows[j]).0@ == row.0@;
                    assert(rows[j].0@ == rows[i as int].0@);
                }
                let before = counted_keys;
                counted_keys = counted_keys.insert(row.0@);
                assert forall|k: Seq<char>| #[trigger]
                    counted_keys.contains(k) implies routes@.contains_key(k) && begins_with(
                    k,
                    prefix@,
                ) && exists|j: int| 0 <= j < i + 1 && (#[trigger] rows[j]).0@ == k by {
                    if k == row.0@ {
                        assert(rows[i as int].0@ == k);
                    } else {
                        assert(before.contains(k));
                        let j = choose|j: int| 0 <= j < i && (#[trigger] rows[j]).0@ == k;
                        assert(rows[j].0@ == k);
                    }
                }
            }
            count += 1;
        }
        i += 1;
    }
    proof {
        assert forall|k: Seq<char>| #[trigger]
            keys_with_prefix(routes@, prefix@).contains(k) <==> counted_keys.contains(k) by {
            if keys_with_prefix(routes@, prefix@).contains(k) {
                let j = lemma_map_has_row(rows, k);
                assert(begins_with(rows[j].0@, prefix@));
            }
        }
        assert(keys_with_prefix(routes@, prefix@) =~= counted_keys);
    }
    count
}

/// The values that are being written back, and how often nodes had to.
pub struct Tier1Writebacks {
    /// Each version of a key is written back once at a time.
    under_way: AssocMap<ReplicaIndexKey, ()>,
    triggered: KeyTable<u64>,
    accepted: KeyTable<u64>,
    failed: KeyTable<u64>,
}

/// The values that are being written back, and how often nodes had to, as mathematical values.
#[verifier::ext_equal]
pub struct WritebackModel {
    pub under_way: Set<KeyId>,
    pub triggered: Map<Seq<char>, u64>,
    pub accepted: Map<Seq<char>, u64>,
    pub failed: Map<Seq<char>, u64>,
}

impl View for Tier1Writebacks {
    type V = WritebackModel;

    closed spec fn view(&self) -> WritebackModel {
        WritebackModel {
            under_way: self.under_way@.dom(),
            triggered: self.triggered@,
            accepted: self.accepted@,
            failed: self.failed@,
        }
    }
}

impl WritebackModel {
    /// It was decided whether a value is to be written back.
    pub open spec fn writeback_decided(
        self,
        source: Seq<char>,
        key: KeyId,
        current: bool,
        r: bool,
        after: WritebackModel,
    ) -> bool {
        &&& r == (current && !self.under_way.contains(key))
        &&& after == if r {
            WritebackModel {
                under_way: self.under_way.insert(key),
                triggered: count_added(self.triggered, source, 1),
                ..self
            }
        } else {
            self
        }
    }

    /// The values that are being written back after a request was dealt with.
    pub open spec fn dealt_with(self, key: KeyId) -> WritebackModel {
        WritebackModel { under_way: self.under_way.remove(key), ..self }
    }

    /// The values that are being written back after a request could not be queued.
    pub open spec fn refused(self, source: Seq<char>, key: KeyId) -> WritebackModel {
        WritebackModel {
            under_way: self.under_way.remove(key),
            failed: count_added(self.failed, source, 1),
            ..self
        }
    }

    /// The values that are being written back after owners have accepted some.
    pub open spec fn taken_over(self, source: Seq<char>, count: u64) -> WritebackModel {
        WritebackModel { accepted: count_added(self.accepted, source, count), ..self }
    }

    /// The values that are being written back after some have failed.
    pub open spec fn gone_wrong(self, source: Seq<char>, count: u64) -> WritebackModel {
        WritebackModel { failed: count_added(self.failed, source, count), ..self }
    }
}

/// A version of a key is written back once at a time: it is asked for only while it is current, and not
/// again until the request was dealt with or refused. Other versions are not affected.
pub proof fn a_value_is_written_back_once_at_a_time(
    m: WritebackModel,
    source: Seq<char>,
    key: KeyId,
    current: bool,
    r: bool,
    after: WritebackModel,
    again: bool,
    later: WritebackModel,
    other: KeyId,
)
    requires
        m.writeback_decided(source, key, current, r, after),
        after.writeback_decided(source, key, true, again, later),
    ensures
        !current ==> !r,
        current && !m.under_way.contains(key) ==> r,
        r ==> !again,
        !r ==> after == m,
        !again ==> later == after,
        !after.dealt_with(key).under_way.contains(key),
        !after.refused(source, key).under_way.contains(key),
        other != key ==> (after.under_way.contains(other) <==> m.under_way.contains(other)),
        other != key ==> (after.dealt_with(key).under_way.contains(other)
            <==> m.under_way.contains(other)),
        other != key ==> (after.refused(source, key).under_way.contains(other)
            <==> m.under_way.contains(other)),
{
}

/// What is asked for counts once as triggered, what is refused once as failed, and what owners accept as
/// often as they do; each counts for the node the values are on, and for no other.
pub proof fn writebacks_are_counted(
    m: WritebackModel,
    source: Seq<char>,
    key: KeyId,
    r: bool,
    after: WritebackModel,
    count: u64,
    node: Seq<char>,
)
    requires
        m.writeback_decided(source, key, true, r, after),
        count_of(m.triggered, node) < u64::MAX,
        count_of(m.failed, node) < u64::MAX,
        count_of(m.failed, node) + count <= u64::MAX,
        count_of(m.accepted, node) + count <= u64::MAX,
    ensures
        count_of(after.triggered, node) == count_of(m.triggered, node) + if r && node == source {
            1int
        } else {
            0
        },
        after.failed == m.failed && after.accepted == m.accepted,
        count_of(m.refused(source, key).failed, node) == count_of(m.failed, node) + if node
            == source {
            1int
        } else {
            0
        },
        m.refused(source, key).triggered == m.triggered,
        m.refused(source, key).accepted == m.accepted,
        count_of(m.taken_over(source, count).accepted, node) == count_of(m.accepted, node)
            + if node == source {
            count as int
        } else {
            0
        },
        count_of(m.gone_wrong(source, count).failed, node) == count_of(m.failed, node) + if node
            == source {
            count as int
        } else {
            0
        },
        m.taken_over(source, count).failed == m.failed,
        m.gone_wrong(source, count).accepted == m.accepted,
        m.dealt_with(key).triggered == m.triggered,
        m.dealt_with(key).failed == m.failed,
        m.dealt_with(key).accepted == m.accepted,
{
}

/// The count of a node.
pub open spec fn count_of(m: Map<Seq<char>, u64>, node: Seq<char>) -> u64 {
    if m.contains_key(node) {
        m[node]
    } else {
        0
    }
}

/// The counts after one node's has grown; it wraps around.
pub open spec fn count_added(m: Map<Seq<char>, u64>, node: Seq<char>, by: u64) -> Map<
    Seq<char>,
    u64,
> {
    if by == 0 {
        m
    } else {
        m.insert(node, vstd::wrapping::u64_specs::wrapping_add(count_of(m, node), by))
    }
}

fn increment_counter(counters: &mut KeyTable<u64>, node: &String, by: u64)
    requires
        old(counters).wf(),
    ensures
        final(counters).wf(),
        final(counters)@ == count_added(old(counters)@, node@, by),
{
    if by == 0 {
        return;
    }
    let current: u64 = match counters.get(node.as_str()) {
        Some(n) => *n,
        None => 0,
    };
    counters.insert(node.clone(), current.wrapping_add(by));
}

impl Tier1Writebacks {
    pub closed spec fn wf(&self) -> bool {
        self.under_way.wf() && self.triggered.wf() && self.accepted.wf() && self.failed.wf()
    }

    pub fn new() -> (r: Self)
        ensures
            r.wf(),
            r@ == (WritebackModel {
                under_way: Set::empty(),
                triggered: Map::empty(),
                accepted: Map::empty(),
                failed: Map::empty(),
            }),
    {
        let r = Tier1Writebacks {
            under_way: AssocMap::new(),
            triggered: KeyTable::new(),
            accepted: KeyTable::new(),
            failed: KeyTable::new(),
        };
        assert(r@.under_way =~= Set::<KeyId>::empty());
        r
    }

    /// The first tier has no room for a value: it is to be written back, if it is still `current` and
    /// not being written back already. Tells whether a request is to be queued.
    pub fn enqueue_tier1_writeback(
        &mut self,
        source_node_id: &String,
        key: &ReplicaIndexKey,
        current: bool,
    ) -> (r: bool)
        requires
            old(self).wf(),
        ensures
            final(self).wf(),
            old(self)@.writeback_decided(source_node_id@, key@, current, r, final(self)@),
    {
        if !current || self.under_way.contains_key(key) {
            return false;
        }
        let ghost before = self@;
        self.under_way.insert(crate::assoc::MapKey::dup(key), ());
        increment_counter(&mut self.triggered, source_node_id, 1);
        assert(self@.under_way =~= before.under_way.insert(key@));
        true
    }

    /// The request could not be queued.
    pub fn queue_refused(&mut self, source_node_id: &String, key: &ReplicaIndexKey)
        requires
            old(self).wf(),
        ensures
            final(self).wf(),
            final(self)@ == old(self)@.refused(source_node_id@, key@),
    {
        self.finish_tier1_writeback_request(key);
        self.record_tier1_writeback_failed(source_node_id, 1);
    }

    /// The request has been dealt with.
    pub fn finish_tier1_writeback_request(&mut self, key: &ReplicaIndexKey)
        requires
            old(self).wf(),
        ensures
            final(self).wf(),
            final(self)@ == old(self)@.dealt_with(key@),
    {
        let ghost before = self@;
        self.under_way.remove(key);
        assert(self@.under_way =~= before.under_way.remove(key@));
    }

    pub fn record_tier1_writeback_owner_accepted(&mut self, source_node_id: &String, count: u64)
        requires
            old(self).wf(),
        ensures
            final(self).wf(),
            final(self)@ == old(self)@.taken_over(source_node_id@, count),
    {
        increment_counter(&mut self.accepted, source_node_id, count);
    }

    pub fn record_tier1_writeback_failed(&mut self, source_node_id: &String, count: u64)
        requires
            old(self).wf(),
        ensures
            final(self).wf(),
            final(self)@ == old(self)@.gone_wrong(source_node_id@, count),
    {
        increment_counter(&mut self.failed, source_node_id, count);
    }

    /// How often a node had to write back, how often that was accepted, and how often it failed.
    pub fn tier1_writeback_counters(&self, source_node_id: &String) -> (r: (u64, u64, u64))
        requires
            self.wf(),
        ensures
            r == (
                count_of(self@.triggered, source_node_id@),
                count_of(self@.accepted, source_node_id@),
                count_of(self@.failed, source_node_id@),
            ),
    {
        let triggered: u64 = match self.triggered.get(source_node_id.as_str()) {
            Some(n) => *n,
            None => 0,
        };
        let accepted: u64 = match self.accepted.get(source_node_id.as_str()) {
            Some(n) => *n,
            None => 0,
        };
        let failed: u64 = match self.failed.get(source_node_id.as_str()) {
            Some(n) => *n,
            None => 0,
        };
        (triggered, accepted, failed)
    }
}

/// A request that could not be queued leaves room for the next one.
pub proof fn refused_writebacks_can_be_tried_again(under_way: Set<KeyId>, key: KeyId)
    requires
        !under_way.contains(key),
    ensures
        under_way.insert(key).remove(key) == under_way,
{
    assert(under_way.insert(key).remove(key) =~= under_way);
}

} // verus!
