//! Counters of what the router has decided, and snapshots of its state.
use vstd::prelude::*;
use vstd::string::*;

use crate::assoc::{rows_has, rows_map, rows_unique, AssocMap, MapKey};
use crate::cache_policy::{capped, minus, plus, EvictionReclaimCounters};
use crate::ids::NodeIDString;
use crate::key_table::KeyTable;
use crate::msg_pack::GetAllocationMode;
use crate::ranking::{counts, rank, ranked, Count};

verus! {

/// Where a put went.
#[derive(Clone, Copy, Debug, PartialEq, Eq, Structural)]
pub enum PutPlacementMode {
    Local,
    Remote,
}

impl PutPlacementMode {
    /// The name of the mode in reports.
    pub fn label(self) -> (r: &'static str)
        ensures
            r@ == match self {
                PutPlacementMode::Local => "local"@,
                PutPlacementMode::Remote => "remote"@,
            },
    {
        match self {
            PutPlacementMode::Local => "local",
            PutPlacementMode::Remote => "remote",
        }
    }
}

/// The name of an allocation mode in reports.
pub open spec fn allocation_mode_chars(mode: GetAllocationMode) -> Seq<char> {
    match mode {
        GetAllocationMode::Temporary => "temporary"@,
        GetAllocationMode::ReuseReplica => "reuse_replica"@,
        GetAllocationMode::DurableReplica => "durable_replica"@,
    }
}

pub fn allocation_mode_label(mode: GetAllocationMode) -> (r: &'static str)
    ensures
        r@ == allocation_mode_chars(mode),
{
    match mode {
        GetAllocationMode::Temporary => "temporary",
        GetAllocationMode::ReuseReplica => "reuse_replica",
        GetAllocationMode::DurableReplica => "durable_replica",
    }
}

/// Who asked, and which node was chosen.
#[derive(Debug)]
pub struct RequesterTargetPair {
    requester_node_id: NodeIDString,
    target_node_id: NodeIDString,
}

impl View for RequesterTargetPair {
    type V = (Seq<char>, Seq<char>);

    closed spec fn view(&self) -> (Seq<char>, Seq<char>) {
        (self.requester_node_id@, self.target_node_id@)
    }
}

/// A pair as it stands in reports.
pub open spec fn pair_label(pair: (Seq<char>, Seq<char>)) -> Seq<char> {
    pair.0 + seq!['-', '>'] + pair.1
}

impl RequesterTargetPair {
    pub fn new(requester_node_id: &str, target_node_id: &str) -> (r: Self)
        ensures
            r@ == (requester_node_id@, target_node_id@),
    {
        RequesterTargetPair {
            requester_node_id: requester_node_id.to_owned(),
            target_node_id: target_node_id.to_owned(),
        }
    }

    /// The pair as it stands in reports.
    pub fn as_log_key(&self) -> (r: String)
        ensures
            r@ == pair_label(self@),
    {
        proof {
            reveal_strlit("->");
            assert("->"@ =~= seq!['-', '>']);
        }
        let mut r = self.requester_node_id.clone();
        r.append("->");
        r.append(self.target_node_id.as_str());
        r
    }
}

impl MapKey for RequesterTargetPair {
    fn same(&self, other: &Self) -> (r: bool) {
        self.requester_node_id == other.requester_node_id && self.target_node_id
            == other.target_node_id
    }

    fn dup(&self) -> (r: Self) {
        RequesterTargetPair {
            requester_node_id: self.requester_node_id.clone(),
            target_node_id: self.target_node_id.clone(),
        }
    }
}

/// Counters by name.
pub type Counts = Map<Seq<char>, u64>;

/// Counters by pair.
pub type PairCounts = Map<(Seq<char>, Seq<char>), u64>;

/// The value of a counter; one that is not listed is zero.
pub open spec fn count_of<K>(m: Map<K, u64>, k: K) -> u64 {
    if m.contains_key(k) {
        m[k]
    } else {
        0
    }
}

/// The counters after one of them grew.
pub open spec fn bumped<K>(m: Map<K, u64>, k: K, by: u64) -> Map<K, u64> {
    m.insert(k, plus(count_of(m, k), by))
}

fn bump_name(m: &mut KeyTable<u64>, k: &str, by: u64)
    requires
        old(m).wf(),
    ensures
        final(m).wf(),
        final(m)@ == bumped(old(m)@, k@, by),
{
    let before: u64 = match m.get(k) {
        Some(n) => *n,
        None => 0,
    };
    m.insert(k.to_owned(), before.wrapping_add(by));
}

fn bump_pair(m: &mut AssocMap<RequesterTargetPair, u64>, k: RequesterTargetPair, by: u64)
    requires
        old(m).wf(),
    ensures
        final(m).wf(),
        final(m)@ == bumped(old(m)@, k@, by),
{
    let before: u64 = match m.get(&k) {
        Some(n) => *n,
        None => 0,
    };
    m.insert(k, before.wrapping_add(by));
}

/// The list names the keys of the map, each once.
pub open spec fn lists_keys<K>(order: Seq<K>, m: Map<K, u64>) -> bool {
    &&& order.no_duplicates()
    &&& forall|k: K| #[trigger] m.contains_key(k) <==> order.contains(k)
}

/// The counters of some keys under their names in reports.
pub open spec fn labelled<K>(
    order: Seq<K>,
    m: Map<K, u64>,
    label: spec_fn(K) -> Seq<char>,
) -> Seq<Count> {
    Seq::new(order.len(), |i: int| (label(order[i]), m[order[i]]))
}

/// The list holds all counters under their names in reports, in order.
pub open spec fn reports<K>(
    list: Seq<Count>,
    m: Map<K, u64>,
    label: spec_fn(K) -> Seq<char>,
) -> bool {
    &&& ranked(list)
    &&& exists|order: Seq<K>|
        {
            &&& #[trigger] lists_keys(order, m)
            &&& list.to_multiset() == labelled(order, m, label).to_multiset()
        }
}

/// The keys of rows.
pub open spec fn row_keys<K: View>(rows: Seq<(K, u64)>) -> Seq<K::V> {
    Seq::new(rows.len(), |i: int| rows[i].0@)
}

proof fn lemma_rows_list_keys<K: View>(rows: Seq<(K, u64)>)
    requires
        rows_unique(rows),
    ensures
        lists_keys(row_keys(rows), rows_map(rows)),
{
    let order = row_keys(rows);
    assert forall|k: K::V| #[trigger] rows_map(rows).contains_key(k) <==> order.contains(k) by {
        if rows_has(rows, k) {
            let i = choose|i: int| 0 <= i < rows.len() && (#[trigger] rows[i]).0@ == k;
            assert(order[i] == k);
        }
        if order.contains(k) {
            let i = choose|i: int| 0 <= i < order.len() && order[i] == k;
            assert(rows[i].0@ == k);
        }
    }
    assert forall|i: int, j: int|
        0 <= i < order.len() && 0 <= j < order.len() && i != j implies order[i] != order[j] by {
        assert(rows[i].0@ != rows[j].0@);
    }
}

fn report_names(m: &KeyTable<u64>) -> (r: Vec<(String, u64)>)
    requires
        m.wf(),
    ensures
        reports(counts(r@), m@, |name: Seq<char>| name),
{
    let mut rows: Vec<(String, u64)> = Vec::new();
    let ghost order = row_keys(m.rows());
    let ghost label = |name: Seq<char>| name;
    proof {
        m.lemma_rows();
        lemma_rows_list_keys(m.rows());
    }
    let mut i: usize = 0;
    while i < m.len()
        invariant
            m.wf(),
            i <= m.rows().len(),
            order == row_keys(m.rows()),
            label == |name: Seq<char>| name,
            counts(rows@) == labelled(order, m@, label).take(i as int),
        decreases m.rows().len() - i,
    {
        let row = m.row(i);
        let ghost before = rows@;
        rows.push((row.0.clone(), row.1));
        assert(counts(rows@) =~= labelled(order, m@, label).take(i + 1)) by {
            assert(counts(before) =~= labelled(order, m@, label).take(i as int));
            assert(counts(rows@) =~= counts(before).push((row.0@, row.1)));
        }
        i += 1;
    }
    proof {
        assert(counts(rows@) =~= labelled(order, m@, label));
        assert(lists_keys(order, m@));
    }
    rank(rows)
}

fn report_pairs(m: &AssocMap<RequesterTargetPair, u64>) -> (r: Vec<(String, u64)>)
    requires
        m.wf(),
    ensures
        reports(counts(r@), m@, |pair: (Seq<char>, Seq<char>)| pair_label(pair)),
{
    let mut rows: Vec<(String, u64)> = Vec::new();
    let ghost order = row_keys(m.rows());
    let ghost label = |pair: (Seq<char>, Seq<char>)| pair_label(pair);
    proof {
        m.lemma_rows();
        lemma_rows_list_keys(m.rows());
    }
    let mut i: usize = 0;
    while i < m.len()
        invariant
            m.wf(),
            i <= m.rows().len(),
            order == row_keys(m.rows()),
            label == |pair: (Seq<char>, Seq<char>)| pair_label(pair),
            counts(rows@) == labelled(order, m@, label).take(i as int),
        decreases m.rows().len() - i,
    {
        let row = m.row(i);
        let ghost before = rows@;
        rows.push((row.0.as_log_key(), row.1));
        assert(counts(rows@) =~= labelled(order, m@, label).take(i + 1)) by {
            assert(counts(before) =~= labelled(order, m@, label).take(i as int));
            assert(counts(rows@) =~= counts(before).push((pair_label(row.0@), row.1)));
        }
        i += 1;
    }
    proof {
        assert(counts(rows@) =~= labelled(order, m@, label));
        assert(lists_keys(order, m@));
    }
    rank(rows)
}

/// All counters of decisions, in the order of reports.
#[derive(Debug)]
pub struct PlacementReport {
    pub put_target: Vec<(String, u64)>,
    pub put_requester_target: Vec<(String, u64)>,
    pub put_mode: Vec<(String, u64)>,
    pub replica_task_target: Vec<(String, u64)>,
    pub get_requester_source: Vec<(String, u64)>,
    pub get_requester_source_bytes: Vec<(String, u64)>,
    pub get_allocation_mode: Vec<(String, u64)>,
}

/// All counters of decisions.
pub struct PlacementCounters {
    put_target: KeyTable<u64>,
    put_requester_target: AssocMap<RequesterTargetPair, u64>,
    put_mode: KeyTable<u64>,
    replica_task_target: KeyTable<u64>,
    get_requester_source: AssocMap<RequesterTargetPair, u64>,
    get_requester_source_bytes: AssocMap<RequesterTargetPair, u64>,
    get_allocation_mode: KeyTable<u64>,
}

/// All counters of decisions, as mathematical values.
pub struct PlacementModel {
    pub put_target: Counts,
    pub put_requester_target: PairCounts,
    pub put_mode: Counts,
    pub replica_task_target: Counts,
    pub get_requester_source: PairCounts,
    pub get_requester_source_bytes: PairCounts,
    pub get_allocation_mode: Counts,
}

impl View for PlacementCounters {
    type V = PlacementModel;

    closed spec fn view(&self) -> PlacementModel {
        PlacementModel {
            put_target: self.put_target@,
            put_requester_target: self.put_requester_target@,
            put_mode: self.put_mode@,
            replica_task_target: self.replica_task_target@,
            get_requester_source: self.get_requester_source@,
            get_requester_source_bytes: self.get_requester_source_bytes@,
            get_allocation_mode: self.get_allocation_mode@,
        }
    }
}

impl PlacementModel {
    /// The counters after a put was placed.
    pub open spec fn put_placed(
        self,
        requester: Seq<char>,
        target: Seq<char>,
        mode: PutPlacementMode,
    ) -> PlacementModel {
        PlacementModel {
            put_target: bumped(self.put_target, target, 1),
            put_requester_target: bumped(self.put_requester_target, (requester, target), 1),
            put_mode: bumped(
                self.put_mode,
                match mode {
                    PutPlacementMode::Local => "local"@,
                    PutPlacementMode::Remote => "remote"@,
                },
                1,
            ),
            ..self
        }
    }

    /// The counters after the target of a further copy was chosen.
    pub open spec fn copy_placed(self, target: Seq<char>) -> PlacementModel {
        PlacementModel {
            replica_task_target: bumped(self.replica_task_target, target, 1),
            ..self
        }
    }

    /// The counters after the source of a get was chosen.
    pub open spec fn source_chosen(
        self,
        requester: Seq<char>,
        source: Seq<char>,
        bytes: u64,
        mode: GetAllocationMode,
    ) -> PlacementModel {
        PlacementModel {
            get_requester_source: bumped(self.get_requester_source, (requester, source), 1),
            get_requester_source_bytes: bumped(
                self.get_requester_source_bytes,
                (requester, source),
                bytes,
            ),
            get_allocation_mode: bumped(self.get_allocation_mode, allocation_mode_chars(mode), 1),
            ..self
        }
    }
}

/// One more where two things are the same.
pub open spec fn one_if(same: bool) -> int {
    if same {
        1
    } else {
        0
    }
}

/// A put counts once for its target, once for its requester and target, and once for its mode; what is
/// known of gets and of further copies stays.
pub proof fn a_put_is_counted_once_each(
    m: PlacementModel,
    requester: Seq<char>,
    target: Seq<char>,
    mode: PutPlacementMode,
    a: Seq<char>,
    b: Seq<char>,
)
    requires
        count_of(m.put_target, b) < u64::MAX,
        count_of(m.put_requester_target, (a, b)) < u64::MAX,
        count_of(m.put_mode, "local"@) < u64::MAX,
        count_of(m.put_mode, "remote"@) < u64::MAX,
    ensures
        ({
            let after = m.put_placed(requester, target, mode);
            &&& count_of(after.put_target, b) == count_of(m.put_target, b) + one_if(b == target)
            &&& count_of(after.put_requester_target, (a, b)) == count_of(
                m.put_requester_target,
                (a, b),
            ) + one_if(a == requester && b == target)
            &&& count_of(after.put_mode, "local"@) == count_of(m.put_mode, "local"@) + one_if(
                mode == PutPlacementMode::Local,
            )
            &&& count_of(after.put_mode, "remote"@) == count_of(m.put_mode, "remote"@) + one_if(
                mode == PutPlacementMode::Remote,
            )
            &&& after.replica_task_target == m.replica_task_target
            &&& after.get_requester_source == m.get_requester_source
            &&& after.get_requester_source_bytes == m.get_requester_source_bytes
            &&& after.get_allocation_mode == m.get_allocation_mode
        }),
{
    reveal_strlit("local");
    reveal_strlit("remote");
    assert("local"@.len() != "remote"@.len());
}

/// A further copy counts once, for its target alone.
pub proof fn a_further_copy_is_counted_once(m: PlacementModel, target: Seq<char>, n: Seq<char>)
    requires
        count_of(m.replica_task_target, n) < u64::MAX,
    ensures
        count_of(m.copy_placed(target).replica_task_target, n) == count_of(m.replica_task_target, n)
            + one_if(n == target),
        m.copy_placed(target).put_target == m.put_target,
        m.copy_placed(target).put_requester_target == m.put_requester_target,
        m.copy_placed(target).put_mode == m.put_mode,
        m.copy_placed(target).get_requester_source == m.get_requester_source,
        m.copy_placed(target).get_requester_source_bytes == m.get_requester_source_bytes,
        m.copy_placed(target).get_allocation_mode == m.get_allocation_mode,
{
}

/// A get counts once for its requester and source, with all its bytes, and once for its mode; what is
/// known of puts and of further copies stays.
pub proof fn a_get_is_counted_with_its_bytes(
    m: PlacementModel,
    requester: Seq<char>,
    source: Seq<char>,
    bytes: u64,
    mode: GetAllocationMode,
    a: Seq<char>,
    b: Seq<char>,
)
    requires
        count_of(m.get_requester_source, (a, b)) < u64::MAX,
        count_of(m.get_requester_source_bytes, (a, b)) + bytes <= u64::MAX,
        count_of(m.get_allocation_mode, a) < u64::MAX,
    ensures
        ({
            let after = m.source_chosen(requester, source, bytes, mode);
            let same = a == requester && b == source;
            &&& count_of(after.get_requester_source, (a, b)) == count_of(
                m.get_requester_source,
                (a, b),
            ) + one_if(same)
            &&& count_of(after.get_requester_source_bytes, (a, b)) == count_of(
                m.get_requester_source_bytes,
                (a, b),
            ) + if same {
                bytes as int
            } else {
                0
            }
            &&& count_of(after.get_allocation_mode, a) == count_of(m.get_allocation_mode, a)
                + one_if(a == allocation_mode_chars(mode))
            &&& after.put_target == m.put_target
            &&& after.put_requester_target == m.put_requester_target
            &&& after.put_mode == m.put_mode
            &&& after.replica_task_target == m.replica_task_target
        }),
{
}

impl PlacementCounters {
    pub closed spec fn wf(&self) -> bool {
        &&& self.put_target.wf()
        &&& self.put_requester_target.wf()
        &&& self.put_mode.wf()
        &&& self.replica_task_target.wf()
        &&& self.get_requester_source.wf()
        &&& self.get_requester_source_bytes.wf()
        &&& self.get_allocation_mode.wf()
    }

    pub fn new() -> (r: Self)
        ensures
            r.wf(),
            r@.put_target == Map::<Seq<char>, u64>::empty(),
            r@.put_requester_target == Map::<(Seq<char>, Seq<char>), u64>::empty(),
            r@.put_mode == Map::<Seq<char>, u64>::empty(),
            r@.replica_task_target == Map::<Seq<char>, u64>::empty(),
            r@.get_requester_source == Map::<(Seq<char>, Seq<char>), u64>::empty(),
            r@.get_requester_source_bytes == Map::<(Seq<char>, Seq<char>), u64>::empty(),
            r@.get_allocation_mode == Map::<Seq<char>, u64>::empty(),
    {
        PlacementCounters {
            put_target: KeyTable::new(),
            put_requester_target: AssocMap::new(),
            put_mode: KeyTable::new(),
            replica_task_target: KeyTable::new(),
            get_requester_source: AssocMap::new(),
            get_requester_source_bytes: AssocMap::new(),
            get_allocation_mode: KeyTable::new(),
        }
    }

    /// Counts where a put went, by target, by requester and target, and by mode.
    pub fn record_put_placement_decision(
        &mut self,
        requester_node_id: &str,
        target_node_id: &str,
        placement_mode: PutPlacementMode,
    )
        requires
            old(self).wf(),
        ensures
            final(self).wf(),
            final(self)@ == old(self)@.put_placed(
                requester_node_id@,
                target_node_id@,
                placement_mode,
            ),
    {
        bump_name(&mut self.put_target, target_node_id, 1);
        bump_pair(
            &mut self.put_requester_target,
            RequesterTargetPair::new(requester_node_id, target_node_id),
            1,
        );
        bump_name(&mut self.put_mode, placement_mode.label(), 1);
    }

    /// Counts where a further copy goes.
    pub fn record_replica_task_target(&mut self, target_node_id: &str)
        requires
            old(self).wf(),
        ensures
            final(self).wf(),
            final(self)@ == old(self)@.copy_placed(target_node_id@),
    {
        bump_name(&mut self.replica_task_target, target_node_id, 1);
    }

    /// Counts where a get reads from, how many bytes, and where the bytes are kept.
    pub fn record_get_source_selection(
        &mut self,
        requester_node_id: &str,
        source_node_id: &str,
        bytes: u64,
        allocation_mode: GetAllocationMode,
    )
        requires
            old(self).wf(),
        ensures
            final(self).wf(),
            final(self)@ == old(self)@.source_chosen(
                requester_node_id@,
                source_node_id@,
                bytes,
                allocation_mode,
            ),
    {
        bump_pair(
            &mut self.get_requester_source,
            RequesterTargetPair::new(requester_node_id, source_node_id),
            1,
        );
        bump_pair(
            &mut self.get_requester_source_bytes,
            RequesterTargetPair::new(requester_node_id, source_node_id),
            bytes,
        );
        bump_name(&mut self.get_allocation_mode, allocation_mode_label(allocation_mode), 1);
    }

    /// All counters, each kind with the largest first.
    pub fn report(&self) -> (r: PlacementReport)
        requires
            self.wf(),
        ensures
            ({
                let name = |name: Seq<char>| name;
                let pair = |pair: (Seq<char>, Seq<char>)| pair_label(pair);
                &&& reports(counts(r.put_target@), self@.put_target, name)
                &&& reports(counts(r.put_requester_target@), self@.put_requester_target, pair)
                &&& reports(counts(r.put_mode@), self@.put_mode, name)
                &&& reports(counts(r.replica_task_target@), self@.replica_task_target, name)
                &&& reports(counts(r.get_requester_source@), self@.get_requester_source, pair)
                &&& reports(
                    counts(r.get_requester_source_bytes@),
                    self@.get_requester_source_bytes,
                    pair,
                )
                &&& reports(counts(r.get_allocation_mode@), self@.get_allocation_mode, name)
            }),
    {
        PlacementReport {
            put_target: report_names(&self.put_target),
            put_requester_target: report_pairs(&self.put_requester_target),
            put_mode: report_names(&self.put_mode),
            replica_task_target: report_names(&self.replica_task_target),
            get_requester_source: report_pairs(&self.get_requester_source),
            get_requester_source_bytes: report_pairs(&self.get_requester_source_bytes),
            get_allocation_mode: report_names(&self.get_allocation_mode),
        }
    }

    /// The number of puts that went to a target.
    pub fn put_target_count(&self, target_node_id: &str) -> (r: u64)
        requires
            self.wf(),
        ensures
            r == count_of(self@.put_target, target_node_id@),
    {
        match self.put_target.get(target_node_id) {
            Some(n) => *n,
            None => 0,
        }
    }

    /// The number of puts of a requester that went to a target.
    pub fn put_requester_target_count(&self, pair: &RequesterTargetPair) -> (r: u64)
        requires
            self.wf(),
        ensures
            r == count_of(self@.put_requester_target, pair@),
    {
        match self.put_requester_target.get(pair) {
            Some(n) => *n,
            None => 0,
        }
    }

    /// The number of puts that were placed in a mode.
    pub fn put_mode_count(&self, mode: PutPlacementMode) -> (r: u64)
        requires
            self.wf(),
        ensures
            r == count_of(
                self@.put_mode,
                match mode {
                    PutPlacementMode::Local => "local"@,
                    PutPlacementMode::Remote => "remote"@,
                },
            ),
    {
        match self.put_mode.get(mode.label()) {
            Some(n) => *n,
            None => 0,
        }
    }
}

/// The state of one node's cache.
#[derive(Debug)]
pub struct ReplicaCacheNodeObserveSnapshot {
    pub owner_node: String,
    pub entries: u64,
    pub weighted_bytes: u64,
    pub effective_capacity_bytes: u64,
    pub reserved_capacity_bytes: u64,
    pub base_capacity_bytes: u64,
    pub pending_eviction_reclaim_bytes: u64,
    pub writeback_tier1_entries: u64,
    pub writeback_tier1_weighted_bytes: u64,
    pub writeback_tier1_capacity_bytes: u64,
    pub writeback_tier1_triggered: u64,
    pub writeback_tier1_owner_accepted: u64,
    pub writeback_tier1_failed: u64,
    pub reclaim_master_activity_deferred: u64,
    pub reclaim_master_get_holder_observed: u64,
    pub reclaim_owner_holder_deferred: u64,
    pub reclaim_owner_other_deferred: u64,
    pub reclaim_route_changed: u64,
    pub reclaim_retry_queued: u64,
    pub reclaim_retry_completed: u64,
    pub reclaim_retry_restored: u64,
    pub reclaim_completed: u64,
    pub owner_hot_demotion_attempts: u64,
    pub owner_hot_demotion_cohorts: u64,
    pub owner_hot_demotion_selected_bytes: u64,
    pub owner_hot_demotion_precheck_rejected: u64,
    pub owner_hot_demotion_partial_mismatch: u64,
    pub recoverable_first_requested_bytes: u64,
    pub recoverable_first_selected_bytes: u64,
    pub recoverable_first_shortfall_bytes: u64,
    pub recoverable_first_eligible_checks: u64,
    pub recoverable_first_route_absent_checks: u64,
    pub recoverable_first_version_changed_checks: u64,
    pub recoverable_first_route_ineligible_checks: u64,
    pub recoverable_first_cpu_route_absent_checks: u64,
    pub recoverable_first_atomic_group_incomplete_checks: u64,
    pub recoverable_first_tp_cohort_incomplete_checks: u64,
}

/// The state of the router.
#[derive(Debug)]
pub struct MasterRuntimeObserveSnapshot {
    pub get_holding_entries: u64,
    pub get_holding_bytes: u64,
    pub replica_cache_nodes: Vec<ReplicaCacheNodeObserveSnapshot>,
}

/// The first tier of a node's cache.
#[derive(Clone, Copy, Debug, PartialEq, Eq, Structural)]
pub struct Tier1Usage {
    pub entries: u64,
    pub weighted_bytes: u64,
    pub max_capacity: Option<u64>,
}

/// What became of copies that left the first tier.
#[derive(Clone, Copy, Debug, PartialEq, Eq, Structural)]
pub struct Tier1Writeback {
    pub triggered: u64,
    pub owner_accepted: u64,
    pub failed: u64,
}

/// What is known of one node's cache.
#[derive(Debug)]
pub struct NodeCacheUsage {
    pub owner_node: String,
    pub entries: u64,
    pub weighted_bytes: u64,
    pub base_capacity_bytes: u64,
    pub reserved_capacity_bytes: u64,
    pub pending_eviction_reclaim_bytes: u64,
    pub tier1: Option<Tier1Usage>,
    pub writeback: Tier1Writeback,
    pub counters: EvictionReclaimCounters,
}

/// The snapshot tells of the counters.
pub open spec fn tells_counters(
    s: ReplicaCacheNodeObserveSnapshot,
    c: EvictionReclaimCounters,
) -> bool {
    &&& s.reclaim_master_activity_deferred == c.master_activity_deferred
    &&& s.reclaim_master_get_holder_observed == c.master_get_holder_observed
    &&& s.reclaim_owner_holder_deferred == c.owner_holder_deferred
    &&& s.reclaim_owner_other_deferred == c.owner_other_deferred
    &&& s.reclaim_route_changed == c.route_changed
    &&& s.reclaim_retry_queued == c.retry_queued
    &&& s.reclaim_retry_completed == c.retry_completed
    &&& s.reclaim_retry_restored == c.retry_restored
    &&& s.reclaim_completed == c.completed
    &&& s.owner_hot_demotion_attempts == c.owner_hot_demotion_attempts
    &&& s.owner_hot_demotion_cohorts == c.owner_hot_demotion_cohorts
    &&& s.owner_hot_demotion_selected_bytes == c.owner_hot_demotion_selected_bytes
    &&& s.owner_hot_demotion_precheck_rejected == c.owner_hot_demotion_precheck_rejected
    &&& s.owner_hot_demotion_partial_mismatch == c.owner_hot_demotion_partial_mismatch
    &&& s.recoverable_first_requested_bytes == c.recoverable_first_requested_bytes
    &&& s.recoverable_first_selected_bytes == c.recoverable_first_selected_bytes
    &&& s.recoverable_first_shortfall_bytes == c.recoverable_first_shortfall_bytes
    &&& s.recoverable_first_eligible_checks == c.recoverable_first_eligible_checks
    &&& s.recoverable_first_route_absent_checks == c.recoverable_first_route_absent_checks
    &&& s.recoverable_first_version_changed_checks == c.recoverable_first_version_changed_checks
    &&& s.recoverable_first_route_ineligible_checks == c.recoverable_first_route_ineligible_checks
    &&& s.recoverable_first_cpu_route_absent_checks == c.recoverable_first_cpu_route_absent_checks
    &&& s.recoverable_first_atomic_group_incomplete_checks
        == c.recoverable_first_atomic_group_incomplete_checks
    &&& s.recoverable_first_tp_cohort_incomplete_checks
        == c.recoverable_first_tp_cohort_incomplete_checks
}

/// The snapshot tells of a node.
pub open spec fn tells_node(s: ReplicaCacheNodeObserveSnapshot, u: NodeCacheUsage) -> bool {
    &&& s.owner_node@ == u.owner_node@
    &&& s.entries == u.entries
    &&& s.weighted_bytes == u.weighted_bytes
    &&& s.base_capacity_bytes == u.base_capacity_bytes
    &&& s.reserved_capacity_bytes == u.reserved_capacity_bytes
    &&& s.effective_capacity_bytes == minus(
        u.base_capacity_bytes as int,
        u.reserved_capacity_bytes as int,
    )
    &&& s.pending_eviction_reclaim_bytes == u.pending_eviction_reclaim_bytes
    &&& match u.tier1 {
        Some(t) => {
            &&& s.writeback_tier1_entries == t.entries
            &&& s.writeback_tier1_weighted_bytes == t.weighted_bytes
            &&& s.writeback_tier1_capacity_bytes == match t.max_capacity {
                Some(c) => c,
                None => 0,
            }
        },
        None => {
            &&& s.writeback_tier1_entries == 0
            &&& s.writeback_tier1_weighted_bytes == 0
            &&& s.writeback_tier1_capacity_bytes == 0
        },
    }
    &&& s.writeback_tier1_triggered == u.writeback.triggered
    &&& s.writeback_tier1_owner_accepted == u.writeback.owner_accepted
    &&& s.writeback_tier1_failed == u.writeback.failed
    &&& tells_counters(s, u.counters)
}

fn observe_node(u: &NodeCacheUsage) -> (r: ReplicaCacheNodeObserveSnapshot)
    ensures
        tells_node(r, *u),
{
    let c = u.counters;
    let (tier1_entries, tier1_weighted, tier1_capacity) = match u.tier1 {
        Some(t) => (
            t.entries,
            t.weighted_bytes,
            match t.max_capacity {
                Some(c) => c,
                None => 0,
            },
        ),
        None => (0, 0, 0),
    };
    ReplicaCacheNodeObserveSnapshot {
        owner_node: u.owner_node.clone(),
        entries: u.entries,
        weighted_bytes: u.weighted_bytes,
        effective_capacity_bytes: u.base_capacity_bytes.saturating_sub(u.reserved_capacity_bytes),
        reserved_capacity_bytes: u.reserved_capacity_bytes,
        base_capacity_bytes: u.base_capacity_bytes,
        pending_eviction_reclaim_bytes: u.pending_eviction_reclaim_bytes,
        writeback_tier1_entries: tier1_entries,
        writeback_tier1_weighted_bytes: tier1_weighted,
        writeback_tier1_capacity_bytes: tier1_capacity,
        writeback_tier1_triggered: u.writeback.triggered,
        writeback_tier1_owner_accepted: u.writeback.owner_accepted,
        writeback_tier1_failed: u.writeback.failed,
        reclaim_master_activity_deferred: c.master_activity_deferred,
        reclaim_master_get_holder_observed: c.master_get_holder_observed,
        reclaim_owner_holder_deferred: c.owner_holder_deferred,
        reclaim_owner_other_deferred: c.owner_other_deferred,
        reclaim_route_changed: c.route_changed,
        reclaim_retry_queued: c.retry_queued,
        reclaim_retry_completed: c.retry_completed,
        reclaim_retry_restored: c.retry_restored,
        reclaim_completed: c.completed,
        owner_hot_demotion_attempts: c.owner_hot_demotion_attempts,
        owner_hot_demotion_cohorts: c.owner_hot_demotion_cohorts,
        owner_hot_demotion_selected_bytes: c.owner_hot_demotion_selected_bytes,
        owner_hot_demotion_precheck_rejected: c.owner_hot_demotion_precheck_rejected,
        owner_hot_demotion_partial_mismatch: c.owner_hot_demotion_partial_mismatch,
        recoverable_first_requested_bytes: c.recoverable_first_requested_bytes,
        recoverable_first_selected_bytes: c.recoverable_first_selected_bytes,
        recoverable_first_shortfall_bytes: c.recoverable_first_shortfall_bytes,
        recoverable_first_eligible_checks: c.recoverable_first_eligible_checks,
        recoverable_first_route_absent_checks: c.recoverable_first_route_absent_checks,
        recoverable_first_version_changed_checks: c.recoverable_first_version_changed_checks,
        recoverable_first_route_ineligible_checks: c.recoverable_first_route_ineligible_checks,
        recoverable_first_cpu_route_absent_checks: c.recoverable_first_cpu_route_absent_checks,
        recoverable_first_atomic_group_incomplete_checks:
            c.recoverable_first_atomic_group_incomplete_checks,
        recoverable_first_tp_cohort_incomplete_checks:
            c.recoverable_first_tp_cohort_incomplete_checks,
    }
}

/// The sum of some lengths.
pub open spec fn sum_of(lens: Seq<u64>) -> int
    decreases lens.len(),
{
    if lens.len() == 0 {
        0
    } else {
        sum_of(lens.drop_last()) + lens.last()
    }
}

proof fn lemma_sum_nonnegative(lens: Seq<u64>)
    ensures
        sum_of(lens) >= 0,
    decreases lens.len(),
{
    if lens.len() > 0 {
        lemma_sum_nonnegative(lens.drop_last());
    }
}

/// The lengths of all values that are held add up, each once.
pub proof fn held_bytes_add_up(a: Seq<u64>, b: Seq<u64>, len: u64)
    ensures
        sum_of(a + b) == sum_of(a) + sum_of(b),
        sum_of(seq![len]) == len,
    decreases b.len(),
{
    assert(seq![len].drop_last() =~= Seq::<u64>::empty());
    assert(sum_of(Seq::<u64>::empty()) == 0);
    if b.len() > 0 {
        held_bytes_add_up(a, b.drop_last(), len);
        assert((a + b).drop_last() =~= a + b.drop_last());
    } else {
        assert(a + b =~= a);
    }
}

/// Takes a snapshot: of the values that gets hold, given by their lengths, and of each node's
/// cache.
pub fn runtime_observe_snapshot(holding_lens: &Vec<u64>, nodes: &Vec<NodeCacheUsage>) -> (r:
    MasterRuntimeObserveSnapshot)
    ensures
        r.get_holding_entries == holding_lens@.len(),
        r.get_holding_bytes == capped(sum_of(holding_lens@)),
        r.replica_cache_nodes@.len() == nodes@.len(),
        forall|i: int|
            0 <= i < nodes@.len() ==> tells_node(#[trigger] r.replica_cache_nodes@[i], nodes@[i]),
{
    let mut get_holding_bytes: u64 = 0;
    let mut i: usize = 0;
    assert(holding_lens@.take(0) =~= Seq::empty());
    while i < holding_lens.len()
        invariant
            i <= holding_lens@.len(),
            get_holding_bytes == capped(sum_of(holding_lens@.take(i as int))),
        decreases holding_lens@.len() - i,
    {
        proof {
            assert(holding_lens@.take(i + 1).drop_last() =~= holding_lens@.take(i as int));
            lemma_sum_nonnegative(holding_lens@.take(i as int));
        }
        get_holding_bytes = get_holding_bytes.saturating_add(holding_lens[i]);
        i += 1;
    }
    assert(holding_lens@.take(holding_lens@.len() as int) =~= holding_lens@);
    let mut replica_cache_nodes: Vec<ReplicaCacheNodeObserveSnapshot> = Vec::new();
    let mut n: usize = 0;
    while n < nodes.len()
        invariant
            n <= nodes@.len(),
            replica_cache_nodes@.len() == n,
            forall|j: int|
                0 <= j < n ==> tells_node(#[trigger] replica_cache_nodes@[j], nodes@[j]),
        decreases nodes@.len() - n,
    {
        replica_cache_nodes.push(observe_node(&nodes[n]));
        n += 1;
    }
    MasterRuntimeObserveSnapshot {
        get_holding_entries: holding_lens.len() as u64,
        get_holding_bytes,
        replica_cache_nodes,
    }
}

} // verus!
