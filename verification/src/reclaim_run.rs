//! Reclaiming copies of one owner: the order of the phases, and what each answer of the owner means.
//!
//! The keys are fenced first. Copies that the owner does not know of go at once. The others are
//! prepared by the owner, looked at again, and committed; what was committed is taken out of the
//! routes, and the owner is told that it may finish. What cannot be committed is aborted.
use vstd::prelude::*;

use crate::cache_policy::{plus, EvictionReclaimCounters};
use crate::key_activity::{
    activity_of, ActivityMap, ItemId, MasterKeyActivityTable, OwnerReclaimBacking,
    OwnerReclaimItem,
};
use crate::key_table::KeyTable;
use crate::name_set::NameSet;
use crate::reclaim::{
    abort_settled, apply_abort, apply_finalize, check_phase_response, copies_taken, fence_all,
    fence_candidates, finish_unindexed_allocations, item_ids, items_where,
    partition_reclaim_coordination, prepare_all, removals_told, remove_committed, revalidate_all,
    revalidate_prepared, sort_prepare, split_commit, unfenced_count, unfenced_where,
    EvictionRights, FenceModel, OwnerReclaimItemResp, OwnerReclaimItemState, OwnerReclaimPhase,
    PrepareModel, RemovedCopy, RevalidateModel,
};
use crate::recoverability::{routes_wf, Routes};
use crate::routes::OneKvNodesRoutes;

verus! {

/// Where a run stands: what the owner has been asked last, and why.
#[derive(Clone, Copy, Debug, PartialEq, Eq, Structural)]
pub enum RunPhase {
    Preparing,
    /// Nothing could be prepared.
    AbortingAll,
    /// Some of what was prepared may not be reclaimed any more.
    AbortingInvalid,
    Committing,
    /// Some of what was to be committed was not.
    AbortingUnresolved,
    Finalizing,
    Over,
}

/// What a run needs next.
pub struct RunStep {
    /// The owner is to be asked this about the items that the run lists; if nothing, the run is over.
    pub call: Option<OwnerReclaimPhase>,
    /// The number of copies that were reclaimed, once the run is over.
    pub reclaimed: u32,
    /// The owner could not be told to abort these; it is to be told again.
    pub retry_abort: Vec<OwnerReclaimItem>,
    /// The owner has not finished these; it is to be told again.
    pub retry_finalize: Vec<OwnerReclaimItem>,
    /// The copies that were taken out of their routes in this step.
    pub removed: Vec<RemovedCopy>,
}

/// A run over copies of one owner.
pub struct ReclaimRun {
    owner: String,
    phase: RunPhase,
    /// What the owner is asked about.
    asked: Vec<OwnerReclaimItem>,
    /// What waits to be committed.
    prepared: Vec<OwnerReclaimItem>,
    committed: Vec<OwnerReclaimItem>,
    master_reclaimed: u32,
    candidates: usize,
}

/// A run over copies of one owner, as mathematical values.
#[verifier::ext_equal]
pub struct RunModel {
    pub owner: Seq<char>,
    pub phase: RunPhase,
    pub asked: Seq<ItemId>,
    pub prepared: Seq<ItemId>,
    pub committed: Seq<ItemId>,
    pub master_reclaimed: u32,
    pub candidates: usize,
}

impl View for ReclaimRun {
    type V = RunModel;

    closed spec fn view(&self) -> RunModel {
        RunModel {
            owner: self.owner@,
            phase: self.phase,
            asked: item_ids(self.asked@),
            prepared: item_ids(self.prepared@),
            committed: item_ids(self.committed@),
            master_reclaimed: self.master_reclaimed,
            candidates: self.candidates,
        }
    }
}

/// The run is over.
pub open spec fn closes(step: RunStep, reclaimed: int) -> bool {
    step.call is None && step.reclaimed == reclaimed && step.retry_finalize@.len() == 0
}

/// The run is over, and no copy was taken out of its route.
pub open spec fn ended(step: RunStep, reclaimed: int) -> bool {
    closes(step, reclaimed) && step.removed@.len() == 0
}

/// The owner is asked.
pub open spec fn calls(step: RunStep, phase: OwnerReclaimPhase) -> bool {
    step.call == Some(phase) && step.retry_finalize@.len() == 0
}

/// The owner is asked, and no copy was taken out of its route.
pub open spec fn asks(step: RunStep, phase: OwnerReclaimPhase) -> bool {
    calls(step, phase) && step.removed@.len() == 0
}

/// The counters after a run is over.
pub open spec fn completed(c: EvictionReclaimCounters, reclaimed: u64) -> EvictionReclaimCounters {
    EvictionReclaimCounters { completed: plus(c.completed, reclaimed), ..c }
}

/// What was committed is taken out of the routes, as far as the fences still stand, and the owner is
/// told to finish it; or there is nothing of the kind, and the run is over.
pub open spec fn finish_begun(
    run0: RunModel,
    routes0: Routes,
    activity: ActivityMap,
    c0: EvictionReclaimCounters,
    run1: RunModel,
    routes1: Routes,
    c1: EvictionReclaimCounters,
    step: RunStep,
) -> bool {
    let gone = items_where(
        run0.committed,
        |i: int| activity_of(activity, run0.committed[i].key).reclaim == Some(run0.committed[i]),
    );
    &&& copies_taken(routes0, routes1, run0.owner, run0.committed, activity)
    &&& removals_told(
        step.removed@,
        routes0,
        routes1,
        run0.owner,
        run0.committed,
        activity,
    )
    &&& run1.owner == run0.owner && run1.master_reclaimed == run0.master_reclaimed
    &&& if gone.len() == 0 {
        &&& closes(step, run0.master_reclaimed as int)
        &&& c1 == completed(c0, run0.master_reclaimed as u64)
        &&& run1.phase == RunPhase::Over
    } else {
        &&& calls(step, OwnerReclaimPhase::Finalize)
        &&& c1 == c0
        &&& run1.phase == RunPhase::Finalizing
        &&& run1.asked == gone
    }
}

/// What is prepared is to be committed; if nothing is, what was committed before is finished.
pub open spec fn commit_begun(
    run0: RunModel,
    routes0: Routes,
    activity: ActivityMap,
    c0: EvictionReclaimCounters,
    run1: RunModel,
    routes1: Routes,
    c1: EvictionReclaimCounters,
    step: RunStep,
) -> bool {
    if run0.prepared.len() == 0 {
        finish_begun(run0, routes0, activity, c0, run1, routes1, c1, step)
    } else {
        &&& asks(step, OwnerReclaimPhase::Commit)
        &&& c1 == c0
        &&& routes1 == routes0
        &&& run1 == (RunModel {
            phase: RunPhase::Committing,
            asked: run0.prepared,
            prepared: Seq::empty(),
            ..run0
        })
    }
}

/// The owner's answer is about what it was asked.
pub open spec fn heard(asked: Seq<ItemId>, answer: Option<Vec<OwnerReclaimItemResp>>) -> bool {
    answer matches Some(responses) && responses@.len() == asked.len() && forall|i: int|
        0 <= i < asked.len() ==> (#[trigger] asked[i]).key == responses@[i].key@ && asked[i].epoch
            == responses@[i].epoch
}

/// The states that the owner's answer tells.
pub open spec fn state_at(answer: Option<Vec<OwnerReclaimItemResp>>, i: int) -> OwnerReclaimItemState {
    answer->0@[i].state
}

/// The answer to an abort is taken note of: what is settled loses its fence, what had been committed
/// counts, and without an answer the owner is told again later.
pub open spec fn abort_noted(
    asked: Seq<ItemId>,
    answer: Option<Vec<OwnerReclaimItemResp>>,
    activity0: ActivityMap,
    activity1: ActivityMap,
    newly_committed: Seq<ItemId>,
    retry: Seq<ItemId>,
) -> bool {
    if heard(asked, answer) {
        &&& activity1 == unfenced_where(
            activity0,
            asked,
            |i: int| abort_settled(state_at(answer, i)),
        )
        &&& newly_committed == items_where(
            asked,
            |i: int| state_at(answer, i) == OwnerReclaimItemState::Committed,
        )
        &&& retry.len() == 0
    } else {
        &&& activity1 == activity0
        &&& newly_committed.len() == 0
        &&& retry == asked
    }
}

proof fn lemma_where_len(items: Seq<ItemId>, keep: spec_fn(int) -> bool)
    ensures
        items_where(items, keep).len() <= items.len(),
    decreases items.len(),
{
    if items.len() > 0 {
        lemma_where_len(items.drop_last(), keep);
    }
}

proof fn lemma_where_split(items: Seq<ItemId>, a: spec_fn(int) -> bool, b: spec_fn(int) -> bool)
    requires
        forall|i: int| 0 <= i < items.len() ==> !(#[trigger] a(i) && b(i)),
    ensures
        items_where(items, a).len() + items_where(items, b).len() <= items.len(),
    decreases items.len(),
{
    if items.len() > 0 {
        lemma_where_split(items.drop_last(), a, b);
        assert(!(a(items.len() - 1) && b(items.len() - 1)));
    }
}

/// Two properties that agree on a list pick the same items.
proof fn lemma_where_same(items: Seq<ItemId>, a: spec_fn(int) -> bool, b: spec_fn(int) -> bool)
    requires
        forall|i: int| 0 <= i < items.len() ==> #[trigger] a(i) == b(i),
    ensures
        items_where(items, a) == items_where(items, b),
    decreases items.len(),
{
    if items.len() > 0 {
        lemma_where_same(items.drop_last(), a, b);
        assert(a(items.len() - 1) == b(items.len() - 1));
    }
}

proof fn lemma_unfenced_same(
    m: ActivityMap,
    items: Seq<ItemId>,
    a: spec_fn(int) -> bool,
    b: spec_fn(int) -> bool,
)
    requires
        forall|i: int| 0 <= i < items.len() ==> #[trigger] a(i) == b(i),
    ensures
        unfenced_where(m, items, a) == unfenced_where(m, items, b),
    decreases items.len(),
{
    if items.len() > 0 {
        lemma_unfenced_same(m, items.drop_last(), a, b);
        assert(a(items.len() - 1) == b(items.len() - 1));
    }
}

proof fn lemma_fence_len(
    m: FenceModel,
    routes: Routes,
    remote: Set<Seq<char>>,
    owner: Seq<char>,
    holders: Set<Seq<char>>,
    items: Seq<ItemId>,
    rights: EvictionRights,
)
    ensures
        fence_all(m, routes, remote, owner, holders, items, rights).fenced.len() <= m.fenced.len()
            + items.len(),
    decreases items.len(),
{
    if items.len() > 0 {
        lemma_fence_len(m, routes, remote, owner, holders, items.drop_last(), rights);
    }
}

proof fn lemma_prepare_len(m: PrepareModel, items: Seq<ItemId>, responses: Seq<OwnerReclaimItemResp>)
    ensures
        ({
            let r = prepare_all(m, items, responses);
            r.prepared.len() + r.committed.len() <= m.prepared.len() + m.committed.len()
                + items.len()
        }),
    decreases items.len(),
{
    if items.len() > 0 {
        lemma_prepare_len(m, items.drop_last(), responses);
    }
}

proof fn lemma_revalidate_len(
    m: RevalidateModel,
    routes: Routes,
    activity: ActivityMap,
    remote: Set<Seq<char>>,
    owner: Seq<char>,
    holders: Set<Seq<char>>,
    items: Seq<ItemId>,
    rights: EvictionRights,
)
    ensures
        ({
            let r = revalidate_all(m, routes, activity, remote, owner, holders, items, rights);
            r.valid.len() + r.invalid.len() == m.valid.len() + m.invalid.len() + items.len()
        }),
    decreases items.len(),
{
    if items.len() > 0 {
        lemma_revalidate_len(
            m,
            routes,
            activity,
            remote,
            owner,
            holders,
            items.drop_last(),
            rights,
        );
    }
}

proof fn lemma_count_len(m: ActivityMap, items: Seq<ItemId>)
    ensures
        0 <= unfenced_count(m, items).1 <= items.len(),
    decreases items.len(),
{
    if items.len() > 0 {
        lemma_count_len(m, items.drop_last());
    }
}

fn no_items() -> (r: Vec<OwnerReclaimItem>)
    ensures
        r@.len() == 0,
        item_ids(r@) == Seq::<ItemId>::empty(),
{
    let r: Vec<OwnerReclaimItem> = Vec::new();
    assert(item_ids(r@) =~= Seq::<ItemId>::empty());
    r
}

/// The answer of an owner, if it is about what the owner was asked.
fn checked_answer<'a>(
    asked: &Vec<OwnerReclaimItem>,
    answer: &'a Option<Vec<OwnerReclaimItemResp>>,
) -> (r: Option<&'a Vec<OwnerReclaimItemResp>>)
    ensures
        r is Some <==> heard(item_ids(asked@), *answer),
        r matches Some(responses) ==> *answer == Some(*responses) && responses@.len()
            == asked@.len(),
{
    match answer {
        None => None,
        Some(responses) => match check_phase_response(asked, responses) {
            Ok(_) => {
                proof {
                    let ids = item_ids(asked@);
                    assert forall|i: int| 0 <= i < ids.len() implies (#[trigger] ids[i]).key
                        == responses@[i].key@ && ids[i].epoch == responses@[i].epoch by {
                        assert(crate::reclaim::answers(asked@[i], responses@[i]));
                    }
                }
                Some(responses)
            },
            Err(fault) => {
                proof {
                    let ids = item_ids(asked@);
                    match fault {
                        crate::reclaim::PhaseFault::IdentityMismatch { index } => {
                            assert(!crate::reclaim::answers(
                                asked@[index as int],
                                responses@[index as int],
                            ));
                            assert(ids[index as int] == asked@[index as int]@);
                        },
                        _ => {},
                    }
                }
                None
            },
        },
    }
}

/// Takes note of the answer to an abort.
fn note_abort(
    activity: &mut MasterKeyActivityTable,
    asked: Vec<OwnerReclaimItem>,
    answer: &Option<Vec<OwnerReclaimItemResp>>,
) -> (r: (Vec<OwnerReclaimItem>, Vec<OwnerReclaimItem>))
    requires
        old(activity).wf(),
    ensures
        final(activity).wf(),
        abort_noted(
            item_ids(asked@),
            *answer,
            old(activity)@,
            final(activity)@,
            item_ids(r.0@),
            item_ids(r.1@),
        ),
        r.0@.len() <= asked@.len(),
{
    match checked_answer(&asked, answer) {
        Some(responses) => {
            let ghost ids = item_ids(asked@);
            let outcome = apply_abort(activity, asked, responses);
            proof {
                lemma_where_same(
                    ids,
                    |i: int| responses@[i].state == OwnerReclaimItemState::Committed,
                    |i: int| state_at(*answer, i) == OwnerReclaimItemState::Committed,
                );
                lemma_unfenced_same(
                    old(activity)@,
                    ids,
                    |i: int| abort_settled(responses@[i].state),
                    |i: int| abort_settled(state_at(*answer, i)),
                );
                lemma_where_len(
                    ids,
                    |i: int| state_at(*answer, i) == OwnerReclaimItemState::Committed,
                );
                assert(item_ids(outcome.committed@).len() == outcome.committed@.len());
            }
            (outcome.committed, no_items())
        },
        None => (no_items(), asked),
    }
}

impl ReclaimRun {
    /// No more copies are committed or about to be than there were candidates.
    pub closed spec fn wf(&self) -> bool {
        &&& self.candidates <= u32::MAX
        &&& match self.phase {
            RunPhase::Preparing => {
                &&& self.prepared@.len() == 0
                &&& self.committed@.len() == 0
                &&& self.master_reclaimed + self.asked@.len() <= self.candidates
            },
            RunPhase::AbortingAll => self.master_reclaimed <= self.candidates,
            RunPhase::AbortingInvalid => self.master_reclaimed + self.asked@.len()
                + self.prepared@.len() + self.committed@.len() <= self.candidates,
            RunPhase::Committing => self.prepared@.len() == 0 && self.master_reclaimed
                + self.asked@.len() + self.committed@.len() <= self.candidates,
            RunPhase::AbortingUnresolved => self.prepared@.len() == 0 && self.master_reclaimed
                + self.asked@.len() + self.committed@.len() <= self.candidates,
            RunPhase::Finalizing => self.master_reclaimed + self.asked@.len() <= self.candidates,
            RunPhase::Over => self.master_reclaimed <= self.candidates,
        }
    }

    /// The items that the owner is asked about.
    pub fn asked(&self) -> (r: &Vec<OwnerReclaimItem>)
        ensures
            item_ids(r@) == self@.asked,
    {
        &self.asked
    }

    fn over(&mut self, counters: &mut EvictionReclaimCounters, reclaimed: u32) -> (r: RunStep)
        requires
            reclaimed <= old(self).candidates,
            old(self).candidates <= u32::MAX,
            old(self).master_reclaimed <= old(self).candidates,
        ensures
            final(self).wf(),
            final(self)@.phase == RunPhase::Over,
            final(self)@.owner == old(self)@.owner,
            final(self)@.candidates == old(self)@.candidates,
            final(self)@.master_reclaimed == old(self)@.master_reclaimed,
            *final(counters) == completed(*old(counters), reclaimed as u64),
            ended(r, reclaimed as int),
            r.retry_abort@.len() == 0,
    {
        self.phase = RunPhase::Over;
        counters.completed = counters.completed.wrapping_add(reclaimed as u64);
        RunStep { call: None, reclaimed, retry_abort: no_items(), retry_finalize: no_items(), removed: Vec::new() }
    }

    /// Fences the candidates, reclaims those that the owner does not know of, and asks the owner to
    /// prepare the others.
    pub fn begin(
        routes: &mut KeyTable<OneKvNodesRoutes>,
        activity: &mut MasterKeyActivityTable,
        remote: &NameSet,
        owner: &String,
        holders: &NameSet,
        candidates: Vec<OwnerReclaimItem>,
        rights: EvictionRights,
        counters: &mut EvictionReclaimCounters,
    ) -> (r: (Self, RunStep))
        requires
            old(routes).wf(),
            routes_wf(old(routes)@),
            old(activity).wf(),
            candidates@.len() <= u32::MAX,
        ensures
            final(routes).wf(),
            routes_wf(final(routes)@),
            final(activity).wf(),
            r.0.wf(),
            r.0@.owner == owner@,
            r.0@.candidates == candidates@.len(),
            r.1.retry_abort@.len() == 0,
            r.1.call is None ==> r.1.reclaimed <= candidates@.len(),
            run_begun(
                old(routes)@,
                old(activity)@,
                *old(counters),
                remote@,
                owner@,
                holders@,
                item_ids(candidates@),
                rights,
                r.0@,
                r.1,
                final(routes)@,
                final(activity)@,
                *final(counters),
            ),
    {
        let ghost ids = item_ids(candidates@);
        let count: usize = candidates.len();
        let ghost start = FenceModel {
            activity: activity@,
            fenced: Seq::empty(),
            counters: *counters,
        };
        let fenced = fence_candidates(
            routes,
            activity,
            remote,
            owner,
            holders,
            candidates,
            rights,
            counters,
        );
        let ghost fids = item_ids(fenced@);
        proof {
            lemma_fence_len(start, routes@, remote@, owner@, holders@, ids, rights);
        }
        let mut run = ReclaimRun {
            owner: owner.clone(),
            phase: RunPhase::Over,
            asked: no_items(),
            prepared: no_items(),
            committed: no_items(),
            master_reclaimed: 0,
            candidates: count,
        };
        if fenced.len() == 0 {
            let step = RunStep {
                call: None,
                reclaimed: 0,
                retry_abort: no_items(),
                retry_finalize: no_items(),
                removed: Vec::new(),
            };
            return (run, step);
        }
        let (alone, shared) = partition_reclaim_coordination(fenced);
        proof {
            let by_item = |i: int| fenced@[i].backing == OwnerReclaimBacking::UnindexedAllocation;
            let by_other = |i: int| fenced@[i].backing != OwnerReclaimBacking::UnindexedAllocation;
            lemma_where_same(fids, by_item, |i: int| is_unindexed(fids[i]));
            lemma_where_same(fids, by_other, |i: int| !is_unindexed(fids[i]));
            lemma_where_split(
                fids,
                |i: int| is_unindexed(fids[i]),
                |i: int| !is_unindexed(fids[i]),
            );
            assert(item_ids(alone@).len() == alone@.len());
            assert(item_ids(shared@).len() == shared@.len());
            lemma_count_len(activity@, item_ids(alone@));
        }
        let (freed, removed) = finish_unindexed_allocations(routes, activity, owner, alone);
        run.master_reclaimed = freed;
        if shared.len() == 0 {
            let mut step = run.over(counters, freed);
            step.removed = removed;
            return (run, step);
        }
        run.phase = RunPhase::Preparing;
        run.asked = shared;
        let step = RunStep {
            call: Some(OwnerReclaimPhase::Prepare),
            reclaimed: 0,
            retry_abort: no_items(),
            retry_finalize: no_items(),
            removed,
        };
        (run, step)
    }

    /// What was committed is finished.
    fn finish(
        &mut self,
        routes: &mut KeyTable<OneKvNodesRoutes>,
        activity: &MasterKeyActivityTable,
        counters: &mut EvictionReclaimCounters,
    ) -> (r: RunStep)
        requires
            old(routes).wf(),
            routes_wf(old(routes)@),
            activity.wf(),
            old(self).candidates <= u32::MAX,
            old(self).master_reclaimed + old(self).committed@.len() <= old(self).candidates,
        ensures
            final(routes).wf(),
            routes_wf(final(routes)@),
            final(self).wf(),
            final(self)@.candidates == old(self)@.candidates,
            r.retry_abort@.len() == 0,
            r.call is None ==> r.reclaimed <= old(self)@.candidates,
            finish_begun(
                old(self)@,
                old(routes)@,
                activity@,
                *old(counters),
                final(self)@,
                final(routes)@,
                *final(counters),
                r,
            ),
    {
        let mut committed = no_items();
        std::mem::swap(&mut self.committed, &mut committed);
        let ghost ids = item_ids(committed@);
        let ghost items = committed@;
        let (gone, removed) = remove_committed(routes, activity, &self.owner, committed);
        proof {
            let by_item = |i: int|
                activity_of(activity@, items[i].key@).reclaim == Some(items[i]@);
            let by_id = |i: int| activity_of(activity@, ids[i].key).reclaim == Some(ids[i]);
            lemma_where_same(ids, by_item, by_id);
            lemma_where_len(ids, by_id);
            assert(item_ids(gone@).len() == gone@.len());
        }
        if gone.len() == 0 {
            let reclaimed: u32 = self.master_reclaimed;
            let mut step = self.over(counters, reclaimed);
            step.removed = removed;
            return step;
        }
        self.phase = RunPhase::Finalizing;
        self.asked = gone;
        RunStep {
            call: Some(OwnerReclaimPhase::Finalize),
            reclaimed: 0,
            retry_abort: no_items(),
            retry_finalize: no_items(),
            removed,
        }
    }

    /// What is prepared is committed.
    fn commit(
        &mut self,
        routes: &mut KeyTable<OneKvNodesRoutes>,
        activity: &MasterKeyActivityTable,
        counters: &mut EvictionReclaimCounters,
    ) -> (r: RunStep)
        requires
            old(routes).wf(),
            routes_wf(old(routes)@),
            activity.wf(),
            old(self).candidates <= u32::MAX,
            old(self).master_reclaimed + old(self).prepared@.len() + old(self).committed@.len()
                <= old(self).candidates,
        ensures
            final(routes).wf(),
            routes_wf(final(routes)@),
            final(self).wf(),
            final(self)@.candidates == old(self)@.candidates,
            r.retry_abort@.len() == 0,
            r.call is None ==> r.reclaimed <= old(self)@.candidates,
            commit_begun(
                old(self)@,
                old(routes)@,
                activity@,
                *old(counters),
                final(self)@,
                final(routes)@,
                *final(counters),
                r,
            ),
    {
        if self.prepared.len() == 0 {
            return self.finish(routes, activity, counters);
        }
        let mut prepared = no_items();
        std::mem::swap(&mut self.prepared, &mut prepared);
        self.phase = RunPhase::Committing;
        self.asked = prepared;
        RunStep {
            call: Some(OwnerReclaimPhase::Commit),
            reclaimed: 0,
            retry_abort: no_items(),
            retry_finalize: no_items(),
            removed: Vec::new(),
        }
    }

    /// The owner has answered, or could not be asked. An answer that is not about what the owner was
    /// asked counts as none.
    pub fn answered(
        &mut self,
        routes: &mut KeyTable<OneKvNodesRoutes>,
        activity: &mut MasterKeyActivityTable,
        remote: &NameSet,
        holders: &NameSet,
        rights: EvictionRights,
        counters: &mut EvictionReclaimCounters,
        answer: Option<Vec<OwnerReclaimItemResp>>,
    ) -> (r: RunStep)
        requires
            old(self).wf(),
            old(self)@.phase != RunPhase::Over,
            old(routes).wf(),
            routes_wf(old(routes)@),
            old(activity).wf(),
        ensures
            final(self).wf(),
            final(self)@.candidates == old(self)@.candidates,
            final(routes).wf(),
            routes_wf(final(routes)@),
            final(activity).wf(),
            r.call is None <==> final(self)@.phase == RunPhase::Over,
            r.call is None ==> r.reclaimed <= old(self)@.candidates,
            answer_taken(
                old(self)@,
                old(routes)@,
                old(activity)@,
                *old(counters),
                remote@,
                holders@,
                rights,
                answer,
                final(self)@,
                final(routes)@,
                final(activity)@,
                *final(counters),
                r,
            ),
    {
        let ghost run0 = self@;
        let ghost routes0 = routes@;
        let ghost activity0 = activity@;
        let ghost c0 = *counters;
        let mut asked = no_items();
        std::mem::swap(&mut self.asked, &mut asked);
        let ghost ids = item_ids(asked@);
        match self.phase {
            RunPhase::Preparing => {
                let responses = match checked_answer(&asked, &answer) {
                    None => {
                        self.phase = RunPhase::AbortingAll;
                        self.asked = asked;
                        return self.ask(OwnerReclaimPhase::Abort);
                    },
                    Some(responses) => responses,
                };
                let sorted = sort_prepare(activity, asked, responses, counters);
                proof {
                    lemma_prepare_len(
                        PrepareModel {
                            activity: activity0,
                            prepared: Seq::empty(),
                            committed: Seq::empty(),
                            counters: c0,
                        },
                        ids,
                        responses@,
                    );
                    assert(item_ids(sorted.prepared@).len() == sorted.prepared@.len());
                    assert(item_ids(sorted.committed@).len() == sorted.committed@.len());
                    lemma_revalidate_len(
                        RevalidateModel {
                            valid: Seq::empty(),
                            invalid: Seq::empty(),
                            counters: *counters,
                        },
                        routes0,
                        activity@,
                        remote@,
                        self.owner@,
                        holders@,
                        item_ids(sorted.prepared@),
                        rights,
                    );
                }
                let looked = revalidate_prepared(
                    routes,
                    activity,
                    remote,
                    &self.owner,
                    holders,
                    sorted.prepared,
                    rights,
                    counters,
                );
                assert(item_ids(looked.valid@).len() == looked.valid@.len());
                assert(item_ids(looked.invalid@).len() == looked.invalid@.len());
                self.prepared = looked.valid;
                self.committed = sorted.committed;
                if looked.invalid.len() == 0 {
                    return self.commit(routes, activity, counters);
                }
                self.phase = RunPhase::AbortingInvalid;
                self.asked = looked.invalid;
                self.ask(OwnerReclaimPhase::Abort)
            },
            RunPhase::AbortingAll => {
                let (newly, retry) = note_abort(activity, asked, &answer);
                let reclaimed: u32 = self.master_reclaimed;
                let mut step = self.over(counters, reclaimed);
                step.retry_abort = retry;
                assert(abort_noted(
                    ids,
                    answer,
                    activity0,
                    activity@,
                    item_ids(newly@),
                    item_ids(step.retry_abort@),
                ));
                step
            },
            RunPhase::AbortingInvalid => {
                let (mut newly, retry) = note_abort(activity, asked, &answer);
                let ghost more = item_ids(newly@);
                let ghost before = self.committed@;
                self.committed.append(&mut newly);
                assert(item_ids(self.committed@) =~= item_ids(before) + more);
                let mut step = self.commit(routes, activity, counters);
                step.retry_abort = retry;
                assert(abort_noted(
                    ids,
                    answer,
                    activity0,
                    activity@,
                    more,
                    item_ids(step.retry_abort@),
                ));
                step
            },
            RunPhase::Committing => {
                let responses = match checked_answer(&asked, &answer) {
                    None => {
                        self.phase = RunPhase::AbortingUnresolved;
                        self.asked = asked;
                        return self.ask(OwnerReclaimPhase::Abort);
                    },
                    Some(responses) => responses,
                };
                let (mut newly, unresolved) = split_commit(asked, responses);
                let ghost more = item_ids(newly@);
                let ghost before = self.committed@;
                proof {
                    let yes = |i: int| state_at(answer, i) == OwnerReclaimItemState::Committed;
                    let no = |i: int| state_at(answer, i) != OwnerReclaimItemState::Committed;
                    lemma_where_same(
                        ids,
                        |i: int| responses@[i].state == OwnerReclaimItemState::Committed,
                        yes,
                    );
                    lemma_where_same(
                        ids,
                        |i: int| responses@[i].state != OwnerReclaimItemState::Committed,
                        no,
                    );
                    lemma_where_split(ids, yes, no);
                    assert(more.len() == newly@.len());
                    assert(item_ids(unresolved@).len() == unresolved@.len());
                }
                self.committed.append(&mut newly);
                assert(item_ids(self.committed@) =~= item_ids(before) + more);
                if unresolved.len() == 0 {
                    return self.finish(routes, activity, counters);
                }
                self.phase = RunPhase::AbortingUnresolved;
                self.asked = unresolved;
                self.ask(OwnerReclaimPhase::Abort)
            },
            RunPhase::AbortingUnresolved => {
                let (mut newly, retry) = note_abort(activity, asked, &answer);
                let ghost more = item_ids(newly@);
                let ghost before = self.committed@;
                self.committed.append(&mut newly);
                assert(item_ids(self.committed@) =~= item_ids(before) + more);
                let mut step = self.finish(routes, activity, counters);
                step.retry_abort = retry;
                assert(abort_noted(
                    ids,
                    answer,
                    activity0,
                    activity@,
                    more,
                    item_ids(step.retry_abort@),
                ));
                step
            },
            _ => {
                let responses = match checked_answer(&asked, &answer) {
                    None => {
                        let reclaimed: u32 = self.master_reclaimed;
                        let mut step = self.over(counters, reclaimed);
                        step.retry_finalize = asked;
                        return step;
                    },
                    Some(responses) => responses,
                };
                let outcome = apply_finalize(activity, asked, responses);
                proof {
                    lemma_where_same(
                        ids,
                        |i: int| responses@[i].state != OwnerReclaimItemState::Finalized,
                        |i: int| state_at(answer, i) != OwnerReclaimItemState::Finalized,
                    );
                    lemma_unfenced_same(
                        activity0,
                        ids,
                        |i: int| responses@[i].state == OwnerReclaimItemState::Finalized,
                        |i: int| state_at(answer, i) == OwnerReclaimItemState::Finalized,
                    );
                    assert(item_ids(outcome.retry@).len() == outcome.retry@.len());
                }
                let reclaimed: u32 = self.master_reclaimed + outcome.finalized;
                let mut step = self.over(counters, reclaimed);
                step.retry_finalize = outcome.retry;
                step
            },
        }
    }

    fn ask(&self, phase: OwnerReclaimPhase) -> (r: RunStep)
        ensures
            asks(r, phase),
            r.retry_abort@.len() == 0,
    {
        RunStep {
            call: Some(phase),
            reclaimed: 0,
            retry_abort: no_items(),
            retry_finalize: no_items(),
            removed: Vec::new(),
        }
    }
}

/// A run has begun: the candidates are fenced, those that the owner does not know of are reclaimed, and
/// the owner is asked to prepare the others.
pub open spec fn run_begun(
    routes0: Routes,
    activity0: ActivityMap,
    c0: EvictionReclaimCounters,
    remote: Set<Seq<char>>,
    owner: Seq<char>,
    holders: Set<Seq<char>>,
    candidates: Seq<ItemId>,
    rights: EvictionRights,
    run: RunModel,
    step: RunStep,
    routes1: Routes,
    activity1: ActivityMap,
    c1: EvictionReclaimCounters,
) -> bool {
    let fences = fence_all(
        FenceModel { activity: activity0, fenced: Seq::empty(), counters: c0 },
        routes0,
        remote,
        owner,
        holders,
        candidates,
        rights,
    );
    let fenced = fences.fenced;
    if fenced.len() == 0 {
        &&& ended(step, 0)
        &&& routes1 == routes0
        &&& activity1 == fences.activity
        &&& c1 == fences.counters
    } else {
        let alone = items_where(fenced, |i: int| is_unindexed(fenced[i]));
        let shared = items_where(fenced, |i: int| !is_unindexed(fenced[i]));
        let freed = unfenced_count(fences.activity, alone);
        &&& activity1 == freed.0
        &&& copies_taken(routes0, routes1, owner, alone, fences.activity)
        &&& removals_told(step.removed@, routes0, routes1, owner, alone, fences.activity)
        &&& run.master_reclaimed == freed.1
        &&& if shared.len() == 0 {
            &&& closes(step, freed.1)
            &&& c1 == completed(fences.counters, freed.1 as u64)
        } else {
            &&& calls(step, OwnerReclaimPhase::Prepare)
            &&& c1 == fences.counters
            &&& run.phase == RunPhase::Preparing
            &&& run.asked == shared
        }
    }
}

/// What an answer of the owner means.
pub open spec fn answer_taken(
    run0: RunModel,
    routes0: Routes,
    activity0: ActivityMap,
    c0: EvictionReclaimCounters,
    remote: Set<Seq<char>>,
    holders: Set<Seq<char>>,
    rights: EvictionRights,
    answer: Option<Vec<OwnerReclaimItemResp>>,
    run1: RunModel,
    routes1: Routes,
    activity1: ActivityMap,
    c1: EvictionReclaimCounters,
    step: RunStep,
) -> bool {
    let told = heard(run0.asked, answer);
    match run0.phase {
        RunPhase::Preparing => if !told {
            &&& run1 == (RunModel { phase: RunPhase::AbortingAll, ..run0 })
            &&& asks(step, OwnerReclaimPhase::Abort) && step.retry_abort@.len() == 0
            &&& routes1 == routes0 && activity1 == activity0 && c1 == c0
        } else {
            let sorted = prepare_all(
                PrepareModel {
                    activity: activity0,
                    prepared: Seq::empty(),
                    committed: Seq::empty(),
                    counters: c0,
                },
                run0.asked,
                answer->0@,
            );
            let looked = revalidate_all(
                RevalidateModel {
                    valid: Seq::empty(),
                    invalid: Seq::empty(),
                    counters: sorted.counters,
                },
                routes0,
                sorted.activity,
                remote,
                run0.owner,
                holders,
                sorted.prepared,
                rights,
            );
            let next = RunModel { prepared: looked.valid, committed: sorted.committed, ..run0 };
            &&& activity1 == sorted.activity
            &&& step.retry_abort@.len() == 0
            &&& if looked.invalid.len() == 0 {
                commit_begun(
                    next,
                    routes0,
                    activity1,
                    looked.counters,
                    run1,
                    routes1,
                    c1,
                    step,
                )
            } else {
                &&& run1 == (RunModel {
                    phase: RunPhase::AbortingInvalid,
                    asked: looked.invalid,
                    ..next
                })
                &&& asks(step, OwnerReclaimPhase::Abort)
                &&& routes1 == routes0 && c1 == looked.counters
            }
        },
        RunPhase::AbortingAll => {
            &&& exists|newly: Seq<ItemId>| #[trigger]
                abort_noted(
                    run0.asked,
                    answer,
                    activity0,
                    activity1,
                    newly,
                    item_ids(step.retry_abort@),
                )
            &&& ended(step, run0.master_reclaimed as int)
            &&& routes1 == routes0 && c1 == completed(c0, run0.master_reclaimed as u64)
        },
        RunPhase::AbortingInvalid => exists|newly: Seq<ItemId>|
            {
                &&& #[trigger] abort_noted(
                    run0.asked,
                    answer,
                    activity0,
                    activity1,
                    newly,
                    item_ids(step.retry_abort@),
                )
                &&& commit_begun(
                    RunModel { committed: run0.committed + newly, ..run0 },
                    routes0,
                    activity1,
                    c0,
                    run1,
                    routes1,
                    c1,
                    step,
                )
            },
        RunPhase::Committing => if !told {
            &&& run1 == (RunModel { phase: RunPhase::AbortingUnresolved, ..run0 })
            &&& asks(step, OwnerReclaimPhase::Abort) && step.retry_abort@.len() == 0
            &&& routes1 == routes0 && activity1 == activity0 && c1 == c0
        } else {
            let newly = items_where(
                run0.asked,
                |i: int| state_at(answer, i) == OwnerReclaimItemState::Committed,
            );
            let rest = items_where(
                run0.asked,
                |i: int| state_at(answer, i) != OwnerReclaimItemState::Committed,
            );
            let next = RunModel { committed: run0.committed + newly, ..run0 };
            &&& activity1 == activity0
            &&& step.retry_abort@.len() == 0
            &&& if rest.len() == 0 {
                finish_begun(next, routes0, activity1, c0, run1, routes1, c1, step)
            } else {
                &&& run1 == (RunModel {
                    phase: RunPhase::AbortingUnresolved,
                    asked: rest,
                    ..next
                })
                &&& asks(step, OwnerReclaimPhase::Abort)
                &&& routes1 == routes0 && c1 == c0
            }
        },
        RunPhase::AbortingUnresolved => exists|newly: Seq<ItemId>|
            {
                &&& #[trigger] abort_noted(
                    run0.asked,
                    answer,
                    activity0,
                    activity1,
                    newly,
                    item_ids(step.retry_abort@),
                )
                &&& finish_begun(
                    RunModel { committed: run0.committed + newly, ..run0 },
                    routes0,
                    activity1,
                    c0,
                    run1,
                    routes1,
                    c1,
                    step,
                )
            },
        RunPhase::Finalizing => {
            let open = if told {
                items_where(
                    run0.asked,
                    |i: int| state_at(answer, i) != OwnerReclaimItemState::Finalized,
                )
            } else {
                run0.asked
            };
            let reclaimed = run0.master_reclaimed + run0.asked.len() - open.len();
            &&& step.call is None && step.reclaimed == reclaimed && step.removed@.len() == 0
            &&& item_ids(step.retry_finalize@) == open && step.retry_abort@.len() == 0
            &&& routes1 == routes0 && c1 == completed(c0, reclaimed as u64)
            &&& activity1 == if told {
                unfenced_where(
                    activity0,
                    run0.asked,
                    |i: int| state_at(answer, i) == OwnerReclaimItemState::Finalized,
                )
            } else {
                activity0
            }
        },
        RunPhase::Over => true,
    }
}

/// How often an owner is told again.
pub const PHASE_RETRY_ATTEMPTS: u32 = 8;

/// How long to wait before an owner is told again for the first time.
pub const PHASE_RETRY_INITIAL_MS: u64 = 25;

/// How long to wait at most.
pub const PHASE_RETRY_MAX_MS: u64 = 1000;

/// The delay before the owner is told once more.
pub open spec fn next_delay(delay_ms: int) -> int {
    if 2 * delay_ms < PHASE_RETRY_MAX_MS {
        2 * delay_ms
    } else {
        PHASE_RETRY_MAX_MS as int
    }
}

/// How long to wait next: twice as long, up to the limit.
pub fn next_phase_retry_delay(delay_ms: u64) -> (r: u64)
    requires
        delay_ms <= PHASE_RETRY_MAX_MS,
    ensures
        r <= PHASE_RETRY_MAX_MS,
        r == next_delay(delay_ms as int),
{
    if delay_ms * 2 < PHASE_RETRY_MAX_MS {
        delay_ms * 2
    } else {
        PHASE_RETRY_MAX_MS
    }
}

/// Telling an owner again to abort.
pub struct AbortRetry {
    pub attempt: u32,
    pub delay_ms: u64,
    pub pending: Vec<OwnerReclaimItem>,
    /// What turned out to have been committed.
    pub committed: Vec<OwnerReclaimItem>,
}

/// Items that are neither settled nor committed.
pub open spec fn abort_open(state: OwnerReclaimItemState) -> bool {
    state != OwnerReclaimItemState::Committed && !abort_settled(state)
}

impl AbortRetry {
    pub open spec fn wf(&self) -> bool {
        self.delay_ms <= PHASE_RETRY_MAX_MS && self.attempt <= PHASE_RETRY_ATTEMPTS
    }

    /// The owner was told once more to abort.
    pub open spec fn told_again(
        &self,
        activity: ActivityMap,
        answer: Option<Vec<OwnerReclaimItemResp>>,
        after: Self,
        activity_after: ActivityMap,
    ) -> bool {
        let asked = item_ids(self.pending@);
        &&& after.attempt == self.attempt + 1
        &&& after.delay_ms == next_delay(self.delay_ms as int)
        &&& if heard(asked, answer) {
            &&& item_ids(after.pending@) == items_where(
                asked,
                |i: int| abort_open(state_at(answer, i)),
            )
            &&& item_ids(after.committed@) == item_ids(self.committed@) + items_where(
                asked,
                |i: int| state_at(answer, i) == OwnerReclaimItemState::Committed,
            )
            &&& activity_after == unfenced_where(
                activity,
                asked,
                |i: int| abort_settled(state_at(answer, i)),
            )
        } else {
            &&& after.pending == self.pending
            &&& after.committed == self.committed
            &&& activity_after == activity
        }
    }

    /// The owner is to be told once more.
    pub open spec fn unfinished(&self) -> bool {
        self.pending@.len() > 0 && self.attempt < PHASE_RETRY_ATTEMPTS
    }

    pub fn new(items: Vec<OwnerReclaimItem>) -> (r: Self)
        ensures
            r.wf(),
            r.attempt == 0,
            r.delay_ms == PHASE_RETRY_INITIAL_MS,
            r.pending == items,
            r.committed@.len() == 0,
    {
        AbortRetry {
            attempt: 0,
            delay_ms: PHASE_RETRY_INITIAL_MS,
            pending: items,
            committed: no_items(),
        }
    }

    /// Whether the owner is to be told again.
    pub fn goes_on(&self) -> (r: bool)
        ensures
            r == self.unfinished(),
    {
        self.pending.len() > 0 && self.attempt < PHASE_RETRY_ATTEMPTS
    }

    /// The owner was told again.
    pub fn answered(
        &mut self,
        activity: &mut MasterKeyActivityTable,
        answer: Option<Vec<OwnerReclaimItemResp>>,
    )
        requires
            old(self).wf(),
            old(self).attempt < PHASE_RETRY_ATTEMPTS,
            old(activity).wf(),
        ensures
            final(self).wf(),
            final(activity).wf(),
            old(self).told_again(old(activity)@, answer, *final(self), final(activity)@),
    {
        self.attempt = self.attempt + 1;
        self.delay_ms = next_phase_retry_delay(self.delay_ms);
        let heard_it = checked_answer(&self.pending, &answer).is_some();
        if let Some(responses) = &answer {
            if heard_it {
                let mut pending = no_items();
                std::mem::swap(&mut self.pending, &mut pending);
                let ghost ids = item_ids(pending@);
                let ghost before = self.committed@;
                let mut outcome = apply_abort(activity, pending, responses);
                proof {
                    lemma_where_same(
                        ids,
                        |i: int| responses@[i].state == OwnerReclaimItemState::Committed,
                        |i: int| state_at(answer, i) == OwnerReclaimItemState::Committed,
                    );
                    lemma_where_same(
                        ids,
                        |i: int|
                            responses@[i].state != OwnerReclaimItemState::Committed
                                && !abort_settled(responses@[i].state),
                        |i: int| abort_open(state_at(answer, i)),
                    );
                    lemma_unfenced_same(
                        old(activity)@,
                        ids,
                        |i: int| abort_settled(responses@[i].state),
                        |i: int| abort_settled(state_at(answer, i)),
                    );
                }
                let ghost more = item_ids(outcome.committed@);
                self.committed.append(&mut outcome.committed);
                self.pending = outcome.unresolved;
                assert(item_ids(self.committed@) =~= item_ids(before) + more);
            }
        }
    }
}

/// Telling an owner again to finish.
pub struct FinalizeRetry {
    pub attempt: u32,
    pub delay_ms: u64,
    pub pending: Vec<OwnerReclaimItem>,
}

impl FinalizeRetry {
    pub open spec fn wf(&self) -> bool {
        &&& self.delay_ms <= PHASE_RETRY_MAX_MS
        &&& self.attempt <= PHASE_RETRY_ATTEMPTS
        &&& self.pending@.len() <= u32::MAX
    }

    /// The owner was told once more to finish.
    pub open spec fn told_again(
        &self,
        activity: ActivityMap,
        answer: Option<Vec<OwnerReclaimItemResp>>,
        after: Self,
        activity_after: ActivityMap,
    ) -> bool {
        let asked = item_ids(self.pending@);
        &&& after.attempt == self.attempt + 1
        &&& after.delay_ms == next_delay(self.delay_ms as int)
        &&& if heard(asked, answer) {
            &&& item_ids(after.pending@) == items_where(
                asked,
                |i: int| state_at(answer, i) != OwnerReclaimItemState::Finalized,
            )
            &&& activity_after == unfenced_where(
                activity,
                asked,
                |i: int| state_at(answer, i) == OwnerReclaimItemState::Finalized,
            )
        } else {
            &&& after.pending == self.pending
            &&& activity_after == activity
        }
    }

    /// The owner is to be told once more.
    pub open spec fn unfinished(&self) -> bool {
        self.pending@.len() > 0 && self.attempt < PHASE_RETRY_ATTEMPTS
    }

    pub fn new(items: Vec<OwnerReclaimItem>) -> (r: Self)
        requires
            items@.len() <= u32::MAX,
        ensures
            r.wf(),
            r.attempt == 0,
            r.delay_ms == PHASE_RETRY_INITIAL_MS,
            r.pending == items,
    {
        FinalizeRetry { attempt: 0, delay_ms: PHASE_RETRY_INITIAL_MS, pending: items }
    }

    /// Whether the owner is to be told again.
    pub fn goes_on(&self) -> (r: bool)
        ensures
            r == self.unfinished(),
    {
        self.pending.len() > 0 && self.attempt < PHASE_RETRY_ATTEMPTS
    }

    /// The owner was told again.
    pub fn answered(
        &mut self,
        activity: &mut MasterKeyActivityTable,
        answer: Option<Vec<OwnerReclaimItemResp>>,
    )
        requires
            old(self).wf(),
            old(self).attempt < PHASE_RETRY_ATTEMPTS,
            old(activity).wf(),
        ensures
            final(self).wf(),
            final(activity).wf(),
            old(self).told_again(old(activity)@, answer, *final(self), final(activity)@),
    {
        self.attempt = self.attempt + 1;
        self.delay_ms = next_phase_retry_delay(self.delay_ms);
        let heard_it = checked_answer(&self.pending, &answer).is_some();
        if let Some(responses) = &answer {
            if heard_it {
                let mut pending = no_items();
                std::mem::swap(&mut self.pending, &mut pending);
                let ghost ids = item_ids(pending@);
                let outcome = apply_finalize(activity, pending, responses);
                proof {
                    lemma_where_same(
                        ids,
                        |i: int| responses@[i].state != OwnerReclaimItemState::Finalized,
                        |i: int| state_at(answer, i) != OwnerReclaimItemState::Finalized,
                    );
                    lemma_unfenced_same(
                        old(activity)@,
                        ids,
                        |i: int| responses@[i].state == OwnerReclaimItemState::Finalized,
                        |i: int| state_at(answer, i) == OwnerReclaimItemState::Finalized,
                    );
                }
                self.pending = outcome.retry;
            }
        }
    }
}

/// The owner does not know of the copy.
pub open spec fn is_unindexed(item: ItemId) -> bool {
    item.backing == OwnerReclaimBacking::UnindexedAllocation
}

} // verus!
