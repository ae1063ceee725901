//! Gets that are under way, and how they end: done, revoked, or overtaken by the reader's departure.
//!
//! A get that is to leave a further copy holds a slot of the route it reads, from its beginning to
//! its end. The slots of a route are counted under its number; the count covers the gets that hold
//! one, also after the route was replaced.
use vstd::prelude::*;

use crate::assoc::AssocMap;
use crate::binded_state::published;
use crate::delete::{
    one_copy_removed, remove_one_ssd_replica_for_node, tiered_wf, SsdReplicaRemoval, Tier,
    TieredMap,
};
use crate::get_start::{
    addressable, get_begun, live_memory, live_ssd, GetSourceKind, GetStart, InflightGetInfo,
};
use crate::holdings::{
    acked, held_elsewhere, key_held, GetHoldings, HoldingMap, NodeHolderKey, OwnerHoldingGetInfo,
};
use crate::ids::{NodeID, PutIDForAKey};
use crate::key_table::KeyTable;
use crate::msg_pack::{DeleteAckItem, GetAllocationMode};
use crate::name_set::NameSet;
use crate::route_maintenance::{saturating_moka_weight_bytes, weight_of};
use crate::routes::{NodeTombTag, MAX_GET_DURABLE_REPLICA_SLOTS};
use crate::tiered_routes::TieredKvRoutes;

verus! {

/// Why a request about a get is refused.
#[derive(Clone, Copy, Debug, PartialEq, Eq, Structural)]
pub enum GetError {
    /// The get is not under way.
    Inactive,
    /// The caller is not the one to ask for this.
    WrongCaller,
    /// No other node stages the bytes from its SSD.
    NoRemoteStage,
    /// The staging has ended.
    StageEnded,
    /// The staging node has ended the get already.
    AlreadyFinalized,
    /// The staging has not begun.
    StageNotBegun,
    /// The reader has given the get up.
    Revoked,
    /// The reader has left the cluster.
    RequesterLeft,
}

/// The answer to the news that a get is done.
#[derive(Clone, Copy, Debug, PartialEq, Eq, Structural)]
pub struct GetDoneReply {
    pub holder_id: u64,
    pub allocation_mode: GetAllocationMode,
}

/// A get that is done. Its answer is kept, in case it has to be given again.
#[derive(Debug)]
pub struct CompletedGetInfo {
    pub requester_node_id: NodeID,
    pub committer_node_id: NodeID,
    pub holder_key: NodeHolderKey,
    pub response: GetDoneReply,
}

impl CompletedGetInfo {
    /// What a node is told that reports the get done once more.
    pub open spec fn answer_for(&self, caller: Seq<char>) -> Option<GetDoneReply> {
        if caller == self.requester_node_id@ || caller == self.committer_node_id@ {
            Some(self.response)
        } else {
            None
        }
    }

    /// The reader and the node that reported the get done are given the same answer again, and no one else
    /// is given any.
    pub proof fn a_done_get_is_answered_again_to_those_concerned(&self, caller: Seq<char>)
        ensures
            self.answer_for(self.requester_node_id@) == Some(self.response),
            self.answer_for(self.committer_node_id@) == Some(self.response),
            caller != self.requester_node_id@ && caller != self.committer_node_id@
                ==> self.answer_for(caller) is None,
    {
    }

    /// The answer, for the reader or the node that reported the get done.
    pub fn replay_for(&self, caller: &NodeID) -> (r: Option<GetDoneReply>)
        ensures
            r == self.answer_for(caller@),
    {
        if *caller == self.requester_node_id || *caller == self.committer_node_id {
            Some(self.response)
        } else {
            None
        }
    }
}

/// Cache capacity for a further copy was asked for; this is the answer.
#[derive(Clone, Copy, Debug, PartialEq, Eq, Structural)]
pub enum CapacityAnswer {
    Refused,
    /// There is no need to keep capacity back.
    NotNeeded,
    Reserved { bytes: u64 },
}

/// The gets that hold a slot of a route.
pub open spec fn holders(slots: Map<u64, u64>, route_id: u64) -> Set<u64> {
    slots.dom().filter(|id: u64| slots[id] == route_id)
}

/// The number of slots of a route that are in use.
pub open spec fn used_of(used: Map<u64, u32>, route_id: u64) -> u32 {
    if used.contains_key(route_id) {
        used[route_id]
    } else {
        0
    }
}

/// The count of slots of a route covers the gets that hold one, and never exceeds the limit.
pub open spec fn slots_cover(slots: Map<u64, u64>, used: Map<u64, u32>) -> bool {
    &&& slots.dom().finite()
    &&& forall|route_id: u64|
        holders(slots, route_id).len() <= #[trigger] used_of(used, route_id)
    &&& forall|route_id: u64| #[trigger]
        used_of(used, route_id) <= MAX_GET_DURABLE_REPLICA_SLOTS
}

/// A get was given a slot.
pub open spec fn slot_taken(m: GetTableModel, get_id: u64, route_id: u64) -> GetTableModel {
    GetTableModel {
        slots: m.slots.insert(get_id, route_id),
        used: m.used.insert(route_id, (used_of(m.used, route_id) + 1) as u32),
        ..m
    }
}

/// A slot was asked for; there is one if not all are in use.
pub open spec fn slot_asked(
    m0: GetTableModel,
    get_id: u64,
    route_id: u64,
    r: bool,
    m1: GetTableModel,
) -> bool {
    &&& r == (used_of(m0.used, route_id) < MAX_GET_DURABLE_REPLICA_SLOTS)
    &&& m1 == if r {
        slot_taken(m0, get_id, route_id)
    } else {
        m0
    }
}

/// A get has given its slot back.
pub open spec fn slot_released(m: GetTableModel, get_id: u64) -> GetTableModel {
    GetTableModel {
        slots: m.slots.remove(get_id),
        used: m.used.insert(m.slots[get_id], (used_of(m.used, m.slots[get_id]) - 1) as u32),
        ..m
    }
}

/// The gets that are under way or done.
pub struct GetTable {
    inflight: AssocMap<u64, InflightGetInfo>,
    completed: AssocMap<u64, CompletedGetInfo>,
    holdings: GetHoldings,
    next_get_id: u64,
    next_holder_id: u64,
    slots: AssocMap<u64, u64>,
    used: AssocMap<u64, u32>,
}

/// The gets that are under way or done, as mathematical values.
#[verifier::ext_equal]
pub struct GetTableModel {
    pub inflight: Map<u64, InflightGetInfo>,
    pub completed: Map<u64, CompletedGetInfo>,
    pub holdings: HoldingMap,
    pub next_get_id: u64,
    pub next_holder_id: u64,
    /// The gets that hold a slot, each with the number of its route.
    pub slots: Map<u64, u64>,
    /// The slots that are in use, by the number of the route. A route that was replaced or removed
    /// goes on counting, for the gets that read it.
    pub used: Map<u64, u32>,
}

impl View for GetTable {
    type V = GetTableModel;

    closed spec fn view(&self) -> GetTableModel {
        GetTableModel {
            inflight: self.inflight@,
            completed: self.completed@,
            holdings: self.holdings@,
            next_get_id: self.next_get_id,
            next_holder_id: self.next_holder_id,
            slots: self.slots@,
            used: self.used@,
        }
    }
}

/// A number after the next one was given out.
pub open spec fn next_number(n: u64) -> u64 {
    vstd::wrapping::u64_specs::wrapping_add(n, 1)
}

/// A get that is to leave a further copy holds a slot of the route it reads.
pub open spec fn durable_gets_hold_slots(m: GetTableModel) -> bool {
    forall|id: u64| #[trigger]
        m.inflight.contains_key(id) && m.inflight[id].allocation_mode
            == GetAllocationMode::DurableReplica ==> m.slots.contains_key(id) && m.slots[id]
            == m.inflight[id].route_id
}

impl GetTable {
    pub closed spec fn wf(&self) -> bool {
        &&& self.inflight.wf()
        &&& self.completed.wf()
        &&& self.holdings.wf()
        &&& self.slots.wf()
        &&& self.used.wf()
        &&& slots_cover(self@.slots, self@.used)
        &&& durable_gets_hold_slots(self@)
    }

    /// Each get that is to leave a further copy holds a slot of its route, and no route has more slots
    /// in use than there are.
    pub proof fn durable_gets_are_counted(&self)
        requires
            self.wf(),
        ensures
            slots_cover(self@.slots, self@.used),
            durable_gets_hold_slots(self@),
    {
    }

    pub fn new() -> (r: Self)
        ensures
            r.wf(),
            r@ == (GetTableModel {
                inflight: Map::empty(),
                completed: Map::empty(),
                holdings: Map::empty(),
                next_get_id: 0,
                next_holder_id: 0,
                slots: Map::empty(),
                used: Map::empty(),
            }),
    {
        let r = GetTable {
            inflight: AssocMap::new(),
            completed: AssocMap::new(),
            holdings: GetHoldings::new(),
            next_get_id: 0,
            next_holder_id: 0,
            slots: AssocMap::new(),
            used: AssocMap::new(),
        };
        proof {
            assert forall|route_id: u64|
                holders(r@.slots, route_id).len() <= #[trigger] used_of(r@.used, route_id) by {
                assert(holders(r@.slots, route_id) =~= Set::<u64>::empty());
            }
        }
        r
    }

    /// Begins a get: a number is given out, and if the key has a route, its copies are looked at.
    pub fn handle_get_start(
        &mut self,
        routes: &KeyTable<TieredKvRoutes>,
        key: &String,
        req_node_id: &NodeID,
    ) -> (r: Option<GetStart>)
        requires
            old(self).wf(),
            routes.wf(),
            tiered_wf(routes@),
            routes@.contains_key(key@) ==> forall|n: Seq<char>| #[trigger]
                routes@[key@].node_replicas@.contains_key(n)
                    && routes@[key@].node_replicas@[n].memory is Some ==> addressable(
                    routes@[key@].node_replicas@[n].memory->0,
                ),
        ensures
            final(self).wf(),
            r matches Some(s) ==> s.wf(),
            get_start_answered(old(self)@, routes@, key@, req_node_id@, r, final(self)@),
    {
        let get_id: u64 = self.next_get_id;
        self.next_get_id = self.next_get_id.wrapping_add(1);
        match routes.get(key.as_str()) {
            None => None,
            Some(route) => Some(GetStart::begin(route, get_id, key, req_node_id)),
        }
    }

    /// The number of slots of a route that are in use.
    pub fn slots_in_use(&self, route_id: u64) -> (r: u32)
        requires
            self.wf(),
        ensures
            r == used_of(self@.used, route_id),
    {
        match self.used.get(&route_id) {
            Some(n) => *n,
            None => 0,
        }
    }

    /// The first half of reserving the right to leave a further copy: a slot of the route that the get
    /// reads, whether or not the route is still in place. Tells whether there is one left.
    pub fn reserve_durable_slot(&mut self, get_id: u64, route_id: u64) -> (r: bool)
        requires
            old(self).wf(),
            !old(self)@.slots.contains_key(get_id),
        ensures
            final(self).wf(),
            slot_asked(old(self)@, get_id, route_id, r, final(self)@),
    {
        let ghost before = self@;
        let used: u32 = self.slots_in_use(route_id);
        if used >= MAX_GET_DURABLE_REPLICA_SLOTS {
            return false;
        }
        self.used.insert(route_id, used + 1);
        self.slots.insert(get_id, route_id);
        proof {
            assert(self@ =~= slot_taken(before, get_id, route_id));
            lemma_slot_taken(before, get_id, route_id);
        }
        true
    }

    /// The second half of reserving the right to leave a further copy: capacity in the cache of the
    /// reader's node. If it is refused, the slot is given back, and the get leaves no copy. For a
    /// leased key the capacity goes with the memory; otherwise it is kept back while the get lasts.
    pub fn settle_durable_slot(&mut self, get_id: u64, leased: bool, answer: CapacityAnswer) -> (r: (
        GetAllocationMode,
        Option<u64>,
    ))
        requires
            old(self).wf(),
            old(self)@.slots.contains_key(get_id),
            !old(self)@.inflight.contains_key(get_id),
        ensures
            final(self).wf(),
            slot_settled(old(self)@, get_id, leased, answer, r, final(self)@),
    {
        match answer {
            CapacityAnswer::Refused => {
                self.release_slot(get_id);
                (GetAllocationMode::Temporary, None)
            },
            CapacityAnswer::NotNeeded => (GetAllocationMode::DurableReplica, None),
            CapacityAnswer::Reserved { bytes } => (
                GetAllocationMode::DurableReplica,
                if leased {
                    None
                } else {
                    Some(bytes)
                },
            ),
        }
    }

    /// Gives a slot back.
    fn release_slot(&mut self, get_id: u64)
        requires
            old(self).wf(),
            old(self)@.slots.contains_key(get_id),
            !old(self)@.inflight.contains_key(get_id),
        ensures
            final(self).wf(),
            final(self)@ == slot_released(old(self)@, get_id),
            used_of(old(self)@.used, old(self)@.slots[get_id]) > 0,
    {
        let ghost before = self@;
        proof {
            lemma_slot_released(before, get_id);
        }
        if let Some(route_id) = self.slots.remove(&get_id) {
            let used: u32 = match self.used.get(&route_id) {
                Some(n) => *n,
                None => 0,
            };
            self.used.insert(route_id, used - 1);
            assert(self@ =~= slot_released(before, get_id));
        }
    }

    /// A slot is used up: the further copy of the get is in place.
    fn use_slot_up(&mut self, get_id: u64)
        requires
            old(self).wf(),
            old(self)@.slots.contains_key(get_id),
            !old(self)@.inflight.contains_key(get_id),
        ensures
            final(self).wf(),
            final(self)@ == (GetTableModel {
                slots: old(self)@.slots.remove(get_id),
                ..old(self)@
            }),
    {
        let ghost before = self@;
        self.slots.remove(&get_id);
        proof {
            lemma_slot_used_up(before, get_id);
        }
    }

    /// The slots of a route that is no longer in place, and that no get will read any more, need not be
    /// counted any longer. Nothing is forgotten while a get holds one.
    pub fn forget_route(&mut self, route_id: u64) -> (r: bool)
        requires
            old(self).wf(),
        ensures
            final(self).wf(),
            r == (holders(old(self)@.slots, route_id) == Set::<u64>::empty()),
            final(self)@ == if r {
                GetTableModel { used: old(self)@.used.remove(route_id), ..old(self)@ }
            } else {
                old(self)@
            },
    {
        let ghost before = self@;
        let ghost held = holders(before.slots, route_id);
        proof {
            self.slots.lemma_rows();
        }
        let mut i: usize = 0;
        while i < self.slots.len()
            invariant
                self.wf(),
                self@ == before,
                held == holders(before.slots, route_id),
                i <= self.slots.rows().len(),
                forall|j: int| 0 <= j < i ==> (#[trigger] self.slots.rows()[j]).1 != route_id,
            decreases self.slots.rows().len() - i,
        {
            let row = self.slots.row(i);
            if row.1 == route_id {
                assert(held.contains(row.0));
                return false;
            }
            i += 1;
        }
        proof {
            self.slots.lemma_rows();
            assert forall|id: u64| !held.contains(id) by {
                if held.contains(id) {
                    let j = crate::assoc::lemma_map_has_row(self.slots.rows(), id);
                    assert(self.slots.rows()[j].1 == route_id);
                }
            }
            assert(held =~= Set::<u64>::empty());
        }
        self.used.remove(&route_id);
        proof {
            assert forall|other: u64|
                holders(self@.slots, other).len() <= #[trigger] used_of(self@.used, other) by {
                assert(holders(before.slots, other).len() <= used_of(before.used, other));
            }
            assert forall|other: u64| #[trigger]
                used_of(self@.used, other) <= MAX_GET_DURABLE_REPLICA_SLOTS by {
                assert(used_of(before.used, other) <= MAX_GET_DURABLE_REPLICA_SLOTS);
            }
            assert(self@ =~= GetTableModel { used: before.used.remove(route_id), ..before });
        }
        true
    }

    /// A get is under way.
    pub fn insert_inflight_get(
        &mut self,
        get_id: u64,
        info: InflightGetInfo,
    )
        requires
            old(self).wf(),
            info.allocation_mode == GetAllocationMode::DurableReplica ==> old(
                self,
            )@.slots.contains_key(get_id) && old(self)@.slots[get_id] == info.route_id,
        ensures
            final(self).wf(),
            final(self)@ == (GetTableModel {
                inflight: old(self)@.inflight.insert(get_id, info),
                ..old(self)@
            }),
    {
        self.inflight.insert(get_id, info);
    }

    /// A get is no longer under way: its slot is given back, and, where the bytes could not be read
    /// from an SSD, the copy there is dropped.
    fn end_revoked(
        &mut self,
        routes: &mut KeyTable<TieredKvRoutes>,
        get_id: u64,
        drop_ssd_source: bool,
    ) -> (r: EndedGet)
        requires
            old(routes).wf(),
            tiered_wf(old(routes)@),
            old(self).wf(),
        ensures
            final(routes).wf(),
            tiered_wf(final(routes)@),
            final(self).wf(),
            revoked_get(
                old(self)@,
                old(routes)@,
                get_id,
                drop_ssd_source,
                final(self)@,
                final(routes)@,
                r,
            ),
    {
        let ghost m0 = self@;
        let ghost r0 = routes@;
        let info = match self.inflight.remove(&get_id) {
            None => {
                assert(self@ =~= m0);
                return EndedGet { removal: None, reservation: None };
            },
            Some(info) => info,
        };
        let mut removal: Option<SsdReplicaRemoval> = None;
        if drop_ssd_source {
            removal = drop_failed_ssd_source(routes, &info);
        }
        match info.allocation_mode {
            GetAllocationMode::DurableReplica => {
                self.release_slot(get_id);
            },
            _ => {},
        }
        proof {
            assert(self@ =~= get_ended(m0, get_id));
        }
        EndedGet { removal, reservation: CacheReservation::of(&info) }
    }

    /// A get ends without having been done or given up: its time is over, or the reader could not be
    /// told of its beginning.
    pub fn abandon_get(&mut self, routes: &mut KeyTable<TieredKvRoutes>, get_id: u64) -> (r: Option<
        CacheReservation,
    >)
        requires
            old(routes).wf(),
            tiered_wf(old(routes)@),
            old(self).wf(),
        ensures
            final(routes).wf(),
            tiered_wf(final(routes)@),
            final(self).wf(),
            get_abandoned(
                old(self)@,
                old(routes)@,
                get_id,
                r,
                final(self)@,
                final(routes)@,
            ),
    {
        self.end_revoked(routes, get_id, false).reservation
    }

    /// A node is about to stage bytes from its SSD for a get. If that is in order, the stage itself
    /// decides whether it can begin.
    pub fn handle_ssd_stage_begin(
        &self,
        get_id: u64,
        source_node_id: &NodeID,
    ) -> (r: Result<(), GetError>)
        requires
            self.wf(),
        ensures
            r == stage_request(self@, get_id, source_node_id@),
    {
        match self.inflight.get(&get_id) {
            None => Err(GetError::Inactive),
            Some(info) => if info.src_node_id != *source_node_id {
                Err(GetError::WrongCaller)
            } else if !info.remote_ssd_stage {
                Err(GetError::NoRemoteStage)
            } else {
                Ok(())
            },
        }
    }

    /// What it means for a get to be given up by `caller`.
    pub fn handle_get_revoke(
        &mut self,
        routes: &mut KeyTable<TieredKvRoutes>,
        get_id: u64,
        caller: &NodeID,
        drop_ssd_source: bool,
    ) -> (r: RevokeStep)
        requires
            old(routes).wf(),
            tiered_wf(old(routes)@),
            old(self).wf(),
        ensures
            final(routes).wf(),
            tiered_wf(final(routes)@),
            final(self).wf(),
            revoke_answered(
                old(self)@,
                old(routes)@,
                get_id,
                caller@,
                drop_ssd_source,
                r,
                final(self)@,
                final(routes)@,
            ),
    {
        let ghost m0 = self@;
        let done: Option<bool> = match self.completed.get(&get_id) {
            None => None,
            Some(completed) => if completed.requester_node_id == *caller {
                Some(true)
            } else if completed.committer_node_id == *caller {
                Some(false)
            } else {
                return RevokeStep::Refused(GetError::WrongCaller);
            },
        };
        match done {
            Some(true) => {
                if let Some(completed) = self.completed.remove(&get_id) {
                    self.holdings.remove(&completed.holder_key);
                }
                assert(self@ =~= GetTableModel {
                    completed: m0.completed.remove(get_id),
                    holdings: m0.holdings.remove(m0.completed[get_id].holder_key@),
                    ..m0
                });
                return RevokeStep::Done(EndedGet { removal: None, reservation: None });
            },
            Some(false) => {
                return RevokeStep::Done(EndedGet { removal: None, reservation: None });
            },
            None => {},
        }
        match self.inflight.get(&get_id) {
            None => {
                return RevokeStep::Done(EndedGet { removal: None, reservation: None });
            },
            Some(info) => {
                if info.remote_ssd_stage {
                    if info.src_node_id == *caller {
                        return RevokeStep::AskStage { from_source: true };
                    }
                    if info.req_node_id == *caller {
                        return RevokeStep::AskStage { from_source: false };
                    }
                    return RevokeStep::Refused(GetError::WrongCaller);
                }
                if info.req_node_id != *caller {
                    return RevokeStep::Refused(GetError::WrongCaller);
                }
            },
        }
        RevokeStep::Done(self.end_revoked(routes, get_id, drop_ssd_source))
    }

    /// The staging node gives a get up. `outcome` is what the stage says: whether the copy on the SSD
    /// is to be dropped, or nothing if the stage has ended already.
    pub fn revoke_from_source(
        &mut self,
        routes: &mut KeyTable<TieredKvRoutes>,
        get_id: u64,
        outcome: Option<bool>,
    ) -> (r: Result<EndedGet, GetError>)
        requires
            old(routes).wf(),
            tiered_wf(old(routes)@),
            old(self).wf(),
        ensures
            final(routes).wf(),
            tiered_wf(final(routes)@),
            final(self).wf(),
            source_gave_up(
                old(self)@,
                old(routes)@,
                get_id,
                outcome,
                r,
                final(self)@,
                final(routes)@,
            ),
    {
        match outcome {
            None => Err(GetError::AlreadyFinalized),
            Some(drop_ssd_source) => Ok(self.end_revoked(routes, get_id, drop_ssd_source)),
        }
    }

    /// The reader gives up a get that another node stages. `defer` is what the stage says: whether the
    /// get has to stay until the staging node ends it.
    pub fn revoke_from_requester(
        &mut self,
        routes: &mut KeyTable<TieredKvRoutes>,
        get_id: u64,
        defer: bool,
        drop_ssd_source: bool,
    ) -> (r: EndedGet)
        requires
            old(routes).wf(),
            tiered_wf(old(routes)@),
            old(self).wf(),
        ensures
            final(routes).wf(),
            tiered_wf(final(routes)@),
            final(self).wf(),
            reader_gave_up(
                old(self)@,
                old(routes)@,
                get_id,
                defer,
                drop_ssd_source,
                r,
                final(self)@,
                final(routes)@,
            ),
    {
        if defer {
            EndedGet { removal: None, reservation: None }
        } else {
            self.end_revoked(routes, get_id, drop_ssd_source)
        }
    }

    /// A get is reported done by `caller`. A get that is done already is answered as before.
    pub fn handle_get_done(
        &self,
        get_id: u64,
        caller: &NodeID,
    ) -> (r: DoneStep)
        requires
            self.wf(),
        ensures
            r == done_case(self@, get_id, caller@),
    {
        if let Some(completed) = self.completed.get(&get_id) {
            return match completed.replay_for(caller) {
                Some(reply) => DoneStep::Reply(reply),
                None => DoneStep::Refused(GetError::WrongCaller),
            };
        }
        match self.inflight.get(&get_id) {
            None => DoneStep::Refused(GetError::Inactive),
            Some(info) => if info.remote_ssd_stage {
                if info.src_node_id != *caller {
                    DoneStep::Refused(GetError::WrongCaller)
                } else {
                    DoneStep::AskStage
                }
            } else if info.req_node_id != *caller {
                DoneStep::Refused(GetError::WrongCaller)
            } else {
                DoneStep::Commit
            },
        }
    }

    /// The staging node reports a get done. `outcome` is what the stage says: whether the reader has
    /// given the get up, and whether the copy on the SSD is to be dropped then; or nothing if the
    /// staging has not begun.
    pub fn done_after_stage(
        &mut self,
        routes: &mut KeyTable<TieredKvRoutes>,
        get_id: u64,
        outcome: Option<(bool, bool)>,
    ) -> (r: Result<(), (GetError, EndedGet)>)
        requires
            old(routes).wf(),
            tiered_wf(old(routes)@),
            old(self).wf(),
        ensures
            final(routes).wf(),
            tiered_wf(final(routes)@),
            final(self).wf(),
            stage_reported(
                old(self)@,
                old(routes)@,
                get_id,
                outcome,
                r,
                final(self)@,
                final(routes)@,
            ),
    {
        match outcome {
            None => Err(
                (GetError::StageNotBegun, EndedGet { removal: None, reservation: None }),
            ),
            Some((revoke_requested, drop_ssd_source)) => if revoke_requested {
                Err((GetError::Revoked, self.end_revoked(routes, get_id, drop_ssd_source)))
            } else {
                Ok(())
            },
        }
    }

    /// Ends a get that is done: the reader holds the bytes, and where the get is to leave a further
    /// copy, the copy is published, provided that the version is still the current one and the
    /// reader's node is there. `member_active` tells whether the reader is still a member; `tomb_tag`
    /// and `generation` are those of its node.
    pub fn commit(
        &mut self,
        routes: &mut KeyTable<TieredKvRoutes>,
        get_id: u64,
        member_active: bool,
        tomb_tag: Option<NodeTombTag>,
        generation: i64,
    ) -> (r: Result<GetCommit, (GetError, Option<CacheReservation>)>)
        requires
            old(routes).wf(),
            tiered_wf(old(routes)@),
            old(self).wf(),
        ensures
            final(routes).wf(),
            tiered_wf(final(routes)@),
            final(self).wf(),
            committed(
                old(self)@,
                old(routes)@,
                get_id,
                member_active,
                tomb_tag,
                generation,
                final(self)@,
                final(routes)@,
                r,
            ),
    {
        let ghost m0 = self@;
        let ghost r0 = routes@;
        let info = match self.inflight.remove(&get_id) {
            None => {
                return Err((GetError::Inactive, None));
            },
            Some(info) => info,
        };
        let durable = match info.allocation_mode {
            GetAllocationMode::DurableReplica => true,
            _ => false,
        };
        let holder_id: u64 = self.next_holder_id;
        self.next_holder_id = self.next_holder_id.wrapping_add(1);
        if !member_active {
            if durable {
                self.release_slot(get_id);
            }
            assert(self@ =~= GetTableModel {
                next_holder_id: next_number(m0.next_holder_id),
                ..get_ended(m0, get_id)
            });
            return Err((GetError::RequesterLeft, CacheReservation::of(&info)));
        }
        let released_reservation = CacheReservation::of(&info);
        let holder_key = NodeHolderKey { node_id: info.req_node_id.clone(), holder_id };
        let ghost hk = holder_key@;
        let holding = OwnerHoldingGetInfo {
            key: info.key.clone(),
            holding_node_id: info.req_node_id.clone(),
            len: info.len,
            allocation: info.allocation,
        };
        let ghost held = holding;
        self.holdings.insert(NodeHolderKey { node_id: info.req_node_id.clone(), holder_id }, holding);
        let ghost m1 = self@;
        let mut mode = info.allocation_mode;
        let mut cache_entry: Option<CacheEntry> = None;
        if durable {
            let tag = match tomb_tag {
                Some(tag) => tag,
                None => NodeTombTag { tomb: true },
            };
            let mut leased = true;
            let current = match routes.get(info.key.as_str()) {
                Some(route) => {
                    leased = route.lease_id.is_some();
                    route.put_id.0 == info.put_id.0 && route.put_id.1 == info.put_id.1
                },
                None => false,
            };
            if current && !tag.is_tomb() {
                if let Some(mut route) = routes.remove(info.key.as_str()) {
                    route.insert_memory_replica(
                        info.req_node_id.clone(),
                        generation,
                        info.allocation,
                        tag,
                    );
                    routes.insert(info.key.clone(), route);
                }
                if !leased {
                    cache_entry =
                    Some(
                        CacheEntry {
                            key: info.key.clone(),
                            put_id: info.put_id,
                            weight_bytes: saturating_moka_weight_bytes(info.allocation.capacity),
                        },
                    );
                }
                proof {
                    assert(routes@ =~= r0.insert(info.key@, routes@[info.key@]));
                    lemma_wf_but(r0, routes@, info.key@);
                }
                self.use_slot_up(get_id);
            } else {
                mode = GetAllocationMode::Temporary;
                self.release_slot(get_id);
            }
        }
        let response = GetDoneReply { holder_id, allocation_mode: mode };
        let committer_node_id = if info.remote_ssd_stage {
            info.src_node_id
        } else {
            info.req_node_id.clone()
        };
        let completed = CompletedGetInfo {
            requester_node_id: info.req_node_id,
            committer_node_id,
            holder_key,
            response,
        };
        let ghost done = completed;
        self.completed.insert(get_id, completed);
        proof {
            let given_up = get_ended(m0, get_id);
            assert(self@ =~= GetTableModel {
                completed: m0.completed.insert(get_id, done),
                holdings: m0.holdings.insert(hk, held),
                next_holder_id: next_number(m0.next_holder_id),
                used: if promoted(r0, m0.inflight[get_id], tomb_tag) {
                    m0.used
                } else {
                    given_up.used
                },
                ..given_up
            });
        }
        Ok(
            GetCommit {
                response,
                cache_entry,
                released_reservation,
            },
        )
    }

    /// The keys that completed gets hold.
    pub fn held_keys(&self) -> (r: NameSet)
        requires
            self.wf(),
        ensures
            forall|k: Seq<char>| #[trigger] r@.contains(k) <==> key_held(self@.holdings, k),
    {
        self.holdings.held_keys()
    }

    /// A client tells that it has let go of a value. Tells whether it held it.
    pub fn delete_ack(
        &mut self,
        client_id: &String,
        holder_id: u64,
    ) -> (r: bool)
        requires
            old(self).wf(),
        ensures
            final(self).wf(),
            r == old(self)@.holdings.contains_key((client_id@, holder_id)),
            final(self)@ == (GetTableModel {
                holdings: old(self)@.holdings.remove((client_id@, holder_id)),
                ..old(self)@
            }),
    {
        self.holdings.handle_delete_ack(client_id, holder_id)
    }

    /// Clients tell that they have let go of values. Returns how many of them were held.
    pub fn batch_delete_ack(&mut self, acks: &Vec<DeleteAckItem>) -> (deleted_count: u32)
        requires
            old(self).wf(),
            acks@.len() <= u32::MAX,
        ensures
            final(self).wf(),
            final(self)@ == (GetTableModel {
                holdings: acked(old(self)@.holdings, acks@).0,
                ..old(self)@
            }),
            deleted_count == acked(old(self)@.holdings, acks@).1,
    {
        self.holdings.handle_batch_delete_ack(acks)
    }

    /// A node has left: it holds nothing any more. Returns the number of values that it held.
    pub fn cleanup_node(&mut self, node_id: &String) -> (r: usize)
        requires
            old(self).wf(),
        ensures
            final(self).wf(),
            final(self)@ == (GetTableModel {
                holdings: held_elsewhere(old(self)@.holdings, node_id@),
                ..old(self)@
            }),
            r == old(self)@.holdings.dom().len() - final(self)@.holdings.dom().len(),
    {
        self.holdings.cleanup_node(node_id)
    }

    /// The answer of a get that is done is forgotten.
    pub fn forget_completed(&mut self, get_id: u64)
        requires
            old(self).wf(),
        ensures
            final(self).wf(),
            final(self)@ == (GetTableModel {
                completed: old(self)@.completed.remove(get_id),
                ..old(self)@
            }),
    {
        self.completed.remove(&get_id);
    }
}

/// The copy on an SSD that could not be read is dropped. This is for gets that read from an SSD.
pub fn drop_failed_ssd_source(
    routes: &mut KeyTable<TieredKvRoutes>,
    info: &InflightGetInfo,
) -> (r: Option<SsdReplicaRemoval>)
    requires
        old(routes).wf(),
        tiered_wf(old(routes)@),
    ensures
        final(routes).wf(),
        tiered_wf(final(routes)@),
        revoke_source_dropped(old(routes)@, *info, true, final(routes)@, r),
{
    match info.source_kind {
        GetSourceKind::Memory => None,
        GetSourceKind::Ssd => Some(
            remove_one_ssd_replica_for_node(routes, &info.key, &info.src_node_id, info.put_id),
        ),
    }
}

/// What giving a get up does to the copy that it reads.
pub open spec fn revoke_source_dropped(
    before: TieredMap,
    info: InflightGetInfo,
    drop_ssd_source: bool,
    after: TieredMap,
    r: Option<SsdReplicaRemoval>,
) -> bool {
    if drop_ssd_source && info.source_kind == GetSourceKind::Ssd {
        &&& r is Some
        &&& one_copy_removed(
            before,
            info.key@,
            info.src_node_id@,
            info.put_id,
            Tier::Ssd,
            r->0,
            after,
        )
    } else {
        r is None && after == before
    }
}

/// Capacity that is kept back in the cache of a node.
#[derive(Debug)]
pub struct CacheReservation {
    pub node_id: NodeID,
    pub bytes: u64,
}

/// The capacity that was kept back for a get, as it is given back.
pub open spec fn gives_back(info: InflightGetInfo, r: Option<CacheReservation>) -> bool {
    match info.cache_capacity_reservation {
        None => r is None,
        Some(bytes) => r matches Some(c) && c.node_id@ == info.req_node_id@ && c.bytes == bytes,
    }
}

impl CacheReservation {
    /// The capacity that is kept back for a get, if there is any.
    fn of(info: &InflightGetInfo) -> (r: Option<Self>)
        ensures
            gives_back(*info, r),
    {
        match info.cache_capacity_reservation {
            None => None,
            Some(bytes) => Some(CacheReservation { node_id: info.req_node_id.clone(), bytes }),
        }
    }
}

/// What the end of a get that was given up leaves to be known and done.
#[derive(Debug)]
pub struct EndedGet {
    /// What became of the copy on the SSD that could not be read.
    pub removal: Option<SsdReplicaRemoval>,
    /// The cache capacity that is no longer kept back.
    pub reservation: Option<CacheReservation>,
}

/// A get is no longer under way and has given its slot back, if it had one.
pub open spec fn get_ended(m: GetTableModel, get_id: u64) -> GetTableModel {
    let left = GetTableModel { inflight: m.inflight.remove(get_id), ..m };
    if m.inflight[get_id].allocation_mode == GetAllocationMode::DurableReplica {
        slot_released(left, get_id)
    } else {
        left
    }
}

/// A get was given up: it is no longer under way, the copy it read from an SSD is dropped if that is
/// asked for, and its slot is given back.
pub open spec fn revoked_get(
    m0: GetTableModel,
    r0: TieredMap,
    get_id: u64,
    drop_ssd_source: bool,
    m1: GetTableModel,
    r1: TieredMap,
    ended: EndedGet,
) -> bool {
    if !m0.inflight.contains_key(get_id) {
        m1 == m0 && r1 == r0 && ended == (EndedGet { removal: None, reservation: None })
    } else {
        let info = m0.inflight[get_id];
        &&& gives_back(info, ended.reservation)
        &&& m1 == get_ended(m0, get_id)
        &&& revoke_source_dropped(r0, info, drop_ssd_source, r1, ended.removal)
    }
}

/// Whether a node may stage bytes for a get.
pub open spec fn stage_request(m: GetTableModel, get_id: u64, source: Seq<char>) -> Result<
    (),
    GetError,
> {
    if !m.inflight.contains_key(get_id) {
        Err(GetError::Inactive)
    } else if m.inflight[get_id].src_node_id@ != source {
        Err(GetError::WrongCaller)
    } else if !m.inflight[get_id].remote_ssd_stage {
        Err(GetError::NoRemoteStage)
    } else {
        Ok(())
    }
}

/// A stage is begun only by the node that has the value on its SSD, for a get that is under way and needs
/// one; each such request is taken.
pub proof fn only_the_source_begins_a_stage(m: GetTableModel, get_id: u64, caller: Seq<char>)
    ensures
        stage_request(m, get_id, caller) is Ok <==> m.inflight.contains_key(get_id)
            && m.inflight[get_id].remote_ssd_stage && caller == m.inflight[get_id].src_node_id@,
        !m.inflight.contains_key(get_id) ==> stage_request(m, get_id, caller) == Err::<(), GetError>(
            GetError::Inactive,
        ),
        m.inflight.contains_key(get_id) && caller != m.inflight[get_id].src_node_id@
            ==> stage_request(m, get_id, caller) == Err::<(), GetError>(GetError::WrongCaller),
{
}

/// The stage's own answer, whether it can begin.
pub fn stage_begun(began: bool) -> (r: Result<(), GetError>)
    ensures
        r == if began {
            Ok::<(), GetError>(())
        } else {
            Err(GetError::StageEnded)
        },
{
    if began {
        Ok(())
    } else {
        Err(GetError::StageEnded)
    }
}

/// What is to be done when a get is given up.
#[derive(Debug)]
pub enum RevokeStep {
    /// The get is given up.
    Done(EndedGet),
    Refused(GetError),
    /// Another node stages the bytes; the stage is to be asked first.
    AskStage { from_source: bool },
}

/// The cases of giving a get up.
pub enum RevokeCase {
    /// The get is done, and the reader has no use for the bytes.
    Delivered,
    /// There is nothing to give up.
    Nothing,
    Refused,
    AskStage { from_source: bool },
    UnderWay,
}

/// Which case it is when `caller` gives a get up.
pub open spec fn revoke_case(m: GetTableModel, get_id: u64, caller: Seq<char>) -> RevokeCase {
    if m.completed.contains_key(get_id) {
        let completed = m.completed[get_id];
        if completed.requester_node_id@ == caller {
            RevokeCase::Delivered
        } else if completed.committer_node_id@ == caller {
            RevokeCase::Nothing
        } else {
            RevokeCase::Refused
        }
    } else if !m.inflight.contains_key(get_id) {
        RevokeCase::Nothing
    } else {
        let info = m.inflight[get_id];
        if info.remote_ssd_stage {
            if info.src_node_id@ == caller {
                RevokeCase::AskStage { from_source: true }
            } else if info.req_node_id@ == caller {
                RevokeCase::AskStage { from_source: false }
            } else {
                RevokeCase::Refused
            }
        } else if info.req_node_id@ != caller {
            RevokeCase::Refused
        } else {
            RevokeCase::UnderWay
        }
    }
}

/// A get was given up by `caller`, or the stage is to be asked first.
pub open spec fn revoke_answered(
    m0: GetTableModel,
    r0: TieredMap,
    get_id: u64,
    caller: Seq<char>,
    drop_ssd_source: bool,
    r: RevokeStep,
    m1: GetTableModel,
    r1: TieredMap,
) -> bool {
    match revoke_case(m0, get_id, caller) {
        RevokeCase::Delivered => {
            &&& r == RevokeStep::Done(EndedGet { removal: None, reservation: None })
            &&& r1 == r0
            &&& m1 == (GetTableModel {
                completed: m0.completed.remove(get_id),
                holdings: m0.holdings.remove(m0.completed[get_id].holder_key@),
                ..m0
            })
        },
        RevokeCase::Nothing => {
            &&& r == RevokeStep::Done(EndedGet { removal: None, reservation: None })
            &&& r1 == r0
            &&& m1 == m0
        },
        RevokeCase::Refused => {
            &&& r == RevokeStep::Refused(GetError::WrongCaller)
            &&& r1 == r0
            &&& m1 == m0
        },
        RevokeCase::AskStage { from_source } => {
            &&& r == (RevokeStep::AskStage { from_source })
            &&& r1 == r0
            &&& m1 == m0
        },
        RevokeCase::UnderWay => {
            &&& r matches RevokeStep::Done(ended)
            &&& revoked_get(m0, r0, get_id, drop_ssd_source, m1, r1, ended)
        },
    }
}

/// A get was begun for a key, if the key has a route; its number is given out in any case.
pub open spec fn get_start_answered(
    m0: GetTableModel,
    routes: TieredMap,
    key: Seq<char>,
    reader: Seq<char>,
    r: Option<GetStart>,
    m1: GetTableModel,
) -> bool {
    &&& m1 == (GetTableModel { next_get_id: next_number(m0.next_get_id), ..m0 })
    &&& r is Some <==> routes.contains_key(key)
    &&& r matches Some(s) ==> get_begun(routes[key], m0.next_get_id, key, reader, s)
}

/// A get has ended without having been done or given up.
pub open spec fn get_abandoned(
    m0: GetTableModel,
    r0: TieredMap,
    get_id: u64,
    reservation: Option<CacheReservation>,
    m1: GetTableModel,
    r1: TieredMap,
) -> bool {
    revoked_get(m0, r0, get_id, false, m1, r1, (EndedGet { removal: None, reservation }))
}

/// The staging node has given a get up.
pub open spec fn source_gave_up(
    m0: GetTableModel,
    r0: TieredMap,
    get_id: u64,
    outcome: Option<bool>,
    r: Result<EndedGet, GetError>,
    m1: GetTableModel,
    r1: TieredMap,
) -> bool {
    match outcome {
        None => {
            &&& r == Err::<EndedGet, GetError>(GetError::AlreadyFinalized)
            &&& m1 == m0
            &&& r1 == r0
        },
        Some(drop_ssd_source) => {
            &&& r matches Ok(ended)
            &&& revoked_get(m0, r0, get_id, drop_ssd_source, m1, r1, ended)
        },
    }
}

/// The reader has given up a get that another node stages.
pub open spec fn reader_gave_up(
    m0: GetTableModel,
    r0: TieredMap,
    get_id: u64,
    defer: bool,
    drop_ssd_source: bool,
    r: EndedGet,
    m1: GetTableModel,
    r1: TieredMap,
) -> bool {
    if defer {
        &&& r == (EndedGet { removal: None, reservation: None })
        &&& m1 == m0
        &&& r1 == r0
    } else {
        revoked_get(m0, r0, get_id, drop_ssd_source, m1, r1, r)
    }
}

/// The staging node has reported a get done.
pub open spec fn stage_reported(
    m0: GetTableModel,
    r0: TieredMap,
    get_id: u64,
    outcome: Option<(bool, bool)>,
    r: Result<(), (GetError, EndedGet)>,
    m1: GetTableModel,
    r1: TieredMap,
) -> bool {
    match outcome {
        None => {
            &&& r matches Err((GetError::StageNotBegun, ended))
            &&& ended == (EndedGet { removal: None, reservation: None })
            &&& m1 == m0 && r1 == r0
        },
        Some((true, drop_ssd_source)) => {
            &&& r matches Err((GetError::Revoked, ended))
            &&& revoked_get(m0, r0, get_id, drop_ssd_source, m1, r1, ended)
        },
        Some((false, _)) => r is Ok && m1 == m0 && r1 == r0,
    }
}

/// The capacity for a further copy was asked for, and the answer taken.
pub open spec fn slot_settled(
    m0: GetTableModel,
    get_id: u64,
    leased: bool,
    answer: CapacityAnswer,
    r: (GetAllocationMode, Option<u64>),
    m1: GetTableModel,
) -> bool {
    match answer {
        CapacityAnswer::Refused => {
            &&& r == (GetAllocationMode::Temporary, None::<u64>)
            &&& m1 == slot_released(m0, get_id)
        },
        CapacityAnswer::NotNeeded => {
            &&& r == (GetAllocationMode::DurableReplica, None::<u64>)
            &&& m1 == m0
        },
        CapacityAnswer::Reserved { bytes } => {
            &&& r == (
                GetAllocationMode::DurableReplica,
                if leased {
                    None
                } else {
                    Some(bytes)
                },
            )
            &&& m1 == m0
        },
    }
}

/// What is to be done when a get is reported done.
#[derive(Clone, Copy, Debug, PartialEq, Eq, Structural)]
pub enum DoneStep {
    /// The get was done before; this is the answer it got.
    Reply(GetDoneReply),
    Refused(GetError),
    /// Another node stages the bytes; the stage is to be asked first.
    AskStage,
    Commit,
}

/// What is to be done when `caller` reports a get done.
pub open spec fn done_case(m: GetTableModel, get_id: u64, caller: Seq<char>) -> DoneStep {
    if m.completed.contains_key(get_id) {
        let completed = m.completed[get_id];
        if caller == completed.requester_node_id@ || caller == completed.committer_node_id@ {
            DoneStep::Reply(completed.response)
        } else {
            DoneStep::Refused(GetError::WrongCaller)
        }
    } else if !m.inflight.contains_key(get_id) {
        DoneStep::Refused(GetError::Inactive)
    } else {
        let info = m.inflight[get_id];
        if info.remote_ssd_stage {
            if info.src_node_id@ != caller {
                DoneStep::Refused(GetError::WrongCaller)
            } else {
                DoneStep::AskStage
            }
        } else if info.req_node_id@ != caller {
            DoneStep::Refused(GetError::WrongCaller)
        } else {
            DoneStep::Commit
        }
    }
}

/// An entry that the cache of a node is to take in.
#[derive(Debug)]
pub struct CacheEntry {
    pub key: String,
    pub put_id: PutIDForAKey,
    pub weight_bytes: u32,
}

/// A get that has been ended.
#[derive(Debug)]
pub struct GetCommit {
    pub response: GetDoneReply,
    /// What the cache of the reader's node is to take in.
    pub cache_entry: Option<CacheEntry>,
    /// The cache capacity that is no longer kept back.
    pub released_reservation: Option<CacheReservation>,
}

/// The further copy of a get is published.
pub open spec fn promoted(
    routes: TieredMap,
    info: InflightGetInfo,
    tomb_tag: Option<NodeTombTag>,
) -> bool {
    &&& info.allocation_mode == GetAllocationMode::DurableReplica
    &&& routes.contains_key(info.key@)
    &&& routes[info.key@].put_id == info.put_id
    &&& tomb_tag matches Some(tag) && !tag.tomb
}

/// What ending a get does.
pub open spec fn committed(
    m0: GetTableModel,
    r0: TieredMap,
    get_id: u64,
    member_active: bool,
    tomb_tag: Option<NodeTombTag>,
    generation: i64,
    m1: GetTableModel,
    r1: TieredMap,
    r: Result<GetCommit, (GetError, Option<CacheReservation>)>,
) -> bool {
    if !m0.inflight.contains_key(get_id) {
        r matches Err((GetError::Inactive, None)) && m1 == m0 && r1 == r0
    } else {
        let info = m0.inflight[get_id];
        let durable = info.allocation_mode == GetAllocationMode::DurableReplica;
        let holder_id = m0.next_holder_id;
        let given_up = GetTableModel {
            next_holder_id: next_number(holder_id),
            ..get_ended(m0, get_id)
        };
        if !member_active {
            &&& r matches Err((GetError::RequesterLeft, reservation))
            &&& gives_back(info, reservation)
            &&& m1 == given_up
            &&& r1 == r0
        } else {
            let kept = promoted(r0, info, tomb_tag);
            let mode = if durable && !kept {
                GetAllocationMode::Temporary
            } else {
                info.allocation_mode
            };
            let response = GetDoneReply { holder_id, allocation_mode: mode };
            let holder = (info.req_node_id@, holder_id);
            &&& r is Ok
            &&& r->Ok_0.response == response
            &&& gives_back(info, r->Ok_0.released_reservation)
            &&& r->Ok_0.cache_entry is Some <==> kept && r0[info.key@].lease_id is None
            &&& r->Ok_0.cache_entry matches Some(entry) ==> {
                &&& entry.key@ == info.key@
                &&& entry.put_id == info.put_id
                &&& entry.weight_bytes == weight_of(info.allocation.capacity)
            }
            &&& m1.completed.contains_key(get_id)
            &&& m1.holdings.contains_key(holder)
            &&& ({
                let completed = m1.completed[get_id];
                let held = m1.holdings[holder];
                &&& completed.requester_node_id@ == info.req_node_id@
                &&& completed.committer_node_id@ == if info.remote_ssd_stage {
                    info.src_node_id@
                } else {
                    info.req_node_id@
                }
                &&& completed.holder_key@ == holder
                &&& completed.response == response
                &&& held.key@ == info.key@
                &&& held.holding_node_id@ == info.req_node_id@
                &&& held.len == info.len
                &&& held.allocation == info.allocation
                &&& m1 == (GetTableModel {
                    completed: m0.completed.insert(get_id, completed),
                    holdings: m0.holdings.insert(holder, held),
                    used: if kept {
                        m0.used
                    } else {
                        given_up.used
                    },
                    ..given_up
                })
            })
            &&& if kept {
                let key = info.key@;
                &&& r1.contains_key(key)
                &&& r1[key].same_but_replicas(&r0[key])
                &&& r1[key].node_replicas@ == published(
                    r0[key].node_replicas@,
                    info.req_node_id@,
                    generation,
                    info.allocation,
                    tomb_tag->0,
                )
                &&& r1 == r0.insert(key, r1[key])
            } else {
                r1 == r0
            }
        }
    }
}

/// A get that was reported done and is reported again gets the same answer.
pub proof fn done_is_replayed(
    m0: GetTableModel,
    r0: TieredMap,
    get_id: u64,
    tomb_tag: Option<NodeTombTag>,
    generation: i64,
    m1: GetTableModel,
    r1: TieredMap,
    r: Result<GetCommit, (GetError, Option<CacheReservation>)>,
)
    requires
        committed(m0, r0, get_id, true, tomb_tag, generation, m1, r1, r),
        m0.inflight.contains_key(get_id),
    ensures
        r is Ok,
        done_case(m1, get_id, m0.inflight[get_id].req_node_id@) == DoneStep::Reply(r->Ok_0.response),
        done_case(
            m1,
            get_id,
            if m0.inflight[get_id].remote_ssd_stage {
                m0.inflight[get_id].src_node_id@
            } else {
                m0.inflight[get_id].req_node_id@
            },
        ) == DoneStep::Reply(r->Ok_0.response),
{
}

/// Giving a get up twice is the same as giving it up once.
pub proof fn revoking_twice_changes_nothing(
    m0: GetTableModel,
    r0: TieredMap,
    get_id: u64,
    drop_ssd_source: bool,
    m1: GetTableModel,
    r1: TieredMap,
    ended: EndedGet,
    caller: Seq<char>,
)
    requires
        revoked_get(m0, r0, get_id, drop_ssd_source, m1, r1, ended),
        !m0.completed.contains_key(get_id),
    ensures
        revoke_case(m1, get_id, caller) is Nothing,
{
}

/// A get that leaves no further copy after all gives its slot back, so that the route has as many
/// left as before the get.
pub proof fn a_given_up_slot_is_free_again(m: GetTableModel, get_id: u64, route_id: u64)
    requires
        used_of(m.used, route_id) < MAX_GET_DURABLE_REPLICA_SLOTS,
        !m.slots.contains_key(get_id),
    ensures
        ({
            let after = slot_released(slot_taken(m, get_id, route_id), get_id);
            &&& after.slots == m.slots
            &&& forall|other: u64| #[trigger] used_of(after.used, other) == used_of(m.used, other)
        }),
{
    let after = slot_released(slot_taken(m, get_id, route_id), get_id);
    assert(after.slots =~= m.slots);
}

/// The length of the value of a key is told, if a copy can be read.
pub open spec fn meta_told(routes: TieredMap, key: Seq<char>, r: Option<u64>) -> bool {
    &&& r is Some <==> routes.contains_key(key) && routes[key].live()
    &&& r matches Some(len) ==> {
        let m = routes[key].node_replicas@;
        if exists|n: Seq<char>| live_memory(m, n) {
            exists|n: Seq<char>| #[trigger] live_memory(m, n) && len == m[n].memory->0.size
        } else {
            exists|n: Seq<char>| #[trigger] live_ssd(m, n) && len == m[n].ssd->0.len
        }
    }
}

/// Whether a key is there, and how long its value is: that of a copy in memory, or else of one on an
/// SSD.
pub fn handle_get_meta(routes: &KeyTable<TieredKvRoutes>, key: &String) -> (r: Option<u64>)
    requires
        routes.wf(),
        tiered_wf(routes@),
    ensures
        meta_told(routes@, key@, r),
{
    let route = match routes.get(key.as_str()) {
        None => {
            return None;
        },
        Some(route) => route,
    };
    let ghost m = route.node_replicas@;
    let mut i: usize = 0;
    while i < route.node_replicas.len()
        invariant
            route.wf(),
            m == route.node_replicas@,
            routes@.contains_key(key@),
            *route == routes@[key@],
            i <= route.node_replicas.rows().len(),
            forall|j: int|
                0 <= j < i ==> !live_memory(m, (#[trigger] route.node_replicas.rows()[j]).0@),
        decreases route.node_replicas.rows().len() - i,
    {
        let row = route.node_replicas.row(i);
        if let Some(allocation) = row.1.memory {
            if !row.1.tomb_tag.is_tomb() {
                assert(live_memory(m, row.0@));
                assert(m[row.0@].live());
                return Some(allocation.size);
            }
        }
        i += 1;
    }
    proof {
        route.node_replicas.lemma_rows();
        assert forall|n: Seq<char>| !live_memory(m, n) by {
            if live_memory(m, n) {
                let j = crate::assoc::lemma_map_has_row(route.node_replicas.rows(), n);
                assert(!live_memory(m, route.node_replicas.rows()[j].0@));
            }
        }
    }
    let mut k: usize = 0;
    while k < route.node_replicas.len()
        invariant
            route.wf(),
            m == route.node_replicas@,
            routes@.contains_key(key@),
            *route == routes@[key@],
            forall|n: Seq<char>| !live_memory(m, n),
            k <= route.node_replicas.rows().len(),
            forall|j: int|
                0 <= j < k ==> !live_ssd(m, (#[trigger] route.node_replicas.rows()[j]).0@),
        decreases route.node_replicas.rows().len() - k,
    {
        let row = route.node_replicas.row(k);
        if let Some(ssd) = row.1.ssd {
            if !row.1.tomb_tag.is_tomb() {
                assert(live_ssd(m, row.0@));
                assert(m[row.0@].live());
                return Some(ssd.len);
            }
        }
        k += 1;
    }
    proof {
        route.node_replicas.lemma_rows();
        assert forall|n: Seq<char>| #[trigger] m.contains_key(n) implies !m[n].live() by {
            let j = crate::assoc::lemma_map_has_row(route.node_replicas.rows(), n);
            assert(!live_ssd(m, route.node_replicas.rows()[j].0@));
            assert(!live_memory(m, n));
        }
    }
    None
}

proof fn lemma_wf_but(before: TieredMap, after: TieredMap, key: Seq<char>)
    requires
        tiered_wf(before),
        after.contains_key(key),
        after[key].wf(),
        after == before.insert(key, after[key]),
    ensures
        tiered_wf(after),
{
    assert forall|k: Seq<char>| #[trigger] after.contains_key(k) implies after[k].wf() by {
        if k != key {
            assert(before.contains_key(k));
        }
    }
}

proof fn lemma_slot_taken(m: GetTableModel, get_id: u64, route_id: u64)
    requires
        slots_cover(m.slots, m.used),
        !m.slots.contains_key(get_id),
        used_of(m.used, route_id) < MAX_GET_DURABLE_REPLICA_SLOTS,
    ensures
        slots_cover(
            slot_taken(m, get_id, route_id).slots,
            slot_taken(m, get_id, route_id).used,
        ),
{
    let after = slot_taken(m, get_id, route_id);
    assert(after.slots.dom() =~= m.slots.dom().insert(get_id));
    assert forall|r: u64| holders(after.slots, r).len() <= #[trigger] used_of(after.used, r) by {
        let was = holders(m.slots, r);
        assert(was.len() <= used_of(m.used, r));
        if r == route_id {
            assert(holders(after.slots, r) =~= was.insert(get_id));
        } else {
            assert(holders(after.slots, r) =~= was);
        }
    }
    assert forall|r: u64| #[trigger]
        used_of(after.used, r) <= MAX_GET_DURABLE_REPLICA_SLOTS by {
        assert(used_of(m.used, r) <= MAX_GET_DURABLE_REPLICA_SLOTS);
    }
}

proof fn lemma_slot_released(m: GetTableModel, get_id: u64)
    requires
        slots_cover(m.slots, m.used),
        m.slots.contains_key(get_id),
    ensures
        used_of(m.used, m.slots[get_id]) > 0,
        slots_cover(slot_released(m, get_id).slots, slot_released(m, get_id).used),
{
    let route_id = m.slots[get_id];
    let after = slot_released(m, get_id);
    let held = holders(m.slots, route_id);
    assert(held.contains(get_id));
    assert(held.len() > 0);
    assert(held.len() <= used_of(m.used, route_id));
    assert(after.slots.dom() =~= m.slots.dom().remove(get_id));
    assert forall|r: u64| holders(after.slots, r).len() <= #[trigger] used_of(after.used, r) by {
        let was = holders(m.slots, r);
        assert(was.len() <= used_of(m.used, r));
        if r == route_id {
            assert(holders(after.slots, r) =~= was.remove(get_id));
        } else {
            assert(holders(after.slots, r) =~= was);
        }
    }
    assert forall|r: u64| #[trigger]
        used_of(after.used, r) <= MAX_GET_DURABLE_REPLICA_SLOTS by {
        assert(used_of(m.used, r) <= MAX_GET_DURABLE_REPLICA_SLOTS);
    }
}

proof fn lemma_slot_used_up(m: GetTableModel, get_id: u64)
    requires
        slots_cover(m.slots, m.used),
        m.slots.contains_key(get_id),
    ensures
        slots_cover(m.slots.remove(get_id), m.used),
{
    let after = m.slots.remove(get_id);
    assert(after.dom() =~= m.slots.dom().remove(get_id));
    assert forall|r: u64| holders(after, r).len() <= #[trigger] used_of(m.used, r) by {
        let was = holders(m.slots, r);
        assert(was.len() <= used_of(m.used, r));
        if was.contains(get_id) {
            assert(holders(after, r) =~= was.remove(get_id));
        } else {
            assert(holders(after, r) =~= was);
        }
    }
}

} // verus!
