use fluxon_kv::admission::{
    reserve_inflight_get_key, reserve_inflight_put_key, reserve_inflight_replica_key,
    resolve_put_atomic_group, AdmissionError, GroupError,
};
use fluxon_kv::assoc::AssocMap;
use fluxon_kv::cache_policy::{EvictionReclaimCounters, PendingReclaimWeights};
use fluxon_kv::cluster::{members_in_roles, ClusterMember, NodeRole};
use fluxon_kv::demotion::{
    demotion_cohort, goes_with_cohort, plan_demotion, record_demotion, DemotionStep,
};
use fluxon_kv::holdings::{GetHoldings, NodeHolderKey, OwnerHoldingGetInfo};
use fluxon_kv::key_activity::{
    MasterKeyActivityKind, MasterKeyActivityTable, OwnerReclaimBacking, OwnerReclaimItem,
    OwnerReclaimReason,
};
use fluxon_kv::key_table::KeyTable;
use fluxon_kv::msg_pack::DeleteAckItem;
use fluxon_kv::name_set::NameSet;
use fluxon_kv::placement::{
    LocalFirstPlacementPolicy, PlacementSearch, PlacementStep, RandomPlacementPolicy,
    SegmentChoice, SegmentInfo,
};
use fluxon_kv::reclaim::{
    check_phase_response, collect_reserve_candidates, EvictionReclaimRequest, EvictionRights,
    OwnerReclaimItemResp, OwnerReclaimItemState, OwnerReclaimPhase, PhaseFault, RetryStep,
};
use fluxon_kv::reclaim_run::{next_phase_retry_delay, AbortRetry, FinalizeRetry, ReclaimRun};
use fluxon_kv::recoverability::RecoverableReplicaStatus;
use fluxon_kv::registration::{ActorAction, ActorWait, RegistrationActor, RegistrationReply};
use fluxon_kv::route_maintenance::{event_owners, owner_events, RoutePublishEvent};
use fluxon_kv::routes::{
    Allocation, CommittedSlotReplica, KvReplicaBacking, KvRouteInfo, NodeTombTag,
    NodeValueReplicaDesc, OneKvNodesRoutes, PutAtomicGroup, PutAtomicGroupMember,
};

fn name(s: &str) -> String {
    s.to_string()
}

const SLOT: u64 = 4096;

fn slot(owner: &str, index: u32) -> KvReplicaBacking {
    KvReplicaBacking::CommittedSlot(CommittedSlotReplica {
        owner_node_id: name(owner),
        grant_id: 1,
        slot_index: index,
        slot_size: SLOT,
        addr: 0,
        len: 100,
        base_addr: 0,
    })
}

fn memory(id: u64) -> Allocation {
    Allocation {
        id,
        base_addr: 0,
        addr: 0,
        size: 100,
        capacity: 128,
    }
}

fn info(node: &str, backing: KvReplicaBacking, indexed: bool) -> KvRouteInfo {
    KvRouteInfo {
        node_id: name(node),
        backing,
        owner_local_indexed: indexed,
        tomb_tag: NodeTombTag::new(),
    }
}

fn item(key: &str, index: u32) -> OwnerReclaimItem {
    OwnerReclaimItem {
        key: name(key),
        put_id: (1, index),
        epoch: u64::from(index),
        backing: OwnerReclaimBacking::CommittedSlot {
            grant_id: 1,
            slot_index: index,
            slot_size: SLOT,
        },
        reason: OwnerReclaimReason::Reserve,
    }
}

/// Keys with one copy each, in slots of "o".
fn routes(keys: &[(&str, u32)]) -> KeyTable<OneKvNodesRoutes> {
    let mut table = KeyTable::new();
    for (key, index) in keys {
        let mut route = OneKvNodesRoutes::new((1, *index), None);
        route
            .nodes_replicas
            .insert(name("o"), info("o", slot("o", *index), true));
        table.insert(name(key), route);
    }
    table
}

const ALL: EvictionRights = EvictionRights {
    normal: true,
    reserve_pressure: true,
};

fn answers(
    items: &[OwnerReclaimItem],
    states: &[OwnerReclaimItemState],
) -> Option<Vec<OwnerReclaimItemResp>> {
    Some(
        items
            .iter()
            .zip(states)
            .map(|(item, state)| OwnerReclaimItemResp {
                key: item.key.clone(),
                epoch: item.epoch,
                state: *state,
                detail: String::new(),
            })
            .collect(),
    )
}

struct World {
    routes: KeyTable<OneKvNodesRoutes>,
    activity: MasterKeyActivityTable,
    counters: EvictionReclaimCounters,
    none: NameSet,
}

impl World {
    fn new(keys: &[(&str, u32)]) -> World {
        World {
            routes: routes(keys),
            activity: MasterKeyActivityTable::new(),
            counters: EvictionReclaimCounters::new(),
            none: NameSet::new(),
        }
    }

    fn begin(
        &mut self,
        items: Vec<OwnerReclaimItem>,
    ) -> (ReclaimRun, fluxon_kv::reclaim_run::RunStep) {
        ReclaimRun::begin(
            &mut self.routes,
            &mut self.activity,
            &self.none,
            &name("o"),
            &self.none,
            items,
            ALL,
            &mut self.counters,
        )
    }

    fn answer(
        &mut self,
        run: &mut ReclaimRun,
        answer: Option<Vec<OwnerReclaimItemResp>>,
    ) -> fluxon_kv::reclaim_run::RunStep {
        run.answered(
            &mut self.routes,
            &mut self.activity,
            &self.none,
            &self.none,
            ALL,
            &mut self.counters,
            answer,
        )
    }
}

#[test]
fn copies_are_prepared_committed_and_finished() {
    let mut world = World::new(&[("a", 1), ("b", 2), ("c", 3)]);
    let (mut run, step) = world.begin(vec![item("a", 1), item("b", 2), item("c", 3)]);
    assert_eq!(step.call, Some(OwnerReclaimPhase::Prepare));
    assert_eq!(run.asked().len(), 3);
    assert!(world.activity.has_reclaim(&name("a")));
    use_states(
        &mut world,
        &mut run,
        &[
            OwnerReclaimItemState::Prepared,
            OwnerReclaimItemState::Busy,
            OwnerReclaimItemState::Prepared,
        ],
        Some(OwnerReclaimPhase::Commit),
    );
    assert!(!world.activity.has_reclaim(&name("b")));
    assert_eq!(world.counters.owner_other_deferred, 1);
    assert_eq!(run.asked().len(), 2);
    use_states(
        &mut world,
        &mut run,
        &[
            OwnerReclaimItemState::Committed,
            OwnerReclaimItemState::Failed,
        ],
        Some(OwnerReclaimPhase::Abort),
    );
    assert_eq!(run.asked().len(), 1);
    use_states(
        &mut world,
        &mut run,
        &[OwnerReclaimItemState::Aborted],
        Some(OwnerReclaimPhase::Finalize),
    );
    assert!(world.routes.get("a").is_none());
    assert!(world.routes.get("c").is_some());
    let answer = answers(run.asked(), &[OwnerReclaimItemState::Finalized]);
    let step = world.answer(&mut run, answer);
    assert_eq!(step.call, None);
    assert_eq!(step.reclaimed, 1);
    assert!(step.retry_finalize.is_empty());
    assert_eq!(world.counters.completed, 1);
    for key in ["a", "b", "c"] {
        assert!(!world.activity.has_reclaim(&name(key)));
    }
}

fn use_states(
    world: &mut World,
    run: &mut ReclaimRun,
    states: &[OwnerReclaimItemState],
    next: Option<OwnerReclaimPhase>,
) {
    let answer = answers(run.asked(), states);
    let step = world.answer(run, answer);
    assert_eq!(step.call, next);
    assert!(step.retry_abort.is_empty());
}

#[test]
fn copies_that_are_gone_are_told_of() {
    let mut world = World::new(&[("a", 1), ("b", 2)]);
    let mut route = OneKvNodesRoutes::new((1, 2), None);
    for node in ["o", "other"] {
        route
            .nodes_replicas
            .insert(name(node), info(node, slot(node, 2), true));
    }
    world.routes.insert(name("b"), route);
    let (mut run, step) = world.begin(vec![item("a", 1), item("b", 2)]);
    assert!(step.removed.is_empty());
    let answer = answers(run.asked(), &[OwnerReclaimItemState::Prepared; 2]);
    assert!(world.answer(&mut run, answer).removed.is_empty());
    let answer = answers(run.asked(), &[OwnerReclaimItemState::Committed; 2]);
    let step = world.answer(&mut run, answer);
    assert_eq!(step.call, Some(OwnerReclaimPhase::Finalize));
    assert_eq!(step.removed.len(), 2);
    assert_eq!((step.removed[0].key.as_str(), step.removed[0].put_id), ("a", (1, 1)));
    assert!(step.removed[0].route_removed);
    assert_eq!((step.removed[1].key.as_str(), step.removed[1].put_id), ("b", (1, 2)));
    assert!(!step.removed[1].route_removed);
    assert!(world.routes.get("a").is_none());
    assert!(world.routes.get("b").is_some());
}

#[test]
fn without_answers_the_fences_stay() {
    let mut world = World::new(&[("a", 1)]);
    let (mut run, _) = world.begin(vec![item("a", 1)]);
    let step = world.answer(&mut run, None);
    assert_eq!(step.call, Some(OwnerReclaimPhase::Abort));
    let step = world.answer(&mut run, None);
    assert_eq!(step.call, None);
    assert_eq!(step.reclaimed, 0);
    assert_eq!(step.retry_abort.len(), 1);
    assert!(world.activity.has_reclaim(&name("a")));

    let mut retry = AbortRetry::new(step.retry_abort);
    assert!(retry.goes_on());
    retry.answered(&mut world.activity, None);
    assert_eq!(retry.delay_ms, 50);
    let answer = answers(&retry.pending, &[OwnerReclaimItemState::Stale]);
    retry.answered(&mut world.activity, answer);
    assert!(!retry.goes_on());
    assert!(!world.activity.has_reclaim(&name("a")));
    assert!(world.routes.get("a").is_some());
}

#[test]
fn an_unfinished_copy_is_tried_again() {
    let mut world = World::new(&[("a", 1)]);
    let (mut run, _) = world.begin(vec![item("a", 1)]);
    use_states(
        &mut world,
        &mut run,
        &[OwnerReclaimItemState::Committed],
        Some(OwnerReclaimPhase::Finalize),
    );
    let step = world.answer(&mut run, None);
    assert_eq!(step.reclaimed, 0);
    assert_eq!(step.retry_finalize.len(), 1);
    let mut retry = FinalizeRetry::new(step.retry_finalize);
    let answer = answers(&retry.pending, &[OwnerReclaimItemState::Finalized]);
    retry.answered(&mut world.activity, answer);
    assert!(!retry.goes_on());
    assert!(!world.activity.has_reclaim(&name("a")));
    assert_eq!(next_phase_retry_delay(800), 1000);
}

#[test]
fn busy_keys_are_not_reclaimed() {
    let mut world = World::new(&[("a", 1)]);
    let lease = world
        .activity
        .reserve(&name("a"), MasterKeyActivityKind::Get, false);
    assert!(lease.is_some());
    let (_, step) = world.begin(vec![item("a", 1)]);
    assert_eq!(step.call, None);
    assert_eq!(step.reclaimed, 0);
    assert_eq!(world.counters.master_activity_deferred, 1);
}

#[test]
fn copies_unknown_to_the_owner_go_at_once() {
    let mut world = World::new(&[]);
    let mut route = OneKvNodesRoutes::new((1, 1), None);
    route.nodes_replicas.insert(
        name("o"),
        info("o", KvReplicaBacking::Allocation(memory(1)), false),
    );
    world.routes.insert(name("a"), route);
    let mut unindexed = item("a", 1);
    unindexed.backing = OwnerReclaimBacking::UnindexedAllocation;
    unindexed.reason = OwnerReclaimReason::CapacityEviction;
    let (_, step) = world.begin(vec![unindexed]);
    assert_eq!(step.call, None);
    assert_eq!(step.reclaimed, 1);
    assert!(world.routes.get("a").is_none());
    assert_eq!(world.counters.completed, 1);
}

#[test]
fn answers_are_about_the_items() {
    let items = vec![item("a", 1)];
    assert_eq!(
        check_phase_response(&items, &Vec::new()),
        Err(PhaseFault::LengthMismatch {
            expected: 1,
            got: 0
        })
    );
    let other = answers(&[item("b", 1)], &[OwnerReclaimItemState::Busy]).unwrap();
    assert_eq!(
        check_phase_response(&items, &other),
        Err(PhaseFault::IdentityMismatch { index: 0 })
    );
    let same = answers(&items, &[OwnerReclaimItemState::Busy]).unwrap();
    assert_eq!(check_phase_response(&items, &same), Ok(()));
}

#[test]
fn slots_are_collected_by_size() {
    let table = routes(&[("a", 1), ("b", 2), ("c", 3)]);
    let activity = MasterKeyActivityTable::new();
    let mut epoch = 10;
    let found = collect_reserve_candidates(
        &table,
        &activity,
        &NameSet::new(),
        &name("o"),
        SLOT,
        2,
        &mut epoch,
        ALL,
    );
    assert_eq!(found.len(), 2);
    assert_eq!(found[0].epoch, 10);
    let none = collect_reserve_candidates(
        &table,
        &activity,
        &NameSet::new(),
        &name("o"),
        SLOT + 1,
        2,
        &mut epoch,
        ALL,
    );
    assert!(none.is_empty());
}

#[test]
fn evicted_copies_are_retried_and_restored() {
    let table = routes(&[("a", 1)]);
    let mut weights = PendingReclaimWeights::new();
    let mut counters = EvictionReclaimCounters::new();
    assert!(!weights.enqueue_eviction_reclaim(&name("o"), 128, true));
    assert!(weights.enqueue_eviction_reclaim(&name("o"), 64, false));
    assert_eq!(weights.eviction_reclaim_pending_weight("o"), 128);
    let mut request = EvictionReclaimRequest {
        owner_node_id: name("o"),
        key: name("a"),
        desc: NodeValueReplicaDesc {
            weight_bytes: 128,
            put_id: (1, 1),
        },
        retry_count: 0,
    };
    for _ in 0..4 {
        assert_eq!(
            request.retry(&table, &mut weights, &mut counters),
            RetryStep::Delay
        );
    }
    assert_eq!(
        request.retry(&table, &mut weights, &mut counters),
        RetryStep::TryRestore
    );
    assert_eq!(
        request.after_restore(true, &table, &mut weights, &mut counters),
        RetryStep::Finished
    );
    assert_eq!(weights.eviction_reclaim_pending_weight("o"), 0);
    assert_eq!(counters.retry_restored, 1);
    assert_eq!(counters.retry_queued, 4);
}

#[test]
fn a_delay_ends_in_the_queue_or_with_the_copy() {
    let mut weights = PendingReclaimWeights::new();
    let mut counters = EvictionReclaimCounters::new();
    assert!(!weights.enqueue_eviction_reclaim(&name("o"), 300, true));
    let request = |put_id| EvictionReclaimRequest {
        owner_node_id: name("o"),
        key: name("a"),
        desc: NodeValueReplicaDesc {
            weight_bytes: 100,
            put_id,
        },
        retry_count: 1,
    };
    let table = routes(&[("a", 1)]);
    assert!(request((1, 1)).after_delay(&table, &mut weights, &mut counters));
    assert_eq!(weights.eviction_reclaim_pending_weight("o"), 300);
    assert_eq!((counters.route_changed, counters.retry_completed), (0, 0));
    assert!(!request((1, 2)).after_delay(&table, &mut weights, &mut counters));
    assert_eq!(weights.eviction_reclaim_pending_weight("o"), 200);
    assert_eq!((counters.route_changed, counters.retry_completed), (1, 1));
    request((1, 1)).queue_closed(true, &mut weights, &mut counters);
    assert_eq!(weights.eviction_reclaim_pending_weight("o"), 100);
    assert_eq!((counters.retry_restored, counters.retry_completed), (1, 2));
    request((1, 1)).queue_closed(false, &mut weights, &mut counters);
    assert_eq!(weights.eviction_reclaim_pending_weight("o"), 0);
    assert_eq!((counters.retry_restored, counters.retry_completed), (1, 3));
    assert_eq!(counters.route_changed, 1);
}

#[test]
fn admission_refuses_what_is_in_the_way() {
    let table = routes(&[("a", 1)]);
    let mut activity = MasterKeyActivityTable::new();
    assert!(matches!(
        reserve_inflight_put_key(&table, &mut activity, &name("a"), false, true),
        Err(AdmissionError::KeyAlreadyExists)
    ));
    assert!(reserve_inflight_put_key(&table, &mut activity, &name("a"), false, false).is_ok());
    assert!(matches!(
        reserve_inflight_put_key(&table, &mut activity, &name("a"), true, false),
        Err(AdmissionError::KeyBeingWritten)
    ));
    let mut fenced = MasterKeyActivityTable::new();
    assert!(fenced.try_install_reclaim(&item("a", 1)).is_ok());
    assert!(matches!(
        reserve_inflight_get_key(&mut fenced, &name("a")),
        Err(AdmissionError::KeyNotFound)
    ));
    assert!(matches!(
        reserve_inflight_replica_key(&mut fenced, &name("a")),
        Err(AdmissionError::KeyBeingWritten)
    ));
}

fn group(members: &[(&str, (u64, u32))]) -> PutAtomicGroup {
    PutAtomicGroup {
        members: members
            .iter()
            .map(|(key, put_id)| PutAtomicGroupMember {
                key: name(key),
                put_id: *put_id,
            })
            .collect(),
    }
}

#[test]
fn groups_are_checked() {
    let k = name("k");
    let good = group(&[("k", (1, 0)), ("l", (1, 1))]);
    assert_eq!(resolve_put_atomic_group(&k, (1, 0), &good, None), Ok(true));
    assert_eq!(
        resolve_put_atomic_group(&k, (1, 0), &good, Some(&good)),
        Ok(false)
    );
    assert_eq!(
        resolve_put_atomic_group(&k, (1, 0), &group(&[("k", (1, 0))]), None),
        Err(GroupError::MemberCount { count: 1 })
    );
    assert_eq!(
        resolve_put_atomic_group(&k, (1, 0), &group(&[("k", (1, 0)), ("", (1, 1))]), None),
        Err(GroupError::MemberKeys)
    );
    assert_eq!(
        resolve_put_atomic_group(&k, (2, 0), &good, None),
        Err(GroupError::CurrentMember)
    );
    let other = group(&[("k", (1, 0)), ("m", (1, 1))]);
    assert_eq!(
        resolve_put_atomic_group(&k, (1, 0), &good, Some(&other)),
        Err(GroupError::AnchorReused)
    );
}

#[test]
fn a_departed_node_holds_nothing() {
    let mut holdings = GetHoldings::new();
    for (node, holder_id) in [("a", 1), ("a", 2), ("b", 1)] {
        holdings.insert(
            NodeHolderKey {
                node_id: name(node),
                holder_id,
            },
            OwnerHoldingGetInfo {
                key: format!("key-{node}"),
                holding_node_id: name(node),
                len: 100,
                allocation: memory(holder_id),
            },
        );
    }
    assert!(holdings.has_holder(&name("key-a")));
    assert_eq!(holdings.cleanup_node(&name("a")), 2);
    assert_eq!(holdings.cleanup_node(&name("a")), 0);
    assert!(!holdings.has_holder(&name("key-a")));
    let acks = vec![
        DeleteAckItem {
            key: name("key-b"),
            client_id: name("b"),
            holder_id: 1,
        },
        DeleteAckItem {
            key: name("key-b"),
            client_id: name("b"),
            holder_id: 1,
        },
    ];
    assert_eq!(holdings.handle_batch_delete_ack(&acks), 1);
}

fn member(id: &str, group: Option<&str>, start: i64, ready: bool) -> ClusterMember {
    let mut metadata = AssocMap::new();
    if ready {
        metadata.insert(name("client"), name("true"));
        metadata.insert(name("p2p_relay"), name("true"));
    }
    ClusterMember {
        id: name(id),
        node_start_time: start,
        metadata,
        sub_cluster: group.map(name),
        role: NodeRole::Client,
        has_kv_ssd_storage: false,
    }
}

#[test]
fn members_are_found_by_group() {
    let members = vec![
        member("a", Some("remote_cache"), 1, true),
        member("b", Some("owner"), 1, true),
        member("c", None, 1, true),
    ];
    let found = members_in_roles(&members, &vec![name("remote_cache")]);
    assert_eq!(found.len(), 1);
    assert!(found.contains(&name("a")));
}

#[test]
fn nodes_are_registered_once_per_generation() {
    let mut actor = RegistrationActor::new();
    assert_eq!(
        actor.member_seen(&member("n", None, 1, false)),
        ActorAction::Nothing
    );
    assert_eq!(actor.next_wait(), ActorWait::Idle { secs: 30 });
    let ready = member("n", None, 1, true);
    assert_eq!(actor.member_seen(&ready), ActorAction::Nothing);
    assert_eq!(actor.next_wait(), ActorWait::Retry { secs: 0 });
    assert_eq!(
        actor.retry_due(Some(&ready)),
        ActorAction::RequestRegistration { epoch: 1 }
    );
    assert_eq!(actor.next_wait(), ActorWait::Reply { epoch: 1 });
    actor.replied(RegistrationReply::Failed);
    assert_eq!(actor.next_wait(), ActorWait::Retry { secs: 3 });
    assert_eq!(
        actor.retry_due(Some(&ready)),
        ActorAction::RequestRegistration { epoch: 1 }
    );
    actor.replied(RegistrationReply::Registered);
    assert_eq!(actor.next_wait(), ActorWait::Idle { secs: 30 });
    assert_eq!(actor.member_seen(&ready), ActorAction::Nothing);
    assert_eq!(
        actor.member_seen(&member("n", None, 2, true)),
        ActorAction::MarkTomb
    );
    assert_eq!(actor.member_left(), ActorAction::MarkTomb);
}

fn segment(node: &str, free: u64) -> SegmentInfo {
    SegmentInfo {
        node: name(node),
        segment: format!("{node}-seg"),
        total_bytes: 100,
        used_bytes: 100 - free,
    }
}

#[test]
fn local_puts_stay_where_they_are() {
    let members = vec![member("a", None, 1, true)];
    let (mut search, first) = PlacementSearch::begin(
        &LocalFirstPlacementPolicy::new(),
        &name("a"),
        &members,
        None,
        true,
    );
    let step = match first {
        Some(step) => step,
        None => search.next_step(),
    };
    assert!(matches!(
        step,
        PlacementStep::Local {
            persist_to_ssd: false
        }
    ));
}

#[test]
fn random_puts_are_tried_three_times() {
    let members = vec![member("a", None, 1, true), member("b", None, 1, true)];
    let (mut search, first) = PlacementSearch::begin(
        &RandomPlacementPolicy::new(),
        &name("a"),
        &members,
        None,
        true,
    );
    assert!(first.is_none());
    for _ in 0..3 {
        assert!(matches!(search.next_step(), PlacementStep::TryAny));
        match search.choose_segment(&vec![segment("b", 1)]) {
            SegmentChoice::Allocate { index, .. } => assert_eq!(index, 0),
            _ => panic!("there is one segment, on another node"),
        }
        search.segment_tried(&segment("b", 1));
    }
    match search.next_step() {
        PlacementStep::NoSpace { context } => {
            let context = context.unwrap();
            assert_eq!(context.node, "b");
            assert_eq!(context.segment, "b-seg");
            assert_eq!(context.free_capacity, 1);
        }
        _ => panic!("there is no room"),
    }
}

#[test]
fn a_cohort_is_demoted_as_a_whole() {
    let mut table = KeyTable::new();
    for (key, index) in [("page_0_2", 1), ("page_1_2", 2)] {
        let mut route = OneKvNodesRoutes::new((1, index), None);
        for node in ["gpu", "cpu"] {
            route
                .nodes_replicas
                .insert(name(node), info(node, slot(node, index), true));
        }
        table.insert(name(key), route);
    }
    let mut remote = NameSet::new();
    remote.insert(name("cpu"));
    let desc = |index| NodeValueReplicaDesc {
        weight_bytes: 100,
        put_id: (1, index),
    };
    let mut cached = AssocMap::new();
    cached.insert(name("page_0_2"), desc(1));
    let cohort = demotion_cohort(&name("page_0_2"), (1, 1), &cached, &table).unwrap();
    assert_eq!(cohort, vec![name("page_0_2"), name("page_1_2")]);
    let plan = |cached: &AssocMap<String, NodeValueReplicaDesc>| {
        plan_demotion(
            &name("gpu"),
            &name("page_0_2"),
            (1, 1),
            &cohort,
            cached,
            &table,
            &remote,
        )
    };
    assert_eq!(plan(&cached).step, DemotionStep::Rejected);
    cached.insert(name("page_1_2"), desc(2));
    let whole = plan(&cached);
    assert_eq!(whole.step, DemotionStep::Evict { weight: 200 });
    assert_eq!(
        whole.judged,
        vec![
            RecoverableReplicaStatus::Recoverable,
            RecoverableReplicaStatus::Recoverable
        ]
    );
    let goes = |key: &str, desc| goes_with_cohort(&cohort, &cached, &name(key), &desc);
    assert!(goes("page_0_2", desc(1)) && goes("page_1_2", desc(2)));
    assert!(!goes("page_1_2", desc(1)) && !goes("other", desc(1)));
    let heavier = NodeValueReplicaDesc {
        weight_bytes: 101,
        put_id: (1, 1),
    };
    assert!(!goes("page_0_2", heavier));
    let mut counters = EvictionReclaimCounters::new();
    record_demotion(&mut counters, whole.step, 200);
    assert_eq!(counters.owner_hot_demotion_selected_bytes, 200);
    record_demotion(&mut counters, whole.step, 100);
    assert_eq!(counters.owner_hot_demotion_partial_mismatch, 1);
}

#[test]
fn published_copies_enter_the_caches_of_their_nodes() {
    let table = routes(&[("a", 1), ("b", 2)]);
    let events = vec![
        RoutePublishEvent::primary_put(name("a"), (1, 1), None, name("o"), 4096),
        RoutePublishEvent::primary_put(name("b"), (1, 2), Some(7), name("o"), 4096),
        RoutePublishEvent::primary_put(name("a"), (0, 9), None, name("p"), 4096),
    ];
    assert!(events[1].needs_maintenance(true, true));
    assert!(!events[1].needs_maintenance(false, true));
    let owners = event_owners(&events, &table);
    assert_eq!(owners.len(), 1);
    assert!(owners.contains(&name("o")));
    let entries = owner_events(&events, &table, &name("o"));
    assert_eq!(entries.len(), 1);
    assert_eq!(entries[0].1, "a");
    assert_eq!(entries[0].2.weight_bytes, 4096);
}
