use fluxon_kv::admission::AdmissionError;
use fluxon_kv::assoc::AssocMap;
use fluxon_kv::binded_state::MemberLifecycleBindedStateCtrl;
use fluxon_kv::cluster::{ClusterMember, NodeRole};
use fluxon_kv::delete::{
    do_delete_one_kv_all_replicas, handle_batch_ssd_replica_evict, handle_delete, DeleteKeyInfo,
};
use fluxon_kv::error::ArgumentError;
use fluxon_kv::get::{
    handle_get_meta, stage_begun, CapacityAnswer, DoneStep, EndedGet, GetError, GetTable,
    RevokeStep,
};
use fluxon_kv::get_alloc::{
    allocation_order, no_memory, AllocateError, AllocationWait, SegmentUsage, WaitAction,
};
use fluxon_kv::get_start::{
    clean_up_tombs, GetSourceKind, GetStart, GetStartAction, GetStartError, StartedGet,
};
use fluxon_kv::inflight_puts::{InflightPutAllocation, InflightPutInfo};
use fluxon_kv::key_activity::{MasterKeyActivityKind, MasterKeyActivityTable};
use fluxon_kv::key_table::KeyTable;
use fluxon_kv::member_lifecycle::ReplicaIndexKey;
use fluxon_kv::msg_pack::{DeleteReq, GetAllocationMode};
use fluxon_kv::name_set::NameSet;
use fluxon_kv::observe::PutPlacementMode;
use fluxon_kv::placement::{NoSpaceContext, PutPlacementTarget};
use fluxon_kv::put::{
    cancel_inflight_put, finish_put, handle_ssd_replica_commit, insert_inflight_put,
    insert_memory_replica_into_cache_if_current, resolve_put_target, take_active_inflight_put,
    PutAnswers, PutDoneError, PutTarget, RoomRelease, SsdCommitOutcome,
};
use fluxon_kv::put_start::{
    no_space, put_source_node, OwnerMetaKeys, PutOrigin, PutStart, PutStartAction, PutStartError,
    RecentVersions, SourceOverrideError,
};
use fluxon_kv::put_table::{PutRequest, PutTable};
use fluxon_kv::router::{
    handle_count_prefix, EntryRemoval, MasterKvRouter, RouterSettings, Tier1Writebacks,
};
use fluxon_kv::routes::{
    Allocation, KvReplicaBacking, KvRouteInfo, NodeTombTag, OneKvNodesRoutes,
};
use fluxon_kv::ssd_storage::SsdReplicaEviction;
use fluxon_kv::text::parse_i64;
use fluxon_kv::tombs::{mark_node_tomb, mark_node_tomb_in_slots};
use fluxon_kv::tiered_routes::{
    KvNodeReplicas, KvSsdReplicaInfo, SsdReplicaCommitStatus, TieredKvRoutes,
};

fn name(s: &str) -> String {
    s.to_string()
}

fn memory(id: u64, base_addr: u64, addr: u64, size: u64) -> Allocation {
    Allocation {
        id,
        base_addr,
        addr,
        size,
        capacity: size + 24,
    }
}

fn tag(tomb: bool) -> NodeTombTag {
    NodeTombTag { tomb }
}

fn copy(memory: Option<Allocation>, ssd: Option<u64>, tomb: bool) -> KvNodeReplicas {
    KvNodeReplicas {
        tomb_tag: tag(tomb),
        generation: 1,
        memory,
        ssd: ssd.map(|len| KvSsdReplicaInfo { len }),
    }
}

fn routes(copies: Vec<(&str, KvNodeReplicas)>, lease_id: Option<u64>) -> KeyTable<TieredKvRoutes> {
    let mut route = TieredKvRoutes::new(1, (10, 0), lease_id);
    for (node, replicas) in copies {
        route.node_replicas.insert(name(node), replicas);
    }
    let mut routes = KeyTable::new();
    routes.insert(name("k"), route);
    routes
}

fn start(gets: &mut GetTable, routes: &KeyTable<TieredKvRoutes>, reader: &str) -> GetStart {
    gets.handle_get_start(routes, &name("k"), &name(reader))
        .unwrap()
}

/// Runs the beginning of a get; every allocation is granted out of `reader` memory.
fn run(
    gets: &mut GetTable,
    routes: &mut KeyTable<TieredKvRoutes>,
    reader: &str,
    capacity: CapacityAnswer,
) -> (StartedGet, GetStart) {
    let mut get = start(gets, routes, reader);
    let mut action = get.first_step();
    loop {
        action = match action {
            GetStartAction::Allocate { len, .. } => get.allocated(Ok(memory(99, 8192, 100, len))),
            GetStartAction::ReserveDurable { .. } => {
                let (mode, reservation) =
                    if gets.reserve_durable_slot(get.get_id, get.route_id) {
                        gets.settle_durable_slot(get.get_id, get.leased, capacity)
                    } else {
                        (GetAllocationMode::Temporary, None)
                    };
                GetStartAction::Started(get.reserved(mode, reservation))
            }
            GetStartAction::Started(started) => return (started, get),
            GetStartAction::Failed(_) => panic!("the get must begin"),
        };
    }
}

#[test]
fn a_get_prefers_memory_and_leaves_a_copy() {
    let mut gets = GetTable::new();
    let source = memory(1, 4096, 512, 1000);
    let mut routes = routes(
        vec![
            ("a", copy(Some(source), Some(1000), false)),
            ("b", copy(None, Some(1000), false)),
        ],
        None,
    );
    let (started, get) = run(
        &mut gets,
        &mut routes,
        "reader",
        CapacityAnswer::Reserved { bytes: 1024 },
    );
    assert_eq!(started.source.get_id, 0);
    assert_eq!(started.source.put_id, (10, 0));
    assert_eq!(started.source.node_id, "a");
    assert_eq!(started.source.source_kind, GetSourceKind::Memory);
    assert_eq!(started.source.src_addr, 4608);
    assert_eq!(started.source.target_addr, 8292);
    assert_eq!(started.source.len, 1000);
    assert_eq!(
        started.info.allocation_mode,
        GetAllocationMode::DurableReplica
    );
    assert_eq!(started.info.cache_capacity_reservation, Some(1024));
    let started_touch = started.touch_source_cache;
    gets.insert_inflight_get(get.get_id, started.info);

    assert_eq!(
        gets.handle_get_done(0, &name("other")),
        DoneStep::Refused(GetError::WrongCaller)
    );
    assert_eq!(
        gets.handle_get_done(0, &name("reader")),
        DoneStep::Commit
    );
    let commit = gets
        .commit(&mut routes, 0, true, Some(tag(false)), 1)
        .unwrap();
    assert_eq!(commit.response.holder_id, 0);
    assert_eq!(
        commit.response.allocation_mode,
        GetAllocationMode::DurableReplica
    );
    let entry = commit.cache_entry.unwrap();
    assert_eq!(entry.key, "k");
    assert_eq!(entry.put_id, (10, 0));
    assert_eq!(entry.weight_bytes, 1024);
    assert!(started_touch);
    let released = commit.released_reservation.unwrap();
    assert_eq!((released.node_id.as_str(), released.bytes), ("reader", 1024));
    let route = routes.get("k").unwrap();
    assert!(route.has_memory_replica_allocation(&name("reader"), 1, &memory(99, 8192, 100, 1000)));
    assert_eq!(gets.slots_in_use(route.route_id), 1);

    // The news comes again, and gets the same answer.
    assert_eq!(
        gets.handle_get_done(0, &name("reader")),
        DoneStep::Reply(commit.response)
    );
    assert!(matches!(
        gets.handle_get_revoke(&mut routes, 0, &name("reader"), false),
        RevokeStep::Done(EndedGet {
            removal: None,
            reservation: None
        })
    ));
    assert_eq!(
        gets.handle_get_done(0, &name("reader")),
        DoneStep::Refused(GetError::Inactive)
    );
}

#[test]
fn a_copy_on_the_readers_node_is_read_in_place() {
    let mut gets = GetTable::new();
    let here = memory(1, 4096, 512, 1000);
    let there = memory(2, 65536, 0, 1000);
    let mut routes = routes(
        vec![
            ("a", copy(Some(there), None, false)),
            ("reader", copy(Some(here), None, false)),
        ],
        None,
    );
    let (started, _) = run(
        &mut gets,
        &mut routes,
        "reader",
        CapacityAnswer::NotNeeded,
    );
    assert_eq!(started.source.node_id, "reader");
    assert_eq!(started.source.src_addr, 4608);
    assert_eq!(started.source.target_addr, 4608);
    assert_eq!(
        started.info.allocation_mode,
        GetAllocationMode::ReuseReplica
    );
}

#[test]
fn an_ssd_of_another_node_is_staged() {
    let mut gets = GetTable::new();
    let mut routes = routes(vec![("a", copy(None, Some(1000), false))], None);
    let mut get = start(&mut gets, &routes, "reader");
    assert!(matches!(
        get.first_step(),
        GetStartAction::Allocate { node, len: 1000 } if node == "reader"
    ));
    assert!(matches!(
        get.allocated(Ok(memory(1, 0, 4096, 1000))),
        GetStartAction::Allocate { node, len: 1535 } if node == "a"
    ));
    assert!(matches!(
        get.allocated(Ok(memory(2, 100, 0, 1535))),
        GetStartAction::ReserveDurable { capacity: 1024 }
    ));
    let started = get.reserved(GetAllocationMode::Temporary, None);
    assert_eq!(started.source.source_kind, GetSourceKind::Ssd);
    assert_eq!(started.source.src_addr, 512);
    assert_eq!(started.source.ssd_stage_len, 1024);
    assert!(started.info.remote_ssd_stage);
    gets.insert_inflight_get(get.get_id, started.info);

    assert_eq!(
        gets.handle_ssd_stage_begin(7, &name("a")),
        Err(GetError::Inactive)
    );
    assert_eq!(
        gets.handle_ssd_stage_begin(0, &name("b")),
        Err(GetError::WrongCaller)
    );
    assert_eq!(gets.handle_ssd_stage_begin(0, &name("a")), Ok(()));
    assert_eq!(stage_begun(true), Ok(()));
    assert_eq!(stage_begun(false), Err(GetError::StageEnded));
    assert_eq!(
        gets.handle_get_done(0, &name("a")),
        DoneStep::AskStage
    );
    let (error, ended) = gets.done_after_stage(&mut routes, 0, None).unwrap_err();
    assert_eq!(error, GetError::StageNotBegun);
    assert!(ended.removal.is_none() && ended.reservation.is_none());
    assert!(matches!(
        gets.handle_get_revoke(&mut routes, 0, &name("reader"), true),
        RevokeStep::AskStage { from_source: false }
    ));
    let deferred = gets.revoke_from_requester(&mut routes, 0, true, true);
    assert!(deferred.removal.is_none() && deferred.reservation.is_none());
    assert!(matches!(
        gets.handle_get_revoke(&mut routes, 0, &name("a"), true),
        RevokeStep::AskStage { from_source: true }
    ));
    assert_eq!(
        gets.revoke_from_source(&mut routes, 0, None).unwrap_err(),
        GetError::AlreadyFinalized
    );
    let (error, ended) = gets
        .done_after_stage(&mut routes, 0, Some((true, true)))
        .unwrap_err();
    assert_eq!(error, GetError::Revoked);
    assert!(ended.removal.unwrap().route_removed);
    assert!(routes.get("k").is_none());
    assert!(matches!(
        gets.handle_get_revoke(&mut routes, 0, &name("reader"), true),
        RevokeStep::Done(EndedGet {
            removal: None,
            reservation: None
        })
    ));
}

#[test]
fn the_readers_own_ssd_is_read_straight() {
    let mut gets = GetTable::new();
    let mut routes = routes(vec![("reader", copy(None, Some(1000), false))], Some(5));
    let (started, get) = run(
        &mut gets,
        &mut routes,
        "reader",
        CapacityAnswer::Reserved { bytes: 1024 },
    );
    assert_eq!(started.source.source_kind, GetSourceKind::Ssd);
    assert_eq!(started.source.src_addr, started.source.target_addr);
    assert_eq!(started.source.ssd_stage_len, 1024);
    assert!(!started.info.remote_ssd_stage);
    assert_eq!(started.info.cache_capacity_reservation, None);
    gets.insert_inflight_get(get.get_id, started.info);
    let commit = gets
        .commit(&mut routes, 0, true, Some(tag(false)), 1)
        .unwrap();
    assert!(commit.cache_entry.is_none());
}

#[test]
fn a_get_without_copies_fails() {
    let mut gets = GetTable::new();
    let mut routes = routes(
        vec![
            ("a", copy(Some(memory(1, 0, 0, 10)), None, true)),
            ("b", copy(None, Some(10), true)),
            ("c", copy(None, None, false)),
        ],
        None,
    );
    assert!(gets
        .handle_get_start(&routes, &name("missing"), &name("reader"))
        .is_none());
    let mut get = start(&mut gets, &routes, "reader");
    assert_eq!(get.get_id, 1);
    assert!(matches!(
        get.first_step(),
        GetStartAction::Failed(GetStartError::KeyNotFound)
    ));
    assert!(get.tombs.contains(&name("a")));
    assert!(get.tombs.contains(&name("b")));
    assert!(!get.tombs.contains(&name("c")));
    clean_up_tombs(&mut routes, &name("k"), (9, 0), &get.tombs);
    assert!(routes.get("k").is_some());
    clean_up_tombs(&mut routes, &name("k"), (10, 0), &get.tombs);
    assert!(routes.get("k").is_none());
}

#[test]
fn the_next_copy_is_tried_when_a_source_has_no_memory() {
    for _ in 0..8 {
        let mut gets = GetTable::new();
        let mut routes = routes(
            vec![
                ("a", copy(None, Some(100), false)),
                ("b", copy(None, Some(100), false)),
                ("c", copy(None, Some(100), true)),
            ],
            None,
        );
        let mut get = start(&mut gets, &routes, "reader");
        let mut tried = Vec::new();
        let mut action = get.first_step();
        loop {
            action = match action {
                GetStartAction::Allocate { node, len } if node == "reader" => {
                    get.allocated(Ok(memory(9, 0, 0, len)))
                }
                GetStartAction::Allocate { node, .. } => {
                    tried.push(node);
                    get.allocated(Err(AllocateError::OwnerNoSeg))
                }
                GetStartAction::Failed(GetStartError::KeyNotFound) => break,
                _ => panic!("no source has memory"),
            };
        }
        tried.sort();
        assert_eq!(tried, vec![name("a"), name("b")]);
        // A node without memory is not gone.
        assert!(get.tombs.contains(&name("c")));
        assert!(!get.tombs.contains(&name("a")) && !get.tombs.contains(&name("b")));
        clean_up_tombs(&mut routes, &name("k"), (10, 0), &get.tombs);
        let left = routes.get("k").unwrap();
        assert!(left.node_replicas.get(&name("a")).is_some());
        assert!(left.node_replicas.get(&name("b")).is_some());
    }
}

#[test]
fn a_route_that_was_replaced_goes_on_counting_slots() {
    let mut gets = GetTable::new();
    let mut routes = routes(
        vec![("a", copy(Some(memory(1, 0, 0, 10)), None, false))],
        None,
    );
    let mut get = start(&mut gets, &routes, "reader");
    get.first_step();
    get.allocated(Ok(memory(9, 0, 0, 10)));
    // The version is replaced before the get asks for its slot.
    routes.insert(name("k"), TieredKvRoutes::new(2, (11, 0), None));
    assert!(gets.reserve_durable_slot(get.get_id, get.route_id));
    let (mode, reservation) = gets.settle_durable_slot(
        get.get_id,
        get.leased,
        CapacityAnswer::Reserved { bytes: 64 },
    );
    assert_eq!(mode, GetAllocationMode::DurableReplica);
    assert_eq!(reservation, Some(64));
    assert_eq!(gets.slots_in_use(1), 1);
    assert_eq!(gets.slots_in_use(2), 0);
    assert!(!gets.forget_route(1));
    let started = get.reserved(mode, reservation);
    gets.insert_inflight_get(get.get_id, started.info);
    let commit = gets
        .commit(&mut routes, get.get_id, true, Some(tag(false)), 1)
        .unwrap();
    assert_eq!(
        commit.response.allocation_mode,
        GetAllocationMode::Temporary
    );
    assert_eq!(commit.released_reservation.unwrap().bytes, 64);
    assert_eq!(gets.slots_in_use(1), 0);
    assert!(gets.forget_route(1));
}

#[test]
fn all_copies_of_a_gone_node_are_marked() {
    let mut table = routes(
        vec![
            ("a", copy(Some(memory(1, 0, 0, 10)), Some(10), false)),
            ("b", copy(Some(memory(2, 0, 0, 10)), None, false)),
        ],
        None,
    );
    let mut other = TieredKvRoutes::new(5, (12, 0), None);
    other.insert_memory_replica(name("a"), 1, memory(3, 0, 0, 10), tag(false));
    table.insert(name("l"), other);
    mark_node_tomb(&mut table, &name("a"));
    for (key, node, tomb) in [("k", "a", true), ("k", "b", false), ("l", "a", true)] {
        let copies = table.get(key).unwrap().node_replicas.get(&name(node)).unwrap();
        assert_eq!(copies.tomb_tag.is_tomb(), tomb);
        assert!(copies.memory.is_some());
    }
    assert!(!table.get("l").unwrap().has_live_replica());

    let mut slots = KeyTable::new();
    let mut route = OneKvNodesRoutes::new((10, 0), None);
    for node in ["a", "b"] {
        route.nodes_replicas.insert(
            name(node),
            KvRouteInfo {
                node_id: name(node),
                backing: KvReplicaBacking::Allocation(memory(1, 0, 0, 10)),
                owner_local_indexed: false,
                tomb_tag: tag(false),
            },
        );
    }
    slots.insert(name("k"), route);
    mark_node_tomb_in_slots(&mut slots, &name("b"));
    let route = slots.get("k").unwrap();
    assert!(!route.nodes_replicas.get(&name("a")).unwrap().tomb_tag.is_tomb());
    assert!(route.nodes_replicas.get(&name("b")).unwrap().tomb_tag.is_tomb());
}

#[test]
fn get_addresses_are_checked() {
    let mut gets = GetTable::new();
    let too_long = routes(vec![("a", copy(None, Some(u64::MAX), false))], None);
    let mut get = start(&mut gets, &too_long, "reader");
    assert!(matches!(
        get.first_step(),
        GetStartAction::Failed(GetStartError::InvalidArgument(
            ArgumentError::AlignmentOverflow { value: u64::MAX }
        ))
    ));
    let there = routes(vec![("a", copy(None, Some(100), false))], None);
    let mut get = start(&mut gets, &there, "reader");
    get.first_step();
    assert!(matches!(
        get.allocated(Ok(memory(1, u64::MAX, 1, 100))),
        GetStartAction::Failed(GetStartError::InvalidArgument(
            ArgumentError::AddressOverflow { .. }
        ))
    ));
    let mut get = start(&mut gets, &there, "reader");
    get.first_step();
    assert!(matches!(
        get.allocated(Err(AllocateError::OwnerNoSeg)),
        GetStartAction::Failed(GetStartError::Allocate(AllocateError::OwnerNoSeg))
    ));
    // A staging node without memory is passed over.
    let mut get = start(&mut gets, &there, "reader");
    get.first_step();
    get.allocated(Ok(memory(1, 0, 0, 100)));
    assert!(matches!(
        get.allocated(Err(AllocateError::OwnerNoSeg)),
        GetStartAction::Failed(GetStartError::KeyNotFound)
    ));
}

#[test]
fn a_route_has_two_slots_for_further_copies() {
    let mut gets = GetTable::new();
    let mut routes = routes(
        vec![("a", copy(Some(memory(1, 0, 0, 10)), None, false))],
        None,
    );
    let mut modes = Vec::new();
    for reader in ["r1", "r2", "r3"] {
        let (started, get) = run(&mut gets, &mut routes, reader, CapacityAnswer::NotNeeded);
        modes.push(started.info.allocation_mode);
        gets.insert_inflight_get(get.get_id, started.info);
    }
    assert_eq!(
        modes,
        vec![
            GetAllocationMode::DurableReplica,
            GetAllocationMode::DurableReplica,
            GetAllocationMode::Temporary
        ]
    );
    // A get that ends without a copy gives its slot back.
    assert!(gets.abandon_get(&mut routes, 0).is_none());
    assert_eq!(gets.slots_in_use(1), 1);
    let (error, reservation) = gets.commit(&mut routes, 1, false, None, 1).unwrap_err();
    assert_eq!(error, GetError::RequesterLeft);
    assert!(reservation.is_none());
    assert_eq!(gets.slots_in_use(1), 0);
    let (started, _) = run(&mut gets, &mut routes, "r4", CapacityAnswer::Refused);
    assert_eq!(
        started.info.allocation_mode,
        GetAllocationMode::Temporary
    );
    assert_eq!(gets.slots_in_use(1), 0);
}

#[test]
fn a_get_that_ends_gives_its_cache_capacity_back() {
    let mut gets = GetTable::new();
    let mut routes = routes(
        vec![("a", copy(Some(memory(1, 0, 0, 10)), None, false))],
        None,
    );
    let mut begin = |gets: &mut GetTable, routes: &mut KeyTable<TieredKvRoutes>| {
        let (started, get) = run(
            gets,
            routes,
            "reader",
            CapacityAnswer::Reserved { bytes: 64 },
        );
        gets.insert_inflight_get(get.get_id, started.info);
        get.get_id
    };
    let id = begin(&mut gets, &mut routes);
    let back = gets.abandon_get(&mut routes, id).unwrap();
    assert_eq!((back.node_id.as_str(), back.bytes), ("reader", 64));
    assert!(gets.abandon_get(&mut routes, id).is_none());
    let id = begin(&mut gets, &mut routes);
    match gets.handle_get_revoke(&mut routes, id, &name("reader"), false) {
        RevokeStep::Done(ended) => assert_eq!(ended.reservation.unwrap().bytes, 64),
        other => panic!("the get must be given up: {other:?}"),
    }
    let id = begin(&mut gets, &mut routes);
    let (error, back) = gets.commit(&mut routes, id, false, None, 1).unwrap_err();
    assert_eq!(error, GetError::RequesterLeft);
    assert_eq!(back.unwrap().bytes, 64);
}

#[test]
fn a_copy_of_an_old_version_is_not_published() {
    let mut gets = GetTable::new();
    let mut routes = routes(
        vec![("a", copy(Some(memory(1, 0, 0, 10)), None, false))],
        None,
    );
    let (started, get) = run(&mut gets, &mut routes, "reader", CapacityAnswer::NotNeeded);
    gets.insert_inflight_get(get.get_id, started.info);
    routes.insert(name("k"), TieredKvRoutes::new(2, (11, 0), None));
    let commit = gets
        .commit(&mut routes, 0, true, Some(tag(false)), 1)
        .unwrap();
    assert_eq!(
        commit.response.allocation_mode,
        GetAllocationMode::Temporary
    );
    assert!(commit.cache_entry.is_none());
    assert!(routes
        .get("k")
        .unwrap()
        .node_replicas
        .get(&name("reader"))
        .is_none());
}

#[test]
fn meta_tells_the_length() {
    let routes_both = routes(
        vec![
            ("a", copy(None, Some(500), false)),
            ("b", copy(Some(memory(1, 0, 0, 600)), None, false)),
        ],
        None,
    );
    assert_eq!(handle_get_meta(&routes_both, &name("k")), Some(600));
    let ssd_only = routes(vec![("a", copy(None, Some(500), false))], None);
    assert_eq!(handle_get_meta(&ssd_only, &name("k")), Some(500));
    let gone = routes(vec![("a", copy(None, Some(500), true))], None);
    assert_eq!(handle_get_meta(&gone, &name("k")), None);
    assert_eq!(handle_get_meta(&gone, &name("l")), None);
}

#[test]
fn segments_are_tried_in_a_random_order() {
    let mut order = allocation_order(64);
    assert_ne!(order, (0..64).collect::<Vec<usize>>());
    order.sort_unstable();
    assert_eq!(order, (0..64).collect::<Vec<usize>>());
}

#[test]
fn the_wait_for_memory_is_bounded() {
    let (mut wait, first) = AllocationWait::begin(2);
    assert_eq!(first, WaitAction::Try { position: 0 });
    assert_eq!(
        wait.tried(false, 0, 500),
        WaitAction::Try { position: 1 }
    );
    assert_eq!(wait.tried(false, 0, 500), WaitAction::AdvanceReclamation);
    assert_eq!(wait.resumed(), WaitAction::Try { position: 0 });
    assert_eq!(
        wait.tried(false, 1, 500),
        WaitAction::Try { position: 1 }
    );
    assert_eq!(wait.tried(false, 1, 500), WaitAction::Sleep);
    assert_eq!(wait.resumed(), WaitAction::Try { position: 0 });
    assert_eq!(
        wait.tried(false, 500, 500),
        WaitAction::Try { position: 1 }
    );
    assert_eq!(wait.tried(false, 500, 500), WaitAction::TimedOut);
    assert_eq!(wait.attempts, 6);

    let (mut wait, _) = AllocationWait::begin(1);
    assert_eq!(wait.tried(true, 0, 500), WaitAction::Allocated);
    assert_eq!(wait.attempts, 1);
}

#[test]
fn lack_of_memory_tells_of_the_roomiest_segment() {
    let usage = |device: &str, total, used| SegmentUsage {
        device_id: name(device),
        total,
        used,
    };
    assert!(matches!(
        no_memory(&name("n"), &Vec::new()),
        AllocateError::OwnerNoSeg
    ));
    match no_memory(
        &name("n"),
        &vec![usage("a", 100, 90), usage("b", 100, 50), usage("c", 60, 10)],
    ) {
        AllocateError::NoSpace {
            node,
            segment,
            total_capacity,
            free_capacity,
        } => {
            assert_eq!(node, "n");
            assert_eq!(segment, "c");
            assert_eq!(total_capacity, 60);
            assert_eq!(free_capacity, 50);
        }
        _ => panic!("there are segments"),
    }
}

fn member(id: &str, start: i64, meta: &[(&str, &str)]) -> ClusterMember {
    let mut metadata = AssocMap::new();
    for (k, v) in meta {
        metadata.insert(name(k), name(v));
    }
    ClusterMember {
        id: name(id),
        node_start_time: start,
        metadata,
        sub_cluster: None,
        role: NodeRole::Client,
        has_kv_ssd_storage: false,
    }
}

fn meta_keys() -> OwnerMetaKeys {
    OwnerMetaKeys {
        owner_id: name("owner"),
        owner_start_time: name("owner_start"),
        local_ipc_root: name("ipc"),
    }
}

fn request(reject_if_inflight_same_key: bool, reject_if_exists: bool) -> PutRequest {
    PutRequest {
        key: name("k"),
        len: 100,
        reject_if_inflight_same_key,
        reject_if_exists,
    }
}

fn try_put(
    requester: Option<&ClusterMember>,
    source_id: &str,
    source: Option<&ClusterMember>,
    segments: usize,
) -> Result<PutStart, PutStartError> {
    let mut activity = MasterKeyActivityTable::new();
    let r = PutTable::new().handle_put_start(
        &mut activity,
        &KeyTable::new(),
        &mut RecentVersions::new(),
        &PutOrigin {
            req_node_id: &name("w"),
            requester,
            source_node_id: &name(source_id),
            source,
        },
        &meta_keys(),
        &request(false, false),
        segments,
        1000,
    );
    // A put that cannot begin lets go of its key.
    let held = activity.count(&name("k"), MasterKeyActivityKind::Put);
    assert_eq!(held, u32::from(r.is_ok()));
    r.map(|(put, _)| put)
}

#[test]
fn only_transfer_workers_put_for_their_owner() {
    let refused = |r: Result<PutStart, PutStartError>| match r {
        Err(PutStartError::Source(e)) => e,
        _ => panic!("the put must be refused"),
    };
    let owner = member("o", 7, &[("ipc", "/run")]);
    let full = [
        ("side_transfer_worker", "true"),
        ("owner", "o"),
        ("owner_start", "7"),
        ("ipc", "/run"),
    ];
    let worker = member("w", 3, &full);
    let put = try_put(Some(&worker), "o", Some(&owner), 2).unwrap_or_else(|_| panic!("allowed"));
    assert_eq!(put.requester_generation, 3);
    assert_eq!(put.source_generation, 7);
    assert_eq!(put.put_id, (1000, 0));
    let put = try_put(Some(&member("w", 3, &[])), "w", None, 2)
        .unwrap_or_else(|_| panic!("a node may put for itself"));
    assert_eq!(put.source_generation, 3);

    assert_eq!(
        refused(try_put(None, "o", Some(&owner), 2)),
        SourceOverrideError::RequesterUnknown
    );
    assert_eq!(
        refused(try_put(Some(&worker), "o", None, 2)),
        SourceOverrideError::SourceUnknown
    );
    let without = |skip: usize, replacement: Option<(&'static str, &'static str)>| {
        let mut meta: Vec<(&str, &str)> = full.to_vec();
        meta.remove(skip);
        meta.extend(replacement);
        refused(try_put(
            Some(&member("w", 3, &meta)),
            "o",
            Some(&owner),
            2,
        ))
    };
    assert_eq!(without(0, None), SourceOverrideError::NotATransferWorker);
    assert_eq!(without(1, None), SourceOverrideError::OwnerMismatch);
    assert_eq!(
        without(1, Some(("owner", "p"))),
        SourceOverrideError::OwnerMismatch
    );
    assert_eq!(
        without(2, Some(("owner_start", "8"))),
        SourceOverrideError::OwnerGenerationMismatch
    );
    assert_eq!(
        without(2, Some(("owner_start", "seven"))),
        SourceOverrideError::OwnerGenerationMismatch
    );
    assert_eq!(without(3, None), SourceOverrideError::LocalIpcRootMismatch);
    assert!(matches!(
        try_put(Some(&worker), "o", Some(&owner), 0),
        Err(PutStartError::RegisterSegmentFailed)
    ));
    assert_eq!(put_source_node(Some(&name("o")), &name("w")), "o");
    assert_eq!(put_source_node(None, &name("w")), "w");
}

#[test]
fn whole_numbers_are_read_with_their_signs() {
    assert_eq!(parse_i64("0"), Some(0));
    assert_eq!(parse_i64("+42"), Some(42));
    assert_eq!(parse_i64("-007"), Some(-7));
    assert_eq!(parse_i64("9223372036854775807"), Some(i64::MAX));
    assert_eq!(parse_i64("9223372036854775808"), None);
    assert_eq!(parse_i64("-9223372036854775808"), Some(i64::MIN));
    assert_eq!(parse_i64("-9223372036854775809"), None);
    for bad in ["", "-", "+", "1x", " 1", "--1"] {
        assert_eq!(parse_i64(bad), None);
    }
}

#[test]
fn versions_count_up_per_key() {
    let mut versions = RecentVersions::new();
    assert_eq!(
        versions.get_recent_key_versionid(&name("a"), 5),
        (5, 0)
    );
    assert_eq!(
        versions.get_recent_key_versionid(&name("a"), 5),
        (5, 1)
    );
    assert_eq!(
        versions.get_recent_key_versionid(&name("b"), 6),
        (6, 0)
    );
    versions.forget(&name("a"));
    assert_eq!(
        versions.get_recent_key_versionid(&name("a"), 9),
        (9, 0)
    );
}

fn begin_put() -> PutStart {
    PutStart::begin_at(5, &name("k"), (10, 0), &name("r"), &name("s"), (1, 2), 100, 3).0
}

fn usage() -> SegmentUsage {
    SegmentUsage {
        device_id: name("seg"),
        total: 1000,
        used: 990,
    }
}

#[test]
fn staging_memory_is_tried_three_times() {
    let mut put = begin_put();
    for _ in 0..2 {
        assert!(matches!(
            put.source_tried(None, &usage()),
            PutStartAction::TrySource {
                segment: 3,
                len: 100
            }
        ));
    }
    match put.source_tried(None, &usage()) {
        PutStartAction::Failed(PutStartError::NoSpace {
            node,
            segment,
            total_capacity,
            free_capacity,
        }) => {
            assert_eq!(node, "s");
            assert_eq!(segment, "seg");
            assert_eq!(total_capacity, 1000);
            assert_eq!(free_capacity, 10);
        }
        _ => panic!("no more tries"),
    }
}

#[test]
fn a_put_without_a_place_names_the_last_segment() {
    let named = |context| match no_space(context) {
        PutStartError::NoSpace {
            node,
            segment,
            total_capacity,
            free_capacity,
        } => (node, segment, total_capacity, free_capacity),
        other => panic!("unexpected error: {other:?}"),
    };
    let last = NoSpaceContext {
        node: name("n"),
        segment: name("seg"),
        total_capacity: 1000,
        free_capacity: 10,
    };
    assert_eq!(named(Some(last)), (name("n"), name("seg"), 1000, 10));
    assert_eq!(named(None), (name("unknown"), name("unknown"), 0, 0));
}

#[test]
fn a_put_stays_or_goes_to_another_node() {
    let mut put = begin_put();
    assert!(matches!(
        put.source_tried(Some(memory(1, 4096, 100, 100)), &usage()),
        PutStartAction::SelectTarget
    ));
    let started = put
        .target_selected(
            PutPlacementTarget::Local {
                node_id: name("s"),
                persist_to_ssd: true,
            },
            None,
        )
        .unwrap_or_else(|_| panic!("the put begins"));
    assert_eq!(started.mode, PutPlacementMode::Local);
    assert_eq!(started.info.info_id, 5);
    assert_eq!(started.plan.src_addr, 4196);
    assert_eq!(started.plan.target_addr, 4196);
    assert_eq!(started.info.target_generation, 2);
    assert!(started.info.persist_to_ssd);

    let remote = || PutPlacementTarget::Remote {
        node_id: name("t"),
        allocation: memory(2, 8192, 8, 100),
        persist_to_ssd: false,
    };
    let mut put = begin_put();
    put.source_tried(Some(memory(1, 4096, 100, 100)), &usage());
    let started = put
        .target_selected(remote(), Some(9))
        .unwrap_or_else(|_| panic!("the put begins"));
    assert_eq!(started.plan.node_id, "t");
    assert_eq!(started.plan.target_addr, 8200);
    assert_eq!(started.info.target_generation, 9);
    let mut put = begin_put();
    put.source_tried(Some(memory(1, 4096, 100, 100)), &usage());
    assert!(matches!(
        put.target_selected(remote(), None),
        Err(PutStartError::TargetDeparted)
    ));
}

fn info(allocation: Option<InflightPutAllocation>) -> InflightPutInfo {
    InflightPutInfo {
        info_id: 1,
        target_node_id: name("t"),
        source_node_id: name("s"),
        key: name("k"),
        req_node_id: name("r"),
        target_generation: 3,
        source_generation: 2,
        requester_generation: 1,
        len: 100,
        persist_to_ssd: true,
        allocation,
    }
}

fn local_info() -> InflightPutInfo {
    info(Some(InflightPutAllocation::Local(memory(1, 4096, 0, 100))))
}

fn version(put_id: (u64, u32)) -> ReplicaIndexKey {
    ReplicaIndexKey {
        key: name("k"),
        put_id,
    }
}

#[test]
fn a_put_that_lost_a_participant_does_not_count() {
    let mut ctrl = MemberLifecycleBindedStateCtrl::new();
    let mut puts = AssocMap::new();
    assert!(insert_inflight_put(
        &mut ctrl,
        &mut puts,
        version((10, 0)),
        local_info()
    ));
    ctrl.mark_absent("r", 1);
    assert!(take_active_inflight_put(&mut ctrl, &mut puts, &version((10, 0))).is_none());
    assert!(!insert_inflight_put(
        &mut ctrl,
        &mut puts,
        version((10, 1)),
        local_info()
    ));
    ctrl.observe_present("r", 1);
    assert!(insert_inflight_put(
        &mut ctrl,
        &mut puts,
        version((10, 1)),
        local_info()
    ));
    assert!(cancel_inflight_put(&mut ctrl, &mut puts, &version((10, 1))).is_some());
    assert!(cancel_inflight_put(&mut ctrl, &mut puts, &version((10, 1))).is_none());
    assert!(insert_inflight_put(
        &mut ctrl,
        &mut puts,
        version((10, 1)),
        local_info()
    ));
    assert!(take_active_inflight_put(&mut ctrl, &mut puts, &version((10, 1))).is_some());
}

#[test]
fn the_target_of_a_put_is_checked() {
    let fault = |info, tag, start| resolve_put_target(info, tag, start).unwrap_err();
    assert_eq!(
        fault(info(None), Some(tag(false)), Some(3)),
        PutDoneError::AllocationTaken
    );
    assert_eq!(
        fault(local_info(), None, Some(3)),
        PutDoneError::TargetUnknown
    );
    assert_eq!(
        fault(local_info(), Some(tag(true)), Some(3)),
        PutDoneError::TargetTombed
    );
    assert_eq!(
        fault(local_info(), Some(tag(false)), Some(4)),
        PutDoneError::GenerationReplaced
    );
    assert_eq!(
        fault(local_info(), Some(tag(false)), None),
        PutDoneError::GenerationReplaced
    );
    let moved = info(Some(InflightPutAllocation::Remote {
        src: memory(1, 0, 0, 100),
        target: memory(2, 4096, 0, 100),
    }));
    let target = resolve_put_target(moved, Some(tag(false)), Some(3)).unwrap();
    assert_eq!(target.allocation.id, 2);
    assert_eq!(target.node_id, "t");
}

fn target() -> PutTarget {
    resolve_put_target(local_info(), Some(tag(false)), Some(3)).unwrap()
}

const GRANTED: PutAnswers = PutAnswers {
    capacity_granted: true,
    lease_attached: true,
};

#[test]
fn a_put_takes_the_place_of_the_version_before() {
    let mut ctrl = MemberLifecycleBindedStateCtrl::new();
    let mut table = KeyTable::new();
    let done = finish_put(
        &mut ctrl,
        &mut table,
        &target(),
        (10, 0),
        None,
        1,
        GRANTED,
        true,
    )
    .unwrap_or_else(|_| panic!("the put ends"));
    assert!(done.replaced.is_none());
    assert_eq!(done.follow_up.cache_weight, Some(124));
    assert_eq!(done.follow_up.persist_from, Some(4096));
    assert_eq!(done.follow_up.room, RoomRelease::AfterPersisting);
    assert!(insert_memory_replica_into_cache_if_current(
        &table,
        &name("k"),
        (10, 0),
        &name("t"),
        3,
        &memory(1, 4096, 0, 100)
    ));

    // What was put is read, from the memory that the put wrote.
    let mut gets = GetTable::new();
    let mut get = start(&mut gets, &table, "t");
    match get.first_step() {
        GetStartAction::Started(started) => {
            assert_eq!(started.source.put_id, (10, 0));
            assert_eq!(started.source.src_addr, 4096);
            assert_eq!(started.source.len, 100);
        }
        _ => panic!("the copy is here"),
    }

    let done = finish_put(
        &mut ctrl,
        &mut table,
        &target(),
        (11, 0),
        Some(4),
        2,
        GRANTED,
        true,
    )
    .unwrap_or_else(|_| panic!("the put ends"));
    assert_eq!(done.replaced.unwrap().put_id, (10, 0));
    assert_eq!(done.follow_up.cache_weight, None);
    assert_eq!(done.follow_up.room, RoomRelease::WithMemory);
    assert_eq!(table.get("k").unwrap().put_id, (11, 0));
    assert!(!insert_memory_replica_into_cache_if_current(
        &table,
        &name("k"),
        (10, 0),
        &name("t"),
        3,
        &memory(1, 4096, 0, 100)
    ));
    // Only the new version is bound to the node.
    assert_eq!(ctrl.mark_absent("t", 3).replicas.len(), 1);
}

#[test]
fn a_put_that_is_refused_changes_nothing() {
    let mut ctrl = MemberLifecycleBindedStateCtrl::new();
    let mut table = KeyTable::new();
    let mut fault = |ctrl: &mut MemberLifecycleBindedStateCtrl, lease, answers| {
        let r = finish_put(ctrl, &mut table, &target(), (10, 0), lease, 1, answers, true);
        assert!(table.get("k").is_none());
        match r {
            Err(e) => e,
            Ok(_) => panic!("the put must be refused"),
        }
    };
    let no_room = PutAnswers {
        capacity_granted: false,
        lease_attached: true,
    };
    assert_eq!(
        fault(&mut ctrl, None, no_room),
        PutDoneError::CapacityRefused
    );
    let no_lease = PutAnswers {
        capacity_granted: true,
        lease_attached: false,
    };
    assert_eq!(
        fault(&mut ctrl, Some(4), no_lease),
        PutDoneError::LeaseRefused
    );
    ctrl.mark_absent("t", 3);
    assert_eq!(
        fault(&mut ctrl, None, GRANTED),
        PutDoneError::GenerationLost
    );
}

struct Puts {
    table: PutTable,
    activity: MasterKeyActivityTable,
    ctrl: MemberLifecycleBindedStateCtrl,
    routes: KeyTable<TieredKvRoutes>,
    versions: RecentVersions,
}

impl Puts {
    fn new() -> Self {
        Puts {
            table: PutTable::new(),
            activity: MasterKeyActivityTable::new(),
            ctrl: MemberLifecycleBindedStateCtrl::new(),
            routes: KeyTable::new(),
            versions: RecentVersions::new(),
        }
    }

    fn start(&mut self, request: &PutRequest) -> Result<PutStart, PutStartError> {
        let node = member("w", 3, &[]);
        self.table
            .handle_put_start(
                &mut self.activity,
                &self.routes,
                &mut self.versions,
                &PutOrigin {
                    req_node_id: &name("w"),
                    requester: Some(&node),
                    source_node_id: &name("w"),
                    source: Some(&node),
                },
                &meta_keys(),
                request,
                1,
                1000,
            )
            .map(|(put, _)| put)
    }

    fn refusal(&mut self, request: &PutRequest) -> AdmissionError {
        match self.start(request) {
            Err(PutStartError::Refused(e)) => e,
            _ => panic!("the put must be refused"),
        }
    }

    fn stage(&mut self, put: &mut PutStart, memory: Option<Allocation>) -> PutStartAction {
        self.table
            .source_tried(&mut self.activity, put, memory, &usage())
    }

    fn stay(&mut self, put: PutStart) -> Result<ReplicaIndexKey, PutStartError> {
        let id = version(put.put_id);
        self.table
            .insert_inflight_put(
                &mut self.activity,
                &mut self.ctrl,
                put,
                PutPlacementTarget::Local {
                    node_id: name("w"),
                    persist_to_ssd: false,
                },
                None,
            )
            .map(|_| id)
    }

    fn under_way(&mut self) -> ReplicaIndexKey {
        let mut put = self
            .start(&request(false, false))
            .unwrap_or_else(|_| panic!("the put begins"));
        self.stage(&mut put, Some(memory(1, 4096, 0, 100)));
        self.stay(put)
            .unwrap_or_else(|_| panic!("the put is under way"))
    }

    fn held(&self) -> u32 {
        self.activity.count(&name("k"), MasterKeyActivityKind::Put)
    }
}

#[test]
fn a_put_holds_its_key_until_its_version_is_published() {
    let mut puts = Puts::new();
    let alone = request(true, true);
    let mut put = puts
        .start(&alone)
        .unwrap_or_else(|_| panic!("the put begins"));
    assert_eq!(puts.refusal(&alone), AdmissionError::KeyBeingWritten);
    puts.stage(&mut put, Some(memory(1, 4096, 0, 100)));
    let id = puts
        .stay(put)
        .unwrap_or_else(|_| panic!("the put is under way"));
    assert!(puts.table.is_under_way(&puts.activity, &id));
    assert_eq!(puts.refusal(&alone), AdmissionError::KeyBeingWritten);

    let info = puts
        .table
        .take_active_inflight_put(&mut puts.activity, &mut puts.ctrl, &id)
        .unwrap();
    assert!(!puts.table.is_under_way(&puts.activity, &id));
    assert!(puts.table.holds(&puts.activity, info.info_id, &name("k")));
    assert_eq!(puts.refusal(&alone), AdmissionError::KeyBeingWritten);

    let target = puts
        .table
        .resolve_put_target(&mut puts.activity, info, Some(tag(false)), Some(3))
        .unwrap();
    assert_eq!(puts.held(), 1);
    let done = puts.table.handle_put_done(
        &mut puts.activity,
        &mut puts.ctrl,
        &mut puts.routes,
        &target,
        id.put_id,
        None,
        1,
        GRANTED,
        true,
    );
    match done {
        Ok(done) => assert_eq!(done.follow_up.room, RoomRelease::AtOnce),
        Err(e) => panic!("the put must end: {e:?}"),
    }
    assert_eq!(puts.held(), 0);
    assert_eq!(puts.refusal(&alone), AdmissionError::KeyAlreadyExists);
    // A put that does not mind replaces the version.
    assert!(puts.start(&request(true, false)).is_ok());
}

#[test]
fn a_put_that_fails_lets_go_of_its_key() {
    let mut puts = Puts::new();
    let two = [puts.under_way(), puts.under_way()];
    assert_eq!(puts.held(), 2);
    assert!(puts
        .table
        .handle_put_revoke(&mut puts.activity, &mut puts.ctrl, &two[0]));
    assert_eq!(puts.held(), 1);
    assert!(!puts
        .table
        .handle_put_revoke(&mut puts.activity, &mut puts.ctrl, &two[0]));
    assert_eq!(puts.held(), 1);
    assert!(puts
        .table
        .cancel_inflight_put(&mut puts.activity, &mut puts.ctrl, &two[1])
        .is_some());
    assert_eq!(puts.held(), 0);

    // There is no staging memory.
    let mut put = puts
        .start(&request(true, true))
        .unwrap_or_else(|_| panic!("the put begins"));
    for _ in 0..2 {
        puts.stage(&mut put, None);
        assert_eq!(puts.held(), 1);
    }
    assert!(matches!(
        puts.stage(&mut put, None),
        PutStartAction::Failed(_)
    ));
    assert_eq!(puts.held(), 0);

    // There is no place for the bytes.
    let put = puts
        .start(&request(true, true))
        .unwrap_or_else(|_| panic!("the put begins"));
    puts.table
        .abandon(&mut puts.activity, put.number, &put.key);
    assert_eq!(puts.held(), 0);
    let mut put = puts
        .start(&request(true, true))
        .unwrap_or_else(|_| panic!("the put begins"));
    puts.stage(&mut put, Some(memory(1, 4096, 0, 100)));
    let gone = puts.table.insert_inflight_put(
        &mut puts.activity,
        &mut puts.ctrl,
        put,
        PutPlacementTarget::Remote {
            node_id: name("t"),
            allocation: memory(2, 8192, 8, 100),
            persist_to_ssd: false,
        },
        None,
    );
    assert!(matches!(gone, Err(PutStartError::TargetDeparted)));
    assert_eq!(puts.held(), 0);

    // The bytes are not where they should be, or cannot be published.
    let id = puts.under_way();
    let info = puts
        .table
        .take_active_inflight_put(&mut puts.activity, &mut puts.ctrl, &id)
        .unwrap();
    assert_eq!(
        puts.table
            .resolve_put_target(&mut puts.activity, info, None, Some(3))
            .unwrap_err(),
        PutDoneError::TargetUnknown
    );
    assert_eq!(puts.held(), 0);
    let id = puts.under_way();
    let info = puts
        .table
        .take_active_inflight_put(&mut puts.activity, &mut puts.ctrl, &id)
        .unwrap();
    let target = puts
        .table
        .resolve_put_target(&mut puts.activity, info, Some(tag(false)), Some(3))
        .unwrap();
    let refused = PutAnswers {
        capacity_granted: false,
        lease_attached: false,
    };
    assert!(puts
        .table
        .handle_put_done(
            &mut puts.activity,
            &mut puts.ctrl,
            &mut puts.routes,
            &target,
            id.put_id,
            None,
            1,
            refused,
            true,
        )
        .is_err());
    assert_eq!(puts.held(), 0);

    // A node that takes part has left.
    let mut put = puts
        .start(&request(true, true))
        .unwrap_or_else(|_| panic!("the put begins"));
    puts.stage(&mut put, Some(memory(1, 4096, 0, 100)));
    puts.ctrl.mark_absent("w", 3);
    assert!(matches!(
        puts.stay(put),
        Err(PutStartError::ParticipantLeft)
    ));
    assert_eq!(puts.held(), 0);
}

#[test]
fn news_of_copies_on_ssds_is_checked() {
    let mut table = routes(
        vec![
            ("a", copy(Some(memory(1, 0, 0, 100)), None, false)),
            ("b", copy(Some(memory(2, 0, 0, 100)), None, true)),
        ],
        None,
    );
    let k = name("k");
    let mut commit = |key: &str, put_id, node: &str| {
        handle_ssd_replica_commit(&mut table, &name(key), put_id, &name(node), 100)
    };
    assert_eq!(commit("l", (10, 0), "a"), SsdCommitOutcome::MissingKey);
    assert_eq!(commit("k", (9, 0), "a"), SsdCommitOutcome::StaleVersion);
    assert_eq!(
        commit("k", (10, 0), "c"),
        SsdCommitOutcome::Noted(SsdReplicaCommitStatus::MissingMemory)
    );
    assert_eq!(
        commit("k", (10, 0), "b"),
        SsdCommitOutcome::Noted(SsdReplicaCommitStatus::TombedNode)
    );
    assert_eq!(
        commit("k", (10, 0), "a"),
        SsdCommitOutcome::Noted(SsdReplicaCommitStatus::Committed)
    );
    let batch = handle_batch_ssd_replica_evict(
        &mut table,
        &vec![
            SsdReplicaEviction {
                key: k.clone(),
                put_id: (9, 0),
            },
            SsdReplicaEviction {
                key: k.clone(),
                put_id: (10, 0),
            },
        ],
        &name("a"),
    );
    assert_eq!(batch.removed_count, 1);
    assert!(batch.removed_route_keys.is_empty());
}

#[test]
fn a_deleted_key_leaves_every_cache_and_is_announced() {
    let mut table = routes(
        vec![("a", copy(Some(memory(1, 0, 0, 100)), None, false))],
        None,
    );
    let req = || DeleteReq { key: name("k") };
    // A node that has no copy of this version may still have the key in its cache.
    let deleted = handle_delete(&mut table, &req(), vec![name("a"), name("b")], true).unwrap();
    assert_eq!(deleted.put_id, (10, 0));
    assert_eq!(deleted.cache_nodes, vec![name("a"), name("b")]);
    assert!(deleted.forget_prefix);
    match deleted.announcement {
        DeleteKeyInfo::Key {
            key,
            nodes_kv_route_info,
        } => {
            assert_eq!(key, "k");
            assert_eq!(nodes_kv_route_info.put_id, (10, 0));
            assert!(nodes_kv_route_info.has_memory_replica_allocation(
                &name("a"),
                1,
                &memory(1, 0, 0, 100)
            ));
        }
        DeleteKeyInfo::Shutdown => panic!("the key must be announced"),
    }
    assert!(table.get("k").is_none());
    assert!(handle_delete(&mut table, &req(), vec![name("a")], true).is_none());
    assert!(do_delete_one_kv_all_replicas(&mut table, "k", Vec::new(), false).is_none());
}

#[test]
fn keys_are_counted_by_prefix() {
    let mut table: KeyTable<u32> = KeyTable::new();
    for key in ["a:1", "a:2", "b:1"] {
        table.insert(name(key), 0);
    }
    assert_eq!(handle_count_prefix(&table, "a:"), 2);
    assert_eq!(handle_count_prefix(&table, ""), 3);
    assert_eq!(handle_count_prefix(&table, "c"), 0);
    table.remove("a:1");
    assert_eq!(handle_count_prefix(&table, "a:"), 1);
}

#[test]
fn numbers_and_grants_are_given_out_once() {
    let mut router = MasterKvRouter::new(RouterSettings {
        disable_master_replica_cache: false,
        disable_prefix_index: true,
        tier1_configured: true,
        skip_put_end_commit: true,
    });
    assert!(router.replica_cache_enabled());
    assert!(!router.prefix_index_enabled());
    assert!(router.tiered_writeback_enabled());
    assert_eq!(router.inflight_put_ttl_seconds(), 5);
    assert!(router.node_has_cache(1));
    assert!(!router.node_has_cache(0));
    let node = member("n", 1, &[]);
    let roles = vec![name("remote_cache")];
    assert_eq!(
        router.tier1_cache_capacity(Some(&node), &roles, Some(7)),
        Some(7)
    );
    assert_eq!(
        router.tier1_cache_capacity(Some(&node), &roles, Some(0)),
        None
    );
    assert_eq!(router.tier1_cache_capacity(None, &roles, Some(7)), None);
    assert!(EntryRemoval::Expired.reclaims_copy());
    assert!(!EntryRemoval::Explicit.reclaims_copy());
    assert!(!EntryRemoval::Expired.writes_back());
    assert_eq!(router.next_local_reserve_grant_id(), 1);
    assert_eq!(router.next_local_reserve_grant_id(), 2);
    assert_eq!(router.next_owner_reclaim_epoch(), 1);
    assert_eq!(router.next_prepared_put_key_reservation_id(), 1);
    router.install_local_reserve_grant(
        1,
        fluxon_kv::router::LocalReserveGrantInfo {
            owner_node_id: name("o"),
            allocation: memory(1, 0, 0, 10),
        },
    );
    assert_eq!(
        router.take_local_reserve_grant(1).unwrap().owner_node_id,
        "o"
    );
    assert!(router.take_local_reserve_grant(1).is_none());
}

#[test]
fn values_are_written_back_once_at_a_time() {
    let mut writebacks = Tier1Writebacks::new();
    let node = name("n");
    assert!(!writebacks.enqueue_tier1_writeback(&node, &version((1, 0)), false));
    assert!(writebacks.enqueue_tier1_writeback(&node, &version((1, 0)), true));
    assert!(!writebacks.enqueue_tier1_writeback(&node, &version((1, 0)), true));
    writebacks.queue_refused(&node, &version((1, 0)));
    assert!(writebacks.enqueue_tier1_writeback(&node, &version((1, 0)), true));
    writebacks.record_tier1_writeback_owner_accepted(&node, 1);
    writebacks.finish_tier1_writeback_request(&version((1, 0)));
    assert_eq!(writebacks.tier1_writeback_counters(&node), (2, 1, 1));
}

#[test]
fn tombs_of_other_nodes_stay() {
    let mut table = routes(
        vec![
            ("a", copy(Some(memory(1, 0, 0, 10)), None, true)),
            ("b", copy(Some(memory(2, 0, 0, 10)), None, false)),
        ],
        None,
    );
    let mut tombs = NameSet::new();
    tombs.insert(name("a"));
    clean_up_tombs(&mut table, &name("k"), (10, 0), &tombs);
    let route = table.get("k").unwrap();
    assert!(route.node_replicas.get(&name("a")).is_none());
    assert!(route.node_replicas.get(&name("b")).is_some());
}
