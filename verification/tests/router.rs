use fluxon_kv::assoc::AssocMap;
use fluxon_kv::cache_policy::{
    allow_unrecoverable_cache_eviction, subtract_pending_eviction_weight,
    UnrecoverableCacheEvictionContext,
};
use fluxon_kv::cluster::{member_ready_for_segment_registration, ClusterMember, NodeRole};
use fluxon_kv::key_activity::{
    MasterKeyActivityKind, MasterKeyActivitySnapshot, MasterKeyActivityTable, OwnerReclaimBacking,
    OwnerReclaimItem, OwnerReclaimReason, SharedActivityLease,
};
use fluxon_kv::key_table::KeyTable;
use fluxon_kv::name_set::NameSet;
use fluxon_kv::observe::{PlacementCounters, PutPlacementMode, RequesterTargetPair};
use fluxon_kv::placement::PutSsdPlacementScope;
use fluxon_kv::reclaim::{
    eviction_reclaim_retry_delay, partition_reclaim_coordination, should_restore_after_retry,
    ReserveScan, EVICTION_RECLAIM_MAX_RETRY_COUNT,
};
use fluxon_kv::recoverability::{
    current_tp_cohort_keys, recoverable_cohort_weight, route_has_recoverable_replica_with,
    route_recoverable_replica_status_with, RecoverableReplicaStatus,
};
use fluxon_kv::route_maintenance::{
    deduplicate_owner_events, projected_batch_weight, saturating_moka_weight_bytes,
};
use fluxon_kv::router::MasterKvRouter;
use fluxon_kv::routes::{
    CommittedSlotReplica, KvReplicaBacking, KvRouteInfo, NodeTombTag, NodeValueReplicaDesc,
    OneKvNodesRoutes, PutAtomicGroup, PutAtomicGroupMember,
};
use fluxon_kv::tp_key::{infer_sglang_tp_key, InferredTpKey};

#[test]
fn one_kv_nodes_routes_only_reserves_two_get_durable_slots() {
    let mut routes = OneKvNodesRoutes::new((1, 0), None);

    assert!(routes.try_reserve_get_durable_slot());
    assert!(routes.try_reserve_get_durable_slot());
    assert!(!routes.try_reserve_get_durable_slot());

    routes.release_get_durable_slot();
    assert!(routes.try_reserve_get_durable_slot());
}

#[test]
fn reclaim_fence_is_atomic_with_all_master_key_activity() {
    let mut table = MasterKeyActivityTable::new();
    let k = "k".to_string();
    let item = OwnerReclaimItem {
        key: "k".to_string(),
        put_id: (7, 3),
        epoch: 11,
        backing: OwnerReclaimBacking::CommittedSlot {
            grant_id: 13,
            slot_index: 17,
            slot_size: 8 * 1024 * 1024,
        },
        reason: OwnerReclaimReason::Reserve,
    };

    let mut get_lease = table
        .reserve(&k, MasterKeyActivityKind::Get, false)
        .expect("get activity should be admitted before reclaim");
    assert!(!table.is_quiescent(&k));
    assert_eq!(
        table.try_install_reclaim(&item),
        Err(MasterKeyActivitySnapshot {
            puts: 0,
            gets: 1,
            replicas: 0,
            reclaim_installed: false,
        })
    );
    get_lease.release_now(&mut table);

    assert!(table.is_quiescent(&k));
    assert!(table.try_install_reclaim(&item).is_ok());
    assert!(!table.is_quiescent(&k));
    assert!(table.has_reclaim(&k));
    assert!(table
        .reserve(&k, MasterKeyActivityKind::Put, false)
        .is_none());
    assert!(table
        .reserve(&k, MasterKeyActivityKind::Get, false)
        .is_none());
    assert!(table
        .reserve(&k, MasterKeyActivityKind::Replica, false)
        .is_none());

    assert!(table.clear_reclaim(&item));
    assert!(!table.has_reclaim(&k));
    assert!(table
        .reserve(&k, MasterKeyActivityKind::Put, true)
        .is_some());
}

#[test]
fn explicit_activity_completion_is_idempotent_with_retired_cache_clones() {
    let mut table = MasterKeyActivityTable::new();
    let key = "retired-clone".to_string();
    let mut lease = SharedActivityLease::new(
        table
            .reserve(&key, MasterKeyActivityKind::Get, false)
            .expect("get activity should be admitted"),
    );
    // The retired clone.
    lease.share();

    lease.release_now(&mut table);
    lease.release_now(&mut table);
    assert!(table.is_quiescent(&key));

    lease.drop_handle(&mut table);
    lease.drop_handle(&mut table);
    assert!(table.is_quiescent(&key));
}

#[test]
fn the_last_of_several_holders_ends_an_activity() {
    let mut table = MasterKeyActivityTable::new();
    let key = "shared".to_string();
    let mut lease = SharedActivityLease::new(
        table
            .reserve(&key, MasterKeyActivityKind::Put, true)
            .expect("put activity should be admitted"),
    );
    lease.share();
    lease.drop_handle(&mut table);
    assert!(!table.is_quiescent(&key));
    lease.drop_handle(&mut table);
    assert!(table.is_quiescent(&key));
}

fn test_route_info(node_id: &str, tomb: bool) -> KvRouteInfo {
    let mut tomb_tag = NodeTombTag::new();
    if tomb {
        tomb_tag.set_tomb();
    }
    KvRouteInfo {
        node_id: node_id.to_string(),
        backing: KvReplicaBacking::CommittedSlot(CommittedSlotReplica {
            owner_node_id: node_id.to_string(),
            grant_id: 1,
            slot_index: 0,
            slot_size: 1024,
            addr: 0,
            len: 1024,
            base_addr: 0,
        }),
        owner_local_indexed: true,
        tomb_tag,
    }
}

fn test_route(
    put_id: (u64, u32),
    lease_id: Option<u64>,
    replicas: Vec<(&str, bool)>,
) -> OneKvNodesRoutes {
    let mut route = OneKvNodesRoutes::new(put_id, lease_id);
    for (node_id, tomb) in replicas {
        route
            .nodes_replicas
            .insert(node_id.to_string(), test_route_info(node_id, tomb));
    }
    route
}

/// The nodes of the remote tier in these tests: those whose names begin with "cpu".
fn test_remote_nodes() -> NameSet {
    let mut remote = NameSet::new();
    remote.insert("cpu0".to_string());
    remote.insert("cpu1".to_string());
    remote
}

fn table(rows: Vec<(&str, OneKvNodesRoutes)>) -> KeyTable<OneKvNodesRoutes> {
    let mut routes = KeyTable::new();
    for (key, route) in rows {
        routes.insert(key.to_string(), route);
    }
    routes
}

#[test]
fn recoverable_route_requires_live_local_and_live_remote_cache_same_version() {
    let desc = NodeValueReplicaDesc {
        weight_bytes: 1024,
        put_id: (7, 3),
    };
    let no_routes = table(vec![]);
    let remote = test_remote_nodes();
    let recoverable = |route: &OneKvNodesRoutes| {
        route_has_recoverable_replica_with(
            &"gpu0".to_string(),
            &"k".to_string(),
            route,
            &desc,
            &no_routes,
            &remote,
        )
    };

    let cpu_copy = test_route((7, 3), None, vec![("gpu0", false), ("cpu0", false)]);
    assert!(recoverable(&cpu_copy));

    let local_only = test_route((7, 3), None, vec![("gpu0", false)]);
    assert!(!recoverable(&local_only));

    let gpu_copy = test_route((7, 3), None, vec![("gpu0", false), ("gpu1", false)]);
    assert!(!recoverable(&gpu_copy));

    let remote_tomb = test_route((7, 3), None, vec![("gpu0", false), ("cpu0", true)]);
    assert!(!recoverable(&remote_tomb));

    let local_tomb = test_route((7, 3), None, vec![("gpu0", true), ("cpu0", false)]);
    assert!(!recoverable(&local_tomb));

    let stale = test_route((8, 0), None, vec![("gpu0", false), ("cpu0", false)]);
    assert!(!recoverable(&stale));

    let leased = test_route((7, 3), Some(11), vec![("gpu0", false), ("cpu0", false)]);
    assert!(!recoverable(&leased));
}

fn group_of(members: &[(&str, (u64, u32))]) -> PutAtomicGroup {
    PutAtomicGroup {
        members: members
            .iter()
            .map(|(key, put_id)| PutAtomicGroupMember {
                key: key.to_string(),
                put_id: *put_id,
            })
            .collect(),
    }
}

fn grouped_route(
    put_id: (u64, u32),
    members: &[(&str, (u64, u32))],
    remote_node: Option<&str>,
) -> OneKvNodesRoutes {
    let mut replicas = vec![("gpu0", false)];
    if let Some(remote_node) = remote_node {
        replicas.push((remote_node, false));
    }
    let mut route = test_route(put_id, None, replicas);
    route.atomic_group = Some(group_of(members));
    route
}

#[test]
fn recoverable_atomic_group_requires_one_common_remote_cache_owner() {
    let members = [("k0", (7, 0)), ("k1", (7, 1))];
    let desc = NodeValueReplicaDesc {
        weight_bytes: 1024,
        put_id: (7, 0),
    };
    let remote = test_remote_nodes();
    let recoverable = |k1_remote: Option<&str>| {
        let k0 = grouped_route((7, 0), &members, Some("cpu0"));
        let routes = table(vec![
            ("k0", grouped_route((7, 0), &members, Some("cpu0"))),
            ("k1", grouped_route((7, 1), &members, k1_remote)),
        ]);
        route_has_recoverable_replica_with(
            &"gpu0".to_string(),
            &"k0".to_string(),
            &k0,
            &desc,
            &routes,
            &remote,
        )
    };

    assert!(recoverable(Some("cpu0")));
    assert!(!recoverable(Some("cpu1")));
    assert!(!recoverable(None));
}

#[test]
fn infer_sglang_tp_key_accepts_only_canonical_suffix() {
    assert_eq!(
        infer_sglang_tp_key("prefix:page_model_1_2"),
        Some(InferredTpKey {
            logical_prefix: "prefix:page_model",
            rank: 1,
            size: 2,
        })
    );
    assert!(infer_sglang_tp_key("prefix:page_model_2_2").is_none());
    assert!(infer_sglang_tp_key("prefix:page_model_01_2").is_none());
    assert!(infer_sglang_tp_key("prefix:page_model_x_2").is_none());
    assert!(infer_sglang_tp_key("prefix:page_model_0_0").is_none());
}

const RANK0: [(&str, (u64, u32)); 2] = [("page0_model_0_2", (10, 0)), ("page1_model_0_2", (10, 1))];
const RANK1: [(&str, (u64, u32)); 2] = [("page0_model_1_2", (11, 0)), ("page1_model_1_2", (11, 1))];

fn cohort(rank1_remote: &str, with_last_page: bool) -> KeyTable<OneKvNodesRoutes> {
    let mut rows = vec![
        (
            "page0_model_0_2",
            grouped_route((10, 0), &RANK0, Some("cpu0")),
        ),
        (
            "page1_model_0_2",
            grouped_route((10, 1), &RANK0, Some("cpu0")),
        ),
        (
            "page0_model_1_2",
            grouped_route((11, 0), &RANK1, Some(rank1_remote)),
        ),
    ];
    if with_last_page {
        rows.push((
            "page1_model_1_2",
            grouped_route((11, 1), &RANK1, Some(rank1_remote)),
        ));
    }
    table(rows)
}

#[test]
fn recoverable_atomic_group_requires_complete_tp_cohort_on_one_cpu_owner() {
    let rank0_page0 = grouped_route((10, 0), &RANK0, Some("cpu0"));
    let desc = NodeValueReplicaDesc {
        weight_bytes: 1024,
        put_id: (10, 0),
    };
    let owner = "gpu0".to_string();
    let key = "page0_model_0_2".to_string();
    let remote = test_remote_nodes();
    assert_eq!(
        current_tp_cohort_keys(&key, &rank0_page0, &desc).unwrap(),
        vec![
            "page0_model_0_2",
            "page1_model_0_2",
            "page0_model_1_2",
            "page1_model_1_2",
        ]
    );
    assert!(route_has_recoverable_replica_with(
        &owner,
        &key,
        &rank0_page0,
        &desc,
        &cohort("cpu0", true),
        &remote,
    ));
    assert_eq!(
        route_recoverable_replica_status_with(
            &owner,
            &key,
            &rank0_page0,
            &desc,
            &cohort("cpu0", false),
            &remote,
        ),
        RecoverableReplicaStatus::TpCohortIncomplete
    );
    assert!(!route_has_recoverable_replica_with(
        &owner,
        &key,
        &rank0_page0,
        &desc,
        &cohort("cpu1", true),
        &remote,
    ));
}

#[test]
fn recoverable_single_page_requires_all_tp_ranks() {
    let copies = || vec![("gpu0", false), ("cpu0", false)];
    let rank0 = test_route((20, 0), None, copies());
    let desc = NodeValueReplicaDesc {
        weight_bytes: 1024,
        put_id: (20, 0),
    };
    let remote = test_remote_nodes();
    let complete = table(vec![
        ("page_model_0_2", test_route((20, 0), None, copies())),
        ("page_model_1_2", test_route((21, 0), None, copies())),
    ]);
    assert!(route_has_recoverable_replica_with(
        &"gpu0".to_string(),
        &"page_model_0_2".to_string(),
        &rank0,
        &desc,
        &complete,
        &remote,
    ));

    let rank0_only = table(vec![(
        "page_model_0_2",
        test_route((20, 0), None, copies()),
    )]);
    assert!(!route_has_recoverable_replica_with(
        &"gpu0".to_string(),
        &"page_model_0_2".to_string(),
        &rank0,
        &desc,
        &rank0_only,
        &remote,
    ));
}

#[test]
fn owner_hot_demotion_rejects_the_whole_cohort_before_moka_selection() {
    let rank0 = NodeValueReplicaDesc {
        weight_bytes: 1024,
        put_id: (30, 0),
    };
    let rank1 = NodeValueReplicaDesc {
        weight_bytes: 1024,
        put_id: (31, 0),
    };
    let cache = moka::sync::SegmentedCache::builder(8)
        .weigher(|_key: &String, weight: &u32| *weight)
        .build();
    cache.insert("rank0".to_string(), rank0.weight_bytes);
    cache.insert("rank1".to_string(), rank1.weight_bytes);
    cache.run_pending_tasks();

    let selected_weight = recoverable_cohort_weight(&vec![
        (rank0, RecoverableReplicaStatus::Recoverable),
        (rank1, RecoverableReplicaStatus::TpCohortIncomplete),
    ])
    .map_or(0, |expected_weight| {
        cache.invalidate_all();
        expected_weight
    });

    assert_eq!(selected_weight, 0);
    assert!(cache.get("rank0").is_some());
    assert!(cache.get("rank1").is_some());
    assert_eq!(
        recoverable_cohort_weight(&vec![
            (rank0, RecoverableReplicaStatus::Recoverable),
            (rank1, RecoverableReplicaStatus::Recoverable),
        ]),
        Some(2048)
    );
}

#[test]
fn unrecoverable_fallback_is_only_for_last_level_or_no_remote_tier() {
    assert!(allow_unrecoverable_cache_eviction(
        false,
        false,
        UnrecoverableCacheEvictionContext::NormalCapacity,
    ));
    assert!(!allow_unrecoverable_cache_eviction(
        false,
        true,
        UnrecoverableCacheEvictionContext::NormalCapacity,
    ));
    assert!(allow_unrecoverable_cache_eviction(
        true,
        true,
        UnrecoverableCacheEvictionContext::NormalCapacity,
    ));
    assert!(allow_unrecoverable_cache_eviction(
        false,
        true,
        UnrecoverableCacheEvictionContext::OwnerLocalReserveNoSpace,
    ));
}

#[test]
fn synchronous_restore_re_eviction_keeps_new_pending_weight() {
    let weight = 8 * 1024 * 1024;
    let mut pending: u64 = weight;

    // The restored entry is queued again before the old request completes. Completing the old
    // request must leave exactly the new request.
    pending += weight;
    subtract_pending_eviction_weight(&mut pending, weight);
    assert_eq!(pending, weight);

    subtract_pending_eviction_weight(&mut pending, weight);
    assert_eq!(pending, 0);
}

fn new_test_member(metadata: Vec<(&str, &str)>) -> ClusterMember {
    let mut m = AssocMap::new();
    for (key, value) in metadata {
        m.insert(key.to_string(), value.to_string());
    }
    ClusterMember {
        id: "node-a".to_string(),
        node_start_time: 1,
        metadata: m,
        sub_cluster: Some("owner".to_string()),
        role: NodeRole::Client,
        has_kv_ssd_storage: false,
    }
}

#[test]
fn segment_registration_readiness_accepts_owner_without_local_ipc_root() {
    let member = new_test_member(vec![("client", "true"), ("p2p_relay", "true")]);

    assert!(member_ready_for_segment_registration(&member));
}

#[test]
fn segment_registration_readiness_rejects_external_and_side_worker() {
    let external = new_test_member(vec![("external_client", "true")]);
    assert!(!member_ready_for_segment_registration(&external));

    let side_worker = new_test_member(vec![
        ("client", "true"),
        ("side_transfer_worker", "true"),
        ("p2p_relay", "true"),
    ]);
    assert!(!member_ready_for_segment_registration(&side_worker));
}

#[test]
fn tier1_source_accepts_gpu_owner_role_and_rejects_remote_cache() {
    let remote_only_node_roles = vec!["remote_cache".to_string()];

    let gpu_owner = new_test_member(vec![("client", "true"), ("p2p_relay", "true")]);
    assert!(MasterKvRouter::tier1_source_member_eligible(
        Some(&gpu_owner),
        &remote_only_node_roles,
    ));

    let mut remote_cache = gpu_owner.dup();
    remote_cache.sub_cluster = Some("remote_cache".to_string());
    assert!(!MasterKvRouter::tier1_source_member_eligible(
        Some(&remote_cache),
        &remote_only_node_roles,
    ));
    assert!(!MasterKvRouter::tier1_source_member_eligible(
        None,
        &remote_only_node_roles,
    ));
}

#[test]
fn requester_target_pair_formats_stably() {
    let pair = RequesterTargetPair::new("node-2a", "node-3b");
    assert_eq!(pair.as_log_key(), "node-2a->node-3b");
}

#[test]
fn placement_mode_label_is_stable() {
    let local = PutPlacementMode::Local.label();
    let remote = PutPlacementMode::Remote.label();
    assert_eq!(local, "local");
    assert_eq!(remote, "remote");
}

#[test]
fn placement_counters_accumulate_by_target_mode_and_requester_target() {
    let mut counters = PlacementCounters::new();

    counters.record_put_placement_decision("node-2a", "node-2a", PutPlacementMode::Local);
    counters.record_put_placement_decision("node-3a", "node-2a", PutPlacementMode::Remote);
    counters.record_put_placement_decision("node-3a", "node-4a", PutPlacementMode::Remote);

    assert_eq!(counters.put_target_count("node-2a"), 2);
    assert_eq!(counters.put_target_count("node-4a"), 1);
    assert_eq!(counters.put_mode_count(PutPlacementMode::Local), 1);
    assert_eq!(counters.put_mode_count(PutPlacementMode::Remote), 2);
    assert_eq!(
        counters.put_requester_target_count(&RequesterTargetPair::new("node-3a", "node-2a")),
        1
    );
}

fn client_member(id: &str, has_ssd: bool) -> ClusterMember {
    let mut metadata = AssocMap::new();
    metadata.insert("client".to_string(), "true".to_string());
    ClusterMember {
        id: id.to_string(),
        node_start_time: 1,
        metadata,
        sub_cluster: None,
        role: NodeRole::Client,
        has_kv_ssd_storage: has_ssd,
    }
}

#[test]
fn no_ssd_members_keep_memory_only_placement_enabled() {
    let members = vec![
        client_member("owner-a", false),
        client_member("owner-b", false),
    ];
    let scope = PutSsdPlacementScope::from_client_members(&members);

    assert!(!scope.requires_ssd());
    assert!(scope.allows_node(&"owner-a".to_string()));
    assert!(scope.allows_node(&"owner-b".to_string()));
    assert!(!scope.persists_to_ssd(&"owner-a".to_string()));
}

#[test]
fn ssd_members_restrict_targets_to_ssd_capable_owners() {
    let members = vec![
        client_member("owner-memory", false),
        client_member("owner-ssd", true),
    ];
    let scope = PutSsdPlacementScope::from_client_members(&members);

    assert!(scope.requires_ssd());
    assert!(!scope.allows_node(&"owner-memory".to_string()));
    assert!(scope.allows_node(&"owner-ssd".to_string()));
    assert!(scope.persists_to_ssd(&"owner-ssd".to_string()));
}

#[test]
fn eviction_reclaim_retry_restoration_is_bounded() {
    assert!(!should_restore_after_retry(
        EVICTION_RECLAIM_MAX_RETRY_COUNT - 1
    ));
    assert!(should_restore_after_retry(EVICTION_RECLAIM_MAX_RETRY_COUNT));
    assert!(should_restore_after_retry(u32::MAX));
}

#[test]
fn eviction_reclaim_retry_paces_restore_view_holders() {
    assert_eq!(eviction_reclaim_retry_delay(1), 100);
    assert_eq!(eviction_reclaim_retry_delay(2), 200);
    assert_eq!(eviction_reclaim_retry_delay(3), 400);
    assert_eq!(eviction_reclaim_retry_delay(4), 800);
    assert_eq!(eviction_reclaim_retry_delay(u32::MAX), 1000);
}

fn candidate(index: u32) -> OwnerReclaimItem {
    OwnerReclaimItem {
        key: format!("candidate-{index}"),
        put_id: (u64::from(index), 0),
        epoch: u64::from(index),
        backing: OwnerReclaimBacking::CommittedSlot {
            grant_id: u64::from(index),
            slot_index: index,
            slot_size: 8 * 1024 * 1024,
        },
        reason: OwnerReclaimReason::Reserve,
    }
}

#[test]
fn only_unindexed_allocations_skip_owner_coordination() {
    let mut indexed_allocation = candidate(1);
    indexed_allocation.backing = OwnerReclaimBacking::Allocation;
    indexed_allocation.reason = OwnerReclaimReason::CapacityEviction;
    let mut unindexed_allocation = candidate(2);
    unindexed_allocation.backing = OwnerReclaimBacking::UnindexedAllocation;
    unindexed_allocation.reason = OwnerReclaimReason::CapacityEviction;
    let committed_slot = candidate(3);

    let (master_only, owner_coordinated) = partition_reclaim_coordination(vec![
        indexed_allocation,
        unindexed_allocation.dup(),
        committed_slot,
    ]);

    assert_eq!(master_only.len(), 1);
    assert!(master_only[0].same(&unindexed_allocation));
    assert_eq!(owner_coordinated.len(), 2);
    assert!(owner_coordinated
        .iter()
        .all(|item| item.backing != OwnerReclaimBacking::UnindexedAllocation));
}

fn scan(
    candidates: &[OwnerReclaimItem],
    required: u32,
    mut reclaim: impl FnMut(&[OwnerReclaimItem]) -> u32,
) -> (u32, usize) {
    let mut scan = ReserveScan::new(candidates.len(), required);
    while let Some((from, to)) = scan.next_batch() {
        let reclaimed = reclaim(&candidates[from..to]);
        scan.batch_done(to - from, reclaimed);
    }
    (scan.reclaimed, scan.scanned)
}

#[test]
fn reserve_scan_continues_after_busy_first_batch() {
    let candidates = (0..12).map(candidate).collect::<Vec<_>>();
    let mut batches = Vec::new();
    let mut call_count = 0usize;

    let (reclaimed, scanned_candidates) = scan(&candidates, 5, |batch| {
        call_count += 1;
        batches.push(
            batch
                .iter()
                .map(|item| item.key.clone())
                .collect::<Vec<_>>(),
        );
        if call_count == 1 {
            0
        } else {
            u32::try_from(batch.len()).unwrap()
        }
    });

    assert_eq!(reclaimed, 5);
    assert_eq!(scanned_candidates, 10);
    assert_eq!(batches.len(), 2);
    assert_eq!(batches[0][0], "candidate-0");
    assert_eq!(batches[0][4], "candidate-4");
    assert_eq!(batches[1][0], "candidate-5");
    assert_eq!(batches[1][4], "candidate-9");
}

#[test]
fn reserve_scan_shrinks_next_batch_after_partial_reclaim() {
    let candidates = (0..10).map(candidate).collect::<Vec<_>>();
    let mut batch_lengths = Vec::new();
    let mut call_count = 0usize;

    let (reclaimed, scanned_candidates) = scan(&candidates, 5, |batch| {
        call_count += 1;
        batch_lengths.push(batch.len());
        if call_count == 1 {
            2
        } else {
            3
        }
    });

    assert_eq!(reclaimed, 5);
    assert_eq!(scanned_candidates, 8);
    assert_eq!(batch_lengths, vec![5, 3]);
}

#[test]
fn moka_weight_saturates_without_truncating() {
    assert_eq!(saturating_moka_weight_bytes(u32::MAX as u64), u32::MAX);
    assert_eq!(saturating_moka_weight_bytes(u32::MAX as u64 + 1), u32::MAX);
    assert_eq!(saturating_moka_weight_bytes(4096), 4096);
}

#[test]
fn projected_weight_accounts_for_batch_replacements_once() {
    assert_eq!(projected_batch_weight(90, 30, 50), 110);
    assert_eq!(projected_batch_weight(10, 20, 5), 5);
}

#[test]
fn owner_batch_keeps_only_the_last_event_for_each_key() {
    let desc = |weight_bytes, put_id| NodeValueReplicaDesc {
        weight_bytes,
        put_id,
    };
    let events = vec![
        (0, "a".to_string(), desc(10, (1, 0))),
        (1, "b".to_string(), desc(20, (1, 0))),
        (2, "a".to_string(), desc(30, (2, 0))),
    ];

    let deduplicated = deduplicate_owner_events(events);
    assert_eq!(deduplicated.len(), 2);
    assert_eq!(deduplicated[0].0, "b");
    assert_eq!(deduplicated[1].0, "a");
    assert_eq!(deduplicated[1].1.weight_bytes, 30);
    assert_eq!(deduplicated[1].1.put_id, (2, 0));
}
