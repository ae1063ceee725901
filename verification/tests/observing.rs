use fluxon_kv::admission::reserve_inflight_put_key;
use fluxon_kv::cache_policy::{
    adjust_node_cache_reserved_capacity, capacity_refused, effective_capacity, fallback_weight,
    projected_weight, requested_weight, tier1_capacity, tier1_writeback_entry_is_current,
    AdjustError, AdjustStep, EvictionReclaimCounters, NodeCacheReservedCapacity,
    ReservedCapacityReason,
};
use fluxon_kv::delete::evict_one_kv_replica_for_node;
use fluxon_kv::get::GetTable;
use fluxon_kv::key_activity::MasterKeyActivityTable;
use fluxon_kv::key_table::KeyTable;
use fluxon_kv::msg_pack::{DeleteAckItem, GetAllocationMode};
use fluxon_kv::name_set::NameSet;
use fluxon_kv::observe::{
    allocation_mode_label, runtime_observe_snapshot, NodeCacheUsage, PlacementCounters,
    PutPlacementMode, Tier1Usage, Tier1Writeback,
};
use fluxon_kv::ranking::rank;
use fluxon_kv::reclaim::{
    batch_retry_delay, deduplicate_requests, settle_requests, EvictionReclaimRequest,
};
use fluxon_kv::route_maintenance::{
    admit_batch, incoming_keys, prefix_insertions, RoutePublishEvent, RoutePublishKind,
};
use fluxon_kv::router::{MasterKvRouter, PreparedPutKeyReservationInfo, RouterSettings};
use fluxon_kv::routes::{
    Allocation, KvReplicaBacking, KvRouteInfo, NodeTombTag, NodeValueReplicaDesc, OneKvNodesRoutes,
};
use fluxon_kv::ssd_block_index::{CacheSource, FoyerKvSsdStorage};
use fluxon_kv::ssd_ring::KvSsdKey;
use fluxon_kv::tiered_routes::{KvNodeReplicas, KvSsdReplicaInfo, TieredKvRoutes};

fn name(s: &str) -> String {
    s.to_string()
}

fn memory(id: u64) -> Allocation {
    Allocation {
        id,
        base_addr: 4096,
        addr: 512,
        size: 100,
        capacity: 128,
    }
}

fn desc(put_id: (u64, u32), weight_bytes: u32) -> NodeValueReplicaDesc {
    NodeValueReplicaDesc {
        weight_bytes,
        put_id,
    }
}

fn route(put_id: (u64, u32), nodes: &[(&str, bool)]) -> OneKvNodesRoutes {
    let mut route = OneKvNodesRoutes::new(put_id, None);
    for (node, tomb) in nodes {
        route.nodes_replicas.insert(
            name(node),
            KvRouteInfo {
                node_id: name(node),
                backing: KvReplicaBacking::Allocation(memory(1)),
                owner_local_indexed: true,
                tomb_tag: NodeTombTag { tomb: *tomb },
            },
        );
    }
    route
}

#[test]
fn memory_is_kept_back_and_given_back() {
    let reason = ReservedCapacityReason::LeaseBoundKv;
    let mut reserved = NodeCacheReservedCapacity::new();
    assert_eq!(
        adjust_node_cache_reserved_capacity(&mut reserved, false, 1000, 500, true, reason, 100),
        Ok(AdjustStep::Disabled)
    );
    assert_eq!(reserved.total_reserved_bytes(), 0);
    assert_eq!(
        adjust_node_cache_reserved_capacity(&mut reserved, true, 0, 500, true, reason, 100),
        Err(AdjustError::NoSegment)
    );
    assert_eq!(
        adjust_node_cache_reserved_capacity(&mut reserved, true, 1000, 500, false, reason, 100),
        Err(AdjustError::NoCache)
    );
    assert_eq!(reserved.total_reserved_bytes(), 0);
    assert_eq!(
        adjust_node_cache_reserved_capacity(&mut reserved, true, 1000, 500, true, reason, 100),
        Ok(AdjustStep::Resize { capacity: 400 })
    );
    assert_eq!(reserved.total_reserved_bytes(), 100);
    assert_eq!(
        capacity_refused(&mut reserved, reason, 100),
        AdjustError::CapacityRefused
    );
    assert_eq!(reserved, NodeCacheReservedCapacity::new());
}

#[test]
fn weights_are_computed_without_wrapping() {
    assert_eq!(effective_capacity(100, 30), 70);
    assert_eq!(effective_capacity(30, 100), 0);
    assert_eq!(tier1_capacity(Some(50), 70), 50);
    assert_eq!(tier1_capacity(Some(90), 70), 70);
    assert_eq!(projected_weight(u64::MAX, 0, 1), u64::MAX);
    assert_eq!(requested_weight(110, 100), 10);
    assert_eq!(requested_weight(90, 100), 0);
    assert_eq!(fallback_weight(10, 4, true), 6);
    assert_eq!(fallback_weight(10, 4, false), 0);
}

#[test]
fn only_sole_copies_are_written_back() {
    let mut routes = KeyTable::new();
    routes.insert(name("sole"), route((1, 0), &[("n", false), ("m", true)]));
    routes.insert(name("copied"), route((1, 0), &[("n", false), ("m", false)]));
    let current = |copying, key: &str| {
        tier1_writeback_entry_is_current(&routes, copying, &name("n"), key, &desc((1, 0), 1))
    };
    assert!(current(false, "sole"));
    assert!(!current(true, "sole"));
    assert!(!current(false, "copied"));
    assert!(!current(false, "missing"));
}

#[test]
fn a_copy_that_left_a_cache_leaves_its_route() {
    let mut route = TieredKvRoutes::new(1, (1, 0), None);
    route.node_replicas.insert(
        name("n"),
        KvNodeReplicas {
            tomb_tag: NodeTombTag::new(),
            generation: 1,
            memory: Some(memory(1)),
            ssd: Some(KvSsdReplicaInfo { len: 100 }),
        },
    );
    let mut routes = KeyTable::new();
    routes.insert(name("k"), route);
    let evict = |routes: &mut KeyTable<TieredKvRoutes>, put_id| {
        evict_one_kv_replica_for_node(routes, &name("k"), &name("n"), put_id, true)
    };
    let stale = evict(&mut routes, (2, 0));
    assert!(!stale.removal.replica_removed && stale.notice.is_none());
    let evicted = evict(&mut routes, (1, 0));
    assert!(evicted.removal.replica_removed);
    assert!(!evicted.removal.route_removed && !evicted.forget_prefix);
    let told = evicted.notice.unwrap().delete_items;
    assert_eq!(told.len(), 1);
    assert_eq!(told[0].key, "k");
    assert_eq!((told[0].put_time_ms, told[0].put_version), (1, 0));
    let again = evict(&mut routes, (1, 0));
    assert!(!again.removal.replica_removed && again.notice.is_none());

    routes.insert(name("k"), tiered_route((3, 0), "n"));
    let last = evict(&mut routes, (3, 0));
    assert!(last.removal.route_removed && last.forget_prefix);
    assert!(last.notice.is_some());
    assert!(routes.get("k").is_none());
}

/// A route with one copy, in memory.
fn tiered_route(put_id: (u64, u32), node: &str) -> TieredKvRoutes {
    let mut route = TieredKvRoutes::new(2, put_id, None);
    route.insert_memory_replica(name(node), 1, memory(2), NodeTombTag::new());
    route
}

#[test]
fn tombs_leave_the_route_of_their_version() {
    let mut route = route((1, 0), &[("a", true), ("b", false)]);
    let mut tombs = NameSet::new();
    tombs.insert(name("a"));
    assert!(!route.clean_up_tomb_nodes_replicas((2, 0), &tombs));
    assert!(route.nodes_replicas.get(&name("a")).is_some());
    assert!(route.clean_up_tomb_nodes_replicas((1, 0), &tombs));
    assert!(route.nodes_replicas.get(&name("a")).is_none());
    assert!(route.nodes_replicas.get(&name("b")).is_some());
}

#[test]
fn published_keys_enter_the_index_of_prefixes() {
    let mut routes = KeyTable::new();
    routes.insert(name("a"), route((1, 0), &[("n", false)]));
    routes.insert(name("b"), route((1, 0), &[("n", true)]));
    let event = |key: &str, put_id| {
        RoutePublishEvent::primary_put(name(key), put_id, None, name("n"), 4096)
    };
    let append = RoutePublishEvent::replica_append(name("a"), (1, 0), None, name("n"), 4096);
    assert_eq!(append.kind, RoutePublishKind::ReplicaAppend);
    let events = vec![
        event("a", (1, 0)),
        event("a", (0, 0)),
        event("b", (1, 0)),
        append,
    ];
    assert_eq!(prefix_insertions(&events, &routes), vec![0]);
}

#[test]
fn a_batch_asks_for_the_room_it_needs() {
    let entries = vec![
        (name("a"), desc((1, 0), 40)),
        (name("b"), desc((1, 0), 30)),
    ];
    let admission = admit_batch(&entries, &vec![Some(10), None], 100, 120);
    assert_eq!(admission.projected_weight, 160);
    assert_eq!(admission.requested_weight, 40);
    let incoming = incoming_keys(&entries);
    assert!(incoming.contains(&name("a")));
    assert!(!incoming.contains(&name("c")));
}

#[test]
fn batches_of_requests_are_settled() {
    let mut routes = KeyTable::new();
    routes.insert(name("a"), route((1, 0), &[("n", false)]));
    let request = |key: &str, retry_count| EvictionReclaimRequest {
        owner_node_id: name("n"),
        key: name(key),
        desc: desc((1, 0), 10),
        retry_count,
    };
    let requests = vec![request("a", 0), request("gone", 2), request("a", 1)];
    let (places, repeated) = deduplicate_requests(&requests);
    assert_eq!(places, vec![0, 1]);
    assert_eq!(repeated, 10);
    let mut counters = EvictionReclaimCounters::new();
    let (retry, completed) = settle_requests(&requests, &places, repeated, &routes, &mut counters);
    assert_eq!(retry, vec![0]);
    assert_eq!(completed, 20);
    assert_eq!(counters.route_changed, 1);
    assert_eq!(counters.retry_completed, 1);
    assert_eq!(batch_retry_delay(&requests), 200);
    assert_eq!(batch_retry_delay(&Vec::new()), 100);
}

#[test]
fn gets_are_counted_by_source() {
    let mut counters = PlacementCounters::new();
    counters.record_replica_task_target("n");
    counters.record_get_source_selection("r", "s", 100, GetAllocationMode::ReuseReplica);
    assert_eq!(counters.put_target_count("n"), 0);
    assert_eq!(
        allocation_mode_label(GetAllocationMode::ReuseReplica),
        "reuse_replica"
    );
    assert_eq!(
        allocation_mode_label(GetAllocationMode::Temporary),
        "temporary"
    );
    assert_eq!(
        allocation_mode_label(GetAllocationMode::DurableReplica),
        "durable_replica"
    );
}

#[test]
fn the_state_is_reported() {
    let mut counters = EvictionReclaimCounters::new();
    counters.completed = 3;
    let snapshot = runtime_observe_snapshot(
        &vec![100, u64::MAX],
        &vec![NodeCacheUsage {
            owner_node: name("n"),
            entries: 2,
            weighted_bytes: 50,
            base_capacity_bytes: 100,
            reserved_capacity_bytes: 40,
            pending_eviction_reclaim_bytes: 7,
            tier1: Some(Tier1Usage {
                entries: 1,
                weighted_bytes: 10,
                max_capacity: Some(20),
            }),
            writeback: Tier1Writeback {
                triggered: 4,
                owner_accepted: 5,
                failed: 6,
            },
            counters,
        }],
    );
    assert_eq!(snapshot.get_holding_entries, 2);
    assert_eq!(snapshot.get_holding_bytes, u64::MAX);
    let node = &snapshot.replica_cache_nodes[0];
    assert_eq!(node.effective_capacity_bytes, 60);
    assert_eq!(node.writeback_tier1_capacity_bytes, 20);
    assert_eq!(node.writeback_tier1_failed, 6);
    assert_eq!(node.reclaim_completed, 3);
}

#[test]
fn keys_are_set_aside_once() {
    let mut router = MasterKvRouter::new(RouterSettings {
        disable_master_replica_cache: true,
        disable_prefix_index: false,
        tier1_configured: true,
        skip_put_end_commit: false,
    });
    assert!(!router.tiered_writeback_enabled());
    assert_eq!(router.inflight_put_ttl_seconds(), 60);
    let mut activity = MasterKeyActivityTable::new();
    let routes: KeyTable<OneKvNodesRoutes> = KeyTable::new();
    let lease = reserve_inflight_put_key(&routes, &mut activity, &name("k"), false, false)
        .unwrap_or_else(|_| panic!("nothing is in the way"));
    router.install_prepared_put_key_reservation(
        1,
        PreparedPutKeyReservationInfo {
            owner_node_id: name("o"),
            key: name("k"),
            activity_lease: lease,
        },
    );
    let mut info = router.take_prepared_put_key_reservation(1).unwrap();
    assert_eq!(info.key, "k");
    assert!(router.take_prepared_put_key_reservation(1).is_none());
    info.activity_lease.release_now(&mut activity);
    assert!(activity.is_quiescent(&name("k")));
}

#[test]
fn the_block_cache_counts_where_values_come_from() {
    let key = KvSsdKey {
        key: name("k"),
        put_id: (1, 0),
    };
    let mut index = FoyerKvSsdStorage::new(name("a"), 128 * 1024 * 1024).unwrap();
    index.persisted(key.clone(), 100);
    assert!(index
        .load_entry(&key, Some((100, CacheSource::Disk)), 100)
        .is_ok());
    assert!(index
        .load_entry(&key, Some((99, CacheSource::Memory)), 100)
        .is_err());
    assert_eq!(index.source_counts(), (1, 1, 0));
    assert!(index.load_entry(&key, None, 100).is_err());
    assert_eq!(index.logical_used_bytes(), 0);
}

#[test]
fn held_values_are_let_go() {
    let mut gets = GetTable::new();
    assert!(!gets.delete_ack(&name("n"), 0));
    let acks = vec![DeleteAckItem {
        key: name("k"),
        client_id: name("n"),
        holder_id: 0,
    }];
    assert_eq!(gets.batch_delete_ack(&acks), 0);
    assert_eq!(gets.cleanup_node(&name("n")), 0);
    assert!(gets.held_keys().is_empty());
    gets.forget_completed(0);
}

#[test]
fn reports_put_the_largest_counter_first() {
    let mut counters = PlacementCounters::new();
    for (requester, target) in [("r", "b"), ("r", "a"), ("q", "c"), ("r", "c"), ("r", "ab")] {
        counters.record_put_placement_decision(requester, target, PutPlacementMode::Remote);
    }
    counters.record_put_placement_decision("c", "c", PutPlacementMode::Local);
    counters.record_get_source_selection("r", "a", 7, GetAllocationMode::Temporary);
    counters.record_get_source_selection("r", "b", 9, GetAllocationMode::Temporary);
    counters.record_replica_task_target("a");
    let report = counters.report();
    let row = |name: &str, count: u64| (name.to_string(), count);
    assert_eq!(
        report.put_target,
        vec![row("c", 3), row("a", 1), row("ab", 1), row("b", 1)]
    );
    assert_eq!(report.put_mode, vec![row("remote", 5), row("local", 1)]);
    assert_eq!(
        report.put_requester_target,
        vec![
            row("c->c", 1),
            row("q->c", 1),
            row("r->a", 1),
            row("r->ab", 1),
            row("r->b", 1),
            row("r->c", 1)
        ]
    );
    assert_eq!(
        report.get_requester_source_bytes,
        vec![row("r->b", 9), row("r->a", 7)]
    );
    assert_eq!(report.get_allocation_mode, vec![row("temporary", 2)]);
    assert_eq!(report.replica_task_target, vec![row("a", 1)]);
    assert!(PlacementCounters::new().report().put_target.is_empty());
    assert_eq!(
        rank(vec![row("é", 1), row("z", 1), row("", 1), row("a", u64::MAX)]),
        vec![row("a", u64::MAX), row("", 1), row("z", 1), row("é", 1)]
    );
}
