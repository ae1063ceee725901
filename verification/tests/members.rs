use fluxon_kv::assoc::AssocMap;
use fluxon_kv::binded_state::MemberLifecycleBindedStateCtrl;
use fluxon_kv::cluster::{ClusterMember, NodeRole};
use fluxon_kv::delete::remove_ssd_replica_if_version;
use fluxon_kv::get_alloc::SegmentUsage;
use fluxon_kv::inflight_puts::{InflightPutInfo, MemberInflightPutIndex};
use fluxon_kv::key_activity::{MasterKeyActivityKind, MasterKeyActivityTable};
use fluxon_kv::key_table::KeyTable;
use fluxon_kv::member_apply::{apply_absent, apply_present, OtherCleanup};
use fluxon_kv::member_lifecycle::{MemberReplicaIndex, ReplicaIndexKey};
use fluxon_kv::member_transitions::{MemberCleanupStats, MemberTransition, ObservedMembers};
use fluxon_kv::placement::PutPlacementTarget;
use fluxon_kv::put_start::{OwnerMetaKeys, PutOrigin, RecentVersions};
use fluxon_kv::put_table::{PutRequest, PutTable};
use fluxon_kv::routes::{Allocation, NodeTombTag};
use fluxon_kv::tombs::mark_node_tomb;
use fluxon_kv::tiered_routes::{KvNodeReplicas, KvSsdReplicaInfo, TieredKvRoutes};

fn test_inflight_put(
    info_id: u64,
    requester: (&str, i64),
    source: (&str, i64),
    target: (&str, i64),
) -> InflightPutInfo {
    InflightPutInfo {
        info_id,
        target_node_id: target.0.to_string(),
        source_node_id: source.0.to_string(),
        key: "key-a".to_string(),
        req_node_id: requester.0.to_string(),
        target_generation: target.1,
        source_generation: source.1,
        requester_generation: requester.1,
        len: 512,
        persist_to_ssd: false,
        allocation: None,
    }
}

fn put_key(key: &str, put_id: (u64, u32)) -> ReplicaIndexKey {
    ReplicaIndexKey {
        key: key.to_string(),
        put_id,
    }
}

fn memory(id: u64) -> Allocation {
    Allocation {
        id,
        base_addr: 4096,
        addr: id * 512,
        size: 512,
        capacity: 512,
    }
}

#[test]
fn absent_generation_drains_replicas_and_rejects_late_admission() {
    let mut index = MemberReplicaIndex::new();
    let route = TieredKvRoutes::new(1, (10, 1), None);

    assert!(index.register_if_active("owner-a", 7, "key-a", &route));
    let removed = index.mark_absent("owner-a", 7);
    assert_eq!(removed.len(), 1);
    assert!(!index.register_if_active("owner-a", 7, "late-key", &route));
}

#[test]
fn stale_absence_cannot_drain_new_generation() {
    let mut index = MemberReplicaIndex::new();
    let old_route = TieredKvRoutes::new(1, (10, 1), None);
    let new_route = TieredKvRoutes::new(2, (11, 0), None);

    assert!(index.register_if_active("owner-a", 7, "old-key", &old_route));
    assert_eq!(index.observe_present("owner-a", 8).len(), 1);
    assert!(index.register_if_active("owner-a", 8, "new-key", &new_route));
    assert!(index.mark_absent("owner-a", 7).is_empty());
    assert!(index.contains_current("owner-a", 8, "new-key", &new_route));
}

#[test]
fn inflight_put_departure_rejects_late_admission() {
    let mut index = MemberInflightPutIndex::new();
    let key = put_key("key-a", (10, 0));
    let info = test_inflight_put(1, ("requester", 1), ("source", 2), ("target", 3));

    assert!(index.register_if_active(&key, &info));
    let removed = index.mark_absent("source", 2);
    assert_eq!(removed.len(), 1);
    let late_key = put_key("late-key", (11, 0));
    let late = test_inflight_put(2, ("requester", 1), ("source", 2), ("target", 3));
    assert!(!index.register_if_active(&late_key, &late));
}

#[test]
fn stale_absence_cannot_drain_new_inflight_put_generation() {
    let mut index = MemberInflightPutIndex::new();
    let old_key = put_key("old-key", (10, 0));
    let old = test_inflight_put(1, ("requester", 1), ("source", 2), ("target", 3));
    assert!(index.register_if_active(&old_key, &old));
    assert_eq!(index.observe_present("source", 4).len(), 1);

    let new_key = put_key("new-key", (11, 0));
    let new = test_inflight_put(2, ("requester", 1), ("source", 4), ("target", 3));
    assert!(index.register_if_active(&new_key, &new));
    assert!(index.mark_absent("source", 2).is_empty());
    assert!(index.contains_current(&new_key, &new));
}

#[test]
fn ssd_replica_cleanup_is_scoped_to_put_id() {
    let mut route = TieredKvRoutes::new(1, (10, 2), None);
    let node_id = "owner-a".to_string();
    route.node_replicas.insert(
        node_id.clone(),
        KvNodeReplicas {
            tomb_tag: NodeTombTag::new(),
            generation: 1,
            memory: None,
            ssd: Some(KvSsdReplicaInfo { len: 4096 }),
        },
    );

    assert!(!remove_ssd_replica_if_version(&mut route, &node_id, (9, 7)));
    assert!(route
        .node_replicas
        .get(&node_id)
        .is_some_and(|replicas| replicas.ssd.is_some()));

    assert!(remove_ssd_replica_if_version(&mut route, &node_id, (10, 2)));
    assert!(route.node_replicas.get(&node_id).is_none());
}

#[test]
fn a_refused_put_is_bound_to_nobody() {
    let mut index = MemberInflightPutIndex::new();
    assert!(index.mark_absent("target", 3).is_empty());
    let key = put_key("key-a", (10, 0));
    let info = test_inflight_put(1, ("requester", 1), ("source", 2), ("target", 3));
    assert!(!index.register_if_active(&key, &info));
    assert!(!index.contains_current(&key, &info));
    assert!(index.mark_absent("requester", 1).is_empty());
    assert!(index.mark_absent("source", 2).is_empty());
}

#[test]
fn a_node_takes_part_once() {
    let info = test_inflight_put(1, ("a", 1), ("a", 1), ("b", 2));
    let participants = info.participants();
    assert_eq!(participants.len(), 2);
    assert_eq!(participants[0].member_id, "a");
    assert_eq!(participants[1].member_id, "b");
    assert_eq!(participants[1].generation, 2);
}

#[test]
fn publishing_needs_the_current_generation() {
    let mut ctrl = MemberLifecycleBindedStateCtrl::new();
    let mut route = TieredKvRoutes::new(1, (10, 0), None);
    let node = "owner-a".to_string();
    assert!(ctrl.publish_memory_replica(&node, 7, "k", &mut route, memory(1), NodeTombTag::new()));
    assert!(route.has_memory_replica_allocation(&node, 7, &memory(1)));
    assert!(!ctrl.publish_memory_replica(&node, 8, "k", &mut route, memory(2), NodeTombTag::new()));
    assert!(route.has_memory_replica_allocation(&node, 7, &memory(1)));
    let mut gone = NodeTombTag::new();
    gone.set_tomb();
    assert!(!ctrl.publish_memory_replica(&node, 7, "k", &mut route, memory(2), gone));
}

#[test]
fn departure_between_the_halves_of_publishing_takes_the_copy_back() {
    let mut ctrl = MemberLifecycleBindedStateCtrl::new();
    let mut route = TieredKvRoutes::new(1, (10, 0), None);
    let node = "owner-a".to_string();
    assert!(ctrl.begin_publish(&node, 7, "k", &mut route, memory(1), NodeTombTag::new()));
    assert_eq!(ctrl.mark_absent("owner-a", 7).replicas.len(), 1);
    assert!(!ctrl.confirm_publish(&node, 7, "k", &mut route, &memory(1)));
    assert!(route.node_replicas.get(&node).is_none());
}

/// A put by a requester that has its bytes on another node and leaves them there.
fn put_from(
    puts: &mut PutTable,
    activity: &mut MasterKeyActivityTable,
    ctrl: &mut MemberLifecycleBindedStateCtrl,
    key: &str,
    source: (&str, i64),
) -> ReplicaIndexKey {
    let owner = member(source.0, source.1, NodeRole::Client);
    let mut requester = member("requester", 1, NodeRole::Client);
    for (k, v) in [
        ("side_transfer_worker", "true".to_string()),
        ("owner", source.0.to_string()),
        ("owner_start", source.1.to_string()),
        ("ipc", "/run".to_string()),
    ] {
        requester.metadata.insert(k.to_string(), v);
    }
    let mut source_member = owner;
    source_member
        .metadata
        .insert("ipc".to_string(), "/run".to_string());
    let (mut put, _) = puts
        .handle_put_start(
            activity,
            &KeyTable::new(),
            &mut RecentVersions::new(),
            &PutOrigin {
                req_node_id: &"requester".to_string(),
                requester: Some(&requester),
                source_node_id: &source.0.to_string(),
                source: Some(&source_member),
            },
            &OwnerMetaKeys {
                owner_id: "owner".to_string(),
                owner_start_time: "owner_start".to_string(),
                local_ipc_root: "ipc".to_string(),
            },
            &PutRequest {
                key: key.to_string(),
                len: 512,
                reject_if_inflight_same_key: true,
                reject_if_exists: true,
            },
            1,
            12,
        )
        .unwrap();
    let usage = SegmentUsage {
        device_id: "seg".to_string(),
        total: 1000,
        used: 0,
    };
    puts.source_tried(activity, &mut put, Some(memory(9)), &usage);
    let id = put_key(key, put.put_id);
    puts.insert_inflight_put(
        activity,
        ctrl,
        put,
        PutPlacementTarget::Local {
            node_id: source.0.to_string(),
            persist_to_ssd: false,
        },
        None,
    )
    .unwrap();
    id
}

const NOTHING_ELSE: OtherCleanup = OtherCleanup {
    inflight_gets_released: 0,
    inflight_gets_deferred: 0,
    holdings_removed: 0,
    cache_removed: false,
    reservation_state_removed: false,
};

#[test]
fn a_route_that_goes_is_bound_to_no_node() {
    let mut ctrl = MemberLifecycleBindedStateCtrl::new();
    let mut routes = KeyTable::new();
    let mut puts = PutTable::new();
    let mut activity = MasterKeyActivityTable::new();
    let (a, b) = ("owner-a".to_string(), "owner-b".to_string());
    let mut route = TieredKvRoutes::new(1, (10, 0), None);
    assert!(ctrl.publish_memory_replica(&a, 7, "k", &mut route, memory(1), NodeTombTag::new()));
    assert!(ctrl.publish_memory_replica(&b, 3, "k", &mut route, memory(2), NodeTombTag::new()));
    routes.insert("k".to_string(), route);
    // The other node is gone too, but its departure has not been dealt with yet.
    mark_node_tomb(&mut routes, &b);
    let gone = apply_absent(
        &mut ctrl,
        &mut routes,
        &mut puts,
        &mut activity,
        &a,
        7,
        NOTHING_ELSE,
    );
    assert_eq!(gone.removed_route_keys, vec!["k".to_string()]);
    assert!(ctrl.mark_absent("owner-b", 3).replicas.is_empty());
}

#[test]
fn departure_ends_puts_and_drops_copies() {
    let mut ctrl = MemberLifecycleBindedStateCtrl::new();
    let mut routes = KeyTable::new();
    let mut puts = PutTable::new();
    let mut activity = MasterKeyActivityTable::new();
    let owner = "owner-a".to_string();
    let other = "owner-b".to_string();

    let mut route = TieredKvRoutes::new(1, (10, 0), None);
    assert!(ctrl.publish_memory_replica(&owner, 7, "k", &mut route, memory(1), NodeTombTag::new()));
    assert!(ctrl.publish_memory_replica(&other, 3, "k", &mut route, memory(2), NodeTombTag::new()));
    routes.insert("k".to_string(), route);
    let mut sole = TieredKvRoutes::new(2, (11, 0), None);
    assert!(ctrl.publish_memory_replica(&owner, 7, "l", &mut sole, memory(3), NodeTombTag::new()));
    routes.insert("l".to_string(), sole);
    let m = put_from(&mut puts, &mut activity, &mut ctrl, "m", ("owner-a", 7));
    let n = put_from(&mut puts, &mut activity, &mut ctrl, "n", ("owner-b", 3));
    let held = |activity: &MasterKeyActivityTable, key: &str| {
        activity.count(&key.to_string(), MasterKeyActivityKind::Put)
    };

    let stale = apply_absent(&mut ctrl, &mut routes, &mut puts, &mut activity, &owner, 6, NOTHING_ELSE);
    assert_eq!(stale.stats.replicas_removed, 0);
    assert_eq!(stale.stats.inflight_puts_removed, 0);

    let elsewhere = OtherCleanup {
        inflight_gets_released: 2,
        inflight_gets_deferred: 1,
        holdings_removed: 3,
        cache_removed: true,
        reservation_state_removed: true,
    };
    let gone = apply_absent(
        &mut ctrl,
        &mut routes,
        &mut puts,
        &mut activity,
        &owner,
        7,
        elsewhere,
    );
    assert_eq!(
        gone.stats,
        MemberCleanupStats {
            inflight_puts_removed: 1,
            inflight_gets_released: 2,
            inflight_gets_deferred: 1,
            holdings_removed: 3,
            replicas_removed: 2,
            routes_removed: 1,
            cache_removed: true,
            reservation_state_removed: true,
        }
    );
    assert_eq!(gone.removed_route_keys, vec!["l".to_string()]);
    assert!(!puts.is_under_way(&activity, &m));
    assert!(puts.is_under_way(&activity, &n));
    assert_eq!((held(&activity, "m"), held(&activity, "n")), (0, 1));
    assert!(routes.get("l").is_none());
    let left = routes.get("k").unwrap();
    assert!(left.node_replicas.get(&owner).is_none());
    assert!(left.has_memory_replica_allocation(&other, 3, &memory(2)));

    let restarted = apply_present(&mut ctrl, &mut routes, &mut puts, &mut activity, &other, 4, NOTHING_ELSE);
    assert_eq!(restarted.stats.inflight_puts_removed, 1);
    assert!(!puts.is_under_way(&activity, &n));
    assert_eq!(held(&activity, "n"), 0);
    assert_eq!(restarted.stats.replicas_removed, 1);
    assert_eq!(restarted.removed_route_keys, vec!["k".to_string()]);
}

fn member(id: &str, start: i64, role: NodeRole) -> ClusterMember {
    ClusterMember {
        id: id.to_string(),
        node_start_time: start,
        metadata: AssocMap::new(),
        sub_cluster: None,
        role,
        has_kv_ssd_storage: false,
    }
}

fn describe(news: &[MemberTransition]) -> Vec<String> {
    news.iter()
        .map(|n| match n {
            MemberTransition::Present(m) => format!("+{}@{}", m.id, m.node_start_time),
            MemberTransition::Absent {
                node_id,
                generation,
            } => format!("-{node_id}@{generation}"),
        })
        .collect()
}

#[test]
fn news_come_in_order() {
    let mut observed = ObservedMembers::new();
    let client = NodeRole::Client;
    let news = observed.dispatch_present(member("a", 1, client));
    assert_eq!(describe(&news), vec!["+a@1"]);
    assert_eq!(news[0].node_id(), "a");
    let news = observed.dispatch_present(member("a", 1, client));
    assert!(news.is_empty());
    let news = observed.dispatch_present(member("a", 2, client));
    assert_eq!(describe(&news), vec!["-a@1", "+a@2"]);
    let mut updated = member("a", 2, client);
    updated
        .metadata
        .insert("client".to_string(), "true".to_string());
    let news = observed.dispatch_present(updated);
    assert_eq!(describe(&news), vec!["+a@2"]);
}

#[test]
fn members_that_are_no_clients_are_no_news() {
    let mut observed = ObservedMembers::new();
    assert!(observed
        .member_changed(Some(member("m", 1, NodeRole::Other)))
        .is_empty());
    assert!(observed.member_changed(None).is_empty());
    let news = observed.member_changed(Some(member("a", 1, NodeRole::Client)));
    assert_eq!(describe(&news), vec!["+a@1"]);
}

#[test]
fn leaving_is_reported_for_the_generation_last_seen() {
    let mut observed = ObservedMembers::new();
    observed.dispatch_present(member("a", 5, NodeRole::Client));
    let a = "a".to_string();
    let news = observed.member_left(&a, None, Some(4));
    assert_eq!(describe(&news), vec!["-a@5"]);
    let news = observed.member_left(&a, None, Some(4));
    assert_eq!(describe(&news), vec!["-a@4"]);
    assert!(observed.member_left(&a, None, None).is_empty());
    let news = observed.member_left(&a, Some(member("a", 6, NodeRole::Client)), Some(5));
    assert_eq!(describe(&news), vec!["+a@6"]);
}

#[test]
fn a_snapshot_reports_what_changed() {
    let mut observed = ObservedMembers::new();
    let client = NodeRole::Client;
    for m in [
        member("gone", 1, client),
        member("same", 1, client),
        member("back", 1, client),
    ] {
        observed.dispatch_present(m);
    }
    let current = vec![
        member("same", 1, client),
        member("back", 2, client),
        member("new", 1, client),
    ];
    let news = describe(&observed.reconcile_snapshot(&current));
    assert_eq!(news[0], "-gone@1");
    let mut rest = news[1..].to_vec();
    let at = rest.iter().position(|n| n == "-back@1").unwrap();
    assert_eq!(rest[at + 1], "+back@2");
    rest.sort();
    assert_eq!(rest, vec!["+back@2", "+new@1", "-back@1"]);
    assert!(observed.reconcile_snapshot(&current).is_empty());
}
