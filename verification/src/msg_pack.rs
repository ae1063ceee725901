//! The messages that clients, owners and the master exchange.
use std::collections::HashMap;
use vstd::prelude::*;

use crate::ids::{ErrorCode, NodeIDString, PutIDForAKey};

verus! {

/// Where the bytes of a get are kept once it is done.
#[derive(Clone, Copy, Debug, PartialEq, Eq, Structural)]
pub enum GetAllocationMode {
    /// In memory that goes when the reader is done.
    Temporary,
    /// In a copy that the reader's node had already.
    ReuseReplica,
    /// In memory that stays as a further copy.
    DurableReplica,
}

/// Asks where a value can be read.
#[derive(Debug)]
pub struct GetStartReq {
    pub key: String,
}

/// Where a value lies and where it is to be copied to.
#[derive(Debug)]
pub struct GetStartResp {
    pub get_id: u64,
    pub node_id: NodeIDString,
    pub put_id: PutIDForAKey,
    pub target_addr: u64,
    pub src_addr: u64,
    pub target_base_addr: u64,
    pub src_base_addr: u64,
    pub len: u64,
    pub error_code: ErrorCode,
    pub error_json: String,
    /// Server-side processing time in microseconds for this RPC handler
    pub server_process_us: i64,
}

/// Gives a get up.
#[derive(Debug)]
pub struct GetRevokeReq {
    pub get_id: u64,
}

/// Answers a [`GetRevokeReq`].
#[derive(Debug)]
pub struct GetRevokeResp {
    pub error_code: ErrorCode,
    pub error_json: String,
}

/// Tells that the bytes of a get have arrived.
#[derive(Debug)]
pub struct GetDoneReq {
    pub get_id: u64,
}

/// Names the holder that keeps the bytes.
#[derive(Debug)]
pub struct GetDoneResp {
    pub holder_id: u64,
    pub allocation_mode: GetAllocationMode,
    pub error_code: ErrorCode,
    pub error_json: String,
    /// Server-side processing time in microseconds for this RPC handler
    pub server_process_us: i64,
}

/// Several [`GetStartReq`] at once.
#[derive(Debug)]
pub struct BatchGetStartReq {
    pub keys: Vec<String>,
}

/// The answer for one key of a [`BatchGetStartReq`].
#[derive(Debug)]
pub struct BatchGetStartItemResp {
    pub get_id: u64,
    pub node_id: NodeIDString,
    pub put_id: PutIDForAKey,
    pub target_addr: u64,
    pub src_addr: u64,
    pub target_base_addr: u64,
    pub src_base_addr: u64,
    pub len: u64,
    pub error_code: ErrorCode,
    pub error_json: String,
}

/// Answers a [`BatchGetStartReq`], key by key.
#[derive(Debug)]
pub struct BatchGetStartResp {
    pub items: Vec<BatchGetStartItemResp>,
    pub error_code: ErrorCode,
    pub error_json: String,
    pub server_process_us: i64,
}

/// Several [`GetRevokeReq`] at once.
#[derive(Debug)]
pub struct BatchGetRevokeReq {
    pub get_ids: Vec<u64>,
}

/// The answer for one get of a [`BatchGetRevokeReq`].
#[derive(Debug)]
pub struct BatchGetRevokeItemResp {
    pub get_id: u64,
    pub error_code: ErrorCode,
    pub error_json: String,
}

/// Answers a [`BatchGetRevokeReq`], get by get.
#[derive(Debug)]
pub struct BatchGetRevokeResp {
    pub items: Vec<BatchGetRevokeItemResp>,
    pub error_code: ErrorCode,
    pub error_json: String,
}

/// Several [`GetDoneReq`] at once.
#[derive(Debug)]
pub struct BatchGetDoneReq {
    pub get_ids: Vec<u64>,
}

/// The answer for one get of a [`BatchGetDoneReq`].
#[derive(Debug)]
pub struct BatchGetDoneItemResp {
    pub get_id: u64,
    pub holder_id: u64,
    pub allocation_mode: GetAllocationMode,
    pub error_code: ErrorCode,
    pub error_json: String,
}

/// Answers a [`BatchGetDoneReq`], get by get.
#[derive(Debug)]
pub struct BatchGetDoneResp {
    pub items: Vec<BatchGetDoneItemResp>,
    pub error_code: ErrorCode,
    pub error_json: String,
    pub server_process_us: i64,
}

/// Asks how many keys begin with a prefix.
#[derive(Debug)]
pub struct CountPrefixReq {
    pub prefix: String,
}

/// The number of keys.
#[derive(Debug)]
pub struct CountPrefixResp {
    pub count: u64,
    pub error_code: ErrorCode,
    pub error_json: String,
}

/// Asks for a metric that only the master knows.
#[derive(Debug)]
pub struct GetMasterOnlyMetricPartReq {
    pub part: String,
}

/// A metric that only the master knows.
#[derive(Debug)]
pub struct GetMasterOnlyMetricPartResp {
    pub seg_bytes_map: HashMap<String, (u64, u64)>,
    pub error_code: ErrorCode,
    pub error_json: String,
}

/// Asks for memory that the owner hands out by itself.
#[derive(Debug)]
pub struct ReserveLocalGrantReq;

/// The memory that was granted.
#[derive(Debug)]
pub struct ReserveLocalGrantResp {
    pub grant_id: u64,
    pub node_id: NodeIDString,
    pub addr: u64,
    pub base_addr: u64,
    pub len: u64,
    pub error_code: ErrorCode,
    pub error_json: String,
    pub server_process_us: i64,
}

/// Gives granted memory back.
#[derive(Debug)]
pub struct ReleaseLocalGrantReq {
    pub grant_id: u64,
}

/// Answers a [`ReleaseLocalGrantReq`].
#[derive(Debug)]
pub struct ReleaseLocalGrantResp {
    pub error_code: ErrorCode,
    pub error_json: String,
    pub server_process_us: i64,
}

/// A key that is about to be put.
#[derive(Debug)]
pub struct BatchPreparePutKeyItemReq {
    pub key: String,
    pub reject_if_inflight_same_key: bool,
    pub reject_if_exist_same_key: bool,
}

/// Reserves keys that are about to be put.
#[derive(Debug)]
pub struct BatchPreparePutKeysReq {
    pub items: Vec<BatchPreparePutKeyItemReq>,
}

/// The reservations, key by key.
#[derive(Debug)]
pub struct BatchPreparePutKeysResp {
    pub reservation_ids: Vec<u64>,
    pub error_code: ErrorCode,
    pub error_json: String,
    pub server_process_us: i64,
}

/// Gives reservations back.
#[derive(Debug)]
pub struct BatchReleasePutKeyReservationsReq {
    pub reservation_ids: Vec<u64>,
}

/// Answers a [`BatchReleasePutKeyReservationsReq`].
#[derive(Debug)]
pub struct BatchReleasePutKeyReservationsResp {
    pub error_code: ErrorCode,
    pub error_json: String,
    pub server_process_us: i64,
}

/// Asks for memory to put a value into.
#[derive(Debug)]
pub struct PutStartReq {
    pub key: String,
    pub len: u64,
    pub reject_if_inflight_same_key: bool,
    pub reject_if_exist_same_key: bool,
    pub make_replica_task: bool,
    /// Prefer placing the target allocation on any kvclient within this sub_cluster.
    pub preferred_sub_cluster: Option<String>,
    /// Optional source-node override for side-transfer workers that share an owner's mmap.
    pub source_node_id: Option<NodeIDString>,
}

/// Where a further copy of a put goes.
#[derive(Debug)]
pub struct PutReplicaTarget {
    pub node_id: NodeIDString,
    pub target_addr: u64,
    pub target_base_addr: u64,
    pub len: u64,
}

/// The memory for a put.
#[derive(Debug)]
pub struct PutStartResp {
    pub put_id: PutIDForAKey,
    pub node_id: NodeIDString,
    pub target_addr: u64,
    pub src_addr: u64,
    pub target_base_addr: u64,
    pub src_base_addr: u64,
    pub len: u64,
    pub error_code: ErrorCode,
    pub error_json: String,
    /// Server-side processing time in microseconds for this RPC handler
    pub server_process_us: i64,
    pub replica_target: Option<PutReplicaTarget>,
}

/// Gives a put up.
#[derive(Debug)]
pub struct PutRevokeReq {
    pub key: String,
    pub put_id: PutIDForAKey,
}

/// Answers a [`PutRevokeReq`].
#[derive(Debug)]
pub struct PutRevokeResp {
    pub error_code: ErrorCode,
    pub error_json: String,
}

/// A slot of granted memory that already holds the value.
#[derive(Debug)]
pub struct PutDoneCommittedSlot {
    pub grant_id: u64,
    pub slot_index: u32,
    pub slot_size: u64,
    pub addr: u64,
    pub base_addr: u64,
    pub len: u64,
}

/// Tells that the bytes of a put are in place.
#[derive(Debug)]
pub struct PutDoneReq {
    pub key: String,
    pub put_id: PutIDForAKey,
    /// Optional lease to attach this key to on commit
    pub lease_id: Option<u64>,
    /// Optional local committed slot descriptor for local-first publish path.
    pub committed_slot: Option<PutDoneCommittedSlot>,
    /// Ask master to keep a local read holder for the committing node.
    pub publish_local_cache: bool,
}

/// Answers a [`PutDoneReq`].
#[derive(Debug)]
pub struct PutDoneResp {
    pub error_code: ErrorCode,
    pub error_json: String,
    /// Server-side processing time in microseconds for this RPC handler
    pub server_process_us: i64,
    /// Holder id for an owner-local cache view, present only when requested.
    pub local_cache_holder_id: Option<u64>,
}

/// One put of a [`BatchPutStartReq`].
#[derive(Debug)]
pub struct BatchPutStartItemReq {
    pub key: String,
    pub len: u64,
    pub reject_if_inflight_same_key: bool,
    pub reject_if_exist_same_key: bool,
    pub make_replica_task: bool,
    pub preferred_sub_cluster: Option<String>,
}

/// Several [`PutStartReq`] at once.
#[derive(Debug)]
pub struct BatchPutStartReq {
    pub items: Vec<BatchPutStartItemReq>,
}

/// The answer for one put of a [`BatchPutStartReq`].
#[derive(Debug)]
pub struct BatchPutStartItemResp {
    pub put_id: PutIDForAKey,
    pub node_id: NodeIDString,
    pub target_addr: u64,
    pub src_addr: u64,
    pub target_base_addr: u64,
    pub src_base_addr: u64,
    pub len: u64,
    pub error_code: ErrorCode,
    pub error_json: String,
    pub replica_target: Option<PutReplicaTarget>,
}

/// Answers a [`BatchPutStartReq`], put by put.
#[derive(Debug)]
pub struct BatchPutStartResp {
    pub items: Vec<BatchPutStartItemResp>,
    pub error_code: ErrorCode,
    pub error_json: String,
    pub server_process_us: i64,
}

/// One put of a [`BatchPutRevokeReq`].
#[derive(Debug)]
pub struct BatchPutRevokeItemReq {
    pub key: String,
    pub put_id: PutIDForAKey,
}

/// Several [`PutRevokeReq`] at once.
#[derive(Debug)]
pub struct BatchPutRevokeReq {
    pub items: Vec<BatchPutRevokeItemReq>,
}

/// The answer for one put of a [`BatchPutRevokeReq`].
#[derive(Debug)]
pub struct BatchPutRevokeItemResp {
    pub key: String,
    pub put_id: PutIDForAKey,
    pub error_code: ErrorCode,
    pub error_json: String,
}

/// Answers a [`BatchPutRevokeReq`], put by put.
#[derive(Debug)]
pub struct BatchPutRevokeResp {
    pub items: Vec<BatchPutRevokeItemResp>,
    pub error_code: ErrorCode,
    pub error_json: String,
}

/// One put of a [`BatchPutDoneReq`].
#[derive(Debug)]
pub struct BatchPutDoneItemReq {
    pub key: String,
    pub put_id: PutIDForAKey,
    pub lease_id: Option<u64>,
    pub committed_slot: Option<PutDoneCommittedSlot>,
    pub publish_local_cache: bool,
}

/// Several [`PutDoneReq`] at once.
#[derive(Debug)]
pub struct BatchPutDoneReq {
    pub items: Vec<BatchPutDoneItemReq>,
}

/// The answer for one put of a [`BatchPutDoneReq`].
#[derive(Debug)]
pub struct BatchPutDoneItemResp {
    pub key: String,
    pub put_id: PutIDForAKey,
    pub error_code: ErrorCode,
    pub error_json: String,
    pub local_cache_holder_id: Option<u64>,
}

/// Answers a [`BatchPutDoneReq`], put by put.
#[derive(Debug)]
pub struct BatchPutDoneResp {
    pub items: Vec<BatchPutDoneItemResp>,
    pub error_code: ErrorCode,
    pub error_json: String,
    pub server_process_us: i64,
}

/// Asks for memory for a further copy.
#[derive(Debug)]
pub struct PutAppendStartReq {
    pub key: String,
    pub put_id: PutIDForAKey,
    pub len: u64,
    pub preferred_sub_cluster: Option<String>,
}

/// The memory for a further copy.
#[derive(Debug)]
pub struct PutAppendStartResp {
    pub scheduled: bool,
    pub node_id: NodeIDString,
    pub target_addr: u64,
    pub target_base_addr: u64,
    pub len: u64,
    pub error_code: ErrorCode,
    pub error_json: String,
    pub server_process_us: i64,
}

/// Gives a further copy up.
#[derive(Debug)]
pub struct PutAppendRevokeReq {
    pub key: String,
    pub put_id: PutIDForAKey,
}

/// Answers a [`PutAppendRevokeReq`].
#[derive(Debug)]
pub struct PutAppendRevokeResp {
    pub error_code: ErrorCode,
    pub error_json: String,
}

/// Tells that a further copy is in place.
#[derive(Debug)]
pub struct PutAppendDoneReq {
    pub key: String,
    pub put_id: PutIDForAKey,
}

/// Answers a [`PutAppendDoneReq`].
#[derive(Debug)]
pub struct PutAppendDoneResp {
    pub appended: bool,
    pub error_code: ErrorCode,
    pub error_json: String,
    pub server_process_us: i64,
}

/// Keeps a holder alive.
#[derive(Debug)]
pub struct MemHolderKeepAliveReq {
    pub holder_id: u64,
}

/// Answers a [`MemHolderKeepAliveReq`].
#[derive(Debug)]
pub struct MemHolderKeepAliveResp {
    pub error_code: ErrorCode,
    pub error_json: String,
}

/// Lets a holder go.
#[derive(Debug)]
pub struct MemHolderReleaseReq {
    pub holder_id: u64,
}

/// Answers a [`MemHolderReleaseReq`].
#[derive(Debug)]
pub struct MemHolderReleaseResp {
    pub error_code: ErrorCode,
    pub error_json: String,
}

/// Deletes a key.
#[derive(Debug)]
pub struct DeleteReq {
    pub key: String,
}

/// The version that was deleted.
#[derive(Debug)]
pub struct DeleteResp {
    pub deleted_put_time_ms: u64,
    pub deleted_put_version: u32,
    pub error_code: ErrorCode,
    pub error_json: String,
}

/// Tells that a client dropped its copy of a deleted key.
#[derive(Debug)]
pub struct DeleteAckReq {
    pub key: String,
    pub client_id: String,
    pub holder_id: u64,
}

/// Answers a [`DeleteAckReq`].
#[derive(Debug)]
pub struct DeleteAckResp {
    pub error_code: ErrorCode,
    pub error_json: String,
}

/// One item of a [`BatchDeleteAckReq`].
#[derive(Debug)]
pub struct DeleteAckItem {
    pub key: String,
    pub client_id: String,
    pub holder_id: u64,
}

/// Several [`DeleteAckReq`] at once.
#[derive(Debug)]
pub struct BatchDeleteAckReq {
    pub delete_acks: Vec<DeleteAckItem>,
}

/// The number of holders that were let go.
#[derive(Debug)]
pub struct BatchDeleteAckResp {
    pub deleted_count: u32,
    pub error_code: ErrorCode,
    pub error_json: String,
}

/// Asks whether a key exists and how long its value is.
#[derive(Debug)]
pub struct GetMetaReq {
    pub key: String,
}

/// Whether a key exists and how long its value is.
#[derive(Debug)]
pub struct GetMetaResp {
    pub exists: bool,
    pub len: u64,
    pub error_code: ErrorCode,
    pub error_json: String,
}

/// Asks which of several keys exist.
#[derive(Debug)]
pub struct BatchIsExistReq {
    pub keys: Vec<String>,
}

/// Which of several keys exist, key by key.
#[derive(Debug)]
pub struct BatchIsExistResp {
    pub exists_list: Vec<bool>,
    pub error_code: ErrorCode,
    pub error_json: String,
}

/// Tells a client to drop cached copies.
#[derive(Debug)]
pub struct BatchDeleteClientKvMetaCacheReq {
    /// List of keys with their metadata for batch deletion
    pub delete_items: Vec<DeleteClientKvMetaCacheItem>,
}

/// A version that a client is to drop.
#[derive(Debug)]
pub struct DeleteClientKvMetaCacheItem {
    pub key: String,
    pub put_time_ms: u64,
    pub put_version: u32,
}

/// The number of copies that a client dropped.
#[derive(Debug)]
pub struct BatchDeleteClientKvMetaCacheResp {
    pub deleted_count: u32,
    pub error_code: ErrorCode,
    pub error_json: String,
}

} // verus!
