//! The core of a distributed key-value store for large values: where the copies of a value lie, in
//! the memory of nodes and on their SSDs, and what may be done with them when.
//!
//! - The SSD store: [`ssd_ring`] lays values out in rings, and [`ssd_ring_laws`] states what holds of
//!   them whatever is done; [`ssd_plan`] plans devices, shards and reads, [`ssd_worker`] decides what
//!   goes to the kernel next, and [`ssd_storage`] puts them together. [`ssd_block_index`] keeps the
//!   index of the block-cache backend, and [`ssd_block_store`] the store on it.
//! - Puts and gets: [`put_start`], [`put`] and [`put_table`], [`get_alloc`], [`get_start`] and
//!   [`get`], [`delete`], [`placement`] and [`holdings`], over the routes of [`tiered_routes`].
//! - Members: [`member_transitions`] puts news about the cluster in order, [`member_lifecycle`],
//!   [`inflight_puts`], [`binded_state`] and [`member_apply`] tie puts and copies to generations of
//!   members, and [`registration`] has nodes register their memory. [`tombs`] marks the copies of a
//!   node that is gone.
//! - Caches and reclaiming: [`recoverability`], [`cache_policy`], [`demotion`],
//!   [`route_maintenance`], [`key_activity`], [`admission`], [`reclaim`] and [`reclaim_run`], over
//!   the routes of [`routes`].
//! - Reports: [`observe`] counts what was decided, and [`ranking`] puts the counts in order.
//!
//! What holds of several operations together is stated apart from them: [`ssd_store_laws`] of the SSD store,
//! [`put_laws`], [`get_laws`] and [`placement_laws`] of puts and gets from their beginning to their end,
//! [`member_laws`] of members that come and go, [`cache_laws`] of what caches may drop, and [`reclaim_laws`],
//! [`reclaim_queue_laws`] and [`reclaim_count_laws`] of whole runs of reclaiming.

pub mod admission;
pub mod align;
pub mod assoc;
pub mod binded_state;
pub mod cache_laws;
pub mod cache_policy;
pub mod cluster;
pub mod delete;
pub mod demotion;
pub mod error;
pub mod get;
pub mod get_alloc;
pub mod get_laws;
pub mod get_start;
pub mod holdings;
pub mod ids;
pub mod inflight_puts;
pub mod key_activity;
pub mod key_table;
pub mod member_apply;
pub mod member_laws;
pub mod member_lifecycle;
pub mod member_transitions;
pub mod msg_pack;
pub mod name_set;
pub mod observe;
pub mod path_component;
pub mod placement;
pub mod placement_laws;
pub mod put;
pub mod put_laws;
pub mod put_start;
pub mod put_table;
pub mod ranking;
pub mod reclaim;
pub mod reclaim_count_laws;
pub mod reclaim_laws;
pub mod reclaim_queue_laws;
pub mod reclaim_run;
pub mod recoverability;
pub mod registration;
pub mod route_maintenance;
pub mod router;
pub mod routes;
pub mod ssd_block_index;
pub mod ssd_block_store;
pub mod ssd_plan;
pub mod ssd_ring;
pub mod ssd_ring_laws;
pub mod ssd_storage;
pub mod ssd_store_laws;
pub mod ssd_worker;
pub mod text;
pub mod tiered_routes;
pub mod tombs;
pub mod tp_key;
