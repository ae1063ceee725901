//! Names of nodes and versions of keys.
use vstd::prelude::*;

verus! {

/// The version of a key that one put wrote: creation time in milliseconds and a counter.
pub type PutIDForAKey = (u64, u32);

/// The name of a node.
pub type NodeIDString = String;

/// The name of a node, where it stands for the node.
pub type NodeID = String;

/// The number by which a reply tells what went wrong.
pub type ErrorCode = u32;

} // verus!
