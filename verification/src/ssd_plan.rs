//! Decisions of the SSD store that need no device: how roots are cut into shards, which device
//! takes a write, and how a value is read in one piece or in chunks.
use vstd::arithmetic::div_mod::*;
use vstd::prelude::*;

use crate::align::{
    align_up_u64, aligned_up, checked_add_u64, lemma_aligned_up, SSD_ALIGNMENT, SSD_ALIGNMENT_BYTES,
};
use crate::error::ArgumentError;
use crate::ssd_ring::SsdIndexEntry;

verus! {

/// The number of shards that a root is cut into when it is large enough.
pub const DEFAULT_SHARDS_PER_OWNER: usize = 4;

/// Bytes that one chunk of a pipelined read moves.
pub const DEFAULT_READ_TRANSFER_PIPELINE_CHUNK_BYTES: u64 = 4194304;

/// Chunks of a pipelined read that are under way at a time.
pub const DEFAULT_READ_TRANSFER_PIPELINE_INFLIGHT: usize = 4;

/// How a value gets to its target.
#[derive(Clone, Copy, Debug, PartialEq, Eq, Structural)]
pub enum SsdReadPath {
    /// Through an aligned buffer.
    Scratch,
    /// By the device itself.
    Direct,
}

/// A root directory with the device it lies on.
#[derive(Debug)]
pub struct SsdDeviceRoot {
    pub device_id: u64,
    pub root_dir: String,
    pub limit_bytes: u64,
}

/// A shard that is to be made.
#[derive(Clone, Copy, Debug, PartialEq, Eq, Structural)]
pub struct SsdShardSpec {
    pub shard_id: usize,
    pub device_idx: usize,
    pub capacity: u64,
}

/// The key of a value is not empty.
pub fn validate_key(key: &str) -> (r: Result<(), ArgumentError>)
    ensures
        match r {
            Ok(_) => key@.len() > 0,
            Err(e) => key@.len() == 0 && e == ArgumentError::EmptyKey,
        },
{
    if key.is_empty() {
        Err(ArgumentError::EmptyKey)
    } else {
        Ok(())
    }
}

/// A whole value can go straight to its target.
pub open spec fn direct_read(
    entry: SsdIndexEntry,
    target_addr: u64,
    len: u64,
    target_len: u64,
) -> bool {
    &&& len != 0
    &&& entry.len == len
    &&& target_addr % SSD_ALIGNMENT_BYTES == 0
    &&& target_len >= entry.aligned_len
    &&& entry.file_offset % SSD_ALIGNMENT_BYTES == 0
}

pub fn choose_read_path(
    entry: &SsdIndexEntry,
    target_addr: u64,
    len: u64,
    target_len: u64,
) -> (r: SsdReadPath)
    ensures
        r == if direct_read(*entry, target_addr, len, target_len) {
            SsdReadPath::Direct
        } else {
            SsdReadPath::Scratch
        },
{
    if len == 0 || entry.len != len {
        return SsdReadPath::Scratch;
    }
    if target_addr % SSD_ALIGNMENT_BYTES == 0 && target_len >= entry.aligned_len
        && entry.file_offset % SSD_ALIGNMENT_BYTES == 0 {
        SsdReadPath::Direct
    } else {
        SsdReadPath::Scratch
    }
}

/// A part of a value can go straight to its target.
pub open spec fn direct_chunk_read(
    target_addr: u64,
    read_len: u64,
    target_len: u64,
    file_offset: u64,
) -> bool {
    &&& read_len != 0
    &&& target_addr % SSD_ALIGNMENT_BYTES == 0
    &&& read_len % SSD_ALIGNMENT_BYTES == 0
    &&& target_len >= read_len
    &&& file_offset % SSD_ALIGNMENT_BYTES == 0
}

pub fn choose_chunk_read_path(
    target_addr: u64,
    read_len: u64,
    target_len: u64,
    file_offset: u64,
) -> (r: SsdReadPath)
    ensures
        r == if direct_chunk_read(target_addr, read_len, target_len, file_offset) {
            SsdReadPath::Direct
        } else {
            SsdReadPath::Scratch
        },
{
    if read_len != 0 && target_addr % SSD_ALIGNMENT_BYTES == 0 && read_len % SSD_ALIGNMENT_BYTES
        == 0 && target_len >= read_len && file_offset % SSD_ALIGNMENT_BYTES == 0 {
        SsdReadPath::Direct
    } else {
        SsdReadPath::Scratch
    }
}

/// As many shards as aligned blocks fit, at least one and at most the default.
pub open spec fn device_shard_count(limit_bytes: u64) -> int {
    let blocks = limit_bytes as int / SSD_ALIGNMENT_BYTES as int;
    if blocks < 1 {
        1
    } else if blocks > DEFAULT_SHARDS_PER_OWNER {
        DEFAULT_SHARDS_PER_OWNER as int
    } else {
        blocks
    }
}

pub fn choose_device_shard_count(limit_bytes: u64) -> (r: usize)
    ensures
        r == device_shard_count(limit_bytes),
{
    let blocks: u64 = limit_bytes / SSD_ALIGNMENT_BYTES;
    if blocks < 1 {
        1
    } else if blocks > DEFAULT_SHARDS_PER_OWNER as u64 {
        DEFAULT_SHARDS_PER_OWNER
    } else {
        blocks as usize
    }
}

/// An equal share of the limit, cut down to the alignment.
pub open spec fn shard_capacity(capacity_bytes: u64, shard_count: int) -> int {
    capacity_bytes as int / shard_count / SSD_ALIGNMENT_BYTES as int * SSD_ALIGNMENT_BYTES as int
}

proof fn lemma_shard_capacity(capacity_bytes: u64, shard_count: int)
    requires
        shard_count > 0,
    ensures
        0 <= shard_capacity(capacity_bytes, shard_count) <= capacity_bytes as int / shard_count,
        shard_capacity(capacity_bytes, shard_count) % SSD_ALIGNMENT_BYTES as int == 0,
        shard_capacity(capacity_bytes, shard_count) * shard_count <= capacity_bytes,
        capacity_bytes as int / shard_count <= capacity_bytes,
        shard_capacity(capacity_bytes, shard_count) == 0 <==> capacity_bytes as int / shard_count
            < SSD_ALIGNMENT_BYTES,
{
    let a = SSD_ALIGNMENT_BYTES as int;
    let c = capacity_bytes as int;
    let raw = c / shard_count;
    lemma_fundamental_div_mod(c, shard_count);
    lemma_mod_bound(c, shard_count);
    lemma_div_pos_is_pos(c, shard_count);
    lemma_fundamental_div_mod(raw, a);
    let q = raw / a;
    lemma_mod_multiples_basic(q, a);
    let cap = shard_capacity(capacity_bytes, shard_count);
    assert(cap <= raw);
    assert(raw <= c && cap * shard_count <= c) by (nonlinear_arith)
        requires
            c == shard_count * raw + c % shard_count,
            c % shard_count >= 0,
            0 <= cap <= raw,
            shard_count > 0,
    ;
}

/// The capacity of each of `shard_count` equal shards.
pub fn aligned_shard_capacity(capacity_bytes: u64, shard_count: usize) -> (r: Result<
    u64,
    ArgumentError,
>)
    requires
        shard_count > 0,
    ensures
        match r {
            Ok(c) => c == shard_capacity(capacity_bytes, shard_count as int) && c > 0,
            Err(e) => shard_capacity(capacity_bytes, shard_count as int) == 0 && e
                == ArgumentError::CapacityTooSmall,
        },
{
    proof {
        lemma_shard_capacity(capacity_bytes, shard_count as int);
    }
    let raw: u64 = capacity_bytes / shard_count as u64;
    let capacity: u64 = raw / SSD_ALIGNMENT_BYTES * SSD_ALIGNMENT_BYTES;
    if capacity == 0 {
        return Err(ArgumentError::CapacityTooSmall);
    }
    Ok(capacity)
}

/// The capacity of the shards of a root.
pub open spec fn root_shard_capacity(limit_bytes: u64) -> int {
    shard_capacity(limit_bytes, device_shard_count(limit_bytes))
}

/// A root can be cut into shards when it holds one aligned block, and its shards together hold no
/// more than its limit.
pub proof fn shards_keep_to_the_limit(limit_bytes: u64)
    ensures
        root_shard_capacity(limit_bytes) == 0 <==> limit_bytes < SSD_ALIGNMENT_BYTES,
        root_shard_capacity(limit_bytes) * device_shard_count(limit_bytes) <= limit_bytes,
        root_shard_capacity(limit_bytes) % SSD_ALIGNMENT_BYTES as int == 0,
        0 <= root_shard_capacity(limit_bytes) <= limit_bytes,
        limit_bytes % 2048 == 0 && limit_bytes >= 2048 ==> root_shard_capacity(limit_bytes)
            * device_shard_count(limit_bytes) == limit_bytes,
{
    let n = device_shard_count(limit_bytes);
    lemma_shard_capacity(limit_bytes, n);
    let raw = limit_bytes as int / n;
    let l = limit_bytes as int;
    if n == 1 {
        assert(raw == l);
    } else if n == 2 {
        assert(l / 2 >= 512);
    } else if n == 3 {
        assert(l / 3 >= 512);
    } else {
        assert(n == 4);
        assert(l / 4 >= 512);
    }
}

/// The shards of the first `n` roots: numbered through, each root's shards one after another.
pub open spec fn shard_specs(limits: Seq<u64>) -> Seq<SsdShardSpec>
    decreases limits.len(),
{
    if limits.len() == 0 {
        Seq::empty()
    } else {
        let before = shard_specs(limits.drop_last());
        let limit = limits.last();
        before + Seq::new(
            device_shard_count(limit) as nat,
            |j: int|
                SsdShardSpec {
                    shard_id: (before.len() + j) as usize,
                    device_idx: (limits.len() - 1) as usize,
                    capacity: root_shard_capacity(limit) as u64,
                },
        )
    }
}

/// The limits of the roots.
pub open spec fn root_limits(roots: Seq<SsdDeviceRoot>) -> Seq<u64> {
    Seq::new(roots.len(), |i: int| roots[i].limit_bytes)
}

/// Cuts every root into shards.
pub fn build_shard_specs(device_roots: &Vec<SsdDeviceRoot>) -> (r: Result<
    Vec<SsdShardSpec>,
    ArgumentError,
>)
    requires
        device_roots@.len() * DEFAULT_SHARDS_PER_OWNER <= usize::MAX,
    ensures
        match r {
            Ok(specs) => {
                &&& device_roots@.len() > 0
                &&& forall|i: int|
                    0 <= i < device_roots@.len() ==> (#[trigger] device_roots@[i]).limit_bytes
                        >= SSD_ALIGNMENT_BYTES
                &&& specs@ == shard_specs(root_limits(device_roots@))
            },
            Err(e) => {
                ||| device_roots@.len() == 0 && e == ArgumentError::NoRoots
                ||| device_roots@.len() > 0 && e == ArgumentError::CapacityTooSmall && exists|
                    i: int,
                |
                    0 <= i < device_roots@.len() && (#[trigger] device_roots@[i]).limit_bytes
                        < SSD_ALIGNMENT_BYTES
            },
        },
{
    if device_roots.len() == 0 {
        return Err(ArgumentError::NoRoots);
    }
    let ghost limits = root_limits(device_roots@);
    let mut specs: Vec<SsdShardSpec> = Vec::new();
    let mut device_idx: usize = 0;
    assert(limits.take(0) =~= Seq::empty());
    while device_idx < device_roots.len()
        invariant
            device_roots@.len() * DEFAULT_SHARDS_PER_OWNER <= usize::MAX,
            device_idx <= device_roots@.len(),
            device_roots@.len() > 0,
            limits == root_limits(device_roots@),
            specs@ == shard_specs(limits.take(device_idx as int)),
            specs@.len() <= device_idx * DEFAULT_SHARDS_PER_OWNER,
            forall|i: int|
                0 <= i < device_idx ==> (#[trigger] device_roots@[i]).limit_bytes
                    >= SSD_ALIGNMENT_BYTES,
        decreases device_roots@.len() - device_idx,
    {
        let limit: u64 = device_roots[device_idx].limit_bytes;
        let shard_count: usize = choose_device_shard_count(limit);
        proof {
            shards_keep_to_the_limit(limit);
        }
        let capacity: u64 = match aligned_shard_capacity(limit, shard_count) {
            Ok(c) => c,
            Err(e) => {
                assert(device_roots@[device_idx as int].limit_bytes < SSD_ALIGNMENT_BYTES);
                return Err(e);
            },
        };
        let ghost before = specs@;
        let ghost upto = limits.take(device_idx + 1);
        assert(upto.drop_last() =~= limits.take(device_idx as int));
        assert(upto.last() == limit);
        let mut j: usize = 0;
        while j < shard_count
            invariant
                j <= shard_count <= DEFAULT_SHARDS_PER_OWNER,
                device_roots@.len() * DEFAULT_SHARDS_PER_OWNER <= usize::MAX,
                device_idx < device_roots@.len(),
                before.len() <= device_idx * DEFAULT_SHARDS_PER_OWNER,
                specs@.len() == before.len() + j,
                specs@.take(before.len() as int) == before,
                forall|i: int|
                    0 <= i < j ==> #[trigger] specs@[before.len() + i] == (SsdShardSpec {
                        shard_id: (before.len() + i) as usize,
                        device_idx,
                        capacity,
                    }),
            decreases shard_count - j,
        {
            let shard_id: usize = specs.len();
            let ghost prev = specs@;
            specs.push(SsdShardSpec { shard_id, device_idx, capacity });
            assert(specs@.take(before.len() as int) =~= prev.take(before.len() as int));
            j += 1;
        }
        proof {
            let want = shard_specs(upto);
            assert(want.len() == before.len() + shard_count);
            assert(specs@ =~= want) by {
                assert forall|i: int| 0 <= i < want.len() implies specs@[i] == want[i] by {
                    if i < before.len() {
                        assert(specs@.take(before.len() as int)[i] == before[i]);
                    } else {
                        let k = i - before.len();
                        assert(specs@[before.len() + k] == want[i]);
                    }
                }
            }
        }
        device_idx += 1;
    }
    assert(limits.take(limits.len() as int) =~= limits);
    Ok(specs)
}

/// The device `offset` steps behind `start_idx`.
pub open spec fn device_at(start_idx: usize, offset: int, count: int) -> int {
    vstd::wrapping::usize_specs::wrapping_add(start_idx, offset as usize) as int % count
}

/// The first device, going round from `start_idx`, whose shards are large enough.
pub fn select_write_device(
    max_shard_capacities: &Vec<u64>,
    aligned_len: u64,
    start_idx: usize,
) -> (r: Option<usize>)
    ensures
        match r {
            Some(d) => {
                &&& d < max_shard_capacities@.len()
                &&& max_shard_capacities@[d as int] >= aligned_len
                &&& exists|offset: int|
                    {
                        &&& 0 <= offset < max_shard_capacities@.len()
                        &&& d == #[trigger] device_at(
                            start_idx,
                            offset,
                            max_shard_capacities@.len() as int,
                        )
                        &&& forall|j: int|
                            0 <= j < offset ==> max_shard_capacities@[#[trigger] device_at(
                                start_idx,
                                j,
                                max_shard_capacities@.len() as int,
                            )] < aligned_len
                    }
            },
            None => forall|j: int|
                0 <= j < max_shard_capacities@.len() ==> max_shard_capacities@[#[trigger] device_at(
                    start_idx,
                    j,
                    max_shard_capacities@.len() as int,
                )] < aligned_len,
        },
{
    let count: usize = max_shard_capacities.len();
    let mut offset: usize = 0;
    while offset < count
        invariant
            offset <= count == max_shard_capacities@.len(),
            forall|j: int|
                0 <= j < offset ==> max_shard_capacities@[#[trigger] device_at(
                    start_idx,
                    j,
                    count as int,
                )] < aligned_len,
        decreases count - offset,
    {
        let device_idx: usize = start_idx.wrapping_add(offset) % count;
        assert(device_idx == device_at(start_idx, offset as int, count as int));
        if max_shard_capacities[device_idx] >= aligned_len {
            return Some(device_idx);
        }
        offset += 1;
    }
    None
}

/// Going round misses no device: no device is found only where none is large enough.
pub proof fn every_device_is_tried(start_idx: usize, device: int, count: int)
    requires
        0 <= device < count,
        start_idx + count <= usize::MAX,
    ensures
        exists|offset: int|
            0 <= offset < count && #[trigger] device_at(start_idx, offset, count) == device,
{
    let first = start_idx as int % count;
    let turns = start_idx as int / count;
    lemma_fundamental_div_mod(start_idx as int, count);
    lemma_mod_bound(start_idx as int, count);
    let offset = if device >= first {
        device - first
    } else {
        device - first + count
    };
    let turn = if device >= first {
        turns
    } else {
        turns + 1
    };
    assert(start_idx + offset == turn * count + device) by (nonlinear_arith)
        requires
            start_idx == count * turns + first,
            offset == device - first && turn == turns || offset == device - first + count && turn
                == turns + 1,
    ;
    lemma_fundamental_div_mod_converse(start_idx + offset, count, turn, device);
    assert(device_at(start_idx, offset, count) == device);
}

/// The roots among the first `n` that are the first on their device.
pub open spec fn first_on_device(ids: Seq<u64>, n: int) -> Seq<int>
    decreases n,
{
    if n <= 0 {
        Seq::empty()
    } else {
        let before = first_on_device(ids, n - 1);
        if forall|j: int| 0 <= j < n - 1 ==> #[trigger] ids[j] != ids[n - 1] {
            before.push(n - 1)
        } else {
            before
        }
    }
}

/// A root directory with the number of bytes it may hold.
#[derive(Debug)]
pub struct KvSsdStorageRootLimit {
    pub root_dir: String,
    pub limit_bytes: u64,
}

/// The roots that stand for their devices.
pub open spec fn roots_kept(
    limits: Seq<KvSsdStorageRootLimit>,
    ids: Seq<u64>,
    kept: Seq<int>,
    roots: Seq<SsdDeviceRoot>,
) -> bool {
    &&& roots.len() == kept.len()
    &&& forall|i: int|
        0 <= i < kept.len() ==> {
            let root = #[trigger] roots[i];
            &&& root.device_id == ids[kept[i]]
            &&& root.root_dir@ == limits[kept[i]].root_dir@
            &&& root.limit_bytes == limits[kept[i]].limit_bytes
        }
}

/// Keeps one root for each device: the first. `device_ids` holds the device of each root.
pub fn deduplicate_device_roots(
    root_limits: &Vec<KvSsdStorageRootLimit>,
    device_ids: &Vec<u64>,
) -> (r: Result<Vec<SsdDeviceRoot>, ArgumentError>)
    requires
        device_ids@.len() == root_limits@.len(),
    ensures
        match r {
            Ok(roots) => root_limits@.len() > 0 && roots@.len() > 0 && roots_kept(
                root_limits@,
                device_ids@,
                first_on_device(device_ids@, device_ids@.len() as int),
                roots@,
            ),
            Err(e) => root_limits@.len() == 0 && e == ArgumentError::NoRoots,
        },
{
    if root_limits.len() == 0 {
        return Err(ArgumentError::NoRoots);
    }
    let mut roots: Vec<SsdDeviceRoot> = Vec::new();
    let mut i: usize = 0;
    while i < root_limits.len()
        invariant
            device_ids@.len() == root_limits@.len(),
            i <= root_limits@.len(),
            roots_kept(
                root_limits@,
                device_ids@,
                first_on_device(device_ids@, i as int),
                roots@,
            ),
            i > 0 ==> roots@.len() > 0,
        decreases root_limits@.len() - i,
    {
        let id: u64 = device_ids[i];
        let mut seen = false;
        let mut j: usize = 0;
        while j < i
            invariant
                i < device_ids@.len(),
                j <= i,
                id == device_ids@[i as int],
                seen == exists|h: int| 0 <= h < j && #[trigger] device_ids@[h] == id,
            decreases i - j,
        {
            if device_ids[j] == id {
                seen = true;
            }
            j += 1;
        }
        if !seen {
            roots.push(
                SsdDeviceRoot {
                    device_id: id,
                    root_dir: root_limits[i].root_dir.clone(),
                    limit_bytes: root_limits[i].limit_bytes,
                },
            );
        }
        i += 1;
    }
    Ok(roots)
}

/// A part of an entry that is to be read.
#[derive(Clone, Copy, Debug, PartialEq, Eq, Structural)]
pub struct RangeRead {
    pub offset: u64,
    pub payload_len: u64,
    pub read_len: u64,
    pub file_offset: u64,
    pub target_addr: u64,
    pub path: SsdReadPath,
}

/// A part of an entry that has arrived.
#[derive(Clone, Copy, Debug, PartialEq, Eq, Structural)]
pub struct SsdLoadedChunk {
    pub offset: u64,
    pub stage_addr: u64,
    pub len: u64,
}

/// Whether a part of an entry can be read, or what is wrong with it.
pub open spec fn range_fault(
    entry: SsdIndexEntry,
    offset: u64,
    payload_len: u64,
    target_len: u64,
) -> Option<ArgumentError> {
    let read_len = aligned_up(payload_len as int, SSD_ALIGNMENT_BYTES as int);
    if payload_len == 0 {
        Some(ArgumentError::EmptyRange)
    } else if offset + payload_len > u64::MAX {
        Some(ArgumentError::SumOverflow { lhs: offset, rhs: payload_len })
    } else if offset + payload_len > entry.len {
        Some(
            ArgumentError::RangeOutOfEntry {
                end: (offset + payload_len) as u64,
                limit: entry.len,
            },
        )
    } else if payload_len + SSD_ALIGNMENT_BYTES - 1 > u64::MAX {
        Some(ArgumentError::AlignmentOverflow { value: payload_len })
    } else if offset + read_len > u64::MAX {
        Some(ArgumentError::SumOverflow { lhs: offset, rhs: read_len as u64 })
    } else if offset + read_len > entry.aligned_len {
        Some(
            ArgumentError::RangeOutOfEntry {
                end: (offset + read_len) as u64,
                limit: entry.aligned_len,
            },
        )
    } else if target_len < read_len {
        Some(ArgumentError::TargetTooSmall { len: read_len as u64, target_len })
    } else if entry.file_offset + offset > u64::MAX {
        Some(ArgumentError::SumOverflow { lhs: entry.file_offset, rhs: offset })
    } else {
        None
    }
}

/// The read of a part of an entry is planned, or refused.
pub open spec fn range_planned(
    entry: SsdIndexEntry,
    offset: u64,
    payload_len: u64,
    target_addr: u64,
    target_len: u64,
    r: Result<RangeRead, ArgumentError>,
) -> bool {
    match r {
        Ok(plan) => {
            &&& range_fault(entry, offset, payload_len, target_len) is None
            &&& plan.offset == offset
            &&& plan.payload_len == payload_len
            &&& plan.read_len == aligned_up(payload_len as int, SSD_ALIGNMENT_BYTES as int)
            &&& plan.file_offset == entry.file_offset + offset
            &&& plan.target_addr == target_addr
            &&& plan.path == if direct_chunk_read(
                target_addr,
                plan.read_len,
                target_len,
                plan.file_offset,
            ) {
                SsdReadPath::Direct
            } else {
                SsdReadPath::Scratch
            }
        },
        Err(e) => range_fault(entry, offset, payload_len, target_len) == Some(e),
    }
}

/// Plans the read of a part of an entry.
pub fn plan_range_read(
    entry: &SsdIndexEntry,
    offset: u64,
    payload_len: u64,
    target_addr: u64,
    target_len: u64,
) -> (r: Result<RangeRead, ArgumentError>)
    ensures
        range_planned(*entry, offset, payload_len, target_addr, target_len, r),
{
    if payload_len == 0 {
        return Err(ArgumentError::EmptyRange);
    }
    let payload_end: u64 = match checked_add_u64(offset, payload_len) {
        Ok(v) => v,
        Err(e) => {
            return Err(e);
        },
    };
    if payload_end > entry.len {
        return Err(ArgumentError::RangeOutOfEntry { end: payload_end, limit: entry.len });
    }
    let read_len: u64 = match align_up_u64(payload_len, SSD_ALIGNMENT_BYTES) {
        Ok(v) => v,
        Err(e) => {
            return Err(e);
        },
    };
    let read_end: u64 = match checked_add_u64(offset, read_len) {
        Ok(v) => v,
        Err(e) => {
            return Err(e);
        },
    };
    if read_end > entry.aligned_len {
        return Err(ArgumentError::RangeOutOfEntry { end: read_end, limit: entry.aligned_len });
    }
    if target_len < read_len {
        return Err(ArgumentError::TargetTooSmall { len: read_len, target_len });
    }
    let file_offset: u64 = match checked_add_u64(entry.file_offset, offset) {
        Ok(v) => v,
        Err(e) => {
            return Err(e);
        },
    };
    let path = choose_chunk_read_path(target_addr, read_len, target_len, file_offset);
    Ok(RangeRead { offset, payload_len, read_len, file_offset, target_addr, path })
}

/// A piece of a value: where it begins, how long it is, where it goes and how much room is left
/// there.
#[derive(Clone, Copy, Debug, PartialEq, Eq, Structural)]
pub struct ChunkRequest {
    pub offset: u64,
    pub payload_len: u64,
    pub stage_addr: u64,
    pub target_len: u64,
}

/// The length of chunks for a wished number of bytes.
pub open spec fn chunk_step(chunk_bytes: u64) -> int {
    aligned_up(
        if chunk_bytes == 0 {
            1
        } else {
            chunk_bytes as int
        },
        SSD_ALIGNMENT_BYTES as int,
    )
}

/// The number of bytes that a chunk carries.
pub fn chunk_len(chunk_bytes: u64) -> (r: Result<u64, ArgumentError>)
    ensures
        match r {
            Ok(v) => v == chunk_step(chunk_bytes) && v > 0 && v % SSD_ALIGNMENT_BYTES == 0,
            Err(e) => chunk_bytes + SSD_ALIGNMENT_BYTES - 1 > u64::MAX && e == (
            ArgumentError::AlignmentOverflow { value: chunk_bytes }),
        },
        r is Ok <==> chunk_bytes + SSD_ALIGNMENT_BYTES - 1 <= u64::MAX,
{
    let wanted: u64 = if chunk_bytes == 0 {
        1
    } else {
        chunk_bytes
    };
    proof {
        lemma_aligned_up(wanted as int, SSD_ALIGNMENT_BYTES as int);
    }
    align_up_u64(wanted, SSD_ALIGNMENT_BYTES)
}

/// The chunk that begins at `next_offset`: as long as a chunk may be, or as long as the rest.
pub fn next_chunk(
    next_offset: u64,
    step: u64,
    len: u64,
    target_addr: u64,
    target_len: u64,
) -> (r: Result<ChunkRequest, ArgumentError>)
    requires
        next_offset < len <= target_len,
    ensures
        match r {
            Ok(c) => {
                &&& c.offset == next_offset
                &&& c.payload_len == if step < len - next_offset {
                    step as int
                } else {
                    len - next_offset
                }
                &&& c.stage_addr == target_addr + next_offset
                &&& c.target_len == target_len - next_offset
            },
            Err(e) => target_addr + next_offset > u64::MAX && e == (ArgumentError::SumOverflow {
                lhs: target_addr,
                rhs: next_offset,
            }),
        },
{
    let rest: u64 = len - next_offset;
    let payload_len: u64 = if step < rest {
        step
    } else {
        rest
    };
    match checked_add_u64(target_addr, next_offset) {
        Ok(stage_addr) => Ok(
            ChunkRequest {
                offset: next_offset,
                payload_len,
                stage_addr,
                target_len: target_len - next_offset,
            },
        ),
        Err(e) => Err(e),
    }
}

/// The chunks of a value lie one behind another and cover it.
pub open spec fn covers(chunks: Seq<ChunkRequest>, from: int, len: int) -> bool
    decreases chunks.len(),
{
    if chunks.len() == 0 {
        from == len
    } else {
        &&& chunks.last().offset + chunks.last().payload_len == len
        &&& covers(chunks.drop_last(), from, chunks.last().offset as int)
    }
}

/// A value cut into chunks: one behind another from its beginning to its end, none of them empty.
pub open spec fn is_cut(
    chunks: Seq<ChunkRequest>,
    step: int,
    len: int,
    target_addr: int,
    target_len: int,
) -> bool {
    &&& covers(chunks, 0, len)
    &&& forall|i: int|
        0 <= i < chunks.len() ==> is_chunk_of(
            #[trigger] chunks[i],
            step,
            len,
            target_addr,
            target_len,
        ) && chunks[i].offset == i * step
}

/// A chunk as it is cut from a value.
pub open spec fn is_chunk_of(
    c: ChunkRequest,
    step: int,
    len: int,
    target_addr: int,
    target_len: int,
) -> bool {
    &&& c.offset as int % step == 0
    &&& c.payload_len > 0
    &&& c.payload_len == if step < len - c.offset {
        step
    } else {
        len - c.offset
    }
    &&& c.stage_addr == target_addr + c.offset
    &&& c.target_len == target_len - c.offset
}

/// Cuts a whole value into chunks.
pub fn plan_chunks(step: u64, len: u64, target_addr: u64, target_len: u64) -> (r: Result<
    Vec<ChunkRequest>,
    ArgumentError,
>)
    requires
        step > 0,
        len <= target_len,
    ensures
        match r {
            Ok(chunks) => is_cut(
                chunks@,
                step as int,
                len as int,
                target_addr as int,
                target_len as int,
            ),
            Err(e) => {
                &&& e matches ArgumentError::SumOverflow { lhs, rhs }
                &&& lhs == target_addr
                &&& rhs < len
                &&& rhs as int % step as int == 0
                &&& target_addr + rhs > u64::MAX
                &&& rhs >= step ==> target_addr + rhs - step <= u64::MAX
            },
        },
{
    let mut chunks: Vec<ChunkRequest> = Vec::new();
    let mut next_offset: u64 = 0;
    while next_offset < len
        invariant
            step > 0,
            next_offset <= len <= target_len,
            covers(chunks@, 0, next_offset as int),
            next_offset < len ==> next_offset == chunks@.len() * step,
            0 < next_offset < len ==> target_addr + next_offset - step <= u64::MAX,
            forall|i: int|
                0 <= i < chunks@.len() ==> is_chunk_of(
                    #[trigger] chunks@[i],
                    step as int,
                    len as int,
                    target_addr as int,
                    target_len as int,
                ) && chunks@[i].offset == i * step,
        decreases len - next_offset,
    {
        let ghost n = chunks@.len() as int;
        proof {
            lemma_mod_multiples_basic(n, step as int);
            assert((n + 1) * step == n * step + step) by (nonlinear_arith);
        }
        match next_chunk(next_offset, step, len, target_addr, target_len) {
            Ok(c) => {
                let ghost before = chunks@;
                chunks.push(c);
                assert(chunks@.drop_last() =~= before);
                next_offset = next_offset + c.payload_len;
            },
            Err(e) => {
                return Err(e);
            },
        }
    }
    Ok(chunks)
}

/// Every chunk of a stored value can be read where the target is as long as the value on the SSD.
pub proof fn chunks_of_a_stored_value_are_readable(
    entry: SsdIndexEntry,
    c: ChunkRequest,
    step: int,
    target_addr: int,
    target_len: int,
)
    requires
        step > 0,
        step % SSD_ALIGNMENT_BYTES as int == 0,
        entry.aligned_len == aligned_up(entry.len as int, SSD_ALIGNMENT_BYTES as int),
        entry.file_offset + entry.aligned_len <= u64::MAX,
        target_len >= entry.aligned_len,
        is_chunk_of(c, step, entry.len as int, target_addr, target_len),
    ensures
        range_fault(entry, c.offset, c.payload_len, c.target_len) is None,
{
    let a = SSD_ALIGNMENT_BYTES as int;
    let off = c.offset as int;
    let q = off / step;
    let s = step / a;
    lemma_fundamental_div_mod(off, step);
    lemma_fundamental_div_mod(step, a);
    assert(off == (q * s) * a) by (nonlinear_arith)
        requires
            off == step * q + 0,
            step == a * s + 0,
    ;
    lemma_mod_multiples_basic(q * s, a);
    lemma_aligned_up(entry.len as int, a);
    lemma_aligned_up(c.payload_len as int, a);
    lemma_aligned_up(step, a);
    let read_len = aligned_up(c.payload_len as int, a);
    if step < entry.len - off {
        assert(read_len == step);
    } else {
        assert(aligned_up(entry.len - off, a) + off == aligned_up(entry.len as int, a)) by {
            let v = entry.len - off + a - 1;
            let m = q * s;
            lemma_hoist_over_denominator(v, m, a as nat);
            assert((v / a + m) * a == v / a * a + m * a) by (nonlinear_arith);
        }
    }
}

/// A buffer for direct transfers has a positive aligned length.
pub fn validate_buffer_len(len: usize) -> (r: Result<(), ArgumentError>)
    ensures
        match r {
            Ok(_) => len > 0 && len % SSD_ALIGNMENT == 0,
            Err(e) => (len == 0 || len % SSD_ALIGNMENT != 0) && e == (ArgumentError::BufferLength {
                buffer_len: len,
            }),
        },
{
    if len == 0 || len % SSD_ALIGNMENT != 0 {
        Err(ArgumentError::BufferLength { buffer_len: len })
    } else {
        Ok(())
    }
}

} // verus!
