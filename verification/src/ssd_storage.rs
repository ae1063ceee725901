//! The SSD store: its devices and shards, and the life of a write and of a read.
use std::collections::VecDeque;
use vstd::prelude::*;
use vstd::string::*;

use crate::align::{
    align_ssd_io_len, align_up_usize, aligned_up, lemma_aligned_up, SSD_ALIGNMENT,
    SSD_ALIGNMENT_BYTES,
};
use crate::error::{ArgumentError, SsdError};
use crate::ids::PutIDForAKey;
use crate::ssd_block_index::FoyerKvSsdStorage;
use crate::ssd_plan::{
    build_shard_specs, chunk_len, chunk_step, choose_read_path, deduplicate_device_roots,
    device_at, device_shard_count, direct_read, first_on_device, is_cut, plan_chunks,
    root_limits, root_shard_capacity, roots_kept, select_write_device, shard_specs,
    shards_keep_to_the_limit, validate_key, ChunkRequest, KvSsdStorageRootLimit, SsdDeviceRoot,
    SsdReadPath, SsdShardSpec,
};
use crate::ssd_ring::{
    empty_ring, read_back, saturated, used_bytes, written, Disk, KeyId, KvSsdKey, RingModel,
    SsdIndexEntry, SsdPreparedWrite, SsdRingBuffer,
};
use crate::ssd_ring_laws::{
    a_stored_value_is_read_back, disk_run, ring_run, unknown_keys_have_no_entry, RingOp,
};
use crate::ssd_worker::KvSsdUringMode;
use crate::text::{append_decimal, decimal};

verus! {

/// What keeps the values.
#[derive(Clone, Copy, Debug, PartialEq, Eq, Structural)]
pub enum KvSsdStorageBackend {
    Native,
    Foyer,
}

/// How a store is set up.
#[derive(Debug)]
pub struct KvSsdStorageInit {
    pub root_limits: Vec<KvSsdStorageRootLimit>,
    pub uring_mode: KvSsdUringMode,
    pub backend: KvSsdStorageBackend,
}

impl KvSsdStorageInit {
    /// A root that is too small, with no smaller one before it.
    pub open spec fn first_small_root(&self, i: int) -> bool {
        &&& 0 <= i < self.root_limits@.len()
        &&& self.root_limits@[i].limit_bytes < SSD_ALIGNMENT_BYTES
        &&& forall|j: int|
            0 <= j < i ==> (#[trigger] self.root_limits@[j]).limit_bytes >= SSD_ALIGNMENT_BYTES
    }

    /// The set-up is refused with `e`.
    pub open spec fn refused(&self, e: ArgumentError) -> bool {
        if self.root_limits@.len() == 0 {
            e == ArgumentError::NoRoots
        } else if exists|i: int| self.first_small_root(i) {
            exists|i: int|
                {
                    &&& #[trigger] self.first_small_root(i)
                    &&& e == (ArgumentError::RootLimitTooSmall {
                        index: i as usize,
                        limit_bytes: self.root_limits@[i].limit_bytes,
                    })
                }
        } else {
            &&& self.backend == KvSsdStorageBackend::Foyer
            &&& self.root_limits@.len() != 1
            &&& e == (ArgumentError::BackendNeedsOneRoot {
                roots: self.root_limits@.len() as usize,
            })
        }
    }

    /// The set-up is acceptable.
    pub open spec fn valid(&self) -> bool {
        &&& self.root_limits@.len() > 0
        &&& forall|i: int|
            0 <= i < self.root_limits@.len() ==> (#[trigger] self.root_limits@[i]).limit_bytes
                >= SSD_ALIGNMENT_BYTES
        &&& self.backend == KvSsdStorageBackend::Foyer ==> self.root_limits@.len() == 1
    }

    /// Checks a set-up before anything is created for it.
    pub fn validate(&self) -> (r: Result<(), ArgumentError>)
        ensures
            match r {
                Ok(_) => self.valid(),
                Err(e) => !self.valid() && self.refused(e),
            },
    {
        if self.root_limits.len() == 0 {
            return Err(ArgumentError::NoRoots);
        }
        let mut i: usize = 0;
        while i < self.root_limits.len()
            invariant
                i <= self.root_limits@.len(),
                self.root_limits@.len() > 0,
                forall|j: int|
                    0 <= j < i ==> (#[trigger] self.root_limits@[j]).limit_bytes
                        >= SSD_ALIGNMENT_BYTES,
            decreases self.root_limits@.len() - i,
        {
            let limit_bytes: u64 = self.root_limits[i].limit_bytes;
            if limit_bytes < SSD_ALIGNMENT_BYTES {
                assert(self.first_small_root(i as int));
                return Err(ArgumentError::RootLimitTooSmall { index: i, limit_bytes });
            }
            i += 1;
        }
        assert forall|f: int| !self.first_small_root(f) by {
            if 0 <= f < self.root_limits@.len() {
                assert(self.root_limits@[f].limit_bytes >= SSD_ALIGNMENT_BYTES);
            }
        }
        match self.backend {
            KvSsdStorageBackend::Foyer => {
                if self.root_limits.len() != 1 {
                    return Err(
                        ArgumentError::BackendNeedsOneRoot { roots: self.root_limits.len() },
                    );
                }
            },
            KvSsdStorageBackend::Native => {},
        }
        Ok(())
    }
}

/// A device with the shards on it.
pub struct SsdDevice {
    pub device_id: u64,
    pub root_dir: String,
    pub shard_ids: Vec<usize>,
    pub max_shard_capacity: u64,
    /// The workers of the device take commands.
    pub open: bool,
}

/// How far closing a store has come.
#[derive(Clone, Copy, Debug, PartialEq, Eq, Structural)]
pub enum SsdWorkerCloseState {
    Open,
    Closing,
    /// Whether all workers ended well.
    Closed(bool),
}

/// The state of the store.
pub struct KvSsdStorage {
    pub root_dirs: Vec<String>,
    pub devices: Vec<SsdDevice>,
    pub shard_to_device: Vec<usize>,
    pub next_write_device: usize,
    pub ring: SsdRingBuffer,
    pub admitting: bool,
    pub close_state: SsdWorkerCloseState,
    pub foyer: Option<FoyerKvSsdStorage>,
}

/// The shards of one device among a list of shards.
pub open spec fn device_shards(specs: Seq<SsdShardSpec>, device: int) -> Seq<usize>
    decreases specs.len(),
{
    if specs.len() == 0 {
        Seq::empty()
    } else {
        let before = device_shards(specs.drop_last(), device);
        if specs.last().device_idx == device {
            before.push(specs.last().shard_id)
        } else {
            before
        }
    }
}

/// Some shard of the list is on the device.
pub open spec fn has_device(specs: Seq<SsdShardSpec>, device: int) -> bool {
    exists|j: int| 0 <= j < specs.len() && (#[trigger] specs[j]).device_idx == device
}

/// The shards of a list of limits are numbered through, and each has the capacity of its root.
proof fn lemma_shard_specs(limits: Seq<u64>)
    requires
        limits.len() * 4 <= usize::MAX,
        forall|i: int| 0 <= i < limits.len() ==> #[trigger] limits[i] >= SSD_ALIGNMENT_BYTES,
    ensures
        shard_specs(limits).len() <= 4 * limits.len(),
        limits.len() > 0 ==> shard_specs(limits).len() > 0,
        forall|j: int|
            0 <= j < shard_specs(limits).len() ==> {
                let spec = #[trigger] shard_specs(limits)[j];
                &&& spec.shard_id == j
                &&& spec.device_idx < limits.len()
                &&& spec.capacity == root_shard_capacity(limits[spec.device_idx as int])
                &&& spec.capacity > 0
            },
        forall|d: int| 0 <= d < limits.len() ==> #[trigger] has_device(shard_specs(limits), d),
    decreases limits.len(),
{
    if limits.len() > 0 {
        let less = limits.drop_last();
        assert forall|i: int| 0 <= i < less.len() implies #[trigger] less[i]
            >= SSD_ALIGNMENT_BYTES by {
            assert(limits[i] >= SSD_ALIGNMENT_BYTES);
        }
        lemma_shard_specs(less);
        let before = shard_specs(less);
        let all = shard_specs(limits);
        let limit = limits.last();
        assert(limits[limits.len() - 1] >= SSD_ALIGNMENT_BYTES);
        shards_keep_to_the_limit(limit);
        assert(1 <= device_shard_count(limit) <= 4);
        assert forall|j: int| 0 <= j < all.len() implies {
            let spec = #[trigger] all[j];
            &&& spec.shard_id == j
            &&& spec.device_idx < limits.len()
            &&& spec.capacity == root_shard_capacity(limits[spec.device_idx as int])
            &&& spec.capacity > 0
        } by {
            if j < before.len() {
                assert(all[j] == before[j]);
            }
        }
        assert forall|d: int| 0 <= d < limits.len() implies #[trigger] has_device(all, d) by {
            if d < less.len() {
                assert(has_device(before, d));
                let j = choose|j: int|
                    0 <= j < before.len() && (#[trigger] before[j]).device_idx == d;
                assert(all[j].device_idx == d);
            } else {
                assert(all[before.len() as int].device_idx == d);
            }
        }
    }
}

proof fn lemma_device_shards(specs: Seq<SsdShardSpec>, device: int)
    requires
        forall|j: int| 0 <= j < specs.len() ==> (#[trigger] specs[j]).shard_id == j,
    ensures
        forall|i: int|
            0 <= i < device_shards(specs, device).len() ==> {
                let id = #[trigger] device_shards(specs, device)[i];
                id < specs.len() && specs[id as int].device_idx == device
            },
        forall|j: int|
            0 <= j < specs.len() && (#[trigger] specs[j]).device_idx == device ==> device_shards(
                specs,
                device,
            ).contains(j as usize),
    decreases specs.len(),
{
    if specs.len() > 0 {
        let less = specs.drop_last();
        lemma_device_shards(less, device);
        let before = device_shards(less, device);
        let all = device_shards(specs, device);
        assert forall|i: int| 0 <= i < all.len() implies {
            let id = #[trigger] all[i];
            id < specs.len() && specs[id as int].device_idx == device
        } by {
            if i < before.len() {
                assert(all[i] == before[i]);
                assert(less[before[i] as int] == specs[before[i] as int]);
            }
        }
        assert forall|j: int|
            0 <= j < specs.len() && (#[trigger] specs[j]).device_idx
                == device implies all.contains(j as usize) by {
            if j < less.len() {
                assert(less[j] == specs[j]);
                assert(before.contains(j as usize));
                let i = choose|i: int| 0 <= i < before.len() && before[i] == j as usize;
                assert(all[i] == j as usize);
            } else {
                assert(all[all.len() - 1] == j as usize);
            }
        }
    }
}

impl SsdDevice {
    pub open spec fn has_shard(&self, shard: usize) -> bool {
        self.shard_ids@.contains(shard)
    }

    pub fn contains_shard(&self, shard: usize) -> (r: bool)
        ensures
            r == self.has_shard(shard),
    {
        let mut i: usize = 0;
        while i < self.shard_ids.len()
            invariant
                i <= self.shard_ids@.len(),
                forall|j: int| 0 <= j < i ==> self.shard_ids@[j] != shard,
            decreases self.shard_ids@.len() - i,
        {
            if self.shard_ids[i] == shard {
                return true;
            }
            i += 1;
        }
        false
    }
}

impl KvSsdStorage {
    /// A device knows its shards, and they are all of one capacity.
    pub open spec fn device_wf(&self, d: int) -> bool {
        let device = self.devices@[d];
        &&& device.shard_ids@.len() > 0
        &&& device.max_shard_capacity > 0
        &&& forall|i: int|
            0 <= i < device.shard_ids@.len() ==> {
                let id = #[trigger] device.shard_ids@[i];
                &&& id < self.shard_to_device@.len()
                &&& self.shard_to_device@[id as int] == d
                &&& self.ring@.shards[id as int].capacity == device.max_shard_capacity
            }
    }

    /// Shards and devices refer to each other.
    pub open spec fn wf(&self) -> bool {
        &&& self.ring.wf()
        &&& self.foyer matches Some(f) ==> f.wf() && self.devices@.len() == 0
        &&& self.foyer is None ==> {
            &&& self.devices@.len() > 0
            &&& self.next_write_device < self.devices@.len()
            &&& self.shard_to_device@.len() == self.ring@.shards.len()
            &&& forall|d: int| 0 <= d < self.devices@.len() ==> #[trigger] self.device_wf(d)
            &&& forall|s: int|
                0 <= s < self.shard_to_device@.len() ==> {
                    let d = #[trigger] self.shard_to_device@[s];
                    d < self.devices@.len() && self.devices@[d as int].has_shard(s as usize)
                }
        }
    }

    /// A store of the native backend over the given roots: one device per root, with its shards.
    pub open spec fn native_over(&self, roots: Seq<SsdDeviceRoot>) -> bool {
        let specs = shard_specs(root_limits(roots));
        &&& self.foyer is None
        &&& self.ring@ == empty_ring(Seq::new(specs.len(), |j: int| specs[j].capacity))
        &&& self.shard_to_device@ == Seq::new(specs.len(), |j: int| specs[j].device_idx)
        &&& self.devices@.len() == roots.len()
        &&& self.root_dirs@.len() == roots.len()
        &&& forall|d: int|
            0 <= d < roots.len() ==> {
                let device = #[trigger] self.devices@[d];
                &&& device.device_id == roots[d].device_id
                &&& device.root_dir@ == roots[d].root_dir@
                &&& self.root_dirs@[d]@ == roots[d].root_dir@
                &&& device.shard_ids@ == device_shards(specs, d)
                &&& device.max_shard_capacity == root_shard_capacity(roots[d].limit_bytes)
                &&& device.open
            }
    }

    /// A new store takes operations and none of its workers is being closed.
    pub open spec fn fresh(&self) -> bool {
        &&& self.admitting
        &&& self.close_state == SsdWorkerCloseState::Open
        &&& self.next_write_device == 0
    }

    /// Lays a store out. `device_ids` holds the device on which each root directory lies; of
    /// several roots on one device only the first is used.
    pub fn new(init: KvSsdStorageInit, device_ids: Vec<u64>) -> (r: Result<Self, ArgumentError>)
        requires
            device_ids@.len() == init.root_limits@.len(),
            init.root_limits@.len() * 4 <= usize::MAX,
        ensures
            match r {
                Err(e) => {
                    ||| !init.valid() && init.refused(e)
                    ||| init.valid() && init.backend == KvSsdStorageBackend::Foyer
                        && init.root_limits@[0].limit_bytes
                        < crate::ssd_block_index::FOYER_BLOCK_SIZE_BYTES && e == (
                    ArgumentError::BackendCapacityTooSmall {
                        limit_bytes: init.root_limits@[0].limit_bytes,
                        minimum_bytes: crate::ssd_block_index::FOYER_BLOCK_SIZE_BYTES,
                    })
                },
                Ok(s) => {
                    &&& init.valid()
                    &&& s.wf()
                    &&& s.fresh()
                    &&& init.backend == KvSsdStorageBackend::Native ==> exists|
                        roots: Seq<SsdDeviceRoot>,
                    |
                        {
                            &&& roots_kept(
                                init.root_limits@,
                                device_ids@,
                                first_on_device(device_ids@, device_ids@.len() as int),
                                roots,
                            )
                            &&& #[trigger] s.native_over(roots)
                        }
                    &&& init.backend == KvSsdStorageBackend::Foyer ==> {
                        &&& s.foyer matches Some(f)
                        &&& f@.root_dir == init.root_limits@[0].root_dir@
                        &&& f@.capacity == init.root_limits@[0].limit_bytes
                        &&& f@.used == 0
                        &&& f@.lengths == Map::<KeyId, u64>::empty()
                        &&& s.root_dirs@.len() == 1
                        &&& s.root_dirs@[0]@ == init.root_limits@[0].root_dir@
                    }
                },
            },
    {
        match init.validate() {
            Ok(_) => {},
            Err(e) => {
                return Err(e);
            },
        }
        match init.backend {
            KvSsdStorageBackend::Foyer => {
                let limit_bytes: u64 = init.root_limits[0].limit_bytes;
                let root_dir = init.root_limits[0].root_dir.clone();
                let foyer = match FoyerKvSsdStorage::new(root_dir.clone(), limit_bytes) {
                    Ok(f) => f,
                    Err(e) => {
                        return Err(e);
                    },
                };
                let mut root_dirs: Vec<String> = Vec::new();
                root_dirs.push(root_dir);
                let mut dummy: Vec<u64> = Vec::new();
                dummy.push(limit_bytes);
                return Ok(
                    KvSsdStorage {
                        root_dirs,
                        devices: Vec::new(),
                        shard_to_device: Vec::new(),
                        next_write_device: 0,
                        ring: SsdRingBuffer::new(dummy),
                        admitting: true,
                        close_state: SsdWorkerCloseState::Open,
                        foyer: Some(foyer),
                    },
                );
            },
            KvSsdStorageBackend::Native => {},
        }
        let roots = match deduplicate_device_roots(&init.root_limits, &device_ids) {
            Ok(v) => v,
            Err(e) => {
                return Err(e);
            },
        };
        proof {
            lemma_kept_roots(
                init.root_limits@,
                device_ids@,
                device_ids@.len() as int,
                roots@,
            );
        }
        Self::over_roots(&roots)
    }

    /// Lays a store of the native backend out over roots that lie on different devices.
    fn over_roots(roots: &Vec<SsdDeviceRoot>) -> (r: Result<Self, ArgumentError>)
        requires
            roots@.len() > 0,
            roots@.len() * 4 <= usize::MAX,
            forall|i: int|
                0 <= i < roots@.len() ==> (#[trigger] roots@[i]).limit_bytes >= SSD_ALIGNMENT_BYTES,
        ensures
            r matches Ok(s) && s.wf() && s.fresh() && s.native_over(roots@),
    {
        let specs = match build_shard_specs(roots) {
            Ok(v) => v,
            Err(e) => {
                return Err(e);
            },
        };
        let ghost limits = root_limits(roots@);
        proof {
            assert forall|i: int| 0 <= i < limits.len() implies #[trigger] limits[i]
                >= SSD_ALIGNMENT_BYTES by {
                assert(roots@[i].limit_bytes >= SSD_ALIGNMENT_BYTES);
            }
            lemma_shard_specs(limits);
        }
        let mut capacities: Vec<u64> = Vec::new();
        let mut shard_to_device: Vec<usize> = Vec::new();
        let mut i: usize = 0;
        while i < specs.len()
            invariant
                i <= specs@.len(),
                capacities@.len() == i,
                shard_to_device@.len() == i,
                forall|j: int| 0 <= j < i ==> #[trigger] capacities@[j] == specs@[j].capacity,
                forall|j: int|
                    0 <= j < i ==> #[trigger] shard_to_device@[j] == specs@[j].device_idx,
            decreases specs@.len() - i,
        {
            capacities.push(specs[i].capacity);
            shard_to_device.push(specs[i].device_idx);
            i += 1;
        }
        let ghost caps = Seq::new(specs@.len(), |j: int| specs@[j].capacity);
        assert(capacities@ =~= caps);
        assert(shard_to_device@ =~= Seq::new(specs@.len(), |j: int| specs@[j].device_idx));
        let ring = SsdRingBuffer::new(capacities);
        let mut devices: Vec<SsdDevice> = Vec::new();
        let mut root_dirs: Vec<String> = Vec::new();
        let mut d: usize = 0;
        while d < roots.len()
            invariant
                d <= roots@.len(),
                devices@.len() == d,
                root_dirs@.len() == d,
                limits == root_limits(roots@),
                specs@ == shard_specs(limits),
                forall|j: int|
                    0 <= j < specs@.len() ==> {
                        let spec = #[trigger] specs@[j];
                        &&& spec.shard_id == j
                        &&& spec.capacity == root_shard_capacity(limits[spec.device_idx as int])
                        &&& spec.capacity > 0
                    },
                forall|e: int| 0 <= e < limits.len() ==> #[trigger] has_device(specs@, e),
                forall|e: int|
                    0 <= e < d ==> {
                        let device = #[trigger] devices@[e];
                        &&& device.device_id == roots@[e].device_id
                        &&& device.root_dir@ == roots@[e].root_dir@
                        &&& root_dirs@[e]@ == roots@[e].root_dir@
                        &&& device.shard_ids@ == device_shards(specs@, e)
                        &&& device.max_shard_capacity == root_shard_capacity(roots@[e].limit_bytes)
                        &&& device.open
                    },
            decreases roots@.len() - d,
        {
            let mut shard_ids: Vec<usize> = Vec::new();
            let mut max_shard_capacity: u64 = 0;
            let mut j: usize = 0;
            assert(specs@.take(0) =~= Seq::empty());
            while j < specs.len()
                invariant
                    j <= specs@.len(),
                    d < roots@.len(),
                    limits == root_limits(roots@),
                    shard_ids@ == device_shards(specs@.take(j as int), d as int),
                    forall|k: int|
                        0 <= k < specs@.len() ==> {
                            let spec = #[trigger] specs@[k];
                            &&& spec.capacity == root_shard_capacity(
                                limits[spec.device_idx as int],
                            )
                        },
                    max_shard_capacity == if exists|k: int|
                        0 <= k < j && (#[trigger] specs@[k]).device_idx == d {
                        root_shard_capacity(limits[d as int])
                    } else {
                        0
                    },
                decreases specs@.len() - j,
            {
                let spec = specs[j];
                assert(specs@.take(j + 1).drop_last() =~= specs@.take(j as int));
                assert(specs@.take(j + 1).last() == spec);
                if spec.device_idx == d {
                    shard_ids.push(spec.shard_id);
                    if spec.capacity > max_shard_capacity {
                        max_shard_capacity = spec.capacity;
                    }
                    proof {
                        shards_keep_to_the_limit(limits[d as int]);
                        assert(specs@[j as int].device_idx == d);
                    }
                }
                j += 1;
            }
            assert(specs@.take(specs@.len() as int) =~= specs@);
            proof {
                assert(has_device(specs@, d as int));
                let k = choose|k: int|
                    0 <= k < specs@.len() && (#[trigger] specs@[k]).device_idx == d as int;
                assert(specs@[k].device_idx == d);
                assert(limits[d as int] == roots@[d as int].limit_bytes);
                assert(max_shard_capacity == root_shard_capacity(roots@[d as int].limit_bytes));
                assert(shard_ids@ == device_shards(specs@, d as int));
            }
            let ghost devices0 = devices@;
            let ghost root_dirs0 = root_dirs@;
            let root_dir = roots[d].root_dir.clone();
            root_dirs.push(root_dir.clone());
            devices.push(
                SsdDevice {
                    device_id: roots[d].device_id,
                    root_dir,
                    shard_ids,
                    max_shard_capacity,
                    open: true,
                },
            );
            proof {
                assert forall|e: int| 0 <= e < d + 1 implies {
                    let device = #[trigger] devices@[e];
                    &&& device.device_id == roots@[e].device_id
                    &&& device.root_dir@ == roots@[e].root_dir@
                    &&& root_dirs@[e]@ == roots@[e].root_dir@
                    &&& device.shard_ids@ == device_shards(specs@, e)
                    &&& device.max_shard_capacity == root_shard_capacity(roots@[e].limit_bytes)
                    &&& device.open
                } by {
                    if e < d {
                        assert(devices@[e] == devices0[e]);
                        assert(root_dirs@[e] == root_dirs0[e]);
                    }
                }
            }
            d += 1;
        }
        let s = KvSsdStorage {
            root_dirs,
            devices,
            shard_to_device,
            next_write_device: 0,
            ring,
            admitting: true,
            close_state: SsdWorkerCloseState::Open,
            foyer: None,
        };
        proof {
            assert forall|d: int| 0 <= d < s.devices@.len() implies #[trigger] s.device_wf(d) by {
                lemma_device_shards(specs@, d);
                let device = s.devices@[d];
                assert(has_device(specs@, d));
                let j = choose|j: int|
                    0 <= j < specs@.len() && (#[trigger] specs@[j]).device_idx == d;
                assert(device_shards(specs@, d).contains(j as usize));
                assert(specs@[j].capacity > 0);
                assert(limits[d] == roots@[d].limit_bytes);
                assert forall|i: int| 0 <= i < device.shard_ids@.len() implies {
                    let id = #[trigger] device.shard_ids@[i];
                    &&& id < s.shard_to_device@.len()
                    &&& s.shard_to_device@[id as int] == d
                    &&& s.ring@.shards[id as int].capacity == device.max_shard_capacity
                } by {
                    let id = device_shards(specs@, d)[i];
                    assert(id < specs@.len() && specs@[id as int].device_idx == d);
                }
            }
            assert forall|j: int| 0 <= j < s.shard_to_device@.len() implies {
                let d = #[trigger] s.shard_to_device@[j];
                d < s.devices@.len() && s.devices@[d as int].has_shard(j as usize)
            } by {
                let d = specs@[j].device_idx as int;
                lemma_device_shards(specs@, d);
                assert(device_shards(specs@, d).contains(j as usize));
            }
        }
        Ok(s)
    }
}

proof fn lemma_kept_roots(
    limits: Seq<KvSsdStorageRootLimit>,
    ids: Seq<u64>,
    n: int,
    roots: Seq<SsdDeviceRoot>,
)
    requires
        0 <= n <= ids.len() == limits.len(),
        roots_kept(limits, ids, first_on_device(ids, n), roots),
        forall|i: int| 0 <= i < limits.len() ==> (#[trigger] limits[i]).limit_bytes
            >= SSD_ALIGNMENT_BYTES,
    ensures
        roots.len() <= n,
        forall|i: int| 0 <= i < roots.len() ==> (#[trigger] roots[i]).limit_bytes
            >= SSD_ALIGNMENT_BYTES,
{
    lemma_first_on_device(ids, n);
    assert forall|i: int| 0 <= i < roots.len() implies (#[trigger] roots[i]).limit_bytes
        >= SSD_ALIGNMENT_BYTES by {
        let k = first_on_device(ids, n)[i];
        assert(limits[k].limit_bytes >= SSD_ALIGNMENT_BYTES);
    }
}

/// The roots that are kept are some of those that were given.
proof fn lemma_first_on_device(ids: Seq<u64>, n: int)
    requires
        0 <= n <= ids.len(),
    ensures
        first_on_device(ids, n).len() <= n,
        forall|i: int|
            0 <= i < first_on_device(ids, n).len() ==> 0 <= #[trigger] first_on_device(ids, n)[i]
                < n,
    decreases n,
{
    if n > 0 {
        lemma_first_on_device(ids, n - 1);
        let before = first_on_device(ids, n - 1);
        let all = first_on_device(ids, n);
        assert forall|i: int| 0 <= i < all.len() implies 0 <= #[trigger] all[i] < n by {
            if i < before.len() {
                assert(all[i] == before[i]);
            }
        }
    }
}

/// How a whole value is to be read.
#[derive(Clone, Copy, Debug, PartialEq, Eq, Structural)]
pub struct LoadPlan {
    pub entry: SsdIndexEntry,
    pub device_idx: usize,
    pub path: SsdReadPath,
}

/// How a value is to be read in chunks.
pub struct ChunkedLoadPlan {
    pub entry: SsdIndexEntry,
    pub device_idx: usize,
    pub chunks: Vec<ChunkRequest>,
}

/// The answer to a write command.
pub enum PreparedSsdWrite {
    /// The value is to be written; the evicted keys are to be announced.
    Ready { entry: SsdIndexEntry, evicted: Vec<KvSsdKey> },
    /// The value is there already; it is pinned unless the tail has passed it.
    Existing { pinned: bool },
    /// The command waits for a write or read to end.
    Blocked,
    /// The command fails.
    Refused(ArgumentError),
}

/// What closing a store needs next.
#[derive(Clone, Copy, Debug, PartialEq, Eq, Structural)]
pub enum CloseAction {
    /// Hang up on the workers and wait for them.
    JoinWorkers,
    /// Wait for the workers, which someone else hung up on.
    AwaitJoin,
    /// The store is closed; whether all workers ended well.
    Done(bool),
}

impl KvSsdStorage {
    /// What stands against reading a value of the native backend.
    pub open spec fn load_fault(
        &self,
        key: Seq<char>,
        put_id: (u64, u32),
        target_addr: u64,
        len: u64,
        target_len: u64,
    ) -> Option<SsdError> {
        let readable = self.ring@.readable((key, put_id));
        if !self.admitting {
            Some(SsdError::SystemShutdown)
        } else if key.len() == 0 {
            Some(SsdError::InvalidArgument(ArgumentError::EmptyKey))
        } else if target_len < len {
            Some(SsdError::InvalidArgument(ArgumentError::TargetTooSmall { len, target_len }))
        } else if readable is None {
            Some(SsdError::KeyNotFound)
        } else if readable->Some_0.len != len {
            Some(
                SsdError::InvalidArgument(
                    ArgumentError::StoredLengthMismatch {
                        stored_len: readable->Some_0.len,
                        requested_len: len,
                    },
                ),
            )
        } else if len == 0 {
            Some(SsdError::InvalidArgument(ArgumentError::BufferLength { buffer_len: 0 }))
        } else if !self.devices@[self.shard_to_device@[readable->Some_0.shard_id as int] as int].open {
            Some(SsdError::SystemShutdown)
        } else {
            None
        }
    }

    /// The read of a whole value is planned, or refused.
    pub open spec fn load_planned(
        &self,
        key: KvSsdKey,
        target_addr: u64,
        len: u64,
        target_len: u64,
        r: Result<LoadPlan, SsdError>,
        ring: RingModel,
    ) -> bool {
        let fault = self.load_fault(key.key@, key.put_id, target_addr, len, target_len);
        match r {
            Err(e) => {
                &&& fault == Some(e)
                &&& ring == self.ring@
            },
            Ok(plan) => {
                &&& fault is None
                &&& self.ring@.readable(key@) == Some(plan.entry)
                &&& plan.device_idx == self.shard_to_device@[plan.entry.shard_id as int]
                &&& plan.path == if direct_read(plan.entry, target_addr, len, target_len) {
                    SsdReadPath::Direct
                } else {
                    SsdReadPath::Scratch
                }
                &&& ring == self.ring@.pin(key@, plan.entry)
            },
        }
    }

    /// The read of a value in chunks is planned, or refused.
    pub open spec fn chunked_load_planned(
        &self,
        key: KvSsdKey,
        target_addr: u64,
        len: u64,
        target_len: u64,
        chunk_bytes: u64,
        r: Result<ChunkedLoadPlan, SsdError>,
        ring: RingModel,
    ) -> bool {
        match r {
            Err(e) => {
                &&& ring == self.ring@
                &&& self.chunked_load_fails(
                    key.key@,
                    key.put_id,
                    target_addr,
                    len,
                    target_len,
                    chunk_bytes,
                    e,
                )
            },
            Ok(plan) => {
                &&& self.admitting && key.key@.len() > 0 && len <= target_len
                &&& chunk_bytes + SSD_ALIGNMENT_BYTES - 1 <= u64::MAX
                &&& self.ring@.readable(key@) == Some(plan.entry)
                &&& plan.entry.len == len
                &&& plan.device_idx == self.shard_to_device@[plan.entry.shard_id as int]
                &&& self.devices@[plan.device_idx as int].open
                &&& is_cut(
                    plan.chunks@,
                    chunk_step(chunk_bytes),
                    len as int,
                    target_addr as int,
                    target_len as int,
                )
                &&& ring == self.ring@.pin(key@, plan.entry)
            },
        }
    }

    /// The position may be pinned once more.
    pub open spec fn pin_room(&self, k: KeyId) -> bool {
        self.ring@.pins.contains_key(k) ==> self.ring@.pins[k].count < usize::MAX
    }

    /// Everything but the ring is the same.
    pub open spec fn same_but_ring(&self, other: &Self) -> bool {
        &&& self.root_dirs == other.root_dirs
        &&& self.devices == other.devices
        &&& self.shard_to_device == other.shard_to_device
        &&& self.next_write_device == other.next_write_device
        &&& self.admitting == other.admitting
        &&& self.close_state == other.close_state
        &&& self.foyer == other.foyer
    }

    pub fn root_dirs(&self) -> (r: &Vec<String>)
        ensures
            *r == self.root_dirs,
    {
        &self.root_dirs
    }

    /// The device whose workers read a shard.
    pub fn read_device_for_shard(&self, shard_id: usize) -> (r: Result<usize, SsdError>)
        requires
            self.foyer is None ==> self.wf(),
        ensures
            match r {
                Ok(d) => {
                    &&& shard_id < self.shard_to_device@.len()
                    &&& d == self.shard_to_device@[shard_id as int]
                    &&& d < self.devices@.len()
                    &&& self.devices@[d as int].has_shard(shard_id)
                    &&& self.devices@[d as int].open
                },
                Err(SsdError::InvalidArgument(ArgumentError::InvalidShard { shard_id: s })) => s
                    == shard_id && shard_id >= self.shard_to_device@.len(),
                Err(
                    SsdError::InvalidArgument(
                        ArgumentError::InvalidDeviceIndex { shard_id: s, device_idx },
                    ),
                ) => {
                    &&& s == shard_id < self.shard_to_device@.len()
                    &&& device_idx == self.shard_to_device@[shard_id as int]
                    &&& device_idx >= self.devices@.len()
                },
                Err(
                    SsdError::InvalidArgument(
                        ArgumentError::ShardNotOnDevice { shard_id: s, device_idx },
                    ),
                ) => {
                    &&& s == shard_id < self.shard_to_device@.len()
                    &&& device_idx == self.shard_to_device@[shard_id as int]
                    &&& device_idx < self.devices@.len()
                    &&& !self.devices@[device_idx as int].has_shard(shard_id)
                },
                Err(SsdError::SystemShutdown) => {
                    &&& shard_id < self.shard_to_device@.len()
                    &&& self.shard_to_device@[shard_id as int] < self.devices@.len()
                    &&& self.devices@[self.shard_to_device@[shard_id as int] as int].has_shard(
                        shard_id,
                    )
                    &&& !self.devices@[self.shard_to_device@[shard_id as int] as int].open
                },
                Err(_) => false,
            },
            self.foyer is None && shard_id < self.shard_to_device@.len() ==> r == if self.devices@[
            self.shard_to_device@[shard_id as int] as int].open {
                Ok::<usize, SsdError>(self.shard_to_device@[shard_id as int])
            } else {
                Err(SsdError::SystemShutdown)
            },
    {
        if shard_id >= self.shard_to_device.len() {
            return Err(SsdError::InvalidArgument(ArgumentError::InvalidShard { shard_id }));
        }
        let device_idx: usize = self.shard_to_device[shard_id];
        if device_idx >= self.devices.len() {
            return Err(
                SsdError::InvalidArgument(
                    ArgumentError::InvalidDeviceIndex { shard_id, device_idx },
                ),
            );
        }
        if !self.devices[device_idx].contains_shard(shard_id) {
            return Err(
                SsdError::InvalidArgument(ArgumentError::ShardNotOnDevice { shard_id, device_idx }),
            );
        }
        if !self.devices[device_idx].open {
            return Err(SsdError::SystemShutdown);
        }
        Ok(device_idx)
    }

    /// Plans the read of a whole value into memory at `target_addr` and pins the value until
    /// [`KvSsdStorage::finish_read`].
    pub fn load_into_addr(
        &mut self,
        key: &KvSsdKey,
        target_addr: u64,
        len: u64,
        target_len: u64,
    ) -> (r: Result<LoadPlan, SsdError>)
        requires
            old(self).wf(),
            old(self).foyer is None,
            old(self).pin_room(key@),
        ensures
            final(self).wf(),
            final(self).same_but_ring(old(self)),
            old(self).load_planned(*key, target_addr, len, target_len, r, final(self).ring@),
    {
        if !self.admitting {
            return Err(SsdError::SystemShutdown);
        }
        match validate_key(key.key.as_str()) {
            Ok(_) => {},
            Err(e) => {
                return Err(SsdError::InvalidArgument(e));
            },
        }
        if target_len < len {
            return Err(SsdError::InvalidArgument(ArgumentError::TargetTooSmall { len, target_len }));
        }
        let entry = match self.ring.get(key) {
            Some(entry) => entry,
            None => {
                return Err(SsdError::KeyNotFound);
            },
        };
        if entry.len != len {
            return Err(
                SsdError::InvalidArgument(
                    ArgumentError::StoredLengthMismatch { stored_len: entry.len, requested_len: len },
                ),
            );
        }
        if len == 0 {
            return Err(SsdError::InvalidArgument(ArgumentError::BufferLength { buffer_len: 0 }));
        }
        let path = choose_read_path(&entry, target_addr, len, target_len);
        proof {
            self.ring.lemma_wf();
            assert(self.ring@.entries.contains_key(key@));
            assert(self.ring@.entry_inv(self.ring@.entries[key@].spec_entry()));
            assert(self.shard_to_device@[entry.shard_id as int] < self.devices@.len());
        }
        let device_idx: usize = match self.read_device_for_shard(entry.shard_id) {
            Ok(d) => d,
            Err(e) => {
                return Err(e);
            },
        };
        self.pin_for_read(key);
        Ok(LoadPlan { entry, device_idx, path })
    }

    /// Pins a readable value.
    fn pin_for_read(&mut self, key: &KvSsdKey) -> (r: Option<SsdIndexEntry>)
        requires
            old(self).wf(),
            old(self).pin_room(key@),
        ensures
            final(self).wf(),
            final(self).same_but_ring(old(self)),
            r == old(self).ring@.readable(key@),
            r is None ==> final(self).ring@ == old(self).ring@,
            r matches Some(entry) ==> final(self).ring@ == old(self).ring@.pin(key@, entry),
    {
        let ghost before = *self;
        let r = self.ring.pin_read(key);
        proof {
            self.lemma_ring_changed(&before);
        }
        r
    }

    /// A store stays well-formed when its ring changes but keeps its capacities.
    proof fn lemma_ring_changed(&self, before: &Self)
        requires
            before.wf(),
            self.same_but_ring(before),
            self.ring.wf(),
            self.ring@.shards.len() == before.ring@.shards.len(),
            forall|i: int|
                0 <= i < self.ring@.shards.len() ==> (#[trigger] self.ring@.shards[i]).capacity
                    == before.ring@.shards[i].capacity,
        ensures
            self.wf(),
    {
        if self.foyer is None {
            assert forall|d: int| 0 <= d < self.devices@.len() implies #[trigger] self.device_wf(
                d,
            ) by {
                assert(before.device_wf(d));
            }
        }
    }

    /// Plans the read of a value in chunks and pins the value until [`KvSsdStorage::unpin`]. Every
    /// chunk is then read by itself, as a part of the entry.
    pub fn load_into_addr_chunks(
        &mut self,
        key: &KvSsdKey,
        target_addr: u64,
        len: u64,
        target_len: u64,
        chunk_bytes: u64,
    ) -> (r: Result<ChunkedLoadPlan, SsdError>)
        requires
            old(self).wf(),
            old(self).foyer is None,
            old(self).pin_room(key@),
        ensures
            final(self).wf(),
            final(self).same_but_ring(old(self)),
            old(self).chunked_load_planned(
                *key,
                target_addr,
                len,
                target_len,
                chunk_bytes,
                r,
                final(self).ring@,
            ),
    {
        if !self.admitting {
            return Err(SsdError::SystemShutdown);
        }
        match validate_key(key.key.as_str()) {
            Ok(_) => {},
            Err(e) => {
                return Err(SsdError::InvalidArgument(e));
            },
        }
        if target_len < len {
            return Err(SsdError::InvalidArgument(ArgumentError::TargetTooSmall { len, target_len }));
        }
        let step: u64 = match chunk_len(chunk_bytes) {
            Ok(v) => v,
            Err(e) => {
                return Err(SsdError::InvalidArgument(e));
            },
        };
        let entry = match self.ring.get(key) {
            Some(entry) => entry,
            None => {
                return Err(SsdError::KeyNotFound);
            },
        };
        if entry.len != len {
            return Err(
                SsdError::InvalidArgument(
                    ArgumentError::StoredLengthMismatch { stored_len: entry.len, requested_len: len },
                ),
            );
        }
        let chunks = match plan_chunks(step, len, target_addr, target_len) {
            Ok(v) => v,
            Err(e) => {
                return Err(SsdError::InvalidArgument(e));
            },
        };
        proof {
            self.ring.lemma_wf();
            assert(self.ring@.entries.contains_key(key@));
            assert(self.ring@.entry_inv(self.ring@.entries[key@].spec_entry()));
            assert(self.shard_to_device@[entry.shard_id as int] < self.devices@.len());
        }
        let device_idx: usize = match self.read_device_for_shard(entry.shard_id) {
            Ok(d) => d,
            Err(e) => {
                return Err(e);
            },
        };
        self.pin_for_read(key);
        Ok(ChunkedLoadPlan { entry, device_idx, chunks })
    }

    /// A read in chunks fails with `e`.
    pub open spec fn chunked_load_fails(
        &self,
        key: Seq<char>,
        put_id: (u64, u32),
        target_addr: u64,
        len: u64,
        target_len: u64,
        chunk_bytes: u64,
        e: SsdError,
    ) -> bool {
        let readable = self.ring@.readable((key, put_id));
        if !self.admitting {
            e == SsdError::SystemShutdown
        } else if key.len() == 0 {
            e == SsdError::InvalidArgument(ArgumentError::EmptyKey)
        } else if target_len < len {
            e == SsdError::InvalidArgument(ArgumentError::TargetTooSmall { len, target_len })
        } else if chunk_bytes + SSD_ALIGNMENT_BYTES - 1 > u64::MAX {
            e == SsdError::InvalidArgument(ArgumentError::AlignmentOverflow { value: chunk_bytes })
        } else if readable is None {
            e == SsdError::KeyNotFound
        } else if readable->Some_0.len != len {
            e == SsdError::InvalidArgument(
                ArgumentError::StoredLengthMismatch {
                    stored_len: readable->Some_0.len,
                    requested_len: len,
                },
            )
        } else if e == SsdError::SystemShutdown {
            &&& !self.devices@[self.shard_to_device@[readable->Some_0.shard_id as int] as int].open
            &&& exists|chunks: Seq<ChunkRequest>| #[trigger]
                is_cut(
                    chunks,
                    chunk_step(chunk_bytes),
                    len as int,
                    target_addr as int,
                    target_len as int,
                )
        } else {
            &&& e matches SsdError::InvalidArgument(ArgumentError::SumOverflow { lhs, rhs })
            &&& lhs == target_addr
            &&& rhs < len
            &&& target_addr + rhs > u64::MAX
            &&& rhs as int % chunk_step(chunk_bytes) == 0
            &&& rhs >= chunk_step(chunk_bytes) ==> target_addr + rhs - chunk_step(chunk_bytes)
                <= u64::MAX
        }
    }

    /// Ends a read: what was read counts only if the tail has not passed it meanwhile.
    pub fn finish_read(&mut self, key: &KvSsdKey, entry: &SsdIndexEntry, io_ok: bool) -> (r: Result<
        (),
        SsdError,
    >)
        requires
            old(self).wf(),
        ensures
            final(self).wf(),
            final(self).same_but_ring(old(self)),
            read_ended(old(self).ring@, key@, *entry, io_ok, r, final(self).ring@),
    {
        let ghost before = *self;
        if self.ring.is_offset_valid(entry) {
            if io_ok {
                Ok(())
            } else {
                Err(SsdError::Device)
            }
        } else {
            self.ring.remove(key);
            proof {
                self.lemma_ring_changed(&before);
            }
            Err(SsdError::KeyNotFound)
        }
    }

    /// Lets go of a value that was pinned.
    pub fn unpin(&mut self, key: &KvSsdKey)
        requires
            old(self).wf(),
            old(self).ring@.pins.contains_key(key@),
        ensures
            final(self).wf(),
            final(self).same_but_ring(old(self)),
            final(self).ring@ == old(self).ring@.unpin(key@),
    {
        let ghost before = *self;
        self.ring.unpin_read(key);
        proof {
            self.lemma_ring_changed(&before);
        }
    }

    /// The device to write a value to.
    pub fn next_write_device(&mut self, entry_len: u64) -> (r: Result<usize, SsdError>)
        requires
            old(self).wf(),
        ensures
            final(self).wf(),
            *final(self) == (KvSsdStorage {
                next_write_device: final(self).next_write_device,
                ..*old(self)
            }),
            old(self).device_picked(entry_len, r, final(self).next_write_device),
    {
        let ghost before = *self;
        let device_idx: usize = match self.pick_device(entry_len) {
            Ok(d) => d,
            Err(e) => {
                return Err(SsdError::InvalidArgument(e));
            },
        };
        let open = self.devices[device_idx].open;
        self.next_write_device = if device_idx < self.devices.len() - 1 {
            device_idx + 1
        } else {
            0
        };
        proof {
            assert forall|d: int| 0 <= d < self.devices@.len() implies #[trigger] self.device_wf(
                d,
            ) by {
                assert(before.device_wf(d));
            }
        }
        if open {
            Ok(device_idx)
        } else {
            Err(SsdError::SystemShutdown)
        }
    }

    /// The first device, going round from the next one, whose shards are large enough.
    fn pick_device(&self, entry_len: u64) -> (r: Result<usize, ArgumentError>)
        ensures
            ({
                let n = self.devices@.len() as int;
                let aligned_len = aligned_up(entry_len as int, SSD_ALIGNMENT_BYTES as int);
                match r {
                    Err(e) => if n == 0 {
                        e == ArgumentError::NoDevices
                    } else if entry_len + SSD_ALIGNMENT_BYTES - 1 > u64::MAX {
                        e == (ArgumentError::AlignmentOverflow { value: entry_len })
                    } else {
                        &&& self.none_fits(aligned_len)
                        &&& e == (ArgumentError::NoDeviceForLength {
                            aligned_len: aligned_len as u64,
                        })
                    },
                    Ok(d) => {
                        &&& n > 0
                        &&& entry_len + SSD_ALIGNMENT_BYTES - 1 <= u64::MAX
                        &&& !self.none_fits(aligned_len)
                        &&& d < n
                        &&& exists|offset: int|
                            d == device_at(self.next_write_device, offset, n)
                                && #[trigger] self.first_fitting(aligned_len, offset)
                    },
                }
            }),
    {
        if self.devices.len() == 0 {
            return Err(ArgumentError::NoDevices);
        }
        let aligned_len: u64 = match align_ssd_io_len(entry_len) {
            Ok(v) => v,
            Err(e) => {
                return Err(e);
            },
        };
        let mut capacities: Vec<u64> = Vec::new();
        let mut i: usize = 0;
        while i < self.devices.len()
            invariant
                i <= self.devices@.len(),
                capacities@.len() == i,
                forall|j: int|
                    0 <= j < i ==> #[trigger] capacities@[j] == self.devices@[j].max_shard_capacity,
            decreases self.devices@.len() - i,
        {
            capacities.push(self.devices[i].max_shard_capacity);
            i += 1;
        }
        assert(capacities@ =~= self.device_capacities());
        let start_idx: usize = self.next_write_device;
        match select_write_device(&capacities, aligned_len, start_idx) {
            None => Err(ArgumentError::NoDeviceForLength { aligned_len }),
            Some(device_idx) => {
                proof {
                    let n = self.devices@.len() as int;
                    let caps = self.device_capacities();
                    let offset = choose|offset: int|
                        {
                            &&& 0 <= offset < n
                            &&& device_idx == #[trigger] device_at(start_idx, offset, n)
                            &&& forall|j: int|
                                0 <= j < offset ==> caps[#[trigger] device_at(start_idx, j, n)]
                                    < aligned_len
                        };
                    assert(self.first_fitting(aligned_len as int, offset));
                }
                Ok(device_idx)
            },
        }
    }

    /// No device takes `aligned_len` bytes.
    pub open spec fn none_fits(&self, aligned_len: int) -> bool {
        forall|j: int|
            0 <= j < self.devices@.len() ==> self.device_capacities()[#[trigger] device_at(
                self.next_write_device,
                j,
                self.devices@.len() as int,
            )] < aligned_len
    }

    pub open spec fn device_capacities(&self) -> Seq<u64> {
        Seq::new(self.devices@.len(), |i: int| self.devices@[i].max_shard_capacity)
    }

    /// Going round from the next device, the one `offset` steps on is the first that takes
    /// `aligned_len` bytes.
    pub open spec fn first_fitting(&self, aligned_len: int, offset: int) -> bool {
        let n = self.devices@.len() as int;
        let caps = self.device_capacities();
        &&& 0 <= offset < n
        &&& caps[device_at(self.next_write_device, offset, n)] >= aligned_len
        &&& forall|j: int|
            0 <= j < offset ==> caps[#[trigger] device_at(self.next_write_device, j, n)]
                < aligned_len
    }

    /// The answer `r` to the question for a device, and the device that is next after it.
    pub open spec fn device_picked(
        &self,
        entry_len: u64,
        r: Result<usize, SsdError>,
        next: usize,
    ) -> bool {
        let n = self.devices@.len() as int;
        let aligned_len = aligned_up(entry_len as int, SSD_ALIGNMENT_BYTES as int);
        if n == 0 {
            r == Err::<usize, SsdError>(SsdError::InvalidArgument(ArgumentError::NoDevices)) && next
                == self.next_write_device
        } else if entry_len + SSD_ALIGNMENT_BYTES - 1 > u64::MAX {
            r == Err::<usize, SsdError>(
                SsdError::InvalidArgument(ArgumentError::AlignmentOverflow { value: entry_len }),
            ) && next == self.next_write_device
        } else if self.none_fits(aligned_len) {
            r == Err::<usize, SsdError>(
                SsdError::InvalidArgument(
                    ArgumentError::NoDeviceForLength { aligned_len: aligned_len as u64 },
                ),
            ) && next == self.next_write_device
        } else {
            exists|offset: int|
                {
                    let d = device_at(self.next_write_device, offset, n);
                    &&& #[trigger] self.first_fitting(aligned_len, offset)
                    &&& next == if d + 1 < n {
                        d + 1
                    } else {
                        0
                    }
                    &&& r == if self.devices@[d].open {
                        Ok::<usize, SsdError>(d as usize)
                    } else {
                        Err(SsdError::SystemShutdown)
                    }
                }
        }
    }

    /// No ring comes near the end of the 64-bit positions.
    pub open spec fn head_room(&self) -> bool {
        forall|s: int|
            0 <= s < self.ring@.shards.len() ==> (#[trigger] self.ring@.shards[s]).head + 2
                * self.ring@.shards[s].capacity <= u64::MAX
    }

    pub fn has_head_room(&self) -> (r: bool)
        ensures
            r == self.head_room(),
    {
        self.ring.has_head_room()
    }

    /// The number of times that a value is pinned.
    pub fn pin_count(&self, key: &KvSsdKey) -> (r: usize)
        requires
            self.wf(),
        ensures
            r == if self.ring@.pins.contains_key(key@) {
                self.ring@.pins[key@].count
            } else {
                0
            },
            r < usize::MAX ==> self.pin_room(key@),
    {
        self.ring.pin_count(key)
    }

    /// Finds room for a value on a device. A value that is there already is pinned instead.
    pub fn prepare_ssd_write(&mut self, device_idx: usize, key: &KvSsdKey, entry_len: u64) -> (r:
        PreparedSsdWrite)
        requires
            old(self).wf(),
            device_idx < old(self).devices@.len(),
            old(self).head_room(),
            old(self).pin_room(key@),
        ensures
            final(self).wf(),
            final(self).same_but_ring(old(self)),
            old(self).write_prepared(device_idx as int, key@, entry_len, r, final(self).ring@),
    {
        let ghost before = *self;
        proof {
            self.ring.lemma_wf();
            assert(self.device_wf(device_idx as int));
            lemma_device_search(&before, device_idx as int, key@, entry_len);
        }
        let prepared = self.ring.prepare_write_on_shards(
            key.clone(),
            entry_len,
            &self.devices[device_idx].shard_ids,
        );
        proof {
            lemma_prepared_capacities(
                before.ring@,
                key@,
                entry_len,
                before.devices@[device_idx as int].shard_ids@,
                prepared,
                self.ring@,
            );
            self.lemma_ring_changed(&before);
        }
        match prepared {
            Ok(SsdPreparedWrite::Ready { entry, evicted }) => PreparedSsdWrite::Ready {
                entry,
                evicted,
            },
            Ok(SsdPreparedWrite::Existing) => {
                let pinned = self.pin_for_read(key).is_some();
                PreparedSsdWrite::Existing { pinned }
            },
            Ok(SsdPreparedWrite::BlockedByBusyIo) => PreparedSsdWrite::Blocked,
            Err(e) => PreparedSsdWrite::Refused(e),
        }
    }

    /// The answer `r` to a write command, and the ring `next` after it.
    pub open spec fn write_prepared(
        &self,
        device_idx: int,
        k: KeyId,
        entry_len: u64,
        r: PreparedSsdWrite,
        next: RingModel,
    ) -> bool {
        let m = self.ring@;
        let allowed = self.devices@[device_idx].shard_ids@;
        match r {
            PreparedSsdWrite::Ready { entry, evicted } => m.prepared(
                k,
                entry_len,
                allowed,
                Ok(SsdPreparedWrite::Ready { entry, evicted }),
                next,
            ),
            PreparedSsdWrite::Existing { pinned } => {
                &&& m.prepared(k, entry_len, allowed, Ok(SsdPreparedWrite::Existing), m)
                &&& pinned == m.readable(k) is Some
                &&& next == match m.readable(k) {
                    Some(entry) => m.pin(k, entry),
                    None => m,
                }
            },
            PreparedSsdWrite::Blocked => m.prepared(
                k,
                entry_len,
                allowed,
                Ok(SsdPreparedWrite::BlockedByBusyIo),
                next,
            ),
            PreparedSsdWrite::Refused(e) => m.prepared(k, entry_len, allowed, Err(e), next),
        }
    }

    /// Ends a write. A value that became readable stays pinned until its route is published.
    pub fn finish_write_completion(&mut self, key: &KvSsdKey, io_ok: bool) -> (r: Result<
        (),
        SsdError,
    >)
        requires
            old(self).wf(),
            old(self).pin_room(key@),
        ensures
            final(self).wf(),
            final(self).same_but_ring(old(self)),
            write_ended(old(self).ring@, key@, io_ok, r, final(self).ring@),
    {
        let ghost before = *self;
        let committed = self.ring.commit(key, io_ok);
        proof {
            self.lemma_ring_changed(&before);
        }
        let pinned = if committed {
            self.pin_for_read(key).is_some()
        } else {
            false
        };
        if !io_ok {
            Err(SsdError::Device)
        } else if pinned {
            Ok(())
        } else {
            Err(SsdError::KeyNotFound)
        }
    }

    /// Nothing is taken in any more.
    pub open spec fn stops(&self, after: Self) -> bool {
        after == (KvSsdStorage { admitting: false, ..*self })
    }

    /// The workers have ended, well or not.
    pub open spec fn joins(&self, ok: bool, after: Self) -> bool {
        after == (KvSsdStorage { close_state: SsdWorkerCloseState::Closed(ok), ..*self })
    }

    /// The store takes no more operations.
    pub fn stop_admission(&mut self)
        requires
            old(self).wf(),
        ensures
            final(self).wf(),
            old(self).stops(*final(self)),
    {
        self.admitting = false;
        proof {
            let before = *old(self);
            assert forall|d: int|
                0 <= d < self.devices@.len() && before.device_wf(d) implies #[trigger] self.device_wf(
                d,
            ) by {}
        }
    }

    /// Closing has begun or goes on.
    pub open spec fn close_answered(&self, r: CloseAction, after: Self) -> bool {
        match self.close_state {
            SsdWorkerCloseState::Open => {
                &&& r == CloseAction::JoinWorkers
                &&& after == (KvSsdStorage {
                    admitting: false,
                    close_state: SsdWorkerCloseState::Closing,
                    devices: after.devices,
                    ..*self
                })
                &&& after.devices@.len() == self.devices@.len()
                &&& forall|d: int|
                    0 <= d < after.devices@.len() ==> #[trigger] after.devices@[d]
                        == (SsdDevice { open: false, ..self.devices@[d] })
            },
            SsdWorkerCloseState::Closing => {
                &&& r == CloseAction::AwaitJoin
                &&& after == (KvSsdStorage { admitting: false, ..*self })
            },
            SsdWorkerCloseState::Closed(ok) => {
                &&& r == CloseAction::Done(ok)
                &&& after == (KvSsdStorage { admitting: false, ..*self })
            },
        }
    }

    /// Begins or goes on with closing the store. The first call hangs up on the workers; every call
    /// after the workers have ended gives the same answer.
    pub fn close(&mut self) -> (r: CloseAction)
        requires
            old(self).wf(),
        ensures
            final(self).wf(),
            old(self).close_answered(r, *final(self)),
    {
        self.stop_admission();
        match self.close_state {
            SsdWorkerCloseState::Open => {
                let ghost before = *self;
                let mut d: usize = 0;
                while d < self.devices.len()
                    invariant
                        d <= self.devices@.len(),
                        *self == (KvSsdStorage { devices: self.devices, ..before }),
                        self.devices@.len() == before.devices@.len(),
                        forall|e: int|
                            0 <= e < self.devices@.len() ==> #[trigger] self.devices@[e] == if e
                                < d {
                                SsdDevice { open: false, ..before.devices@[e] }
                            } else {
                                before.devices@[e]
                            },
                    decreases self.devices@.len() - d,
                {
                    self.devices[d].open = false;
                    d += 1;
                }
                self.close_state = SsdWorkerCloseState::Closing;
                proof {
                    if self.foyer is None {
                        assert forall|e: int| 0 <= e < self.devices@.len() implies
                            #[trigger] self.device_wf(e) by {
                            assert(before.device_wf(e));
                            assert(self.devices@[e].shard_ids == before.devices@[e].shard_ids);
                        }
                        assert forall|s: int| 0 <= s < self.shard_to_device@.len() implies {
                            let e = #[trigger] self.shard_to_device@[s];
                            e < self.devices@.len() && self.devices@[e as int].has_shard(s as usize)
                        } by {
                            let e = before.shard_to_device@[s] as int;
                            assert(self.devices@[e].shard_ids == before.devices@[e].shard_ids);
                        }
                    }
                }
                CloseAction::JoinWorkers
            },
            SsdWorkerCloseState::Closing => CloseAction::AwaitJoin,
            SsdWorkerCloseState::Closed(ok) => CloseAction::Done(ok),
        }
    }

    /// Takes note that the workers have ended.
    pub fn workers_joined(&mut self, ok: bool)
        requires
            old(self).wf(),
            old(self).close_state == SsdWorkerCloseState::Closing,
        ensures
            final(self).wf(),
            old(self).joins(ok, *final(self)),
    {
        self.close_state = SsdWorkerCloseState::Closed(ok);
        proof {
            let before = *old(self);
            assert forall|d: int|
                0 <= d < self.devices@.len() && before.device_wf(d) implies #[trigger] self.device_wf(
                d,
            ) by {}
        }
    }
}

/// On a device the search for room never comes to a shard that is too small.
proof fn lemma_device_search(s: &KvSsdStorage, d: int, k: KeyId, len: u64)
    requires
        s.wf(),
        s.foyer is None,
        s.ring@.inv(),
        0 <= d < s.devices@.len(),
        s.head_room(),
    ensures
        s.ring@.search_is_sound(k, s.devices@[d].shard_ids@, len),
{
    let m = s.ring@;
    let allowed = s.devices@[d].shard_ids@;
    let size = RingModel::ssd_len(len);
    if !m.entries.contains_key(k) && len + SSD_ALIGNMENT_BYTES - 1 <= u64::MAX
        && m.some_large_enough(allowed, len) {
        assert(s.device_wf(d));
        crate::ssd_ring::lemma_first_stop(m, allowed, size, 0);
        match m.first_stop(allowed, size, 0) {
            Some(stop) => {
                let i = choose|i: int| 0 <= i < allowed.len() && allowed[i] == stop as usize;
                assert(s.devices@[d].shard_ids@[i] == stop as usize);
                let t = choose|t: int|
                    0 <= t < m.shards.len() && allowed.contains(t as usize) && size <= (
                    #[trigger] m.shards[t]).capacity;
                let j = choose|j: int| 0 <= j < allowed.len() && allowed[j] == t as usize;
                assert(s.devices@[d].shard_ids@[j] == t as usize);
                s.ring.lemma_wf();
                assert(m.shard_inv(stop));
                assert(m.shards[stop].head + 2 * m.shards[stop].capacity <= u64::MAX);
                vstd::arithmetic::div_mod::lemma_mod_bound(
                    m.shards[stop].head,
                    m.shards[stop].capacity,
                );
            },
            None => {},
        }
    }
}

/// Finding room changes no capacity.
proof fn lemma_prepared_capacities(
    m: RingModel,
    k: KeyId,
    len: u64,
    allowed: Seq<usize>,
    r: Result<SsdPreparedWrite, ArgumentError>,
    next: RingModel,
)
    requires
        m.inv(),
        m.prepared(k, len, allowed, r, next),
    ensures
        next.shards.len() == m.shards.len(),
        forall|i: int|
            0 <= i < next.shards.len() ==> (#[trigger] next.shards[i]).capacity
                == m.shards[i].capacity,
{
    crate::ssd_ring::lemma_first_stop(m, allowed, RingModel::ssd_len(len), 0);
}

/// The capacity and the use of a device.
#[derive(Debug)]
pub struct KvSsdStorageDeviceUsage {
    /// The name of the device.
    pub device: String,
    pub capacity_bytes: u64,
    pub used_bytes: u64,
}

/// The name of a device of the native backend: its number and the directory on it.
pub open spec fn device_name(device_id: u64, root_dir: Seq<char>) -> Seq<char> {
    seq!['d', 'e', 'v', ':'] + decimal(device_id as nat) + seq![':'] + root_dir
}

/// The name of the device of the block-cache backend: its directory.
pub open spec fn block_device_name(root_dir: Seq<char>) -> Seq<char> {
    seq!['f', 'o', 'y', 'e', 'r', ':'] + root_dir
}

/// Names a device of the native backend.
pub fn device_label(device_id: u64, root_dir: &str) -> (r: String)
    ensures
        r@ == device_name(device_id, root_dir@),
{
    let mut r = String::from_str("dev:");
    append_decimal(&mut r, device_id);
    r.append(":");
    r.append(root_dir);
    proof {
        reveal_strlit("dev:");
        reveal_strlit(":");
        assert("dev:"@ =~= seq!['d', 'e', 'v', ':']);
        assert(":"@ =~= seq![':']);
        assert(r@ =~= device_name(device_id, root_dir@));
    }
    r
}

/// Names the device of the block-cache backend.
pub fn block_device_label(root_dir: &str) -> (r: String)
    ensures
        r@ == block_device_name(root_dir@),
{
    let mut r = String::from_str("foyer:");
    r.append(root_dir);
    proof {
        reveal_strlit("foyer:");
        assert("foyer:"@ =~= seq!['f', 'o', 'y', 'e', 'r', ':']);
        assert(r@ =~= block_device_name(root_dir@));
    }
    r
}

/// A write has ended; a value that became readable is pinned.
pub open spec fn write_ended(
    m: RingModel,
    k: KeyId,
    io_ok: bool,
    r: Result<(), SsdError>,
    next: RingModel,
) -> bool {
    let done = m.commit(k, io_ok);
    let pinned = m.commits(k, io_ok) && done.readable(k) is Some;
    &&& next == if pinned {
        done.pin(k, done.readable(k)->Some_0)
    } else {
        done
    }
    &&& r == if !io_ok {
        Err::<(), SsdError>(SsdError::Device)
    } else if pinned {
        Ok(())
    } else {
        Err(SsdError::KeyNotFound)
    }
}

/// A read has ended; a value that the tail has passed is forgotten.
pub open spec fn read_ended(
    m: RingModel,
    k: KeyId,
    entry: SsdIndexEntry,
    io_ok: bool,
    r: Result<(), SsdError>,
    next: RingModel,
) -> bool {
    &&& r == if !m.offset_valid(entry) {
        Err::<(), SsdError>(SsdError::KeyNotFound)
    } else if io_ok {
        Ok(())
    } else {
        Err(SsdError::Device)
    }
    &&& next == if m.offset_valid(entry) {
        m
    } else {
        m.forget(k)
    }
}

/// The capacities of some shards together.
pub open spec fn capacity_sum(m: RingModel, ids: Seq<usize>) -> int
    decreases ids.len(),
{
    if ids.len() == 0 {
        0
    } else {
        capacity_sum(m, ids.drop_last()) + m.shards[ids.last() as int].capacity
    }
}

/// The live bytes of some shards together.
pub open spec fn used_sum(used: Seq<u64>, ids: Seq<usize>) -> int
    decreases ids.len(),
{
    if ids.len() == 0 {
        0
    } else {
        used_sum(used, ids.drop_last()) + used[ids.last() as int]
    }
}

impl KvSsdStorage {
    /// The live bytes of each shard.
    pub open spec fn shard_use(&self, used: Seq<u64>) -> bool {
        &&& used.len() == self.ring@.shards.len()
        &&& forall|s: int|
            0 <= s < used.len() ==> #[trigger] used[s] == used_bytes(
                self.ring@,
                self.ring.entry_rows(),
                s,
            ) && used[s] <= self.ring@.shards[s].capacity
    }

    /// The usage of one device.
    pub open spec fn device_use(&self, d: int, used: Seq<u64>, u: KvSsdStorageDeviceUsage) -> bool {
        let device = self.devices@[d];
        &&& u.device@ == device_name(device.device_id, device.root_dir@)
        &&& u.capacity_bytes == saturated(capacity_sum(self.ring@, device.shard_ids@))
        &&& u.used_bytes == saturated(used_sum(used, device.shard_ids@))
    }

    /// How full each device is.
    pub fn device_usage_snapshot(&self) -> (r: Vec<KvSsdStorageDeviceUsage>)
        requires
            self.wf(),
        ensures
            match self.foyer {
                Some(f) => {
                    &&& r@.len() == 1
                    &&& r@[0].device@ == block_device_name(f@.root_dir)
                    &&& r@[0].capacity_bytes == f@.capacity
                    &&& r@[0].used_bytes == if f@.used < f@.capacity {
                        f@.used
                    } else {
                        f@.capacity as int
                    }
                },
                None => exists|used: Seq<u64>|
                    {
                        &&& #[trigger] self.shard_use(used)
                        &&& r@.len() == self.devices@.len()
                        &&& forall|d: int|
                            0 <= d < r@.len() ==> self.device_use(d, used, #[trigger] r@[d])
                    },
            },
    {
        let mut out: Vec<KvSsdStorageDeviceUsage> = Vec::new();
        match &self.foyer {
            Some(f) => {
                out.push(
                    KvSsdStorageDeviceUsage {
                        device: block_device_label(f.root_dir().as_str()),
                        capacity_bytes: f.capacity_bytes(),
                        used_bytes: f.logical_used_bytes(),
                    },
                );
                return out;
            },
            None => {},
        }
        let used_by_shard = self.ring.used_bytes_by_shard();
        let ghost used = used_by_shard@;
        assert(self.shard_use(used));
        let mut d: usize = 0;
        while d < self.devices.len()
            invariant
                self.wf(),
                self.foyer is None,
                used == used_by_shard@,
                self.shard_use(used),
                d <= self.devices@.len(),
                out@.len() == d,
                forall|e: int| 0 <= e < d ==> self.device_use(e, used, #[trigger] out@[e]),
            decreases self.devices@.len() - d,
        {
            let (capacity_bytes, used_bytes) = self.sum_shards(d, &used_by_shard);
            let usage = KvSsdStorageDeviceUsage {
                device: device_label(
                    self.devices[d].device_id,
                    self.devices[d].root_dir.as_str(),
                ),
                capacity_bytes,
                used_bytes,
            };
            out.push(usage);
            d += 1;
        }
        out
    }

    fn sum_shards(&self, d: usize, used_by_shard: &Vec<u64>) -> (r: (u64, u64))
        requires
            self.wf(),
            self.foyer is None,
            d < self.devices@.len(),
            used_by_shard@.len() == self.ring@.shards.len(),
        ensures
            r.0 == saturated(capacity_sum(self.ring@, self.devices@[d as int].shard_ids@)),
            r.1 == saturated(used_sum(used_by_shard@, self.devices@[d as int].shard_ids@)),
    {
        let mut capacity_bytes: u64 = 0;
        let mut used_bytes: u64 = 0;
        let device = &self.devices[d];
        let ghost ids = device.shard_ids@;
        proof {
            assert(self.device_wf(d as int));
            assert(ids.take(0) =~= Seq::empty());
            self.ring.lemma_wf();
        }
        let mut i: usize = 0;
        while i < device.shard_ids.len()
            invariant
                self.wf(),
                self.foyer is None,
                self.ring@.inv(),
                d < self.devices@.len(),
                *device == self.devices@[d as int],
                self.device_wf(d as int),
                ids == device.shard_ids@,
                used_by_shard@.len() == self.ring@.shards.len(),
                i <= ids.len(),
                capacity_bytes == saturated(capacity_sum(self.ring@, ids.take(i as int))),
                used_bytes == saturated(used_sum(used_by_shard@, ids.take(i as int))),
            decreases ids.len() - i,
        {
            let shard_id: usize = device.shard_ids[i];
            proof {
                assert(ids.take(i + 1).drop_last() =~= ids.take(i as int));
                assert(ids.take(i + 1).last() == ids[i as int]);
                lemma_capacity_sum(self.ring@, ids.take(i as int));
                lemma_used_sum(used_by_shard@, ids.take(i as int));
                assert(self.ring@.shard_inv(shard_id as int));
            }
            capacity_bytes = capacity_bytes.saturating_add(device.max_shard_capacity);
            used_bytes = used_bytes.saturating_add(used_by_shard[shard_id]);
            i += 1;
        }
        assert(ids.take(ids.len() as int) =~= ids);
        (capacity_bytes, used_bytes)
    }

    /// The answer `r` to the wish to persist a value of `len` bytes, and the device that is next
    /// after it.
    pub open spec fn persist_answered(
        &self,
        key: Seq<char>,
        len: usize,
        r: Result<usize, SsdError>,
        next: usize,
    ) -> bool {
        if !self.admitting {
            r == Err::<usize, SsdError>(SsdError::SystemShutdown) && next == self.next_write_device
        } else if key.len() == 0 {
            r == Err::<usize, SsdError>(SsdError::InvalidArgument(ArgumentError::EmptyKey)) && next
                == self.next_write_device
        } else if len + SSD_ALIGNMENT - 1 > usize::MAX {
            r == Err::<usize, SsdError>(
                SsdError::InvalidArgument(ArgumentError::AlignmentOverflow { value: len as u64 }),
            ) && next == self.next_write_device
        } else if len == 0 {
            r == Err::<usize, SsdError>(
                SsdError::InvalidArgument(ArgumentError::BufferLength { buffer_len: 0 }),
            ) && next == self.next_write_device
        } else {
            self.device_picked(len as u64, r, next)
        }
    }

    /// Admits a value of `len` bytes and picks the device to write it to.
    pub fn persist(&mut self, key: &str, len: usize) -> (r: Result<usize, SsdError>)
        requires
            old(self).wf(),
            old(self).foyer is None,
        ensures
            final(self).wf(),
            *final(self) == (KvSsdStorage {
                next_write_device: final(self).next_write_device,
                ..*old(self)
            }),
            old(self).persist_answered(key@, len, r, final(self).next_write_device),
    {
        if !self.admitting {
            return Err(SsdError::SystemShutdown);
        }
        match validate_key(key) {
            Ok(_) => {},
            Err(e) => {
                return Err(SsdError::InvalidArgument(e));
            },
        }
        let aligned_len: usize = match align_up_usize(len, SSD_ALIGNMENT) {
            Ok(v) => v,
            Err(e) => {
                return Err(SsdError::InvalidArgument(e));
            },
        };
        proof {
            lemma_aligned_up(len as int, SSD_ALIGNMENT as int);
        }
        match crate::ssd_plan::validate_buffer_len(aligned_len) {
            Ok(_) => {},
            Err(e) => {
                return Err(SsdError::InvalidArgument(e));
            },
        }
        self.next_write_device(len as u64)
    }
}

proof fn lemma_capacity_sum(m: RingModel, ids: Seq<usize>)
    requires
        m.inv(),
        forall|i: int| 0 <= i < ids.len() ==> #[trigger] ids[i] < m.shards.len(),
    ensures
        capacity_sum(m, ids) >= 0,
    decreases ids.len(),
{
    if ids.len() > 0 {
        lemma_capacity_sum(m, ids.drop_last());
        assert(ids[ids.len() - 1] < m.shards.len());
        assert(m.shard_inv(ids.last() as int));
    }
}

proof fn lemma_used_sum(used: Seq<u64>, ids: Seq<usize>)
    ensures
        used_sum(used, ids) >= 0,
    decreases ids.len(),
{
    if ids.len() > 0 {
        lemma_used_sum(used, ids.drop_last());
    }
}

/// A version of a key that is gone from the SSD.
#[derive(Debug)]
pub struct SsdReplicaEviction {
    pub key: String,
    pub put_id: PutIDForAKey,
}

/// The evictions are announced, one by one.
pub open spec fn evictions_told(
    evicted: Seq<KvSsdKey>,
    shutting_down: bool,
    r: Option<Vec<SsdReplicaEviction>>,
) -> bool {
    &&& r is None <==> evicted.len() == 0 || shutting_down
    &&& r matches Some(out) ==> {
        &&& out@.len() == evicted.len()
        &&& forall|i: int|
            0 <= i < out@.len() ==> (#[trigger] out@[i]).key@ == evicted[i].key@ && out@[i].put_id
                == evicted[i].put_id
    }
}

/// The evictions to announce: none when there are none or the store is shutting down.
pub fn publish_ssd_evictions(evicted: &Vec<KvSsdKey>, shutting_down: bool) -> (r: Option<
    Vec<SsdReplicaEviction>,
>)
    ensures
        evictions_told(evicted@, shutting_down, r),
{
    if evicted.len() == 0 || shutting_down {
        return None;
    }
    let mut out: Vec<SsdReplicaEviction> = Vec::new();
    let mut i: usize = 0;
    while i < evicted.len()
        invariant
            i <= evicted@.len(),
            out@.len() == i,
            forall|j: int|
                0 <= j < i ==> (#[trigger] out@[j]).key@ == evicted@[j].key@ && out@[j].put_id
                    == evicted@[j].put_id,
        decreases evicted@.len() - i,
    {
        out.push(SsdReplicaEviction { key: evicted[i].key.clone(), put_id: evicted[i].put_id });
        i += 1;
    }
    Some(out)
}

/// A value that waits to be written. The ticket tells whom to answer.
pub struct WriteCommand {
    pub ticket: u64,
    pub key: KvSsdKey,
    pub entry_len: u64,
}

/// What a writer does next.
pub enum WriteStep {
    /// Write the value, after announcing the evicted keys.
    Start { ticket: u64, key: KvSsdKey, entry: SsdIndexEntry, evicted: Vec<KvSsdKey> },
    /// Answer the command.
    Reply { ticket: u64, result: Result<(), SsdError> },
    /// Wait for a command, a completion or for room.
    Wait,
}

/// The commands of one device, in order of arrival.
pub struct WriteQueue {
    device_idx: usize,
    pending: VecDeque<WriteCommand>,
    inflight: usize,
    max_inflight: usize,
}

/// The commands of one device, as mathematical values.
#[verifier::ext_equal]
pub struct WriteQueueModel {
    pub device_idx: int,
    pub pending: Seq<(u64, KeyId, u64)>,
    pub inflight: int,
    pub max_inflight: int,
}

/// The commands of a list.
pub open spec fn commands(list: Seq<WriteCommand>) -> Seq<(u64, KeyId, u64)> {
    Seq::new(list.len(), |i: int| (list[i].ticket, list[i].key@, list[i].entry_len))
}

impl View for WriteQueue {
    type V = WriteQueueModel;

    closed spec fn view(&self) -> WriteQueueModel {
        WriteQueueModel {
            device_idx: self.device_idx as int,
            pending: commands(self.pending@),
            inflight: self.inflight as int,
            max_inflight: self.max_inflight as int,
        }
    }
}

/// The first command of a queue was taken, or waits for room.
pub open spec fn queue_stepped(
    q: WriteQueueModel,
    store: KvSsdStorage,
    r: WriteStep,
    after: WriteQueueModel,
    ring: RingModel,
) -> bool {
    if q.pending.len() == 0 || q.inflight >= q.max_inflight {
        r is Wait && after == q && ring == store.ring@
    } else {
        let (ticket, k, len) = q.pending[0];
        let taken = WriteQueueModel { pending: q.pending.drop_first(), ..q };
        match r {
            WriteStep::Start { ticket: t, key, entry, evicted } => {
                &&& t == ticket && key@ == k
                &&& store.write_prepared(
                    q.device_idx,
                    k,
                    len,
                    PreparedSsdWrite::Ready { entry, evicted },
                    ring,
                )
                &&& after == (WriteQueueModel { inflight: q.inflight + 1, ..taken })
            },
            WriteStep::Reply { ticket: t, result } => {
                &&& t == ticket
                &&& after == taken
                &&& match result {
                    Ok(_) => store.write_prepared(
                        q.device_idx,
                        k,
                        len,
                        PreparedSsdWrite::Existing { pinned: true },
                        ring,
                    ),
                    Err(SsdError::KeyNotFound) => store.write_prepared(
                        q.device_idx,
                        k,
                        len,
                        PreparedSsdWrite::Existing { pinned: false },
                        ring,
                    ),
                    Err(SsdError::InvalidArgument(e)) => store.write_prepared(
                        q.device_idx,
                        k,
                        len,
                        PreparedSsdWrite::Refused(e),
                        ring,
                    ),
                    Err(_) => false,
                }
            },
            WriteStep::Wait => {
                &&& after == q
                &&& store.write_prepared(q.device_idx, k, len, PreparedSsdWrite::Blocked, ring)
            },
        }
    }
}

impl WriteQueue {
    /// No more writes are under way than allowed.
    pub closed spec fn wf(&self) -> bool {
        &&& self.inflight <= self.max_inflight
        &&& self.max_inflight > 0
    }

    pub fn new(device_idx: usize, write_inflight: usize) -> (r: Self)
        ensures
            r.wf(),
            r@ == (WriteQueueModel {
                device_idx: device_idx as int,
                pending: Seq::empty(),
                inflight: 0,
                max_inflight: if write_inflight == 0 {
                    1
                } else {
                    write_inflight as int
                },
            }),
    {
        let max_inflight: usize = if write_inflight == 0 {
            1
        } else {
            write_inflight
        };
        let r = WriteQueue { device_idx, pending: VecDeque::new(), inflight: 0, max_inflight };
        assert(commands(r.pending@) =~= Seq::empty());
        r
    }

    /// A new command goes to the end.
    pub fn push(&mut self, cmd: WriteCommand)
        requires
            old(self).wf(),
        ensures
            final(self).wf(),
            final(self)@ == (WriteQueueModel {
                pending: old(self)@.pending.push((cmd.ticket, cmd.key@, cmd.entry_len)),
                ..old(self)@
            }),
    {
        self.pending.push_back(cmd);
        assert(commands(self.pending@) =~= commands(old(self).pending@).push(
            (cmd.ticket, cmd.key@, cmd.entry_len),
        ));
    }

    /// A write has ended.
    pub fn completed(&mut self)
        requires
            old(self).wf(),
            old(self)@.inflight > 0,
        ensures
            final(self).wf(),
            final(self)@ == (WriteQueueModel { inflight: old(self)@.inflight - 1, ..old(self)@ }),
    {
        self.inflight = self.inflight - 1;
    }

    /// The command that is served next.
    pub fn first(&self) -> (r: Option<&WriteCommand>)
        ensures
            match r {
                Some(cmd) => self@.pending.len() > 0 && self@.pending[0] == (
                    cmd.ticket,
                    cmd.key@,
                    cmd.entry_len,
                ),
                None => self@.pending.len() == 0,
            },
    {
        if self.pending.len() == 0 {
            None
        } else {
            Some(&self.pending[0])
        }
    }

    /// Nothing waits and nothing is under way.
    pub fn drained(&self) -> (r: bool)
        ensures
            r == (self@.pending.len() == 0 && self@.inflight == 0),
    {
        self.pending.len() == 0 && self.inflight == 0
    }

    /// Takes the first command, if another write may start. A command without room stays first, so
    /// that commands are served in order.
    pub fn step(&mut self, store: &mut KvSsdStorage) -> (r: WriteStep)
        requires
            old(self).wf(),
            old(store).wf(),
            old(self)@.device_idx < old(store).devices@.len(),
            old(store).head_room(),
            old(self)@.pending.len() > 0 ==> old(store).pin_room(old(self)@.pending[0].1),
        ensures
            final(self).wf(),
            final(store).wf(),
            final(store).same_but_ring(old(store)),
            queue_stepped(old(self)@, *old(store), r, final(self)@, final(store).ring@),
    {
        if self.inflight >= self.max_inflight || self.pending.len() == 0 {
            return WriteStep::Wait;
        }
        let ghost before = self@;
        assert(before.pending[0] == (
            self.pending@[0].ticket,
            self.pending@[0].key@,
            self.pending@[0].entry_len,
        ));
        let popped = self.pending.pop_front();
        assert(commands(self.pending@) =~= before.pending.drop_first());
        match popped {
            None => WriteStep::Wait,
            Some(cmd) => {
                match store.prepare_ssd_write(self.device_idx, &cmd.key, cmd.entry_len) {
                    PreparedSsdWrite::Ready { entry, evicted } => {
                        self.inflight = self.inflight + 1;
                        WriteStep::Start { ticket: cmd.ticket, key: cmd.key, entry, evicted }
                    },
                    PreparedSsdWrite::Existing { pinned } => {
                        let result = if pinned {
                            Ok(())
                        } else {
                            Err(SsdError::KeyNotFound)
                        };
                        WriteStep::Reply { ticket: cmd.ticket, result }
                    },
                    PreparedSsdWrite::Blocked => {
                        self.pending.push_front(cmd);
                        assert(commands(self.pending@) =~= before.pending);
                        WriteStep::Wait
                    },
                    PreparedSsdWrite::Refused(e) => WriteStep::Reply {
                        ticket: cmd.ticket,
                        result: Err(SsdError::InvalidArgument(e)),
                    },
                }
            },
        }
    }
}

/// A value of the native backend that was written where it was given room, behind it padding, and that
/// is stored, is loaded whole or not at all, whatever else was written since: a target that is too
/// small and a wrong length are refused, and otherwise the place that is read holds exactly the bytes
/// that were persisted, wherever they go.
pub proof fn a_persisted_value_is_loaded(
    store: &KvSsdStorage,
    key: Seq<char>,
    put_id: PutIDForAKey,
    states: Seq<RingModel>,
    disks: Seq<Disk>,
    entry: SsdIndexEntry,
    disk: Disk,
    data: Seq<u8>,
    padding: Seq<u8>,
    target_addr: u64,
    len: u64,
    target_len: u64,
)
    requires
        store.admitting,
        key.len() > 0,
        data.len() > 0,
        data.len() == entry.len,
        data.len() + padding.len() == entry.aligned_len,
        states.len() > 0,
        disk_run(states, disks, (key, put_id), entry),
        disks[0] == written(disk, entry, data + padding),
        store.ring@ == states.last(),
        store.ring@.readable((key, put_id)) == Some(entry),
        store.devices@[store.shard_to_device@[entry.shard_id as int] as int].open,
    ensures
        store.load_fault(key, put_id, target_addr, len, target_len) == if target_len < len {
            Some(SsdError::InvalidArgument(ArgumentError::TargetTooSmall { len, target_len }))
        } else if len != data.len() {
            Some(
                SsdError::InvalidArgument(
                    ArgumentError::StoredLengthMismatch {
                        stored_len: data.len() as u64,
                        requested_len: len,
                    },
                ),
            )
        } else {
            None
        },
        read_back(disks.last(), entry) == data,
{
    a_stored_value_is_read_back(
        states,
        disks,
        (key, put_id),
        entry,
        disk,
        data,
        padding,
        disks.len() - 1,
    );
}

/// A value of the native backend that room was never asked for is not found.
pub proof fn a_value_never_persisted_is_not_found(
    store: &KvSsdStorage,
    key: Seq<char>,
    put_id: PutIDForAKey,
    caps: Seq<u64>,
    ops: Seq<RingOp>,
    states: Seq<RingModel>,
    target_addr: u64,
    len: u64,
    target_len: u64,
)
    requires
        store.admitting,
        key.len() > 0,
        len <= target_len,
        ring_run(caps, ops, states),
        store.ring@ == states.last(),
        forall|j: int|
            0 <= j < ops.len() ==> !(#[trigger] ops[j] matches RingOp::Prepare { key: k, .. } && k == (
                key,
                put_id,
            )),
    ensures
        store.load_fault(key, put_id, target_addr, len, target_len) == Some(SsdError::KeyNotFound),
{
    unknown_keys_have_no_entry(caps, ops, states, states.len() - 1, (key, put_id));
}

} // verus!
