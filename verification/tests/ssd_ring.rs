use fluxon_kv::align::SSD_ALIGNMENT;
use fluxon_kv::error::ArgumentError;
use fluxon_kv::path_component::{component_of_digest, safe_path_component};
use fluxon_kv::ssd_plan::{
    build_shard_specs, choose_chunk_read_path, choose_read_path, chunk_len,
    deduplicate_device_roots, plan_chunks, plan_range_read, select_write_device,
    validate_buffer_len, validate_key, KvSsdStorageRootLimit, SsdDeviceRoot, SsdReadPath,
};
use fluxon_kv::ssd_ring::{KvSsdKey, SsdIndexEntry, SsdPreparedWrite, SsdRingBuffer};
use fluxon_kv::ssd_worker::{submit_wait_error_action, IoType, SubmitFault, SubmitWaitAction};

fn test_key(key: &str, version: u64) -> KvSsdKey {
    KvSsdKey {
        key: key.to_string(),
        put_id: (version, 0),
    }
}

fn prepare_ready(ring: &mut SsdRingBuffer, key: &KvSsdKey) -> SsdIndexEntry {
    match ring.prepare_write(key.clone(), 500).unwrap() {
        SsdPreparedWrite::Ready { entry, .. } => entry,
        _ => panic!("expected ready SSD write"),
    }
}

#[test]
fn shard_specs_preserve_per_device_limits() {
    let device_roots = vec![
        SsdDeviceRoot {
            device_id: 1,
            root_dir: "/tmp/fluxon-test-ssd-a".to_string(),
            limit_bytes: 4 * SSD_ALIGNMENT as u64,
        },
        SsdDeviceRoot {
            device_id: 2,
            root_dir: "/tmp/fluxon-test-ssd-b".to_string(),
            limit_bytes: 8 * SSD_ALIGNMENT as u64,
        },
    ];

    let shard_specs = build_shard_specs(&device_roots).unwrap();
    let mut capacity_by_device = [0u64; 2];
    for spec in shard_specs {
        capacity_by_device[spec.device_idx] =
            capacity_by_device[spec.device_idx].saturating_add(spec.capacity);
    }

    assert_eq!(capacity_by_device[0], 4 * SSD_ALIGNMENT as u64);
    assert_eq!(capacity_by_device[1], 8 * SSD_ALIGNMENT as u64);
}

#[test]
fn write_device_selection_skips_devices_with_undersized_shards() {
    let capacities = vec![1024, 4096];

    assert_eq!(select_write_device(&capacities, 2048, 0), Some(1));
    assert_eq!(select_write_device(&capacities, 2048, 1), Some(1));
    assert_eq!(select_write_device(&capacities, 8192, 0), None);
    // A start behind the last device goes round too.
    assert_eq!(select_write_device(&capacities, 2048, 1_000_003), Some(1));
}

#[derive(Clone, Copy, Debug, PartialEq, Eq)]
enum ReferenceSqeShape {
    Read,
    Write,
    Readv,
    Writev,
}

fn fluxon_current_sqe_shape(io_type: IoType, iovec_count: usize) -> ReferenceSqeShape {
    assert!(iovec_count > 0);
    match io_type {
        IoType::Read => ReferenceSqeShape::Read,
        IoType::Write => ReferenceSqeShape::Write,
        IoType::Readv => ReferenceSqeShape::Readv,
        IoType::Writev => ReferenceSqeShape::Writev,
    }
}

fn ringline_reference_direct_io_sqe_shape(
    io_type: IoType,
    iovec_count: usize,
) -> Option<ReferenceSqeShape> {
    assert!(iovec_count > 0);
    match (io_type, iovec_count) {
        (IoType::Readv, 1) => Some(ReferenceSqeShape::Read),
        (IoType::Writev, 1) => Some(ReferenceSqeShape::Write),
        (_, _) => None,
    }
}

fn ringline_reference_direct_io_allowed(buf_addr: u64, len: u64, offset: u64) -> bool {
    len != 0
        && buf_addr % SSD_ALIGNMENT as u64 == 0
        && len % SSD_ALIGNMENT as u64 == 0
        && offset % SSD_ALIGNMENT as u64 == 0
}

#[test]
fn read_path_uses_direct_for_aligned_target_with_enough_capacity() {
    let aligned = SsdIndexEntry {
        shard_id: 0,
        begin: 0,
        len: 4096,
        aligned_len: 4096,
        file_offset: 0,
    };
    assert_eq!(
        choose_read_path(&aligned, 4096, 4096, 4096),
        SsdReadPath::Direct
    );
    assert_eq!(
        choose_read_path(&aligned, 4097, 4096, 4096),
        SsdReadPath::Scratch
    );

    let unaligned_len = SsdIndexEntry {
        len: 500,
        aligned_len: 512,
        ..aligned
    };
    assert_eq!(
        choose_read_path(&unaligned_len, 4096, 500, 512),
        SsdReadPath::Direct
    );
    assert_eq!(
        choose_read_path(&unaligned_len, 4096, 500, 500),
        SsdReadPath::Scratch
    );
}

#[test]
fn chunk_read_path_matches_ringline_alignment_plus_stage_capacity() {
    let cases = [
        (4096, 512, 512, 0, SsdReadPath::Direct),
        (4097, 512, 512, 0, SsdReadPath::Scratch),
        (4096, 500, 512, 0, SsdReadPath::Scratch),
        (4096, 512, 511, 0, SsdReadPath::Scratch),
        (4096, 512, 512, 1, SsdReadPath::Scratch),
        (4096, 0, 512, 0, SsdReadPath::Scratch),
    ];

    for (target_addr, read_len, target_len, file_offset, expected) in cases {
        let ringline_direct =
            ringline_reference_direct_io_allowed(target_addr, read_len, file_offset);
        assert_eq!(
            choose_chunk_read_path(target_addr, read_len, target_len, file_offset),
            expected
        );
        assert_eq!(
            expected == SsdReadPath::Direct,
            ringline_direct && target_len >= read_len
        );
    }
}

#[test]
fn full_read_path_adds_payload_contract_to_ringline_alignment() {
    let entry = SsdIndexEntry {
        shard_id: 0,
        begin: 0,
        len: 500,
        aligned_len: 512,
        file_offset: 0,
    };
    let target_addr = 4096;

    assert!(ringline_reference_direct_io_allowed(
        target_addr,
        entry.aligned_len,
        entry.file_offset
    ));
    assert_eq!(
        choose_read_path(&entry, target_addr, entry.len, entry.aligned_len),
        SsdReadPath::Direct
    );
    assert_eq!(
        choose_read_path(&entry, target_addr, entry.len - 1, entry.aligned_len),
        SsdReadPath::Scratch
    );
    assert_eq!(
        choose_read_path(&entry, target_addr, entry.len, entry.len),
        SsdReadPath::Scratch
    );
}

#[test]
fn ringline_reference_uses_single_buffer_direct_io_opcodes() {
    assert_eq!(
        fluxon_current_sqe_shape(IoType::Readv, 1),
        ReferenceSqeShape::Readv
    );
    assert_eq!(
        ringline_reference_direct_io_sqe_shape(IoType::Readv, 1),
        Some(ReferenceSqeShape::Read)
    );
    assert_eq!(
        fluxon_current_sqe_shape(IoType::Writev, 1),
        ReferenceSqeShape::Writev
    );
    assert_eq!(
        ringline_reference_direct_io_sqe_shape(IoType::Writev, 1),
        Some(ReferenceSqeShape::Write)
    );
    assert_eq!(
        ringline_reference_direct_io_sqe_shape(IoType::Readv, 2),
        None
    );
}

#[test]
fn submit_wait_error_action_classifies_transient_errors() {
    let fault = |err: std::io::Error| SubmitFault {
        interrupted: err.kind() == std::io::ErrorKind::Interrupted,
        os_error: err.raw_os_error(),
    };
    let interrupted = fault(std::io::Error::from(std::io::ErrorKind::Interrupted));
    let busy = fault(std::io::Error::from_raw_os_error(libc::EBUSY));
    let invalid = fault(std::io::Error::from_raw_os_error(libc::EINVAL));

    assert_eq!(
        submit_wait_error_action(interrupted),
        SubmitWaitAction::Retry
    );
    assert_eq!(
        submit_wait_error_action(busy),
        SubmitWaitAction::DrainCompletions
    );
    assert_eq!(
        submit_wait_error_action(invalid),
        SubmitWaitAction::FailWorker
    );
}

#[test]
fn ring_prepare_write_on_shards_uses_only_allowed_shards() {
    let mut ring = SsdRingBuffer::new(vec![1024, 1024, 1024, 1024]);
    let mut allocated_shards = Vec::new();

    for version in 0..4 {
        let key = test_key("per-device", version);
        let entry = match ring
            .prepare_write_on_shards(key.clone(), 500, &vec![1, 3])
            .unwrap()
        {
            SsdPreparedWrite::Ready { entry, .. } => entry,
            _ => panic!("expected ready SSD write"),
        };
        allocated_shards.push(entry.shard_id);
        assert!(ring.commit(&key, true));
    }

    assert_eq!(allocated_shards, vec![1, 3, 1, 3]);
}

#[test]
fn ring_read_pin_blocks_overwrite_until_unpinned() {
    let mut ring = SsdRingBuffer::new(vec![1024]);
    let old = test_key("old", 1);
    let filler = test_key("filler", 2);
    let new = test_key("new", 3);

    let old_entry = prepare_ready(&mut ring, &old);
    assert_eq!(old_entry.begin, 0);
    assert!(ring.commit(&old, true));
    prepare_ready(&mut ring, &filler);
    assert!(ring.commit(&filler, true));

    let pinned = ring.pin_read(&old).unwrap();
    assert_eq!(pinned.begin, old_entry.begin);
    assert!(matches!(
        ring.prepare_write(new.clone(), 500).unwrap(),
        SsdPreparedWrite::BlockedByBusyIo
    ));
    assert!(ring.get(&old).is_some());

    ring.unpin_read(&old);
    let new_entry = prepare_ready(&mut ring, &new);
    assert_eq!(new_entry.file_offset, 0);
    assert!(ring.commit(&new, true));
    assert!(ring.get(&old).is_none());
}

#[test]
fn ring_writing_entry_blocks_overwrite_until_write_finishes() {
    let mut ring = SsdRingBuffer::new(vec![1024]);
    let old = test_key("old", 1);
    let filler = test_key("filler", 2);
    let new = test_key("new", 3);

    let old_entry = prepare_ready(&mut ring, &old);
    assert_eq!(old_entry.begin, 0);
    prepare_ready(&mut ring, &filler);

    assert!(matches!(
        ring.prepare_write(new.clone(), 500).unwrap(),
        SsdPreparedWrite::BlockedByBusyIo
    ));

    assert!(ring.commit(&old, true));
    let new_entry = prepare_ready(&mut ring, &new);
    assert_eq!(new_entry.file_offset, 0);
}

#[test]
fn safe_component_is_stable_collision_resistant_and_has_no_dot_segments() {
    assert_eq!(
        safe_path_component("owner/a:b"),
        "v1-a2c1effab8d74aa90b8f7b43f9afa10f4c9f5899dd880fc176d33cc06cf7200a"
    );
    assert_ne!(
        safe_path_component("owner/a:b"),
        safe_path_component("owner_a_b")
    );
    for raw in ["", ".", "..", "owner/name"] {
        let component = safe_path_component(raw);
        assert_eq!(component.len(), 67);
        assert!(!matches!(component.as_str(), "." | ".."));
        assert!(!component.contains('/'));
    }
}

#[test]
fn a_component_spells_its_digest() {
    assert_eq!(component_of_digest(&[]), "v1-");
    assert_eq!(component_of_digest(&[0x00, 0x9f, 0xa0, 0xff]), "v1-009fa0ff");
}

#[test]
fn ring_hands_out_what_it_evicts() {
    let mut ring = SsdRingBuffer::new(vec![1024]);
    let old = test_key("old", 1);
    prepare_ready(&mut ring, &old);
    assert!(ring.commit(&old, true));
    let filler = test_key("filler", 2);
    prepare_ready(&mut ring, &filler);
    assert!(ring.commit(&filler, true));
    assert_eq!(ring.used_bytes_by_shard(), vec![1024]);
    match ring.prepare_write(test_key("new", 3), 500).unwrap() {
        SsdPreparedWrite::Ready { entry, evicted } => {
            assert_eq!(entry.begin, 1024);
            assert_eq!(entry.file_offset, 0);
            assert_eq!(entry.aligned_len, 512);
            assert_eq!(evicted.len(), 1);
            assert_eq!(evicted[0].key, "old");
            assert_eq!(evicted[0].put_id, (1, 0));
        }
        _ => panic!("there is room once the old value goes"),
    }
    assert!(ring.get(&old).is_none());
    assert!(ring.get(&filler).is_some());
}

#[test]
fn a_value_is_written_once() {
    let mut ring = SsdRingBuffer::new(vec![4096]);
    let key = test_key("k", 1);
    prepare_ready(&mut ring, &key);
    assert!(ring.commit(&key, true));
    assert!(matches!(
        ring.prepare_write(key.clone(), 500).unwrap(),
        SsdPreparedWrite::Existing
    ));
    assert_eq!(
        ring.prepare_write(key.clone(), 501).err(),
        Some(ArgumentError::DuplicateLengthMismatch {
            existing_len: 500,
            requested_len: 501
        })
    );
    ring.remove(&key);
    assert!(ring.get(&key).is_none());
}

#[test]
fn a_failed_write_leaves_nothing() {
    let mut ring = SsdRingBuffer::new(vec![4096]);
    let key = test_key("k", 1);
    prepare_ready(&mut ring, &key);
    assert!(ring.get(&key).is_none());
    assert!(!ring.commit(&key, false));
    assert!(ring.get(&key).is_none());
    assert!(!ring.commit(&key, true));
}

#[test]
fn values_larger_than_a_shard_are_refused() {
    let mut ring = SsdRingBuffer::new(vec![1024]);
    assert_eq!(
        ring.prepare_write(test_key("k", 1), 1025).err(),
        Some(ArgumentError::ExceedsShardCapacity {
            len: 1025,
            aligned_len: 1536,
            capacity: 1024
        })
    );
    assert_eq!(
        ring.prepare_write_on_shards(test_key("k", 1), 10, &vec![7])
            .err(),
        Some(ArgumentError::InvalidShardSet)
    );
    assert_eq!(
        ring.prepare_write_on_shards(test_key("k", 1), 10, &Vec::new())
            .err(),
        Some(ArgumentError::DeviceHasNoShards)
    );
    assert_eq!(
        ring.prepare_write(test_key("k", 1), u64::MAX).err(),
        Some(ArgumentError::AlignmentOverflow { value: u64::MAX })
    );
}

#[test]
fn reads_that_reach_out_of_an_entry_are_refused() {
    let entry = SsdIndexEntry {
        shard_id: 0,
        begin: 0,
        len: 1000,
        aligned_len: 1024,
        file_offset: 2048,
    };
    let read = plan_range_read(&entry, 512, 488, 4096, 512).unwrap();
    assert_eq!(read.file_offset, 2560);
    assert_eq!(read.read_len, 512);
    assert_eq!(read.payload_len, 488);
    assert_eq!(read.path, SsdReadPath::Direct);
    assert_eq!(
        plan_range_read(&entry, 0, 0, 4096, 512).err(),
        Some(ArgumentError::EmptyRange)
    );
    assert!(matches!(
        plan_range_read(&entry, 512, 489, 4096, 512).err(),
        Some(ArgumentError::RangeOutOfEntry { .. })
    ));
}

#[test]
fn chunks_cover_a_value_in_order() {
    assert_eq!(chunk_len(2000).unwrap(), 2048);
    let chunks = plan_chunks(2048, 2500, 8192, 2560).unwrap();
    assert_eq!(chunks.len(), 2);
    assert_eq!(chunks[0].offset, 0);
    assert_eq!(chunks[0].payload_len, 2048);
    assert_eq!(chunks[0].stage_addr, 8192);
    assert_eq!(chunks[1].offset, 2048);
    assert_eq!(chunks[1].payload_len, 452);
    assert_eq!(chunks[1].stage_addr, 8192 + 2048);
    // No chunk is empty.
    assert!(plan_chunks(2048, 0, 8192, 2560).unwrap().is_empty());
    assert_eq!(plan_chunks(2048, 4096, 8192, 4096).unwrap().len(), 2);
}

#[test]
fn a_write_evicts_what_the_tail_passes() {
    let mut ring = SsdRingBuffer::new(vec![1536]);
    for version in 1..=3 {
        let key = test_key("v", version);
        prepare_ready(&mut ring, &key);
        assert!(ring.commit(&key, true));
    }
    assert_eq!(ring.used_bytes_by_shard(), vec![1536]);
    match ring.prepare_write(test_key("v", 4), 1000).unwrap() {
        SsdPreparedWrite::Ready { evicted, .. } => {
            assert_eq!(evicted.len(), 2);
            assert!(evicted[0].put_id == test_key("v", 1).put_id);
            assert!(evicted[1].put_id == test_key("v", 2).put_id);
        }
        _ => panic!("expected ready SSD write"),
    }
    assert!(ring.get(&test_key("v", 3)).is_some());
    assert_eq!(ring.used_bytes_by_shard(), vec![1536]);
}

#[test]
fn as_many_unpins_undo_the_pins() {
    let mut ring = SsdRingBuffer::new(vec![512]);
    let key = test_key("pinned", 1);
    let entry = prepare_ready(&mut ring, &key);
    assert!(ring.commit(&key, true));
    for _ in 0..3 {
        assert!(ring.pin_read(&key).is_some());
    }
    assert_eq!(ring.pin_count(&key), 3);
    for _ in 0..3 {
        assert!(matches!(
            ring.prepare_write(test_key("next", 2), 500).unwrap(),
            SsdPreparedWrite::BlockedByBusyIo
        ));
        assert_eq!(ring.get(&key), Some(entry));
        ring.unpin_read(&key);
    }
    assert_eq!(ring.pin_count(&key), 0);
    prepare_ready(&mut ring, &test_key("next", 2));
    assert!(ring.get(&key).is_none());
}

#[test]
fn a_key_that_moved_to_another_shard_goes_with_its_old_place() {
    // The first try fails, the second one gets room in the other shard, and the tail of the first
    // shard takes the key along.
    let mut ring = SsdRingBuffer::new(vec![512, 512]);
    let key = test_key("moved", 1);
    assert_eq!(prepare_ready(&mut ring, &key).shard_id, 0);
    assert!(!ring.commit(&key, false));
    assert_eq!(prepare_ready(&mut ring, &key).shard_id, 1);
    assert!(ring.commit(&key, true));
    assert!(ring.get(&key).is_some());
    assert_eq!(prepare_ready(&mut ring, &test_key("next", 2)).shard_id, 0);
    assert!(ring.get(&key).is_none());
}

#[test]
fn arguments_are_checked() {
    assert_eq!(validate_key("").err(), Some(ArgumentError::EmptyKey));
    assert!(validate_key("k").is_ok());
    assert_eq!(
        validate_buffer_len(100).err(),
        Some(ArgumentError::BufferLength { buffer_len: 100 })
    );
    assert!(validate_buffer_len(512).is_ok());
}

#[test]
fn roots_on_one_device_count_once() {
    let limits = vec![
        KvSsdStorageRootLimit {
            root_dir: "a".to_string(),
            limit_bytes: 4096,
        },
        KvSsdStorageRootLimit {
            root_dir: "b".to_string(),
            limit_bytes: 8192,
        },
        KvSsdStorageRootLimit {
            root_dir: "c".to_string(),
            limit_bytes: 4096,
        },
    ];
    let roots = deduplicate_device_roots(&limits, &vec![5, 5, 6]).unwrap();
    assert_eq!(roots.len(), 2);
    assert_eq!(roots[0].root_dir, "a");
    assert_eq!(roots[0].device_id, 5);
    assert_eq!(roots[1].root_dir, "c");
    assert_eq!(roots[1].device_id, 6);
}
