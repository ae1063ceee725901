use fluxon_kv::error::{ArgumentError, SsdError};
use fluxon_kv::ssd_block_index::{CacheSource, FoyerKvSsdStorage};
use fluxon_kv::ssd_plan::{KvSsdStorageRootLimit, SsdReadPath};
use fluxon_kv::ssd_ring::KvSsdKey;
use fluxon_kv::ssd_storage::{
    block_device_label, device_label, publish_ssd_evictions, CloseAction, KvSsdStorage,
    KvSsdStorageBackend, KvSsdStorageInit, PreparedSsdWrite, WriteCommand, WriteQueue, WriteStep,
};
use fluxon_kv::ssd_worker::{
    io_type_for, prefer_read, queue_of_shard, IoType, KvSsdUringMode, PollResult, UringWorker,
    WorkerAction,
};
use fluxon_kv::text::shard_file_name;

fn key(name: &str, version: u64) -> KvSsdKey {
    KvSsdKey {
        key: name.to_string(),
        put_id: (version, 0),
    }
}

fn init(roots: &[(&str, u64)], backend: KvSsdStorageBackend) -> KvSsdStorageInit {
    KvSsdStorageInit {
        root_limits: roots
            .iter()
            .map(|(root_dir, limit_bytes)| KvSsdStorageRootLimit {
                root_dir: root_dir.to_string(),
                limit_bytes: *limit_bytes,
            })
            .collect(),
        uring_mode: KvSsdUringMode::SingleBuffer,
        backend,
    }
}

fn store(limit: u64) -> KvSsdStorage {
    KvSsdStorage::new(init(&[("a", limit)], KvSsdStorageBackend::Native), vec![1]).unwrap()
}

fn write(store: &mut KvSsdStorage, k: &KvSsdKey, len: u64) {
    let device = store.persist(&k.key, len as usize).unwrap();
    match store.prepare_ssd_write(device, k, len) {
        PreparedSsdWrite::Ready { .. } => {}
        _ => panic!("there must be room"),
    }
    store.finish_write_completion(k, true).unwrap();
    store.unpin(k);
}

#[test]
fn what_is_written_can_be_read() {
    let mut store = store(64 * 1024);
    let k = key("k", 1);
    write(&mut store, &k, 1000);
    let plan = store.load_into_addr(&k, 4096, 1000, 1024).unwrap();
    assert_eq!(plan.entry.len, 1000);
    assert_eq!(plan.entry.aligned_len, 1024);
    assert_eq!(plan.device_idx, 0);
    assert_eq!(plan.path, SsdReadPath::Direct);
    assert!(store.finish_read(&k, &plan.entry, true).is_ok());
    assert_eq!(
        store.load_into_addr(&key("k", 2), 4096, 1000, 1024).err(),
        Some(SsdError::KeyNotFound)
    );
    assert_eq!(
        store.load_into_addr(&k, 4096, 999, 1024).err(),
        Some(SsdError::InvalidArgument(
            ArgumentError::StoredLengthMismatch {
                stored_len: 1000,
                requested_len: 999
            }
        ))
    );
    assert_eq!(
        store.load_into_addr(&k, 4096, 1000, 999).err(),
        Some(SsdError::InvalidArgument(ArgumentError::TargetTooSmall {
            len: 1000,
            target_len: 999
        }))
    );
}

#[test]
fn a_value_is_read_in_chunks() {
    let mut store = store(64 * 1024);
    let k = key("chunked", 1);
    write(&mut store, &k, 2500);
    let plan = store
        .load_into_addr_chunks(&k, 8192, 2500, 2560, 2048)
        .unwrap();
    let lens: Vec<u64> = plan.chunks.iter().map(|c| c.payload_len).collect();
    assert_eq!(lens, vec![2048, 452]);
    store.unpin(&k);
}

#[test]
fn set_up_is_checked() {
    let native = KvSsdStorageBackend::Native;
    assert_eq!(
        init(&[], native).validate().err(),
        Some(ArgumentError::NoRoots)
    );
    assert_eq!(
        init(&[("a", 4096), ("b", 100)], native).validate().err(),
        Some(ArgumentError::RootLimitTooSmall {
            index: 1,
            limit_bytes: 100
        })
    );
    assert_eq!(
        init(&[("a", 4096), ("b", 4096)], KvSsdStorageBackend::Foyer)
            .validate()
            .err(),
        Some(ArgumentError::BackendNeedsOneRoot { roots: 2 })
    );
    assert!(init(&[("a", 4096)], native).validate().is_ok());
}

#[test]
fn roots_on_one_device_make_one_store() {
    let store = KvSsdStorage::new(
        init(
            &[("a", 4096), ("b", 4096), ("c", 8192)],
            KvSsdStorageBackend::Native,
        ),
        vec![1, 1, 2],
    )
    .unwrap();
    assert_eq!(store.root_dirs(), &vec!["a".to_string(), "c".to_string()]);
    let usage = store.device_usage_snapshot();
    assert_eq!(usage.len(), 2);
    assert_eq!(usage[0].device, "dev:1:a");
    assert_eq!(usage[1].device, "dev:2:c");
    assert_eq!(usage[0].capacity_bytes, 4096);
    assert_eq!(usage[1].capacity_bytes, 8192);
    assert_eq!(usage[1].used_bytes, 0);
}

fn block_store() -> KvSsdStorage {
    let limit = 128 * 1024 * 1024;
    KvSsdStorage::new(init(&[("a", limit)], KvSsdStorageBackend::Foyer), vec![1]).unwrap()
}

#[test]
fn the_block_cache_is_one_device() {
    let mut store = block_store();
    assert!(store.can_count_block(u64::MAX));
    store.block_persisted(key("k", 1), 100);
    assert!(!store.can_count_block(u64::MAX));
    let usage = store.device_usage_snapshot();
    assert_eq!(usage.len(), 1);
    assert_eq!(usage[0].device, "foyer:a");
    assert_eq!(usage[0].capacity_bytes, 128 * 1024 * 1024);
    assert_eq!(usage[0].used_bytes, 100);
    assert_eq!(device_label(u64::MAX, "/x"), "dev:18446744073709551615:/x");
    assert_eq!(device_label(0, ""), "dev:0:");
    assert_eq!(block_device_label("/x"), "foyer:/x");
}

#[test]
fn what_the_block_cache_holds_is_loaded_whole_or_not_at_all() {
    let mut store = block_store();
    let k = key("k", 1);
    let data = [7u8, 8, 9];
    assert!(store.admit_block_persist("k", 3).is_ok());
    assert_eq!(
        store.admit_block_persist("", 3).err(),
        Some(SsdError::InvalidArgument(ArgumentError::EmptyKey))
    );
    assert_eq!(
        store.admit_block_persist("k", 0).err(),
        Some(SsdError::InvalidArgument(ArgumentError::EmptyValue))
    );
    assert!(store.check_block_persist(&k, 3).is_ok());
    store.block_persisted(key("k", 1), 3);
    assert_eq!(
        store.check_block_persist(&k, 4).err(),
        Some(SsdError::InvalidArgument(
            ArgumentError::DuplicateLengthMismatch {
                existing_len: 3,
                requested_len: 4,
            }
        ))
    );

    let small = Some(SsdError::InvalidArgument(ArgumentError::TargetTooSmall {
        len: 3,
        target_len: 2,
    }));
    let found = Some((&data[..], CacheSource::Disk));
    assert_eq!(store.admit_block_load("k", 3, 2).err(), small);
    assert!(store.admit_block_load("k", 3, 3).is_ok());
    // A target that is too small is refused, whatever was found.
    assert_eq!(store.load_from_blocks(&k, None, 3, 2).err(), small);
    assert_eq!(store.device_usage_snapshot()[0].used_bytes, 3);
    assert_eq!(store.load_from_blocks(&k, found, 3, 3).unwrap(), &data);
    assert_eq!(
        store.load_from_blocks(&k, found, 2, 3).err(),
        Some(SsdError::InvalidArgument(
            ArgumentError::StoredLengthMismatch {
                stored_len: 3,
                requested_len: 2,
            }
        ))
    );
    let hits = |store: &KvSsdStorage| store.foyer.as_ref().unwrap().source_counts();
    assert_eq!(hits(&store), (0, 2, 0));
    // What is gone is forgotten.
    assert_eq!(
        store.load_from_blocks(&k, None, 3, 3).err(),
        Some(SsdError::KeyNotFound)
    );
    assert_eq!(store.device_usage_snapshot()[0].used_bytes, 0);

    let long = vec![5u8; 1000];
    let found = Some((&long[..], CacheSource::Memory));
    let (value, chunks) = store
        .load_chunks_from_blocks(&k, found, 4096, 1000, 1000, 512)
        .unwrap();
    assert_eq!(value, &long[..]);
    let parts: Vec<(u64, u64)> = chunks.iter().map(|c| (c.offset, c.payload_len)).collect();
    assert_eq!(parts, vec![(0, 512), (512, 488)]);
    assert_eq!(
        store
            .load_chunks_from_blocks(&k, found, 4096, 1000, 999, u64::MAX)
            .err(),
        Some(SsdError::InvalidArgument(ArgumentError::TargetTooSmall {
            len: 1000,
            target_len: 999,
        }))
    );
    assert_eq!(
        store
            .load_chunks_from_blocks(&k, found, 4096, 1000, 1000, u64::MAX)
            .err(),
        Some(SsdError::InvalidArgument(ArgumentError::AlignmentOverflow {
            value: u64::MAX,
        }))
    );
    assert_eq!(
        store
            .load_chunks_from_blocks(&k, found, u64::MAX - 511, 1000, 1000, 512)
            .err(),
        Some(SsdError::InvalidArgument(ArgumentError::SumOverflow {
            lhs: u64::MAX - 511,
            rhs: 512,
        }))
    );
    assert_eq!(hits(&store), (2, 2, 0));
    store.stop_admission();
    assert_eq!(
        store.admit_block_load("k", 3, 3).err(),
        Some(SsdError::SystemShutdown)
    );
    assert_eq!(
        store.admit_block_persist("k", 3).err(),
        Some(SsdError::SystemShutdown)
    );
}

#[test]
fn closing_refuses_new_work_and_can_be_repeated() {
    let mut store = store(64 * 1024);
    write(&mut store, &key("before-close", 1), 500);
    assert_eq!(store.close(), CloseAction::JoinWorkers);
    assert_eq!(
        store.persist("after-close", 500).err(),
        Some(SsdError::SystemShutdown)
    );
    assert_eq!(store.close(), CloseAction::AwaitJoin);
    store.workers_joined(true);
    assert_eq!(store.close(), CloseAction::Done(true));
    assert_eq!(store.close(), CloseAction::Done(true));
}

#[test]
fn a_pin_keeps_a_value_until_its_route_is_published() {
    let mut store = store(512);
    let mut queue = WriteQueue::new(0, 4);
    queue.push(WriteCommand {
        ticket: 1,
        key: key("old", 1),
        entry_len: 500,
    });
    match queue.step(&mut store) {
        WriteStep::Start { ticket, entry, .. } => {
            assert_eq!(ticket, 1);
            assert_eq!(entry.aligned_len, 512);
        }
        _ => panic!("the first write starts"),
    }
    assert!(store.finish_write_completion(&key("old", 1), true).is_ok());
    queue.completed();
    queue.push(WriteCommand {
        ticket: 2,
        key: key("new", 2),
        entry_len: 500,
    });
    assert!(matches!(queue.step(&mut store), WriteStep::Wait));
    assert!(!queue.drained());
    store.unpin(&key("old", 1));
    match queue.step(&mut store) {
        WriteStep::Start {
            ticket, evicted, ..
        } => {
            assert_eq!(ticket, 2);
            assert_eq!(evicted.len(), 1);
            let news = publish_ssd_evictions(&evicted, false).unwrap();
            assert_eq!(news[0].key, "old");
            assert!(publish_ssd_evictions(&evicted, true).is_none());
        }
        _ => panic!("the second write starts once the pin is gone"),
    }
}

#[test]
fn commands_are_answered_in_order() {
    let mut store = store(64 * 1024);
    let mut queue = WriteQueue::new(0, 1);
    for ticket in 1..3 {
        queue.push(WriteCommand {
            ticket,
            key: key("k", ticket),
            entry_len: 100,
        });
    }
    assert!(matches!(
        queue.step(&mut store),
        WriteStep::Start { ticket: 1, .. }
    ));
    assert!(matches!(queue.step(&mut store), WriteStep::Wait));
    assert!(store.finish_write_completion(&key("k", 1), false).is_err());
    queue.completed();
    assert!(matches!(
        queue.step(&mut store),
        WriteStep::Start { ticket: 2, .. }
    ));
}

#[test]
fn the_block_cache_index_counts_what_it_holds() {
    let limit = 128 * 1024 * 1024;
    assert!(matches!(
        FoyerKvSsdStorage::new("a".to_string(), 1024).err(),
        Some(ArgumentError::BackendCapacityTooSmall { .. })
    ));
    let mut index = FoyerKvSsdStorage::new("a".to_string(), limit).unwrap();
    assert_eq!(index.capacity_bytes(), limit);
    assert!(index.check_persist(&key("k", 1), 8193).is_ok());
    assert!(index.can_count(u64::MAX));
    index.persisted(key("k", 1), 8193);
    assert!(index.can_count(u64::MAX - 8193) && !index.can_count(u64::MAX - 8192));
    assert_eq!(index.logical_used_bytes(), 8193);
    assert!(index.check_persist(&key("k", 1), 100).is_err());
    index.forget_entry(&key("k", 1));
    assert_eq!(index.logical_used_bytes(), 0);
}

#[test]
fn a_worker_balances_reads_and_writes() {
    assert!(prefer_read(2, 1, 2));
    assert!(!prefer_read(3, 1, 2));
    assert_eq!(queue_of_shard(5, 4), 1);
    assert_eq!(
        io_type_for(KvSsdUringMode::SingleBuffer, true),
        IoType::Read
    );
    assert_eq!(io_type_for(KvSsdUringMode::Iovec, false), IoType::Writev);
    let mut worker = UringWorker::new(2, 2);
    assert_eq!(
        worker.next_action(true),
        WorkerAction::WaitForCommand {
            read: true,
            write: true
        }
    );
    assert!(worker.polled(true, PollResult::Command));
    let token = worker.next_submission_token();
    worker.record_submission(token, IoType::Read);
    assert_eq!(worker.complete(token), Some(IoType::Read));
    assert_eq!(worker.complete(token), None);
}

#[test]
fn shard_files_have_six_digits() {
    assert_eq!(shard_file_name(0), "shard-000000.dat");
    assert_eq!(shard_file_name(3), "shard-000003.dat");
    assert_eq!(shard_file_name(1234567), "shard-1234567.dat");
}
