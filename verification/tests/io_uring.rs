use ssd_moe::buffer_pool::BufferPool;
use ssd_moe::io_uring::{
    Batch, FileTable, IoUringConfig, IoUringStorage, OpenStep, ReactorRequest, ReadEntry,
    UringError,
};

fn config(expert_size: usize, queue_depth: u32) -> IoUringConfig {
    IoUringConfig { base_path: "/models/experts".to_string(), expert_size, queue_depth }
}

fn open_all(batch: &mut Batch, storage: &IoUringStorage, table: &mut FileTable) -> Vec<String> {
    let mut opened = Vec::new();
    loop {
        match batch.next_open(storage, table) {
            OpenStep::Open { id, path } => {
                assert_eq!(table.add(id), opened.len());
                opened.push(path);
            }
            OpenStep::Ready => return opened,
        }
    }
}

#[test]
fn default_config() {
    let c = IoUringConfig::default();
    assert_eq!(c.base_path, ".");
    assert_eq!(c.expert_size, 0);
    assert_eq!(c.queue_depth, 64);
}

#[test]
fn an_empty_pool_and_a_ring_without_room_are_refused() {
    let mut pool = BufferPool::new(1, 4096, 4096);
    assert_eq!(IoUringStorage::new(config(4096, 0), &pool).err(), Some(UringError::ZeroDepth));
    assert!(IoUringStorage::new(config(4096, 1), &pool).is_ok());
    let _taken = pool.try_acquire().unwrap();
    assert_eq!(IoUringStorage::new(config(4096, 1), &pool).err(), Some(UringError::EmptyPool));
    assert_eq!(IoUringStorage::new(config(4096, 0), &pool).err(), Some(UringError::EmptyPool));
}

#[test]
fn requests_name_the_buffers() {
    let mut pool = BufferPool::new(2, 4096, 4096);
    let storage = IoUringStorage::new(config(4096, 8), &pool).ok().unwrap();
    assert_eq!(storage.expert_size(), 4096);
    assert_eq!(storage.queue_depth(), 8);
    let a = pool.try_acquire().unwrap();
    let b = pool.try_acquire().unwrap();
    let one = storage.read_expert(7, &a);
    assert_eq!((one.ids, one.ptrs, one.len), (vec![7], vec![a.address()], 4096));
    let two = storage.read_experts_batch(&[3, 4], &[&b, &a]).unwrap();
    assert_eq!(two.ids, vec![3, 4]);
    assert_eq!(two.ptrs, vec![b.address(), a.address()]);
    assert_eq!(two.len, 4096);
    assert!(storage.read_experts_batch(&[], &[]).is_none());
    assert_eq!(storage.expert_path(12), "/models/experts/expert_12.bin");
}

#[test]
fn a_batch_goes_through_the_ring_in_chunks() {
    let mut pool = BufferPool::new(3, 4096, 4096);
    let iovecs = pool.raw_iovecs();
    let storage = IoUringStorage::new(config(4096, 2), &pool).ok().unwrap();
    let bufs = vec![
        pool.try_acquire().unwrap(),
        pool.try_acquire().unwrap(),
        pool.try_acquire().unwrap(),
    ];
    let request =
        storage.read_experts_batch(&[5, 6, 5], &[&bufs[0], &bufs[1], &bufs[2]]).unwrap();
    let mut batch = Batch::new(&storage, request);
    let mut table = FileTable::new();
    assert_eq!(table.slot(5), None);
    let opened = open_all(&mut batch, &storage, &mut table);
    assert_eq!(opened, vec!["/models/experts/expert_5.bin", "/models/experts/expert_6.bin"]);
    assert_eq!(table.slot(6), Some(1));

    let first = batch.next_chunk(&storage).unwrap().unwrap();
    assert_eq!(
        first,
        vec![
            ReadEntry { file: 0, ptr: iovecs[2].0, len: 4096, buf_index: 2, user_data: 5 },
            ReadEntry { file: 1, ptr: iovecs[1].0, len: 4096, buf_index: 1, user_data: 6 },
        ]
    );
    let second = batch.next_chunk(&storage).unwrap().unwrap();
    assert_eq!(
        second,
        vec![ReadEntry { file: 0, ptr: iovecs[0].0, len: 4096, buf_index: 0, user_data: 5 }]
    );
    assert!(batch.next_chunk(&storage).unwrap().is_none());

    assert_eq!(batch.outstanding(), 3);
    batch.complete(6, 4096);
    batch.complete(5, 4096);
    assert_eq!(batch.outstanding(), 1);
    batch.complete(5, 4096);
    assert_eq!(batch.finish(), Ok(3 * 4096));
}

#[test]
fn open_files_are_not_opened_again() {
    let mut pool = BufferPool::new(1, 4096, 4096);
    let storage = IoUringStorage::new(config(4096, 2), &pool).ok().unwrap();
    let buf = pool.try_acquire().unwrap();
    let mut table = FileTable::new();
    let mut batch = Batch::new(&storage, storage.read_expert(9, &buf));
    assert_eq!(open_all(&mut batch, &storage, &mut table).len(), 1);
    let mut again = Batch::new(&storage, storage.read_expert(9, &buf));
    assert!(matches!(again.next_open(&storage, &table), OpenStep::Ready));
    assert_eq!(again.next_chunk(&storage).unwrap().unwrap()[0].file, 0);
}

#[test]
fn the_first_failure_is_reported() {
    let mut pool = BufferPool::new(3, 4096, 4096);
    let storage = IoUringStorage::new(config(4096, 4), &pool).ok().unwrap();
    let bufs = vec![
        pool.try_acquire().unwrap(),
        pool.try_acquire().unwrap(),
        pool.try_acquire().unwrap(),
    ];
    let refs = [&bufs[0], &bufs[1], &bufs[2]];

    let mut failed =
        Batch::new(&storage, storage.read_experts_batch(&[1, 2, 3], &refs).unwrap());
    failed.complete(3, 4096);
    failed.complete(1, -5);
    failed.complete(2, 100);
    assert_eq!(failed.finish(), Err(UringError::Failed { expert: 1, result: -5 }));

    let mut short =
        Batch::new(&storage, storage.read_experts_batch(&[1, 2, 3], &refs).unwrap());
    short.complete(2, 100);
    short.complete(1, -5);
    short.complete(3, 4096);
    assert_eq!(
        short.finish(),
        Err(UringError::ShortRead { expert: 2, got: 100, expected: 4096 })
    );

    let mut long =
        Batch::new(&storage, storage.read_experts_batch(&[1, 2, 3], &refs).unwrap());
    long.complete(1, 4096);
    long.complete(2, 4097);
    long.complete(3, 0);
    assert_eq!(
        long.finish(),
        Err(UringError::ShortRead { expert: 2, got: 4097, expected: 4096 })
    );
}

#[test]
fn an_unknown_buffer_fails_the_batch() {
    let mut pool = BufferPool::new(2, 4096, 4096);
    let early = pool.try_acquire().unwrap();
    let storage = IoUringStorage::new(config(4096, 1), &pool).ok().unwrap();
    let late = pool.try_acquire().unwrap();
    let request = storage.read_experts_batch(&[0, 1], &[&late, &early]).unwrap();
    let mut batch = Batch::new(&storage, request);
    let mut table = FileTable::new();
    open_all(&mut batch, &storage, &mut table);
    assert_eq!(batch.next_chunk(&storage).unwrap().unwrap().len(), 1);
    assert_eq!(batch.next_chunk(&storage).err(), Some(UringError::NotRegistered));
}

#[test]
fn an_empty_batch_reads_nothing() {
    let pool = BufferPool::new(1, 4096, 4096);
    let storage = IoUringStorage::new(config(4096, 1), &pool).ok().unwrap();
    let request = ReactorRequest { ids: Vec::new(), ptrs: Vec::new(), len: 0 };
    let mut batch = Batch::new(&storage, request);
    let table = FileTable::new();
    assert!(matches!(batch.next_open(&storage, &table), OpenStep::Ready));
    assert!(batch.next_chunk(&storage).unwrap().is_none());
    assert_eq!(batch.finish(), Ok(0));
}
