use ssd_moe::buffer_pool::BufferPool;
use ssd_moe::expert_cache::{ExpertCache, ExpertResident};
use std::sync::Arc;

fn make(id: u32, pool: &mut BufferPool) -> Arc<ExpertResident> {
    let buf = pool.try_acquire().unwrap();
    Arc::new(ExpertResident::new(id, buf))
}

fn drop_last_handle(resident: Arc<ExpertResident>, pool: &mut BufferPool) {
    let resident = Arc::try_unwrap(resident).ok().unwrap();
    pool.release(resident.buffer);
}

#[test]
fn lru_eviction_returns_buffer_to_pool() {
    let mut pool = BufferPool::new(3, 4096, 4096);
    let mut cache = ExpertCache::new(2);

    cache.insert(make(0, &mut pool)).ok().unwrap();
    cache.insert(make(1, &mut pool)).ok().unwrap();
    let scratch = pool.try_acquire().unwrap();
    assert!(pool.try_acquire().is_none());
    pool.release(scratch);

    let evicted = match cache.insert(make(2, &mut pool)) {
        Ok(Some(e)) => e,
        other => panic!("expected Ok(Some(_)), got {:?}", other.is_ok()),
    };
    assert_eq!(evicted.id, 0);
    drop_last_handle(evicted, &mut pool);
    assert!(pool.try_acquire().is_some());
}

#[test]
fn hit_updates_recency() {
    let mut pool = BufferPool::new(3, 4096, 4096);
    let mut cache = ExpertCache::new(2);
    cache.insert(make(0, &mut pool)).ok().unwrap();
    cache.insert(make(1, &mut pool)).ok().unwrap();
    let _ = cache.get(0);
    cache.insert(make(2, &mut pool)).ok().unwrap();
    assert!(cache.contains(0));
    assert!(!cache.contains(1));
}

#[test]
fn pinned_protected_from_eviction() {
    let mut pool = BufferPool::new(4, 4096, 4096);
    let mut cache = ExpertCache::new(2);
    cache.insert(make(0, &mut pool)).ok().unwrap();
    cache.insert(make(1, &mut pool)).ok().unwrap();
    cache.pin(0);
    let evicted = match cache.insert(make(2, &mut pool)) {
        Ok(Some(e)) => e,
        _ => panic!("expected Ok(Some(_))"),
    };
    assert_eq!(evicted.id, 1);
    assert!(cache.contains(0));
}

#[test]
fn an_inserted_expert_is_found() {
    let mut pool = BufferPool::new(2, 4096, 4096);
    let mut cache = ExpertCache::new(2);
    assert!(cache.get(5).is_none());
    let mut buf = pool.try_acquire().unwrap();
    buf.as_mut_slice()[0] = 42;
    assert!(matches!(cache.insert(Arc::new(ExpertResident::new(5, buf))), Ok(None)));
    assert_eq!(cache.len(), 1);
    assert_eq!(cache.capacity(), 2);
    let found = cache.get(5).unwrap();
    assert_eq!(found.id, 5);
    assert_eq!(found.data()[0], 42);
    assert_eq!(found.data().len(), 4096);
}

#[test]
fn the_same_expert_is_replaced() {
    let mut pool = BufferPool::new(3, 4096, 4096);
    let mut cache = ExpertCache::new(2);
    cache.insert(make(7, &mut pool)).ok().unwrap();
    cache.insert(make(8, &mut pool)).ok().unwrap();
    let mut buf = pool.try_acquire().unwrap();
    buf.as_mut_slice()[1] = 1;
    let old = match cache.insert(Arc::new(ExpertResident::new(7, buf))) {
        Ok(Some(e)) => e,
        _ => panic!("expected the old resident"),
    };
    assert_eq!(old.id, 7);
    assert_eq!(old.data()[1], 0);
    assert_eq!(cache.get(7).unwrap().data()[1], 1);
    assert_eq!(cache.len(), 2);
}

#[test]
fn a_cache_full_of_pinned_experts_refuses() {
    let mut pool = BufferPool::new(3, 4096, 4096);
    let mut cache = ExpertCache::new(2);
    cache.insert(make(0, &mut pool)).ok().unwrap();
    cache.insert(make(1, &mut pool)).ok().unwrap();
    cache.pin(0);
    cache.pin(1);
    match cache.insert(make(2, &mut pool)) {
        Err(back) => assert_eq!(back.id, 2),
        Ok(_) => panic!("expected a refusal"),
    }
    assert!(cache.contains(0) && cache.contains(1) && !cache.contains(2));
    assert!(cache.evict_lru().is_none());
    cache.unpin(1);
    assert!(cache.is_pinned(0) && !cache.is_pinned(1));
    assert_eq!(cache.evict_lru().unwrap().id, 1);
    assert_eq!(cache.len(), 1);
}

#[test]
fn eviction_goes_by_recency() {
    let mut pool = BufferPool::new(3, 4096, 4096);
    let mut cache = ExpertCache::new(3);
    for id in 0..3 {
        cache.insert(make(id, &mut pool)).ok().unwrap();
    }
    assert!(cache.contains(0));
    cache.get(0).unwrap();
    assert_eq!(cache.evict_lru().unwrap().id, 1);
    assert_eq!(cache.evict_lru().unwrap().id, 2);
    assert_eq!(cache.evict_lru().unwrap().id, 0);
    assert!(cache.evict_lru().is_none());
}
