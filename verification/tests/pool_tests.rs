use citygen::pool::{MemoryPool, PoolObjectData, Ptr, TryLockPtrError};

#[test]
fn alloc_then_lock_reads_the_value() {
    let mut pool: MemoryPool<i32> = MemoryPool::new(4);
    let p = Ptr::new(10, &mut pool);
    assert!(!p.is_null());
    assert_eq!(p.offset, 0);
    assert_eq!(p.generation, 1);
    let g = p.lock(&mut pool).ok().unwrap();
    assert_eq!(*g.read(), 10);
}

#[test]
fn write_through_guard_is_seen_by_next_lock() {
    let mut pool: MemoryPool<i32> = MemoryPool::new(2);
    let p = pool.alloc_pooled(1);
    {
        let mut g = p.lock(&mut pool).ok().unwrap();
        *g.write() = 42;
        assert_eq!(*g.read(), 42);
    }
    let g = p.try_lock(&mut pool).ok().unwrap();
    assert_eq!(*g.read(), 42);
}

#[test]
fn null_pointer_is_refused() {
    let mut pool: MemoryPool<u8> = MemoryPool::new(1);
    let p: Ptr<u8> = Ptr::null();
    assert!(p.is_null());
    assert_eq!(p.lock(&mut pool).err(), Some(TryLockPtrError::IsNull));
    assert_eq!(p.try_lock(&mut pool).err(), Some(TryLockPtrError::IsNull));
}

#[test]
fn full_pool_returns_null() {
    let mut pool: MemoryPool<u8> = MemoryPool::new(2);
    let a = pool.alloc_pooled(1);
    let b = pool.alloc_pooled(2);
    let c = pool.alloc_pooled(3);
    assert_eq!(a.offset, 0);
    assert_eq!(b.offset, 1);
    assert!(c.is_null());
    assert_eq!(pool.capacity(), 2);
}

#[test]
fn deleted_pointer_is_refused_and_slot_reused() {
    let mut pool: MemoryPool<i32> = MemoryPool::new(2);
    let a = pool.alloc_pooled(5);
    a.delete(&mut pool);
    assert_eq!(a.lock(&mut pool).err(), Some(TryLockPtrError::IsNotAllocated));
    assert_eq!(a.try_lock(&mut pool).err(), Some(TryLockPtrError::IsNotAllocated));
    assert_eq!(pool.object_data(0), PoolObjectData { is_init: false, generation: 1 });
    let b = pool.alloc_pooled(6);
    assert_eq!(b.offset, 0);
    assert_eq!(b.generation, 2);
    // The stale pointer is refused by try_lock, which compares generations ...
    assert_eq!(a.try_lock(&mut pool).err(), Some(TryLockPtrError::IsNotAllocated));
    // ... but lock does not compare them, and reaches the new value.
    assert_eq!(*a.lock(&mut pool).ok().unwrap().read(), 6);
    // Deleting through the stale pointer does nothing.
    a.delete(&mut pool);
    assert_eq!(*b.lock(&mut pool).ok().unwrap().read(), 6);
}

#[test]
fn reset_empties_every_slot() {
    let mut pool: MemoryPool<i32> = MemoryPool::new(3);
    let a = pool.alloc_pooled(1);
    let _b = pool.alloc_pooled(2);
    pool.reset();
    assert_eq!(a.lock(&mut pool).err(), Some(TryLockPtrError::IsNotAllocated));
    assert_eq!(pool.object_data(1), PoolObjectData { is_init: false, generation: 0 });
    let c = pool.alloc_pooled(3);
    assert_eq!(c.generation, 1);
}

#[test]
fn serialize_then_deserialize_restores_the_pool() {
    let mut pool: MemoryPool<i32> = MemoryPool::new(3);
    let a = pool.alloc_pooled(11);
    let b = pool.alloc_pooled(22);
    a.delete(&mut pool);
    let enc = |v: &i32| rmp_serde::to_vec(v);
    let saved = pool.serialize(&enc).ok().unwrap();
    assert_eq!(saved.len(), 3);
    assert_eq!(saved[0].0, None);
    assert_eq!(saved[0].1, 1);
    assert!(saved[1].0.is_some());
    assert_eq!(saved[1].1, 1);
    assert_eq!(saved[2], (None, 0));
    let mut other: MemoryPool<i32> = MemoryPool::new(3);
    let _x = other.alloc_pooled(99);
    let dec = |b: &Vec<u8>| rmp_serde::from_slice::<i32>(b);
    assert!(other.deserialize(saved, &dec).is_ok());
    assert_eq!(*b.lock(&mut other).ok().unwrap().read(), 22);
    assert_eq!(a.lock(&mut other).err(), Some(TryLockPtrError::IsNotAllocated));
    assert_eq!(other.object_data(0), PoolObjectData { is_init: false, generation: 1 });
}

#[test]
fn failed_deserialize_leaves_the_pool() {
    let mut pool: MemoryPool<i32> = MemoryPool::new(2);
    let a = pool.alloc_pooled(3);
    let bad = vec![(Some(vec![0xc1u8]), 5u64), (None, 2u64)];
    let dec = |b: &Vec<u8>| rmp_serde::from_slice::<i32>(b);
    assert!(pool.deserialize(bad, &dec).is_err());
    assert_eq!(*a.lock(&mut pool).ok().unwrap().read(), 3);
    assert_eq!(pool.object_data(1), PoolObjectData { is_init: false, generation: 0 });
}

#[test]
fn generation_advances_on_each_reuse() {
    let mut pool: MemoryPool<i32> = MemoryPool::new(1);
    let mut p = pool.alloc_pooled(0);
    for i in 0..3 {
        p.delete(&mut pool);
        p = pool.alloc_pooled(i);
    }
    assert_eq!(p.generation, 4);
}
