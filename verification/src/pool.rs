use std::marker::PhantomData;
use vstd::prelude::*;

verus! {

/// The bookkeeping of one slot of a pool: whether it holds a value, and how many times it has
/// been handed out (wrapping).
#[derive(Clone, Copy, Debug, PartialEq, Eq, Structural)]
pub struct PoolObjectData {
    pub is_init: bool,
    pub generation: u64,
}

/// Why a pointer could not be locked.
#[derive(Clone, Copy, Debug, PartialEq, Eq, Structural)]
pub enum TryLockPtrError {
    WouldBlock,
    IsNull,
    IsNotAllocated,
}

/// A handle to a slot of a pool: its index and the generation the slot had when the handle
/// was made. A null handle refers to no slot.
pub struct Ptr<T> {
    pub offset: u64,
    pub generation: u64,
    pub null: bool,
    pub marker: PhantomData<T>,
}

impl<T> Clone for Ptr<T> {
    fn clone(&self) -> (r: Self)
        ensures
            r == *self,
    {
        Ptr { offset: self.offset, generation: self.generation, null: self.null, marker: PhantomData }
    }
}

impl<T> Copy for Ptr<T> {

}

/// What a pool holds: the bookkeeping and the value of each slot.
pub ghost struct PoolView<T> {
    pub meta: Seq<PoolObjectData>,
    pub values: Seq<Option<T>>,
}

/// A fixed number of slots, each empty or holding one value.
pub struct MemoryPool<T> {
    backing: Vec<Option<T>>,
    data: Vec<PoolObjectData>,
}

/// Bookkeeping and values agree: a slot holds a value exactly when it is marked allocated.
pub open spec fn pool_wf<T>(s: PoolView<T>) -> bool {
    &&& s.meta.len() == s.values.len()
    &&& s.meta.len() <= u64::MAX
    &&& forall|i: int| 0 <= i < s.meta.len() ==> (#[trigger] s.meta[i]).is_init == s.values[i] is Some
}

/// The pointer is null or names a slot of the pool.
pub open spec fn ptr_in_pool<T>(s: PoolView<T>, p: Ptr<T>) -> bool {
    p.null || p.offset < s.meta.len()
}

/// The generation a slot gets when it is handed out again.
pub open spec fn next_generation(g: u64) -> u64 {
    vstd::wrapping::u64_specs::wrapping_add(g, 1)
}

/// The first slot that holds no value, if any.
pub open spec fn first_free(meta: Seq<PoolObjectData>) -> Option<int> {
    if exists|i: int| 0 <= i < meta.len() && !(#[trigger] meta[i]).is_init {
        Some(
            choose|i: int|
                0 <= i < meta.len() && !(#[trigger] meta[i]).is_init && forall|j: int|
                    0 <= j < i ==> (#[trigger] meta[j]).is_init,
        )
    } else {
        None
    }
}

proof fn lemma_min_free(meta: Seq<PoolObjectData>, n: int) -> (k: int)
    requires
        0 <= n <= meta.len(),
        exists|i: int| 0 <= i < n && !(#[trigger] meta[i]).is_init,
    ensures
        0 <= k < n,
        !meta[k].is_init,
        forall|j: int| 0 <= j < k ==> (#[trigger] meta[j]).is_init,
    decreases n,
{
    if exists|i: int| 0 <= i < n - 1 && !(#[trigger] meta[i]).is_init {
        lemma_min_free(meta, n - 1)
    } else {
        let i = choose|i: int| 0 <= i < n && !(#[trigger] meta[i]).is_init;
        assert(i == n - 1);
        n - 1
    }
}

/// `first_free` names the lowest free slot, or none when every slot is taken.
proof fn lemma_first_free(meta: Seq<PoolObjectData>)
    ensures
        match first_free(meta) {
            Some(k) => 0 <= k < meta.len() && !meta[k].is_init && forall|j: int|
                0 <= j < k ==> (#[trigger] meta[j]).is_init,
            None => forall|i: int| 0 <= i < meta.len() ==> (#[trigger] meta[i]).is_init,
        },
{
    if exists|i: int| 0 <= i < meta.len() && !(#[trigger] meta[i]).is_init {
        let k = lemma_min_free(meta, meta.len() as int);
        assert(0 <= k < meta.len() && !(#[trigger] meta[k]).is_init && forall|j: int|
            0 <= j < k ==> (#[trigger] meta[j]).is_init);
    }
}

/// The null pointer.
pub open spec fn null_ptr<T>() -> Ptr<T> {
    Ptr { offset: 0, generation: 0, null: true, marker: PhantomData }
}

/// Allocation: the value goes to the first free slot, whose generation advances, and the
/// pointer names that slot and its new generation; with no free slot the pool is unchanged and
/// the pointer is null.
pub open spec fn spec_alloc<T>(s: PoolView<T>, v: T) -> (PoolView<T>, Ptr<T>) {
    match first_free(s.meta) {
        Some(i) => {
            let g = next_generation(s.meta[i].generation);
            (
                PoolView {
                    meta: s.meta.update(i, PoolObjectData { is_init: true, generation: g }),
                    values: s.values.update(i, Some(v)),
                },
                Ptr { offset: i as u64, generation: g, null: false, marker: PhantomData },
            )
        },
        None => (s, null_ptr()),
    }
}

/// What `lock` finds: an error for a null pointer or an empty slot, else the slot's value,
/// whatever its generation.
pub open spec fn spec_lock<T>(s: PoolView<T>, p: Ptr<T>) -> Result<T, TryLockPtrError> {
    if p.null {
        Err(TryLockPtrError::IsNull)
    } else if !s.meta[p.offset as int].is_init {
        Err(TryLockPtrError::IsNotAllocated)
    } else {
        Ok(s.values[p.offset as int].unwrap())
    }
}

/// What `try_lock` finds: as `lock`, but a slot whose generation is not the pointer's counts
/// as not allocated.
pub open spec fn spec_try_lock<T>(s: PoolView<T>, p: Ptr<T>) -> Result<T, TryLockPtrError> {
    if p.null {
        Err(TryLockPtrError::IsNull)
    } else if !s.meta[p.offset as int].is_init || s.meta[p.offset as int].generation
        != p.generation {
        Err(TryLockPtrError::IsNotAllocated)
    } else {
        Ok(s.values[p.offset as int].unwrap())
    }
}

/// Deletion: the slot is emptied if it is allocated with the pointer's generation; otherwise
/// nothing changes.
pub open spec fn spec_delete<T>(s: PoolView<T>, p: Ptr<T>) -> PoolView<T> {
    let i = p.offset as int;
    if s.meta[i].is_init && s.meta[i].generation == p.generation {
        PoolView {
            meta: s.meta.update(i, PoolObjectData { is_init: false, generation: p.generation }),
            values: s.values.update(i, None),
        }
    } else {
        s
    }
}

/// The pool with slot `i` holding `v`, bookkeeping unchanged.
pub open spec fn with_value<T>(s: PoolView<T>, i: int, v: T) -> PoolView<T> {
    PoolView { meta: s.meta, values: s.values.update(i, Some(v)) }
}

/// The pool with every slot empty and at generation 0.
pub open spec fn spec_reset<T>(n: nat) -> PoolView<T> {
    PoolView {
        meta: Seq::new(n, |i: int| PoolObjectData { is_init: false, generation: 0 }),
        values: Seq::new(n, |i: int| None),
    }
}

/// Slot `i` of the pool saved as `entry`: its generation, and its value as encoded by `enc`
/// when it holds one.
pub open spec fn encodes_slot<T, E, F: Fn(&T) -> Result<Vec<u8>, E>>(
    enc: F,
    s: PoolView<T>,
    i: int,
    entry: (Option<Vec<u8>>, u64),
) -> bool {
    &&& entry.1 == s.meta[i].generation
    &&& if s.meta[i].is_init {
        &&& entry.0 is Some
        &&& call_ensures(enc, (&s.values[i].unwrap(),), Ok(entry.0.unwrap()))
    } else {
        entry.0 is None
    }
}

/// Slot `i` restored from `entry`: allocated exactly when the entry holds bytes, with the
/// entry's generation, and holding what `dec` made of the bytes.
pub open spec fn decodes_slot<T, E, F: Fn(&Vec<u8>) -> Result<T, E>>(
    dec: F,
    s: PoolView<T>,
    i: int,
    entry: (Option<Vec<u8>>, u64),
) -> bool {
    &&& s.meta[i] == (PoolObjectData { is_init: entry.0 is Some, generation: entry.1 })
    &&& match entry.0 {
        Some(b) => s.values[i] is Some && call_ensures(dec, (&b,), Ok(s.values[i].unwrap())),
        None => s.values[i] is None,
    }
}

impl<T> View for MemoryPool<T> {
    type V = PoolView<T>;

    closed spec fn view(&self) -> PoolView<T> {
        PoolView { meta: self.data@, values: self.backing@ }
    }
}

/// Exclusive access to the value of a slot, for as long as the guard lives.
pub struct LifeGuard<'a, T> {
    pub rf: &'a mut T,
}

impl<'a, T> LifeGuard<'a, T> {
    /// The value behind the guard.
    pub fn read(&self) -> (r: &T)
        ensures
            *r == *old(self.rf),
    {
        self.rf
    }

    /// The value behind the guard, for writing.
    pub fn write(&mut self) -> (r: &mut T)
        ensures
            *r == *old(self).rf,
            *final(r) == *final(self).rf,
            *final(final(self).rf) == *final(old(self).rf),
    {
        self.rf
    }
}

impl<T> Ptr<T> {
    /// A pointer to no slot.
    pub fn null() -> (r: Self)
        ensures
            r == null_ptr::<T>(),
    {
        Ptr { offset: 0, generation: 0, null: true, marker: PhantomData }
    }

    /// Whether the pointer is null.
    pub fn is_null(&self) -> (r: bool)
        ensures
            r == self.null,
    {
        self.null
    }

    /// Allocates `x` in `pool`; see `MemoryPool::alloc_pooled`.
    pub fn new(x: T, pool: &mut MemoryPool<T>) -> (r: Self)
        requires
            pool_wf(old(pool)@),
        ensures
            pool_wf(final(pool)@),
            (final(pool)@, r) == spec_alloc(old(pool)@, x),
    {
        pool.alloc_pooled(x)
    }

    /// Access to the slot's value. Fails for a null pointer and for an empty slot; the
    /// generation is not compared, so a pointer to a slot that was emptied and filled again
    /// reaches the new value.
    pub fn lock<'a>(&self, pool: &'a mut MemoryPool<T>) -> (r: Result<LifeGuard<'a, T>, TryLockPtrError>)
        requires
            pool_wf(old(pool)@),
            ptr_in_pool(old(pool)@, *self),
        ensures
            match spec_lock(old(pool)@, *self) {
                Err(e) => r == Err::<LifeGuard<'a, T>, TryLockPtrError>(e) && final(pool)@ == old(pool)@,
                Ok(v) => (r is Ok) && *r->Ok_0.rf == v && final(pool)@ == with_value(
                    old(pool)@,
                    self.offset as int,
                    *final(r->Ok_0.rf),
                ),
            },
    {
        if self.null {
            return Err(TryLockPtrError::IsNull);
        }
        let _n = pool.capacity();
        pool.guard(self.offset as usize)
    }

    /// Access to the slot's value, as `lock`, but a pointer whose generation is not the
    /// slot's is refused as not allocated.
    pub fn try_lock<'a>(&self, pool: &'a mut MemoryPool<T>) -> (r: Result<
        LifeGuard<'a, T>,
        TryLockPtrError,
    >)
        requires
            pool_wf(old(pool)@),
            ptr_in_pool(old(pool)@, *self),
        ensures
            match spec_try_lock(old(pool)@, *self) {
                Err(e) => r == Err::<LifeGuard<'a, T>, TryLockPtrError>(e) && final(pool)@ == old(pool)@,
                Ok(v) => (r is Ok) && *r->Ok_0.rf == v && final(pool)@ == with_value(
                    old(pool)@,
                    self.offset as int,
                    *final(r->Ok_0.rf),
                ),
            },
    {
        if self.null {
            return Err(TryLockPtrError::IsNull);
        }
        let _n = pool.capacity();
        let i = self.offset as usize;
        let d = pool.data[i];
        if d.generation != self.generation {
            return Err(TryLockPtrError::IsNotAllocated);
        }
        pool.guard(i)
    }

    /// Empties the slot if it is allocated with this pointer's generation; otherwise does
    /// nothing.
    pub fn delete(&self, pool: &mut MemoryPool<T>)
        requires
            pool_wf(old(pool)@),
            !self.null,
            ptr_in_pool(old(pool)@, *self),
        ensures
            pool_wf(final(pool)@),
            final(pool)@ == spec_delete(old(pool)@, *self),
    {
        let _n = pool.capacity();
        let i = self.offset as usize;
        let d = pool.data[i];
        if !d.is_init || d.generation != self.generation {
            return;
        }
        pool.backing.set(i, None);
        pool.data.set(i, PoolObjectData { is_init: false, generation: d.generation });
        proof {
            assert(pool@.values =~= spec_delete(old(pool)@, *self).values);
            assert(pool@.meta =~= spec_delete(old(pool)@, *self).meta);
        }
    }
}

impl<T> MemoryPool<T> {
    /// A pool of `count` empty slots, all at generation 0.
    pub fn new(count: usize) -> (r: Self)
        ensures
            pool_wf(r@),
            r@ == spec_reset::<T>(count as nat),
    {
        let mut backing: Vec<Option<T>> = Vec::new();
        let mut data: Vec<PoolObjectData> = Vec::new();
        let mut i: usize = 0;
        while i < count
            invariant
                i <= count,
                backing@.len() == i,
                data@.len() == i,
                forall|k: int| 0 <= k < i ==> (#[trigger] backing@[k]) is None,
                forall|k: int|
                    0 <= k < i ==> #[trigger] data@[k] == (PoolObjectData { is_init: false, generation: 0 }),
            decreases count - i,
        {
            backing.push(None);
            data.push(PoolObjectData { is_init: false, generation: 0 });
            i = i + 1;
        }
        let r = MemoryPool { backing, data };
        proof {
            assert(r@.meta =~= spec_reset::<T>(count as nat).meta);
            assert(r@.values =~= spec_reset::<T>(count as nat).values);
        }
        r
    }

    /// The number of slots.
    pub fn capacity(&self) -> (r: usize)
        requires
            pool_wf(self@),
        ensures
            r == self@.meta.len(),
    {
        self.data.len()
    }

    /// The bookkeeping of slot `i`.
    pub fn object_data(&self, i: usize) -> (r: PoolObjectData)
        requires
            pool_wf(self@),
            i < self@.meta.len(),
        ensures
            r == self@.meta[i as int],
    {
        self.data[i]
    }

    /// A guard on slot `i`, or `IsNotAllocated` when it is empty.
    fn guard<'a>(&'a mut self, i: usize) -> (r: Result<LifeGuard<'a, T>, TryLockPtrError>)
        requires
            pool_wf(old(self)@),
            i < old(self)@.meta.len(),
        ensures
            !old(self)@.meta[i as int].is_init ==> (r == Err::<LifeGuard<'a, T>, TryLockPtrError>(
                TryLockPtrError::IsNotAllocated,
            ) && final(self)@ == old(self)@),
            old(self)@.meta[i as int].is_init ==> ((r is Ok) && *r->Ok_0.rf == old(
                self,
            )@.values[i as int].unwrap() && final(self)@ == with_value(
                old(self)@,
                i as int,
                *final(r->Ok_0.rf),
            )),
    {
        assert(self@.meta[i as int].is_init == self@.values[i as int] is Some);
        if !self.data[i].is_init {
            return Err(TryLockPtrError::IsNotAllocated);
        }
        let entry = &mut self.backing[i];
        match entry.as_mut() {
            Some(v) => {
                Ok(LifeGuard { rf: v })
            },
            None => Err(TryLockPtrError::IsNotAllocated),
        }
    }

    /// Puts `v` in the first empty slot, advances that slot's generation (wrapping) and returns
    /// a pointer to it; returns a null pointer, leaving the pool as it is, when every slot is
    /// taken.
    pub fn alloc_pooled(&mut self, v: T) -> (r: Ptr<T>)
        requires
            pool_wf(old(self)@),
        ensures
            pool_wf(final(self)@),
            (final(self)@, r) == spec_alloc(old(self)@, v),
    {
        let n = self.data.len();
        let mut i: usize = 0;
        while i < n
            invariant
                n == self@.meta.len(),
                pool_wf(self@),
                self@ == old(self)@,
                i <= n,
                forall|j: int| 0 <= j < i ==> (#[trigger] self@.meta[j]).is_init,
            decreases n - i,
        {
            let d = self.data[i];
            if !d.is_init {
                let g = d.generation.wrapping_add(1);
                self.data.set(i, PoolObjectData { is_init: true, generation: g });
                self.backing.set(i, Some(v));
                proof {
                    let s = old(self)@;
                    assert(first_free(s.meta) == Some(i as int)) by {
                        assert(!s.meta[i as int].is_init);
                        let k = choose|k: int|
                            0 <= k < s.meta.len() && !(#[trigger] s.meta[k]).is_init && forall|j: int|
                                0 <= j < k ==> (#[trigger] s.meta[j]).is_init;
                        if k < i {
                            assert(s.meta[k].is_init);
                        }
                        if i < k {
                            assert(s.meta[i as int].is_init);
                        }
                    }
                    assert(self@.values =~= s.values.update(i as int, Some(v)));
                    assert(self@.meta =~= s.meta.update(
                        i as int,
                        PoolObjectData { is_init: true, generation: g },
                    ));
                }
                return Ptr { offset: i as u64, generation: g, null: false, marker: PhantomData };
            }
            i = i + 1;
        }
        proof {
            assert(!(exists|j: int| 0 <= j < n && !(#[trigger] self@.meta[j]).is_init));
        }
        Ptr::null()
    }

    /// Each slot as the pair of its value encoded by `enc` (nothing for an empty slot) and its
    /// generation, in slot order; the first error of `enc` is returned instead.
    pub fn serialize<E, F: Fn(&T) -> Result<Vec<u8>, E>>(&self, enc: &F) -> (r: Result<
        Vec<(Option<Vec<u8>>, u64)>,
        E,
    >)
        requires
            pool_wf(self@),
            forall|i: int|
                0 <= i < self@.meta.len() && (#[trigger] self@.meta[i]).is_init ==> call_requires(
                    *enc,
                    (&self@.values[i].unwrap(),),
                ),
        ensures
            match r {
                Ok(out) => out@.len() == self@.meta.len() && forall|i: int|
                    0 <= i < out@.len() ==> encodes_slot(*enc, self@, i, #[trigger] out@[i]),
                Err(e) => exists|i: int|
                    0 <= i < self@.meta.len() && (#[trigger] self@.meta[i]).is_init && call_ensures(
                        *enc,
                        (&self@.values[i].unwrap(),),
                        Err(e),
                    ),
            },
    {
        let n = self.data.len();
        let mut out: Vec<(Option<Vec<u8>>, u64)> = Vec::new();
        let mut i: usize = 0;
        while i < n
            invariant
                n == self@.meta.len(),
                pool_wf(self@),
                i <= n,
                out@.len() == i,
                forall|k: int|
                    0 <= k < self@.meta.len() && (#[trigger] self@.meta[k]).is_init ==> call_requires(
                        *enc,
                        (&self@.values[k].unwrap(),),
                    ),
                forall|k: int| 0 <= k < i ==> encodes_slot(*enc, self@, k, #[trigger] out@[k]),
            decreases n - i,
        {
            let d = self.data[i];
            assert(self@.meta[i as int].is_init == self@.values[i as int] is Some);
            match &self.backing[i] {
                Some(v) => {
                    match enc(v) {
                        Ok(b) => {
                            out.push((Some(b), d.generation));
                        },
                        Err(e) => {
                            assert(self@.meta[i as int].is_init);
                            return Err(e);
                        },
                    }
                },
                None => {
                    out.push((None, d.generation));
                },
            }
            i = i + 1;
        }
        Ok(out)
    }

    /// Restores the first `bytes.len()` slots from `bytes`: each becomes allocated exactly
    /// when its entry holds bytes, takes the entry's generation and holds what `dec` makes of
    /// the bytes. All entries are decoded first; at the first error of `dec` it is returned and
    /// the pool is left as it was.
    pub fn deserialize<E, F: Fn(&Vec<u8>) -> Result<T, E>>(
        &mut self,
        bytes: Vec<(Option<Vec<u8>>, u64)>,
        dec: &F,
    ) -> (r: Result<(), E>)
        requires
            pool_wf(old(self)@),
            bytes@.len() <= old(self)@.meta.len(),
            forall|i: int|
                0 <= i < bytes@.len() && (#[trigger] bytes@[i]).0 is Some ==> call_requires(
                    *dec,
                    (&bytes@[i].0.unwrap(),),
                ),
        ensures
            pool_wf(final(self)@),
            match r {
                Ok(_) => {
                    &&& final(self)@.meta.len() == old(self)@.meta.len()
                    &&& forall|i: int|
                        0 <= i < bytes@.len() ==> decodes_slot(*dec, final(self)@, i, #[trigger] bytes@[i])
                    &&& forall|i: int|
                        bytes@.len() <= i < old(self)@.meta.len() ==> #[trigger] final(self)@.meta[i]
                            == old(self)@.meta[i] && final(self)@.values[i] == old(self)@.values[i]
                },
                Err(e) => final(self)@ == old(self)@ && exists|i: int|
                    0 <= i < bytes@.len() && (#[trigger] bytes@[i]).0 is Some && call_ensures(
                        *dec,
                        (&bytes@[i].0.unwrap(),),
                        Err(e),
                    ),
            },
    {
        let n = bytes.len();
        let mut list: Vec<Option<T>> = Vec::new();
        let mut i: usize = 0;
        while i < n
            invariant
                n == bytes@.len(),
                pool_wf(self@),
                self@ == old(self)@,
                bytes@.len() <= old(self)@.meta.len(),
                i <= n,
                list@.len() == i,
                forall|k: int|
                    0 <= k < bytes@.len() && (#[trigger] bytes@[k]).0 is Some ==> call_requires(
                        *dec,
                        (&bytes@[k].0.unwrap(),),
                    ),
                forall|k: int|
                    0 <= k < i ==> match (#[trigger] bytes@[k]).0 {
                        Some(b) => list@[k] is Some && call_ensures(*dec, (&b,), Ok(list@[k].unwrap())),
                        None => list@[k] is None,
                    },
            decreases n - i,
        {
            match &bytes[i].0 {
                Some(b) => {
                    match dec(b) {
                        Ok(v) => {
                            list.push(Some(v));
                        },
                        Err(e) => {
                            assert(bytes@[i as int].0 is Some);
                            return Err(e);
                        },
                    }
                },
                None => {
                    list.push(None);
                },
            }
            i = i + 1;
        }
        let ghost before = self@;
        let mut list = list;
        let mut idx: usize = n;
        while idx > 0
            invariant
                n == bytes@.len(),
                n <= before.meta.len(),
                idx <= n,
                list@.len() == idx,
                pool_wf(self@),
                self@.meta.len() == before.meta.len(),
                forall|k: int|
                    0 <= k < idx ==> match (#[trigger] bytes@[k]).0 {
                        Some(b) => list@[k] is Some && call_ensures(*dec, (&b,), Ok(list@[k].unwrap())),
                        None => list@[k] is None,
                    },
                forall|k: int| idx <= k < n ==> decodes_slot(*dec, self@, k, #[trigger] bytes@[k]),
                forall|k: int|
                    n <= k < before.meta.len() ==> #[trigger] self@.meta[k] == before.meta[k]
                        && self@.values[k] == before.values[k],
            decreases idx,
        {
            idx = idx - 1;
            let ghost mid = self@;
            let value = list.pop().unwrap();
            let generation = bytes[idx].1;
            let is_init = value.is_some();
            self.data.set(idx, PoolObjectData { is_init, generation });
            self.backing.set(idx, value);
            proof {
                assert(decodes_slot(*dec, self@, idx as int, bytes@[idx as int]));
                assert forall|k: int| n <= k < before.meta.len() implies #[trigger] self@.meta[k] == before.meta[k]
                    && self@.values[k] == before.values[k] by {
                    assert(mid.meta[k] == before.meta[k]);
                    assert(mid.values[k] == before.values[k]);
                }
                assert forall|k: int| idx <= k < n implies decodes_slot(*dec, self@, k, #[trigger] bytes@[k]) by {
                    if k != idx {
                        assert(decodes_slot(*dec, mid, k, bytes@[k]));
                        assert(self@.meta[k] == mid.meta[k]);
                        assert(self@.values[k] == mid.values[k]);
                    }
                }
            }
        }
        Ok(())
    }

    /// Empties every slot and sets every generation back to 0.
    pub fn reset(&mut self)
        requires
            pool_wf(old(self)@),
        ensures
            pool_wf(final(self)@),
            final(self)@ == spec_reset::<T>(old(self)@.meta.len()),
    {
        let n = self.data.len();
        let mut i: usize = 0;
        while i < n
            invariant
                n == self@.meta.len(),
                n == old(self)@.meta.len(),
                pool_wf(self@),
                i <= n,
                forall|j: int|
                    0 <= j < i ==> #[trigger] self@.meta[j] == (PoolObjectData {
                        is_init: false,
                        generation: 0,
                    }),
            decreases n - i,
        {
            self.backing.set(i, None);
            self.data.set(i, PoolObjectData { is_init: false, generation: 0 });
            i = i + 1;
        }
        proof {
            let r = spec_reset::<T>(n as nat);
            assert(self@.meta =~= r.meta);
            assert forall|j: int| 0 <= j < n implies self@.values[j] == r.values[j] by {
                assert(self@.meta[j].is_init == self@.values[j] is Some);
            }
            assert(self@.values =~= r.values);
        }
    }
}

/// A value placed by an allocation is what `lock` and `try_lock` find through the pointer the
/// allocation returned, and the pool stays well formed.
pub proof fn law_lock_finds_allocated_value<T>(s: PoolView<T>, v: T)
    requires
        pool_wf(s),
    ensures
        pool_wf(spec_alloc(s, v).0),
        !spec_alloc(s, v).1.null ==> spec_lock(spec_alloc(s, v).0, spec_alloc(s, v).1) == Ok::<
            T,
            TryLockPtrError,
        >(v) && spec_try_lock(spec_alloc(s, v).0, spec_alloc(s, v).1) == Ok::<T, TryLockPtrError>(v),
{
    lemma_first_free(s.meta);
    if let Some(k) = first_free(s.meta) {
        let s2 = spec_alloc(s, v).0;
        assert forall|j: int| 0 <= j < s2.meta.len() implies (#[trigger] s2.meta[j]).is_init
            == s2.values[j] is Some by {
            if j != k {
                assert(s.meta[j].is_init == s.values[j] is Some);
            }
        }
    }
}

/// An allocation fails, returning a null pointer and leaving the pool as it is, exactly when
/// every slot is taken.
pub proof fn law_alloc_fails_only_when_full<T>(s: PoolView<T>, v: T)
    requires
        pool_wf(s),
    ensures
        spec_alloc(s, v).1.null <==> forall|i: int| 0 <= i < s.meta.len() ==> (#[trigger] s.meta[i]).is_init,
        spec_alloc(s, v).1.null ==> spec_alloc(s, v).0 == s,
{
    lemma_first_free(s.meta);
}

/// Once a live pointer is deleted, both `lock` and `try_lock` refuse it as not allocated.
pub proof fn law_deleted_pointer_is_refused<T>(s: PoolView<T>, p: Ptr<T>)
    requires
        pool_wf(s),
        !p.null,
        ptr_in_pool(s, p),
        spec_try_lock(s, p) is Ok,
    ensures
        pool_wf(spec_delete(s, p)),
        spec_lock(spec_delete(s, p), p) == Err::<T, TryLockPtrError>(TryLockPtrError::IsNotAllocated),
        spec_try_lock(spec_delete(s, p), p) == Err::<T, TryLockPtrError>(
            TryLockPtrError::IsNotAllocated,
        ),
{
    let s2 = spec_delete(s, p);
    assert forall|j: int| 0 <= j < s2.meta.len() implies (#[trigger] s2.meta[j]).is_init
        == s2.values[j] is Some by {
        if j != p.offset {
            assert(s.meta[j].is_init == s.values[j] is Some);
        }
    }
}

/// A pointer kept after its slot was deleted and handed out again is refused by `try_lock`,
/// since the slot's generation moved on; `lock`, which does not compare generations, reaches
/// the new value.
pub proof fn law_stale_pointer_after_reuse<T>(s: PoolView<T>, p: Ptr<T>, w: T)
    requires
        pool_wf(s),
        !p.null,
        ptr_in_pool(s, p),
        spec_try_lock(s, p) is Ok,
        spec_alloc(spec_delete(s, p), w).1.offset == p.offset,
        !spec_alloc(spec_delete(s, p), w).1.null,
    ensures
        spec_try_lock(spec_alloc(spec_delete(s, p), w).0, p) == Err::<T, TryLockPtrError>(
            TryLockPtrError::IsNotAllocated,
        ),
        spec_lock(spec_alloc(spec_delete(s, p), w).0, p) == Ok::<T, TryLockPtrError>(w),
{
    let s2 = spec_delete(s, p);
    law_deleted_pointer_is_refused(s, p);
    law_lock_finds_allocated_value(s2, w);
    lemma_first_free(s2.meta);
    let k = first_free(s2.meta)->0;
    assert(k == p.offset as int);
    let g = s2.meta[k].generation;
    assert(g == p.generation);
    assert(next_generation(g) != g);
}

/// After a reset no pointer reaches a value.
pub proof fn law_reset_refuses_every_pointer<T>(n: nat, p: Ptr<T>)
    requires
        n <= u64::MAX,
        ptr_in_pool(spec_reset::<T>(n), p),
    ensures
        pool_wf(spec_reset::<T>(n)),
        spec_lock(spec_reset::<T>(n), p) is Err,
        spec_try_lock(spec_reset::<T>(n), p) is Err,
{
}

/// Restoring a pool from what was saved of it gives the pool back, when decoding gives back
/// what encoding was given.
pub proof fn law_restore_after_save<T, E, F: Fn(&T) -> Result<Vec<u8>, E>, G: Fn(&Vec<u8>) -> Result<T, E>>(
    enc: F,
    dec: G,
    s: PoolView<T>,
    saved: Seq<(Option<Vec<u8>>, u64)>,
    restored: PoolView<T>,
)
    requires
        pool_wf(s),
        pool_wf(restored),
        forall|v: T, b: Vec<u8>, w: T|
            #![trigger call_ensures(enc, (&v,), Ok::<Vec<u8>, E>(b)), call_ensures(dec, (&b,), Ok::<T, E>(w))]
            call_ensures(enc, (&v,), Ok::<Vec<u8>, E>(b)) && call_ensures(dec, (&b,), Ok::<T, E>(w))
                ==> v == w,
        saved.len() == s.meta.len(),
        forall|i: int| 0 <= i < saved.len() ==> encodes_slot(enc, s, i, #[trigger] saved[i]),
        restored.meta.len() == s.meta.len(),
        forall|i: int| 0 <= i < saved.len() ==> decodes_slot(dec, restored, i, #[trigger] saved[i]),
    ensures
        restored == s,
{
    assert forall|i: int| 0 <= i < s.meta.len() implies #[trigger] restored.values[i] == s.values[i]
        && restored.meta[i] == s.meta[i] by {
        assert(encodes_slot(enc, s, i, saved[i]));
        assert(decodes_slot(dec, restored, i, saved[i]));
        assert(s.meta[i].is_init == s.values[i] is Some);
        if s.meta[i].is_init {
            let v = s.values[i].unwrap();
            let b = saved[i].0.unwrap();
            let w = restored.values[i].unwrap();
            assert(call_ensures(enc, (&v,), Ok::<Vec<u8>, E>(b)));
            assert(call_ensures(dec, (&b,), Ok::<T, E>(w)));
        }
    }
    assert(restored.values =~= s.values);
    assert(restored.meta =~= s.meta);
}

} // verus!
