use std::borrow::Borrow;
use std::collections::{HashMap, HashSet};
use std::hash::Hash;
use vstd::prelude::*;
use vstd::std_specs::hash::{
    borrowed_key_removed, contains_borrowed_key, maps_borrowed_key_to_value, obeys_key_model,
    set_contains_borrowed_key, sets_borrowed_key_to_key, sets_differ_by_borrowed_key,
};

verus! {

broadcast use vstd::std_specs::hash::group_hash_axioms;

/// `HashMap::get_mut`: the value of `k`, for writing, if it has one. No key is added or
/// dropped; the result refers to the value of one entry, and what is written through it is
/// that entry's value afterwards, the others staying as they were. For a key type that
/// behaves as a hash table expects, that entry is `k`'s: `k` maps to the value found before,
/// and to what was written through the result after; without an entry the map is left as it
/// is.
#[verifier::external_body]
fn map_get_mut<'a, K: Borrow<Q> + Hash + Eq, V, Q: ?Sized + Hash + Eq>(
    m: &'a mut HashMap<K, V>,
    k: &Q,
) -> (r: Option<&'a mut V>)
    ensures
        final(m)@.dom() == old(m)@.dom(),
        match r {
            Some(v) => exists|key: K|
                old(m)@.contains_key(key) && old(m)@[key] == *v && final(m)@ == old(m)@.insert(
                    key,
                    *final(v),
                ),
            None => true,
        },
        obeys_key_model::<K>() ==> match r {
            Some(v) => maps_borrowed_key_to_value(old(m)@, k, *v) && maps_borrowed_key_to_value(
                final(m)@,
                k,
                *final(v),
            ),
            None => !contains_borrowed_key(old(m)@, k) && final(m)@ == old(m)@,
        },
{
    m.get_mut(k)
}

/// A map from keys to values.
///
/// The map's contracts hold for key types whose `Hash` and `Eq` behave as a
/// hash table expects (`obeys_key_model`), as std's `HashMap` does.
pub struct ConcurrentHashMap<T: Hash + Eq, U> {
    inner: HashMap<T, U>,
}

impl<T: Hash + Eq, U> ConcurrentHashMap<T, U> {
    /// The entries of the map.
    pub closed spec fn entries(&self) -> Map<T, U> {
        self.inner@
    }

    /// An empty map.
    pub fn new() -> (r: Self)
        ensures
            r.entries() == Map::<T, U>::empty(),
    {
        ConcurrentHashMap { inner: HashMap::new() }
    }

    /// Sets the value of `key`, and returns the value it had before, if any.
    pub fn insert(&mut self, key: T, value: U) -> (r: Option<U>)
        ensures
            obeys_key_model::<T>() ==> {
                &&& final(self).entries() == old(self).entries().insert(key, value)
                &&& match r {
                    Some(v) => old(self).entries().contains_key(key) && v == old(self).entries()[key],
                    None => !old(self).entries().contains_key(key),
                }
            },
    {
        self.inner.insert(key, value)
    }

    /// Removes `key`, and returns the value it had, if any.
    pub fn remove<V: ?Sized + Hash + Eq>(&mut self, key: &V) -> (r: Option<U>)
        where
            T: Borrow<V>,
        ensures
            obeys_key_model::<T>() ==> {
                &&& borrowed_key_removed(old(self).entries(), final(self).entries(), key)
                &&& match r {
                    Some(v) => maps_borrowed_key_to_value(old(self).entries(), key, v),
                    None => !contains_borrowed_key(old(self).entries(), key),
                }
            },
    {
        self.inner.remove(key)
    }

    /// Whether `key` has a value.
    pub fn contains_key<V: ?Sized + Hash + Eq>(&self, key: &V) -> (r: bool)
        where
            T: Borrow<V>,
        ensures
            obeys_key_model::<T>() ==> r == contains_borrowed_key(self.entries(), key),
    {
        self.inner.contains_key(key)
    }

    /// The number of entries.
    pub fn len(&self) -> (r: usize)
        ensures
            obeys_key_model::<T>() ==> r == self.entries().len(),
    {
        self.inner.len()
    }

    /// Runs `to_run` on `key` and the value it has, if any, and returns what it returns.
    pub fn with<V: ?Sized + Hash + Eq, W, F: FnOnce(&V, Option<&U>) -> W>(
        &self,
        key: &V,
        to_run: F,
    ) -> (r: W)
        where
            T: Borrow<V>,
        requires
            forall|v: Option<&U>| #[trigger] call_requires(to_run, (key, v)),
        ensures
            exists|v: Option<&U>|
                {
                    &&& obeys_key_model::<T>() ==> match v {
                        Some(u) => maps_borrowed_key_to_value(self.entries(), key, *u),
                        None => !contains_borrowed_key(self.entries(), key),
                    }
                    &&& #[trigger] call_ensures(to_run, (key, v), r)
                },
    {
        let v0 = self.inner.get(key);
        to_run(key, v0)
    }

    /// Runs `to_run` on `key` and the value it has, if any, letting it change the value,
    /// and returns what it returns.
    pub fn with_mut<V: ?Sized + Hash + Eq, W, F: FnOnce(&V, Option<&mut U>) -> W>(
        &mut self,
        key: &V,
        to_run: F,
    ) -> (r: W)
        where
            T: Borrow<V>,
        requires
            forall|v: Option<&mut U>| #[trigger] call_requires(to_run, (key, v)),
        ensures
            final(self).entries().dom() == old(self).entries().dom(),
            exists|v: Option<&mut U>|
                {
                    &&& #[trigger] call_ensures(to_run, (key, v), r)
                    &&& match v {
                        Some(u) => exists|k: T|
                            old(self).entries().contains_key(k) && old(self).entries()[k] == *u
                                && final(self).entries() == old(self).entries().insert(k, *final(u)),
                        None => true,
                    }
                    &&& obeys_key_model::<T>() ==> match v {
                        Some(u) => maps_borrowed_key_to_value(old(self).entries(), key, *u)
                            && maps_borrowed_key_to_value(final(self).entries(), key, *final(u)),
                        None => !contains_borrowed_key(old(self).entries(), key) && final(self).entries()
                            == old(self).entries(),
                    }
                },
    {
        let v0 = map_get_mut(&mut self.inner, key);
        let r = to_run(key, v0);
        proof {
            assert(self.inner@.dom() == old(self).entries().dom());
        }
        r
    }

    /// The map itself, for direct use.
    pub fn lock(&mut self) -> (r: &mut HashMap<T, U>)
        ensures
            r@ == old(self).entries(),
            final(self).entries() == final(r)@,
    {
        &mut self.inner
    }
}

impl<T: Hash + Eq, U: Clone> ConcurrentHashMap<T, U> {
    /// A copy of the value of `v`, if it has one.
    pub fn get<V: ?Sized + Hash + Eq>(&self, v: &V) -> (r: Option<U>)
        where
            T: Borrow<V>,
        ensures
            obeys_key_model::<T>() ==> match r {
                Some(u) => exists|w: U|
                    #[trigger] maps_borrowed_key_to_value(self.entries(), v, w) && cloned(w, u),
                None => !contains_borrowed_key(self.entries(), v),
            },
    {
        match self.inner.get(v) {
            Some(i) => {
                let c = i.clone();
                proof {
                    let w = *i;
                    assert(cloned(w, c));
                    if obeys_key_model::<T>() {
                        assert(maps_borrowed_key_to_value(self.entries(), v, w));
                    }
                }
                Some(c)
            },
            None => None,
        }
    }
}

/// A set of values.
///
/// The set's contracts hold for element types whose `Hash` and `Eq` behave as a
/// hash table expects (`obeys_key_model`), as std's `HashSet` does.
pub struct ConcurrentHashSet<T: Hash + Eq> {
    inner: HashSet<T>,
}

impl<T: Hash + Eq> ConcurrentHashSet<T> {
    /// The elements of the set.
    pub closed spec fn elements(&self) -> Set<T> {
        self.inner@
    }

    /// An empty set.
    pub fn new() -> (r: Self)
        ensures
            r.elements() == Set::<T>::empty(),
    {
        ConcurrentHashSet { inner: HashSet::new() }
    }

    /// Adds `key`; true when it was not there before.
    pub fn insert(&mut self, key: T) -> (r: bool)
        ensures
            obeys_key_model::<T>() ==> {
                &&& final(self).elements() == old(self).elements().insert(key)
                &&& r == !old(self).elements().contains(key)
            },
    {
        self.inner.insert(key)
    }

    /// Removes `key`; true when it was there.
    pub fn remove<V: ?Sized + Hash + Eq>(&mut self, key: &V) -> (r: bool)
        where
            T: Borrow<V>,
        ensures
            obeys_key_model::<T>() ==> {
                &&& sets_differ_by_borrowed_key(old(self).elements(), final(self).elements(), key)
                &&& r == set_contains_borrowed_key(old(self).elements(), key)
            },
    {
        self.inner.remove(key)
    }

    /// Whether `key` is in the set.
    pub fn contains<V: ?Sized + Hash + Eq>(&self, key: &V) -> (r: bool)
        where
            T: Borrow<V>,
        ensures
            obeys_key_model::<T>() ==> r == set_contains_borrowed_key(self.elements(), key),
    {
        self.inner.contains(key)
    }

    /// The number of keys.
    pub fn len(&self) -> (r: usize)
        ensures
            obeys_key_model::<T>() ==> r == self.elements().len(),
    {
        self.inner.len()
    }
}

impl<T: Hash + Eq + Clone> ConcurrentHashSet<T> {
    /// A copy of the element equal to `v`, if there is one.
    pub fn get<V: ?Sized + Hash + Eq>(&self, v: &V) -> (r: Option<T>)
        where
            T: Borrow<V>,
        ensures
            obeys_key_model::<T>() ==> match r {
                Some(t) => exists|w: T|
                    #[trigger] sets_borrowed_key_to_key(self.elements(), v, &w) && cloned(w, t),
                None => !set_contains_borrowed_key(self.elements(), v),
            },
    {
        match self.inner.get(v) {
            Some(i) => {
                let c = i.clone();
                proof {
                    let w = *i;
                    assert(cloned(w, c));
                    if obeys_key_model::<T>() {
                        assert(sets_borrowed_key_to_key(self.elements(), v, &w));
                    }
                }
                Some(c)
            },
            None => None,
        }
    }
}

/// A list of values.
#[derive(Debug)]
pub struct ConcurrentList<T> {
    inner: Vec<T>,
}

impl<T> ConcurrentList<T> {
    /// The items of the list, in order.
    pub closed spec fn items(&self) -> Seq<T> {
        self.inner@
    }

    /// An empty list.
    pub fn new() -> (r: Self)
        ensures
            r.items() == Seq::<T>::empty(),
    {
        ConcurrentList { inner: Vec::new() }
    }

    /// The number of items.
    pub fn len(&self) -> (r: usize)
        ensures
            r == self.items().len(),
    {
        self.inner.len()
    }

    /// Appends `v` at the end.
    pub fn push(&mut self, v: T)
        ensures
            final(self).items() == old(self).items().push(v),
    {
        self.inner.push(v);
    }

    /// Removes and returns the last item, if any.
    pub fn pop(&mut self) -> (r: Option<T>)
        ensures
            old(self).items().len() > 0 ==> r == Some(old(self).items().last())
                && final(self).items() == old(self).items().drop_last(),
            old(self).items().len() == 0 ==> r is None && final(self).items() == old(self).items(),
    {
        self.inner.pop()
    }

    /// Puts `v` at position `at` when `at` is the length of the list; hands `v` back when
    /// `at` is below the length.
    pub fn insert(&mut self, at: usize, v: T) -> (r: Result<(), T>)
        requires
            at <= old(self).items().len(),
        ensures
            at < old(self).items().len() ==> r == Err::<(), T>(v) && final(self).items()
                == old(self).items(),
            at == old(self).items().len() ==> r is Ok && final(self).items() == old(
                self,
            ).items().push(v),
    {
        if self.inner.len() > at {
            return Err(v);
        } else {
            self.inner.insert(at, v);
            Ok(())
        }
    }

    /// Removes nothing: every position that does not panic is at most the length.
    pub fn remove(&mut self, at: usize) -> (r: Option<T>)
        requires
            at <= old(self).items().len(),
        ensures
            r is None,
            final(self).items() == old(self).items(),
    {
        if self.inner.len() >= at {
            None
        } else {
            Some(self.inner.remove(at))
        }
    }

    /// The list itself, for direct use.
    pub fn lock(&mut self) -> (r: &mut Vec<T>)
        ensures
            r@ == old(self).items(),
            final(self).items() == final(r)@,
    {
        &mut self.inner
    }

    /// Runs `func` on `at` and the item there, if any, and returns what it returns.
    pub fn with<V, F: FnOnce(usize, Option<&T>) -> V>(&self, at: usize, func: F) -> (r: V)
        requires
            call_requires(
                func,
                (at, if at < self.items().len() { Some(&self.items()[at as int]) } else { None }),
            ),
        ensures
            call_ensures(
                func,
                (at, if at < self.items().len() { Some(&self.items()[at as int]) } else { None }),
                r,
            ),
    {
        if at < self.inner.len() {
            func(at, Some(&self.inner[at]))
        } else {
            func(at, None)
        }
    }

    /// Runs `func` on `at` and the item there, if any, letting it change the item,
    /// and returns what it returns.
    pub fn with_mut<V, F: FnOnce(usize, Option<&mut T>) -> V>(&mut self, at: usize, func: F) -> (r:
        V)
        requires
            forall|o: Option<&mut T>| #[trigger] call_requires(func, (at, o)),
        ensures
            final(self).items().len() == old(self).items().len(),
            forall|i: int|
                0 <= i < old(self).items().len() && i != at ==> final(self).items()[i] == old(
                    self,
                ).items()[i],
            at < old(self).items().len() ==> exists|c: &mut T|
                #[trigger] call_ensures(func, (at, Some(c)), r) && *c == old(self).items()[at as int]
                    && *final(c) == final(self).items()[at as int],
            at >= old(self).items().len() ==> call_ensures(func, (at, None::<&mut T>), r),
    {
        if at < self.inner.len() {
            func(at, Some(&mut self.inner[at]))
        } else {
            func(at, None)
        }
    }
}

impl<T: Clone> ConcurrentList<T> {
    /// A copy of the item at `at`, if there is one.
    pub fn get(&self, at: usize) -> (r: Option<T>)
        ensures
            at < self.items().len() ==> (r matches Some(v) && cloned(self.items()[at as int], v)),
            at >= self.items().len() ==> r is None,
    {
        if at < self.inner.len() {
            Some(self.inner[at].clone())
        } else {
            None
        }
    }
}

} // verus!
