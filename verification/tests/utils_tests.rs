use citygen::utils::{ConcurrentHashMap, ConcurrentHashSet, ConcurrentList};

#[test]
fn map_insert_get_remove() {
    let mut m: ConcurrentHashMap<u32, String> = ConcurrentHashMap::new();
    assert_eq!(m.insert(1, "a".to_string()), None);
    assert_eq!(m.insert(1, "b".to_string()), Some("a".to_string()));
    assert_eq!(m.insert(2, "c".to_string()), None);
    assert_eq!(m.len(), 2);
    assert!(m.contains_key(&1));
    assert_eq!(m.get(&1), Some("b".to_string()));
    assert_eq!(m.remove(&1), Some("b".to_string()));
    assert!(!m.contains_key(&1));
    assert_eq!(m.get(&1), None);
    assert_eq!(m.len(), 1);
}

#[test]
fn map_with_and_with_mut_see_the_entry() {
    let mut m: ConcurrentHashMap<u32, Vec<i32>> = ConcurrentHashMap::new();
    m.insert(3, vec![1]);
    let n = m.with(&3, |_k: &u32, v: Option<&Vec<i32>>| v.map(|v| v.len()));
    assert_eq!(n, Some(1));
    m.with_mut(&3, |_k: &u32, v: Option<&mut Vec<i32>>| v.unwrap().push(2));
    assert_eq!(m.get(&3), Some(vec![1, 2]));
    let missing = m.with(&4, |_k: &u32, v: Option<&Vec<i32>>| v.is_none());
    assert!(missing);
    m.lock().insert(9, vec![]);
    assert_eq!(m.len(), 2);
}

#[test]
fn set_insert_contains_remove() {
    let mut s: ConcurrentHashSet<(i32, i32)> = ConcurrentHashSet::new();
    assert!(s.insert((1, 2)));
    assert!(!s.insert((1, 2)));
    assert!(s.contains(&(1, 2)));
    assert_eq!(s.get(&(1, 2)), Some((1, 2)));
    assert_eq!(s.len(), 1);
    assert!(s.remove(&(1, 2)));
    assert!(!s.remove(&(1, 2)));
    assert_eq!(s.get(&(1, 2)), None);
    assert_eq!(s.len(), 0);
}

#[test]
fn list_push_pop_get() {
    let mut l: ConcurrentList<i32> = ConcurrentList::new();
    l.push(1);
    l.push(2);
    assert_eq!(l.len(), 2);
    assert_eq!(l.get(0), Some(1));
    assert_eq!(l.get(5), None);
    assert_eq!(l.pop(), Some(2));
    assert_eq!(l.pop(), Some(1));
    assert_eq!(l.pop(), None);
}

#[test]
fn list_insert_only_appends_at_the_end() {
    let mut l: ConcurrentList<i32> = ConcurrentList::new();
    l.push(1);
    l.push(2);
    assert_eq!(l.insert(0, 9), Err(9));
    assert_eq!(l.insert(1, 8), Err(8));
    assert_eq!(l.insert(2, 7), Ok(()));
    assert_eq!(l.lock().clone(), vec![1, 2, 7]);
}

#[test]
fn list_remove_never_removes() {
    let mut l: ConcurrentList<i32> = ConcurrentList::new();
    l.push(4);
    l.push(5);
    assert_eq!(l.remove(0), None);
    assert_eq!(l.remove(2), None);
    assert_eq!(l.len(), 2);
}

#[test]
fn list_with_and_with_mut() {
    let mut l: ConcurrentList<i32> = ConcurrentList::new();
    l.push(4);
    assert_eq!(l.with(0, |i: usize, v: Option<&i32>| (i, v.copied())), (0, Some(4)));
    assert_eq!(l.with(3, |i: usize, v: Option<&i32>| (i, v.copied())), (3, None));
    l.with_mut(0, |_i: usize, v: Option<&mut i32>| *v.unwrap() += 1);
    assert_eq!(l.get(0), Some(5));
}
