use quarto_rs::{AllocError, DJB2Hasher, HashSet, Piece};

fn set_of(items: &[u32], capacity: usize) -> HashSet<u32> {
    let mut s: HashSet<u32> = HashSet::with_capacity(capacity).unwrap();
    for &x in items {
        s.insert(x).unwrap();
    }
    s
}

fn sorted(v: &[u32]) -> Vec<u32> {
    let mut v = v.to_vec();
    v.sort();
    v
}

fn stored_items(s: &HashSet<u32>) -> Vec<u32> {
    let mut out = Vec::new();
    let mut it = s.iter();
    while let Some(x) = it.next() {
        out.push(*x);
    }
    out
}

#[test]
fn len_counts_distinct_items() {
    let a = set_of(&[1, 2, 2, 3, 1, 3, 3], 2);
    assert_eq!(a.len(), 3);
    let b = set_of(&[3, 3, 1, 2, 1, 2, 2], 2);
    assert_eq!(b.len(), 3);
    assert_eq!(sorted(&stored_items(&a)), vec![1, 2, 3]);
}

#[test]
fn insert_then_contains() {
    let mut s: HashSet<u32> = HashSet::with_capacity(3).unwrap();
    assert!(!s.contains(&42));
    s.insert(42).unwrap();
    assert!(s.contains(&42));
    assert!(!s.contains(&43));
}

#[test]
fn duplicate_insert_is_a_no_op() {
    let mut s = set_of(&[7], 4);
    s.insert(7).unwrap();
    assert_eq!(s.len(), 1);
    assert_eq!(s.capacity(), 4);
}

#[test]
fn removal_keeps_displaced_items_reachable() {
    // 0, 4 and 8 all hash to slot 1 of a table of 4 slots.
    let mut s: HashSet<u32> = HashSet::with_capacity(4).unwrap();
    for x in [0u32, 4, 8] {
        assert_eq!(s.hash(&x) % 4, 1);
        s.insert(x).unwrap();
    }
    assert_eq!(stored_items(&s), vec![0, 4, 8]);
    s.remove(&0);
    assert!(!s.contains(&0));
    assert!(s.contains(&4));
    assert!(s.contains(&8));
    assert_eq!(s.len(), 2);
    s.remove(&4);
    assert!(s.contains(&8));
    assert_eq!(s.len(), 1);
}

#[test]
fn remove_of_absent_item_changes_nothing() {
    let mut s = set_of(&[1, 2], 4);
    s.remove(&9);
    assert_eq!(s.len(), 2);
    assert!(s.contains(&1) && s.contains(&2));
}

#[test]
fn removed_slot_is_reused() {
    let mut s = set_of(&[0, 4, 8], 4);
    s.remove(&4);
    s.insert(12).unwrap();
    s.insert(4).unwrap();
    assert_eq!(s.len(), 4);
    assert_eq!(s.capacity(), 4);
    for x in [0u32, 4, 8, 12] {
        assert!(s.contains(&x));
    }
}

#[test]
fn resize_preserves_membership() {
    let s = set_of(&[10, 20, 30, 40, 50], 4);
    assert_eq!(s.len(), 5);
    assert_eq!(s.capacity(), 8);
    for x in [10u32, 20, 30, 40, 50] {
        assert!(s.contains(&x));
    }
}

#[test]
fn three_items_in_two_slots_grow_once() {
    let mut s: HashSet<u32> = HashSet::with_capacity(2).unwrap();
    s.insert(1).unwrap();
    s.insert(2).unwrap();
    assert_eq!(s.capacity(), 2);
    s.insert(3).unwrap();
    assert_eq!(s.capacity(), 4);
    assert!(s.contains(&1) && s.contains(&2) && s.contains(&3));
    assert_eq!(s.len(), 3);
}

#[test]
fn union_holds_items_of_either() {
    let a = set_of(&[1, 2, 3], 4);
    let b = set_of(&[3, 4], 4);
    let u = a.union(&b).unwrap();
    assert_eq!(sorted(u.as_slice()), vec![1, 2, 3, 4]);
    assert!(u.len() <= a.len() + b.len());
}

#[test]
fn intersection_within_both() {
    let a = set_of(&[1, 2, 3, 5], 4);
    let b = set_of(&[2, 3, 4], 4);
    let i = a.intersection(&b).unwrap();
    assert_eq!(sorted(i.as_slice()), vec![2, 3]);
    for x in i.as_slice() {
        assert!(a.contains(x) && b.contains(x));
    }
}

#[test]
fn difference_and_intersection_split_first() {
    let a = set_of(&[1, 2, 3, 5], 4);
    let b = set_of(&[2, 3, 4], 4);
    let d = a.difference(&b).unwrap();
    let i = a.intersection(&b).unwrap();
    assert_eq!(sorted(d.as_slice()), vec![1, 5]);
    for x in [1u32, 2, 3, 5] {
        assert!(d.as_slice().contains(&x) != i.as_slice().contains(&x));
    }
    assert_eq!(d.len() + i.len(), a.len());
}

#[test]
fn symmetric_difference_of_overlapping_sets() {
    let a = set_of(&[1, 2, 3], 4);
    let b = set_of(&[3, 4], 4);
    let x = a.symmetric_difference(&b).unwrap();
    assert_eq!(sorted(x.as_slice()), vec![1, 2, 4]);
}

#[test]
fn algebra_on_empty_sets() {
    let a = set_of(&[], 1);
    let b = set_of(&[1], 1);
    assert_eq!(a.union(&b).unwrap().as_slice(), &[1]);
    assert!(a.intersection(&b).unwrap().is_empty());
    assert!(a.difference(&b).unwrap().is_empty());
    assert_eq!(b.difference(&a).unwrap().as_slice(), &[1]);
}

#[test]
fn drain_empties_and_keeps_capacity() {
    let mut s = set_of(&[1, 2, 3, 4, 5], 2);
    let cap = s.capacity();
    s.drain();
    assert_eq!(s.len(), 0);
    assert!(s.is_empty());
    assert_eq!(s.capacity(), cap);
    for x in [1u32, 2, 3, 4, 5] {
        assert!(!s.contains(&x));
    }
    s.insert(2).unwrap();
    assert!(s.contains(&2));
}

#[test]
fn iteration_is_restartable() {
    let s = set_of(&[5, 6, 7], 8);
    let first = stored_items(&s);
    let second = stored_items(&s);
    assert_eq!(first, second);
    assert_eq!(sorted(&first), vec![5, 6, 7]);
}

#[test]
fn from_slice_and_clone() {
    let s: HashSet<u32> = HashSet::try_from_slice(&[1, 2, 4, 2]).unwrap();
    assert_eq!(s.len(), 3);
    assert_eq!(s.capacity(), 4);
    let mut c = s.try_clone().unwrap();
    c.remove(&2);
    assert!(s.contains(&2));
    assert!(!c.contains(&2));
    assert_eq!(c.len(), 2);
    let e: HashSet<u32> = HashSet::try_from_slice(&[]).unwrap();
    assert_eq!(e.capacity(), 1);
    assert!(e.is_empty());
}

#[test]
fn hash_is_djb2_of_little_endian_bytes() {
    let s: HashSet<u32> = HashSet::with_capacity(1).unwrap();
    assert_eq!(s.hash(&0), 2086473605);
    assert_eq!(s.hash(&1), 2086509542);
    let seeded: HashSet<u32> = HashSet::with_hasher_and_capacity(DJB2Hasher::with_seed(7), 1).unwrap();
    assert_ne!(seeded.hash(&1), s.hash(&1));
}

#[test]
fn pieces_in_a_set() {
    let mut s: HashSet<Piece> = HashSet::with_capacity(2).unwrap();
    s.insert(Piece { properties: 0b1010 }).unwrap();
    s.insert(Piece { properties: 0b0101 }).unwrap();
    s.insert(Piece { properties: 0b1010 }).unwrap();
    assert_eq!(s.len(), 2);
    assert!(s.contains(&Piece { properties: 0b0101 }));
    assert!(!s.contains(&Piece { properties: 0 }));
    assert_eq!(s.hash(&Piece { properties: 1 }), 2086509542);
}

#[test]
fn unallocatable_table_is_an_error() {
    let r: Result<HashSet<u32>, AllocError> = HashSet::with_capacity(usize::MAX);
    assert!(matches!(r, Err(AllocError)));
}

#[test]
fn markers_are_cleared_without_growth() {
    let mut s = set_of(&[0, 4, 8], 4);
    s.remove(&0);
    s.remove(&4);
    s.remove(&8);
    assert!(s.is_empty());
    for x in [1u32, 2, 3, 5] {
        s.insert(x).unwrap();
    }
    assert_eq!(s.capacity(), 4);
    assert_eq!(s.len(), 4);
    for x in [1u32, 2, 3, 5] {
        assert!(s.contains(&x));
    }
    for x in [0u32, 4, 8] {
        assert!(!s.contains(&x));
    }
}

#[test]
fn algebra_with_nothing_to_list() {
    let a = set_of(&[1, 2], 4);
    let b = set_of(&[1, 2, 3], 4);
    let c = set_of(&[7, 8], 4);
    assert!(a.difference(&b).unwrap().is_empty());
    assert!(a.intersection(&c).unwrap().is_empty());
    assert!(a.symmetric_difference(&a.try_clone().unwrap()).unwrap().is_empty());
    let e = set_of(&[], 2);
    assert!(e.union(&set_of(&[], 3)).unwrap().is_empty());
}

#[test]
fn traversal_yields_each_item_once() {
    let mut s = set_of(&[3, 1, 4, 1, 5, 9, 2, 6], 4);
    s.remove(&4);
    let ys = stored_items(&s);
    assert_eq!(ys.len(), s.len());
    assert_eq!(sorted(&ys), vec![1, 2, 3, 5, 6, 9]);
    let mut it = s.iter();
    while it.next().is_some() {}
    assert!(it.next().is_none());
}
