use clob_core::arena::{Arena, Index};
use std::collections::HashSet;

fn assert_arena_invariants<T>(a: &Arena<T>) {
    assert!(a.check_free_list(), "free list must visit free slots only");
}

#[test]
fn arena_reuses_slots() {
    let mut a = Arena::new();
    let i0 = a.insert(10);
    let i1 = a.insert(20);
    let i2 = a.insert(30);

    assert_eq!(a.get(i1), Some(&20));
    assert_eq!(a.remove(i1), Some(20));
    assert!(a.get(i1).is_none());

    let i3 = a.insert(40);
    // should reuse the freed slot (LIFO)
    assert_eq!(i3, i1);
    assert_eq!(a.get(i3), Some(&40));

    assert_eq!(a.get(i0), Some(&10));
    assert_eq!(a.get(i2), Some(&30));
}

#[test]
fn double_remove_returns_none() {
    let mut a = Arena::new();
    let i = a.insert(1);
    assert_eq!(a.remove(i), Some(1));
    assert_eq!(a.remove(i), None);
}

#[test]
fn get_out_of_bounds_is_none() {
    let mut a: Arena<i32> = Arena::new();
    assert_eq!(a.get(Index::new(0)), None);
    assert_eq!(a.get_mut(Index::new(0)), None);

    let i = a.insert(1);
    assert_eq!(a.get(Index::new(i.as_usize() as u32 + 1000)), None);
    assert_arena_invariants(&a);
}

#[test]
fn get_mut_allows_mutation() {
    let mut a = Arena::new();
    let i = a.insert(10);

    *a.get_mut(i).unwrap() = 99;
    assert_eq!(a.get(i), Some(&99));

    assert_arena_invariants(&a);
}

#[test]
fn remove_free_slot_does_not_corrupt_free_list() {
    let mut a = Arena::new();
    let i0 = a.insert(1);
    let i1 = a.insert(2);
    assert_eq!(a.remove(i0), Some(1));
    assert_arena_invariants(&a);

    // remove of the same slot
    assert_eq!(a.remove(i0), None);
    assert_arena_invariants(&a);

    // free-list must work
    let i2 = a.insert(3);
    assert_eq!(i2, i0); // LIFO reuse
    assert_eq!(a.get(i2), Some(&3));
    assert_eq!(a.get(i1), Some(&2));
    assert_arena_invariants(&a);
}

#[test]
fn reuse_is_lifo_stack() {
    let mut a = Arena::new();

    let i0 = a.insert(10);
    let i1 = a.insert(20);
    let i2 = a.insert(30);
    assert_arena_invariants(&a);

    assert_eq!(a.remove(i1), Some(20));
    assert_arena_invariants(&a);

    assert_eq!(a.remove(i2), Some(30));
    assert_arena_invariants(&a);

    // free-list: i2 -> i1
    let j0 = a.insert(100);
    assert_eq!(j0, i2);
    assert_arena_invariants(&a);

    let j1 = a.insert(200);
    assert_eq!(j1, i1);
    assert_arena_invariants(&a);

    let j2 = a.insert(300);
    assert_ne!(j2, i0);
    assert_arena_invariants(&a);
}

#[test]
fn dealloc_is_safe() {
    let mut a = Arena::new();
    let i = a.insert(1);
    a.dealloc(i);
    assert_arena_invariants(&a);

    a.dealloc(i);
    assert_arena_invariants(&a);
}

#[test]
fn mass_reuse_even_slots() {
    let mut a: Arena<i32> = Arena::new();
    let mut idxs = Vec::new();

    for v in 0..1000 {
        idxs.push(a.insert(v as i32));
    }
    let len_before = a.slots();

    // remove even index -> 500 free slots
    for (k, &i) in idxs.iter().enumerate() {
        if k % 2 == 0 {
            assert_eq!(a.remove(i), Some(k as i32));
        }
    }

    // freed slots
    let freed: HashSet<usize> = idxs
        .iter()
        .enumerate()
        .filter_map(|(k, i)| if k % 2 == 0 { Some(i.as_usize()) } else { None })
        .collect();

    // 500 new insert must be occupied by freed slots
    let mut used = HashSet::new();
    for _ in 0..500 {
        let idx = a.insert(9999);
        assert!(
            freed.contains(&idx.as_usize()),
            "insert did not reuse a freed slot: {:?}",
            idx
        );
        assert!(
            used.insert(idx.as_usize()),
            "reused same freed slot twice: {:?}",
            idx
        );
    }

    assert_eq!(a.slots(), len_before);
}

#[test]
fn test_alloc_get() {
    let mut arena = Arena::new();
    let idx1 = arena.insert(10u32);
    let idx2 = arena.insert(20u32);

    assert_eq!(*arena.get(idx1).unwrap(), 10);
    assert_eq!(*arena.get(idx2).unwrap(), 20);
    assert_ne!(idx1, idx2);
}

#[test]
fn test_dealloc_reuse() {
    let mut arena = Arena::new();
    let idx1 = arena.insert(100u32);
    arena.dealloc(idx1);

    assert!(arena.get(idx1).is_none());

    let idx2 = arena.insert(200u32);
    // We expect reuse of the index or at least a valid allocation
    assert_eq!(idx1, idx2);
    assert_eq!(*arena.get(idx2).unwrap(), 200);
}

#[test]
fn test_get_mut() {
    let mut arena = Arena::new();
    let idx = arena.insert(50u32);

    if let Some(val) = arena.get_mut(idx) {
        *val = 60;
    }

    assert_eq!(*arena.get(idx).unwrap(), 60);
}

#[test]
fn set_replaces_value_in_place() {
    let mut arena = Arena::new();
    let idx = arena.insert(1u32);
    arena.set(idx, 7);
    assert_eq!(arena.get(idx), Some(&7));
    assert_eq!(arena.slots(), 1);
}
