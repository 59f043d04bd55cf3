use simulation::{Arena, Id};
use std::collections::HashSet;

#[test]
fn arena_hands_out_dense_indices() {
    let mut arena: Arena<u32> = Arena::new();
    assert!(arena.is_empty());
    let a = arena.allocate(7);
    let b = arena.allocate(9);
    assert_eq!(a.id, 0);
    assert_eq!(b.id, 1);
    assert_eq!(arena.len(), 2);
    assert_eq!(*arena.get(&a), 7);
    assert_eq!(*arena.get(&b), 9);
    assert!(!arena.is_empty());
}

#[test]
fn arena_get_mut_changes_one_item() {
    let mut arena: Arena<u32> = Arena::new();
    let a = arena.allocate(1);
    let b = arena.allocate(2);
    *arena.get_mut(&b) = 5;
    assert_eq!(*arena.get(&a), 1);
    assert_eq!(*arena.get(&b), 5);
}

#[test]
fn arena_iterates_in_index_order() {
    let mut arena: Arena<u32> = Arena::new();
    arena.allocate(3);
    arena.allocate(4);
    arena.allocate(5);
    let items: Vec<u32> = arena.iter().into_iter().map(|x| *x).collect();
    assert_eq!(items, vec![3, 4, 5]);
    let with_ids = arena.iter_with_ids();
    assert_eq!(with_ids.len(), 3);
    for (k, (id, item)) in with_ids.iter().enumerate() {
        assert_eq!(id.id, k);
        assert_eq!(**item, 3 + k as u32);
    }
}

#[test]
fn ids_compare_by_index() {
    let a: Id<u32> = Id::new(4);
    let b: Id<u32> = Id::new(4);
    let c: Id<u32> = Id::new(5);
    assert!(a == b);
    assert!(a != c);
    let copy = a;
    assert!(copy == a);
}

#[test]
fn ids_can_be_hashed_and_printed() {
    let mut seen: HashSet<Id<u32>> = HashSet::new();
    assert!(seen.insert(Id::new(1)));
    assert!(seen.insert(Id::new(2)));
    assert!(!seen.insert(Id::new(1)));
    assert_eq!(seen.len(), 2);
    assert!(format!("{:?}", Id::<u32>::new(7)).contains('7'));
}

#[test]
fn a_default_arena_is_empty() {
    let arena: Arena<u32> = Arena::default();
    assert!(arena.is_empty());
    assert_eq!(arena.len(), 0);
    assert!(arena.iter().is_empty());
    assert!(arena.iter_with_ids().is_empty());
}
