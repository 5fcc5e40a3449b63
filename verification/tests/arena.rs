use ket::arena::{Arena, Id, World};

struct Marker;

#[test]
fn test_arena_new() {
    let arena = Arena::<Marker, String>::new();
    assert_eq!(0, arena.num_allocs());
}

#[test]
fn test_arena_alloc_one() {
    let mut world = World::<Marker>::new();
    let mut arena = Arena::<Marker, String>::new();
    world.allocate().put(&mut arena, String::from("Hello, world!"));
    assert_eq!(1, arena.num_allocs());
}

#[test]
fn test_arena_alloc_many() {
    let mut world = World::<Marker>::new();
    let mut arena = Arena::<Marker, String>::new();
    world.allocate().put(&mut arena, String::from("first string"));
    world.allocate().put(&mut arena, String::from("second string"));
    world.allocate().put(&mut arena, String::from("third string"));
    assert_eq!(3, arena.num_allocs());
}

#[test]
fn test_arena_id_get() {
    let mut world = World::<Marker>::new();
    let mut arena = Arena::<Marker, String>::new();
    let id = world.allocate().put(&mut arena, String::from("Hello, world!"));
    assert_eq!("Hello, world!", id.get(&arena).as_str());
    assert_eq!(1, arena.num_allocs());
}

#[test]
fn test_arena_id_get_mut() {
    let mut world = World::<Marker>::new();
    let mut arena = Arena::<Marker, String>::new();
    let id = world.allocate().put(&mut arena, String::from("Hello, world!"));
    *id.get_mut(&mut arena) = String::from("Goodbye, world!");
    assert_eq!("Goodbye, world!", id.get(&arena).as_str());
    assert_eq!(1, arena.num_allocs());
}

#[test]
fn test_arena_id_put() {
    let mut world = World::<Marker>::new();
    let mut arena = Arena::<Marker, String>::new();
    let id = world.allocate().put(&mut arena, String::from("Hello, world!"));
    id.put(&mut arena, String::from("Goodbye, world!"));
    assert_eq!("Goodbye, world!", id.get(&arena).as_str());
    assert_eq!(1, arena.num_allocs());
}

#[test]
fn test_arena_id_put_oob() {
    let mut world = World::<Marker>::new();
    let mut arena1 = Arena::<Marker, String>::new();
    let mut arena2 = Arena::<Marker, String>::new();
    world.allocate().put(&mut arena1, String::new());
    world.allocate().put(&mut arena1, String::new());
    world.allocate().put(&mut arena1, String::new());
    let id = world.allocate().put(&mut arena1, String::from("Hello, world!"));
    id.put(&mut arena2, String::from("Goodbye, world!"));
    assert_eq!(4, arena1.num_allocs());
    assert_eq!(4, arena2.num_allocs());
}

#[test]
fn unfilled_slot_reads_default() {
    let mut world = World::<Marker>::new();
    let arena = Arena::<Marker, String>::new();
    let id = world.allocate();
    assert_eq!("", id.get(&arena).as_str());
    assert_eq!(0, arena.num_allocs());
}

#[test]
fn put_leaves_other_slots() {
    let mut world = World::<Marker>::new();
    let mut arena = Arena::<Marker, u32>::new();
    let a = world.allocate().put(&mut arena, 7);
    let b = world.allocate().put(&mut arena, 9);
    a.put(&mut arena, 11);
    assert_eq!(11, *a.get(&arena));
    assert_eq!(9, *b.get(&arena));
}

#[test]
fn take_returns_value_and_resets() {
    let mut world = World::<Marker>::new();
    let mut arena = Arena::<Marker, String>::new();
    let id = world.allocate().put(&mut arena, String::from("kept"));
    let taken = id.take(&mut arena);
    assert_eq!("kept", taken.as_str());
    assert_eq!("", id.get(&arena).as_str());
    let far = Id::<Marker>::new(5);
    let nothing = far.take(&mut arena);
    assert_eq!("", nothing.as_str());
    assert_eq!(6, arena.num_allocs());
}

#[test]
fn allocations_are_consecutive_and_distinct() {
    let mut world = World::<Marker>::new();
    let a = world.allocate();
    let b = world.allocate();
    assert_eq!(0, a.index());
    assert_eq!(1, b.index());
    assert!(a != b);
    assert_eq!(2, world.num_allocs());
    let ids = world.iter();
    assert_eq!(2, ids.len());
    assert_eq!(0, ids[0].index());
    assert_eq!(1, ids[1].index());
}

#[test]
fn new_index_next_prev() {
    let id = Id::<Marker>::new(41);
    assert_eq!(41, id.index());
    let next = id.next().unwrap();
    assert_eq!(42, next.index());
    assert_eq!(41, next.prev().unwrap().index());
    assert!(Id::<Marker>::new(0).prev().is_none());
    let small = Id::<Marker, u8>::new(254);
    assert_eq!(255, small.next().unwrap().index());
    let last = Id::<Marker, u8>::new(255);
    assert_eq!(255, last.index());
    assert!(last.next().is_none());
}

#[test]
fn arena_iter_lists_filled_slots() {
    let mut arena = Arena::<Marker, u32>::new();
    Id::<Marker>::new(2).put(&mut arena, 5);
    let ids = arena.iter();
    assert_eq!(3, ids.len());
    assert_eq!(2, ids[2].index());
    assert_eq!(0, *ids[0].get(&arena));
    assert_eq!(5, *ids[2].get(&arena));
}

#[test]
fn a_u8_world_hands_out_every_index_in_order() {
    let mut world = World::<Marker, u8>::new();
    for k in 0..256usize {
        assert_eq!(k, world.allocate().index());
    }
    assert_eq!(256, world.num_allocs());
}

#[test]
fn num_allocs_is_one_past_the_largest_slot_used() {
    let mut arena = Arena::<Marker, String>::new();
    Id::<Marker>::new(4).put(&mut arena, String::from("four"));
    assert_eq!(5, arena.num_allocs());
    Id::<Marker>::new(1).get_mut(&mut arena).push('x');
    assert_eq!(5, arena.num_allocs());
    let _ = Id::<Marker>::new(2).get(&arena);
    assert_eq!(5, arena.num_allocs());
    let _ = Id::<Marker>::new(7).take(&mut arena);
    assert_eq!(8, arena.num_allocs());
}
