use cadagent::memory::{ArenaId, GeometryArena};

#[test]
fn test_arena_creation() {
    let arena = GeometryArena::new();
    assert!(arena.is_empty());
    assert_eq!(arena.len(), 0);
}

#[test]
fn test_arena_alloc() {
    let mut arena = GeometryArena::new();
    let id1 = arena.alloc_value([1.0f32, 2.0, 3.0]);
    let id2 = arena.alloc_value([4.0f32, 5.0, 6.0]);
    assert_ne!(id1, id2);
    assert_eq!(arena.len(), 2);
}

#[test]
fn test_arena_reset() {
    let mut arena = GeometryArena::new();
    arena.alloc_value(1u64);
    arena.alloc_value(2u64);
    assert_eq!(arena.len(), 2);
    arena.reset();
    assert_eq!(arena.len(), 0);
    assert_eq!(arena.stats().resets, 1);
    assert_eq!(arena.alloc_value(3u64).value(), 0);
}

#[test]
fn test_arena_stats() {
    let mut arena = GeometryArena::new();
    arena.alloc_value(1u32);
    arena.alloc_value(2u32);
    let stats = arena.stats();
    assert_eq!(stats.total_allocations, 2);
    assert_eq!(stats.total_bytes, 8);
    assert_eq!(stats.current_allocations, 2);
}

#[test]
fn test_arena_capacity() {
    let arena = GeometryArena::with_capacity(1024);
    assert!(arena.capacity() >= 1024);
}

#[test]
fn test_arena_slice() {
    let mut arena = GeometryArena::new();
    let data = [1u16, 2, 3, 4, 5];
    let id = arena.alloc_slice(&data);
    assert_eq!(id.value(), 0);
    assert_eq!(arena.stats().total_bytes, 10);
    let s = arena.alloc_str("héllo");
    assert_eq!(s.value(), 1);
    assert_eq!(arena.stats().total_bytes, 16);
}

#[test]
fn arena_ids_and_limits() {
    assert_eq!(ArenaId::new(7).value(), 7);
    assert_eq!(ArenaId::new(3), ArenaId::new(3));
    assert_ne!(ArenaId::new(3), ArenaId::new(4));
    let mut arena = GeometryArena::with_capacity(64);
    arena.set_allocation_limit(Some(0));
    assert!(arena.remaining_capacity() == 0);
    arena.set_allocation_limit(None);
    assert_eq!(arena.alloc_value(1u16).value(), 0);
}

#[test]
fn arena_handles_give_the_value_back() {
    let mut arena = GeometryArena::new();
    {
        let mut h = arena.alloc_with_handle(5u32);
        assert_eq!(*h.get(), 5);
        *h.get_mut() = 7;
        assert_eq!(*h.get(), 7);
    }
    assert_eq!(arena.stats().total_allocations, 1);
    assert_eq!(arena.stats().total_bytes, 4);
    assert_eq!(arena.len(), 1);
    assert_eq!(arena.alloc_value(1u8).value(), 0);
}

#[test]
fn multi_arena_keeps_kinds_apart() {
    let mut multi = cadagent::memory::MultiArena::new();
    assert_eq!(multi.alloc_point([1.0f32, 2.0, 3.0]).value(), 0);
    assert_eq!(multi.alloc_point([4.0f32, 5.0, 6.0]).value(), 1);
    assert_eq!(multi.alloc_vector([0.0f32, 1.0, 0.0]).value(), 0);
    let total = multi.total_stats();
    assert_eq!(total.total_allocations, 3);
    assert_eq!(total.total_bytes, 36);
    assert_eq!(total.current_allocations, 3);
    assert_eq!(total.resets, 0);
    multi.reset_all();
    let total = multi.total_stats();
    assert_eq!(total.current_allocations, 0);
    assert_eq!(total.total_allocations, 3);
    assert_eq!(total.resets, 3);
}

#[test]
fn multi_arena_named_arenas_are_found_again() {
    let mut multi = cadagent::memory::MultiArena::default();
    let id = multi.get_or_create_arena("meshes").alloc_value(9u64);
    assert_eq!(id.value(), 0);
    assert_eq!(multi.get_or_create_arena("meshes").len(), 1);
    assert_eq!(multi.get_or_create_arena("other").len(), 0);
    multi.reset_all();
    assert_eq!(multi.get_or_create_arena("meshes").len(), 0);
    assert_eq!(multi.get_or_create_arena("meshes").stats().resets, 1);
    assert_eq!(multi.total_stats().resets, 3);
}
