use verdant::entity::{Entity, EntityAllocator, EntityLocation};

#[test]
fn handles_are_unique_while_live() {
    let mut allocator = EntityAllocator::new();
    let entities: Vec<Entity> = (0..100).map(|_| allocator.allocate()).collect();
    let mut sorted = entities.clone();
    sorted.sort_unstable();
    sorted.dedup();
    assert_eq!(
        sorted.len(),
        entities.len(),
        "allocator handed out a duplicate"
    );
    assert_eq!(allocator.len(), 100);
}

#[test]
fn freed_indices_are_recycled_with_a_new_generation() {
    let mut allocator = EntityAllocator::new();
    let first = allocator.allocate();
    allocator.free(first);
    let second = allocator.allocate();
    assert_eq!(second.index(), first.index(), "the index should be reused");
    assert_ne!(
        second.generation(),
        first.generation(),
        "but not the generation"
    );
}

#[test]
fn a_stale_handle_stops_resolving_once_its_slot_is_reused() {
    let mut allocator = EntityAllocator::new();
    let stale = allocator.allocate();
    allocator.free(stale);
    let fresh = allocator.allocate();
    assert!(!allocator.contains(stale), "the old handle must be dead");
    assert!(allocator.contains(fresh));
    assert_eq!(allocator.location(stale), None);
}

#[test]
fn freeing_twice_is_a_no_op_rather_than_a_panic() {
    let mut allocator = EntityAllocator::new();
    let entity = allocator.allocate();
    assert!(allocator.free(entity).is_some());
    assert!(allocator.free(entity).is_none());
    assert_eq!(allocator.len(), 0);
}

#[test]
fn freeing_an_unknown_handle_is_a_no_op() {
    let mut allocator = EntityAllocator::new();
    assert!(allocator.free(Entity::from_parts(999, 0)).is_none());
    assert!(allocator.free(Entity::null()).is_none());
}

#[test]
fn locations_round_trip() {
    let mut allocator = EntityAllocator::new();
    let entity = allocator.allocate();
    let location = EntityLocation {
        archetype: 3,
        row: 7,
    };
    allocator.set_location(entity, location);
    assert_eq!(allocator.location(entity), Some(location));
}

#[test]
fn iteration_is_in_ascending_index_order() {
    let mut allocator = EntityAllocator::new();
    let entities: Vec<Entity> = (0..10).map(|_| allocator.allocate()).collect();
    allocator.free(entities[3]);
    allocator.free(entities[7]);
    let live: Vec<u32> = allocator.iter().into_iter().map(Entity::index).collect();
    assert_eq!(live, vec![0, 1, 2, 4, 5, 6, 8, 9]);
}

#[test]
fn the_null_handle_is_never_live() {
    let mut allocator = EntityAllocator::new();
    allocator.allocate();
    assert!(!allocator.contains(Entity::null()));
    assert!(Entity::null().is_null());
}

#[test]
fn bit_packing_round_trips() {
    for (index, generation) in [(0u32, 0u32), (7, 3), (u32::MAX - 1, 12345)] {
        let entity = Entity::from_parts(index, generation);
        assert_eq!(Entity::from_bits(entity.to_bits()), entity);
    }
    assert_eq!(Entity::from_bits(Entity::null().to_bits()), Entity::null());
}

#[test]
fn recycling_is_last_in_first_out() {
    let mut allocator = EntityAllocator::new();
    let a = allocator.allocate();
    let b = allocator.allocate();
    allocator.free(a);
    allocator.free(b);
    // b was freed last, so its index comes back first.
    assert_eq!(allocator.allocate().index(), b.index());
    assert_eq!(allocator.allocate().index(), a.index());
}

#[test]
fn allocate_at_recreates_a_specific_handle() {
    let mut allocator = EntityAllocator::new();
    let wanted = Entity::from_parts(3, 5);
    assert!(allocator.allocate_at(wanted));
    assert!(allocator.contains(wanted));
    assert_eq!(allocator.len(), 1);
    // The skipped indices are free, and the next allocation takes one of them.
    let next = allocator.allocate();
    assert!(next.index() < 3);
    // Asking again for the same handle is accepted; a different generation is not.
    assert!(allocator.allocate_at(wanted));
    assert!(!allocator.allocate_at(Entity::from_parts(3, 6)));
}

#[test]
fn clearing_forgets_every_entity() {
    let mut allocator = EntityAllocator::new();
    let a = allocator.allocate();
    allocator.allocate();
    allocator.clear();
    assert!(allocator.is_empty());
    assert!(!allocator.contains(a));
    assert_eq!(allocator.capacity(), 0);
}
