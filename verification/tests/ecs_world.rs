use verdant::component::ComponentId;
use verdant::entity::{Entity, EntityLocation};
use verdant::world::{Placement, World};

#[test]
fn a_new_world_is_empty_at_tick_one() {
    let world = World::new();
    assert!(world.is_empty());
    assert_eq!(world.entity_count(), 0);
    assert_eq!(world.tick().0, 1);
    assert_eq!(world.archetype_count(), 1);
}

#[test]
fn spawned_entities_take_new_rows_of_the_root() {
    let mut world = World::new();
    let a = world.spawn_empty();
    let b = world.spawn_empty();
    assert_ne!(a, b);
    assert_eq!(world.location(a), Some(EntityLocation { archetype: 0, row: 0 }));
    assert_eq!(world.location(b), Some(EntityLocation { archetype: 0, row: 1 }));
    assert_eq!(world.entity_count(), 2);
    assert!(world.contains(a) && world.contains(b));
}

#[test]
fn despawning_swaps_the_last_row_into_the_hole() {
    let mut world = World::new();
    let a = world.spawn_empty();
    let b = world.spawn_empty();
    let c = world.spawn_empty();
    assert!(world.despawn(a));
    assert!(!world.contains(a));
    assert_eq!(world.location(c), Some(EntityLocation { archetype: 0, row: 0 }));
    assert_eq!(world.location(b), Some(EntityLocation { archetype: 0, row: 1 }));
    assert!(!world.despawn(a), "a second despawn is harmless");
    assert_eq!(world.entity_count(), 2);
}

#[test]
fn a_recycled_index_gets_a_new_generation() {
    let mut world = World::new();
    let a = world.spawn_empty();
    world.despawn(a);
    let b = world.spawn_empty();
    assert_eq!(a.index, b.index);
    assert_ne!(a.generation, b.generation);
    assert!(!world.contains(a));
}

#[test]
fn attaching_moves_the_entity_and_detaching_moves_it_back() {
    let mut world = World::new();
    let e = world.spawn_empty();
    let other = world.spawn_empty();
    let position = ComponentId(0);
    let moved = world.attach(e, position).expect("live");
    assert_eq!(moved, Placement::Moved { from: 0, row: 0, to: 1, new_row: 0 });
    assert!(world.has_table(e, position));
    assert!(!world.has_table(other, position));
    assert_eq!(world.location(other), Some(EntityLocation { archetype: 0, row: 0 }));

    assert_eq!(world.attach(e, position), Some(Placement::Kept { archetype: 1, row: 0 }));

    let back = world.detach(e, position).expect("had it");
    assert_eq!(back, Placement::Moved { from: 1, row: 0, to: 0, new_row: 1 });
    assert!(!world.has_table(e, position));
    assert_eq!(world.detach(e, position), None);
    assert_eq!(world.archetype_count(), 2);
}

#[test]
fn attaching_to_a_dead_entity_does_nothing() {
    let mut world = World::new();
    let e = world.spawn_empty();
    world.despawn(e);
    assert_eq!(world.attach(e, ComponentId(3)), None);
    assert_eq!(world.archetype_count(), 1);
}

#[test]
fn table_counts_follow_the_archetypes() {
    let mut world = World::new();
    let a = world.spawn_empty();
    let b = world.spawn_empty();
    let c = world.spawn_empty();
    world.attach(a, ComponentId(0));
    world.attach(b, ComponentId(0));
    world.attach(b, ComponentId(1));
    world.attach(c, ComponentId(1));
    assert_eq!(world.table_count(ComponentId(0)), 2);
    assert_eq!(world.table_count(ComponentId(1)), 2);
    assert_eq!(world.table_count(ComponentId(2)), 0);
}

#[test]
fn component_ids_are_sorted_and_include_sparse_ones() {
    let mut world = World::new();
    let e = world.spawn_empty();
    world.attach(e, ComponentId(4));
    world.attach(e, ComponentId(1));
    assert_eq!(
        world.component_ids(e, &[ComponentId(3), ComponentId(0)]),
        vec![ComponentId(0), ComponentId(1), ComponentId(3), ComponentId(4)]
    );
    world.despawn(e);
    assert!(world.component_ids(e, &[ComponentId(3)]).is_empty());
}

#[test]
fn clearing_keeps_the_clock() {
    let mut world = World::new();
    world.spawn_empty();
    world.advance_tick();
    world.clear_entities();
    assert!(world.is_empty());
    assert_eq!(world.tick().0, 2);
    assert_eq!(world.archetype_count(), 1);
}

#[test]
fn spawning_at_a_handle_restores_it() {
    let mut world = World::new();
    let wanted = Entity::from_parts(5, 3);
    assert!(world.spawn_at(wanted));
    assert!(world.contains(wanted));
    assert_eq!(world.entity_count(), 1);
    assert!(!world.spawn_at(Entity::from_parts(5, 4)), "the slot is taken");
    assert!(!world.spawn_at(Entity::null()));
    let next = world.spawn_empty();
    assert!(next.index < 5, "the skipped slots were recycled");
}

#[test]
fn entities_are_listed_in_index_order() {
    let mut world = World::new();
    let a = world.spawn_empty();
    let b = world.spawn_empty();
    let c = world.spawn_empty();
    world.despawn(b);
    assert_eq!(world.entities(), vec![a, c]);
}

#[test]
fn setting_the_tick_overwrites_it() {
    let mut world = World::new();
    world.set_tick(40);
    world.advance_tick();
    assert_eq!(world.tick().0, 41);
}

#[test]
fn a_migration_moves_the_last_row_into_the_hole_and_appends_to_the_destination() {
    let mut world = World::new();
    let a = world.spawn_empty();
    let b = world.spawn_empty();
    let c = world.spawn_empty();
    let placement = world.attach(a, ComponentId(0)).expect("a is live");
    assert_eq!(placement, Placement::Moved { from: 0, row: 0, to: 1, new_row: 0 });
    assert_eq!(world.archetypes().get(0).entities, vec![c, b]);
    assert_eq!(world.archetypes().get(1).entities, vec![a]);
    let placement = world.attach(b, ComponentId(0)).expect("b is live");
    assert_eq!(placement, Placement::Moved { from: 0, row: 1, to: 1, new_row: 1 });
    assert_eq!(world.archetypes().get(0).entities, vec![c]);
    assert_eq!(world.archetypes().get(1).entities, vec![a, b]);
    let placement = world.detach(a, ComponentId(0)).expect("a has it");
    assert_eq!(placement, Placement::Moved { from: 1, row: 0, to: 0, new_row: 1 });
    assert_eq!(world.archetypes().get(1).entities, vec![b]);
    assert_eq!(world.archetypes().get(0).entities, vec![c, a]);
    assert_eq!(world.location(b), Some(EntityLocation { archetype: 1, row: 0 }));
}

#[test]
fn a_migration_relocates_the_entity_swapped_into_the_hole() {
    let position = ComponentId(0);
    let velocity = ComponentId(1);
    let health = ComponentId(2);
    let mut world = World::new();
    let spawn_moving = |world: &mut World| {
        let e = world.spawn_empty();
        world.attach(e, position).expect("live");
        world.attach(e, velocity).expect("live");
        e
    };
    let first = spawn_moving(&mut world);
    let second = spawn_moving(&mut world);
    let third = spawn_moving(&mut world);
    let moving = world.location(first).expect("live").archetype;
    assert_eq!(world.archetypes().get(moving).entities, vec![first, second, third]);

    let placement = world.attach(first, health).expect("first is live");
    let to = match placement {
        Placement::Moved { from, row, to, new_row } => {
            assert_eq!((from, row, new_row), (moving, 0, 0));
            to
        }
        other => panic!("expected a move, got {:?}", other),
    };

    assert!(world.has_table(first, position));
    assert!(world.has_table(first, velocity));
    assert!(world.has_table(first, health));
    assert!(world.has_table(second, position) && !world.has_table(second, health));
    assert!(world.has_table(third, velocity) && !world.has_table(third, health));
    assert_eq!(world.location(third), Some(EntityLocation { archetype: moving, row: 0 }));
    assert_eq!(world.location(second), Some(EntityLocation { archetype: moving, row: 1 }));
    assert_eq!(world.location(first), Some(EntityLocation { archetype: to, row: 0 }));
    assert_eq!(world.archetypes().get(moving).entities, vec![third, second]);
}

#[test]
fn a_despawn_relocates_the_entity_swapped_into_the_hole() {
    let position = ComponentId(0);
    let mut world = World::new();
    let first = world.spawn_empty();
    world.attach(first, position).expect("live");
    let second = world.spawn_empty();
    world.attach(second, position).expect("live");
    let third = world.spawn_empty();
    world.attach(third, position).expect("live");
    let table = world.location(first).expect("live").archetype;

    world.despawn(first);

    assert!(!world.contains(first));
    assert!(world.has_table(second, position));
    assert!(world.has_table(third, position));
    assert_eq!(world.location(third), Some(EntityLocation { archetype: table, row: 0 }));
    assert_eq!(world.location(second), Some(EntityLocation { archetype: table, row: 1 }));
    assert_eq!(world.archetypes().get(table).entities, vec![third, second]);
    assert_eq!(world.entity_count(), 2);
}
