use verdant::archetype::{Archetypes, TypedColumn};
use verdant::component::{ComponentId, Tick};
use verdant::entity::Entity;
use verdant::sparse::SparseSet;

#[test]
fn typed_column_swap_remove_keeps_the_vectors_aligned() {
    let mut column = TypedColumn::<u32>::new();
    for value in 0..5u32 {
        column.push(value, Tick(value));
    }
    column.swap_remove(1);
    assert_eq!(column.data, vec![0, 4, 2, 3]);
    assert_eq!(column.added, vec![Tick(0), Tick(4), Tick(2), Tick(3)]);
    assert_eq!(column.changed.len(), column.data.len());
}

#[test]
fn migrating_a_row_moves_the_value_and_its_ticks() {
    let mut source = TypedColumn::<String>::new();
    source.push("a".to_string(), Tick(1));
    source.push("b".to_string(), Tick(2));
    let mut target = TypedColumn::<String>::new();

    source.migrate_row(0, &mut target);

    assert_eq!(target.data, vec!["a".to_string()]);
    assert_eq!(target.added, vec![Tick(1)]);
    assert_eq!(
        source.data,
        vec!["b".to_string()],
        "the row was removed from the source"
    );
}

#[test]
fn sparse_set_insert_and_lookup() {
    let mut set = SparseSet::<u32>::new();
    let a = Entity::from_parts(0, 0);
    let b = Entity::from_parts(5, 0);
    set.insert(a, 10, Tick(1));
    set.insert(b, 20, Tick(1));
    assert_eq!(set.get(a), Some(&10));
    assert_eq!(set.get(b), Some(&20));
    assert_eq!(set.get(Entity::from_parts(3, 0)), None);
    assert_eq!(set.len(), 2);
}

#[test]
fn sparse_set_rejects_a_recycled_index_with_a_stale_generation() {
    let mut set = SparseSet::<u32>::new();
    let original = Entity::from_parts(4, 0);
    set.insert(original, 99, Tick(1));
    // The same slot, reused by a later entity.
    let recycled = Entity::from_parts(4, 1);
    assert_eq!(
        set.get(recycled),
        None,
        "the new entity must not inherit the old value"
    );
    assert_eq!(set.get(original), Some(&99));
}

#[test]
fn sparse_set_reinsert_overwrites_without_growing() {
    let mut set = SparseSet::<u32>::new();
    let entity = Entity::from_parts(2, 0);
    set.insert(entity, 1, Tick(1));
    set.insert(entity, 2, Tick(5));
    assert_eq!(set.get(entity), Some(&2));
    assert_eq!(set.len(), 1);
    assert_eq!(set.changed[0], Tick(5));
    assert_eq!(
        set.added[0],
        Tick(1),
        "the added tick is preserved on overwrite"
    );
}

#[test]
fn sparse_set_remove_repoints_the_swapped_entity() {
    let mut set = SparseSet::<u32>::new();
    let a = Entity::from_parts(0, 0);
    let b = Entity::from_parts(1, 0);
    let c = Entity::from_parts(2, 0);
    set.insert(a, 10, Tick::zero());
    set.insert(b, 20, Tick::zero());
    set.insert(c, 30, Tick::zero());

    assert_eq!(set.remove(a), Some(10));
    // `c` was swapped into a's slot; it must still resolve.
    assert_eq!(set.get(c), Some(&30));
    assert_eq!(set.get(b), Some(&20));
    assert_eq!(set.get(a), None);
    assert_eq!(set.len(), 2);
}

#[test]
fn sparse_set_remove_of_an_absent_entity_is_none() {
    let mut set = SparseSet::<u32>::new();
    assert_eq!(set.remove(Entity::from_parts(7, 0)), None);
}

#[test]
fn archetypes_start_with_an_empty_root() {
    let archetypes = Archetypes::new();
    assert_eq!(archetypes.len(), 1);
    assert!(archetypes.get(0).components.is_empty());
}

#[test]
fn adding_a_component_creates_and_caches_a_transition() {
    let mut archetypes = Archetypes::new();
    let first = archetypes.archetype_with(0, ComponentId(1));
    assert_ne!(first, 0);
    // The second call must hit the edge cache and not create a new table.
    let count_before = archetypes.len();
    let second = archetypes.archetype_with(0, ComponentId(1));
    assert_eq!(first, second);
    assert_eq!(archetypes.len(), count_before);
}

#[test]
fn adding_a_component_the_archetype_already_has_is_a_no_op() {
    let mut archetypes = Archetypes::new();
    let with_one = archetypes.archetype_with(0, ComponentId(1));
    assert_eq!(archetypes.archetype_with(with_one, ComponentId(1)), with_one);
}

#[test]
fn signatures_are_order_independent() {
    let mut archetypes = Archetypes::new();
    // Build {1, 2} by adding in each order; both must land on one archetype.
    let one_then_two = {
        let a = archetypes.archetype_with(0, ComponentId(1));
        archetypes.archetype_with(a, ComponentId(2))
    };
    let two_then_one = {
        let a = archetypes.archetype_with(0, ComponentId(2));
        archetypes.archetype_with(a, ComponentId(1))
    };
    assert_eq!(one_then_two, two_then_one);
}

#[test]
fn removing_a_component_returns_to_the_previous_archetype() {
    let mut archetypes = Archetypes::new();
    let with_one = archetypes.archetype_with(0, ComponentId(1));
    assert_eq!(archetypes.archetype_without(with_one, ComponentId(1)), 0);
    // Removing something absent is a no-op.
    assert_eq!(
        archetypes.archetype_without(with_one, ComponentId(9)),
        with_one
    );
}

#[test]
fn matching_skips_empty_archetypes() {
    let mut archetypes = Archetypes::new();
    let target = archetypes.archetype_with(0, ComponentId(1));
    // Created but empty: a query must not report it.
    assert!(archetypes.matching(&[ComponentId(1)], &[]).is_empty());

    archetypes.push_entity(target, Entity::from_parts(0, 0));
    assert_eq!(archetypes.matching(&[ComponentId(1)], &[]), vec![target]);
}

#[test]
fn matching_honours_exclusions() {
    let mut archetypes = Archetypes::new();
    let with_one = archetypes.archetype_with(0, ComponentId(1));
    let with_both = archetypes.archetype_with(with_one, ComponentId(2));
    archetypes.push_entity(with_one, Entity::from_parts(0, 0));
    archetypes.push_entity(with_both, Entity::from_parts(1, 0));

    let matches = archetypes.matching(&[ComponentId(1)], &[ComponentId(2)]);
    assert_eq!(matches, vec![with_one]);
}

#[test]
fn matching_results_are_sorted() {
    let mut archetypes = Archetypes::new();
    let mut created = Vec::new();
    for component in 1..6u32 {
        let index = archetypes.archetype_with(0, ComponentId(component));
        archetypes.push_entity(index, Entity::from_parts(component, 0));
        created.push(index);
    }
    let matches = archetypes.matching(&[], &[]);
    let mut sorted = matches.clone();
    sorted.sort_unstable();
    assert_eq!(
        matches, sorted,
        "query iteration order must be deterministic"
    );
}

#[test]
fn migrating_an_entity_moves_its_row_and_reports_the_displaced_one() {
    let mut archetypes = Archetypes::new();
    let a = Entity::from_parts(0, 0);
    let b = Entity::from_parts(1, 0);
    archetypes.push_entity(0, a);
    archetypes.push_entity(0, b);
    let target = archetypes.archetype_with(0, ComponentId(4));
    let (row, displaced) = archetypes.migrate(0, 0, target, a);
    assert_eq!(row, 0);
    assert_eq!(displaced, Some(b));
    assert_eq!(archetypes.get(0).entities, vec![b]);
    assert_eq!(archetypes.get(target).entities, vec![a]);
}
