use verdant::component::{Component, ComponentId, ComponentRegistry, StorageKind, Tick};

struct Position;
impl Component for Position {
    const NAME: &'static str = "tests::Position";
}

struct Velocity;
impl Component for Velocity {
    const NAME: &'static str = "tests::Velocity";
}

struct Stunned;
impl Component for Stunned {
    const STORAGE: StorageKind = StorageKind::Sparse;
    const NAME: &'static str = "tests::Stunned";
}

#[test]
fn registering_the_same_type_twice_returns_the_same_id() {
    let mut registry = ComponentRegistry::new();
    let first = registry.register::<Position>();
    let second = registry.register::<Position>();
    assert_eq!(first, second);
    assert_eq!(registry.len(), 1);
}

#[test]
fn distinct_types_get_distinct_ids() {
    let mut registry = ComponentRegistry::new();
    assert_ne!(
        registry.register::<Position>(),
        registry.register::<Velocity>()
    );
    assert_eq!(registry.len(), 2);
}

#[test]
fn lookup_does_not_register() {
    let mut registry = ComponentRegistry::new();
    assert_eq!(registry.get_id::<Position>(), None);
    assert_eq!(registry.len(), 0, "a lookup must not create an entry");
    let id = registry.register::<Position>();
    assert_eq!(registry.get_id::<Position>(), Some(id));
}

#[test]
fn storage_kind_is_recorded_from_the_trait() {
    let mut registry = ComponentRegistry::new();
    let dense = registry.register::<Position>();
    let sparse = registry.register::<Stunned>();
    assert_eq!(registry.info(dense).unwrap().storage, StorageKind::Table);
    assert_eq!(registry.info(sparse).unwrap().storage, StorageKind::Sparse);
}

#[test]
fn names_are_recorded_for_diagnostics() {
    let mut registry = ComponentRegistry::new();
    let id = registry.register::<Position>();
    assert!(registry.name(id).ends_with("Position"));
    assert_eq!(registry.name(ComponentId(999)), "<unregistered>");
}

#[test]
fn ticks_compare_by_recency() {
    let old = Tick(5);
    let new = Tick(9);
    assert!(new.is_newer_than(old));
    assert!(!old.is_newer_than(new));
    assert!(!old.is_newer_than(old), "a tick is not newer than itself");
}

#[test]
fn tick_comparison_survives_the_wrap_point() {
    let before_wrap = Tick(u32::MAX - 2);
    let mut after_wrap = before_wrap;
    for _ in 0..5 {
        after_wrap.advance();
    }
    assert_eq!(after_wrap.0, 2, "the counter wrapped as expected");
    assert!(
        after_wrap.is_newer_than(before_wrap),
        "a wrapped tick must still read as newer, not two billion steps older"
    );
}

#[test]
fn registration_order_is_kept() {
    let mut registry = ComponentRegistry::new();
    registry.register::<Velocity>();
    registry.register::<Position>();
    let names: Vec<&str> = registry.iter().iter().map(|info| info.name).collect();
    assert_eq!(names, vec!["tests::Velocity", "tests::Position"]);
    assert_eq!(registry.get_id::<Velocity>(), Some(ComponentId(0)));
    assert!(!registry.is_empty());
}
