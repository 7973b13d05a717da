use verdant::component::{Component, ComponentRegistry};
use verdant::schedule::{Schedule, Stage, SystemAccess};

#[derive(Debug)]
struct Counter(u32);
impl Component for Counter {}

#[derive(Debug)]
struct Other;
impl Component for Other {}

/// Runs the schedule once, recording the names of the systems it runs;
/// `registered` lists the names in registration order.
fn run_logged(schedule: &mut Schedule, registered: &[&str], log: &mut Vec<String>) {
    for id in schedule.run() {
        log.push(registered[id.index()].to_string());
    }
}

#[test]
fn systems_run_in_insertion_order_by_default() {
    let mut log = Vec::new();
    let mut schedule = Schedule::new();
    schedule.add_system("first");
    schedule.add_system("second");
    schedule.add_system("third");

    run_logged(&mut schedule, &["first", "second", "third"], &mut log);
    assert_eq!(log, vec!["first", "second", "third"]);
}

#[test]
fn after_constraints_reorder_execution() {
    let mut log = Vec::new();
    let mut schedule = Schedule::new();
    schedule.add_system("late");
    schedule.add_system("early");
    schedule.order_after("late", "early");

    run_logged(&mut schedule, &["late", "early"], &mut log);
    assert_eq!(log, vec!["early", "late"]);
}

#[test]
fn before_and_after_are_equivalent_spellings() {
    let mut with_after = Schedule::new();
    with_after.add_system("a");
    with_after.add_system("b");
    with_after.order_after("a", "b");

    let mut with_before = Schedule::new();
    with_before.add_system("a");
    with_before.add_system("b");
    with_before.order_before("b", "a");

    assert_eq!(with_after.execution_order(), with_before.execution_order());
}

#[test]
fn stages_run_in_declared_order_regardless_of_insertion() {
    let mut log = Vec::new();
    let mut schedule = Schedule::new();
    schedule.add_system_to_stage(Stage::extract(), "render");
    schedule.add_system_to_stage(Stage::input(), "input");
    schedule.add_system_to_stage(Stage::update(), "logic");

    run_logged(&mut schedule, &["render", "input", "logic"], &mut log);
    assert_eq!(log, vec!["input", "logic", "render"]);
}

#[test]
fn systems_in_an_undeclared_stage_run_last() {
    let mut log = Vec::new();
    let mut schedule = Schedule::new();
    schedule.add_system_to_stage(Stage("custom"), "custom");
    schedule.add_system_to_stage(Stage::update(), "update");

    run_logged(&mut schedule, &["custom", "update"], &mut log);
    assert_eq!(log, vec!["update", "custom"]);
}

#[test]
fn a_cycle_is_detected_rather_than_silently_reordered() {
    let mut schedule = Schedule::new();
    schedule.add_system("a");
    schedule.add_system("b");
    schedule.order_after("a", "b");
    schedule.order_after("b", "a");
    assert_eq!(schedule.resolve(), Err(vec!["a".to_owned(), "b".to_owned()]));
}

#[test]
fn a_cycle_names_only_the_systems_it_holds_up() {
    let mut schedule = Schedule::new();
    schedule.add_system("free");
    schedule.add_system("x");
    schedule.add_system("y");
    schedule.add_system("waits");
    schedule.order_after("x", "y");
    schedule.order_after("y", "x");
    schedule.order_after("waits", "x");
    assert_eq!(
        schedule.resolve(),
        Err(vec!["x".to_owned(), "y".to_owned(), "waits".to_owned()])
    );
}

#[test]
fn duplicate_system_names_are_detected_before_adding() {
    let mut schedule = Schedule::new();
    schedule.add_system("duplicate");
    assert!(schedule.position("duplicate").is_some());
    assert!(schedule.position("missing").is_none());
}

#[test]
fn disabled_systems_are_skipped() {
    let mut ran = 0;
    let mut schedule = Schedule::new();
    let counted = schedule.add_system("counted");
    schedule.set_enabled("counted", false);

    for id in schedule.run() {
        if id == counted {
            ran += 1;
        }
    }
    assert_eq!(ran, 0);

    schedule.set_enabled("counted", true);
    for id in schedule.run() {
        if id == counted {
            ran += 1;
        }
    }
    assert_eq!(ran, 1);
}

#[test]
fn undeclared_access_makes_every_pair_ambiguous() {
    let mut schedule = Schedule::new();
    schedule.add_system("a");
    schedule.add_system("b");
    assert_eq!(schedule.ambiguities().len(), 1);
}

#[test]
fn disjoint_declared_access_is_not_ambiguous() {
    let mut registry = ComponentRegistry::new();
    let mut schedule = Schedule::new();
    schedule.add_system("writes_counter");
    schedule.add_system("writes_other");
    schedule.set_access(
        "writes_counter",
        SystemAccess::none().write::<Counter>(&mut registry),
    );
    schedule.set_access(
        "writes_other",
        SystemAccess::none().write::<Other>(&mut registry),
    );
    assert!(schedule.ambiguities().is_empty());
}

#[test]
fn two_readers_of_the_same_component_are_not_ambiguous() {
    let mut registry = ComponentRegistry::new();
    let mut schedule = Schedule::new();
    schedule.add_system("reader_a");
    schedule.add_system("reader_b");
    schedule.set_access(
        "reader_a",
        SystemAccess::none().read::<Counter>(&mut registry),
    );
    schedule.set_access(
        "reader_b",
        SystemAccess::none().read::<Counter>(&mut registry),
    );
    assert!(schedule.ambiguities().is_empty());
}

#[test]
fn a_writer_and_a_reader_conflict_unless_ordered() {
    let mut registry = ComponentRegistry::new();
    let mut schedule = Schedule::new();
    schedule.add_system("writer");
    schedule.add_system("reader");
    schedule.set_access(
        "writer",
        SystemAccess::none().write::<Counter>(&mut registry),
    );
    schedule.set_access(
        "reader",
        SystemAccess::none().read::<Counter>(&mut registry),
    );
    assert_eq!(
        schedule.ambiguities(),
        vec![("writer".to_string(), "reader".to_string())]
    );

    // Declaring the order resolves it.
    schedule.order_after("reader", "writer");
    assert!(schedule.ambiguities().is_empty());
}

#[test]
fn systems_in_different_stages_are_never_ambiguous() {
    let mut registry = ComponentRegistry::new();
    let mut schedule = Schedule::new();
    schedule.add_system_to_stage(Stage::update(), "early");
    schedule.add_system_to_stage(Stage::physics(), "late");
    schedule.set_access(
        "early",
        SystemAccess::none().write::<Counter>(&mut registry),
    );
    schedule.set_access("late", SystemAccess::none().write::<Counter>(&mut registry));
    assert!(
        schedule.ambiguities().is_empty(),
        "stages already order these"
    );
}

#[test]
fn run_strict_reports_rather_than_running() {
    let mut ran = 0;
    let mut schedule = Schedule::new();
    let a = schedule.add_system("a");
    schedule.add_system("b");

    let result = schedule.run_strict();
    if let Ok(ids) = &result {
        ran += ids.iter().filter(|id| **id == a).count();
    }
    assert!(result.is_err());
    assert_eq!(ran, 0, "an ambiguous schedule must not run");
}

#[test]
fn the_resolved_order_is_stable_across_runs() {
    let mut schedule = Schedule::new();
    for name in ["e", "d", "c", "b", "a"] {
        schedule.add_system(name);
    }
    schedule.order_after("a", "c");
    schedule.order_after("c", "e");
    let first = schedule.execution_order().join(",");
    let second = schedule.execution_order().join(",");
    assert_eq!(first, second);
    // The constraints must actually be honoured.
    let order = schedule.execution_order();
    let position = |name: &str| order.iter().position(|entry| *entry == name).unwrap();
    assert!(position("e") < position("c"));
    assert!(position("c") < position("a"));
}

#[test]
fn a_custom_stage_order_replaces_the_default() {
    let mut schedule = Schedule::new();
    schedule.add_system_to_stage(Stage::input(), "input");
    schedule.add_system_to_stage(Stage::update(), "update");
    schedule.set_stage_order(vec![Stage::update(), Stage::input()]);
    assert_eq!(schedule.execution_order(), vec!["update", "input"]);
    assert_eq!(schedule.len(), 2);
    assert!(!schedule.is_empty());
}

#[test]
fn conflicts_are_symmetric_and_reads_never_conflict() {
    let mut registry = ComponentRegistry::new();
    let reader = SystemAccess::none().read::<Counter>(&mut registry);
    let writer = SystemAccess::none().write::<Counter>(&mut registry);
    let other = SystemAccess::none().read::<Counter>(&mut registry);
    assert!(reader.conflicts_with(&writer));
    assert!(writer.conflicts_with(&reader));
    assert!(!reader.conflicts_with(&other));
    assert!(SystemAccess::unrestricted().conflicts_with(&SystemAccess::none()));
}
