use verdant::entity::Entity;
use verdant::sparse_filter::SparseFilter;

fn e(index: u32, generation: u32) -> Entity {
    Entity::from_parts(index, generation)
}

#[test]
fn an_open_filter_admits_everything() {
    let filter = SparseFilter::open();
    assert!(filter.is_open());
    assert!(filter.admits(e(0, 0)));
    assert!(filter.admits(e(u32::MAX, u32::MAX)));
}

#[test]
fn a_filter_admits_what_every_required_set_holds() {
    let required = vec![vec![e(1, 0), e(2, 0), e(3, 0)], vec![e(3, 0), e(2, 0), e(9, 0)]];
    let filter = SparseFilter::build(&required, &Vec::new());
    assert!(!filter.is_open());
    assert!(filter.admits(e(2, 0)));
    assert!(filter.admits(e(3, 0)));
    assert!(!filter.admits(e(1, 0)));
    assert!(!filter.admits(e(9, 0)));
}

#[test]
fn a_filter_keeps_out_what_any_excluded_set_holds() {
    let excluded = vec![vec![e(4, 0)], vec![], vec![e(5, 1)]];
    let filter = SparseFilter::build(&Vec::new(), &excluded);
    assert!(!filter.is_open());
    assert!(!filter.admits(e(4, 0)));
    assert!(!filter.admits(e(5, 1)));
    assert!(filter.admits(e(5, 0)));
    assert!(filter.admits(e(6, 0)));
}

#[test]
fn generations_tell_handles_apart_at_the_filter() {
    let filter = SparseFilter::build(&vec![vec![e(7, 2)]], &Vec::new());
    assert!(filter.admits(e(7, 2)));
    assert!(!filter.admits(e(7, 1)));
    assert!(!filter.admits(e(2, 7)));
}

#[test]
fn a_required_component_nobody_has_admits_nobody() {
    let filter = SparseFilter::build(&vec![Vec::new()], &Vec::new());
    assert!(!filter.is_open());
    assert!(!filter.admits(e(0, 0)));
}

#[test]
fn empty_exclusions_leave_the_filter_open() {
    let filter = SparseFilter::build(&Vec::new(), &vec![Vec::new(), Vec::new()]);
    assert!(filter.is_open());
}
