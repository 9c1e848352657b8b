use taskman::sort_state::SortState;

#[test]
fn sort_state_uses_natural_first_direction_then_toggles() {
    let mut sort = SortState::new(0, true);
    sort.clicked(1, true);
    assert_eq!(sort, SortState::new(1, false));
    sort.clicked(1, true);
    assert_eq!(sort, SortState::new(1, true));
    sort.clicked(2, false);
    assert_eq!(sort, SortState::new(2, true));
}
