use std::cmp::Ordering;
use taskman::app_history::{HistoryRow, compare_rows, is_numeric_column, sort_column_id};
use taskman::sort_state::SortState;

fn row(name: &str, cpu_rank: u64, network_bytes: u64, network_available: bool) -> HistoryRow {
    HistoryRow { name: name.into(), cpu_rank, network_bytes, network_available }
}

#[test]
fn app_history_unavailable_network_sorts_last_in_both_directions() {
    let available = row("available", 0, 0, true);
    let missing = row("missing", 0, 0, false);
    for ascending in [true, false] {
        assert_eq!(compare_rows(&available, &missing, SortState::new(2, ascending)), Ordering::Less);
    }
}

#[test]
fn apphistory_unavailable_network_sorts_last_in_both_directions() {
    let available = row("available", 0, 0, true);
    let missing = row("missing", 0, 0, false);
    for ascending in [true, false] {
        assert_eq!(
            taskman::apphistory::compare_rows(&available, &missing, SortState::new(2, ascending)),
            Ordering::Less
        );
    }
}

#[test]
fn history_ties_fall_back_to_the_name_ascending() {
    let a = row("Alpha", 3, 10, true);
    let b = row("beta", 3, 10, true);
    for column in 0..3 {
        let expected = if column == 0 { Ordering::Greater } else { Ordering::Less };
        assert_eq!(compare_rows(&a, &b, SortState::new(column, false)), expected, "column {column}");
    }
    assert_eq!(compare_rows(&a, &row("alpha", 0, 0, false), SortState::new(0, true)), Ordering::Equal);
}

#[test]
fn history_cpu_and_traffic_follow_the_direction() {
    let light = row("z", 1, 5, true);
    let heavy = row("a", 2, 50, true);
    assert_eq!(compare_rows(&light, &heavy, SortState::new(1, true)), Ordering::Less);
    assert_eq!(compare_rows(&light, &heavy, SortState::new(1, false)), Ordering::Greater);
    assert_eq!(compare_rows(&light, &heavy, SortState::new(2, false)), Ordering::Greater);
    // The older table folds only ASCII capitals.
    let upper = row("É", 0, 0, true);
    let lower = row("é", 0, 0, true);
    assert_ne!(taskman::apphistory::compare_rows(&upper, &lower, SortState::new(0, true)), Ordering::Equal);
    assert_eq!(compare_rows(&upper, &lower, SortState::new(0, true)), Ordering::Equal);
}

#[test]
fn history_sort_columns_persist_by_id() {
    let ids: Vec<&str> = (0..4).map(sort_column_id).collect();
    assert_eq!(ids, ["name", "cpu", "net", "notif"]);
    assert!(!is_numeric_column(0) && is_numeric_column(1) && is_numeric_column(2));
}
