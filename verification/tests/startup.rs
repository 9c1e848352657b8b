use std::cmp::Ordering;
use taskman::sort_state::SortState;
use taskman::startup::{
    StartupImpact, StartupItem, compare_items, exe_from_command, first_search_match_in_display_order, impact_rank,
    set_enabled, sort_column_id, startup_commands,
};

fn item(name: &str, publisher: Option<&str>, enabled: bool, impact: StartupImpact) -> StartupItem {
    StartupItem {
        id: name.to_string(),
        name: name.to_string(),
        publisher: publisher.map(str::to_string),
        command: String::new(),
        location: String::new(),
        enabled,
        impact,
    }
}

#[test]
fn exe_from_command_reads_quoted_and_plain_paths() {
    assert_eq!(
        exe_from_command("  \"C:\\Program Files\\App\\app.exe\" --minimized").as_deref(),
        Some("C:\\Program Files\\App\\app.exe")
    );
    assert_eq!(exe_from_command("C:\\tool.exe /silent").as_deref(), Some("C:\\tool.exe"));
    assert_eq!(exe_from_command("\"unterminated").as_deref(), Some("unterminated"));
    assert_eq!(exe_from_command("\u{a0}\ttool.exe\u{3000}x").as_deref(), Some("tool.exe"));
    assert_eq!(exe_from_command("   "), None);
    assert_eq!(exe_from_command(""), None);
}

#[test]
fn startup_items_sort_by_column_then_name() {
    let a = item("Zoom", Some("zoom"), true, StartupImpact::High);
    let b = item("alpha", None, false, StartupImpact::Low);
    assert_eq!(compare_items(&a, &b, SortState::new(0, true)), Ordering::Greater);
    assert_eq!(compare_items(&a, &b, SortState::new(1, true)), Ordering::Greater, "a missing publisher is empty");
    assert_eq!(compare_items(&a, &b, SortState::new(2, true)), Ordering::Greater, "disabled first");
    assert_eq!(compare_items(&a, &b, SortState::new(3, false)), Ordering::Less);
    let c = item("beta", None, false, StartupImpact::Low);
    assert_eq!(compare_items(&b, &c, SortState::new(3, false)), Ordering::Less, "ties fall back to the name");
    assert_eq!(impact_rank(StartupImpact::Unknown), 4);
    assert_eq!(impact_rank(StartupImpact::NoImpact), 0);
}

#[test]
fn startup_search_commit_follows_the_live_sort() {
    let mut items = vec![
        item("Alpha", None, false, StartupImpact::Unknown),
        item("Beta", None, false, StartupImpact::Unknown),
    ];
    items[0].id = "alpha".into();
    items[1].id = "beta".into();
    // Both names contain "a".
    let matches = [true, true];
    assert_eq!(first_search_match_in_display_order(&items, &matches, SortState::new(0, true)).as_deref(), Some("alpha"));
    assert_eq!(first_search_match_in_display_order(&items, &matches, SortState::new(0, false)).as_deref(), Some("beta"));
    assert_eq!(first_search_match_in_display_order(&items, &[false, false], SortState::new(0, true)), None, "no match, no commit");
}

#[test]
fn startup_sort_columns_persist_by_id() {
    let ids: Vec<&str> = (0..4).map(sort_column_id).collect();
    assert_eq!(ids, ["name", "pub", "status", "impact"]);
}

#[test]
fn the_toolbar_offers_the_opposite_of_the_current_state() {
    let on = item("a", None, true, StartupImpact::Low);
    let off = item("b", None, false, StartupImpact::Low);
    let c = startup_commands(Some(&on));
    assert!(!c.enable && c.disable && c.properties);
    let c = startup_commands(Some(&off));
    assert!(c.enable && !c.disable && c.properties);
    let c = startup_commands(None);
    assert!(!c.enable && !c.disable && !c.properties);
}

#[test]
fn toggling_touches_only_the_entry_with_that_id() {
    let mut items = vec![
        item("a", None, true, StartupImpact::Low),
        item("b", None, true, StartupImpact::High),
    ];
    assert!(set_enabled(&mut items, "b", false));
    assert!(items[0].enabled && !items[1].enabled);
    assert_eq!(items[1].impact, StartupImpact::High);
    assert!(!set_enabled(&mut items, "zzz", false), "an entry a refresh replaced is left alone");
    assert!(items[0].enabled);
    // The rollback after a failed write restores the state.
    assert!(set_enabled(&mut items, "b", true));
    assert!(items[1].enabled);
}
