use std::cmp::Ordering;
use taskman::services::{
    ControlHint, ServiceAction, ServiceInfo, ServiceStatus, compare_services, control_state,
    first_search_match_in_display_order, is_numeric_column, needs_confirmation, service_status_rank, sort_column_id,
    sort_services,
};
use taskman::sort_state::SortState;

fn svc(name: &str, pid: Option<u32>, status: ServiceStatus) -> ServiceInfo {
    ServiceInfo {
        name: name.to_string(),
        display_name: format!("Display {name}"),
        description: String::new(),
        pid,
        status,
        group: String::new(),
        startup_type: String::new(),
        account: String::new(),
    }
}

fn sorted(items: &mut [ServiceInfo], column: usize, ascending: bool) {
    let sort = SortState::new(column, ascending);
    items.sort_by(|a, b| compare_services(a, b, sort));
}

#[test]
fn name_sort_is_case_insensitive_and_reverses_with_direction() {
    let mut items = vec![
        svc("beta", None, ServiceStatus::Unknown),
        svc("Alpha", None, ServiceStatus::Unknown),
        svc("gamma", None, ServiceStatus::Unknown),
    ];
    sorted(&mut items, 0, true);
    let names: Vec<_> = items.iter().map(|s| s.name.as_str()).collect();
    assert_eq!(names, ["Alpha", "beta", "gamma"]);
    sorted(&mut items, 0, false);
    let names: Vec<_> = items.iter().map(|s| s.name.as_str()).collect();
    assert_eq!(names, ["gamma", "beta", "Alpha"]);
}

#[test]
fn pidless_services_sort_last_in_either_direction() {
    let mut items = vec![
        svc("has-pid-a", Some(100), ServiceStatus::Unknown),
        svc("no-pid", None, ServiceStatus::Unknown),
        svc("has-pid-b", Some(50), ServiceStatus::Unknown),
    ];
    for ascending in [true, false] {
        sorted(&mut items, 1, ascending);
        assert_eq!(items.last().map(|s| s.name.as_str()), Some("no-pid"), "ascending={ascending}");
        let pids: Vec<u32> = items[..2].iter().filter_map(|s| s.pid).collect();
        if ascending {
            assert_eq!(pids, [50, 100]);
        } else {
            assert_eq!(pids, [100, 50]);
        }
    }
}

#[test]
fn status_sort_follows_native_rank_running_before_stopped() {
    let mut items = vec![
        svc("s", None, ServiceStatus::Stopped),
        svc("r", None, ServiceStatus::Running),
        svc("p", None, ServiceStatus::Paused),
    ];
    sorted(&mut items, 3, true);
    let statuses: Vec<_> = items.iter().map(|s| s.status).collect();
    assert_eq!(statuses, [ServiceStatus::Running, ServiceStatus::Paused, ServiceStatus::Stopped]);
}

#[test]
fn service_ties_fall_back_to_the_name() {
    let a = svc("b", None, ServiceStatus::Running);
    let b = svc("A", None, ServiceStatus::Running);
    assert_eq!(compare_services(&a, &b, SortState::new(3, false)), Ordering::Greater);
    assert_eq!(service_status_rank(ServiceStatus::Unknown), 7);
}

#[test]
fn services_search_commit_follows_the_live_sort() {
    let items = vec![svc("DnsCache", Some(10), ServiceStatus::Unknown), svc("Bfe", Some(9), ServiceStatus::Unknown)];
    // Both names contain "e".
    let matches = [true, true];
    assert_eq!(first_search_match_in_display_order(&items, &matches, SortState::new(0, true)).as_deref(), Some("Bfe"));
    assert_eq!(
        first_search_match_in_display_order(&items, &matches, SortState::new(0, false)).as_deref(),
        Some("DnsCache")
    );
    assert_eq!(first_search_match_in_display_order(&items, &[false, false], SortState::new(0, true)), None, "no match, no commit");
}

#[test]
fn the_search_commit_skips_rows_the_search_hides() {
    let items = vec![svc("a", Some(1), ServiceStatus::Running), svc("b", None, ServiceStatus::Stopped)];
    assert_eq!(first_search_match_in_display_order(&items, &[false, true], SortState::new(0, true)).as_deref(), Some("b"));
    assert_eq!(first_search_match_in_display_order(&items, &[true], SortState::new(0, false)).as_deref(), Some("a"));
    let order = sort_services(&items, &vec![0, 1], SortState::new(1, false));
    assert_eq!(order, vec![0, 1], "the PID-less service stays last even descending");
}

#[test]
fn controls_offer_only_what_can_succeed() {
    let start = |status, busy| control_state(ServiceAction::Start, status, busy);
    let stop = |status, busy| control_state(ServiceAction::Stop, status, busy);
    assert!(start(Some(ServiceStatus::Stopped), false).enabled);
    assert!(!start(Some(ServiceStatus::Running), false).enabled);
    assert_eq!(start(Some(ServiceStatus::Running), false).hint, ControlHint::ServiceNotRunning);
    assert!(stop(Some(ServiceStatus::Running), false).enabled);
    assert!(!stop(Some(ServiceStatus::Paused), false).enabled);
    assert!(!control_state(ServiceAction::Restart, None, false).enabled, "nothing selected");
    let busy = stop(Some(ServiceStatus::Running), true);
    assert!(!busy.enabled);
    assert_eq!(busy.hint, ControlHint::ActionAlreadyRunning);
    assert!(needs_confirmation(ServiceAction::Stop) && needs_confirmation(ServiceAction::Restart));
    assert!(!needs_confirmation(ServiceAction::Start));
}

#[test]
fn services_sort_columns_persist_by_id() {
    let ids: Vec<&str> = (0..5).map(sort_column_id).collect();
    assert_eq!(ids, ["name", "pid", "desc", "status", "group"]);
    assert!(is_numeric_column(1) && !is_numeric_column(0) && !is_numeric_column(3));
}
