use std::cmp::Ordering;
use taskman::sort_state::SortState;
use taskman::users::{
    SessionCommand, SessionKeys, SessionState, UserSession, compare_user_apps, compare_users, display_name,
    is_listed, is_numeric_column, needs_confirmation, session_of, session_state_rank, sort_column_id,
};

fn session(id: u32, user: &str, domain: Option<&str>) -> UserSession {
    UserSession { id, user: user.into(), domain: domain.map(String::from), state: SessionState::Active }
}

fn keys(net: Option<u64>) -> SessionKeys {
    SessionKeys { cpu: 0, mem: 0, disk: 0, net }
}

#[test]
fn unknown_network_sorts_below_a_measured_zero() {
    let a = session(1, "alice", None);
    let b = session(2, "bob", None);
    // A session that measured zero traffic against one nobody measured.
    let measured = keys(Some(0));
    let unknown = keys(None);
    assert_eq!(compare_users(&b, unknown, &a, measured, "PC", SortState::new(5, true)), Ordering::Less);
    assert_eq!(compare_users(&a, measured, &b, unknown, "PC", SortState::new(5, true)), Ordering::Greater);
}

#[test]
fn only_real_named_sessions_are_listed() {
    assert!(is_listed(&session(1, "alice", None)));
    assert!(!is_listed(&session(0, "alice", None)), "session 0 hosts services");
    assert!(!is_listed(&session(2, "", None)));
    assert!(!is_listed(&session(3, "SESSION 3", None)), "placeholder accounts stay hidden");
    assert!(is_listed(&session(4, "sessionless", None)) == false);
    assert!(is_listed(&session(5, "my session", None)));
}

#[test]
fn foreign_domains_prefix_the_user_name() {
    assert_eq!(display_name(&session(1, "alice", Some("CORP")), "PC"), "CORP\\alice");
    assert_eq!(display_name(&session(1, "alice", Some("pc")), "PC"), "alice", "the local machine is no domain");
    assert_eq!(display_name(&session(1, "alice@CORP", Some("CORP")), "PC"), "alice@CORP");
    assert_eq!(display_name(&session(1, "alice", Some("")), "PC"), "alice");
    assert_eq!(display_name(&session(1, "alice", None), "PC"), "alice");
    assert_eq!(display_name(&session(1, "x@CORPX", Some("CORP")), "PC"), "CORP\\x@CORPX");
}

#[test]
fn a_process_without_a_session_id_joins_its_users_session() {
    let sessions = vec![session(3, "Alice", None), session(5, "bob", None), session(7, "alice", None)];
    assert_eq!(session_of(Some(9), Some("bob"), &sessions), Some(9), "its own id wins");
    assert_eq!(session_of(None, Some("ALICE"), &sessions), Some(3), "the first session of the user");
    assert_eq!(session_of(None, Some("carol"), &sessions), None);
    assert_eq!(session_of(None, None, &sessions), None);
}

#[test]
fn sessions_sort_by_shown_name_and_state() {
    let a = session(1, "alice", Some("CORP"));
    let mut b = session(2, "Bob", None);
    b.state = SessionState::Disconnected;
    let k = keys(None);
    assert_eq!(compare_users(&a, k, &b, k, "PC", SortState::new(0, true)), Ordering::Greater, "CORP\\alice > bob");
    assert_eq!(compare_users(&a, k, &b, k, "PC", SortState::new(1, true)), Ordering::Less);
    assert_eq!(compare_users(&a, k, &b, k, "PC", SortState::new(1, false)), Ordering::Greater);
    assert_eq!(session_state_rank(SessionState::Unknown), 10);
}

#[test]
fn app_rows_sort_by_value_then_name() {
    let (a, b) = ([1, 0, 0, 0], [1, 0, 0, 0]);
    assert_eq!(compare_user_apps("Zed", a, "abc", b, SortState::new(2, false)), Ordering::Greater, "ties fall back to the name ascending");
    assert_eq!(compare_user_apps("Zed", [2, 0, 0, 0], "abc", b, SortState::new(2, false)), Ordering::Less);
    assert_eq!(compare_user_apps("Zed", a, "abc", b, SortState::new(0, false)), Ordering::Less);
}

#[test]
fn signing_out_asks_first() {
    assert!(needs_confirmation(SessionCommand::Logoff));
    assert!(!needs_confirmation(SessionCommand::Disconnect));
}

#[test]
fn users_sort_columns_persist_by_id() {
    let ids: Vec<&str> = (0..6).map(sort_column_id).collect();
    assert_eq!(ids, ["user", "status", "cpu", "mem", "disk", "net"]);
    assert!(!is_numeric_column(1) && is_numeric_column(2) && is_numeric_column(5));
}
