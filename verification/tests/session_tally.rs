use taskman::session_tally::{accumulate, tally_sessions, SessionTally, TallyProcess};
use taskman::users::{SessionState, UserSession};

fn session(id: u32, user: &str) -> UserSession {
    UserSession { id, user: user.into(), domain: None, state: SessionState::Active }
}

fn process(sid: Option<u32>, user: Option<&str>, name: &str, recv: bool, sent: bool, exe: Option<&str>) -> TallyProcess {
    TallyProcess {
        session_id: sid,
        user: user.map(String::from),
        shown_name: name.into(),
        net_recv_known: recv,
        net_sent_known: sent,
        exe: exe.map(String::from),
    }
}

#[test]
fn accumulate_counts_session_and_program() {
    let mut t = SessionTally::new(1);
    accumulate(&mut t, &process(Some(1), None, "a.exe", false, false, None));
    accumulate(&mut t, &process(Some(1), None, "b.exe", false, false, Some("C:\\b.exe")));
    accumulate(&mut t, &process(Some(1), None, "a.exe", false, false, Some("C:\\a.exe")));
    assert_eq!(t.count, 3);
    assert!(!t.net_known);
    assert_eq!(t.apps.len(), 2);
    assert_eq!(t.apps[0].name, "a.exe");
    assert_eq!(t.apps[0].count, 2);
    // the first process of a.exe had no path; the second one supplies it
    assert_eq!(t.apps[0].exe.as_deref(), Some("C:\\a.exe"));
    assert_eq!(t.apps[1].name, "b.exe");
    assert_eq!(t.apps[1].count, 1);
}

#[test]
fn accumulate_keeps_first_known_path() {
    let mut t = SessionTally::new(1);
    accumulate(&mut t, &process(Some(1), None, "a.exe", false, false, Some("first")));
    accumulate(&mut t, &process(Some(1), None, "a.exe", false, false, Some("second")));
    assert_eq!(t.apps[0].exe.as_deref(), Some("first"));
}

#[test]
fn network_known_once_any_direction_measured() {
    let mut t = SessionTally::new(1);
    accumulate(&mut t, &process(Some(1), None, "a.exe", false, false, None));
    assert!(!t.net_known);
    assert!(!t.apps[0].net_known);
    accumulate(&mut t, &process(Some(1), None, "b.exe", false, true, None));
    assert!(t.net_known);
    assert!(!t.apps[0].net_known);
    assert!(t.apps[1].net_known);
    accumulate(&mut t, &process(Some(1), None, "a.exe", true, false, None));
    assert!(t.apps[0].net_known);
}

#[test]
fn tally_sessions_by_id_and_user_fallback() {
    let sessions = vec![session(1, "alice"), session(2, "bob")];
    let processes = vec![
        process(Some(1), None, "a.exe", false, false, None),
        process(None, Some("BOB"), "b.exe", true, false, None),
        process(Some(2), None, "b.exe", false, false, None),
        process(None, Some("carol"), "c.exe", false, false, None),
        process(Some(7), None, "d.exe", false, false, None),
    ];
    let t = tally_sessions(&sessions, &processes);
    assert_eq!(t.len(), 2);
    assert_eq!(t[0].id, 1);
    assert_eq!(t[0].count, 1);
    assert!(!t[0].net_known);
    assert_eq!(t[1].id, 2);
    assert_eq!(t[1].count, 2);
    assert!(t[1].net_known);
    assert_eq!(t[1].apps.len(), 1);
    assert_eq!(t[1].apps[0].count, 2);
}
