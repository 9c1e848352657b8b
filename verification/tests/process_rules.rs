use taskman::details_rows::PriorityClass;
use taskman::process_rules::{ProcessRule, RuleTable};

#[test]
fn saving_and_forgetting_a_priority_keeps_the_affinity() {
    let mut t = RuleTable::new();
    assert_eq!(t.get("c:\\app.exe"), None);
    t.set_priority("c:\\app.exe", Some(PriorityClass::High));
    t.set_affinity("c:\\app.exe", Some(0b11));
    assert_eq!(
        t.get("c:\\app.exe"),
        Some(ProcessRule { priority: Some(PriorityClass::High), affinity_mask: Some(3) })
    );
    assert!(t.saves_priority("c:\\app.exe") && t.saves_affinity("c:\\app.exe"));
    t.set_priority("c:\\app.exe", None);
    assert_eq!(t.get("c:\\app.exe"), Some(ProcessRule { priority: None, affinity_mask: Some(3) }));
    assert!(!t.saves_priority("c:\\app.exe"));
}

#[test]
fn a_rule_that_pins_nothing_is_dropped() {
    let mut t = RuleTable::new();
    t.set_affinity("a", Some(1));
    t.set_affinity("b", Some(2));
    t.set_affinity("a", None);
    assert_eq!(t.get("a"), None);
    assert_eq!(t.get("b"), Some(ProcessRule { priority: None, affinity_mask: Some(2) }), "other programs stay");
    t.set_priority("c", None);
    assert_eq!(t.get("c"), None, "forgetting what was never saved stores nothing");
    assert!(ProcessRule { priority: None, affinity_mask: None }.is_empty());
}
