use std::collections::HashSet;
use taskman::details::{
    AffinityDialog, ColumnId, ProcessIdentity, SortOrder, cid_from_id, cid_is_gpu, cid_is_numeric,
    id_of, is_default_visible,
};
use taskman::details_state::{State, default_order_ids, sort_pref};
use taskman::details_tree::{TreeProcess, build_tree, is_plausible_parent};

fn lookup(entries: &[(String, bool)], id: &str) -> Option<bool> {
    entries.iter().find(|(k, _)| k == id).map(|(_, v)| *v)
}

fn tree_process(pid: u32, ppid: Option<u32>) -> TreeProcess {
    TreeProcess { pid, ppid, start_epoch_s: Some(pid as i64), synthetic: false, matches: true }
}

fn depths(ps: &[TreeProcess], searching: bool, collapsed: &HashSet<u32>) -> Vec<(u32, usize)> {
    build_tree(ps, searching, collapsed).iter().map(|row| (row.pid, row.depth)).collect()
}

#[test]
fn details_tree_is_fully_expanded_until_the_user_collapses() {
    let ps = vec![tree_process(10, None), tree_process(11, Some(10)), tree_process(12, Some(11))];
    assert_eq!(depths(&ps, false, &HashSet::new()), [(10, 0), (11, 1), (12, 2)]);
    assert_eq!(depths(&ps, false, &HashSet::from([11])), [(10, 0), (11, 1)]);
    assert_eq!(depths(&ps, false, &HashSet::from([10])), [(10, 0)]);
}

#[test]
fn details_tree_rejects_parents_that_started_after_their_child() {
    let mut child = tree_process(500, Some(900));
    child.start_epoch_s = Some(100);
    let mut recycled = tree_process(900, None);
    recycled.start_epoch_s = Some(400);
    assert_eq!(
        depths(&[recycled, child], false, &HashSet::new()),
        [(500, 0), (900, 0)],
        "both stay roots; the stale link must not nest them"
    );

    let mut child = tree_process(500, Some(900));
    child.start_epoch_s = Some(400);
    let mut parent = tree_process(900, None);
    parent.start_epoch_s = Some(100);
    assert_eq!(depths(&[parent, child], false, &HashSet::new()), [(900, 0), (500, 1)]);
}

#[test]
fn details_tree_filter_keeps_ancestors_and_breaks_cycles() {
    let mut ps = vec![
        tree_process(10, None),
        tree_process(11, Some(10)),
        tree_process(12, Some(11)),
        tree_process(20, None),
    ];
    // The search "needle" matches only the third process.
    for p in &mut ps {
        p.matches = p.pid == 12;
    }
    let filtered: Vec<u32> = build_tree(&ps, true, &HashSet::new()).iter().map(|row| row.pid).collect();
    assert_eq!(filtered, [10, 11, 12]);

    let mut a = tree_process(30, Some(31));
    let mut b = tree_process(31, Some(30));
    a.start_epoch_s = Some(1);
    b.start_epoch_s = Some(1);
    let rows = build_tree(&[a, b], false, &HashSet::new());
    let unique = rows.iter().map(|row| row.pid).collect::<HashSet<_>>();
    assert_eq!(rows.len(), 2);
    assert_eq!(unique, HashSet::from([30, 31]));
}

#[test]
fn details_tree_orders_siblings_by_creation() {
    let mut root = tree_process(10, None);
    root.start_epoch_s = Some(1);
    let mut zulu = tree_process(11, Some(10));
    zulu.start_epoch_s = Some(2);
    let mut alpha = tree_process(12, Some(10));
    alpha.start_epoch_s = Some(3);
    assert_eq!(depths(&[root, alpha, zulu], false, &HashSet::new()), [(10, 0), (11, 1), (12, 1)]);
}

#[test]
fn details_tree_skips_pseudo_rows_and_marks_parents() {
    let mut pseudo = tree_process(7, None);
    pseudo.synthetic = true;
    let rows = build_tree(&[tree_process(1, None), tree_process(2, Some(1)), pseudo], false, &HashSet::new());
    assert_eq!(rows.iter().map(|r| (r.pid, r.children)).collect::<Vec<_>>(), [(1, true), (2, false)]);
    let late_parent = TreeProcess { start_epoch_s: Some(50), ..tree_process(3, None) };
    assert!(!is_plausible_parent(&late_parent, &tree_process(4, Some(3))));
    assert!(is_plausible_parent(&tree_process(3, None), &TreeProcess { start_epoch_s: None, ..tree_process(4, Some(3)) }));
}

#[test]
fn only_the_name_column_reaches_the_hierarchical_state() {
    let mut s = State::default();
    assert_eq!(s.sort_order, SortOrder::Ascending);
    assert_eq!(s.clicked_column(ColumnId::Name), SortOrder::Descending);
    assert_eq!(s.clicked_column(ColumnId::Name), SortOrder::Hierarchical);
    assert!(s.is_tree());
    assert_eq!(s.clicked_column(ColumnId::Name), SortOrder::Ascending);
    assert!(!s.is_tree());

    let mut n = State::default();
    assert_eq!(n.clicked_column(ColumnId::Cpu), SortOrder::Descending);
    assert_eq!(n.clicked_column(ColumnId::Cpu), SortOrder::Ascending);
    assert_eq!(n.clicked_column(ColumnId::Cpu), SortOrder::Descending);
    assert!(!n.is_tree());

    let mut t = State { sort_col: ColumnId::Name, sort_order: SortOrder::Hierarchical, ..State::default() };
    assert_eq!(t.clicked_column(ColumnId::Cpu), SortOrder::Descending);
    assert!(!t.is_tree(), "clicking CPU must leave the tree");
    assert_eq!(t.sort_col, ColumnId::Cpu);

    assert_eq!(SortOrder::Hierarchical.arrow(), None);
    assert_eq!(SortOrder::Ascending.arrow(), Some(true));
    assert_eq!(SortOrder::Descending.arrow(), Some(false));

    assert_eq!(SortOrder::from_saved(ColumnId::Cpu, false, true), SortOrder::Descending);
    assert_eq!(SortOrder::from_saved(ColumnId::Name, true, true), SortOrder::Hierarchical);
}

#[test]
fn saved_sort_cannot_restore_a_hidden_column() {
    let mut state = State::default();
    state.set_visible(ColumnId::Cpu, false);
    let fallback = state.sort_col;
    state.apply_saved_sort("cpu", false, false);
    assert_eq!(state.sort_col, fallback);
    assert!(state.visible.contains(&state.sort_col));
}

#[test]
fn advanced_columns_are_hidden_by_default() {
    let s = State::default();
    assert!(!s.is_visible(ColumnId::Priority));
    assert!(!s.is_visible(ColumnId::GpuDedicated));
    assert!(s.is_visible(ColumnId::Name));
}

#[test]
fn visibility_prefs_roundtrip_through_defaults() {
    let mut s = State::default();
    s.set_visible(ColumnId::Threads, true);
    assert_eq!(lookup(&s.saved_visibility(), "threads"), Some(true));
    let mut restored = State::default();
    restored.apply_saved_prefs(Some(&s.saved_visibility()), None);
    assert!(restored.is_visible(ColumnId::Threads));
    s.set_visible(ColumnId::Uac, false);
    let vis = s.saved_visibility();
    assert_eq!(lookup(&vis, "uac"), Some(false));
    assert!(lookup(&vis, "name").is_none());
    let mut restored2 = State::default();
    restored2.apply_saved_prefs(Some(&vis), None);
    assert!(!restored2.is_visible(ColumnId::Uac));
    assert!(restored2.is_visible(ColumnId::Name));
}

#[test]
fn order_prefs_survive_and_reorder() {
    let mut s = State::default();
    assert_eq!(s.saved_order(), default_order_ids(), "untouched = no entry");
    assert!(s.move_visible(ColumnId::Pid, -1));
    let order = s.saved_order();
    assert_ne!(order, default_order_ids());
    assert_eq!(order[0], "pid");
    let mut restored = State::default();
    restored.apply_saved_prefs(None, Some(&order));
    assert_eq!(restored.saved_order(), order);
    assert_eq!(restored.ordered_visible()[0], ColumnId::Pid);
}

#[test]
fn saved_order_skips_unknown_ids_and_appends_new_columns() {
    let mut s = State::default();
    let order = vec!["pid".to_string(), "name".to_string(), "future_column".to_string()];
    s.apply_saved_prefs(None, Some(&order));
    assert_eq!(s.ordered_visible()[0], ColumnId::Pid);
    assert_eq!(s.ordered_visible()[1], ColumnId::Name);
    let rest: Vec<String> = s.order[2..].iter().copied().map(|c| id_of(c).to_string()).collect();
    assert_eq!(rest, default_order_ids()[2..]);
}

#[test]
fn saved_prefs_never_empties_the_table_or_sorts_by_hidden_column() {
    let all_hidden: Vec<(String, bool)> =
        (0..28).map(|i| (id_of(ColumnId::at(i)).to_string(), false)).collect();
    let mut s = State::default();
    s.apply_saved_prefs(Some(&all_hidden), None);
    assert!(!s.visible.is_empty(), "defaults survive an empty override");

    let mut s2 = State { sort_col: ColumnId::Uac, ..State::default() };
    s2.apply_saved_prefs(Some(&[("uac".to_string(), false)]), None);
    assert!(!s2.is_visible(ColumnId::Uac));
    assert!(s2.is_visible(s2.sort_col));
    assert_eq!(s2.sort_order, SortOrder::Ascending);
}

#[test]
fn hiding_sorted_column_uses_a_visible_fallback() {
    let mut s = State::default();
    s.set_visible(ColumnId::Priority, true);
    s.sort_col = ColumnId::Priority;
    s.set_visible(ColumnId::Priority, false);
    assert!(s.is_visible(s.sort_col));
    assert_eq!(s.sort_order, SortOrder::Ascending);
}

#[test]
fn active_columns_can_be_reordered() {
    let mut s = State::default();
    assert_eq!(s.ordered_visible()[0], ColumnId::Name);
    assert!(s.move_visible(ColumnId::Pid, -1));
    assert_eq!(s.ordered_visible()[0], ColumnId::Pid);
    assert!(!s.move_visible(ColumnId::Pid, -1));
}

#[test]
fn column_prefs_store_only_departures_from_the_defaults() {
    let mut s = State::default();
    let prefs = s.column_prefs();
    assert!(prefs.visibility.is_none());
    assert!(prefs.order.is_none());
    s.set_visible(ColumnId::Threads, true);
    assert!(s.move_visible(ColumnId::Pid, -1));
    let prefs = s.column_prefs();
    assert_eq!(prefs.visibility, Some(vec![("threads".to_string(), true)]));
    assert_eq!(prefs.order.unwrap()[0], "pid");
}

#[test]
fn sort_pref_keeps_the_hierarchy_apart() {
    let p = sort_pref(ColumnId::Name, SortOrder::Hierarchical);
    assert!(p.hierarchical);
    assert_eq!(p.column, "name");
    assert!(p.ascending);
    let p = sort_pref(ColumnId::Cpu, SortOrder::Descending);
    assert!(!p.hierarchical);
    assert_eq!(p.column, "cpu");
    assert!(!p.ascending);
    assert_eq!(SortOrder::from_saved(ColumnId::Name, p.ascending, true), SortOrder::Hierarchical);
}

#[test]
fn column_catalogue_roundtrips_ids() {
    for i in 0..28 {
        let c = ColumnId::at(i);
        assert_eq!(c.index(), i);
        assert_eq!(cid_from_id(id_of(c)), Some(c));
    }
    assert_eq!(cid_from_id("nope"), None);
    assert!(cid_is_numeric(ColumnId::Pid));
    assert!(!cid_is_numeric(ColumnId::Name));
    assert!(cid_is_gpu(ColumnId::GpuUtil));
    assert!(is_default_visible(ColumnId::Name));
}

#[test]
fn effective_search_prefers_the_page_filter() {
    let mut s = State::default();
    assert_eq!(s.effective_search("global"), "global");
    s.filter = "local".to_string();
    assert_eq!(s.effective_search("global"), "local");
}

#[test]
fn affinity_dialog_edits_the_loaded_mask() {
    let id = ProcessIdentity { pid: 42, start_epoch_s: Some(7) };
    let mut d = AffinityDialog::open(id, Some("C:\\app.exe".to_string()), true);
    assert!(d.save_for_program);
    assert!(!d.can_apply(), "nothing to apply before the masks arrive");
    d.receive(Ok((0b0101, 0b1111)));
    assert!(d.cpu_on(0) && !d.cpu_on(1));
    assert!(d.cpu_allowed(3) && !d.cpu_allowed(4));
    d.set_cpu(1, true);
    d.set_cpu(0, false);
    assert_eq!(d.mask, Some(0b0110));
    // A second result never overwrites the first.
    d.receive(Err("late".to_string()));
    assert_eq!(d.error, None);
    let a = d.apply().unwrap();
    assert_eq!(a.mask, 0b0110);
    assert_eq!(a.rule, Some(("C:\\app.exe".to_string(), Some(0b0110))));
    d.set_cpu(1, false);
    d.set_cpu(2, false);
    assert!(d.warns_empty());
    assert!(d.apply().is_none(), "an empty mask is never applied");
}

#[test]
fn affinity_dialog_reports_a_load_error() {
    let id = ProcessIdentity { pid: 1, start_epoch_s: None };
    let mut d = AffinityDialog::open(id, None, true);
    assert!(!d.save_for_program, "no rule without a program key");
    d.receive(Err("access denied".to_string()));
    assert_eq!(d.error.as_deref(), Some("access denied"));
    assert!(!d.can_apply());
    assert!(!d.can_save_for_program());
    let mut ok = AffinityDialog::open(id, None, false);
    ok.receive(Ok((1, 1)));
    assert_eq!(ok.apply().unwrap().rule, None);
}

#[test]
fn the_tree_view_command_enters_and_leaves_the_tree() {
    let mut s = State::default();
    s.clicked_column(ColumnId::Cpu);
    assert_eq!(s.toggle_tree_view(), SortOrder::Hierarchical);
    assert_eq!(s.sort_col, ColumnId::Name);
    assert!(s.is_tree());
    assert_eq!(s.toggle_tree_view(), SortOrder::Ascending, "leaving the tree sorts by name");
    assert_eq!(s.sort_col, ColumnId::Name);
}

#[test]
fn the_tree_expands_and_collapses_as_a_whole() {
    let mut s = State::default();
    let g = s.view_generation;
    s.collapse_all(&[4, 5]);
    assert!(!s.is_expanded(4) && !s.is_expanded(5) && s.is_expanded(6));
    assert_eq!(s.view_generation, g + 2);
    s.expand_all();
    assert!(s.is_expanded(4) && s.is_expanded(5));
    assert!(s.collapsed.is_empty());
}

#[test]
fn visible_columns_rank_in_display_order() {
    let mut s = State::default();
    let n = s.visible_count();
    assert_eq!(s.visible_rank(ColumnId::Name), Some(0));
    assert_eq!(s.visible_rank(ColumnId::Priority), None, "hidden by default");
    s.set_visible(ColumnId::Priority, true);
    assert_eq!(s.visible_count(), n + 1);
    assert!(s.visible_rank(ColumnId::Priority).is_some());
    assert!(!s.requires_gpu_telemetry() || s.is_visible(ColumnId::GpuUtil) || s.is_visible(ColumnId::GpuEngine)
        || s.is_visible(ColumnId::GpuDedicated) || s.is_visible(ColumnId::GpuShared));
    s.set_visible(ColumnId::GpuDedicated, true);
    assert!(s.requires_gpu_telemetry());
}
