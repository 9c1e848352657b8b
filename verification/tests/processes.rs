use std::collections::HashSet;
use taskman::details_rows::TreeKey;
use taskman::process_nav::{process_tree_key, row_of_pid};
use taskman::process_order::{process_status_rank, sort_entries};
use taskman::process_rows::{DisplayRow, ProcessRow, RowValues, build_display_rows, subtree_chains};
use taskman::processes::{
    GroupProcess, ProcCategory, ProcStatus, State, StatusMark, column_id, derive_display_groups, is_launch_boundary,
    status_marks, status_words,
    is_non_owning_shell, is_system_boundary, plausibly_same_application,
};

/// A process with its CPU share (the fixture's `pid` percent) and memory
/// (`1000 * pid` bytes); `busy` follows from the CPU share when the fixture
/// is finished.
struct Fx {
    p: GroupProcess,
    cpu: f64,
    mem: f64,
    net: Option<f64>,
}

fn proc(pid: u32, ppid: Option<u32>, name: &str, cat: ProcCategory) -> Fx {
    Fx {
        p: GroupProcess {
            pid,
            ppid,
            name: name.to_string(),
            company: None,
            category: cat,
            has_window: cat == ProcCategory::App && ppid.is_none(),
            app_root: false,
            busy: false,
            shown_name: name.to_string(),
            status: ProcStatus::Running,
            power_throttled: false,
            net_known: false,
            synthetic: false,
            matches: false,
        },
        cpu: pid as f64,
        mem: 1000.0 * pid as f64,
        net: None,
    }
}

/// The processes as the library takes them (a process at 1 % CPU or more
/// is busy) and their CPU, memory and network values.
fn finish(fx: Vec<Fx>) -> (Vec<GroupProcess>, Vec<[f64; 3]>) {
    let mut ps = Vec::new();
    let mut vals = Vec::new();
    for f in fx {
        let mut p = f.p;
        p.busy = f.cpu >= 1.0;
        p.net_known = f.net.is_some();
        ps.push(p);
        vals.push([f.cpu, f.mem, f.net.unwrap_or(0.0)]);
    }
    (ps, vals)
}

fn zeros(n: usize) -> Vec<u64> {
    vec![0; n]
}

fn rows_by_name(ps: &[GroupProcess], expanded: &HashSet<u32>, collapsed: [bool; 3]) -> Vec<DisplayRow> {
    build_display_rows(ps, false, 0, true, expanded, &collapsed, &zeros(ps.len()), &zeros(ps.len()))
}

/// Sum of value `col` over the display subtree of process `x`.
fn subtree_sum(ps: &[GroupProcess], vals: &[[f64; 3]], x: usize, col: usize) -> f64 {
    let chains = subtree_chains(ps);
    chains.iter().enumerate().filter(|(_, c)| c.contains(&x)).map(|(y, _)| vals[y][col]).sum()
}

/// Value `col` as the row shows it: its subtree's sum or its own.
fn shown(ps: &[GroupProcess], vals: &[[f64; 3]], row: &ProcessRow, col: usize) -> f64 {
    match row.values {
        RowValues::Subtree => subtree_sum(ps, vals, row.index, col),
        RowValues::Own => vals[row.index][col],
    }
}

/// Ranks of `v` on the scale of `scale`: how many distinct values lie below.
fn ranks(v: &[f64], scale: &[f64]) -> Vec<u64> {
    let mut all: Vec<f64> = scale.to_vec();
    all.sort_by(|a, b| a.partial_cmp(b).unwrap());
    all.dedup();
    v.iter().map(|x| all.iter().filter(|y| *y < x).count() as u64).collect()
}

/// Subtree and own CPU ranks on one scale.
fn cpu_ranks(ps: &[GroupProcess], vals: &[[f64; 3]]) -> (Vec<u64>, Vec<u64>) {
    let sub: Vec<f64> = (0..ps.len()).map(|x| subtree_sum(ps, vals, x, 0)).collect();
    let own: Vec<f64> = vals.iter().map(|v| v[0]).collect();
    let scale: Vec<f64> = sub.iter().chain(own.iter()).copied().collect();
    (ranks(&sub, &scale), ranks(&own, &scale))
}

fn headers(rows: &[DisplayRow]) -> Vec<(u8, usize)> {
    rows.iter()
        .filter_map(|r| match r {
            DisplayRow::GroupHeader(g, n) => Some((*g, *n)),
            DisplayRow::Process(_) => None,
        })
        .collect()
}

fn members_under(rows: &[DisplayRow], nth_header: usize) -> Option<usize> {
    let start = rows
        .iter()
        .enumerate()
        .filter_map(|(i, r)| if matches!(r, DisplayRow::GroupHeader(..)) { Some(i) } else { None })
        .nth(nth_header)?;
    Some(
        rows[start + 1..]
            .iter()
            .take_while(|r| !matches!(r, DisplayRow::GroupHeader(..)))
            .filter(|r| matches!(r, DisplayRow::Process(_)))
            .count(),
    )
}

fn rows_in_group(rows: &[DisplayRow], gi: u8) -> Vec<ProcessRow> {
    rows.iter()
        .skip_while(|r| !matches!(r, DisplayRow::GroupHeader(g, _) if *g == gi))
        .skip(1)
        .take_while(|r| !matches!(r, DisplayRow::GroupHeader(..)))
        .filter_map(|r| match r {
            DisplayRow::Process(d) => Some(*d),
            DisplayRow::GroupHeader(..) => None,
        })
        .collect()
}

fn process_rows(rows: &[DisplayRow]) -> Vec<ProcessRow> {
    rows.iter()
        .filter_map(|r| match r {
            DisplayRow::Process(d) => Some(*d),
            DisplayRow::GroupHeader(..) => None,
        })
        .collect()
}

/// The name a row shows: the process name, with the family count.
fn label(ps: &[GroupProcess], row: &ProcessRow) -> String {
    match row.label_count {
        Some(n) => format!("{} ({n})", ps[row.index].shown_name),
        None => ps[row.index].shown_name.clone(),
    }
}

#[test]
fn process_groups_system_separate_from_background() {
    let (ps, _) = finish(vec![
        proc(1, None, "explorer.exe", ProcCategory::App),
        proc(2, None, "updatehelper.exe", ProcCategory::Background),
        proc(3, None, "svchost.exe", ProcCategory::System),
    ]);
    let rows = rows_by_name(&ps, &HashSet::new(), [false; 3]);
    assert_eq!(headers(&rows), vec![(0, 1), (1, 1), (2, 1)]);
    assert_eq!(
        (members_under(&rows, 0), members_under(&rows, 1), members_under(&rows, 2)),
        (Some(1), Some(1), Some(1))
    );
}

#[test]
fn status_column_sorts_status_instead_of_name() {
    let mut running = proc(1, None, "z-running.exe", ProcCategory::Background);
    let mut suspended = proc(2, None, "a-suspended.exe", ProcCategory::Background);
    let mut hung = proc(3, None, "b-hung.exe", ProcCategory::Background);
    running.p.status = ProcStatus::Running;
    suspended.p.status = ProcStatus::Suspended;
    hung.p.status = ProcStatus::NotResponding;
    let (all, _) = finish(vec![running, suspended, hung]);
    // Handed over as hung, suspended, running.
    let order = sort_entries(&all, &vec![2, 1, 0], 1, true, &zeros(3));
    assert_eq!(order.iter().map(|&i| all[i].pid).collect::<Vec<_>>(), [1, 2, 3]);
    assert_eq!(process_status_rank(&all[2]), (2, false));
}

#[test]
fn group_totals_are_independent_of_expansion_state() {
    let mut fx = vec![
        proc(1, None, "app", ProcCategory::App),
        proc(2, Some(1), "child", ProcCategory::App),
        proc(3, Some(2), "grandchild", ProcCategory::App),
        proc(4, None, "bg", ProcCategory::Background),
    ];
    for f in &mut fx {
        f.cpu = 0.0;
    }
    let (ps, _) = finish(fx);
    let expanded: HashSet<u32> = [1u32, 2].into_iter().collect();
    let collapsed_rows = rows_by_name(&ps, &HashSet::new(), [false; 3]);
    let expanded_rows = rows_by_name(&ps, &expanded, [false; 3]);
    let header_total = |rows: &[DisplayRow]| headers(rows).into_iter().find(|h| h.0 == 0).unwrap().1;
    assert_eq!(header_total(&collapsed_rows), 1);
    assert_eq!(header_total(&expanded_rows), header_total(&collapsed_rows));
    let closed = rows_by_name(&ps, &HashSet::new(), [true, false, false]);
    assert_eq!(header_total(&closed), 1);
    assert!(rows_in_group(&closed, 0).is_empty(), "a closed header hides its rows");
    assert_eq!(process_rows(&expanded_rows).len(), 4);
}

#[test]
fn explorer_launched_programs_are_independent_app_groups() {
    let explorer = proc(1, None, "explorer.exe", ProcCategory::App);
    let mut brave = proc(2, Some(1), "brave.exe", ProcCategory::App);
    brave.p.has_window = true;
    let mut brave_window = proc(3, Some(2), "brave.exe", ProcCategory::App);
    brave_window.p.has_window = true;
    let brave_helper = proc(4, Some(2), "brave.exe", ProcCategory::App);
    let mut code = proc(5, Some(1), "Code.exe", ProcCategory::App);
    code.p.has_window = true;
    let tray = proc(6, Some(1), "trayhelper.exe", ProcCategory::App);
    let (ps, vals) = finish(vec![explorer, brave, brave_window, brave_helper, code, tray]);
    let rows = rows_by_name(&ps, &HashSet::new(), [false; 3]);
    assert_eq!(headers(&rows)[0], (0, 4));
    let apps = rows_in_group(&rows, 0);
    assert_eq!(apps.len(), 4);
    assert!(apps.iter().all(|r| r.depth == 0));
    let row_of = |pid: u32| apps.iter().find(|r| r.pid == pid).copied().unwrap();
    assert_eq!(label(&ps, &row_of(1)), "explorer.exe");
    assert_eq!(shown(&ps, &vals, &row_of(1), 0), 1.0);
    assert_eq!(label(&ps, &row_of(2)), "brave.exe (2)");
    assert_eq!(shown(&ps, &vals, &row_of(2), 0), 6.0);
    assert_eq!(label(&ps, &row_of(3)), "brave.exe");
    assert_eq!(shown(&ps, &vals, &row_of(3), 0), 3.0);
    let bg: Vec<u32> = rows_in_group(&rows, 1).iter().map(|r| r.pid).collect();
    assert_eq!(bg, vec![6]);
    // Name order ignores case: brave, brave, Code, explorer.
    assert_eq!(apps.iter().map(|r| r.pid).collect::<Vec<_>>(), vec![2, 3, 5, 1]);
}

#[test]
fn shell_launched_gui_is_not_folded_into_terminal_group() {
    let terminal = proc(10, None, "WindowsTerminal.exe", ProcCategory::App);
    let mut shell = proc(11, Some(10), "powershell.exe", ProcCategory::App);
    shell.cpu = 0.0;
    let mut notepad = proc(12, Some(11), "notepad.exe", ProcCategory::App);
    notepad.p.has_window = true;
    let (ps, _) = finish(vec![terminal, shell, notepad]);
    let rows = rows_by_name(&ps, &HashSet::new(), [false; 3]);
    assert_eq!(headers(&rows)[0], (0, 2));
    let apps = rows_in_group(&rows, 0);
    assert_eq!(apps.len(), 2);
    assert!(apps.iter().all(|r| r.depth == 0));
    assert_eq!(label(&ps, apps.iter().find(|r| r.pid == 10).unwrap()), "WindowsTerminal.exe (2)");
    assert_eq!(label(&ps, apps.iter().find(|r| r.pid == 12).unwrap()), "notepad.exe");
}

#[test]
fn process_tree_supports_three_plus_levels() {
    let mut fx = vec![
        proc(1, None, "root", ProcCategory::App),
        proc(2, Some(1), "child", ProcCategory::App),
        proc(3, Some(2), "grandchild", ProcCategory::App),
        proc(4, Some(3), "great", ProcCategory::App),
    ];
    for f in &mut fx {
        f.cpu = 0.0;
    }
    let (ps, _) = finish(fx);
    let expanded: HashSet<u32> = [1u32, 2, 3].into_iter().collect();
    let rows = rows_by_name(&ps, &expanded, [false; 3]);
    let depths: Vec<usize> = process_rows(&rows).iter().map(|r| r.depth).collect();
    assert_eq!(depths, vec![0, 1, 2, 3]);
}

#[test]
fn process_tree_cycle_terminates_and_remains_visible() {
    let (ps, _) = finish(vec![
        proc(1, Some(2), "a", ProcCategory::Background),
        proc(2, Some(1), "b", ProcCategory::Background),
    ]);
    let expanded: HashSet<u32> = [1u32, 2].into_iter().collect();
    let rows = rows_by_name(&ps, &expanded, [false; 3]);
    let pids: Vec<u32> = process_rows(&rows).iter().map(|r| r.pid).collect();
    assert_eq!(pids.len(), 2);
    assert_eq!(pids.len(), pids.iter().collect::<HashSet<_>>().len());
}

#[test]
fn grouping_app_cycle_shows_each_process_once() {
    let mut a = proc(1, Some(2), "a", ProcCategory::App);
    a.p.has_window = true;
    let b = proc(2, Some(1), "a", ProcCategory::App);
    let (ps, _) = finish(vec![a, b]);
    let expanded: HashSet<u32> = [1u32, 2].into_iter().collect();
    let rows = rows_by_name(&ps, &expanded, [false; 3]);
    let pids: Vec<u32> = rows_in_group(&rows, 0).iter().map(|r| r.pid).collect();
    assert_eq!(pids.len(), pids.iter().collect::<HashSet<_>>().len());
}

#[test]
fn grouped_label_counts_entire_subtree() {
    let mut fx = vec![
        proc(1, None, "Brave", ProcCategory::App),
        proc(2, Some(1), "Child", ProcCategory::App),
        proc(3, Some(2), "GC", ProcCategory::App),
        proc(4, Some(3), "GGC", ProcCategory::App),
    ];
    for f in &mut fx {
        f.cpu = 0.0;
    }
    let (ps, _) = finish(fx);
    let one: HashSet<u32> = [1u32].into_iter().collect();
    let rows = process_rows(&rows_by_name(&ps, &one, [false; 3]));
    assert_eq!(label(&ps, &rows[0]), "Brave (4)");
    let rows = process_rows(&rows_by_name(&ps, &HashSet::new(), [false; 3]));
    assert_eq!(label(&ps, &rows[0]), "Brave (4)");
    let two: HashSet<u32> = [1u32, 2].into_iter().collect();
    let rows = process_rows(&rows_by_name(&ps, &two, [false; 3]));
    assert_eq!(label(&ps, &rows[0]), "Brave (4)");
    assert_eq!(label(&ps, &rows[1]), "Child (3)");
}

#[test]
fn subtree_aggregation_counts_all_descendants() {
    let (ps, vals) = finish(vec![
        proc(1, None, "root", ProcCategory::Background),
        proc(2, Some(1), "mid", ProcCategory::Background),
        proc(3, Some(2), "leaf", ProcCategory::Background),
    ]);
    assert_eq!(subtree_sum(&ps, &vals, 0, 0), 6.0);
    assert_eq!(subtree_sum(&ps, &vals, 0, 1), 6000.0);
    assert_eq!(subtree_sum(&ps, &vals, 1, 0), 5.0);
    assert_eq!(subtree_sum(&ps, &vals, 2, 0), 3.0);
    let chains = subtree_chains(&ps);
    let count = |x: usize| chains.iter().filter(|c| c.contains(&x)).count();
    assert_eq!((count(2), count(1), count(0)), (1, 2, 3));
    assert_eq!(chains[2], vec![2, 1, 0]);
}

#[test]
fn subtree_chains_cut_a_cycle_at_its_first_member() {
    let (ps, _) = finish(vec![
        proc(1, Some(2), "a", ProcCategory::Background),
        proc(2, Some(1), "b", ProcCategory::Background),
        proc(3, Some(2), "c", ProcCategory::Background),
    ]);
    let chains = subtree_chains(&ps);
    assert_eq!(chains[0], vec![0]);
    assert_eq!(chains[1], vec![1, 0]);
    assert_eq!(chains[2], vec![2, 1, 0]);
}

#[test]
fn efficiency_mode_rolls_up_to_the_group_row() {
    let mut root = proc(1, None, "brave.exe", ProcCategory::App);
    root.p.has_window = true;
    let mut renderer = proc(2, Some(1), "brave.exe", ProcCategory::App);
    renderer.p.power_throttled = true;
    let quiet = proc(3, Some(1), "brave.exe", ProcCategory::App);
    let (ps, _) = finish(vec![root, renderer, quiet]);
    let chains = subtree_chains(&ps);
    let efficiency = |x: usize| chains.iter().enumerate().any(|(y, c)| c.contains(&x) && ps[y].power_throttled);
    assert!(efficiency(0), "head inherits its renderer's leaf");
    assert!(efficiency(1));
    assert!(!efficiency(2), "an untouched sibling stays plain");
    let rows = rows_by_name(&ps, &HashSet::new(), [false; 3]);
    let head = process_rows(&rows).into_iter().find(|r| r.pid == 1).expect("head row");
    assert!(head.power_throttled, "collapsed app row shows the leaf");
}

#[test]
fn measured_network_reaches_the_column_and_aggregates() {
    let mut root = proc(1, None, "svc.exe", ProcCategory::Background);
    root.net = Some(1_000.0 + 250.0);
    let mut child = proc(2, Some(1), "svc.exe", ProcCategory::Background);
    child.net = Some(500.0 + 0.0);
    let (ps, vals) = finish(vec![root, child]);
    let rows = rows_by_name(&ps, &HashSet::new(), [false; 3]);
    let head = process_rows(&rows).into_iter().find(|r| r.pid == 1).expect("family head row");
    assert!(head.net_available, "a measured rate is not 'unavailable'");
    // 1000 + 250 (own) + 500 + 0 (child) bytes/s over the family.
    assert!((shown(&ps, &vals, &head, 2) - 1_750.0).abs() < f64::EPSILON);
    // A zero rate is a MEASUREMENT, so it still counts as available.
    let mut quiet = proc(3, None, "quiet.exe", ProcCategory::Background);
    quiet.net = Some(0.0);
    let (ps, _) = finish(vec![quiet]);
    let row = process_rows(&rows_by_name(&ps, &HashSet::new(), [false; 3]))[0];
    assert!(row.net_available, "measured zero must not read as unknown");
}

#[test]
fn missing_network_renders_unavailable_not_zero() {
    let p = proc(9, None, "no-net", ProcCategory::Background);
    let (ps, _) = finish(vec![p]);
    let d = process_rows(&rows_by_name(&ps, &HashSet::new(), [false; 3]))[0];
    assert!(!d.net_available);
}

#[test]
fn background_same_image_family_collapses_into_expandable_group() {
    let mut main = proc(1, Some(99), "Dropbox.exe", ProcCategory::Background);
    main.cpu = 1.0;
    let mut sub1 = proc(2, Some(1), "Dropbox.exe", ProcCategory::Background);
    sub1.cpu = 2.0;
    let sub2 = proc(3, Some(1), "Dropbox.exe", ProcCategory::Background);
    let sub3 = proc(4, Some(2), "Dropbox.exe", ProcCategory::Background);
    let (ps, vals) = finish(vec![main, sub1, sub2, sub3]);
    let bg = rows_in_group(&rows_by_name(&ps, &HashSet::new(), [false; 3]), 1);
    assert_eq!(bg.len(), 1, "family renders as one row");
    assert_eq!(label(&ps, &bg[0]), "Dropbox.exe (4)");
    assert_eq!(shown(&ps, &vals, &bg[0], 0), 10.0, "family aggregate (1+2+3+4)");
    assert!(bg[0].children, "group row is expandable");
    let one: HashSet<u32> = [1u32].into_iter().collect();
    let bg_open = rows_in_group(&rows_by_name(&ps, &one, [false; 3]), 1);
    assert_eq!(bg_open.len(), 4, "group row plus members");
    assert_eq!(label(&ps, &bg_open[0]), "Dropbox.exe (4)");
    assert!(bg_open[1..].iter().all(|r| r.depth == 1));
    assert!(bg_open[1..].iter().all(|r| !r.children));
}

#[test]
fn background_same_name_separate_families_stay_separate_rows() {
    let a = proc(1, None, "helper.exe", ProcCategory::Background);
    let b = proc(2, None, "helper.exe", ProcCategory::Background);
    let (ps, _) = finish(vec![a, b]);
    let bg = rows_in_group(&rows_by_name(&ps, &HashSet::new(), [false; 3]), 1);
    assert_eq!(bg.len(), 2);
    assert!(bg.iter().all(|r| !r.children));
    assert!(bg.iter().all(|r| !label(&ps, r).contains('(')));
}

#[test]
fn background_group_renders_flat_so_busy_children_stay_visible() {
    let mut shell = proc(1, Some(99), "cmd.exe", ProcCategory::Background);
    shell.cpu = 0.0;
    let mut build = proc(2, Some(1), "cargo.exe", ProcCategory::Background);
    build.cpu = 6.0;
    let mut leaf = proc(3, Some(2), "rustc.exe", ProcCategory::Background);
    leaf.cpu = 0.0;
    let (ps, vals) = finish(vec![shell, build, leaf]);
    let bg = rows_in_group(&rows_by_name(&ps, &HashSet::new(), [false; 3]), 1);
    assert_eq!(bg.iter().map(|r| (r.pid, r.depth)).collect::<Vec<_>>(), vec![(2, 0), (1, 0), (3, 0)]);
    let cargo = bg.iter().find(|r| r.pid == 2).unwrap();
    assert_eq!(shown(&ps, &vals, cargo, 0), 6.0, "row shows the process's own CPU");
    assert_eq!(cargo.values, RowValues::Own);
    assert!(!cargo.children, "no expand handle needed to see it");
}

#[test]
fn browser_or_shell_launched_windowed_app_is_its_own_app_row() {
    let mut broker = proc(1, None, "shellbroker.exe", ProcCategory::Background);
    broker.p.company = Some("Microsoft Corporation".into());
    let mut app = proc(2, Some(1), "HitmanPro_x64.exe", ProcCategory::App);
    app.p.has_window = true;
    app.p.company = Some("Sophos Limited".into());
    let (ps, _) = finish(vec![broker, app]);
    let rows = rows_by_name(&ps, &HashSet::new(), [false; 3]);
    let apps = rows_in_group(&rows, 0);
    assert_eq!(apps.iter().map(|r| (r.pid, r.depth)).collect::<Vec<_>>(), vec![(2, 0)]);
    let bg = rows_in_group(&rows, 1);
    assert!(bg.iter().any(|r| r.pid == 1));
    assert!(!bg.iter().any(|r| r.pid == 2), "app must not be Background");
}

#[test]
fn shell_broker_parent_is_a_launch_boundary_even_without_publisher_data() {
    let broker = proc(1, None, "runtimebroker.exe", ProcCategory::Background);
    let mut app = proc(2, Some(1), "app.exe", ProcCategory::App);
    app.p.has_window = true;
    let (ps, _) = finish(vec![broker, app]);
    let rows = rows_by_name(&ps, &HashSet::new(), [false; 3]);
    assert_eq!(rows_in_group(&rows, 0).iter().map(|r| r.pid).collect::<Vec<_>>(), vec![2]);
}

#[test]
fn windowed_busy_family_member_is_never_demoted_to_background() {
    let mut steam = proc(1, None, "steam.exe", ProcCategory::App);
    steam.p.has_window = false;
    steam.p.company = Some("Valve Corporation".into());
    let mut helper = proc(2, Some(1), "steamwebhelper.exe", ProcCategory::App);
    helper.p.has_window = true;
    helper.p.company = Some("Valve Corporation".into());
    helper.cpu = 40.0;
    let (ps, vals) = finish(vec![steam, helper]);
    let rows = rows_by_name(&ps, &HashSet::new(), [false; 3]);
    assert!(rows_in_group(&rows, 1).is_empty(), "busy windowed family member stays Apps");
    let apps = rows_in_group(&rows, 0);
    assert_eq!(apps.len(), 1);
    assert_eq!(label(&ps, &apps[0]), "steam.exe (2)");
    assert_eq!(shown(&ps, &vals, &apps[0], 0), 41.0, "family aggregate keeps helper");
}

#[test]
fn busy_external_helper_is_promoted_to_background() {
    let mut code = proc(1, None, "Code.exe", ProcCategory::App);
    code.p.has_window = true;
    let mut build = proc(2, Some(1), "cargo.exe", ProcCategory::App);
    build.cpu = 8.0;
    let mut watcher = proc(3, Some(1), "watcher.exe", ProcCategory::App);
    watcher.cpu = 0.0;
    let (ps, vals) = finish(vec![code, build, watcher]);
    let rows = rows_by_name(&ps, &HashSet::new(), [false; 3]);
    let bg = rows_in_group(&rows, 1);
    assert_eq!(bg.iter().map(|r| r.pid).collect::<Vec<_>>(), vec![2]);
    assert_eq!(bg[0].depth, 0, "promoted task is a top-level row");
    assert_eq!(shown(&ps, &vals, &bg[0], 0), 8.0);
    let apps = rows_in_group(&rows, 0);
    assert_eq!(apps.len(), 1);
    assert_eq!(apps[0].pid, 1);
    assert_eq!(label(&ps, &apps[0]), "Code.exe (2)");
    // Promoted CPU no longer counts into the family aggregate.
    assert_eq!(shown(&ps, &vals, &apps[0], 0), 1.0);
}

#[test]
fn busy_same_image_helper_stays_in_family() {
    let mut brave = proc(1, None, "brave.exe", ProcCategory::App);
    brave.p.has_window = true;
    let mut renderer = proc(2, Some(1), "brave.exe", ProcCategory::App);
    renderer.cpu = 40.0;
    let (ps, vals) = finish(vec![brave, renderer]);
    let one: HashSet<u32> = [1u32].into_iter().collect();
    let rows = rows_by_name(&ps, &one, [false; 3]);
    assert!(rows_in_group(&rows, 1).is_empty(), "same-image helpers must not be promoted");
    let apps = rows_in_group(&rows, 0);
    assert_eq!(apps.len(), 2, "family row plus expandable child");
    assert_eq!(shown(&ps, &vals, &apps[0], 0), 41.0, "family aggregate keeps child");
}

#[test]
fn promoted_task_brings_absorbed_descendants_to_background() {
    let mut code = proc(1, None, "Code.exe", ProcCategory::App);
    code.p.has_window = true;
    let mut cargo = proc(2, Some(1), "cargo.exe", ProcCategory::App);
    cargo.cpu = 8.0;
    let mut rustc = proc(3, Some(2), "rustc.exe", ProcCategory::App);
    rustc.cpu = 0.0;
    let (ps, _) = finish(vec![code, cargo, rustc]);
    let two: HashSet<u32> = [2u32].into_iter().collect();
    let rows = rows_by_name(&ps, &two, [false; 3]);
    let bg = rows_in_group(&rows, 1);
    assert_eq!(bg.iter().map(|r| (r.pid, r.depth)).collect::<Vec<_>>(), vec![(2, 0), (3, 0)]);
    let apps = rows_in_group(&rows, 0);
    assert_eq!(apps.len(), 1);
    assert_eq!(label(&ps, &apps[0]), "Code.exe", "family aggregate loses subtree");
}

fn pseudo(pid: u32, name: &str, cat: ProcCategory) -> Fx {
    let mut p = proc(pid, None, name, cat);
    p.p.synthetic = true;
    p
}

#[test]
fn cpu_sort_flattens_groups_and_puts_top_consumer_first() {
    let mut term = pseudo(u32::MAX - 1, "Terminated Processes", ProcCategory::Background);
    term.cpu = 45.0;
    let mut irq = pseudo(u32::MAX, "System Interrupts", ProcCategory::System);
    irq.cpu = 3.0;
    let mut app = proc(2, None, "app.exe", ProcCategory::App);
    app.cpu = 5.0;
    app.p.has_window = true;
    let (ps, vals) = finish(vec![app, term, irq]);
    let (sub, own) = cpu_ranks(&ps, &vals);
    let rows = build_display_rows(&ps, false, 2, false, &HashSet::new(), &[false; 3], &sub, &own);
    assert!(rows.iter().all(|r| !matches!(r, DisplayRow::GroupHeader(..))), "resource sorts have no group sections");
    let flat = process_rows(&rows);
    assert_eq!(
        flat.iter().map(|d| d.pid).collect::<Vec<_>>(),
        vec![u32::MAX - 1, 2, u32::MAX],
        "global order by CPU desc across all categories"
    );
    assert!(ps[flat[0].index].synthetic);
    assert_eq!(shown(&ps, &vals, &flat[0], 0), 45.0);
    assert!(!ps[flat[1].index].synthetic);

    let rows = rows_by_name(&ps, &HashSet::new(), [false; 3]);
    assert_eq!(headers(&rows).iter().map(|h| h.0).collect::<Vec<_>>(), vec![0, 1, 2]);
    let bg = rows_in_group(&rows, 1);
    assert_eq!(bg.len(), 1);
    assert!(ps[bg[0].index].synthetic);
    let win = rows_in_group(&rows, 2);
    assert_eq!(win.len(), 1);
    assert_eq!(shown(&ps, &vals, &win[0], 0), 3.0);
}

#[test]
fn expanded_family_stays_attached_when_blocks_resort() {
    let mut head = proc(1, None, "fam.exe", ProcCategory::App);
    head.p.has_window = true;
    head.cpu = 0.0;
    let mut worker = proc(2, Some(1), "fam.exe", ProcCategory::App);
    worker.cpu = 30.0;
    let mut other = proc(3, None, "other.exe", ProcCategory::App);
    other.p.has_window = true;
    other.cpu = 10.0;
    let (ps, vals) = finish(vec![head, worker, other]);
    let (sub, own) = cpu_ranks(&ps, &vals);
    let one: HashSet<u32> = [1u32].into_iter().collect();
    let rows = build_display_rows(&ps, false, 2, false, &one, &[false; 3], &sub, &own);
    let pids: Vec<u32> = process_rows(&rows).iter().map(|r| r.pid).collect();
    assert_eq!(pids, vec![1, 2, 3]);
    let DisplayRow::Process(head_row) = &rows[0] else {
        panic!("first row must be a process row");
    };
    assert!(head_row.children, "family head stays expandable");
}

#[test]
fn grouping_search_lists_matches_flat() {
    let mut a = proc(1, None, "zeta.exe", ProcCategory::App);
    a.p.matches = true;
    let mut b = proc(2, Some(1), "alpha.exe", ProcCategory::App);
    b.p.matches = true;
    let c = proc(3, None, "beta.exe", ProcCategory::Background);
    let (ps, _) = finish(vec![a, b, c]);
    let rows = build_display_rows(&ps, true, 0, true, &HashSet::new(), &[false; 3], &zeros(3), &zeros(3));
    assert!(headers(&rows).is_empty());
    let flat = process_rows(&rows);
    assert_eq!(flat.iter().map(|r| r.pid).collect::<Vec<_>>(), vec![2, 1]);
    assert!(flat.iter().all(|r| r.depth == 0 && !r.children));
}

#[test]
fn derived_groups_without_window_data_keep_the_collector_classes() {
    let mut a = proc(1, None, "a.exe", ProcCategory::App);
    a.p.has_window = false;
    let mut b = proc(2, Some(1), "b.exe", ProcCategory::App);
    b.p.has_window = false;
    let c = proc(3, None, "c.exe", ProcCategory::Background);
    let (ps, _) = finish(vec![a, b, c]);
    let g = derive_display_groups(&ps);
    assert_eq!(g.category, vec![ProcCategory::App, ProcCategory::App, ProcCategory::Background]);
    assert_eq!(g.app_root, vec![true, false, false], "the app whose parent is no app roots it");
}

#[test]
fn name_boundaries_ignore_ascii_case() {
    assert!(is_launch_boundary("EXPLORER.EXE"));
    assert!(is_launch_boundary("vivaldi.exe"));
    assert!(!is_launch_boundary("notepad.exe"));
    assert!(is_non_owning_shell("Explorer"));
    assert!(!is_non_owning_shell("explorer2.exe"));
    assert!(is_system_boundary("System Idle Process"));
    assert!(!is_system_boundary("system32"));
}

#[test]
fn plausibly_same_application_by_image_or_publisher() {
    let mut a = proc(1, None, "a.exe", ProcCategory::App).p;
    let mut b = proc(2, None, "B.exe", ProcCategory::App).p;
    assert!(plausibly_same_application(&a, &b), "unknown publishers are permissive");
    a.company = Some("Acme".into());
    b.company = Some("ACME".into());
    assert!(plausibly_same_application(&a, &b));
    b.company = Some("Other".into());
    assert!(!plausibly_same_application(&a, &b));
    b.name = "A.EXE".into();
    assert!(plausibly_same_application(&a, &b));
}

#[test]
fn processes_state_toggles_expansion_and_groups() {
    let mut s = State::new();
    assert!(s.ascending);
    s.toggle_expanded(7);
    assert!(s.expanded.contains(&7));
    s.toggle_expanded(7);
    assert!(!s.expanded.contains(&7));
    assert_eq!(s.view_generation, 2);
    s.toggle_group(1);
    assert_eq!(s.group_collapsed, [false, true, false]);
    s.toggle_group(5);
    assert_eq!(s.view_generation, 3, "an unknown group changes nothing");
}

#[test]
fn left_and_right_walk_families_but_skip_headers() {
    let mut fx = vec![
        proc(1, None, "app", ProcCategory::App),
        proc(2, Some(1), "child", ProcCategory::App),
        proc(3, Some(2), "grandchild", ProcCategory::App),
    ];
    for f in &mut fx {
        f.cpu = 0.0;
    }
    let (ps, _) = finish(fx);
    let expanded: HashSet<u32> = [1u32, 2].into_iter().collect();
    let rows = rows_by_name(&ps, &expanded, [false; 3]);
    // Group header, then app (1), child (2), grandchild (3).
    assert!(matches!(rows[0], DisplayRow::GroupHeader(0, _)));
    assert_eq!(process_tree_key(&ps, &rows, 1, true, false, true), TreeKey::Select(2), "Right steps into the family");
    assert_eq!(process_tree_key(&ps, &rows, 1, false, false, true), TreeKey::Toggle(1));
    assert_eq!(process_tree_key(&ps, &rows, 3, true, true, false), TreeKey::Select(2), "Left steps out");
    assert_eq!(process_tree_key(&ps, &rows, 2, true, true, false), TreeKey::Toggle(2));
    assert_eq!(process_tree_key(&ps, &rows, 1, false, true, false), TreeKey::Stay, "a top row has no parent");
    assert_eq!(process_tree_key(&ps, &rows, 0, true, true, true), TreeKey::Stay, "a header does nothing");
}

#[test]
fn expand_all_and_collapse_all_touch_only_the_expansion() {
    let mut s = State::new();
    s.toggle_expanded(9);
    s.expand_all(&[1, 2, 2]);
    assert_eq!(s.expanded, [1u32, 2, 9].into_iter().collect::<HashSet<u32>>());
    assert_eq!(s.view_generation, 2);
    s.collapse_all();
    assert!(s.expanded.is_empty());
    assert_eq!(s.view_generation, 3);
}

#[test]
fn processes_header_clicks_toggle_or_pick_the_natural_direction() {
    let mut s = State::new();
    s.header_clicked(0);
    assert_eq!((s.sort_col, s.ascending), (0, false));
    s.header_clicked(2);
    assert_eq!((s.sort_col, s.ascending), (2, false), "resources start with the top consumer");
    s.header_clicked(2);
    assert!(s.ascending);
    s.header_clicked(1);
    assert_eq!((s.sort_col, s.ascending), (1, true));
    let ids: Vec<&str> = (0..6).map(column_id).collect();
    assert_eq!(ids, ["name", "status", "cpu", "mem", "disk", "net"]);
}

#[test]
fn a_scroll_request_finds_the_row_of_its_process() {
    let (ps, _) = finish(vec![proc(5, None, "a", ProcCategory::Background), proc(6, None, "b", ProcCategory::App)]);
    let rows = rows_by_name(&ps, &HashSet::new(), [false; 3]);
    let at = row_of_pid(&rows, 5).unwrap();
    assert!(matches!(rows[at], DisplayRow::Process(p) if p.pid == 5));
    assert_eq!(row_of_pid(&rows, 77), None);
}

#[test]
fn status_cells_show_glyphs_and_words() {
    assert!(status_marks(ProcStatus::Running, false).is_empty());
    assert_eq!(status_marks(ProcStatus::Suspended, true), vec![StatusMark::Paused, StatusMark::Leaf]);
    assert_eq!(status_marks(ProcStatus::NotResponding, true), vec![StatusMark::Leaf, StatusMark::NotResponding]);
    assert_eq!(status_words(ProcStatus::NotResponding, true), vec![StatusMark::NotResponding, StatusMark::Leaf]);
    assert_eq!(status_words(ProcStatus::Running, true), vec![StatusMark::Leaf]);
    assert!(status_words(ProcStatus::Running, false).is_empty());
}
