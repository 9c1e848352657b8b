use std::cmp::Ordering;
use std::collections::HashSet;
use taskman::details::{COLUMN_COUNT, ColumnId, SortOrder};
use taskman::details_tree::TreeRow;
use taskman::details_rows::{
    DetailsProcess, PriorityClass, TreeKey, UacVirtualization, build_rows, compare_column, status_rank, tree_key,
    uac_rank_of,
};
use taskman::processes::ProcStatus;

/// A process as a fresh snapshot entry has it: only its PID and name.
fn mk_proc(pid: u32, name: &str) -> DetailsProcess {
    DetailsProcess {
        pid,
        ppid: None,
        start_epoch_s: None,
        shown_name: name.to_string(),
        display: name.to_string(),
        status: ProcStatus::Running,
        user: None,
        cpu_rank: 0,
        mem_bytes: 0,
        wow64: None,
        elevated: None,
        uac: None,
        gpu_util_rank: None,
        gpu_engine_label: None,
        priority: PriorityClass::Normal,
        threads: None,
        handles: None,
        cpu_time_rank: None,
        commit_bytes: None,
        peak_mem_bytes: None,
        gpu_dedicated_bytes: None,
        gpu_shared_bytes: None,
        description: None,
        company: None,
        session_id: None,
        image_path: None,
        page_faults_per_s: None,
        disk_read_total: 0,
        disk_write_total: 0,
        command_line: None,
        synthetic: false,
        matches: true,
    }
}

fn tree_process(pid: u32, ppid: Option<u32>, name: &str) -> DetailsProcess {
    let mut p = mk_proc(pid, name);
    p.ppid = ppid;
    p.start_epoch_s = Some(pid as i64);
    p
}

#[test]
fn details_every_column_sorts_its_own_field() {
    for i in 0..COLUMN_COUNT {
        let cid = ColumnId::at(i);
        let (mut a, mut b) = (mk_proc(100, "same.exe"), mk_proc(100, "same.exe"));
        assert_eq!(compare_column(cid, &a, &b), Ordering::Equal);
        match cid {
            ColumnId::Name => {
                a.shown_name = "aaa".into();
                b.shown_name = "zzz".into();
            }
            ColumnId::Pid => {
                a.pid = 1;
                b.pid = 2;
            }
            ColumnId::Status => {
                a.status = ProcStatus::Running;
                b.status = ProcStatus::NotResponding;
            }
            ColumnId::User => {
                a.user = Some("alice".into());
                b.user = Some("bob".into());
            }
            ColumnId::Cpu => {
                // 5 % and 50 %.
                a.cpu_rank = 0;
                b.cpu_rank = 1;
            }
            ColumnId::Memory => {
                a.mem_bytes = 100;
                b.mem_bytes = 200;
            }
            ColumnId::Platform => {
                a.wow64 = Some(false);
                b.wow64 = Some(true);
            }
            ColumnId::Elevated => {
                a.elevated = Some(false);
                b.elevated = Some(true);
            }
            ColumnId::Uac => {
                a.uac = Some(UacVirtualization::Disabled);
                b.uac = Some(UacVirtualization::NotAllowed);
            }
            ColumnId::GpuUtil => {
                // Unmeasured against 30 %.
                a.gpu_util_rank = None;
                b.gpu_util_rank = Some(0);
            }
            ColumnId::GpuEngine => {
                a.gpu_engine_label = Some("GPU 0 - 3D".into());
                b.gpu_engine_label = Some("GPU 0 - VideoDecode".into());
            }
            ColumnId::Priority => {
                a.priority = PriorityClass::Low;
                b.priority = PriorityClass::High;
            }
            ColumnId::Threads => {
                a.threads = Some(1);
                b.threads = Some(2);
            }
            ColumnId::Handles => {
                a.handles = Some(1);
                b.handles = Some(2);
            }
            ColumnId::CpuTime => {
                // 1 s and 2 s.
                a.cpu_time_rank = Some(0);
                b.cpu_time_rank = Some(1);
            }
            ColumnId::Commit => {
                a.commit_bytes = Some(1);
                b.commit_bytes = Some(2);
            }
            ColumnId::PeakMemory => {
                a.peak_mem_bytes = Some(1);
                b.peak_mem_bytes = Some(2);
            }
            ColumnId::GpuDedicated => {
                a.gpu_dedicated_bytes = Some(1);
                b.gpu_dedicated_bytes = Some(2);
            }
            ColumnId::GpuShared => {
                a.gpu_shared_bytes = Some(1);
                b.gpu_shared_bytes = Some(2);
            }
            ColumnId::Description => {
                a.description = Some("a".into());
                b.description = Some("b".into());
            }
            ColumnId::Publisher => {
                a.company = Some("a".into());
                b.company = Some("b".into());
            }
            ColumnId::ParentPid => {
                a.ppid = Some(1);
                b.ppid = Some(2);
            }
            ColumnId::SessionId => {
                a.session_id = Some(1);
                b.session_id = Some(2);
            }
            ColumnId::ImagePath => {
                a.image_path = Some("a".into());
                b.image_path = Some("b".into());
            }
            ColumnId::PageFaults => {
                a.page_faults_per_s = Some(1);
                b.page_faults_per_s = Some(2);
            }
            ColumnId::IoRead => {
                a.disk_read_total = 1;
                b.disk_read_total = 2;
            }
            ColumnId::IoWrite => {
                a.disk_write_total = 1;
                b.disk_write_total = 2;
            }
            ColumnId::CommandLine => {
                a.command_line = Some("a".into());
                b.command_line = Some("b".into());
            }
        }
        assert_ne!(compare_column(cid, &a, &b), Ordering::Equal, "{:?}", cid);
    }
}

#[test]
fn uac_sort_ignores_priority() {
    let (mut a, mut b) = (mk_proc(1, "x.exe"), mk_proc(2, "x.exe"));
    a.priority = PriorityClass::Realtime;
    b.priority = PriorityClass::Low;
    a.uac = Some(UacVirtualization::Enabled);
    b.uac = Some(UacVirtualization::Enabled);
    assert_eq!(compare_column(ColumnId::Uac, &a, &b), Ordering::Equal);
}

#[test]
fn gpu_util_sorts_by_value() {
    let (mut a, mut b) = (mk_proc(1, "z.exe"), mk_proc(2, "a.exe"));
    // 80 % against 10 %.
    a.gpu_util_rank = Some(1);
    b.gpu_util_rank = Some(0);
    assert_eq!(compare_column(ColumnId::GpuUtil, &a, &b), Ordering::Greater);
}

#[test]
fn hierarchical_order_is_a_tree_and_every_other_order_is_flat() {
    let mut root = tree_process(10, None, "root.exe");
    root.start_epoch_s = Some(1);
    // Children created zulu-then-alpha, the reverse of the alphabet.
    let mut zulu = tree_process(11, Some(10), "zulu.exe");
    zulu.start_epoch_s = Some(2);
    let mut alpha = tree_process(12, Some(10), "alpha.exe");
    alpha.start_epoch_s = Some(3);
    let snapshot = vec![root, alpha, zulu];
    let rows = |col, order| {
        build_rows(&snapshot, false, col, order, &HashSet::new())
            .iter()
            .map(|row| (row.pid, row.depth))
            .collect::<Vec<_>>()
    };
    assert_eq!(
        rows(ColumnId::Name, SortOrder::Hierarchical),
        [(10, 0), (11, 1), (12, 1)],
        "hierarchical order must nest and follow creation, not the alphabet"
    );
    assert_eq!(
        rows(ColumnId::Name, SortOrder::Ascending),
        [(12, 0), (10, 0), (11, 0)],
        "name ascending is a flat alphabetical list"
    );
    assert_eq!(rows(ColumnId::Name, SortOrder::Descending), [(11, 0), (10, 0), (12, 0)]);
    assert!(
        rows(ColumnId::Pid, SortOrder::Descending).iter().all(|(_, depth)| *depth == 0),
        "a non-Name column must never render a tree"
    );
}

#[test]
fn flat_lists_skip_pseudo_rows_and_non_matches_and_break_ties_by_pid() {
    let mut a = mk_proc(7, "same.exe");
    let b = mk_proc(3, "SAME.exe");
    let mut pseudo = mk_proc(9, "Terminated Processes");
    pseudo.synthetic = true;
    let mut other = mk_proc(5, "other.exe");
    other.matches = false;
    a.cpu_rank = 2;
    let all = vec![a, b, pseudo, other];
    let pids = |col, order| {
        build_rows(&all, true, col, order, &HashSet::new()).iter().map(|r| r.pid).collect::<Vec<_>>()
    };
    assert_eq!(pids(ColumnId::Name, SortOrder::Ascending), vec![3, 7], "equal names fall back to the PID");
    assert_eq!(pids(ColumnId::Name, SortOrder::Descending), vec![7, 3]);
    assert_eq!(pids(ColumnId::Cpu, SortOrder::Descending), vec![7, 3]);
}

#[test]
fn missing_values_sort_the_way_each_column_reports_them() {
    let (mut a, mut b) = (mk_proc(1, "a.exe"), mk_proc(2, "b.exe"));
    // A missing user sorts after any known one; a missing thread count first.
    b.user = Some("bob".into());
    assert_eq!(compare_column(ColumnId::User, &a, &b), Ordering::Greater);
    b.threads = Some(0);
    assert_eq!(compare_column(ColumnId::Threads, &a, &b), Ordering::Less);
    // An unknown CPU time sorts after a known one.
    b.cpu_time_rank = Some(0);
    assert_eq!(compare_column(ColumnId::CpuTime, &a, &b), Ordering::Greater);
    // Without a description the display name stands in.
    a.description = Some("zzz".into());
    b.display = "AAA".into();
    assert_eq!(compare_column(ColumnId::Description, &a, &b), Ordering::Greater);
    assert_eq!(status_rank(ProcStatus::Suspended), 1);
    assert_eq!(uac_rank_of(None), uac_rank_of(Some(UacVirtualization::Unknown)));
}

#[test]
fn left_and_right_walk_the_tree() {
    let row = |pid: u32, depth: usize, children: bool| TreeRow { pid, depth, children };
    // root > (child > leaf), sibling
    let rows = vec![row(1, 0, true), row(2, 1, true), row(3, 2, false), row(4, 1, false)];
    assert_eq!(tree_key(&rows, 0, false, false, true), TreeKey::Toggle(1), "Right expands a collapsed parent");
    assert_eq!(tree_key(&rows, 0, true, false, true), TreeKey::Select(1), "Right steps into the first child");
    assert_eq!(tree_key(&rows, 2, true, false, true), TreeKey::Stay, "a leaf has nowhere to go");
    assert_eq!(tree_key(&rows, 1, true, true, false), TreeKey::Toggle(2), "Left collapses an expanded parent");
    assert_eq!(tree_key(&rows, 2, true, true, false), TreeKey::Select(1), "Left steps out to the parent");
    assert_eq!(tree_key(&rows, 3, true, true, false), TreeKey::Select(0));
    assert_eq!(tree_key(&rows, 0, false, true, false), TreeKey::Stay, "a collapsed root stays");
    assert_eq!(tree_key(&rows, 1, true, false, false), TreeKey::Stay);
}

#[test]
fn every_column_order_is_reflexive_antisymmetric_and_transitive() {
    let mut a = mk_proc(3, "Beta.exe");
    let mut b = mk_proc(1, "alpha.exe");
    let mut d = mk_proc(2, "gamma.exe");
    a.user = Some("Zed".into());
    b.user = None;
    d.user = Some("amy".into());
    a.threads = Some(5);
    d.threads = Some(2);
    a.cpu_time_rank = None;
    b.cpu_time_rank = Some(4);
    d.cpu_time_rank = Some(1);
    a.description = Some("Zulu".into());
    b.command_line = Some("x".into());
    for i in 0..COLUMN_COUNT {
        let cid = ColumnId::at(i);
        for p in [&a, &b, &d] {
            assert_eq!(compare_column(cid, p, p), Ordering::Equal, "{cid:?} is reflexive");
        }
        for (p, q) in [(&a, &b), (&a, &d), (&b, &d)] {
            assert_eq!(compare_column(cid, p, q), compare_column(cid, q, p).reverse(), "{cid:?} is antisymmetric");
        }
        for (p, q, r) in [(&a, &b, &d), (&a, &d, &b), (&b, &a, &d), (&b, &d, &a), (&d, &a, &b), (&d, &b, &a)] {
            if compare_column(cid, p, q) == Ordering::Less && compare_column(cid, q, r) == Ordering::Less {
                assert_eq!(compare_column(cid, p, r), Ordering::Less, "{cid:?} is transitive");
            }
        }
    }
}

#[test]
fn tree_rows_nest_under_their_parents() {
    let mut root = tree_process(10, None, "root.exe");
    root.start_epoch_s = Some(1);
    let mut child = tree_process(11, Some(10), "child.exe");
    child.start_epoch_s = Some(2);
    let mut grandchild = tree_process(12, Some(11), "grandchild.exe");
    grandchild.start_epoch_s = Some(3);
    let mut second = tree_process(13, Some(10), "second.exe");
    second.start_epoch_s = Some(4);
    let mut other = tree_process(20, None, "other.exe");
    other.start_epoch_s = Some(5);
    let snapshot = vec![other, second, grandchild, child, root];
    let rows: Vec<(u32, usize)> = build_rows(&snapshot, false, ColumnId::Name, SortOrder::Hierarchical, &HashSet::new())
        .iter()
        .map(|row| (row.pid, row.depth))
        .collect();
    // each subtree follows its process directly
    assert_eq!(rows, [(10, 0), (11, 1), (12, 2), (13, 1), (20, 0)]);
}

#[test]
fn flat_list_is_sorted_by_the_column() {
    let mut a = mk_proc(1, "x.exe");
    let mut b = mk_proc(2, "y.exe");
    let mut c = mk_proc(3, "z.exe");
    a.mem_bytes = 30;
    b.mem_bytes = 10;
    c.mem_bytes = 20;
    let snapshot = vec![a, b, c];
    let pids = |order| {
        build_rows(&snapshot, false, ColumnId::Memory, order, &HashSet::new()).iter().map(|r| r.pid).collect::<Vec<_>>()
    };
    assert_eq!(pids(SortOrder::Ascending), [2, 3, 1]);
    assert_eq!(pids(SortOrder::Descending), [1, 3, 2]);
}
