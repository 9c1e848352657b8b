//! Grouping of the Processes page: which processes form application
//! families, which are background tasks and which belong to Windows.
//!
//! App rows are presentation groups, not raw parent-process trees. Shell
//! launchers such as Explorer do not absorb programs the user launched; each
//! visible app family is promoted to its own top-level row. A visible window
//! folds into a windowless ancestor's family only when they are plausibly
//! the same application, and busy absorbed external helpers are promoted to
//! Background rows of their own; windowed processes are never demoted.
use std::collections::HashSet;
use vstd::prelude::*;
use crate::text::{eq_ignore_ascii_case, same_ignoring_ascii_case};

verus! {

/// Number of launch surfaces.
pub const LAUNCHER_COUNT: usize = 24;

/// The `k`-th of the launch surfaces.
pub open spec fn launcher(k: int) -> Seq<char> {
    if k == 0 {
        "explorer.exe"@
    } else if k == 1 {
        "cmd.exe"@
    } else if k == 2 {
        "powershell.exe"@
    } else if k == 3 {
        "pwsh.exe"@
    } else if k == 4 {
        "wsl.exe"@
    } else if k == 5 {
        "wt.exe"@
    } else if k == 6 {
        "SearchHost.exe"@
    } else if k == 7 {
        "SearchApp.exe"@
    } else if k == 8 {
        "StartMenuExperienceHost.exe"@
    } else if k == 9 {
        "ShellExperienceHost.exe"@
    } else if k == 10 {
        "sihost.exe"@
    } else if k == 11 {
        "RuntimeBroker.exe"@
    } else if k == 12 {
        "dllhost.exe"@
    } else if k == 13 {
        "applicationframehost.exe"@
    } else if k == 14 {
        "backgroundtaskhost.exe"@
    } else if k == 15 {
        "textinputhost.exe"@
    } else if k == 16 {
        "smartscreen.exe"@
    } else if k == 17 {
        "msedge.exe"@
    } else if k == 18 {
        "chrome.exe"@
    } else if k == 19 {
        "brave.exe"@
    } else if k == 20 {
        "chromium.exe"@
    } else if k == 21 {
        "firefox.exe"@
    } else if k == 22 {
        "opera.exe"@
    } else {
        "vivaldi.exe"@
    }
}

/// The `k`-th of the launch surfaces.
fn launcher_name(k: usize) -> (name: &'static str)
    requires
        k < LAUNCHER_COUNT,
    ensures
        name@ == launcher(k as int),
{
    if k == 0 {
        "explorer.exe"
    } else if k == 1 {
        "cmd.exe"
    } else if k == 2 {
        "powershell.exe"
    } else if k == 3 {
        "pwsh.exe"
    } else if k == 4 {
        "wsl.exe"
    } else if k == 5 {
        "wt.exe"
    } else if k == 6 {
        "SearchHost.exe"
    } else if k == 7 {
        "SearchApp.exe"
    } else if k == 8 {
        "StartMenuExperienceHost.exe"
    } else if k == 9 {
        "ShellExperienceHost.exe"
    } else if k == 10 {
        "sihost.exe"
    } else if k == 11 {
        "RuntimeBroker.exe"
    } else if k == 12 {
        "dllhost.exe"
    } else if k == 13 {
        "applicationframehost.exe"
    } else if k == 14 {
        "backgroundtaskhost.exe"
    } else if k == 15 {
        "textinputhost.exe"
    } else if k == 16 {
        "smartscreen.exe"
    } else if k == 17 {
        "msedge.exe"
    } else if k == 18 {
        "chrome.exe"
    } else if k == 19 {
        "brave.exe"
    } else if k == 20 {
        "chromium.exe"
    } else if k == 21 {
        "firefox.exe"
    } else if k == 22 {
        "opera.exe"
    } else {
        "vivaldi.exe"
    }
}

/// Number of system process names.
pub const SYSTEM_NAME_COUNT: usize = 15;

/// The `k`-th of the system process names.
pub open spec fn system_name(k: int) -> Seq<char> {
    if k == 0 {
        "system"@
    } else if k == 1 {
        "registry"@
    } else if k == 2 {
        "memory compression"@
    } else if k == 3 {
        "secure system"@
    } else if k == 4 {
        "smss.exe"@
    } else if k == 5 {
        "csrss.exe"@
    } else if k == 6 {
        "wininit.exe"@
    } else if k == 7 {
        "services.exe"@
    } else if k == 8 {
        "lsass.exe"@
    } else if k == 9 {
        "lsaiso.exe"@
    } else if k == 10 {
        "svchost.exe"@
    } else if k == 11 {
        "winlogon.exe"@
    } else if k == 12 {
        "dwm.exe"@
    } else if k == 13 {
        "fontdrvhost.exe"@
    } else {
        "system idle process"@
    }
}

/// The `k`-th of the system process names.
fn system_name_at(k: usize) -> (name: &'static str)
    requires
        k < SYSTEM_NAME_COUNT,
    ensures
        name@ == system_name(k as int),
{
    if k == 0 {
        "system"
    } else if k == 1 {
        "registry"
    } else if k == 2 {
        "memory compression"
    } else if k == 3 {
        "secure system"
    } else if k == 4 {
        "smss.exe"
    } else if k == 5 {
        "csrss.exe"
    } else if k == 6 {
        "wininit.exe"
    } else if k == 7 {
        "services.exe"
    } else if k == 8 {
        "lsass.exe"
    } else if k == 9 {
        "lsaiso.exe"
    } else if k == 10 {
        "svchost.exe"
    } else if k == 11 {
        "winlogon.exe"
    } else if k == 12 {
        "dwm.exe"
    } else if k == 13 {
        "fontdrvhost.exe"
    } else {
        "system idle process"
    }
}

/// Parent processes that launch independent foreground applications rather
/// than owning them: Explorer, console shells and terminals, the
/// shell-session brokers of Start-menu and COM activation, and browsers.
pub open spec fn spec_is_launch_boundary(name: Seq<char>) -> bool {
    exists|k: int| 0 <= k < LAUNCHER_COUNT && #[trigger] same_ignoring_ascii_case(name, launcher(k))
}

/// Whether `name` is a launch surface (compared ignoring ASCII case).
pub fn is_launch_boundary(name: &str) -> (b: bool)
    ensures
        b == spec_is_launch_boundary(name@),
{
    let mut k: usize = 0;
    while k < LAUNCHER_COUNT
        invariant
            k <= LAUNCHER_COUNT,
            forall|j: int| 0 <= j < k ==> !#[trigger] same_ignoring_ascii_case(name@, launcher(j)),
        decreases LAUNCHER_COUNT - k,
    {
        if eq_ignore_ascii_case(name, launcher_name(k)) {
            return true;
        }
        k = k + 1;
    }
    false
}

/// Explorer's desktop process may own a visible window itself, but the
/// programs it launches are never folded into its row.
pub open spec fn spec_is_non_owning_shell(name: Seq<char>) -> bool {
    same_ignoring_ascii_case(name, "explorer.exe"@) || same_ignoring_ascii_case(name, "explorer"@)
}

/// Whether `name` is Explorer (with or without its extension).
pub fn is_non_owning_shell(name: &str) -> (b: bool)
    ensures
        b == spec_is_non_owning_shell(name@),
{
    eq_ignore_ascii_case(name, "explorer.exe") || eq_ignore_ascii_case(name, "explorer")
}

/// Processes that always count as part of Windows.
pub open spec fn spec_is_system_boundary(name: Seq<char>) -> bool {
    exists|k: int| 0 <= k < SYSTEM_NAME_COUNT && #[trigger] same_ignoring_ascii_case(name, system_name(k))
}

/// Whether `name` is a Windows process (compared ignoring ASCII case).
pub fn is_system_boundary(name: &str) -> (b: bool)
    ensures
        b == spec_is_system_boundary(name@),
{
    let mut k: usize = 0;
    while k < SYSTEM_NAME_COUNT
        invariant
            k <= SYSTEM_NAME_COUNT,
            forall|j: int| 0 <= j < k ==> !#[trigger] same_ignoring_ascii_case(name@, system_name(j)),
        decreases SYSTEM_NAME_COUNT - k,
    {
        if eq_ignore_ascii_case(name, system_name_at(k)) {
            return true;
        }
        k = k + 1;
    }
    false
}

/// The three groups of the Processes page.
#[derive(Debug, Clone, Copy, PartialEq, Eq, Structural)]
pub enum ProcCategory {
    App,
    Background,
    System,
}

/// One process, as the grouping reads it.
#[derive(Debug, Clone)]
pub struct GroupProcess {
    pub pid: u32,
    pub ppid: Option<u32>,
    /// Executable image name.
    pub name: String,
    /// Publisher from the version metadata, when known.
    pub company: Option<String>,
    /// The collector's classification.
    pub category: ProcCategory,
    /// Owns a visible top-level window.
    pub has_window: bool,
    /// The collector marked it as the root of an application.
    pub app_root: bool,
    /// Uses at least the share of the machine's CPU at which an absorbed
    /// external task is promoted to a row of its own.
    pub busy: bool,
    /// The name the table shows.
    pub shown_name: String,
    pub status: ProcStatus,
    /// The OS reports the process as power throttled (Efficiency mode).
    pub power_throttled: bool,
    /// Some network rate was measured for the process.
    pub net_known: bool,
    /// Pseudo-row with no OS process behind it.
    pub synthetic: bool,
    /// Matches the current search.
    pub matches: bool,
}

/// Run state of a process.
#[derive(Debug, Clone, Copy, PartialEq, Eq, Structural)]
pub enum ProcStatus {
    Running,
    Suspended,
    NotResponding,
}

/// Two processes plausibly belong to the same application when they share
/// the executable image or the publisher; unknown publisher data is
/// permissive, so missing version info never splits a family.
pub open spec fn spec_plausibly_same(a: GroupProcess, b: GroupProcess) -> bool {
    same_ignoring_ascii_case(a.name@, b.name@) || match (a.company, b.company) {
        (Some(x), Some(y)) => same_ignoring_ascii_case(x@, y@),
        _ => true,
    }
}

/// Whether `a` and `b` plausibly are the same application.
pub fn plausibly_same_application(a: &GroupProcess, b: &GroupProcess) -> (same: bool)
    ensures
        same == spec_plausibly_same(*a, *b),
{
    if eq_ignore_ascii_case(a.name.as_str(), b.name.as_str()) {
        return true;
    }
    match (&a.company, &b.company) {
        (Some(x), Some(y)) => eq_ignore_ascii_case(x.as_str(), y.as_str()),
        _ => true,
    }
}

/// Index of the process with PID `pid` (the last one, should several share
/// it), or -1.
pub open spec fn pid_index(all: Seq<GroupProcess>, pid: u32) -> int
    decreases all.len(),
{
    if all.len() == 0 {
        -1
    } else if all.last().pid == pid {
        all.len() - 1
    } else {
        pid_index(all.drop_last(), pid)
    }
}

/// Index of the parent of process `i`, or -1: a self-parent or a parent
/// that is not in the list does not count.
pub open spec fn parent_of(all: Seq<GroupProcess>, i: int) -> int {
    match all[i].ppid {
        Some(p) => if p != all[i].pid {
            pid_index(all, p)
        } else {
            -1
        },
        None => -1,
    }
}

proof fn lemma_pid_index_range(all: Seq<GroupProcess>, pid: u32)
    ensures
        -1 <= pid_index(all, pid) < all.len(),
        pid_index(all, pid) >= 0 ==> all[pid_index(all, pid)].pid == pid,
    decreases all.len(),
{
    if all.len() > 0 && all.last().pid != pid {
        lemma_pid_index_range(all.drop_last(), pid);
    }
}

proof fn lemma_parent_range(all: Seq<GroupProcess>)
    ensures
        forall|i: int| 0 <= i < all.len() ==> -1 <= #[trigger] parent_of(all, i) < all.len(),
{
    assert forall|i: int| 0 <= i < all.len() implies -1 <= #[trigger] parent_of(all, i) < all.len() by {
        if let Some(p) = all[i].ppid {
            lemma_pid_index_range(all, p);
        }
    }
}

fn pid_index_exec(all: &[GroupProcess], pid: u32) -> (idx: Option<usize>)
    ensures
        match idx {
            Some(i) => i as int == pid_index(all@, pid),
            None => pid_index(all@, pid) == -1,
        },
{
    let mut i: usize = all.len();
    assert(all@.subrange(0, all@.len() as int) =~= all@);
    while i > 0
        invariant
            i <= all@.len(),
            pid_index(all@, pid) == pid_index(all@.subrange(0, i as int), pid),
        decreases i,
    {
        proof {
            assert(all@.subrange(0, i as int).drop_last() =~= all@.subrange(0, i - 1));
        }
        if all[i - 1].pid == pid {
            return Some(i - 1);
        }
        i = i - 1;
    }
    None
}

/// The parent of every process (see [`parent_of`]).
pub(crate) fn parents(all: &[GroupProcess]) -> (ps: Vec<Option<usize>>)
    ensures
        ps@.len() == all@.len(),
        forall|i: int|
            0 <= i < all@.len() ==> match #[trigger] ps@[i] {
                Some(j) => j as int == parent_of(all@, i) && j < all@.len(),
                None => parent_of(all@, i) == -1,
            },
{
    proof {
        lemma_parent_range(all@);
    }
    let mut ps: Vec<Option<usize>> = Vec::new();
    let mut i: usize = 0;
    while i < all.len()
        invariant
            i <= all@.len(),
            ps@.len() == i,
            forall|j: int| 0 <= j < all@.len() ==> -1 <= #[trigger] parent_of(all@, j) < all@.len(),
            forall|k: int|
                0 <= k < i ==> match #[trigger] ps@[k] {
                    Some(j) => j as int == parent_of(all@, k) && j < all@.len(),
                    None => parent_of(all@, k) == -1,
                },
        decreases all@.len() - i,
    {
        let p = match all[i].ppid {
            Some(pp) => if pp != all[i].pid {
                pid_index_exec(all, pp)
            } else {
                None
            },
            None => None,
        };
        proof {
            assert(parent_of(all@, i as int) >= -1);
        }
        ps.push(p);
        i = i + 1;
    }
    ps
}

/// The Windows/system classification that stays authoritative: the
/// collector's, widened by the known system process names.
pub open spec fn base_category(p: GroupProcess) -> ProcCategory {
    if p.category == ProcCategory::System || spec_is_system_boundary(p.name@) {
        ProcCategory::System
    } else {
        ProcCategory::Background
    }
}

/// Whether some process owns a visible window. Backends without window
/// ownership keep the collector's classification.
pub open spec fn any_window(all: Seq<GroupProcess>) -> bool {
    exists|i: int| 0 <= i < all.len() && #[trigger] all[i].has_window
}

/// The app root a windowed process `i` folds into: climb the parents while
/// the parent is not a Windows process or a launch surface, plausibly is
/// the same application, and was not met before on the way up.
pub open spec fn climb(all: Seq<GroupProcess>, i: int, seen: Set<int>, fuel: nat) -> int
    decreases fuel,
{
    if fuel == 0 {
        i
    } else {
        let j = parent_of(all, i);
        if j < 0 || seen.contains(j) || base_category(all[j]) == ProcCategory::System
            || spec_is_launch_boundary(all[j].name@) || !spec_plausibly_same(all[j], all[i]) {
            i
        } else {
            climb(all, j, seen.insert(j), (fuel - 1) as nat)
        }
    }
}

/// The app root of windowed process `i`.
pub open spec fn window_root_of(all: Seq<GroupProcess>, i: int) -> int {
    climb(all, i, set![i], all.len())
}

/// Whether `r` is the app root of some windowed process outside Windows.
pub open spec fn is_window_root(all: Seq<GroupProcess>, r: int) -> bool {
    exists|i: int|
        0 <= i < all.len() && all[i].has_window && base_category(all[i]) != ProcCategory::System
            && #[trigger] window_root_of(all, i) == r
}

/// Whether the collector marked any application root.
pub open spec fn flagged_roots_exist(all: Seq<GroupProcess>) -> bool {
    exists|i: int| 0 <= i < all.len() && #[trigger] all[i].category == ProcCategory::App && all[i].app_root
}

/// Whether process `r` roots an application group.
pub open spec fn spec_app_root(all: Seq<GroupProcess>, r: int) -> bool {
    if any_window(all) {
        is_window_root(all, r)
    } else if flagged_roots_exist(all) {
        all[r].category == ProcCategory::App && all[r].app_root
    } else {
        all[r].category == ProcCategory::App && !(parent_of(all, r) >= 0 && all[parent_of(all, r)].category
            == ProcCategory::App)
    }
}

/// Whether process `x` belongs to an app family: it roots one, or its
/// parent belongs to one and is no Explorer shell; a Windows process never
/// does, and membership never crosses another app root.
pub open spec fn owned(all: Seq<GroupProcess>, x: int, fuel: nat) -> bool
    decreases fuel,
{
    if base_category(all[x]) == ProcCategory::System {
        false
    } else if is_window_root(all, x) {
        true
    } else if fuel == 0 {
        false
    } else {
        let p = parent_of(all, x);
        p >= 0 && !spec_is_non_owning_shell(all[p].name@) && owned(all, p, (fuel - 1) as nat)
    }
}

/// The category of `x` once app families own their helpers.
pub open spec fn family_category(all: Seq<GroupProcess>, x: int) -> ProcCategory {
    if owned(all, x, all.len()) {
        ProcCategory::App
    } else {
        base_category(all[x])
    }
}

/// Whether no ancestor inside `p`'s app family (walking up from `cur`)
/// shares `p`'s image: `p` is an external task the family spawned rather
/// than one of the application's own processes.
pub open spec fn external_walk(all: Seq<GroupProcess>, p: int, cur: int, seen: Set<int>, fuel: nat) -> bool
    decreases fuel,
{
    if fuel == 0 {
        true
    } else {
        let j = parent_of(all, cur);
        if j < 0 || seen.contains(j) || family_category(all, j) != ProcCategory::App {
            true
        } else if same_ignoring_ascii_case(all[j].name@, all[p].name@) {
            false
        } else {
            external_walk(all, p, j, seen.insert(j), (fuel - 1) as nat)
        }
    }
}

/// A windowless, busy family member that is no app root and no image of
/// its family: it is lifted out into Background.
pub open spec fn busy_external(all: Seq<GroupProcess>, x: int) -> bool {
    &&& !all[x].has_window
    &&& all[x].busy
    &&& family_category(all, x) == ProcCategory::App
    &&& !is_window_root(all, x)
    &&& external_walk(all, x, x, set![x], all.len())
}

/// Whether `x` moves to Background: it is a busy external task, or a
/// windowless absorbed (non-root) family member under one.
pub open spec fn promoted(all: Seq<GroupProcess>, x: int, fuel: nat) -> bool
    decreases fuel,
{
    if busy_external(all, x) {
        true
    } else if fuel == 0 {
        false
    } else if all[x].has_window || family_category(all, x) != ProcCategory::App || is_window_root(all, x) {
        false
    } else {
        let p = parent_of(all, x);
        p >= 0 && promoted(all, p, (fuel - 1) as nat)
    }
}

/// The group process `x` is shown in.
pub open spec fn spec_category(all: Seq<GroupProcess>, x: int) -> ProcCategory {
    if !any_window(all) {
        all[x].category
    } else if promoted(all, x, all.len()) {
        ProcCategory::Background
    } else {
        family_category(all, x)
    }
}

/// The parent links and base categories every walk below reads.
pub open spec fn walk_inputs(all: Seq<GroupProcess>, ps: Seq<Option<usize>>, base: Seq<ProcCategory>) -> bool {
    &&& ps.len() == all.len()
    &&& base.len() == all.len()
    &&& forall|i: int|
        0 <= i < all.len() ==> match #[trigger] ps[i] {
            Some(j) => j as int == parent_of(all, i) && j < all.len(),
            None => parent_of(all, i) == -1,
        }
    &&& forall|i: int| 0 <= i < all.len() ==> #[trigger] base[i] == base_category(all[i])
}

fn base_categories(all: &[GroupProcess]) -> (base: Vec<ProcCategory>)
    ensures
        base@.len() == all@.len(),
        forall|i: int| 0 <= i < all@.len() ==> #[trigger] base@[i] == base_category(all@[i]),
{
    let mut base: Vec<ProcCategory> = Vec::new();
    let mut i: usize = 0;
    while i < all.len()
        invariant
            i <= all@.len(),
            base@.len() == i,
            forall|k: int| 0 <= k < i ==> #[trigger] base@[k] == base_category(all@[k]),
        decreases all@.len() - i,
    {
        let c = if all[i].category == ProcCategory::System || is_system_boundary(all[i].name.as_str()) {
            ProcCategory::System
        } else {
            ProcCategory::Background
        };
        base.push(c);
        i = i + 1;
    }
    base
}

fn falses(n: usize) -> (v: Vec<bool>)
    ensures
        v@.len() == n,
        forall|i: int| 0 <= i < n ==> !#[trigger] v@[i],
{
    let mut v: Vec<bool> = Vec::new();
    let mut i: usize = 0;
    while i < n
        invariant
            i <= n,
            v@.len() == i,
            forall|k: int| 0 <= k < i ==> !#[trigger] v@[k],
        decreases n - i,
    {
        v.push(false);
        i = i + 1;
    }
    v
}

/// The app root windowed process `i` folds into.
fn climb_exec(all: &[GroupProcess], ps: &Vec<Option<usize>>, base: &Vec<ProcCategory>, i: usize) -> (r: usize)
    requires
        walk_inputs(all@, ps@, base@),
        i < all@.len(),
    ensures
        r as int == window_root_of(all@, i as int),
        r < all@.len(),
{
    let n = all.len();
    let mut seen = falses(n);
    seen.set(i, true);
    let ghost mut sset: Set<int> = set![i as int];
    let mut cur: usize = i;
    let mut steps: usize = 0;
    assert(seen@.len() == n);
    loop
        invariant
            n == all@.len(),
            walk_inputs(all@, ps@, base@),
            steps <= n,
            cur < n,
            seen@.len() == n,
            forall|k: int| 0 <= k < n ==> (#[trigger] seen@[k] <==> sset.contains(k)),
            window_root_of(all@, i as int) == climb(all@, cur as int, sset, (n - steps) as nat),
        decreases n - steps,
    {
        if steps == n {
            return cur;
        }
        match ps[cur] {
            None => {
                return cur;
            },
            Some(j) => {
                if seen[j] || base[j] == ProcCategory::System || is_launch_boundary(all[j].name.as_str())
                    || !plausibly_same_application(&all[j], &all[cur]) {
                    return cur;
                }
                seen.set(j, true);
                proof {
                    sset = sset.insert(j as int);
                }
                cur = j;
                steps = steps + 1;
            },
        }
    }
}

/// Which processes root an app group, by the visible windows.
fn window_roots(all: &[GroupProcess], ps: &Vec<Option<usize>>, base: &Vec<ProcCategory>) -> (roots: Vec<bool>)
    requires
        walk_inputs(all@, ps@, base@),
    ensures
        roots@.len() == all@.len(),
        forall|r: int| 0 <= r < all@.len() ==> (#[trigger] roots@[r] <==> is_window_root(all@, r)),
{
    let n = all.len();
    let mut roots = falses(n);
    let mut i: usize = 0;
    while i < n
        invariant
            n == all@.len(),
            i <= n,
            walk_inputs(all@, ps@, base@),
            roots@.len() == n,
            forall|r: int|
                0 <= r < n ==> (#[trigger] roots@[r] <==> exists|k: int|
                    0 <= k < i && all@[k].has_window && base_category(all@[k]) != ProcCategory::System
                        && #[trigger] window_root_of(all@, k) == r),
        decreases n - i,
    {
        if all[i].has_window && base[i] != ProcCategory::System {
            let r = climb_exec(all, ps, base, i);
            roots.set(r, true);
            proof {
                assert forall|q: int|
                    0 <= q < n implies (#[trigger] roots@[q] <==> exists|k: int|
                        0 <= k < i + 1 && all@[k].has_window && base_category(all@[k]) != ProcCategory::System
                            && #[trigger] window_root_of(all@, k) == q) by {
                    if q == r as int {
                        assert(window_root_of(all@, i as int) == q);
                    }
                    if exists|k: int|
                        0 <= k < i + 1 && all@[k].has_window && base_category(all@[k]) != ProcCategory::System
                            && #[trigger] window_root_of(all@, k) == q {
                        let k = choose|k: int|
                            0 <= k < i + 1 && all@[k].has_window && base_category(all@[k])
                                != ProcCategory::System && #[trigger] window_root_of(all@, k) == q;
                        if k < i {
                            assert(exists|k2: int|
                                0 <= k2 < i && all@[k2].has_window && base_category(all@[k2])
                                    != ProcCategory::System && #[trigger] window_root_of(all@, k2) == q);
                        }
                    }
                }
            }
        } else {
            proof {
                assert forall|q: int|
                    0 <= q < n implies (#[trigger] roots@[q] <==> exists|k: int|
                        0 <= k < i + 1 && all@[k].has_window && base_category(all@[k]) != ProcCategory::System
                            && #[trigger] window_root_of(all@, k) == q) by {
                    if exists|k: int|
                        0 <= k < i + 1 && all@[k].has_window && base_category(all@[k]) != ProcCategory::System
                            && #[trigger] window_root_of(all@, k) == q {
                        let k = choose|k: int|
                            0 <= k < i + 1 && all@[k].has_window && base_category(all@[k])
                                != ProcCategory::System && #[trigger] window_root_of(all@, k) == q;
                        assert(k < i);
                        assert(exists|k2: int|
                            0 <= k2 < i && all@[k2].has_window && base_category(all@[k2])
                                != ProcCategory::System && #[trigger] window_root_of(all@, k2) == q);
                    }
                }
            }
        }
        i = i + 1;
    }
    roots
}

/// Whether process `x` belongs to an app family.
fn owned_exec(
    all: &[GroupProcess],
    ps: &Vec<Option<usize>>,
    base: &Vec<ProcCategory>,
    roots: &Vec<bool>,
    x: usize,
) -> (b: bool)
    requires
        walk_inputs(all@, ps@, base@),
        roots@.len() == all@.len(),
        forall|r: int| 0 <= r < all@.len() ==> (#[trigger] roots@[r] <==> is_window_root(all@, r)),
        x < all@.len(),
    ensures
        b == owned(all@, x as int, all@.len()),
{
    let n = all.len();
    let mut cur: usize = x;
    let mut fuel: usize = n;
    loop
        invariant
            n == all@.len(),
            walk_inputs(all@, ps@, base@),
            roots@.len() == n,
            forall|r: int| 0 <= r < n ==> (#[trigger] roots@[r] <==> is_window_root(all@, r)),
            cur < n,
            fuel <= n,
            owned(all@, x as int, n as nat) == owned(all@, cur as int, fuel as nat),
        decreases fuel,
    {
        if base[cur] == ProcCategory::System {
            return false;
        }
        if roots[cur] {
            return true;
        }
        if fuel == 0 {
            return false;
        }
        match ps[cur] {
            None => {
                return false;
            },
            Some(p) => {
                if is_non_owning_shell(all[p].name.as_str()) {
                    return false;
                }
                cur = p;
                fuel = fuel - 1;
            },
        }
    }
}

/// The family category of every process.
fn family_categories(
    all: &[GroupProcess],
    ps: &Vec<Option<usize>>,
    base: &Vec<ProcCategory>,
    roots: &Vec<bool>,
) -> (cat: Vec<ProcCategory>)
    requires
        walk_inputs(all@, ps@, base@),
        roots@.len() == all@.len(),
        forall|r: int| 0 <= r < all@.len() ==> (#[trigger] roots@[r] <==> is_window_root(all@, r)),
    ensures
        cat@.len() == all@.len(),
        forall|x: int| 0 <= x < all@.len() ==> #[trigger] cat@[x] == family_category(all@, x),
{
    let mut cat: Vec<ProcCategory> = Vec::new();
    let mut x: usize = 0;
    while x < all.len()
        invariant
            x <= all@.len(),
            walk_inputs(all@, ps@, base@),
            roots@.len() == all@.len(),
            forall|r: int| 0 <= r < all@.len() ==> (#[trigger] roots@[r] <==> is_window_root(all@, r)),
            cat@.len() == x,
            forall|k: int| 0 <= k < x ==> #[trigger] cat@[k] == family_category(all@, k),
        decreases all@.len() - x,
    {
        let c = if owned_exec(all, ps, base, roots, x) {
            ProcCategory::App
        } else {
            base[x]
        };
        cat.push(c);
        x = x + 1;
    }
    cat
}

/// Whether no ancestor inside `p`'s family shares its image.
fn external_exec(all: &[GroupProcess], ps: &Vec<Option<usize>>, cat: &Vec<ProcCategory>, p: usize) -> (b: bool)
    requires
        ps@.len() == all@.len(),
        forall|i: int|
            0 <= i < all@.len() ==> match #[trigger] ps@[i] {
                Some(j) => j as int == parent_of(all@, i) && j < all@.len(),
                None => parent_of(all@, i) == -1,
            },
        cat@.len() == all@.len(),
        forall|x: int| 0 <= x < all@.len() ==> #[trigger] cat@[x] == family_category(all@, x),
        p < all@.len(),
    ensures
        b == external_walk(all@, p as int, p as int, set![p as int], all@.len()),
{
    let n = all.len();
    let mut seen = falses(n);
    seen.set(p, true);
    let ghost mut sset: Set<int> = set![p as int];
    let mut cur: usize = p;
    let mut fuel: usize = n;
    loop
        invariant
            n == all@.len(),
            ps@.len() == n,
            forall|i: int|
                0 <= i < n ==> match #[trigger] ps@[i] {
                    Some(j) => j as int == parent_of(all@, i) && j < n,
                    None => parent_of(all@, i) == -1,
                },
            cat@.len() == n,
            forall|x: int| 0 <= x < n ==> #[trigger] cat@[x] == family_category(all@, x),
            p < n,
            cur < n,
            fuel <= n,
            seen@.len() == n,
            forall|k: int| 0 <= k < n ==> (#[trigger] seen@[k] <==> sset.contains(k)),
            external_walk(all@, p as int, p as int, set![p as int], n as nat) == external_walk(
                all@,
                p as int,
                cur as int,
                sset,
                fuel as nat,
            ),
        decreases fuel,
    {
        if fuel == 0 {
            return true;
        }
        match ps[cur] {
            None => {
                return true;
            },
            Some(j) => {
                if seen[j] || cat[j] != ProcCategory::App {
                    return true;
                }
                if eq_ignore_ascii_case(all[j].name.as_str(), all[p].name.as_str()) {
                    return false;
                }
                seen.set(j, true);
                proof {
                    sset = sset.insert(j as int);
                }
                cur = j;
                fuel = fuel - 1;
            },
        }
    }
}

/// Whether `x` moves to Background.
fn promoted_exec(
    all: &[GroupProcess],
    ps: &Vec<Option<usize>>,
    cat: &Vec<ProcCategory>,
    roots: &Vec<bool>,
    busy: &Vec<bool>,
    x: usize,
) -> (b: bool)
    requires
        ps@.len() == all@.len(),
        forall|i: int|
            0 <= i < all@.len() ==> match #[trigger] ps@[i] {
                Some(j) => j as int == parent_of(all@, i) && j < all@.len(),
                None => parent_of(all@, i) == -1,
            },
        cat@.len() == all@.len(),
        forall|k: int| 0 <= k < all@.len() ==> #[trigger] cat@[k] == family_category(all@, k),
        roots@.len() == all@.len(),
        forall|r: int| 0 <= r < all@.len() ==> (#[trigger] roots@[r] <==> is_window_root(all@, r)),
        busy@.len() == all@.len(),
        forall|k: int| 0 <= k < all@.len() ==> (#[trigger] busy@[k] <==> busy_external(all@, k)),
        x < all@.len(),
    ensures
        b == promoted(all@, x as int, all@.len()),
{
    let n = all.len();
    let mut cur: usize = x;
    let mut fuel: usize = n;
    loop
        invariant
            n == all@.len(),
            ps@.len() == n,
            forall|i: int|
                0 <= i < n ==> match #[trigger] ps@[i] {
                    Some(j) => j as int == parent_of(all@, i) && j < n,
                    None => parent_of(all@, i) == -1,
                },
            cat@.len() == n,
            forall|k: int| 0 <= k < n ==> #[trigger] cat@[k] == family_category(all@, k),
            roots@.len() == n,
            forall|r: int| 0 <= r < n ==> (#[trigger] roots@[r] <==> is_window_root(all@, r)),
            busy@.len() == n,
            forall|k: int| 0 <= k < n ==> (#[trigger] busy@[k] <==> busy_external(all@, k)),
            cur < n,
            fuel <= n,
            promoted(all@, x as int, n as nat) == promoted(all@, cur as int, fuel as nat),
        decreases fuel,
    {
        if busy[cur] {
            return true;
        }
        if fuel == 0 {
            return false;
        }
        if all[cur].has_window || cat[cur] != ProcCategory::App || roots[cur] {
            return false;
        }
        match ps[cur] {
            None => {
                return false;
            },
            Some(p) => {
                cur = p;
                fuel = fuel - 1;
            },
        }
    }
}

/// Presentation groups of the Processes page: each process's group, and
/// which processes root an app group. Both are indexed like the input.
pub struct DisplayGroups {
    pub category: Vec<ProcCategory>,
    pub app_root: Vec<bool>,
}

/// Rebuild the grouping of the Processes page. With window ownership known,
/// the collector stays authoritative for Windows processes; App membership
/// is rebuilt from the visible windows, so a shell parent cannot turn all of
/// its descendants into Apps, and busy external helpers are promoted to
/// Background. Without it, the collector's classification is kept and only
/// the app roots are derived.
pub fn derive_display_groups(all: &[GroupProcess]) -> (g: DisplayGroups)
    ensures
        g.category@.len() == all@.len(),
        g.app_root@.len() == all@.len(),
        forall|x: int| 0 <= x < all@.len() ==> #[trigger] g.category@[x] == spec_category(all@, x),
        forall|x: int| 0 <= x < all@.len() ==> #[trigger] g.app_root@[x] == spec_app_root(all@, x),
{
    let n = all.len();
    let ps = parents(all);
    let mut any: bool = false;
    let mut i: usize = 0;
    while i < n
        invariant
            n == all@.len(),
            i <= n,
            any == exists|k: int| 0 <= k < i && #[trigger] all@[k].has_window,
        decreases n - i,
    {
        if all[i].has_window {
            any = true;
        }
        i = i + 1;
    }
    if !any {
        let mut flagged: bool = false;
        let mut i: usize = 0;
        while i < n
            invariant
                n == all@.len(),
                i <= n,
                flagged == exists|k: int|
                    0 <= k < i && #[trigger] all@[k].category == ProcCategory::App && all@[k].app_root,
            decreases n - i,
        {
            if all[i].category == ProcCategory::App && all[i].app_root {
                flagged = true;
            }
            i = i + 1;
        }
        let mut category: Vec<ProcCategory> = Vec::new();
        let mut app_root: Vec<bool> = Vec::new();
        let mut x: usize = 0;
        while x < n
            invariant
                n == all@.len(),
                x <= n,
                !any_window(all@),
                flagged == flagged_roots_exist(all@),
                ps@.len() == n,
                forall|i: int|
                    0 <= i < n ==> match #[trigger] ps@[i] {
                        Some(j) => j as int == parent_of(all@, i) && j < n,
                        None => parent_of(all@, i) == -1,
                    },
                category@.len() == x,
                app_root@.len() == x,
                forall|k: int| 0 <= k < x ==> #[trigger] category@[k] == spec_category(all@, k),
                forall|k: int| 0 <= k < x ==> #[trigger] app_root@[k] == spec_app_root(all@, k),
            decreases n - x,
        {
            category.push(all[x].category);
            let is_app = all[x].category == ProcCategory::App;
            let r = if flagged {
                is_app && all[x].app_root
            } else {
                let parent_is_app = match ps[x] {
                    Some(p) => all[p].category == ProcCategory::App,
                    None => false,
                };
                is_app && !parent_is_app
            };
            app_root.push(r);
            x = x + 1;
        }
        return DisplayGroups { category, app_root };
    }
    let base = base_categories(all);
    let roots = window_roots(all, &ps, &base);
    let cat = family_categories(all, &ps, &base, &roots);
    let mut busy: Vec<bool> = Vec::new();
    let mut x: usize = 0;
    while x < n
        invariant
            n == all@.len(),
            x <= n,
            walk_inputs(all@, ps@, base@),
            cat@.len() == n,
            forall|k: int| 0 <= k < n ==> #[trigger] cat@[k] == family_category(all@, k),
            roots@.len() == n,
            forall|r: int| 0 <= r < n ==> (#[trigger] roots@[r] <==> is_window_root(all@, r)),
            busy@.len() == x,
            forall|k: int| 0 <= k < x ==> (#[trigger] busy@[k] <==> busy_external(all@, k)),
        decreases n - x,
    {
        let b = !all[x].has_window && all[x].busy && cat[x] == ProcCategory::App && !roots[x]
            && external_exec(all, &ps, &cat, x);
        busy.push(b);
        x = x + 1;
    }
    let mut category: Vec<ProcCategory> = Vec::new();
    let mut x: usize = 0;
    while x < n
        invariant
            n == all@.len(),
            x <= n,
            any_window(all@),
            walk_inputs(all@, ps@, base@),
            cat@.len() == n,
            forall|k: int| 0 <= k < n ==> #[trigger] cat@[k] == family_category(all@, k),
            roots@.len() == n,
            forall|r: int| 0 <= r < n ==> (#[trigger] roots@[r] <==> is_window_root(all@, r)),
            busy@.len() == n,
            forall|k: int| 0 <= k < n ==> (#[trigger] busy@[k] <==> busy_external(all@, k)),
            category@.len() == x,
            forall|k: int| 0 <= k < x ==> #[trigger] category@[k] == spec_category(all@, k),
        decreases n - x,
    {
        let c = if promoted_exec(all, &ps, &cat, &roots, &busy, x) {
            ProcCategory::Background
        } else {
            cat[x]
        };
        category.push(c);
        x = x + 1;
    }
    DisplayGroups { category, app_root: roots }
}

proof fn lemma_climb_not_system(all: Seq<GroupProcess>, i: int, seen: Set<int>, fuel: nat)
    requires
        0 <= i < all.len(),
        base_category(all[i]) != ProcCategory::System,
    ensures
        0 <= climb(all, i, seen, fuel) < all.len(),
        base_category(all[climb(all, i, seen, fuel)]) != ProcCategory::System,
    decreases fuel,
{
    lemma_parent_range(all);
    if fuel > 0 {
        let j = parent_of(all, i);
        if !(j < 0 || seen.contains(j) || base_category(all[j]) == ProcCategory::System
            || spec_is_launch_boundary(all[j].name@) || !spec_plausibly_same(all[j], all[i])) {
            lemma_climb_not_system(all, j, seen.insert(j), (fuel - 1) as nat);
        }
    }
}

/// With window ownership known: Windows processes stay in the Windows
/// group; every app root is shown among the Apps; a windowed process whose
/// parent is a launch surface (Explorer, a shell, a browser) roots its own
/// app group instead of joining its launcher's; and promotion to Background
/// never moves a windowed process.
pub proof fn lemma_grouping_boundaries(all: Seq<GroupProcess>, x: int)
    requires
        0 <= x < all.len(),
        any_window(all),
    ensures
        base_category(all[x]) == ProcCategory::System ==> spec_category(all, x) == ProcCategory::System,
        is_window_root(all, x) ==> spec_category(all, x) == ProcCategory::App,
        (all[x].has_window && base_category(all[x]) != ProcCategory::System && parent_of(all, x) >= 0
            && spec_is_launch_boundary(all[parent_of(all, x)].name@)) ==> is_window_root(all, x),
        all[x].has_window ==> spec_category(all, x) == family_category(all, x),
{
    lemma_parent_range(all);
    if is_window_root(all, x) {
        let i = choose|i: int|
            0 <= i < all.len() && all[i].has_window && base_category(all[i]) != ProcCategory::System
                && #[trigger] window_root_of(all, i) == x;
        lemma_climb_not_system(all, i, set![i], all.len());
        assert(owned(all, x, all.len()));
        assert(!promoted(all, x, all.len()));
    }
    if all[x].has_window && base_category(all[x]) != ProcCategory::System && parent_of(all, x) >= 0
        && spec_is_launch_boundary(all[parent_of(all, x)].name@) {
        assert(window_root_of(all, x) == x);
    }
}

/// `g` advanced by one, wrapping at the top.
pub open spec fn next_generation(g: u64) -> u64 {
    if g == u64::MAX {
        0
    } else {
        (g + 1) as u64
    }
}

/// View state of the Processes page.
pub struct State {
    pub sort_col: usize,
    pub ascending: bool,
    /// Expanded parent pids.
    pub expanded: HashSet<u32>,
    /// Expanded user rows (the Users page reuses the same state).
    pub expanded_users: HashSet<u32>,
    /// Collapsed group headers: Apps, Background, Windows.
    pub group_collapsed: [bool; 3],
    /// Process selected by keyboard type-navigation and waiting to be
    /// scrolled into view.
    pub scroll_to_pid: Option<u32>,
    /// Bumped by every change that affects the flattened rows, so a cache
    /// keyed by it rebuilds at once.
    pub view_generation: u64,
}

impl State {
    /// Sorted by name ascending, nothing expanded or collapsed.
    pub fn new() -> (s: Self)
        ensures
            s.sort_col == 0,
            s.ascending,
            s.expanded@ == Set::<u32>::empty(),
            s.expanded_users@ == Set::<u32>::empty(),
            s.group_collapsed@ == seq![false, false, false],
            s.scroll_to_pid is None,
            s.view_generation == 0,
    {
        let s = State {
            sort_col: 0,
            ascending: true,
            expanded: HashSet::new(),
            expanded_users: HashSet::new(),
            group_collapsed: [false, false, false],
            scroll_to_pid: None,
            view_generation: 0,
        };
        assert(s.group_collapsed@ =~= seq![false, false, false]);
        s
    }

    /// Mark the flattened rows stale.
    pub fn invalidate(&mut self)
        ensures
            final(self).view_generation == next_generation(old(self).view_generation),
            final(self).sort_col == old(self).sort_col,
            final(self).ascending == old(self).ascending,
            final(self).expanded@ == old(self).expanded@,
            final(self).expanded_users@ == old(self).expanded_users@,
            final(self).group_collapsed@ == old(self).group_collapsed@,
            final(self).scroll_to_pid == old(self).scroll_to_pid,
    {
        self.view_generation = self.view_generation.wrapping_add(1);
    }

    /// Expand a collapsed process or collapse an expanded one.
    pub fn toggle_expanded(&mut self, pid: u32)
        ensures
            final(self).expanded@ == if old(self).expanded@.contains(pid) {
                old(self).expanded@.remove(pid)
            } else {
                old(self).expanded@.insert(pid)
            },
            final(self).view_generation == next_generation(old(self).view_generation),
            final(self).sort_col == old(self).sort_col,
            final(self).ascending == old(self).ascending,
            final(self).expanded_users@ == old(self).expanded_users@,
            final(self).group_collapsed@ == old(self).group_collapsed@,
            final(self).scroll_to_pid == old(self).scroll_to_pid,
    {
        if !self.expanded.remove(&pid) {
            self.expanded.insert(pid);
        }
        self.invalidate();
    }

    /// Collapse or reopen group header `gi`; an index past the three groups
    /// changes nothing.
    pub fn toggle_group(&mut self, gi: usize)
        ensures
            gi < 3 ==> final(self).group_collapsed@ == old(self).group_collapsed@.update(
                gi as int,
                !old(self).group_collapsed@[gi as int],
            ),
            gi < 3 ==> final(self).view_generation == next_generation(old(self).view_generation),
            gi >= 3 ==> final(self).group_collapsed@ == old(self).group_collapsed@,
            gi >= 3 ==> final(self).view_generation == old(self).view_generation,
            final(self).sort_col == old(self).sort_col,
            final(self).ascending == old(self).ascending,
            final(self).expanded@ == old(self).expanded@,
            final(self).expanded_users@ == old(self).expanded_users@,
            final(self).scroll_to_pid == old(self).scroll_to_pid,
    {
        if gi < 3 {
            let v = !self.group_collapsed[gi];
            self.group_collapsed.set(gi, v);
            self.invalidate();
        }
    }
}

impl State {
    /// Expand every process in `pids` (the Expand all command); what was
    /// expanded stays expanded.
    pub fn expand_all(&mut self, pids: &[u32])
        ensures
            forall|x: u32| #[trigger] final(self).expanded@.contains(x) <==> (old(self).expanded@.contains(x) || pids@.contains(x)),
            final(self).view_generation == next_generation(old(self).view_generation),
            final(self).sort_col == old(self).sort_col,
            final(self).ascending == old(self).ascending,
            final(self).expanded_users@ == old(self).expanded_users@,
            final(self).group_collapsed@ == old(self).group_collapsed@,
            final(self).scroll_to_pid == old(self).scroll_to_pid,
    {
        let ghost start = self.expanded@;
        let mut i: usize = 0;
        while i < pids.len()
            invariant
                i <= pids@.len(),
                forall|x: u32| #[trigger] self.expanded@.contains(x) <==> (start.contains(x) || exists|j: int| 0 <= j < i && pids@[j] == x),
                self.view_generation == old(self).view_generation,
                self.sort_col == old(self).sort_col,
                self.ascending == old(self).ascending,
                self.expanded_users@ == old(self).expanded_users@,
                self.group_collapsed@ == old(self).group_collapsed@,
                self.scroll_to_pid == old(self).scroll_to_pid,
            decreases pids@.len() - i,
        {
            let p = pids[i];
            self.expanded.insert(p);
            proof {
                assert forall|x: u32| #[trigger] self.expanded@.contains(x) <==> (start.contains(x) || exists|j: int| 0 <= j < i + 1 && pids@[j] == x) by {
                    if x == p {
                        assert(pids@[i as int] == x);
                    }
                    if exists|j: int| 0 <= j < i + 1 && pids@[j] == x {
                        let j = choose|j: int| 0 <= j < i + 1 && pids@[j] == x;
                        if j < i {
                            assert(exists|j2: int| 0 <= j2 < i && pids@[j2] == x);
                        }
                    }
                }
            }
            i = i + 1;
        }
        proof {
            assert forall|x: u32| #[trigger] self.expanded@.contains(x) <==> (start.contains(x) || pids@.contains(x)) by {
                if pids@.contains(x) {
                    let j = choose|j: int| 0 <= j < pids@.len() && pids@[j] == x;
                    assert(exists|j2: int| 0 <= j2 < i && pids@[j2] == x);
                }
                if exists|j: int| 0 <= j < i && pids@[j] == x {
                    let j = choose|j: int| 0 <= j < i && pids@[j] == x;
                    assert(pids@.contains(x));
                }
            }
        }
        self.invalidate();
    }

    /// Collapse every process (the Collapse all command).
    pub fn collapse_all(&mut self)
        ensures
            final(self).expanded@ == Set::<u32>::empty(),
            final(self).view_generation == next_generation(old(self).view_generation),
            final(self).sort_col == old(self).sort_col,
            final(self).ascending == old(self).ascending,
            final(self).expanded_users@ == old(self).expanded_users@,
            final(self).group_collapsed@ == old(self).group_collapsed@,
            final(self).scroll_to_pid == old(self).scroll_to_pid,
    {
        self.expanded = HashSet::new();
        self.invalidate();
    }

    /// A click on header `col` (name, status, CPU, memory, disk, network):
    /// the sorted column flips its direction; another column becomes the
    /// sort column, ascending for name and status and descending for the
    /// resource columns.
    pub fn header_clicked(&mut self, col: usize)
        ensures
            final(self).sort_col == col,
            old(self).sort_col == col ==> final(self).ascending == !old(self).ascending,
            old(self).sort_col != col ==> final(self).ascending == (col == 0 || !(2 <= col && col <= 5)),
            final(self).expanded@ == old(self).expanded@,
            final(self).expanded_users@ == old(self).expanded_users@,
            final(self).group_collapsed@ == old(self).group_collapsed@,
            final(self).scroll_to_pid == old(self).scroll_to_pid,
            final(self).view_generation == old(self).view_generation,
    {
        if self.sort_col == col {
            self.ascending = !self.ascending;
        } else {
            self.sort_col = col;
            self.ascending = col == 0 || !(2 <= col && col <= 5);
        }
    }
}

/// The persisted id of Processes column `col`.
pub fn column_id(col: usize) -> (id: &'static str)
    requires
        col < 6,
    ensures
        id@ == if col == 0 {
            "name"@
        } else if col == 1 {
            "status"@
        } else if col == 2 {
            "cpu"@
        } else if col == 3 {
            "mem"@
        } else if col == 4 {
            "disk"@
        } else {
            "net"@
        },
{
    if col == 0 {
        "name"
    } else if col == 1 {
        "status"
    } else if col == 2 {
        "cpu"
    } else if col == 3 {
        "mem"
    } else if col == 4 {
        "disk"
    } else {
        "net"
    }
}

/// One mark of the Status cell.
#[derive(Debug, Clone, Copy, PartialEq, Eq, Structural)]
pub enum StatusMark {
    /// The orange pause glyph of a suspended process.
    Paused,
    /// The green leaf of efficiency mode.
    Leaf,
    /// The words "not responding".
    NotResponding,
}

/// The marks of a Status cell, in painting order.
pub open spec fn spec_status_marks(status: ProcStatus, power_throttled: bool) -> Seq<StatusMark> {
    (if status == ProcStatus::Suspended {
        seq![StatusMark::Paused]
    } else {
        Seq::empty()
    }) + (if power_throttled {
        seq![StatusMark::Leaf]
    } else {
        Seq::empty()
    }) + (if status == ProcStatus::NotResponding {
        seq![StatusMark::NotResponding]
    } else {
        Seq::empty()
    })
}

/// The Processes page's Status cell: a pause glyph for a suspended
/// process, a leaf for efficiency mode, and only "not responding" spelled
/// out; a running process shows nothing.
pub fn status_marks(status: ProcStatus, power_throttled: bool) -> (m: Vec<StatusMark>)
    ensures
        m@ == spec_status_marks(status, power_throttled),
{
    let mut m: Vec<StatusMark> = Vec::new();
    if status == ProcStatus::Suspended {
        m.push(StatusMark::Paused);
    }
    if power_throttled {
        m.push(StatusMark::Leaf);
    }
    if status == ProcStatus::NotResponding {
        m.push(StatusMark::NotResponding);
    }
    assert(m@ =~= spec_status_marks(status, power_throttled));
    m
}

/// The words of the Details page's Status cell, in order: the run state
/// (nothing for a running process), then efficiency mode.
pub open spec fn spec_status_words(status: ProcStatus, power_throttled: bool) -> Seq<StatusMark> {
    (if status == ProcStatus::Suspended {
        seq![StatusMark::Paused]
    } else if status == ProcStatus::NotResponding {
        seq![StatusMark::NotResponding]
    } else {
        Seq::empty()
    }) + (if power_throttled {
        seq![StatusMark::Leaf]
    } else {
        Seq::empty()
    })
}

/// The Details page's Status text, as the words it joins with commas:
/// suspended or not responding, then efficiency mode when it is on.
pub fn status_words(status: ProcStatus, power_throttled: bool) -> (w: Vec<StatusMark>)
    ensures
        w@ == spec_status_words(status, power_throttled),
{
    let mut w: Vec<StatusMark> = Vec::new();
    if status == ProcStatus::Suspended {
        w.push(StatusMark::Paused);
    } else if status == ProcStatus::NotResponding {
        w.push(StatusMark::NotResponding);
    }
    if power_throttled {
        w.push(StatusMark::Leaf);
    }
    assert(w@ =~= spec_status_words(status, power_throttled));
    w
}

/// Expanding and collapsing the same process twice restores the expanded
/// set.
pub proof fn lemma_toggle_twice(expanded: Set<u32>, pid: u32)
    ensures
        ({
            let once = if expanded.contains(pid) {
                expanded.remove(pid)
            } else {
                expanded.insert(pid)
            };
            let twice = if once.contains(pid) {
                once.remove(pid)
            } else {
                once.insert(pid)
            };
            twice == expanded
        }),
{
    let once = if expanded.contains(pid) {
        expanded.remove(pid)
    } else {
        expanded.insert(pid)
    };
    let twice = if once.contains(pid) {
        once.remove(pid)
    } else {
        once.insert(pid)
    };
    assert(twice =~= expanded);
}


/// Every launch surface is a launch boundary: Explorer; the console shells
/// and terminals cmd, PowerShell, pwsh, WSL and Windows Terminal; the
/// shell-session and activation brokers; and the browsers. A windowed child
/// of any of them roots its own app group (see `lemma_grouping_boundaries`).
pub proof fn lemma_launch_surfaces()
    ensures
        spec_is_launch_boundary("explorer.exe"@),
        spec_is_launch_boundary("cmd.exe"@),
        spec_is_launch_boundary("powershell.exe"@),
        spec_is_launch_boundary("pwsh.exe"@),
        spec_is_launch_boundary("wsl.exe"@),
        spec_is_launch_boundary("wt.exe"@),
        spec_is_launch_boundary("SearchHost.exe"@),
        spec_is_launch_boundary("SearchApp.exe"@),
        spec_is_launch_boundary("StartMenuExperienceHost.exe"@),
        spec_is_launch_boundary("ShellExperienceHost.exe"@),
        spec_is_launch_boundary("sihost.exe"@),
        spec_is_launch_boundary("RuntimeBroker.exe"@),
        spec_is_launch_boundary("dllhost.exe"@),
        spec_is_launch_boundary("applicationframehost.exe"@),
        spec_is_launch_boundary("backgroundtaskhost.exe"@),
        spec_is_launch_boundary("textinputhost.exe"@),
        spec_is_launch_boundary("smartscreen.exe"@),
        spec_is_launch_boundary("msedge.exe"@),
        spec_is_launch_boundary("chrome.exe"@),
        spec_is_launch_boundary("brave.exe"@),
        spec_is_launch_boundary("chromium.exe"@),
        spec_is_launch_boundary("firefox.exe"@),
        spec_is_launch_boundary("opera.exe"@),
        spec_is_launch_boundary("vivaldi.exe"@),
{
    assert(same_ignoring_ascii_case("explorer.exe"@, launcher(0)));
    assert(same_ignoring_ascii_case("cmd.exe"@, launcher(1)));
    assert(same_ignoring_ascii_case("powershell.exe"@, launcher(2)));
    assert(same_ignoring_ascii_case("pwsh.exe"@, launcher(3)));
    assert(same_ignoring_ascii_case("wsl.exe"@, launcher(4)));
    assert(same_ignoring_ascii_case("wt.exe"@, launcher(5)));
    assert(same_ignoring_ascii_case("SearchHost.exe"@, launcher(6)));
    assert(same_ignoring_ascii_case("SearchApp.exe"@, launcher(7)));
    assert(same_ignoring_ascii_case("StartMenuExperienceHost.exe"@, launcher(8)));
    assert(same_ignoring_ascii_case("ShellExperienceHost.exe"@, launcher(9)));
    assert(same_ignoring_ascii_case("sihost.exe"@, launcher(10)));
    assert(same_ignoring_ascii_case("RuntimeBroker.exe"@, launcher(11)));
    assert(same_ignoring_ascii_case("dllhost.exe"@, launcher(12)));
    assert(same_ignoring_ascii_case("applicationframehost.exe"@, launcher(13)));
    assert(same_ignoring_ascii_case("backgroundtaskhost.exe"@, launcher(14)));
    assert(same_ignoring_ascii_case("textinputhost.exe"@, launcher(15)));
    assert(same_ignoring_ascii_case("smartscreen.exe"@, launcher(16)));
    assert(same_ignoring_ascii_case("msedge.exe"@, launcher(17)));
    assert(same_ignoring_ascii_case("chrome.exe"@, launcher(18)));
    assert(same_ignoring_ascii_case("brave.exe"@, launcher(19)));
    assert(same_ignoring_ascii_case("chromium.exe"@, launcher(20)));
    assert(same_ignoring_ascii_case("firefox.exe"@, launcher(21)));
    assert(same_ignoring_ascii_case("opera.exe"@, launcher(22)));
    assert(same_ignoring_ascii_case("vivaldi.exe"@, launcher(23)));
}

/// Every core system process name is a system boundary.
pub proof fn lemma_system_names()
    ensures
        spec_is_system_boundary("system"@),
        spec_is_system_boundary("registry"@),
        spec_is_system_boundary("memory compression"@),
        spec_is_system_boundary("secure system"@),
        spec_is_system_boundary("smss.exe"@),
        spec_is_system_boundary("csrss.exe"@),
        spec_is_system_boundary("wininit.exe"@),
        spec_is_system_boundary("services.exe"@),
        spec_is_system_boundary("lsass.exe"@),
        spec_is_system_boundary("lsaiso.exe"@),
        spec_is_system_boundary("svchost.exe"@),
        spec_is_system_boundary("winlogon.exe"@),
        spec_is_system_boundary("dwm.exe"@),
        spec_is_system_boundary("fontdrvhost.exe"@),
        spec_is_system_boundary("system idle process"@),
{
    assert(same_ignoring_ascii_case("system"@, system_name(0)));
    assert(same_ignoring_ascii_case("registry"@, system_name(1)));
    assert(same_ignoring_ascii_case("memory compression"@, system_name(2)));
    assert(same_ignoring_ascii_case("secure system"@, system_name(3)));
    assert(same_ignoring_ascii_case("smss.exe"@, system_name(4)));
    assert(same_ignoring_ascii_case("csrss.exe"@, system_name(5)));
    assert(same_ignoring_ascii_case("wininit.exe"@, system_name(6)));
    assert(same_ignoring_ascii_case("services.exe"@, system_name(7)));
    assert(same_ignoring_ascii_case("lsass.exe"@, system_name(8)));
    assert(same_ignoring_ascii_case("lsaiso.exe"@, system_name(9)));
    assert(same_ignoring_ascii_case("svchost.exe"@, system_name(10)));
    assert(same_ignoring_ascii_case("winlogon.exe"@, system_name(11)));
    assert(same_ignoring_ascii_case("dwm.exe"@, system_name(12)));
    assert(same_ignoring_ascii_case("fontdrvhost.exe"@, system_name(13)));
    assert(same_ignoring_ascii_case("system idle process"@, system_name(14)));
}

} // verus!
