//! The literal parent/child process tree of the Details page.
//!
//! The tree is the Name column's third sort state: children sit strictly
//! under their parent in creation order. A parent link is only believed when
//! the parent started no later than the child (a PID can be recycled), a
//! search keeps every ancestor of a match, and malformed or cyclic parent
//! graphs still show every process exactly once.
use std::collections::HashSet;
use vstd::prelude::*;

verus! {

broadcast use vstd::std_specs::hash::group_hash_axioms;

/// One process, as the tree reads it.
#[derive(Debug, Clone, Copy, PartialEq, Eq, Structural)]
pub struct TreeProcess {
    pub pid: u32,
    pub ppid: Option<u32>,
    pub start_epoch_s: Option<i64>,
    /// Pseudo-row with no OS process behind it; never part of the tree.
    pub synthetic: bool,
    /// Whether the process matches the current search.
    pub matches: bool,
}

/// One rendered tree row.
#[derive(Debug, Clone, Copy, PartialEq, Eq, Structural)]
pub struct TreeRow {
    pub pid: u32,
    pub depth: usize,
    /// Whether the row has child rows (shown or collapsed).
    pub children: bool,
}

/// `a` started strictly before `b`; an unknown start sorts first.
pub open spec fn start_before(a: Option<i64>, b: Option<i64>) -> bool {
    match (a, b) {
        (None, Some(_)) => true,
        (Some(x), Some(y)) => x < y,
        _ => false,
    }
}

/// Creation order: start time, then PID.
pub open spec fn created_before(a: TreeProcess, b: TreeProcess) -> bool {
    start_before(a.start_epoch_s, b.start_epoch_s) || (a.start_epoch_s == b.start_epoch_s && a.pid
        < b.pid)
}

/// A parent link is believed unless both start times are known and the
/// parent started after its child (the PID was recycled).
pub open spec fn plausible_parent(parent: TreeProcess, child: TreeProcess) -> bool {
    match (parent.start_epoch_s, child.start_epoch_s) {
        (Some(p), Some(c)) => p <= c,
        _ => true,
    }
}

/// The processes of the tree: every non-synthetic one, in input order.
pub open spec fn tree_members(ps: Seq<TreeProcess>) -> Seq<TreeProcess>
    decreases ps.len(),
{
    if ps.len() == 0 {
        Seq::empty()
    } else {
        let prev = tree_members(ps.drop_last());
        if ps.last().synthetic {
            prev
        } else {
            prev.push(ps.last())
        }
    }
}

/// No two processes share a PID.
pub open spec fn pids_distinct(all: Seq<TreeProcess>) -> bool {
    forall|i: int, j: int| 0 <= i < all.len() && 0 <= j < all.len() && i != j ==> all[i].pid != all[j].pid
}

/// Index of the process with PID `pid`, or -1.
pub open spec fn find_pid(all: Seq<TreeProcess>, pid: u32) -> int
    decreases all.len(),
{
    if all.len() == 0 {
        -1
    } else if all.last().pid == pid {
        all.len() - 1
    } else {
        find_pid(all.drop_last(), pid)
    }
}

/// Index of the recorded parent of process `i`, or -1.
pub open spec fn parent_index(all: Seq<TreeProcess>, i: int) -> int {
    match all[i].ppid {
        Some(p) => find_pid(all, p),
        None => -1,
    }
}

/// Index of the `n`-th recorded ancestor of process `i` (`n == 0` is `i`
/// itself), or -1.
pub open spec fn ancestor(all: Seq<TreeProcess>, i: int, n: nat) -> int
    decreases n,
{
    if n == 0 {
        i
    } else {
        let a = ancestor(all, i, (n - 1) as nat);
        if a < 0 {
            -1
        } else {
            parent_index(all, a)
        }
    }
}

/// Whether process `i` is in the tree: it matches the search, or (while a
/// search is active) it is a recorded ancestor of a match.
pub open spec fn in_tree(all: Seq<TreeProcess>, searching: bool, i: int) -> bool {
    all[i].matches || (searching && exists|q: int, n: nat|
        0 <= q < all.len() && all[q].matches && n >= 1 && #[trigger] ancestor(all, q, n) == i)
}

/// Index of the tree parent of process `i`, or -1: the recorded parent,
/// when both are in the tree, the link is not a self-loop, and the parent
/// plausibly started first.
pub open spec fn tree_parent(all: Seq<TreeProcess>, vis: Seq<bool>, i: int) -> int {
    let j = parent_index(all, i);
    if vis[i] && 0 <= j && j != i && vis[j] && plausible_parent(all[j], all[i]) {
        j
    } else {
        -1
    }
}

/// The indices below `upto` whose tree parent is `j`, in index order.
pub open spec fn children_upto(all: Seq<TreeProcess>, vis: Seq<bool>, j: int, upto: nat) -> Seq<usize>
    decreases upto,
{
    if upto == 0 {
        Seq::empty()
    } else {
        let prev = children_upto(all, vis, j, (upto - 1) as nat);
        if tree_parent(all, vis, upto - 1) == j {
            prev.push((upto - 1) as usize)
        } else {
            prev
        }
    }
}

/// `x` inserted into the creation-ordered `s`: before the first entry it
/// was created before.
pub open spec fn insert_created(all: Seq<TreeProcess>, s: Seq<usize>, x: usize) -> Seq<usize>
    decreases s.len(),
{
    if s.len() == 0 {
        seq![x]
    } else if created_before(all[x as int], all[s[0] as int]) {
        seq![x] + s
    } else {
        seq![s[0]] + insert_created(all, s.drop_first(), x)
    }
}

/// `s` in creation order.
pub open spec fn sort_created(all: Seq<TreeProcess>, s: Seq<usize>) -> Seq<usize>
    decreases s.len(),
{
    if s.len() == 0 {
        Seq::empty()
    } else {
        insert_created(all, sort_created(all, s.drop_last()), s.last())
    }
}

/// The tree children of process `j`, in creation order.
pub open spec fn tree_children(all: Seq<TreeProcess>, vis: Seq<bool>, j: int) -> Seq<usize> {
    sort_created(all, children_upto(all, vis, j, all.len() as nat))
}

/// The `n`-th tree ancestor of `x` (`n == 0` is `x` itself), or -1.
pub open spec fn tree_ancestor(all: Seq<TreeProcess>, vis: Seq<bool>, x: int, n: nat) -> int
    decreases n,
{
    if n == 0 {
        x
    } else {
        let a = tree_ancestor(all, vis, x, (n - 1) as nat);
        if a < 0 {
            -1
        } else {
            tree_parent(all, vis, a)
        }
    }
}

/// Whether `x` lies in the subtree of one of `roots`: one of its first
/// `all.len()` tree ancestors (itself included) is a root.
pub open spec fn covered_by(all: Seq<TreeProcess>, vis: Seq<bool>, roots: Set<int>, x: int) -> bool {
    exists|n: nat| n <= all.len() && roots.contains(#[trigger] tree_ancestor(all, vis, x, n))
}

/// Roots of the tree among the first `upto` processes: every tree process
/// without a tree parent, then, in index order, each tree process no
/// earlier root covers (one representative per parentless cycle).
pub open spec fn roots_upto(all: Seq<TreeProcess>, vis: Seq<bool>, upto: nat) -> Seq<usize>
    decreases upto,
{
    if upto == 0 {
        Seq::empty()
    } else {
        let prev = roots_upto(all, vis, (upto - 1) as nat);
        let i = upto - 1;
        if vis[i] && tree_parent(all, vis, i) < 0 {
            prev.push(i as usize)
        } else {
            prev
        }
    }
}

/// The first `upto` representatives of parentless cycles.
pub open spec fn cycle_roots_upto(all: Seq<TreeProcess>, vis: Seq<bool>, upto: nat) -> Seq<usize>
    decreases upto,
{
    if upto == 0 {
        Seq::empty()
    } else {
        let prev = cycle_roots_upto(all, vis, (upto - 1) as nat);
        let i = upto - 1;
        let known = (roots_upto(all, vis, all.len() as nat) + prev).to_set().map(|r: usize| r as int);
        if vis[i] && !covered_by(all, vis, known, i) {
            prev.push(i as usize)
        } else {
            prev
        }
    }
}

/// The tree roots, in creation order.
pub open spec fn tree_roots(all: Seq<TreeProcess>, vis: Seq<bool>) -> Seq<usize> {
    sort_created(
        all,
        roots_upto(all, vis, all.len() as nat) + cycle_roots_upto(all, vis, all.len() as nat),
    )
}

/// Stack entries for a list of nodes at one depth, first node on top.
pub open spec fn stack_entries(nodes: Seq<usize>, depth: usize) -> Seq<(usize, usize)>
    decreases nodes.len(),
{
    if nodes.len() == 0 {
        Seq::empty()
    } else {
        stack_entries(nodes.drop_first(), depth) + seq![(nodes[0], depth)]
    }
}

/// The entries of `s` that `visited` does not hold, in order.
pub open spec fn unvisited(s: Seq<usize>, visited: Set<int>) -> Seq<usize>
    decreases s.len(),
{
    if s.len() == 0 {
        Seq::empty()
    } else {
        let prev = unvisited(s.drop_last(), visited);
        if visited.contains(s.last() as int) {
            prev
        } else {
            prev.push(s.last())
        }
    }
}

/// The children of `x` not yet visited, in creation order.
pub open spec fn unvisited_children(
    all: Seq<TreeProcess>,
    vis: Seq<bool>,
    x: int,
    visited: Set<int>,
) -> Seq<usize> {
    unvisited(tree_children(all, vis, x), visited)
}

/// The preorder walk from `stack` (top last) that skips visited nodes and
/// descends into a node unless it is collapsed (collapsing is ignored while
/// searching).
pub open spec fn walk(
    all: Seq<TreeProcess>,
    vis: Seq<bool>,
    searching: bool,
    collapsed: Set<u32>,
    stack: Seq<(usize, usize)>,
    visited: Set<int>,
) -> Seq<TreeRow>
    decreases all.len() - visited.len(), stack.len(),
    when visited.finite() && visited.subset_of(Set::new(|x: int| 0 <= x < all.len()))
{
    if stack.len() == 0 {
        Seq::empty()
    } else {
        let top = stack.last();
        let rest = stack.drop_last();
        let x = top.0 as int;
        if visited.contains(x) || !(0 <= x < all.len()) {
            walk(all, vis, searching, collapsed, rest, visited)
        } else {
            let kids = unvisited_children(all, vis, x, visited.insert(x));
            let row = TreeRow {
                pid: all[x].pid,
                depth: top.1,
                children: kids.len() > 0,
            };
            let next = if kids.len() > 0 && (!collapsed.contains(all[x].pid) || searching) {
                rest + stack_entries(kids, (top.1 + 1) as usize)
            } else {
                rest
            };
            proof {
                let range = vstd::set_lib::set_int_range(0, all.len() as int);
                vstd::set_lib::lemma_int_range(0, all.len() as int);
                assert(Set::new(|y: int| 0 <= y < all.len()) =~= range);
                assert(visited.insert(x).len() == visited.len() + 1);
                vstd::set_lib::lemma_len_subset(visited.insert(x), range);
            }
            seq![row] + walk(all, vis, searching, collapsed, next, visited.insert(x))
        }
    }
}

/// The tree processes of `ps`: every non-synthetic one, in input order.
fn collect_members(ps: &[TreeProcess]) -> (all: Vec<TreeProcess>)
    ensures
        all@ == tree_members(ps@),
{
    let mut all: Vec<TreeProcess> = Vec::new();
    let mut k: usize = 0;
    while k < ps.len()
        invariant
            k <= ps@.len(),
            all@ == tree_members(ps@.subrange(0, k as int)),
        decreases ps@.len() - k,
    {
        proof {
            assert(ps@.subrange(0, k + 1).drop_last() =~= ps@.subrange(0, k as int));
        }
        if !ps[k].synthetic {
            all.push(ps[k]);
        }
        k = k + 1;
    }
    assert(ps@.subrange(0, ps@.len() as int) =~= ps@);
    all
}

proof fn lemma_find_pid_range(all: Seq<TreeProcess>, pid: u32)
    ensures
        -1 <= find_pid(all, pid) < all.len(),
        find_pid(all, pid) >= 0 ==> all[find_pid(all, pid)].pid == pid,
        find_pid(all, pid) < 0 ==> forall|i: int| 0 <= i < all.len() ==> all[i].pid != pid,
    decreases all.len(),
{
    if all.len() > 0 && all.last().pid != pid {
        lemma_find_pid_range(all.drop_last(), pid);
        assert forall|i: int| 0 <= i < all.len() && find_pid(all, pid) < 0 implies all[i].pid != pid by {
            if i < all.len() - 1 {
                assert(all.drop_last()[i] == all[i]);
            }
        }
    }
}

/// Index of the process with PID `pid` (the last one, should several
/// share it).
fn find_pid_index(all: &Vec<TreeProcess>, pid: u32) -> (idx: Option<usize>)
    ensures
        match idx {
            Some(i) => i as int == find_pid(all@, pid),
            None => find_pid(all@, pid) == -1,
        },
{
    let mut i: usize = all.len();
    assert(all@.subrange(0, all@.len() as int) =~= all@);
    while i > 0
        invariant
            i <= all@.len(),
            find_pid(all@, pid) == find_pid(all@.subrange(0, i as int), pid),
        decreases i,
    {
        proof {
            assert(all@.subrange(0, i as int).drop_last() =~= all@.subrange(0, i - 1));
        }
        if all[i - 1].pid == pid {
            return Some(i - 1);
        }
        i = i - 1;
    }
    None
}

/// Index of the recorded parent of process `i`.
fn parent_index_of(all: &Vec<TreeProcess>, i: usize) -> (p: Option<usize>)
    requires
        i < all@.len(),
    ensures
        match p {
            Some(j) => j as int == parent_index(all@, i as int) && j < all@.len(),
            None => parent_index(all@, i as int) == -1,
        },
{
    match all[i].ppid {
        Some(pp) => {
            proof {
                lemma_find_pid_range(all@, pp);
            }
            find_pid_index(all, pp)
        },
        None => None,
    }
}

proof fn lemma_ancestor_range(all: Seq<TreeProcess>, i: int, n: nat)
    requires
        0 <= i < all.len(),
    ensures
        -1 <= ancestor(all, i, n) < all.len(),
    decreases n,
{
    if n > 0 {
        lemma_ancestor_range(all, i, (n - 1) as nat);
        let a = ancestor(all, i, (n - 1) as nat);
        if a >= 0 {
            match all[a].ppid {
                Some(p) => lemma_find_pid_range(all, p),
                None => {},
            }
        }
    }
}

/// Ancestors compose: the `n`-th ancestor of the `m`-th ancestor is the
/// `(m + n)`-th.
proof fn lemma_ancestor_add(all: Seq<TreeProcess>, i: int, m: nat, n: nat)
    requires
        ancestor(all, i, m) >= 0,
    ensures
        ancestor(all, ancestor(all, i, m), n) == ancestor(all, i, m + n),
    decreases n,
{
    if n > 0 {
        lemma_ancestor_add(all, i, m, (n - 1) as nat);
    }
}

/// Once the ancestor chain ends it stays ended.
proof fn lemma_ancestor_ended(all: Seq<TreeProcess>, i: int, m: nat, n: nat)
    requires
        ancestor(all, i, m) < 0,
        n >= m,
    ensures
        ancestor(all, i, n) < 0,
    decreases n,
{
    if n > m {
        lemma_ancestor_ended(all, i, m, (n - 1) as nat);
    }
}

/// Equal ancestors stay equal further up the chain.
proof fn lemma_ancestor_shift(all: Seq<TreeProcess>, i: int, a: nat, b: nat, t: nat)
    requires
        ancestor(all, i, a) == ancestor(all, i, b),
    ensures
        ancestor(all, i, a + t) == ancestor(all, i, b + t),
    decreases t,
{
    if t > 0 {
        lemma_ancestor_shift(all, i, a, b, (t - 1) as nat);
        assert(ancestor(all, i, a + t) == {
            let x = ancestor(all, i, (a + t - 1) as nat);
            if x < 0 { -1 } else { parent_index(all, x) }
        });
        assert(ancestor(all, i, b + t) == {
            let x = ancestor(all, i, (b + t - 1) as nat);
            if x < 0 { -1 } else { parent_index(all, x) }
        });
    }
}

/// When the chain from `i` revisits its `k`-th ancestor at step `m`, every
/// ancestor beyond the process itself is one of the first `m`.
proof fn lemma_ancestor_cycle(all: Seq<TreeProcess>, i: int, k: nat, m: nat, n: nat)
    requires
        k < m,
        ancestor(all, i, m) == ancestor(all, i, k),
        n >= 1,
    ensures
        exists|j: nat| 1 <= j <= m && #[trigger] ancestor(all, i, j) == ancestor(all, i, n),
    decreases n,
{
    if n <= m {
        assert(ancestor(all, i, n) == ancestor(all, i, n));
    } else {
        let t = (n - m) as nat;
        lemma_ancestor_shift(all, i, m, k, t);
        assert(ancestor(all, i, n) == ancestor(all, i, k + t));
        lemma_ancestor_cycle(all, i, k, m, k + t);
    }
}

/// Mark every recorded ancestor of process `q` in `vis`.
fn mark_ancestors(all: &Vec<TreeProcess>, q: usize, vis: &mut Vec<bool>)
    requires
        q < all@.len(),
        old(vis)@.len() == all@.len(),
    ensures
        final(vis)@.len() == all@.len(),
        forall|i: int|
            0 <= i < all@.len() ==> #[trigger] final(vis)@[i] == (old(vis)@[i] || exists|m: nat|
                m >= 1 && ancestor(all@, q as int, m) == i),
{
    let n = all.len();
    let mut seen: Vec<bool> = Vec::new();
    let mut k: usize = 0;
    while k < n
        invariant
            k <= n,
            seen@.len() == k,
            forall|j: int| 0 <= j < k ==> !seen@[j],
        decreases n - k,
    {
        seen.push(false);
        k = k + 1;
    }
    let ghost range = vstd::set_lib::set_int_range(0, n as int);
    proof {
        vstd::set_lib::lemma_int_range(0, n as int);
    }
    let ghost mut seen_set: Set<int> = Set::empty();
    let ghost mut m: nat = 0;
    let mut cursor: usize = q;
    loop
        invariant
            n == all@.len(),
            seen@.len() == n,
            vis@.len() == n,
            old(vis)@.len() == n,
            cursor < n,
            cursor as int == ancestor(all@, q as int, m),
            range == vstd::set_lib::set_int_range(0, n as int),
            range.finite(),
            range.len() == n,
            seen_set.finite(),
            seen_set.subset_of(range),
            forall|i: int| 0 <= i < n ==> (#[trigger] seen@[i] <==> seen_set.contains(i)),
            forall|i: int| #[trigger] seen_set.contains(i) <==> exists|j: nat| j < m && ancestor(all@, q as int, j) == i,
            forall|i: int|
                0 <= i < n ==> #[trigger] vis@[i] == (old(vis)@[i] || exists|j: nat|
                    1 <= j <= m && ancestor(all@, q as int, j) == i),
        decreases n - seen_set.len(),
    {
        if seen[cursor] {
            proof {
                let k = choose|j: nat| j < m && ancestor(all@, q as int, j) == cursor as int;
                assert forall|i: int| 0 <= i < all@.len() implies #[trigger] vis@[i] == (old(vis)@[i] || exists|m2: nat|
                    m2 >= 1 && ancestor(all@, q as int, m2) == i) by {
                    if exists|m2: nat| m2 >= 1 && ancestor(all@, q as int, m2) == i {
                        let m2 = choose|m2: nat| m2 >= 1 && ancestor(all@, q as int, m2) == i;
                        lemma_ancestor_cycle(all@, q as int, k, m, m2);
                        let j = choose|j: nat| 1 <= j <= m && #[trigger] ancestor(all@, q as int, j) == ancestor(all@, q as int, m2);
                        assert(exists|j2: nat| 1 <= j2 <= m && ancestor(all@, q as int, j2) == i);
                    }
                }
            }
            return;
        }
        proof {
            vstd::set_lib::lemma_len_subset(seen_set, range);
            assert(!seen_set.contains(cursor as int));
        }
        seen.set(cursor, true);
        proof {
            let before_len = seen_set.len();
            seen_set = seen_set.insert(cursor as int);
            assert(seen_set.len() == before_len + 1);
            vstd::set_lib::lemma_len_subset(seen_set, range);
            assert forall|i: int| #[trigger] seen_set.contains(i) <==> exists|j: nat| j < m + 1 && ancestor(all@, q as int, j) == i by {
                if seen_set.contains(i) && i != cursor as int {
                    let j = choose|j: nat| j < m && ancestor(all@, q as int, j) == i;
                    assert(j < m + 1);
                }
                if exists|j: nat| j < m + 1 && ancestor(all@, q as int, j) == i {
                    let j = choose|j: nat| j < m + 1 && ancestor(all@, q as int, j) == i;
                    if j < m {
                        assert(seen_set.contains(i));
                    }
                }
            }
        }
        match parent_index_of(all, cursor) {
            None => {
                proof {
                    assert(ancestor(all@, q as int, m + 1) == -1);
                    assert forall|i: int| 0 <= i < all@.len() implies #[trigger] vis@[i] == (old(vis)@[i] || exists|m2: nat|
                        m2 >= 1 && ancestor(all@, q as int, m2) == i) by {
                        if exists|m2: nat| m2 >= 1 && ancestor(all@, q as int, m2) == i {
                            let m2 = choose|m2: nat| m2 >= 1 && ancestor(all@, q as int, m2) == i;
                            if m2 > m {
                                lemma_ancestor_ended(all@, q as int, m + 1, m2);
                            }
                            assert(1 <= m2 <= m);
                        }
                    }
                }
                return;
            },
            Some(p) => {
                vis.set(p, true);
                cursor = p;
                proof {
                    let old_m = m;
                    m = m + 1;
                    assert(ancestor(all@, q as int, m) == p as int);
                    assert forall|i: int| 0 <= i < n implies #[trigger] vis@[i] == (old(vis)@[i] || exists|j: nat|
                        1 <= j <= m && ancestor(all@, q as int, j) == i) by {
                        if i == p as int {
                            assert(ancestor(all@, q as int, m) == i);
                        } else {
                            if exists|j: nat| 1 <= j <= m && ancestor(all@, q as int, j) == i {
                                let j = choose|j: nat| 1 <= j <= m && ancestor(all@, q as int, j) == i;
                                assert(j <= old_m);
                            }
                        }
                    }
                }
            },
        }
    }
}

/// Which processes are in the tree: matches, plus (while searching) every
/// recorded ancestor of a match.
fn tree_visibility(all: &Vec<TreeProcess>, searching: bool) -> (vis: Vec<bool>)
    ensures
        vis@ == Seq::new(all@.len(), |i: int| in_tree(all@, searching, i)),
{
    let n = all.len();
    let mut vis: Vec<bool> = Vec::new();
    let mut k: usize = 0;
    while k < n
        invariant
            k <= n,
            n == all@.len(),
            vis@.len() == k,
            forall|i: int| 0 <= i < k ==> vis@[i] == all@[i].matches,
        decreases n - k,
    {
        vis.push(all[k].matches);
        k = k + 1;
    }
    if searching {
        let mut q: usize = 0;
        while q < n
            invariant
                q <= n,
                n == all@.len(),
                vis@.len() == n,
                forall|i: int|
                    0 <= i < n ==> #[trigger] vis@[i] == (all@[i].matches || exists|q2: int, m: nat|
                        0 <= q2 < q && all@[q2].matches && m >= 1 && ancestor(all@, q2, m) == i),
            decreases n - q,
        {
            if all[q].matches {
                let ghost before = vis@;
                mark_ancestors(all, q, &mut vis);
                proof {
                    assert forall|i: int| 0 <= i < n implies #[trigger] vis@[i] == (all@[i].matches || exists|q2: int, m: nat|
                        0 <= q2 < q + 1 && all@[q2].matches && m >= 1 && ancestor(all@, q2, m) == i) by {
                        if exists|q2: int, m: nat|
                            0 <= q2 < q + 1 && all@[q2].matches && m >= 1 && ancestor(all@, q2, m) == i {
                            let (q2, m) = choose|q2: int, m: nat|
                                0 <= q2 < q + 1 && all@[q2].matches && m >= 1 && ancestor(all@, q2, m) == i;
                            if q2 < q {
                                assert(before[i]);
                            } else {
                                assert(exists|m3: nat| m3 >= 1 && ancestor(all@, q as int, m3) == i);
                            }
                        }
                        if vis@[i] && !all@[i].matches && !before[i] {
                            let m = choose|m: nat| m >= 1 && ancestor(all@, q as int, m) == i;
                            assert(0 <= q < q + 1 && all@[q as int].matches && m >= 1 && ancestor(all@, q as int, m) == i);
                        }
                    }
                }
            } else {
                proof {
                    assert forall|i: int| 0 <= i < n implies #[trigger] vis@[i] == (all@[i].matches || exists|q2: int, m: nat|
                        0 <= q2 < q + 1 && all@[q2].matches && m >= 1 && ancestor(all@, q2, m) == i) by {
                        if exists|q2: int, m: nat|
                            0 <= q2 < q + 1 && all@[q2].matches && m >= 1 && ancestor(all@, q2, m) == i {
                            let (q2, m) = choose|q2: int, m: nat|
                                0 <= q2 < q + 1 && all@[q2].matches && m >= 1 && ancestor(all@, q2, m) == i;
                            assert(q2 < q);
                        }
                    }
                }
            }
            q = q + 1;
        }
    }
    proof {
        assert forall|i: int| 0 <= i < n implies vis@[i] == in_tree(all@, searching, i) by {
            if searching {
                if exists|q2: int, m: nat| 0 <= q2 < n && all@[q2].matches && m >= 1 && #[trigger] ancestor(all@, q2, m) == i {
                    let (q2, m) = choose|q2: int, m: nat| 0 <= q2 < n && all@[q2].matches && m >= 1 && #[trigger] ancestor(all@, q2, m) == i;
                    assert(exists|q3: int, m3: nat| 0 <= q3 < n && all@[q3].matches && m3 >= 1 && ancestor(all@, q3, m3) == i);
                }
            }
        }
    }
    assert(vis@ =~= Seq::new(all@.len(), |i: int| in_tree(all@, searching, i)));
    vis
}

/// Whether `a` was created before `b` (start time, then PID).
fn created_before_exec(a: &TreeProcess, b: &TreeProcess) -> (r: bool)
    ensures
        r == created_before(*a, *b),
{
    let start_lt = match (a.start_epoch_s, b.start_epoch_s) {
        (None, Some(_)) => true,
        (Some(x), Some(y)) => x < y,
        _ => false,
    };
    let same_start = match (a.start_epoch_s, b.start_epoch_s) {
        (None, None) => true,
        (Some(x), Some(y)) => x == y,
        _ => false,
    };
    start_lt || (same_start && a.pid < b.pid)
}

/// Whether `parent` plausibly started no later than `child`.
pub fn is_plausible_parent(parent: &TreeProcess, child: &TreeProcess) -> (r: bool)
    ensures
        r == plausible_parent(*parent, *child),
{
    match (parent.start_epoch_s, child.start_epoch_s) {
        (Some(p), Some(c)) => p <= c,
        _ => true,
    }
}

/// The tree parent of every process (`None` for a tree root or a process
/// outside the tree).
fn tree_parents(all: &Vec<TreeProcess>, vis: &Vec<bool>) -> (ap: Vec<Option<usize>>)
    requires
        vis@.len() == all@.len(),
    ensures
        ap@.len() == all@.len(),
        forall|i: int|
            0 <= i < all@.len() ==> match #[trigger] ap@[i] {
                Some(j) => j as int == tree_parent(all@, vis@, i) && j < all@.len(),
                None => tree_parent(all@, vis@, i) == -1,
            },
{
    let n = all.len();
    let mut ap: Vec<Option<usize>> = Vec::new();
    let mut i: usize = 0;
    while i < n
        invariant
            i <= n,
            n == all@.len(),
            vis@.len() == n,
            ap@.len() == i,
            forall|k: int|
                0 <= k < i ==> match #[trigger] ap@[k] {
                    Some(j) => j as int == tree_parent(all@, vis@, k) && j < all@.len(),
                    None => tree_parent(all@, vis@, k) == -1,
                },
        decreases n - i,
    {
        let link = match parent_index_of(all, i) {
            Some(j) => {
                if vis[i] && j != i && vis[j] && is_plausible_parent(&all[j], &all[i]) {
                    Some(j)
                } else {
                    None
                }
            },
            None => None,
        };
        ap.push(link);
        i = i + 1;
    }
    ap
}

/// The processes whose tree parent is `j`, in index order.
fn children_in_order(ap: &Vec<Option<usize>>, j: usize, Ghost(all): Ghost<Seq<TreeProcess>>, Ghost(vis): Ghost<Seq<bool>>) -> (kids: Vec<usize>)
    requires
        ap@.len() == all.len(),
        vis.len() == all.len(),
        forall|i: int|
            0 <= i < all.len() ==> match #[trigger] ap@[i] {
                Some(p) => p as int == tree_parent(all, vis, i) && p < all.len(),
                None => tree_parent(all, vis, i) == -1,
            },
    ensures
        kids@ == children_upto(all, vis, j as int, all.len() as nat),
{
    let mut kids: Vec<usize> = Vec::new();
    let mut i: usize = 0;
    while i < ap.len()
        invariant
            i <= ap@.len(),
            ap@.len() == all.len(),
            forall|k: int|
                0 <= k < all.len() ==> match #[trigger] ap@[k] {
                    Some(p) => p as int == tree_parent(all, vis, k) && p < all.len(),
                    None => tree_parent(all, vis, k) == -1,
                },
            kids@ == children_upto(all, vis, j as int, i as nat),
        decreases ap@.len() - i,
    {
        let hit = match ap[i] {
            Some(p) => p == j,
            None => false,
        };
        if hit {
            kids.push(i);
        }
        i = i + 1;
    }
    kids
}

proof fn lemma_insert_created_at(all: Seq<TreeProcess>, s: Seq<usize>, x: usize, p: int)
    requires
        0 <= p <= s.len(),
        forall|k: int| 0 <= k < p ==> !created_before(all[x as int], all[#[trigger] s[k] as int]),
        p < s.len() ==> created_before(all[x as int], all[s[p] as int]),
    ensures
        insert_created(all, s, x) == s.subrange(0, p) + seq![x] + s.subrange(p, s.len() as int),
    decreases s.len(),
{
    if s.len() == 0 {
        assert(s.subrange(0, p) + seq![x] + s.subrange(p, s.len() as int) =~= seq![x]);
    } else if p == 0 {
        assert(s.subrange(0, p) + seq![x] + s.subrange(p, s.len() as int) =~= seq![x] + s);
    } else {
        assert(!created_before(all[x as int], all[s[0] as int]));
        let t = s.drop_first();
        assert forall|k: int| 0 <= k < p - 1 implies !created_before(all[x as int], all[#[trigger] t[k] as int]) by {
            assert(t[k] == s[k + 1]);
        }
        lemma_insert_created_at(all, t, x, p - 1);
        assert(seq![s[0]] + (t.subrange(0, p - 1) + seq![x] + t.subrange(p - 1, t.len() as int))
            =~= s.subrange(0, p) + seq![x] + s.subrange(p, s.len() as int));
    }
}

/// `s` in creation order.
fn sort_by_creation(all: &Vec<TreeProcess>, s: &Vec<usize>) -> (sorted: Vec<usize>)
    requires
        forall|k: int| 0 <= k < s@.len() ==> #[trigger] s@[k] < all@.len(),
    ensures
        sorted@ == sort_created(all@, s@),
{
    let mut sorted: Vec<usize> = Vec::new();
    let mut k: usize = 0;
    while k < s.len()
        invariant
            k <= s@.len(),
            forall|i: int| 0 <= i < s@.len() ==> #[trigger] s@[i] < all@.len(),
            sorted@ == sort_created(all@, s@.subrange(0, k as int)),
            forall|i: int| 0 <= i < sorted@.len() ==> #[trigger] sorted@[i] < all@.len(),
        decreases s@.len() - k,
    {
        let x = s[k];
        let mut p: usize = 0;
        while p < sorted.len() && !created_before_exec(&all[x], &all[sorted[p]])
            invariant
                p <= sorted@.len(),
                x < all@.len(),
                forall|i: int| 0 <= i < sorted@.len() ==> #[trigger] sorted@[i] < all@.len(),
                forall|i: int| 0 <= i < p ==> !created_before(all@[x as int], all@[#[trigger] sorted@[i] as int]),
            decreases sorted@.len() - p,
        {
            p = p + 1;
        }
        proof {
            lemma_insert_created_at(all@, sorted@, x, p as int);
            assert(s@.subrange(0, k + 1).drop_last() =~= s@.subrange(0, k as int));
        }
        let ghost before = sorted@;
        sorted.insert(p, x);
        proof {
            assert(sorted@ =~= before.subrange(0, p as int) + seq![x] + before.subrange(
                p as int,
                before.len() as int,
            ));
        }
        k = k + 1;
    }
    assert(s@.subrange(0, s@.len() as int) =~= s@);
    sorted
}

/// The indices a list of roots stands for.
pub open spec fn root_set(roots: Seq<usize>) -> Set<int> {
    roots.to_set().map(|r: usize| r as int)
}

proof fn lemma_root_set_contains(roots: Seq<usize>, k: int)
    ensures
        root_set(roots).contains(k) <==> exists|j: int| 0 <= j < roots.len() && roots[j] as int == k,
{
    if root_set(roots).contains(k) {
        let r = choose|r: usize| roots.to_set().contains(r) && r as int == k;
        assert(roots.contains(r));
    }
    if exists|j: int| 0 <= j < roots.len() && roots[j] as int == k {
        let j = choose|j: int| 0 <= j < roots.len() && roots[j] as int == k;
        assert(roots.to_set().contains(roots[j]));
    }
}

proof fn lemma_tree_ancestor_ended(all: Seq<TreeProcess>, vis: Seq<bool>, x: int, m: nat, n: nat)
    requires
        tree_ancestor(all, vis, x, m) < 0,
        n >= m,
    ensures
        tree_ancestor(all, vis, x, n) < 0,
    decreases n,
{
    if n > m {
        lemma_tree_ancestor_ended(all, vis, x, m, (n - 1) as nat);
    }
}

/// Whether one of the first `all.len()` tree ancestors of `x` (itself
/// included) is marked in `is_root`.
fn covered(
    ap: &Vec<Option<usize>>,
    is_root: &Vec<bool>,
    x: usize,
    Ghost(all): Ghost<Seq<TreeProcess>>,
    Ghost(vis): Ghost<Seq<bool>>,
    Ghost(known): Ghost<Set<int>>,
) -> (b: bool)
    requires
        ap@.len() == all.len(),
        vis.len() == all.len(),
        forall|i: int|
            0 <= i < all.len() ==> match #[trigger] ap@[i] {
                Some(p) => p as int == tree_parent(all, vis, i) && p < all.len(),
                None => tree_parent(all, vis, i) == -1,
            },
        is_root@.len() == all.len(),
        forall|i: int| 0 <= i < all.len() ==> (#[trigger] is_root@[i] <==> known.contains(i)),
        forall|i: int| #[trigger] known.contains(i) ==> 0 <= i < all.len(),
        x < all.len(),
    ensures
        b == covered_by(all, vis, known, x as int),
{
    let n = ap.len();
    let mut cursor: usize = x;
    let mut steps: usize = 0;
    loop
        invariant
            n == all.len(),
            ap@.len() == all.len(),
            vis.len() == all.len(),
            forall|i: int|
                0 <= i < all.len() ==> match #[trigger] ap@[i] {
                    Some(p) => p as int == tree_parent(all, vis, i) && p < all.len(),
                    None => tree_parent(all, vis, i) == -1,
                },
            is_root@.len() == all.len(),
            forall|i: int| 0 <= i < all.len() ==> (#[trigger] is_root@[i] <==> known.contains(i)),
            forall|i: int| #[trigger] known.contains(i) ==> 0 <= i < all.len(),
            steps <= n,
            cursor < n,
            cursor as int == tree_ancestor(all, vis, x as int, steps as nat),
            forall|k: nat| k < steps ==> !known.contains(#[trigger] tree_ancestor(all, vis, x as int, k)),
        decreases n - steps,
    {
        if is_root[cursor] {
            return true;
        }
        if steps == n {
            proof {
                assert forall|k: nat| k <= all.len() implies !known.contains(#[trigger] tree_ancestor(all, vis, x as int, k)) by {
                    if k == steps {
                    }
                }
            }
            return false;
        }
        match ap[cursor] {
            Some(p) => {
                cursor = p;
                steps = steps + 1;
            },
            None => {
                proof {
                    assert(tree_ancestor(all, vis, x as int, (steps + 1) as nat) == -1);
                    assert forall|k: nat| k <= all.len() implies !known.contains(#[trigger] tree_ancestor(all, vis, x as int, k)) by {
                        if k > steps {
                            lemma_tree_ancestor_ended(all, vis, x as int, (steps + 1) as nat, k);
                        }
                    }
                }
                return false;
            },
        }
    }
}

/// The tree roots, in creation order.
fn find_roots(all: &Vec<TreeProcess>, vis: &Vec<bool>, ap: &Vec<Option<usize>>) -> (roots: Vec<usize>)
    requires
        vis@.len() == all@.len(),
        ap@.len() == all@.len(),
        forall|i: int|
            0 <= i < all@.len() ==> match #[trigger] ap@[i] {
                Some(p) => p as int == tree_parent(all@, vis@, i) && p < all@.len(),
                None => tree_parent(all@, vis@, i) == -1,
            },
    ensures
        roots@ == tree_roots(all@, vis@),
        forall|k: int| 0 <= k < roots@.len() ==> #[trigger] roots@[k] < all@.len(),
{
    let n = all.len();
    let mut is_root: Vec<bool> = Vec::new();
    let mut k: usize = 0;
    while k < n
        invariant
            k <= n,
            is_root@.len() == k,
            forall|j: int| 0 <= j < k ==> !is_root@[j],
        decreases n - k,
    {
        is_root.push(false);
        k = k + 1;
    }
    let mut roots: Vec<usize> = Vec::new();
    let mut i: usize = 0;
    while i < n
        invariant
            i <= n,
            n == all@.len(),
            vis@.len() == n,
            ap@.len() == n,
            forall|j: int|
                0 <= j < all@.len() ==> match #[trigger] ap@[j] {
                    Some(p) => p as int == tree_parent(all@, vis@, j) && p < all@.len(),
                    None => tree_parent(all@, vis@, j) == -1,
                },
            is_root@.len() == n,
            roots@ == roots_upto(all@, vis@, i as nat),
            forall|j: int| 0 <= j < roots@.len() ==> #[trigger] roots@[j] < i,
            forall|j: int| 0 <= j < n ==> (#[trigger] is_root@[j] <==> root_set(roots@).contains(j)),
        decreases n - i,
    {
        let parentless = match ap[i] {
            Some(_) => false,
            None => true,
        };
        let ghost before = roots@;
        if vis[i] && parentless {
            roots.push(i);
            is_root.set(i, true);
        }
        proof {
            assert forall|j: int| 0 <= j < n implies (#[trigger] is_root@[j] <==> root_set(roots@).contains(j)) by {
                lemma_root_set_contains(roots@, j);
                lemma_root_set_contains(before, j);
                if roots@.len() > before.len() && j == i as int {
                    assert(roots@[before.len() as int] as int == j);
                }
                if roots@.len() > before.len() {
                    assert forall|jj: int| 0 <= jj < before.len() implies roots@[jj] == before[jj] by {}
                }
            }
        }
        i = i + 1;
    }
    let ghost base = roots@;
    let mut reps: Vec<usize> = Vec::new();
    let mut i: usize = 0;
    while i < n
        invariant
            i <= n,
            n == all@.len(),
            vis@.len() == n,
            ap@.len() == n,
            forall|j: int|
                0 <= j < all@.len() ==> match #[trigger] ap@[j] {
                    Some(p) => p as int == tree_parent(all@, vis@, j) && p < all@.len(),
                    None => tree_parent(all@, vis@, j) == -1,
                },
            is_root@.len() == n,
            base == roots_upto(all@, vis@, all@.len() as nat),
            roots@ == base,
            forall|j: int| 0 <= j < base.len() ==> #[trigger] base[j] < n,
            reps@ == cycle_roots_upto(all@, vis@, i as nat),
            forall|j: int| 0 <= j < reps@.len() ==> #[trigger] reps@[j] < i,
            forall|j: int| 0 <= j < n ==> (#[trigger] is_root@[j] <==> root_set(base + reps@).contains(j)),
        decreases n - i,
    {
        proof {
            assert forall|j: int| #[trigger] root_set(base + reps@).contains(j) implies 0 <= j < all@.len() by {
                lemma_root_set_contains(base + reps@, j);
                let w = choose|w: int| 0 <= w < (base + reps@).len() && (base + reps@)[w] as int == j;
                if w < base.len() {
                    assert((base + reps@)[w] == base[w]);
                } else {
                    assert((base + reps@)[w] == reps@[w - base.len()]);
                }
            }
        }
        let ghost before = reps@;
        if vis[i] && !covered(ap, &is_root, i, Ghost(all@), Ghost(vis@), Ghost(root_set(base + reps@))) {
            reps.push(i);
            is_root.set(i, true);
        }
        proof {
            assert forall|j: int| 0 <= j < n implies (#[trigger] is_root@[j] <==> root_set(base + reps@).contains(j)) by {
                lemma_root_set_contains(base + reps@, j);
                lemma_root_set_contains(base + before, j);
                if reps@.len() > before.len() {
                    assert(base + reps@ =~= (base + before).push(i));
                    if j == i as int {
                        assert((base + reps@)[(base + before).len() as int] as int == j);
                    }
                    assert forall|jj: int| 0 <= jj < (base + before).len() implies (base + reps@)[jj] == (base + before)[jj] by {}
                } else {
                    assert(base + reps@ =~= base + before);
                }
            }
        }
        i = i + 1;
    }
    let mut candidates = roots;
    let mut k: usize = 0;
    while k < reps.len()
        invariant
            k <= reps@.len(),
            candidates@ == base + reps@.subrange(0, k as int),
            forall|j: int| 0 <= j < base.len() ==> #[trigger] base[j] < n,
            forall|j: int| 0 <= j < reps@.len() ==> #[trigger] reps@[j] < n,
            n == all@.len(),
        decreases reps@.len() - k,
    {
        candidates.push(reps[k]);
        k = k + 1;
        assert(candidates@ =~= base + reps@.subrange(0, k as int));
    }
    assert(reps@.subrange(0, reps@.len() as int) =~= reps@);
    assert forall|j: int| 0 <= j < candidates@.len() implies #[trigger] candidates@[j] < all@.len() by {
        if j < base.len() {
            assert(candidates@[j] == base[j]);
        } else {
            assert(candidates@[j] == reps@[j - base.len()]);
        }
    }
    let sorted = sort_by_creation(all, &candidates);
    proof {
        lemma_sort_created_members(all@, candidates@);
    }
    sorted
}

proof fn lemma_insert_created_members(all: Seq<TreeProcess>, s: Seq<usize>, x: usize)
    ensures
        forall|k: int| 0 <= k < insert_created(all, s, x).len() ==> (#[trigger] insert_created(all, s, x)[k] == x || s.contains(insert_created(all, s, x)[k])),
        insert_created(all, s, x).len() == s.len() + 1,
    decreases s.len(),
{
    if s.len() > 0 && !created_before(all[x as int], all[s[0] as int]) {
        lemma_insert_created_members(all, s.drop_first(), x);
        let r = insert_created(all, s, x);
        assert forall|k: int| 0 <= k < r.len() implies (#[trigger] r[k] == x || s.contains(r[k])) by {
            if k == 0 {
                assert(r[0] == s[0]);
            } else {
                let t = insert_created(all, s.drop_first(), x);
                assert(r[k] == t[k - 1]);
                if t[k - 1] != x {
                    let w = choose|w: int| 0 <= w < s.drop_first().len() && s.drop_first()[w] == t[k - 1];
                    assert(s[w + 1] == t[k - 1]);
                }
            }
        }
    } else if s.len() > 0 {
        let r = insert_created(all, s, x);
        assert forall|k: int| 0 <= k < r.len() implies (#[trigger] r[k] == x || s.contains(r[k])) by {
            if k > 0 {
                assert(r[k] == s[k - 1]);
            }
        }
    }
}

/// Sorting keeps only entries of the input and its length.
pub proof fn lemma_sort_created_members(all: Seq<TreeProcess>, s: Seq<usize>)
    ensures
        forall|k: int| 0 <= k < sort_created(all, s).len() ==> s.contains(#[trigger] sort_created(all, s)[k]),
        sort_created(all, s).len() == s.len(),
    decreases s.len(),
{
    if s.len() > 0 {
        lemma_sort_created_members(all, s.drop_last());
        let prev = sort_created(all, s.drop_last());
        lemma_insert_created_members(all, prev, s.last());
        let r = sort_created(all, s);
        assert forall|k: int| 0 <= k < r.len() implies s.contains(#[trigger] r[k]) by {
            if r[k] == s.last() {
                assert(s[s.len() - 1] == r[k]);
            } else {
                assert(prev.contains(r[k]));
                let w = choose|w: int| 0 <= w < prev.len() && prev[w] == r[k];
                assert(s.drop_last().contains(prev[w]));
                let v = choose|v: int| 0 <= v < s.drop_last().len() && s.drop_last()[v] == r[k];
                assert(s[v] == r[k]);
            }
        }
    }
}

/// The tree children of every process, in creation order.
fn all_children(all: &Vec<TreeProcess>, vis: &Vec<bool>, ap: &Vec<Option<usize>>) -> (children: Vec<Vec<usize>>)
    requires
        vis@.len() == all@.len(),
        ap@.len() == all@.len(),
        forall|i: int|
            0 <= i < all@.len() ==> match #[trigger] ap@[i] {
                Some(p) => p as int == tree_parent(all@, vis@, i) && p < all@.len(),
                None => tree_parent(all@, vis@, i) == -1,
            },
    ensures
        children@.len() == all@.len(),
        forall|j: int| 0 <= j < all@.len() ==> (#[trigger] children@[j])@ == tree_children(all@, vis@, j),
{
    let n = all.len();
    let mut children: Vec<Vec<usize>> = Vec::new();
    let mut j: usize = 0;
    while j < n
        invariant
            j <= n,
            n == all@.len(),
            vis@.len() == n,
            ap@.len() == n,
            forall|i: int|
                0 <= i < all@.len() ==> match #[trigger] ap@[i] {
                    Some(p) => p as int == tree_parent(all@, vis@, i) && p < all@.len(),
                    None => tree_parent(all@, vis@, i) == -1,
                },
            children@.len() == j,
            forall|k: int| 0 <= k < j ==> (#[trigger] children@[k])@ == tree_children(all@, vis@, k),
        decreases n - j,
    {
        let kids = children_in_order(ap, j, Ghost(all@), Ghost(vis@));
        proof {
            lemma_children_upto_range(all@, vis@, j as int, all@.len() as nat);
        }
        let sorted = sort_by_creation(all, &kids);
        children.push(sorted);
        j = j + 1;
    }
    children
}

proof fn lemma_children_upto_range(all: Seq<TreeProcess>, vis: Seq<bool>, j: int, upto: nat)
    requires
        upto <= all.len(),
    ensures
        forall|k: int| 0 <= k < children_upto(all, vis, j, upto).len() ==> #[trigger] children_upto(all, vis, j, upto)[k] < upto,
    decreases upto,
{
    if upto > 0 {
        lemma_children_upto_range(all, vis, j, (upto - 1) as nat);
        let prev = children_upto(all, vis, j, (upto - 1) as nat);
        let cur = children_upto(all, vis, j, upto);
        assert forall|k: int| 0 <= k < cur.len() implies #[trigger] cur[k] < upto by {
            if k < prev.len() {
                assert(cur[k] == prev[k]);
            }
        }
    }
}

/// The entries of `s` not marked in `visited`.
fn unvisited_exec(s: &Vec<usize>, visited: &Vec<bool>, Ghost(vset): Ghost<Set<int>>) -> (kept: Vec<usize>)
    requires
        forall|k: int| 0 <= k < s@.len() ==> #[trigger] s@[k] < visited@.len(),
        forall|i: int| 0 <= i < visited@.len() ==> (#[trigger] visited@[i] <==> vset.contains(i)),
    ensures
        kept@ == unvisited(s@, vset),
{
    let mut kept: Vec<usize> = Vec::new();
    let mut k: usize = 0;
    while k < s.len()
        invariant
            k <= s@.len(),
            forall|j: int| 0 <= j < s@.len() ==> #[trigger] s@[j] < visited@.len(),
            forall|i: int| 0 <= i < visited@.len() ==> (#[trigger] visited@[i] <==> vset.contains(i)),
            kept@ == unvisited(s@.subrange(0, k as int), vset),
        decreases s@.len() - k,
    {
        proof {
            assert(s@.subrange(0, k + 1).drop_last() =~= s@.subrange(0, k as int));
        }
        if !visited[s[k]] {
            kept.push(s[k]);
        }
        k = k + 1;
    }
    assert(s@.subrange(0, s@.len() as int) =~= s@);
    kept
}

proof fn lemma_unvisited_range(s: Seq<usize>, vset: Set<int>, n: int)
    requires
        forall|k: int| 0 <= k < s.len() ==> #[trigger] s[k] < n,
    ensures
        forall|k: int| 0 <= k < unvisited(s, vset).len() ==> #[trigger] unvisited(s, vset)[k] < n,
    decreases s.len(),
{
    if s.len() > 0 {
        assert forall|k: int| 0 <= k < s.drop_last().len() implies #[trigger] s.drop_last()[k] < n by {
            assert(s.drop_last()[k] == s[k]);
        }
        lemma_unvisited_range(s.drop_last(), vset, n);
        let prev = unvisited(s.drop_last(), vset);
        let cur = unvisited(s, vset);
        assert forall|k: int| 0 <= k < cur.len() implies #[trigger] cur[k] < n by {
            if k < prev.len() {
                assert(cur[k] == prev[k]);
            } else {
                assert(cur[k] == s[s.len() - 1]);
            }
        }
    }
}

proof fn lemma_stack_entries_step(nodes: Seq<usize>, depth: usize, k: int)
    requires
        0 <= k < nodes.len(),
    ensures
        stack_entries(nodes.subrange(k, nodes.len() as int), depth) == stack_entries(
            nodes.subrange(k + 1, nodes.len() as int),
            depth,
        ) + seq![(nodes[k], depth)],
{
    assert(nodes.subrange(k, nodes.len() as int).drop_first() =~= nodes.subrange(k + 1, nodes.len() as int));
}

/// Push `nodes` onto `stack` at `depth`, first node on top.
pub(crate) fn push_entries(stack: &mut Vec<(usize, usize)>, nodes: &Vec<usize>, depth: usize)
    ensures
        final(stack)@ == old(stack)@ + stack_entries(nodes@, depth),
{
    let mut k: usize = nodes.len();
    assert(nodes@.subrange(nodes@.len() as int, nodes@.len() as int) =~= Seq::<usize>::empty());
    assert(old(stack)@ + stack_entries(Seq::<usize>::empty(), depth) =~= old(stack)@);
    while k > 0
        invariant
            k <= nodes@.len(),
            stack@ == old(stack)@ + stack_entries(nodes@.subrange(k as int, nodes@.len() as int), depth),
        decreases k,
    {
        proof {
            lemma_stack_entries_step(nodes@, depth, k - 1);
        }
        stack.push((nodes[k - 1], depth));
        k = k - 1;
        assert(stack@ =~= old(stack)@ + stack_entries(nodes@.subrange(k as int, nodes@.len() as int), depth));
    }
    assert(nodes@.subrange(0, nodes@.len() as int) =~= nodes@);
}

pub(crate) proof fn lemma_stack_entries_shape(nodes: Seq<usize>, depth: usize)
    ensures
        stack_entries(nodes, depth).len() == nodes.len(),
        forall|k: int| 0 <= k < nodes.len() ==> #[trigger] stack_entries(nodes, depth)[k] == (nodes[nodes.len() - 1 - k], depth),
    decreases nodes.len(),
{
    if nodes.len() > 0 {
        lemma_stack_entries_shape(nodes.drop_first(), depth);
        let e = stack_entries(nodes, depth);
        assert forall|k: int| 0 <= k < nodes.len() implies #[trigger] e[k] == (nodes[nodes.len() - 1 - k], depth) by {
            if k < nodes.len() - 1 {
                assert(e[k] == stack_entries(nodes.drop_first(), depth)[k]);
                assert(nodes.drop_first()[nodes.drop_first().len() - 1 - k] == nodes[nodes.len() - 1 - k]);
            }
        }
    }
}

/// Rows of the literal parent/child tree: every non-synthetic process in
/// the tree (matches, plus their ancestors while `searching`), each once,
/// in preorder from the roots in creation order, children in creation
/// order one level deeper, and nothing under a collapsed process unless
/// searching.
pub fn build_tree(processes: &[TreeProcess], searching: bool, collapsed: &HashSet<u32>) -> (rows: Vec<TreeRow>)
    ensures
        ({
            let all = tree_members(processes@);
            let vis = Seq::new(all.len(), |i: int| in_tree(all, searching, i));
            rows@ == walk(
                all,
                vis,
                searching,
                collapsed@,
                stack_entries(tree_roots(all, vis), 0),
                Set::empty(),
            )
        }),
{
    let all = collect_members(processes);
    let n = all.len();
    let vis = tree_visibility(&all, searching);
    let ap = tree_parents(&all, &vis);
    let children = all_children(&all, &vis, &ap);
    let roots = find_roots(&all, &vis, &ap);
    let ghost range = vstd::set_lib::set_int_range(0, n as int);
    proof {
        vstd::set_lib::lemma_int_range(0, n as int);
    }
    let mut stack: Vec<(usize, usize)> = Vec::new();
    push_entries(&mut stack, &roots, 0);
    assert(stack@ =~= stack_entries(roots@, 0));
    proof {
        lemma_stack_entries_shape(roots@, 0);
    }
    let mut visited: Vec<bool> = Vec::new();
    let mut k: usize = 0;
    while k < n
        invariant
            k <= n,
            visited@.len() == k,
            forall|j: int| 0 <= j < k ==> !visited@[j],
        decreases n - k,
    {
        visited.push(false);
        k = k + 1;
    }
    let ghost mut vset: Set<int> = Set::empty();
    let ghost init = stack@;
    let mut rows: Vec<TreeRow> = Vec::new();
    assert(Set::<int>::empty().subset_of(Set::new(|x: int| 0 <= x < all@.len())));
    while stack.len() > 0
        invariant
            n == all@.len(),
            vis@ == Seq::new(all@.len(), |i: int| in_tree(all@, searching, i)),
            children@.len() == n,
            forall|j: int| 0 <= j < n ==> (#[trigger] children@[j])@ == tree_children(all@, vis@, j),
            range == vstd::set_lib::set_int_range(0, n as int),
            range.finite(),
            range.len() == n,
            range =~= Set::new(|x: int| 0 <= x < all@.len()),
            visited@.len() == n,
            vset.finite(),
            vset.subset_of(range),
            forall|i: int| 0 <= i < n ==> (#[trigger] visited@[i] <==> vset.contains(i)),
            forall|e: int| 0 <= e < stack@.len() ==> (#[trigger] stack@[e]).0 < n && stack@[e].1 <= vset.len(),
            rows@ + walk(all@, vis@, searching, collapsed@, stack@, vset) == walk(
                all@,
                vis@,
                searching,
                collapsed@,
                init,
                Set::empty(),
            ),
        decreases n - vset.len(), stack@.len(),
    {
        proof {
            vstd::set_lib::lemma_len_subset(vset, range);
        }
        let ghost before_stack = stack@;
        let (x, d) = match stack.pop() {
            Some(e) => e,
            None => return rows,
        };
        proof {
            assert(stack@ == before_stack.drop_last());
            assert((x, d) == before_stack.last());
        }
        if visited[x] {
            continue;
        }
        visited.set(x, true);
        let ghost old_vset = vset;
        proof {
            vset = vset.insert(x as int);
            assert(vset.len() == old_vset.len() + 1);
            vstd::set_lib::lemma_len_subset(vset, range);
            lemma_children_sorted_range(all@, vis@, x as int);
        }
        let kids = unvisited_exec(&children[x], &visited, Ghost(vset));
        proof {
            lemma_unvisited_range(children@[x as int]@, vset, n as int);
        }
        rows.push(TreeRow { pid: all[x].pid, depth: d, children: kids.len() > 0 });
        let ghost rows_before = rows@;
        if kids.len() > 0 && (!collapsed.contains(&all[x].pid) || searching) {
            push_entries(&mut stack, &kids, d + 1);
            proof {
                lemma_stack_entries_shape(kids@, (d + 1) as usize);
            }
        }
        proof {
            let e = stack@;
            assert forall|i: int| 0 <= i < e.len() implies (#[trigger] e[i]).0 < n && e[i].1 <= vset.len() by {
                if i >= before_stack.len() - 1 {
                    let k2 = i - (before_stack.len() - 1);
                    assert(e[i] == stack_entries(kids@, (d + 1) as usize)[k2]);
                } else {
                    assert(e[i] == before_stack[i]);
                }
            }
        }
    }
    rows
}

proof fn lemma_children_sorted_range(all: Seq<TreeProcess>, vis: Seq<bool>, x: int)
    ensures
        forall|k: int| 0 <= k < tree_children(all, vis, x).len() ==> #[trigger] tree_children(all, vis, x)[k] < all.len(),
{
    lemma_children_upto_range(all, vis, x, all.len() as nat);
    let c = children_upto(all, vis, x, all.len() as nat);
    lemma_sort_created_members(all, c);
    assert forall|k: int| 0 <= k < tree_children(all, vis, x).len() implies #[trigger] tree_children(all, vis, x)[k] < all.len() by {
        let v = tree_children(all, vis, x)[k];
        assert(c.contains(v));
        let w = choose|w: int| 0 <= w < c.len() && c[w] == v;
    }
}

/// The tree of `ps`: its processes and which of them are in the tree.
pub open spec fn tree_of(ps: Seq<TreeProcess>, searching: bool) -> (Seq<TreeProcess>, Seq<bool>) {
    let all = tree_members(ps);
    (all, Seq::new(all.len(), |i: int| in_tree(all, searching, i)))
}

/// The rows [`build_tree`] produces for `ps`.
pub open spec fn spec_tree_rows(ps: Seq<TreeProcess>, searching: bool, collapsed: Set<u32>) -> Seq<TreeRow> {
    let (all, vis) = tree_of(ps, searching);
    walk(all, vis, searching, collapsed, stack_entries(tree_roots(all, vis), 0), Set::empty())
}

/// The stack holds only tree processes.
pub open spec fn stack_in_tree(all: Seq<TreeProcess>, vis: Seq<bool>, stack: Seq<(usize, usize)>) -> bool {
    forall|e: int| 0 <= e < stack.len() ==> (#[trigger] stack[e]).0 < all.len() && vis[stack[e].0 as int]
}

proof fn lemma_unvisited_members(s: Seq<usize>, vset: Set<int>)
    ensures
        forall|k: int| 0 <= k < unvisited(s, vset).len() ==> s.contains(#[trigger] unvisited(s, vset)[k]) && !vset.contains(unvisited(s, vset)[k] as int),
        forall|y: usize| s.contains(y) && !vset.contains(y as int) ==> #[trigger] unvisited(s, vset).contains(y),
    decreases s.len(),
{
    if s.len() > 0 {
        lemma_unvisited_members(s.drop_last(), vset);
        let prev = unvisited(s.drop_last(), vset);
        let cur = unvisited(s, vset);
        assert forall|k: int| 0 <= k < cur.len() implies s.contains(#[trigger] cur[k]) && !vset.contains(cur[k] as int) by {
            if k < prev.len() {
                assert(cur[k] == prev[k]);
                let w = choose|w: int| 0 <= w < s.drop_last().len() && s.drop_last()[w] == prev[k];
                assert(s[w] == prev[k]);
            } else {
                assert(cur[k] == s[s.len() - 1]);
            }
        }
        assert forall|y: usize| s.contains(y) && !vset.contains(y as int) implies #[trigger] cur.contains(y) by {
            let w = choose|w: int| 0 <= w < s.len() && s[w] == y;
            if w < s.len() - 1 {
                assert(s.drop_last()[w] == y);
                assert(s.drop_last().contains(y));
                assert(prev.contains(y));
                let v = choose|v: int| 0 <= v < prev.len() && prev[v] == y;
                assert(cur[v] == y);
            } else {
                assert(s.last() == y);
                assert(cur == prev.push(y));
                assert(cur[cur.len() - 1] == y);
            }
        }
    }
}

proof fn lemma_stack_entries_contains(nodes: Seq<usize>, depth: usize, y: usize)
    requires
        nodes.contains(y),
    ensures
        exists|e: int| 0 <= e < stack_entries(nodes, depth).len() && (#[trigger] stack_entries(nodes, depth)[e]).0 == y,
{
    lemma_stack_entries_shape(nodes, depth);
    let w = choose|w: int| 0 <= w < nodes.len() && nodes[w] == y;
    let e = nodes.len() - 1 - w;
    assert(stack_entries(nodes, depth)[e].0 == y);
}

proof fn lemma_children_membership(all: Seq<TreeProcess>, vis: Seq<bool>, j: int, upto: nat)
    requires
        all.len() <= usize::MAX,
        upto <= all.len(),
    ensures
        forall|y: usize| #[trigger] children_upto(all, vis, j, upto).contains(y) <==> (y < upto && tree_parent(all, vis, y as int) == j),
    decreases upto,
{
    if upto > 0 {
        lemma_children_membership(all, vis, j, (upto - 1) as nat);
        let prev = children_upto(all, vis, j, (upto - 1) as nat);
        let cur = children_upto(all, vis, j, upto);
        assert forall|y: usize| #[trigger] cur.contains(y) <==> (y < upto && tree_parent(all, vis, y as int) == j) by {
            let i = upto - 1;
            if tree_parent(all, vis, i) == j {
                assert(cur == prev.push(i as usize));
            } else {
                assert(cur == prev);
            }
            if cur.contains(y) {
                let w = choose|w: int| 0 <= w < cur.len() && cur[w] == y;
                if w < prev.len() {
                    assert(prev[w] == y);
                    assert(prev.contains(y));
                } else {
                    assert(y == i);
                }
            }
            if y < upto && tree_parent(all, vis, y as int) == j {
                if y < upto - 1 {
                    assert(prev.contains(y));
                    let w = choose|w: int| 0 <= w < prev.len() && prev[w] == y;
                    assert(cur[w] == y);
                } else {
                    assert(cur[cur.len() - 1] == y);
                }
            }
        }
    }
}

proof fn lemma_insert_created_keeps(all: Seq<TreeProcess>, s: Seq<usize>, x: usize)
    ensures
        insert_created(all, s, x).contains(x),
        forall|y: usize| #[trigger] s.contains(y) ==> insert_created(all, s, x).contains(y),
    decreases s.len(),
{
    let r = insert_created(all, s, x);
    if s.len() == 0 {
        assert(r[0] == x);
    } else if created_before(all[x as int], all[s[0] as int]) {
        assert(r[0] == x);
        assert forall|y: usize| #[trigger] s.contains(y) implies r.contains(y) by {
            let w = choose|w: int| 0 <= w < s.len() && s[w] == y;
            assert(r[w + 1] == y);
        }
    } else {
        let t = s.drop_first();
        lemma_insert_created_keeps(all, t, x);
        let rt = insert_created(all, t, x);
        let w = choose|w: int| 0 <= w < rt.len() && rt[w] == x;
        assert(r[w + 1] == x);
        assert forall|y: usize| #[trigger] s.contains(y) implies r.contains(y) by {
            let w2 = choose|w2: int| 0 <= w2 < s.len() && s[w2] == y;
            if w2 == 0 {
                assert(r[0] == y);
            } else {
                assert(t[w2 - 1] == y);
                assert(t.contains(y));
                let v = choose|v: int| 0 <= v < rt.len() && rt[v] == y;
                assert(r[v + 1] == y);
            }
        }
    }
}

/// Sorting keeps every entry of the input.
pub proof fn lemma_sort_created_keeps(all: Seq<TreeProcess>, s: Seq<usize>)
    ensures
        forall|y: usize| #[trigger] s.contains(y) ==> sort_created(all, s).contains(y),
    decreases s.len(),
{
    if s.len() > 0 {
        lemma_sort_created_keeps(all, s.drop_last());
        let prev = sort_created(all, s.drop_last());
        lemma_insert_created_keeps(all, prev, s.last());
        assert forall|y: usize| #[trigger] s.contains(y) implies sort_created(all, s).contains(y) by {
            let w = choose|w: int| 0 <= w < s.len() && s[w] == y;
            if w < s.len() - 1 {
                assert(s.drop_last()[w] == y);
                assert(s.drop_last().contains(y));
                assert(prev.contains(y));
            }
        }
    }
}

/// `y` is a tree child of `x` exactly when its tree parent is `x`.
pub proof fn lemma_tree_children_are_children(all: Seq<TreeProcess>, vis: Seq<bool>, x: int, y: usize)
    requires
        all.len() <= usize::MAX,
    ensures
        tree_children(all, vis, x).contains(y) <==> (y < all.len() && tree_parent(all, vis, y as int) == x),
{
    let c = children_upto(all, vis, x, all.len() as nat);
    lemma_children_membership(all, vis, x, all.len() as nat);
    lemma_sort_created_members(all, c);
    lemma_sort_created_keeps(all, c);
    if tree_children(all, vis, x).contains(y) {
        let w = choose|w: int| 0 <= w < tree_children(all, vis, x).len() && tree_children(all, vis, x)[w] == y;
        assert(c.contains(tree_children(all, vis, x)[w]));
        assert(c.contains(y));
    }
    if y < all.len() && tree_parent(all, vis, y as int) == x {
        assert(c.contains(y));
    }
}

/// Rows of a walk come from distinct tree processes not visited before.
proof fn lemma_walk_rows(
    all: Seq<TreeProcess>,
    vis: Seq<bool>,
    searching: bool,
    collapsed: Set<u32>,
    stack: Seq<(usize, usize)>,
    visited: Set<int>,
)
    requires
        all.len() <= usize::MAX,
        vis.len() == all.len(),
        visited.finite(),
        visited.subset_of(Set::new(|x: int| 0 <= x < all.len())),
        stack_in_tree(all, vis, stack),
    ensures
        forall|k: int| 0 <= k < walk(all, vis, searching, collapsed, stack, visited).len() ==> exists|x: int|
            0 <= x < all.len() && vis[x] && !visited.contains(x) && #[trigger] walk(all, vis, searching, collapsed, stack, visited)[k].pid == all[x].pid,
        pids_distinct(all) ==> forall|a: int, b: int|
            0 <= a < walk(all, vis, searching, collapsed, stack, visited).len() && 0 <= b < walk(all, vis, searching, collapsed, stack, visited).len() && a != b
                ==> #[trigger] walk(all, vis, searching, collapsed, stack, visited)[a].pid != #[trigger] walk(all, vis, searching, collapsed, stack, visited)[b].pid,
    decreases all.len() - visited.len(), stack.len(),
{
    if stack.len() > 0 {
        let top = stack.last();
        let rest = stack.drop_last();
        let x = top.0 as int;
        assert(stack_in_tree(all, vis, rest)) by {
            assert forall|e: int| 0 <= e < rest.len() implies (#[trigger] rest[e]).0 < all.len() && vis[rest[e].0 as int] by {
                assert(rest[e] == stack[e]);
            }
        }
        if visited.contains(x) {
            lemma_walk_rows(all, vis, searching, collapsed, rest, visited);
            assert(walk(all, vis, searching, collapsed, stack, visited) == walk(all, vis, searching, collapsed, rest, visited));
        } else {
            let kids = unvisited_children(all, vis, x, visited.insert(x));
            let next = if kids.len() > 0 && (!collapsed.contains(all[x].pid) || searching) {
                rest + stack_entries(kids, (top.1 + 1) as usize)
            } else {
                rest
            };
            let range = vstd::set_lib::set_int_range(0, all.len() as int);
            vstd::set_lib::lemma_int_range(0, all.len() as int);
            assert(Set::new(|y: int| 0 <= y < all.len()) =~= range);
            vstd::set_lib::lemma_len_subset(visited.insert(x), range);
            assert(visited.insert(x).subset_of(Set::new(|y: int| 0 <= y < all.len())));
            assert(stack_in_tree(all, vis, next)) by {
                lemma_unvisited_members(tree_children(all, vis, x), visited.insert(x));
                lemma_stack_entries_shape(kids, (top.1 + 1) as usize);
                assert forall|e: int| 0 <= e < next.len() implies (#[trigger] next[e]).0 < all.len() && vis[next[e].0 as int] by {
                    if e < rest.len() {
                        assert(next[e] == rest[e]);
                    } else {
                        let k2 = e - rest.len();
                        assert(next[e] == stack_entries(kids, (top.1 + 1) as usize)[k2]);
                        let y = kids[kids.len() - 1 - k2];
                        assert(tree_children(all, vis, x).contains(y));
                        lemma_tree_children_are_children(all, vis, x, y);
                    }
                }
            }
            lemma_walk_rows(all, vis, searching, collapsed, next, visited.insert(x));
            let tail = walk(all, vis, searching, collapsed, next, visited.insert(x));
            let w = walk(all, vis, searching, collapsed, stack, visited);
            assert(w == seq![w[0]] + tail);
            assert forall|k: int| 0 <= k < w.len() implies exists|z: int|
                0 <= z < all.len() && vis[z] && !visited.contains(z) && #[trigger] w[k].pid == all[z].pid by {
                if k == 0 {
                    assert(w[0].pid == all[x].pid);
                } else {
                    assert(w[k] == tail[k - 1]);
                    let z = choose|z: int| 0 <= z < all.len() && vis[z] && !visited.insert(x).contains(z) && #[trigger] tail[k - 1].pid == all[z].pid;
                }
            }
            if pids_distinct(all) {
                assert forall|a: int, b: int| 0 <= a < w.len() && 0 <= b < w.len() && a != b implies #[trigger] w[a].pid != #[trigger] w[b].pid by {
                    if a == 0 {
                        assert(w[b] == tail[b - 1]);
                        let z = choose|z: int| 0 <= z < all.len() && vis[z] && !visited.insert(x).contains(z) && #[trigger] tail[b - 1].pid == all[z].pid;
                        assert(z != x);
                    } else if b == 0 {
                        assert(w[a] == tail[a - 1]);
                        let z = choose|z: int| 0 <= z < all.len() && vis[z] && !visited.insert(x).contains(z) && #[trigger] tail[a - 1].pid == all[z].pid;
                        assert(z != x);
                    } else {
                        assert(w[a] == tail[a - 1]);
                        assert(w[b] == tail[b - 1]);
                    }
                }
            }
        }
    }
}

proof fn lemma_members_len(ps: Seq<TreeProcess>)
    ensures
        tree_members(ps).len() <= ps.len(),
    decreases ps.len(),
{
    if ps.len() > 0 {
        lemma_members_len(ps.drop_last());
    }
}

/// Every tree row stands for a process in the tree, and (with distinct
/// PIDs) no process appears twice.
pub proof fn lemma_tree_rows_distinct(ps: Seq<TreeProcess>, searching: bool, collapsed: Set<u32>)
    requires
        ps.len() <= usize::MAX,
    ensures
        ({
            let (all, vis) = tree_of(ps, searching);
            let rows = spec_tree_rows(ps, searching, collapsed);
            &&& forall|k: int| 0 <= k < rows.len() ==> exists|x: int|
                0 <= x < all.len() && in_tree(all, searching, x) && #[trigger] rows[k].pid == all[x].pid
            &&& pids_distinct(all) ==> forall|a: int, b: int|
                0 <= a < rows.len() && 0 <= b < rows.len() && a != b ==> #[trigger] rows[a].pid != #[trigger] rows[b].pid
        }),
{
    let (all, vis) = tree_of(ps, searching);
    lemma_members_len(ps);
    let roots = tree_roots(all, vis);
    let stack = stack_entries(roots, 0);
    assert(Set::<int>::empty().subset_of(Set::new(|x: int| 0 <= x < all.len())));
    assert(stack_in_tree(all, vis, stack)) by {
        lemma_stack_entries_shape(roots, 0);
        lemma_roots_in_tree(all, vis);
        assert forall|e: int| 0 <= e < stack.len() implies (#[trigger] stack[e]).0 < all.len() && vis[stack[e].0 as int] by {
            let r = roots[roots.len() - 1 - e];
            assert(stack[e].0 == r);
        }
    }
    lemma_walk_rows(all, vis, searching, collapsed, stack, Set::empty());
    let rows = spec_tree_rows(ps, searching, collapsed);
    assert forall|k: int| 0 <= k < rows.len() implies exists|x: int|
        0 <= x < all.len() && in_tree(all, searching, x) && #[trigger] rows[k].pid == all[x].pid by {
        let x = choose|x: int| 0 <= x < all.len() && vis[x] && !Set::<int>::empty().contains(x) && #[trigger] rows[k].pid == all[x].pid;
        assert(vis[x] == in_tree(all, searching, x));
    }
}

proof fn lemma_roots_upto_in_tree(all: Seq<TreeProcess>, vis: Seq<bool>, upto: nat)
    requires
        all.len() <= usize::MAX,
        upto <= all.len(),
        vis.len() == all.len(),
    ensures
        forall|k: int| 0 <= k < roots_upto(all, vis, upto).len() ==> #[trigger] roots_upto(all, vis, upto)[k] < upto && vis[roots_upto(all, vis, upto)[k] as int],
    decreases upto,
{
    if upto > 0 {
        lemma_roots_upto_in_tree(all, vis, (upto - 1) as nat);
        let prev = roots_upto(all, vis, (upto - 1) as nat);
        let cur = roots_upto(all, vis, upto);
        let i = upto - 1;
        assert forall|k: int| 0 <= k < cur.len() implies #[trigger] cur[k] < upto && vis[cur[k] as int] by {
            if vis[i] && tree_parent(all, vis, i) < 0 {
                assert(cur == prev.push(i as usize));
            } else {
                assert(cur == prev);
            }
            if k < prev.len() {
                assert(cur[k] == prev[k]);
            }
        }
    }
}

proof fn lemma_cycle_roots_in_tree(all: Seq<TreeProcess>, vis: Seq<bool>, upto: nat)
    requires
        all.len() <= usize::MAX,
        upto <= all.len(),
        vis.len() == all.len(),
    ensures
        forall|k: int| 0 <= k < cycle_roots_upto(all, vis, upto).len() ==> #[trigger] cycle_roots_upto(all, vis, upto)[k] < upto && vis[cycle_roots_upto(all, vis, upto)[k] as int],
    decreases upto,
{
    if upto > 0 {
        lemma_cycle_roots_in_tree(all, vis, (upto - 1) as nat);
        let prev = cycle_roots_upto(all, vis, (upto - 1) as nat);
        let cur = cycle_roots_upto(all, vis, upto);
        let i = upto - 1;
        let known = (roots_upto(all, vis, all.len() as nat) + prev).to_set().map(|r: usize| r as int);
        assert forall|k: int| 0 <= k < cur.len() implies #[trigger] cur[k] < upto && vis[cur[k] as int] by {
            if vis[i] && !covered_by(all, vis, known, i) {
                assert(cur == prev.push(i as usize));
            } else {
                assert(cur == prev);
            }
            if k < prev.len() {
                assert(cur[k] == prev[k]);
            }
        }
    }
}

/// The roots are processes of the tree.
proof fn lemma_roots_in_tree(all: Seq<TreeProcess>, vis: Seq<bool>)
    requires
        all.len() <= usize::MAX,
        vis.len() == all.len(),
    ensures
        forall|k: int| 0 <= k < tree_roots(all, vis).len() ==> #[trigger] tree_roots(all, vis)[k] < all.len() && vis[tree_roots(all, vis)[k] as int],
{
    let n = all.len() as nat;
    let cand = roots_upto(all, vis, n) + cycle_roots_upto(all, vis, n);
    lemma_roots_upto_in_tree(all, vis, n);
    lemma_cycle_roots_in_tree(all, vis, n);
    lemma_sort_created_members(all, cand);
    assert forall|k: int| 0 <= k < tree_roots(all, vis).len() implies #[trigger] tree_roots(all, vis)[k] < all.len() && vis[tree_roots(all, vis)[k] as int] by {
        let r = tree_roots(all, vis)[k];
        assert(cand.contains(r));
        let w = choose|w: int| 0 <= w < cand.len() && cand[w] == r;
        if w < roots_upto(all, vis, n).len() {
            assert(cand[w] == roots_upto(all, vis, n)[w]);
        } else {
            assert(cand[w] == cycle_roots_upto(all, vis, n)[w - roots_upto(all, vis, n).len()]);
        }
    }
}

/// Some row shows the process with PID `pid`.
pub open spec fn shows(rows: Seq<TreeRow>, pid: u32) -> bool {
    exists|k: int| 0 <= k < rows.len() && (#[trigger] rows[k]).pid == pid
}

/// Some stack entry holds process `y`.
pub open spec fn on_stack(stack: Seq<(usize, usize)>, y: int) -> bool {
    exists|e: int| 0 <= e < stack.len() && (#[trigger] stack[e]).0 as int == y
}

/// The walk's frontier: every unvisited root, and every unvisited process
/// whose tree parent was visited, waits on the stack.
pub open spec fn frontier_on_stack(
    all: Seq<TreeProcess>,
    vis: Seq<bool>,
    rootset: Set<int>,
    stack: Seq<(usize, usize)>,
    visited: Set<int>,
) -> bool {
    &&& forall|r: int| #[trigger] rootset.contains(r) && !visited.contains(r) ==> on_stack(stack, r)
    &&& forall|y: int|
        0 <= y < all.len() && !visited.contains(y) && tree_parent(all, vis, y) >= 0 && visited.contains(
            #[trigger] tree_parent(all, vis, y),
        ) ==> on_stack(stack, y)
}

/// No process of the tree is collapsed, or collapsing is ignored.
pub open spec fn fully_expanded(all: Seq<TreeProcess>, vis: Seq<bool>, searching: bool, collapsed: Set<u32>) -> bool {
    searching || forall|x: int| 0 <= x < all.len() && vis[x] ==> !collapsed.contains(#[trigger] all[x].pid)
}

proof fn lemma_tree_ancestor_step(all: Seq<TreeProcess>, vis: Seq<bool>, x: int, n: nat)
    requires
        tree_ancestor(all, vis, x, 1) >= 0,
    ensures
        tree_ancestor(all, vis, tree_ancestor(all, vis, x, 1), n) == tree_ancestor(all, vis, x, n + 1),
    decreases n,
{
    if n > 0 {
        lemma_tree_ancestor_step(all, vis, x, (n - 1) as nat);
    }
}

proof fn lemma_tree_ancestor_valid(all: Seq<TreeProcess>, vis: Seq<bool>, x: int, n: nat, m: nat)
    requires
        tree_ancestor(all, vis, x, n) >= 0,
        m <= n,
    ensures
        tree_ancestor(all, vis, x, m) >= 0,
    decreases n,
{
    if m < n {
        lemma_tree_ancestor_valid(all, vis, x, (n - 1) as nat, m);
    }
}

/// An unvisited process under a root has an unvisited ancestor (itself
/// included) waiting on the stack.
proof fn lemma_frontier_ancestor(
    all: Seq<TreeProcess>,
    vis: Seq<bool>,
    rootset: Set<int>,
    stack: Seq<(usize, usize)>,
    visited: Set<int>,
    y: int,
    n: nat,
)
    requires
        frontier_on_stack(all, vis, rootset, stack, visited),
        0 <= y < all.len(),
        vis.len() == all.len(),
        !visited.contains(y),
        rootset.contains(tree_ancestor(all, vis, y, n)),
        forall|r: int| #[trigger] rootset.contains(r) ==> 0 <= r < all.len(),
    ensures
        exists|m: nat| on_stack(stack, #[trigger] tree_ancestor(all, vis, y, m)),
    decreases n,
{
    if n == 0 {
        assert(on_stack(stack, tree_ancestor(all, vis, y, 0)));
    } else {
        lemma_tree_ancestor_valid(all, vis, y, n, 1);
        let p = tree_ancestor(all, vis, y, 1);
        assert(tree_ancestor(all, vis, y, 0) == y);
        assert(p == tree_parent(all, vis, y));
        if visited.contains(p) {
            assert(on_stack(stack, tree_ancestor(all, vis, y, 0)));
        } else {
            lemma_tree_ancestor_step(all, vis, y, (n - 1) as nat);
            assert(0 <= p < all.len()) by {
                lemma_find_pid_range(all, all[y].ppid->0);
            }
            lemma_frontier_ancestor(all, vis, rootset, stack, visited, p, (n - 1) as nat);
            let m = choose|m: nat| on_stack(stack, #[trigger] tree_ancestor(all, vis, p, m));
            lemma_tree_ancestor_step(all, vis, y, m);
            assert(on_stack(stack, tree_ancestor(all, vis, y, m + 1)));
        }
    }
}

/// With nothing collapsed, the walk shows every unvisited process that
/// lies under a root.
proof fn lemma_walk_complete(
    all: Seq<TreeProcess>,
    vis: Seq<bool>,
    searching: bool,
    collapsed: Set<u32>,
    rootset: Set<int>,
    stack: Seq<(usize, usize)>,
    visited: Set<int>,
)
    requires
        all.len() <= usize::MAX,
        vis.len() == all.len(),
        visited.finite(),
        visited.subset_of(Set::new(|x: int| 0 <= x < all.len())),
        stack_in_tree(all, vis, stack),
        frontier_on_stack(all, vis, rootset, stack, visited),
        fully_expanded(all, vis, searching, collapsed),
        forall|r: int| #[trigger] rootset.contains(r) ==> 0 <= r < all.len(),
    ensures
        forall|y: int|
            0 <= y < all.len() && !visited.contains(y) && #[trigger] covered_by(all, vis, rootset, y) ==> shows(
                walk(all, vis, searching, collapsed, stack, visited),
                all[y].pid,
            ),
    decreases all.len() - visited.len(), stack.len(),
{
    let w = walk(all, vis, searching, collapsed, stack, visited);
    if stack.len() == 0 {
        assert forall|y: int|
            0 <= y < all.len() && !visited.contains(y) && #[trigger] covered_by(all, vis, rootset, y) implies shows(
                w,
                all[y].pid,
            ) by {
            let n = choose|n: nat| n <= all.len() && rootset.contains(#[trigger] tree_ancestor(all, vis, y, n));
            lemma_frontier_ancestor(all, vis, rootset, stack, visited, y, n);
        }
    } else {
        let top = stack.last();
        let rest = stack.drop_last();
        let x = top.0 as int;
        assert(stack_in_tree(all, vis, rest)) by {
            assert forall|e: int| 0 <= e < rest.len() implies (#[trigger] rest[e]).0 < all.len() && vis[rest[e].0 as int] by {
                assert(rest[e] == stack[e]);
            }
        }
        assert forall|z: int| on_stack(stack, z) && z != x implies on_stack(rest, z) by {
            let e = choose|e: int| 0 <= e < stack.len() && (#[trigger] stack[e]).0 as int == z;
            assert(e != stack.len() - 1);
            assert(rest[e] == stack[e]);
        }
        if visited.contains(x) {
            assert(frontier_on_stack(all, vis, rootset, rest, visited));
            lemma_walk_complete(all, vis, searching, collapsed, rootset, rest, visited);
            assert(w == walk(all, vis, searching, collapsed, rest, visited));
        } else {
            let vx = visited.insert(x);
            let kids = unvisited_children(all, vis, x, vx);
            let next = if kids.len() > 0 && (!collapsed.contains(all[x].pid) || searching) {
                rest + stack_entries(kids, (top.1 + 1) as usize)
            } else {
                rest
            };
            let range = vstd::set_lib::set_int_range(0, all.len() as int);
            vstd::set_lib::lemma_int_range(0, all.len() as int);
            assert(Set::new(|y: int| 0 <= y < all.len()) =~= range);
            vstd::set_lib::lemma_len_subset(vx, range);
            assert(vx.subset_of(Set::new(|y: int| 0 <= y < all.len())));
            lemma_unvisited_members(tree_children(all, vis, x), vx);
            lemma_stack_entries_shape(kids, (top.1 + 1) as usize);
            assert(stack_in_tree(all, vis, next)) by {
                assert forall|e: int| 0 <= e < next.len() implies (#[trigger] next[e]).0 < all.len() && vis[next[e].0 as int] by {
                    if e < rest.len() {
                        assert(next[e] == rest[e]);
                    } else {
                        let k2 = e - rest.len();
                        assert(next[e] == stack_entries(kids, (top.1 + 1) as usize)[k2]);
                        let y = kids[kids.len() - 1 - k2];
                        assert(tree_children(all, vis, x).contains(y));
                        lemma_tree_children_are_children(all, vis, x, y);
                    }
                }
            }
            assert forall|z: int| on_stack(rest, z) implies on_stack(next, z) by {
                let e = choose|e: int| 0 <= e < rest.len() && (#[trigger] rest[e]).0 as int == z;
                assert(next[e] == rest[e]);
            }
            assert(frontier_on_stack(all, vis, rootset, next, vx)) by {
                assert forall|y: int|
                    0 <= y < all.len() && !vx.contains(y) && tree_parent(all, vis, y) >= 0 && vx.contains(
                        #[trigger] tree_parent(all, vis, y),
                    ) implies on_stack(next, y) by {
                    if tree_parent(all, vis, y) == x {
                        lemma_tree_children_are_children(all, vis, x, y as usize);
                        assert(tree_children(all, vis, x).contains(y as usize));
                        assert(kids.contains(y as usize));
                        assert(vis[x]);
                        assert(!collapsed.contains(all[x].pid) || searching);
                        let v = choose|v: int| 0 <= v < kids.len() && kids[v] == y as usize;
                        let e = kids.len() - 1 - v;
                        assert(stack_entries(kids, (top.1 + 1) as usize)[e].0 == y as usize);
                        assert(next[rest.len() + e] == stack_entries(kids, (top.1 + 1) as usize)[e]);
                    }
                }
            }
            lemma_walk_complete(all, vis, searching, collapsed, rootset, next, vx);
            let tail = walk(all, vis, searching, collapsed, next, vx);
            assert(w == seq![w[0]] + tail);
            assert forall|y: int|
                0 <= y < all.len() && !visited.contains(y) && #[trigger] covered_by(all, vis, rootset, y) implies shows(
                    w,
                    all[y].pid,
                ) by {
                if y == x {
                    assert(w[0].pid == all[y].pid);
                } else {
                    assert(!vx.contains(y));
                    assert(shows(tail, all[y].pid));
                    let k = choose|k: int| 0 <= k < tail.len() && (#[trigger] tail[k]).pid == all[y].pid;
                    assert(w[k + 1] == tail[k]);
                }
            }
        }
    }
}


proof fn lemma_covered_grows(all: Seq<TreeProcess>, vis: Seq<bool>, a: Set<int>, b: Set<int>, x: int)
    requires
        a.subset_of(b),
        covered_by(all, vis, a, x),
    ensures
        covered_by(all, vis, b, x),
{
    let n = choose|n: nat| n <= all.len() && a.contains(#[trigger] tree_ancestor(all, vis, x, n));
    assert(b.contains(tree_ancestor(all, vis, x, n)));
}

/// Every tree process among the first `upto` is covered by the parentless
/// roots and the first `upto` cycle representatives.
proof fn lemma_covered_upto(all: Seq<TreeProcess>, vis: Seq<bool>, upto: nat)
    requires
        all.len() <= usize::MAX,
        vis.len() == all.len(),
        upto <= all.len(),
    ensures
        forall|x: int|
            0 <= x < upto && vis[x] ==> #[trigger] covered_by(
                all,
                vis,
                root_set(roots_upto(all, vis, all.len() as nat) + cycle_roots_upto(all, vis, upto)),
                x,
            ),
    decreases upto,
{
    if upto > 0 {
        let base = roots_upto(all, vis, all.len() as nat);
        let prev = cycle_roots_upto(all, vis, (upto - 1) as nat);
        let cur = cycle_roots_upto(all, vis, upto);
        let i = upto - 1;
        lemma_covered_upto(all, vis, (upto - 1) as nat);
        let before = root_set(base + prev);
        let after = root_set(base + cur);
        assert(before.subset_of(after)) by {
            assert forall|j: int| before.contains(j) implies after.contains(j) by {
                lemma_root_set_contains(base + prev, j);
                lemma_root_set_contains(base + cur, j);
                let w = choose|w: int| 0 <= w < (base + prev).len() && (base + prev)[w] as int == j;
                if vis[i] && !covered_by(all, vis, before, i) {
                    assert(cur == prev.push(i as usize));
                    assert((base + cur)[w] == (base + prev)[w]);
                } else {
                    assert(cur == prev);
                }
            }
        }
        assert forall|x: int| 0 <= x < upto && vis[x] implies #[trigger] covered_by(all, vis, after, x) by {
            if x < i {
                lemma_covered_grows(all, vis, before, after, x);
            } else if covered_by(all, vis, before, i) {
                lemma_covered_grows(all, vis, before, after, x);
            } else {
                assert(cur == prev.push(i as usize));
                lemma_root_set_contains(base + cur, i);
                assert((base + cur)[(base + cur).len() - 1] as int == x);
                assert(tree_ancestor(all, vis, x, 0) == x);
                assert(after.contains(tree_ancestor(all, vis, x, 0)));
            }
        }
    }
}

/// Every tree process lies under one of the tree roots.
proof fn lemma_roots_cover(all: Seq<TreeProcess>, vis: Seq<bool>)
    requires
        all.len() <= usize::MAX,
        vis.len() == all.len(),
    ensures
        forall|x: int| 0 <= x < all.len() && vis[x] ==> #[trigger] covered_by(all, vis, root_set(tree_roots(all, vis)), x),
{
    let n = all.len() as nat;
    let cand = roots_upto(all, vis, n) + cycle_roots_upto(all, vis, n);
    lemma_covered_upto(all, vis, n);
    lemma_sort_created_keeps(all, cand);
    assert(root_set(cand).subset_of(root_set(tree_roots(all, vis)))) by {
        assert forall|j: int| root_set(cand).contains(j) implies root_set(tree_roots(all, vis)).contains(j) by {
            lemma_root_set_contains(cand, j);
            lemma_root_set_contains(tree_roots(all, vis), j);
            let w = choose|w: int| 0 <= w < cand.len() && cand[w] as int == j;
            assert(cand.contains(cand[w]));
            assert(tree_roots(all, vis).contains(cand[w]));
        }
    }
    assert forall|x: int| 0 <= x < all.len() && vis[x] implies #[trigger] covered_by(all, vis, root_set(tree_roots(all, vis)), x) by {
        lemma_covered_grows(all, vis, root_set(cand), root_set(tree_roots(all, vis)), x);
    }
}

/// With nothing collapsed (or while searching), every process of the tree
/// appears among the rows.
pub proof fn lemma_tree_rows_complete(ps: Seq<TreeProcess>, searching: bool, collapsed: Set<u32>)
    requires
        ps.len() <= usize::MAX,
        ({
            let (all, vis) = tree_of(ps, searching);
            fully_expanded(all, vis, searching, collapsed)
        }),
    ensures
        ({
            let (all, vis) = tree_of(ps, searching);
            forall|x: int| 0 <= x < all.len() && in_tree(all, searching, x) ==> #[trigger] shows(
                spec_tree_rows(ps, searching, collapsed),
                all[x].pid,
            )
        }),
{
    let (all, vis) = tree_of(ps, searching);
    lemma_members_len(ps);
    let roots = tree_roots(all, vis);
    let stack = stack_entries(roots, 0);
    let rootset = root_set(roots);
    lemma_roots_in_tree(all, vis);
    lemma_stack_entries_shape(roots, 0);
    assert(Set::<int>::empty().subset_of(Set::new(|x: int| 0 <= x < all.len())));
    assert(stack_in_tree(all, vis, stack)) by {
        assert forall|e: int| 0 <= e < stack.len() implies (#[trigger] stack[e]).0 < all.len() && vis[stack[e].0 as int] by {
            let r = roots[roots.len() - 1 - e];
            assert(stack[e].0 == r);
        }
    }
    assert forall|r: int| #[trigger] rootset.contains(r) implies 0 <= r < all.len() && on_stack(stack, r) by {
        lemma_root_set_contains(roots, r);
        let w = choose|w: int| 0 <= w < roots.len() && roots[w] as int == r;
        lemma_stack_entries_contains(roots, 0, roots[w]);
    }
    assert(frontier_on_stack(all, vis, rootset, stack, Set::empty()));
    lemma_walk_complete(all, vis, searching, collapsed, rootset, stack, Set::empty());
    lemma_roots_cover(all, vis);
    assert forall|x: int| 0 <= x < all.len() && in_tree(all, searching, x) implies #[trigger] shows(
        spec_tree_rows(ps, searching, collapsed),
        all[x].pid,
    ) by {
        assert(vis[x]);
        assert(covered_by(all, vis, rootset, x));
    }
}

/// Row `j` is the parent row of row `k`: it sits one level higher, every
/// row between them is at least as deep as row `k` (they belong to earlier
/// siblings' subtrees), and row `k`'s process has row `j`'s process as its
/// tree parent.
pub open spec fn parent_row(all: Seq<TreeProcess>, vis: Seq<bool>, rows: Seq<TreeRow>, k: int, j: int) -> bool {
    &&& 0 <= j < k < rows.len()
    &&& rows[j].depth + 1 == rows[k].depth
    &&& forall|m: int| j < m < k ==> #[trigger] rows[m].depth >= rows[k].depth
    &&& exists|x: int|
        0 <= x < all.len() && #[trigger] all[x].pid == rows[k].pid && 0 <= tree_parent(all, vis, x) < all.len()
            && all[tree_parent(all, vis, x)].pid == rows[j].pid
}

/// A pending stack entry for process `y` at depth `dy` will land under row
/// `j` of the rows emitted so far.
spec fn entry_parent(all: Seq<TreeProcess>, vis: Seq<bool>, prev: Seq<TreeRow>, y: usize, dy: usize, j: int) -> bool {
    &&& 0 <= j < prev.len()
    &&& prev[j].depth + 1 == dy
    &&& forall|m: int| j < m < prev.len() ==> #[trigger] prev[m].depth >= dy
    &&& 0 <= tree_parent(all, vis, y as int) < all.len()
    &&& all[tree_parent(all, vis, y as int)].pid == prev[j].pid
}

/// Depths grow toward the top of the stack, stay within `bound`, and every
/// entry below the top level has its parent row among the emitted rows.
spec fn stack_shaped(all: Seq<TreeProcess>, vis: Seq<bool>, prev: Seq<TreeRow>, stack: Seq<(usize, usize)>, bound: nat) -> bool {
    &&& forall|a: int, b: int| 0 <= a < b < stack.len() ==> #[trigger] stack[a].1 <= #[trigger] stack[b].1
    &&& forall|e: int| 0 <= e < stack.len() ==> #[trigger] stack[e].1 <= bound
    &&& forall|e: int| 0 <= e < stack.len() && #[trigger] stack[e].1 > 0 ==> exists|j: int|
        #[trigger] entry_parent(all, vis, prev, stack[e].0, stack[e].1, j)
}

/// Every row of `rows` below the top level has a parent row.
spec fn rows_nested(all: Seq<TreeProcess>, vis: Seq<bool>, rows: Seq<TreeRow>) -> bool {
    forall|k: int| 0 <= k < rows.len() && #[trigger] rows[k].depth > 0 ==> exists|j: int|
        #[trigger] parent_row(all, vis, rows, k, j)
}

#[verifier::rlimit(80)]
proof fn lemma_walk_nested(
    all: Seq<TreeProcess>,
    vis: Seq<bool>,
    searching: bool,
    collapsed: Set<u32>,
    stack: Seq<(usize, usize)>,
    visited: Set<int>,
    prev: Seq<TreeRow>,
)
    requires
        all.len() <= usize::MAX,
        vis.len() == all.len(),
        visited.finite(),
        visited.subset_of(Set::new(|x: int| 0 <= x < all.len())),
        stack_in_tree(all, vis, stack),
        stack_shaped(all, vis, prev, stack, visited.len()),
        rows_nested(all, vis, prev),
    ensures
        rows_nested(all, vis, prev + walk(all, vis, searching, collapsed, stack, visited)),
    decreases all.len() - visited.len(), stack.len(),
{
    let w = walk(all, vis, searching, collapsed, stack, visited);
    if stack.len() == 0 {
        assert(prev + w =~= prev);
        return;
    }
    let top = stack.last();
    let rest = stack.drop_last();
    let x = top.0 as int;
    let d = top.1;
    assert(stack_in_tree(all, vis, rest)) by {
        assert forall|e: int| 0 <= e < rest.len() implies (#[trigger] rest[e]).0 < all.len() && vis[rest[e].0 as int] by {
            assert(rest[e] == stack[e]);
        }
    }
    assert forall|e: int| 0 <= e < rest.len() implies #[trigger] rest[e].1 <= d by {
        assert(rest[e] == stack[e]);
        assert(stack[e].1 <= stack[stack.len() - 1].1);
    }
    if visited.contains(x) {
        assert(stack_shaped(all, vis, prev, rest, visited.len())) by {
            assert forall|a: int, b: int| 0 <= a < b < rest.len() implies #[trigger] rest[a].1 <= #[trigger] rest[b].1 by {
                assert(rest[a] == stack[a] && rest[b] == stack[b]);
            }
            assert forall|e: int| 0 <= e < rest.len() && #[trigger] rest[e].1 > 0 implies exists|j: int|
                #[trigger] entry_parent(all, vis, prev, rest[e].0, rest[e].1, j) by {
                assert(rest[e] == stack[e]);
                assert(stack[e].1 > 0);
            }
        }
        lemma_walk_nested(all, vis, searching, collapsed, rest, visited, prev);
        assert(w == walk(all, vis, searching, collapsed, rest, visited));
        return;
    }
    let v2 = visited.insert(x);
    let kids = unvisited_children(all, vis, x, v2);
    let next = if kids.len() > 0 && (!collapsed.contains(all[x].pid) || searching) {
        rest + stack_entries(kids, (d + 1) as usize)
    } else {
        rest
    };
    let range = vstd::set_lib::set_int_range(0, all.len() as int);
    vstd::set_lib::lemma_int_range(0, all.len() as int);
    assert(Set::new(|y: int| 0 <= y < all.len()) =~= range);
    vstd::set_lib::lemma_len_subset(v2, range);
    assert(v2.subset_of(Set::new(|y: int| 0 <= y < all.len())));
    assert(v2.len() == visited.len() + 1);
    assert(d <= visited.len());
    assert(d + 1 <= usize::MAX);
    let row = TreeRow { pid: all[x].pid, depth: d, children: kids.len() > 0 };
    assert(w == seq![row] + walk(all, vis, searching, collapsed, next, v2));
    let prev2 = prev.push(row);
    lemma_unvisited_members(tree_children(all, vis, x), v2);
    lemma_stack_entries_shape(kids, (d + 1) as usize);
    assert(stack_in_tree(all, vis, next)) by {
        assert forall|e: int| 0 <= e < next.len() implies (#[trigger] next[e]).0 < all.len() && vis[next[e].0 as int] by {
            if e < rest.len() {
                assert(next[e] == rest[e]);
            } else {
                let k2 = e - rest.len();
                assert(next[e] == stack_entries(kids, (d + 1) as usize)[k2]);
                let y = kids[kids.len() - 1 - k2];
                assert(tree_children(all, vis, x).contains(y));
                lemma_tree_children_are_children(all, vis, x, y);
            }
        }
    }
    // the new row has its parent among the earlier rows
    assert(rows_nested(all, vis, prev2)) by {
        assert forall|k: int| 0 <= k < prev2.len() && #[trigger] prev2[k].depth > 0 implies exists|j: int|
            #[trigger] parent_row(all, vis, prev2, k, j) by {
            if k < prev.len() {
                assert(prev2[k] == prev[k]);
                let j = choose|j: int| #[trigger] parent_row(all, vis, prev, k, j);
                let y = choose|y: int|
                    0 <= y < all.len() && #[trigger] all[y].pid == prev[k].pid && 0 <= tree_parent(all, vis, y) < all.len()
                        && all[tree_parent(all, vis, y)].pid == prev[j].pid;
                assert forall|m: int| j < m < k implies #[trigger] prev2[m].depth >= prev2[k].depth by {
                    assert(prev2[m] == prev[m]);
                }
                assert(prev2[j] == prev[j]);
                assert(all[y].pid == prev2[k].pid);
                assert(parent_row(all, vis, prev2, k, j));
            } else {
                assert(k == prev.len());
                assert(stack[stack.len() - 1].1 > 0);
                let j = choose|j: int| #[trigger] entry_parent(all, vis, prev, x as usize, d, j);
                assert(stack[stack.len() - 1] == top);
                assert(entry_parent(all, vis, prev, top.0, top.1, j));
                assert forall|m: int| j < m < k implies #[trigger] prev2[m].depth >= prev2[k].depth by {
                    assert(prev2[m] == prev[m]);
                }
                assert(prev2[j] == prev[j]);
                assert(all[x].pid == prev2[k].pid);
                assert(parent_row(all, vis, prev2, k, j));
            }
        }
    }
    assert(stack_shaped(all, vis, prev2, next, v2.len())) by {
        let ke = stack_entries(kids, (d + 1) as usize);
        assert forall|a: int, b: int| 0 <= a < b < next.len() implies #[trigger] next[a].1 <= #[trigger] next[b].1 by {
            if b < rest.len() {
                assert(next[a] == stack[a] && next[b] == stack[b]);
            } else if a < rest.len() {
                assert(next[a] == rest[a]);
                assert(next[b] == ke[b - rest.len()]);
            } else {
                assert(next[a] == ke[a - rest.len()]);
                assert(next[b] == ke[b - rest.len()]);
            }
        }
        assert forall|e: int| 0 <= e < next.len() implies #[trigger] next[e].1 <= v2.len() by {
            if e < rest.len() {
                assert(next[e] == rest[e]);
            } else {
                assert(next[e] == ke[e - rest.len()]);
            }
        }
        assert forall|e: int| 0 <= e < next.len() && #[trigger] next[e].1 > 0 implies exists|j: int|
            #[trigger] entry_parent(all, vis, prev2, next[e].0, next[e].1, j) by {
            if e < rest.len() {
                assert(next[e] == rest[e]);
                assert(rest[e] == stack[e]);
                let j = choose|j: int| #[trigger] entry_parent(all, vis, prev, stack[e].0, stack[e].1, j);
                assert forall|m: int| j < m < prev2.len() implies #[trigger] prev2[m].depth >= next[e].1 by {
                    if m < prev.len() {
                        assert(prev2[m] == prev[m]);
                    }
                }
                assert(prev2[j] == prev[j]);
                assert(entry_parent(all, vis, prev2, next[e].0, next[e].1, j));
            } else {
                let k2 = e - rest.len();
                assert(next[e] == ke[k2]);
                let y = kids[kids.len() - 1 - k2];
                assert(tree_children(all, vis, x).contains(y));
                lemma_tree_children_are_children(all, vis, x, y);
                assert(entry_parent(all, vis, prev2, next[e].0, next[e].1, prev.len() as int));
            }
        }
    }
    lemma_walk_nested(all, vis, searching, collapsed, next, v2, prev2);
    assert(prev + w =~= prev2 + walk(all, vis, searching, collapsed, next, v2));
}

/// The tree rows nest: the first row is a root, a row is at most one level
/// deeper than the row above it, and every deeper row has a parent row, the
/// nearest row above it one level higher, with only that parent's earlier
/// subtrees between them, whose process is its process's tree parent. So
/// each process's subtree follows directly under it.
pub proof fn lemma_tree_rows_nested(ps: Seq<TreeProcess>, searching: bool, collapsed: Set<u32>)
    requires
        ps.len() <= usize::MAX,
    ensures
        ({
            let (all, vis) = tree_of(ps, searching);
            let rows = spec_tree_rows(ps, searching, collapsed);
            &&& rows.len() > 0 ==> rows[0].depth == 0
            &&& forall|k: int| 0 < k < rows.len() ==> #[trigger] rows[k].depth <= rows[k - 1].depth + 1
            &&& forall|k: int| 0 <= k < rows.len() && #[trigger] rows[k].depth > 0 ==> exists|j: int|
                #[trigger] parent_row(all, vis, rows, k, j)
        }),
{
    let (all, vis) = tree_of(ps, searching);
    lemma_members_len(ps);
    let roots = tree_roots(all, vis);
    let stack = stack_entries(roots, 0);
    assert(Set::<int>::empty().subset_of(Set::new(|x: int| 0 <= x < all.len())));
    lemma_stack_entries_shape(roots, 0);
    assert(stack_in_tree(all, vis, stack)) by {
        lemma_roots_in_tree(all, vis);
        assert forall|e: int| 0 <= e < stack.len() implies (#[trigger] stack[e]).0 < all.len() && vis[stack[e].0 as int] by {
            let r = roots[roots.len() - 1 - e];
            assert(stack[e].0 == r);
        }
    }
    let prev = Seq::<TreeRow>::empty();
    assert(stack_shaped(all, vis, prev, stack, 0)) by {
        assert forall|e: int| 0 <= e < stack.len() implies #[trigger] stack[e].1 == 0 by {
            assert(stack[e] == (roots[roots.len() - 1 - e], 0usize));
        }
    }
    assert(Set::<int>::empty().len() == 0);
    lemma_walk_nested(all, vis, searching, collapsed, stack, Set::empty(), prev);
    let rows = spec_tree_rows(ps, searching, collapsed);
    assert(prev + rows =~= rows);
    assert forall|k: int| 0 < k < rows.len() implies #[trigger] rows[k].depth <= rows[k - 1].depth + 1 by {
        if rows[k].depth > 0 {
            let j = choose|j: int| #[trigger] parent_row(all, vis, rows, k, j);
            if j < k - 1 {
                assert(rows[k - 1].depth >= rows[k].depth);
            }
        }
    }
    if rows.len() > 0 && rows[0].depth > 0 {
        let j = choose|j: int| #[trigger] parent_row(all, vis, rows, 0, j);
    }
}

} // verus!
