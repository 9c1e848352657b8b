//! The flattened rows of the Processes page: group headers, the app
//! families as expandable trees, and the flat Background and Windows lists
//! in which connected same-image families collapse into one row.
use std::collections::HashSet;
use vstd::prelude::*;
use crate::details_tree::{lemma_stack_entries_shape, push_entries, stack_entries};
use crate::forest::{
    anc, children_lists, cycle_reps, find_member_roots, in_subtree, is_cycle_rep, kids,
    lemma_anc_ended, lemma_count_upto_bound, lemma_kids_upto_range, member_roots,
    parents_in_range, subtree_any, subtree_count, subtree_stats,
};
use crate::processes::derive_display_groups;
use crate::process_order::{before_rel, sort_entries};
use crate::processes::{
    DisplayGroups, GroupProcess, ProcCategory, parent_of, parents, spec_app_root, spec_category,
};
use crate::stable_sort::{lemma_insert_by_at, lemma_stable_sorted_members, stable_sorted};
use crate::text::{eq_ignore_ascii_case, same_ignoring_ascii_case};

verus! {

broadcast use vstd::std_specs::hash::group_hash_axioms;

/// `g` is the grouping of `all`.
pub open spec fn groups_of(all: Seq<GroupProcess>, g: DisplayGroups) -> bool {
    &&& g.category@.len() == all.len()
    &&& g.app_root@.len() == all.len()
    &&& forall|x: int| 0 <= x < all.len() ==> #[trigger] g.category@[x] == spec_category(all, x)
    &&& forall|x: int| 0 <= x < all.len() ==> #[trigger] g.app_root@[x] == spec_app_root(all, x)
}

/// The parent of `x` on the page: its parent process when both are in the
/// same group, except that an app root is detached from its parent so
/// launched programs stay peers.
pub open spec fn display_parent(all: Seq<GroupProcess>, x: int) -> Option<usize> {
    if spec_category(all, x) == ProcCategory::App && spec_app_root(all, x) {
        None
    } else {
        let p = parent_of(all, x);
        if p >= 0 && spec_category(all, p) == spec_category(all, x) {
            Some(p as usize)
        } else {
            None
        }
    }
}

/// The display parent of every process.
pub open spec fn display_parents(all: Seq<GroupProcess>) -> Seq<Option<usize>> {
    Seq::new(all.len(), |x: int| display_parent(all, x))
}

/// The display parents (see [`display_parent`]).
fn display_links(all: &[GroupProcess], g: &DisplayGroups) -> (dp: Vec<Option<usize>>)
    requires
        groups_of(all@, *g),
    ensures
        dp@ == display_parents(all@),
        parents_in_range(dp@),
{
    let ps = parents(all);
    let n = all.len();
    let mut dp: Vec<Option<usize>> = Vec::new();
    let mut x: usize = 0;
    while x < n
        invariant
            n == all@.len(),
            x <= n,
            groups_of(all@, *g),
            ps@.len() == n,
            forall|i: int|
                0 <= i < n ==> match #[trigger] ps@[i] {
                    Some(j) => j as int == parent_of(all@, i) && j < n,
                    None => parent_of(all@, i) == -1,
                },
            dp@.len() == x,
            forall|i: int| 0 <= i < x ==> #[trigger] dp@[i] == display_parent(all@, i),
            forall|i: int| 0 <= i < x ==> (#[trigger] dp@[i] matches Some(p) ==> p < n),
        decreases n - x,
    {
        let link = if g.category[x] == ProcCategory::App && g.app_root[x] {
            None
        } else {
            match ps[x] {
                Some(p) => if g.category[p] == g.category[x] {
                    Some(p)
                } else {
                    None
                },
                None => None,
            }
        };
        dp.push(link);
        x = x + 1;
    }
    assert(dp@ =~= display_parents(all@));
    dp
}

/// Which values a row shows: the sums over its display subtree or family,
/// or the process's own.
#[derive(Debug, Clone, Copy, PartialEq, Eq, Structural)]
pub enum RowValues {
    Subtree,
    Own,
}

/// One process row.
#[derive(Debug, Clone, Copy, PartialEq, Eq, Structural)]
pub struct ProcessRow {
    /// Position of the process in the input.
    pub index: usize,
    pub pid: u32,
    pub depth: usize,
    /// The process count shown after the name, as in "Brave (24)".
    pub label_count: Option<usize>,
    /// Whether the row can be expanded.
    pub children: bool,
    pub values: RowValues,
    pub power_throttled: bool,
    pub net_available: bool,
}

/// A row of the page: a group header (group 0 Apps, 1 Background,
/// 2 Windows, with the group's count) or a process.
#[derive(Debug, Clone, Copy, PartialEq, Eq, Structural)]
pub enum DisplayRow {
    GroupHeader(u8, usize),
    Process(ProcessRow),
}

/// What the app tree walk reads.
pub struct TreeCtx {
    pub pids: Seq<u32>,
    /// Children of every process, in display order.
    pub kids: Seq<Seq<usize>>,
    pub count: Seq<usize>,
    pub eco: Seq<bool>,
    pub net: Seq<bool>,
    pub expanded: Set<u32>,
}

/// The row of `x` in the app tree at `depth`.
pub open spec fn tree_row(ctx: TreeCtx, x: int, depth: usize) -> ProcessRow {
    ProcessRow {
        index: x as usize,
        pid: ctx.pids[x],
        depth,
        label_count: if ctx.count[x] > 1 {
            Some(ctx.count[x])
        } else {
            None
        },
        children: ctx.kids[x].len() > 0,
        values: RowValues::Subtree,
        power_throttled: ctx.eco[x],
        net_available: ctx.net[x],
    }
}

/// The preorder walk of the app tree from `stack` (top last): a process is
/// shown once, and its children follow it one level deeper while it is
/// expanded.
pub open spec fn tree_walk(ctx: TreeCtx, stack: Seq<(usize, usize)>, visited: Set<int>) -> Seq<ProcessRow>
    decreases ctx.pids.len() - visited.len(), stack.len(),
    when visited.finite() && visited.subset_of(Set::new(|x: int| 0 <= x < ctx.pids.len()))
{
    if stack.len() == 0 {
        Seq::empty()
    } else {
        let top = stack.last();
        let rest = stack.drop_last();
        let x = top.0 as int;
        if visited.contains(x) || !(0 <= x < ctx.pids.len()) {
            tree_walk(ctx, rest, visited)
        } else {
            let ks = ctx.kids[x];
            let next = if ks.len() > 0 && ctx.expanded.contains(ctx.pids[x]) {
                rest + stack_entries(ks, (top.1 + 1) as usize)
            } else {
                rest
            };
            proof {
                let range = vstd::set_lib::set_int_range(0, ctx.pids.len() as int);
                vstd::set_lib::lemma_int_range(0, ctx.pids.len() as int);
                assert(Set::new(|y: int| 0 <= y < ctx.pids.len()) =~= range);
                assert(visited.insert(x).len() == visited.len() + 1);
                vstd::set_lib::lemma_len_subset(visited.insert(x), range);
            }
            seq![tree_row(ctx, x, top.1)] + tree_walk(ctx, next, visited.insert(x))
        }
    }
}

/// Emit the app tree from `roots` (already in display order).
fn emit_tree(
    all: &[GroupProcess],
    roots: &Vec<usize>,
    kidsl: &Vec<Vec<usize>>,
    counts: &Vec<usize>,
    eco: &Vec<bool>,
    expanded: &HashSet<u32>,
    Ghost(ctx): Ghost<TreeCtx>,
) -> (rows: Vec<ProcessRow>)
    requires
        ctx.pids.len() == all@.len(),
        forall|x: int| 0 <= x < all@.len() ==> #[trigger] ctx.pids[x] == all@[x].pid,
        ctx.kids.len() == all@.len(),
        kidsl@.len() == all@.len(),
        forall|x: int| 0 <= x < all@.len() ==> (#[trigger] kidsl@[x])@ == ctx.kids[x],
        forall|x: int, k: int|
            0 <= x < all@.len() && 0 <= k < ctx.kids[x].len() ==> #[trigger] ctx.kids[x][k] < all@.len(),
        counts@ == ctx.count,
        counts@.len() == all@.len(),
        eco@ == ctx.eco,
        eco@.len() == all@.len(),
        ctx.net.len() == all@.len(),
        forall|x: int| 0 <= x < all@.len() ==> #[trigger] ctx.net[x] == all@[x].net_known,
        ctx.expanded == expanded@,
        forall|k: int| 0 <= k < roots@.len() ==> #[trigger] roots@[k] < all@.len(),
    ensures
        rows@ == tree_walk(ctx, stack_entries(roots@, 0), Set::empty()),
        forall|k: int| 0 <= k < rows@.len() ==> #[trigger] rows@[k].index < all@.len(),
{
    let n = all.len();
    let ghost range = vstd::set_lib::set_int_range(0, n as int);
    proof {
        vstd::set_lib::lemma_int_range(0, n as int);
    }
    let mut stack: Vec<(usize, usize)> = Vec::new();
    push_entries(&mut stack, roots, 0);
    assert(stack@ =~= stack_entries(roots@, 0));
    proof {
        lemma_stack_entries_shape(roots@, 0);
    }
    let mut visited: Vec<bool> = Vec::new();
    let mut k: usize = 0;
    while k < n
        invariant
            k <= n,
            visited@.len() == k,
            forall|j: int| 0 <= j < k ==> !visited@[j],
        decreases n - k,
    {
        visited.push(false);
        k = k + 1;
    }
    let ghost mut vset: Set<int> = Set::empty();
    let ghost init = stack@;
    let mut rows: Vec<ProcessRow> = Vec::new();
    assert(Set::<int>::empty().subset_of(Set::new(|x: int| 0 <= x < ctx.pids.len())));
    while stack.len() > 0
        invariant
            n == all@.len(),
            ctx.pids.len() == n,
            forall|x: int| 0 <= x < n ==> #[trigger] ctx.pids[x] == all@[x].pid,
            ctx.kids.len() == n,
            kidsl@.len() == n,
            forall|x: int| 0 <= x < n ==> (#[trigger] kidsl@[x])@ == ctx.kids[x],
            forall|x: int, k: int| 0 <= x < n && 0 <= k < ctx.kids[x].len() ==> #[trigger] ctx.kids[x][k] < n,
            counts@ == ctx.count,
            counts@.len() == n,
            eco@ == ctx.eco,
            eco@.len() == n,
            ctx.net.len() == n,
            forall|x: int| 0 <= x < n ==> #[trigger] ctx.net[x] == all@[x].net_known,
            ctx.expanded == expanded@,
            range == vstd::set_lib::set_int_range(0, n as int),
            range.finite(),
            range.len() == n,
            range =~= Set::new(|x: int| 0 <= x < ctx.pids.len()),
            visited@.len() == n,
            vset.finite(),
            vset.subset_of(range),
            forall|i: int| 0 <= i < n ==> (#[trigger] visited@[i] <==> vset.contains(i)),
            forall|e: int| 0 <= e < stack@.len() ==> (#[trigger] stack@[e]).0 < n && stack@[e].1 <= vset.len(),
            rows@ + tree_walk(ctx, stack@, vset) == tree_walk(ctx, init, Set::empty()),
            forall|k: int| 0 <= k < rows@.len() ==> #[trigger] rows@[k].index < n,
        decreases n - vset.len(), stack@.len(),
    {
        proof {
            vstd::set_lib::lemma_len_subset(vset, range);
        }
        let ghost before_stack = stack@;
        let (x, d) = match stack.pop() {
            Some(e) => e,
            None => return rows,
        };
        proof {
            assert(stack@ == before_stack.drop_last());
            assert((x, d) == before_stack.last());
        }
        if visited[x] {
            continue;
        }
        visited.set(x, true);
        let ghost old_vset = vset;
        proof {
            vset = vset.insert(x as int);
            assert(vset.len() == old_vset.len() + 1);
            vstd::set_lib::lemma_len_subset(vset, range);
        }
        let ks = &kidsl[x];
        let has_children = ks.len() > 0;
        let label_count = if counts[x] > 1 {
            Some(counts[x])
        } else {
            None
        };
        rows.push(
            ProcessRow {
                index: x,
                pid: all[x].pid,
                depth: d,
                label_count,
                children: has_children,
                values: RowValues::Subtree,
                power_throttled: eco[x],
                net_available: all[x].net_known,
            },
        );
        if has_children && expanded.contains(&all[x].pid) {
            push_entries(&mut stack, ks, d + 1);
            proof {
                lemma_stack_entries_shape(ks@, (d + 1) as usize);
            }
        }
        proof {
            let e = stack@;
            assert forall|i: int| 0 <= i < e.len() implies (#[trigger] e[i]).0 < n && e[i].1 <= vset.len() by {
                if i >= before_stack.len() - 1 {
                    let k2 = i - (before_stack.len() - 1);
                    assert(e[i] == stack_entries(ks@, (d + 1) as usize)[k2]);
                    assert(ks@[ks@.len() - 1 - k2] == ctx.kids[x as int][ks@.len() - 1 - k2]);
                } else {
                    assert(e[i] == before_stack[i]);
                }
            }
        }
    }
    rows
}

/// The discovery walk of `p`'s family: from the popped process, each
/// child not met before joins in child order and waits on the stack; a
/// child with another image than `p` ends the walk without a family.
pub open spec fn fam_walk(
    all: Seq<GroupProcess>,
    kl: Seq<Seq<usize>>,
    p: int,
    stack: Seq<usize>,
    pending: Seq<usize>,
    out: Seq<usize>,
    seen: Set<int>,
) -> Option<Seq<usize>>
    decreases all.len() - seen.len(), stack.len(), pending.len(),
    when seen.finite() && seen.subset_of(Set::new(|x: int| 0 <= x < all.len())) && (forall|k: int|
        0 <= k < pending.len() ==> #[trigger] pending[k] < all.len())
{
    if pending.len() > 0 {
        let k = pending[0];
        if seen.contains(k as int) {
            fam_walk(all, kl, p, stack, pending.drop_first(), out, seen)
        } else if !same_ignoring_ascii_case(all[k as int].name@, all[p].name@) {
            None
        } else {
            proof {
                let range = vstd::set_lib::set_int_range(0, all.len() as int);
                vstd::set_lib::lemma_int_range(0, all.len() as int);
                assert(Set::new(|y: int| 0 <= y < all.len()) =~= range);
                assert(seen.insert(k as int).len() == seen.len() + 1);
                vstd::set_lib::lemma_len_subset(seen.insert(k as int), range);
            }
            fam_walk(all, kl, p, stack.push(k), pending.drop_first(), out.push(k), seen.insert(k as int))
        }
    } else if stack.len() > 0 {
        fam_walk(all, kl, p, stack.drop_last(), kl[stack.last() as int], out, seen)
    } else {
        Some(out)
    }
}

/// The connected same-image family rooted at `p` (every display descendant,
/// `p` first, in discovery order), or `None` when some descendant runs
/// another executable image.
pub open spec fn family_of(all: Seq<GroupProcess>, kl: Seq<Seq<usize>>, p: int) -> Option<Seq<usize>> {
    fam_walk(all, kl, p, seq![p as usize], Seq::empty(), seq![p as usize], set![p])
}

/// The children lists of a forest over `n` processes.
pub open spec fn child_lists_ok(kl: Seq<Seq<usize>>, n: nat) -> bool {
    &&& kl.len() == n
    &&& forall|x: int, k: int| 0 <= x < n && 0 <= k < kl[x].len() ==> #[trigger] kl[x][k] < n
}

/// The family of `p` (see [`family_of`]).
fn same_image_family(all: &[GroupProcess], kl: &Vec<Vec<usize>>, p: usize) -> (f: Option<Vec<usize>>)
    requires
        child_lists_ok(kl@.map_values(|v: Vec<usize>| v@), all@.len()),
        p < all@.len(),
    ensures
        match f {
            Some(v) => family_of(all@, kl@.map_values(|v: Vec<usize>| v@), p as int) == Some(v@),
            None => family_of(all@, kl@.map_values(|v: Vec<usize>| v@), p as int) is None,
        },
        f matches Some(v) ==> forall|k: int| 0 <= k < v@.len() ==> #[trigger] v@[k] < all@.len(),
        f matches Some(v) ==> v@.len() >= 1 && v@[0] == p,
{
    let ghost kls = kl@.map_values(|v: Vec<usize>| v@);
    let n = all.len();
    let ghost range = vstd::set_lib::set_int_range(0, n as int);
    proof {
        vstd::set_lib::lemma_int_range(0, n as int);
        assert(range =~= Set::new(|y: int| 0 <= y < all@.len()));
    }
    let mut seen: Vec<bool> = Vec::new();
    let mut i: usize = 0;
    while i < n
        invariant
            i <= n,
            seen@.len() == i,
            forall|j: int| 0 <= j < i ==> !seen@[j],
        decreases n - i,
    {
        seen.push(false);
        i = i + 1;
    }
    seen.set(p, true);
    let ghost mut sset: Set<int> = set![p as int];
    let mut out: Vec<usize> = Vec::new();
    out.push(p);
    let mut stack: Vec<usize> = Vec::new();
    stack.push(p);
    let mut cur: usize = p;
    let mut j: usize = kl[p].len();
    proof {
        assert(kls[p as int] == kl@[p as int]@);
        assert(kl@[p as int]@.skip(j as int) =~= Seq::<usize>::empty());
        assert(out@ =~= seq![p]);
        assert(stack@ =~= seq![p]);
        assert(sset.subset_of(range));
        assert(sset.len() == 1);
    }
    loop
        invariant
            n == all@.len(),
            kls == kl@.map_values(|v: Vec<usize>| v@),
            child_lists_ok(kls, n as nat),
            range == vstd::set_lib::set_int_range(0, n as int),
            range.finite(),
            range.len() == n,
            range =~= Set::new(|y: int| 0 <= y < all@.len()),
            p < n,
            cur < n,
            j <= kl@[cur as int]@.len(),
            seen@.len() == n,
            sset.finite(),
            sset.subset_of(range),
            forall|x: int| 0 <= x < n ==> (#[trigger] seen@[x] <==> sset.contains(x)),
            forall|k: int| 0 <= k < out@.len() ==> #[trigger] out@[k] < n,
            forall|k: int| 0 <= k < stack@.len() ==> #[trigger] stack@[k] < n,
            out@.len() >= 1,
            out@[0] == p,
            family_of(all@, kls, p as int) == fam_walk(
                all@,
                kls,
                p as int,
                stack@,
                kl@[cur as int]@.skip(j as int),
                out@,
                sset,
            ),
        decreases n - sset.len(), stack@.len(), kl@[cur as int]@.len() - j,
    {
        proof {
            vstd::set_lib::lemma_len_subset(sset, range);
            assert(kls[cur as int] == kl@[cur as int]@);
        }
        if j < kl[cur].len() {
            let k = kl[cur][j];
            proof {
                let pend = kl@[cur as int]@.skip(j as int);
                assert(pend[0] == k);
                assert(pend.drop_first() =~= kl@[cur as int]@.skip(j + 1));
                assert(kls[cur as int][j as int] == k);
            }
            if seen[k] {
                j = j + 1;
            } else if !eq_ignore_ascii_case(all[k].name.as_str(), all[p].name.as_str()) {
                return None;
            } else {
                seen.set(k, true);
                proof {
                    let old_set = sset;
                    assert(!old_set.contains(k as int));
                    sset = sset.insert(k as int);
                    assert(sset.len() == old_set.len() + 1);
                    assert(sset.subset_of(range));
                    vstd::set_lib::lemma_len_subset(sset, range);
                }
                out.push(k);
                stack.push(k);
                j = j + 1;
            }
        } else if stack.len() > 0 {
            let ghost before = stack@;
            let c = match stack.pop() {
                Some(c) => c,
                None => p,
            };
            proof {
                assert(stack@ == before.drop_last());
                assert(c == before.last());
                assert(kls[c as int] == kl@[c as int]@);
                assert(kl@[c as int]@.skip(0) =~= kl@[c as int]@);
            }
            cur = c;
            j = 0;
        } else {
            return Some(out);
        }
    }
}

/// Whether member `p` heads a collapsible family of two or more.
pub open spec fn is_head(all: Seq<GroupProcess>, kl: Seq<Seq<usize>>, p: int) -> bool {
    family_of(all, kl, p) matches Some(f) && f.len() > 1
}

/// Whether member `x` is folded into the row of some member's family.
pub open spec fn swallowed(all: Seq<GroupProcess>, kl: Seq<Seq<usize>>, mem: Seq<bool>, x: int) -> bool {
    exists|p: int|
        0 <= p < all.len() && mem[p] && is_head(all, kl, p) && (#[trigger] family_of(all, kl, p))->0.drop_first().contains(
            x as usize,
        )
}

/// The members below `upto` that are not folded into a family row, in
/// index order.
pub open spec fn flat_display_upto(all: Seq<GroupProcess>, kl: Seq<Seq<usize>>, mem: Seq<bool>, upto: nat) -> Seq<usize>
    decreases upto,
{
    if upto == 0 {
        Seq::empty()
    } else {
        let prev = flat_display_upto(all, kl, mem, (upto - 1) as nat);
        if mem[upto - 1] && !swallowed(all, kl, mem, upto - 1) {
            prev.push((upto - 1) as usize)
        } else {
            prev
        }
    }
}

/// The sort key of a flat row: the family sums for a family row, the
/// process's own values otherwise.
pub open spec fn repr_key(all: Seq<GroupProcess>, kl: Seq<Seq<usize>>, sub: Seq<u64>, own: Seq<u64>) -> Seq<u64> {
    Seq::new(all.len(), |x: int| if is_head(all, kl, x) { sub[x] } else { own[x] })
}

/// Whether some member of `f` is power throttled.
pub open spec fn any_throttled(all: Seq<GroupProcess>, f: Seq<usize>) -> bool {
    exists|i: int| 0 <= i < f.len() && #[trigger] all[f[i] as int].power_throttled
}

/// Whether some member of `f` has a measured network rate.
pub open spec fn any_net(all: Seq<GroupProcess>, f: Seq<usize>) -> bool {
    exists|i: int| 0 <= i < f.len() && #[trigger] all[f[i] as int].net_known
}

/// The row of a process showing its own values.
pub open spec fn own_row(all: Seq<GroupProcess>, x: int, depth: usize) -> ProcessRow {
    ProcessRow {
        index: x as usize,
        pid: all[x].pid,
        depth,
        label_count: None,
        children: false,
        values: RowValues::Own,
        power_throttled: all[x].power_throttled,
        net_available: all[x].net_known,
    }
}

/// The collapsible "Name (N)" row of family `f` headed by `x`.
pub open spec fn head_row(all: Seq<GroupProcess>, x: int, f: Seq<usize>) -> ProcessRow {
    ProcessRow {
        index: x as usize,
        pid: all[x].pid,
        depth: 0,
        label_count: Some(f.len() as usize),
        children: true,
        values: RowValues::Subtree,
        power_throttled: any_throttled(all, f),
        net_available: any_net(all, f),
    }
}

/// What the flat lists read besides the processes.
pub struct FlatCtx {
    pub kl: Seq<Seq<usize>>,
    pub column: usize,
    pub ascending: bool,
    pub own: Seq<u64>,
    pub expanded: Set<u32>,
}

/// The rows of one flat entry: a family row, followed by its other members
/// one level deeper while it is expanded, or a plain row.
pub open spec fn flat_entry_rows(all: Seq<GroupProcess>, ctx: FlatCtx, x: int) -> Seq<ProcessRow> {
    if is_head(all, ctx.kl, x) {
        let f = family_of(all, ctx.kl, x)->0;
        let members = stable_sorted(f.drop_first(), before_rel(all, ctx.column, ctx.ascending, ctx.own));
        seq![head_row(all, x, f)] + if ctx.expanded.contains(all[x].pid) {
            members.map_values(|k: usize| own_row(all, k as int, 1))
        } else {
            Seq::empty()
        }
    } else {
        seq![own_row(all, x, 0)]
    }
}

/// The rows of the flat entries `order`, in order.
pub open spec fn flat_rows_of(all: Seq<GroupProcess>, ctx: FlatCtx, order: Seq<usize>) -> Seq<ProcessRow>
    decreases order.len(),
{
    if order.len() == 0 {
        Seq::empty()
    } else {
        flat_rows_of(all, ctx, order.drop_last()) + flat_entry_rows(all, ctx, order.last() as int)
    }
}

fn any_flag_throttled(all: &[GroupProcess], f: &Vec<usize>) -> (b: bool)
    requires
        forall|k: int| 0 <= k < f@.len() ==> #[trigger] f@[k] < all@.len(),
    ensures
        b == any_throttled(all@, f@),
{
    let mut i: usize = 0;
    while i < f.len()
        invariant
            i <= f@.len(),
            forall|k: int| 0 <= k < f@.len() ==> #[trigger] f@[k] < all@.len(),
            forall|k: int| 0 <= k < i ==> !#[trigger] all@[f@[k] as int].power_throttled,
        decreases f@.len() - i,
    {
        if all[f[i]].power_throttled {
            return true;
        }
        i = i + 1;
    }
    false
}

fn any_flag_net(all: &[GroupProcess], f: &Vec<usize>) -> (b: bool)
    requires
        forall|k: int| 0 <= k < f@.len() ==> #[trigger] f@[k] < all@.len(),
    ensures
        b == any_net(all@, f@),
{
    let mut i: usize = 0;
    while i < f.len()
        invariant
            i <= f@.len(),
            forall|k: int| 0 <= k < f@.len() ==> #[trigger] f@[k] < all@.len(),
            forall|k: int| 0 <= k < i ==> !#[trigger] all@[f@[k] as int].net_known,
        decreases f@.len() - i,
    {
        if all[f[i]].net_known {
            return true;
        }
        i = i + 1;
    }
    false
}

/// Every family, and which processes head one.
fn families(all: &[GroupProcess], kl: &Vec<Vec<usize>>) -> (r: (Vec<bool>, Vec<Vec<usize>>))
    requires
        child_lists_ok(kl@.map_values(|v: Vec<usize>| v@), all@.len()),
    ensures
        r.0@.len() == all@.len(),
        r.1@.len() == all@.len(),
        forall|p: int| 0 <= p < all@.len() ==> (#[trigger] r.0@[p] <==> is_head(all@, kl@.map_values(|v: Vec<usize>| v@), p)),
        forall|p: int|
            0 <= p < all@.len() && r.0@[p] ==> Some((#[trigger] r.1@[p])@) == family_of(
                all@,
                kl@.map_values(|v: Vec<usize>| v@),
                p,
            ),
        forall|p: int, k: int|
            0 <= p < all@.len() && 0 <= k < r.1@[p]@.len() ==> #[trigger] r.1@[p]@[k] < all@.len(),
{
    let ghost kls = kl@.map_values(|v: Vec<usize>| v@);
    let n = all.len();
    let mut heads: Vec<bool> = Vec::new();
    let mut fams: Vec<Vec<usize>> = Vec::new();
    let mut p: usize = 0;
    while p < n
        invariant
            n == all@.len(),
            p <= n,
            kls == kl@.map_values(|v: Vec<usize>| v@),
            child_lists_ok(kls, n as nat),
            heads@.len() == p,
            fams@.len() == p,
            forall|q: int| 0 <= q < p ==> (#[trigger] heads@[q] <==> is_head(all@, kls, q)),
            forall|q: int| 0 <= q < p && heads@[q] ==> Some((#[trigger] fams@[q])@) == family_of(all@, kls, q),
            forall|q: int, k: int| 0 <= q < p && 0 <= k < fams@[q]@.len() ==> #[trigger] fams@[q]@[k] < n,
        decreases n - p,
    {
        match same_image_family(all, kl, p) {
            Some(f) => {
                let h = f.len() > 1;
                heads.push(h);
                fams.push(f);
            },
            None => {
                heads.push(false);
                fams.push(Vec::new());
            },
        }
        p = p + 1;
    }
    (heads, fams)
}

/// Emit a flat Background or Windows list: every member its own row, except
/// that a connected family sharing one image collapses into one expandable
/// "Name (N)" row with the family sums.
fn emit_flat(
    all: &[GroupProcess],
    kl: &Vec<Vec<usize>>,
    mem: &Vec<bool>,
    column: usize,
    ascending: bool,
    sub: &Vec<u64>,
    own: &Vec<u64>,
    expanded: &HashSet<u32>,
) -> (rows: Vec<ProcessRow>)
    requires
        child_lists_ok(kl@.map_values(|v: Vec<usize>| v@), all@.len()),
        mem@.len() == all@.len(),
        sub@.len() == all@.len(),
        own@.len() == all@.len(),
    ensures
        ({
            let kls = kl@.map_values(|v: Vec<usize>| v@);
            let ctx = FlatCtx { kl: kls, column, ascending, own: own@, expanded: expanded@ };
            rows@ == flat_rows_of(
                all@,
                ctx,
                stable_sorted(
                    flat_display_upto(all@, kls, mem@, all@.len()),
                    before_rel(all@, column, ascending, repr_key(all@, kls, sub@, own@)),
                ),
            )
        }),
        forall|k: int| 0 <= k < rows@.len() ==> #[trigger] rows@[k].index < all@.len(),
{
    let ghost kls = kl@.map_values(|v: Vec<usize>| v@);
    let ghost ctx = FlatCtx { kl: kls, column, ascending, own: own@, expanded: expanded@ };
    let n = all.len();
    let (heads, fams) = families(all, kl);
    let mut sw: Vec<bool> = Vec::new();
    let mut i: usize = 0;
    while i < n
        invariant
            i <= n,
            sw@.len() == i,
            forall|j: int| 0 <= j < i ==> !sw@[j],
        decreases n - i,
    {
        sw.push(false);
        i = i + 1;
    }
    let mut p: usize = 0;
    while p < n
        invariant
            n == all@.len(),
            p <= n,
            kls == kl@.map_values(|v: Vec<usize>| v@),
            mem@.len() == n,
            heads@.len() == n,
            fams@.len() == n,
            forall|q: int| 0 <= q < n ==> (#[trigger] heads@[q] <==> is_head(all@, kls, q)),
            forall|q: int| 0 <= q < n && heads@[q] ==> Some((#[trigger] fams@[q])@) == family_of(all@, kls, q),
            forall|q: int, k: int| 0 <= q < n && 0 <= k < fams@[q]@.len() ==> #[trigger] fams@[q]@[k] < n,
            sw@.len() == n,
            forall|x: int|
                0 <= x < n ==> (#[trigger] sw@[x] <==> exists|q: int|
                    0 <= q < p && mem@[q] && is_head(all@, kls, q) && (#[trigger] family_of(all@, kls, q))->0.drop_first().contains(
                        x as usize,
                    )),
        decreases n - p,
    {
        if mem[p] && heads[p] {
            let f = &fams[p];
            let ghost sw0 = sw@;
            let mut k: usize = 1;
            while k < f.len()
                invariant
                    n == all@.len(),
                    p < n,
                    1 <= k <= f@.len() || f@.len() == 0,
                    forall|t: int| 0 <= t < f@.len() ==> #[trigger] f@[t] < n,
                    sw@.len() == n,
                    forall|x: int|
                        0 <= x < n ==> (#[trigger] sw@[x] <==> (sw0[x] || exists|t: int|
                            1 <= t < k && f@[t] as int == x)),
                decreases f@.len() - k,
            {
                sw.set(f[k], true);
                k = k + 1;
            }
            proof {
                let fam = family_of(all@, kls, p as int)->0;
                assert(fam == f@);
                assert forall|x: int|
                    0 <= x < n implies (#[trigger] sw@[x] <==> exists|q: int|
                        0 <= q < p + 1 && mem@[q] && is_head(all@, kls, q) && (#[trigger] family_of(
                            all@,
                            kls,
                            q,
                        ))->0.drop_first().contains(x as usize)) by {
                    if sw@[x] && !sw0[x] {
                        let t = choose|t: int| 1 <= t < k && f@[t] as int == x;
                        assert(fam.drop_first()[t - 1] == x as usize);
                        assert(family_of(all@, kls, p as int)->0.drop_first().contains(x as usize));
                    }
                    if exists|q: int|
                        0 <= q < p + 1 && mem@[q] && is_head(all@, kls, q) && (#[trigger] family_of(
                            all@,
                            kls,
                            q,
                        ))->0.drop_first().contains(x as usize) {
                        let q = choose|q: int|
                            0 <= q < p + 1 && mem@[q] && is_head(all@, kls, q) && (#[trigger] family_of(
                                all@,
                                kls,
                                q,
                            ))->0.drop_first().contains(x as usize);
                        if q == p {
                            let w = choose|w: int| 0 <= w < fam.drop_first().len() && fam.drop_first()[w] == x as usize;
                            assert(f@[w + 1] as int == x);
                        }
                    }
                }
            }
        }
        p = p + 1;
    }
    let mut display: Vec<usize> = Vec::new();
    let mut i: usize = 0;
    while i < n
        invariant
            n == all@.len(),
            i <= n,
            kls == kl@.map_values(|v: Vec<usize>| v@),
            mem@.len() == n,
            sw@.len() == n,
            forall|x: int| 0 <= x < n ==> (#[trigger] sw@[x] <==> swallowed(all@, kls, mem@, x)),
            display@ == flat_display_upto(all@, kls, mem@, i as nat),
            forall|k: int| 0 <= k < display@.len() ==> #[trigger] display@[k] < n,
        decreases n - i,
    {
        if mem[i] && !sw[i] {
            display.push(i);
        }
        i = i + 1;
    }
    let mut repr: Vec<u64> = Vec::new();
    let mut i: usize = 0;
    while i < n
        invariant
            n == all@.len(),
            i <= n,
            heads@.len() == n,
            forall|q: int| 0 <= q < n ==> (#[trigger] heads@[q] <==> is_head(all@, kls, q)),
            sub@.len() == n,
            own@.len() == n,
            repr@.len() == i,
            forall|x: int| 0 <= x < i ==> #[trigger] repr@[x] == repr_key(all@, kls, sub@, own@)[x],
        decreases n - i,
    {
        repr.push(if heads[i] { sub[i] } else { own[i] });
        i = i + 1;
    }
    assert(repr@ =~= repr_key(all@, kls, sub@, own@));
    let order = sort_entries(all, &display, column, ascending, &repr);
    let mut rows: Vec<ProcessRow> = Vec::new();
    let mut k: usize = 0;
    while k < order.len()
        invariant
            n == all@.len(),
            kls == kl@.map_values(|v: Vec<usize>| v@),
            ctx == (FlatCtx { kl: kls, column, ascending, own: own@, expanded: expanded@ }),
            own@.len() == n,
            heads@.len() == n,
            fams@.len() == n,
            forall|q: int| 0 <= q < n ==> (#[trigger] heads@[q] <==> is_head(all@, kls, q)),
            forall|q: int| 0 <= q < n && heads@[q] ==> Some((#[trigger] fams@[q])@) == family_of(all@, kls, q),
            forall|q: int, t: int| 0 <= q < n && 0 <= t < fams@[q]@.len() ==> #[trigger] fams@[q]@[t] < n,
            forall|t: int| 0 <= t < order@.len() ==> #[trigger] order@[t] < n,
            k <= order@.len(),
            rows@ == flat_rows_of(all@, ctx, order@.subrange(0, k as int)),
            forall|t: int| 0 <= t < rows@.len() ==> #[trigger] rows@[t].index < n,
        decreases order@.len() - k,
    {
        let x = order[k];
        let ghost before = rows@;
        proof {
            assert(order@.subrange(0, k + 1).drop_last() =~= order@.subrange(0, k as int));
            assert(order@.subrange(0, k + 1).last() == x);
        }
        if heads[x] {
            let f = &fams[x];
            let throttled = any_flag_throttled(all, f);
            let net = any_flag_net(all, f);
            rows.push(
                ProcessRow {
                    index: x,
                    pid: all[x].pid,
                    depth: 0,
                    label_count: Some(f.len()),
                    children: true,
                    values: RowValues::Subtree,
                    power_throttled: throttled,
                    net_available: net,
                },
            );
            let ghost head_rows = rows@;
            if expanded.contains(&all[x].pid) {
                let mut rest: Vec<usize> = Vec::new();
                let mut t: usize = 1;
                while t < f.len()
                    invariant
                        1 <= t,
                        t <= f@.len() || f@.len() == 0,
                        rest@ == f@.subrange(1, t as int),
                    decreases f@.len() - t,
                {
                    rest.push(f[t]);
                    t = t + 1;
                    assert(rest@ =~= f@.subrange(1, t as int));
                }
                proof {
                    assert(f@.len() > 1);
                    assert(rest@ =~= f@.drop_first());
                    assert forall|u: int| 0 <= u < rest@.len() implies #[trigger] rest@[u] < n by {
                        assert(rest@[u] == f@[u + 1]);
                    }
                }
                let members = sort_entries(all, &rest, column, ascending, own);
                let mut u: usize = 0;
                while u < members.len()
                    invariant
                        n == all@.len(),
                        forall|v: int| 0 <= v < members@.len() ==> #[trigger] members@[v] < n,
                        u <= members@.len(),
                        rows@ == head_rows + members@.subrange(0, u as int).map_values(
                            |m: usize| own_row(all@, m as int, 1),
                        ),
                        forall|t: int| 0 <= t < rows@.len() ==> #[trigger] rows@[t].index < n,
                    decreases members@.len() - u,
                {
                    let m = members[u];
                    rows.push(
                        ProcessRow {
                            index: m,
                            pid: all[m].pid,
                            depth: 1,
                            label_count: None,
                            children: false,
                            values: RowValues::Own,
                            power_throttled: all[m].power_throttled,
                            net_available: all[m].net_known,
                        },
                    );
                    u = u + 1;
                    assert(rows@ =~= head_rows + members@.subrange(0, u as int).map_values(
                        |m: usize| own_row(all@, m as int, 1),
                    ));
                }
                assert(members@.subrange(0, members@.len() as int) =~= members@);
            }
            proof {
                let fam = family_of(all@, kls, x as int)->0;
                assert(fam == f@);
                assert(flat_entry_rows(all@, ctx, x as int) =~= rows@.subrange(before.len() as int, rows@.len() as int));
                assert(rows@ =~= before + flat_entry_rows(all@, ctx, x as int));
            }
        } else {
            rows.push(
                ProcessRow {
                    index: x,
                    pid: all[x].pid,
                    depth: 0,
                    label_count: None,
                    children: false,
                    values: RowValues::Own,
                    power_throttled: all[x].power_throttled,
                    net_available: all[x].net_known,
                },
            );
            assert(rows@ =~= before + flat_entry_rows(all@, ctx, x as int));
        }
        k = k + 1;
    }
    assert(order@.subrange(0, order@.len() as int) =~= order@);
    rows
}

/// The category group `gi` shows: Apps, Background, then Windows.
pub open spec fn group_category(gi: int) -> ProcCategory {
    if gi == 0 {
        ProcCategory::App
    } else if gi == 1 {
        ProcCategory::Background
    } else {
        ProcCategory::System
    }
}

/// Which processes group `gi` holds.
pub open spec fn group_members(all: Seq<GroupProcess>, gi: int) -> Seq<bool> {
    Seq::new(all.len(), |x: int| spec_category(all, x) == group_category(gi))
}

/// How many entries of `mem` below `upto` are set.
pub open spec fn count_set(mem: Seq<bool>, upto: nat) -> nat
    decreases upto,
{
    if upto == 0 {
        0
    } else {
        count_set(mem, (upto - 1) as nat) + if mem[upto - 1] {
            1nat
        } else {
            0nat
        }
    }
}

/// The display children of every process, in index order.
pub open spec fn display_kids(all: Seq<GroupProcess>) -> Seq<Seq<usize>> {
    Seq::new(all.len(), |x: int| kids(display_parents(all), x))
}

/// The tree walk's inputs for `all` under the given sort.
pub open spec fn app_tree_ctx(
    all: Seq<GroupProcess>,
    column: usize,
    ascending: bool,
    sub: Seq<u64>,
    expanded: Set<u32>,
) -> TreeCtx {
    let dp = display_parents(all);
    TreeCtx {
        pids: Seq::new(all.len(), |x: int| all[x].pid),
        kids: Seq::new(all.len(), |x: int| stable_sorted(kids(dp, x), before_rel(all, column, ascending, sub))),
        count: Seq::new(all.len(), |x: int| subtree_count(dp, x) as usize),
        eco: Seq::new(all.len(), |x: int| subtree_any(dp, Seq::new(all.len(), |y: int| all[y].power_throttled), x)),
        net: Seq::new(all.len(), |x: int| all[x].net_known),
        expanded,
    }
}

/// The roots of the Apps tree in display order.
pub open spec fn app_roots_sorted(all: Seq<GroupProcess>, column: usize, ascending: bool, sub: Seq<u64>) -> Seq<usize> {
    stable_sorted(member_roots(display_parents(all), group_members(all, 0)), before_rel(all, column, ascending, sub))
}

/// The process rows group `gi` emits.
pub open spec fn group_body(
    all: Seq<GroupProcess>,
    gi: int,
    column: usize,
    ascending: bool,
    sub: Seq<u64>,
    own: Seq<u64>,
    expanded: Set<u32>,
) -> Seq<ProcessRow> {
    if gi == 0 {
        tree_walk(
            app_tree_ctx(all, column, ascending, sub, expanded),
            stack_entries(app_roots_sorted(all, column, ascending, sub), 0),
            Set::empty(),
        )
    } else {
        let kl = display_kids(all);
        let ctx = FlatCtx { kl, column, ascending, own, expanded };
        flat_rows_of(
            all,
            ctx,
            stable_sorted(
                flat_display_upto(all, kl, group_members(all, gi), all.len()),
                before_rel(all, column, ascending, repr_key(all, kl, sub, own)),
            ),
        )
    }
}

/// The count in group `gi`'s header: top-level app groups for Apps (as
/// native Task Manager counts them), processes for Background and Windows.
pub open spec fn group_total(all: Seq<GroupProcess>, gi: int) -> nat {
    if gi == 0 {
        member_roots(display_parents(all), group_members(all, 0)).len()
    } else {
        count_set(group_members(all, gi), all.len())
    }
}

/// Process rows as page rows.
pub open spec fn as_rows(rows: Seq<ProcessRow>) -> Seq<DisplayRow> {
    rows.map_values(|r: ProcessRow| DisplayRow::Process(r))
}

/// The rows of group `gi`: its header in the name and status views, then
/// its process rows unless the header is collapsed there.
pub open spec fn group_rows(
    all: Seq<GroupProcess>,
    gi: int,
    column: usize,
    ascending: bool,
    sub: Seq<u64>,
    own: Seq<u64>,
    expanded: Set<u32>,
    collapsed: bool,
) -> Seq<DisplayRow> {
    if column < 2 {
        seq![DisplayRow::GroupHeader(gi as u8, group_total(all, gi) as usize)] + if collapsed {
            Seq::empty()
        } else {
            as_rows(group_body(all, gi, column, ascending, sub, own, expanded))
        }
    } else {
        as_rows(group_body(all, gi, column, ascending, sub, own, expanded))
    }
}

/// The row of a search match: flat, with the process's subtree sums.
pub open spec fn search_row(all: Seq<GroupProcess>, x: int) -> ProcessRow {
    ProcessRow {
        index: x as usize,
        pid: all[x].pid,
        depth: 0,
        label_count: None,
        children: false,
        values: RowValues::Subtree,
        power_throttled: all[x].power_throttled,
        net_available: all[x].net_known,
    }
}

/// The matching processes below `upto`, in index order.
pub open spec fn matches_upto(all: Seq<GroupProcess>, upto: nat) -> Seq<usize>
    decreases upto,
{
    if upto == 0 {
        Seq::empty()
    } else {
        let prev = matches_upto(all, (upto - 1) as nat);
        if all[upto - 1].matches {
            prev.push((upto - 1) as usize)
        } else {
            prev
        }
    }
}

/// The search view: every match, flat and sorted.
pub open spec fn search_rows(all: Seq<GroupProcess>, column: usize, ascending: bool, sub: Seq<u64>) -> Seq<DisplayRow> {
    as_rows(
        stable_sorted(matches_upto(all, all.len()), before_rel(all, column, ascending, sub)).map_values(
            |x: usize| search_row(all, x as int),
        ),
    )
}

/// The rows cut into blocks: each top-level row starts a block, and deeper
/// rows ride along with the block before them.
pub open spec fn blocks_of(rows: Seq<ProcessRow>) -> Seq<Seq<ProcessRow>>
    decreases rows.len(),
{
    if rows.len() == 0 {
        Seq::empty()
    } else {
        let prev = blocks_of(rows.drop_last());
        let d = rows.last();
        if d.depth == 0 {
            prev.push(seq![d])
        } else if prev.len() > 0 {
            prev.update(prev.len() - 1, prev.last().push(d))
        } else {
            prev
        }
    }
}

/// The rank a block sorts by: its head row's value.
pub open spec fn block_key(b: Seq<ProcessRow>, sub: Seq<u64>, own: Seq<u64>) -> u64 {
    if b[0].values == RowValues::Subtree {
        sub[b[0].index as int]
    } else {
        own[b[0].index as int]
    }
}

/// The order blocks are sorted in.
pub open spec fn block_before(ascending: bool, sub: Seq<u64>, own: Seq<u64>) -> spec_fn(
    Seq<ProcessRow>,
    Seq<ProcessRow>,
) -> bool {
    |a: Seq<ProcessRow>, b: Seq<ProcessRow>|
        if ascending {
            block_key(a, sub, own) < block_key(b, sub, own)
        } else {
            block_key(a, sub, own) > block_key(b, sub, own)
        }
}

/// The blocks laid end to end.
pub open spec fn flatten_blocks(bs: Seq<Seq<ProcessRow>>) -> Seq<ProcessRow>
    decreases bs.len(),
{
    if bs.len() == 0 {
        Seq::empty()
    } else {
        flatten_blocks(bs.drop_last()) + bs.last()
    }
}

/// The resource-sorted view: whole blocks (a top-level row with its
/// expanded rows) sorted by their head's value, so expanded families stay
/// attached while the heads compete across all groups.
pub open spec fn resource_rows(rows: Seq<ProcessRow>, ascending: bool, sub: Seq<u64>, own: Seq<u64>) -> Seq<ProcessRow> {
    flatten_blocks(stable_sorted(blocks_of(rows), block_before(ascending, sub, own)))
}

/// The views of a list of row vectors.
pub open spec fn block_views(bs: Seq<Vec<ProcessRow>>) -> Seq<Seq<ProcessRow>> {
    bs.map_values(|v: Vec<ProcessRow>| v@)
}

fn block_key_exec(b: &Vec<ProcessRow>, sub: &Vec<u64>, own: &Vec<u64>) -> (k: u64)
    requires
        b@.len() > 0,
        b@[0].index < sub@.len(),
        b@[0].index < own@.len(),
    ensures
        k == block_key(b@, sub@, own@),
{
    let h = b[0];
    match h.values {
        RowValues::Subtree => sub[h.index],
        RowValues::Own => own[h.index],
    }
}

fn block_sorts_before(a: &Vec<ProcessRow>, b: &Vec<ProcessRow>, ascending: bool, sub: &Vec<u64>, own: &Vec<u64>) -> (r: bool)
    requires
        a@.len() > 0,
        b@.len() > 0,
        a@[0].index < sub@.len(),
        b@[0].index < sub@.len(),
        sub@.len() == own@.len(),
    ensures
        r == block_before(ascending, sub@, own@)(a@, b@),
{
    let ka = block_key_exec(a, sub, own);
    let kb = block_key_exec(b, sub, own);
    if ascending {
        ka < kb
    } else {
        ka > kb
    }
}

/// Sort whole blocks by their head's value (see [`resource_rows`]).
fn sort_blocks_globally(rows: Vec<ProcessRow>, ascending: bool, sub: &Vec<u64>, own: &Vec<u64>) -> (out: Vec<ProcessRow>)
    requires
        forall|k: int| 0 <= k < rows@.len() ==> #[trigger] rows@[k].index < sub@.len(),
        sub@.len() == own@.len(),
    ensures
        out@ == resource_rows(rows@, ascending, sub@, own@),
{
    let ghost all_rows = rows@;
    let mut blocks: Vec<Vec<ProcessRow>> = Vec::new();
    let mut cur: Vec<ProcessRow> = Vec::new();
    let mut started: bool = false;
    let mut i: usize = 0;
    while i < rows.len()
        invariant
            all_rows == rows@,
            i <= rows@.len(),
            forall|k: int| 0 <= k < rows@.len() ==> #[trigger] rows@[k].index < sub@.len(),
            started ==> cur@.len() > 0,
            blocks_of(rows@.subrange(0, i as int)) == if started {
                block_views(blocks@).push(cur@)
            } else {
                block_views(blocks@)
            },
            !started ==> blocks@.len() == 0,
            forall|b: int| 0 <= b < blocks@.len() ==> (#[trigger] blocks@[b])@.len() > 0,
            forall|b: int| 0 <= b < blocks@.len() ==> (#[trigger] blocks@[b])@[0].index < sub@.len(),
            started ==> cur@[0].index < sub@.len(),
        decreases rows@.len() - i,
    {
        let d = rows[i];
        proof {
            assert(rows@.subrange(0, i + 1).drop_last() =~= rows@.subrange(0, i as int));
            assert(rows@.subrange(0, i + 1).last() == d);
        }
        if d.depth == 0 {
            if started {
                let done = cur;
                blocks.push(done);
            }
            cur = Vec::new();
            cur.push(d);
            started = true;
            proof {
                assert(block_views(blocks@) =~= blocks_of(rows@.subrange(0, i as int)));
                assert(cur@ =~= seq![d]);
            }
        } else if started {
            let ghost before = cur@;
            cur.push(d);
            proof {
                let prev = blocks_of(rows@.subrange(0, i as int));
                assert(prev.update(prev.len() - 1, prev.last().push(d)) =~= block_views(blocks@).push(cur@));
            }
        }
        i = i + 1;
    }
    proof {
        assert(rows@.subrange(0, rows@.len() as int) =~= rows@);
    }
    let ghost blocks_before = blocks@;
    if started {
        blocks.push(cur);
        proof {
            assert(block_views(blocks@) =~= block_views(blocks_before).push(cur@));
        }
    }
    assert(block_views(blocks@) == blocks_of(rows@));
    let ghost rel = block_before(ascending, sub@, own@);
    let ghost bv = block_views(blocks@);
    let mut sorted: Vec<Vec<ProcessRow>> = Vec::new();
    let mut k: usize = 0;
    let n_blocks = blocks.len();
    let mut remaining = blocks;
    let mut taken: Vec<Vec<ProcessRow>> = Vec::new();
    while k < n_blocks
        invariant
            n_blocks == bv.len(),
            k <= n_blocks,
            rel == block_before(ascending, sub@, own@),
            bv.len() == remaining@.len() + k,
            forall|b: int| 0 <= b < remaining@.len() ==> (#[trigger] remaining@[b])@ == bv[b + k],
            forall|b: int| 0 <= b < bv.len() ==> (#[trigger] bv[b]).len() > 0 && bv[b][0].index < sub@.len(),
            sub@.len() == own@.len(),
            block_views(sorted@) == stable_sorted(bv.subrange(0, k as int), rel),
            forall|b: int| 0 <= b < sorted@.len() ==> (#[trigger] sorted@[b])@.len() > 0 && sorted@[b]@[0].index < sub@.len(),
        decreases n_blocks - k,
    {
        let b = remaining.remove(0);
        proof {
            assert(b@ == bv[k as int]);
        }
        let mut p: usize = 0;
        while p < sorted.len() && !block_sorts_before(&b, &sorted[p], ascending, sub, own)
            invariant
                p <= sorted@.len(),
                b@.len() > 0,
                b@[0].index < sub@.len(),
                sub@.len() == own@.len(),
                rel == block_before(ascending, sub@, own@),
                forall|c: int| 0 <= c < sorted@.len() ==> (#[trigger] sorted@[c])@.len() > 0 && sorted@[c]@[0].index < sub@.len(),
                forall|c: int| 0 <= c < p ==> !rel(b@, #[trigger] block_views(sorted@)[c]),
            decreases sorted@.len() - p,
        {
            proof {
                assert(block_views(sorted@)[p as int] == sorted@[p as int]@);
            }
            p = p + 1;
        }
        proof {
            if p < sorted@.len() {
                assert(block_views(sorted@)[p as int] == sorted@[p as int]@);
            }
            lemma_insert_by_at(block_views(sorted@), b@, rel, p as int);
            assert(bv.subrange(0, k + 1).drop_last() =~= bv.subrange(0, k as int));
            assert(bv.subrange(0, k + 1).last() == b@);
        }
        let ghost before = sorted@;
        sorted.insert(p, b);
        proof {
            assert(block_views(sorted@) =~= block_views(before).subrange(0, p as int) + seq![bv[k as int]]
                + block_views(before).subrange(p as int, before.len() as int));
        }
        k = k + 1;
    }
    assert(bv.subrange(0, bv.len() as int) =~= bv);
    let ghost sv = block_views(sorted@);
    let mut out: Vec<ProcessRow> = Vec::new();
    let mut b: usize = 0;
    while b < sorted.len()
        invariant
            b <= sorted@.len(),
            sv == block_views(sorted@),
            out@ == flatten_blocks(sv.subrange(0, b as int)),
        decreases sorted@.len() - b,
    {
        let blk = &sorted[b];
        let ghost before = out@;
        let mut t: usize = 0;
        while t < blk.len()
            invariant
                t <= blk@.len(),
                out@ == before + blk@.subrange(0, t as int),
            decreases blk@.len() - t,
        {
            out.push(blk[t]);
            t = t + 1;
            assert(out@ =~= before + blk@.subrange(0, t as int));
        }
        proof {
            assert(blk@.subrange(0, blk@.len() as int) =~= blk@);
            assert(sv.subrange(0, b + 1).drop_last() =~= sv.subrange(0, b as int));
            assert(sv.subrange(0, b + 1).last() == blk@);
        }
        b = b + 1;
    }
    assert(sv.subrange(0, sv.len() as int) =~= sv);
    assert(sv == stable_sorted(bv, rel));
    out
}

/// The rows of the Processes page (see [`build_display_rows`]).
pub open spec fn spec_display_rows(
    all: Seq<GroupProcess>,
    searching: bool,
    column: usize,
    ascending: bool,
    expanded: Set<u32>,
    collapsed: Seq<bool>,
    sub: Seq<u64>,
    own: Seq<u64>,
) -> Seq<DisplayRow> {
    if searching {
        search_rows(all, column, ascending, sub)
    } else if column < 2 {
        group_rows(all, 0, column, ascending, sub, own, expanded, collapsed[0]) + group_rows(
            all,
            1,
            column,
            ascending,
            sub,
            own,
            expanded,
            collapsed[1],
        ) + group_rows(all, 2, column, ascending, sub, own, expanded, collapsed[2])
    } else {
        as_rows(
            resource_rows(
                group_body(all, 0, column, ascending, sub, own, expanded) + group_body(
                    all,
                    1,
                    column,
                    ascending,
                    sub,
                    own,
                    expanded,
                ) + group_body(all, 2, column, ascending, sub, own, expanded),
                ascending,
                sub,
                own,
            ),
        )
    }
}

fn append_rows(out: &mut Vec<DisplayRow>, body: &Vec<ProcessRow>)
    ensures
        final(out)@ == old(out)@ + as_rows(body@),
{
    let ghost start = out@;
    let mut i: usize = 0;
    while i < body.len()
        invariant
            i <= body@.len(),
            out@ == start + as_rows(body@.subrange(0, i as int)),
        decreases body@.len() - i,
    {
        out.push(DisplayRow::Process(body[i]));
        i = i + 1;
        assert(out@ =~= start + as_rows(body@.subrange(0, i as int)));
    }
    assert(body@.subrange(0, body@.len() as int) =~= body@);
}

/// The members of group `gi`.
fn members_of(all: &[GroupProcess], g: &DisplayGroups, gi: usize) -> (mem: Vec<bool>)
    requires
        groups_of(all@, *g),
        gi < 3,
    ensures
        mem@ == group_members(all@, gi as int),
{
    let cat = if gi == 0 {
        ProcCategory::App
    } else if gi == 1 {
        ProcCategory::Background
    } else {
        ProcCategory::System
    };
    let mut mem: Vec<bool> = Vec::new();
    let mut x: usize = 0;
    while x < all.len()
        invariant
            x <= all@.len(),
            groups_of(all@, *g),
            cat == group_category(gi as int),
            mem@.len() == x,
            forall|i: int| 0 <= i < x ==> #[trigger] mem@[i] == (spec_category(all@, i) == cat),
        decreases all@.len() - x,
    {
        mem.push(g.category[x] == cat);
        x = x + 1;
    }
    assert(mem@ =~= group_members(all@, gi as int));
    mem
}

/// The shared inputs of the group emitters.
pub open spec fn tree_inputs(
    all: Seq<GroupProcess>,
    dp: Seq<Option<usize>>,
    kl: Seq<Vec<usize>>,
    tkids: Seq<Vec<usize>>,
    counts: Seq<usize>,
    eco: Seq<bool>,
    column: usize,
    ascending: bool,
    sub: Seq<u64>,
    expanded: Set<u32>,
) -> bool {
    let ctx = app_tree_ctx(all, column, ascending, sub, expanded);
    &&& dp == display_parents(all)
    &&& parents_in_range(dp)
    &&& kl.map_values(|v: Vec<usize>| v@) == display_kids(all)
    &&& child_lists_ok(display_kids(all), all.len())
    &&& tkids.len() == all.len()
    &&& forall|x: int| 0 <= x < all.len() ==> (#[trigger] tkids[x])@ == ctx.kids[x]
    &&& forall|x: int, k: int| 0 <= x < all.len() && 0 <= k < ctx.kids[x].len() ==> #[trigger] ctx.kids[x][k] < all.len()
    &&& counts == ctx.count
    &&& eco == ctx.eco
}

fn group_body_exec(
    all: &[GroupProcess],
    g: &DisplayGroups,
    dp: &Vec<Option<usize>>,
    kl: &Vec<Vec<usize>>,
    tkids: &Vec<Vec<usize>>,
    counts: &Vec<usize>,
    eco: &Vec<bool>,
    gi: usize,
    column: usize,
    ascending: bool,
    sub: &Vec<u64>,
    own: &Vec<u64>,
    expanded: &HashSet<u32>,
) -> (r: (Vec<ProcessRow>, usize))
    requires
        groups_of(all@, *g),
        gi < 3,
        sub@.len() == all@.len(),
        own@.len() == all@.len(),
        tree_inputs(all@, dp@, kl@, tkids@, counts@, eco@, column, ascending, sub@, expanded@),
    ensures
        r.0@ == group_body(all@, gi as int, column, ascending, sub@, own@, expanded@),
        r.1 == group_total(all@, gi as int),
        forall|k: int| 0 <= k < r.0@.len() ==> #[trigger] r.0@[k].index < all@.len(),
{
    let ghost ctx = app_tree_ctx(all@, column, ascending, sub@, expanded@);
    let mem = members_of(all, g, gi);
    if gi == 0 {
        let roots = find_member_roots(dp, &mem);
        let total = roots.len();
        let sorted_roots = sort_entries(all, &roots, column, ascending, sub);
        proof {
            assert forall|x: int| 0 <= x < all@.len() implies #[trigger] ctx.pids[x] == all@[x].pid by {}
            assert forall|x: int| 0 <= x < all@.len() implies #[trigger] ctx.net[x] == all@[x].net_known by {}
        }
        let body = emit_tree(all, &sorted_roots, tkids, counts, eco, expanded, Ghost(ctx));
        (body, total)
    } else {
        let mut total: usize = 0;
        let mut x: usize = 0;
        while x < all.len()
            invariant
                x <= all@.len(),
                mem@.len() == all@.len(),
                total == count_set(mem@, x as nat),
                total <= x,
            decreases all@.len() - x,
        {
            if mem[x] {
                total = total + 1;
            }
            x = x + 1;
        }
        let body = emit_flat(all, kl, &mem, column, ascending, sub, own, expanded);
        (body, total)
    }
}

/// The rows of the Processes page. While searching, every match is a flat
/// row sorted by the current column. Otherwise the Apps, Background and
/// Windows groups follow each other: Apps as expandable application trees,
/// the other two as flat lists with same-image families collapsed. In the
/// name and status views each group opens with a header whose count never
/// depends on what is expanded, and a collapsed header hides its rows; a
/// resource sort drops the headers and sorts whole blocks across groups.
///
/// The order is the given column's: the shown name, the status, or, for the
/// resource columns 2 to 5, the ranks `sub` (of each process's display
/// subtree sums) and `own` (of its own values), ranked on one scale.
pub fn build_display_rows(
    all: &[GroupProcess],
    searching: bool,
    column: usize,
    ascending: bool,
    expanded: &HashSet<u32>,
    group_collapsed: &[bool; 3],
    sub: &Vec<u64>,
    own: &Vec<u64>,
) -> (rows: Vec<DisplayRow>)
    requires
        searching || column <= 5,
        sub@.len() == all@.len(),
        own@.len() == all@.len(),
    ensures
        rows@ == spec_display_rows(all@, searching, column, ascending, expanded@, group_collapsed@, sub@, own@),
{
    let n = all.len();
    if searching {
        let mut matched: Vec<usize> = Vec::new();
        let mut x: usize = 0;
        while x < n
            invariant
                n == all@.len(),
                x <= n,
                matched@ == matches_upto(all@, x as nat),
                forall|k: int| 0 <= k < matched@.len() ==> #[trigger] matched@[k] < x,
            decreases n - x,
        {
            if all[x].matches {
                matched.push(x);
            }
            x = x + 1;
        }
        let sorted = sort_entries(all, &matched, column, ascending, sub);
        let mut rows: Vec<DisplayRow> = Vec::new();
        let mut k: usize = 0;
        while k < sorted.len()
            invariant
                k <= sorted@.len(),
                forall|t: int| 0 <= t < sorted@.len() ==> #[trigger] sorted@[t] < all@.len(),
                rows@ == as_rows(sorted@.subrange(0, k as int).map_values(|x: usize| search_row(all@, x as int))),
            decreases sorted@.len() - k,
        {
            let x = sorted[k];
            rows.push(
                DisplayRow::Process(
                    ProcessRow {
                        index: x,
                        pid: all[x].pid,
                        depth: 0,
                        label_count: None,
                        children: false,
                        values: RowValues::Subtree,
                        power_throttled: all[x].power_throttled,
                        net_available: all[x].net_known,
                    },
                ),
            );
            k = k + 1;
            assert(rows@ =~= as_rows(sorted@.subrange(0, k as int).map_values(|x: usize| search_row(all@, x as int))));
        }
        assert(sorted@.subrange(0, sorted@.len() as int) =~= sorted@);
        return rows;
    }
    let g = derive_display_groups(all);
    let dp = display_links(all, &g);
    let kl = children_lists(&dp);
    proof {
        let klv = kl@.map_values(|v: Vec<usize>| v@);
        assert forall|x: int| 0 <= x < n implies #[trigger] klv[x] == display_kids(all@)[x] by {}
        assert(klv =~= display_kids(all@));
        assert forall|x: int, k: int| 0 <= x < n && 0 <= k < display_kids(all@)[x].len() implies #[trigger] display_kids(
            all@,
        )[x][k] < n by {
            lemma_kids_upto_range(dp@, x, n as nat);
        }
    }
    let ghost ctx = app_tree_ctx(all@, column, ascending, sub@, expanded@);
    let mut tkids: Vec<Vec<usize>> = Vec::new();
    let mut x: usize = 0;
    while x < n
        invariant
            n == all@.len(),
            x <= n,
            dp@ == display_parents(all@),
            kl@.map_values(|v: Vec<usize>| v@) == display_kids(all@),
            child_lists_ok(display_kids(all@), n as nat),
            kl@.len() == n,
            sub@.len() == n,
            ctx == app_tree_ctx(all@, column, ascending, sub@, expanded@),
            tkids@.len() == x,
            forall|i: int| 0 <= i < x ==> (#[trigger] tkids@[i])@ == ctx.kids[i],
        decreases n - x,
    {
        proof {
            assert(kl@[x as int]@ == display_kids(all@)[x as int]);
        }
        let sorted = sort_entries(all, &kl[x], column, ascending, sub);
        tkids.push(sorted);
        x = x + 1;
    }
    proof {
        assert forall|x: int, k: int| 0 <= x < n && 0 <= k < ctx.kids[x].len() implies #[trigger] ctx.kids[x][k] < n by {
            let s = kids(dp@, x);
            lemma_stable_sorted_members(s, before_rel(all@, column, ascending, sub@));
            assert(ctx.kids[x].contains(ctx.kids[x][k]));
            assert(s.contains(ctx.kids[x][k]));
            let w = choose|w: int| 0 <= w < s.len() && s[w] == ctx.kids[x][k];
            assert(s == display_kids(all@)[x]);
        }
    }
    let rep = cycle_reps(&dp);
    let mut flags: Vec<bool> = Vec::new();
    let mut x: usize = 0;
    while x < n
        invariant
            n == all@.len(),
            x <= n,
            flags@.len() == x,
            forall|i: int| 0 <= i < x ==> #[trigger] flags@[i] == all@[i].power_throttled,
        decreases n - x,
    {
        flags.push(all[x].power_throttled);
        x = x + 1;
    }
    assert(flags@ =~= Seq::new(n as nat, |y: int| all@[y].power_throttled));
    let (counts, eco) = subtree_stats(&dp, &rep, &flags);
    proof {
        assert forall|x: int| 0 <= x < n implies #[trigger] counts@[x] == ctx.count[x] by {
            lemma_count_upto_bound(dp@, x, n as nat);
        }
        assert(counts@ =~= ctx.count);
        assert(eco@ =~= ctx.eco);
    }
    let mut rows: Vec<DisplayRow> = Vec::new();
    let mut pooled: Vec<ProcessRow> = Vec::new();
    let mut gi: usize = 0;
    while gi < 3
        invariant
            n == all@.len(),
            gi <= 3,
            groups_of(all@, g),
            !searching,
            sub@.len() == n,
            own@.len() == n,
            tree_inputs(all@, dp@, kl@, tkids@, counts@, eco@, column, ascending, sub@, expanded@),
            column < 2 ==> rows@ == (if gi == 0 {
                Seq::<DisplayRow>::empty()
            } else if gi == 1 {
                group_rows(all@, 0, column, ascending, sub@, own@, expanded@, group_collapsed@[0])
            } else if gi == 2 {
                group_rows(all@, 0, column, ascending, sub@, own@, expanded@, group_collapsed@[0]) + group_rows(
                    all@,
                    1,
                    column,
                    ascending,
                    sub@,
                    own@,
                    expanded@,
                    group_collapsed@[1],
                )
            } else {
                spec_display_rows(all@, searching, column, ascending, expanded@, group_collapsed@, sub@, own@)
            }),
            column >= 2 ==> pooled@ == (if gi == 0 {
                Seq::<ProcessRow>::empty()
            } else if gi == 1 {
                group_body(all@, 0, column, ascending, sub@, own@, expanded@)
            } else if gi == 2 {
                group_body(all@, 0, column, ascending, sub@, own@, expanded@) + group_body(
                    all@,
                    1,
                    column,
                    ascending,
                    sub@,
                    own@,
                    expanded@,
                )
            } else {
                group_body(all@, 0, column, ascending, sub@, own@, expanded@) + group_body(
                    all@,
                    1,
                    column,
                    ascending,
                    sub@,
                    own@,
                    expanded@,
                ) + group_body(all@, 2, column, ascending, sub@, own@, expanded@)
            }),
            forall|k: int| 0 <= k < pooled@.len() ==> #[trigger] pooled@[k].index < n,
            column >= 2 ==> rows@.len() == 0,
        decreases 3 - gi,
    {
        let (body, total) = group_body_exec(
            all,
            &g,
            &dp,
            &kl,
            &tkids,
            &counts,
            &eco,
            gi,
            column,
            ascending,
            sub,
            own,
            expanded,
        );
        let ghost before = rows@;
        let ghost pooled_before = pooled@;
        if column < 2 {
            rows.push(DisplayRow::GroupHeader(gi as u8, total));
            if !group_collapsed[gi] {
                append_rows(&mut rows, &body);
            }
            proof {
                assert(rows@ =~= before + group_rows(
                    all@,
                    gi as int,
                    column,
                    ascending,
                    sub@,
                    own@,
                    expanded@,
                    group_collapsed@[gi as int],
                ));
            }
        } else {
            let mut t: usize = 0;
            while t < body.len()
                invariant
                    t <= body@.len(),
                    pooled@ == pooled_before + body@.subrange(0, t as int),
                    forall|k: int| 0 <= k < body@.len() ==> #[trigger] body@[k].index < n,
                    forall|k: int| 0 <= k < pooled_before.len() ==> #[trigger] pooled_before[k].index < n,
                    forall|k: int| 0 <= k < pooled@.len() ==> #[trigger] pooled@[k].index < n,
                decreases body@.len() - t,
            {
                pooled.push(body[t]);
                t = t + 1;
                assert(pooled@ =~= pooled_before + body@.subrange(0, t as int));
            }
            assert(body@.subrange(0, body@.len() as int) =~= body@);
        }
        gi = gi + 1;
    }
    if column >= 2 {
        let sorted = sort_blocks_globally(pooled, ascending, sub, own);
        append_rows(&mut rows, &sorted);
        assert(rows@ =~= as_rows(sorted@));
    }
    rows
}

/// Rows of a tree walk stand for distinct processes not visited before.
proof fn lemma_tree_walk_distinct(ctx: TreeCtx, stack: Seq<(usize, usize)>, visited: Set<int>)
    requires
        visited.finite(),
        visited.subset_of(Set::new(|x: int| 0 <= x < ctx.pids.len())),
        ctx.pids.len() <= usize::MAX,
    ensures
        forall|k: int|
            0 <= k < tree_walk(ctx, stack, visited).len() ==> 0 <= #[trigger] tree_walk(ctx, stack, visited)[k].index
                < ctx.pids.len() && !visited.contains(tree_walk(ctx, stack, visited)[k].index as int),
        forall|a: int, b: int|
            0 <= a < tree_walk(ctx, stack, visited).len() && 0 <= b < tree_walk(ctx, stack, visited).len() && a
                != b ==> #[trigger] tree_walk(ctx, stack, visited)[a].index != #[trigger] tree_walk(
                ctx,
                stack,
                visited,
            )[b].index,
    decreases ctx.pids.len() - visited.len(), stack.len(),
{
    if stack.len() > 0 {
        let top = stack.last();
        let rest = stack.drop_last();
        let x = top.0 as int;
        let w = tree_walk(ctx, stack, visited);
        if visited.contains(x) || !(0 <= x < ctx.pids.len()) {
            lemma_tree_walk_distinct(ctx, rest, visited);
            assert(w == tree_walk(ctx, rest, visited));
        } else {
            let ks = ctx.kids[x];
            let next = if ks.len() > 0 && ctx.expanded.contains(ctx.pids[x]) {
                rest + stack_entries(ks, (top.1 + 1) as usize)
            } else {
                rest
            };
            let vx = visited.insert(x);
            let range = vstd::set_lib::set_int_range(0, ctx.pids.len() as int);
            vstd::set_lib::lemma_int_range(0, ctx.pids.len() as int);
            assert(Set::new(|y: int| 0 <= y < ctx.pids.len()) =~= range);
            vstd::set_lib::lemma_len_subset(vx, range);
            assert(vx.subset_of(Set::new(|y: int| 0 <= y < ctx.pids.len())));
            lemma_tree_walk_distinct(ctx, next, vx);
            let tail = tree_walk(ctx, next, vx);
            assert(w == seq![tree_row(ctx, x, top.1)] + tail);
            assert(w[0].index as int == x);
            assert forall|k: int| 0 <= k < w.len() implies 0 <= #[trigger] w[k].index < ctx.pids.len()
                && !visited.contains(w[k].index as int) by {
                if k > 0 {
                    assert(w[k] == tail[k - 1]);
                }
            }
            assert forall|a: int, b: int| 0 <= a < w.len() && 0 <= b < w.len() && a != b implies #[trigger] w[a].index
                != #[trigger] w[b].index by {
                if a > 0 {
                    assert(w[a] == tail[a - 1]);
                }
                if b > 0 {
                    assert(w[b] == tail[b - 1]);
                }
            }
        }
    }
}

/// The Apps tree shows every process at most once, however the parent
/// links cycle and whatever is expanded.
pub proof fn lemma_app_tree_rows_distinct(
    all: Seq<GroupProcess>,
    column: usize,
    ascending: bool,
    sub: Seq<u64>,
    own: Seq<u64>,
    expanded: Set<u32>,
)
    requires
        all.len() <= usize::MAX,
    ensures
        ({
            let rows = group_body(all, 0, column, ascending, sub, own, expanded);
            forall|a: int, b: int|
                0 <= a < rows.len() && 0 <= b < rows.len() && a != b ==> #[trigger] rows[a].index
                    != #[trigger] rows[b].index
        }),
{
    let ctx = app_tree_ctx(all, column, ascending, sub, expanded);
    assert(Set::<int>::empty().subset_of(Set::new(|x: int| 0 <= x < ctx.pids.len())));
    lemma_tree_walk_distinct(ctx, stack_entries(app_roots_sorted(all, column, ascending, sub), 0), Set::empty());
}

/// The group headers among `rows`, as (group, count) pairs.
pub open spec fn headers(rows: Seq<DisplayRow>) -> Seq<(u8, usize)>
    decreases rows.len(),
{
    if rows.len() == 0 {
        Seq::empty()
    } else {
        match rows.last() {
            DisplayRow::GroupHeader(g, n) => headers(rows.drop_last()).push((g, n)),
            DisplayRow::Process(_) => headers(rows.drop_last()),
        }
    }
}

proof fn lemma_headers_concat(a: Seq<DisplayRow>, b: Seq<DisplayRow>)
    ensures
        headers(a + b) == headers(a) + headers(b),
    decreases b.len(),
{
    if b.len() == 0 {
        assert(a + b =~= a);
        assert(headers(a) + headers(b) =~= headers(a));
    } else {
        lemma_headers_concat(a, b.drop_last());
        assert((a + b).drop_last() =~= a + b.drop_last());
        assert((a + b).last() == b.last());
        match b.last() {
            DisplayRow::GroupHeader(g, n) => {
                assert(headers(a) + headers(b) =~= (headers(a) + headers(b.drop_last())).push((g, n)));
            },
            DisplayRow::Process(_) => {},
        }
    }
}

proof fn lemma_headers_of_process_rows(rows: Seq<ProcessRow>)
    ensures
        headers(as_rows(rows)) == Seq::<(u8, usize)>::empty(),
    decreases rows.len(),
{
    if rows.len() > 0 {
        lemma_headers_of_process_rows(rows.drop_last());
        assert(as_rows(rows).drop_last() =~= as_rows(rows.drop_last()));
    }
}

proof fn lemma_group_headers(
    all: Seq<GroupProcess>,
    gi: int,
    column: usize,
    ascending: bool,
    sub: Seq<u64>,
    own: Seq<u64>,
    expanded: Set<u32>,
    collapsed: bool,
)
    requires
        column < 2,
    ensures
        headers(group_rows(all, gi, column, ascending, sub, own, expanded, collapsed)) == seq![
            (gi as u8, group_total(all, gi) as usize),
        ],
{
    let h = seq![DisplayRow::GroupHeader(gi as u8, group_total(all, gi) as usize)];
    let body = as_rows(group_body(all, gi, column, ascending, sub, own, expanded));
    lemma_headers_of_process_rows(group_body(all, gi, column, ascending, sub, own, expanded));
    lemma_headers_concat(h, if collapsed { Seq::empty() } else { body });
    assert(h.drop_last() =~= Seq::<DisplayRow>::empty());
    assert(headers(Seq::<DisplayRow>::empty()) == Seq::<(u8, usize)>::empty());
    assert(headers(h) =~= seq![(gi as u8, group_total(all, gi) as usize)]);
    if collapsed {
        assert(headers(h) + headers(Seq::<DisplayRow>::empty()) =~= headers(h));
    } else {
        assert(headers(h) + headers(body) =~= headers(h));
    }
}

/// In the name and status views the three group headers come in order with
/// counts that depend neither on what is expanded nor on which headers are
/// collapsed: Apps counts its top-level app groups, Background and Windows
/// their processes.
pub proof fn lemma_group_totals_ignore_expansion(
    all: Seq<GroupProcess>,
    column: usize,
    ascending: bool,
    expanded: Set<u32>,
    collapsed: Seq<bool>,
    sub: Seq<u64>,
    own: Seq<u64>,
)
    requires
        column < 2,
        collapsed.len() == 3,
    ensures
        headers(spec_display_rows(all, false, column, ascending, expanded, collapsed, sub, own)) == seq![
            (0u8, group_total(all, 0) as usize),
            (1u8, group_total(all, 1) as usize),
            (2u8, group_total(all, 2) as usize),
        ],
{
    let g0 = group_rows(all, 0, column, ascending, sub, own, expanded, collapsed[0]);
    let g1 = group_rows(all, 1, column, ascending, sub, own, expanded, collapsed[1]);
    let g2 = group_rows(all, 2, column, ascending, sub, own, expanded, collapsed[2]);
    lemma_group_headers(all, 0, column, ascending, sub, own, expanded, collapsed[0]);
    lemma_group_headers(all, 1, column, ascending, sub, own, expanded, collapsed[1]);
    lemma_group_headers(all, 2, column, ascending, sub, own, expanded, collapsed[2]);
    lemma_headers_concat(g0, g1);
    lemma_headers_concat(g0 + g1, g2);
    assert(headers(g0 + g1 + g2) =~= seq![
        (0u8, group_total(all, 0) as usize),
        (1u8, group_total(all, 1) as usize),
        (2u8, group_total(all, 2) as usize),
    ]);
}

/// For every process `y`, the processes whose display subtree holds it
/// (itself first, then up the parents; a parent cycle is cut above its
/// first member), each once. Summing a value of `y` into every process of
/// its list gives each process the sum over its display subtree.
pub fn subtree_chains(all: &[GroupProcess]) -> (chains: Vec<Vec<usize>>)
    ensures
        chains@.len() == all@.len(),
        forall|y: int, x: int|
            #![trigger chains@[y]@.contains(x as usize)]
            #![trigger in_subtree(display_parents(all@), y, x)]
            0 <= y < all@.len() && 0 <= x < all@.len() ==> (chains@[y]@.contains(x as usize) <==> in_subtree(
                display_parents(all@),
                y,
                x,
            )),
        forall|y: int| 0 <= y < all@.len() ==> (#[trigger] chains@[y])@.no_duplicates(),
        forall|y: int, k: int| 0 <= y < all@.len() && 0 <= k < chains@[y]@.len() ==> #[trigger] chains@[y]@[k] < all@.len(),
{
    let n = all.len();
    let g = derive_display_groups(all);
    let dp = display_links(all, &g);
    let rep = cycle_reps(&dp);
    let mut chains: Vec<Vec<usize>> = Vec::new();
    let mut y: usize = 0;
    while y < n
        invariant
            n == all@.len(),
            y <= n,
            dp@ == display_parents(all@),
            parents_in_range(dp@),
            rep@.len() == n,
            forall|x: int| 0 <= x < n ==> (#[trigger] rep@[x] <==> is_cycle_rep(dp@, x)),
            chains@.len() == y,
            forall|y2: int, x: int|
                #![trigger chains@[y2]@.contains(x as usize)]
                #![trigger in_subtree(dp@, y2, x)]
                0 <= y2 < y && 0 <= x < n ==> (chains@[y2]@.contains(x as usize) <==> in_subtree(dp@, y2, x)),
            forall|y2: int| 0 <= y2 < y ==> (#[trigger] chains@[y2])@.no_duplicates(),
            forall|y2: int, k: int| 0 <= y2 < y && 0 <= k < chains@[y2]@.len() ==> #[trigger] chains@[y2]@[k] < n,
        decreases n - y,
    {
        let mut chain: Vec<usize> = Vec::new();
        let mut cur: Option<usize> = Some(y);
        let mut k: usize = 0;
        loop
            invariant_except_break
                k <= n,
                match cur {
                    Some(c) => c as int == anc(dp@, y as int, k as nat) && c < n,
                    None => anc(dp@, y as int, k as nat) == -1,
                },
                forall|j: nat| j < k ==> !is_cycle_rep(dp@, #[trigger] anc(dp@, y as int, j)),
                forall|x: int|
                    #![trigger chain@.contains(x as usize)]
                    0 <= x < n ==> (chain@.contains(x as usize) <==> exists|k2: nat|
                        k2 < k && #[trigger] anc(dp@, y as int, k2) == x && forall|j: nat|
                            j < k2 ==> !is_cycle_rep(dp@, #[trigger] anc(dp@, y as int, j))),
            invariant
                n == all@.len(),
                y < n,
                dp@.len() == n,
                parents_in_range(dp@),
                rep@.len() == n,
                forall|x: int| 0 <= x < n ==> (#[trigger] rep@[x] <==> is_cycle_rep(dp@, x)),
                chain@.no_duplicates(),
                forall|t: int| 0 <= t < chain@.len() ==> #[trigger] chain@[t] < n,
            ensures
                forall|x: int|
                    #![trigger chain@.contains(x as usize)]
                    0 <= x < n ==> (chain@.contains(x as usize) <==> in_subtree(dp@, y as int, x)),
            decreases n - k,
        {
            match cur {
                None => {
                    proof {
                        assert forall|x: int|
                            #![trigger chain@.contains(x as usize)]
                            0 <= x < n implies (chain@.contains(x as usize) <==> in_subtree(
                            dp@,
                            y as int,
                            x,
                        )) by {
                            if in_subtree(dp@, y as int, x) {
                                let k2 = choose|k2: nat|
                                    k2 <= dp@.len() && x >= 0 && #[trigger] anc(dp@, y as int, k2) == x && forall|
                                        j: nat,
                                    | j < k2 ==> !is_cycle_rep(dp@, #[trigger] anc(dp@, y as int, j));
                                if k2 >= k {
                                    lemma_anc_ended(dp@, y as int, k as nat, k2);
                                }
                            }
                        }
                    }
                    break;
                },
                Some(c) => {
                    let ghost before = chain@;
                    let mut present = false;
                    let mut t: usize = 0;
                    while t < chain.len()
                        invariant
                            t <= chain@.len(),
                            present == exists|u: int| 0 <= u < t && chain@[u] == c,
                        decreases chain@.len() - t,
                    {
                        if chain[t] == c {
                            present = true;
                        }
                        t = t + 1;
                    }
                    if !present {
                        chain.push(c);
                    }
                    proof {
                        assert forall|x: int|
                            #![trigger chain@.contains(x as usize)]
                            0 <= x < n implies (chain@.contains(x as usize) <==> exists|k2: nat|
                            k2 < k + 1 && #[trigger] anc(dp@, y as int, k2) == x && forall|j: nat|
                                j < k2 ==> !is_cycle_rep(dp@, #[trigger] anc(dp@, y as int, j))) by {
                            if chain@.contains(x as usize) && !before.contains(x as usize) {
                                assert(x == c as int);
                                assert(anc(dp@, y as int, k as nat) == x);
                            }
                            if before.contains(x as usize) {
                                let k2 = choose|k2: nat|
                                    k2 < k && #[trigger] anc(dp@, y as int, k2) == x && forall|j: nat|
                                        j < k2 ==> !is_cycle_rep(dp@, #[trigger] anc(dp@, y as int, j));
                                assert(chain@.contains(x as usize)) by {
                                    let w = choose|w: int| 0 <= w < before.len() && before[w] == x as usize;
                                    if !present {
                                        assert(chain@[w] == x as usize);
                                    }
                                }
                            }
                            if x == c as int && present {
                                let u = choose|u: int| 0 <= u < chain@.len() && chain@[u] == c;
                                assert(chain@.contains(x as usize));
                            }
                            if x == c as int && !present {
                                assert(chain@[chain@.len() - 1] == c);
                            }
                        }
                        if !present {
                            assert forall|a: int, b: int| 0 <= a < chain@.len() && 0 <= b < chain@.len() && a != b implies chain@[a]
                                != chain@[b] by {
                                if a == chain@.len() - 1 {
                                    assert(chain@[b] == before[b]);
                                } else if b == chain@.len() - 1 {
                                    assert(chain@[a] == before[a]);
                                } else {
                                    assert(chain@[a] == before[a]);
                                    assert(chain@[b] == before[b]);
                                }
                            }
                        }
                    }
                    if rep[c] || k == n {
                        proof {
                            assert forall|x: int|
                                #![trigger chain@.contains(x as usize)]
                                0 <= x < n implies (chain@.contains(x as usize) <==> in_subtree(
                                dp@,
                                y as int,
                                x,
                            )) by {
                                if in_subtree(dp@, y as int, x) {
                                    let k2 = choose|k2: nat|
                                        k2 <= dp@.len() && x >= 0 && #[trigger] anc(dp@, y as int, k2) == x
                                            && forall|j: nat| j < k2 ==> !is_cycle_rep(dp@, #[trigger] anc(dp@, y as int, j));
                                    if k2 > k {
                                        assert(!is_cycle_rep(dp@, anc(dp@, y as int, k as nat)));
                                    }
                                }
                            }
                        }
                        break;
                    }
                    cur = dp[c];
                    k = k + 1;
                },
            }
        }
        chains.push(chain);
        y = y + 1;
    }
    chains
}

} // verus!
