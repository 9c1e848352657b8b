//! Parent forests that may hold cycles, as the Processes page builds them
//! from parent PIDs: ancestors, subtrees with every cycle cut at its first
//! member, and roots that keep every member reachable.
use vstd::prelude::*;

verus! {

/// Every parent is an index of the forest.
pub open spec fn parents_in_range(par: Seq<Option<usize>>) -> bool {
    forall|i: int|
        0 <= i < par.len() ==> match #[trigger] par[i] {
            Some(p) => p < par.len(),
            None => true,
        }
}

/// The `k`-th ancestor of `x` (`k == 0` is `x` itself), or -1.
pub open spec fn anc(par: Seq<Option<usize>>, x: int, k: nat) -> int
    decreases k,
{
    if k == 0 {
        x
    } else {
        let a = anc(par, x, (k - 1) as nat);
        if a < 0 || a >= par.len() {
            -1
        } else {
            match par[a] {
                Some(p) => p as int,
                None => -1,
            }
        }
    }
}

pub proof fn lemma_anc_range(par: Seq<Option<usize>>, x: int, k: nat)
    requires
        parents_in_range(par),
        0 <= x < par.len(),
    ensures
        -1 <= anc(par, x, k) < par.len(),
    decreases k,
{
    if k > 0 {
        lemma_anc_range(par, x, (k - 1) as nat);
    }
}

pub proof fn lemma_anc_ended(par: Seq<Option<usize>>, x: int, m: nat, k: nat)
    requires
        anc(par, x, m) < 0,
        m <= k,
    ensures
        anc(par, x, k) < 0,
    decreases k,
{
    if k > m {
        lemma_anc_ended(par, x, m, (k - 1) as nat);
    }
}

/// `x` lies on a parent cycle and no earlier index is among its ancestors:
/// the first member (by index) of its cycle.
pub open spec fn is_cycle_rep(par: Seq<Option<usize>>, x: int) -> bool {
    &&& exists|k: nat| 1 <= k <= par.len() && #[trigger] anc(par, x, k) == x
    &&& forall|k: nat| k <= par.len() ==> !(0 <= #[trigger] anc(par, x, k) < x)
}

/// `x` is in the subtree of... rather, `y` lies in the subtree of `x`:
/// `x` is among the first `par.len()` ancestors of `y` (itself included),
/// and the walk up from `y` meets no cycle representative before it, so
/// every cycle is cut above its representative.
pub open spec fn in_subtree(par: Seq<Option<usize>>, y: int, x: int) -> bool {
    exists|k: nat|
        k <= par.len() && x >= 0 && #[trigger] anc(par, y, k) == x && forall|j: nat|
            j < k ==> !is_cycle_rep(par, #[trigger] anc(par, y, j))
}

/// The number of processes below `m` in the subtree of `x`.
pub open spec fn subtree_count_upto(par: Seq<Option<usize>>, x: int, m: nat) -> nat
    decreases m,
{
    if m == 0 {
        0
    } else {
        subtree_count_upto(par, x, (m - 1) as nat) + if in_subtree(par, m - 1, x) {
            1nat
        } else {
            0nat
        }
    }
}

/// The size of the subtree of `x`.
pub open spec fn subtree_count(par: Seq<Option<usize>>, x: int) -> nat {
    subtree_count_upto(par, x, par.len())
}

/// Whether some process in the subtree of `x` carries `flags`.
pub open spec fn subtree_any(par: Seq<Option<usize>>, flags: Seq<bool>, x: int) -> bool {
    exists|y: int| 0 <= y < par.len() && #[trigger] in_subtree(par, y, x) && flags[y]
}

/// Which processes are cycle representatives.
pub fn cycle_reps(par: &Vec<Option<usize>>) -> (rep: Vec<bool>)
    requires
        parents_in_range(par@),
    ensures
        rep@.len() == par@.len(),
        forall|x: int| 0 <= x < par@.len() ==> (#[trigger] rep@[x] <==> is_cycle_rep(par@, x)),
{
    let n = par.len();
    let mut rep: Vec<bool> = Vec::new();
    let mut x: usize = 0;
    while x < n
        invariant
            n == par@.len(),
            parents_in_range(par@),
            x <= n,
            rep@.len() == x,
            forall|i: int| 0 <= i < x ==> (#[trigger] rep@[i] <==> is_cycle_rep(par@, i)),
        decreases n - x,
    {
        let mut cur: Option<usize> = Some(x);
        let mut k: usize = 0;
        let mut cycle: bool = false;
        let mut smaller: bool = false;
        loop
            invariant_except_break
                cycle == exists|j: nat| 1 <= j < k && #[trigger] anc(par@, x as int, j) == x,
                smaller == exists|j: nat| j < k && 0 <= #[trigger] anc(par@, x as int, j) < x,
            invariant
                n == par@.len(),
                parents_in_range(par@),
                x < n,
                k <= n,
                match cur {
                    Some(c) => c as int == anc(par@, x as int, k as nat) && c < n,
                    None => anc(par@, x as int, k as nat) == -1,
                },
            ensures
                cycle == exists|j: nat| 1 <= j <= n && #[trigger] anc(par@, x as int, j) == x,
                smaller == exists|j: nat| j <= n && 0 <= #[trigger] anc(par@, x as int, j) < x,
            decreases n - k,
        {
            match cur {
                None => {
                    proof {
                        assert forall|j: nat| k <= j implies anc(par@, x as int, j) < 0 by {
                            lemma_anc_ended(par@, x as int, k as nat, j);
                        }
                    }
                    break;
                },
                Some(c) => {
                    if k >= 1 && c == x {
                        cycle = true;
                    }
                    if c < x {
                        smaller = true;
                    }
                    if k == n {
                        break;
                    }
                    cur = par[c];
                    k = k + 1;
                },
            }
        }
        rep.push(cycle && !smaller);
        x = x + 1;
    }
    rep
}

pub proof fn lemma_count_upto_bound(par: Seq<Option<usize>>, x: int, m: nat)
    ensures
        subtree_count_upto(par, x, m) <= m,
    decreases m,
{
    if m > 0 {
        lemma_count_upto_bound(par, x, (m - 1) as nat);
    }
}

/// Walk up from `y` and mark it in the subtree of every process it lies
/// under (see [`in_subtree`]).
fn mark_chain(
    par: &Vec<Option<usize>>,
    rep: &Vec<bool>,
    flags: &Vec<bool>,
    y: usize,
    stamp: &mut Vec<usize>,
    counts: &mut Vec<usize>,
    any: &mut Vec<bool>,
)
    requires
        parents_in_range(par@),
        rep@.len() == par@.len(),
        forall|x: int| 0 <= x < par@.len() ==> (#[trigger] rep@[x] <==> is_cycle_rep(par@, x)),
        flags@.len() == par@.len(),
        y < par@.len(),
        old(stamp)@.len() == par@.len(),
        old(counts)@.len() == par@.len(),
        old(any)@.len() == par@.len(),
        forall|x: int| 0 <= x < par@.len() ==> #[trigger] old(stamp)@[x] <= y,
        forall|x: int| 0 <= x < par@.len() ==> #[trigger] old(counts)@[x] <= y,
    ensures
        final(stamp)@.len() == par@.len(),
        final(counts)@.len() == par@.len(),
        final(any)@.len() == par@.len(),
        forall|x: int| 0 <= x < par@.len() ==> #[trigger] final(stamp)@[x] <= y + 1,
        forall|x: int|
            0 <= x < par@.len() ==> #[trigger] final(counts)@[x] == old(counts)@[x] + if in_subtree(
                par@,
                y as int,
                x,
            ) {
                1int
            } else {
                0int
            },
        forall|x: int|
            0 <= x < par@.len() ==> (#[trigger] final(any)@[x] == (old(any)@[x] || (in_subtree(
                par@,
                y as int,
                x,
            ) && flags@[y as int]))),
{
    let n = par.len();
    let ghost stamp0 = stamp@;
    let ghost counts0 = counts@;
    let ghost any0 = any@;
    let tag = y + 1;
    let mut cur: Option<usize> = Some(y);
    let mut k: usize = 0;
    loop
        invariant_except_break
            k <= n,
            match cur {
                Some(c) => c as int == anc(par@, y as int, k as nat) && c < n,
                None => anc(par@, y as int, k as nat) == -1,
            },
            forall|j: nat| j < k ==> !is_cycle_rep(par@, #[trigger] anc(par@, y as int, j)),
            forall|x: int|
                0 <= x < n ==> (#[trigger] stamp@[x] == tag <==> exists|k2: nat|
                    k2 < k && #[trigger] anc(par@, y as int, k2) == x && forall|j: nat|
                        j < k2 ==> !is_cycle_rep(par@, #[trigger] anc(par@, y as int, j))),
        invariant
            n == par@.len(),
            tag == y + 1,
            parents_in_range(par@),
            rep@.len() == n,
            forall|x: int| 0 <= x < n ==> (#[trigger] rep@[x] <==> is_cycle_rep(par@, x)),
            flags@.len() == n,
            y < n,
            stamp@.len() == n,
            counts@.len() == n,
            any@.len() == n,
            forall|x: int| 0 <= x < n ==> #[trigger] stamp@[x] <= tag,
            forall|x: int| 0 <= x < n ==> stamp0[x] <= y,
            forall|x: int| 0 <= x < n ==> counts0[x] <= y,
            forall|x: int|
                0 <= x < n ==> #[trigger] counts@[x] == counts0[x] + if stamp@[x] == tag {
                    1int
                } else {
                    0int
                },
            forall|x: int|
                0 <= x < n ==> (#[trigger] any@[x] == (any0[x] || (stamp@[x] == tag && flags@[y as int]))),
        ensures
            forall|x: int| 0 <= x < n ==> (#[trigger] stamp@[x] == tag <==> in_subtree(par@, y as int, x)),
        decreases n - k,
    {
        match cur {
            None => {
                proof {
                    assert forall|x: int| 0 <= x < n implies (#[trigger] stamp@[x] == tag <==> in_subtree(
                        par@,
                        y as int,
                        x,
                    )) by {
                        if in_subtree(par@, y as int, x) {
                            let k2 = choose|k2: nat|
                                k2 <= par@.len() && x >= 0 && #[trigger] anc(par@, y as int, k2) == x
                                    && forall|j: nat| j < k2 ==> !is_cycle_rep(par@, #[trigger] anc(par@, y as int, j));
                            if k2 >= k {
                                lemma_anc_ended(par@, y as int, k as nat, k2);
                            }
                        }
                    }
                }
                break;
            },
            Some(c) => {
                let ghost before = stamp@;
                proof {
                    lemma_anc_range(par@, y as int, k as nat);
                }
                if stamp[c] != tag {
                    stamp.set(c, tag);
                    let v = counts[c] + 1;
                    counts.set(c, v);
                    let f = any[c] || flags[y];
                    any.set(c, f);
                }
                proof {
                    assert forall|x: int| 0 <= x < n implies (#[trigger] stamp@[x] == tag <==> exists|k2: nat|
                        k2 < k + 1 && #[trigger] anc(par@, y as int, k2) == x && forall|j: nat|
                            j < k2 ==> !is_cycle_rep(par@, #[trigger] anc(par@, y as int, j))) by {
                        if x == c as int {
                            assert(anc(par@, y as int, k as nat) == x);
                        } else {
                            if exists|k2: nat|
                                k2 < k + 1 && #[trigger] anc(par@, y as int, k2) == x && forall|j: nat|
                                    j < k2 ==> !is_cycle_rep(par@, #[trigger] anc(par@, y as int, j)) {
                                let k2 = choose|k2: nat|
                                    k2 < k + 1 && #[trigger] anc(par@, y as int, k2) == x && forall|j: nat|
                                        j < k2 ==> !is_cycle_rep(par@, #[trigger] anc(par@, y as int, j));
                                assert(k2 < k);
                            }
                        }
                    }
                }
                if rep[c] || k == n {
                    proof {
                        assert forall|x: int| 0 <= x < n implies (#[trigger] stamp@[x] == tag <==> in_subtree(
                            par@,
                            y as int,
                            x,
                        )) by {
                            if in_subtree(par@, y as int, x) {
                                let k2 = choose|k2: nat|
                                    k2 <= par@.len() && x >= 0 && #[trigger] anc(par@, y as int, k2) == x
                                        && forall|j: nat| j < k2 ==> !is_cycle_rep(par@, #[trigger] anc(par@, y as int, j));
                                if k2 > k {
                                    assert(!is_cycle_rep(par@, anc(par@, y as int, k as nat)));
                                }
                            }
                        }
                    }
                    break;
                }
                cur = par[c];
                k = k + 1;
            },
        }
    }
}

/// The size of every subtree, and whether some process of it carries
/// `flags`.
pub fn subtree_stats(par: &Vec<Option<usize>>, rep: &Vec<bool>, flags: &Vec<bool>) -> (r: (Vec<usize>, Vec<bool>))
    requires
        parents_in_range(par@),
        rep@.len() == par@.len(),
        forall|x: int| 0 <= x < par@.len() ==> (#[trigger] rep@[x] <==> is_cycle_rep(par@, x)),
        flags@.len() == par@.len(),
    ensures
        r.0@.len() == par@.len(),
        r.1@.len() == par@.len(),
        forall|x: int| 0 <= x < par@.len() ==> #[trigger] r.0@[x] == subtree_count(par@, x),
        forall|x: int| 0 <= x < par@.len() ==> (#[trigger] r.1@[x] <==> subtree_any(par@, flags@, x)),
{
    let n = par.len();
    let mut stamp: Vec<usize> = Vec::new();
    let mut counts: Vec<usize> = Vec::new();
    let mut any: Vec<bool> = Vec::new();
    let mut i: usize = 0;
    while i < n
        invariant
            i <= n,
            stamp@.len() == i,
            counts@.len() == i,
            any@.len() == i,
            forall|x: int| 0 <= x < i ==> #[trigger] stamp@[x] == 0,
            forall|x: int| 0 <= x < i ==> #[trigger] counts@[x] == 0,
            forall|x: int| 0 <= x < i ==> !#[trigger] any@[x],
        decreases n - i,
    {
        stamp.push(0);
        counts.push(0);
        any.push(false);
        i = i + 1;
    }
    let mut y: usize = 0;
    while y < n
        invariant
            n == par@.len(),
            parents_in_range(par@),
            rep@.len() == n,
            forall|x: int| 0 <= x < n ==> (#[trigger] rep@[x] <==> is_cycle_rep(par@, x)),
            flags@.len() == n,
            y <= n,
            stamp@.len() == n,
            counts@.len() == n,
            any@.len() == n,
            forall|x: int| 0 <= x < n ==> #[trigger] stamp@[x] <= y,
            forall|x: int| 0 <= x < n ==> #[trigger] counts@[x] == subtree_count_upto(par@, x, y as nat),
            forall|x: int|
                0 <= x < n ==> (#[trigger] any@[x] == exists|y2: int|
                    0 <= y2 < y && #[trigger] in_subtree(par@, y2, x) && flags@[y2]),
        decreases n - y,
    {
        proof {
            assert forall|x: int| 0 <= x < n implies #[trigger] counts@[x] <= y by {
                lemma_count_upto_bound(par@, x, y as nat);
            }
        }
        let ghost any0 = any@;
        mark_chain(par, rep, flags, y, &mut stamp, &mut counts, &mut any);
        proof {
            assert forall|x: int|
                0 <= x < n implies (#[trigger] any@[x] == exists|y2: int|
                    0 <= y2 < y + 1 && #[trigger] in_subtree(par@, y2, x) && flags@[y2]) by {
                if exists|y2: int| 0 <= y2 < y + 1 && #[trigger] in_subtree(par@, y2, x) && flags@[y2] {
                    let y2 = choose|y2: int| 0 <= y2 < y + 1 && #[trigger] in_subtree(par@, y2, x) && flags@[y2];
                    if y2 < y {
                        assert(any0[x]);
                    }
                }
            }
        }
        y = y + 1;
    }
    (counts, any)
}

/// The indices a list stands for.
pub open spec fn index_set(s: Seq<usize>) -> Set<int> {
    s.to_set().map(|r: usize| r as int)
}

proof fn lemma_index_set_contains(s: Seq<usize>, k: int)
    ensures
        index_set(s).contains(k) <==> exists|j: int| 0 <= j < s.len() && s[j] as int == k,
{
    if index_set(s).contains(k) {
        let r = choose|r: usize| s.to_set().contains(r) && r as int == k;
        assert(s.contains(r));
    }
    if exists|j: int| 0 <= j < s.len() && s[j] as int == k {
        let j = choose|j: int| 0 <= j < s.len() && s[j] as int == k;
        assert(s.to_set().contains(s[j]));
    }
}

/// Whether `x` lies under one of `known`: one of its first `par.len()`
/// ancestors (itself included) is in `known`.
pub open spec fn covered_by(par: Seq<Option<usize>>, known: Set<int>, x: int) -> bool {
    exists|k: nat| k <= par.len() && known.contains(#[trigger] anc(par, x, k))
}

/// The members below `upto` without a parent, in index order.
pub open spec fn parentless_upto(par: Seq<Option<usize>>, mem: Seq<bool>, upto: nat) -> Seq<usize>
    decreases upto,
{
    if upto == 0 {
        Seq::empty()
    } else {
        let prev = parentless_upto(par, mem, (upto - 1) as nat);
        let i = upto - 1;
        if mem[i] && par[i] is None {
            prev.push(i as usize)
        } else {
            prev
        }
    }
}

/// The first `upto` members that no parentless member and no earlier
/// representative covers: one representative per parentless cycle.
pub open spec fn reps_upto(par: Seq<Option<usize>>, mem: Seq<bool>, upto: nat) -> Seq<usize>
    decreases upto,
{
    if upto == 0 {
        Seq::empty()
    } else {
        let prev = reps_upto(par, mem, (upto - 1) as nat);
        let i = upto - 1;
        let known = index_set(parentless_upto(par, mem, par.len()) + prev);
        if mem[i] && !covered_by(par, known, i) {
            prev.push(i as usize)
        } else {
            prev
        }
    }
}

/// Roots for every connected part of the members: the parentless members,
/// then one representative of each parent cycle, so malformed parent
/// graphs stay visible.
pub open spec fn member_roots(par: Seq<Option<usize>>, mem: Seq<bool>) -> Seq<usize> {
    parentless_upto(par, mem, par.len()) + reps_upto(par, mem, par.len())
}

/// Whether one of the first `par.len()` ancestors of `x` is marked.
fn covered(par: &Vec<Option<usize>>, marked: &Vec<bool>, x: usize, Ghost(known): Ghost<Set<int>>) -> (b: bool)
    requires
        parents_in_range(par@),
        marked@.len() == par@.len(),
        forall|i: int| 0 <= i < par@.len() ==> (#[trigger] marked@[i] <==> known.contains(i)),
        forall|i: int| #[trigger] known.contains(i) ==> 0 <= i < par@.len(),
        x < par@.len(),
    ensures
        b == covered_by(par@, known, x as int),
{
    let n = par.len();
    let mut cursor: usize = x;
    let mut steps: usize = 0;
    loop
        invariant
            n == par@.len(),
            parents_in_range(par@),
            marked@.len() == n,
            forall|i: int| 0 <= i < n ==> (#[trigger] marked@[i] <==> known.contains(i)),
            forall|i: int| #[trigger] known.contains(i) ==> 0 <= i < n,
            steps <= n,
            cursor < n,
            cursor as int == anc(par@, x as int, steps as nat),
            forall|k: nat| k < steps ==> !known.contains(#[trigger] anc(par@, x as int, k)),
        decreases n - steps,
    {
        if marked[cursor] {
            return true;
        }
        if steps == n {
            proof {
                assert forall|k: nat| k <= par@.len() implies !known.contains(#[trigger] anc(par@, x as int, k)) by {
                    if k == steps {
                    }
                }
            }
            return false;
        }
        match par[cursor] {
            Some(p) => {
                cursor = p;
                steps = steps + 1;
            },
            None => {
                proof {
                    assert(anc(par@, x as int, (steps + 1) as nat) == -1);
                    assert forall|k: nat| k <= par@.len() implies !known.contains(#[trigger] anc(par@, x as int, k)) by {
                        if k > steps {
                            lemma_anc_ended(par@, x as int, (steps + 1) as nat, k);
                        }
                    }
                }
                return false;
            },
        }
    }
}

/// The roots of the members (see [`member_roots`]).
pub fn find_member_roots(par: &Vec<Option<usize>>, mem: &Vec<bool>) -> (roots: Vec<usize>)
    requires
        parents_in_range(par@),
        mem@.len() == par@.len(),
    ensures
        roots@ == member_roots(par@, mem@),
        forall|k: int| 0 <= k < roots@.len() ==> #[trigger] roots@[k] < par@.len(),
{
    let n = par.len();
    let mut marked: Vec<bool> = Vec::new();
    let mut k: usize = 0;
    while k < n
        invariant
            k <= n,
            marked@.len() == k,
            forall|j: int| 0 <= j < k ==> !marked@[j],
        decreases n - k,
    {
        marked.push(false);
        k = k + 1;
    }
    let mut roots: Vec<usize> = Vec::new();
    let mut i: usize = 0;
    while i < n
        invariant
            i <= n,
            n == par@.len(),
            mem@.len() == n,
            parents_in_range(par@),
            marked@.len() == n,
            roots@ == parentless_upto(par@, mem@, i as nat),
            forall|j: int| 0 <= j < roots@.len() ==> #[trigger] roots@[j] < i,
            forall|j: int| 0 <= j < n ==> (#[trigger] marked@[j] <==> index_set(roots@).contains(j)),
        decreases n - i,
    {
        let ghost before = roots@;
        if mem[i] && par[i].is_none() {
            roots.push(i);
            marked.set(i, true);
        }
        proof {
            assert forall|j: int| 0 <= j < n implies (#[trigger] marked@[j] <==> index_set(roots@).contains(j)) by {
                lemma_index_set_contains(roots@, j);
                lemma_index_set_contains(before, j);
                if roots@.len() > before.len() && j == i as int {
                    assert(roots@[before.len() as int] as int == j);
                }
                if roots@.len() > before.len() {
                    assert forall|jj: int| 0 <= jj < before.len() implies roots@[jj] == before[jj] by {}
                }
            }
        }
        i = i + 1;
    }
    let ghost base = roots@;
    let mut reps: Vec<usize> = Vec::new();
    let mut i: usize = 0;
    while i < n
        invariant
            i <= n,
            n == par@.len(),
            mem@.len() == n,
            parents_in_range(par@),
            marked@.len() == n,
            base == parentless_upto(par@, mem@, par@.len()),
            roots@ == base,
            forall|j: int| 0 <= j < base.len() ==> #[trigger] base[j] < n,
            reps@ == reps_upto(par@, mem@, i as nat),
            forall|j: int| 0 <= j < reps@.len() ==> #[trigger] reps@[j] < i,
            forall|j: int| 0 <= j < n ==> (#[trigger] marked@[j] <==> index_set(base + reps@).contains(j)),
        decreases n - i,
    {
        proof {
            assert forall|j: int| #[trigger] index_set(base + reps@).contains(j) implies 0 <= j < par@.len() by {
                lemma_index_set_contains(base + reps@, j);
                let w = choose|w: int| 0 <= w < (base + reps@).len() && (base + reps@)[w] as int == j;
                if w < base.len() {
                    assert((base + reps@)[w] == base[w]);
                } else {
                    assert((base + reps@)[w] == reps@[w - base.len()]);
                }
            }
        }
        let ghost before = reps@;
        if mem[i] && !covered(par, &marked, i, Ghost(index_set(base + reps@))) {
            reps.push(i);
            marked.set(i, true);
        }
        proof {
            assert forall|j: int| 0 <= j < n implies (#[trigger] marked@[j] <==> index_set(base + reps@).contains(j)) by {
                lemma_index_set_contains(base + reps@, j);
                lemma_index_set_contains(base + before, j);
                if reps@.len() > before.len() {
                    assert(base + reps@ =~= (base + before).push(i));
                    if j == i as int {
                        assert((base + reps@)[(base + before).len() as int] as int == j);
                    }
                    assert forall|jj: int| 0 <= jj < (base + before).len() implies (base + reps@)[jj] == (base + before)[jj] by {}
                } else {
                    assert(base + reps@ =~= base + before);
                }
            }
        }
        i = i + 1;
    }
    let mut k: usize = 0;
    while k < reps.len()
        invariant
            k <= reps@.len(),
            roots@ == base + reps@.subrange(0, k as int),
            forall|j: int| 0 <= j < base.len() ==> #[trigger] base[j] < n,
            forall|j: int| 0 <= j < reps@.len() ==> #[trigger] reps@[j] < n,
            n == par@.len(),
        decreases reps@.len() - k,
    {
        roots.push(reps[k]);
        k = k + 1;
        assert(roots@ =~= base + reps@.subrange(0, k as int));
    }
    assert(reps@.subrange(0, reps@.len() as int) =~= reps@);
    assert forall|j: int| 0 <= j < roots@.len() implies #[trigger] roots@[j] < par@.len() by {
        if j < base.len() {
            assert(roots@[j] == base[j]);
        } else {
            assert(roots@[j] == reps@[j - base.len()]);
        }
    }
    roots
}

/// The children of `x` below `upto`, in index order.
pub open spec fn kids_upto(par: Seq<Option<usize>>, x: int, upto: nat) -> Seq<usize>
    decreases upto,
{
    if upto == 0 {
        Seq::empty()
    } else {
        let prev = kids_upto(par, x, (upto - 1) as nat);
        if par[upto - 1] matches Some(p) && p as int == x {
            prev.push((upto - 1) as usize)
        } else {
            prev
        }
    }
}

/// The children of `x`, in index order.
pub open spec fn kids(par: Seq<Option<usize>>, x: int) -> Seq<usize> {
    kids_upto(par, x, par.len())
}

pub proof fn lemma_kids_upto_range(par: Seq<Option<usize>>, x: int, upto: nat)
    requires
        upto <= par.len(),
        par.len() <= usize::MAX,
    ensures
        forall|k: int| 0 <= k < kids_upto(par, x, upto).len() ==> #[trigger] kids_upto(par, x, upto)[k] < upto,
        forall|k: int|
            0 <= k < kids_upto(par, x, upto).len() ==> (par[#[trigger] kids_upto(par, x, upto)[k] as int] matches Some(
                p,
            ) && p as int == x),
    decreases upto,
{
    if upto > 0 {
        lemma_kids_upto_range(par, x, (upto - 1) as nat);
        let prev = kids_upto(par, x, (upto - 1) as nat);
        let cur = kids_upto(par, x, upto);
        assert forall|k: int| 0 <= k < cur.len() implies #[trigger] cur[k] < upto && (par[cur[k] as int] matches Some(
            p,
        ) && p as int == x) by {
            if par[upto - 1] matches Some(p) && p as int == x {
                assert(cur == prev.push((upto - 1) as usize));
            } else {
                assert(cur == prev);
            }
            if k < prev.len() {
                assert(cur[k] == prev[k]);
            }
        }
    }
}

/// The children of every node, each list in index order.
pub fn children_lists(par: &Vec<Option<usize>>) -> (lists: Vec<Vec<usize>>)
    ensures
        lists@.len() == par@.len(),
        forall|x: int| 0 <= x < par@.len() ==> (#[trigger] lists@[x])@ == kids(par@, x),
{
    let n = par.len();
    let mut lists: Vec<Vec<usize>> = Vec::new();
    let mut x: usize = 0;
    while x < n
        invariant
            n == par@.len(),
            x <= n,
            lists@.len() == x,
            forall|j: int| 0 <= j < x ==> (#[trigger] lists@[j])@ == kids(par@, j),
        decreases n - x,
    {
        let mut list: Vec<usize> = Vec::new();
        let mut i: usize = 0;
        while i < n
            invariant
                n == par@.len(),
                x < n,
                i <= n,
                list@ == kids_upto(par@, x as int, i as nat),
            decreases n - i,
        {
            let is_kid = match par[i] {
                Some(p) => p == x,
                None => false,
            };
            if is_kid {
                list.push(i);
            }
            i = i + 1;
        }
        lists.push(list);
        x = x + 1;
    }
    lists
}

} // verus!
