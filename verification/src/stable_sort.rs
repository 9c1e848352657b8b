//! Stable insertion order: the order a stable sort leaves a sequence in.
use vstd::prelude::*;

verus! {

/// `x` inserted into the sorted `s` before the first entry it sorts
/// strictly before, so it lands after every entry it ties with.
pub open spec fn insert_by<T>(s: Seq<T>, x: T, before: spec_fn(T, T) -> bool) -> Seq<T>
    decreases s.len(),
{
    if s.len() == 0 {
        seq![x]
    } else if before(x, s[0]) {
        seq![x] + s
    } else {
        seq![s[0]] + insert_by(s.drop_first(), x, before)
    }
}

/// `s` stably sorted by `before`: entries that tie keep their order.
pub open spec fn stable_sorted<T>(s: Seq<T>, before: spec_fn(T, T) -> bool) -> Seq<T>
    decreases s.len(),
{
    if s.len() == 0 {
        Seq::empty()
    } else {
        insert_by(stable_sorted(s.drop_last(), before), s.last(), before)
    }
}

pub proof fn lemma_insert_by_at<T>(s: Seq<T>, x: T, before: spec_fn(T, T) -> bool, p: int)
    requires
        0 <= p <= s.len(),
        forall|k: int| 0 <= k < p ==> !before(x, #[trigger] s[k]),
        p < s.len() ==> before(x, s[p]),
    ensures
        insert_by(s, x, before) == s.subrange(0, p) + seq![x] + s.subrange(p, s.len() as int),
    decreases s.len(),
{
    if s.len() == 0 {
        assert(s.subrange(0, p) + seq![x] + s.subrange(p, s.len() as int) =~= seq![x]);
    } else if p == 0 {
        assert(s.subrange(0, p) + seq![x] + s.subrange(p, s.len() as int) =~= seq![x] + s);
    } else {
        let t = s.drop_first();
        assert forall|k: int| 0 <= k < p - 1 implies !before(x, #[trigger] t[k]) by {
            assert(t[k] == s[k + 1]);
        }
        assert(!before(x, s[0]));
        lemma_insert_by_at(t, x, before, p - 1);
        assert(seq![s[0]] + (t.subrange(0, p - 1) + seq![x] + t.subrange(p - 1, t.len() as int))
            =~= s.subrange(0, p) + seq![x] + s.subrange(p, s.len() as int));
    }
}

pub proof fn lemma_insert_by_members<T>(s: Seq<T>, x: T, before: spec_fn(T, T) -> bool)
    ensures
        insert_by(s, x, before).len() == s.len() + 1,
        forall|y: T| #[trigger] insert_by(s, x, before).contains(y) <==> (y == x || s.contains(y)),
    decreases s.len(),
{
    let r = insert_by(s, x, before);
    if s.len() == 0 {
        assert(r == seq![x]);
        assert forall|y: T| #[trigger] r.contains(y) <==> (y == x || s.contains(y)) by {
            if r.contains(y) {
                let w = choose|w: int| 0 <= w < r.len() && r[w] == y;
            }
            if y == x {
                assert(r[0] == x);
            }
        }
    } else if before(x, s[0]) {
        assert forall|y: T| #[trigger] r.contains(y) <==> (y == x || s.contains(y)) by {
            if r.contains(y) {
                let w = choose|w: int| 0 <= w < r.len() && r[w] == y;
                if w > 0 {
                    assert(s[w - 1] == y);
                }
            }
            if y == x {
                assert(r[0] == x);
            }
            if s.contains(y) {
                let w = choose|w: int| 0 <= w < s.len() && s[w] == y;
                assert(r[w + 1] == y);
            }
        }
    } else {
        let t = s.drop_first();
        lemma_insert_by_members(t, x, before);
        let rt = insert_by(t, x, before);
        assert forall|y: T| #[trigger] r.contains(y) <==> (y == x || s.contains(y)) by {
            if r.contains(y) {
                let w = choose|w: int| 0 <= w < r.len() && r[w] == y;
                if w > 0 {
                    assert(rt[w - 1] == y);
                    assert(rt.contains(y));
                    if y != x {
                        let v = choose|v: int| 0 <= v < t.len() && t[v] == y;
                        assert(s[v + 1] == y);
                    }
                } else {
                    assert(s[0] == y);
                }
            }
            if y == x {
                assert(rt.contains(x));
                let v = choose|v: int| 0 <= v < rt.len() && rt[v] == x;
                assert(r[v + 1] == x);
            }
            if s.contains(y) {
                let w = choose|w: int| 0 <= w < s.len() && s[w] == y;
                if w == 0 {
                    assert(r[0] == y);
                } else {
                    assert(t[w - 1] == y);
                    assert(t.contains(y));
                    assert(rt.contains(y));
                    let v = choose|v: int| 0 <= v < rt.len() && rt[v] == y;
                    assert(r[v + 1] == y);
                }
            }
        }
    }
}

/// Sorting keeps exactly the entries of the input.
pub proof fn lemma_stable_sorted_members<T>(s: Seq<T>, before: spec_fn(T, T) -> bool)
    ensures
        stable_sorted(s, before).len() == s.len(),
        forall|y: T| #[trigger] stable_sorted(s, before).contains(y) <==> s.contains(y),
    decreases s.len(),
{
    if s.len() > 0 {
        lemma_stable_sorted_members(s.drop_last(), before);
        lemma_insert_by_members(stable_sorted(s.drop_last(), before), s.last(), before);
        assert forall|y: T| #[trigger] stable_sorted(s, before).contains(y) <==> s.contains(y) by {
            if s.contains(y) {
                let w = choose|w: int| 0 <= w < s.len() && s[w] == y;
                if w < s.len() - 1 {
                    assert(s.drop_last()[w] == y);
                    assert(s.drop_last().contains(y));
                }
            }
            if s.drop_last().contains(y) {
                let w = choose|w: int| 0 <= w < s.drop_last().len() && s.drop_last()[w] == y;
                assert(s[w] == y);
            }
        }
    }
}

/// Where `insert_by` puts `x` into `s`: before the first entry that `x`
/// sorts strictly before, else at the end.
spec fn insert_pos<T>(s: Seq<T>, x: T, before: spec_fn(T, T) -> bool) -> nat
    decreases s.len(),
{
    if s.len() == 0 {
        0
    } else if before(x, s[0]) {
        0
    } else {
        1 + insert_pos(s.drop_first(), x, before)
    }
}

proof fn lemma_insert_pos<T>(s: Seq<T>, x: T, before: spec_fn(T, T) -> bool)
    ensures
        insert_pos(s, x, before) <= s.len(),
        forall|k: int| 0 <= k < insert_pos(s, x, before) ==> !before(x, #[trigger] s[k]),
        insert_pos(s, x, before) < s.len() ==> before(x, s[insert_pos(s, x, before) as int]),
    decreases s.len(),
{
    if s.len() > 0 && !before(x, s[0]) {
        let t = s.drop_first();
        lemma_insert_pos(t, x, before);
        assert forall|k: int| 0 <= k < insert_pos(s, x, before) implies !before(x, #[trigger] s[k]) by {
            if k > 0 {
                assert(s[k] == t[k - 1]);
            }
        }
        if insert_pos(s, x, before) < s.len() {
            assert(s[insert_pos(s, x, before) as int] == t[insert_pos(t, x, before) as int]);
        }
    }
}

/// `before` is a strict weak order on the entries of `s`: no two entries
/// each sort before the other, and when `x` sorts before `y`, any third
/// entry sorts after `x` or before `y`.
pub open spec fn strict_weak_on<T>(s: Seq<T>, before: spec_fn(T, T) -> bool) -> bool {
    &&& forall|x: T, y: T|
        #![trigger before(x, y), s.contains(x), s.contains(y)]
        s.contains(x) && s.contains(y) && before(x, y) ==> !before(y, x)
    &&& forall|x: T, y: T, z: T|
        #![trigger before(x, y), s.contains(z)]
        s.contains(x) && s.contains(y) && s.contains(z) && before(x, y) ==> before(x, z) || before(z, y)
}

/// No entry of `r` sorts strictly before an entry ahead of it.
pub open spec fn sorted_by<T>(r: Seq<T>, before: spec_fn(T, T) -> bool) -> bool {
    forall|i: int, j: int| 0 <= i < j < r.len() ==> !before(#[trigger] r[j], #[trigger] r[i])
}

/// Entries of `s` that `before` does not put the other way round keep their
/// input order in `r`.
pub open spec fn keeps_ties<T>(s: Seq<T>, r: Seq<T>, before: spec_fn(T, T) -> bool) -> bool {
    forall|i: int, j: int, p: int, q: int|
        #![trigger s[i], s[j], r[p], r[q]]
        0 <= i < j < s.len() && !before(s[j], s[i]) && 0 <= p < r.len() && 0 <= q < r.len()
            && r[p] == s[i] && r[q] == s[j] ==> p < q
}

/// Under a strict weak order, the stable sort is sorted, and on entries that
/// occur once it is stable: it keeps entries that tie in their input order.
pub proof fn lemma_stable_sorted_order<T>(s: Seq<T>, before: spec_fn(T, T) -> bool)
    requires
        strict_weak_on(s, before),
    ensures
        sorted_by(stable_sorted(s, before), before),
        s.no_duplicates() ==> stable_sorted(s, before).no_duplicates(),
        s.no_duplicates() ==> keeps_ties(s, stable_sorted(s, before), before),
    decreases s.len(),
{
    if s.len() == 0 {
        return;
    }
    let n = s.len() as int;
    let s1 = s.drop_last();
    let x = s.last();
    assert forall|y: T| s1.contains(y) implies s.contains(y) by {
        let w = choose|w: int| 0 <= w < s1.len() && s1[w] == y;
        assert(s[w] == y);
    }
    assert(s.contains(x)) by {
        assert(s[n - 1] == x);
    }
    assert(strict_weak_on(s1, before));
    lemma_stable_sorted_order(s1, before);
    lemma_stable_sorted_members(s1, before);
    let r1 = stable_sorted(s1, before);
    let m = r1.len() as int;
    lemma_insert_pos(r1, x, before);
    let p = insert_pos(r1, x, before) as int;
    lemma_insert_by_at(r1, x, before, p);
    let r = stable_sorted(s, before);
    assert(r == r1.subrange(0, p) + seq![x] + r1.subrange(p, m));
    assert(r.len() == m + 1);
    assert forall|k: int| 0 <= k < p implies #[trigger] r[k] == r1[k] by {}
    assert(r[p] == x);
    assert forall|k: int| p < k <= m implies #[trigger] r[k] == r1[k - 1] by {}
    assert forall|k: int| 0 <= k < m implies s.contains(#[trigger] r1[k]) by {
        assert(r1.contains(r1[k]));
    }
    // sorted
    assert forall|i: int, j: int| 0 <= i < j < r.len() implies !before(#[trigger] r[j], #[trigger] r[i]) by {
        if i == p {
            let y = r1[j - 1];
            assert(r[j] == y);
            if before(y, x) {
                assert(s.contains(y));
                let z = r1[p];
                assert(s.contains(z));
                assert(before(x, z));
                assert(before(y, z) || before(z, x));
                if j - 1 == p {
                    assert(!before(z, x));
                } else {
                    assert(!before(r1[j - 1], r1[p]));
                }
            }
        } else if j == p {
            assert(r[i] == r1[i]);
        } else {
            let i1 = if i < p { i } else { i - 1 };
            let j1 = if j < p { j } else { j - 1 };
            assert(r[i] == r1[i1]);
            assert(r[j] == r1[j1]);
            assert(!before(r1[j1], r1[i1]));
        }
    }
    if s.no_duplicates() {
        assert(!s1.contains(x)) by {
            if s1.contains(x) {
                let w = choose|w: int| 0 <= w < s1.len() && s1[w] == x;
                assert(s[w] == s[n - 1]);
            }
        }
        assert(s1.no_duplicates()) by {
            assert forall|a: int, b: int| 0 <= a < s1.len() && 0 <= b < s1.len() && a != b
                implies s1[a] != s1[b] by {
                assert(s1[a] == s[a] && s1[b] == s[b]);
            }
        }
        assert forall|k: int| 0 <= k < m implies #[trigger] r1[k] != x by {
            assert(r1.contains(r1[k]));
        }
        assert(r.no_duplicates()) by {
            assert forall|a: int, b: int| 0 <= a < r.len() && 0 <= b < r.len() && a != b
                implies r[a] != r[b] by {
                let a1 = if a < p { a } else { a - 1 };
                let b1 = if b < p { b } else { b - 1 };
                if a != p && b != p {
                    assert(r[a] == r1[a1] && r[b] == r1[b1]);
                    assert(a1 != b1);
                } else if a == p {
                    assert(r[b] == r1[b1]);
                } else {
                    assert(r[a] == r1[a1]);
                }
            }
        }
        assert forall|i: int, j: int, pp: int, qq: int|
            0 <= i < j < s.len() && !before(s[j], s[i]) && 0 <= pp < r.len() && 0 <= qq < r.len()
                && r[pp] == s[i] && r[qq] == s[j] implies pp < qq by {
            assert(s[i] != s[j]);
            let p1 = if pp < p { pp } else { pp - 1 };
            let q1 = if qq < p { qq } else { qq - 1 };
            if j == n - 1 {
                assert(qq == p);
                assert(pp != p);
                if pp > p {
                    assert(r[pp] == r1[p1]);
                    let z = r1[p];
                    assert(s.contains(z));
                    assert(s.contains(s[i]));
                    assert(before(x, z));
                    assert(before(x, s[i]) || before(s[i], z));
                    if p1 == p {
                        assert(!before(z, z));
                    } else {
                        assert(!before(r1[p1], r1[p]));
                    }
                }
            } else {
                assert(pp != p);
                assert(qq != p);
                assert(r[pp] == r1[p1]);
                assert(r[qq] == r1[q1]);
                assert(s1[i] == s[i] && s1[j] == s[j]);
                assert(keeps_ties(s1, r1, before));
                assert(p1 < q1);
            }
        }
    }
}

/// The positions below `n` whose flag is set, in order.
pub open spec fn flagged_upto(flags: Seq<bool>, n: nat) -> Seq<usize>
    decreases n,
{
    if n == 0 {
        Seq::empty()
    } else {
        let prev = flagged_upto(flags, (n - 1) as nat);
        if flags[n - 1] {
            prev.push((n - 1) as usize)
        } else {
            prev
        }
    }
}

/// The positions below `n` whose flag is set, in order.
pub fn flagged(flags: &[bool], n: usize) -> (v: Vec<usize>)
    requires
        n <= flags@.len(),
    ensures
        v@ == flagged_upto(flags@, n as nat),
        forall|k: int| 0 <= k < v@.len() ==> #[trigger] v@[k] < n,
{
    let mut v: Vec<usize> = Vec::new();
    let mut i: usize = 0;
    while i < n
        invariant
            i <= n <= flags@.len(),
            v@ == flagged_upto(flags@, i as nat),
            forall|k: int| 0 <= k < v@.len() ==> #[trigger] v@[k] < i,
        decreases n - i,
    {
        if flags[i] {
            v.push(i);
        }
        i = i + 1;
    }
    v
}

} // verus!
