//! Scheduling rules saved per program: a priority class and an affinity
//! mask that new instances of the program get. A rule that pins nothing is
//! never kept.
use vstd::prelude::*;
use crate::details_rows::PriorityClass;
use crate::text::str_eq;

verus! {

/// What a program's rule pins.
#[derive(Debug, Clone, Copy, PartialEq, Eq, Structural)]
pub struct ProcessRule {
    pub priority: Option<PriorityClass>,
    pub affinity_mask: Option<u64>,
}

/// A rule that pins nothing.
pub open spec fn rule_is_empty(r: ProcessRule) -> bool {
    r.priority is None && r.affinity_mask is None
}

impl ProcessRule {
    /// Whether the rule pins nothing.
    pub fn is_empty(&self) -> (b: bool)
        ensures
            b == rule_is_empty(*self),
    {
        self.priority.is_none() && self.affinity_mask.is_none()
    }
}

/// The rule stored under `k`, or the empty rule.
pub open spec fn rule_at(m: Map<Seq<char>, ProcessRule>, k: Seq<char>) -> ProcessRule {
    if m.contains_key(k) {
        m[k]
    } else {
        ProcessRule { priority: None, affinity_mask: None }
    }
}

/// `m` with `r` stored under `k`, or with `k` dropped when `r` pins
/// nothing.
pub open spec fn stored(m: Map<Seq<char>, ProcessRule>, k: Seq<char>, r: ProcessRule) -> Map<Seq<char>, ProcessRule> {
    if rule_is_empty(r) {
        m.remove(k)
    } else {
        m.insert(k, r)
    }
}

/// `m` after the priority saved for `k` becomes `p`.
pub open spec fn with_priority(m: Map<Seq<char>, ProcessRule>, k: Seq<char>, p: Option<PriorityClass>) -> Map<
    Seq<char>,
    ProcessRule,
> {
    stored(m, k, ProcessRule { priority: p, ..rule_at(m, k) })
}

/// `m` after the affinity saved for `k` becomes `mask`.
pub open spec fn with_affinity(m: Map<Seq<char>, ProcessRule>, k: Seq<char>, mask: Option<u64>) -> Map<
    Seq<char>,
    ProcessRule,
> {
    stored(m, k, ProcessRule { affinity_mask: mask, ..rule_at(m, k) })
}

/// No key occurs twice.
pub open spec fn keys_distinct(e: Seq<(String, ProcessRule)>) -> bool {
    forall|i: int, j: int| 0 <= i < e.len() && 0 <= j < e.len() && i != j ==> #[trigger] e[i].0@ != #[trigger] e[j].0@
}

/// The map the entries spell.
pub open spec fn entries_map(e: Seq<(String, ProcessRule)>) -> Map<Seq<char>, ProcessRule>
    decreases e.len(),
{
    if e.len() == 0 {
        Map::empty()
    } else {
        entries_map(e.drop_last()).insert(e.last().0@, e.last().1)
    }
}

proof fn lemma_entries_map(e: Seq<(String, ProcessRule)>)
    requires
        keys_distinct(e),
    ensures
        forall|x: Seq<char>| #[trigger] entries_map(e).contains_key(x) <==> exists|j: int| 0 <= j < e.len() && e[j].0@ == x,
        forall|j: int| 0 <= j < e.len() ==> entries_map(e)[#[trigger] e[j].0@] == e[j].1,
    decreases e.len(),
{
    if e.len() > 0 {
        let d = e.drop_last();
        assert forall|i: int, j: int| 0 <= i < d.len() && 0 <= j < d.len() && i != j implies #[trigger] d[i].0@ != #[trigger] d[j].0@ by {
            assert(d[i] == e[i] && d[j] == e[j]);
        }
        lemma_entries_map(d);
        let n = e.len() - 1;
        assert forall|x: Seq<char>| #[trigger] entries_map(e).contains_key(x) <==> exists|j: int| 0 <= j < e.len() && e[j].0@ == x by {
            if entries_map(e).contains_key(x) {
                if x == e[n].0@ {
                    assert(0 <= n < e.len() && e[n].0@ == x);
                } else {
                    assert(entries_map(d).contains_key(x));
                    let j = choose|j: int| 0 <= j < d.len() && d[j].0@ == x;
                    assert(e[j] == d[j]);
                    assert(0 <= j < e.len() && e[j].0@ == x);
                }
            }
            if exists|j: int| 0 <= j < e.len() && e[j].0@ == x {
                let j = choose|j: int| 0 <= j < e.len() && e[j].0@ == x;
                if j < n {
                    assert(d[j] == e[j]);
                    assert(0 <= j < d.len() && d[j].0@ == x);
                    assert(entries_map(d).contains_key(x));
                }
            }
        }
        assert forall|j: int| 0 <= j < e.len() implies entries_map(e)[#[trigger] e[j].0@] == e[j].1 by {
            if j < n {
                assert(d[j] == e[j]);
                assert(e[j].0@ != e[n].0@);
            }
        }
    }
}

proof fn lemma_kept_nonempty(e: Seq<(String, ProcessRule)>)
    requires
        keys_distinct(e),
        forall|i: int| 0 <= i < e.len() ==> !rule_is_empty(#[trigger] e[i].1),
    ensures
        forall|k: Seq<char>| #[trigger] entries_map(e).contains_key(k) ==> !rule_is_empty(entries_map(e)[k]),
{
    lemma_entries_map(e);
    assert forall|k: Seq<char>| #[trigger] entries_map(e).contains_key(k) implies !rule_is_empty(entries_map(e)[k]) by {
        let j = choose|j: int| 0 <= j < e.len() && e[j].0@ == k;
        assert(entries_map(e)[e[j].0@] == e[j].1);
    }
}

/// The table keeps no rule that pins nothing.
pub open spec fn none_empty(m: Map<Seq<char>, ProcessRule>) -> bool {
    forall|k: Seq<char>| #[trigger] m.contains_key(k) ==> !rule_is_empty(m[k])
}

/// Saved rules, at most one per program key, none of them empty.
pub struct RuleTable {
    entries: Vec<(String, ProcessRule)>,
}

impl View for RuleTable {
    type V = Map<Seq<char>, ProcessRule>;

    closed spec fn view(&self) -> Map<Seq<char>, ProcessRule> {
        entries_map(self.entries@)
    }
}

impl RuleTable {
    #[verifier::type_invariant]
    closed spec fn well_kept(self) -> bool {
        &&& keys_distinct(self.entries@)
        &&& forall|i: int| 0 <= i < self.entries@.len() ==> !rule_is_empty(#[trigger] self.entries@[i].1)
    }

    /// A table without rules.
    pub fn new() -> (t: RuleTable)
        ensures
            t@ == Map::<Seq<char>, ProcessRule>::empty(),
            none_empty(t@),
    {
        RuleTable { entries: Vec::new() }
    }

    /// Position of `key`, or the number of entries.
    fn position(&self, key: &str) -> (i: usize)
        ensures
            i <= self.entries@.len(),
            i < self.entries@.len() ==> self.entries@[i as int].0@ == key@,
            i == self.entries@.len() ==> forall|j: int| 0 <= j < self.entries@.len() ==> #[trigger] self.entries@[j].0@ != key@,
    {
        let mut i: usize = 0;
        while i < self.entries.len()
            invariant
                i <= self.entries@.len(),
                forall|j: int| 0 <= j < i ==> #[trigger] self.entries@[j].0@ != key@,
            decreases self.entries@.len() - i,
        {
            if str_eq(self.entries[i].0.as_str(), key) {
                return i;
            }
            i = i + 1;
        }
        i
    }

    /// The rule saved for `key`, if any.
    pub fn get(&self, key: &str) -> (r: Option<ProcessRule>)
        ensures
            r == (if self@.contains_key(key@) {
                Some(self@[key@])
            } else {
                None
            }),
    {
        proof {
            use_type_invariant(self);
            lemma_entries_map(self.entries@);
        }
        let i = self.position(key);
        if i < self.entries.len() {
            Some(self.entries[i].1)
        } else {
            None
        }
    }

    /// Store `rule` under `key`, or drop `key` when `rule` pins nothing.
    fn store(&mut self, key: &str, rule: ProcessRule)
        ensures
            final(self)@ == stored(old(self)@, key@, rule),
            none_empty(final(self)@),
    {
        proof {
            use_type_invariant(&*self);
            lemma_entries_map(self.entries@);
        }
        let i = self.position(key);
        let ghost before = self.entries@;
        let mut entries: Vec<(String, ProcessRule)> = Vec::new();
        std::mem::swap(&mut entries, &mut self.entries);
        assert(entries@ == before);
        if i < entries.len() {
            let (k, _) = entries.remove(i);
            if !rule.is_empty() {
                entries.insert(i, (k, rule));
            }
        } else if !rule.is_empty() {
            entries.push((key.to_owned(), rule));
        }
        proof {
            let after = entries@;
            assert forall|a: int, b: int| 0 <= a < after.len() && 0 <= b < after.len() && a != b implies #[trigger] after[a].0@ != #[trigger] after[b].0@ by {
                if i < before.len() {
                    if rule_is_empty(rule) {
                        let a0 = if a < i { a } else { a + 1 };
                        let b0 = if b < i { b } else { b + 1 };
                        assert(after[a] == before[a0] && after[b] == before[b0]);
                    } else {
                        assert(after =~= before.update(i as int, (after[i as int].0, rule)));
                    }
                } else if !rule_is_empty(rule) {
                    if a < before.len() && b < before.len() {
                        assert(after[a] == before[a] && after[b] == before[b]);
                    } else if a < before.len() {
                        assert(after[a] == before[a]);
                    } else {
                        assert(after[b] == before[b]);
                    }
                } else {
                    assert(after[a] == before[a] && after[b] == before[b]);
                }
            }
            assert forall|a: int| 0 <= a < after.len() implies !rule_is_empty(#[trigger] after[a].1) by {
                if i < before.len() {
                    if rule_is_empty(rule) {
                        let a0 = if a < i { a } else { a + 1 };
                        assert(after[a] == before[a0]);
                    } else if a != i {
                        assert(after =~= before.update(i as int, (after[i as int].0, rule)));
                    }
                } else if a < before.len() {
                    assert(after[a] == before[a]);
                }
            }
            lemma_entries_map(after);
            let m = entries_map(before);
            let target = stored(m, key@, rule);
            assert forall|x: Seq<char>| #[trigger] entries_map(after).contains_key(x) <==> target.contains_key(x) by {
                if entries_map(after).contains_key(x) {
                    let j = choose|j: int| 0 <= j < after.len() && after[j].0@ == x;
                    if i < before.len() {
                        if rule_is_empty(rule) {
                            let j0 = if j < i { j } else { j + 1 };
                            assert(after[j] == before[j0]);
                        } else if j != i {
                            assert(after =~= before.update(i as int, (after[i as int].0, rule)));
                        }
                    } else if j < before.len() {
                        assert(after[j] == before[j]);
                    }
                }
                if target.contains_key(x) {
                    if x == key@ {
                        if i < before.len() {
                            assert(after[i as int].0@ == key@);
                        } else {
                            assert(after[before.len() as int].0@ == key@);
                        }
                    } else {
                        let j = choose|j: int| 0 <= j < before.len() && before[j].0@ == x;
                        if i < before.len() {
                            if rule_is_empty(rule) {
                                let j1 = if j < i { j } else { j - 1 };
                                assert(before[j] == after[j1]);
                            } else {
                                assert(after =~= before.update(i as int, (after[i as int].0, rule)));
                                assert(after[j] == before[j]);
                            }
                        } else {
                            assert(after[j] == before[j]);
                        }
                    }
                }
            }
            assert forall|x: Seq<char>| #[trigger] entries_map(after).contains_key(x) implies entries_map(after)[x] == target[x] by {
                let j = choose|j: int| 0 <= j < after.len() && after[j].0@ == x;
                assert(entries_map(after)[after[j].0@] == after[j].1);
                if i < before.len() {
                    if rule_is_empty(rule) {
                        let j0 = if j < i { j } else { j + 1 };
                        assert(after[j] == before[j0]);
                        assert(m[before[j0].0@] == before[j0].1);
                    } else if j != i {
                        assert(after =~= before.update(i as int, (after[i as int].0, rule)));
                        assert(after[j] == before[j]);
                        assert(m[before[j].0@] == before[j].1);
                    }
                } else if j < before.len() {
                    assert(after[j] == before[j]);
                    assert(m[before[j].0@] == before[j].1);
                }
            }
            assert(entries_map(after) =~= target);
            lemma_kept_nonempty(after);
        }
        self.entries = entries;
    }

    /// Save `priority` as the priority of the program `key` (`None` forgets
    /// it); a rule left pinning nothing is dropped.
    pub fn set_priority(&mut self, key: &str, priority: Option<PriorityClass>)
        ensures
            final(self)@ == with_priority(old(self)@, key@, priority),
            none_empty(final(self)@),
    {
        let old_rule = match self.get(key) {
            Some(r) => r,
            None => ProcessRule { priority: None, affinity_mask: None },
        };
        self.store(key, ProcessRule { priority, affinity_mask: old_rule.affinity_mask });
    }

    /// Save `mask` as the affinity of the program `key` (`None` forgets
    /// it); a rule left pinning nothing is dropped.
    pub fn set_affinity(&mut self, key: &str, mask: Option<u64>)
        ensures
            final(self)@ == with_affinity(old(self)@, key@, mask),
            none_empty(final(self)@),
    {
        let old_rule = match self.get(key) {
            Some(r) => r,
            None => ProcessRule { priority: None, affinity_mask: None },
        };
        self.store(key, ProcessRule { priority: old_rule.priority, affinity_mask: mask });
    }

    /// Whether the program `key` has a saved priority.
    pub fn saves_priority(&self, key: &str) -> (b: bool)
        ensures
            b == (self@.contains_key(key@) && self@[key@].priority is Some),
    {
        match self.get(key) {
            Some(r) => r.priority.is_some(),
            None => false,
        }
    }

    /// Whether the program `key` has a saved affinity.
    pub fn saves_affinity(&self, key: &str) -> (b: bool)
        ensures
            b == (self@.contains_key(key@) && self@[key@].affinity_mask is Some),
    {
        match self.get(key) {
            Some(r) => r.affinity_mask.is_some(),
            None => false,
        }
    }
}

/// Forgetting a program's priority right after saving one leaves its
/// saved affinity exactly as it was, and no other program is touched.
pub proof fn lemma_priority_roundtrip(m: Map<Seq<char>, ProcessRule>, k: Seq<char>, p: PriorityClass)
    requires
        none_empty(m),
    ensures
        with_priority(with_priority(m, k, Some(p)), k, None) == with_priority(m, k, None),
        rule_at(with_priority(m, k, Some(p)), k).priority == Some(p),
        forall|x: Seq<char>| x != k ==> #[trigger] rule_at(with_priority(m, k, Some(p)), x) == rule_at(m, x),
{
    let once = with_priority(m, k, Some(p));
    assert(with_priority(once, k, None) =~= with_priority(m, k, None));
}

/// Setting the affinity never changes the saved priority, and setting the
/// priority never changes the saved affinity.
pub proof fn lemma_fields_independent(
    m: Map<Seq<char>, ProcessRule>,
    k: Seq<char>,
    p: Option<PriorityClass>,
    mask: Option<u64>,
)
    ensures
        rule_at(with_affinity(m, k, mask), k).priority == rule_at(m, k).priority,
        rule_at(with_priority(m, k, p), k).affinity_mask == rule_at(m, k).affinity_mask,
        rule_at(with_affinity(m, k, mask), k).affinity_mask == mask,
        rule_at(with_priority(m, k, p), k).priority == p,
{
}

} // verus!
