//! Column preferences and sort state of the Details page: which columns are
//! shown, in which order, which column sorts, and which tree nodes the user
//! collapsed.
use std::collections::HashSet;
use vstd::prelude::*;
use crate::details::{
    COLUMN_COUNT, ColumnId, SortOrder, cid_from_id, cid_is_gpu, cid_is_numeric, col_at, col_gpu,
    col_id, col_index, col_numeric, default_visible, id_of, is_default_visible,
    lemma_catalogue_bijection, lemma_col_ids_distinct, spec_cid_from_id, spec_from_saved,
    spec_next,
};

verus! {

broadcast use vstd::std_specs::hash::group_hash_axioms, vstd::string::group_string_axioms;

/// A set of Details columns, one flag per catalogue position.
pub struct ColumnSet {
    present: Vec<bool>,
}

impl View for ColumnSet {
    type V = Set<ColumnId>;

    closed spec fn view(&self) -> Set<ColumnId> {
        Set::new(|c: ColumnId| self.present@[col_index(c)])
    }
}

impl ColumnSet {
    #[verifier::type_invariant]
    spec fn well_formed(self) -> bool {
        self.present@.len() == COLUMN_COUNT
    }

    /// The set with no column.
    pub fn empty() -> (s: Self)
        ensures
            s@ == Set::<ColumnId>::empty(),
    {
        let mut present: Vec<bool> = Vec::new();
        let mut i: usize = 0;
        while i < COLUMN_COUNT
            invariant
                i <= COLUMN_COUNT,
                present@.len() == i,
                forall|j: int| 0 <= j < i ==> !present@[j],
            decreases COLUMN_COUNT - i,
        {
            present.push(false);
            i = i + 1;
        }
        let s = ColumnSet { present };
        proof {
            lemma_catalogue_bijection();
        }
        assert(s@ =~= Set::<ColumnId>::empty());
        s
    }

    /// The columns shown on a fresh install.
    pub fn defaults() -> (s: Self)
        ensures
            s@ == Set::new(|c: ColumnId| default_visible(c)),
    {
        let mut present: Vec<bool> = Vec::new();
        let mut i: usize = 0;
        while i < COLUMN_COUNT
            invariant
                i <= COLUMN_COUNT,
                present@.len() == i,
                forall|j: int| 0 <= j < i ==> present@[j] == default_visible(col_at(j)),
            decreases COLUMN_COUNT - i,
        {
            present.push(is_default_visible(ColumnId::at(i)));
            i = i + 1;
        }
        let s = ColumnSet { present };
        proof {
            lemma_catalogue_bijection();
            assert forall|c: ColumnId| s@.contains(c) == default_visible(c) by {
                assert(col_at(col_index(c)) == c);
            }
        }
        assert(s@ =~= Set::new(|c: ColumnId| default_visible(c)));
        s
    }

    /// Whether `c` is in the set.
    pub fn contains(&self, c: &ColumnId) -> (b: bool)
        ensures
            b == self@.contains(*c),
    {
        proof {
            use_type_invariant(self);
            lemma_catalogue_bijection();
        }
        self.present[c.index()]
    }

    /// The flags with position `i` set to `v`.
    fn flags_with(&self, i: usize, v: bool) -> (flags: Vec<bool>)
        requires
            i < COLUMN_COUNT,
        ensures
            flags@ == self.present@.update(i as int, v),
    {
        proof {
            use_type_invariant(self);
        }
        let mut flags: Vec<bool> = Vec::new();
        let mut j: usize = 0;
        while j < COLUMN_COUNT
            invariant
                j <= COLUMN_COUNT,
                i < COLUMN_COUNT,
                self.present@.len() == COLUMN_COUNT,
                flags@ == self.present@.update(i as int, v).subrange(0, j as int),
            decreases COLUMN_COUNT - j,
        {
            if j == i {
                flags.push(v);
            } else {
                flags.push(self.present[j]);
            }
            j = j + 1;
            assert(flags@ =~= self.present@.update(i as int, v).subrange(0, j as int));
        }
        assert(flags@ =~= self.present@.update(i as int, v));
        flags
    }

    /// Add `c`; true when it was not in the set before.
    pub fn insert(&mut self, c: ColumnId) -> (added: bool)
        ensures
            final(self)@ == old(self)@.insert(c),
            added == !old(self)@.contains(c),
    {
        proof {
            use_type_invariant(&*self);
            lemma_catalogue_bijection();
        }
        let i = c.index();
        let was = self.present[i];
        self.present = self.flags_with(i, true);
        proof {
            assert forall|d: ColumnId| #[trigger] self@.contains(d) == old(self)@.insert(c).contains(
                d,
            ) by {
                if d != c {
                    assert(col_index(d) != col_index(c));
                }
            }
        }
        assert(self@ =~= old(self)@.insert(c));
        !was
    }

    /// Drop `c`; true when it was in the set before.
    pub fn remove(&mut self, c: &ColumnId) -> (removed: bool)
        ensures
            final(self)@ == old(self)@.remove(*c),
            removed == old(self)@.contains(*c),
    {
        proof {
            use_type_invariant(&*self);
            lemma_catalogue_bijection();
        }
        let i = c.index();
        let was = self.present[i];
        self.present = self.flags_with(i, false);
        proof {
            assert forall|d: ColumnId| #[trigger] self@.contains(d) == old(self)@.remove(*c).contains(
                d,
            ) by {
                if d != *c {
                    assert(col_index(d) != col_index(*c));
                }
            }
        }
        assert(self@ =~= old(self)@.remove(*c));
        was
    }

    /// Whether no column is in the set.
    pub fn is_empty(&self) -> (b: bool)
        ensures
            b == (self@ == Set::<ColumnId>::empty()),
    {
        proof {
            use_type_invariant(self);
            lemma_catalogue_bijection();
        }
        let mut i: usize = 0;
        while i < COLUMN_COUNT
            invariant
                i <= COLUMN_COUNT,
                self.present@.len() == COLUMN_COUNT,
                forall|j: int| 0 <= j < i ==> !self.present@[j],
            decreases COLUMN_COUNT - i,
        {
            if self.present[i] {
                assert(self@.contains(col_at(i as int)));
                return false;
            }
            i = i + 1;
        }
        assert(self@ =~= Set::<ColumnId>::empty());
        true
    }

    /// Whether `c` is the one and only column in the set.
    pub fn is_only(&self, c: &ColumnId) -> (b: bool)
        ensures
            b == (self@ == set![*c]),
    {
        proof {
            use_type_invariant(self);
            lemma_catalogue_bijection();
        }
        let ci = c.index();
        if !self.present[ci] {
            assert(!self@.contains(*c));
            assert(set![*c].contains(*c));
            return false;
        }
        let mut i: usize = 0;
        while i < COLUMN_COUNT
            invariant
                i <= COLUMN_COUNT,
                ci == col_index(*c),
                self.present@.len() == COLUMN_COUNT,
                forall|j: int| 0 <= j < i && j != ci ==> !self.present@[j],
            decreases COLUMN_COUNT - i,
        {
            if i != ci && self.present[i] {
                assert(self@.contains(col_at(i as int)));
                assert(!set![*c].contains(col_at(i as int)));
                return false;
            }
            i = i + 1;
        }
        assert(self@ =~= set![*c]);
        true
    }
}

/// `order` lists every column exactly once.
pub open spec fn is_column_order(order: Seq<ColumnId>) -> bool {
    &&& order.no_duplicates()
    &&& forall|c: ColumnId| #[trigger] order.contains(c)
}

/// The catalogue order.
pub open spec fn catalogue() -> Seq<ColumnId> {
    Seq::new(COLUMN_COUNT as nat, |i: int| col_at(i))
}

/// The columns shown on a fresh install.
pub open spec fn default_set() -> Set<ColumnId> {
    Set::new(|c: ColumnId| default_visible(c))
}

/// First column of `order` that `vis` holds; Name where none does.
pub open spec fn first_visible(order: Seq<ColumnId>, vis: Set<ColumnId>) -> ColumnId
    decreases order.len(),
{
    if order.len() == 0 {
        ColumnId::Name
    } else if vis.contains(order[0]) {
        order[0]
    } else {
        first_visible(order.drop_first(), vis)
    }
}

/// `order` restricted to the columns of `vis`.
pub open spec fn visible_in_order(order: Seq<ColumnId>, vis: Set<ColumnId>) -> Seq<ColumnId>
    decreases order.len(),
{
    if order.len() == 0 {
        Seq::empty()
    } else {
        let prev = visible_in_order(order.drop_last(), vis);
        if vis.contains(order.last()) {
            prev.push(order.last())
        } else {
            prev
        }
    }
}

/// The known columns of a persisted id list, each at its first occurrence.
pub open spec fn adopted_columns(ids: Seq<Seq<char>>) -> Seq<ColumnId>
    decreases ids.len(),
{
    if ids.len() == 0 {
        Seq::empty()
    } else {
        let prev = adopted_columns(ids.drop_last());
        match spec_cid_from_id(ids.last()) {
            Some(c) => if prev.contains(c) {
                prev
            } else {
                prev.push(c)
            },
            None => prev,
        }
    }
}

/// `prefix` followed by every column of the first `upto` catalogue
/// positions that it lacks, in catalogue order.
pub open spec fn completed_columns(prefix: Seq<ColumnId>, upto: nat) -> Seq<ColumnId>
    decreases upto,
{
    if upto == 0 {
        prefix
    } else {
        let prev = completed_columns(prefix, (upto - 1) as nat);
        let c = col_at(upto - 1);
        if prev.contains(c) {
            prev
        } else {
            prev.push(c)
        }
    }
}

/// The display order a persisted id list restores: its known ids in their
/// saved order, then every column the list lacks in catalogue order.
pub open spec fn spec_adopt_order(ids: Seq<Seq<char>>) -> Seq<ColumnId> {
    completed_columns(adopted_columns(ids), COLUMN_COUNT as nat)
}

/// The visible set a list of persisted overrides restores on top of `base`:
/// entries apply in list order; unknown ids are skipped.
pub open spec fn spec_apply_visibility(
    base: Set<ColumnId>,
    entries: Seq<(Seq<char>, bool)>,
) -> Set<ColumnId>
    decreases entries.len(),
{
    if entries.len() == 0 {
        base
    } else {
        let prev = spec_apply_visibility(base, entries.drop_last());
        let e = entries.last();
        match spec_cid_from_id(e.0) {
            Some(c) => if e.1 {
                prev.insert(c)
            } else {
                prev.remove(c)
            },
            None => prev,
        }
    }
}

/// The visibility overrides of the first `upto` catalogue columns: one
/// `(id, shown)` entry per column whose visibility differs from its
/// default, in catalogue order.
pub open spec fn saved_visibility_upto(vis: Set<ColumnId>, upto: nat) -> Seq<(Seq<char>, bool)>
    decreases upto,
{
    if upto == 0 {
        Seq::empty()
    } else {
        let prev = saved_visibility_upto(vis, (upto - 1) as nat);
        let c = col_at(upto - 1);
        if vis.contains(c) != default_visible(c) {
            prev.push((col_id(c), vis.contains(c)))
        } else {
            prev
        }
    }
}

/// The visibility overrides persisted for `vis`.
pub open spec fn spec_saved_visibility(vis: Set<ColumnId>) -> Seq<(Seq<char>, bool)> {
    saved_visibility_upto(vis, COLUMN_COUNT as nat)
}

/// First position of `x` in `s`, as a spec (-1 when absent).
pub open spec fn first_index(s: Seq<ColumnId>, x: ColumnId) -> int
    decreases s.len(),
{
    if s.len() == 0 {
        -1
    } else if s[0] == x {
        0
    } else if first_index(s.drop_first(), x) < 0 {
        -1
    } else {
        1 + first_index(s.drop_first(), x)
    }
}

/// A counter bumped by one, wrapping at the top.
pub open spec fn bumped(g: u64) -> u64 {
    if g == u64::MAX {
        0
    } else {
        (g + 1) as u64
    }
}

/// The user's Details preferences and view state.
pub struct State {
    pub sort_col: ColumnId,
    pub sort_order: SortOrder,
    pub filter: String,
    pub visible: ColumnSet,
    /// Stable display order. Hidden columns remain here so toggling them
    /// back on never destroys the user's relative ordering of active
    /// columns.
    pub order: Vec<ColumnId>,
    pub select_columns_open: bool,
    /// Pids the user explicitly COLLAPSED in the tree; everything else is
    /// expanded, including processes that appear later.
    pub collapsed: HashSet<u32>,
    /// Bumped whenever anything the rendered rows depend on changes, so a
    /// cache keyed by it rebuilds.
    pub view_generation: u64,
}

/// First position of `x` in `s`.
fn position_in(s: &[ColumnId], x: ColumnId) -> (pos: Option<usize>)
    ensures
        match pos {
            Some(k) => k == first_index(s@, x) && k < s@.len() && s@[k as int] == x,
            None => first_index(s@, x) == -1 && !s@.contains(x),
        },
{
    let mut k: usize = 0;
    while k < s.len()
        invariant
            k <= s@.len(),
            forall|j: int| 0 <= j < k ==> s@[j] != x,
        decreases s@.len() - k,
    {
        if s[k] == x {
            proof {
                lemma_first_index_at(s@, x, k as int);
            }
            return Some(k);
        }
        k = k + 1;
    }
    proof {
        lemma_first_index_absent(s@, x);
    }
    None
}

proof fn lemma_first_index_at(s: Seq<ColumnId>, x: ColumnId, k: int)
    requires
        0 <= k < s.len(),
        s[k] == x,
        forall|j: int| 0 <= j < k ==> s[j] != x,
    ensures
        first_index(s, x) == k,
    decreases k,
{
    if k > 0 {
        lemma_first_index_at(s.drop_first(), x, k - 1);
    }
}

proof fn lemma_first_index_absent(s: Seq<ColumnId>, x: ColumnId)
    requires
        forall|j: int| 0 <= j < s.len() ==> s[j] != x,
    ensures
        first_index(s, x) == -1,
        !s.contains(x),
    decreases s.len(),
{
    if s.len() > 0 {
        lemma_first_index_absent(s.drop_first(), x);
    }
}

/// Every element of a sequence has a first position, where it sits.
pub proof fn lemma_first_index_found(s: Seq<ColumnId>, x: ColumnId)
    requires
        s.contains(x),
    ensures
        0 <= first_index(s, x) < s.len(),
        s[first_index(s, x)] == x,
        forall|j: int| 0 <= j < first_index(s, x) ==> s[j] != x,
    decreases s.len(),
{
    if s[0] != x {
        let k = choose|k: int| 0 <= k < s.len() && s[k] == x;
        assert(s.drop_first()[k - 1] == x);
        lemma_first_index_found(s.drop_first(), x);
        assert forall|j: int| 0 <= j < first_index(s, x) implies s[j] != x by {
            if j > 0 {
                assert(s[j] == s.drop_first()[j - 1]);
            }
        }
    }
}

proof fn lemma_first_visible_step(order: Seq<ColumnId>, vis: Set<ColumnId>, k: int)
    requires
        0 <= k < order.len(),
        !vis.contains(order[k]),
    ensures
        first_visible(order.subrange(k, order.len() as int), vis) == first_visible(
            order.subrange(k + 1, order.len() as int),
            vis,
        ),
{
    assert(order.subrange(k, order.len() as int).drop_first() =~= order.subrange(
        k + 1,
        order.len() as int,
    ));
}

/// The first visible column of an order that holds a visible column is
/// visible.
pub proof fn lemma_first_visible_is_visible(order: Seq<ColumnId>, vis: Set<ColumnId>, c: ColumnId)
    requires
        order.contains(c),
        vis.contains(c),
    ensures
        vis.contains(first_visible(order, vis)),
    decreases order.len(),
{
    if !vis.contains(order[0]) {
        let k = choose|k: int| 0 <= k < order.len() && order[k] == c;
        assert(order.drop_first()[k - 1] == c);
        lemma_first_visible_is_visible(order.drop_first(), vis, c);
    }
}

impl State {
    /// The sort column a hidden sort column falls back to: the first visible
    /// column in display order.
    fn first_visible_column(&self) -> (c: ColumnId)
        ensures
            c == first_visible(self.order@, self.visible@),
    {
        let mut k: usize = 0;
        assert(self.order@.subrange(0, self.order@.len() as int) =~= self.order@);
        while k < self.order.len()
            invariant
                k <= self.order@.len(),
                first_visible(self.order@, self.visible@) == first_visible(
                    self.order@.subrange(k as int, self.order@.len() as int),
                    self.visible@,
                ),
            decreases self.order@.len() - k,
        {
            let c = self.order[k];
            if self.visible.contains(&c) {
                return c;
            }
            proof {
                lemma_first_visible_step(self.order@, self.visible@, k as int);
            }
            k = k + 1;
        }
        ColumnId::Name
    }

    /// Mark the rendered rows stale.
    pub fn invalidate(&mut self)
        ensures
            final(self).view_generation == bumped(old(self).view_generation),
            final(self).sort_col == old(self).sort_col,
            final(self).sort_order == old(self).sort_order,
            final(self).visible@ == old(self).visible@,
            final(self).order@ == old(self).order@,
            final(self).collapsed@ == old(self).collapsed@,
            final(self).filter@ == old(self).filter@,
            final(self).select_columns_open == old(self).select_columns_open,
    {
        self.view_generation = self.view_generation.wrapping_add(1);
    }

    /// Whether the page needs the GPU telemetry source for any visible
    /// column.
    pub fn requires_gpu_telemetry(&self) -> (b: bool)
        ensures
            b == exists|c: ColumnId| self.visible@.contains(c) && col_gpu(c),
    {
        let mut i: usize = 0;
        while i < COLUMN_COUNT
            invariant
                i <= COLUMN_COUNT,
                forall|j: int| 0 <= j < i ==> !(self.visible@.contains(col_at(j)) && col_gpu(col_at(j))),
            decreases COLUMN_COUNT - i,
        {
            let c = ColumnId::at(i);
            if cid_is_gpu(c) && self.visible.contains(&c) {
                return true;
            }
            i = i + 1;
        }
        proof {
            lemma_catalogue_bijection();
            assert forall|c: ColumnId| !(self.visible@.contains(c) && col_gpu(c)) by {
                assert(col_at(col_index(c)) == c);
            }
        }
        false
    }

    /// Whether column `cid` is shown.
    pub fn is_visible(&self, cid: ColumnId) -> (b: bool)
        ensures
            b == self.visible@.contains(cid),
    {
        self.visible.contains(&cid)
    }

    /// Show or hide a column. The last visible column cannot be hidden;
    /// hiding the sort column moves the sort to the first visible column,
    /// ascending.
    pub fn set_visible(&mut self, cid: ColumnId, on: bool)
        ensures
            !on && old(self).visible@ == set![cid] ==> {
                &&& final(self).visible@ == old(self).visible@
                &&& final(self).sort_col == old(self).sort_col
                &&& final(self).sort_order == old(self).sort_order
                &&& final(self).view_generation == old(self).view_generation
            },
            !(!on && old(self).visible@ == set![cid]) ==> {
                &&& final(self).view_generation == bumped(old(self).view_generation)
                &&& final(self).visible@ == if on {
                    old(self).visible@.insert(cid)
                } else {
                    old(self).visible@.remove(cid)
                }
                &&& if !on && old(self).sort_col == cid {
                    &&& final(self).sort_col == first_visible(old(self).order@, final(self).visible@)
                    &&& final(self).sort_order == SortOrder::Ascending
                } else {
                    &&& final(self).sort_col == old(self).sort_col
                    &&& final(self).sort_order == old(self).sort_order
                }
            },
            final(self).order@ == old(self).order@,
            final(self).collapsed@ == old(self).collapsed@,
            final(self).filter@ == old(self).filter@,
            final(self).select_columns_open == old(self).select_columns_open,
            // The table never loses its last column, and a visible sort
            // column stays visible.
            old(self).visible@ != Set::<ColumnId>::empty() ==> final(self).visible@ != Set::<
                ColumnId,
            >::empty(),
            is_column_order(old(self).order@) && old(self).visible@.contains(old(self).sort_col)
                ==> final(self).visible@.contains(final(self).sort_col),
    {
        if !on && self.visible.is_only(&cid) {
            return;
        }
        if on {
            self.visible.insert(cid);
        } else {
            self.visible.remove(&cid);
            if self.sort_col == cid {
                self.sort_col = self.first_visible_column();
                self.sort_order = SortOrder::Ascending;
            }
        }
        self.invalidate();
        proof {
            if on {
                assert(self.visible@.contains(cid));
            }
            if old(self).visible@ != Set::<ColumnId>::empty() && !on {
                assert(exists|w: ColumnId| old(self).visible@.contains(w)) by {
                    if forall|w: ColumnId| !old(self).visible@.contains(w) {
                        assert(old(self).visible@ =~= Set::<ColumnId>::empty());
                    }
                }
                let w = choose|w: ColumnId| old(self).visible@.contains(w);
                if w == cid {
                    assert(old(self).visible@ != set![cid]);
                    assert(exists|d: ColumnId| old(self).visible@.contains(d) && d != cid) by {
                        if forall|d: ColumnId| old(self).visible@.contains(d) ==> d == cid {
                            assert(old(self).visible@ =~= set![cid]);
                        }
                    }
                    let d = choose|d: ColumnId| old(self).visible@.contains(d) && d != cid;
                    assert(self.visible@.contains(d));
                } else {
                    assert(self.visible@.contains(w));
                }
            }
            if !on && is_column_order(old(self).order@) && old(self).visible@.contains(old(self).sort_col)
                && old(self).sort_col == cid {
                let d = choose|d: ColumnId| old(self).visible@.contains(d) && d != cid;
                assert(self.order@.contains(d));
                lemma_first_visible_is_visible(self.order@, self.visible@, d);
            }
        }
    }
}

proof fn lemma_cid_of_own_id(c: ColumnId)
    ensures
        spec_cid_from_id(col_id(c)) == Some(c),
{
    lemma_col_ids_distinct();
    let w = choose|w: ColumnId| col_id(w) == col_id(c);
    assert(col_id(w) == col_id(c));
}

proof fn lemma_adopted_columns_unique(ids: Seq<Seq<char>>)
    ensures
        adopted_columns(ids).no_duplicates(),
    decreases ids.len(),
{
    if ids.len() > 0 {
        lemma_adopted_columns_unique(ids.drop_last());
        let prev = adopted_columns(ids.drop_last());
        match spec_cid_from_id(ids.last()) {
            Some(c) => {
                if !prev.contains(c) {
                    lemma_push_unique(prev, c);
                }
            },
            None => {},
        }
    }
}

proof fn lemma_push_unique(s: Seq<ColumnId>, x: ColumnId)
    requires
        s.no_duplicates(),
        !s.contains(x),
    ensures
        s.push(x).no_duplicates(),
{
    let t = s.push(x);
    assert forall|a: int, b: int| 0 <= a < t.len() && 0 <= b < t.len() && a != b implies t[a]
        != t[b] by {
        if a == s.len() {
            assert(s[b] != x);
        } else if b == s.len() {
            assert(s[a] != x);
        }
    }
}

proof fn lemma_completed_columns(prefix: Seq<ColumnId>, upto: nat)
    requires
        prefix.no_duplicates(),
        upto <= COLUMN_COUNT,
    ensures
        completed_columns(prefix, upto).no_duplicates(),
        forall|i: int| 0 <= i < upto ==> #[trigger] completed_columns(prefix, upto).contains(col_at(i)),
        forall|c: ColumnId| #[trigger] prefix.contains(c) ==> completed_columns(prefix, upto).contains(c),
    decreases upto,
{
    if upto > 0 {
        lemma_completed_columns(prefix, (upto - 1) as nat);
        let prev = completed_columns(prefix, (upto - 1) as nat);
        let c = col_at(upto - 1);
        if !prev.contains(c) {
            lemma_push_unique(prev, c);
            assert forall|d: ColumnId| prev.contains(d) implies #[trigger] prev.push(c).contains(d) by {
                let k = choose|k: int| 0 <= k < prev.len() && prev[k] == d;
                assert(prev.push(c)[k] == d);
            }
            assert(prev.push(c)[prev.len() as int] == c);
        }
        assert forall|i: int| 0 <= i < upto implies #[trigger] completed_columns(prefix, upto).contains(
            col_at(i),
        ) by {
            if i < upto - 1 {
                assert(prev.contains(col_at(i)));
            }
        }
    }
}

/// Every persisted id list restores an order that lists each column once.
pub proof fn lemma_adopt_order_is_column_order(ids: Seq<Seq<char>>)
    ensures
        is_column_order(spec_adopt_order(ids)),
{
    lemma_adopted_columns_unique(ids);
    lemma_completed_columns(adopted_columns(ids), COLUMN_COUNT as nat);
    lemma_catalogue_bijection();
    assert forall|c: ColumnId| #[trigger] spec_adopt_order(ids).contains(c) by {
        assert(col_at(col_index(c)) == c);
        assert(spec_adopt_order(ids).contains(col_at(col_index(c))));
    }
}

proof fn lemma_adopted_of_saved(order: Seq<ColumnId>, k: int)
    requires
        order.no_duplicates(),
        0 <= k <= order.len(),
    ensures
        adopted_columns(order.map_values(|c: ColumnId| col_id(c)).subrange(0, k)) == order.subrange(0, k),
    decreases k,
{
    let ids = order.map_values(|c: ColumnId| col_id(c));
    if k > 0 {
        lemma_adopted_of_saved(order, k - 1);
        assert(ids.subrange(0, k).drop_last() =~= ids.subrange(0, k - 1));
        let c = order[k - 1];
        assert(ids.subrange(0, k).last() == col_id(c));
        lemma_cid_of_own_id(c);
        assert(!order.subrange(0, k - 1).contains(c)) by {
            if order.subrange(0, k - 1).contains(c) {
                let j = choose|j: int| 0 <= j < k - 1 && #[trigger] order.subrange(0, k - 1)[j] == c;
                assert(order[j] == order[k - 1]);
            }
        }
        assert(order.subrange(0, k - 1).push(c) =~= order.subrange(0, k));
    }
}

proof fn lemma_completed_noop(order: Seq<ColumnId>, upto: nat)
    requires
        is_column_order(order),
    ensures
        completed_columns(order, upto) == order,
    decreases upto,
{
    if upto > 0 {
        lemma_completed_noop(order, (upto - 1) as nat);
        assert(order.contains(col_at(upto - 1)));
    }
}

/// Restoring the id list an order is saved as gives that order back.
pub proof fn lemma_saved_order_roundtrip(order: Seq<ColumnId>)
    requires
        is_column_order(order),
    ensures
        spec_adopt_order(order.map_values(|c: ColumnId| col_id(c))) == order,
{
    let ids = order.map_values(|c: ColumnId| col_id(c));
    lemma_adopted_of_saved(order, order.len() as int);
    assert(ids.subrange(0, order.len() as int) =~= ids);
    assert(order.subrange(0, order.len() as int) =~= order);
    lemma_completed_noop(order, COLUMN_COUNT as nat);
}

proof fn lemma_visibility_prefix(vis: Set<ColumnId>, k: nat)
    requires
        k <= COLUMN_COUNT,
    ensures
        spec_apply_visibility(default_set(), saved_visibility_upto(vis, k)) == Set::new(
            |c: ColumnId|
                if col_index(c) < k {
                    vis.contains(c)
                } else {
                    default_visible(c)
                },
        ),
    decreases k,
{
    lemma_catalogue_bijection();
    if k == 0 {
        assert(default_set() =~= Set::new(
            |c: ColumnId|
                if col_index(c) < k {
                    vis.contains(c)
                } else {
                    default_visible(c)
                },
        ));
    } else {
        lemma_visibility_prefix(vis, (k - 1) as nat);
        let prev = saved_visibility_upto(vis, (k - 1) as nat);
        let c = col_at(k - 1);
        let want = Set::new(
            |d: ColumnId|
                if col_index(d) < k {
                    vis.contains(d)
                } else {
                    default_visible(d)
                },
        );
        if vis.contains(c) != default_visible(c) {
            let entries = prev.push((col_id(c), vis.contains(c)));
            assert(entries.drop_last() =~= prev);
            lemma_cid_of_own_id(c);
            assert(spec_apply_visibility(default_set(), entries) =~= want) by {
                assert forall|d: ColumnId| #[trigger] want.contains(d) == spec_apply_visibility(
                    default_set(),
                    entries,
                ).contains(d) by {
                    if d == c {
                    } else {
                        assert(col_index(d) != k - 1);
                    }
                }
            }
        } else {
            assert(spec_apply_visibility(default_set(), prev) =~= want) by {
                assert forall|d: ColumnId| #[trigger] want.contains(d) == spec_apply_visibility(
                    default_set(),
                    prev,
                ).contains(d) by {
                    if d != c {
                        assert(col_index(d) != k - 1);
                    }
                }
            }
        }
    }
}

/// Restoring the persisted visibility overrides of a column set on top of
/// the defaults gives that set back.
pub proof fn lemma_visibility_roundtrip(vis: Set<ColumnId>)
    ensures
        spec_apply_visibility(default_set(), spec_saved_visibility(vis)) == vis,
{
    lemma_visibility_prefix(vis, COLUMN_COUNT as nat);
    lemma_catalogue_bijection();
    assert(Set::new(
        |c: ColumnId|
            if col_index(c) < COLUMN_COUNT {
                vis.contains(c)
            } else {
                default_visible(c)
            },
    ) =~= vis);
}

proof fn lemma_nonempty_witness(s: Set<ColumnId>)
    requires
        s != Set::<ColumnId>::empty(),
    ensures
        exists|c: ColumnId| s.contains(c),
{
    if forall|c: ColumnId| !s.contains(c) {
        assert(s =~= Set::<ColumnId>::empty());
    }
}

impl State {
    /// Restore persisted preferences: visibility overrides (`(column id,
    /// shown)`, applied in order on top of the built-in defaults; unknown
    /// ids are skipped) and display order (unknown ids are skipped, columns
    /// missing from the list keep their built-in position). At least one
    /// column stays visible and the sort column is always visible.
    pub fn apply_saved_prefs(
        &mut self,
        visible: Option<&[(String, bool)]>,
        order: Option<&[String]>,
    )
        ensures
            order matches Some(ids) ==> final(self).order@ == spec_adopt_order(
                ids@.map_values(|s: String| s@),
            ),
            order is None ==> final(self).order@ == old(self).order@,
            visible matches Some(entries) ==> ({
                let next = spec_apply_visibility(
                    default_set(),
                    entries@.map_values(|e: (String, bool)| (e.0@, e.1)),
                );
                final(self).visible@ == if next != Set::<ColumnId>::empty() {
                    next
                } else {
                    old(self).visible@
                }
            }),
            visible is None ==> final(self).visible@ == old(self).visible@,
            final(self).visible@.contains(old(self).sort_col) ==> final(self).sort_col == old(
                self,
            ).sort_col && final(self).sort_order == old(self).sort_order,
            !final(self).visible@.contains(old(self).sort_col) ==> final(self).sort_col
                == first_visible(final(self).order@, final(self).visible@) && final(self).sort_order
                == SortOrder::Ascending,
            final(self).view_generation == bumped(old(self).view_generation),
            final(self).collapsed@ == old(self).collapsed@,
            final(self).filter@ == old(self).filter@,
            final(self).select_columns_open == old(self).select_columns_open,
            // A restored order lists every column once; the sort column of
            // a table with columns is one of them.
            order is Some ==> is_column_order(final(self).order@),
            is_column_order(final(self).order@) && final(self).visible@ != Set::<ColumnId>::empty()
                ==> final(self).visible@.contains(final(self).sort_col),
    {
        if let Some(ids) = order {
            let ghost idv = ids@.map_values(|s: String| s@);
            let mut next: Vec<ColumnId> = Vec::new();
            let mut k: usize = 0;
            while k < ids.len()
                invariant
                    k <= ids@.len(),
                    idv == ids@.map_values(|s: String| s@),
                    next@ == adopted_columns(idv.subrange(0, k as int)),
                decreases ids@.len() - k,
            {
                proof {
                    assert(idv.subrange(0, k + 1).drop_last() =~= idv.subrange(0, k as int));
                    assert(idv.subrange(0, k + 1).last() == ids@[k as int]@);
                }
                if let Some(c) = cid_from_id(ids[k].as_str()) {
                    if position_in(next.as_slice(), c).is_none() {
                        next.push(c);
                    }
                }
                k = k + 1;
            }
            assert(idv.subrange(0, ids@.len() as int) =~= idv);
            let ghost prefix = next@;
            let mut i: usize = 0;
            while i < COLUMN_COUNT
                invariant
                    i <= COLUMN_COUNT,
                    next@ == completed_columns(prefix, i as nat),
                decreases COLUMN_COUNT - i,
            {
                let c = ColumnId::at(i);
                if position_in(next.as_slice(), c).is_none() {
                    next.push(c);
                }
                i = i + 1;
            }
            self.order = next;
            proof {
                lemma_adopt_order_is_column_order(idv);
            }
        }
        if let Some(entries) = visible {
            let ghost ev = entries@.map_values(|e: (String, bool)| (e.0@, e.1));
            let mut next = ColumnSet::defaults();
            let mut k: usize = 0;
            while k < entries.len()
                invariant
                    k <= entries@.len(),
                    ev == entries@.map_values(|e: (String, bool)| (e.0@, e.1)),
                    next@ == spec_apply_visibility(default_set(), ev.subrange(0, k as int)),
                decreases entries@.len() - k,
            {
                proof {
                    assert(ev.subrange(0, k + 1).drop_last() =~= ev.subrange(0, k as int));
                    assert(ev.subrange(0, k + 1).last() == (entries@[k as int].0@, entries@[k as int].1));
                }
                let entry = &entries[k];
                match cid_from_id(entry.0.as_str()) {
                    Some(c) => {
                        if entry.1 {
                            next.insert(c);
                        } else {
                            next.remove(&c);
                        }
                    },
                    None => {},
                }
                k = k + 1;
            }
            assert(ev.subrange(0, entries@.len() as int) =~= ev);
            if !next.is_empty() {
                self.visible = next;
            }
        }
        if !self.visible.contains(&self.sort_col) {
            self.sort_col = self.first_visible_column();
            self.sort_order = SortOrder::Ascending;
        }
        self.invalidate();
        proof {
            if is_column_order(self.order@) && self.visible@ != Set::<ColumnId>::empty() {
                lemma_nonempty_witness(self.visible@);
                let d = choose|d: ColumnId| self.visible@.contains(d);
                assert(self.order@.contains(d));
                lemma_first_visible_is_visible(self.order@, self.visible@, d);
            }
        }
    }

    /// Visibility entries that differ from the built-in defaults, for
    /// persistence (empty = nothing to store).
    pub fn saved_visibility(&self) -> (entries: Vec<(String, bool)>)
        ensures
            entries@.map_values(|e: (String, bool)| (e.0@, e.1)) == spec_saved_visibility(
                self.visible@,
            ),
    {
        let mut entries: Vec<(String, bool)> = Vec::new();
        let mut i: usize = 0;
        while i < COLUMN_COUNT
            invariant
                i <= COLUMN_COUNT,
                entries@.map_values(|e: (String, bool)| (e.0@, e.1)) == saved_visibility_upto(
                    self.visible@,
                    i as nat,
                ),
            decreases COLUMN_COUNT - i,
        {
            let c = ColumnId::at(i);
            let on = self.visible.contains(&c);
            if on != is_default_visible(c) {
                let ghost before = entries@;
                entries.push((id_of(c).to_string(), on));
                assert(entries@.map_values(|e: (String, bool)| (e.0@, e.1)) =~= before.map_values(
                    |e: (String, bool)| (e.0@, e.1),
                ).push((col_id(c), on)));
            }
            i = i + 1;
        }
        entries
    }

    /// Current display order as stable ids (for persistence).
    pub fn saved_order(&self) -> (ids: Vec<String>)
        ensures
            ids@.map_values(|s: String| s@) == self.order@.map_values(|c: ColumnId| col_id(c)),
    {
        let mut ids: Vec<String> = Vec::new();
        let mut k: usize = 0;
        while k < self.order.len()
            invariant
                k <= self.order@.len(),
                ids@.len() == k,
                ids@.map_values(|s: String| s@) == self.order@.subrange(0, k as int).map_values(
                    |c: ColumnId| col_id(c),
                ),
            decreases self.order@.len() - k,
        {
            let ghost before = ids@;
            let s = id_of(self.order[k]).to_string();
            assert(s@ == col_id(self.order@[k as int]));
            ids.push(s);
            proof {
                let got = ids@.map_values(|s: String| s@);
                let want = self.order@.subrange(0, k + 1).map_values(|c: ColumnId| col_id(c));
                let prev = self.order@.subrange(0, k as int).map_values(|c: ColumnId| col_id(c));
                assert forall|j: int| 0 <= j < k + 1 implies got[j] == want[j] by {
                    if j < k {
                        assert(got[j] == before[j]@);
                        assert(prev[j] == before.map_values(|s: String| s@)[j]);
                    }
                }
                assert(got =~= want);
            }
            k = k + 1;
        }
        assert(self.order@.subrange(0, self.order@.len() as int) =~= self.order@);
        ids
    }

    /// The visible columns in display order.
    pub fn ordered_visible(&self) -> (cols: Vec<ColumnId>)
        ensures
            cols@ == visible_in_order(self.order@, self.visible@),
    {
        let mut cols: Vec<ColumnId> = Vec::new();
        let mut k: usize = 0;
        while k < self.order.len()
            invariant
                k <= self.order@.len(),
                cols@ == visible_in_order(self.order@.subrange(0, k as int), self.visible@),
            decreases self.order@.len() - k,
        {
            proof {
                assert(self.order@.subrange(0, k + 1).drop_last() =~= self.order@.subrange(0, k as int));
            }
            let c = self.order[k];
            if self.visible.contains(&c) {
                cols.push(c);
            }
            k = k + 1;
        }
        assert(self.order@.subrange(0, self.order@.len() as int) =~= self.order@);
        cols
    }

    /// Position of `cid` among the visible columns in display order.
    pub fn visible_rank(&self, cid: ColumnId) -> (rank: Option<usize>)
        ensures
            rank == if visible_in_order(self.order@, self.visible@).contains(cid) {
                Some(first_index(visible_in_order(self.order@, self.visible@), cid) as usize)
            } else {
                None::<usize>
            },
    {
        let cols = self.ordered_visible();
        position_in(cols.as_slice(), cid)
    }

    /// Number of visible columns in the display order.
    pub fn visible_count(&self) -> (n: usize)
        ensures
            n == visible_in_order(self.order@, self.visible@).len(),
    {
        self.ordered_visible().len()
    }
}

/// Every column the visible order lists is in the full order and visible.
pub proof fn lemma_visible_in_order_members(order: Seq<ColumnId>, vis: Set<ColumnId>, x: ColumnId)
    requires
        visible_in_order(order, vis).contains(x),
    ensures
        order.contains(x),
        vis.contains(x),
    decreases order.len(),
{
    let prev = visible_in_order(order.drop_last(), vis);
    if prev.contains(x) {
        lemma_visible_in_order_members(order.drop_last(), vis, x);
        let k = choose|k: int| 0 <= k < order.drop_last().len() && order.drop_last()[k] == x;
        assert(order[k] == x);
    } else {
        let v = visible_in_order(order, vis);
        let k = choose|k: int| 0 <= k < v.len() && v[k] == x;
        if vis.contains(order.last()) {
            assert(v == prev.push(order.last()));
            if k < prev.len() {
                assert(prev[k] == x);
            }
            assert(order[order.len() - 1] == x);
        } else {
            assert(prev[k] == x);
        }
    }
}

/// Exchanging two entries of an order that lists every column once keeps
/// it so.
pub proof fn lemma_swap_keeps_column_order(order: Seq<ColumnId>, a: int, b: int)
    requires
        is_column_order(order),
        0 <= a < order.len(),
        0 <= b < order.len(),
    ensures
        is_column_order(order.update(a, order[b]).update(b, order[a])),
{
    let t = order.update(a, order[b]).update(b, order[a]);
    let src = |i: int| if i == a { b } else if i == b { a } else { i };
    assert forall|i: int| 0 <= i < t.len() implies t[i] == order[src(i)] by {}
    assert forall|i: int, j: int| 0 <= i < t.len() && 0 <= j < t.len() && i != j implies t[i] != t[j] by {
        assert(t[i] == order[src(i)]);
        assert(t[j] == order[src(j)]);
    }
    assert forall|c: ColumnId| #[trigger] t.contains(c) by {
        assert(order.contains(c));
        let k = choose|k: int| 0 <= k < order.len() && order[k] == c;
        let k2 = src(k);
        assert(t[k2] == order[k]);
    }
}

impl State {
    /// Move the visible column `cid` by `delta` places among the visible
    /// columns, exchanging it with the column there. Returns false when
    /// `cid` is not visible or the target is out of range.
    pub fn move_visible(&mut self, cid: ColumnId, delta: isize) -> (moved: bool)
        ensures
            ({
                let vis = visible_in_order(old(self).order@, old(self).visible@);
                let target = first_index(vis, cid) + delta;
                &&& moved == (vis.contains(cid) && 0 <= target < vis.len())
                &&& moved ==> ({
                    let other = vis[target];
                    let a = first_index(old(self).order@, cid);
                    let b = first_index(old(self).order@, other);
                    &&& final(self).order@ == old(self).order@.update(a, other).update(b, cid)
                    &&& final(self).view_generation == bumped(old(self).view_generation)
                })
                &&& !moved ==> final(self).order@ == old(self).order@ && final(self).view_generation
                    == old(self).view_generation
            }),
            final(self).visible@ == old(self).visible@,
            final(self).sort_col == old(self).sort_col,
            final(self).sort_order == old(self).sort_order,
            final(self).collapsed@ == old(self).collapsed@,
            final(self).filter@ == old(self).filter@,
            final(self).select_columns_open == old(self).select_columns_open,
            is_column_order(old(self).order@) ==> is_column_order(final(self).order@),
    {
        let visible = self.ordered_visible();
        let pos = match position_in(visible.as_slice(), cid) {
            Some(p) => p,
            None => return false,
        };
        let target: i128 = pos as i128 + delta as i128;
        if target < 0 || target >= visible.len() as i128 {
            return false;
        }
        let other = visible[target as usize];
        proof {
            let vis = visible@;
            assert(vis.contains(other)) by {
                assert(vis[target as int] == other);
            }
            lemma_visible_in_order_members(self.order@, self.visible@, cid);
            lemma_visible_in_order_members(self.order@, self.visible@, other);
        }
        let a = match position_in(self.order.as_slice(), cid) {
            Some(a) => a,
            None => return false,
        };
        let b = match position_in(self.order.as_slice(), other) {
            Some(b) => b,
            None => return false,
        };
        proof {
            if is_column_order(self.order@) {
                lemma_swap_keeps_column_order(self.order@, a as int, b as int);
            }
        }
        self.order.set(a, other);
        self.order.set(b, cid);
        self.invalidate();
        true
    }

    /// Whether the tree node of `pid` shows its children.
    pub fn is_expanded(&self, pid: u32) -> (b: bool)
        ensures
            b == !self.collapsed@.contains(pid),
    {
        !self.collapsed.contains(&pid)
    }

    /// Collapse an expanded tree node or expand a collapsed one.
    pub fn toggle_expanded(&mut self, pid: u32)
        ensures
            final(self).collapsed@ == if old(self).collapsed@.contains(pid) {
                old(self).collapsed@.remove(pid)
            } else {
                old(self).collapsed@.insert(pid)
            },
            final(self).view_generation == bumped(old(self).view_generation),
            final(self).sort_col == old(self).sort_col,
            final(self).sort_order == old(self).sort_order,
            final(self).visible@ == old(self).visible@,
            final(self).order@ == old(self).order@,
            final(self).filter@ == old(self).filter@,
            final(self).select_columns_open == old(self).select_columns_open,
    {
        if !self.collapsed.remove(&pid) {
            self.collapsed.insert(pid);
        }
        self.invalidate();
    }

    /// Restore a persisted sort, if its column is known and visible.
    pub fn apply_saved_sort(&mut self, column: &str, ascending: bool, hierarchical: bool)
        ensures
            (spec_cid_from_id(column@) matches Some(c) && old(self).visible@.contains(c)) ==> ({
                let c = spec_cid_from_id(column@)->0;
                &&& final(self).sort_col == c
                &&& final(self).sort_order == spec_from_saved(c, ascending, hierarchical)
                &&& final(self).view_generation == bumped(old(self).view_generation)
            }),
            !(spec_cid_from_id(column@) matches Some(c) && old(self).visible@.contains(c)) ==> ({
                &&& final(self).sort_col == old(self).sort_col
                &&& final(self).sort_order == old(self).sort_order
                &&& final(self).view_generation == old(self).view_generation
            }),
            final(self).visible@ == old(self).visible@,
            final(self).order@ == old(self).order@,
            final(self).collapsed@ == old(self).collapsed@,
            final(self).filter@ == old(self).filter@,
            final(self).select_columns_open == old(self).select_columns_open,
    {
        if let Some(cid) = cid_from_id(column) {
            if self.visible.contains(&cid) {
                self.sort_col = cid;
                self.sort_order = SortOrder::from_saved(cid, ascending, hierarchical);
                self.invalidate();
            }
        }
    }

    /// Whether the page currently shows the parent/child tree: the tree IS
    /// the Name column's third sort state.
    pub fn is_tree(&self) -> (b: bool)
        ensures
            b == (self.sort_order == SortOrder::Hierarchical),
    {
        self.sort_order == SortOrder::Hierarchical
    }

    /// Apply a header click on `cid` and report the resulting order.
    /// Clicking any column other than Name always lands on a plain
    /// direction, which is what leaves the tree.
    pub fn clicked_column(&mut self, cid: ColumnId) -> (o: SortOrder)
        ensures
            old(self).sort_col == cid ==> final(self).sort_order == spec_next(
                old(self).sort_order,
                cid == ColumnId::Name,
            ),
            old(self).sort_col != cid ==> final(self).sort_order == if col_numeric(cid) {
                SortOrder::Descending
            } else {
                SortOrder::Ascending
            },
            final(self).sort_col == cid,
            o == final(self).sort_order,
            o == SortOrder::Hierarchical ==> cid == ColumnId::Name,
            final(self).view_generation == bumped(old(self).view_generation),
            final(self).visible@ == old(self).visible@,
            final(self).order@ == old(self).order@,
            final(self).collapsed@ == old(self).collapsed@,
            final(self).filter@ == old(self).filter@,
            final(self).select_columns_open == old(self).select_columns_open,
    {
        if self.sort_col == cid {
            self.sort_order = self.sort_order.next(SortOrder::offered_by(cid));
        } else {
            self.sort_col = cid;
            self.sort_order = if cid_is_numeric(cid) {
                SortOrder::Descending
            } else {
                SortOrder::Ascending
            };
        }
        self.invalidate();
        self.sort_order
    }

    /// The "Process tree" view command: enter the tree (the Name column's
    /// third state) or leave it for Name ascending; returns the new order.
    pub fn toggle_tree_view(&mut self) -> (o: SortOrder)
        ensures
            final(self).sort_col == ColumnId::Name,
            final(self).sort_order == if old(self).sort_order == SortOrder::Hierarchical {
                SortOrder::Ascending
            } else {
                SortOrder::Hierarchical
            },
            o == final(self).sort_order,
            final(self).view_generation == bumped(old(self).view_generation),
            final(self).visible@ == old(self).visible@,
            final(self).order@ == old(self).order@,
            final(self).collapsed@ == old(self).collapsed@,
            final(self).filter@ == old(self).filter@,
            final(self).select_columns_open == old(self).select_columns_open,
    {
        let order = if self.sort_order == SortOrder::Hierarchical {
            SortOrder::Ascending
        } else {
            SortOrder::Hierarchical
        };
        self.sort_col = ColumnId::Name;
        self.sort_order = order;
        self.invalidate();
        order
    }

    /// The tree's Expand all command: nothing stays collapsed.
    pub fn expand_all(&mut self)
        ensures
            final(self).collapsed@ == Set::<u32>::empty(),
            final(self).view_generation == bumped(bumped(old(self).view_generation)),
            final(self).sort_col == old(self).sort_col,
            final(self).sort_order == old(self).sort_order,
            final(self).visible@ == old(self).visible@,
            final(self).order@ == old(self).order@,
            final(self).filter@ == old(self).filter@,
            final(self).select_columns_open == old(self).select_columns_open,
    {
        self.collapsed = HashSet::new();
        self.invalidate();
        self.invalidate();
    }

    /// The tree's Collapse all command: every process in `pids` (the
    /// current snapshot) is collapsed, besides those already collapsed.
    pub fn collapse_all(&mut self, pids: &[u32])
        ensures
            forall|x: u32| #[trigger] final(self).collapsed@.contains(x) <==> (old(self).collapsed@.contains(x) || pids@.contains(x)),
            final(self).view_generation == bumped(bumped(old(self).view_generation)),
            final(self).sort_col == old(self).sort_col,
            final(self).sort_order == old(self).sort_order,
            final(self).visible@ == old(self).visible@,
            final(self).order@ == old(self).order@,
            final(self).filter@ == old(self).filter@,
            final(self).select_columns_open == old(self).select_columns_open,
    {
        let ghost start = self.collapsed@;
        let mut i: usize = 0;
        while i < pids.len()
            invariant
                i <= pids@.len(),
                forall|x: u32| #[trigger] self.collapsed@.contains(x) <==> (start.contains(x) || exists|j: int| 0 <= j < i && pids@[j] == x),
                self.view_generation == old(self).view_generation,
                self.sort_col == old(self).sort_col,
                self.sort_order == old(self).sort_order,
                self.visible@ == old(self).visible@,
                self.order@ == old(self).order@,
                self.filter@ == old(self).filter@,
                self.select_columns_open == old(self).select_columns_open,
            decreases pids@.len() - i,
        {
            let p = pids[i];
            self.collapsed.insert(p);
            proof {
                assert forall|x: u32| #[trigger] self.collapsed@.contains(x) <==> (start.contains(x) || exists|j: int| 0 <= j < i + 1 && pids@[j] == x) by {
                    if x == p {
                        assert(pids@[i as int] == x);
                    }
                    if exists|j: int| 0 <= j < i + 1 && pids@[j] == x {
                        let j = choose|j: int| 0 <= j < i + 1 && pids@[j] == x;
                        if j < i {
                            assert(exists|j2: int| 0 <= j2 < i && pids@[j2] == x);
                        }
                    }
                }
            }
            i = i + 1;
        }
        proof {
            assert forall|x: u32| #[trigger] self.collapsed@.contains(x) <==> (start.contains(x) || pids@.contains(x)) by {
                if pids@.contains(x) {
                    let j = choose|j: int| 0 <= j < pids@.len() && pids@[j] == x;
                    assert(exists|j2: int| 0 <= j2 < i && pids@[j2] == x);
                }
                if exists|j: int| 0 <= j < i && pids@[j] == x {
                    let j = choose|j: int| 0 <= j < i && pids@[j] == x;
                    assert(pids@.contains(x));
                }
            }
        }
        self.invalidate();
        self.invalidate();
    }

    /// The search text the page filters by: its own filter box when
    /// non-empty, else the window-wide search.
    pub fn effective_search(&self, global_search: &str) -> (q: String)
        ensures
            q@ == if self.filter@.len() > 0 {
                self.filter@
            } else {
                global_search@
            },
    {
        if self.filter.unicode_len() > 0 {
            self.filter.clone()
        } else {
            global_search.to_string()
        }
    }
}

impl Default for State {
    fn default() -> (s: Self)
        ensures
            s.sort_col == ColumnId::Name,
            s.sort_order == SortOrder::Ascending,
            s.filter@ == Seq::<char>::empty(),
            s.visible@ == default_set(),
            s.order@ == catalogue(),
            !s.select_columns_open,
            s.collapsed@ == Set::<u32>::empty(),
            s.view_generation == 0,
            is_column_order(s.order@),
    {
        let mut order: Vec<ColumnId> = Vec::new();
        let mut i: usize = 0;
        while i < COLUMN_COUNT
            invariant
                i <= COLUMN_COUNT,
                order@ == catalogue().subrange(0, i as int),
            decreases COLUMN_COUNT - i,
        {
            order.push(ColumnId::at(i));
            i = i + 1;
            assert(order@ =~= catalogue().subrange(0, i as int));
        }
        assert(catalogue().subrange(0, COLUMN_COUNT as int) =~= catalogue());
        proof {
            lemma_catalogue_bijection();
            let cat = catalogue();
            assert forall|a: int, b: int| 0 <= a < cat.len() && 0 <= b < cat.len() && a != b implies cat[a]
                != cat[b] by {
                assert(col_index(cat[a]) == a);
                assert(col_index(cat[b]) == b);
            }
            assert forall|c: ColumnId| #[trigger] cat.contains(c) by {
                assert(cat[col_index(c)] == c);
            }
        }
        State {
            sort_col: ColumnId::Name,
            sort_order: SortOrder::Ascending,
            filter: String::new(),
            visible: ColumnSet::defaults(),
            order,
            select_columns_open: false,
            collapsed: HashSet::new(),
            view_generation: 0,
        }
    }
}


/// The built-in display order as stable ids, for order-persistence diffing.
pub fn default_order_ids() -> (ids: Vec<String>)
    ensures
        ids@.map_values(|s: String| s@) == catalogue().map_values(|c: ColumnId| col_id(c)),
{
    let mut ids: Vec<String> = Vec::new();
    let mut i: usize = 0;
    while i < COLUMN_COUNT
        invariant
            i <= COLUMN_COUNT,
            ids@.len() == i,
            forall|j: int| 0 <= j < i ==> (#[trigger] ids@[j])@ == col_id(col_at(j)),
        decreases COLUMN_COUNT - i,
    {
        let s = id_of(ColumnId::at(i)).to_string();
        ids.push(s);
        i = i + 1;
    }
    assert(ids@.map_values(|s: String| s@) =~= catalogue().map_values(|c: ColumnId| col_id(c)));
    ids
}

/// What the Details table writes back to the settings: the visibility
/// entries that differ from the defaults and the display order, each `None`
/// where the setting is to be removed instead.
pub struct ColumnPrefs {
    /// `None` when every column has its default visibility.
    pub visibility: Option<Vec<(String, bool)>>,
    /// `None` while the order is the built-in one, so untouched tables keep
    /// following schema changes.
    pub order: Option<Vec<String>>,
}

/// Where a sort is persisted: the strict-hierarchy state is not expressible
/// as an ascending flag, so it rides in a flag of its own beside the column
/// and direction every table shares.
#[derive(Debug, Clone, Copy)]
pub struct SortPref {
    pub hierarchical: bool,
    pub column: &'static str,
    pub ascending: bool,
}

/// The persisted form of a Details sort.
pub fn sort_pref(cid: ColumnId, order: SortOrder) -> (p: SortPref)
    ensures
        p.hierarchical == (order == SortOrder::Hierarchical),
        p.column@ == col_id(cid),
        p.ascending == (order != SortOrder::Descending),
{
    SortPref { hierarchical: order == SortOrder::Hierarchical, column: id_of(cid), ascending: order.ascending() }
}

impl State {
    /// Whether the display order is the built-in one.
    pub fn has_default_order(&self) -> (b: bool)
        ensures
            b == (self.order@ == catalogue()),
    {
        if self.order.len() != COLUMN_COUNT {
            return false;
        }
        let mut i: usize = 0;
        while i < COLUMN_COUNT
            invariant
                i <= COLUMN_COUNT,
                self.order@.len() == COLUMN_COUNT,
                forall|j: int| 0 <= j < i ==> self.order@[j] == #[trigger] col_at(j),
            decreases COLUMN_COUNT - i,
        {
            if self.order[i] != ColumnId::at(i) {
                return false;
            }
            i = i + 1;
        }
        assert(self.order@ =~= catalogue());
        true
    }

    /// The column preferences to persist. The order is only stored while it
    /// differs from the built-in order, and visibility entries matching the
    /// defaults are dropped, so fresh installs and never-touched tables keep
    /// following schema changes.
    pub fn column_prefs(&self) -> (prefs: ColumnPrefs)
        ensures
            match prefs.visibility {
                None => spec_saved_visibility(self.visible@).len() == 0,
                Some(v) => spec_saved_visibility(self.visible@).len() > 0 && v@.map_values(
                    |e: (String, bool)| (e.0@, e.1),
                ) == spec_saved_visibility(self.visible@),
            },
            match prefs.order {
                None => self.order@ == catalogue(),
                Some(o) => self.order@ != catalogue() && o@.map_values(|s: String| s@)
                    == self.order@.map_values(|c: ColumnId| col_id(c)),
            },
    {
        let vis = self.saved_visibility();
        let visibility = if vis.len() == 0 {
            None
        } else {
            Some(vis)
        };
        let order = if self.has_default_order() {
            None
        } else {
            Some(self.saved_order())
        };
        ColumnPrefs { visibility, order }
    }
}

} // verus!
