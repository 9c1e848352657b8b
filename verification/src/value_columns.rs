//! The numeric column catalogue shared by the process-shaped tables.
//!
//! Two orders are in play and must never be confused. The LOGICAL order is
//! the catalogue order below: it indexes every row's values and the header
//! totals. The DISPLAY order is the user's permutation of the numeric block,
//! persisted by stable id; [`logical_col`] and [`display_col`] are the only
//! mapping between the two.
use vstd::prelude::*;
use crate::text::str_eq;

verus! {

broadcast use vstd::string::group_string_axioms;

/// Numeric value columns: CPU, Memory, Disk I/O, Network, Disk active
/// time, GPU.
pub const VALUE_COLS: usize = 6;

/// Index of the Network column inside a row's values.
pub const NET: usize = 3;

/// Index of the Disk active time column inside a row's values.
pub const DISK_ACT: usize = 4;

/// Index of the GPU column inside a row's values.
pub const GPU: usize = 5;

/// Columns that never move: a label column and Status.
pub const FIXED_COLS: usize = 2;

/// Stable persistence id of the value column at logical index `li`.
pub open spec fn value_id(li: int) -> Seq<char> {
    if li == 0 {
        "cpu"@
    } else if li == 1 {
        "mem"@
    } else if li == 2 {
        "disk"@
    } else if li == 3 {
        "net"@
    } else if li == 4 {
        "diskact"@
    } else {
        "gpu"@
    }
}

/// Logical index of the value column whose id is `id`, if any.
pub open spec fn value_index_of(id: Seq<char>) -> Option<usize> {
    if exists|li: int| 0 <= li < VALUE_COLS && value_id(li) == id {
        Some((choose|li: int| 0 <= li < VALUE_COLS && value_id(li) == id) as usize)
    } else {
        None
    }
}

/// `order` lists every logical value column exactly once.
pub open spec fn is_value_order(order: Seq<usize>) -> bool {
    &&& order.len() == VALUE_COLS
    &&& order.no_duplicates()
    &&& forall|i: int| 0 <= i < order.len() ==> #[trigger] order[i] < VALUE_COLS
}

/// The ids of the value columns are pairwise distinct.
pub proof fn lemma_value_ids_distinct()
    ensures
        forall|a: int, b: int|
            #![trigger value_id(a), value_id(b)]
            0 <= a < VALUE_COLS && 0 <= b < VALUE_COLS && value_id(a) == value_id(b) ==> a == b,
{
    reveal_strlit("cpu");
    reveal_strlit("mem");
    reveal_strlit("disk");
    reveal_strlit("net");
    reveal_strlit("diskact");
    reveal_strlit("gpu");
    assert forall|a: int, b: int|
        0 <= a < VALUE_COLS && 0 <= b < VALUE_COLS && value_id(a) == value_id(b) implies a == b by {
        if a != b {
            assert(value_id(a).len() != value_id(b).len() || value_id(a)[0] != value_id(b)[0]
                || value_id(a)[1] != value_id(b)[1] || value_id(a)[2] != value_id(b)[2]
                || value_id(a)[4] != value_id(b)[4]);
        }
    }
}

/// Stable id of the value column at logical index `li`.
pub fn value_column_id(li: usize) -> (id: &'static str)
    requires
        li < VALUE_COLS,
    ensures
        id@ == value_id(li as int),
{
    if li == 0 {
        "cpu"
    } else if li == 1 {
        "mem"
    } else if li == 2 {
        "disk"
    } else if li == 3 {
        "net"
    } else if li == 4 {
        "diskact"
    } else {
        "gpu"
    }
}

/// Logical index of the value column with stable id `id`.
pub fn value_index_from_id(id: &str) -> (li: Option<usize>)
    ensures
        li == value_index_of(id@),
{
    proof {
        lemma_value_ids_distinct();
    }
    let mut i: usize = 0;
    while i < VALUE_COLS
        invariant
            i <= VALUE_COLS,
            forall|j: int| 0 <= j < i ==> value_id(j) != id@,
        decreases VALUE_COLS - i,
    {
        if str_eq(value_column_id(i), id) {
            assert(value_id(i as int) == id@);
            proof {
                lemma_value_ids_distinct();
                let c = choose|li: int| 0 <= li < VALUE_COLS && value_id(li) == id@;
                assert(value_id(c) == value_id(i as int));
                assert(c == i);
            }
            return Some(i);
        }
        i = i + 1;
    }
    None
}

/// Stable ids of a page's columns in LOGICAL order, for sort persistence.
/// `fixed` are the page's own two leading columns.
pub fn column_ids(fixed: [&'static str; FIXED_COLS]) -> (ids: Vec<&'static str>)
    ensures
        ids.len() == FIXED_COLS + VALUE_COLS,
        ids[0] == fixed[0],
        ids[1] == fixed[1],
        forall|li: int| 0 <= li < VALUE_COLS ==> (#[trigger] ids[FIXED_COLS + li])@ == value_id(li),
{
    let mut ids: Vec<&'static str> = Vec::new();
    ids.push(fixed[0]);
    ids.push(fixed[1]);
    let mut li: usize = 0;
    while li < VALUE_COLS
        invariant
            li <= VALUE_COLS,
            ids.len() == FIXED_COLS + li,
            ids[0] == fixed[0],
            ids[1] == fixed[1],
            forall|k: int| 0 <= k < li ==> (#[trigger] ids[FIXED_COLS + k])@ == value_id(k),
        decreases VALUE_COLS - li,
    {
        ids.push(value_column_id(li));
        li = li + 1;
    }
    ids
}

/// Untouched display order.
pub fn default_order() -> (order: Vec<usize>)
    ensures
        order@ == Seq::new(VALUE_COLS as nat, |i: int| i as usize),
        is_value_order(order@),
{
    let mut order: Vec<usize> = Vec::new();
    let mut li: usize = 0;
    while li < VALUE_COLS
        invariant
            li <= VALUE_COLS,
            order@ == Seq::new(li as nat, |i: int| i as usize),
        decreases VALUE_COLS - li,
    {
        order.push(li);
        li = li + 1;
        assert(order@ =~= Seq::new(li as nat, |i: int| i as usize));
    }
    order
}

/// The built-in order as stable ids: what a persisted order is compared
/// against, so a default layout leaves nothing in the settings file.
pub fn default_ids() -> (ids: Vec<String>)
    ensures
        ids.len() == VALUE_COLS,
        forall|li: int| 0 <= li < VALUE_COLS ==> (#[trigger] ids[li])@ == value_id(li),
{
    let mut ids: Vec<String> = Vec::new();
    let mut li: usize = 0;
    while li < VALUE_COLS
        invariant
            li <= VALUE_COLS,
            ids.len() == li,
            forall|k: int| 0 <= k < li ==> (#[trigger] ids[k])@ == value_id(k),
        decreases VALUE_COLS - li,
    {
        ids.push(value_column_id(li).to_string());
        li = li + 1;
    }
    ids
}

/// Display slot -> logical column, as a spec.
pub open spec fn spec_logical_col(order: Seq<usize>, display: int) -> int {
    if display < FIXED_COLS {
        display
    } else if display - FIXED_COLS < order.len() {
        FIXED_COLS + order[display - FIXED_COLS]
    } else {
        display
    }
}

/// Logical column -> display slot, as a spec: the first display slot that
/// holds the column, or the column itself where the order lacks it.
pub open spec fn spec_display_col(order: Seq<usize>, logical: int) -> int {
    if logical < FIXED_COLS {
        logical
    } else if exists|k: int| 0 <= k < order.len() && order[k] == logical - FIXED_COLS {
        FIXED_COLS + choose|k: int|
            0 <= k < order.len() && order[k] == logical - FIXED_COLS && forall|j: int|
                0 <= j < k ==> order[j] != logical - FIXED_COLS
    } else {
        logical
    }
}

/// Display slot -> logical column.
pub fn logical_col(order: &[usize], display: usize) -> (logical: usize)
    requires
        forall|i: int| 0 <= i < order@.len() ==> #[trigger] order@[i] <= usize::MAX - FIXED_COLS,
    ensures
        logical == spec_logical_col(order@, display as int),
{
    if display < FIXED_COLS {
        display
    } else {
        let slot = display - FIXED_COLS;
        if slot < order.len() {
            FIXED_COLS + order[slot]
        } else {
            FIXED_COLS + slot
        }
    }
}

/// First position of `x` in `s`, if any.
pub fn position_of(s: &[usize], x: usize) -> (pos: Option<usize>)
    ensures
        match pos {
            Some(k) => k < s@.len() && s@[k as int] == x && forall|j: int| 0 <= j < k ==> s@[j] != x,
            None => forall|j: int| 0 <= j < s@.len() ==> s@[j] != x,
        },
{
    let mut k: usize = 0;
    while k < s.len()
        invariant
            k <= s@.len(),
            forall|j: int| 0 <= j < k ==> s@[j] != x,
        decreases s@.len() - k,
    {
        if s[k] == x {
            return Some(k);
        }
        k = k + 1;
    }
    None
}

/// Logical column -> display slot.
pub fn display_col(order: &[usize], logical: usize) -> (display: usize)
    requires
        order@.len() <= usize::MAX - FIXED_COLS,
    ensures
        display == spec_display_col(order@, logical as int),
{
    if logical < FIXED_COLS {
        logical
    } else {
        let li = logical - FIXED_COLS;
        match position_of(order, li) {
            Some(k) => {
                proof {
                    let w = choose|k2: int|
                        0 <= k2 < order@.len() && order@[k2] == li && forall|j: int|
                            0 <= j < k2 ==> order@[j] != li;
                    assert(0 <= w < order@.len() && order@[w] == li && forall|j: int|
                        0 <= j < w ==> order@[j] != li);
                    if w < k {
                    } else if w > k {
                        assert(order@[k as int] != li);
                    }
                }
                FIXED_COLS + k
            },
            None => logical,
        }
    }
}

/// Result of moving the entry at position `from` so it lands at `to`.
pub open spec fn spec_moved(order: Seq<usize>, from: int, to: int) -> Seq<usize> {
    order.remove(from).insert(to, order[from])
}

/// Whether a move between the display slots `from` and `to` changes the
/// order at all.
pub open spec fn move_applies(len: int, from: int, to: int) -> bool {
    &&& from >= FIXED_COLS
    &&& to >= FIXED_COLS
    &&& from != to
    &&& from - FIXED_COLS < len
    &&& to - FIXED_COLS < len
}

/// Move the column at display slot `from` so it lands at slot `to`.
/// Returns false when the gesture would change nothing.
pub fn move_column(order: &mut Vec<usize>, from: usize, to: usize) -> (moved: bool)
    ensures
        moved == move_applies(old(order)@.len() as int, from as int, to as int),
        moved ==> final(order)@ == spec_moved(
            old(order)@,
            from - FIXED_COLS,
            to - FIXED_COLS,
        ),
        !moved ==> final(order)@ == old(order)@,
{
    if from < FIXED_COLS || to < FIXED_COLS {
        return false;
    }
    let from = from - FIXED_COLS;
    let to = to - FIXED_COLS;
    if from == to || from >= order.len() || to >= order.len() {
        return false;
    }
    let moved = order.remove(from);
    order.insert(to, moved);
    true
}

/// Display order as stable ids, for persistence.
pub fn saved_ids(order: &[usize]) -> (ids: Vec<String>)
    requires
        forall|i: int| 0 <= i < order@.len() ==> #[trigger] order@[i] < VALUE_COLS,
    ensures
        ids.len() == order@.len(),
        forall|i: int| 0 <= i < order@.len() ==> (#[trigger] ids[i])@ == value_id(order@[i] as int),
{
    let mut ids: Vec<String> = Vec::new();
    let mut k: usize = 0;
    while k < order.len()
        invariant
            k <= order@.len(),
            forall|i: int| 0 <= i < order@.len() ==> #[trigger] order@[i] < VALUE_COLS,
            ids.len() == k,
            forall|i: int| 0 <= i < k ==> (#[trigger] ids[i])@ == value_id(order@[i] as int),
        decreases order@.len() - k,
    {
        ids.push(value_column_id(order[k]).to_string());
        k = k + 1;
    }
    ids
}

/// The known ids of `ids`, as logical indices, each kept at its first
/// occurrence.
pub open spec fn adopted_prefix(ids: Seq<Seq<char>>) -> Seq<usize>
    decreases ids.len(),
{
    if ids.len() == 0 {
        Seq::empty()
    } else {
        let prev = adopted_prefix(ids.drop_last());
        match value_index_of(ids.last()) {
            Some(li) => if prev.contains(li) {
                prev
            } else {
                prev.push(li)
            },
            None => prev,
        }
    }
}

/// `prefix` followed by every logical column in `0..upto` that it lacks, in
/// logical order.
pub open spec fn completed_order(prefix: Seq<usize>, upto: nat) -> Seq<usize>
    decreases upto,
{
    if upto == 0 {
        prefix
    } else {
        let prev = completed_order(prefix, (upto - 1) as nat);
        if prev.contains((upto - 1) as usize) {
            prev
        } else {
            prev.push((upto - 1) as usize)
        }
    }
}

/// The display order a persisted id list restores.
pub open spec fn spec_applied(ids: Seq<Seq<char>>) -> Seq<usize> {
    completed_order(adopted_prefix(ids), VALUE_COLS as nat)
}

proof fn lemma_value_index_of(id: Seq<char>)
    ensures
        value_index_of(id) matches Some(li) ==> li < VALUE_COLS && value_id(li as int) == id,
{
}

proof fn lemma_adopted_prefix_valid(ids: Seq<Seq<char>>)
    ensures
        adopted_prefix(ids).no_duplicates(),
        forall|i: int|
            0 <= i < adopted_prefix(ids).len() ==> #[trigger] adopted_prefix(ids)[i] < VALUE_COLS,
    decreases ids.len(),
{
    if ids.len() > 0 {
        lemma_adopted_prefix_valid(ids.drop_last());
        lemma_value_index_of(ids.last());
        let prev = adopted_prefix(ids.drop_last());
        match value_index_of(ids.last()) {
            Some(li) => {
                if !prev.contains(li) {
                    assert forall|a: int, b: int|
                        0 <= a < prev.push(li).len() && 0 <= b < prev.push(li).len() && a != b
                        implies prev.push(li)[a] != prev.push(li)[b] by {
                        if a == prev.len() {
                            assert(prev[b] != li);
                        } else if b == prev.len() {
                            assert(prev[a] != li);
                        }
                    }
                }
            },
            None => {},
        }
    }
}

proof fn lemma_completed_order_valid(prefix: Seq<usize>, upto: nat)
    requires
        prefix.no_duplicates(),
        forall|i: int| 0 <= i < prefix.len() ==> #[trigger] prefix[i] < VALUE_COLS,
        upto <= VALUE_COLS,
    ensures
        completed_order(prefix, upto).no_duplicates(),
        forall|i: int|
            0 <= i < completed_order(prefix, upto).len() ==> #[trigger] completed_order(
                prefix,
                upto,
            )[i] < VALUE_COLS,
        forall|li: usize| li < upto ==> completed_order(prefix, upto).contains(li),
        forall|li: usize| #[trigger]
            completed_order(prefix, upto).contains(li) ==> prefix.contains(li) || li < upto,
        completed_order(prefix, upto).subrange(0, prefix.len() as int) == prefix,
        prefix.len() <= completed_order(prefix, upto).len(),
    decreases upto,
{
    if upto > 0 {
        lemma_completed_order_valid(prefix, (upto - 1) as nat);
        let prev = completed_order(prefix, (upto - 1) as nat);
        let x = (upto - 1) as usize;
        if !prev.contains(x) {
            let next = prev.push(x);
            assert forall|a: int, b: int|
                0 <= a < next.len() && 0 <= b < next.len() && a != b implies next[a] != next[b] by {
                if a == prev.len() {
                    assert(prev[b] != x);
                } else if b == prev.len() {
                    assert(prev[a] != x);
                }
            }
            assert forall|li: usize| #[trigger] next.contains(li) implies prefix.contains(li) || li
                < upto by {
                let k = choose|k: int| 0 <= k < next.len() && next[k] == li;
                if k < prev.len() {
                    assert(prev.contains(li));
                }
            }
            assert forall|li: usize| li < upto implies next.contains(li) by {
                if li < upto - 1 {
                    assert(prev.contains(li));
                    let k = choose|k: int| 0 <= k < prev.len() && prev[k] == li;
                    assert(next[k] == li);
                } else {
                    assert(next[prev.len() as int] == li);
                }
            }
            assert(next.subrange(0, prefix.len() as int) =~= prev.subrange(0, prefix.len() as int));
        }
    }
}

/// Every id list restores a complete display order.
pub proof fn lemma_applied_is_value_order(ids: Seq<Seq<char>>)
    ensures
        is_value_order(spec_applied(ids)),
{
    lemma_adopted_prefix_valid(ids);
    lemma_completed_order_valid(adopted_prefix(ids), VALUE_COLS as nat);
    let s = spec_applied(ids);
    // A duplicate-free sequence of values below VALUE_COLS that holds every
    // such value has exactly VALUE_COLS entries.
    let full = Set::new(|li: usize| li < VALUE_COLS);
    assert(s.to_set() =~= full) by {
        assert forall|li: usize| full.contains(li) implies s.to_set().contains(li) by {
            assert(s.contains(li));
        }
    }
    s.unique_seq_to_set();
    assert(full =~= Set::new(|li: usize| 0 <= li < VALUE_COLS));
    lemma_usize_range_set_len();
}

proof fn lemma_usize_range_set_len()
    ensures
        Set::new(|li: usize| 0 <= li < VALUE_COLS).len() == VALUE_COLS,
{
    let s = Set::new(|li: usize| 0 <= li < VALUE_COLS);
    assert(s =~= set![0usize, 1usize, 2usize, 3usize, 4usize, 5usize]);
}

/// Adopt a persisted order, ignoring unknown ids and appending any column the
/// saved file predates. A settings file from an older build never makes a
/// column disappear.
pub fn apply_saved(order: &mut Vec<usize>, ids: &[String])
    ensures
        final(order)@ == spec_applied(ids@.map_values(|s: String| s@)),
        is_value_order(final(order)@),
{
    let ghost idv = ids@.map_values(|s: String| s@);
    let mut next: Vec<usize> = Vec::with_capacity(VALUE_COLS);
    let mut k: usize = 0;
    while k < ids.len()
        invariant
            k <= ids@.len(),
            idv == ids@.map_values(|s: String| s@),
            next@ == adopted_prefix(idv.subrange(0, k as int)),
        decreases ids@.len() - k,
    {
        proof {
            assert(idv.subrange(0, k + 1).drop_last() =~= idv.subrange(0, k as int));
            assert(idv.subrange(0, k + 1).last() == ids@[k as int]@);
        }
        if let Some(li) = value_index_from_id(ids[k].as_str()) {
            if position_of(next.as_slice(), li).is_none() {
                next.push(li);
            }
        }
        k = k + 1;
    }
    assert(idv.subrange(0, ids@.len() as int) =~= idv);
    let ghost prefix = next@;
    let mut li: usize = 0;
    while li < VALUE_COLS
        invariant
            li <= VALUE_COLS,
            next@ == completed_order(prefix, li as nat),
        decreases VALUE_COLS - li,
    {
        if position_of(next.as_slice(), li).is_none() {
            next.push(li);
        }
        li = li + 1;
    }
    *order = next;
    proof {
        lemma_applied_is_value_order(idv);
    }
}


/// A complete display order holds every logical value column.
pub proof fn lemma_value_order_complete(order: Seq<usize>)
    requires
        is_value_order(order),
    ensures
        forall|li: usize| li < VALUE_COLS ==> #[trigger] order.contains(li),
{
    let full = Set::new(|li: usize| 0 <= li < VALUE_COLS);
    lemma_usize_range_set_len();
    order.unique_seq_to_set();
    assert(order.to_set().subset_of(full));
    assert(full =~= set![0usize, 1usize, 2usize, 3usize, 4usize, 5usize]);
    vstd::set_lib::lemma_subset_equality(order.to_set(), full);
    assert forall|li: usize| li < VALUE_COLS implies #[trigger] order.contains(li) by {
        assert(full.contains(li));
        assert(order.to_set().contains(li));
    }
}

/// Mapping a logical column to its display slot and back gives the
/// column again, for every column of a complete display order.
pub proof fn lemma_display_then_logical(order: Seq<usize>, logical: int)
    requires
        is_value_order(order),
        0 <= logical < FIXED_COLS + VALUE_COLS,
    ensures
        spec_logical_col(order, spec_display_col(order, logical)) == logical,
{
    if logical >= FIXED_COLS {
        lemma_value_order_complete(order);
        let li = (logical - FIXED_COLS) as usize;
        assert(order.contains(li));
        let k = choose|k: int|
            0 <= k < order.len() && order[k] == logical - FIXED_COLS && forall|j: int|
                0 <= j < k ==> order[j] != logical - FIXED_COLS;
        let w = choose|w: int| 0 <= w < order.len() && order[w] == li;
        assert(order[w] == logical - FIXED_COLS);
    }
}

/// Mapping a display slot to its logical column and back gives the
/// slot again, for every slot of a complete display order.
pub proof fn lemma_logical_then_display(order: Seq<usize>, display: int)
    requires
        is_value_order(order),
        0 <= display < FIXED_COLS + VALUE_COLS,
    ensures
        spec_display_col(order, spec_logical_col(order, display)) == display,
{
    if display >= FIXED_COLS {
        let slot = display - FIXED_COLS;
        let logical = spec_logical_col(order, display);
        assert(logical == FIXED_COLS + order[slot]);
        assert(order[slot] == logical - FIXED_COLS);
        let k = choose|k: int|
            0 <= k < order.len() && order[k] == logical - FIXED_COLS && forall|j: int|
                0 <= j < k ==> order[j] != logical - FIXED_COLS;
        assert(k == slot);
    }
}

/// Moving a column keeps the display order complete.
pub proof fn lemma_move_keeps_value_order(order: Seq<usize>, from: int, to: int)
    requires
        is_value_order(order),
        0 <= from < order.len(),
        0 <= to < order.len(),
    ensures
        is_value_order(spec_moved(order, from, to)),
        spec_moved(order, from, to).to_multiset() == order.to_multiset(),
{
    let r = order.remove(from);
    let m = r.insert(to, order[from]);
    assert(r.len() == order.len() - 1);
    assert forall|a: int, b: int| 0 <= a < m.len() && 0 <= b < m.len() && a != b implies m[a]
        != m[b] by {
        let oa = if a < to { if a < from { a } else { a + 1 } } else if a == to { from } else {
            if a - 1 < from { a - 1 } else { a }
        };
        let ob = if b < to { if b < from { b } else { b + 1 } } else if b == to { from } else {
            if b - 1 < from { b - 1 } else { b }
        };
        assert(m[a] == order[oa]);
        assert(m[b] == order[ob]);
    }
    assert forall|i: int| 0 <= i < m.len() implies #[trigger] m[i] < VALUE_COLS by {
        if i < to {
            if i < from { assert(m[i] == order[i]); } else { assert(m[i] == order[i + 1]); }
        } else if i > to {
            if i - 1 < from { assert(m[i] == order[i - 1]); } else { assert(m[i] == order[i]); }
        }
    }
    let n = order.len() as int;
    assert(order =~= order.subrange(0, from) + seq![order[from]] + order.subrange(from + 1, n));
    assert(r =~= order.subrange(0, from) + order.subrange(from + 1, n));
    lemma_multiset_split(order.subrange(0, from), order[from], order.subrange(from + 1, n));
    assert(m =~= r.subrange(0, to) + seq![order[from]] + r.subrange(to, r.len() as int));
    assert(r =~= r.subrange(0, to) + r.subrange(to, r.len() as int));
    lemma_multiset_split(r.subrange(0, to), order[from], r.subrange(to, r.len() as int));
}

proof fn lemma_multiset_split(a: Seq<usize>, x: usize, b: Seq<usize>)
    ensures
        (a + seq![x] + b).to_multiset() =~= (a + b).to_multiset().insert(x),
{
    broadcast use vstd::multiset::group_multiset_axioms, vstd::seq_lib::group_to_multiset_ensures;
    vstd::seq_lib::lemma_multiset_commutative(a + seq![x], b);
    vstd::seq_lib::lemma_multiset_commutative(a, seq![x]);
    vstd::seq_lib::lemma_multiset_commutative(a, b);
    assert(seq![x].to_multiset() =~= vstd::multiset::Multiset::singleton(x)) by {
        assert(seq![x] =~= Seq::<usize>::empty().push(x));
    }
}

proof fn lemma_adopted_prefix_of_saved(order: Seq<usize>, k: int)
    requires
        is_value_order(order),
        0 <= k <= order.len(),
    ensures
        adopted_prefix(order.map_values(|li: usize| value_id(li as int)).subrange(0, k))
            == order.subrange(0, k),
    decreases k,
{
    let ids = order.map_values(|li: usize| value_id(li as int));
    if k > 0 {
        lemma_adopted_prefix_of_saved(order, k - 1);
        assert(ids.subrange(0, k).drop_last() =~= ids.subrange(0, k - 1));
        let li = order[k - 1];
        assert(ids.subrange(0, k).last() == value_id(li as int));
        lemma_value_ids_distinct();
        assert(exists|j: int| 0 <= j < VALUE_COLS && value_id(j) == value_id(li as int)) by {
            assert(value_id(li as int) == value_id(li as int));
        }
        let c = choose|j: int| 0 <= j < VALUE_COLS && value_id(j) == value_id(li as int);
        assert(value_id(c) == value_id(li as int));
        assert(c == li);
        assert(value_index_of(value_id(li as int)) == Some(li));
        assert(!order.subrange(0, k - 1).contains(li)) by {
            if order.subrange(0, k - 1).contains(li) {
                let j = choose|j: int| 0 <= j < k - 1 && #[trigger] order.subrange(0, k - 1)[j] == li;
                assert(order[j] == order[k - 1]);
            }
        }
        assert(order.subrange(0, k - 1).push(li) =~= order.subrange(0, k));
    }
}

proof fn lemma_completed_full(order: Seq<usize>, upto: nat)
    requires
        is_value_order(order),
        upto <= VALUE_COLS,
    ensures
        completed_order(order, upto) == order,
    decreases upto,
{
    if upto > 0 {
        lemma_completed_full(order, (upto - 1) as nat);
        lemma_value_order_complete(order);
        assert(order.contains((upto - 1) as usize));
    }
}

/// Restoring the ids that a complete display order is saved as gives that
/// order back.
pub proof fn lemma_saved_ids_roundtrip(order: Seq<usize>)
    requires
        is_value_order(order),
    ensures
        spec_applied(order.map_values(|li: usize| value_id(li as int))) == order,
{
    let ids = order.map_values(|li: usize| value_id(li as int));
    lemma_adopted_prefix_of_saved(order, order.len() as int);
    assert(ids.subrange(0, order.len() as int) =~= ids);
    assert(order.subrange(0, order.len() as int) =~= order);
    lemma_completed_full(order, VALUE_COLS as nat);
}

/// Reorder a logical-order array into the display order.
pub fn in_display_order<T: Clone>(order: &[usize], logical: &[T; VALUE_COLS]) -> (shown: Vec<T>)
    requires
        forall|i: int| 0 <= i < order@.len() ==> #[trigger] order@[i] < VALUE_COLS,
    ensures
        shown.len() == order@.len(),
        forall|i: int|
            0 <= i < order@.len() ==> vstd::pervasive::cloned(
                logical@[order@[i] as int],
                #[trigger] shown[i],
            ),
{
    let mut shown: Vec<T> = Vec::new();
    let mut k: usize = 0;
    while k < order.len()
        invariant
            k <= order@.len(),
            forall|i: int| 0 <= i < order@.len() ==> #[trigger] order@[i] < VALUE_COLS,
            shown.len() == k,
            forall|i: int|
                0 <= i < k ==> vstd::pervasive::cloned(
                    logical@[order@[i] as int],
                    #[trigger] shown[i],
                ),
        decreases order@.len() - k,
    {
        shown.push(logical[order[k]].clone());
        k = k + 1;
    }
    shown
}

/// Why a value column can read "unknown", for the hover explanation.
#[derive(Debug, Clone, Copy, PartialEq, Eq, Structural)]
pub enum UnavailableTip {
    Network,
    DiskActivity,
    Gpu,
}

/// Which explanation a column's "unknown" cell carries. `None` where the
/// column is always measurable.
pub fn unavailable_tip(li: usize) -> (tip: Option<UnavailableTip>)
    ensures
        tip == (if li == NET {
            Some(UnavailableTip::Network)
        } else if li == DISK_ACT {
            Some(UnavailableTip::DiskActivity)
        } else if li == GPU {
            Some(UnavailableTip::Gpu)
        } else {
            None
        }),
{
    if li == NET {
        Some(UnavailableTip::Network)
    } else if li == DISK_ACT {
        Some(UnavailableTip::DiskActivity)
    } else if li == GPU {
        Some(UnavailableTip::Gpu)
    } else {
        None
    }
}

/// How one numeric cell is rendered.
#[derive(Debug, Clone, Copy, PartialEq, Eq, Structural)]
pub enum CellFormat {
    /// The telemetry was never measured: the cell reads as unknown, never
    /// as a fabricated zero.
    Unknown,
    /// A percentage capped at 100.
    Percent,
    /// A byte count shown in megabytes.
    Megabytes,
    /// A disk byte rate.
    DiskRate,
    /// A network byte rate.
    NetworkRate,
}

/// The format of the cell for logical column `li`; `known` is false where
/// the telemetry behind the column was never measured for this row.
pub fn cell_format(li: usize, known: bool) -> (f: CellFormat)
    ensures
        !known ==> f == CellFormat::Unknown,
        known ==> f == (if li == 0 || li == DISK_ACT || li == GPU {
            CellFormat::Percent
        } else if li == 1 {
            CellFormat::Megabytes
        } else if li == 2 {
            CellFormat::DiskRate
        } else if li == NET {
            CellFormat::NetworkRate
        } else {
            CellFormat::Unknown
        }),
{
    if !known {
        CellFormat::Unknown
    } else if li == 0 || li == DISK_ACT || li == GPU {
        CellFormat::Percent
    } else if li == 1 {
        CellFormat::Megabytes
    } else if li == 2 {
        CellFormat::DiskRate
    } else if li == NET {
        CellFormat::NetworkRate
    } else {
        CellFormat::Unknown
    }
}

} // verus!
