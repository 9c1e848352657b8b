//! The order of the Processes page's rows: by name, by status, or by a
//! resource column through ranks of its values.
use std::cmp::Ordering;
use vstd::prelude::*;
use crate::compare::{cmp_ignore_case, ignore_case_order};
use crate::processes::{GroupProcess, ProcStatus};
use crate::stable_sort::{lemma_insert_by_at, stable_sorted};

verus! {

/// Rank of a run state: running, suspended, not responding.
pub open spec fn status_rank(s: ProcStatus) -> u8 {
    match s {
        ProcStatus::Running => 0,
        ProcStatus::Suspended => 1,
        ProcStatus::NotResponding => 2,
    }
}

/// The status sort key of a process: its run state, then whether it is
/// power throttled.
pub fn process_status_rank(p: &GroupProcess) -> (r: (u8, bool))
    ensures
        r == (status_rank(p.status), p.power_throttled),
{
    let s: u8 = match p.status {
        ProcStatus::Running => 0,
        ProcStatus::Suspended => 1,
        ProcStatus::NotResponding => 2,
    };
    (s, p.power_throttled)
}

/// Order of two status keys.
pub open spec fn status_order(a: GroupProcess, b: GroupProcess) -> Ordering {
    if status_rank(a.status) < status_rank(b.status) {
        Ordering::Less
    } else if status_rank(a.status) > status_rank(b.status) {
        Ordering::Greater
    } else if !a.power_throttled && b.power_throttled {
        Ordering::Less
    } else if a.power_throttled && !b.power_throttled {
        Ordering::Greater
    } else {
        Ordering::Equal
    }
}

/// Order of two ranks.
pub open spec fn key_order(a: u64, b: u64) -> Ordering {
    if a < b {
        Ordering::Less
    } else if a == b {
        Ordering::Equal
    } else {
        Ordering::Greater
    }
}

/// Order of processes `a` and `b` by sort column `column`: the status key
/// for column 1, the rank `key` of the column's value for the resource
/// columns 2 to 5, and the shown name, without case, otherwise.
pub open spec fn entry_order(all: Seq<GroupProcess>, a: int, b: int, column: usize, key: Seq<u64>) -> Ordering {
    if column == 1 {
        status_order(all[a], all[b])
    } else if 2 <= column && column <= 5 {
        key_order(key[a], key[b])
    } else {
        ignore_case_order(all[a].shown_name@, all[b].shown_name@)
    }
}

/// Whether `a` sorts strictly before `b` in the requested direction.
pub open spec fn sorts_before(all: Seq<GroupProcess>, a: int, b: int, column: usize, ascending: bool, key: Seq<u64>) -> bool {
    if ascending {
        entry_order(all, a, b, column, key) == Ordering::Less
    } else {
        entry_order(all, a, b, column, key) == Ordering::Greater
    }
}

/// [`sorts_before`] on indices.
pub open spec fn sorts_before_at(
    all: Seq<GroupProcess>,
    a: usize,
    b: usize,
    column: usize,
    ascending: bool,
    key: Seq<u64>,
) -> bool {
    sorts_before(all, a as int, b as int, column, ascending, key)
}

/// The relation the rows are sorted by.
pub open spec fn before_rel(all: Seq<GroupProcess>, column: usize, ascending: bool, key: Seq<u64>) -> spec_fn(
    usize,
    usize,
) -> bool {
    |a: usize, b: usize| sorts_before_at(all, a, b, column, ascending, key)
}

fn status_less(a: &GroupProcess, b: &GroupProcess) -> (r: (bool, bool))
    ensures
        r.0 == (status_order(*a, *b) == Ordering::Less),
        r.1 == (status_order(*a, *b) == Ordering::Greater),
{
    let (ra, ta) = process_status_rank(a);
    let (rb, tb) = process_status_rank(b);
    if ra < rb {
        (true, false)
    } else if ra > rb {
        (false, true)
    } else {
        (!ta && tb, ta && !tb)
    }
}

/// Whether process `a` sorts strictly before process `b`.
pub fn entry_before(
    all: &[GroupProcess],
    a: usize,
    b: usize,
    column: usize,
    ascending: bool,
    key: &Vec<u64>,
) -> (r: bool)
    requires
        a < all@.len(),
        b < all@.len(),
        key@.len() == all@.len(),
    ensures
        r == sorts_before_at(all@, a, b, column, ascending, key@),
{
    let (less, greater) = if column == 1 {
        status_less(&all[a], &all[b])
    } else if 2 <= column && column <= 5 {
        (key[a] < key[b], key[a] > key[b])
    } else {
        match cmp_ignore_case(all[a].shown_name.as_str(), all[b].shown_name.as_str()) {
            Ordering::Less => (true, false),
            Ordering::Equal => (false, false),
            Ordering::Greater => (false, true),
        }
    };
    if ascending {
        less
    } else {
        greater
    }
}

/// Stably sort process indices by column `column` in the requested
/// direction; ties keep their order.
pub fn sort_entries(
    all: &[GroupProcess],
    s: &Vec<usize>,
    column: usize,
    ascending: bool,
    key: &Vec<u64>,
) -> (sorted: Vec<usize>)
    requires
        forall|k: int| 0 <= k < s@.len() ==> #[trigger] s@[k] < all@.len(),
        key@.len() == all@.len(),
    ensures
        sorted@ == stable_sorted(s@, before_rel(all@, column, ascending, key@)),
        forall|k: int| 0 <= k < sorted@.len() ==> #[trigger] sorted@[k] < all@.len(),
{
    let ghost rel = before_rel(all@, column, ascending, key@);
    let mut sorted: Vec<usize> = Vec::new();
    let mut k: usize = 0;
    while k < s.len()
        invariant
            k <= s@.len(),
            rel == before_rel(all@, column, ascending, key@),
            key@.len() == all@.len(),
            forall|i: int| 0 <= i < s@.len() ==> #[trigger] s@[i] < all@.len(),
            sorted@ == stable_sorted(s@.subrange(0, k as int), rel),
            forall|i: int| 0 <= i < sorted@.len() ==> #[trigger] sorted@[i] < all@.len(),
        decreases s@.len() - k,
    {
        let x = s[k];
        let mut p: usize = 0;
        while p < sorted.len() && !entry_before(all, x, sorted[p], column, ascending, key)
            invariant
                p <= sorted@.len(),
                x < all@.len(),
                rel == before_rel(all@, column, ascending, key@),
                key@.len() == all@.len(),
                forall|i: int| 0 <= i < sorted@.len() ==> #[trigger] sorted@[i] < all@.len(),
                forall|i: int| 0 <= i < p ==> !rel(x, #[trigger] sorted@[i]),
            decreases sorted@.len() - p,
        {
            p = p + 1;
        }
        proof {
            lemma_insert_by_at(sorted@, x, rel, p as int);
            assert(s@.subrange(0, k + 1).drop_last() =~= s@.subrange(0, k as int));
        }
        let ghost before = sorted@;
        sorted.insert(p, x);
        proof {
            assert(sorted@ =~= before.subrange(0, p as int) + seq![x] + before.subrange(p as int, before.len() as int));
        }
        k = k + 1;
    }
    assert(s@.subrange(0, s@.len() as int) =~= s@);
    sorted
}

/// What each sort column of the Processes page reads: column 1 the run
/// state (running, suspended, not responding), a power-throttled process
/// after an unthrottled one in the same state; columns 2 to 5 the ranks of
/// the column's values; any other column the shown name without case.
pub proof fn lemma_entry_sort_keys(all: Seq<GroupProcess>, a: int, b: int, column: usize, key: Seq<u64>)
    ensures
        ({
            let o = entry_order(all, a, b, column, key);
            let pa = all[a];
            let pb = all[b];
            &&& column == 1 && pa.status == ProcStatus::Running && pb.status != ProcStatus::Running ==> o == Ordering::Less
            &&& column == 1 && pa.status == ProcStatus::Suspended && pb.status == ProcStatus::NotResponding ==> o == Ordering::Less
            &&& column == 1 && pa.status == pb.status ==> o == (if pa.power_throttled == pb.power_throttled {
                Ordering::Equal
            } else if pb.power_throttled {
                Ordering::Less
            } else {
                Ordering::Greater
            })
            &&& 2 <= column <= 5 ==> o == (if key[a] < key[b] {
                Ordering::Less
            } else if key[b] < key[a] {
                Ordering::Greater
            } else {
                Ordering::Equal
            })
            &&& (column == 0 || column > 5) ==> o == ignore_case_order(pa.shown_name@, pb.shown_name@)
        }),
{
}

/// Swapping two processes turns their order around, under every column.
pub proof fn lemma_entry_order_swaps(all: Seq<GroupProcess>, a: int, b: int, column: usize, key: Seq<u64>)
    ensures
        entry_order(all, a, b, column, key) == crate::compare::reversed(entry_order(all, b, a, column, key)),
{
    crate::compare::lemma_lex_order_antisymmetric(
        crate::compare::lowered(all[a].shown_name@),
        crate::compare::lowered(all[b].shown_name@),
    );
}

} // verus!
