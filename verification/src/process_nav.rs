//! Tree-aware Left/Right on the Processes page: expand, collapse, and step
//! into or out of a family, never onto a group header or a pseudo-row.
use vstd::prelude::*;
use crate::details_rows::TreeKey;
use crate::process_rows::DisplayRow;
use crate::processes::GroupProcess;

verus! {

/// Whether display row `r` is a process row that can be selected: a real
/// process, not a group header or a pseudo-row.
pub open spec fn selectable(all: Seq<GroupProcess>, r: DisplayRow) -> bool {
    match r {
        DisplayRow::Process(p) => p.index < all.len() && !all[p.index as int].synthetic,
        DisplayRow::GroupHeader(..) => false,
    }
}

/// The depth of a process row, or 0 for a header.
pub open spec fn row_depth(r: DisplayRow) -> usize {
    match r {
        DisplayRow::Process(p) => p.depth,
        DisplayRow::GroupHeader(..) => 0,
    }
}

/// The last position before `n` holding a selectable row shallower than
/// `depth`, or -1.
pub open spec fn parent_row_before(all: Seq<GroupProcess>, rows: Seq<DisplayRow>, n: int, depth: usize) -> int
    decreases n,
{
    if n <= 0 {
        -1
    } else if selectable(all, rows[n - 1]) && row_depth(rows[n - 1]) < depth {
        n - 1
    } else {
        parent_row_before(all, rows, n - 1, depth)
    }
}

/// Right expands a collapsed family, or steps into its first member; Left
/// collapses an expanded family, or steps out to the nearest selectable
/// shallower row above.
pub open spec fn process_key_action(
    all: Seq<GroupProcess>,
    rows: Seq<DisplayRow>,
    index: int,
    expanded: bool,
    left: bool,
    right: bool,
) -> TreeKey {
    match rows[index] {
        DisplayRow::Process(row) => if right && row.children {
            if !expanded {
                TreeKey::Toggle(row.pid)
            } else if index + 1 < rows.len() && selectable(all, rows[index + 1]) && row_depth(
                rows[index + 1],
            ) > row.depth {
                TreeKey::Select((index + 1) as usize)
            } else {
                TreeKey::Stay
            }
        } else if left {
            if row.children && expanded {
                TreeKey::Toggle(row.pid)
            } else if row.depth > 0 && parent_row_before(all, rows, index, row.depth) >= 0 {
                TreeKey::Select(parent_row_before(all, rows, index, row.depth) as usize)
            } else {
                TreeKey::Stay
            }
        } else {
            TreeKey::Stay
        },
        DisplayRow::GroupHeader(..) => TreeKey::Stay,
    }
}

proof fn lemma_parent_row_range(all: Seq<GroupProcess>, rows: Seq<DisplayRow>, n: int, depth: usize)
    ensures
        -1 <= parent_row_before(all, rows, n, depth) < if n > 0 { n } else { 0 },
    decreases n,
{
    if n > 0 {
        lemma_parent_row_range(all, rows, n - 1, depth);
    }
}

fn is_selectable(all: &[GroupProcess], r: &DisplayRow) -> (b: bool)
    ensures
        b == selectable(all@, *r),
{
    match r {
        DisplayRow::Process(p) => p.index < all.len() && !all[p.index].synthetic,
        DisplayRow::GroupHeader(..) => false,
    }
}

fn depth_of(r: &DisplayRow) -> (d: usize)
    ensures
        d == row_depth(*r),
{
    match r {
        DisplayRow::Process(p) => p.depth,
        DisplayRow::GroupHeader(..) => 0,
    }
}

/// Tree-aware Left/Right on the selected display row at `index`;
/// `expanded` is whether that row's family is expanded.
pub fn process_tree_key(
    all: &[GroupProcess],
    rows: &[DisplayRow],
    index: usize,
    expanded: bool,
    left: bool,
    right: bool,
) -> (k: TreeKey)
    requires
        index < rows@.len(),
    ensures
        k == process_key_action(all@, rows@, index as int, expanded, left, right),
{
    match rows[index] {
        DisplayRow::Process(row) => {
            if right && row.children {
                if !expanded {
                    TreeKey::Toggle(row.pid)
                } else if index + 1 < rows.len() && is_selectable(all, &rows[index + 1]) && depth_of(
                    &rows[index + 1],
                ) > row.depth {
                    TreeKey::Select(index + 1)
                } else {
                    TreeKey::Stay
                }
            } else if left {
                if row.children && expanded {
                    TreeKey::Toggle(row.pid)
                } else if row.depth > 0 {
                    let mut j: usize = index;
                    while j > 0 && !(is_selectable(all, &rows[j - 1]) && depth_of(&rows[j - 1]) < row.depth)
                        invariant
                            j <= index < rows@.len(),
                            parent_row_before(all@, rows@, j as int, row.depth) == parent_row_before(
                                all@,
                                rows@,
                                index as int,
                                row.depth,
                            ),
                        decreases j,
                    {
                        j = j - 1;
                    }
                    proof {
                        lemma_parent_row_range(all@, rows@, index as int, row.depth);
                    }
                    if j > 0 {
                        TreeKey::Select(j - 1)
                    } else {
                        TreeKey::Stay
                    }
                } else {
                    TreeKey::Stay
                }
            } else {
                TreeKey::Stay
            }
        },
        DisplayRow::GroupHeader(..) => TreeKey::Stay,
    }
}

/// Whether display row `r` is the row of process `pid`.
pub open spec fn row_of(r: DisplayRow, pid: u32) -> bool {
    r matches DisplayRow::Process(p) && p.pid == pid
}

/// The display position of the first row of process `pid`, the row a
/// pending scroll request brings into view.
pub fn row_of_pid(rows: &[DisplayRow], pid: u32) -> (i: Option<usize>)
    ensures
        match i {
            Some(k) => k < rows@.len() && row_of(rows@[k as int], pid) && forall|j: int| 0 <= j < k ==> !row_of(#[trigger] rows@[j], pid),
            None => forall|j: int| 0 <= j < rows@.len() ==> !row_of(#[trigger] rows@[j], pid),
        },
{
    let mut k: usize = 0;
    while k < rows.len()
        invariant
            k <= rows@.len(),
            forall|j: int| 0 <= j < k ==> !row_of(#[trigger] rows@[j], pid),
        decreases rows@.len() - k,
    {
        match &rows[k] {
            DisplayRow::Process(p) => {
                if p.pid == pid {
                    return Some(k);
                }
            },
            DisplayRow::GroupHeader(..) => {},
        }
        k = k + 1;
    }
    None
}

} // verus!
