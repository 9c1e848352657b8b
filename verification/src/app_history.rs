//! The App history page's row order: by name, CPU time or network traffic,
//! with apps whose traffic was never measured last.
use std::cmp::Ordering;
use vstd::prelude::*;
use crate::compare::{ahead, behind, cmp_ignore_case, ignore_case_order, reversed};
use crate::modules::u64_order;
use crate::sort_state::SortState;

verus! {

/// One app of the history. CPU time arrives as a rank: equal times share a
/// rank, and a longer time has a larger rank.
#[derive(Debug, Clone)]
pub struct HistoryRow {
    pub name: String,
    pub cpu_rank: u64,
    pub network_bytes: u64,
    /// Whether traffic was measured at all; without it the bytes mean
    /// nothing.
    pub network_available: bool,
}

/// `first`, or `second` where `first` ties.
pub open spec fn then_order(first: Ordering, second: Ordering) -> Ordering {
    if first == Ordering::Equal {
        second
    } else {
        first
    }
}

/// Order of two apps under `sort`: by name (column 0), CPU time (1) or
/// traffic (otherwise) in the sort's direction, ties broken by name
/// ascending. Under the traffic column an app with unmeasured traffic sorts
/// after every measured one, in either direction.
pub open spec fn history_order(a: HistoryRow, b: HistoryRow, sort: SortState) -> Ordering {
    if sort.column == 2 && a.network_available != b.network_available {
        if a.network_available {
            Ordering::Less
        } else {
            Ordering::Greater
        }
    } else {
        let primary = if sort.column == 0 {
            ignore_case_order(a.name@, b.name@)
        } else if sort.column == 1 {
            u64_order(a.cpu_rank, b.cpu_rank)
        } else {
            u64_order(a.network_bytes, b.network_bytes)
        };
        then_order(
            if sort.ascending {
                primary
            } else {
                reversed(primary)
            },
            ignore_case_order(a.name@, b.name@),
        )
    }
}

fn order_u64(a: u64, b: u64) -> (o: Ordering)
    ensures
        o == u64_order(a, b),
{
    if a < b {
        Ordering::Less
    } else if a == b {
        Ordering::Equal
    } else {
        Ordering::Greater
    }
}

/// Compare two apps for the table's current sort.
pub fn compare_rows(a: &HistoryRow, b: &HistoryRow, sort: SortState) -> (o: Ordering)
    ensures
        o == history_order(*a, *b, sort),
{
    if sort.column == 2 && a.network_available != b.network_available {
        return if a.network_available {
            Ordering::Less
        } else {
            Ordering::Greater
        };
    }
    let primary = if sort.column == 0 {
        cmp_ignore_case(a.name.as_str(), b.name.as_str())
    } else if sort.column == 1 {
        order_u64(a.cpu_rank, b.cpu_rank)
    } else {
        order_u64(a.network_bytes, b.network_bytes)
    };
    match crate::compare::directed(primary, sort.ascending) {
        Ordering::Equal => cmp_ignore_case(a.name.as_str(), b.name.as_str()),
        other => other,
    }
}

/// Under the traffic column, an app whose traffic was never measured sorts
/// after every measured one, whichever the direction.
pub proof fn lemma_unmeasured_last(a: HistoryRow, b: HistoryRow, sort: SortState)
    requires
        sort.column == 2,
        a.network_available,
        !b.network_available,
    ensures
        history_order(a, b, sort) == Ordering::Less,
        history_order(b, a, sort) == Ordering::Greater,
{
}

/// The persisted id of the App history sort column `column`.
pub fn sort_column_id(column: usize) -> (id: &'static str)
    requires
        column < 4,
    ensures
        id@ == if column == 0 {
            "name"@
        } else if column == 1 {
            "cpu"@
        } else if column == 2 {
            "net"@
        } else {
            "notif"@
        },
{
    if column == 0 {
        "name"
    } else if column == 1 {
        "cpu"
    } else if column == 2 {
        "net"
    } else {
        "notif"
    }
}

/// Whether App history column `column` is numeric: every column but the
/// name, so they start descending.
pub fn is_numeric_column(column: usize) -> (b: bool)
    ensures
        b == (column != 0),
{
    column != 0
}

/// What each sort column of the table reads: column 0 the name, 1 the CPU
/// time rank, any later column the network bytes; under column 2 an app
/// whose traffic was never measured sorts after every measured one,
/// whichever the direction. Where the column's values differ they decide, in the
/// sort's direction, whatever the other fields hold; where they tie, the
/// names decide in ascending order.
pub proof fn lemma_history_sort_keys(a: HistoryRow, b: HistoryRow, sort: SortState)
    ensures
        ({
            let o = history_order(a, b, sort);
            let names = ignore_case_order(a.name@, b.name@);
            let up = sort.ascending;
            &&& sort.column == 0 ==> o == (if names == Ordering::Equal {
                Ordering::Equal
            } else if names == Ordering::Less {
                ahead(up)
            } else {
                behind(up)
            })
            &&& sort.column == 1 ==> o == (if a.cpu_rank < b.cpu_rank {
                ahead(up)
            } else if b.cpu_rank < a.cpu_rank {
                behind(up)
            } else {
                names
            })
            &&& sort.column == 2 && a.network_available && !b.network_available ==> o == Ordering::Less
            &&& sort.column == 2 && !a.network_available && b.network_available ==> o == Ordering::Greater
            &&& (sort.column > 2 || a.network_available == b.network_available) && sort.column >= 2 ==> o == (if a.network_bytes < b.network_bytes {
                ahead(up)
            } else if b.network_bytes < a.network_bytes {
                behind(up)
            } else {
                names
            })
        }),
{
}

} // verus!
