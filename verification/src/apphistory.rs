//! The older App history table: the same order, with names compared once
//! their ASCII capitals are made small.
use std::cmp::Ordering;
use vstd::prelude::*;
use crate::app_history::{HistoryRow, then_order};
use crate::compare::{ahead, ascii_lower_order, behind, cmp_ascii_lower, reversed};
use crate::modules::u64_order;
use crate::sort_state::SortState;

verus! {

/// Order of two apps under `sort`, names compared with ASCII capitals made
/// small; otherwise as the App history page orders them.
pub open spec fn ascii_history_order(a: HistoryRow, b: HistoryRow, sort: SortState) -> Ordering {
    if sort.column == 2 && a.network_available != b.network_available {
        if a.network_available {
            Ordering::Less
        } else {
            Ordering::Greater
        }
    } else {
        let primary = if sort.column == 0 {
            ascii_lower_order(a.name@, b.name@)
        } else if sort.column == 1 {
            u64_order(a.cpu_rank, b.cpu_rank)
        } else {
            u64_order(a.network_bytes, b.network_bytes)
        };
        then_order(
            if sort.ascending {
                primary
            } else {
                reversed(primary)
            },
            ascii_lower_order(a.name@, b.name@),
        )
    }
}

fn order_u64(a: u64, b: u64) -> (o: Ordering)
    ensures
        o == u64_order(a, b),
{
    if a < b {
        Ordering::Less
    } else if a == b {
        Ordering::Equal
    } else {
        Ordering::Greater
    }
}

/// Compare two apps for the table's current sort.
pub fn compare_rows(a: &HistoryRow, b: &HistoryRow, sort: SortState) -> (o: Ordering)
    ensures
        o == ascii_history_order(*a, *b, sort),
{
    if sort.column == 2 && a.network_available != b.network_available {
        return if a.network_available {
            Ordering::Less
        } else {
            Ordering::Greater
        };
    }
    let primary = if sort.column == 0 {
        cmp_ascii_lower(a.name.as_str(), b.name.as_str())
    } else if sort.column == 1 {
        order_u64(a.cpu_rank, b.cpu_rank)
    } else {
        order_u64(a.network_bytes, b.network_bytes)
    };
    match crate::compare::directed(primary, sort.ascending) {
        Ordering::Equal => cmp_ascii_lower(a.name.as_str(), b.name.as_str()),
        other => other,
    }
}

/// Under the traffic column, an app whose traffic was never measured sorts
/// after every measured one, whichever the direction.
pub proof fn lemma_unmeasured_last_ascii(a: HistoryRow, b: HistoryRow, sort: SortState)
    requires
        sort.column == 2,
        a.network_available,
        !b.network_available,
    ensures
        ascii_history_order(a, b, sort) == Ordering::Less,
        ascii_history_order(b, a, sort) == Ordering::Greater,
{
}

/// What each sort column of the table reads: column 0 the name, 1 the CPU
/// time rank, any later column the network bytes; under column 2 an app
/// whose traffic was never measured sorts after every measured one,
/// whichever the direction. Where the column's values differ they decide, in the
/// sort's direction, whatever the other fields hold; where they tie, the
/// names decide in ascending order.
pub proof fn lemma_ascii_history_sort_keys(a: HistoryRow, b: HistoryRow, sort: SortState)
    ensures
        ({
            let o = ascii_history_order(a, b, sort);
            let names = ascii_lower_order(a.name@, b.name@);
            let up = sort.ascending;
            &&& sort.column == 0 ==> o == (if names == Ordering::Equal {
                Ordering::Equal
            } else if names == Ordering::Less {
                ahead(up)
            } else {
                behind(up)
            })
            &&& sort.column == 1 ==> o == (if a.cpu_rank < b.cpu_rank {
                ahead(up)
            } else if b.cpu_rank < a.cpu_rank {
                behind(up)
            } else {
                names
            })
            &&& sort.column == 2 && a.network_available && !b.network_available ==> o == Ordering::Less
            &&& sort.column == 2 && !a.network_available && b.network_available ==> o == Ordering::Greater
            &&& (sort.column > 2 || a.network_available == b.network_available) && sort.column >= 2 ==> o == (if a.network_bytes < b.network_bytes {
                ahead(up)
            } else if b.network_bytes < a.network_bytes {
                behind(up)
            } else {
                names
            })
        }),
{
}

} // verus!
