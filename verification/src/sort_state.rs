//! Sort state shared by the simpler table pages.
use vstd::prelude::*;

verus! {

/// Persistent sort state shared by the simpler table tabs. Text columns
/// start ascending; numeric columns start descending on first click.
#[derive(Debug, Clone, Copy, PartialEq, Eq, Structural)]
pub struct SortState {
    pub column: usize,
    pub ascending: bool,
}

impl SortState {
    pub fn new(column: usize, ascending: bool) -> (s: Self)
        ensures
            s.column == column,
            s.ascending == ascending,
    {
        Self { column, ascending }
    }

    /// A header click on `column`: the sorted column toggles its direction,
    /// any other column becomes the sort column in its natural first
    /// direction (descending when numeric, ascending otherwise).
    pub fn clicked(&mut self, column: usize, numeric: bool)
        ensures
            final(self).column == column,
            old(self).column == column ==> final(self).ascending == !old(self).ascending,
            old(self).column != column ==> final(self).ascending == !numeric,
    {
        if self.column == column {
            self.ascending = !self.ascending;
        } else {
            self.column = column;
            self.ascending = !numeric;
        }
    }
}

} // verus!
