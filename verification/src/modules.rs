//! The module inspector's table: sort columns, the filter and the shown
//! rows.
use std::cmp::Ordering;
use vstd::prelude::*;
use crate::compare::{cmp_ignore_case, ignore_case_order, reversed};
use crate::text::str_eq;

verus! {

/// The column the module list is sorted by.
#[derive(Debug, Clone, Copy, PartialEq, Eq, Structural)]
pub enum SortColumn {
    Name,
    Base,
    Size,
    Path,
}

/// Stable persistence id of a sort column.
pub open spec fn column_id(c: SortColumn) -> Seq<char> {
    match c {
        SortColumn::Name => "name"@,
        SortColumn::Base => "base"@,
        SortColumn::Size => "size"@,
        SortColumn::Path => "path"@,
    }
}

/// The sort column with persistence id `id`, if any.
pub open spec fn column_from_id(id: Seq<char>) -> Option<SortColumn> {
    if id == "name"@ {
        Some(SortColumn::Name)
    } else if id == "base"@ {
        Some(SortColumn::Base)
    } else if id == "size"@ {
        Some(SortColumn::Size)
    } else if id == "path"@ {
        Some(SortColumn::Path)
    } else {
        None
    }
}

impl SortColumn {
    /// Stable persistence id.
    pub fn id(self) -> (id: &'static str)
        ensures
            id@ == column_id(self),
    {
        match self {
            SortColumn::Name => "name",
            SortColumn::Base => "base",
            SortColumn::Size => "size",
            SortColumn::Path => "path",
        }
    }

    /// The column a persisted id names, if any.
    pub fn from_id(id: &str) -> (c: Option<SortColumn>)
        ensures
            c == column_from_id(id@),
    {
        if str_eq(id, "name") {
            Some(SortColumn::Name)
        } else if str_eq(id, "base") {
            Some(SortColumn::Base)
        } else if str_eq(id, "size") {
            Some(SortColumn::Size)
        } else if str_eq(id, "path") {
            Some(SortColumn::Path)
        } else {
            None
        }
    }
}

/// A persisted id names the column it was saved from.
pub proof fn lemma_column_id_roundtrip(c: SortColumn)
    ensures
        column_from_id(column_id(c)) == Some(c),
{
    reveal_strlit("name");
    reveal_strlit("base");
    reveal_strlit("size");
    reveal_strlit("path");
    assert("name"@ != "base"@ && "name"@ != "size"@ && "name"@ != "path"@) by {
        assert("name"@[0] != "base"@[0] && "name"@[0] != "size"@[0] && "name"@[0] != "path"@[0]);
    }
    assert("base"@ != "size"@ && "base"@ != "path"@) by {
        assert("base"@[0] != "size"@[0] && "base"@[0] != "path"@[0]);
    }
    assert("size"@ != "path"@) by {
        assert("size"@[0] != "path"@[0]);
    }
}

/// One module loaded into a process.
#[derive(Debug, Clone)]
pub struct ProcessModule {
    pub name: String,
    pub path: String,
    pub base_address: u64,
    pub size_bytes: u64,
}

/// What a module shows: its texts as characters.
pub struct ModuleView {
    pub name: Seq<char>,
    pub path: Seq<char>,
    pub base_address: u64,
    pub size_bytes: u64,
}

impl View for ProcessModule {
    type V = ModuleView;

    open spec fn view(&self) -> ModuleView {
        ModuleView {
            name: self.name@,
            path: self.path@,
            base_address: self.base_address,
            size_bytes: self.size_bytes,
        }
    }
}

/// A copy of `m` that shows the same.
pub fn copy_module(m: &ProcessModule) -> (c: ProcessModule)
    ensures
        c@ == m@,
{
    ProcessModule {
        name: m.name.clone(),
        path: m.path.clone(),
        base_address: m.base_address,
        size_bytes: m.size_bytes,
    }
}

/// Order of two addresses or sizes.
pub open spec fn u64_order(a: u64, b: u64) -> Ordering {
    if a < b {
        Ordering::Less
    } else if a == b {
        Ordering::Equal
    } else {
        Ordering::Greater
    }
}

/// Order of two modules under `sort`, ties broken by base address.
pub open spec fn module_order(a: ModuleView, b: ModuleView, sort: SortColumn) -> Ordering {
    let primary = match sort {
        SortColumn::Name => ignore_case_order(a.name, b.name),
        SortColumn::Base => u64_order(a.base_address, b.base_address),
        SortColumn::Size => u64_order(a.size_bytes, b.size_bytes),
        SortColumn::Path => ignore_case_order(a.path, b.path),
    };
    if primary == Ordering::Equal {
        u64_order(a.base_address, b.base_address)
    } else {
        primary
    }
}

fn compare_u64(a: u64, b: u64) -> (o: Ordering)
    ensures
        o == u64_order(a, b),
{
    if a < b {
        Ordering::Less
    } else if a == b {
        Ordering::Equal
    } else {
        Ordering::Greater
    }
}

/// Compare two modules by the selected field, then by base address.
pub fn compare_modules(a: &ProcessModule, b: &ProcessModule, sort: SortColumn) -> (o: Ordering)
    ensures
        o == module_order(a@, b@, sort),
{
    let primary = match sort {
        SortColumn::Name => cmp_ignore_case(a.name.as_str(), b.name.as_str()),
        SortColumn::Base => compare_u64(a.base_address, b.base_address),
        SortColumn::Size => compare_u64(a.size_bytes, b.size_bytes),
        SortColumn::Path => cmp_ignore_case(a.path.as_str(), b.path.as_str()),
    };
    match primary {
        Ordering::Equal => compare_u64(a.base_address, b.base_address),
        other => other,
    }
}

/// Whether `a` sorts strictly before `b` in the requested direction.
pub open spec fn spec_module_before(a: ModuleView, b: ModuleView, sort: SortColumn, ascending: bool) -> bool {
    if ascending {
        module_order(a, b, sort) == Ordering::Less
    } else {
        reversed(module_order(a, b, sort)) == Ordering::Less
    }
}

/// Whether `a` sorts strictly before `b` in the requested direction.
pub fn module_before(a: &ProcessModule, b: &ProcessModule, sort: SortColumn, ascending: bool) -> (r: bool)
    ensures
        r == spec_module_before(a@, b@, sort, ascending),
{
    let o = crate::compare::directed(compare_modules(a, b, sort), ascending);
    match o {
        Ordering::Less => true,
        _ => false,
    }
}

/// What each sort column of the module list reads: the name, the base
/// address, the size or the path, texts without case. Where the column's
/// values differ they decide; where they tie, the base addresses decide.
pub proof fn lemma_module_sort_keys(a: ModuleView, b: ModuleView, sort: SortColumn)
    ensures
        ({
            let o = module_order(a, b, sort);
            let base = if a.base_address < b.base_address {
                Ordering::Less
            } else if b.base_address < a.base_address {
                Ordering::Greater
            } else {
                Ordering::Equal
            };
            &&& sort == SortColumn::Name ==> o == (if ignore_case_order(a.name, b.name) == Ordering::Equal {
                base
            } else {
                ignore_case_order(a.name, b.name)
            })
            &&& sort == SortColumn::Path ==> o == (if ignore_case_order(a.path, b.path) == Ordering::Equal {
                base
            } else {
                ignore_case_order(a.path, b.path)
            })
            &&& sort == SortColumn::Base ==> o == base
            &&& sort == SortColumn::Size ==> o == (if a.size_bytes < b.size_bytes {
                Ordering::Less
            } else if b.size_bytes < a.size_bytes {
                Ordering::Greater
            } else {
                base
            })
        }),
{
}

} // verus!
