//! The rows the module inspector shows: the filter and the stable sort.
use vstd::prelude::*;
use crate::details::ProcessIdentity;
use crate::modules::{
    ModuleView, ProcessModule, SortColumn, column_from_id, copy_module, module_before,
    spec_module_before,
};
use crate::text::{ascii_fold, chars_of, trim_bounds, trimmed};

verus! {

/// The characters of `s` with ASCII upper case folded to lower case, as
/// code points.
pub open spec fn folded(s: Seq<char>) -> Seq<u32> {
    Seq::new(s.len(), |i: int| ascii_fold(s[i]))
}

/// The code points of `s`.
pub open spec fn codes(s: Seq<char>) -> Seq<u32> {
    Seq::new(s.len(), |i: int| s[i] as u32)
}

/// Whether `n` occurs in `h` as a contiguous run.
pub open spec fn has_infix(h: Seq<u32>, n: Seq<u32>) -> bool {
    exists|i: int| 0 <= i && i + n.len() <= h.len() && #[trigger] h.subrange(i, i + n.len()) == n
}

/// A module matches a (lower-case) needle when the needle is empty or
/// occurs in its name or full path in ASCII lower case.
pub open spec fn module_matches(m: ModuleView, needle: Seq<u32>) -> bool {
    needle.len() == 0 || has_infix(folded(m.name), needle) || has_infix(folded(m.path), needle)
}

/// The needle a filter text searches for: trimmed and in ASCII lower case.
pub open spec fn filter_needle(filter: Seq<char>) -> Seq<u32> {
    folded(trimmed(filter))
}

fn folded_of(s: &str) -> (v: Vec<u32>)
    ensures
        v@ == folded(s@),
{
    let cs = chars_of(s);
    let mut v: Vec<u32> = Vec::new();
    let mut i: usize = 0;
    while i < cs.len()
        invariant
            cs@ == s@,
            i <= cs@.len(),
            v@.len() == i,
            forall|j: int| 0 <= j < i ==> v@[j] == ascii_fold(#[trigger] cs@[j]),
        decreases cs@.len() - i,
    {
        let c = cs[i];
        let f: u32 = if 'A' <= c && c <= 'Z' {
            c as u32 + 32
        } else {
            c as u32
        };
        v.push(f);
        i = i + 1;
    }
    assert(v@ =~= folded(s@));
    v
}

fn codes_of(s: &str) -> (v: Vec<u32>)
    ensures
        v@ == codes(s@),
{
    let cs = chars_of(s);
    let mut v: Vec<u32> = Vec::new();
    let mut i: usize = 0;
    while i < cs.len()
        invariant
            cs@ == s@,
            i <= cs@.len(),
            v@.len() == i,
            forall|j: int| 0 <= j < i ==> v@[j] == (#[trigger] cs@[j]) as u32,
        decreases cs@.len() - i,
    {
        v.push(cs[i] as u32);
        i = i + 1;
    }
    assert(v@ =~= codes(s@));
    v
}

/// Whether `n` occurs in `h`.
fn contains_run(h: &Vec<u32>, n: &Vec<u32>) -> (b: bool)
    ensures
        b == has_infix(h@, n@),
{
    if n.len() == 0 {
        assert(h@.subrange(0int, 0int + n@.len()) =~= n@);
        return true;
    }
    if n.len() > h.len() {
        return false;
    }
    let hl = h.len();
    let last = hl - n.len();
    assert(last < usize::MAX);
    let mut i: usize = 0;
    while i <= last
        invariant
            hl == h@.len(),
            last == h@.len() - n@.len(),
            last < usize::MAX,
            0 < n@.len() <= h@.len(),
            i <= last + 1,
            forall|k: int| 0 <= k < i ==> #[trigger] h@.subrange(k, k + n@.len()) != n@,
        decreases last + 1 - i,
    {
        let mut j: usize = 0;
        loop
            invariant
                i <= last,
                hl == h@.len(),
                last == h@.len() - n@.len(),
                n@.len() <= h@.len(),
                j <= n@.len(),
                forall|t: int| 0 <= t < j ==> h@[i + t] == n@[t],
            ensures
                j <= n@.len(),
                forall|t: int| 0 <= t < j ==> h@[i + t] == n@[t],
                j < n@.len() ==> h@[i + j] != n@[j as int],
            decreases n@.len() - j,
        {
            if j == n.len() {
                break;
            }
            if h[i + j] != n[j] {
                break;
            }
            j = j + 1;
        }
        if j == n.len() {
            assert(h@.subrange(i as int, i + n@.len()) =~= n@);
            return true;
        }
        assert(h@.subrange(i as int, i + n@.len())[j as int] != n@[j as int]);
        i = i + 1;
    }
    assert forall|k: int| 0 <= k && k + n@.len() <= h@.len() implies #[trigger] h@.subrange(k, k + n@.len()) != n@ by {
        assert(k < i);
    }
    false
}

/// Whether a module matches the lower-case `needle`: the needle is empty or
/// occurs in the module's name or full path in ASCII lower case.
pub fn module_matches_filter(module: &ProcessModule, needle: &str) -> (b: bool)
    ensures
        b == module_matches(module@, codes(needle@)),
{
    let n = codes_of(needle);
    matches_codes(module, &n)
}

fn matches_codes(module: &ProcessModule, n: &Vec<u32>) -> (b: bool)
    ensures
        b == module_matches(module@, n@),
{
    if n.len() == 0 {
        return true;
    }
    let name = folded_of(module.name.as_str());
    if contains_run(&name, n) {
        return true;
    }
    let path = folded_of(module.path.as_str());
    contains_run(&path, n)
}

/// The modules that match the needle, in order.
pub open spec fn matching(ms: Seq<ModuleView>, needle: Seq<u32>) -> Seq<ModuleView>
    decreases ms.len(),
{
    if ms.len() == 0 {
        Seq::empty()
    } else {
        let prev = matching(ms.drop_last(), needle);
        if module_matches(ms.last(), needle) {
            prev.push(ms.last())
        } else {
            prev
        }
    }
}

/// `x` inserted into the sorted `s` after every entry it does not sort
/// strictly before.
pub open spec fn insert_module(s: Seq<ModuleView>, x: ModuleView, sort: SortColumn, ascending: bool) -> Seq<ModuleView>
    decreases s.len(),
{
    if s.len() == 0 {
        seq![x]
    } else if spec_module_before(x, s[0], sort, ascending) {
        seq![x] + s
    } else {
        seq![s[0]] + insert_module(s.drop_first(), x, sort, ascending)
    }
}

/// `s` stably sorted: entries that compare equal keep their order.
pub open spec fn sorted_modules(s: Seq<ModuleView>, sort: SortColumn, ascending: bool) -> Seq<ModuleView>
    decreases s.len(),
{
    if s.len() == 0 {
        Seq::empty()
    } else {
        insert_module(sorted_modules(s.drop_last(), sort, ascending), s.last(), sort, ascending)
    }
}

proof fn lemma_insert_module_at(s: Seq<ModuleView>, x: ModuleView, sort: SortColumn, ascending: bool, p: int)
    requires
        0 <= p <= s.len(),
        forall|k: int| 0 <= k < p ==> !spec_module_before(x, #[trigger] s[k], sort, ascending),
        p < s.len() ==> spec_module_before(x, s[p], sort, ascending),
    ensures
        insert_module(s, x, sort, ascending) == s.subrange(0, p) + seq![x] + s.subrange(p, s.len() as int),
    decreases s.len(),
{
    if s.len() == 0 {
        assert(s.subrange(0, p) + seq![x] + s.subrange(p, s.len() as int) =~= seq![x]);
    } else if p == 0 {
        assert(s.subrange(0, p) + seq![x] + s.subrange(p, s.len() as int) =~= seq![x] + s);
    } else {
        let t = s.drop_first();
        assert forall|k: int| 0 <= k < p - 1 implies !spec_module_before(x, #[trigger] t[k], sort, ascending) by {
            assert(t[k] == s[k + 1]);
        }
        assert(!spec_module_before(x, s[0], sort, ascending));
        lemma_insert_module_at(t, x, sort, ascending, p - 1);
        assert(seq![s[0]] + (t.subrange(0, p - 1) + seq![x] + t.subrange(p - 1, t.len() as int))
            =~= s.subrange(0, p) + seq![x] + s.subrange(p, s.len() as int));
    }
}

/// The views of a list of modules.
pub open spec fn views(ms: Seq<ProcessModule>) -> Seq<ModuleView> {
    ms.map_values(|m: ProcessModule| m@)
}

/// The modules the inspector lists: those matching the trimmed, lower-cased
/// filter, stably sorted by the selected column in the selected direction.
pub fn visible_modules(state: &State, modules: &[ProcessModule]) -> (rows: Vec<ProcessModule>)
    ensures
        views(rows@) == sorted_modules(
            matching(views(modules@), filter_needle(state.filter@)),
            state.sort,
            state.ascending,
        ),
{
    let needle = needle_of(state.filter.as_str());
    let mut rows: Vec<ProcessModule> = Vec::new();
    let ghost lowered = filter_needle(state.filter@);
    let mut k: usize = 0;
    while k < modules.len()
        invariant
            k <= modules@.len(),
            needle@ == lowered,
            views(rows@) == sorted_modules(
                matching(views(modules@.subrange(0, k as int)), lowered),
                state.sort,
                state.ascending,
            ),
        decreases modules@.len() - k,
    {
        let ghost prefix = modules@.subrange(0, k as int);
        let ghost next = modules@.subrange(0, k + 1);
        proof {
            assert(views(next).drop_last() =~= views(prefix));
            assert(views(next).last() == modules@[k as int]@);
        }
        if matches_codes(&modules[k], &needle) {
            let m = copy_module(&modules[k]);
            proof {
                let mp = matching(views(prefix), lowered);
                assert(matching(views(next), lowered) == mp.push(m@));
                assert(mp.push(m@).drop_last() =~= mp);
                assert(sorted_modules(mp.push(m@), state.sort, state.ascending) == insert_module(
                    sorted_modules(mp, state.sort, state.ascending),
                    m@,
                    state.sort,
                    state.ascending,
                ));
            }
            let mut p: usize = 0;
            while p < rows.len() && !module_before(&m, &rows[p], state.sort, state.ascending)
                invariant
                    p <= rows@.len(),
                    forall|i: int|
                        0 <= i < p ==> !spec_module_before(m@, #[trigger] views(rows@)[i], state.sort, state.ascending),
                decreases rows@.len() - p,
            {
                proof {
                    assert(views(rows@)[p as int] == rows@[p as int]@);
                }
                p = p + 1;
            }
            proof {
                if p < rows@.len() {
                    assert(views(rows@)[p as int] == rows@[p as int]@);
                }
                lemma_insert_module_at(views(rows@), m@, state.sort, state.ascending, p as int);
            }
            let ghost before = rows@;
            rows.insert(p, m);
            proof {
                assert(views(rows@) =~= views(before).subrange(0, p as int) + seq![m@] + views(before).subrange(
                    p as int,
                    before.len() as int,
                ));
            }
        } else {
            proof {
                assert(matching(views(next), lowered) == matching(views(prefix), lowered));
            }
        }
        k = k + 1;
    }
    assert(modules@.subrange(0, modules@.len() as int) =~= modules@);
    rows
}

fn needle_of(filter: &str) -> (needle: Vec<u32>)
    ensures
        needle@ == filter_needle(filter@),
{
    let cs = chars_of(filter);
    let (lo, hi) = trim_bounds(&cs);
    let mut v: Vec<u32> = Vec::new();
    let mut i: usize = lo;
    while i < hi
        invariant
            lo <= i <= hi,
            hi <= cs@.len(),
            v@.len() == i - lo,
            forall|j: int| 0 <= j < i - lo ==> v@[j] == ascii_fold(#[trigger] cs@[lo + j]),
        decreases hi - i,
    {
        let c = cs[i];
        let f: u32 = if 'A' <= c && c <= 'Z' {
            c as u32 + 32
        } else {
            c as u32
        };
        v.push(f);
        i = i + 1;
    }
    proof {
        let t = cs@.subrange(lo as int, hi as int);
        assert forall|j: int| 0 <= j < t.len() implies v@[j] == ascii_fold(t[j]) by {
            assert(t[j] == cs@[lo + j]);
        }
        assert(v@ =~= folded(t));
    }
    v
}

/// The module inspector of one process.
pub struct State {
    pub identity: ProcessIdentity,
    pub process_name: String,
    pub filter: String,
    pub sort: SortColumn,
    pub ascending: bool,
    pub selected_base: Option<u64>,
    pub scroll_to_base: Option<u64>,
    /// The module waiting for the unload confirmation.
    pub pending_unload: Option<ProcessModule>,
}

impl State {
    /// An inspector with an empty filter and nothing selected.
    pub fn new(identity: ProcessIdentity, process_name: String, sort: SortColumn, ascending: bool) -> (s: Self)
        ensures
            s.identity == identity,
            s.process_name@ == process_name@,
            s.filter@.len() == 0,
            s.sort == sort,
            s.ascending == ascending,
            s.selected_base is None,
            s.scroll_to_base is None,
            s.pending_unload is None,
    {
        State {
            identity,
            process_name,
            filter: String::new(),
            sort,
            ascending,
            selected_base: None,
            scroll_to_base: None,
            pending_unload: None,
        }
    }
}

/// The sort the inspector opens with: the saved column when its id is
/// known (else Name) and the saved direction (ascending when nothing was
/// saved).
pub fn opening_sort(saved: Option<(&str, bool)>) -> (s: (SortColumn, bool))
    ensures
        s == match saved {
            Some((id, asc)) => (
                match column_from_id(id@) {
                    Some(c) => c,
                    None => SortColumn::Name,
                },
                asc,
            ),
            None => (SortColumn::Name, true),
        },
{
    match saved {
        Some((id, asc)) => {
            let c = match SortColumn::from_id(id) {
                Some(c) => c,
                None => SortColumn::Name,
            };
            (c, asc)
        },
        None => (SortColumn::Name, true),
    }
}


/// The first index in `ms` whose module sits at `base`, or `ms.len()`.
pub open spec fn first_with_base(ms: Seq<ModuleView>, base: u64) -> int
    decreases ms.len(),
{
    if ms.len() == 0 {
        0
    } else if ms[0].base_address == base {
        0
    } else {
        1 + first_with_base(ms.drop_first(), base)
    }
}

proof fn lemma_first_with_base(ms: Seq<ModuleView>, base: u64, i: int)
    requires
        0 <= i <= ms.len(),
        forall|j: int| 0 <= j < i ==> #[trigger] ms[j].base_address != base,
        i < ms.len() ==> ms[i].base_address == base,
    ensures
        first_with_base(ms, base) == i,
    decreases ms.len(),
{
    if ms.len() > 0 && i > 0 {
        let t = ms.drop_first();
        assert forall|j: int| 0 <= j < i - 1 implies #[trigger] t[j].base_address != base by {
            assert(t[j] == ms[j + 1]);
        }
        assert(ms[0].base_address != base);
        lemma_first_with_base(t, base, i - 1);
    }
}

/// The index of the first module at `base`, or the length of the list.
fn find_base(modules: &[ProcessModule], base: u64) -> (k: usize)
    ensures
        k == first_with_base(views(modules@), base),
        k <= modules@.len(),
{
    let mut k: usize = 0;
    while k < modules.len() && modules[k].base_address != base
        invariant
            k <= modules@.len(),
            forall|j: int| 0 <= j < k ==> #[trigger] views(modules@)[j].base_address != base,
        decreases modules@.len() - k,
    {
        proof {
            assert(views(modules@)[k as int] == modules@[k as int]@);
        }
        k = k + 1;
    }
    proof {
        if k < modules@.len() {
            assert(views(modules@)[k as int] == modules@[k as int]@);
        }
        lemma_first_with_base(views(modules@), base, k as int);
    }
    k
}

/// The selection after a fresh inventory: kept while its module is
/// listed, else the first module (none when the list is empty).
pub open spec fn live_selection(ms: Seq<ModuleView>, selected: Option<u64>) -> Option<u64> {
    match selected {
        Some(b) if first_with_base(ms, b) < ms.len() => Some(b),
        _ => if ms.len() > 0 {
            Some(ms[0].base_address)
        } else {
            None
        },
    }
}

/// The module the toolbar acts on: the first listed at the selected base,
/// when it also passes the filter.
pub open spec fn selected_view(ms: Seq<ModuleView>, selected: Option<u64>, filter: Seq<char>) -> Option<ModuleView> {
    match selected {
        Some(b) => {
            let k = first_with_base(ms, b);
            if k < ms.len() && module_matches(ms[k], filter_needle(filter)) {
                Some(ms[k])
            } else {
                None
            }
        },
        None => None,
    }
}

/// The view of an optional module.
pub open spec fn view_of(m: Option<ProcessModule>) -> Option<ModuleView> {
    match m {
        Some(x) => Some(x@),
        None => None,
    }
}

/// The sort column under header `column` of the module table.
pub open spec fn column_at(column: usize) -> SortColumn {
    if column == 0 {
        SortColumn::Name
    } else if column == 1 {
        SortColumn::Base
    } else if column == 2 {
        SortColumn::Size
    } else {
        SortColumn::Path
    }
}

/// The header index of a sort column.
pub open spec fn header_of(c: SortColumn) -> usize {
    match c {
        SortColumn::Name => 0,
        SortColumn::Base => 1,
        SortColumn::Size => 2,
        SortColumn::Path => 3,
    }
}

/// The header index that shows the sort arrow for `c`.
pub fn header_index(c: SortColumn) -> (i: usize)
    ensures
        i == header_of(c),
{
    match c {
        SortColumn::Name => 0,
        SortColumn::Base => 1,
        SortColumn::Size => 2,
        SortColumn::Path => 3,
    }
}

/// A click on the header that shows a column's arrow sorts by that column.
pub proof fn lemma_header_roundtrip(c: SortColumn)
    ensures
        column_at(header_of(c)) == c,
{
}

impl State {
    /// After a fresh inventory, a selection whose module is gone (it was
    /// unloaded, or the target dropped it) falls back to the first module,
    /// so the unload button never dead-ends after a success.
    pub fn keep_selection_alive(&mut self, modules: &[ProcessModule])
        ensures
            final(self).selected_base == live_selection(views(modules@), old(self).selected_base),
            final(self).identity == old(self).identity,
            final(self).process_name == old(self).process_name,
            final(self).filter == old(self).filter,
            final(self).sort == old(self).sort,
            final(self).ascending == old(self).ascending,
            final(self).scroll_to_base == old(self).scroll_to_base,
            final(self).pending_unload == old(self).pending_unload,
    {
        let alive = match self.selected_base {
            Some(b) => find_base(modules, b) < modules.len(),
            None => false,
        };
        if !alive {
            self.selected_base = if modules.len() > 0 {
                Some(modules[0].base_address)
            } else {
                None
            };
        }
    }

    /// The module the unload button acts on: the first listed at the
    /// selected base, when it also passes the filter.
    pub fn selected_module(&self, modules: &[ProcessModule]) -> (m: Option<ProcessModule>)
        ensures
            view_of(m) == selected_view(views(modules@), self.selected_base, self.filter@),
    {
        match self.selected_base {
            Some(b) => {
                let k = find_base(modules, b);
                if k < modules.len() {
                    let needle = needle_of(self.filter.as_str());
                    proof {
                        assert(views(modules@)[k as int] == modules@[k as int]@);
                    }
                    if matches_codes(&modules[k], &needle) {
                        return Some(copy_module(&modules[k]));
                    }
                }
                None
            },
            None => None,
        }
    }

    /// A click on header `column` (name, base, size, path): the sorted
    /// column flips its direction; another column becomes the sort column,
    /// ascending for the texts and descending for base and size.
    pub fn header_clicked(&mut self, column: usize)
        ensures
            final(self).sort == column_at(column),
            old(self).sort == column_at(column) ==> final(self).ascending == !old(self).ascending,
            old(self).sort != column_at(column) ==> final(self).ascending == !(column_at(column) is Base
                || column_at(column) is Size),
            final(self).identity == old(self).identity,
            final(self).process_name == old(self).process_name,
            final(self).filter == old(self).filter,
            final(self).selected_base == old(self).selected_base,
            final(self).scroll_to_base == old(self).scroll_to_base,
            final(self).pending_unload == old(self).pending_unload,
    {
        let next = if column == 0 {
            SortColumn::Name
        } else if column == 1 {
            SortColumn::Base
        } else if column == 2 {
            SortColumn::Size
        } else {
            SortColumn::Path
        };
        if self.sort == next {
            self.ascending = !self.ascending;
        } else {
            self.sort = next;
            self.ascending = !(next == SortColumn::Base || next == SortColumn::Size);
        }
    }

    /// Whether the inspector stays up this frame: its window was not
    /// closed, and Escape (which the unload confirmation owns while it is
    /// up) was not pressed.
    pub fn stays_open(&self, window_open: bool, escape_pressed: bool) -> (b: bool)
        ensures
            b == (window_open && !(self.pending_unload is None && escape_pressed)),
    {
        window_open && !(self.pending_unload.is_none() && escape_pressed)
    }
}

/// Why the unload button is greyed out.
#[derive(Debug, Clone, Copy, PartialEq, Eq, Structural)]
pub enum UnloadHint {
    SelectModuleFirst,
    ModuleBusy,
}

/// The inspector's toolbar and row menu.
#[derive(Debug, Clone, Copy, PartialEq, Eq, Structural)]
pub struct Toolbar {
    pub refresh_enabled: bool,
    pub unload_enabled: bool,
    /// The tooltip on a greyed-out unload button.
    pub unload_hint: UnloadHint,
    /// The unload entry of a row's menu.
    pub menu_unload_enabled: bool,
    pub spinner: bool,
}

/// The toolbar: inventory and unload never run at once; unloading needs
/// the platform's capability and a selected module.
pub fn toolbar(can_unload: bool, has_selection: bool, fetch_busy: bool, unload_busy: bool) -> (t: Toolbar)
    ensures
        t.refresh_enabled == (!fetch_busy && !unload_busy),
        t.unload_enabled == (can_unload && has_selection && !unload_busy && !fetch_busy),
        t.unload_hint == (if has_selection {
            UnloadHint::ModuleBusy
        } else {
            UnloadHint::SelectModuleFirst
        }),
        t.menu_unload_enabled == (can_unload && !unload_busy && !fetch_busy),
        t.spinner == (fetch_busy || unload_busy),
{
    Toolbar {
        refresh_enabled: !fetch_busy && !unload_busy,
        unload_enabled: can_unload && has_selection && !unload_busy && !fetch_busy,
        unload_hint: if has_selection {
            UnloadHint::ModuleBusy
        } else {
            UnloadHint::SelectModuleFirst
        },
        menu_unload_enabled: can_unload && !unload_busy && !fetch_busy,
        spinner: fetch_busy || unload_busy,
    }
}

} // verus!
