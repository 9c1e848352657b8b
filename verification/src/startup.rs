//! The Startup page's row order and the executable behind a command line.
use std::cmp::Ordering;
use vstd::prelude::*;
use crate::compare::{ahead, behind, cmp_ignore_case, ignore_case_order, reversed};
use crate::sort_state::SortState;
use crate::services::common_len;
use crate::stable_sort::{flagged, flagged_upto, lemma_insert_by_at, lemma_stable_sorted_members, stable_sorted};
use crate::text::{chars_of, str_eq, first_word, lemma_first_word, lemma_prefix_before, prefix_before, trim_bounds, trimmed, is_white, is_whitespace};

verus! {

/// How much an entry slows down sign-in.
#[derive(Debug, Clone, Copy, PartialEq, Eq, Structural)]
pub enum StartupImpact {
    NoImpact,
    Low,
    Medium,
    High,
    Unknown,
}

/// One autostart entry, as the table orders it.
#[derive(Debug, Clone)]
pub struct StartupItem {
    pub id: String,
    pub name: String,
    pub publisher: Option<String>,
    pub command: String,
    pub location: String,
    pub enabled: bool,
    pub impact: StartupImpact,
}

/// Rank of an impact: none, low, medium, high, then unknown.
pub open spec fn spec_impact_rank(impact: StartupImpact) -> u8 {
    match impact {
        StartupImpact::NoImpact => 0,
        StartupImpact::Low => 1,
        StartupImpact::Medium => 2,
        StartupImpact::High => 3,
        StartupImpact::Unknown => 4,
    }
}

/// The sort rank of an impact.
pub fn impact_rank(impact: StartupImpact) -> (r: u8)
    ensures
        r == spec_impact_rank(impact),
{
    match impact {
        StartupImpact::NoImpact => 0,
        StartupImpact::Low => 1,
        StartupImpact::Medium => 2,
        StartupImpact::High => 3,
        StartupImpact::Unknown => 4,
    }
}

/// Order of two small integers.
pub open spec fn int_order(a: u8, b: u8) -> Ordering {
    if a < b {
        Ordering::Less
    } else if a == b {
        Ordering::Equal
    } else {
        Ordering::Greater
    }
}

/// The publisher shown for an entry: empty when unknown.
pub open spec fn publisher_text(p: Option<String>) -> Seq<char> {
    match p {
        Some(s) => s@,
        None => Seq::empty(),
    }
}

/// Order of two entries under `sort`: by name, publisher, enabled state
/// (disabled first) or impact rank, in the sort's direction; ties fall back
/// to the name in ascending order.
pub open spec fn item_order(a: StartupItem, b: StartupItem, sort: SortState) -> Ordering {
    let primary = if sort.column == 0 {
        ignore_case_order(a.name@, b.name@)
    } else if sort.column == 1 {
        ignore_case_order(publisher_text(a.publisher), publisher_text(b.publisher))
    } else if sort.column == 2 {
        int_order(if a.enabled { 1u8 } else { 0u8 }, if b.enabled { 1u8 } else { 0u8 })
    } else {
        int_order(spec_impact_rank(a.impact), spec_impact_rank(b.impact))
    };
    let directed = if sort.ascending {
        primary
    } else {
        reversed(primary)
    };
    if directed == Ordering::Equal {
        ignore_case_order(a.name@, b.name@)
    } else {
        directed
    }
}

fn compare_u8(a: u8, b: u8) -> (o: Ordering)
    ensures
        o == int_order(a, b),
{
    if a < b {
        Ordering::Less
    } else if a == b {
        Ordering::Equal
    } else {
        Ordering::Greater
    }
}

fn publisher_of(p: &Option<String>) -> (s: &str)
    ensures
        s@ == publisher_text(*p),
{
    match p {
        Some(s) => s.as_str(),
        None => {
            proof {
                reveal_strlit("");
            }
            ""
        },
    }
}

/// Compare two entries for the table's current sort.
pub fn compare_items(a: &StartupItem, b: &StartupItem, sort: SortState) -> (o: Ordering)
    ensures
        o == item_order(*a, *b, sort),
{
    let primary = if sort.column == 0 {
        cmp_ignore_case(a.name.as_str(), b.name.as_str())
    } else if sort.column == 1 {
        cmp_ignore_case(publisher_of(&a.publisher), publisher_of(&b.publisher))
    } else if sort.column == 2 {
        compare_u8(if a.enabled { 1 } else { 0 }, if b.enabled { 1 } else { 0 })
    } else {
        compare_u8(impact_rank(a.impact), impact_rank(b.impact))
    };
    let directed = crate::compare::directed(primary, sort.ascending);
    match directed {
        Ordering::Equal => cmp_ignore_case(a.name.as_str(), b.name.as_str()),
        other => other,
    }
}

/// The executable a command line starts: with surrounding white space
/// removed, the quoted text after a leading quote (up to the next quote),
/// else the first white-space-separated word; `None` for a blank command.
pub open spec fn spec_exe_from_command(cmd: Seq<char>) -> Option<Seq<char>> {
    let t = trimmed(cmd);
    if t.len() > 0 && t[0] == '"' {
        Some(prefix_before(t.drop_first(), '"'))
    } else if t.len() > 0 {
        Some(first_word(t))
    } else {
        None
    }
}

/// The executable a startup command runs (see [`spec_exe_from_command`]).
pub fn exe_from_command(cmd: &str) -> (exe: Option<String>)
    ensures
        match exe {
            Some(e) => spec_exe_from_command(cmd@) == Some(e@),
            None => spec_exe_from_command(cmd@) is None,
        },
{
    let cs = chars_of(cmd);
    let (lo, hi) = trim_bounds(&cs);
    let ghost t = cs@.subrange(lo as int, hi as int);
    if lo < hi && cs[lo] == '"' {
        let mut k: usize = lo + 1;
        while k < hi && cs[k] != '"'
            invariant
                lo < k <= hi,
                hi <= cs@.len(),
                forall|j: int| lo < j < k ==> cs@[j] != '"',
            decreases hi - k,
        {
            k = k + 1;
        }
        proof {
            let rest = t.drop_first();
            assert(rest =~= cs@.subrange(lo + 1, hi as int));
            lemma_prefix_before(rest, '"', k - lo - 1);
            assert(rest.take(k - lo - 1) =~= cs@.subrange(lo + 1, k as int));
        }
        let e = cmd.substring_char(lo + 1, k);
        return Some(e.to_owned());
    }
    if lo == hi {
        return None;
    }
    let mut k: usize = lo;
    while k < hi && !is_whitespace(cs[k])
        invariant
            lo <= k <= hi,
            hi <= cs@.len(),
            forall|j: int| lo <= j < k ==> !is_white(cs@[j]),
        decreases hi - k,
    {
        k = k + 1;
    }
    proof {
        lemma_first_word(t, k - lo);
        assert(t.take(k - lo) =~= cs@.subrange(lo as int, k as int));
    }
    let e = cmd.substring_char(lo, k);
    Some(e.to_owned())
}

/// Whether entry `a` sorts strictly before entry `b`.
pub open spec fn item_less(a: StartupItem, b: StartupItem, sort: SortState) -> bool {
    item_order(a, b, sort) == Ordering::Less
}

/// [`item_less`] on positions in `items`.
pub open spec fn item_less_at(items: Seq<StartupItem>, a: usize, b: usize, sort: SortState) -> bool {
    item_less(items[a as int], items[b as int], sort)
}

/// The relation the Startup table is sorted by.
pub open spec fn item_rel(items: Seq<StartupItem>, sort: SortState) -> spec_fn(usize, usize) -> bool {
    |a: usize, b: usize| item_less_at(items, a, b, sort)
}

fn item_before(a: &StartupItem, b: &StartupItem, sort: SortState) -> (r: bool)
    ensures
        r == item_less(*a, *b, sort),
{
    match compare_items(a, b, sort) {
        Ordering::Less => true,
        _ => false,
    }
}

/// Stably sort positions into `items` for the table's current sort.
pub fn sort_items(items: &[StartupItem], s: &Vec<usize>, sort: SortState) -> (sorted: Vec<usize>)
    requires
        forall|k: int| 0 <= k < s@.len() ==> #[trigger] s@[k] < items@.len(),
    ensures
        sorted@ == stable_sorted(s@, item_rel(items@, sort)),
{
    let ghost rel = item_rel(items@, sort);
    let mut sorted: Vec<usize> = Vec::new();
    let mut k: usize = 0;
    while k < s.len()
        invariant
            k <= s@.len(),
            rel == item_rel(items@, sort),
            forall|i: int| 0 <= i < s@.len() ==> #[trigger] s@[i] < items@.len(),
            sorted@ == stable_sorted(s@.subrange(0, k as int), rel),
            forall|i: int| 0 <= i < sorted@.len() ==> #[trigger] sorted@[i] < items@.len(),
        decreases s@.len() - k,
    {
        let x = s[k];
        let mut p: usize = 0;
        while p < sorted.len() && !item_before(&items[x], &items[sorted[p]], sort)
            invariant
                p <= sorted@.len(),
                x < items@.len(),
                rel == item_rel(items@, sort),
                forall|i: int| 0 <= i < sorted@.len() ==> #[trigger] sorted@[i] < items@.len(),
                forall|i: int| 0 <= i < p ==> !rel(x, #[trigger] sorted@[i]),
            decreases sorted@.len() - p,
        {
            p = p + 1;
        }
        proof {
            lemma_insert_by_at(sorted@, x, rel, p as int);
            assert(s@.subrange(0, k + 1).drop_last() =~= s@.subrange(0, k as int));
        }
        let ghost before = sorted@;
        sorted.insert(p, x);
        proof {
            assert(sorted@ =~= before.subrange(0, p as int) + seq![x] + before.subrange(p as int, before.len() as int));
            assert forall|i: int| 0 <= i < sorted@.len() implies #[trigger] sorted@[i] < items@.len() by {
                if i < p {
                    assert(sorted@[i] == before[i]);
                } else if i > p {
                    assert(sorted@[i] == before[i - 1]);
                }
            }
        }
        k = k + 1;
    }
    assert(s@.subrange(0, s@.len() as int) =~= s@);
    sorted
}

/// The entry a search commits to: the first row of the table as shown, the
/// entries that match (`matches`, one flag per entry) sorted by the live
/// sort. Its id, or `None` when nothing matches.
pub fn first_search_match_in_display_order(items: &[StartupItem], matches: &[bool], sort: SortState) -> (r: Option<String>)
    ensures
        ({
            let shown = stable_sorted(
                flagged_upto(matches@, common_len(items@.len(), matches@.len())),
                item_rel(items@, sort),
            );
            &&& r is None <==> shown.len() == 0
            &&& r matches Some(id) ==> id@ == items@[shown[0] as int].id@
        }),
{
    let n = if items.len() < matches.len() {
        items.len()
    } else {
        matches.len()
    };
    let visible = flagged(matches, n);
    let sorted = sort_items(items, &visible, sort);
    proof {
        lemma_stable_sorted_members(visible@, item_rel(items@, sort));
    }
    if sorted.len() == 0 {
        None
    } else {
        proof {
            assert(sorted@.contains(sorted@[0]));
            assert(visible@.contains(sorted@[0]));
        }
        Some(items[sorted[0]].id.clone())
    }
}

/// The persisted id of the Startup sort column `column`. Every Startup
/// column starts ascending.
pub fn sort_column_id(column: usize) -> (id: &'static str)
    requires
        column < 4,
    ensures
        id@ == if column == 0 {
            "name"@
        } else if column == 1 {
            "pub"@
        } else if column == 2 {
            "status"@
        } else {
            "impact"@
        },
{
    if column == 0 {
        "name"
    } else if column == 1 {
        "pub"
    } else if column == 2 {
        "status"
    } else {
        "impact"
    }
}

/// What the Startup toolbar offers for the selected entry.
#[derive(Debug, Clone, Copy, PartialEq, Eq, Structural)]
pub struct StartupCommands {
    pub enable: bool,
    pub disable: bool,
    pub properties: bool,
}

/// The toolbar for the selected entry (`None` when nothing is selected):
/// enable a disabled entry, disable an enabled one, and show properties.
pub fn startup_commands(selected: Option<&StartupItem>) -> (c: StartupCommands)
    ensures
        c.enable == (selected matches Some(s) && !s.enabled),
        c.disable == (selected matches Some(s) && s.enabled),
        c.properties == (selected is Some),
{
    match selected {
        Some(s) => StartupCommands { enable: !s.enabled, disable: s.enabled, properties: true },
        None => StartupCommands { enable: false, disable: false, properties: false },
    }
}

/// The first position of the entry with id `id`, or the number of entries.
pub open spec fn first_with_id(items: Seq<StartupItem>, id: Seq<char>) -> int
    decreases items.len(),
{
    if items.len() == 0 {
        0
    } else if items[0].id@ == id {
        0
    } else {
        1 + first_with_id(items.drop_first(), id)
    }
}

proof fn lemma_first_with_id(items: Seq<StartupItem>, id: Seq<char>, i: int)
    requires
        0 <= i <= items.len(),
        forall|j: int| 0 <= j < i ==> #[trigger] items[j].id@ != id,
        i < items.len() ==> items[i].id@ == id,
    ensures
        first_with_id(items, id) == i,
    decreases items.len(),
{
    if items.len() > 0 && i > 0 {
        let t = items.drop_first();
        assert forall|j: int| 0 <= j < i - 1 implies #[trigger] t[j].id@ != id by {
            assert(t[j] == items[j + 1]);
        }
        assert(items[0].id@ != id);
        lemma_first_with_id(t, id, i - 1);
    }
}

/// `items` with the first entry of id `id` enabled or disabled.
pub open spec fn with_enabled(items: Seq<StartupItem>, id: Seq<char>, enabled: bool) -> Seq<StartupItem> {
    let k = first_with_id(items, id);
    if k < items.len() {
        items.update(k, StartupItem { enabled, ..items[k] })
    } else {
        items
    }
}

proof fn lemma_first_with_id_bound(items: Seq<StartupItem>, id: Seq<char>)
    ensures
        0 <= first_with_id(items, id) <= items.len(),
        first_with_id(items, id) < items.len() ==> items[first_with_id(items, id)].id@ == id,
        forall|j: int| 0 <= j < first_with_id(items, id) ==> #[trigger] items[j].id@ != id,
    decreases items.len(),
{
    if items.len() > 0 && items[0].id@ != id {
        let t = items.drop_first();
        lemma_first_with_id_bound(t, id);
        assert forall|j: int| 0 <= j < first_with_id(items, id) implies #[trigger] items[j].id@ != id by {
            if j > 0 {
                assert(items[j] == t[j - 1]);
            }
        }
    }
}

/// The rollback after a failed write restores the cached list exactly:
/// flipping an entry and flipping it back leaves every entry as it was.
pub proof fn lemma_rollback_restores(items: Seq<StartupItem>, id: Seq<char>)
    requires
        first_with_id(items, id) < items.len(),
    ensures
        with_enabled(
            with_enabled(items, id, !items[first_with_id(items, id)].enabled),
            id,
            items[first_with_id(items, id)].enabled,
        ) == items,
{
    let k = first_with_id(items, id);
    let once = with_enabled(items, id, !items[k].enabled);
    lemma_first_with_id_bound(items, id);
    assert forall|j: int| 0 <= j < k implies #[trigger] once[j].id@ != id by {
        assert(once[j] == items[j]);
    }
    lemma_first_with_id(once, id, k);
    assert(with_enabled(once, id, items[k].enabled) =~= items);
}

/// Mark the entry with id `id` enabled or disabled in the cached list (the
/// optimistic flip after a toggle, or its rollback when the write failed);
/// every other entry stays as it was. Returns whether the entry was found.
pub fn set_enabled(items: &mut Vec<StartupItem>, id: &str, enabled: bool) -> (found: bool)
    ensures
        found == (first_with_id(old(items)@, id@) < old(items)@.len()),
        final(items)@ == with_enabled(old(items)@, id@, enabled),
{
    let mut k: usize = 0;
    while k < items.len() && !str_eq(items[k].id.as_str(), id)
        invariant
            k <= items@.len(),
            forall|j: int| 0 <= j < k ==> #[trigger] items@[j].id@ != id@,
        decreases items@.len() - k,
    {
        k = k + 1;
    }
    proof {
        lemma_first_with_id(items@, id@, k as int);
    }
    if k < items.len() {
        items[k].enabled = enabled;
        assert(items@ =~= with_enabled(old(items)@, id@, enabled));
        true
    } else {
        false
    }
}

/// Impact ranks go none, low, medium, high, then not measured.
pub proof fn lemma_impact_rank_order()
    ensures
        spec_impact_rank(StartupImpact::NoImpact) < spec_impact_rank(StartupImpact::Low),
        spec_impact_rank(StartupImpact::Low) < spec_impact_rank(StartupImpact::Medium),
        spec_impact_rank(StartupImpact::Medium) < spec_impact_rank(StartupImpact::High),
        spec_impact_rank(StartupImpact::High) < spec_impact_rank(StartupImpact::Unknown),
{
}

/// What each sort column of the Startup table reads: column 0 the name,
/// 1 the publisher (a missing one read as empty), 2 the enabled state
/// (disabled first), any later column the impact rank, texts without case.
/// Where the column's values differ they decide, in the sort's direction,
/// whatever the other fields hold; where they tie, the names decide in
/// ascending order.
pub proof fn lemma_item_sort_keys(a: StartupItem, b: StartupItem, sort: SortState)
    ensures
        ({
            let o = item_order(a, b, sort);
            let names = ignore_case_order(a.name@, b.name@);
            let up = sort.ascending;
            let pa = match a.publisher {
                Some(t) => t@,
                None => Seq::<char>::empty(),
            };
            let pb = match b.publisher {
                Some(t) => t@,
                None => Seq::<char>::empty(),
            };
            &&& sort.column == 0 ==> o == (if names == Ordering::Equal {
                Ordering::Equal
            } else if names == Ordering::Less {
                ahead(up)
            } else {
                behind(up)
            })
            &&& sort.column == 1 ==> o == (if ignore_case_order(pa, pb) == Ordering::Less {
                ahead(up)
            } else if ignore_case_order(pa, pb) == Ordering::Greater {
                behind(up)
            } else {
                names
            })
            &&& sort.column == 2 ==> o == (if !a.enabled && b.enabled {
                ahead(up)
            } else if a.enabled && !b.enabled {
                behind(up)
            } else {
                names
            })
            &&& sort.column >= 3 ==> o == (if spec_impact_rank(a.impact) < spec_impact_rank(b.impact) {
                ahead(up)
            } else if spec_impact_rank(b.impact) < spec_impact_rank(a.impact) {
                behind(up)
            } else {
                names
            })
        }),
{
}

} // verus!
