//! The Performance page's history window and device list.
use vstd::prelude::*;
use crate::text::str_eq;

verus! {

/// One sample of the history ring, as the graph window reads it: when it
/// was taken, in milliseconds.
#[derive(Debug, Clone, Copy, Default, PartialEq, Eq, Structural)]
pub struct HistoryPoint {
    pub t_ms: u64,
}

/// Samples in time order (equal times allowed).
pub open spec fn time_ordered(h: Seq<HistoryPoint>) -> bool {
    forall|i: int, j: int| 0 <= i <= j < h.len() ==> h[i].t_ms <= h[j].t_ms
}

/// The oldest timestamp a window of `seconds` keeps, counted back from the
/// newest sample and saturating at zero.
pub open spec fn window_cutoff(h: Seq<HistoryPoint>, seconds: u32) -> int {
    let last = h.last().t_ms as int;
    let span = seconds as int * 1000;
    if last >= span {
        last - span
    } else {
        0
    }
}

/// Time-based visible slice: every point whose timestamp lies inside the
/// configured window, counted back from the newest point. It works the same
/// at any update speed and with irregular gaps. The slice is always a suffix
/// of the history; for a time-ordered history it holds exactly the points at
/// or after the cutoff.
pub fn visible_slice(history: &[HistoryPoint], seconds: u32) -> (win: &[HistoryPoint])
    ensures
        win@.len() <= history@.len(),
        win@ == history@.subrange(history@.len() - win@.len(), history@.len() as int),
        history@.len() == 0 ==> win@.len() == 0,
        time_ordered(history@) && history@.len() > 0 ==> {
            &&& forall|i: int|
                0 <= i < history@.len() - win@.len() ==> (#[trigger] history@[i]).t_ms < window_cutoff(
                    history@,
                    seconds,
                )
            &&& forall|i: int|
                history@.len() - win@.len() <= i < history@.len() ==> (#[trigger] history@[i]).t_ms
                    >= window_cutoff(history@, seconds)
        },
{
    let n = history.len();
    if n == 0 {
        return vstd::slice::slice_subrange(history, 0, 0);
    }
    let last = history[n - 1].t_ms;
    let span: u64 = seconds as u64 * 1000;
    let cutoff: u64 = if last >= span {
        last - span
    } else {
        0
    };
    let mut lo: usize = 0;
    let mut hi: usize = n;
    while lo < hi
        invariant
            n == history@.len(),
            n > 0,
            lo <= hi <= n,
            cutoff == window_cutoff(history@, seconds),
            time_ordered(history@) ==> forall|i: int| 0 <= i < lo ==> (#[trigger] history@[i]).t_ms < cutoff,
            time_ordered(history@) ==> forall|i: int| hi <= i < n ==> (#[trigger] history@[i]).t_ms >= cutoff,
        decreases hi - lo,
    {
        let mid = lo + (hi - lo) / 2;
        if history[mid].t_ms < cutoff {
            proof {
                if time_ordered(history@) {
                    assert forall|i: int| 0 <= i < mid + 1 implies (#[trigger] history@[i]).t_ms < cutoff by {
                        assert(history@[i].t_ms <= history@[mid as int].t_ms);
                    }
                }
            }
            lo = mid + 1;
        } else {
            proof {
                if time_ordered(history@) {
                    assert forall|i: int| mid <= i < n implies (#[trigger] history@[i]).t_ms >= cutoff by {
                        assert(history@[mid as int].t_ms <= history@[i].t_ms);
                    }
                }
            }
            hi = mid;
        }
    }
    vstd::slice::slice_subrange(history, lo, n)
}

/// The timestamps of a window, in order.
pub fn timestamps(win: &[HistoryPoint]) -> (ts: Vec<u64>)
    ensures
        ts@.len() == win@.len(),
        forall|i: int| 0 <= i < win@.len() ==> ts@[i] == (#[trigger] win@[i]).t_ms,
{
    let mut ts: Vec<u64> = Vec::new();
    let mut i: usize = 0;
    while i < win.len()
        invariant
            i <= win@.len(),
            ts@.len() == i,
            forall|j: int| 0 <= j < i ==> ts@[j] == (#[trigger] win@[j]).t_ms,
        decreases win@.len() - i,
    {
        ts.push(win[i].t_ms);
        i = i + 1;
    }
    ts
}

/// The kind of device a Performance card shows.
#[derive(Debug, Clone, Copy, PartialEq, Eq, Structural)]
pub enum ResourceKind {
    Cpu,
    Memory,
    Disk,
    Network,
    Gpu,
}

/// One device card of the Performance page.
#[derive(Clone)]
pub struct ResourceEntry {
    pub kind: ResourceKind,
    /// Stable key of the device ("cpu", "mem", a mount point, an adapter
    /// name, a GPU index); selection follows it across reorderings.
    pub key: String,
    pub title: String,
    pub subtitle: String,
    pub value_line: String,
}

/// The key that stays selected: the current one while a card still has it,
/// else the first card's key, else "cpu".
pub open spec fn spec_selected_key(keys: Seq<Seq<char>>, current: Seq<char>) -> Seq<char> {
    if keys.contains(current) {
        current
    } else if keys.len() > 0 {
        keys[0]
    } else {
        "cpu"@
    }
}

/// The keys of the cards, in order.
pub open spec fn entry_keys(entries: Seq<ResourceEntry>) -> Seq<Seq<char>> {
    entries.map_values(|e: ResourceEntry| e.key@)
}

/// Selection persists by the stable resource key, so reordering adapters or
/// devices cannot silently switch the selected page; a key whose device is
/// gone falls back to the first card.
pub fn selected_key(entries: &[ResourceEntry], current: &str) -> (key: String)
    ensures
        key@ == spec_selected_key(entry_keys(entries@), current@),
{
    let mut i: usize = 0;
    while i < entries.len()
        invariant
            i <= entries@.len(),
            forall|j: int| 0 <= j < i ==> (#[trigger] entries@[j]).key@ != current@,
        decreases entries@.len() - i,
    {
        if str_eq(entries[i].key.as_str(), current) {
            proof {
                assert(entry_keys(entries@)[i as int] == current@);
            }
            return current.to_owned();
        }
        i = i + 1;
    }
    assert(!entry_keys(entries@).contains(current@)) by {
        if entry_keys(entries@).contains(current@) {
            let j = choose|j: int| 0 <= j < entry_keys(entries@).len() && entry_keys(entries@)[j] == current@;
            assert(entries@[j].key@ == current@);
        }
    }
    if entries.len() > 0 {
        entries[0].key.clone()
    } else {
        proof {
            reveal_strlit("cpu");
        }
        "cpu".to_owned()
    }
}

/// Reordering the device cards never switches the selected page: while the
/// selected device still has a card, any order of the same cards keeps it
/// selected.
pub proof fn lemma_selection_survives_reordering(keys: Seq<Seq<char>>, reordered: Seq<Seq<char>>, current: Seq<char>)
    requires
        keys.to_multiset() == reordered.to_multiset(),
        keys.contains(current),
    ensures
        spec_selected_key(reordered, current) == current,
        spec_selected_key(keys, current) == current,
{
    vstd::seq_lib::to_multiset_contains(keys, current);
    vstd::seq_lib::to_multiset_contains(reordered, current);
}

/// The span a graph window shows, as its caption names it.
#[derive(Debug, Clone, Copy, PartialEq, Eq, Structural)]
pub enum WindowSpan {
    /// A window under a minute, in seconds.
    Seconds(u32),
    /// A longer window, in whole minutes (rounded down).
    Minutes(u32),
}

/// The caption span of a graph window of `seconds`: seconds below one
/// minute, whole minutes from there on.
pub fn window_span(seconds: u32) -> (w: WindowSpan)
    ensures
        w == if seconds < 60 {
            WindowSpan::Seconds(seconds)
        } else {
            WindowSpan::Minutes(seconds / 60)
        },
{
    if seconds < 60 {
        WindowSpan::Seconds(seconds)
    } else {
        WindowSpan::Minutes(seconds / 60)
    }
}

/// The title and subtitle of a network adapter's card.
#[derive(Debug, Clone)]
pub struct NetworkCard {
    pub title: String,
    pub subtitle: String,
}

/// The card texts of an adapter named `name` of kind `kind` with model
/// `desc`: loopback adapters get no card; the title is the kind (the name
/// when the kind is unknown); the subtitle is the model when known, else
/// the name (nothing when the kind is unknown too, as the title already
/// shows the name).
pub open spec fn network_card_texts(name: Seq<char>, kind: Seq<char>, desc: Seq<char>) -> Option<(Seq<char>, Seq<char>)> {
    if kind == "Loopback"@ {
        None
    } else {
        Some(
            (
                if kind.len() == 0 {
                    name
                } else {
                    kind
                },
                if desc.len() > 0 {
                    desc
                } else if kind.len() == 0 {
                    Seq::empty()
                } else {
                    name
                },
            ),
        )
    }
}

/// The card of an adapter, or `None` for a loopback adapter.
pub fn network_card(name: &str, kind: &str, desc: &str) -> (c: Option<NetworkCard>)
    ensures
        match c {
            Some(card) => network_card_texts(name@, kind@, desc@) == Some((card.title@, card.subtitle@)),
            None => network_card_texts(name@, kind@, desc@) is None,
        },
{
    if str_eq(kind, "Loopback") {
        return None;
    }
    let title = if kind.unicode_len() == 0 {
        name.to_owned()
    } else {
        kind.to_owned()
    };
    let subtitle = if desc.unicode_len() > 0 {
        desc.to_owned()
    } else if kind.unicode_len() == 0 {
        String::new()
    } else {
        name.to_owned()
    };
    Some(NetworkCard { title, subtitle })
}

/// The subtitle of a disk's card: its media label, or its mount point when
/// the media is unknown.
pub fn disk_subtitle(media_label: &str, mount: &str) -> (s: String)
    ensures
        s@ == if media_label@.len() == 0 {
            mount@
        } else {
            media_label@
        },
{
    if media_label.unicode_len() == 0 {
        mount.to_owned()
    } else {
        media_label.to_owned()
    }
}

} // verus!
