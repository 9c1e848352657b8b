//! The window-state file: a `position=x,y` line among others. This module
//! finds the line and splits its two coordinates; reading them as numbers
//! is left to the caller.
use vstd::prelude::*;
use crate::text::{chars_of, lemma_prefix_before, prefix_before, string_of, trim_bounds, trimmed};

verus! {

/// Whether `line` begins with `position=`.
pub open spec fn starts_with_key(line: Seq<char>) -> bool {
    &&& line.len() >= 9
    &&& line[0] == 'p' && line[1] == 'o' && line[2] == 's' && line[3] == 'i'
    &&& line[4] == 't' && line[5] == 'i' && line[6] == 'o' && line[7] == 'n'
    &&& line[8] == '='
}

/// The text after `position=` on the first line of `s` (lines end at a
/// line feed) whose trimmed form starts with that key.
pub open spec fn position_value(s: Seq<char>) -> Option<Seq<char>>
    decreases s.len(),
{
    let raw = prefix_before(s, '\n');
    let line = trimmed(raw);
    if starts_with_key(line) {
        Some(line.subrange(9, line.len() as int))
    } else if raw.len() < s.len() {
        position_value(s.subrange(raw.len() + 1int, s.len() as int))
    } else {
        None
    }
}

/// The two trimmed coordinate texts of the position line, split at its
/// first comma.
pub open spec fn position_texts(s: Seq<char>) -> Option<(Seq<char>, Seq<char>)> {
    match position_value(s) {
        Some(v) => {
            let x = prefix_before(v, ',');
            if x.len() < v.len() {
                Some((trimmed(x), trimmed(v.subrange(x.len() + 1int, v.len() as int))))
            } else {
                None
            }
        },
        None => None,
    }
}

proof fn lemma_prefix_len(s: Seq<char>, stop: char)
    ensures
        prefix_before(s, stop).len() <= s.len(),
        prefix_before(s, stop).len() < s.len() ==> s[prefix_before(s, stop).len() as int] == stop,
        forall|j: int| 0 <= j < prefix_before(s, stop).len() ==> s[j] != stop,
        prefix_before(s, stop) == s.take(prefix_before(s, stop).len() as int),
    decreases s.len(),
{
    if s.len() > 0 && s[0] != stop {
        let t = s.drop_first();
        lemma_prefix_len(t, stop);
        let p = prefix_before(s, stop);
        assert forall|j: int| 0 <= j < p.len() implies s[j] != stop by {
            if j > 0 {
                assert(s[j] == t[j - 1]);
            }
        }
        assert(p =~= s.take(p.len() as int));
    } else {
        assert(prefix_before(s, stop) =~= s.take(0));
    }
}

/// The position of the first `stop` in `v` at or after `from`, or its
/// length.
fn find_from(v: &Vec<char>, from: usize, stop: char) -> (k: usize)
    requires
        from <= v@.len(),
    ensures
        from <= k <= v@.len(),
        k < v@.len() ==> v@[k as int] == stop,
        forall|j: int| from <= j < k ==> v@[j] != stop,
{
    let mut k: usize = from;
    while k < v.len() && v[k] != stop
        invariant
            from <= k <= v@.len(),
            forall|j: int| from <= j < k ==> v@[j] != stop,
        decreases v@.len() - k,
    {
        k = k + 1;
    }
    k
}

/// The characters of `v` from `lo` to `hi`.
fn slice_of(v: &Vec<char>, lo: usize, hi: usize) -> (r: Vec<char>)
    requires
        lo <= hi <= v@.len(),
    ensures
        r@ == v@.subrange(lo as int, hi as int),
{
    let mut r: Vec<char> = Vec::new();
    let mut i: usize = lo;
    while i < hi
        invariant
            lo <= i <= hi <= v@.len(),
            r@ == v@.subrange(lo as int, i as int),
        decreases hi - i,
    {
        r.push(v[i]);
        i = i + 1;
        assert(r@ =~= v@.subrange(lo as int, i as int));
    }
    r
}

/// `v` trimmed.
fn trim_vec(v: &Vec<char>) -> (r: Vec<char>)
    ensures
        r@ == trimmed(v@),
{
    let (lo, hi) = trim_bounds(v);
    slice_of(v, lo, hi)
}

fn is_key(line: &Vec<char>) -> (b: bool)
    ensures
        b == starts_with_key(line@),
{
    line.len() >= 9 && line[0] == 'p' && line[1] == 'o' && line[2] == 's' && line[3] == 'i' && line[4] == 't'
        && line[5] == 'i' && line[6] == 'o' && line[7] == 'n' && line[8] == '='
}

/// The text after `position=` on the first line that carries it.
fn value_of(cs: &Vec<char>) -> (v: Option<Vec<char>>)
    ensures
        match v {
            Some(x) => position_value(cs@) == Some(x@),
            None => position_value(cs@) is None,
        },
{
    let mut start: usize = 0;
    assert(cs@.subrange(0, cs@.len() as int) =~= cs@);
    while start <= cs.len()
        invariant
            start <= cs@.len() + 1,
            start <= cs@.len() ==> position_value(cs@) == position_value(cs@.subrange(start as int, cs@.len() as int)),
            start > cs@.len() ==> position_value(cs@) is None,
        decreases cs@.len() + 1 - start,
    {
        let end = find_from(cs, start, '\n');
        let ghost rest = cs@.subrange(start as int, cs@.len() as int);
        proof {
            lemma_prefix_before(rest, '\n', end - start);
            assert(rest.take(end - start) =~= cs@.subrange(start as int, end as int));
        }
        let raw = slice_of(cs, start, end);
        let line = trim_vec(&raw);
        if is_key(&line) {
            let value = slice_of(&line, 9, line.len());
            return Some(value);
        }
        if end == cs.len() {
            return None;
        }
        proof {
            assert(rest.subrange(end - start + 1, rest.len() as int) =~= cs@.subrange(end + 1, cs@.len() as int));
        }
        start = end + 1;
    }
    None
}

/// The two coordinate texts of the window-state file `text`: the first
/// line that starts (after trimming) with `position=`, its value split at
/// the first comma, each side trimmed. `None` when there is no such line or
/// its value holds no comma.
pub fn position_fields(text: &str) -> (r: Option<(String, String)>)
    ensures
        match r {
            Some((x, y)) => position_texts(text@) == Some((x@, y@)),
            None => position_texts(text@) is None,
        },
{
    let cs = chars_of(text);
    match value_of(&cs) {
        Some(v) => {
            let c = find_from(&v, 0, ',');
            proof {
                lemma_prefix_before(v@, ',', c as int);
                lemma_prefix_len(v@, ',');
            }
            if c < v.len() {
                let x = slice_of(&v, 0, c);
                let y = slice_of(&v, c + 1, v.len());
                proof {
                    assert(v@.take(c as int) =~= v@.subrange(0, c as int));
                }
                let xt = trim_vec(&x);
                let yt = trim_vec(&y);
                Some((string_of(xt), string_of(yt)))
            } else {
                None
            }
        },
        None => None,
    }
}

} // verus!
