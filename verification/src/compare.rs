//! Orderings the tables share: case-insensitive text order and the sort
//! direction.
use std::cmp::Ordering;
use vstd::prelude::*;
use crate::text::chars_of;

verus! {

/// What `char::to_lowercase` yields for `c`: its full Unicode lower-case
/// mapping, one or more characters.
pub uninterp spec fn lowercase_of(c: char) -> Seq<char>;

/// `char::to_lowercase` of `c`, collected: the characters of its Unicode
/// lower-case mapping, as `lowercase_of` names them.
#[verifier::external_body]
fn lowercase_chars(c: char) -> (v: Vec<char>)
    ensures
        v@ == lowercase_of(c),
{
    c.to_lowercase().collect()
}

/// `s` with every character replaced by its lower-case mapping.
pub open spec fn lowered(s: Seq<char>) -> Seq<char>
    decreases s.len(),
{
    if s.len() == 0 {
        Seq::empty()
    } else {
        lowered(s.drop_last()) + lowercase_of(s.last())
    }
}

/// Lexicographic order of two character sequences by code point; a proper
/// prefix sorts first.
pub open spec fn lex_order(a: Seq<char>, b: Seq<char>) -> Ordering
    decreases a.len(),
{
    if a.len() == 0 && b.len() == 0 {
        Ordering::Equal
    } else if a.len() == 0 {
        Ordering::Less
    } else if b.len() == 0 {
        Ordering::Greater
    } else if a[0] < b[0] {
        Ordering::Less
    } else if b[0] < a[0] {
        Ordering::Greater
    } else {
        lex_order(a.drop_first(), b.drop_first())
    }
}

/// The case-insensitive order of two texts: their lower-case mappings in
/// lexicographic order.
pub open spec fn ignore_case_order(a: Seq<char>, b: Seq<char>) -> Ordering {
    lex_order(lowered(a), lowered(b))
}

/// Two sequences are lexicographically equal exactly when they are the same.
pub proof fn lemma_lex_order_equal(a: Seq<char>, b: Seq<char>)
    ensures
        (lex_order(a, b) == Ordering::Equal) == (a == b),
    decreases a.len(),
{
    if a.len() > 0 && b.len() > 0 && a[0] == b[0] {
        lemma_lex_order_equal(a.drop_first(), b.drop_first());
        if a.drop_first() == b.drop_first() {
            assert forall|i: int| 0 <= i < a.len() implies a[i] == b[i] by {
                if i > 0 {
                    assert(a[i] == a.drop_first()[i - 1]);
                    assert(b[i] == b.drop_first()[i - 1]);
                }
            }
            assert(a =~= b);
        }
        if a == b {
            assert(a.drop_first() =~= b.drop_first());
        }
    } else if a.len() == 0 && b.len() == 0 {
        assert(a =~= b);
    }
}

/// Swapping the two sides of a lexicographic comparison turns it around.
pub proof fn lemma_lex_order_antisymmetric(a: Seq<char>, b: Seq<char>)
    ensures
        lex_order(a, b) == reversed(lex_order(b, a)),
    decreases a.len(),
{
    if a.len() > 0 && b.len() > 0 && a[0] == b[0] {
        lemma_lex_order_antisymmetric(a.drop_first(), b.drop_first());
    }
}

/// Lexicographic order is transitive.
pub proof fn lemma_lex_order_transitive(a: Seq<char>, b: Seq<char>, c: Seq<char>)
    requires
        lex_order(a, b) == Ordering::Less,
        lex_order(b, c) == Ordering::Less,
    ensures
        lex_order(a, c) == Ordering::Less,
    decreases a.len(),
{
    if a.len() > 0 && b.len() > 0 && c.len() > 0 && a[0] == b[0] && b[0] == c[0] {
        lemma_lex_order_transitive(a.drop_first(), b.drop_first(), c.drop_first());
    }
}

/// A three-way order is total when it is reflexive, turns around when its
/// sides swap, and chains `Less` and `Equal` transitively.
pub open spec fn order_laws<T>(order: spec_fn(T, T) -> Ordering, a: T, b: T, c: T) -> bool {
    &&& order(a, a) == Ordering::Equal
    &&& order(a, b) == reversed(order(b, a))
    &&& (order(a, b) == Ordering::Less && order(b, c) == Ordering::Less ==> order(a, c) == Ordering::Less)
    &&& (order(a, b) == Ordering::Equal && order(b, c) == Ordering::Equal ==> order(a, c) == Ordering::Equal)
}

/// A total order, read as "sorts strictly before", is a strict weak order:
/// no two values each sort before the other, and when `x` sorts before `y`
/// any third value sorts after `x` or before `y`.
pub proof fn lemma_order_strict_weak<T>(order: spec_fn(T, T) -> Ordering, x: T, y: T, z: T)
    requires
        order_laws(order, x, y, z),
        order_laws(order, x, z, y),
        order_laws(order, z, x, y),
        order_laws(order, z, y, x),
    ensures
        order(x, y) == Ordering::Less ==> order(y, x) != Ordering::Less,
        order(x, y) == Ordering::Less ==> order(x, z) == Ordering::Less || order(z, y) == Ordering::Less,
{
}

/// Lexicographic order is a total order.
pub proof fn lemma_lex_order_total(a: Seq<char>, b: Seq<char>, c: Seq<char>)
    ensures
        order_laws(|x: Seq<char>, y: Seq<char>| lex_order(x, y), a, b, c),
{
    lemma_lex_order_equal(a, a);
    lemma_lex_order_equal(a, b);
    lemma_lex_order_equal(b, c);
    lemma_lex_order_equal(a, c);
    lemma_lex_order_antisymmetric(a, b);
    if lex_order(a, b) == Ordering::Less && lex_order(b, c) == Ordering::Less {
        lemma_lex_order_transitive(a, b, c);
    }
}

/// Case-insensitive text order is a total order on the texts' lower-case
/// mappings.
pub proof fn lemma_ignore_case_order_total(a: Seq<char>, b: Seq<char>, c: Seq<char>)
    ensures
        order_laws(|x: Seq<char>, y: Seq<char>| ignore_case_order(x, y), a, b, c),
{
    lemma_lex_order_total(lowered(a), lowered(b), lowered(c));
}

/// The order of optional texts is a total order: present texts without
/// case, then the missing ones.
pub proof fn lemma_option_text_order_total(a: Option<Seq<char>>, b: Option<Seq<char>>, c: Option<Seq<char>>)
    ensures
        option_text_order(a, a) == Ordering::Equal,
        option_text_order(a, b) == reversed(option_text_order(b, a)),
        option_text_order(a, b) == Ordering::Less && option_text_order(b, c) == Ordering::Less
            ==> option_text_order(a, c) == Ordering::Less,
        option_text_order(a, b) == Ordering::Equal && option_text_order(b, c) == Ordering::Equal
            ==> option_text_order(a, c) == Ordering::Equal,
{
    let x = match a { Some(t) => t, None => Seq::empty() };
    let y = match b { Some(t) => t, None => Seq::empty() };
    let z = match c { Some(t) => t, None => Seq::empty() };
    lemma_ignore_case_order_total(x, y, z);
    lemma_ignore_case_order_total(x, x, x);
}

/// The lower-case mapping of `s`, character by character.
pub(crate) fn lower_all(s: &str) -> (v: Vec<char>)
    ensures
        v@ == lowered(s@),
{
    let cs = chars_of(s);
    let mut v: Vec<char> = Vec::new();
    let mut i: usize = 0;
    while i < cs.len()
        invariant
            i <= cs@.len(),
            cs@ == s@,
            v@ == lowered(cs@.take(i as int)),
        decreases cs@.len() - i,
    {
        let low = lowercase_chars(cs[i]);
        let mut k: usize = 0;
        let ghost before = v@;
        while k < low.len()
            invariant
                k <= low@.len(),
                v@ == before + low@.take(k as int),
            decreases low@.len() - k,
        {
            v.push(low[k]);
            k = k + 1;
            assert(v@ =~= before + low@.take(k as int));
        }
        assert(cs@.take(i + 1).drop_last() =~= cs@.take(i as int));
        assert(low@.take(low@.len() as int) =~= low@);
        i = i + 1;
    }
    assert(cs@.take(cs@.len() as int) =~= cs@);
    v
}

/// The characters of `s` from position `i` on.
spec fn suffix(s: Seq<char>, i: usize) -> Seq<char> {
    s.skip(i as int)
}

proof fn lemma_suffix_step(s: Seq<char>, i: usize)
    requires
        i < s.len(),
        s.len() <= usize::MAX,
    ensures
        suffix(s, i).len() > 0,
        suffix(s, i)[0] == s[i as int],
        suffix(s, i).drop_first() =~= suffix(s, (i + 1) as usize),
{
}

proof fn lemma_suffix_end(s: Seq<char>, i: usize)
    requires
        i == s.len(),
    ensures
        suffix(s, i).len() == 0,
{
}

proof fn lemma_suffix_start(s: Seq<char>)
    ensures
        suffix(s, 0) =~= s,
{
}

/// Lexicographic comparison of two character vectors.
pub(crate) fn lex_compare(a: &Vec<char>, b: &Vec<char>) -> (o: Ordering)
    ensures
        o == lex_order(a@, b@),
{
    let mut i: usize = 0;
    proof {
        lemma_suffix_start(a@);
        lemma_suffix_start(b@);
    }
    loop
        invariant
            i <= a@.len(),
            i <= b@.len(),
            lex_order(a@, b@) == lex_order(suffix(a@, i), suffix(b@, i)),
        decreases a@.len() - i,
    {
        if i == a.len() && i == b.len() {
            proof {
                lemma_suffix_end(a@, i);
                lemma_suffix_end(b@, i);
            }
            return Ordering::Equal;
        }
        if i == a.len() {
            proof {
                lemma_suffix_end(a@, i);
                lemma_suffix_step(b@, i);
            }
            return Ordering::Less;
        }
        if i == b.len() {
            proof {
                lemma_suffix_step(a@, i);
                lemma_suffix_end(b@, i);
            }
            return Ordering::Greater;
        }
        let x = a[i];
        let y = b[i];
        proof {
            lemma_suffix_step(a@, i);
            lemma_suffix_step(b@, i);
        }
        if x < y {
            return Ordering::Less;
        }
        if y < x {
            return Ordering::Greater;
        }
        i = i + 1;
    }
}

/// Case-insensitive text order: both texts are compared by their full
/// Unicode lower-case mappings.
pub fn cmp_ignore_case(a: &str, b: &str) -> (o: Ordering)
    ensures
        o == ignore_case_order(a@, b@),
{
    let la = lower_all(a);
    let lb = lower_all(b);
    lex_compare(&la, &lb)
}

/// Order of optional texts: present ones case-insensitively, missing ones
/// last.
pub open spec fn option_text_order(a: Option<Seq<char>>, b: Option<Seq<char>>) -> Ordering {
    match (a, b) {
        (Some(x), Some(y)) => ignore_case_order(x, y),
        (Some(_), None) => Ordering::Less,
        (None, Some(_)) => Ordering::Greater,
        (None, None) => Ordering::Equal,
    }
}

/// Compare two optional texts; a missing text sorts after any present one.
pub fn cmp_option_str(a: Option<&str>, b: Option<&str>) -> (o: Ordering)
    ensures
        o == option_text_order(
            match a {
                Some(x) => Some(x@),
                None => None,
            },
            match b {
                Some(y) => Some(y@),
                None => None,
            },
        ),
{
    match (a, b) {
        (Some(x), Some(y)) => cmp_ignore_case(x, y),
        (Some(_), None) => Ordering::Less,
        (None, Some(_)) => Ordering::Greater,
        (None, None) => Ordering::Equal,
    }
}

/// What a comparison returns for the entry that comes first in the sort's
/// direction.
pub open spec fn ahead(ascending: bool) -> Ordering {
    if ascending {
        Ordering::Less
    } else {
        Ordering::Greater
    }
}

/// What a comparison returns for the entry that comes second in the sort's
/// direction.
pub open spec fn behind(ascending: bool) -> Ordering {
    if ascending {
        Ordering::Greater
    } else {
        Ordering::Less
    }
}

/// `o` turned around.
pub open spec fn reversed(o: Ordering) -> Ordering {
    match o {
        Ordering::Less => Ordering::Greater,
        Ordering::Equal => Ordering::Equal,
        Ordering::Greater => Ordering::Less,
    }
}

/// An order in the requested direction: as is when ascending, reversed
/// otherwise.
pub fn directed(order: Ordering, ascending: bool) -> (o: Ordering)
    ensures
        o == if ascending {
            order
        } else {
            reversed(order)
        },
{
    if ascending {
        order
    } else {
        match order {
            Ordering::Less => Ordering::Greater,
            Ordering::Equal => Ordering::Equal,
            Ordering::Greater => Ordering::Less,
        }
    }
}

/// `c` with an ASCII capital turned into its small letter.
pub open spec fn ascii_lower(c: char) -> char {
    if 'A' <= c && c <= 'Z' {
        ((c as u32) + 32) as char
    } else {
        c
    }
}

/// `s` with every ASCII capital turned into its small letter.
pub open spec fn ascii_lowered(s: Seq<char>) -> Seq<char> {
    Seq::new(s.len(), |i: int| ascii_lower(s[i]))
}

fn lower_ascii_char(c: char) -> (l: char)
    ensures
        l == ascii_lower(c),
{
    if 'A' <= c && c <= 'Z' {
        let n: u8 = (c as u8) + 32;
        n as char
    } else {
        c
    }
}

fn lower_ascii_all(s: &str) -> (v: Vec<char>)
    ensures
        v@ == ascii_lowered(s@),
{
    let cs = chars_of(s);
    let mut v: Vec<char> = Vec::new();
    let mut i: usize = 0;
    while i < cs.len()
        invariant
            i <= cs@.len(),
            cs@ == s@,
            v@.len() == i,
            forall|j: int| 0 <= j < i ==> v@[j] == ascii_lower(#[trigger] cs@[j]),
        decreases cs@.len() - i,
    {
        v.push(lower_ascii_char(cs[i]));
        i = i + 1;
    }
    assert(v@ =~= ascii_lowered(s@));
    v
}

/// The order of two texts once ASCII capitals are made small: code point by
/// code point, a proper prefix first.
pub open spec fn ascii_lower_order(a: Seq<char>, b: Seq<char>) -> Ordering {
    lex_order(ascii_lowered(a), ascii_lowered(b))
}

/// Compare two texts with ASCII capitals made small.
pub fn cmp_ascii_lower(a: &str, b: &str) -> (o: Ordering)
    ensures
        o == ascii_lower_order(a@, b@),
{
    let la = lower_ascii_all(a);
    let lb = lower_ascii_all(b);
    lex_compare(&la, &lb)
}

} // verus!
