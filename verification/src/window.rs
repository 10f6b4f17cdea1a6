//! Reading is local: where a value ends, and what a container holds, depends
//! on the bytes of that value alone. So a value that is copied to another
//! place of another text reads there as it read here.

use crate::json::{
    closer, container, digits_end, entries, entry_head, exponent_end, fraction_end, is_digit,
    is_ws, lemma_digits_end_bounds, lemma_ws_end_bounds, number_end, text_end, value_end,
    word_end, word_false, word_null, word_true, ws_end, Entry, Piece, COLON, COMMA, DOT, MINUS,
    OPEN_BRACE, OPEN_BRACKET, QUOTE,
};
use crate::keys::{
    all_digits, bounded_decimal, decimal, first_hit, id_at, id_list, lemma_text_end_after, lookup,
    names, spelled,
};
use vstd::prelude::*;

verus! {

/// `t` holds from `lo - d` on the bytes that `s` holds from `lo` up to `hi`.
pub open spec fn same(s: Seq<u8>, t: Seq<u8>, d: int, lo: int, hi: int) -> bool {
    &&& 0 <= lo - d
    &&& 0 <= lo
    &&& hi <= s.len()
    &&& hi - d <= t.len()
    &&& forall|k: int| lo <= k < hi ==> #[trigger] s[k] == t[k - d]
}

/// Nothing at `p` would make a number go on: the text ends there, or holds
/// there no digit, dot or exponent letter.
pub open spec fn plain_at(t: Seq<u8>, p: int) -> bool {
    p == t.len() || (0 <= p < t.len() && !is_digit(t[p]) && t[p] != DOT && t[p] != 0x65 && t[p]
        != 0x45)
}

/// The piece `p`, `d` bytes further to the front.
pub open spec fn moved(p: Piece, d: int) -> Piece {
    Piece { start: p.start - d, end: p.end - d }
}

/// The entries `es`, each `d` bytes further to the front.
pub open spec fn shifted(es: Seq<Entry>, d: int) -> Seq<Entry> {
    es.map_values(|e: Entry| Entry { key: moved(e.key, d), value: moved(e.value, d) })
}

/// Whitespace that is copied ends in the copy where it ended.
pub proof fn lemma_ws_same(s: Seq<u8>, t: Seq<u8>, d: int, i: int)
    requires
        0 <= i <= s.len(),
        same(s, t, d, i, ws_end(s, i)),
        ws_end(s, i) - d == t.len() || !is_ws(t[ws_end(s, i) - d]),
    ensures
        ws_end(t, i - d) == ws_end(s, i) - d,
    decreases s.len() - i,
{
    lemma_ws_end_bounds(s, i);
    if i < s.len() && is_ws(s[i]) {
        lemma_ws_end_bounds(s, i + 1);
        assert(s[i] == t[i - d]);
        lemma_ws_same(s, t, d, i + 1);
    }
}

/// A run of digits that is copied ends in the copy where it ended.
pub proof fn lemma_digits_same(s: Seq<u8>, t: Seq<u8>, d: int, i: int)
    requires
        0 <= i <= s.len(),
        same(s, t, d, i, digits_end(s, i)),
        digits_end(s, i) - d == t.len() || !is_digit(t[digits_end(s, i) - d]),
    ensures
        digits_end(t, i - d) == digits_end(s, i) - d,
    decreases s.len() - i,
{
    lemma_digits_end_bounds(s, i);
    if i < s.len() && is_digit(s[i]) {
        lemma_digits_end_bounds(s, i + 1);
        assert(s[i] == t[i - d]);
        lemma_digits_same(s, t, d, i + 1);
    }
}

/// A string that is copied ends in the copy where it ended.
pub proof fn lemma_text_same(s: Seq<u8>, t: Seq<u8>, d: int, i: int, e: int)
    requires
        0 <= i,
        text_end(s, i) == Some(e),
        same(s, t, d, i, e),
    ensures
        text_end(t, i - d) == Some(e - d),
    decreases s.len() - i,
{
    lemma_text_end_after(s, i);
    assert(s[i] == t[i - d]);
    if s[i] != QUOTE {
        if s[i] == 0x5c {
            lemma_text_end_after(s, i + 2);
            lemma_text_end_after(s, i + 6);
            assert(s[i + 1] == t[i + 1 - d]);
            if is_short_escape_at(s, i) {
                lemma_text_same(s, t, d, i + 2, e);
            } else {
                assert(s[i + 2] == t[i + 2 - d]);
                assert(s[i + 3] == t[i + 3 - d]);
                assert(s[i + 4] == t[i + 4 - d]);
                assert(s[i + 5] == t[i + 5 - d]);
                lemma_text_same(s, t, d, i + 6, e);
            }
        } else {
            lemma_text_end_after(s, i + 1);
            lemma_text_same(s, t, d, i + 1, e);
        }
    }
}

/// Whether the backslash at `i` starts a short escape.
pub open spec fn is_short_escape_at(s: Seq<u8>, i: int) -> bool {
    i + 1 < s.len() && crate::json::is_short_escape(s[i + 1])
}

/// A number ends after its start, inside the text.
pub proof fn lemma_number_end_after(s: Seq<u8>, i: int)
    requires
        0 <= i,
    ensures
        number_end(s, i) matches Some(e) ==> i < e <= s.len(),
{
    if i < s.len() {
        let a: int = if s[i] == MINUS {
            i + 1
        } else {
            i
        };
        if a < s.len() && is_digit(s[a]) {
            lemma_digits_end_bounds(s, a);
            let b: int = if s[a] == 0x30 {
                a + 1
            } else {
                digits_end(s, a)
            };
            lemma_digits_end_bounds(s, a + 1);
            if b < s.len() {
                lemma_digits_end_bounds(s, b + 1);
            }
            match fraction_end(s, b) {
                None => {},
                Some(c) => {
                    if c < s.len() {
                        lemma_digits_end_bounds(s, c + 1);
                        if c + 1 < s.len() {
                            lemma_digits_end_bounds(s, c + 2);
                        }
                    }
                },
            }
        }
    }
}

/// A number that is copied ends in the copy where it ended, if nothing
/// behind the copy makes it go on.
#[verifier::rlimit(40)]
pub proof fn lemma_number_same(s: Seq<u8>, t: Seq<u8>, d: int, i: int, e: int)
    requires
        0 <= i,
        number_end(s, i) == Some(e),
        same(s, t, d, i, e),
        plain_at(t, e - d),
    ensures
        number_end(t, i - d) == Some(e - d),
{
    lemma_number_end_after(s, i);
    assert(s[i] == t[i - d]);
    let a: int = if s[i] == MINUS {
        i + 1
    } else {
        i
    };
    lemma_digits_end_bounds(s, a + 1);
    lemma_digits_end_bounds(s, a);
    let b: int = if s[a] == 0x30 {
        a + 1
    } else {
        digits_end(s, a)
    };
    assert(a < e);
    assert(s[a] == t[a - d]);
    let c: int = fraction_end(s, b)->0;
    // the integer part
    if b < s.len() {
        lemma_digits_end_bounds(s, b + 1);
    }
    assert(b <= c <= e) by {
        if c < s.len() {
            lemma_digits_end_bounds(s, c + 1);
            if c + 1 < s.len() {
                lemma_digits_end_bounds(s, c + 2);
            }
        }
    }
    if s[a] != 0x30 {
        if b < e {
            assert(s[b] == t[b - d]);
        }
        lemma_digits_same(s, t, d, a);
    }
    // the fraction
    if b < e {
        assert(s[b] == t[b - d]);
    }
    if b < s.len() && s[b] == DOT {
        assert(b < e);
        if c < e {
            assert(s[c] == t[c - d]);
        }
        lemma_digits_same(s, t, d, b + 1);
    }
    assert(fraction_end(t, b - d) == Some(c - d));
    // the exponent
    if c < e {
        assert(s[c] == t[c - d]);
        assert(s[c] == 0x65 || s[c] == 0x45);
        assert(c + 1 < e) by {
            lemma_digits_end_bounds(s, c + 1);
            if c + 1 < s.len() {
                lemma_digits_end_bounds(s, c + 2);
            }
        }
        assert(s[c + 1] == t[c + 1 - d]);
        let f: int = if s[c + 1] == 0x2b || s[c + 1] == MINUS {
            c + 2
        } else {
            c + 1
        };
        lemma_digits_end_bounds(s, f);
        lemma_digits_same(s, t, d, f);
    }
}

/// A bare word that is copied stands in the copy.
pub proof fn lemma_word_same(s: Seq<u8>, t: Seq<u8>, d: int, i: int, e: int, word: Seq<u8>)
    requires
        0 <= i,
        word_end(s, i, word) == Some(e),
        same(s, t, d, i, e),
    ensures
        word_end(t, i - d, word) == Some(e - d),
{
    assert forall|k: int| 0 <= k < word.len() implies t.subrange(i - d, i - d + word.len())[k]
        == word[k] by {
        assert(s.subrange(i, i + word.len())[k] == s[i + k]);
        assert(s[i + k] == t[i + k - d]);
    }
    assert(t.subrange(i - d, i - d + word.len()) =~= word);
}

/// Where what was read ends.
pub open spec fn end_of(r: Option<(Seq<Entry>, int)>) -> int {
    match r {
        Some(c) => c.1,
        None => 0,
    }
}

/// The entries that were read.
pub open spec fn items_of(r: Option<(Seq<Entry>, int)>) -> Seq<Entry> {
    match r {
        Some(c) => c.0,
        None => Seq::empty(),
    }
}

/// The name that was read.
pub open spec fn key_of(r: Option<(Piece, int)>) -> Piece {
    match r {
        Some(h) => h.0,
        None => Piece { start: 0, end: 0 },
    }
}

/// Where the value starts behind the name that was read.
pub open spec fn value_start(r: Option<(Piece, int)>) -> int {
    match r {
        Some(h) => h.1,
        None => 0,
    }
}

/// The pieces of an entry lie in order between `lo` and `hi`.
pub open spec fn within(e: Entry, lo: int, hi: int) -> bool {
    lo <= e.key.start <= e.key.end <= e.value.start < e.value.end <= hi
}

/// Each entry's value is a value of the text that nests at most `depth` deep.
pub open spec fn all_values(s: Seq<u8>, es: Seq<Entry>, depth: nat) -> bool {
    forall|k: int|
        0 <= k < es.len() ==> value_end(s, (#[trigger] es[k]).value.start, depth) == Some(
            es[k].value.end,
        )
}

/// A value ends after its start, inside the text.
pub proof fn lemma_value_end_after(s: Seq<u8>, i: int, depth: nat)
    ensures
        value_end(s, i, depth) matches Some(e) ==> 0 <= i < e <= s.len(),
    decreases depth, 0int, s.len() - i, 0int,
{
    if 0 <= i < s.len() {
        if s[i] == QUOTE {
            lemma_text_end_after(s, i + 1);
        } else if s[i] == OPEN_BRACE || s[i] == OPEN_BRACKET {
            if depth > 0 {
                lemma_container_end_after(s, i, (depth - 1) as nat);
            }
        } else if s[i] == 0x74 || s[i] == 0x66 || s[i] == 0x6e {
        } else {
            lemma_number_end_after(s, i);
        }
    }
}

/// A container ends after its start, inside the text, and its entries lie
/// between its two ends.
pub proof fn lemma_container_end_after(s: Seq<u8>, i: int, depth: nat)
    ensures
        container(s, i, depth) matches Some(c) ==> {
            &&& 0 <= i < c.1 <= s.len()
            &&& s[c.1 - 1] == closer(s[i] == OPEN_BRACE)
            &&& forall|k: int| 0 <= k < c.0.len() ==> within(#[trigger] c.0[k], i + 1, c.1 - 1)
            &&& all_values(s, c.0, depth)
        },
    decreases depth, 1int, 0int, 0int,
{
    if 0 <= i < s.len() && (s[i] == OPEN_BRACE || s[i] == OPEN_BRACKET) {
        lemma_ws_end_bounds(s, i + 1);
        let keyed: bool = s[i] == OPEN_BRACE;
        let j: int = ws_end(s, i + 1);
        if 0 <= j < s.len() && s[j] == closer(keyed) {
        } else {
            lemma_entries_end_after(s, j, depth, keyed);
        }
    }
}

/// Entries end after their start, inside the text, and lie between their
/// start and the closing byte.
pub proof fn lemma_entries_end_after(s: Seq<u8>, i: int, depth: nat, keyed: bool)
    ensures
        entries(s, i, depth, keyed) matches Some(c) ==> {
            &&& 0 <= i < c.1 <= s.len()
            &&& c.0.len() >= 1
            &&& s[c.1 - 1] == closer(keyed)
            &&& forall|k: int| 0 <= k < c.0.len() ==> within(#[trigger] c.0[k], i, c.1 - 1)
            &&& all_values(s, c.0, depth)
        },
    decreases depth, 0int, s.len() - i, 1int,
{
    if entries(s, i, depth, keyed) is Some {
        let c = entries(s, i, depth, keyed)->0;
        let head = entry_head(s, i, keyed)->0;
        if keyed {
            lemma_text_end_after(s, i + 1);
            let e: int = text_end(s, i + 1)->0;
            lemma_ws_end_bounds(s, e);
            lemma_ws_end_bounds(s, ws_end(s, e) + 1);
        }
        lemma_value_end_after(s, head.1, depth);
        let ve: int = value_end(s, head.1, depth)->0;
        lemma_ws_end_bounds(s, ve);
        let j: int = ws_end(s, ve);
        let entry = Entry { key: head.0, value: Piece { start: head.1, end: ve } };
        assert(within(entry, i, j));
        if s[j] == closer(keyed) {
            assert(c.0 == seq![entry]);
        } else {
            lemma_ws_end_bounds(s, j + 1);
            let n: int = ws_end(s, j + 1);
            lemma_entries_end_after(s, n, depth, keyed);
            let rest = entries(s, n, depth, keyed)->0;
            assert(c.0 == seq![entry] + rest.0);
            assert forall|k: int| 0 <= k < c.0.len() implies within(
                #[trigger] c.0[k],
                i,
                c.1 - 1,
            ) by {
                if k > 0 {
                    assert(c.0[k] == rest.0[k - 1]);
                    assert(within(rest.0[k - 1], n, c.1 - 1));
                }
            }
            assert forall|k: int| 0 <= k < c.0.len() implies value_end(
                s,
                (#[trigger] c.0[k]).value.start,
                depth,
            ) == Some(c.0[k].value.end) by {
                if k > 0 {
                    assert(c.0[k] == rest.0[k - 1]);
                }
            }
        }
    }
}

/// A value that is copied reads in the copy as it read where it stood.
pub proof fn lemma_value_same(s: Seq<u8>, t: Seq<u8>, d: int, i: int, e: int, depth: nat)
    requires
        value_end(s, i, depth) == Some(e),
        same(s, t, d, i, e),
        plain_at(t, e - d),
    ensures
        value_end(t, i - d, depth) == Some(e - d),
    decreases depth, 0int, s.len() - i, 0int,
{
    lemma_value_end_after(s, i, depth);
    assert(s[i] == t[i - d]);
    if s[i] == QUOTE {
        lemma_text_same(s, t, d, i + 1, e);
    } else if s[i] == OPEN_BRACE || s[i] == OPEN_BRACKET {
        lemma_container_same(s, t, d, i, (depth - 1) as nat);
    } else if s[i] == 0x74 {
        lemma_word_same(s, t, d, i, e, word_true());
    } else if s[i] == 0x66 {
        lemma_word_same(s, t, d, i, e, word_false());
    } else if s[i] == 0x6e {
        lemma_word_same(s, t, d, i, e, word_null());
    } else {
        lemma_number_same(s, t, d, i, e);
    }
}

/// A container that is copied holds in the copy the entries that it held
/// where it stood, each at its new place.
pub proof fn lemma_container_same(s: Seq<u8>, t: Seq<u8>, d: int, i: int, depth: nat)
    requires
        container(s, i, depth) is Some,
        same(s, t, d, i, end_of(container(s, i, depth))),
    ensures
        container(t, i - d, depth) == Some(
            (shifted(items_of(container(s, i, depth)), d), end_of(container(s, i, depth)) - d),
        ),
    decreases depth, 1int, 0int, 0int,
{
    let c = container(s, i, depth)->0;
    lemma_container_end_after(s, i, depth);
    lemma_ws_end_bounds(s, i + 1);
    let keyed: bool = s[i] == OPEN_BRACE;
    let j: int = ws_end(s, i + 1);
    assert(s[i] == t[i - d]);
    if 0 <= j < s.len() && s[j] == closer(keyed) {
        assert(s[j] == t[j - d]);
        lemma_ws_same(s, t, d, i + 1);
        assert(shifted(c.0, d) =~= Seq::<Entry>::empty());
    } else {
        lemma_entries_end_after(s, j, depth, keyed);
        assert(s[j] == t[j - d]);
        lemma_ws_same(s, t, d, i + 1);
        lemma_entries_same(s, t, d, j, depth, keyed);
    }
}

/// Entries that are copied read in the copy as they read where they stood.
#[verifier::rlimit(40)]
pub proof fn lemma_entries_same(s: Seq<u8>, t: Seq<u8>, d: int, i: int, depth: nat, keyed: bool)
    requires
        entries(s, i, depth, keyed) is Some,
        same(s, t, d, i, end_of(entries(s, i, depth, keyed))),
    ensures
        entries(t, i - d, depth, keyed) == Some(
            (
                shifted(items_of(entries(s, i, depth, keyed)), d),
                end_of(entries(s, i, depth, keyed)) - d,
            ),
        ),
    decreases depth, 0int, s.len() - i, 1int,
{
    let c = entries(s, i, depth, keyed)->0;
    lemma_entries_end_after(s, i, depth, keyed);
    let head = entry_head(s, i, keyed)->0;
    lemma_value_end_after(s, head.1, depth);
    let ve: int = value_end(s, head.1, depth)->0;
    lemma_ws_end_bounds(s, ve);
    let j: int = ws_end(s, ve);
    let entry = Entry { key: head.0, value: Piece { start: head.1, end: ve } };
    let entry_t = Entry { key: moved(head.0, d), value: Piece { start: head.1 - d, end: ve - d } };
    if s[j] == closer(keyed) {
    } else {
        lemma_ws_end_bounds(s, j + 1);
        lemma_entries_end_after(s, ws_end(s, j + 1), depth, keyed);
    }
    lemma_head_same(s, t, d, i, keyed, c.1);
    assert(j < c.1);
    assert(s[j] == t[j - d]);
    assert(s[ve] == t[ve - d]);
    assert(plain_at(t, ve - d)) by {
        if ve < j {
            assert(is_ws(s[ve]));
        }
    }
    lemma_value_same(s, t, d, head.1, ve, depth);
    lemma_ws_same(s, t, d, ve);
    if s[j] == closer(keyed) {
        assert(shifted(seq![entry], d) =~= seq![entry_t]);
    } else {
        let n: int = ws_end(s, j + 1);
        assert(s[n] == t[n - d]);
        lemma_ws_same(s, t, d, j + 1);
        lemma_entries_same(s, t, d, n, depth, keyed);
        let rest = entries(s, n, depth, keyed)->0;
        assert(shifted(seq![entry] + rest.0, d) =~= seq![entry_t] + shifted(rest.0, d));
    }
}

/// What stands before a value reads in a copy as it read where it stood.
pub proof fn lemma_head_same(s: Seq<u8>, t: Seq<u8>, d: int, i: int, keyed: bool, hi: int)
    requires
        0 <= i,
        entry_head(s, i, keyed) is Some,
        value_start(entry_head(s, i, keyed)) < hi,
        same(s, t, d, i, hi),
    ensures
        entry_head(t, i - d, keyed) == Some(
            (moved(key_of(entry_head(s, i, keyed)), d), value_start(entry_head(s, i, keyed)) - d),
        ),
        i <= value_start(entry_head(s, i, keyed)),
{
    if keyed {
        lemma_text_end_after(s, i + 1);
        let e: int = text_end(s, i + 1)->0;
        lemma_ws_end_bounds(s, e);
        let c: int = ws_end(s, e);
        lemma_ws_end_bounds(s, c + 1);
        let vs: int = ws_end(s, c + 1);
        assert(s[i] == t[i - d]);
        lemma_text_same(s, t, d, i + 1, e);
        assert(s[c] == t[c - d]);
        lemma_ws_same(s, t, d, e);
        assert(s[vs] == t[vs - d]);
        lemma_ws_same(s, t, d, c + 1);
    }
}

/// The keys and values of `es` lie between `lo` and `hi`.
pub open spec fn all_within(es: Seq<Entry>, lo: int, hi: int) -> bool {
    forall|k: int| 0 <= k < es.len() ==> within(#[trigger] es[k], lo, hi)
}

/// A name that is copied spells in the copy what it spelled where it stood.
pub proof fn lemma_spelled_same(s: Seq<u8>, t: Seq<u8>, d: int, i: int, e: int)
    requires
        0 <= i <= e,
        same(s, t, d, i, e),
    ensures
        spelled(t, i - d, e - d) == spelled(s, i, e),
    decreases e - i,
{
    if i < e {
        assert(s[i] == t[i - d]);
        if s[i] == 0x5c && i + 1 < e {
            assert(s[i + 1] == t[i + 1 - d]);
            if s[i + 1] == 0x75 && i + 5 < e {
                assert(s[i + 2] == t[i + 2 - d]);
                assert(s[i + 3] == t[i + 3 - d]);
                assert(s[i + 4] == t[i + 4 - d]);
                assert(s[i + 5] == t[i + 5 - d]);
                lemma_spelled_same(s, t, d, i + 6, e);
            } else {
                lemma_spelled_same(s, t, d, i + 2, e);
            }
        } else {
            lemma_spelled_same(s, t, d, i + 1, e);
        }
    }
}

/// Entries that are copied are found in the copy under the names under which
/// they were found where they stood.
pub proof fn lemma_first_hit_same(
    s: Seq<u8>,
    t: Seq<u8>,
    d: int,
    es: Seq<Entry>,
    name: Seq<u8>,
    from: int,
    lo: int,
    hi: int,
)
    requires
        same(s, t, d, lo, hi),
        all_within(es, lo, hi),
        0 <= from,
    ensures
        first_hit(t, shifted(es, d), name, from) == first_hit(s, es, name, from),
    decreases es.len() - from,
{
    if from < es.len() {
        assert(within(es[from], lo, hi));
        lemma_spelled_same(s, t, d, es[from].key.start, es[from].key.end);
        if !names(s, es[from].key, name) {
            lemma_first_hit_same(s, t, d, es, name, from + 1, lo, hi);
        }
    }
}

/// A lookup in copied entries finds what it found where they stood.
pub proof fn lemma_lookup_same(
    s: Seq<u8>,
    t: Seq<u8>,
    d: int,
    es: Seq<Entry>,
    name: Seq<u8>,
    lo: int,
    hi: int,
)
    requires
        same(s, t, d, lo, hi),
        all_within(es, lo, hi),
    ensures
        lookup(t, shifted(es, d), name) == lookup(s, es, name),
{
    lemma_first_hit_same(s, t, d, es, name, 0, lo, hi);
    let k: int = first_hit(s, es, name, 0);
    crate::keys::lemma_first_hit_bounds(s, es, name, 0);
    lemma_first_hit_same(s, t, d, es, name, k + 1, lo, hi);
}

/// In entries that follow others, a search goes on behind those others.
pub proof fn lemma_first_hit_behind(
    t: Seq<u8>,
    a: Seq<Entry>,
    b: Seq<Entry>,
    name: Seq<u8>,
    from: int,
)
    requires
        0 <= from,
    ensures
        first_hit(t, a + b, name, a.len() + from) == a.len() + first_hit(t, b, name, from),
    decreases b.len() - from,
{
    if from < b.len() {
        assert((a + b)[a.len() + from] == b[from]);
        if !names(t, b[from].key, name) {
            lemma_first_hit_behind(t, a, b, name, from + 1);
        }
    }
}

/// A search in entries with others behind them finds what it finds in the
/// entries alone, or goes on behind them.
pub proof fn lemma_first_hit_before(
    t: Seq<u8>,
    a: Seq<Entry>,
    b: Seq<Entry>,
    name: Seq<u8>,
    from: int,
)
    requires
        0 <= from <= a.len(),
    ensures
        first_hit(t, a + b, name, from) == if first_hit(t, a, name, from) < a.len() {
            first_hit(t, a, name, from)
        } else {
            a.len() + first_hit(t, b, name, 0)
        },
    decreases a.len() - from,
{
    if from < a.len() {
        assert((a + b)[from] == a[from]);
        if !names(t, a[from].key, name) {
            lemma_first_hit_before(t, a, b, name, from + 1);
        }
    } else {
        lemma_first_hit_behind(t, a, b, name, 0);
    }
}

/// Digits that are copied spell in the copy the number that they spelled
/// where they stood.
pub proof fn lemma_decimal_same(s: Seq<u8>, t: Seq<u8>, d: int, a: int, b: int)
    requires
        0 <= a <= b,
        same(s, t, d, a, b),
    ensures
        decimal(t, a - d, b - d) == decimal(s, a, b),
        all_digits(t, a - d, b - d) == all_digits(s, a, b),
    decreases b - a,
{
    if a < b {
        assert(s[b - 1] == t[b - 1 - d]);
        lemma_decimal_same(s, t, d, a, b - 1);
        if all_digits(s, a, b) {
            assert forall|k: int| a - d <= k < b - d implies is_digit(#[trigger] t[k]) by {
                assert(s[k + d] == t[k]);
            }
        }
        if all_digits(t, a - d, b - d) {
            assert forall|k: int| a <= k < b implies is_digit(#[trigger] s[k]) by {
                assert(s[k] == t[k - d]);
                assert(is_digit(t[k - d]));
            }
        }
    }
}

/// Items that are copied spell in the copy the ids that they spelled where
/// they stood.
pub proof fn lemma_id_list_same(
    s: Seq<u8>,
    t: Seq<u8>,
    d: int,
    items: Seq<Entry>,
    lo: int,
    hi: int,
)
    requires
        same(s, t, d, lo, hi),
        all_within(items, lo, hi),
    ensures
        id_list(t, shifted(items, d)) == id_list(s, items),
{
    assert forall|k: int| 0 <= k < items.len() implies id_at(
        t,
        (#[trigger] shifted(items, d)[k]).value,
    ) == id_at(s, items[k].value) by {
        assert(within(items[k], lo, hi));
        lemma_decimal_same(s, t, d, items[k].value.start, items[k].value.end);
    }
    if id_list(s, items) is Some {
        assert forall|k: int| 0 <= k < shifted(items, d).len() implies id_at(
            t,
            (#[trigger] shifted(items, d)[k]).value,
        ) is Some by {
            assert(id_at(s, items[k].value) is Some);
        }
        assert(id_list(t, shifted(items, d))->0 =~= id_list(s, items)->0);
    } else if items.len() > 0 {
        let k = choose|k: int| 0 <= k < items.len() && !(id_at(s, (#[trigger] items[k]).value)
            is Some);
        assert(id_at(t, shifted(items, d)[k].value) is None);
    }
}

} // verus!
