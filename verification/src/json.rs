//! The JSON grammar, as far as the bus reads it: where a value ends, and which
//! entries a container holds. Values are never decoded; a value is the run of
//! bytes it occupies in the text.

use vstd::prelude::*;

verus! {

/// `"`
pub const QUOTE: u8 = 0x22;

/// `\`
pub const BACKSLASH: u8 = 0x5c;

/// `,`
pub const COMMA: u8 = 0x2c;

/// `:`
pub const COLON: u8 = 0x3a;

/// `{`
pub const OPEN_BRACE: u8 = 0x7b;

/// `}`
pub const CLOSE_BRACE: u8 = 0x7d;

/// `[`
pub const OPEN_BRACKET: u8 = 0x5b;

/// `]`
pub const CLOSE_BRACKET: u8 = 0x5d;

/// `-`
pub const MINUS: u8 = 0x2d;

/// `+`
pub const PLUS: u8 = 0x2b;

/// `.`
pub const DOT: u8 = 0x2e;

/// `0`
pub const ZERO: u8 = 0x30;

/// Containers may nest this deep; a text that nests deeper is not accepted.
pub const MAX_DEPTH: usize = 128;

/// Space, tab, line feed, carriage return.
pub open spec fn is_ws(b: u8) -> bool {
    b == 0x20 || b == 0x09 || b == 0x0a || b == 0x0d
}

/// `0` to `9`.
pub open spec fn is_digit(b: u8) -> bool {
    0x30 <= b <= 0x39
}

/// `0` to `9`, `A` to `F`, `a` to `f`.
pub open spec fn is_hex(b: u8) -> bool {
    is_digit(b) || (0x41 <= b <= 0x46) || (0x61 <= b <= 0x66)
}

/// The letters that may follow a backslash, `u` aside: `" \ / b f n r t`.
pub open spec fn is_short_escape(b: u8) -> bool {
    b == 0x22 || b == 0x5c || b == 0x2f || b == 0x62 || b == 0x66 || b == 0x6e || b == 0x72 || b
        == 0x74
}

/// The first position at or after `i` that holds no whitespace.
pub open spec fn ws_end(s: Seq<u8>, i: int) -> int
    decreases s.len() - i,
{
    if 0 <= i < s.len() && is_ws(s[i]) {
        ws_end(s, i + 1)
    } else {
        i
    }
}

/// The first position at or after `i` that holds no decimal digit.
pub open spec fn digits_end(s: Seq<u8>, i: int) -> int
    decreases s.len() - i,
{
    if 0 <= i < s.len() && is_digit(s[i]) {
        digits_end(s, i + 1)
    } else {
        i
    }
}

/// Where the string ends whose opening quote stands just before `i`: the
/// position after its closing quote. `None` where the text ends first, or holds
/// a control character or a backslash that starts no escape.
pub open spec fn text_end(s: Seq<u8>, i: int) -> Option<int>
    decreases s.len() - i,
{
    if i < 0 || i >= s.len() {
        None
    } else if s[i] == QUOTE {
        Some(i + 1)
    } else if s[i] == BACKSLASH {
        if i + 1 < s.len() && is_short_escape(s[i + 1]) {
            text_end(s, i + 2)
        } else if i + 5 < s.len() && s[i + 1] == 0x75 && is_hex(s[i + 2]) && is_hex(s[i + 3])
            && is_hex(s[i + 4]) && is_hex(s[i + 5]) {
            text_end(s, i + 6)
        } else {
            None
        }
    } else if s[i] < 0x20 {
        None
    } else {
        text_end(s, i + 1)
    }
}

/// Where the fraction that may follow a number's integer part at `i` ends.
pub open spec fn fraction_end(s: Seq<u8>, i: int) -> Option<int> {
    if 0 <= i < s.len() && s[i] == DOT {
        if digits_end(s, i + 1) > i + 1 {
            Some(digits_end(s, i + 1))
        } else {
            None
        }
    } else {
        Some(i)
    }
}

/// Where the exponent that may follow a number's fraction at `i` ends.
pub open spec fn exponent_end(s: Seq<u8>, i: int) -> Option<int> {
    if 0 <= i < s.len() && (s[i] == 0x65 || s[i] == 0x45) {
        let j: int = if i + 1 < s.len() && (s[i + 1] == PLUS || s[i + 1] == MINUS) {
            i + 2
        } else {
            i + 1
        };
        if digits_end(s, j) > j {
            Some(digits_end(s, j))
        } else {
            None
        }
    } else {
        Some(i)
    }
}

/// Where the number that starts at `i` ends: an optional minus, then `0` or a
/// run of digits that starts with no zero, then an optional fraction and an
/// optional exponent.
pub open spec fn number_end(s: Seq<u8>, i: int) -> Option<int> {
    let a: int = if 0 <= i < s.len() && s[i] == MINUS {
        i + 1
    } else {
        i
    };
    if a < 0 || a >= s.len() || !is_digit(s[a]) {
        None
    } else {
        let b: int = if s[a] == ZERO {
            a + 1
        } else {
            digits_end(s, a)
        };
        match fraction_end(s, b) {
            None => None,
            Some(c) => exponent_end(s, c),
        }
    }
}

/// Where the bare word `word` ends if it stands at `i`.
pub open spec fn word_end(s: Seq<u8>, i: int, word: Seq<u8>) -> Option<int> {
    if 0 <= i && i + word.len() <= s.len() && s.subrange(i, i + word.len()) == word {
        Some(i + word.len())
    } else {
        None
    }
}

/// `true`
pub open spec fn word_true() -> Seq<u8> {
    seq![0x74u8, 0x72u8, 0x75u8, 0x65u8]
}

/// `false`
pub open spec fn word_false() -> Seq<u8> {
    seq![0x66u8, 0x61u8, 0x6cu8, 0x73u8, 0x65u8]
}

/// `null`
pub open spec fn word_null() -> Seq<u8> {
    seq![0x6eu8, 0x75u8, 0x6cu8, 0x6cu8]
}

/// Whitespace ends at or after its start, inside the text, before a byte
/// that is no whitespace.
pub proof fn lemma_ws_end_bounds(s: Seq<u8>, i: int)
    requires
        0 <= i <= s.len(),
    ensures
        i <= ws_end(s, i) <= s.len(),
        ws_end(s, i) < s.len() ==> !is_ws(s[ws_end(s, i)]),
        ws_end(s, ws_end(s, i)) == ws_end(s, i),
    decreases s.len() - i,
{
    if i < s.len() && is_ws(s[i]) {
        lemma_ws_end_bounds(s, i + 1);
    }
}

/// A run of digits ends at or after its start, inside the text, before a
/// byte that is no digit.
pub proof fn lemma_digits_end_bounds(s: Seq<u8>, i: int)
    requires
        0 <= i <= s.len(),
    ensures
        i <= digits_end(s, i) <= s.len(),
        digits_end(s, i) < s.len() ==> !is_digit(s[digits_end(s, i)]),
        forall|k: int| i <= k < digits_end(s, i) ==> is_digit(#[trigger] s[k]),
    decreases s.len() - i,
{
    if i < s.len() && is_digit(s[i]) {
        lemma_digits_end_bounds(s, i + 1);
    }
}

/// Whether `b` is whitespace.
pub fn byte_is_ws(b: u8) -> (r: bool)
    ensures
        r == is_ws(b),
{
    b == 0x20 || b == 0x09 || b == 0x0a || b == 0x0d
}

/// Whether `b` is a decimal digit.
pub fn byte_is_digit(b: u8) -> (r: bool)
    ensures
        r == is_digit(b),
{
    0x30 <= b && b <= 0x39
}

/// Whether `b` is a hexadecimal digit.
pub fn byte_is_hex(b: u8) -> (r: bool)
    ensures
        r == is_hex(b),
{
    byte_is_digit(b) || (0x41 <= b && b <= 0x46) || (0x61 <= b && b <= 0x66)
}

/// Whether `b` may follow a backslash, `u` aside.
pub fn byte_is_short_escape(b: u8) -> (r: bool)
    ensures
        r == is_short_escape(b),
{
    b == 0x22 || b == 0x5c || b == 0x2f || b == 0x62 || b == 0x66 || b == 0x6e || b == 0x72 || b
        == 0x74
}

/// Steps over whitespace.
pub fn skip_ws(s: &[u8], i: usize) -> (r: usize)
    requires
        i <= s.len(),
    ensures
        r == ws_end(s@, i as int),
        i <= r <= s.len(),
{
    let mut j: usize = i;
    while j < s.len() && byte_is_ws(s[j])
        invariant
            i <= j <= s.len(),
            ws_end(s@, i as int) == ws_end(s@, j as int),
        decreases s.len() - j,
    {
        j = j + 1;
    }
    j
}

/// Steps over decimal digits.
pub fn skip_digits(s: &[u8], i: usize) -> (r: usize)
    requires
        i <= s.len(),
    ensures
        r == digits_end(s@, i as int),
        i <= r <= s.len(),
{
    let mut j: usize = i;
    while j < s.len() && byte_is_digit(s[j])
        invariant
            i <= j <= s.len(),
            digits_end(s@, i as int) == digits_end(s@, j as int),
        decreases s.len() - j,
    {
        j = j + 1;
    }
    j
}

/// Steps over the rest of a string, from just after its opening quote to just
/// after its closing quote.
pub fn skip_text(s: &[u8], i: usize) -> (r: Option<usize>)
    requires
        i <= s.len(),
    ensures
        match r {
            Some(e) => text_end(s@, i as int) == Some(e as int) && i < e <= s.len(),
            None => text_end(s@, i as int) is None,
        },
{
    let mut j: usize = i;
    while j < s.len()
        invariant
            i <= j <= s.len(),
            text_end(s@, i as int) == text_end(s@, j as int),
        decreases s.len() - j,
    {
        let b: u8 = s[j];
        if b == QUOTE {
            return Some(j + 1);
        } else if b == BACKSLASH {
            if s.len() - j > 1 && byte_is_short_escape(s[j + 1]) {
                j = j + 2;
            } else if s.len() - j > 5 && s[j + 1] == 0x75 && byte_is_hex(s[j + 2]) && byte_is_hex(
                s[j + 3],
            ) && byte_is_hex(s[j + 4]) && byte_is_hex(s[j + 5]) {
                j = j + 6;
            } else {
                return None;
            }
        } else if b < 0x20 {
            return None;
        } else {
            j = j + 1;
        }
    }
    None
}

/// Steps over a number.
pub fn skip_number(s: &[u8], i: usize) -> (r: Option<usize>)
    requires
        i <= s.len(),
    ensures
        match r {
            Some(e) => number_end(s@, i as int) == Some(e as int) && i < e <= s.len(),
            None => number_end(s@, i as int) is None,
        },
{
    let a: usize = if i < s.len() && s[i] == MINUS {
        i + 1
    } else {
        i
    };
    if a >= s.len() || !byte_is_digit(s[a]) {
        return None;
    }
    let b: usize = if s[a] == ZERO {
        a + 1
    } else {
        skip_digits(s, a)
    };
    proof {
        lemma_digits_end_bounds(s@, a + 1);
    }
    let c: usize = if b < s.len() && s[b] == DOT {
        let d: usize = skip_digits(s, b + 1);
        if d == b + 1 {
            return None;
        }
        d
    } else {
        b
    };
    if c < s.len() && (s[c] == 0x65 || s[c] == 0x45) {
        let j: usize = if s.len() - c > 1 && (s[c + 1] == PLUS || s[c + 1] == MINUS) {
            c + 2
        } else {
            c + 1
        };
        let g: usize = skip_digits(s, j);
        if g == j {
            return None;
        }
        Some(g)
    } else {
        Some(c)
    }
}

/// Steps over the bare word `word`.
pub fn skip_word(s: &[u8], i: usize, word: &[u8]) -> (r: Option<usize>)
    requires
        i <= s.len(),
    ensures
        match r {
            Some(e) => word_end(s@, i as int, word@) == Some(e as int) && e == i + word.len(),
            None => word_end(s@, i as int, word@) is None,
        },
{
    if word.len() > s.len() - i {
        return None;
    }
    let mut k: usize = 0;
    while k < word.len()
        invariant
            k <= word.len(),
            i + word.len() <= s.len(),
            forall|m: int| 0 <= m < k ==> s@[i + m] == word@[m],
        decreases word.len() - k,
    {
        if s[i + k] != word[k] {
            proof {
                assert(s@.subrange(i as int, i + word.len())[k as int] == s@[i + k]);
            }
            return None;
        }
        k = k + 1;
    }
    proof {
        assert(s@.subrange(i as int, i + word.len()) =~= word@);
    }
    Some(i + word.len())
}

/// A run of bytes of a text: the positions from `start` up to, not
/// including, `end`.
pub struct Piece {
    pub start: int,
    pub end: int,
}

/// One entry of a container. `key` is what stands between the quotes of a
/// member's name; in an array it is empty. `value` is the whole value.
pub struct Entry {
    pub key: Piece,
    pub value: Piece,
}

/// A `Piece` as the running code holds it.
#[derive(Clone, Copy, Debug)]
pub struct Span {
    pub start: usize,
    pub end: usize,
}

impl View for Span {
    type V = Piece;

    open spec fn view(&self) -> Piece {
        Piece { start: self.start as int, end: self.end as int }
    }
}

/// An `Entry` as the running code holds it.
#[derive(Clone, Copy, Debug)]
pub struct Member {
    pub key: Span,
    pub value: Span,
}

impl View for Member {
    type V = Entry;

    open spec fn view(&self) -> Entry {
        Entry { key: self.key@, value: self.value@ }
    }
}

/// The members `v`, each as the entry that it stands for.
pub open spec fn views(v: Seq<Member>) -> Seq<Entry> {
    v.map_values(|m: Member| m@)
}

/// A member lies inside the text, its key before its value; in an object the
/// key is the content of a string.
pub open spec fn placed(s: Seq<u8>, m: Member, keyed: bool) -> bool {
    &&& m.key.start <= m.key.end <= m.value.start < m.value.end <= s.len()
    &&& keyed ==> m.key.end < m.value.start && text_end(s, m.key.start as int) == Some(
        m.key.end + 1,
    )
}

/// Every member lies inside the text.
pub open spec fn all_placed(s: Seq<u8>, ms: Seq<Member>, keyed: bool) -> bool {
    forall|k: int| 0 <= k < ms.len() ==> placed(s, #[trigger] ms[k], keyed)
}

/// The byte that closes an object (`keyed`) or an array.
pub open spec fn closer(keyed: bool) -> u8 {
    if keyed {
        CLOSE_BRACE
    } else {
        CLOSE_BRACKET
    }
}

/// What stands before an entry's value: in an object the name, a colon and the
/// whitespace round it; in an array nothing. Gives the name and the position
/// where the value starts.
pub open spec fn entry_head(s: Seq<u8>, i: int, keyed: bool) -> Option<(Piece, int)> {
    if !keyed {
        Some((Piece { start: i, end: i }, i))
    } else if 0 <= i < s.len() && s[i] == QUOTE {
        match text_end(s, i + 1) {
            None => None,
            Some(e) => {
                let c: int = ws_end(s, e);
                if 0 <= c < s.len() && s[c] == COLON {
                    Some((Piece { start: i + 1, end: e - 1 }, ws_end(s, c + 1)))
                } else {
                    None
                }
            },
        }
    } else {
        None
    }
}

/// Where the value that starts at `i` ends, if a value starts there and nests
/// containers at most `depth` deep.
pub open spec fn value_end(s: Seq<u8>, i: int, depth: nat) -> Option<int>
    decreases depth, 0int, s.len() - i, 0int,
{
    if i < 0 || i >= s.len() {
        None
    } else if s[i] == QUOTE {
        text_end(s, i + 1)
    } else if s[i] == OPEN_BRACE || s[i] == OPEN_BRACKET {
        if depth == 0 {
            None
        } else {
            match container(s, i, (depth - 1) as nat) {
                None => None,
                Some(c) => Some(c.1),
            }
        }
    } else if s[i] == 0x74 {
        word_end(s, i, word_true())
    } else if s[i] == 0x66 {
        word_end(s, i, word_false())
    } else if s[i] == 0x6e {
        word_end(s, i, word_null())
    } else {
        number_end(s, i)
    }
}

/// The entries of the object or array that opens at `i`, in the order of the
/// text, and the position after its closing byte. Its values may nest
/// containers at most `depth` deep.
pub open spec fn container(s: Seq<u8>, i: int, depth: nat) -> Option<(Seq<Entry>, int)>
    decreases depth, 1int, 0int, 0int,
{
    if i < 0 || i >= s.len() || !(s[i] == OPEN_BRACE || s[i] == OPEN_BRACKET) {
        None
    } else {
        let keyed: bool = s[i] == OPEN_BRACE;
        let j: int = ws_end(s, i + 1);
        if 0 <= j < s.len() && s[j] == closer(keyed) {
            Some((Seq::empty(), j + 1))
        } else {
            entries(s, j, depth, keyed)
        }
    }
}

/// The entries from `i`, where one starts, to the container's closing byte,
/// and the position after that byte. Entries are parted by commas; positions
/// only move forward.
pub open spec fn entries(s: Seq<u8>, i: int, depth: nat, keyed: bool) -> Option<
    (Seq<Entry>, int),
>
    decreases depth, 0int, s.len() - i, 1int,
{
    if i < 0 || i >= s.len() {
        None
    } else {
        match entry_head(s, i, keyed) {
            None => None,
            Some(head) => if head.1 < i || head.1 > s.len() {
                None
            } else {
                match value_end(s, head.1, depth) {
                    None => None,
                    Some(ve) => {
                        let j: int = ws_end(s, ve);
                        let entry = Entry { key: head.0, value: Piece { start: head.1, end: ve } };
                        if j < 0 || j >= s.len() {
                            None
                        } else if s[j] == closer(keyed) {
                            Some((seq![entry], j + 1))
                        } else if s[j] == COMMA && i < ws_end(s, j + 1) <= s.len() {
                            match entries(s, ws_end(s, j + 1), depth, keyed) {
                                None => None,
                                Some(rest) => Some((seq![entry] + rest.0, rest.1)),
                            }
                        } else {
                            None
                        }
                    },
                }
            },
        }
    }
}

/// Steps over one value.
pub fn skip_value(s: &[u8], i: usize, depth: usize) -> (r: Option<usize>)
    requires
        i <= s.len(),
    ensures
        match r {
            Some(e) => value_end(s@, i as int, depth as nat) == Some(e as int) && i < e <= s.len(),
            None => value_end(s@, i as int, depth as nat) is None,
        },
    decreases depth, 0int, s.len() - i, 0int,
{
    if i >= s.len() {
        return None;
    }
    let b: u8 = s[i];
    if b == QUOTE {
        skip_text(s, i + 1)
    } else if b == OPEN_BRACE || b == OPEN_BRACKET {
        if depth == 0 {
            None
        } else {
            match read_container(s, i, depth - 1, false) {
                None => None,
                Some(found) => Some(found.1),
            }
        }
    } else if b == 0x74 {
        let word: [u8; 4] = [0x74, 0x72, 0x75, 0x65];
        assert(word@ =~= word_true());
        skip_word(s, i, word.as_slice())
    } else if b == 0x66 {
        let word: [u8; 5] = [0x66, 0x61, 0x6c, 0x73, 0x65];
        assert(word@ =~= word_false());
        skip_word(s, i, word.as_slice())
    } else if b == 0x6e {
        let word: [u8; 4] = [0x6e, 0x75, 0x6c, 0x6c];
        assert(word@ =~= word_null());
        skip_word(s, i, word.as_slice())
    } else {
        skip_number(s, i)
    }
}

/// Reads what stands before an entry's value.
pub fn read_head(s: &[u8], i: usize, keyed: bool) -> (r: Option<(Span, usize)>)
    requires
        i < s.len(),
    ensures
        match r {
            Some(h) => {
                &&& entry_head(s@, i as int, keyed) == Some((h.0@, h.1 as int))
                &&& i <= h.0.start <= h.0.end <= h.1 <= s.len()
                &&& keyed ==> h.0.end < h.1 && text_end(s@, h.0.start as int) == Some(
                    h.0.end + 1,
                )
            },
            None => entry_head(s@, i as int, keyed) is None,
        },
{
    if !keyed {
        return Some((Span { start: i, end: i }, i));
    }
    if s[i] != QUOTE {
        return None;
    }
    match skip_text(s, i + 1) {
        None => None,
        Some(e) => {
            let c: usize = skip_ws(s, e);
            if c >= s.len() || s[c] != COLON {
                return None;
            }
            Some((Span { start: i + 1, end: e - 1 }, skip_ws(s, c + 1)))
        },
    }
}

/// Reads the container that opens at `i`: where it ends and, if `keep` is
/// set, its entries.
#[verifier::rlimit(40)]
pub fn read_container(s: &[u8], i: usize, depth: usize, keep: bool) -> (r: Option<
    (Vec<Member>, usize),
>)
    requires
        i < s.len(),
        s[i as int] == OPEN_BRACE || s[i as int] == OPEN_BRACKET,
    ensures
        match r {
            Some(found) => {
                &&& container(s@, i as int, depth as nat) matches Some(c)
                &&& c.1 == found.1
                &&& i < found.1 <= s.len()
                &&& keep ==> views(found.0@) == c.0
                &&& all_placed(s@, found.0@, s[i as int] == OPEN_BRACE)
            },
            None => container(s@, i as int, depth as nat) is None,
        },
    decreases depth, 1int, 0int, 0int,
{
    let keyed: bool = s[i] == OPEN_BRACE;
    let close: u8 = if keyed {
        CLOSE_BRACE
    } else {
        CLOSE_BRACKET
    };
    let mut out: Vec<Member> = Vec::new();
    let mut j: usize = skip_ws(s, i + 1);
    if j < s.len() && s[j] == close {
        assert(views(out@) =~= Seq::<Entry>::empty());
        return Some((out, j + 1));
    }
    let ghost mut seen: Seq<Entry> = Seq::empty();
    assert(forall|rest: Seq<Entry>| seen + rest =~= rest);
    loop
        invariant
            i < j <= s.len(),
            close == closer(keyed),
            keyed == (s[i as int] == OPEN_BRACE),
            match entries(s@, j as int, depth as nat, keyed) {
                None => container(s@, i as int, depth as nat) is None,
                Some(rest) => container(s@, i as int, depth as nat) == Some(
                    (seen + rest.0, rest.1),
                ),
            },
            keep ==> views(out@) == seen,
            all_placed(s@, out@, keyed),
        decreases s.len() - j,
    {
        if j >= s.len() {
            return None;
        }
        let head: (Span, usize) = match read_head(s, j, keyed) {
            None => {
                return None;
            },
            Some(h) => h,
        };
        let key: Span = head.0;
        let start: usize = head.1;
        let end: usize = match skip_value(s, start, depth) {
            None => {
                return None;
            },
            Some(e) => e,
        };
        let k: usize = skip_ws(s, end);
        if k >= s.len() {
            return None;
        }
        let member = Member { key, value: Span { start, end } };
        let ghost rest_before = entries(s@, j as int, depth as nat, keyed);
        if keep {
            let ghost kept = out@;
            out.push(member);
            assert(views(out@) =~= seen.push(member@));
            assert forall|n: int| 0 <= n < out@.len() implies placed(
                s@,
                #[trigger] out@[n],
                keyed,
            ) by {
                if n < kept.len() {
                    assert(out@[n] == kept[n]);
                }
            }
        }
        if s[k] == close {
            proof {
                assert(seen + seq![member@] =~= seen.push(member@));
                seen = seen.push(member@);
            }
            return Some((out, k + 1));
        } else if s[k] == COMMA {
            let next: usize = skip_ws(s, k + 1);
            proof {
                match entries(s@, next as int, depth as nat, keyed) {
                    None => {},
                    Some(rest) => {
                        assert(seen + (seq![member@] + rest.0) =~= seen.push(member@) + rest.0);
                    },
                }
                seen = seen.push(member@);
            }
            j = next;
        } else {
            return None;
        }
    }
}

} // verus!
