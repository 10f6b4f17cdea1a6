//! Finding a member of an object by its name, and reading a list of
//! connection ids.

use crate::json::{
    all_placed, byte_is_digit, is_digit, is_hex, is_short_escape, placed, text_end, views, Entry,
    Member, Piece, Span, BACKSLASH, QUOTE,
};
use vstd::prelude::*;

verus! {

/// The number a hexadecimal digit stands for.
pub open spec fn hex_value(b: u8) -> int {
    if is_digit(b) {
        b - 0x30
    } else if 0x41 <= b <= 0x46 {
        b - 0x41 + 10
    } else {
        b - 0x61 + 10
    }
}

/// The character that the letter after a backslash stands for.
pub open spec fn escape_value(b: u8) -> int {
    if b == 0x62 {
        0x08
    } else if b == 0x66 {
        0x0c
    } else if b == 0x6e {
        0x0a
    } else if b == 0x72 {
        0x0d
    } else if b == 0x74 {
        0x09
    } else {
        b as int
    }
}

/// The number that the four hexadecimal digits from `i` on spell.
pub open spec fn hex4(s: Seq<u8>, i: int) -> int {
    hex_value(s[i]) * 4096 + hex_value(s[i + 1]) * 256 + hex_value(s[i + 2]) * 16 + hex_value(
        s[i + 3],
    )
}

/// What the content of a string spells between `i` and `end`, one number for
/// each byte and one for each escape. A byte stands for itself, `\n` and its
/// like for the character they name, `\uXXXX` for the number `XXXX`. Two
/// spellings of one name in plain ASCII give the same numbers.
pub open spec fn spelled(s: Seq<u8>, i: int, end: int) -> Seq<int>
    decreases end - i,
{
    if i < 0 || i >= end || end > s.len() {
        Seq::empty()
    } else if s[i] == BACKSLASH && i + 1 < end {
        if s[i + 1] == 0x75 && i + 5 < end {
            seq![hex4(s, i + 2)] + spelled(s, i + 6, end)
        } else {
            seq![escape_value(s[i + 1])] + spelled(s, i + 2, end)
        }
    } else {
        seq![s[i] as int] + spelled(s, i + 1, end)
    }
}

/// The bytes of a name, each as a number.
pub open spec fn as_numbers(name: Seq<u8>) -> Seq<int> {
    name.map_values(|b: u8| b as int)
}

/// Whether the string content `key` spells `name`. `name` is plain ASCII.
pub open spec fn names(s: Seq<u8>, key: Piece, name: Seq<u8>) -> bool {
    spelled(s, key.start, key.end) == as_numbers(name)
}

/// The first entry at or after `from` whose key spells `name`; the number of
/// entries if there is none.
pub open spec fn first_hit(s: Seq<u8>, es: Seq<Entry>, name: Seq<u8>, from: int) -> int
    decreases es.len() - from,
{
    if from < 0 || from >= es.len() {
        es.len() as int
    } else if names(s, es[from].key, name) {
        from
    } else {
        first_hit(s, es, name, from + 1)
    }
}

/// What a lookup by name finds in an object.
pub enum Hit {
    /// No member has the name.
    Absent,
    /// Exactly one member has the name: the entry at this index.
    One(int),
    /// Several members have the name.
    Repeated,
}

/// What a lookup of `name` finds among the entries `es`.
pub open spec fn lookup(s: Seq<u8>, es: Seq<Entry>, name: Seq<u8>) -> Hit {
    let k: int = first_hit(s, es, name, 0);
    if k >= es.len() {
        Hit::Absent
    } else if first_hit(s, es, name, k + 1) < es.len() {
        Hit::Repeated
    } else {
        Hit::One(k)
    }
}

/// `Hit` as the running code holds it.
#[derive(Clone, Copy, Debug)]
pub enum Found {
    Absent,
    One(usize),
    Repeated,
}

impl View for Found {
    type V = Hit;

    open spec fn view(&self) -> Hit {
        match *self {
            Found::Absent => Hit::Absent,
            Found::One(k) => Hit::One(k as int),
            Found::Repeated => Hit::Repeated,
        }
    }
}

/// A search ends at or after its start: at an entry of the name, with no
/// entry of the name before it, or behind the last entry.
pub proof fn lemma_first_hit_bounds(s: Seq<u8>, es: Seq<Entry>, name: Seq<u8>, from: int)
    requires
        0 <= from <= es.len(),
    ensures
        from <= first_hit(s, es, name, from) <= es.len(),
        first_hit(s, es, name, from) < es.len() ==> names(
            s,
            es[first_hit(s, es, name, from)].key,
            name,
        ),
        forall|k: int|
            from <= k < first_hit(s, es, name, from) ==> !names(s, (#[trigger] es[k]).key, name),
    decreases es.len() - from,
{
    if from < es.len() && !names(s, es[from].key, name) {
        lemma_first_hit_bounds(s, es, name, from + 1);
    }
}

fn hex_of(b: u8) -> (r: u32)
    requires
        is_hex(b),
    ensures
        r == hex_value(b),
        r < 16,
{
    if byte_is_digit(b) {
        (b - 0x30) as u32
    } else if 0x41 <= b && b <= 0x46 {
        (b - 0x41 + 10) as u32
    } else {
        (b - 0x61 + 10) as u32
    }
}

fn escape_of(b: u8) -> (r: u32)
    ensures
        r == escape_value(b),
{
    if b == 0x62 {
        0x08
    } else if b == 0x66 {
        0x0c
    } else if b == 0x6e {
        0x0a
    } else if b == 0x72 {
        0x0d
    } else if b == 0x74 {
        0x09
    } else {
        b as u32
    }
}

/// Whether the content of the string token that ends at `key.end + 1` spells
/// `name`.
pub fn key_is(s: &[u8], key: Span, name: &[u8]) -> (r: bool)
    requires
        key.start <= key.end < s.len(),
        text_end(s@, key.start as int) == Some(key.end + 1),
    ensures
        r == names(s@, key@, name@),
{
    let mut i: usize = key.start;
    let mut k: usize = 0;
    let ghost wanted = as_numbers(name@);
    assert(wanted.subrange(0, wanted.len() as int) =~= wanted);
    while i < key.end
        invariant
            key.start <= i <= key.end < s.len(),
            k <= name.len(),
            wanted == as_numbers(name@),
            text_end(s@, i as int) == Some(key.end + 1),
            names(s@, key@, name@) == (spelled(s@, i as int, key.end as int) == wanted.subrange(
                k as int,
                wanted.len() as int,
            )),
        decreases key.end - i,
    {
        let ghost rest = wanted.subrange(k as int, wanted.len() as int);
        let unit: u32;
        let next: usize;
        if s[i] == BACKSLASH {
            proof {
                lemma_text_end_after(s@, i + 2);
                lemma_text_end_after(s@, i + 6);
            }
            if s[i + 1] == 0x75 {
                unit = hex_of(s[i + 2]) * 4096 + hex_of(s[i + 3]) * 256 + hex_of(s[i + 4]) * 16
                    + hex_of(s[i + 5]);
                next = i + 6;
            } else {
                unit = escape_of(s[i + 1]);
                next = i + 2;
            }
        } else {
            unit = s[i] as u32;
            next = i + 1;
        }
        assert(spelled(s@, i as int, key.end as int) == seq![unit as int] + spelled(
            s@,
            next as int,
            key.end as int,
        ));
        if k >= name.len() || name[k] as u32 != unit {
            assert(spelled(s@, i as int, key.end as int)[0] == unit);
            assert(rest.len() > 0 ==> rest[0] == name@[k as int] as int);
            return false;
        }
        proof {
            let tail = spelled(s@, next as int, key.end as int);
            let rest_after = wanted.subrange(k + 1, wanted.len() as int);
            assert(rest_after =~= rest.subrange(1, rest.len() as int));
            assert((seq![unit as int] + tail).subrange(1, tail.len() as int + 1) =~= tail);
            if tail == rest_after {
                assert(seq![unit as int] + tail =~= rest);
            }
        }
        i = next;
        k = k + 1;
    }
    proof {
        let rest = wanted.subrange(k as int, wanted.len() as int);
        assert(spelled(s@, i as int, key.end as int) =~= Seq::<int>::empty());
        if k == name.len() {
            assert(rest =~= Seq::<int>::empty());
        } else {
            assert(rest.len() > 0);
        }
    }
    k == name.len()
}

/// A string that has not ended before `i` ends after it.
pub proof fn lemma_text_end_after(s: Seq<u8>, i: int)
    requires
        0 <= i,
    ensures
        text_end(s, i) matches Some(e) ==> i < e <= s.len(),
    decreases s.len() - i,
{
    if i < s.len() && s[i] != QUOTE {
        if s[i] == BACKSLASH {
            if i + 1 < s.len() && is_short_escape(s[i + 1]) {
                lemma_text_end_after(s, i + 2);
            } else if i + 5 < s.len() {
                lemma_text_end_after(s, i + 6);
            }
        } else {
            lemma_text_end_after(s, i + 1);
        }
    }
}

/// The first member at or after `from` whose name is `name`; the number of
/// members if there is none.
pub fn find_from(s: &[u8], members: &Vec<Member>, name: &[u8], from: usize) -> (r: usize)
    requires
        all_placed(s@, members@, true),
        from <= members.len(),
    ensures
        r == first_hit(s@, views(members@), name@, from as int),
        from <= r <= members.len(),
{
    let mut k: usize = from;
    while k < members.len()
        invariant
            from <= k <= members.len(),
            all_placed(s@, members@, true),
            first_hit(s@, views(members@), name@, from as int) == first_hit(
                s@,
                views(members@),
                name@,
                k as int,
            ),
        decreases members.len() - k,
    {
        assert(placed(s@, members@[k as int], true));
        if key_is(s, members[k].key, name) {
            return k;
        }
        k = k + 1;
    }
    k
}

/// Looks a name up among the members of an object.
pub fn find(s: &[u8], members: &Vec<Member>, name: &[u8]) -> (r: Found)
    requires
        all_placed(s@, members@, true),
    ensures
        r@ == lookup(s@, views(members@), name@),
        r matches Found::One(k) ==> k < members.len(),
{
    let k: usize = find_from(s, members, name, 0);
    if k >= members.len() {
        Found::Absent
    } else if find_from(s, members, name, k + 1) < members.len() {
        Found::Repeated
    } else {
        Found::One(k)
    }
}

/// The number that a decimal digit stands for.
pub open spec fn digit_value(b: u8) -> nat {
    if is_digit(b) {
        (b - 0x30) as nat
    } else {
        0
    }
}

/// The number that the decimal digits from `a` up to `b` spell.
pub open spec fn decimal(s: Seq<u8>, a: int, b: int) -> nat
    decreases b - a,
{
    if a < 0 || b <= a || b > s.len() {
        0
    } else {
        decimal(s, a, b - 1) * 10 + digit_value(s[b - 1])
    }
}

/// Every byte from `a` up to `b` is a decimal digit.
pub open spec fn all_digits(s: Seq<u8>, a: int, b: int) -> bool {
    forall|k: int| a <= k < b ==> is_digit(#[trigger] s[k])
}

/// The number that the bytes from `a` up to `b` spell, if they are one or
/// more decimal digits and the number is at most `max`.
pub open spec fn bounded_decimal(s: Seq<u8>, a: int, b: int, max: nat) -> Option<nat> {
    if 0 <= a < b <= s.len() && all_digits(s, a, b) && decimal(s, a, b) <= max {
        Some(decimal(s, a, b))
    } else {
        None
    }
}

/// More digits spell no smaller number.
pub proof fn lemma_decimal_grows(s: Seq<u8>, a: int, i: int, b: int)
    requires
        0 <= a <= i <= b <= s.len(),
    ensures
        decimal(s, a, i) <= decimal(s, a, b),
    decreases b - i,
{
    if i < b {
        lemma_decimal_grows(s, a, i, b - 1);
    }
}

/// Reads a decimal number of at most `max`.
pub fn read_decimal(s: &[u8], a: usize, b: usize, max: u64) -> (r: Option<u64>)
    requires
        a <= b <= s.len(),
    ensures
        match r {
            Some(n) => bounded_decimal(s@, a as int, b as int, max as nat) == Some(n as nat),
            None => bounded_decimal(s@, a as int, b as int, max as nat) is None,
        },
{
    if a == b {
        return None;
    }
    let mut i: usize = a;
    let mut acc: u64 = 0;
    while i < b
        invariant
            a <= i <= b <= s.len(),
            acc == decimal(s@, a as int, i as int),
            acc <= max,
            all_digits(s@, a as int, i as int),
        decreases b - i,
    {
        let c: u8 = s[i];
        if !byte_is_digit(c) {
            return None;
        }
        let d: u64 = (c - 0x30) as u64;
        if d > max || acc > (max - d) / 10 {
            proof {
                lemma_decimal_grows(s@, a as int, i + 1, b as int);
            }
            return None;
        }
        acc = acc * 10 + d;
        i = i + 1;
    }
    Some(acc)
}

/// The connection id that a value spells: a run of decimal digits whose number
/// fits 64 bits.
pub open spec fn id_at(s: Seq<u8>, v: Piece) -> Option<u64> {
    match bounded_decimal(s, v.start, v.end, u64::MAX as nat) {
        Some(n) => Some(n as u64),
        None => None,
    }
}

/// The ids that the items of an array spell, in order, if there is at least
/// one item and every item spells an id.
pub open spec fn id_list(s: Seq<u8>, items: Seq<Entry>) -> Option<Seq<u64>> {
    if items.len() > 0 && (forall|k: int|
        0 <= k < items.len() ==> id_at(s, (#[trigger] items[k]).value) is Some) {
        Some(Seq::new(items.len(), |k: int| id_at(s, items[k].value).unwrap()))
    } else {
        None
    }
}

/// Reads the items of an array as connection ids.
pub fn read_ids(s: &[u8], items: &Vec<Member>) -> (r: Option<Vec<u64>>)
    requires
        all_placed(s@, items@, false),
    ensures
        match r {
            Some(ids) => id_list(s@, views(items@)) == Some(ids@),
            None => id_list(s@, views(items@)) is None,
        },
{
    if items.len() == 0 {
        return None;
    }
    let mut ids: Vec<u64> = Vec::new();
    let mut k: usize = 0;
    while k < items.len()
        invariant
            k <= items.len(),
            ids.len() == k,
            all_placed(s@, items@, false),
            forall|j: int|
                0 <= j < k ==> id_at(s@, (#[trigger] views(items@)[j]).value) == Some(ids@[j]),
        decreases items.len() - k,
    {
        assert(placed(s@, items@[k as int], false));
        let value: Span = items[k].value;
        match read_decimal(s, value.start, value.end, u64::MAX) {
            None => {
                assert(id_at(s@, views(items@)[k as int].value) is None);
                return None;
            },
            Some(id) => {
                ids.push(id);
            },
        }
        k = k + 1;
    }
    assert(ids@ =~= Seq::new(
        views(items@).len(),
        |k: int| id_at(s@, views(items@)[k].value).unwrap(),
    ));
    Some(ids)
}

} // verus!
