//! What the bus sends is an envelope again: the payload of an envelope holds
//! the same kind, data, context and destination, and is its own payload.

use crate::envelope::{
    array_at, context_default, data_default, destination_of, document, empty_object, envelope,
    envelope_in, kind_of, name_context, name_data, name_destination, name_type, object_at,
    optional_object, payload_of, text_of, EnvelopeView,
};
use crate::json::{
    closer, container, entries, entry_head, is_ws, lemma_ws_end_bounds, text_end, value_end,
    ws_end, Entry, Piece, BACKSLASH, CLOSE_BRACE, COLON, COMMA, MAX_DEPTH, OPEN_BRACE,
    OPEN_BRACKET, QUOTE,
};
use crate::keys::{as_numbers, first_hit, id_list, lemma_first_hit_bounds, lookup, names, spelled, Hit};
use crate::window::{
    all_values, all_within, end_of, items_of, lemma_container_end_after, lemma_container_same,
    lemma_entries_end_after, lemma_first_hit_before, lemma_first_hit_behind,
    lemma_first_hit_same, lemma_head_same, lemma_id_list_same, lemma_lookup_same,
    lemma_value_end_after, lemma_value_same, lemma_ws_same, moved, plain_at, same, shifted, within,
};
use vstd::prelude::*;
use vstd::utf8::{
    is_char_boundary, is_char_boundary_iff_not_is_continuation_byte, is_leading_byte_width_1,
    partial_valid_utf8, partial_valid_utf8_extend_ascii_block, valid_utf8, valid_utf8_split,
};

verus! {

/// A name that can stand between quotes as it is.
pub open spec fn plain_name(name: Seq<u8>) -> bool {
    forall|k: int|
        0 <= k < name.len() ==> (#[trigger] name[k]) >= 0x20 && name[k] != QUOTE && name[k]
            != BACKSLASH
}

/// `,"name":{}`
pub open spec fn default_member(name: Seq<u8>) -> Seq<u8> {
    seq![COMMA, QUOTE] + name + seq![QUOTE, COLON, OPEN_BRACE, CLOSE_BRACE]
}

/// The entry of a member `,"name":{}` whose comma stands at `p`.
pub open spec fn default_entry(p: int, name: Seq<u8>) -> Entry {
    Entry {
        key: Piece { start: p + 2, end: p + 2 + name.len() },
        value: Piece { start: p + name.len() + 4, end: p + name.len() + 6 },
    }
}

/// A string without escapes ends at its quote and spells its bytes.
pub proof fn lemma_plain_text(t: Seq<u8>, i: int, e: int)
    requires
        0 <= i <= e < t.len(),
        forall|k: int| i <= k < e ==> (#[trigger] t[k]) >= 0x20 && t[k] != QUOTE && t[k] != BACKSLASH,
        t[e] == QUOTE,
    ensures
        text_end(t, i) == Some(e + 1),
        spelled(t, i, e) == as_numbers(t.subrange(i, e)),
    decreases e - i,
{
    if i < e {
        lemma_plain_text(t, i + 1, e);
        assert(t[i] >= 0x20 && t[i] != QUOTE && t[i] != BACKSLASH);
        assert(as_numbers(t.subrange(i, e)) =~= seq![t[i] as int] + as_numbers(
            t.subrange(i + 1, e),
        ));
    } else {
        assert(as_numbers(t.subrange(i, e)) =~= Seq::<int>::empty());
    }
}

/// How a member `,"name":{}` reads.
proof fn lemma_default_member(t: Seq<u8>, p: int, name: Seq<u8>, depth: nat)
    requires
        0 <= p,
        p + name.len() + 6 < t.len(),
        t.subrange(p, p + name.len() + 6) == default_member(name),
        plain_name(name),
        depth >= 1,
        !is_ws(t[p + name.len() + 6]),
    ensures
        t[p] == COMMA,
        ws_end(t, p + 1) == p + 1,
        entry_head(t, p + 1, true) == Some((default_entry(p, name).key, p + name.len() + 4)),
        value_end(t, p + name.len() + 4, depth) == Some(p + name.len() + 6),
        container(t, p + name.len() + 4, (depth - 1) as nat) == Some(
            (Seq::<Entry>::empty(), p + name.len() + 6),
        ),
        ws_end(t, p + name.len() + 6) == p + name.len() + 6,
        spelled(t, p + 2, p + 2 + name.len()) == as_numbers(name),
        t[p + name.len() + 4] == OPEN_BRACE,
        t.subrange(p + name.len() + 4, p + name.len() + 6) == empty_object(),
{
    let n: int = name.len() as int;
    let m = default_member(name);
    assert(m.len() == n + 6);
    assert forall|k: int| 0 <= k < n + 6 implies t[p + k] == m[k] by {
        assert(t.subrange(p, p + n + 6)[k] == t[p + k]);
    }
    assert(t[p] == m[0]);
    assert(t[p + 1] == m[1]);
    assert(t[p + n + 2] == m[n + 2]);
    assert(t[p + n + 3] == m[n + 3]);
    assert(t[p + n + 4] == m[n + 4]);
    assert(t[p + n + 5] == m[n + 5]);
    assert forall|k: int| p + 2 <= k < p + 2 + n implies (#[trigger] t[k]) >= 0x20 && t[k]
        != QUOTE && t[k] != BACKSLASH by {
        assert(t[p + (k - p)] == m[k - p]);
        assert(m[k - p] == name[k - p - 2]);
    }
    lemma_plain_text(t, p + 2, p + 2 + n);
    assert(t.subrange(p + 2, p + 2 + n) =~= name) by {
        assert forall|k: int| 0 <= k < n implies t.subrange(p + 2, p + 2 + n)[k] == name[k] by {
            assert(t[p + (k + 2)] == m[k + 2]);
        }
    }
    assert(t.subrange(p + n + 4, p + n + 6) =~= empty_object());
}

/// How the entries read that end with one member `,"name":{}`.
proof fn lemma_one_default(t: Seq<u8>, p: int, name: Seq<u8>, depth: nat)
    requires
        0 <= p,
        p + name.len() + 6 < t.len(),
        t.subrange(p, p + name.len() + 6) == default_member(name),
        plain_name(name),
        depth >= 1,
        t[p + name.len() + 6] == CLOSE_BRACE,
    ensures
        entries(t, p + 1, depth, true) == Some(
            (seq![default_entry(p, name)], p + name.len() + 7),
        ),
{
    lemma_default_member(t, p, name, depth);
}

/// How the entries read that end with two such members.
proof fn lemma_two_defaults(t: Seq<u8>, p: int, first: Seq<u8>, second: Seq<u8>, depth: nat)
    requires
        0 <= p,
        p + first.len() + 6 + second.len() + 6 < t.len(),
        t.subrange(p, p + first.len() + 6) == default_member(first),
        t.subrange(p + first.len() + 6, p + first.len() + 6 + second.len() + 6) == default_member(
            second,
        ),
        plain_name(first),
        plain_name(second),
        depth >= 1,
        t[p + first.len() + 6 + second.len() + 6] == CLOSE_BRACE,
    ensures
        entries(t, p + 1, depth, true) == Some(
            (
                seq![default_entry(p, first), default_entry(p + first.len() + 6, second)],
                p + first.len() + 6 + second.len() + 7,
            ),
        ),
{
    let q: int = p + first.len() + 6;
    lemma_one_default(t, q, second, depth);
    lemma_default_member(t, q, second, depth);
    lemma_default_member(t, p, first, depth);
    assert(seq![default_entry(p, first)] + seq![default_entry(q, second)] =~= seq![
        default_entry(p, first),
        default_entry(q, second),
    ]);
}

/// Entries whose closing brace gives way to a comma and more entries read as
/// before, with the new entries behind them.
#[verifier::rlimit(40)]
proof fn lemma_entries_extended(
    s: Seq<u8>,
    t: Seq<u8>,
    d: int,
    i: int,
    depth: nat,
    more: Seq<Entry>,
    end: int,
)
    requires
        entries(s, i, depth, true) is Some,
        same(s, t, d, i, end_of(entries(s, i, depth, true)) - 1),
        end_of(entries(s, i, depth, true)) - d < t.len(),
        t[end_of(entries(s, i, depth, true)) - 1 - d] == COMMA,
        ws_end(t, end_of(entries(s, i, depth, true)) - d) == end_of(entries(s, i, depth, true))
            - d,
        entries(t, end_of(entries(s, i, depth, true)) - d, depth, true) == Some((more, end)),
    ensures
        entries(t, i - d, depth, true) == Some(
            (shifted(items_of(entries(s, i, depth, true)), d) + more, end),
        ),
    decreases s.len() - i,
{
    let c = entries(s, i, depth, true)->0;
    let hi: int = c.1 - 1;
    lemma_entries_end_after(s, i, depth, true);
    let head = entry_head(s, i, true)->0;
    lemma_value_end_after(s, head.1, depth);
    let ve: int = value_end(s, head.1, depth)->0;
    lemma_ws_end_bounds(s, ve);
    let j: int = ws_end(s, ve);
    let entry = Entry { key: head.0, value: Piece { start: head.1, end: ve } };
    let entry_t = Entry { key: moved(head.0, d), value: Piece { start: head.1 - d, end: ve - d } };
    if s[j] == CLOSE_BRACE {
        assert(j == hi);
    } else {
        lemma_ws_end_bounds(s, j + 1);
        lemma_entries_end_after(s, ws_end(s, j + 1), depth, true);
        assert(j < hi);
        assert(s[j] == t[j - d]);
    }
    assert(t[j - d] == COMMA);
    lemma_head_same(s, t, d, i, true, hi);
    assert(plain_at(t, ve - d)) by {
        if ve < j {
            assert(is_ws(s[ve]));
            assert(s[ve] == t[ve - d]);
        }
    }
    lemma_value_same(s, t, d, head.1, ve, depth);
    lemma_ws_same(s, t, d, ve);
    if s[j] == CLOSE_BRACE {
        assert(shifted(seq![entry], d) + more =~= seq![entry_t] + more);
    } else {
        let n: int = ws_end(s, j + 1);
        assert(n < hi) by {
            if n == hi {
                assert(s[n] == CLOSE_BRACE);
            }
        }
        assert(s[n] == t[n - d]);
        lemma_ws_same(s, t, d, j + 1);
        lemma_entries_extended(s, t, d, n, depth, more, end);
        let rest = entries(s, n, depth, true)->0;
        assert(shifted(seq![entry] + rest.0, d) + more =~= seq![entry_t] + (shifted(rest.0, d)
            + more));
    }
}

/// The members of a frame's object.
pub open spec fn members(s: Seq<u8>) -> Seq<Entry> {
    match document(s) {
        Some(doc) => doc.1,
        None => Seq::empty(),
    }
}

/// The entries that `payload_of` adds behind the `len` bytes that it copies.
pub open spec fn added_entries(len: int, has_data: bool, has_context: bool) -> Seq<Entry> {
    (if has_data {
        Seq::<Entry>::empty()
    } else {
        seq![default_entry(len, name_data())]
    }) + (if has_context {
        Seq::<Entry>::empty()
    } else {
        seq![default_entry(
            if has_data {
                len
            } else {
                len + 10
            },
            name_context(),
        )]
    })
}

proof fn lemma_names_are_plain()
    ensures
        plain_name(name_data()),
        plain_name(name_context()),
        name_data().len() == 4,
        name_context().len() == 7,
        default_member(name_data()) == data_default(),
        default_member(name_context()) == context_default(),
        data_default().len() == 10,
        context_default().len() == 13,
{
    assert(default_member(name_data()) =~= data_default());
    assert(default_member(name_context()) =~= context_default());
}

/// The bytes that follow the copied object in a payload: the added members
/// and the closing brace.
pub open spec fn tail_of(has_data: bool, has_context: bool) -> Seq<u8> {
    (if has_data {
        Seq::<u8>::empty()
    } else {
        data_default()
    }) + (if has_context {
        Seq::<u8>::empty()
    } else {
        context_default()
    }) + seq![CLOSE_BRACE]
}

/// A text that ends, from `len` on, with the added members and the closing
/// brace.
pub open spec fn ends_with_tail(t: Seq<u8>, len: int, has_data: bool, has_context: bool) -> bool {
    0 <= len <= t.len() && t.subrange(len, t.len() as int) == tail_of(has_data, has_context)
}

/// Each added member is an empty object under its name.
pub open spec fn added_as_named(
    t: Seq<u8>,
    len: int,
    has_data: bool,
    has_context: bool,
    depth: nat,
) -> bool {
    let more = added_entries(len, has_data, has_context);
    &&& more.len() == (if has_data {
        0int
    } else {
        1int
    }) + (if has_context {
        0int
    } else {
        1int
    })
    &&& forall|k: int|
        0 <= k < more.len() ==> {
            &&& text_of(t, (#[trigger] more[k]).value) == empty_object()
            &&& t[more[k].value.start] == OPEN_BRACE
            &&& container(t, more[k].value.start, depth) == Some(
                (Seq::<Entry>::empty(), more[k].value.end),
            )
        }
    &&& !has_data ==> spelled(t, more[0].key.start, more[0].key.end) == as_numbers(name_data())
    &&& !has_context ==> spelled(
        t,
        more[more.len() - 1].key.start,
        more[more.len() - 1].key.end,
    ) == as_numbers(name_context())
}

/// How the added members read.
#[verifier::rlimit(40)]
proof fn lemma_tail_entries(t: Seq<u8>, len: int, has_data: bool, has_context: bool, depth: nat)
    requires
        ends_with_tail(t, len, has_data, has_context),
        !(has_data && has_context),
        depth >= 1,
    ensures
        t[len] == COMMA,
        ws_end(t, len + 1) == len + 1,
        entries(t, len + 1, depth, true) == Some(
            (added_entries(len, has_data, has_context), t.len() as int),
        ),
        added_as_named(t, len, has_data, has_context, (depth - 1) as nat),
{
    lemma_names_are_plain();
    let tail = tail_of(has_data, has_context);
    assert forall|k: int| 0 <= k < tail.len() implies t[len + k] == tail[k] by {
        assert(t.subrange(len, t.len() as int)[k] == t[len + k]);
    }
    let more = added_entries(len, has_data, has_context);
    if !has_data && !has_context {
        assert(tail.len() == 24);
        assert(t.subrange(len, len + 10) =~= data_default()) by {
            assert forall|k: int| 0 <= k < 10 implies t.subrange(len, len + 10)[k]
                == data_default()[k] by {
                assert(t[len + k] == tail[k]);
            }
        }
        assert(t.subrange(len + 10, len + 23) =~= context_default()) by {
            assert forall|k: int| 0 <= k < 13 implies t.subrange(len + 10, len + 23)[k]
                == context_default()[k] by {
                assert(t[len + (k + 10)] == tail[k + 10]);
            }
        }
        assert(t[len + 23] == tail[23]);
        lemma_two_defaults(t, len, name_data(), name_context(), depth);
        assert(t[len + 10] == tail[10]);
        lemma_default_member(t, len, name_data(), depth);
        lemma_default_member(t, len + 10, name_context(), depth);
        assert(more =~= seq![
            default_entry(len, name_data()),
            default_entry(len + 10, name_context()),
        ]);
    } else if !has_data {
        assert(tail.len() == 11);
        assert(tail =~= data_default() + seq![CLOSE_BRACE]);
        assert(t.subrange(len, len + 10) =~= data_default()) by {
            assert forall|k: int| 0 <= k < 10 implies t.subrange(len, len + 10)[k]
                == data_default()[k] by {
                assert(t[len + k] == tail[k]);
            }
        }
        assert(t[len + 10] == tail[10]);
        lemma_one_default(t, len, name_data(), depth);
        lemma_default_member(t, len, name_data(), depth);
        assert(more =~= seq![default_entry(len, name_data())]);
    } else {
        assert(tail.len() == 14);
        assert(tail =~= context_default() + seq![CLOSE_BRACE]);
        assert(t.subrange(len, len + 13) =~= context_default()) by {
            assert forall|k: int| 0 <= k < 13 implies t.subrange(len, len + 13)[k]
                == context_default()[k] by {
                assert(t[len + k] == tail[k]);
            }
        }
        assert(t[len + 13] == tail[13]);
        lemma_one_default(t, len, name_context(), depth);
        lemma_default_member(t, len, name_context(), depth);
        assert(more =~= seq![default_entry(len, name_context())]);
    }
}

/// The shape of a payload: the copied object, then the tail.
proof fn lemma_payload_shape(
    s: Seq<u8>,
    open: int,
    end: int,
    has_data: bool,
    has_context: bool,
)
    requires
        0 <= open < end - 1,
        end <= s.len(),
    ensures
        ({
            let t = payload_of(s, open, end, has_data, has_context);
            &&& t.len() == end - 1 - open + tail_of(has_data, has_context).len()
            &&& same(s, t, open, open, end - 1)
            &&& ends_with_tail(t, end - 1 - open, has_data, has_context)
            &&& t[t.len() - 1] == CLOSE_BRACE
            &&& t.subrange(0, t.len() - 1) + seq![CLOSE_BRACE] == t
        }),
{
    let t = payload_of(s, open, end, has_data, has_context);
    let copied = s.subrange(open, end - 1);
    let tail = tail_of(has_data, has_context);
    assert(t =~= copied + tail);
    assert forall|k: int| open <= k < end - 1 implies #[trigger] s[k] == t[k - open] by {
        assert(copied[k - open] == s[k]);
    }
    assert(t.subrange(end - 1 - open, t.len() as int) =~= tail);
    assert(t.subrange(0, t.len() - 1) + seq![CLOSE_BRACE] =~= t);
}

/// The copied object with the added members is an object: it holds the
/// members of the frame's object, each where it was copied to, and behind
/// them the added ones.
#[verifier::rlimit(40)]
proof fn lemma_payload_container(
    s: Seq<u8>,
    t: Seq<u8>,
    open: int,
    has_data: bool,
    has_context: bool,
    depth: nat,
)
    requires
        object_at(s, open, depth) is Some,
        items_of(object_at(s, open, depth)).len() >= 1,
        depth >= 1,
        same(s, t, open, open, end_of(object_at(s, open, depth)) - 1),
        ends_with_tail(t, end_of(object_at(s, open, depth)) - 1 - open, has_data, has_context),
    ensures
        object_at(t, 0, depth) == Some(
            (
                shifted(items_of(object_at(s, open, depth)), open) + added_entries(
                    end_of(object_at(s, open, depth)) - 1 - open,
                    has_data,
                    has_context,
                ),
                t.len() as int,
            ),
        ),
        !(has_data && has_context) ==> added_as_named(
            t,
            end_of(object_at(s, open, depth)) - 1 - open,
            has_data,
            has_context,
            (depth - 1) as nat,
        ),
{
    let c = container(s, open, depth)->0;
    let es = c.0;
    let end: int = c.1;
    let len: int = end - 1 - open;
    lemma_container_end_after(s, open, depth);
    lemma_ws_end_bounds(s, open + 1);
    let j: int = ws_end(s, open + 1);
    assert(entries(s, j, depth, true) == Some((es, end)));
    lemma_entries_end_after(s, j, depth, true);
    assert(j < end - 1) by {
        if j == end - 1 {
            assert(s[j] == CLOSE_BRACE);
        }
    }
    assert(s[open] == t[0]);
    assert(s[j] == t[j - open]);
    lemma_ws_same(s, t, open, open + 1);
    assert(ws_end(t, 1) == j - open);
    let more = added_entries(len, has_data, has_context);
    if has_data && has_context {
        assert(t.subrange(len, t.len() as int)[0] == t[len]);
        assert(t[end - 1 - open] == s[end - 1]);
        assert(t.len() == len + 1) by {
            assert(t.subrange(len, t.len() as int).len() == 1);
        }
        assert(same(s, t, open, open, end));
        lemma_container_same(s, t, open, open, depth);
        assert(shifted(es, open) + more =~= shifted(es, open));
    } else {
        lemma_tail_entries(t, len, has_data, has_context, depth);
        lemma_entries_extended(s, t, open, j, depth, more, t.len() as int);
        assert(t[j - open] != CLOSE_BRACE);
        assert(container(t, 0, depth) == entries(t, j - open, depth, true));
    }
}

/// The object of a frame, copied with the members that `payload_of` adds, is
/// a document.
#[verifier::rlimit(40)]
proof fn lemma_payload_document(s: Seq<u8>, has_data: bool, has_context: bool)
    requires
        document(s) is Some,
        members(s).len() >= 1,
    ensures
        ({
            let doc = document(s)->0;
            let t = payload_of(s, doc.0, doc.2, has_data, has_context);
            &&& 0 <= doc.0 < doc.2 - 1
            &&& doc.2 <= s.len()
            &&& same(s, t, doc.0, doc.0, doc.2 - 1)
            &&& ends_with_tail(t, doc.2 - 1 - doc.0, has_data, has_context)
            &&& t.subrange(0, t.len() - 1) + seq![CLOSE_BRACE] == t
            &&& all_within(doc.1, doc.0 + 1, doc.2 - 1)
            &&& all_values(s, doc.1, (MAX_DEPTH - 1) as nat)
            &&& !(has_data && has_context) ==> added_as_named(
                t,
                doc.2 - 1 - doc.0,
                has_data,
                has_context,
                (MAX_DEPTH - 2) as nat,
            )
            &&& document(t) == Some(
                (
                    0int,
                    shifted(doc.1, doc.0) + added_entries(
                        doc.2 - 1 - doc.0,
                        has_data,
                        has_context,
                    ),
                    t.len() as int,
                ),
            )
        }),
{
    let doc = document(s)->0;
    let open: int = doc.0;
    let end: int = doc.2;
    let depth: nat = (MAX_DEPTH - 1) as nat;
    let t = payload_of(s, open, end, has_data, has_context);
    lemma_ws_end_bounds(s, 0);
    lemma_container_end_after(s, open, depth);
    lemma_payload_shape(s, open, end, has_data, has_context);
    lemma_payload_container(s, t, open, has_data, has_context, depth);
    assert(s[open] == t[0]);
    assert(ws_end(t, 0) == 0);
    assert(ws_end(t, t.len() as int) == t.len());
}

/// A lookup in entries with others behind them, where the others do not
/// have the name or the entries do not have it.
proof fn lemma_lookup_appended(t: Seq<u8>, a: Seq<Entry>, b: Seq<Entry>, name: Seq<u8>)
    ensures
        lookup(t, b, name) is Absent ==> lookup(t, a + b, name) == lookup(t, a, name),
        lookup(t, a, name) is Absent ==> (lookup(t, b, name) matches Hit::One(x) ==> lookup(
            t,
            a + b,
            name,
        ) == Hit::One(a.len() + x)),
{
    lemma_first_hit_before(t, a, b, name, 0);
    lemma_first_hit_bounds(t, a, name, 0);
    lemma_first_hit_bounds(t, b, name, 0);
    let k: int = first_hit(t, a, name, 0);
    let x: int = first_hit(t, b, name, 0);
    if k < a.len() {
        lemma_first_hit_before(t, a, b, name, k + 1);
        lemma_first_hit_bounds(t, a, name, k + 1);
    } else if x < b.len() {
        lemma_first_hit_behind(t, a, b, name, x + 1);
        lemma_first_hit_bounds(t, b, name, x + 1);
    }
}

/// The three names differ.
pub proof fn lemma_names_differ()
    ensures
        as_numbers(name_type()) != as_numbers(name_data()),
        as_numbers(name_type()) != as_numbers(name_context()),
        as_numbers(name_data()) != as_numbers(name_context()),
        as_numbers(name_destination()) != as_numbers(name_data()),
{
    assert(as_numbers(name_type())[0] != as_numbers(name_data())[0]);
    assert(as_numbers(name_type())[0] != as_numbers(name_context())[0]);
    assert(as_numbers(name_data())[0] != as_numbers(name_context())[0]);
    assert(as_numbers(name_destination()).len() != as_numbers(name_data()).len());
}

/// Where a name is found among the added members.
proof fn lemma_added_lookup(
    t: Seq<u8>,
    len: int,
    has_data: bool,
    has_context: bool,
    name: Seq<u8>,
)
    requires
        added_as_named(t, len, has_data, has_context, (MAX_DEPTH - 2) as nat),
    ensures
        ({
            let more = added_entries(len, has_data, has_context);
            &&& as_numbers(name) != as_numbers(name_data()) && as_numbers(name) != as_numbers(
                name_context(),
            ) ==> lookup(t, more, name) is Absent
            &&& has_data ==> lookup(t, more, name_data()) is Absent
            &&& has_context ==> lookup(t, more, name_context()) is Absent
            &&& !has_data ==> lookup(t, more, name_data()) == Hit::One(0)
            &&& !has_context ==> lookup(t, more, name_context()) == Hit::One(more.len() - 1)
        }),
{
    lemma_names_differ();
    reveal_with_fuel(first_hit, 4);
}

/// Bytes that are copied are the same text.
proof fn lemma_text_of_same(s: Seq<u8>, t: Seq<u8>, d: int, p: Piece)
    requires
        0 <= p.start <= p.end,
        same(s, t, d, p.start, p.end),
    ensures
        text_of(t, moved(p, d)) == text_of(s, p),
{
    assert forall|k: int| 0 <= k < p.end - p.start implies text_of(t, moved(p, d))[k] == text_of(
        s,
        p,
    )[k] by {
        assert(s[p.start + k] == t[p.start + k - d]);
    }
    assert(text_of(t, moved(p, d)) =~= text_of(s, p));
}

/// What the lookups by the three names find in a payload.
proof fn lemma_payload_lookup(
    s: Seq<u8>,
    t: Seq<u8>,
    d: int,
    es: Seq<Entry>,
    len: int,
    has_data: bool,
    has_context: bool,
    name: Seq<u8>,
    lo: int,
    hi: int,
)
    requires
        same(s, t, d, lo, hi),
        all_within(es, lo, hi),
        added_as_named(t, len, has_data, has_context, (MAX_DEPTH - 2) as nat),
        name == name_type() || name == name_data() || name == name_context(),
        name == name_data() ==> (has_data || lookup(s, es, name) is Absent),
        name == name_context() ==> (has_context || lookup(s, es, name) is Absent),
    ensures
        ({
            let more = added_entries(len, has_data, has_context);
            let found = lookup(t, shifted(es, d) + more, name);
            &&& name == name_type() ==> found == lookup(s, es, name)
            &&& name == name_data() && has_data ==> found == lookup(s, es, name)
            &&& name == name_context() && has_context ==> found == lookup(s, es, name)
            &&& name == name_data() && !has_data ==> found == Hit::One(es.len() as int)
            &&& name == name_context() && !has_context ==> found == Hit::One(
                es.len() + more.len() - 1,
            )
            &&& lookup(s, es, name) matches Hit::One(k) ==> 0 <= k < es.len()
        }),
{
    let more = added_entries(len, has_data, has_context);
    lemma_names_differ();
    lemma_lookup_same(s, t, d, es, name, lo, hi);
    lemma_added_lookup(t, len, has_data, has_context, name);
    lemma_lookup_appended(t, shifted(es, d), more, name);
    lemma_first_hit_bounds(s, es, name, 0);
}

/// A context that is copied names in the copy the recipients that it named
/// where it stood.
#[verifier::rlimit(40)]
proof fn lemma_destination_same(s: Seq<u8>, t: Seq<u8>, d: int, p: Piece)
    requires
        same(s, t, d, p.start, p.end),
        value_end(s, p.start, (MAX_DEPTH - 1) as nat) == Some(p.end),
        s[p.start] == OPEN_BRACE,
    ensures
        destination_of(t, Some(moved(p, d))) == destination_of(s, Some(p)),
{
    let outer: nat = (MAX_DEPTH - 2) as nat;
    let inner: nat = (MAX_DEPTH - 3) as nat;
    lemma_value_end_after(s, p.start, (MAX_DEPTH - 1) as nat);
    let c = container(s, p.start, outer)->0;
    assert(c.1 == p.end);
    lemma_container_end_after(s, p.start, outer);
    lemma_container_same(s, t, d, p.start, outer);
    assert(s[p.start] == t[p.start - d]);
    assert(all_within(c.0, p.start, p.end)) by {
        assert forall|k: int| 0 <= k < c.0.len() implies within(
            #[trigger] c.0[k],
            p.start,
            p.end,
        ) by {
            assert(within(c.0[k], p.start + 1, p.end - 1));
        }
    }
    lemma_lookup_same(s, t, d, c.0, name_destination(), p.start, p.end);
    lemma_first_hit_bounds(s, c.0, name_destination(), 0);
    match lookup(s, c.0, name_destination()) {
        Hit::One(m) => {
            let v = c.0[m].value;
            assert(within(c.0[m], p.start + 1, p.end - 1));
            assert(shifted(c.0, d)[m].value == moved(v, d));
            assert(s[v.start] == t[v.start - d]);
            if s[v.start] == OPEN_BRACKET {
                assert(value_end(s, v.start, outer) == Some(v.end));
                let items = container(s, v.start, inner)->0;
                assert(items.1 == v.end);
                lemma_container_end_after(s, v.start, inner);
                lemma_container_same(s, t, d, v.start, inner);
                assert(all_within(items.0, v.start, v.end)) by {
                    assert forall|k: int| 0 <= k < items.0.len() implies within(
                        #[trigger] items.0[k],
                        v.start,
                        v.end,
                    ) by {
                        assert(within(items.0[k], v.start + 1, v.end - 1));
                    }
                }
                lemma_id_list_same(s, t, d, items.0, v.start, v.end);
            }
        },
        _ => {},
    }
}

/// A payload is UTF-8 where the frame is.
proof fn lemma_payload_utf8(
    s: Seq<u8>,
    open: int,
    end: int,
    has_data: bool,
    has_context: bool,
)
    requires
        valid_utf8(s),
        0 <= open < end - 1,
        end <= s.len(),
        s[open] == OPEN_BRACE,
        s[end - 1] == CLOSE_BRACE,
    ensures
        valid_utf8(payload_of(s, open, end, has_data, has_context)),
{
    let t = payload_of(s, open, end, has_data, has_context);
    let len: int = end - 1 - open;
    lemma_payload_shape(s, open, end, has_data, has_context);
    lemma_names_are_plain();
    let from_open = s.subrange(open, s.len() as int);
    is_char_boundary_iff_not_is_continuation_byte(s, open);
    valid_utf8_split(s, open);
    assert(from_open[len] == s[end - 1]);
    is_char_boundary_iff_not_is_continuation_byte(from_open, len);
    valid_utf8_split(from_open, len);
    assert(from_open.subrange(0, len) =~= s.subrange(open, end - 1));
    assert(t.subrange(0, len) =~= s.subrange(open, end - 1)) by {
        assert forall|k: int| 0 <= k < len implies t.subrange(0, len)[k] == s.subrange(
            open,
            end - 1,
        )[k] by {
            assert(s[open + k] == t[open + k - open]);
        }
    }
    assert(partial_valid_utf8(t, len));
    let tail = tail_of(has_data, has_context);
    assert forall|i: int| len <= i < t.len() implies #[trigger] is_leading_byte_width_1(t[i]) by {
        assert(t.subrange(len, t.len() as int)[i - len] == t[i]);
        assert(tail[i - len] < 0x80);
    }
    partial_valid_utf8_extend_ascii_block(t, len, t.len() as int);
    assert(t.subrange(0, t.len() as int) =~= t);
}

/// What a payload `t` has of the frame `s`: the members `es` of the frame's
/// object, copied from between `open` and `end - 1`, and the added members.
pub open spec fn copied(
    s: Seq<u8>,
    t: Seq<u8>,
    open: int,
    end: int,
    es: Seq<Entry>,
    has_data: bool,
    has_context: bool,
) -> bool {
    &&& same(s, t, open, open, end - 1)
    &&& all_within(es, open, end - 1)
    &&& all_values(s, es, (MAX_DEPTH - 1) as nat)
    &&& added_as_named(t, end - 1 - open, has_data, has_context, (MAX_DEPTH - 2) as nat)
    &&& optional_object(s, es, name_data()) is Some
    &&& optional_object(s, es, name_context()) is Some
    &&& has_data == (optional_object(s, es, name_data())->0 is Some)
    &&& has_context == (optional_object(s, es, name_context())->0 is Some)
}

/// The members of a payload.
pub open spec fn payload_entries(
    es: Seq<Entry>,
    open: int,
    end: int,
    has_data: bool,
    has_context: bool,
) -> Seq<Entry> {
    shifted(es, open) + added_entries(end - 1 - open, has_data, has_context)
}

/// The kind of a payload is the kind of the frame.
#[verifier::rlimit(40)]
proof fn lemma_payload_kind(
    s: Seq<u8>,
    t: Seq<u8>,
    open: int,
    end: int,
    es: Seq<Entry>,
    has_data: bool,
    has_context: bool,
)
    requires
        copied(s, t, open, end, es, has_data, has_context),
        kind_of(s, es) is Some,
    ensures
        kind_of(t, payload_entries(es, open, end, has_data, has_context)) is Some,
        text_of(t, kind_of(t, payload_entries(es, open, end, has_data, has_context))->0)
            == text_of(s, kind_of(s, es)->0),
{
    let all = payload_entries(es, open, end, has_data, has_context);
    let kind = kind_of(s, es)->0;
    lemma_payload_lookup(
        s,
        t,
        open,
        es,
        end - 1 - open,
        has_data,
        has_context,
        name_type(),
        open,
        end - 1,
    );
    let k: int = first_hit(s, es, name_type(), 0);
    assert(lookup(s, es, name_type()) == Hit::One(k));
    assert(within(es[k], open, end - 1));
    assert(all[k] == shifted(es, open)[k]);
    assert(s[es[k].value.start] == t[es[k].value.start - open]);
    lemma_same_narrowed(s, t, open, open, end - 1, kind);
    lemma_text_of_same(s, t, open, kind);
    assert(kind_of(t, all) == Some(moved(kind, open)));
}

/// The destination of a payload is the destination of the frame.
#[verifier::rlimit(40)]
proof fn lemma_payload_destination(
    s: Seq<u8>,
    t: Seq<u8>,
    open: int,
    end: int,
    es: Seq<Entry>,
    has_data: bool,
    has_context: bool,
)
    requires
        copied(s, t, open, end, es, has_data, has_context),
    ensures
        optional_object(
            t,
            payload_entries(es, open, end, has_data, has_context),
            name_context(),
        ) matches Some(Some(p)) && destination_of(t, Some(p)) == destination_of(
            s,
            optional_object(s, es, name_context())->0,
        ),
{
    let context = optional_object(s, es, name_context())->0;
    let context_t: Piece = lemma_payload_object(
        s,
        t,
        open,
        es,
        end - 1 - open,
        has_data,
        has_context,
        false,
        end,
    );
    if has_context {
        let p = context->0;
        lemma_first_hit_bounds(s, es, name_context(), 0);
        let n: int = first_hit(s, es, name_context(), 0);
        assert(within(es[n], open, end - 1));
        assert(value_end(s, es[n].value.start, (MAX_DEPTH - 1) as nat) == Some(es[n].value.end));
        lemma_same_narrowed(s, t, open, open, end - 1, p);
        lemma_destination_same(s, t, open, p);
    } else {
        assert(destination_of(t, Some(context_t)) == Some(Seq::<u64>::empty())) by {
            reveal_with_fuel(first_hit, 2);
        }
    }
}

/// The parts of a payload are the parts of the frame.
#[verifier::rlimit(40)]
proof fn lemma_payload_parts(s: Seq<u8>, has_data: bool, has_context: bool)
    requires
        envelope(s) is Some,
        has_data == (optional_object(s, members(s), name_data())->0 is Some),
        has_context == (optional_object(s, members(s), name_context())->0 is Some),
    ensures
        ({
            let doc = document(s)->0;
            let es = doc.1;
            let t = payload_of(s, doc.0, doc.2, has_data, has_context);
            let all = payload_entries(es, doc.0, doc.2, has_data, has_context);
            &&& valid_utf8(t)
            &&& document(t) == Some((0int, all, t.len() as int))
            &&& kind_of(t, all) is Some
            &&& text_of(t, kind_of(t, all)->0) == text_of(s, kind_of(s, es)->0)
            &&& optional_object(t, all, name_data()) matches Some(Some(p)) && text_of(t, p)
                == match optional_object(s, es, name_data())->0 {
                Some(q) => text_of(s, q),
                None => empty_object(),
            }
            &&& optional_object(t, all, name_context()) matches Some(Some(p)) && text_of(t, p)
                == match optional_object(s, es, name_context())->0 {
                Some(q) => text_of(s, q),
                None => empty_object(),
            } && destination_of(t, Some(p)) == destination_of(
                s,
                optional_object(s, es, name_context())->0,
            )
            &&& payload_of(t, 0, t.len() as int, true, true) == t
        }),
{
    let doc = document(s)->0;
    let open: int = doc.0;
    let end: int = doc.2;
    let es = doc.1;
    let t = payload_of(s, open, end, has_data, has_context);
    let len: int = end - 1 - open;
    lemma_first_hit_bounds(s, es, name_type(), 0);
    assert(es.len() >= 1);
    lemma_payload_document(s, has_data, has_context);
    lemma_container_end_after(s, open, (MAX_DEPTH - 1) as nat);
    lemma_payload_utf8(s, open, end, has_data, has_context);
    assert(all_within(es, open, end - 1)) by {
        assert forall|k: int| 0 <= k < es.len() implies within(#[trigger] es[k], open, end - 1) by {
            assert(within(es[k], open + 1, end - 1));
        }
    }
    if has_data && has_context {
        assert(added_entries(len, has_data, has_context) =~= Seq::<Entry>::empty());
    }
    assert(copied(s, t, open, end, es, has_data, has_context));
    lemma_payload_kind(s, t, open, end, es, has_data, has_context);
    lemma_payload_object(s, t, open, es, len, has_data, has_context, true, end);
    lemma_payload_object(s, t, open, es, len, has_data, has_context, false, end);
    lemma_payload_destination(s, t, open, end, es, has_data, has_context);
    assert(payload_of(t, 0, t.len() as int, true, true) =~= t);
}

/// The payload of an envelope is an envelope: the same one, but that it is
/// its own payload. So what a recipient reads in what it gets is the kind,
/// the data, the context and the destination that the sender wrote, and
/// relaying a payload once more changes nothing.
pub proof fn law_payload_is_the_same_envelope(frame: Seq<u8>)
    requires
        envelope(frame) is Some,
    ensures
        envelope(envelope(frame)->0.payload) == envelope(frame),
{
    let es = members(frame);
    let has_data: bool = optional_object(frame, es, name_data())->0 is Some;
    let has_context: bool = optional_object(frame, es, name_context())->0 is Some;
    lemma_payload_parts(frame, has_data, has_context);
}

/// A window that holds a piece holds it when narrowed to the piece.
proof fn lemma_same_narrowed(s: Seq<u8>, t: Seq<u8>, d: int, lo: int, hi: int, p: Piece)
    requires
        same(s, t, d, lo, hi),
        lo <= p.start <= p.end <= hi,
    ensures
        same(s, t, d, p.start, p.end),
{
}

/// The member `data` (or `context`) of a payload: the copied one where the
/// frame has one, else the added one, an empty object.
#[verifier::rlimit(40)]
proof fn lemma_payload_object(
    s: Seq<u8>,
    t: Seq<u8>,
    d: int,
    es: Seq<Entry>,
    len: int,
    has_data: bool,
    has_context: bool,
    data: bool,
    end: int,
) -> (r: Piece)
    requires
        same(s, t, d, d, end - 1),
        all_within(es, d, end - 1),
        added_as_named(t, len, has_data, has_context, (MAX_DEPTH - 2) as nat),
        optional_object(s, es, name_data()) is Some,
        optional_object(s, es, name_context()) is Some,
        has_data == (optional_object(s, es, name_data())->0 is Some),
        has_context == (optional_object(s, es, name_context())->0 is Some),
    ensures
        ({
            let name = if data {
                name_data()
            } else {
                name_context()
            };
            let all = shifted(es, d) + added_entries(len, has_data, has_context);
            &&& optional_object(t, all, name) == Some(Some(r))
            &&& text_of(t, r) == match optional_object(s, es, name)->0 {
                Some(p) => text_of(s, p),
                None => empty_object(),
            }
            &&& optional_object(s, es, name)->0 matches Some(p) ==> r == moved(p, d)
            &&& optional_object(s, es, name)->0 is None ==> container(
                t,
                r.start,
                (MAX_DEPTH - 2) as nat,
            ) == Some((Seq::<Entry>::empty(), r.end)) && t[r.start] == OPEN_BRACE && 0 <= r.start
                < t.len()
        }),
{
    let name = if data {
        name_data()
    } else {
        name_context()
    };
    let more = added_entries(len, has_data, has_context);
    let all = shifted(es, d) + more;
    lemma_payload_lookup(s, t, d, es, len, has_data, has_context, name, d, end - 1);
    lemma_first_hit_bounds(s, es, name, 0);
    let present: bool = if data {
        has_data
    } else {
        has_context
    };
    if present {
        let k: int = first_hit(s, es, name, 0);
        let p = es[k].value;
        assert(within(es[k], d, end - 1));
        assert(all[k] == shifted(es, d)[k]);
        assert(s[p.start] == t[p.start - d]);
        lemma_same_narrowed(s, t, d, d, end - 1, p);
        lemma_text_of_same(s, t, d, p);
        moved(p, d)
    } else {
        let x: int = if data {
            es.len() as int
        } else {
            es.len() + more.len() - 1
        };
        assert(all[x] == more[x - es.len()]);
        lemma_container_end_after(t, all[x].value.start, (MAX_DEPTH - 2) as nat);
        all[x].value
    }
}

} // verus!
