//! The two notices that the bus itself sends are envelopes of the kind
//! `error`, for nobody but the connection they are queued for.

use crate::envelope::{
    destination_of, document, empty_object, envelope, kind_of, malformed_notice, name_context,
    name_data, name_destination, name_type, optional_object, oversize_notice, payload_of, text_of,
    EnvelopeView, MALFORMED_NOTICE, OVERSIZE_NOTICE,
};
use crate::json::{
    container, entries, entry_head, text_end, value_end, ws_end, Entry, Piece, CLOSE_BRACE, COLON,
    COMMA, MAX_DEPTH, OPEN_BRACE, QUOTE,
};
use crate::keys::{as_numbers, first_hit, lookup, names, spelled, Hit};
use crate::payload::{lemma_names_differ, lemma_plain_text, plain_name};
use crate::window::{end_of, items_of};
use vstd::prelude::*;
use vstd::string::StringSliceAdditionalSpecFns;
use vstd::utf8::{
    is_ascii_chars, is_ascii_chars_encode_utf8, is_leading_byte_width_1, partial_valid_utf8,
    partial_valid_utf8_extend_ascii_block, valid_utf8,
};

verus! {

/// `error`
pub open spec fn name_error() -> Seq<u8> {
    seq!['e' as u8, 'r' as u8, 'r' as u8, 'o' as u8, 'r' as u8]
}

/// `{"type":"error","data":{"error":"`
pub open spec fn notice_head() -> Seq<u8> {
    seq![OPEN_BRACE, QUOTE] + name_type() + seq![QUOTE, COLON, QUOTE] + name_error() + seq![
        QUOTE,
        COMMA,
        QUOTE,
    ] + name_data() + seq![QUOTE, COLON, OPEN_BRACE, QUOTE] + name_error() + seq![
        QUOTE,
        COLON,
        QUOTE,
    ]
}

/// `"},"context":{}}`
pub open spec fn notice_tail() -> Seq<u8> {
    seq![QUOTE, CLOSE_BRACE, COMMA, QUOTE] + name_context() + seq![
        QUOTE,
        COLON,
        OPEN_BRACE,
        CLOSE_BRACE,
        CLOSE_BRACE,
    ]
}

/// The notice that says `what`.
pub open spec fn notice(what: Seq<u8>) -> Seq<u8> {
    notice_head() + what + notice_tail()
}

/// `{"error":"` and `what` and `"}`
pub open spec fn notice_data(what: Seq<u8>) -> Seq<u8> {
    seq![OPEN_BRACE, QUOTE] + name_error() + seq![QUOTE, COLON, QUOTE] + what + seq![
        QUOTE,
        CLOSE_BRACE,
    ]
}

/// Plain ASCII that can stand between quotes as it is.
pub open spec fn plain_ascii(what: Seq<u8>) -> bool {
    plain_name(what) && forall|k: int| 0 <= k < what.len() ==> (#[trigger] what[k]) < 0x80
}

/// The bytes of a notice, one by one.
proof fn lemma_notice_bytes(what: Seq<u8>)
    ensures
        ({
            let t = notice(what);
            let m: int = what.len() as int + 33;
            &&& t.len() == m + 16
            &&& t[0] == OPEN_BRACE && t[1] == QUOTE && t.subrange(2, 6) == name_type() && t[6]
                == QUOTE && t[7] == COLON && t[8] == QUOTE && t.subrange(9, 14) == name_error()
                && t[14] == QUOTE && t[15] == COMMA && t[16] == QUOTE && t.subrange(17, 21)
                == name_data() && t[21] == QUOTE && t[22] == COLON && t[23] == OPEN_BRACE && t[24]
                == QUOTE && t.subrange(25, 30) == name_error() && t[30] == QUOTE && t[31] == COLON
                && t[32] == QUOTE
            &&& t.subrange(33, m) == what
            &&& t[m] == QUOTE && t[m + 1] == CLOSE_BRACE && t[m + 2] == COMMA && t[m + 3] == QUOTE
                && t.subrange(m + 4, m + 11) == name_context() && t[m + 11] == QUOTE && t[m + 12]
                == COLON && t[m + 13] == OPEN_BRACE && t[m + 14] == CLOSE_BRACE && t[m + 15]
                == CLOSE_BRACE
            &&& t.subrange(23, m + 2) == notice_data(what)
            &&& t.subrange(m + 13, m + 15) == empty_object()
        }),
{
    let t = notice(what);
    let m: int = what.len() as int + 33;
    assert(notice_head().len() == 33);
    assert(notice_tail().len() == 16);
    assert(t.subrange(2, 6) =~= name_type());
    assert(t.subrange(9, 14) =~= name_error());
    assert(t.subrange(17, 21) =~= name_data());
    assert(t.subrange(25, 30) =~= name_error());
    assert(t.subrange(33, m) =~= what);
    assert(t.subrange(m + 4, m + 11) =~= name_context());
    assert(t.subrange(23, m + 2) =~= notice_data(what));
    assert(t.subrange(m + 13, m + 15) =~= empty_object());
}

/// The bytes of a notice are ASCII, and none but its quotes is a quote, a
/// backslash or a control byte.
proof fn lemma_notice_plain(what: Seq<u8>)
    requires
        plain_ascii(what),
    ensures
        ({
            let t = notice(what);
            let m: int = what.len() as int + 33;
            &&& forall|k: int| 0 <= k < t.len() ==> (#[trigger] t[k]) < 0x80
            &&& forall|k: int|
                0 <= k < t.len() && k != 1 && k != 6 && k != 8 && k != 14 && k != 16 && k != 21
                    && k != 24 && k != 30 && k != 32 && k != m && k != m + 3 && k != m + 11 ==> (
                #[trigger] t[k]) >= 0x20 && t[k] != QUOTE && t[k] != 0x5c
        }),
{
    let t = notice(what);
    let m: int = what.len() as int + 33;
    assert(notice_head().len() == 33);
    assert(notice_tail().len() == 16);
    assert forall|k: int| 0 <= k < t.len() implies (#[trigger] t[k]) < 0x80 && (k != 1 && k != 6
        && k != 8 && k != 14 && k != 16 && k != 21 && k != 24 && k != 30 && k != 32 && k != m && k
        != m + 3 && k != m + 11 ==> t[k] >= 0x20 && t[k] != QUOTE && t[k] != 0x5c) by {
        if k < 33 {
            assert(t[k] == notice_head()[k]);
        } else if k < m {
            assert(t[k] == what[k - 33]);
            assert(what[k - 33] >= 0x20);
        } else {
            assert(t[k] == notice_tail()[k - m]);
        }
    }
}

/// The members of a notice: `type`, `data` and `context`.
pub open spec fn notice_entries(len: int) -> Seq<Entry> {
    seq![
        Entry { key: Piece { start: 2, end: 6 }, value: Piece { start: 8, end: 15 } },
        Entry { key: Piece { start: 17, end: 21 }, value: Piece { start: 23, end: len + 35 } },
        Entry {
            key: Piece { start: len + 37, end: len + 44 },
            value: Piece { start: len + 46, end: len + 48 },
        },
    ]
}

/// The strings of a notice end where they should and spell their names.
#[verifier::rlimit(40)]
proof fn lemma_notice_strings(what: Seq<u8>)
    requires
        plain_ascii(what),
    ensures
        ({
            let t = notice(what);
            let m: int = what.len() as int + 33;
            &&& text_end(t, 2) == Some(7int)
            &&& text_end(t, 9) == Some(15int)
            &&& text_end(t, 17) == Some(22int)
            &&& text_end(t, 25) == Some(31int)
            &&& text_end(t, 33) == Some(m + 1)
            &&& text_end(t, m + 4) == Some(m + 12)
            &&& spelled(t, 2, 6) == as_numbers(name_type())
            &&& spelled(t, 17, 21) == as_numbers(name_data())
            &&& spelled(t, m + 4, m + 11) == as_numbers(name_context())
        }),
{
    let t = notice(what);
    let m: int = what.len() as int + 33;
    lemma_notice_bytes(what);
    lemma_notice_plain(what);
    lemma_plain_text(t, 2, 6);
    lemma_plain_text(t, 9, 14);
    lemma_plain_text(t, 17, 21);
    lemma_plain_text(t, 25, 30);
    lemma_plain_text(t, 33, m);
    lemma_plain_text(t, m + 4, m + 11);
}

/// The two objects inside a notice.
#[verifier::rlimit(40)]
proof fn lemma_notice_objects(what: Seq<u8>)
    requires
        plain_ascii(what),
    ensures
        ({
            let t = notice(what);
            let m: int = what.len() as int + 33;
            let depth = (MAX_DEPTH - 2) as nat;
            &&& container(t, 23, depth) == Some(
                (
                    seq![
                        Entry {
                            key: Piece { start: 25, end: 30 },
                            value: Piece { start: 32, end: m + 1 },
                        },
                    ],
                    m + 2,
                ),
            )
            &&& container(t, m + 13, depth) == Some((Seq::<Entry>::empty(), m + 15))
        }),
{
    let t = notice(what);
    let m: int = what.len() as int + 33;
    let depth = (MAX_DEPTH - 2) as nat;
    lemma_notice_bytes(what);
    lemma_notice_strings(what);
    assert(ws_end(t, 24) == 24);
    assert(ws_end(t, 31) == 31);
    assert(ws_end(t, 32) == 32);
    assert(ws_end(t, m + 1) == m + 1);
    assert(entry_head(t, 24, true) == Some((Piece { start: 25, end: 30 }, 32int)));
    assert(value_end(t, 32, depth) == Some(m + 1));
    assert(entries(t, 24, depth, true) == Some(
        (
            seq![
                Entry { key: Piece { start: 25, end: 30 }, value: Piece { start: 32, end: m + 1 } },
            ],
            m + 2,
        ),
    ));
    assert(ws_end(t, m + 14) == m + 14);
}

/// One step along the members of an object: a member, then the closing
/// brace or a comma and the members that follow.
proof fn lemma_member_step(t: Seq<u8>, i: int, depth: nat, key: Piece, vs: int, ve: int)
    requires
        0 <= i < t.len(),
        entry_head(t, i, true) == Some((key, vs)),
        i <= vs <= t.len(),
        value_end(t, vs, depth) == Some(ve),
        0 <= ve < t.len(),
        ws_end(t, ve) == ve,
    ensures
        t[ve] == CLOSE_BRACE ==> entries(t, i, depth, true) == Some(
            (seq![Entry { key, value: Piece { start: vs, end: ve } }], ve + 1),
        ),
        t[ve] == COMMA && ws_end(t, ve + 1) == ve + 1 && i < ve + 1 <= t.len() && entries(
            t,
            ve + 1,
            depth,
            true,
        ) is Some ==> entries(t, i, depth, true) == Some(
            (
                seq![Entry { key, value: Piece { start: vs, end: ve } }] + items_of(
                    entries(t, ve + 1, depth, true),
                ),
                end_of(entries(t, ve + 1, depth, true)),
            ),
        ),
{
}

/// The names and values of the three members of a notice.
#[verifier::rlimit(40)]
proof fn lemma_notice_members(what: Seq<u8>)
    requires
        plain_ascii(what),
    ensures
        ({
            let t = notice(what);
            let m: int = what.len() as int + 33;
            let depth = (MAX_DEPTH - 1) as nat;
            let es = notice_entries(what.len() as int);
            &&& t.len() == m + 16
            &&& entry_head(t, 1, true) == Some((es[0].key, 8int))
            &&& value_end(t, 8, depth) == Some(15int)
            &&& ws_end(t, 15) == 15 && ws_end(t, 16) == 16 && t[15] == COMMA
            &&& entry_head(t, 16, true) == Some((es[1].key, 23int))
            &&& value_end(t, 23, depth) == Some(m + 2)
            &&& ws_end(t, m + 2) == m + 2 && ws_end(t, m + 3) == m + 3 && t[m + 2] == COMMA
            &&& entry_head(t, m + 3, true) == Some((es[2].key, m + 13))
            &&& value_end(t, m + 13, depth) == Some(m + 15)
            &&& ws_end(t, m + 15) == m + 15 && t[m + 15] == CLOSE_BRACE
            &&& t[0] == OPEN_BRACE && ws_end(t, 0) == 0 && ws_end(t, 1) == 1 && t[1] == QUOTE
            &&& ws_end(t, m + 16) == m + 16
        }),
{
    let t = notice(what);
    let m: int = what.len() as int + 33;
    lemma_notice_bytes(what);
    lemma_notice_strings(what);
    lemma_notice_objects(what);
    assert(ws_end(t, 7) == 7);
    assert(ws_end(t, 8) == 8);
    assert(ws_end(t, 22) == 22);
    assert(ws_end(t, 23) == 23);
    assert(ws_end(t, m + 12) == m + 12);
    assert(ws_end(t, m + 13) == m + 13);
}

/// A notice is a document of three members.
#[verifier::rlimit(40)]
proof fn lemma_notice_document(what: Seq<u8>)
    requires
        plain_ascii(what),
    ensures
        document(notice(what)) == Some(
            (0int, notice_entries(what.len() as int), notice(what).len() as int),
        ),
{
    let t = notice(what);
    let m: int = what.len() as int + 33;
    let depth = (MAX_DEPTH - 1) as nat;
    let es = notice_entries(what.len() as int);
    lemma_notice_members(what);
    lemma_member_step(t, m + 3, depth, es[2].key, m + 13, m + 15);
    assert(entries(t, m + 3, depth, true) == Some((seq![es[2]], m + 16)));
    lemma_member_step(t, 16, depth, es[1].key, 23, m + 2);
    assert(seq![es[1]] + seq![es[2]] =~= seq![es[1], es[2]]);
    assert(entries(t, 16, depth, true) == Some((seq![es[1], es[2]], m + 16)));
    lemma_member_step(t, 1, depth, es[0].key, 8, 15);
    assert(seq![es[0]] + seq![es[1], es[2]] =~= es);
    assert(entries(t, 1, depth, true) == Some((es, m + 16)));
    assert(container(t, 0, depth) == Some((es, m + 16)));
}

/// A notice is UTF-8.
proof fn lemma_notice_utf8(what: Seq<u8>)
    requires
        plain_ascii(what),
    ensures
        valid_utf8(notice(what)),
{
    let t = notice(what);
    let m: int = what.len() as int + 33;
    lemma_notice_plain(what);
    assert forall|i: int| 0 <= i < t.len() implies #[trigger] is_leading_byte_width_1(t[i]) by {
        assert(t[i] < 0x80);
    }
    assert(t.subrange(0, 0) =~= Seq::<u8>::empty());
    assert(partial_valid_utf8(t, 0));
    partial_valid_utf8_extend_ascii_block(t, 0, t.len() as int);
    assert(t.subrange(0, t.len() as int) =~= t);
}

/// What the lookups by name find in a notice.
proof fn lemma_notice_lookups(what: Seq<u8>)
    requires
        plain_ascii(what),
    ensures
        ({
            let t = notice(what);
            let es = notice_entries(what.len() as int);
            &&& lookup(t, es, name_type()) == Hit::One(0)
            &&& lookup(t, es, name_data()) == Hit::One(1)
            &&& lookup(t, es, name_context()) == Hit::One(2)
            &&& lookup(t, Seq::<Entry>::empty(), name_destination()) == Hit::Absent
        }),
{
    lemma_notice_strings(what);
    lemma_names_differ();
    reveal_with_fuel(first_hit, 5);
}

/// The kind of a notice.
#[verifier::rlimit(40)]
proof fn lemma_notice_kind(what: Seq<u8>)
    requires
        plain_ascii(what),
    ensures
        kind_of(notice(what), notice_entries(what.len() as int)) == Some(
            Piece { start: 9, end: 14 },
        ),
        text_of(notice(what), Piece { start: 9, end: 14 }) == name_error(),
{
    let t = notice(what);
    assert(t[8] == QUOTE && t.subrange(9, 14) == name_error()) by {
        lemma_notice_bytes(what);
    }
    assert(lookup(t, notice_entries(what.len() as int), name_type()) == Hit::One(0)) by {
        lemma_notice_lookups(what);
    }
}

/// The data of a notice.
#[verifier::rlimit(40)]
proof fn lemma_notice_data(what: Seq<u8>)
    requires
        plain_ascii(what),
    ensures
        optional_object(notice(what), notice_entries(what.len() as int), name_data()) == Some(
            Some(Piece { start: 23, end: what.len() as int + 35 }),
        ),
        text_of(notice(what), Piece { start: 23, end: what.len() as int + 35 }) == notice_data(what),
{
    let t = notice(what);
    assert(t[23] == OPEN_BRACE && t.subrange(23, what.len() as int + 35) == notice_data(what)) by {
        lemma_notice_bytes(what);
    }
    assert(lookup(t, notice_entries(what.len() as int), name_data()) == Hit::One(1)) by {
        lemma_notice_lookups(what);
    }
}

/// The context of a notice.
#[verifier::rlimit(40)]
proof fn lemma_notice_context(what: Seq<u8>)
    requires
        plain_ascii(what),
    ensures
        optional_object(notice(what), notice_entries(what.len() as int), name_context()) == Some(
            Some(Piece { start: what.len() as int + 46, end: what.len() as int + 48 }),
        ),
        text_of(
            notice(what),
            Piece { start: what.len() as int + 46, end: what.len() as int + 48 },
        ) == empty_object(),
{
    let t = notice(what);
    let m: int = what.len() as int + 33;
    assert(t[m + 13] == OPEN_BRACE && t.subrange(m + 13, m + 15) == empty_object()) by {
        lemma_notice_bytes(what);
    }
    assert(lookup(t, notice_entries(what.len() as int), name_context()) == Hit::One(2)) by {
        lemma_notice_lookups(what);
    }
}

/// The context of a notice names nobody.
#[verifier::rlimit(40)]
proof fn lemma_notice_destination(what: Seq<u8>)
    requires
        plain_ascii(what),
    ensures
        destination_of(
            notice(what),
            Some(Piece { start: what.len() as int + 46, end: what.len() as int + 48 }),
        ) == Some(Seq::<u64>::empty()),
{
    let t = notice(what);
    let m: int = what.len() as int + 33;
    assert(t[m + 13] == OPEN_BRACE && t.len() == m + 16) by {
        lemma_notice_bytes(what);
    }
    assert(lookup(t, Seq::<Entry>::empty(), name_destination()) == Hit::Absent) by {
        lemma_notice_lookups(what);
    }
    assert(container(t, m + 13, (MAX_DEPTH - 2) as nat) == Some(
        (Seq::<Entry>::empty(), m + 15),
    )) by {
        lemma_notice_objects(what);
    }
}

/// A notice is its own payload.
proof fn lemma_notice_payload(what: Seq<u8>)
    ensures
        payload_of(notice(what), 0, notice(what).len() as int, true, true) == notice(what),
        notice(what).len() == what.len() + 49,
{
    let t = notice(what);
    assert(t[what.len() as int + 48] == CLOSE_BRACE && t.len() == what.len() + 49) by {
        lemma_notice_bytes(what);
    }
    assert(payload_of(t, 0, t.len() as int, true, true) =~= t);
}

/// A notice is an envelope of the kind `error`, for nobody by name, and is
/// its own payload.
#[verifier::rlimit(40)]
pub proof fn lemma_notice_envelope(what: Seq<u8>)
    requires
        plain_ascii(what),
    ensures
        envelope(notice(what)) == Some(
            EnvelopeView {
                kind: name_error(),
                data: notice_data(what),
                context: empty_object(),
                destination: Seq::<u64>::empty(),
                payload: notice(what),
            },
        ),
{
    lemma_notice_utf8(what);
    lemma_notice_document(what);
    lemma_notice_kind(what);
    lemma_notice_data(what);
    lemma_notice_context(what);
    lemma_notice_destination(what);
    lemma_notice_payload(what);
}

/// `message-too-large`
pub open spec fn too_large() -> Seq<u8> {
    seq![
        'm' as u8,
        'e' as u8,
        's' as u8,
        's' as u8,
        'a' as u8,
        'g' as u8,
        'e' as u8,
        '-' as u8,
        't' as u8,
        'o' as u8,
        'o' as u8,
        '-' as u8,
        'l' as u8,
        'a' as u8,
        'r' as u8,
        'g' as u8,
        'e' as u8,
    ]
}

/// `malformed-payload`
pub open spec fn malformed() -> Seq<u8> {
    seq![
        'm' as u8,
        'a' as u8,
        'l' as u8,
        'f' as u8,
        'o' as u8,
        'r' as u8,
        'm' as u8,
        'e' as u8,
        'd' as u8,
        '-' as u8,
        'p' as u8,
        'a' as u8,
        'y' as u8,
        'l' as u8,
        'o' as u8,
        'a' as u8,
        'd' as u8,
    ]
}

/// The oversize notice, byte for byte.
#[verifier::rlimit(40)]
proof fn lemma_oversize_notice_bytes()
    ensures
        oversize_notice() == notice(too_large()),
        plain_ascii(too_large()),
{
    reveal_strlit("{\"type\":\"error\",\"data\":{\"error\":\"message-too-large\"},\"context\":{}}");
    assert(is_ascii_chars(OVERSIZE_NOTICE@));
    is_ascii_chars_encode_utf8(OVERSIZE_NOTICE@);
    assert(notice(too_large()).len() == 66);
    assert(oversize_notice() =~= notice(too_large()));
}

/// The malformed notice, byte for byte.
#[verifier::rlimit(40)]
proof fn lemma_malformed_notice_bytes()
    ensures
        malformed_notice() == notice(malformed()),
        plain_ascii(malformed()),
{
    reveal_strlit("{\"type\":\"error\",\"data\":{\"error\":\"malformed-payload\"},\"context\":{}}");
    assert(is_ascii_chars(MALFORMED_NOTICE@));
    is_ascii_chars_encode_utf8(MALFORMED_NOTICE@);
    assert(notice(malformed()).len() == 66);
    assert(malformed_notice() =~= notice(malformed()));
}

/// The two notices of the bus are envelopes: of the kind `error`, with the
/// reason under `error` in their data, with an empty context that names no
/// recipient, and each its own payload.
pub proof fn law_notices_are_envelopes()
    ensures
        envelope(oversize_notice()) == Some(
            EnvelopeView {
                kind: name_error(),
                data: notice_data(too_large()),
                context: empty_object(),
                destination: Seq::<u64>::empty(),
                payload: oversize_notice(),
            },
        ),
        envelope(malformed_notice()) == Some(
            EnvelopeView {
                kind: name_error(),
                data: notice_data(malformed()),
                context: empty_object(),
                destination: Seq::<u64>::empty(),
                payload: malformed_notice(),
            },
        ),
{
    lemma_oversize_notice_bytes();
    lemma_malformed_notice_bytes();
    lemma_notice_envelope(too_large());
    lemma_notice_envelope(malformed());
}

} // verus!
