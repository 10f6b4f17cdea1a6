//! The message envelope: what a frame must hold to be relayed, whom it is
//! for, and the bytes that its recipients get.

use crate::json::{
    all_placed, container, placed, read_container, skip_ws, views, ws_end, Entry, Member, Piece,
    Span, CLOSE_BRACE, MAX_DEPTH, OPEN_BRACE, OPEN_BRACKET, QUOTE,
};
use crate::keys::{find, id_list, lookup, read_ids, Found, Hit};
use crate::payload::law_payload_is_the_same_envelope;
use vstd::prelude::*;
use vstd::slice::{slice_subrange, slice_to_vec};
use vstd::string::StringSliceAdditionalSpecFns;
use vstd::utf8::valid_utf8;

verus! {

/// What the bus answers to a frame that is larger than it accepts.
pub const OVERSIZE_NOTICE: &'static str =
    "{\"type\":\"error\",\"data\":{\"error\":\"message-too-large\"},\"context\":{}}";

/// What the bus answers to a frame that holds no envelope.
pub const MALFORMED_NOTICE: &'static str =
    "{\"type\":\"error\",\"data\":{\"error\":\"malformed-payload\"},\"context\":{}}";

/// The bytes of `OVERSIZE_NOTICE`.
pub open spec fn oversize_notice() -> Seq<u8> {
    OVERSIZE_NOTICE.spec_bytes()
}

/// The bytes of `MALFORMED_NOTICE`.
pub open spec fn malformed_notice() -> Seq<u8> {
    MALFORMED_NOTICE.spec_bytes()
}

/// `type`
pub open spec fn name_type() -> Seq<u8> {
    seq!['t' as u8, 'y' as u8, 'p' as u8, 'e' as u8]
}

/// `data`
pub open spec fn name_data() -> Seq<u8> {
    seq!['d' as u8, 'a' as u8, 't' as u8, 'a' as u8]
}

/// `context`
pub open spec fn name_context() -> Seq<u8> {
    seq!['c' as u8, 'o' as u8, 'n' as u8, 't' as u8, 'e' as u8, 'x' as u8, 't' as u8]
}

/// `destination`
pub open spec fn name_destination() -> Seq<u8> {
    seq![
        'd' as u8,
        'e' as u8,
        's' as u8,
        't' as u8,
        'i' as u8,
        'n' as u8,
        'a' as u8,
        't' as u8,
        'i' as u8,
        'o' as u8,
        'n' as u8,
    ]
}

/// `{}`
pub open spec fn empty_object() -> Seq<u8> {
    seq!['{' as u8, '}' as u8]
}

/// `,"data":{}`
pub open spec fn data_default() -> Seq<u8> {
    seq![',' as u8, '"' as u8] + name_data() + seq!['"' as u8, ':' as u8] + empty_object()
}

/// `,"context":{}`
pub open spec fn context_default() -> Seq<u8> {
    seq![',' as u8, '"' as u8] + name_context() + seq!['"' as u8, ':' as u8] + empty_object()
}

/// What the bus reads in a frame that it relays.
pub struct EnvelopeView {
    /// The event kind: what stands between the quotes of `type`, as written.
    pub kind: Seq<u8>,
    /// The text of `data`, as written; `{}` where the frame has none.
    pub data: Seq<u8>,
    /// The text of `context`, as written; `{}` where the frame has none.
    pub context: Seq<u8>,
    /// The connection ids under `context.destination`, in their order; empty
    /// where the envelope is for everybody.
    pub destination: Seq<u64>,
    /// The bytes that each recipient gets.
    pub payload: Seq<u8>,
}

/// An envelope that the bus has accepted.
#[derive(Debug)]
pub struct Envelope {
    pub kind: Vec<u8>,
    pub data: Vec<u8>,
    pub context: Vec<u8>,
    pub destination: Vec<u64>,
    pub payload: Vec<u8>,
}

impl View for Envelope {
    type V = EnvelopeView;

    open spec fn view(&self) -> EnvelopeView {
        EnvelopeView {
            kind: self.kind@,
            data: self.data@,
            context: self.context@,
            destination: self.destination@,
            payload: self.payload@,
        }
    }
}

/// The bytes that the piece `p` of the text `s` holds.
pub open spec fn text_of(s: Seq<u8>, p: Piece) -> Seq<u8> {
    s.subrange(p.start, p.end)
}

/// The entries of the object that opens at `i`, and where it ends.
pub open spec fn object_at(s: Seq<u8>, i: int, depth: nat) -> Option<(Seq<Entry>, int)> {
    if 0 <= i < s.len() && s[i] == OPEN_BRACE {
        container(s, i, depth)
    } else {
        None
    }
}

/// The items of the array that opens at `i`, and where it ends.
pub open spec fn array_at(s: Seq<u8>, i: int, depth: nat) -> Option<(Seq<Entry>, int)> {
    if 0 <= i < s.len() && s[i] == OPEN_BRACKET {
        container(s, i, depth)
    } else {
        None
    }
}

/// A frame's one object: where it opens, its members, and where it ends.
/// Only whitespace may stand before and after it.
pub open spec fn document(s: Seq<u8>) -> Option<(int, Seq<Entry>, int)> {
    match object_at(s, ws_end(s, 0), (MAX_DEPTH - 1) as nat) {
        None => None,
        Some(c) => if ws_end(s, c.1) == s.len() {
            Some((ws_end(s, 0), c.0, c.1))
        } else {
            None
        },
    }
}

/// The event kind among the members `es`: there is exactly one member `type`,
/// and it is a string that is not empty.
pub open spec fn kind_of(s: Seq<u8>, es: Seq<Entry>) -> Option<Piece> {
    match lookup(s, es, name_type()) {
        Hit::One(k) => {
            let v: Piece = es[k].value;
            if s[v.start] == QUOTE && v.end - v.start > 2 {
                Some(Piece { start: v.start + 1, end: v.end - 1 })
            } else {
                None
            }
        },
        _ => None,
    }
}

/// The member `name`, which need not be there and is an object where it is:
/// `Some(None)` where no member has the name, `None` where several have it or
/// the one that has it is no object.
pub open spec fn optional_object(s: Seq<u8>, es: Seq<Entry>, name: Seq<u8>) -> Option<
    Option<Piece>,
> {
    match lookup(s, es, name) {
        Hit::Absent => Some(None),
        Hit::Repeated => None,
        Hit::One(k) => if s[es[k].value.start] == OPEN_BRACE {
            Some(Some(es[k].value))
        } else {
            None
        },
    }
}

/// The ids that the context names as recipients. Empty where it has no member
/// `destination`, or where that member is anything but an array of one or more
/// ids. `None` where the context has several members `destination`.
pub open spec fn destination_of(s: Seq<u8>, context: Option<Piece>) -> Option<Seq<u64>> {
    match context {
        None => Some(Seq::empty()),
        Some(p) => match object_at(s, p.start, (MAX_DEPTH - 2) as nat) {
            None => None,
            Some(c) => match lookup(s, c.0, name_destination()) {
                Hit::Repeated => None,
                Hit::Absent => Some(Seq::empty()),
                Hit::One(k) => match array_at(s, c.0[k].value.start, (MAX_DEPTH - 3) as nat) {
                    None => Some(Seq::empty()),
                    Some(items) => match id_list(s, items.0) {
                        None => Some(Seq::empty()),
                        Some(ids) => Some(ids),
                    },
                },
            },
        },
    }
}

/// The bytes that recipients get for the object between `open` and `end`:
/// the object as written, with `data` and `context` added as empty objects
/// before its closing brace where it has none.
pub open spec fn payload_of(
    s: Seq<u8>,
    open: int,
    end: int,
    has_data: bool,
    has_context: bool,
) -> Seq<u8> {
    s.subrange(open, end - 1) + (if has_data {
        Seq::empty()
    } else {
        data_default()
    }) + (if has_context {
        Seq::empty()
    } else {
        context_default()
    }) + seq![CLOSE_BRACE]
}

/// The envelope that a frame holds. A frame holds one if it is UTF-8, is a
/// JSON object and nothing else, nests no deeper than `MAX_DEPTH`, has exactly
/// one member `type`, a string that is not empty, and at most one member
/// `data` and one `context`, both objects, the context with at most one
/// member `destination`. Names are read with their escapes resolved.
pub open spec fn envelope(s: Seq<u8>) -> Option<EnvelopeView> {
    if !valid_utf8(s) {
        None
    } else {
        envelope_in(s)
    }
}

/// The envelope that a text holds which is known to be UTF-8.
pub open spec fn envelope_in(s: Seq<u8>) -> Option<EnvelopeView> {
    match document(s) {
        None => None,
        Some(doc) => match (
            kind_of(s, doc.1),
            optional_object(s, doc.1, name_data()),
            optional_object(s, doc.1, name_context()),
        ) {
            (Some(kind), Some(data), Some(context)) => match destination_of(s, context) {
                None => None,
                Some(ids) => Some(
                    EnvelopeView {
                        kind: text_of(s, kind),
                        data: match data {
                            Some(p) => text_of(s, p),
                            None => empty_object(),
                        },
                        context: match context {
                            Some(p) => text_of(s, p),
                            None => empty_object(),
                        },
                        destination: ids,
                        payload: payload_of(s, doc.0, doc.2, data is Some, context is Some),
                    },
                ),
            },
            _ => None,
        },
    }
}

/// Whether the bytes are UTF-8.
///
/// This is `core::str::from_utf8`, taken on trust: it succeeds on the byte
/// sequences that are well-formed UTF-8 and on no other, which is what
/// `valid_utf8` says.
#[verifier::external_body]
fn is_utf8(bytes: &[u8]) -> (r: bool)
    ensures
        r == valid_utf8(bytes@),
{
    std::str::from_utf8(bytes).is_ok()
}

/// Copies the bytes from `a` up to `b`.
pub fn copy_range(s: &[u8], a: usize, b: usize) -> (r: Vec<u8>)
    requires
        a <= b <= s.len(),
    ensures
        r@ == s@.subrange(a as int, b as int),
{
    slice_to_vec(slice_subrange(s, a, b))
}

/// Appends `bytes` to `out`.
pub fn append(out: &mut Vec<u8>, bytes: &[u8])
    ensures
        final(out)@ == old(out)@ + bytes@,
{
    let mut k: usize = 0;
    while k < bytes.len()
        invariant
            k <= bytes.len(),
            out@ == old(out)@ + bytes@.subrange(0, k as int),
        decreases bytes.len() - k,
    {
        out.push(bytes[k]);
        assert(out@ =~= old(out)@ + bytes@.subrange(0, k + 1));
        k = k + 1;
    }
    assert(bytes@.subrange(0, k as int) =~= bytes@);
}

/// Reads the member `name`, which need not be there and is an object where
/// it is.
fn read_optional_object(s: &[u8], members: &Vec<Member>, name: &[u8]) -> (r: Option<Option<Span>>)
    requires
        all_placed(s@, members@, true),
    ensures
        match r {
            Some(Some(p)) => optional_object(s@, views(members@), name@) == Some(Some(p@))
                && p.start < p.end <= s.len() && s[p.start as int] == OPEN_BRACE,
            Some(None) => optional_object(s@, views(members@), name@) == Some(
                None::<Piece>,
            ),
            None => optional_object(s@, views(members@), name@) is None,
        },
{
    match find(s, members, name) {
        Found::Absent => Some(None),
        Found::Repeated => None,
        Found::One(k) => {
            assert(placed(s@, members@[k as int], true));
            let v: Span = members[k].value;
            if s[v.start] == OPEN_BRACE {
                Some(Some(v))
            } else {
                None
            }
        },
    }
}

/// Reads the ids that the context names as recipients.
fn read_destination(s: &[u8], context: Option<Span>) -> (r: Option<Vec<u64>>)
    requires
        context matches Some(p) ==> p.start < p.end <= s.len() && s[p.start as int] == OPEN_BRACE,
    ensures
        match r {
            Some(ids) => destination_of(
                s@,
                match context {
                    Some(p) => Some(p@),
                    None => None,
                },
            ) == Some(ids@),
            None => destination_of(
                s@,
                match context {
                    Some(p) => Some(p@),
                    None => None,
                },
            ) is None,
        },
{
    let p: Span = match context {
        None => {
            return Some(Vec::new());
        },
        Some(p) => p,
    };
    let inner: Vec<Member> = match read_container(s, p.start, MAX_DEPTH - 2, true) {
        None => {
            return None;
        },
        Some(found) => found.0,
    };
    let name: [u8; 11] = [
        'd' as u8,
        'e' as u8,
        's' as u8,
        't' as u8,
        'i' as u8,
        'n' as u8,
        'a' as u8,
        't' as u8,
        'i' as u8,
        'o' as u8,
        'n' as u8,
    ];
    assert(name@ =~= name_destination());
    match find(s, &inner, name.as_slice()) {
        Found::Repeated => None,
        Found::Absent => Some(Vec::new()),
        Found::One(k) => {
            assert(placed(s@, inner@[k as int], true));
            let v: Span = inner[k].value;
            if s[v.start] != OPEN_BRACKET {
                return Some(Vec::new());
            }
            match read_container(s, v.start, MAX_DEPTH - 3, true) {
                None => Some(Vec::new()),
                Some(items) => match read_ids(s, &items.0) {
                    None => Some(Vec::new()),
                    Some(ids) => Some(ids),
                },
            }
        },
    }
}

/// Reads the event kind among the members of a frame's object.
fn read_kind(s: &[u8], members: &Vec<Member>) -> (r: Option<Span>)
    requires
        all_placed(s@, members@, true),
    ensures
        match r {
            Some(p) => kind_of(s@, views(members@)) == Some(p@) && p.start <= p.end <= s.len(),
            None => kind_of(s@, views(members@)) is None,
        },
{
    let name: [u8; 4] = ['t' as u8, 'y' as u8, 'p' as u8, 'e' as u8];
    assert(name@ =~= name_type());
    match find(s, members, name.as_slice()) {
        Found::One(k) => {
            assert(placed(s@, members@[k as int], true));
            let v: Span = members[k].value;
            if s[v.start] == QUOTE && v.end - v.start > 2 {
                Some(Span { start: v.start + 1, end: v.end - 1 })
            } else {
                None
            }
        },
        _ => None,
    }
}

/// Builds the bytes that recipients get for the object between `open` and
/// `end`.
fn build_payload(s: &[u8], open: usize, end: usize, has_data: bool, has_context: bool) -> (r: Vec<
    u8,
>)
    requires
        open < end <= s.len(),
    ensures
        r@ == payload_of(s@, open as int, end as int, has_data, has_context),
{
    let head: [u8; 2] = [',' as u8, '"' as u8];
    let tail: [u8; 4] = ['"' as u8, ':' as u8, '{' as u8, '}' as u8];
    let mut payload: Vec<u8> = copy_range(s, open, end - 1);
    if !has_data {
        let name: [u8; 4] = ['d' as u8, 'a' as u8, 't' as u8, 'a' as u8];
        let ghost before = payload@;
        append(&mut payload, head.as_slice());
        append(&mut payload, name.as_slice());
        append(&mut payload, tail.as_slice());
        assert(payload@ =~= before + data_default());
    } else {
        assert(payload@ =~= payload@ + Seq::<u8>::empty());
    }
    if !has_context {
        let name: [u8; 7] = [
            'c' as u8,
            'o' as u8,
            'n' as u8,
            't' as u8,
            'e' as u8,
            'x' as u8,
            't' as u8,
        ];
        let ghost before = payload@;
        append(&mut payload, head.as_slice());
        append(&mut payload, name.as_slice());
        append(&mut payload, tail.as_slice());
        assert(payload@ =~= before + context_default());
    } else {
        assert(payload@ =~= payload@ + Seq::<u8>::empty());
    }
    payload.push(CLOSE_BRACE);
    payload
}

impl Envelope {
    /// Reads the envelope that a frame holds. Its payload holds the same
    /// envelope.
    pub fn parse(s: &[u8]) -> (r: Option<Envelope>)
        ensures
            match r {
                Some(e) => envelope(s@) == Some(e@) && envelope(e.payload@) == Some(e@),
                None => envelope(s@) is None,
            },
    {
        proof {
            if envelope(s@) is Some {
                law_payload_is_the_same_envelope(s@);
            }
        }
        Envelope::read(s)
    }

    #[verifier::rlimit(40)]
    fn read(s: &[u8]) -> (r: Option<Envelope>)
        ensures
            match r {
                Some(e) => envelope(s@) == Some(e@),
                None => envelope(s@) is None,
            },
    {
        if !is_utf8(s) {
            return None;
        }
        let open: usize = skip_ws(s, 0);
        if open >= s.len() || s[open] != OPEN_BRACE {
            return None;
        }
        let found: (Vec<Member>, usize) = match read_container(s, open, MAX_DEPTH - 1, true) {
            None => {
                return None;
            },
            Some(found) => found,
        };
        let members: Vec<Member> = found.0;
        let end: usize = found.1;
        if skip_ws(s, end) != s.len() {
            return None;
        }
        let kind: Span = match read_kind(s, &members) {
            None => {
                return None;
            },
            Some(p) => p,
        };
        let data_name: [u8; 4] = ['d' as u8, 'a' as u8, 't' as u8, 'a' as u8];
        assert(data_name@ =~= name_data());
        let data: Option<Span> = match read_optional_object(s, &members, data_name.as_slice()) {
            None => {
                return None;
            },
            Some(d) => d,
        };
        let context_name: [u8; 7] = [
            'c' as u8,
            'o' as u8,
            'n' as u8,
            't' as u8,
            'e' as u8,
            'x' as u8,
            't' as u8,
        ];
        assert(context_name@ =~= name_context());
        let context: Option<Span> = match read_optional_object(
            s,
            &members,
            context_name.as_slice(),
        ) {
            None => {
                return None;
            },
            Some(c) => c,
        };
        let destination: Vec<u64> = match read_destination(s, context) {
            None => {
                return None;
            },
            Some(ids) => ids,
        };
        let braces: [u8; 2] = ['{' as u8, '}' as u8];
        assert(braces@ =~= empty_object());
        let payload: Vec<u8> = build_payload(s, open, end, data.is_some(), context.is_some());
        Some(
            Envelope {
                kind: copy_range(s, kind.start, kind.end),
                data: match data {
                    Some(p) => copy_range(s, p.start, p.end),
                    None => slice_to_vec(braces.as_slice()),
                },
                context: match context {
                    Some(p) => copy_range(s, p.start, p.end),
                    None => slice_to_vec(braces.as_slice()),
                },
                destination,
                payload,
            },
        )
    }
}

} // verus!
