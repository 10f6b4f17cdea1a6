//! What holds of the bus whatever its state: who gets a frame, who does not,
//! and in which order.
//!
//! Each statement is about `relayed`, the queues that `MessageBus::handle_frame`
//! leaves behind, and about `judged`, the error that it reports.

use crate::envelope::{envelope, malformed_notice, oversize_notice};
use crate::fanout::{delivered, overrun, reached};
use crate::message_bus::{addressees, judged, outgoing, relayed, BusError};
use crate::notices::{law_notices_are_envelopes, name_error};
use crate::payload::law_payload_is_the_same_envelope;
use vstd::prelude::*;

verus! {

/// An envelope without destination reaches every other connection exactly
/// once, as the envelope's payload at the end of its queue, and does not come
/// back to its sender. The payload is an envelope of the same kind, data and
/// context. A recipient whose queue is full is dropped instead.
pub proof fn law_broadcast_reaches_all_others(
    q: Map<u64, Seq<Seq<u8>>>,
    limit: nat,
    max_bytes: nat,
    sender: u64,
    other: u64,
    frame: Seq<u8>,
)
    requires
        judged(q.dom(), max_bytes, sender, frame) is None,
        envelope(frame)->0.destination.len() == 0,
        q.dom().contains(other),
        other != sender,
    ensures
        ({
            let after = relayed(q, limit, max_bytes, sender, frame);
            &&& after.dom().contains(sender)
            &&& after[sender] == q[sender]
            &&& q[other].len() < limit ==> after.dom().contains(other) && after[other]
                == q[other].push(envelope(frame)->0.payload)
            &&& q[other].len() >= limit ==> !after.dom().contains(other)
        }),
        envelope(envelope(frame)->0.payload) == envelope(frame),
{
    law_payload_is_the_same_envelope(frame);
}

/// An envelope with a destination reaches each registered connection that the
/// destination lists exactly once, however often it is listed, and nobody
/// else. The sender gets it if and only if the destination lists the sender.
pub proof fn law_direct_reaches_the_listed_only(
    q: Map<u64, Seq<Seq<u8>>>,
    limit: nat,
    max_bytes: nat,
    sender: u64,
    id: u64,
    frame: Seq<u8>,
)
    requires
        judged(q.dom(), max_bytes, sender, frame) is None,
        envelope(frame)->0.destination.len() > 0,
        q.dom().contains(id),
    ensures
        ({
            let e = envelope(frame)->0;
            let after = relayed(q, limit, max_bytes, sender, frame);
            &&& e.destination.contains(id) && q[id].len() < limit ==> after.dom().contains(id)
                && after[id] == q[id].push(e.payload)
            &&& e.destination.contains(id) && q[id].len() >= limit ==> !after.dom().contains(id)
            &&& !e.destination.contains(id) ==> after.dom().contains(id) && after[id] == q[id]
        }),
{
}

/// A destination that lists an id which is not registered is no error, and
/// the envelope goes to the other ids as if that id were not listed. Nothing
/// is registered by it.
pub proof fn law_unknown_destination_is_passed_over(
    q: Map<u64, Seq<Seq<u8>>>,
    limit: nat,
    max_bytes: nat,
    sender: u64,
    unknown: u64,
    frame: Seq<u8>,
)
    requires
        q.dom().contains(sender),
        frame.len() <= max_bytes,
        envelope(frame) is Some,
        envelope(frame)->0.destination.len() > 0,
        !q.dom().contains(unknown),
    ensures
        judged(q.dom(), max_bytes, sender, frame) is None,
        relayed(q, limit, max_bytes, sender, frame) == delivered(
            q,
            envelope(frame)->0.destination.to_set().remove(unknown),
            envelope(frame)->0.payload,
            limit,
        ),
        !relayed(q, limit, max_bytes, sender, frame).dom().contains(unknown),
{
    assert(relayed(q, limit, max_bytes, sender, frame) =~= delivered(
        q,
        envelope(frame)->0.destination.to_set().remove(unknown),
        envelope(frame)->0.payload,
        limit,
    ));
}

/// A frame that is too large is refused whoever sends it, and reaches nobody
/// but its sender, who gets the oversize notice once and stays registered. A
/// sender whose own queue is full is dropped instead. The notice is an
/// envelope of the kind `error`.
pub proof fn law_oversize_is_answered_to_the_sender(
    q: Map<u64, Seq<Seq<u8>>>,
    limit: nat,
    max_bytes: nat,
    sender: u64,
    frame: Seq<u8>,
)
    requires
        frame.len() > max_bytes,
    ensures
        judged(q.dom(), max_bytes, sender, frame) == Some(BusError::OversizeMessage),
        ({
            let after = relayed(q, limit, max_bytes, sender, frame);
            &&& forall|id: u64|
                id != sender ==> (after.dom().contains(id) <==> q.dom().contains(id))
            &&& forall|id: u64|
                id != sender && q.dom().contains(id) ==> #[trigger] after[id] == q[id]
            &&& q.dom().contains(sender) && q[sender].len() < limit ==> after.dom().contains(
                sender,
            ) && after[sender] == q[sender].push(oversize_notice())
            &&& q.dom().contains(sender) && q[sender].len() >= limit ==> !after.dom().contains(
                sender,
            )
            &&& !q.dom().contains(sender) ==> after == q
        }),
        envelope(oversize_notice()) is Some,
        envelope(oversize_notice())->0.kind == name_error(),
{
    law_notices_are_envelopes();
}

/// A frame that holds no envelope reaches nobody but its sender, who gets the
/// malformed notice once and stays registered. A sender whose own queue is
/// full is dropped instead. The notice is an envelope of the kind `error`.
pub proof fn law_malformed_is_answered_to_the_sender(
    q: Map<u64, Seq<Seq<u8>>>,
    limit: nat,
    max_bytes: nat,
    sender: u64,
    frame: Seq<u8>,
)
    requires
        q.dom().contains(sender),
        frame.len() <= max_bytes,
        envelope(frame) is None,
    ensures
        judged(q.dom(), max_bytes, sender, frame) == Some(BusError::MalformedEnvelope),
        ({
            let after = relayed(q, limit, max_bytes, sender, frame);
            &&& forall|id: u64|
                id != sender ==> (after.dom().contains(id) <==> q.dom().contains(id))
            &&& forall|id: u64|
                id != sender && q.dom().contains(id) ==> #[trigger] after[id] == q[id]
            &&& q[sender].len() < limit ==> after.dom().contains(sender) && after[sender]
                == q[sender].push(malformed_notice())
            &&& q[sender].len() >= limit ==> !after.dom().contains(sender)
        }),
        envelope(malformed_notice()) is Some,
        envelope(malformed_notice())->0.kind == name_error(),
{
    law_notices_are_envelopes();
}

/// Once a connection is unregistered, unregistering it again changes
/// nothing, and no frame, whoever sends it and whomever it names, puts
/// anything into a queue for it, drops it, or brings it back.
pub proof fn law_disconnected_gets_nothing(
    q: Map<u64, Seq<Seq<u8>>>,
    limit: nat,
    max_bytes: nat,
    gone: u64,
    sender: u64,
    frame: Seq<u8>,
)
    ensures
        q.remove(gone).remove(gone) == q.remove(gone),
        ({
            let left = q.remove(gone);
            let to = addressees(left.dom(), max_bytes, sender, frame);
            &&& !relayed(left, limit, max_bytes, sender, frame).dom().contains(gone)
            &&& !reached(left, to, limit).contains(gone)
            &&& !overrun(left, to, limit).contains(gone)
        }),
{
    assert(q.remove(gone).remove(gone) =~= q.remove(gone));
}

/// Two frames that one connection sends, one after the other, and that are
/// both for `recipient`, stand in that order at the end of the recipient's
/// queue, which hands its frames out oldest first.
pub proof fn law_frames_arrive_in_sending_order(
    q: Map<u64, Seq<Seq<u8>>>,
    limit: nat,
    max_bytes: nat,
    sender: u64,
    recipient: u64,
    first: Seq<u8>,
    second: Seq<u8>,
)
    requires
        q.dom().contains(recipient),
        q[recipient].len() + 2 <= limit,
        judged(q.dom(), max_bytes, sender, first) is None,
        addressees(q.dom(), max_bytes, sender, first).contains(recipient),
        judged(relayed(q, limit, max_bytes, sender, first).dom(), max_bytes, sender, second)
            is None,
        addressees(
            relayed(q, limit, max_bytes, sender, first).dom(),
            max_bytes,
            sender,
            second,
        ).contains(recipient),
    ensures
        ({
            let between = relayed(q, limit, max_bytes, sender, first);
            let after = relayed(between, limit, max_bytes, sender, second);
            &&& after.dom().contains(recipient)
            &&& after[recipient] == q[recipient].push(envelope(first)->0.payload).push(
                envelope(second)->0.payload,
            )
        }),
{
}

/// A frame touches nobody that it is not for: a connection outside the
/// frame's addressees stays registered, and its queue stays as it was.
pub proof fn law_bystanders_are_untouched(
    q: Map<u64, Seq<Seq<u8>>>,
    limit: nat,
    max_bytes: nat,
    sender: u64,
    bystander: u64,
    frame: Seq<u8>,
)
    requires
        q.dom().contains(bystander),
        !addressees(q.dom(), max_bytes, sender, frame).contains(bystander),
    ensures
        relayed(q, limit, max_bytes, sender, frame).dom().contains(bystander),
        relayed(q, limit, max_bytes, sender, frame)[bystander] == q[bystander],
{
}

/// What is put into a queue is the payload of an envelope or one of the two
/// notices, and a notice goes to nobody but the sender of the frame.
pub proof fn law_only_payloads_and_notices(max_bytes: nat, frame: Seq<u8>)
    ensures
        outgoing(max_bytes, frame) == oversize_notice() || outgoing(max_bytes, frame)
            == malformed_notice() || (envelope(frame) is Some && outgoing(max_bytes, frame)
            == envelope(frame)->0.payload),
{
}

} // verus!
