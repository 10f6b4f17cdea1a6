use ovos_bus::config::{Config, Environment};
use ovos_bus::envelope::{MALFORMED_NOTICE, OVERSIZE_NOTICE};
use ovos_bus::lifecycle::{Action, ConnState, Event, Session};
use ovos_bus::message_bus::{BusError, MessageBus, DEFAULT_CAPACITY, DEFAULT_QUEUE_LIMIT};
use ovos_bus::registry::RegistryError;

fn config(max_msg_size: &str) -> Config {
    let mut env = Environment::new();
    env.set("OVOS_BUS_MAX_MSG_SIZE", max_msg_size.to_string());
    Config::new(None, env)
}

fn bus_with(clients: u64, queue_limit: usize) -> MessageBus {
    let mut bus = MessageBus::with_limits(config("25"), 16, queue_limit);
    for expected in 1..=clients {
        assert_eq!(bus.connect(), Ok(expected));
    }
    bus
}

fn drain(bus: &mut MessageBus, id: u64) -> Vec<Vec<u8>> {
    let mut out = Vec::new();
    while let Some(frame) = bus.next_outbound(id) {
        out.push(frame);
    }
    out
}

fn frame_of_size(size: usize) -> Vec<u8> {
    let head = b"{\"type\":\"x\",\"pad\":\"";
    let tail = b"\"}";
    let mut frame = head.to_vec();
    frame.resize(size - tail.len(), b'a');
    frame.extend_from_slice(tail);
    assert_eq!(frame.len(), size);
    frame
}

#[test]
fn a_new_bus_has_the_default_limits() {
    let bus = MessageBus::new(config("25"));
    assert_eq!(bus.config().max_msg_size, 25);
    assert_eq!(bus.registry().len(), 0);
    assert_eq!(DEFAULT_CAPACITY, 1024);
    assert_eq!(DEFAULT_QUEUE_LIMIT, 256);
}

#[test]
fn broadcast_goes_to_everybody_but_the_sender() {
    let mut bus = bus_with(4, 8);
    let outcome = bus.handle_frame(3, b"{\"type\":\"speak\",\"data\":{\"utterance\":\"hi\"}}");
    assert_eq!(outcome.error, None);
    assert_eq!(outcome.delivery.queued, vec![1, 2, 4]);
    let expected = b"{\"type\":\"speak\",\"data\":{\"utterance\":\"hi\"},\"context\":{}}".to_vec();
    for id in [1u64, 2, 4] {
        assert_eq!(drain(&mut bus, id), vec![expected.clone()]);
    }
    assert!(drain(&mut bus, 3).is_empty());
}

#[test]
fn a_lone_sender_broadcasts_to_nobody() {
    let mut bus = bus_with(1, 8);
    let outcome = bus.handle_frame(1, b"{\"type\":\"ping\"}");
    assert_eq!(outcome.error, None);
    assert!(outcome.delivery.queued.is_empty());
    assert!(drain(&mut bus, 1).is_empty());
}

#[test]
fn direct_delivery_goes_to_the_listed_once() {
    let mut bus = bus_with(4, 8);
    let frame = b"{\"type\":\"reply\",\"context\":{\"destination\":[4,2,4,2,2]}}";
    let outcome = bus.handle_frame(1, frame);
    assert_eq!(outcome.error, None);
    assert_eq!(outcome.delivery.queued, vec![4, 2]);
    assert_eq!(drain(&mut bus, 2).len(), 1);
    assert_eq!(drain(&mut bus, 4).len(), 1);
    assert!(drain(&mut bus, 1).is_empty());
    assert!(drain(&mut bus, 3).is_empty());
}

#[test]
fn a_sender_that_lists_itself_gets_its_own_envelope() {
    let mut bus = bus_with(3, 8);
    let outcome = bus.handle_frame(1, b"{\"type\":\"echo\",\"context\":{\"destination\":[1,2]}}");
    assert_eq!(outcome.error, None);
    assert_eq!(outcome.delivery.queued, vec![1, 2]);
    assert_eq!(drain(&mut bus, 1).len(), 1);
    assert_eq!(drain(&mut bus, 2).len(), 1);
    assert!(drain(&mut bus, 3).is_empty());
}

#[test]
fn an_unknown_destination_is_passed_over() {
    let mut bus = bus_with(3, 8);
    let outcome = bus.handle_frame(1, b"{\"type\":\"x\",\"context\":{\"destination\":[9,3,0]}}");
    assert_eq!(outcome.error, None);
    assert_eq!(outcome.delivery.queued, vec![3]);
    assert!(outcome.delivery.dropped.is_empty());
    assert_eq!(drain(&mut bus, 3).len(), 1);
    assert_eq!(bus.registry().snapshot(), vec![1, 2, 3]);
    let outcome = bus.handle_frame(1, b"{\"type\":\"x\",\"context\":{\"destination\":[9]}}");
    assert_eq!(outcome.error, None);
    assert!(outcome.delivery.queued.is_empty());
    assert!(drain(&mut bus, 1).is_empty());
}

#[test]
fn the_size_limit_counts_units_of_1024_bytes() {
    let mut bus = MessageBus::with_limits(config("1"), 16, 8);
    assert_eq!(bus.connect(), Ok(1));
    assert_eq!(bus.connect(), Ok(2));
    let fits = frame_of_size(1024);
    let outcome = bus.handle_frame(1, &fits);
    assert_eq!(outcome.error, None);
    assert_eq!(drain(&mut bus, 2).len(), 1);

    let too_large = frame_of_size(1025);
    let outcome = bus.handle_frame(1, &too_large);
    assert_eq!(outcome.error, Some(BusError::OversizeMessage));
    assert_eq!(outcome.delivery.queued, vec![1]);
    assert_eq!(drain(&mut bus, 1), vec![OVERSIZE_NOTICE.as_bytes().to_vec()]);
    assert!(drain(&mut bus, 2).is_empty());
    assert!(bus.registry().contains(1));
}

#[test]
fn an_oversize_frame_is_not_read() {
    let mut bus = MessageBus::with_limits(config("0"), 16, 8);
    assert_eq!(bus.connect(), Ok(1));
    let outcome = bus.handle_frame(1, b"not even json");
    assert_eq!(outcome.error, Some(BusError::OversizeMessage));
    let outcome = bus.handle_frame(1, b"");
    assert_eq!(outcome.error, Some(BusError::MalformedEnvelope));
    assert_eq!(
        drain(&mut bus, 1),
        vec![OVERSIZE_NOTICE.as_bytes().to_vec(), MALFORMED_NOTICE.as_bytes().to_vec()]
    );
}

#[test]
fn a_malformed_frame_reaches_nobody_else() {
    let mut bus = bus_with(3, 8);
    for frame in [&b"garbage"[..], b"{\"no_type\":1}", b"", b"{\"type\":\"x\",\"s\":\"\xff\"}"] {
        let outcome = bus.handle_frame(2, frame);
        assert_eq!(outcome.error, Some(BusError::MalformedEnvelope));
        assert_eq!(outcome.delivery.queued, vec![2]);
        assert_eq!(drain(&mut bus, 2), vec![MALFORMED_NOTICE.as_bytes().to_vec()]);
        assert!(drain(&mut bus, 1).is_empty());
        assert!(drain(&mut bus, 3).is_empty());
    }
    assert_eq!(bus.registry().snapshot(), vec![1, 2, 3]);
}

#[test]
fn a_frame_from_nobody_is_dropped() {
    let mut bus = bus_with(2, 8);
    let outcome = bus.handle_frame(7, b"{\"type\":\"ping\"}");
    assert_eq!(outcome.error, Some(BusError::ConnectionLost));
    assert!(outcome.delivery.queued.is_empty());
    assert!(drain(&mut bus, 1).is_empty());
    assert!(drain(&mut bus, 2).is_empty());
}

#[test]
fn a_disconnected_client_gets_nothing_more() {
    let mut bus = bus_with(3, 8);
    assert!(bus.disconnect(2));
    assert!(!bus.disconnect(2));
    let outcome = bus.handle_frame(1, b"{\"type\":\"ping\"}");
    assert_eq!(outcome.delivery.queued, vec![3]);
    let outcome = bus.handle_frame(1, b"{\"type\":\"ping\",\"context\":{\"destination\":[2]}}");
    assert!(outcome.delivery.queued.is_empty());
    assert!(outcome.delivery.dropped.is_empty());
    assert_eq!(bus.next_outbound(2), None);
    assert_eq!(bus.connect(), Ok(4));
    assert_eq!(bus.registry().snapshot(), vec![1, 3, 4]);
}

#[test]
fn frames_arrive_in_the_order_they_were_sent() {
    let mut bus = bus_with(2, 8);
    assert_eq!(bus.handle_frame(1, b"{\"type\":\"m1\"}").error, None);
    assert_eq!(bus.handle_frame(1, b"{\"type\":\"m2\",\"context\":{\"destination\":[2]}}").error, None);
    assert_eq!(bus.handle_frame(1, b"{\"type\":\"m3\"}").error, None);
    let got = drain(&mut bus, 2);
    assert_eq!(got.len(), 3);
    assert!(got[0].starts_with(b"{\"type\":\"m1\""));
    assert!(got[1].starts_with(b"{\"type\":\"m2\""));
    assert!(got[2].starts_with(b"{\"type\":\"m3\""));
}

#[test]
fn a_full_queue_costs_only_its_owner() {
    let mut bus = bus_with(3, 2);
    assert_eq!(bus.handle_frame(1, b"{\"type\":\"a\"}").error, None);
    assert_eq!(bus.handle_frame(1, b"{\"type\":\"b\"}").error, None);
    assert_eq!(drain(&mut bus, 3).len(), 2);
    let outcome = bus.handle_frame(1, b"{\"type\":\"c\"}");
    assert_eq!(outcome.error, None);
    assert_eq!(outcome.delivery.queued, vec![3]);
    assert_eq!(outcome.delivery.dropped, vec![2]);
    assert_eq!(bus.registry().snapshot(), vec![1, 3]);
    assert_eq!(bus.next_outbound(2), None);
    assert_eq!(drain(&mut bus, 3).len(), 1);
}

#[test]
fn a_sender_with_a_full_queue_is_dropped_by_its_own_notice() {
    let mut bus = bus_with(2, 1);
    assert_eq!(bus.handle_frame(2, b"{\"type\":\"a\"}").error, None);
    let outcome = bus.handle_frame(1, b"oops");
    assert_eq!(outcome.error, Some(BusError::MalformedEnvelope));
    assert!(outcome.delivery.queued.is_empty());
    assert_eq!(outcome.delivery.dropped, vec![1]);
    assert_eq!(bus.registry().snapshot(), vec![2]);
}

#[test]
fn the_connection_cap_refuses_the_next_client() {
    let mut bus = MessageBus::with_limits(config("25"), 2, 8);
    assert_eq!(bus.connect(), Ok(1));
    assert_eq!(bus.connect(), Ok(2));
    assert_eq!(bus.connect(), Err(RegistryError::CapacityExceeded));
    assert_eq!(bus.handle_frame(1, b"{\"type\":\"ping\"}").delivery.queued, vec![2]);
}

#[test]
fn a_session_goes_from_connecting_to_closed() {
    let mut bus = MessageBus::with_limits(config("25"), 1, 8);
    let mut session = Session::new();
    assert_eq!(session.current(), ConnState::Connecting);
    assert_eq!(session.open_id(), None);
    assert_eq!(session.on_frame(&mut bus, b"{\"type\":\"x\"}").error, Some(BusError::ConnectionLost));

    assert_eq!(session.on_event(&mut bus, Event::HandshakeDone), Action::Register);
    assert_eq!(session.current(), ConnState::Open);
    assert_eq!(session.open_id(), Some(1));
    assert!(bus.registry().contains(1));
    assert_eq!(session.on_frame(&mut bus, b"{\"type\":\"x\"}").error, None);

    let mut refused = Session::new();
    assert_eq!(refused.on_event(&mut bus, Event::HandshakeDone), Action::Nothing);
    assert_eq!(refused.current(), ConnState::Closed);

    assert_eq!(session.on_event(&mut bus, Event::CloseRequested), Action::Unregister);
    assert_eq!(session.current(), ConnState::Closing);
    assert_eq!(session.open_id(), None);
    assert!(!bus.registry().contains(1));
    assert_eq!(session.on_event(&mut bus, Event::CloseRequested), Action::Nothing);
    assert_eq!(session.current(), ConnState::Closing);
    assert_eq!(session.on_event(&mut bus, Event::StreamClosed), Action::Nothing);
    assert_eq!(session.current(), ConnState::Closed);
    for event in [
        Event::HandshakeDone,
        Event::HandshakeFailed,
        Event::CloseRequested,
        Event::ProtocolError,
        Event::SendFailed,
        Event::StreamClosed,
    ] {
        assert_eq!(session.on_event(&mut bus, event), Action::Nothing);
        assert_eq!(session.current(), ConnState::Closed);
    }
    assert_eq!(session.on_frame(&mut bus, b"{\"type\":\"x\"}").error, Some(BusError::ConnectionLost));
}

#[test]
fn every_way_out_of_open_unregisters() {
    for event in [
        Event::HandshakeDone,
        Event::HandshakeFailed,
        Event::ProtocolError,
        Event::SendFailed,
        Event::StreamClosed,
    ] {
        let mut bus = MessageBus::with_limits(config("25"), 4, 8);
        let mut session = Session::new();
        assert_eq!(session.on_event(&mut bus, Event::HandshakeDone), Action::Register);
        assert_eq!(session.on_event(&mut bus, event), Action::Unregister);
        assert_eq!(session.current(), ConnState::Closed);
        assert_eq!(bus.registry().len(), 0);
    }
    let mut bus = MessageBus::with_limits(config("25"), 4, 8);
    let mut failed = Session::new();
    assert_eq!(failed.on_event(&mut bus, Event::HandshakeFailed), Action::Nothing);
    assert_eq!(failed.current(), ConnState::Closed);
    assert_eq!(bus.registry().len(), 0);
}

#[test]
fn an_oversize_frame_from_nobody_is_told_to_nobody() {
    let mut bus = MessageBus::with_limits(config("0"), 16, 8);
    assert_eq!(bus.connect(), Ok(1));
    let outcome = bus.handle_frame(9, b"x");
    assert_eq!(outcome.error, Some(BusError::OversizeMessage));
    assert!(outcome.delivery.queued.is_empty());
    assert!(outcome.delivery.dropped.is_empty());
    assert_eq!(bus.next_outbound(1), None);
    assert_eq!(bus.registry().snapshot(), vec![1]);
}
