use ovos_bus::config::{Config, Environment};
use ovos_bus::message_bus::{BusError, MessageBus};

fn default_bus() -> MessageBus {
    MessageBus::new(Config::new(None, Environment::new()))
}

#[test]
fn three_clients_ping_then_direct_pong() {
    let mut bus = default_bus();
    assert_eq!(bus.config().route, "/core");
    assert_eq!(bus.connect(), Ok(1));
    assert_eq!(bus.connect(), Ok(2));
    assert_eq!(bus.connect(), Ok(3));

    let outcome = bus.handle_frame(1, b"{\"type\":\"ping\"}");
    assert_eq!(outcome.error, None);
    assert_eq!(outcome.delivery.queued, vec![2, 3]);
    assert!(outcome.delivery.dropped.is_empty());
    let expected = b"{\"type\":\"ping\",\"data\":{},\"context\":{}}".to_vec();
    assert_eq!(bus.next_outbound(2), Some(expected.clone()));
    assert_eq!(bus.next_outbound(3), Some(expected));
    assert_eq!(bus.next_outbound(1), None);
    assert_eq!(bus.next_outbound(2), None);
    assert_eq!(bus.next_outbound(3), None);

    let outcome = bus.handle_frame(1, b"{\"type\":\"pong\",\"context\":{\"destination\":[2]}}");
    assert_eq!(outcome.error, None);
    assert_eq!(outcome.delivery.queued, vec![2]);
    assert_eq!(
        bus.next_outbound(2),
        Some(b"{\"type\":\"pong\",\"context\":{\"destination\":[2]},\"data\":{}}".to_vec())
    );
    assert_eq!(bus.next_outbound(1), None);
    assert_eq!(bus.next_outbound(3), None);
}

#[test]
fn malformed_frame_is_answered_to_the_sender_only() {
    let mut bus = default_bus();
    assert_eq!(bus.connect(), Ok(1));
    assert_eq!(bus.connect(), Ok(2));
    let outcome = bus.handle_frame(1, b"{\"data\":{}}");
    assert_eq!(outcome.error, Some(BusError::MalformedEnvelope));
    assert_eq!(outcome.delivery.queued, vec![1]);
    assert_eq!(
        bus.next_outbound(1),
        Some(
            b"{\"type\":\"error\",\"data\":{\"error\":\"malformed-payload\"},\"context\":{}}"
                .to_vec()
        )
    );
    assert_eq!(bus.next_outbound(1), None);
    assert_eq!(bus.next_outbound(2), None);
    assert!(bus.registry().contains(1));
}
