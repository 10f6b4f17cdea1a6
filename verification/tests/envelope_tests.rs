use ovos_bus::envelope::{Envelope, MALFORMED_NOTICE, OVERSIZE_NOTICE};

fn parsed(frame: &str) -> Envelope {
    Envelope::parse(frame.as_bytes()).expect("an envelope")
}

fn refused(frame: &str) -> bool {
    Envelope::parse(frame.as_bytes()).is_none()
}

#[test]
fn a_bare_type_gets_empty_data_and_context() {
    let e = parsed("{\"type\":\"ping\"}");
    assert_eq!(e.kind, b"ping".to_vec());
    assert_eq!(e.data, b"{}".to_vec());
    assert_eq!(e.context, b"{}".to_vec());
    assert!(e.destination.is_empty());
    assert_eq!(e.payload, b"{\"type\":\"ping\",\"data\":{},\"context\":{}}".to_vec());
}

#[test]
fn a_full_envelope_passes_as_written() {
    let frame = "{\"type\":\"speak\",\"data\":{\"utterance\":\"hi \\u263a\"},\"context\":{\"session\":{\"id\":7}}}";
    let e = parsed(frame);
    assert_eq!(e.kind, b"speak".to_vec());
    assert_eq!(e.data, b"{\"utterance\":\"hi \\u263a\"}".to_vec());
    assert_eq!(e.context, b"{\"session\":{\"id\":7}}".to_vec());
    assert!(e.destination.is_empty());
    assert_eq!(e.payload, frame.as_bytes().to_vec());
}

#[test]
fn unknown_members_and_their_order_are_kept() {
    let frame = " \n{ \"zeta\" : [1, 2] , \"context\":{}, \"type\" : \"recognizer_loop:utterance\" }\t";
    let e = parsed(frame);
    assert_eq!(e.kind, b"recognizer_loop:utterance".to_vec());
    assert_eq!(
        e.payload,
        b"{ \"zeta\" : [1, 2] , \"context\":{}, \"type\" : \"recognizer_loop:utterance\" ,\"data\":{}}"
            .to_vec()
    );
}

#[test]
fn only_a_missing_context_is_added() {
    let e = parsed("{\"data\":{\"a\":1},\"type\":\"x\"}");
    assert_eq!(e.payload, b"{\"data\":{\"a\":1},\"type\":\"x\",\"context\":{}}".to_vec());
    assert_eq!(e.data, b"{\"a\":1}".to_vec());
}

#[test]
fn the_destination_is_read_from_the_context() {
    assert_eq!(parsed("{\"type\":\"pong\",\"context\":{\"destination\":[2]}}").destination, vec![2]);
    assert_eq!(
        parsed("{\"type\":\"x\",\"context\":{\"a\":1,\"destination\":[ 3, 1 ,3 ]}}").destination,
        vec![3, 1, 3]
    );
    assert_eq!(
        parsed("{\"type\":\"x\",\"context\":{\"d\\u0065stination\":[5]}}").destination,
        vec![5]
    );
}

#[test]
fn a_destination_that_lists_no_ids_means_everybody() {
    for context in [
        "{}",
        "{\"destination\":[]}",
        "{\"destination\":\"2\"}",
        "{\"destination\":2}",
        "{\"destination\":null}",
        "{\"destination\":[2,\"3\"]}",
        "{\"destination\":[2.0]}",
        "{\"destination\":[-2]}",
        "{\"destination\":[18446744073709551616]}",
        "{\"destination\":{\"ids\":[2]}}",
        "{\"Destination\":[2]}",
    ] {
        let frame = format!("{{\"type\":\"x\",\"context\":{}}}", context);
        assert!(parsed(&frame).destination.is_empty(), "context {}", context);
    }
    assert!(parsed("{\"type\":\"x\",\"destination\":[2]}").destination.is_empty());
    assert!(parsed("{\"type\":\"x\",\"data\":{\"destination\":[2]}}").destination.is_empty());
}

#[test]
fn what_is_no_envelope_is_refused() {
    for frame in [
        "",
        "   ",
        "not json",
        "{",
        "{}",
        "[]",
        "\"type\"",
        "{\"data\":{}}",
        "{\"type\":\"\"}",
        "{\"type\":5}",
        "{\"type\":null}",
        "{\"type\":[\"x\"]}",
        "{\"type\":{\"x\":1}}",
        "{\"Type\":\"x\"}",
        "{\"type\":\"x\",\"type\":\"y\"}",
        "{\"type\":\"x\",\"t\\u0079pe\":\"y\"}",
        "{\"type\":\"x\",\"data\":[]}",
        "{\"type\":\"x\",\"data\":null}",
        "{\"type\":\"x\",\"data\":\"{}\"}",
        "{\"type\":\"x\",\"data\":{},\"data\":{}}",
        "{\"type\":\"x\",\"context\":7}",
        "{\"type\":\"x\",\"context\":{},\"context\":{}}",
        "{\"type\":\"x\",\"context\":{\"destination\":[1],\"destination\":[2]}}",
        "{\"type\":\"x\"} trailing",
        "{\"type\":\"x\"}{\"type\":\"y\"}",
        "{\"type\":\"x\",}",
        "{\"type\":\"x\" \"data\":{}}",
        "{'type':'x'}",
        "{\"type\":\"x\",\"n\":01}",
        "{\"type\":\"x\",\"s\":\"\\q\"}",
        "{\"type\":\"x\",\"s\":\"line\nbreak\"}",
        "{\"type\":\"x\",\"v\":undefined}",
        "\u{feff}{\"type\":\"x\"}",
    ] {
        assert!(refused(frame), "frame {:?}", frame);
    }
}

fn nested(depth: usize) -> String {
    format!("{{\"type\":\"x\",\"deep\":{}{}}}", "[".repeat(depth), "]".repeat(depth))
}

#[test]
fn nesting_has_a_limit() {
    assert!(!refused(&nested(1)));
    assert!(!refused(&nested(127)));
    assert!(refused(&nested(128)));
    assert!(refused(&nested(100_000)));
}

#[test]
fn the_notices_are_envelopes_themselves() {
    let oversize = parsed(OVERSIZE_NOTICE);
    assert_eq!(oversize.kind, b"error".to_vec());
    assert_eq!(oversize.data, b"{\"error\":\"message-too-large\"}".to_vec());
    assert_eq!(oversize.payload, OVERSIZE_NOTICE.as_bytes().to_vec());
    let malformed = parsed(MALFORMED_NOTICE);
    assert_eq!(malformed.kind, b"error".to_vec());
    assert_eq!(malformed.data, b"{\"error\":\"malformed-payload\"}".to_vec());
    assert_eq!(malformed.payload, MALFORMED_NOTICE.as_bytes().to_vec());
}

#[test]
fn a_payload_is_an_envelope_with_the_same_content() {
    for frame in [
        "{\"type\":\"ping\"}",
        "  {\"type\":\"a\",\"n\":12}",
        "{\"n\":1e5 ,\"type\":\"a\", \"context\":{\"destination\":[4,2]}\n}",
        "{\"data\":{\"k\":[1,{\"z\":null}]},\"type\":\"speak\"}",
    ] {
        let first = parsed(frame);
        let again = Envelope::parse(&first.payload).expect("the payload is an envelope");
        assert_eq!(again.kind, first.kind);
        assert_eq!(again.data, first.data);
        assert_eq!(again.context, first.context);
        assert_eq!(again.destination, first.destination);
        assert_eq!(again.payload, first.payload);
    }
}

#[test]
fn bytes_that_are_not_utf8_hold_no_envelope() {
    assert!(Envelope::parse(b"{\"type\":\"x\",\"s\":\"\xff\"}").is_none());
    assert!(Envelope::parse(b"{\"type\":\"\xc3\"}").is_none());
    assert!(Envelope::parse(b"{\"type\":\"\xed\xa0\x80\"}").is_none());
    assert!(Envelope::parse(b"{\"type\":\"\xc0\xaf\"}").is_none());
    let e = Envelope::parse("{\"type\":\"gr\u{fc}\u{df}e \u{1f600}\"}".as_bytes()).expect("utf-8");
    assert_eq!(e.kind, "gr\u{fc}\u{df}e \u{1f600}".as_bytes().to_vec());
}
