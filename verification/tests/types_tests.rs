use freeswitch_sofia_trace_parser::Direction;
use freeswitch_sofia_trace_parser::ParsedSipMessage;
use freeswitch_sofia_trace_parser::SipMessageType;
use freeswitch_sofia_trace_parser::Timestamp;
use freeswitch_sofia_trace_parser::Transport;

fn make_parsed(
    msg_type: SipMessageType,
    headers: Vec<(&str, &str)>,
    body: &[u8],
) -> ParsedSipMessage {
    ParsedSipMessage {
        direction: Direction::Recv,
        transport: Transport::Tcp,
        address: "10.0.0.1:5060".into(),
        timestamp: Timestamp::TimeOnly {
            hour: 12,
            min: 0,
            sec: 0,
            usec: 0,
        },
        message_type: msg_type,
        headers: headers
            .iter()
            .map(|(k, v)| (k.to_string(), v.to_string()))
            .collect(),
        body: body.to_vec(),
        frame_count: 1,
    }
}

#[test]
fn to_bytes_request_no_body() {
    let msg = make_parsed(
        SipMessageType::Request {
            method: "OPTIONS".into(),
            uri: "sip:host".into(),
        },
        vec![("Call-ID", "test")],
        b"",
    );
    let bytes = msg.to_bytes();
    let text = String::from_utf8(bytes).unwrap();
    assert!(text.starts_with("OPTIONS sip:host SIP/2.0\r\n"));
    assert!(text.contains("Call-ID: test\r\n"));
    assert!(text.ends_with("\r\n\r\n"));
}

#[test]
fn to_bytes_request_with_body() {
    let body = b"v=0\r\ns=-\r\n";
    let msg = make_parsed(
        SipMessageType::Request {
            method: "INVITE".into(),
            uri: "sip:host".into(),
        },
        vec![("Call-ID", "test")],
        body,
    );
    let bytes = msg.to_bytes();
    assert!(bytes.ends_with(body));
}

#[test]
fn to_bytes_response() {
    let msg = make_parsed(
        SipMessageType::Response {
            code: 200,
            reason: "OK".into(),
        },
        vec![("Call-ID", "resp-test")],
        b"",
    );
    let bytes = msg.to_bytes();
    let text = String::from_utf8(bytes).unwrap();
    assert!(text.starts_with("SIP/2.0 200 OK\r\n"));
}

#[test]
fn body_text_valid_utf8() {
    let msg = make_parsed(
        SipMessageType::Request {
            method: "MESSAGE".into(),
            uri: "sip:host".into(),
        },
        vec![],
        b"hello world",
    );
    assert_eq!(&*msg.body_text(), "hello world");
}

#[test]
fn body_text_empty() {
    let msg = make_parsed(
        SipMessageType::Request {
            method: "OPTIONS".into(),
            uri: "sip:host".into(),
        },
        vec![],
        b"",
    );
    assert_eq!(&*msg.body_text(), "");
}

#[test]
fn body_text_binary() {
    let msg = make_parsed(
        SipMessageType::Request {
            method: "MESSAGE".into(),
            uri: "sip:host".into(),
        },
        vec![],
        &[0xFF, 0xFE],
    );
    assert!(msg.body_text().contains('\u{FFFD}'));
}
