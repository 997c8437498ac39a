use freeswitch_sofia_trace_parser::Direction;
use freeswitch_sofia_trace_parser::Frame;
use freeswitch_sofia_trace_parser::FrameIterator;
use freeswitch_sofia_trace_parser::MessageIterator;
use freeswitch_sofia_trace_parser::ParseError;
use freeswitch_sofia_trace_parser::ParsedMessageIterator;
use freeswitch_sofia_trace_parser::ParsedSipMessage;
use freeswitch_sofia_trace_parser::SipMessage;
use freeswitch_sofia_trace_parser::SipMessageType;
use freeswitch_sofia_trace_parser::Timestamp;
use freeswitch_sofia_trace_parser::Transport;

fn frame_items(data: &[u8]) -> Vec<Result<Frame, ParseError>> {
    let mut it = FrameIterator::new(data.to_vec());
    let mut out = Vec::new();
    while let Some(item) = it.next() {
        out.push(item);
    }
    out
}

fn messages(data: &[u8]) -> Vec<SipMessage> {
    let mut it = MessageIterator::new(data.to_vec());
    let mut out = Vec::new();
    while let Some(item) = it.next() {
        out.push(item.unwrap());
    }
    out
}

fn parsed_messages(data: &[u8]) -> Vec<ParsedSipMessage> {
    let mut it = ParsedMessageIterator::new(data.to_vec());
    let mut out = Vec::new();
    while let Some(item) = it.next() {
        out.push(item.unwrap());
    }
    out
}

#[test]
fn not_a_dump_yields_nothing() {
    let items = frame_items(b"this is not a dump");
    assert_eq!(items.len(), 0);
}

#[test]
fn missing_trailing_sentinel_keeps_content() {
    let items = frame_items(b"recv 5 bytes from tcp/1.1.1.1:5060 at 00:00:00.000000:\nhello");
    assert_eq!(items.len(), 1);
    assert_eq!(items[0].as_ref().unwrap().content, b"hello");
}

#[test]
fn udp_options_end_to_end() {
    let content = b"OPTIONS sip:u@h SIP/2.0\r\nContent-Length: 0\r\n\r\n";
    let mut data = Vec::new();
    data.extend_from_slice(b"recv 52 bytes from udp/1.1.1.1:5060 at 00:00:00.000000:\n");
    data.extend_from_slice(content);
    data.extend_from_slice(b"\x0B\n");

    let parsed = parsed_messages(&data);
    assert_eq!(parsed.len(), 1);
    assert_eq!(
        parsed[0].message_type,
        SipMessageType::Request {
            method: "OPTIONS".into(),
            uri: "sip:u@h".into()
        }
    );
    assert_eq!(parsed[0].content_length(), Some(0));
    assert!(parsed[0].body.is_empty());
}

#[test]
fn tcp_fragmented_notify_reassembles() {
    let part1 = b"NOTIFY sip:u SIP/2.0\r\n";
    let part2 = b"Content-Length: 0\r\n\r\n";
    let mut data = Vec::new();
    data.extend_from_slice(
        format!("recv {} bytes from tcp/[::1]:5060 at 00:00:00.000000:\n", part1.len()).as_bytes(),
    );
    data.extend_from_slice(part1);
    data.extend_from_slice(b"\x0B\n");
    data.extend_from_slice(
        format!("recv {} bytes from tcp/[::1]:5060 at 00:00:00.000001:\n", part2.len()).as_bytes(),
    );
    data.extend_from_slice(part2);
    data.extend_from_slice(b"\x0B\n");

    let msgs = messages(&data);
    assert_eq!(msgs.len(), 1);
    assert_eq!(msgs[0].frame_count, 2);
    let mut expected = Vec::new();
    expected.extend_from_slice(part1);
    expected.extend_from_slice(part2);
    assert_eq!(msgs[0].content, expected);
}

#[test]
fn multipart_invite_two_parts() {
    let body = b"--bnd\r\nContent-Type: application/sdp\r\n\r\nv=0\r\ns=-\r\n\r\n--bnd\r\nContent-Type: application/pidf+xml\r\n\r\n<presence/>\r\n--bnd--";
    let mut content = Vec::new();
    content.extend_from_slice(b"INVITE sip:u SIP/2.0\r\n");
    content.extend_from_slice(b"Content-Type: multipart/mixed;boundary=bnd\r\n");
    content.extend_from_slice(format!("Content-Length: {}\r\n", body.len()).as_bytes());
    content.extend_from_slice(b"\r\n");
    content.extend_from_slice(body);

    let msg = SipMessage {
        direction: Direction::Recv,
        transport: Transport::Udp,
        address: "1.1.1.1:5060".into(),
        timestamp: Timestamp::TimeOnly {
            hour: 0,
            min: 0,
            sec: 0,
            usec: 0,
        },
        content,
        frame_count: 1,
    };
    let parsed = msg.parse().unwrap();
    assert!(parsed.is_multipart());
    let parts = parsed.body_parts().unwrap();
    assert_eq!(parts.len(), 2);
    assert_eq!(parts[0].content_type().as_deref(), Some("application/sdp"));
    assert_eq!(parts[0].body, b"v=0\r\ns=-\r\n");
    assert_eq!(parts[1].content_type().as_deref(), Some("application/pidf+xml"));
    assert_eq!(parts[1].body, b"<presence/>");
}

#[test]
fn file_concatenation_recovers_with_exact_sizes() {
    // Two dumps concatenated; the second one's first record lost its header.
    let mut data = Vec::new();
    data.extend_from_slice(b"recv 5 bytes from tcp/1.1.1.1:5060 at 00:00:00.000000:\nhello\x0B\n");
    data.extend_from_slice(b"sent 5 bytes to tcp/1.1.1.1:5060 at 00:00:00.000001:\nworld\x0B\n");
    data.extend_from_slice(b"SIP/2.0 200 OK\r\nContent-Length: 0\r\n\r\n");
    data.extend_from_slice(b"\x0B\n");
    data.extend_from_slice(b"recv 3 bytes from tcp/2.2.2.2:5060 at 01:00:00.000000:\nfoo\x0B\n");

    let frames: Vec<Frame> = frame_items(&data).into_iter().filter_map(Result::ok).collect();
    assert_eq!(frames.len(), 3);
    for f in &frames {
        assert_eq!(f.content.len(), f.byte_count, "no size mismatch in surviving frames");
    }
}

#[test]
fn invalid_header_reported_and_recovered() {
    let mut data = Vec::new();
    data.extend_from_slice(b"recv 5 bytes from tcp/1.1.1.1:5060 at 00:00:00.000000:\nhello\x0B\n");
    data.extend_from_slice(b"recv xx bytes from tcp/1.1.1.1:5060 at 00:00:00.000001:\nbad\x0B\n");
    data.extend_from_slice(b"sent 3 bytes to tcp/1.1.1.1:5060 at 00:00:00.000002:\nbye\x0B\n");

    let items = frame_items(&data);
    let errors: Vec<&ParseError> = items.iter().filter_map(|r| r.as_ref().err()).collect();
    let frames: Vec<&Frame> = items.iter().filter_map(|r| r.as_ref().ok()).collect();
    assert_eq!(errors.len(), 1);
    assert!(matches!(errors[0], ParseError::InvalidHeader(_)));
    let text = errors[0].message_text();
    assert!(text.starts_with("invalid frame header: "));
    assert_eq!(frames.len(), 2);
    assert_eq!(frames[0].content, b"hello");
    assert_eq!(frames[1].content, b"bye");
}

#[test]
fn invalid_message_error_text() {
    let e = ParseError::InvalidMessage("no start line".to_string());
    assert_eq!(e.message_text(), "invalid SIP message: no start line");
}

#[test]
fn summary_of_request_and_response() {
    let req = SipMessageType::Request {
        method: "INVITE".into(),
        uri: "sip:u".into(),
    };
    assert_eq!(req.summary(), "INVITE");
    let resp = SipMessageType::Response {
        code: 486,
        reason: "Busy Here".into(),
    };
    assert_eq!(resp.summary(), "486 Busy Here");
}

#[test]
fn sort_key_orders_time_only_before_date() {
    let t = Timestamp::TimeOnly {
        hour: 23,
        min: 59,
        sec: 59,
        usec: 999999,
    };
    let d = Timestamp::DateTime {
        year: 1970,
        month: 1,
        day: 1,
        hour: 0,
        min: 0,
        sec: 0,
        usec: 0,
    };
    assert_eq!(t.sort_key(), (0, 0, 0, 23, 59, 59, 999999));
    assert_eq!(d.sort_key(), (1970, 1, 1, 0, 0, 0, 0));
    assert!(t.sort_key() < d.sort_key());
}

#[test]
fn preposition_per_direction() {
    assert_eq!(Direction::Recv.preposition(), "from");
    assert_eq!(Direction::Sent.preposition(), "to");
}

#[test]
fn address_with_utf8_survives() {
    let header = "recv 2 bytes from tcp/h\u{00e9}:5060 at 00:00:00.000000:\n";
    let mut data = header.as_bytes().to_vec();
    data.extend_from_slice(b"ok\x0B\n");
    let items = frame_items(&data);
    assert_eq!(items.len(), 1);
    assert_eq!(items[0].as_ref().unwrap().address, "h\u{00e9}:5060");
}

#[test]
fn response_method_from_cseq_missing() {
    let msg = SipMessage {
        direction: Direction::Recv,
        transport: Transport::Udp,
        address: "1.1.1.1:5060".into(),
        timestamp: Timestamp::TimeOnly {
            hour: 0,
            min: 0,
            sec: 0,
            usec: 0,
        },
        content: b"SIP/2.0 200 OK\r\nCall-ID: x\r\n\r\n".to_vec(),
        frame_count: 1,
    };
    let parsed = msg.parse().unwrap();
    assert_eq!(parsed.method(), None);
}

#[test]
fn wss_transport_accepted() {
    let data = b"sent 2 bytes to wss/9.9.9.9:443 at 10:20:30.400000:\nhi\x0B\n";
    let items = frame_items(&data[..]);
    assert_eq!(items.len(), 1);
    assert_eq!(items[0].as_ref().unwrap().transport, Transport::Wss);
}

#[test]
fn flush_emits_incomplete_residue() {
    // A stream buffer that never completes is flushed at end of input.
    let part = b"INVITE sip:u SIP/2.0\r\nContent-Length: 100\r\n\r\nshort";
    let mut data = Vec::new();
    data.extend_from_slice(
        format!("recv {} bytes from tcp/1.1.1.1:5060 at 00:00:00.000000:\n", part.len()).as_bytes(),
    );
    data.extend_from_slice(part);
    data.extend_from_slice(b"\x0B\n");

    let msgs = messages(&data);
    assert_eq!(msgs.len(), 1);
    assert_eq!(msgs[0].content, part);
    assert_eq!(msgs[0].frame_count, 1);
}

#[test]
fn round_trip_reparse_request() {
    let content = b"INVITE sip:u@h SIP/2.0\r\nVia: SIP/2.0/UDP a\r\nVia: SIP/2.0/UDP b\r\nCall-ID: rt-1\r\nContent-Length: 5\r\n\r\nhello";
    let msg = SipMessage {
        direction: Direction::Recv,
        transport: Transport::Udp,
        address: "1.1.1.1:5060".into(),
        timestamp: Timestamp::TimeOnly {
            hour: 0,
            min: 0,
            sec: 0,
            usec: 0,
        },
        content: content.to_vec(),
        frame_count: 1,
    };
    let parsed = msg.parse().unwrap();
    let rebuilt = parsed.to_bytes();
    let msg2 = SipMessage {
        content: rebuilt,
        ..msg
    };
    let reparsed = msg2.parse().unwrap();
    assert_eq!(reparsed.message_type, parsed.message_type);
    assert_eq!(reparsed.headers, parsed.headers);
    assert_eq!(reparsed.body, parsed.body);
}

#[test]
fn round_trip_reparse_response() {
    let content = b"SIP/2.0 180 Ringing All The Way\r\nTo: <sip:u>\r\nContent-Length: 0\r\n\r\n";
    let msg = SipMessage {
        direction: Direction::Sent,
        transport: Transport::Tcp,
        address: "2.2.2.2:5060".into(),
        timestamp: Timestamp::TimeOnly {
            hour: 1,
            min: 2,
            sec: 3,
            usec: 4,
        },
        content: content.to_vec(),
        frame_count: 1,
    };
    let parsed = msg.parse().unwrap();
    let rebuilt = parsed.to_bytes();
    let msg2 = SipMessage {
        content: rebuilt,
        ..msg
    };
    let reparsed = msg2.parse().unwrap();
    assert_eq!(reparsed.message_type, parsed.message_type);
    assert_eq!(reparsed.headers, parsed.headers);
    assert_eq!(reparsed.body, parsed.body);
}
