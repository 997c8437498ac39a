use freeswitch_sofia_trace_parser::sip::extract_boundary;
use freeswitch_sofia_trace_parser::Direction;
use freeswitch_sofia_trace_parser::ParsedMessageIterator;
use freeswitch_sofia_trace_parser::ParsedSipMessage;
use freeswitch_sofia_trace_parser::SipMessage;
use freeswitch_sofia_trace_parser::SipMessageType;
use freeswitch_sofia_trace_parser::Timestamp;
use freeswitch_sofia_trace_parser::Transport;

fn make_sip_message(content: &[u8]) -> SipMessage {
    SipMessage {
        direction: Direction::Recv,
        transport: Transport::Udp,
        address: "10.0.0.1:5060".into(),
        timestamp: Timestamp::TimeOnly {
            hour: 12,
            min: 0,
            sec: 0,
            usec: 0,
        },
        content: content.to_vec(),
        frame_count: 1,
    }
}

#[test]
fn parse_options_request() {
    let content = b"OPTIONS sip:user@host SIP/2.0\r\n\
        Via: SIP/2.0/UDP 10.0.0.1:5060;branch=z9hG4bK-1\r\n\
        From: <sip:user@host>;tag=abc\r\n\
        To: <sip:user@host>\r\n\
        Call-ID: test-call-id@host\r\n\
        CSeq: 1 OPTIONS\r\n\
        Content-Length: 0\r\n\
        \r\n";
    let msg = make_sip_message(content);
    let parsed = msg.parse().unwrap();

    assert_eq!(
        parsed.message_type,
        SipMessageType::Request {
            method: "OPTIONS".into(),
            uri: "sip:user@host".into()
        }
    );
    assert_eq!(parsed.call_id().as_deref(), Some("test-call-id@host"));
    assert_eq!(parsed.cseq().as_deref(), Some("1 OPTIONS"));
    assert_eq!(parsed.content_length(), Some(0));
    assert_eq!(parsed.method().as_deref(), Some("OPTIONS"));
    assert!(parsed.body.is_empty());
}

#[test]
fn parse_200_ok_response() {
    let content = b"SIP/2.0 200 OK\r\n\
        Via: SIP/2.0/UDP 10.0.0.1:5060\r\n\
        Call-ID: resp-id@host\r\n\
        CSeq: 1 INVITE\r\n\
        Content-Length: 0\r\n\
        \r\n";
    let msg = make_sip_message(content);
    let parsed = msg.parse().unwrap();

    assert_eq!(
        parsed.message_type,
        SipMessageType::Response {
            code: 200,
            reason: "OK".into()
        }
    );
    assert_eq!(parsed.method().as_deref(), Some("INVITE"));
}

#[test]
fn parse_100_trying() {
    let content = b"SIP/2.0 100 Trying\r\n\
        Via: SIP/2.0/TCP 10.0.0.1:5060\r\n\
        Call-ID: trying-id\r\n\
        CSeq: 42 INVITE\r\n\
        Content-Length: 0\r\n\
        \r\n";
    let msg = make_sip_message(content);
    let parsed = msg.parse().unwrap();

    assert_eq!(
        parsed.message_type,
        SipMessageType::Response {
            code: 100,
            reason: "Trying".into()
        }
    );
    assert_eq!(parsed.method().as_deref(), Some("INVITE"));
}

#[test]
fn parse_invite_with_sdp_body() {
    let body = b"v=0\r\no=- 123 456 IN IP4 10.0.0.1\r\ns=-\r\n";
    let mut content = Vec::new();
    content.extend_from_slice(b"INVITE sip:user@host SIP/2.0\r\n");
    content.extend_from_slice(b"Call-ID: invite-body@host\r\n");
    content.extend_from_slice(b"CSeq: 1 INVITE\r\n");
    content.extend_from_slice(b"Content-Type: application/sdp\r\n");
    content.extend_from_slice(format!("Content-Length: {}\r\n", body.len()).as_bytes());
    content.extend_from_slice(b"\r\n");
    content.extend_from_slice(body);

    let msg = make_sip_message(&content);
    let parsed = msg.parse().unwrap();

    assert_eq!(parsed.method().as_deref(), Some("INVITE"));
    assert_eq!(parsed.content_type().as_deref(), Some("application/sdp"));
    assert_eq!(parsed.content_length(), Some(body.len()));
    assert_eq!(parsed.body, body);
}

#[test]
fn parse_notify_with_json_body() {
    let body = br#"{"event":"AbandonedCall","id":"123"}"#;
    let mut content = Vec::new();
    content.extend_from_slice(b"NOTIFY sip:user@host SIP/2.0\r\n");
    content.extend_from_slice(b"Call-ID: notify-json@host\r\n");
    content.extend_from_slice(b"CSeq: 1 NOTIFY\r\n");
    content.extend_from_slice(b"Content-Type: application/json\r\n");
    content.extend_from_slice(format!("Content-Length: {}\r\n", body.len()).as_bytes());
    content.extend_from_slice(b"\r\n");
    content.extend_from_slice(body);

    let msg = make_sip_message(&content);
    let parsed = msg.parse().unwrap();

    assert_eq!(parsed.method().as_deref(), Some("NOTIFY"));
    assert_eq!(parsed.content_type().as_deref(), Some("application/json"));
    assert_eq!(parsed.body, body);
}

#[test]
fn compact_headers() {
    let content = b"NOTIFY sip:user@host SIP/2.0\r\n\
        i: compact-call-id\r\n\
        l: 0\r\n\
        c: text/plain\r\n\
        \r\n";
    let msg = make_sip_message(content);
    let parsed = msg.parse().unwrap();

    assert_eq!(parsed.call_id().as_deref(), Some("compact-call-id"));
    assert_eq!(parsed.content_length(), Some(0));
    assert_eq!(parsed.content_type().as_deref(), Some("text/plain"));
}

#[test]
fn header_folding() {
    let content = b"OPTIONS sip:host SIP/2.0\r\n\
        Via: SIP/2.0/UDP 10.0.0.1:5060\r\n\
        Subject: this is a long\r\n \
        folded header value\r\n\
        Call-ID: fold-test\r\n\
        Content-Length: 0\r\n\
        \r\n";
    let msg = make_sip_message(content);
    let parsed = msg.parse().unwrap();

    let subject = parsed
        .headers
        .iter()
        .find(|(k, _)| k == "Subject")
        .map(|(_, v)| v.as_str());
    assert!(
        subject.unwrap().contains("folded header value"),
        "folded header should be reconstructed: {:?}",
        subject
    );
    assert_eq!(parsed.call_id().as_deref(), Some("fold-test"));
}

#[test]
fn no_body() {
    let content = b"OPTIONS sip:host SIP/2.0\r\n\
        Call-ID: nobody\r\n\
        Content-Length: 0\r\n\
        \r\n";
    let msg = make_sip_message(content);
    let parsed = msg.parse().unwrap();
    assert!(parsed.body.is_empty());
}

#[test]
fn no_blank_line_no_body() {
    // Malformed: no blank-line separator.
    let content = b"OPTIONS sip:host SIP/2.0\r\n\
        Call-ID: no-blank\r\n\
        Content-Length: 0";
    let msg = make_sip_message(content);
    let parsed = msg.parse().unwrap();
    assert!(parsed.body.is_empty());
    assert_eq!(parsed.call_id().as_deref(), Some("no-blank"));
}

#[test]
fn preserves_metadata() {
    let content = b"REGISTER sip:host SIP/2.0\r\n\
        Call-ID: meta-test\r\n\
        \r\n";
    let msg = SipMessage {
        direction: Direction::Sent,
        transport: Transport::Tls,
        address: "[2001:db8::1]:5061".into(),
        timestamp: Timestamp::DateTime {
            year: 2026,
            month: 2,
            day: 12,
            hour: 10,
            min: 30,
            sec: 0,
            usec: 123456,
        },
        content: content.to_vec(),
        frame_count: 3,
    };
    let parsed = msg.parse().unwrap();

    assert_eq!(parsed.direction, Direction::Sent);
    assert_eq!(parsed.transport, Transport::Tls);
    assert_eq!(parsed.address, "[2001:db8::1]:5061");
    assert_eq!(parsed.frame_count, 3);
    assert_eq!(
        parsed.timestamp,
        Timestamp::DateTime {
            year: 2026,
            month: 2,
            day: 12,
            hour: 10,
            min: 30,
            sec: 0,
            usec: 123456,
        }
    );
}

#[test]
fn multiple_same_name_headers() {
    let content = b"INVITE sip:host SIP/2.0\r\n\
        Via: SIP/2.0/UDP proxy1:5060\r\n\
        Via: SIP/2.0/UDP proxy2:5060\r\n\
        Record-Route: <sip:proxy1>\r\n\
        Record-Route: <sip:proxy2>\r\n\
        Call-ID: multi-hdr\r\n\
        Content-Length: 0\r\n\
        \r\n";
    let msg = make_sip_message(content);
    let parsed = msg.parse().unwrap();

    let via_count = parsed.headers.iter().filter(|(k, _)| k == "Via").count();
    assert_eq!(via_count, 2);

    let rr_count = parsed
        .headers
        .iter()
        .filter(|(k, _)| k == "Record-Route")
        .count();
    assert_eq!(rr_count, 2);
}

#[test]
fn header_ordering_preserved() {
    let content = b"OPTIONS sip:host SIP/2.0\r\n\
        Via: v1\r\n\
        From: f1\r\n\
        To: t1\r\n\
        Call-ID: order-test\r\n\
        CSeq: 1 OPTIONS\r\n\
        \r\n";
    let msg = make_sip_message(content);
    let parsed = msg.parse().unwrap();

    let names: Vec<&str> = parsed.headers.iter().map(|(k, _)| k.as_str()).collect();
    assert_eq!(names, vec!["Via", "From", "To", "Call-ID", "CSeq"]);
}

#[test]
fn status_line_with_long_reason() {
    let content = b"SIP/2.0 486 Busy Here\r\n\
        Call-ID: busy\r\n\
        \r\n";
    let msg = make_sip_message(content);
    let parsed = msg.parse().unwrap();

    assert_eq!(
        parsed.message_type,
        SipMessageType::Response {
            code: 486,
            reason: "Busy Here".into()
        }
    );
}

#[test]
fn request_with_complex_uri() {
    let content = b"INVITE sip:+15551234567@gateway.example.com;transport=tcp SIP/2.0\r\n\
        Call-ID: complex-uri\r\n\
        \r\n";
    let msg = make_sip_message(content);
    let parsed = msg.parse().unwrap();

    assert_eq!(
        parsed.message_type,
        SipMessageType::Request {
            method: "INVITE".into(),
            uri: "sip:+15551234567@gateway.example.com;transport=tcp".into()
        }
    );
}

#[test]
fn binary_body() {
    let body: Vec<u8> = (0..256).map(|i| i as u8).collect();
    let mut content = Vec::new();
    content.extend_from_slice(b"MESSAGE sip:host SIP/2.0\r\n");
    content.extend_from_slice(b"Call-ID: binary-body\r\n");
    content.extend_from_slice(b"Content-Type: application/octet-stream\r\n");
    content.extend_from_slice(format!("Content-Length: {}\r\n", body.len()).as_bytes());
    content.extend_from_slice(b"\r\n");
    content.extend_from_slice(&body);

    let msg = make_sip_message(&content);
    let parsed = msg.parse().unwrap();

    assert_eq!(parsed.body, body);
}

#[test]
fn error_no_crlf() {
    let content = b"garbage without any crlf";
    let msg = make_sip_message(content);
    let result = msg.parse();
    assert!(result.is_err());
}

#[test]
fn error_no_space_in_request_line() {
    let content = b"INVALID\r\n\r\n";
    let msg = make_sip_message(content);
    let result = msg.parse();
    assert!(result.is_err());
}

#[test]
fn header_value_with_colon() {
    let content = b"INVITE sip:host SIP/2.0\r\n\
        Contact: <sip:user@10.0.0.1:5060;transport=tcp>\r\n\
        Call-ID: colon-val\r\n\
        \r\n";
    let msg = make_sip_message(content);
    let parsed = msg.parse().unwrap();

    let contact = parsed
        .headers
        .iter()
        .find(|(k, _)| k == "Contact")
        .map(|(_, v)| v.as_str());
    assert_eq!(contact, Some("<sip:user@10.0.0.1:5060;transport=tcp>"));
}

#[test]
fn whitespace_around_header_value() {
    let content = b"OPTIONS sip:host SIP/2.0\r\n\
        Call-ID:   spaces-around   \r\n\
        \r\n";
    let msg = make_sip_message(content);
    let parsed = msg.parse().unwrap();

    // Leading whitespace trimmed, trailing kept.
    assert_eq!(parsed.call_id().as_deref(), Some("spaces-around   "));
}

#[test]
fn parsed_message_iterator() {
    let content = b"OPTIONS sip:host SIP/2.0\r\nCall-ID: iter-test\r\nContent-Length: 0\r\n\r\n";
    let header = format!(
        "recv {} bytes from udp/10.0.0.1:5060 at 00:00:00.000000:\n",
        content.len()
    );
    let mut data = header.into_bytes();
    data.extend_from_slice(content);
    data.extend_from_slice(b"\x0B\n");

    let mut it = ParsedMessageIterator::new(data);
    let mut parsed: Vec<ParsedSipMessage> = Vec::new();
    while let Some(item) = it.next() {
        parsed.push(item.unwrap());
    }

    assert_eq!(parsed.len(), 1);
    assert_eq!(parsed[0].call_id().as_deref(), Some("iter-test"));
    assert_eq!(parsed[0].method().as_deref(), Some("OPTIONS"));
}

// --- Multipart tests ---

fn make_multipart_invite(boundary: &str, parts: &[(&str, &[u8])]) -> SipMessage {
    let mut body = Vec::new();
    for (ct, content) in parts {
        body.extend_from_slice(format!("--{boundary}\r\n").as_bytes());
        body.extend_from_slice(format!("Content-Type: {ct}\r\n").as_bytes());
        body.extend_from_slice(b"\r\n");
        body.extend_from_slice(content);
        body.extend_from_slice(b"\r\n");
    }
    body.extend_from_slice(format!("--{boundary}--").as_bytes());

    let mut content = Vec::new();
    content.extend_from_slice(b"INVITE sip:urn:service:sos@esrp.example.com SIP/2.0\r\n");
    content.extend_from_slice(b"Call-ID: multipart-test@host\r\n");
    content.extend_from_slice(b"CSeq: 1 INVITE\r\n");
    content.extend_from_slice(
        format!("Content-Type: multipart/mixed;boundary={boundary}\r\n").as_bytes(),
    );
    content.extend_from_slice(format!("Content-Length: {}\r\n", body.len()).as_bytes());
    content.extend_from_slice(b"\r\n");
    content.extend_from_slice(&body);

    make_sip_message(&content)
}

#[test]
fn multipart_sdp_and_pidf() {
    let sdp = b"v=0\r\no=- 123 456 IN IP4 10.0.0.1\r\ns=-\r\n";
    let pidf = b"<?xml version=\"1.0\"?>\r\n<presence xmlns=\"urn:ietf:params:xml:ns:pidf\"/>";
    let msg = make_multipart_invite(
        "unique-boundary-1",
        &[("application/sdp", sdp), ("application/pidf+xml", pidf)],
    );
    let parsed = msg.parse().unwrap();

    assert!(parsed.is_multipart());
    assert_eq!(parsed.multipart_boundary().as_deref(), Some("unique-boundary-1"));

    let parts = parsed.body_parts().unwrap();
    assert_eq!(parts.len(), 2);

    assert_eq!(parts[0].content_type().as_deref(), Some("application/sdp"));
    assert_eq!(parts[0].body, sdp);

    assert_eq!(parts[1].content_type().as_deref(), Some("application/pidf+xml"));
    assert_eq!(parts[1].body, pidf);
}

#[test]
fn multipart_sdp_and_eido() {
    let sdp = b"v=0\r\no=- 1 1 IN IP4 10.0.0.1\r\ns=-\r\n\
        c=IN IP4 10.0.0.1\r\nt=0 0\r\nm=audio 8000 RTP/AVP 0\r\n";
    let eido = b"<?xml version=\"1.0\" encoding=\"UTF-8\"?>\r\n\
        <eido:EmergencyCallData xmlns:eido=\"urn:nena:xml:ns:EmergencyCallData\">\r\n\
        <eido:IncidentId>INC-2026-001</eido:IncidentId>\r\n\
        </eido:EmergencyCallData>";
    let msg = make_multipart_invite(
        "ng911-boundary",
        &[
            ("application/sdp", sdp),
            ("application/emergencyCallData.eido+xml", eido),
        ],
    );
    let parsed = msg.parse().unwrap();
    let parts = parsed.body_parts().unwrap();
    assert_eq!(parts.len(), 2);

    let sdp_part = parts
        .iter()
        .find(|p| p.content_type().as_deref() == Some("application/sdp"));
    assert!(sdp_part.is_some());
    assert_eq!(sdp_part.unwrap().body, sdp);

    let eido_part = parts
        .iter()
        .find(|p| p.content_type().is_some_and(|ct| ct.contains("eido")));
    assert!(eido_part.is_some());
    assert_eq!(eido_part.unwrap().body, eido);
}

#[test]
fn multipart_three_parts_sdp_pidf_eido() {
    let sdp = b"v=0\r\ns=-\r\n";
    let pidf = b"<presence/>";
    let eido = b"<EmergencyCallData/>";
    let msg = make_multipart_invite(
        "tri-part",
        &[
            ("application/sdp", sdp),
            ("application/pidf+xml", pidf),
            ("application/emergencyCallData.eido+xml", eido),
        ],
    );
    let parsed = msg.parse().unwrap();
    let parts = parsed.body_parts().unwrap();
    assert_eq!(parts.len(), 3);
    assert_eq!(parts[0].content_type().as_deref(), Some("application/sdp"));
    assert_eq!(parts[1].content_type().as_deref(), Some("application/pidf+xml"));
    assert_eq!(
        parts[2].content_type().as_deref(),
        Some("application/emergencyCallData.eido+xml")
    );
}

#[test]
fn multipart_quoted_boundary() {
    let sdp = b"v=0\r\n";
    let pidf = b"<presence/>";

    let mut body = Vec::new();
    body.extend_from_slice(b"--quoted-boundary\r\n");
    body.extend_from_slice(b"Content-Type: application/sdp\r\n\r\n");
    body.extend_from_slice(sdp);
    body.extend_from_slice(b"\r\n--quoted-boundary\r\n");
    body.extend_from_slice(b"Content-Type: application/pidf+xml\r\n\r\n");
    body.extend_from_slice(pidf);
    body.extend_from_slice(b"\r\n--quoted-boundary--");

    let mut content = Vec::new();
    content.extend_from_slice(b"INVITE sip:host SIP/2.0\r\n");
    content.extend_from_slice(b"Call-ID: quoted-bnd@host\r\n");
    content.extend_from_slice(b"Content-Type: multipart/mixed; boundary=\"quoted-boundary\"\r\n");
    content.extend_from_slice(format!("Content-Length: {}\r\n", body.len()).as_bytes());
    content.extend_from_slice(b"\r\n");
    content.extend_from_slice(&body);

    let msg = make_sip_message(&content);
    let parsed = msg.parse().unwrap();

    assert_eq!(parsed.multipart_boundary().as_deref(), Some("quoted-boundary"));
    let parts = parsed.body_parts().unwrap();
    assert_eq!(parts.len(), 2);
    assert_eq!(parts[0].body, sdp);
    assert_eq!(parts[1].body, pidf);
}

#[test]
fn multipart_with_preamble() {
    let sdp = b"v=0\r\n";

    let mut body = Vec::new();
    body.extend_from_slice(b"This is the preamble. It should be ignored.\r\n");
    body.extend_from_slice(b"--boundary-pre\r\n");
    body.extend_from_slice(b"Content-Type: application/sdp\r\n\r\n");
    body.extend_from_slice(sdp);
    body.extend_from_slice(b"\r\n--boundary-pre--");

    let mut content = Vec::new();
    content.extend_from_slice(b"INVITE sip:host SIP/2.0\r\n");
    content.extend_from_slice(b"Call-ID: preamble@host\r\n");
    content.extend_from_slice(b"Content-Type: multipart/mixed;boundary=boundary-pre\r\n");
    content.extend_from_slice(format!("Content-Length: {}\r\n", body.len()).as_bytes());
    content.extend_from_slice(b"\r\n");
    content.extend_from_slice(&body);

    let msg = make_sip_message(&content);
    let parsed = msg.parse().unwrap();
    let parts = parsed.body_parts().unwrap();
    assert_eq!(parts.len(), 1);
    assert_eq!(parts[0].body, sdp);
}

#[test]
fn multipart_part_with_multiple_headers() {
    let eido = b"<EmergencyCallData/>";

    let mut body = Vec::new();
    body.extend_from_slice(b"--hdr-boundary\r\n");
    body.extend_from_slice(b"Content-Type: application/emergencyCallData.eido+xml\r\n");
    body.extend_from_slice(b"Content-ID: <eido@example.com>\r\n");
    body.extend_from_slice(b"Content-Disposition: by-reference\r\n");
    body.extend_from_slice(b"\r\n");
    body.extend_from_slice(eido);
    body.extend_from_slice(b"\r\n--hdr-boundary--");

    let mut content = Vec::new();
    content.extend_from_slice(b"INVITE sip:host SIP/2.0\r\n");
    content.extend_from_slice(b"Call-ID: multi-hdr-part@host\r\n");
    content.extend_from_slice(b"Content-Type: multipart/mixed;boundary=hdr-boundary\r\n");
    content.extend_from_slice(format!("Content-Length: {}\r\n", body.len()).as_bytes());
    content.extend_from_slice(b"\r\n");
    content.extend_from_slice(&body);

    let msg = make_sip_message(&content);
    let parsed = msg.parse().unwrap();
    let parts = parsed.body_parts().unwrap();
    assert_eq!(parts.len(), 1);
    assert_eq!(
        parts[0].content_type().as_deref(),
        Some("application/emergencyCallData.eido+xml")
    );
    assert_eq!(parts[0].content_id().as_deref(), Some("<eido@example.com>"));
    assert_eq!(parts[0].content_disposition().as_deref(), Some("by-reference"));
    assert_eq!(parts[0].body, eido);
}

#[test]
fn not_multipart_returns_none() {
    let content = b"INVITE sip:host SIP/2.0\r\n\
        Call-ID: not-multi@host\r\n\
        Content-Type: application/sdp\r\n\
        Content-Length: 4\r\n\
        \r\n\
        v=0\n";
    let msg = make_sip_message(content);
    let parsed = msg.parse().unwrap();

    assert!(!parsed.is_multipart());
    assert!(parsed.multipart_boundary().is_none());
    assert!(parsed.body_parts().is_none());
}

#[test]
fn multipart_empty_body() {
    let mut content = Vec::new();
    content.extend_from_slice(b"INVITE sip:host SIP/2.0\r\n");
    content.extend_from_slice(b"Call-ID: empty-multi@host\r\n");
    content.extend_from_slice(b"Content-Type: multipart/mixed;boundary=empty\r\n");
    content.extend_from_slice(b"Content-Length: 9\r\n");
    content.extend_from_slice(b"\r\n");
    content.extend_from_slice(b"--empty--");

    let msg = make_sip_message(&content);
    let parsed = msg.parse().unwrap();
    let parts = parsed.body_parts().unwrap();
    assert!(parts.is_empty());
}

#[test]
fn extract_boundary_unquoted() {
    assert_eq!(
        extract_boundary("multipart/mixed;boundary=foo-bar").as_deref(),
        Some("foo-bar")
    );
}

#[test]
fn extract_boundary_quoted() {
    assert_eq!(
        extract_boundary("multipart/mixed; boundary=\"foo-bar\"").as_deref(),
        Some("foo-bar")
    );
}

#[test]
fn extract_boundary_with_extra_params() {
    assert_eq!(
        extract_boundary("multipart/mixed; boundary=foo;charset=utf-8").as_deref(),
        Some("foo")
    );
}

#[test]
fn extract_boundary_case_insensitive() {
    assert_eq!(extract_boundary("multipart/mixed;BOUNDARY=abc").as_deref(), Some("abc"));
}

#[test]
fn extract_boundary_missing() {
    assert_eq!(extract_boundary("multipart/mixed"), None);
}

#[test]
fn multipart_part_no_headers() {
    let raw_body = b"just raw content";

    let mut body = Vec::new();
    body.extend_from_slice(b"--no-hdr\r\n");
    body.extend_from_slice(raw_body);
    body.extend_from_slice(b"\r\n--no-hdr--");

    let mut content = Vec::new();
    content.extend_from_slice(b"MESSAGE sip:host SIP/2.0\r\n");
    content.extend_from_slice(b"Call-ID: no-hdr-part@host\r\n");
    content.extend_from_slice(b"Content-Type: multipart/mixed;boundary=no-hdr\r\n");
    content.extend_from_slice(format!("Content-Length: {}\r\n", body.len()).as_bytes());
    content.extend_from_slice(b"\r\n");
    content.extend_from_slice(&body);

    let msg = make_sip_message(&content);
    let parsed = msg.parse().unwrap();
    let parts = parsed.body_parts().unwrap();
    assert_eq!(parts.len(), 1);
    assert!(parts[0].content_type().is_none());
    assert!(parts[0].headers.is_empty());
    assert_eq!(parts[0].body, raw_body);
}
