use freeswitch_sofia_trace_parser::message::extract_complete;
use freeswitch_sofia_trace_parser::message::find_content_length;
use freeswitch_sofia_trace_parser::message::find_sip_start;
use freeswitch_sofia_trace_parser::message::is_sip_start;
use freeswitch_sofia_trace_parser::message::ConnectionBuffer;
use freeswitch_sofia_trace_parser::Direction;
use freeswitch_sofia_trace_parser::MessageIterator;
use freeswitch_sofia_trace_parser::ParseError;
use freeswitch_sofia_trace_parser::SipMessage;
use freeswitch_sofia_trace_parser::Timestamp;
use freeswitch_sofia_trace_parser::Transport;

fn make_frame(direction: Direction, transport: Transport, addr: &str, content: &[u8]) -> Vec<u8> {
    let dir_str = match direction {
        Direction::Recv => "recv",
        Direction::Sent => "sent",
    };
    let prep = match direction {
        Direction::Recv => "from",
        Direction::Sent => "to",
    };
    let transport_str = match transport {
        Transport::Tcp => "tcp",
        Transport::Udp => "udp",
        Transport::Tls => "tls",
        Transport::Wss => "wss",
    };
    let header = format!(
        "{dir_str} {} bytes {prep} {transport_str}/{addr} at 00:00:00.000000:\n",
        content.len()
    );
    let mut data = header.into_bytes();
    data.extend_from_slice(content);
    data.extend_from_slice(b"\x0B\n");
    data
}

fn collect_messages(data: &[u8]) -> Vec<SipMessage> {
    let mut it = MessageIterator::new(data.to_vec());
    let mut out = Vec::new();
    while let Some(item) = it.next() {
        match item {
            Ok(m) => out.push(m),
            Err(e) => panic!("unexpected error: {:?}", e),
        }
    }
    out
}

fn make_buffer(content: Vec<u8>) -> ConnectionBuffer {
    ConnectionBuffer {
        direction: Direction::Recv,
        address: "[::1]:5060".to_string(),
        transport: Transport::Tcp,
        timestamp: Timestamp::TimeOnly {
            hour: 0,
            min: 0,
            sec: 0,
            usec: 0,
        },
        content,
        frame_count: 1,
    }
}

#[test]
fn single_udp_message() {
    let content = b"OPTIONS sip:user@host SIP/2.0\r\nContent-Length: 0\r\n\r\n";
    let data = make_frame(Direction::Recv, Transport::Udp, "1.1.1.1:5060", content);
    let msgs = collect_messages(&data[..]);
    assert_eq!(msgs.len(), 1);
    assert_eq!(msgs[0].content, content);
    assert_eq!(msgs[0].frame_count, 1);
    assert_eq!(msgs[0].transport, Transport::Udp);
}

#[test]
fn tcp_reassembly_two_frames() {
    let part1 = b"NOTIFY sip:user@host SIP/2.0\r\n";
    let part2 = b"Content-Length: 0\r\n\r\n";
    let mut data = make_frame(Direction::Recv, Transport::Tcp, "[::1]:5060", part1);
    data.extend_from_slice(&make_frame(Direction::Recv, Transport::Tcp, "[::1]:5060", part2));
    let msgs = collect_messages(&data[..]);
    assert_eq!(msgs.len(), 1);
    assert_eq!(msgs[0].frame_count, 2);
    let mut expected = Vec::new();
    expected.extend_from_slice(part1);
    expected.extend_from_slice(part2);
    assert_eq!(msgs[0].content, expected);
}

#[test]
fn tcp_reassembly_across_interleaved_frames() {
    // A partial request, an interrupting response on the same peer in the
    // other direction, then the rest of the request.
    let part1 = b"INVITE sip:user@host SIP/2.0\r\n";
    let part2 = b"Content-Length: 3\r\n\r\nSDP";
    let response = b"SIP/2.0 100 Trying\r\nContent-Length: 0\r\n\r\n";

    let mut data = make_frame(Direction::Recv, Transport::Tcp, "10.0.0.1:5060", part1);
    data.extend_from_slice(&make_frame(
        Direction::Sent,
        Transport::Tcp,
        "10.0.0.1:5060",
        response,
    ));
    data.extend_from_slice(&make_frame(
        Direction::Recv,
        Transport::Tcp,
        "10.0.0.1:5060",
        part2,
    ));

    let msgs = collect_messages(&data[..]);
    assert_eq!(msgs.len(), 2);

    let trying = &msgs[0];
    assert_eq!(trying.direction, Direction::Sent);
    assert_eq!(trying.content, response);

    let invite = &msgs[1];
    assert_eq!(invite.direction, Direction::Recv);
    let mut expected_invite = Vec::new();
    expected_invite.extend_from_slice(part1);
    expected_invite.extend_from_slice(part2);
    assert_eq!(invite.content, expected_invite);
}

#[test]
fn direction_change_splits_messages() {
    let recv_content = b"OPTIONS sip:user@host SIP/2.0\r\nContent-Length: 0\r\n\r\n";
    let sent_content = b"SIP/2.0 200 OK\r\nContent-Length: 0\r\n\r\n";
    let mut data = make_frame(Direction::Recv, Transport::Tcp, "[::1]:5060", recv_content);
    data.extend_from_slice(&make_frame(
        Direction::Sent,
        Transport::Tcp,
        "[::1]:5060",
        sent_content,
    ));
    let msgs = collect_messages(&data[..]);
    assert_eq!(msgs.len(), 2);
    assert_eq!(msgs[0].direction, Direction::Recv);
    assert_eq!(msgs[1].direction, Direction::Sent);
}

#[test]
fn address_change_splits_messages() {
    let content = b"OPTIONS sip:user@host SIP/2.0\r\nContent-Length: 0\r\n\r\n";
    let mut data = make_frame(Direction::Recv, Transport::Tcp, "[::1]:5060", content);
    data.extend_from_slice(&make_frame(Direction::Recv, Transport::Tcp, "[::2]:5060", content));
    let msgs = collect_messages(&data[..]);
    assert_eq!(msgs.len(), 2);
    assert_eq!(msgs[0].address, "[::1]:5060");
    assert_eq!(msgs[1].address, "[::2]:5060");
}

#[test]
fn udp_no_reassembly() {
    let content1 = b"OPTIONS sip:a SIP/2.0\r\nContent-Length: 0\r\n\r\n";
    let content2 = b"OPTIONS sip:b SIP/2.0\r\nContent-Length: 0\r\n\r\n";
    let mut data = make_frame(Direction::Recv, Transport::Udp, "1.1.1.1:5060", content1);
    data.extend_from_slice(&make_frame(
        Direction::Recv,
        Transport::Udp,
        "1.1.1.1:5060",
        content2,
    ));
    let msgs = collect_messages(&data[..]);
    assert_eq!(msgs.len(), 2, "UDP frames should not be reassembled");
    assert_eq!(msgs[0].frame_count, 1);
    assert_eq!(msgs[1].frame_count, 1);
}

#[test]
fn aggregated_messages_split_by_content_length() {
    let msg1 = b"NOTIFY sip:a SIP/2.0\r\nContent-Length: 5\r\n\r\nhello";
    let msg2 = b"SIP/2.0 200 OK\r\nContent-Length: 0\r\n\r\n";
    let mut combined = Vec::new();
    combined.extend_from_slice(msg1);
    combined.extend_from_slice(msg2);
    let data = make_frame(Direction::Recv, Transport::Tcp, "[::1]:5060", &combined);
    let msgs = collect_messages(&data[..]);
    assert_eq!(msgs.len(), 2);
    assert_eq!(msgs[0].content, msg1);
    assert_eq!(msgs[1].content, msg2);
}

#[test]
fn find_content_length_standard() {
    let data = b"NOTIFY sip:a SIP/2.0\r\nContent-Length: 42\r\n\r\n";
    assert_eq!(find_content_length(data), Some(42));
}

#[test]
fn find_content_length_compact() {
    let data = b"NOTIFY sip:a SIP/2.0\r\nl: 42\r\n\r\n";
    assert_eq!(find_content_length(data), Some(42));
}

#[test]
fn find_content_length_missing() {
    let data = b"NOTIFY sip:a SIP/2.0\r\nCSeq: 1 NOTIFY\r\n\r\n";
    assert_eq!(find_content_length(data), None);
}

#[test]
fn is_sip_start_request() {
    assert!(is_sip_start(b"INVITE sip:user@host SIP/2.0\r\n"));
    assert!(is_sip_start(b"OPTIONS sip:user@host SIP/2.0\r\n"));
    assert!(is_sip_start(b"NOTIFY sip:user@host SIP/2.0\r\n"));
    assert!(is_sip_start(b"ACK sip:user@host SIP/2.0\r\n"));
}

#[test]
fn is_sip_start_response() {
    assert!(is_sip_start(b"SIP/2.0 200 OK\r\n"));
    assert!(is_sip_start(b"SIP/2.0 100 Trying\r\n"));
}

#[test]
fn is_sip_start_not_sip() {
    assert!(!is_sip_start(b"some random data"));
    assert!(!is_sip_start(b"HTTP/1.1 200 OK\r\n"));
}

#[test]
fn find_sip_start_at_beginning() {
    let data = b"INVITE sip:user@host SIP/2.0\r\nContent-Length: 0\r\n\r\n";
    assert_eq!(find_sip_start(data), Some(0));
}

#[test]
fn find_sip_start_after_prefix() {
    let data = b"</xml>\r\nNOTIFY sip:user@host SIP/2.0\r\n";
    assert_eq!(find_sip_start(data), Some(8));
}

#[test]
fn find_sip_start_none() {
    let data = b"no SIP here at all";
    assert_eq!(find_sip_start(data), None);
}

#[test]
fn message_preserves_metadata() {
    let content = b"OPTIONS sip:user@host SIP/2.0\r\nContent-Length: 0\r\n\r\n";
    let data = make_frame(Direction::Sent, Transport::Tls, "[2001:db8::1]:5061", content);
    let msgs = collect_messages(&data[..]);
    assert_eq!(msgs.len(), 1);
    assert_eq!(msgs[0].direction, Direction::Sent);
    assert_eq!(msgs[0].transport, Transport::Tls);
    assert_eq!(msgs[0].address, "[2001:db8::1]:5061");
    assert_eq!(
        msgs[0].timestamp,
        Timestamp::TimeOnly {
            hour: 0,
            min: 0,
            sec: 0,
            usec: 0
        }
    );
}

#[test]
fn extract_handles_crlf_between_messages() {
    let msg1 = b"NOTIFY sip:a SIP/2.0\r\nContent-Length: 5\r\n\r\nhello";
    let msg2 = b"SIP/2.0 200 OK\r\nContent-Length: 0\r\n\r\n";
    let mut content = Vec::new();
    content.extend_from_slice(msg1);
    content.extend_from_slice(b"\r\n");
    content.extend_from_slice(msg2);

    let mut buf = make_buffer(content);
    let msgs = extract_complete(&mut buf);
    assert_eq!(msgs.len(), 2);
    assert_eq!(msgs[0].content, msg1);
    assert_eq!(msgs[1].content, msg2);
}

#[test]
fn extract_skips_non_sip_prefix() {
    let prefix = b"</conference-info>\r\n";
    let msg = b"NOTIFY sip:a SIP/2.0\r\nContent-Length: 0\r\n\r\n";
    let mut content = Vec::new();
    content.extend_from_slice(prefix);
    content.extend_from_slice(msg);

    let mut buf = make_buffer(content);
    let msgs = extract_complete(&mut buf);
    assert_eq!(msgs.len(), 1);
    assert_eq!(msgs[0].content, msg);
}

#[test]
fn extract_waits_for_incomplete_body() {
    let content = b"INVITE sip:a SIP/2.0\r\nContent-Length: 100\r\n\r\npartial".to_vec();

    let mut buf = make_buffer(content);
    let msgs = extract_complete(&mut buf);
    assert!(msgs.is_empty(), "should wait for body to complete");
    assert!(!buf.content.is_empty(), "buffer should retain data");
}

#[test]
fn extract_waits_for_incomplete_headers() {
    let content = b"INVITE sip:a SIP/2.0\r\nContent-Length: 0\r\n".to_vec();

    let mut buf = make_buffer(content);
    let msgs = extract_complete(&mut buf);
    assert!(msgs.is_empty(), "should wait for headers to complete");
}
