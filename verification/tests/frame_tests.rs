use freeswitch_sofia_trace_parser::frame::parse_frame_header;
use freeswitch_sofia_trace_parser::frame::is_frame_header;
use freeswitch_sofia_trace_parser::Direction;
use freeswitch_sofia_trace_parser::Frame;
use freeswitch_sofia_trace_parser::FrameIterator;
use freeswitch_sofia_trace_parser::GrepFilter;
use freeswitch_sofia_trace_parser::ParseError;
use freeswitch_sofia_trace_parser::Timestamp;
use freeswitch_sofia_trace_parser::Transport;

fn collect_items(data: &[u8]) -> Vec<Result<Frame, ParseError>> {
    let mut it = FrameIterator::new(data.to_vec());
    let mut out = Vec::new();
    while let Some(item) = it.next() {
        out.push(item);
    }
    out
}

fn collect_frames(data: &[u8]) -> Vec<Frame> {
    collect_items(data)
        .into_iter()
        .map(|r| r.unwrap_or_else(|e| panic!("unexpected error: {:?}", e)))
        .collect()
}

fn collect_ok_frames(data: &[u8]) -> Vec<Frame> {
    collect_items(data).into_iter().filter_map(Result::ok).collect()
}

#[test]
fn parse_recv_ipv4_tcp() {
    let header = b"recv 100 bytes from tcp/192.168.1.1:5060 at 00:00:01.350874:\n";
    let (dir, count, transport, addr, ts, len) = parse_frame_header(header).unwrap();
    assert_eq!(dir, Direction::Recv);
    assert_eq!(count, 100);
    assert_eq!(transport, Transport::Tcp);
    assert_eq!(addr, "192.168.1.1:5060");
    assert_eq!(
        ts,
        Timestamp::TimeOnly {
            hour: 0,
            min: 0,
            sec: 1,
            usec: 350874
        }
    );
    assert_eq!(len, header.len());
}

#[test]
fn parse_recv_ipv6_tcp() {
    let header = b"recv 1440 bytes from tcp/[2001:4958:10:14::4]:30046 at 13:03:21.674883:\n";
    let (dir, count, transport, addr, ts, _) = parse_frame_header(header).unwrap();
    assert_eq!(dir, Direction::Recv);
    assert_eq!(count, 1440);
    assert_eq!(transport, Transport::Tcp);
    assert_eq!(addr, "[2001:4958:10:14::4]:30046");
    assert_eq!(
        ts,
        Timestamp::TimeOnly {
            hour: 13,
            min: 3,
            sec: 21,
            usec: 674883
        }
    );
}

#[test]
fn parse_sent_ipv6_tcp() {
    let header = b"sent 681 bytes to tcp/[2001:4958:10:14::4]:30046 at 13:03:21.675500:\n";
    let (dir, count, transport, addr, _, _) = parse_frame_header(header).unwrap();
    assert_eq!(dir, Direction::Sent);
    assert_eq!(count, 681);
    assert_eq!(transport, Transport::Tcp);
    assert_eq!(addr, "[2001:4958:10:14::4]:30046");
}

#[test]
fn parse_recv_udp() {
    let header = b"recv 457 bytes from udp/10.0.0.1:5060 at 00:19:47.123456:\n";
    let (dir, _, transport, _, _, _) = parse_frame_header(header).unwrap();
    assert_eq!(dir, Direction::Recv);
    assert_eq!(transport, Transport::Udp);
}

#[test]
fn parse_sent_tls() {
    let header = b"sent 500 bytes to tls/10.0.0.1:5061 at 12:00:00.000000:\n";
    let (dir, count, transport, _, _, _) = parse_frame_header(header).unwrap();
    assert_eq!(dir, Direction::Sent);
    assert_eq!(count, 500);
    assert_eq!(transport, Transport::Tls);
}

#[test]
fn parse_full_datetime_timestamp() {
    let header = b"recv 100 bytes from tcp/192.168.1.1:5060 at 2026-02-01 10:00:00.000000:\n";
    let (_, _, _, _, ts, _) = parse_frame_header(header).unwrap();
    assert_eq!(
        ts,
        Timestamp::DateTime {
            year: 2026,
            month: 2,
            day: 1,
            hour: 10,
            min: 0,
            sec: 0,
            usec: 0
        }
    );
}

#[test]
fn parse_invalid_header() {
    assert!(parse_frame_header(b"invalid header\n").is_err());
    assert!(
        parse_frame_header(b"recv abc bytes from tcp/1.1.1.1:5060 at 00:00:00.000000:\n").is_err()
    );
}

#[test]
fn is_frame_header_valid() {
    assert!(is_frame_header(
        b"recv 100 bytes from tcp/1.1.1.1:5060 at 00:00:00.000000:\n"
    ));
    assert!(is_frame_header(
        b"sent 681 bytes to tcp/[::1]:5060 at 00:00:00.000000:\n"
    ));
    assert!(!is_frame_header(b"not a header"));
    assert!(!is_frame_header(b"recv abc bytes"));
    assert!(!is_frame_header(b""));
}

#[test]
fn frame_iterator_single_frame() {
    let data = b"recv 5 bytes from tcp/1.1.1.1:5060 at 00:00:00.000000:\nhello\x0B\n";
    let frames = collect_frames(&data[..]);
    assert_eq!(frames.len(), 1);
    assert_eq!(frames[0].content, b"hello");
    assert_eq!(frames[0].byte_count, 5);
}

#[test]
fn frame_iterator_multiple_frames() {
    let data = b"recv 5 bytes from tcp/1.1.1.1:5060 at 00:00:00.000000:\nhello\x0B\nsent 5 bytes to tcp/1.1.1.1:5060 at 00:00:00.000001:\nworld\x0B\n";
    let frames = collect_frames(&data[..]);
    assert_eq!(frames.len(), 2);
    assert_eq!(frames[0].content, b"hello");
    assert_eq!(frames[0].direction, Direction::Recv);
    assert_eq!(frames[1].content, b"world");
    assert_eq!(frames[1].direction, Direction::Sent);
}

#[test]
fn frame_iterator_vt_in_content() {
    // VT LF in content but not followed by a valid header must not split.
    let mut data = Vec::new();
    data.extend_from_slice(b"recv 15 bytes from tcp/1.1.1.1:5060 at 00:00:00.000000:\n");
    data.extend_from_slice(b"he\x0B\nllo world!!");
    data.extend_from_slice(b"\x0B\n");
    let frames = collect_frames(&data[..]);
    assert_eq!(frames.len(), 1);
    assert_eq!(frames[0].content, b"he\x0B\nllo world!!");
}

#[test]
fn frame_iterator_eof_without_boundary() {
    let data = b"recv 5 bytes from tcp/1.1.1.1:5060 at 00:00:00.000000:\nhello";
    let frames = collect_frames(&data[..]);
    assert_eq!(frames.len(), 1);
    assert_eq!(frames[0].content, b"hello");
}

#[test]
fn frame_iterator_eof_with_lone_vt() {
    let data = b"recv 5 bytes from tcp/1.1.1.1:5060 at 00:00:00.000000:\nhello\x0B";
    let frames = collect_frames(&data[..]);
    assert_eq!(frames.len(), 1);
    assert_eq!(frames[0].content, b"hello");
}

#[test]
fn frame_iterator_partial_first_frame() {
    // Data starts with garbage, then a valid boundary + frame.
    let mut data = Vec::new();
    data.extend_from_slice(b"partial garbage data");
    data.extend_from_slice(b"\x0B\n");
    data.extend_from_slice(b"recv 5 bytes from tcp/1.1.1.1:5060 at 00:00:00.000000:\nhello\x0B\n");
    let frames = collect_frames(&data[..]);
    assert_eq!(frames.len(), 1);
    assert_eq!(frames[0].content, b"hello");
}

#[test]
fn frame_iterator_truncated_last_frame() {
    // Complete frame followed by truncated frame at EOF (no VT LF).
    let mut data = Vec::new();
    data.extend_from_slice(b"recv 5 bytes from tcp/1.1.1.1:5060 at 00:00:00.000000:\nhello\x0B\n");
    data.extend_from_slice(b"sent 3 bytes to tcp/1.1.1.1:5060 at 00:00:01.000000:\nbye");
    let frames = collect_frames(&data[..]);
    assert_eq!(frames.len(), 2);
    assert_eq!(frames[0].content, b"hello");
    assert_eq!(frames[1].content, b"bye");
}

#[test]
fn frame_iterator_file_concatenation() {
    let mut data = Vec::new();
    data.extend_from_slice(b"recv 5 bytes from tcp/1.1.1.1:5060 at 00:00:00.000000:\nhello\x0B\n");
    data.extend_from_slice(b"sent 5 bytes to tcp/1.1.1.1:5060 at 00:00:00.000001:\nworld\x0B\n");
    data.extend_from_slice(b"some truncated SIP content from previous rotation\r\n\r\n");
    data.extend_from_slice(b"\x0B\n");
    data.extend_from_slice(b"recv 3 bytes from tcp/2.2.2.2:5060 at 01:00:00.000000:\nfoo\x0B\n");

    let frames = collect_ok_frames(&data[..]);
    assert_eq!(frames.len(), 3);
    assert_eq!(frames[0].content, b"hello");
    assert_eq!(frames[1].content, b"world");
    assert_eq!(frames[2].content, b"foo");
    assert_eq!(frames[2].address, "2.2.2.2:5060");
}

#[test]
fn frame_iterator_file_concatenation_mid_stream_garbage() {
    let mut data = Vec::new();
    data.extend_from_slice(b"recv 5 bytes from tcp/1.1.1.1:5060 at 00:00:00.000000:\nhello\x0B\n");
    data.extend_from_slice(b"Content-Type: application/sdp\r\n\r\nv=0\r\n");
    data.extend_from_slice(b"\x0B\n");
    data.extend_from_slice(b"sent 3 bytes to tcp/3.3.3.3:5060 at 02:00:00.000000:\nbar\x0B\n");

    let frames = collect_ok_frames(&data[..]);
    assert_eq!(frames.len(), 2);
    assert_eq!(frames[0].content, b"hello");
    assert_eq!(frames[1].content, b"bar");
}

#[test]
fn frame_iterator_grep_separator_between_frames() {
    let mut data = Vec::new();
    data.extend_from_slice(b"recv 5 bytes from tcp/1.1.1.1:5060 at 00:00:00.000000:\nhello\x0B\n");
    data.extend_from_slice(b"sent 5 bytes to tcp/1.1.1.1:5060 at 00:00:00.000001:\nworld\x0B\n");

    let filtered = GrepFilter::new(&data[..]).into_bytes();
    let frames = collect_frames(&filtered[..]);
    assert_eq!(frames.len(), 2);
    assert_eq!(frames[0].content, b"hello");
    assert_eq!(frames[1].content, b"world");
}

#[test]
fn frame_iterator_grep_partial_context() {
    let mut data = Vec::new();
    data.extend_from_slice(b"recv 5 bytes from tcp/1.1.1.1:5060 at 00:00:00.000000:\nhello\x0B\n");
    data.extend_from_slice(b"Accept: application/sdp\r\nContent-Length: 0\r\n\r\n");
    data.extend_from_slice(b"\x0B\n");
    data.extend_from_slice(b"sent 3 bytes to tcp/2.2.2.2:5060 at 00:00:01.000000:\nbye\x0B\n");

    let filtered = GrepFilter::new(&data[..]).into_bytes();
    let frames = collect_ok_frames(&filtered[..]);
    assert_eq!(frames.len(), 2);
    assert_eq!(frames[0].content, b"hello");
    assert_eq!(frames[1].content, b"bye");
}

#[test]
fn frame_iterator_grep_separator_strips_from_content() {
    let content = b"SIP/2.0 200 OK\r\nVia: a\r\nContent-Length: 0\r\n\r\n";
    let mut data = Vec::new();
    let header = format!(
        "recv {} bytes from tcp/1.1.1.1:5060 at 00:00:00.000000:\n",
        content.len()
    );
    data.extend_from_slice(header.as_bytes());
    data.extend_from_slice(b"SIP/2.0 200 OK\r\nVia: a\r\n--\nContent-Length: 0\r\n\r\n");
    data.extend_from_slice(b"\x0B\n");

    let filtered = GrepFilter::new(&data[..]).into_bytes();
    let frames = collect_frames(&filtered[..]);
    assert_eq!(frames.len(), 1);
    assert_eq!(frames[0].content, content);
}

#[test]
fn frame_iterator_empty_input() {
    let data: &[u8] = b"";
    let frames = collect_items(data);
    assert!(frames.is_empty());
}

#[test]
fn frame_iterator_only_garbage() {
    let data = b"this is not a SIP trace dump at all, just garbage text";
    let frames = collect_items(&data[..]);
    assert!(frames.is_empty());
}

#[test]
fn frame_iterator_dump_marker_at_eof() {
    let mut data = Vec::new();
    data.extend_from_slice(b"recv 5 bytes from tcp/1.1.1.1:5060 at 00:00:00.000000:\nhello\x0B\n");
    data.extend_from_slice(b"dump started at Thu Aug 22 11:38:11 2024\n\n\n");

    let frames = collect_items(&data[..]);
    assert_eq!(frames.len(), 1);
    assert!(frames[0].is_ok());
    assert_eq!(frames[0].as_ref().unwrap().content, b"hello");
}

#[test]
fn frame_iterator_dump_marker_mid_stream() {
    let mut data = Vec::new();
    data.extend_from_slice(b"recv 5 bytes from tcp/1.1.1.1:5060 at 00:00:00.000000:\nhello\x0B\n");
    data.extend_from_slice(b"dump started at Thu Aug 22 11:38:11 2024\n\n\n");
    data.extend_from_slice(b"sent 3 bytes to tcp/2.2.2.2:5060 at 00:00:01.000000:\nbye\x0B\n");

    let frames = collect_items(&data[..]);
    assert_eq!(frames.len(), 2);
    assert_eq!(frames[0].as_ref().unwrap().content, b"hello");
    assert_eq!(frames[1].as_ref().unwrap().content, b"bye");
}

#[test]
fn frame_iterator_extra_newline_after_boundary() {
    let mut data = Vec::new();
    data.extend_from_slice(b"recv 5 bytes from tcp/1.1.1.1:5060 at 00:00:00.000000:\nhello\x0B\n");
    data.push(b'\n');
    data.extend_from_slice(b"sent 5 bytes to tcp/1.1.1.1:5060 at 00:00:00.000001:\nworld\x0B\n");

    let frames = collect_frames(&data[..]);
    assert_eq!(frames.len(), 2);
    assert_eq!(frames[0].content, b"hello");
    assert_eq!(frames[1].content, b"world");
}

#[test]
fn frame_iterator_multiple_newlines_after_boundary() {
    let mut data = Vec::new();
    data.extend_from_slice(b"recv 5 bytes from tcp/1.1.1.1:5060 at 00:00:00.000000:\nhello\x0B\n");
    data.extend_from_slice(b"\n\r\n\n");
    data.extend_from_slice(b"sent 5 bytes to tcp/1.1.1.1:5060 at 00:00:00.000001:\nworld\x0B\n");

    let frames = collect_frames(&data[..]);
    assert_eq!(frames.len(), 2);
    assert_eq!(frames[0].content, b"hello");
    assert_eq!(frames[1].content, b"world");
}

#[test]
fn frame_iterator_trailing_newlines_at_eof() {
    let mut data = Vec::new();
    data.extend_from_slice(b"recv 5 bytes from tcp/1.1.1.1:5060 at 00:00:00.000000:\nhello\x0B\n");
    data.extend_from_slice(b"\n\n");

    let frames = collect_frames(&data[..]);
    assert_eq!(frames.len(), 1);
    assert_eq!(frames[0].content, b"hello");
}
