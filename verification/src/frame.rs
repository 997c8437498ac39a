//! The frame decoder: recovers per-socket-operation records from a dump
//! byte stream, tolerating truncation, concatenated rotated files, and
//! sentinel bytes that occur inside record contents.
//!
//! A record on the wire is a header line, a newline, the content bytes, and
//! a two-byte sentinel (VT LF). The sentinel alone is ambiguous — it can
//! occur inside a SIP body — so a boundary counts only where the bytes after
//! it look like another record header (or where the input ends).

use vstd::prelude::*;

use crate::ascii::dec_val;
use crate::ascii::is_digit;
use crate::ascii::is_digits;
use crate::ascii::lemma_dec_val_step;
use crate::ascii::pow10;
use crate::search::as_usize_opt;
use crate::search::find_byte_at;
use crate::search::find_byte_from;
use crate::search::find_sub_at;
use crate::search::find_sub_from;
use crate::search::lemma_find_byte_from;
use crate::search::lemma_find_sub_from;
use crate::search::match_at;
use crate::search::starts_with_at;
use crate::types::bytes_to_string;
use crate::types::lossy_utf8;
use crate::types::Direction;
use crate::types::Frame;
use crate::types::Timestamp;
use crate::types::Transport;

verus! {

broadcast use vstd::string::group_string_axioms;

/// A recoverable failure while decoding or parsing.
#[derive(Debug)]
pub enum ParseError {
    /// A record header line that does not follow the header grammar.
    InvalidHeader(String),
    /// A reassembled message whose start line is not SIP.
    InvalidMessage(String),
}

impl ParseError {
    /// A human-readable description of the error.
    pub fn message_text(&self) -> (r: String)
        ensures
            match self {
                ParseError::InvalidHeader(m) => r@ == "invalid frame header: "@ + m@,
                ParseError::InvalidMessage(m) => r@ == "invalid SIP message: "@ + m@,
            },
    {
        match self {
            ParseError::InvalidHeader(m) => {
                let mut out = String::from_str("invalid frame header: ");
                out.append(m.as_str());
                out
            },
            ParseError::InvalidMessage(m) => {
                let mut out = String::from_str("invalid SIP message: ");
                out.append(m.as_str());
                out
            },
        }
    }
}

/// What a capped decimal field parses to: `None` unless the bytes are one
/// to `cap` digits whose value fits `max`.
pub open spec fn spec_parse_dec(s: Seq<u8>, cap: nat, max: nat) -> Option<nat> {
    if 1 <= s.len() <= cap && is_digits(s) && dec_val(s) <= max {
        Some(dec_val(s))
    } else {
        None
    }
}

/// Shared digit-run reader: value of `bytes` if they are all digits,
/// with the running value tracked exactly.
fn read_digits(bytes: &[u8]) -> (r: Option<u64>)
    requires
        bytes@.len() <= 10,
    ensures
        match r {
            Some(v) => is_digits(bytes@) && v == dec_val(bytes@),
            None => !is_digits(bytes@),
        },
{
    let mut val: u64 = 0;
    let mut i: usize = 0;
    proof {
        assert(bytes@.take(0) =~= Seq::<u8>::empty());
    }
    while i < bytes.len()
        invariant
            i <= bytes@.len() <= 10,
            val == dec_val(bytes@.take(i as int)),
            is_digits(bytes@.take(i as int)),
            val < pow10(i as nat),
        decreases bytes@.len() - i,
    {
        let b = bytes[i];
        if b < 48 || b > 57 {
            assert(!is_digit(bytes@[i as int]));
            return None;
        }
        proof {
            lemma_dec_val_step(bytes@, i as int);
            assert(is_digits(bytes@.take(i as int + 1))) by {
                assert(forall|j: int|
                    0 <= j < i ==> #[trigger] bytes@.take(i as int + 1)[j] == bytes@.take(
                        i as int,
                    )[j]);
                assert(bytes@.take(i as int + 1)[i as int] == bytes@[i as int]);
            }
            assert(pow10((i + 1) as nat) == 10 * pow10(i as nat));
            lemma_pow10_mono(i as nat, 9);
            lemma_pow10_values();
            assert(val * 10 + 9 < 10000000000) by {
                assert(val < pow10(i as nat) <= pow10(9) == 1000000000);
            }
        }
        val = val * 10 + (b - 48) as u64;
        i = i + 1;
    }
    proof {
        assert(bytes@.take(i as int) =~= bytes@);
    }
    Some(val)
}

proof fn lemma_pow10_values()
    ensures
        pow10(9) == 1000000000,
        pow10(10) == 10000000000,
{
    assert(pow10(0) == 1);
    assert(pow10(1) == 10);
    assert(pow10(2) == 100);
    assert(pow10(3) == 1000);
    assert(pow10(4) == 10000);
    assert(pow10(5) == 100000);
    assert(pow10(6) == 1000000);
    assert(pow10(7) == 10000000);
    assert(pow10(8) == 100000000);
    assert(pow10(9) == 1000000000);
    assert(pow10(10) == 10000000000);
}

proof fn lemma_pow10_mono(a: nat, b: nat)
    requires
        a <= b,
    ensures
        pow10(a) <= pow10(b),
    decreases b,
{
    if a < b {
        lemma_pow10_mono(a, (b - 1) as nat);
        assert(pow10(b) == 10 * pow10((b - 1) as nat));
    }
}

/// Parses one to three digits as a `u8`.
pub fn parse_u8(bytes: &[u8]) -> (r: Option<u8>)
    ensures
        r == (match spec_parse_dec(bytes@, 3, u8::MAX as nat) {
            Some(v) => Some(v as u8),
            None => None::<u8>,
        }),
{
    if bytes.len() == 0 || bytes.len() > 3 {
        return None;
    }
    match read_digits(bytes) {
        Some(v) => {
            if v <= 255 {
                Some(v as u8)
            } else {
                None
            }
        },
        None => None,
    }
}

/// Parses one to five digits as a `u16`.
pub fn parse_u16(bytes: &[u8]) -> (r: Option<u16>)
    ensures
        r == (match spec_parse_dec(bytes@, 5, u16::MAX as nat) {
            Some(v) => Some(v as u16),
            None => None::<u16>,
        }),
{
    if bytes.len() == 0 || bytes.len() > 5 {
        return None;
    }
    match read_digits(bytes) {
        Some(v) => {
            if v <= 65535 {
                Some(v as u16)
            } else {
                None
            }
        },
        None => None,
    }
}

/// Parses one to ten digits as a `u32`.
pub fn parse_u32(bytes: &[u8]) -> (r: Option<u32>)
    ensures
        r == (match spec_parse_dec(bytes@, 10, u32::MAX as nat) {
            Some(v) => Some(v as u32),
            None => None::<u32>,
        }),
{
    if bytes.len() == 0 || bytes.len() > 10 {
        return None;
    }
    match read_digits(bytes) {
        Some(v) => {
            if v <= 0xffff_ffff {
                Some(v as u32)
            } else {
                None
            }
        },
        None => None,
    }
}

/// Parses one to ten digits as a `usize`.
pub fn parse_usize(bytes: &[u8]) -> (r: Option<usize>)
    ensures
        r == (match spec_parse_dec(bytes@, 10, usize::MAX as nat) {
            Some(v) => Some(v as usize),
            None => None::<usize>,
        }),
{
    if bytes.len() == 0 || bytes.len() > 10 {
        return None;
    }
    match read_digits(bytes) {
        Some(v) => {
            if v <= usize::MAX as u64 {
                Some(v as usize)
            } else {
                None
            }
        },
        None => None,
    }
}

/// What `HH:MM:SS.uuuuuu` parses to at the start of `s`.
pub open spec fn spec_time_part(s: Seq<u8>) -> Option<(u8, u8, u8, u32)> {
    if s.len() < 15 {
        None
    } else if s[2] != 58 || s[5] != 58 || s[8] != 46 {
        None
    } else {
        match (
            spec_parse_dec(s.subrange(0, 2), 3, u8::MAX as nat),
            spec_parse_dec(s.subrange(3, 5), 3, u8::MAX as nat),
            spec_parse_dec(s.subrange(6, 8), 3, u8::MAX as nat),
            spec_parse_dec(s.subrange(9, 15), 10, u32::MAX as nat),
        ) {
            (Some(h), Some(m), Some(sec), Some(us)) => Some(
                (h as u8, m as u8, sec as u8, us as u32),
            ),
            _ => None,
        }
    }
}

/// Parses `HH:MM:SS.uuuuuu` at the start of `bytes`.
pub fn parse_time_part(bytes: &[u8]) -> (r: Option<(u8, u8, u8, u32)>)
    ensures
        r == spec_time_part(bytes@),
{
    if bytes.len() < 15 {
        return None;
    }
    if bytes[2] != 58 || bytes[5] != 58 || bytes[8] != 46 {
        return None;
    }
    let hour = match parse_u8(&bytes[0..2]) {
        Some(v) => v,
        None => {
            return None;
        },
    };
    let min = match parse_u8(&bytes[3..5]) {
        Some(v) => v,
        None => {
            return None;
        },
    };
    let sec = match parse_u8(&bytes[6..8]) {
        Some(v) => v,
        None => {
            return None;
        },
    };
    let usec = match parse_u32(&bytes[9..15]) {
        Some(v) => v,
        None => {
            return None;
        },
    };
    Some((hour, min, sec, usec))
}

/// What a timestamp field parses to: `YYYY-MM-DD HH:MM:SS.uuuuuu` when the
/// date punctuation is in place, else `HH:MM:SS.uuuuuu` alone.
pub open spec fn spec_timestamp(s: Seq<u8>) -> Option<Timestamp> {
    if s.len() >= 26 && s[4] == 45 && s[7] == 45 && s[10] == 32 {
        match (
            spec_parse_dec(s.subrange(0, 4), 5, u16::MAX as nat),
            spec_parse_dec(s.subrange(5, 7), 3, u8::MAX as nat),
            spec_parse_dec(s.subrange(8, 10), 3, u8::MAX as nat),
            spec_time_part(s.skip(11)),
        ) {
            (Some(year), Some(month), Some(day), Some(t)) => Some(
                Timestamp::DateTime {
                    year: year as u16,
                    month: month as u8,
                    day: day as u8,
                    hour: t.0,
                    min: t.1,
                    sec: t.2,
                    usec: t.3,
                },
            ),
            _ => None,
        }
    } else {
        match spec_time_part(s) {
            Some(t) => Some(Timestamp::TimeOnly { hour: t.0, min: t.1, sec: t.2, usec: t.3 }),
            None => None,
        }
    }
}

/// Parses a timestamp: either time of day alone or a full date and time.
pub fn parse_timestamp(bytes: &[u8]) -> (r: Option<Timestamp>)
    ensures
        r == spec_timestamp(bytes@),
{
    if bytes.len() >= 26 && bytes[4] == 45 && bytes[7] == 45 && bytes[10] == 32 {
        let year = match parse_u16(&bytes[0..4]) {
            Some(v) => v,
            None => {
                return None;
            },
        };
        let month = match parse_u8(&bytes[5..7]) {
            Some(v) => v,
            None => {
                return None;
            },
        };
        let day = match parse_u8(&bytes[8..10]) {
            Some(v) => v,
            None => {
                return None;
            },
        };
        let rest: &[u8] = &bytes[11..bytes.len()];
        assert(rest@ =~= bytes@.skip(11));
        let t = match parse_time_part(rest) {
            Some(v) => v,
            None => {
                return None;
            },
        };
        Some(
            Timestamp::DateTime {
                year,
                month,
                day,
                hour: t.0,
                min: t.1,
                sec: t.2,
                usec: t.3,
            },
        )
    } else {
        match parse_time_part(bytes) {
            Some(t) => Some(Timestamp::TimeOnly { hour: t.0, min: t.1, sec: t.2, usec: t.3 }),
            None => None,
        }
    }
}

/// The bytes `recv `.
pub open spec fn tok_recv() -> Seq<u8> {
    seq!['r' as u8, 'e' as u8, 'c' as u8, 'v' as u8, ' ' as u8]
}

/// The bytes `sent `.
pub open spec fn tok_sent() -> Seq<u8> {
    seq!['s' as u8, 'e' as u8, 'n' as u8, 't' as u8, ' ' as u8]
}

/// The bytes `bytes from `.
pub open spec fn tok_bytes_from() -> Seq<u8> {
    seq![
        'b' as u8,
        'y' as u8,
        't' as u8,
        'e' as u8,
        's' as u8,
        ' ' as u8,
        'f' as u8,
        'r' as u8,
        'o' as u8,
        'm' as u8,
        ' ' as u8,
    ]
}

/// The bytes `bytes to `.
pub open spec fn tok_bytes_to() -> Seq<u8> {
    seq![
        'b' as u8,
        'y' as u8,
        't' as u8,
        'e' as u8,
        's' as u8,
        ' ' as u8,
        't' as u8,
        'o' as u8,
        ' ' as u8,
    ]
}

/// The bytes ` bytes `.
pub open spec fn tok_sp_bytes_sp() -> Seq<u8> {
    seq![' ' as u8, 'b' as u8, 'y' as u8, 't' as u8, 'e' as u8, 's' as u8, ' ' as u8]
}

/// The bytes ` at `.
pub open spec fn tok_at() -> Seq<u8> {
    seq![' ' as u8, 'a' as u8, 't' as u8, ' ' as u8]
}

/// The record sentinel: VT LF.
pub open spec fn tok_vtlf() -> Seq<u8> {
    seq![11u8, 10u8]
}

/// The bytes `dump started at `.
pub open spec fn tok_dump_started() -> Seq<u8> {
    seq![
        'd' as u8,
        'u' as u8,
        'm' as u8,
        'p' as u8,
        ' ' as u8,
        's' as u8,
        't' as u8,
        'a' as u8,
        'r' as u8,
        't' as u8,
        'e' as u8,
        'd' as u8,
        ' ' as u8,
        'a' as u8,
        't' as u8,
        ' ' as u8,
    ]
}

fn tok_recv_vec() -> (v: Vec<u8>)
    ensures
        v@ == tok_recv(),
{
    let v: Vec<u8> = vec!['r' as u8, 'e' as u8, 'c' as u8, 'v' as u8, ' ' as u8];
    assert(v@ =~= tok_recv());
    v
}

fn tok_sent_vec() -> (v: Vec<u8>)
    ensures
        v@ == tok_sent(),
{
    let v: Vec<u8> = vec!['s' as u8, 'e' as u8, 'n' as u8, 't' as u8, ' ' as u8];
    assert(v@ =~= tok_sent());
    v
}

fn tok_bytes_from_vec() -> (v: Vec<u8>)
    ensures
        v@ == tok_bytes_from(),
{
    let v: Vec<u8> = vec![
        'b' as u8,
        'y' as u8,
        't' as u8,
        'e' as u8,
        's' as u8,
        ' ' as u8,
        'f' as u8,
        'r' as u8,
        'o' as u8,
        'm' as u8,
        ' ' as u8,
    ];
    assert(v@ =~= tok_bytes_from());
    v
}

fn tok_bytes_to_vec() -> (v: Vec<u8>)
    ensures
        v@ == tok_bytes_to(),
{
    let v: Vec<u8> = vec![
        'b' as u8,
        'y' as u8,
        't' as u8,
        'e' as u8,
        's' as u8,
        ' ' as u8,
        't' as u8,
        'o' as u8,
        ' ' as u8,
    ];
    assert(v@ =~= tok_bytes_to());
    v
}

fn tok_sp_bytes_sp_vec() -> (v: Vec<u8>)
    ensures
        v@ == tok_sp_bytes_sp(),
{
    let v: Vec<u8> = vec![
        ' ' as u8,
        'b' as u8,
        'y' as u8,
        't' as u8,
        'e' as u8,
        's' as u8,
        ' ' as u8,
    ];
    assert(v@ =~= tok_sp_bytes_sp());
    v
}

fn tok_at_vec() -> (v: Vec<u8>)
    ensures
        v@ == tok_at(),
{
    let v: Vec<u8> = vec![' ' as u8, 'a' as u8, 't' as u8, ' ' as u8];
    assert(v@ =~= tok_at());
    v
}

fn tok_vtlf_vec() -> (v: Vec<u8>)
    ensures
        v@ == tok_vtlf(),
{
    let v: Vec<u8> = vec![11u8, 10u8];
    assert(v@ =~= tok_vtlf());
    v
}

fn tok_dump_started_vec() -> (v: Vec<u8>)
    ensures
        v@ == tok_dump_started(),
{
    let v: Vec<u8> = vec![
        'd' as u8,
        'u' as u8,
        'm' as u8,
        'p' as u8,
        ' ' as u8,
        's' as u8,
        't' as u8,
        'a' as u8,
        'r' as u8,
        't' as u8,
        'e' as u8,
        'd' as u8,
        ' ' as u8,
        'a' as u8,
        't' as u8,
        ' ' as u8,
    ];
    assert(v@ =~= tok_dump_started());
    v
}

/// A conservatively valid record-header prefix: `recv ` or `sent `, one to
/// ten digits, then ` bytes `. This is what disambiguates an in-content
/// sentinel from a real record boundary.
#[verifier::opaque]
pub open spec fn spec_is_header_prefix(s: Seq<u8>) -> bool {
    &&& s.len() >= 20
    &&& (match_at(s, tok_recv(), 0) || match_at(s, tok_sent(), 0))
    &&& (match find_byte_from(s, 32, 5) {
        None => false,
        Some(sp) => 6 <= sp <= 15 && is_digits(s.subrange(5, sp)) && match_at(
            s,
            tok_sp_bytes_sp(),
            sp,
        ),
    })
}

/// Decides whether `data` starts with a valid record-header prefix.
pub fn is_frame_header(data: &[u8]) -> (r: bool)
    ensures
        r == spec_is_header_prefix(data@),
{
    proof {
        reveal(spec_is_header_prefix);
    }
    if data.len() < 20 {
        return false;
    }
    let recv_tok = tok_recv_vec();
    let sent_tok = tok_sent_vec();
    let starts_valid = starts_with_at(data, recv_tok.as_slice(), 0) || starts_with_at(
        data,
        sent_tok.as_slice(),
        0,
    );
    if !starts_valid {
        return false;
    }
    proof {
        lemma_find_byte_from(data@, 32, 5);
    }
    match find_byte_at(data, 32, 5) {
        None => false,
        Some(sp) => {
            if sp < 6 || sp > 15 {
                return false;
            }
            let digits: &[u8] = &data[5..sp];
            assert(digits@ =~= data@.subrange(5, sp as int));
            match read_digits(digits) {
                Some(_) => {
                    let bytes_tok = tok_sp_bytes_sp_vec();
                    starts_with_at(data, bytes_tok.as_slice(), sp)
                },
                None => false,
            }
        },
    }
}

/// The fields read from one record-header line.
pub ghost struct SpecHeader {
    pub direction: Direction,
    pub byte_count: nat,
    pub transport: Transport,
    pub addr: Seq<u8>,
    pub timestamp: Timestamp,
    pub header_len: int,
}

/// Outcome of parsing a record header at the start of the buffer: the line
/// may be incomplete (no newline yet), malformed, or parsed.
pub ghost enum HeaderParse {
    NoLine,
    Bad,
    Parsed(SpecHeader),
}

/// What the header grammar makes of the start of `s`:
/// `(recv|sent) <digits> bytes (from|to) <transport>/<address> at <timestamp>:`
/// with an optional CR, terminated by LF.
#[verifier::opaque]
pub open spec fn spec_header_parse(s: Seq<u8>) -> HeaderParse {
    match find_byte_from(s, 10, 0) {
        None => HeaderParse::NoLine,
        Some(nl) => {
            let line0 = s.take(nl);
            let line1 = if line0.len() > 0 && line0.last() == 13 {
                line0.drop_last()
            } else {
                line0
            };
            if !(line1.len() > 0 && line1.last() == 58) {
                HeaderParse::Bad
            } else {
                let line = line1.drop_last();
                spec_header_parse_line(line, nl + 1)
            }
        },
    }
}

/// The header line proper (terminator and trailing colon removed).
pub open spec fn spec_header_parse_line(line: Seq<u8>, header_len: int) -> HeaderParse {
    if !(match_at(line, tok_recv(), 0) || match_at(line, tok_sent(), 0)) {
        HeaderParse::Bad
    } else {
        let direction = if match_at(line, tok_recv(), 0) {
            Direction::Recv
        } else {
            Direction::Sent
        };
        match find_byte_from(line, 32, 5) {
            None => HeaderParse::Bad,
            Some(sp) => match spec_parse_dec(line.subrange(5, sp), 10, usize::MAX as nat) {
                None => HeaderParse::Bad,
                Some(byte_count) => {
                    let p2 = sp + 1;
                    let tok = if direction == Direction::Recv {
                        tok_bytes_from()
                    } else {
                        tok_bytes_to()
                    };
                    if !match_at(line, tok, p2) {
                        HeaderParse::Bad
                    } else {
                        let p3 = p2 + tok.len();
                        spec_header_parse_transport(line, direction, byte_count, p3, header_len)
                    }
                },
            },
        }
    }
}

/// The bytes `tcp/` with the transport it names, and so for the others.
pub open spec fn spec_transport_tok(t: Transport) -> Seq<u8> {
    match t {
        Transport::Tcp => seq!['t' as u8, 'c' as u8, 'p' as u8, '/' as u8],
        Transport::Udp => seq!['u' as u8, 'd' as u8, 'p' as u8, '/' as u8],
        Transport::Tls => seq!['t' as u8, 'l' as u8, 's' as u8, '/' as u8],
        Transport::Wss => seq!['w' as u8, 's' as u8, 's' as u8, '/' as u8],
    }
}

/// From the transport token onward: `<transport>/<address> at <timestamp>`.
pub open spec fn spec_header_parse_transport(
    line: Seq<u8>,
    direction: Direction,
    byte_count: nat,
    p3: int,
    header_len: int,
) -> HeaderParse {
    let tr_opt = if match_at(line, spec_transport_tok(Transport::Tcp), p3) {
        Some(Transport::Tcp)
    } else if match_at(line, spec_transport_tok(Transport::Udp), p3) {
        Some(Transport::Udp)
    } else if match_at(line, spec_transport_tok(Transport::Tls), p3) {
        Some(Transport::Tls)
    } else if match_at(line, spec_transport_tok(Transport::Wss), p3) {
        Some(Transport::Wss)
    } else {
        None
    };
    match tr_opt {
        None => HeaderParse::Bad,
        Some(transport) => {
            let p4 = p3 + 4;
            match find_sub_from(line, tok_at(), p4) {
                None => HeaderParse::Bad,
                Some(atp) => {
                    let addr = line.subrange(p4, atp);
                    match spec_timestamp(line.skip(atp + 4)) {
                        None => HeaderParse::Bad,
                        Some(timestamp) => HeaderParse::Parsed(
                            SpecHeader {
                                direction,
                                byte_count,
                                transport,
                                addr,
                                timestamp,
                                header_len,
                            },
                        ),
                    }
                },
            }
        },
    }
}

/// Parses one record-header line at the start of `data`.
///
/// On success the returned tuple carries the direction, the declared byte
/// count, the transport, the peer address, the timestamp, and the header's
/// length including its terminating newline. The error message is
/// `no newline in header` exactly when the buffer holds no complete line.
#[verifier::rlimit(100)]
pub fn parse_frame_header(data: &[u8]) -> (r: Result<
    (Direction, usize, Transport, String, Timestamp, usize),
    ParseError,
>)
    ensures
        match spec_header_parse(data@) {
            HeaderParse::Parsed(h) => r matches Ok(t) && t.0 == h.direction && t.1 as nat
                == h.byte_count && t.2 == h.transport && t.3@ == lossy_utf8(h.addr) && t.4
                == h.timestamp && t.5 as int == h.header_len && (
            vstd::utf8::valid_utf8(h.addr) ==> t.3@ == vstd::utf8::decode_utf8(h.addr)) && ((
            t.3@.len() == 0) == (h.addr.len() == 0)),
            HeaderParse::NoLine => r matches Err(e) && e matches ParseError::InvalidHeader(m)
                && m@ == "no newline in header"@,
            HeaderParse::Bad => r matches Err(e) && e matches ParseError::InvalidHeader(m) && m@
                != "no newline in header"@,
        },
{
    let n = data.len();
    proof {
        reveal(spec_header_parse);
        assert(data@.len() == n as int);
        lemma_find_byte_from(data@, 10, 0);
    }
    let nl = match find_byte_at(data, 10, 0) {
        None => {
            return Err(ParseError::InvalidHeader(String::from_str("no newline in header")));
        },
        Some(p) => p,
    };
    let ghost line0 = data@.take(nl as int);
    proof {
        assert(line0.len() == nl as int);
        if nl > 0 {
            assert(line0.last() == data@[nl as int - 1]);
        }
    }
    let mut line_end: usize = nl;
    if line_end > 0 && data[line_end - 1] == 13 {
        line_end = line_end - 1;
    }
    let ghost line1 = if line0.len() > 0 && line0.last() == 13 {
        line0.drop_last()
    } else {
        line0
    };
    assert(line1 =~= data@.take(line_end as int));
    proof {
        assert(line1.len() == line_end as int);
        if line_end > 0 {
            assert(line1.last() == data@[line_end as int - 1]);
        }
    }
    if !(line_end > 0 && data[line_end - 1] == 58) {
        proof {
            reveal_strlit("no newline in header");
            reveal_strlit("header does not end with ':'");
            assert(find_byte_from(data@, 10, 0) == Some(nl as int));
            assert(!(line1.len() > 0 && line1.last() == 58));
            assert(spec_header_parse(data@) matches HeaderParse::Bad);
            assert("no newline in header"@.len() == 20);
            assert("header does not end with ':'"@.len() == 28);
            assert("header does not end with ':'"@ != "no newline in header"@);
        }
        return Err(
            ParseError::InvalidHeader(String::from_str("header does not end with ':'")),
        );
    }
    line_end = line_end - 1;
    let line: &[u8] = &data[0..line_end];
    assert(line@ =~= line1.drop_last());
    let ghost hl = nl + 1;
    let recv_tok = tok_recv_vec();
    let sent_tok = tok_sent_vec();
    let direction: Direction = if starts_with_at(line, recv_tok.as_slice(), 0) {
        Direction::Recv
    } else if starts_with_at(line, sent_tok.as_slice(), 0) {
        Direction::Sent
    } else {
        proof {
            reveal_strlit("no newline in header");
            reveal_strlit("expected 'recv' or 'sent'");
            assert(spec_header_parse(data@) matches HeaderParse::Bad);
            assert("expected 'recv' or 'sent'"@.len() == 25);
            assert("no newline in header"@.len() == 20);
            assert("expected 'recv' or 'sent'"@ != "no newline in header"@);
        }
        return Err(ParseError::InvalidHeader(String::from_str("expected 'recv' or 'sent'")));
    };
    proof {
        lemma_find_byte_from(line@, 32, 5);
    }
    let sp = match find_byte_at(line, 32, 5) {
        None => {
            proof {
                reveal_strlit("no newline in header");
                reveal_strlit("no space after byte count");
                assert(spec_header_parse(data@) matches HeaderParse::Bad);
                assert("no space after byte count"@.len() == 25);
                assert("no newline in header"@.len() == 20);
                assert("no space after byte count"@ != "no newline in header"@);
            }
            return Err(
                ParseError::InvalidHeader(String::from_str("no space after byte count")),
            );
        },
        Some(p) => p,
    };
    let count_bytes: &[u8] = &line[5..sp];
    assert(count_bytes@ =~= line@.subrange(5, sp as int));
    let byte_count = match parse_usize(count_bytes) {
        None => {
            proof {
                reveal_strlit("no newline in header");
                reveal_strlit("invalid byte count");
                assert(spec_header_parse(data@) matches HeaderParse::Bad);
                assert("invalid byte count"@.len() == 18);
                assert("no newline in header"@.len() == 20);
                assert("invalid byte count"@ != "no newline in header"@);
            }
            return Err(ParseError::InvalidHeader(String::from_str("invalid byte count")));
        },
        Some(v) => v,
    };
    let p2 = sp + 1;
    let p3: usize;
    if matches!(direction, Direction::Recv) {
        let tok = tok_bytes_from_vec();
        if !starts_with_at(line, tok.as_slice(), p2) {
            proof {
                reveal_strlit("no newline in header");
                reveal_strlit("expected 'bytes from '");
                assert(spec_header_parse(data@) matches HeaderParse::Bad);
                assert("expected 'bytes from '"@.len() == 22);
                assert("no newline in header"@.len() == 20);
                assert("expected 'bytes from '"@ != "no newline in header"@);
            }
            return Err(ParseError::InvalidHeader(String::from_str("expected 'bytes from '")));
        }
        p3 = p2 + 11;
    } else {
        let tok = tok_bytes_to_vec();
        if !starts_with_at(line, tok.as_slice(), p2) {
            proof {
                reveal_strlit("no newline in header");
                reveal_strlit("expected 'bytes to '");
                assert(spec_header_parse(data@) matches HeaderParse::Bad);
                assert("expected 'bytes to '"@.len() == 20);
                assert("no newline in header"@.len() == 20);
                assert("expected 'bytes to '"@[0] == 'e');
                assert("no newline in header"@[0] == 'n');
                assert("expected 'bytes to '"@ != "no newline in header"@);
            }
            return Err(ParseError::InvalidHeader(String::from_str("expected 'bytes to '")));
        }
        p3 = p2 + 9;
    }
    let tcp_tok = transport_tok_vec(Transport::Tcp);
    let udp_tok = transport_tok_vec(Transport::Udp);
    let tls_tok = transport_tok_vec(Transport::Tls);
    let wss_tok = transport_tok_vec(Transport::Wss);
    let transport: Transport = if starts_with_at(line, tcp_tok.as_slice(), p3) {
        Transport::Tcp
    } else if starts_with_at(line, udp_tok.as_slice(), p3) {
        Transport::Udp
    } else if starts_with_at(line, tls_tok.as_slice(), p3) {
        Transport::Tls
    } else if starts_with_at(line, wss_tok.as_slice(), p3) {
        Transport::Wss
    } else {
        proof {
            reveal_strlit("no newline in header");
            reveal_strlit("unknown transport");
            assert(spec_header_parse(data@) matches HeaderParse::Bad);
            assert("unknown transport"@.len() == 17);
            assert("no newline in header"@.len() == 20);
            assert("unknown transport"@ != "no newline in header"@);
        }
        return Err(ParseError::InvalidHeader(String::from_str("unknown transport")));
    };
    let p4 = p3 + 4;
    let at_tok = tok_at_vec();
    proof {
        lemma_find_sub_from(line@, tok_at(), p4 as int);
    }
    let atp = match find_sub_at(line, at_tok.as_slice(), p4) {
        None => {
            proof {
                reveal_strlit("no newline in header");
                reveal_strlit("no ' at ' in header");
                assert(spec_header_parse(data@) matches HeaderParse::Bad);
                assert("no ' at ' in header"@.len() == 19);
                assert("no newline in header"@.len() == 20);
                assert("no ' at ' in header"@ != "no newline in header"@);
            }
            return Err(ParseError::InvalidHeader(String::from_str("no ' at ' in header")));
        },
        Some(p) => p,
    };
    let addr_bytes: &[u8] = &line[p4..atp];
    assert(addr_bytes@ =~= line@.subrange(p4 as int, atp as int));
    let address = bytes_to_string(addr_bytes);
    let ts_bytes: &[u8] = &line[atp + 4..line.len()];
    assert(ts_bytes@ =~= line@.skip(atp as int + 4));
    let timestamp = match parse_timestamp(ts_bytes) {
        None => {
            proof {
                reveal_strlit("no newline in header");
                reveal_strlit("invalid timestamp");
                assert(spec_header_parse(data@) matches HeaderParse::Bad);
                assert("invalid timestamp"@.len() == 17);
                assert("no newline in header"@.len() == 20);
                assert("invalid timestamp"@ != "no newline in header"@);
            }
            return Err(ParseError::InvalidHeader(String::from_str("invalid timestamp")));
        },
        Some(t) => t,
    };
    Ok((direction, byte_count, transport, address, timestamp, nl + 1))
}

fn transport_tok_vec(t: Transport) -> (v: Vec<u8>)
    ensures
        v@ == spec_transport_tok(t),
{
    let v: Vec<u8> = match t {
        Transport::Tcp => vec!['t' as u8, 'c' as u8, 'p' as u8, '/' as u8],
        Transport::Udp => vec!['u' as u8, 'd' as u8, 'p' as u8, '/' as u8],
        Transport::Tls => vec!['t' as u8, 'l' as u8, 's' as u8, '/' as u8],
        Transport::Wss => vec!['w' as u8, 's' as u8, 's' as u8, '/' as u8],
    };
    assert(v@ =~= spec_transport_tok(t));
    v
}

/// First index at or after `from` where a record boundary stands: a VT LF
/// pair followed by a valid header prefix, or a VT LF pair that ends the
/// input.
pub open spec fn spec_find_boundary(s: Seq<u8>, from: int) -> Option<int>
    decreases s.len() - from when from >= 0 via spec_find_boundary_dec
{
    match find_sub_from(s, tok_vtlf(), from) {
        None => None,
        Some(i) => {
            if i + 2 >= s.len() {
                Some(i)
            } else if spec_is_header_prefix(s.skip(i + 2)) {
                Some(i)
            } else {
                spec_find_boundary(s, i + 2)
            }
        },
    }
}

#[via_fn]
proof fn spec_find_boundary_dec(s: Seq<u8>, from: int) {
    if from >= 0 {
        lemma_find_sub_from(s, tok_vtlf(), from);
    }
}

pub proof fn lemma_find_boundary_bounds(s: Seq<u8>, from: int)
    requires
        from >= 0,
    ensures
        match spec_find_boundary(s, from) {
            Some(b) => from <= b && b + 2 <= s.len() && s[b] == 11 && s[b + 1] == 10,
            None => true,
        },
    decreases s.len() - from,
{
    lemma_find_sub_from(s, tok_vtlf(), from);
    match find_sub_from(s, tok_vtlf(), from) {
        None => {},
        Some(i) => {
            assert(s.subrange(i, i + 2)[0] == s[i]);
            assert(s.subrange(i, i + 2)[1] == s[i + 1]);
            if i + 2 >= s.len() || spec_is_header_prefix(s.skip(i + 2)) {
            } else {
                lemma_find_boundary_bounds(s, i + 2);
            }
        },
    }
}

/// Offset of the first decodable record header: at the very start, or just
/// past a sentinel pair that a valid header prefix follows.
pub open spec fn spec_first_header(s: Seq<u8>) -> Option<int> {
    if spec_is_header_prefix(s) {
        Some(0)
    } else {
        spec_scan_first(s, 0)
    }
}

pub open spec fn spec_scan_first(s: Seq<u8>, from: int) -> Option<int>
    decreases s.len() - from when from >= 0 via spec_scan_first_dec
{
    match find_sub_from(s, tok_vtlf(), from) {
        None => None,
        Some(i) => {
            if i + 2 < s.len() && spec_is_header_prefix(s.skip(i + 2)) {
                Some(i + 2)
            } else {
                spec_scan_first(s, i + 2)
            }
        },
    }
}

#[via_fn]
proof fn spec_scan_first_dec(s: Seq<u8>, from: int) {
    if from >= 0 {
        lemma_find_sub_from(s, tok_vtlf(), from);
    }
}

pub proof fn lemma_scan_first_bounds(s: Seq<u8>, from: int)
    requires
        from >= 0,
    ensures
        match spec_scan_first(s, from) {
            Some(off) => from <= off < s.len(),
            None => true,
        },
    decreases s.len() - from,
{
    lemma_find_sub_from(s, tok_vtlf(), from);
    match find_sub_from(s, tok_vtlf(), from) {
        None => {},
        Some(i) => {
            if i + 2 < s.len() && spec_is_header_prefix(s.skip(i + 2)) {
            } else {
                lemma_scan_first_bounds(s, i + 2);
            }
        },
    }
}

/// End of the run of inter-record padding (LF, or CR LF) starting at `i`.
pub open spec fn spec_skip_padding(s: Seq<u8>, i: int) -> int
    decreases s.len() - i when 0 <= i <= s.len()
{
    if i < s.len() && s[i] == 10 {
        spec_skip_padding(s, i + 1)
    } else if i + 1 < s.len() && s[i] == 13 && s[i + 1] == 10 {
        spec_skip_padding(s, i + 2)
    } else {
        i
    }
}

pub proof fn lemma_skip_padding_bounds(s: Seq<u8>, i: int)
    requires
        0 <= i <= s.len(),
    ensures
        i <= spec_skip_padding(s, i) <= s.len(),
    decreases s.len() - i,
{
    if i < s.len() && s[i] == 10 {
        lemma_skip_padding_bounds(s, i + 1);
    } else if i + 1 < s.len() && s[i] == 13 && s[i + 1] == 10 {
        lemma_skip_padding_bounds(s, i + 2);
    }
}

/// End of the run of LF bytes starting at `i`.
pub open spec fn spec_skip_lf(s: Seq<u8>, i: int) -> int
    decreases s.len() - i when 0 <= i <= s.len()
{
    if i < s.len() && s[i] == 10 {
        spec_skip_lf(s, i + 1)
    } else {
        i
    }
}

pub proof fn lemma_skip_lf_bounds(s: Seq<u8>, i: int)
    requires
        0 <= i <= s.len(),
    ensures
        i <= spec_skip_lf(s, i) <= s.len(),
    decreases s.len() - i,
{
    if i < s.len() && s[i] == 10 {
        lemma_skip_lf_bounds(s, i + 1);
    }
}

/// Bytes consumed when a dump-restart marker line is discarded: through the
/// line's newline and any LF bytes that follow it, or the whole buffer when
/// the line never ends.
pub open spec fn spec_marker_skip(t: Seq<u8>) -> int {
    match find_byte_from(t, 10, 0) {
        Some(p) => spec_skip_lf(t, p + 1),
        None => t.len() as int,
    }
}

pub proof fn lemma_marker_skip_bounds(t: Seq<u8>)
    requires
        t.len() > 0,
    ensures
        1 <= spec_marker_skip(t) <= t.len(),
{
    lemma_find_byte_from(t, 10, 0);
    match find_byte_from(t, 10, 0) {
        Some(p) => {
            lemma_skip_lf_bounds(t, p + 1);
        },
        None => {},
    }
}

/// Bytes consumed when an unrecognised header is reported: through the next
/// valid boundary, else through the next newline, else the whole buffer.
pub open spec fn spec_error_skip(t: Seq<u8>) -> int {
    match spec_find_boundary(t, 0) {
        Some(b) => b + 2,
        None => match find_byte_from(t, 10, 0) {
            Some(p) => p + 1,
            None => t.len() as int,
        },
    }
}

pub proof fn lemma_error_skip_bounds(t: Seq<u8>)
    requires
        t.len() > 0,
    ensures
        1 <= spec_error_skip(t) <= t.len(),
{
    lemma_find_boundary_bounds(t, 0);
    match spec_find_boundary(t, 0) {
        Some(b) => {},
        None => {
            lemma_find_byte_from(t, 10, 0);
        },
    }
}

/// Basic facts about a parsed header: its length spans at least the line,
/// stays inside the buffer, and ends on the newline.
pub proof fn lemma_header_parse_bounds(t: Seq<u8>)
    ensures
        match spec_header_parse(t) {
            HeaderParse::Parsed(h) => 1 <= h.header_len <= t.len() && t[h.header_len - 1] == 10
                && h.byte_count <= usize::MAX,
            _ => true,
        },
{
    reveal(spec_header_parse);
    lemma_find_byte_from(t, 10, 0);
}

/// One decoded record, with how far the decoder moved past it.
pub ghost struct SpecFrameOut {
    pub header: SpecHeader,
    pub content: Seq<u8>,
    pub next_pos: int,
}

/// Outcome of asking the decoder for the next record.
pub ghost enum Step {
    Done,
    Item(SpecFrameOut),
    Error { next_pos: int },
}

pub open spec fn shift_step(st: Step, k: int) -> Step {
    match st {
        Step::Done => Step::Done,
        Step::Item(it) => Step::Item(
            SpecFrameOut { header: it.header, content: it.content, next_pos: it.next_pos + k },
        ),
        Step::Error { next_pos } => Step::Error { next_pos: next_pos + k },
    }
}

pub proof fn lemma_shift_compose(st: Step, a: int, b: int)
    ensures
        shift_step(shift_step(st, a), b) == shift_step(st, a + b),
{
}

pub proof fn lemma_shift_zero(st: Step)
    ensures
        shift_step(st, 0) == st,
{
}

/// Entering the per-record step: after the first-header scan (or at once,
/// once started), one next-step of the whole input is the per-record step
/// of the suffix, shifted back.
pub proof fn lemma_next_enter(s0: Seq<u8>, started0: bool, off: int)
    requires
        s0.len() > 0,
        0 <= off <= s0.len(),
        !started0 ==> spec_first_header(s0) == Some(off),
        started0 ==> off == 0,
    ensures
        spec_next(s0, started0) == shift_step(spec_next_at(s0.skip(off), started0), off),
{
    if started0 {
        assert(s0.skip(0) =~= s0);
        lemma_shift_zero(spec_next_at(s0, started0));
    }
}

/// Cuts the content of a just-parsed record out of `t` (which begins at the
/// record's header). The declared byte count is tried first: if a sentinel
/// stands exactly there it is taken. Otherwise the buffer is scanned for the
/// next verified boundary, and failing that the record runs to the end of
/// input, shedding one trailing VT.
pub open spec fn spec_take_frame(t: Seq<u8>, h: SpecHeader) -> Step {
    let cs = h.header_len;
    let ee = cs + h.byte_count;
    if ee < t.len() && t[ee] == 11 && (ee + 1 >= t.len() || t[ee + 1] == 10) {
        let has_nl = ee + 1 < t.len() && t[ee + 1] == 10;
        let consumed = if has_nl {
            ee + 2
        } else {
            ee + 1
        };
        Step::Item(SpecFrameOut { header: h, content: t.subrange(cs, ee), next_pos: consumed })
    } else {
        match spec_find_boundary(t, cs) {
            Some(b) => Step::Item(
                SpecFrameOut { header: h, content: t.subrange(cs, b), next_pos: b + 2 },
            ),
            None => {
                let end = if t.len() > 0 && t.last() == 11 {
                    t.len() - 1
                } else {
                    t.len() as int
                };
                Step::Item(
                    SpecFrameOut {
                        header: h,
                        content: t.subrange(cs, end),
                        next_pos: t.len() as int,
                    },
                )
            },
        }
    }
}

/// What one call for the next record does to the remaining input `s`:
/// nothing more to decode, one record, or one error item.
pub open spec fn spec_next(s: Seq<u8>, started: bool) -> Step
    decreases s.len(), 2int when true via spec_next_dec
{
    if s.len() == 0 {
        Step::Done
    } else if !started {
        match spec_first_header(s) {
            None => Step::Done,
            Some(off) => shift_step(spec_next_at(s.skip(off), started), off),
        }
    } else {
        spec_next_at(s, started)
    }
}

/// The decoding step once scanning for the first header is behind us:
/// strip padding, then parse at the record header.
pub open spec fn spec_next_at(s: Seq<u8>, started: bool) -> Step
    decreases s.len(), 1int when true via spec_next_at_dec
{
    let p = spec_skip_padding(s, 0);
    if p >= s.len() {
        Step::Done
    } else {
        shift_step(spec_parse_step(s.skip(p), started), p)
    }
}

/// The step at a supposed record header: cut the record, consume a
/// dump-restart marker and try again, report an error, or stop at a
/// truncated header.
pub open spec fn spec_parse_step(t: Seq<u8>, started: bool) -> Step
    decreases t.len(), 0int when true via spec_parse_step_dec
{
    match spec_header_parse(t) {
        HeaderParse::NoLine => Step::Done,
        HeaderParse::Bad => {
            if match_at(t, tok_dump_started(), 0) {
                let skip = spec_marker_skip(t);
                shift_step(spec_next(t.skip(skip), started), skip)
            } else {
                Step::Error { next_pos: spec_error_skip(t) }
            }
        },
        HeaderParse::Parsed(h) => spec_take_frame(t, h),
    }
}

#[via_fn]
proof fn spec_next_dec(s: Seq<u8>, started: bool) {
    if s.len() > 0 && !started {
        match spec_first_header(s) {
            None => {},
            Some(off) => {
                if spec_is_header_prefix(s) {
                } else {
                    lemma_scan_first_bounds(s, 0);
                }
            },
        }
    }
}

#[via_fn]
proof fn spec_parse_step_dec(t: Seq<u8>, started: bool) {
    match spec_header_parse(t) {
        HeaderParse::Bad => {
            if match_at(t, tok_dump_started(), 0) {
                if t.len() > 0 {
                    lemma_marker_skip_bounds(t);
                } else {
                    lemma_find_byte_from(t, 10, 0);
                }
            }
        },
        _ => {},
    }
}

#[via_fn]
proof fn spec_next_at_dec(s: Seq<u8>, started: bool) {
    lemma_skip_padding_bounds(s, 0);
}

/// Copies `data[a..b]` into a fresh vector.
fn copy_range(data: &[u8], a: usize, b: usize) -> (v: Vec<u8>)
    requires
        a <= b <= data@.len(),
    ensures
        v@ == data@.subrange(a as int, b as int),
{
    let mut v: Vec<u8> = Vec::new();
    v.extend_from_slice(&data[a..b]);
    assert(v@ =~= data@.subrange(a as int, b as int));
    v
}

/// Finds the next verified record boundary in `data` at or after `from`.
fn find_boundary(data: &[u8], from: usize) -> (r: Option<usize>)
    requires
        from <= data@.len(),
    ensures
        r == as_usize_opt(spec_find_boundary(data@, from as int)),
{
    let vtlf = tok_vtlf_vec();
    let n = data.len();
    let mut cur: usize = from;
    loop
        invariant
            cur <= data@.len(),
            data@.len() == n as int,
            vtlf@ == tok_vtlf(),
            spec_find_boundary(data@, from as int) == spec_find_boundary(data@, cur as int),
        decreases data@.len() - cur,
    {
        proof {
            lemma_find_sub_from(data@, tok_vtlf(), cur as int);
        }
        match find_sub_at(data, vtlf.as_slice(), cur) {
            None => {
                return None;
            },
            Some(i) => {
                if i + 2 >= n {
                    return Some(i);
                }
                let after: &[u8] = &data[i + 2..n];
                assert(after@ =~= data@.skip(i as int + 2));
                if is_frame_header(after) {
                    return Some(i);
                }
                cur = i + 2;
            },
        }
    }
}

/// Offset of the first decodable record header in `data`, if any.
fn first_header_offset(data: &[u8]) -> (r: Option<usize>)
    ensures
        r == as_usize_opt(spec_first_header(data@)),
{
    if is_frame_header(data) {
        return Some(0);
    }
    let vtlf = tok_vtlf_vec();
    let n = data.len();
    let mut cur: usize = 0;
    loop
        invariant
            cur <= data@.len(),
            data@.len() == n as int,
            vtlf@ == tok_vtlf(),
            !spec_is_header_prefix(data@),
            spec_scan_first(data@, 0) == spec_scan_first(data@, cur as int),
        decreases data@.len() - cur,
    {
        proof {
            lemma_find_sub_from(data@, tok_vtlf(), cur as int);
        }
        match find_sub_at(data, vtlf.as_slice(), cur) {
            None => {
                return None;
            },
            Some(i) => {
                if i + 2 < n {
                    let after: &[u8] = &data[i + 2..n];
                    assert(after@ =~= data@.skip(i as int + 2));
                    if is_frame_header(after) {
                        return Some(i + 2);
                    }
                }
                cur = i + 2;
            },
        }
    }
}

/// Length of the run of inter-record padding at the start of `data`.
fn padding_len(data: &[u8]) -> (r: usize)
    ensures
        r as int == spec_skip_padding(data@, 0),
        r <= data@.len(),
{
    proof {
        lemma_skip_padding_bounds(data@, 0);
    }
    let n = data.len();
    let mut i: usize = 0;
    loop
        invariant
            i <= data@.len(),
            data@.len() == n as int,
            spec_skip_padding(data@, 0) == spec_skip_padding(data@, i as int),
            i as int <= spec_skip_padding(data@, 0) <= data@.len(),
        decreases data@.len() - i,
    {
        if i < n && data[i] == 10 {
            i = i + 1;
        } else if i < n && data[i] == 13 && i + 1 < n && data[i + 1] == 10 {
            i = i + 2;
        } else {
            return i;
        }
        proof {
            lemma_skip_padding_bounds(data@, i as int);
        }
    }
}

/// Pulls records one at a time out of a dump held in memory.
///
/// Each call to `next` yields the next record, an error item where a header
/// could not be read, or nothing more.
pub struct FrameIterator {
    buf: Vec<u8>,
    pos: usize,
    started: bool,
}

impl FrameIterator {
    /// The bytes not yet consumed.
    pub closed spec fn remaining(&self) -> Seq<u8> {
        self.buf@.skip(self.pos as int)
    }

    /// How many bytes have been consumed.
    pub closed spec fn offset(&self) -> int {
        self.pos as int
    }

    /// The whole input.
    pub closed spec fn input(&self) -> Seq<u8> {
        self.buf@
    }

    /// Whether a record has been yielded yet; until then the decoder still
    /// scans forward for the first valid header.
    pub closed spec fn spec_started(&self) -> bool {
        self.started
    }

    pub closed spec fn wf(&self) -> bool {
        self.pos <= self.buf@.len()
    }

    /// A well-formed decoder's position stays inside its input.
    pub proof fn lemma_wf_bounds(&self)
        requires
            self.wf(),
        ensures
            0 <= self.offset() <= self.input().len(),
    {
    }

    /// Starts decoding `input` from its beginning.
    pub fn new(input: Vec<u8>) -> (r: FrameIterator)
        ensures
            r.wf(),
            r.input() == input@,
            r.remaining() == input@,
            r.offset() == 0,
            !r.spec_started(),
    {
        let r = FrameIterator { buf: input, pos: 0, started: false };
        assert(r.remaining() =~= r.buf@);
        r
    }

    /// Scans for the first decodable header when none has been yielded yet.
    /// `true` means nothing more can be decoded.
    #[verifier::rlimit(100)]
    fn to_record_start(&mut self) -> (done: bool)
        requires
            old(self).wf(),
        ensures
            final(self).wf(),
            final(self).input() == old(self).input(),
            final(self).spec_started() == old(self).spec_started(),
            final(self).offset() >= old(self).offset(),
            done ==> spec_next(old(self).remaining(), old(self).spec_started()) == Step::Done,
            !done ==> final(self).remaining().len() > 0 && spec_next(
                old(self).remaining(),
                old(self).spec_started(),
            ) == shift_step(
                spec_next_at(final(self).remaining(), old(self).spec_started()),
                final(self).offset() - old(self).offset(),
            ),
    {
        let ghost s0 = self.remaining();
        let ghost started0 = self.started;
        if self.pos == self.buf.len() {
            assert(s0.len() == 0);
            return true;
        }
        assert(s0.len() > 0);
        if !self.started {
            let scan_res = {
                let rem: &[u8] = &self.buf[self.pos..self.buf.len()];
                assert(rem@ =~= s0);
                first_header_offset(rem)
            };
            match scan_res {
                None => {
                    return true;
                },
                Some(off) => {
                    proof {
                        if !spec_is_header_prefix(s0) {
                            lemma_scan_first_bounds(s0, 0);
                        }
                    }
                    self.pos = self.pos + off;
                },
            }
        }
        proof {
            let delta = self.pos as int - old(self).pos as int;
            if !started0 {
                if spec_is_header_prefix(s0) {
                    assert(spec_first_header(s0) == Some(0int));
                } else {
                    lemma_scan_first_bounds(s0, 0);
                }
                assert(spec_first_header(s0) == Some(delta));
            }
            lemma_next_enter(s0, started0, delta);
            assert(self.remaining() =~= s0.skip(delta));
            assert(delta < s0.len());
            assert(self.remaining().len() > 0);
        }
        false
    }

    /// Advances past the first-header scan and any inter-record padding.
    /// `true` means nothing more can be decoded.
    #[verifier::rlimit(100)]
    fn advance_to_record(&mut self) -> (done: bool)
        requires
            old(self).wf(),
        ensures
            final(self).wf(),
            final(self).input() == old(self).input(),
            final(self).spec_started() == old(self).spec_started(),
            final(self).offset() >= old(self).offset(),
            done ==> spec_next(old(self).remaining(), old(self).spec_started()) == Step::Done,
            !done ==> final(self).remaining().len() > 0 && spec_next(
                old(self).remaining(),
                old(self).spec_started(),
            ) == shift_step(
                spec_parse_step(final(self).remaining(), old(self).spec_started()),
                final(self).offset() - old(self).offset(),
            ),
    {
        let ghost s0 = self.remaining();
        let ghost started0 = self.started;
        let done0 = self.to_record_start();
        if done0 {
            return true;
        }
        let ghost off0 = self.pos as int - old(self).pos as int;
        let ghost s1 = self.remaining();
        let pad = {
            let rem: &[u8] = &self.buf[self.pos..self.buf.len()];
            assert(rem@ =~= s1);
            padding_len(rem)
        };
        let ghost p = pad as int;
        self.pos = self.pos + pad;
        if self.pos == self.buf.len() {
            proof {
                assert(spec_skip_padding(s1, 0) == s1.len());
                assert(spec_next_at(s1, started0) == Step::Done);
            }
            return true;
        }
        let ghost t = self.remaining();
        proof {
            assert(t =~= s1.skip(p));
            assert(spec_next_at(s1, started0) == shift_step(
                spec_parse_step(t, started0),
                p,
            ));
            lemma_shift_compose(spec_parse_step(t, started0), p, off0);
        }
        false
    }

    /// Yields the next record, a recoverable error, or nothing more, exactly
    /// as `spec_next` reads the remaining input.
    #[verifier::rlimit(100)]
    pub fn next(&mut self) -> (r: Option<Result<Frame, ParseError>>)
        requires
            old(self).wf(),
        ensures
            final(self).wf(),
            final(self).input() == old(self).input(),
            final(self).offset() >= old(self).offset(),
            match r {
                None => spec_next(old(self).remaining(), old(self).spec_started())
                    == Step::Done,
                Some(Ok(f)) => (spec_next(old(self).remaining(), old(self).spec_started())
                    matches Step::Item(it) && (f.direction == it.header.direction
                    && f.byte_count as nat == it.header.byte_count && f.transport
                    == it.header.transport && f.address@ == lossy_utf8(it.header.addr) && (
                vstd::utf8::valid_utf8(it.header.addr) ==> f.address@
                    == vstd::utf8::decode_utf8(it.header.addr)) && ((f.address@.len() == 0) == (
                it.header.addr.len() == 0)) && f.timestamp == it.header.timestamp && f.content@
                    == it.content && final(self).offset() == old(self).offset() + it.next_pos
                    && final(self).remaining() == old(self).remaining().skip(it.next_pos)
                    && final(self).spec_started())),
                Some(Err(e)) => (spec_next(old(self).remaining(), old(self).spec_started())
                    matches Step::Error { next_pos } && (final(self).offset()
                    == old(self).offset() + next_pos && final(self).remaining()
                    == old(self).remaining().skip(next_pos)
                    && (e matches ParseError::InvalidHeader(_))
                    && final(self).spec_started() == old(self).spec_started())),
            },
            r is Some ==> final(self).offset() > old(self).offset(),
        decreases self.input().len() - self.offset(),
    {
        let ghost s0 = self.remaining();
        let ghost started0 = self.started;
        let done = self.advance_to_record();
        if done {
            return None;
        }
        let ghost k = self.pos as int - old(self).pos as int;
        let ghost t = self.remaining();
        let parse_res = {
            let rem: &[u8] = &self.buf[self.pos..self.buf.len()];
            assert(rem@ =~= t);
            parse_frame_header(rem)
        };
        match parse_res {
            Err(e) => {
                let no_nl = String::from_str("no newline in header");
                let is_no_nl = match &e {
                    ParseError::InvalidHeader(m) => (*m).eq(&no_nl),
                    ParseError::InvalidMessage(_) => {
                        proof {
                            assert(false);
                        }
                        false
                    },
                };
                if is_no_nl {
                    proof {
                        assert(spec_header_parse(t) matches HeaderParse::NoLine);
                        assert(spec_parse_step(t, started0) == Step::Done);
                    }
                    return None;
                }
                assert(spec_header_parse(t) matches HeaderParse::Bad);
                match self.skip_bad(e) {
                    Some(e2) => {
                        proof {
                            assert(spec_parse_step(t, started0) == (Step::Error {
                                next_pos: spec_error_skip(t),
                            }));
                        }
                        return Some(Err(e2));
                    },
                    None => {
                        let ghost skip = spec_marker_skip(t);
                        let ghost s2 = self.remaining();
                        proof {
                            lemma_marker_skip_bounds(t);
                            assert(s2 =~= t.skip(skip));
                        }
                        let r2 = self.next();
                        proof {
                            assert(spec_parse_step(t, started0) == shift_step(
                                spec_next(t.skip(skip), started0),
                                skip,
                            ));
                            lemma_shift_compose(spec_next(s2, started0), skip, k);
                        }
                        return r2;
                    },
                }
            },
            Ok((direction, byte_count, transport, address, timestamp, header_len)) => {
                proof {
                    lemma_header_parse_bounds(t);
                }
                let ghost h = spec_parsed_header(t);
                let content = self.take_frame(header_len, byte_count);
                proof {
                    assert(spec_parse_step(t, started0) == spec_take_frame(t, h));
                }
                Some(
                    Ok(
                        Frame {
                            direction,
                            byte_count,
                            transport,
                            address,
                            timestamp,
                            content,
                        },
                    ),
                )
            },
        }
    }

    /// Consumes the bytes of an unrecognised header: a dump-restart marker
    /// is discarded silently (`None`); anything else is skipped to the next
    /// boundary or line and the error handed back.
    #[verifier::rlimit(60)]
    fn skip_bad(&mut self, e: ParseError) -> (r: Option<ParseError>)
        requires
            old(self).wf(),
            old(self).remaining().len() > 0,
            spec_header_parse(old(self).remaining()) matches HeaderParse::Bad,
        ensures
            final(self).wf(),
            final(self).input() == old(self).input(),
            final(self).spec_started() == old(self).spec_started(),
            match r {
                Some(e2) => e2 == e && !match_at(old(self).remaining(), tok_dump_started(), 0)
                    && final(self).offset() == old(self).offset() + spec_error_skip(
                    old(self).remaining(),
                ),
                None => match_at(old(self).remaining(), tok_dump_started(), 0)
                    && final(self).offset() == old(self).offset() + spec_marker_skip(
                    old(self).remaining(),
                ),
            },
            final(self).offset() > old(self).offset(),
    {
        let ghost t = old(self).remaining();
        let base = self.pos;
        let n = self.buf.len();
        let dump_tok = tok_dump_started_vec();
        let is_marker = {
            let rem: &[u8] = &self.buf[base..n];
            assert(rem@ =~= t);
            starts_with_at(rem, dump_tok.as_slice(), 0)
        };
        if is_marker {
            let skip = {
                let rem: &[u8] = &self.buf[base..n];
                assert(rem@ =~= t);
                marker_skip_len(rem)
            };
            proof {
                lemma_marker_skip_bounds(t);
            }
            self.pos = base + skip;
            None
        } else {
            let skip = {
                let rem: &[u8] = &self.buf[base..n];
                assert(rem@ =~= t);
                error_skip_len(rem)
            };
            proof {
                lemma_error_skip_bounds(t);
            }
            self.pos = base + skip;
            Some(e)
        }
    }

    /// Cuts the content of the record whose header begins the remaining
    /// input, per the declared-count hint, the boundary scan, or the
    /// end-of-input fallback, and consumes through its boundary.
    #[verifier::rlimit(100)]
    fn take_frame(&mut self, cs: usize, byte_count: usize) -> (content: Vec<u8>)
        requires
            old(self).wf(),
            spec_header_parse(old(self).remaining()) matches HeaderParse::Parsed(h)
                && h.header_len == cs as int && h.byte_count == byte_count as nat,
        ensures
            final(self).wf(),
            final(self).input() == old(self).input(),
            final(self).spec_started(),
            (spec_take_frame(
                old(self).remaining(),
                spec_parsed_header(old(self).remaining()),
            ) matches Step::Item(it) && (content@ == it.content && final(self).offset() == old(
                self,
            ).offset() + it.next_pos && it.next_pos > 0)),
    {
        let ghost t = self.remaining();
        let ghost h = spec_parsed_header(t);
        proof {
            lemma_header_parse_bounds(t);
        }
        let base = self.pos;
        let n = self.buf.len();
        let rem_len = n - base;
        assert(1 <= cs <= rem_len);
        let ghost spec_ee = h.header_len + h.byte_count;
        let hint_ok: bool;
        let mut ee: usize = 0;
        if byte_count < rem_len - cs {
            ee = cs + byte_count;
            assert(self.buf@[base + ee] == t[cs as int + byte_count as int]);
            if self.buf[base + ee] == 11 {
                if ee + 1 < rem_len {
                    hint_ok = self.buf[base + ee + 1] == 10;
                    assert(self.buf@[base + ee + 1] == t[spec_ee + 1]);
                } else {
                    hint_ok = true;
                }
            } else {
                hint_ok = false;
            }
        } else {
            // The declared count reaches or passes the end of input, so no
            // sentinel can stand there.
            hint_ok = false;
        }
        if hint_ok {
            let has_nl = ee + 1 < rem_len && self.buf[base + ee + 1] == 10;
            let content = {
                let rem: &[u8] = &self.buf[base..n];
                assert(rem@ =~= t);
                copy_range(rem, cs, ee)
            };
            let consumed = if has_nl {
                ee + 2
            } else {
                ee + 1
            };
            self.pos = base + consumed;
            self.started = true;
            return content;
        }
        proof {
            assert(!(spec_ee < t.len() && t[spec_ee] == 11 && (spec_ee + 1 >= t.len()
                || t[spec_ee + 1] == 10)));
        }
        let bres = {
            let rem: &[u8] = &self.buf[base..n];
            assert(rem@ =~= t);
            find_boundary(rem, cs)
        };
        proof {
            lemma_find_boundary_bounds(t, cs as int);
        }
        match bres {
            Some(b) => {
                let content = {
                    let rem: &[u8] = &self.buf[base..n];
                    assert(rem@ =~= t);
                    copy_range(rem, cs, b)
                };
                self.pos = base + b + 2;
                self.started = true;
                content
            },
            None => {
                let end: usize = if self.buf[n - 1] == 11 {
                    assert(t.last() == 11);
                    assert(t[cs as int - 1] == 10);
                    rem_len - 1
                } else {
                    rem_len
                };
                assert(cs <= end);
                let content = {
                    let rem: &[u8] = &self.buf[base..n];
                    assert(rem@ =~= t);
                    copy_range(rem, cs, end)
                };
                self.pos = n;
                self.started = true;
                content
            },
        }
    }
}

/// The fields of the record header that begins `t`, where one parses.
pub open spec fn spec_parsed_header(t: Seq<u8>) -> SpecHeader {
    match spec_header_parse(t) {
        HeaderParse::Parsed(h) => h,
        _ => arbitrary(),
    }
}

/// Bytes to discard for a dump-restart marker at the start of `data`.
fn marker_skip_len(data: &[u8]) -> (r: usize)
    requires
        data@.len() > 0,
    ensures
        r as int == spec_marker_skip(data@),
{
    proof {
        lemma_find_byte_from(data@, 10, 0);
    }
    let n = data.len();
    proof {
        assert(data@.len() == n as int);
    }
    match find_byte_at(data, 10, 0) {
        Some(p) => {
            proof {
                assert(find_byte_from(data@, 10, 0) == Some(p as int));
            }
            let mut e: usize = p + 1;
            proof {
                lemma_skip_lf_bounds(data@, e as int);
            }
            loop
                invariant
                    e <= data@.len(),
                    data@.len() == n as int,
                    find_byte_from(data@, 10, 0) == Some(p as int),
                    spec_skip_lf(data@, p as int + 1) == spec_skip_lf(data@, e as int),
                    e as int <= spec_skip_lf(data@, p as int + 1) <= data@.len(),
                decreases data@.len() - e,
            {
                if e < n && data[e] == 10 {
                    e = e + 1;
                    proof {
                        lemma_skip_lf_bounds(data@, e as int);
                    }
                } else {
                    return e;
                }
            }
        },
        None => n,
    }
}

/// Bytes to discard after an unrecognised header.
fn error_skip_len(data: &[u8]) -> (r: usize)
    requires
        data@.len() > 0,
    ensures
        r as int == spec_error_skip(data@),
{
    let n = data.len();
    proof {
        assert(data@.len() == n as int);
        lemma_find_boundary_bounds(data@, 0);
        lemma_find_byte_from(data@, 10, 0);
    }
    match find_boundary(data, 0) {
        Some(b) => b + 2,
        None => match find_byte_at(data, 10, 0) {
            Some(p) => p + 1,
            None => data.len(),
        },
    }
}

/// Bounds of one decoding step: an item or an error always consumes at
/// least one byte and never more than remain.
pub proof fn lemma_spec_next_bounds(s: Seq<u8>, started: bool)
    ensures
        match spec_next(s, started) {
            Step::Item(it) => 0 < it.next_pos <= s.len(),
            Step::Error { next_pos } => 0 < next_pos <= s.len(),
            Step::Done => true,
        },
    decreases s.len(),
{
    if s.len() == 0 {
    } else if !started {
        match spec_first_header(s) {
            None => {},
            Some(off) => {
                if spec_is_header_prefix(s) {
                    assert(spec_first_header(s) == Some(0int));
                } else {
                    lemma_scan_first_bounds(s, 0);
                }
                lemma_spec_next_at_bounds(s.skip(off), started);
            },
        }
    } else {
        lemma_spec_next_at_bounds(s, started);
    }
}

proof fn lemma_spec_next_at_bounds(s: Seq<u8>, started: bool)
    ensures
        match spec_next_at(s, started) {
            Step::Item(it) => 0 < it.next_pos <= s.len(),
            Step::Error { next_pos } => 0 < next_pos <= s.len(),
            Step::Done => true,
        },
    decreases s.len(), 1int,
{
    let p = spec_skip_padding(s, 0);
    lemma_skip_padding_bounds(s, 0);
    if p >= s.len() {
    } else {
        let t = s.skip(p);
        lemma_spec_parse_step_bounds(t, started);
    }
}

proof fn lemma_spec_parse_step_bounds(t: Seq<u8>, started: bool)
    requires
        t.len() > 0,
    ensures
        match spec_parse_step(t, started) {
            Step::Item(it) => 0 < it.next_pos <= t.len(),
            Step::Error { next_pos } => 0 < next_pos <= t.len(),
            Step::Done => true,
        },
    decreases t.len(), 0int,
{
    lemma_header_parse_bounds(t);
    match spec_header_parse(t) {
        HeaderParse::NoLine => {},
        HeaderParse::Bad => {
            if match_at(t, tok_dump_started(), 0) {
                lemma_marker_skip_bounds(t);
                let skip = spec_marker_skip(t);
                lemma_spec_next_bounds(t.skip(skip), started);
            } else {
                lemma_error_skip_bounds(t);
            }
        },
        HeaderParse::Parsed(h) => {
            let cs = h.header_len;
            let ee = cs + h.byte_count;
            if ee < t.len() && t[ee] == 11 && (ee + 1 >= t.len() || t[ee + 1] == 10) {
            } else {
                lemma_find_boundary_bounds(t, cs);
                match spec_find_boundary(t, cs) {
                    Some(b) => {},
                    None => {},
                }
            }
        },
    }
}

} // verus!
