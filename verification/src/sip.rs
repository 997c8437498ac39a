//! The SIP parser: takes one reassembled message apart into its start
//! line, its headers — compact forms, folding and duplicates included —
//! its body, and the parts of a multipart body.

use vstd::prelude::*;

use crate::ascii::lower_bytes;
use crate::ascii::sbytes;
use crate::ascii::skip_lws;
use crate::ascii::lemma_skip_lws;
use crate::ascii::spec_dec_std;
use crate::ascii::parse_std_u16;
use crate::ascii::is_lws;
use crate::frame::ParseError;
use crate::message::crlfcrlf;
use crate::message::msg_view;
use crate::message::msgs_views;
use crate::message::spec_mnext;
use crate::message::BufView;
use crate::message::MessageIterator;
use crate::message::MsgView;
use crate::message::MStep;
use crate::message::lemma_method_tok_shape;
use crate::message::spec_method_tok;
use crate::message::tok_sip_resp;
use crate::search::find_byte_at;
use crate::search::find_byte_from;
use crate::search::find_sub_at;
use crate::search::find_sub_from;
use crate::search::lemma_find_byte_from;
use crate::search::lemma_find_sub_from;
use crate::search::lemma_find_sub_shift;
use crate::search::lemma_rfind_byte_before;
use crate::search::match_at;
use crate::search::rfind_byte;
use crate::search::rfind_byte_before;
use crate::search::starts_with_at;
use crate::types::bytes_to_string;
use crate::types::crlf;
use crate::types::lookup_header_alias;
use crate::types::header_bytes;
use crate::types::lossy_utf8;
use crate::types::MimePart;
use crate::types::ParsedSipMessage;
use crate::types::SipMessage;
use crate::types::SipMessageType;

verus! {

/// A start line as read off the wire, before its pieces become text.
pub ghost enum SpecStart {
    Req { method: Seq<u8>, uri: Seq<u8> },
    Resp { code: u16, reason: Seq<u8> },
}

/// The bytes `SIP/2.0` alone (no trailing space).
pub open spec fn tok_sip_version() -> Seq<u8> {
    crate::types::sip_version()
}

/// What the first line of a message parses to.
///
/// A line opening with `SIP/2.0 ` is a response: the next
/// space-terminated token must read as a decimal status code, and all that
/// follows the space is the reason phrase. Anything else is a request:
/// the first space ends the method, the last space must be followed by
/// exactly `SIP/2.0`, and the bytes between are the URI.
pub open spec fn spec_parse_start(line: Seq<u8>) -> Option<SpecStart> {
    if match_at(line, tok_sip_resp(), 0) {
        match find_byte_from(line, 32, 8) {
            None => None,
            Some(sp) => match spec_dec_std(line.subrange(8, sp), u16::MAX as nat) {
                Some(code) => Some(
                    SpecStart::Resp { code: code as u16, reason: line.skip(sp + 1) },
                ),
                None => None,
            },
        }
    } else {
        match find_byte_from(line, 32, 0) {
            None => None,
            Some(fs) => {
                let rest = line.skip(fs + 1);
                match rfind_byte_before(rest, 32, rest.len() as int) {
                    None => None,
                    Some(ls) => {
                        if rest.skip(ls + 1) == tok_sip_version() {
                            Some(SpecStart::Req { method: line.take(fs), uri: rest.take(ls) })
                        } else {
                            None
                        }
                    },
                }
            },
        }
    }
}

/// How a parsed start line relates to its wire form: the method, URI and
/// reason are the wire bytes decoded as text.
pub open spec fn start_matches(t: SipMessageType, st: SpecStart) -> bool {
    match st {
        SpecStart::Req { method, uri } => t matches SipMessageType::Request {
            method: m,
            uri: u,
        } && m@ == lossy_utf8(method) && u@ == lossy_utf8(uri) && (vstd::utf8::valid_utf8(method)
            ==> m@ == vstd::utf8::decode_utf8(method)) && (vstd::utf8::valid_utf8(uri) ==> u@
            == vstd::utf8::decode_utf8(uri)),
        SpecStart::Resp { code, reason } => t matches SipMessageType::Response {
            code: c,
            reason: re,
        } && c == code && re@ == lossy_utf8(reason) && (vstd::utf8::valid_utf8(reason) ==> re@
            == vstd::utf8::decode_utf8(reason)),
    }
}

fn tok_sip_resp_vec() -> (v: Vec<u8>)
    ensures
        v@ == tok_sip_resp(),
{
    let v: Vec<u8> = vec![
        'S' as u8,
        'I' as u8,
        'P' as u8,
        '/' as u8,
        '2' as u8,
        '.' as u8,
        '0' as u8,
        ' ' as u8,
    ];
    assert(v@ =~= tok_sip_resp());
    v
}

fn tok_sip_version_vec() -> (v: Vec<u8>)
    ensures
        v@ == tok_sip_version(),
{
    let v: Vec<u8> = vec!['S' as u8, 'I' as u8, 'P' as u8, '/' as u8, '2' as u8, '.' as u8, '0' as u8];
    assert(v@ =~= tok_sip_version());
    v
}

/// Parses a response start line beginning `SIP/2.0 `.
fn parse_status_line(line: &[u8]) -> (r: Result<SipMessageType, ParseError>)
    requires
        match_at(line@, tok_sip_resp(), 0),
    ensures
        match spec_parse_start(line@) {
            Some(st) => r matches Ok(t) && start_matches(t, st),
            None => r matches Err(e) && e matches ParseError::InvalidHeader(_),
        },
{
    let n = line.len();
    proof {
        assert(line@.len() == n as int);
        lemma_find_byte_from(line@, 32, 8);
    }
    let sp = match find_byte_at(line, 32, 8) {
        None => {
            return Err(ParseError::InvalidHeader(String::from_str("no space after status code")));
        },
        Some(p) => p,
    };
    let code_bytes: &[u8] = &line[8..sp];
    assert(code_bytes@ =~= line@.subrange(8, sp as int));
    let code = match parse_std_u16(code_bytes) {
        None => {
            return Err(ParseError::InvalidHeader(String::from_str("invalid status code")));
        },
        Some(c) => c,
    };
    let reason_bytes: &[u8] = &line[sp + 1..line.len()];
    assert(reason_bytes@ =~= line@.skip(sp as int + 1));
    let reason = bytes_to_string(reason_bytes);
    Ok(SipMessageType::Response { code, reason })
}

/// Parses a request start line: `<method> <uri> SIP/2.0`.
fn parse_request_line(line: &[u8]) -> (r: Result<SipMessageType, ParseError>)
    requires
        !match_at(line@, tok_sip_resp(), 0),
    ensures
        match spec_parse_start(line@) {
            Some(st) => r matches Ok(t) && start_matches(t, st),
            None => r matches Err(e) && e matches ParseError::InvalidHeader(_),
        },
{
    let n = line.len();
    proof {
        assert(line@.len() == n as int);
        lemma_find_byte_from(line@, 32, 0);
    }
    let fs = match find_byte_at(line, 32, 0) {
        None => {
            return Err(ParseError::InvalidHeader(String::from_str("no space in request line")));
        },
        Some(p) => p,
    };
    let rest: &[u8] = &line[fs + 1..line.len()];
    assert(rest@ =~= line@.skip(fs as int + 1));
    let rn = rest.len();
    proof {
        assert(rest@.len() == rn as int);
        lemma_rfind_byte_before(rest@, 32, rest@.len() as int);
    }
    let ls = match rfind_byte(rest, 32) {
        None => {
            return Err(
                ParseError::InvalidHeader(String::from_str("no SIP version in request line")),
            );
        },
        Some(p) => p,
    };
    let version: &[u8] = &rest[ls + 1..rest.len()];
    assert(version@ =~= rest@.skip(ls as int + 1));
    let vt = tok_sip_version_vec();
    let version_ok = if version.len() == 7 {
        starts_with_at(version, vt.as_slice(), 0)
    } else {
        false
    };
    if !version_ok {
        proof {
            if version@.len() == 7 {
                if version@ == tok_sip_version() {
                    assert(version@.subrange(0, 7) =~= version@);
                }
            } else {
                assert(version@ != tok_sip_version());
            }
        }
        return Err(ParseError::InvalidHeader(String::from_str("request line version mismatch")));
    }
    proof {
        assert(version@ =~= version@.subrange(0, 7));
    }
    let method_bytes: &[u8] = &line[0..fs];
    assert(method_bytes@ =~= line@.take(fs as int));
    let uri_bytes: &[u8] = &rest[0..ls];
    assert(uri_bytes@ =~= rest@.take(ls as int));
    let method = bytes_to_string(method_bytes);
    let uri = bytes_to_string(uri_bytes);
    Ok(SipMessageType::Request { method, uri })
}

/// Classifies and parses the first line of a message.
pub fn parse_first_line(line: &[u8]) -> (r: Result<SipMessageType, ParseError>)
    ensures
        match spec_parse_start(line@) {
            Some(st) => r matches Ok(t) && start_matches(t, st),
            None => r matches Err(e) && e matches ParseError::InvalidHeader(_),
        },
{
    let resp = tok_sip_resp_vec();
    if starts_with_at(line, resp.as_slice(), 0) {
        parse_status_line(line)
    } else {
        parse_request_line(line)
    }
}

/// The value part of a header line: leading spaces and tabs dropped,
/// everything to the line's end kept.
pub open spec fn spec_trim_leading(v: Seq<u8>) -> Seq<u8> {
    v.subrange(skip_lws(v, 0), v.len() as int)
}

/// Drops leading spaces and tabs.
pub fn trim_header_value(b: &[u8]) -> (r: Vec<u8>)
    ensures
        r@ == spec_trim_leading(b@),
{
    proof {
        lemma_skip_lws(b@, 0);
    }
    let n = b.len();
    let mut start: usize = 0;
    while start < n && (b[start] == 32 || b[start] == 9)
        invariant
            start <= b@.len(),
            b@.len() == n as int,
            skip_lws(b@, 0) == skip_lws(b@, start as int),
            start as int <= skip_lws(b@, 0) <= b@.len(),
        decreases b@.len() - start,
    {
        start = start + 1;
        proof {
            lemma_skip_lws(b@, start as int);
        }
    }
    assert(start as int == skip_lws(b@, 0));
    let mut out: Vec<u8> = Vec::new();
    out.extend_from_slice(&b[start..n]);
    assert(out@ =~= spec_trim_leading(b@));
    out
}

/// End of the physical header line that starts at `e`: the next CR LF, or
/// the end of the region.
pub open spec fn line_end_from(d: Seq<u8>, e: int) -> int {
    match find_sub_from(d, crlf(), e) {
        Some(x) => x,
        None => d.len() as int,
    }
}

/// End of the logical header line whose current end is `e`: while the next
/// physical line begins with a space or tab, it is a folded continuation
/// and the line extends over it.
pub open spec fn fold_end(d: Seq<u8>, e: int) -> int
    decreases d.len() + 2 - e when e >= 0 via fold_end_dec
{
    let nxt = e + 2;
    if nxt < d.len() && is_lws(d[nxt]) {
        fold_end(d, line_end_from(d, nxt))
    } else {
        e
    }
}

#[via_fn]
proof fn fold_end_dec(d: Seq<u8>, e: int) {
    if e >= 0 {
        lemma_find_sub_from(d, crlf(), e + 2);
    }
}

pub proof fn lemma_fold_end_bounds(d: Seq<u8>, e: int)
    requires
        0 <= e <= d.len(),
    ensures
        e <= fold_end(d, e) <= d.len(),
    decreases d.len() + 2 - e,
{
    let nxt = e + 2;
    if nxt < d.len() && is_lws(d[nxt]) {
        lemma_find_sub_from(d, crlf(), nxt);
        lemma_fold_end_bounds(d, line_end_from(d, nxt));
    }
}

/// One (name, value) pair cut from a logical header line at its first
/// colon: the name before it, the value after it with leading blanks
/// dropped. A line without a colon yields nothing.
pub open spec fn spec_header_pair(line: Seq<u8>) -> Option<(Seq<u8>, Seq<u8>)> {
    match find_byte_from(line, 58, 0) {
        None => None,
        Some(c) => {
            let value = if c + 1 < line.len() {
                spec_trim_leading(line.skip(c + 1))
            } else {
                Seq::empty()
            };
            Some((line.take(c), value))
        },
    }
}

/// Every (name, value) pair in the header region from `pos` on, in order,
/// with folded continuations joined into their line and colon-less lines
/// skipped.
pub open spec fn spec_headers(d: Seq<u8>, pos: int) -> Seq<(Seq<u8>, Seq<u8>)>
    decreases d.len() + 2 - pos when pos >= 0 via spec_headers_dec
{
    if pos >= d.len() {
        Seq::empty()
    } else {
        let fe = fold_end(d, line_end_from(d, pos));
        let line = d.subrange(pos, fe);
        let rest = spec_headers(d, fe + 2);
        if line.len() == 0 {
            rest
        } else {
            match spec_header_pair(line) {
                Some(p) => seq![p] + rest,
                None => rest,
            }
        }
    }
}

#[via_fn]
proof fn spec_headers_dec(d: Seq<u8>, pos: int) {
    if 0 <= pos < d.len() {
        lemma_find_sub_from(d, crlf(), pos);
        let le = line_end_from(d, pos);
        if 0 <= le <= d.len() {
            lemma_fold_end_bounds(d, le);
        }
    }
}

/// How header text relates to header bytes: the same pairs, decoded.
pub open spec fn headers_match(h: Seq<(String, String)>, hb: Seq<(Seq<u8>, Seq<u8>)>) -> bool {
    h.len() == hb.len() && (forall|i: int|
        0 <= i < h.len() ==> (#[trigger] h[i].0)@ == lossy_utf8(hb[i].0) && h[i].1@ == lossy_utf8(
            hb[i].1,
        ) && (vstd::utf8::valid_utf8(hb[i].0) ==> h[i].0@ == vstd::utf8::decode_utf8(hb[i].0))
            && (vstd::utf8::valid_utf8(hb[i].1) ==> h[i].1@ == vstd::utf8::decode_utf8(hb[i].1)))
}

/// Parses a header region: one `name: value` pair per logical line.
#[verifier::rlimit(100)]
pub fn parse_headers(data: &[u8]) -> (r: Vec<(String, String)>)
    ensures
        headers_match(r@, spec_headers(data@, 0)),
{
    let mut out: Vec<(String, String)> = Vec::new();
    let ghost all = spec_headers(data@, 0);
    let ghost mut done: Seq<(Seq<u8>, Seq<u8>)> = Seq::empty();
    let n = data.len();
    let crlf_v = crate::types::crlf_vec();
    let mut pos: usize = 0;
    while pos < n
        invariant
            pos <= n + 2,
            data@.len() == n as int,
            crlf_v@ == crlf(),
            all == spec_headers(data@, 0),
            all == done + spec_headers(data@, pos as int),
            headers_match(out@, done),
        decreases n + 2 - pos,
    {
        proof {
            lemma_find_sub_from(data@, crlf(), pos as int);
        }
        let le = match find_sub_at(data, crlf_v.as_slice(), pos) {
            Some(x) => x,
            None => n,
        };
        assert(le as int == line_end_from(data@, pos as int));
        // Extend over folded continuation lines.
        let mut fe = le;
        proof {
            lemma_fold_end_bounds(data@, le as int);
        }
        while fe < n && n - fe > 2 && (data[fe + 2] == 32 || data[fe + 2] == 9)
            invariant
                pos <= fe <= n,
                data@.len() == n as int,
                crlf_v@ == crlf(),
                fold_end(data@, le as int) == fold_end(data@, fe as int),
                fe as int <= fold_end(data@, le as int) <= n,
            decreases n - fe,
        {
            proof {
                lemma_find_sub_from(data@, crlf(), fe as int + 2);
            }
            let ne = match find_sub_at(data, crlf_v.as_slice(), fe + 2) {
                Some(x) => x,
                None => n,
            };
            assert(ne as int == line_end_from(data@, fe as int + 2));
            proof {
                lemma_fold_end_bounds(data@, ne as int);
            }
            fe = ne;
        }
        assert(fe as int == fold_end(data@, le as int));
        let line: &[u8] = &data[pos..fe];
        assert(line@ =~= data@.subrange(pos as int, fe as int));
        if line.len() > 0 {
            proof {
                lemma_find_byte_from(line@, 58, 0);
            }
            match find_byte_at(line, 58, 0) {
                Some(c) => {
                    let name_bytes: &[u8] = &line[0..c];
                    assert(name_bytes@ =~= line@.take(c as int));
                    let value: Vec<u8> = if c + 1 < line.len() {
                        let vb: &[u8] = &line[c + 1..line.len()];
                        assert(vb@ =~= line@.skip(c as int + 1));
                        trim_header_value(vb)
                    } else {
                        Vec::new()
                    };
                    let name_s = bytes_to_string(name_bytes);
                    let value_s = bytes_to_string(value.as_slice());
                    let ghost out_pre = out@;
                    let ghost done_pre = done;
                    out.push((name_s, value_s));
                    proof {
                        let pair = spec_header_pair(line@);
                        done = done_pre + seq![pair.unwrap()];
                        assert(spec_headers(data@, pos as int) == seq![pair.unwrap()]
                            + spec_headers(data@, fe as int + 2));
                        assert(all =~= done + spec_headers(data@, fe as int + 2));
                        assert(headers_match(out@, done)) by {
                            assert(forall|i: int|
                                0 <= i < out_pre.len() ==> out@[i] == out_pre[i]);
                            assert(out@.len() == done.len());
                            assert(out@[out_pre.len() as int].0 == name_s);
                            assert(out@[out_pre.len() as int].1 == value_s);
                            assert(done[out_pre.len() as int] == pair.unwrap());
                            assert(forall|i: int|
                                0 <= i < out_pre.len() ==> done[i] == done_pre[i]);
                        }
                    }
                },
                None => {
                    proof {
                        assert(spec_headers(data@, pos as int) == spec_headers(
                            data@,
                            fe as int + 2,
                        ));
                    }
                },
            }
        } else {
            proof {
                assert(spec_headers(data@, pos as int) == spec_headers(data@, fe as int + 2));
            }
        }
        if n - fe >= 2 {
            pos = fe + 2;
        } else {
            proof {
                assert(spec_headers(data@, fe as int + 2) =~= Seq::<
                    (Seq<u8>, Seq<u8>),
                >::empty());
                assert(spec_headers(data@, n as int) =~= Seq::<(Seq<u8>, Seq<u8>)>::empty());
            }
            pos = n;
        }
    }
    proof {
        assert(spec_headers(data@, pos as int) =~= Seq::<(Seq<u8>, Seq<u8>)>::empty());
        assert(all =~= done);
    }
    out
}

/// What a whole message parses to: its start line, its header pairs, and
/// its body bytes. The body begins after the first blank line; with no
/// blank line the whole tail is headers and the body is empty.
pub open spec fn spec_parse_msg(content: Seq<u8>) -> Option<
    (SpecStart, Seq<(Seq<u8>, Seq<u8>)>, Seq<u8>),
> {
    match find_sub_from(content, crlf(), 0) {
        None => None,
        Some(fle) => match spec_parse_start(content.take(fle)) {
            None => None,
            Some(st) => {
                match find_sub_from(content, crlfcrlf(), 0) {
                    Some(p) => {
                        if p > fle + 1 {
                            Some(
                                (
                                    st,
                                    spec_headers(content.subrange(fle + 2, p), 0),
                                    content.skip(p + 4),
                                ),
                            )
                        } else {
                            Some((st, Seq::empty(), content.skip(p + 4)))
                        }
                    },
                    None => Some((st, spec_headers(content.skip(fle + 2), 0), Seq::empty())),
                }
            },
        },
    }
}

/// Parses one reassembled message, carrying its capture metadata over.
#[verifier::rlimit(100)]
pub fn parse_sip_message(msg: &SipMessage) -> (r: Result<ParsedSipMessage, ParseError>)
    ensures
        match spec_parse_msg(msg.content@) {
            Some(parts) => r matches Ok(p) && p.direction == msg.direction && p.transport
                == msg.transport && p.address == msg.address && p.timestamp == msg.timestamp
                && p.frame_count == msg.frame_count && start_matches(p.message_type, parts.0)
                && headers_match(p.headers@, parts.1) && p.body@ == parts.2,
            None => r matches Err(e) && e matches ParseError::InvalidHeader(_),
        },
{
    let content: &[u8] = msg.content.as_slice();
    let n = content.len();
    proof {
        assert(content@.len() == n as int);
        lemma_find_sub_from(content@, crlf(), 0);
        lemma_find_sub_from(content@, crlfcrlf(), 0);
    }
    let crlf_v = crate::types::crlf_vec();
    let fle = match find_sub_at(content, crlf_v.as_slice(), 0) {
        None => {
            return Err(ParseError::InvalidHeader(String::from_str("no CRLF in SIP message")));
        },
        Some(x) => x,
    };
    let first_line: &[u8] = &content[0..fle];
    assert(first_line@ =~= content@.take(fle as int));
    let message_type = match parse_first_line(first_line) {
        Ok(t) => t,
        Err(e) => {
            return Err(e);
        },
    };
    let four: Vec<u8> = vec![13u8, 10u8, 13u8, 10u8];
    assert(four@ =~= crlfcrlf());
    let headers: Vec<(String, String)>;
    let mut body: Vec<u8> = Vec::new();
    match find_sub_at(content, four.as_slice(), 0) {
        Some(p) => {
            if p > fle + 1 {
                let hdr_region: &[u8] = &content[fle + 2..p];
                assert(hdr_region@ =~= content@.subrange(fle as int + 2, p as int));
                headers = parse_headers(hdr_region);
            } else {
                headers = Vec::new();
                proof {
                    assert(headers_match(
                        Seq::<(String, String)>::empty(),
                        Seq::<(Seq<u8>, Seq<u8>)>::empty(),
                    ));
                }
            }
            body.extend_from_slice(&content[p + 4..n]);
            assert(body@ =~= content@.skip(p as int + 4));
        },
        None => {
            let hdr_region: &[u8] = &content[fle + 2..n];
            assert(hdr_region@ =~= content@.skip(fle as int + 2));
            headers = parse_headers(hdr_region);
            assert(body@ =~= Seq::<u8>::empty());
        },
    }
    Ok(
        ParsedSipMessage {
            direction: msg.direction,
            transport: msg.transport,
            address: msg.address.clone(),
            timestamp: msg.timestamp,
            message_type,
            headers,
            body,
            frame_count: msg.frame_count,
        },
    )
}

impl SipMessage {
    /// Parses this message into its structured form.
    pub fn parse(&self) -> (r: Result<ParsedSipMessage, ParseError>)
        ensures
            match spec_parse_msg(self.content@) {
                Some(parts) => r matches Ok(p) && p.direction == self.direction && p.transport
                    == self.transport && p.address == self.address && p.timestamp
                    == self.timestamp && p.frame_count == self.frame_count && start_matches(
                    p.message_type,
                    parts.0,
                ) && headers_match(p.headers@, parts.1) && p.body@ == parts.2,
                None => r matches Err(e) && e matches ParseError::InvalidHeader(_),
            },
    {
        parse_sip_message(self)
    }
}

/// What parsing one reassembled message (seen as its field values) must
/// yield: the parsed fields when the content parses, an error item when
/// its start line does not.
pub open spec fn parse_outcome(r: Result<ParsedSipMessage, ParseError>, mv: MsgView) -> bool {
    match spec_parse_msg(mv.content) {
        Some(parts) => r matches Ok(p) && p.direction == mv.direction && p.transport
            == mv.transport && p.address@ == mv.address && p.timestamp == mv.timestamp
            && p.frame_count as nat == mv.frame_count && start_matches(p.message_type, parts.0)
            && headers_match(p.headers@, parts.1) && p.body@ == parts.2,
        None => r matches Err(e) && (e matches ParseError::InvalidHeader(_)),
    }
}

/// Reassembles and parses, yielding one parsed message (or error) at a
/// time.
pub struct ParsedMessageIterator {
    inner: MessageIterator,
}

impl ParsedMessageIterator {
    /// Reassembled messages not yet parsed and handed out.
    pub closed spec fn queued(&self) -> Seq<SipMessage> {
        self.inner.queued()
    }

    /// The frame input not yet consumed.
    pub closed spec fn remaining_input(&self) -> Seq<u8> {
        self.inner.remaining_input()
    }

    /// Whether the frame decoder has yielded a record yet.
    pub closed spec fn input_started(&self) -> bool {
        self.inner.input_started()
    }

    /// The reassembler's per-(direction, peer) buffers.
    pub closed spec fn bufs_model(&self) -> Seq<BufView> {
        self.inner.bufs_model()
    }

    /// Whether the frame stream has ended and the buffers were flushed.
    pub closed spec fn spec_exhausted(&self) -> bool {
        self.inner.spec_exhausted()
    }

    pub closed spec fn wf(&self) -> bool {
        self.inner.wf()
    }

    /// Starts parsing the dump `input`.
    pub fn new(input: Vec<u8>) -> (r: ParsedMessageIterator)
        ensures
            r.wf(),
            r.queued().len() == 0,
            r.remaining_input() == input@,
            !r.input_started(),
            r.bufs_model().len() == 0,
            !r.spec_exhausted(),
    {
        ParsedMessageIterator { inner: MessageIterator::new(input) }
    }

    /// The next reassembled message, parsed: exactly what the reassembler
    /// yields (the head of its queue, else `spec_mnext` of its state), put
    /// through the parser — `parse_outcome` ties each parsed message to
    /// the reassembled one it came from. Decoder errors and start lines
    /// that will not parse come out as error items.
    #[verifier::rlimit(100)]
    pub fn next(&mut self) -> (r: Option<Result<ParsedSipMessage, ParseError>>)
        requires
            old(self).wf(),
        ensures
            final(self).wf(),
            old(self).queued().len() > 0 ==> (r matches Some(rr) && parse_outcome(
                rr,
                msg_view(old(self).queued()[0]),
            ) && final(self).queued() == old(self).queued().drop_first() && final(self).remaining_input() == old(self).remaining_input() && final(self).bufs_model()
                == old(self).bufs_model() && final(self).spec_exhausted() == old(self).spec_exhausted()),
            old(self).queued().len() == 0 && old(self).spec_exhausted() ==> r is None,
            old(self).queued().len() == 0 && !old(self).spec_exhausted() ==> (match spec_mnext(
                old(self).remaining_input(),
                old(self).input_started(),
                old(self).bufs_model(),
            ) {
                MStep::MFlushed { queue } => final(self).spec_exhausted() && final(self).bufs_model().len() == 0 && (if queue.len() > 0 {
                    r matches Some(rr) && parse_outcome(rr, queue[0]) && msgs_views(
                        final(self).queued(),
                    ) == queue.drop_first()
                } else {
                    r is None && final(self).queued().len() == 0
                }),
                MStep::MItem { msg, rem, bufs, queue } => r matches Some(rr) && parse_outcome(
                    rr,
                    msg,
                ) && final(self).remaining_input() == rem && final(self).input_started() && final(self).bufs_model() == bufs && msgs_views(final(self).queued()) == queue && !final(self).spec_exhausted(),
                MStep::MErr { rem, bufs } => r matches Some(Err(e)) && (
                e matches ParseError::InvalidHeader(_)) && final(self).remaining_input() == rem
                    && final(self).bufs_model() == bufs && final(self).queued().len() == 0
                    && !final(self).spec_exhausted(),
            }),
            r is None ==> final(self).queued().len() == 0 && final(self).spec_exhausted(),
    {
        let msg = match self.inner.next() {
            None => {
                return None;
            },
            Some(Err(e)) => {
                return Some(Err(e));
            },
            Some(Ok(m)) => m,
        };
        Some(msg.parse())
    }
}

/// Two dashes, the multipart delimiter prefix./// Two dashes, the multipart delimiter prefix.
pub open spec fn dashdash() -> Seq<u8> {
    seq![45u8, 45u8]
}

/// The bytes `multipart/` in lower case.
pub open spec fn tok_multipart() -> Seq<u8> {
    seq![
        'm' as u8,
        'u' as u8,
        'l' as u8,
        't' as u8,
        'i' as u8,
        'p' as u8,
        'a' as u8,
        'r' as u8,
        't' as u8,
        '/' as u8,
    ]
}

/// The bytes `boundary=` in lower case.
pub open spec fn tok_boundary_eq() -> Seq<u8> {
    seq![
        'b' as u8,
        'o' as u8,
        'u' as u8,
        'n' as u8,
        'd' as u8,
        'a' as u8,
        'r' as u8,
        'y' as u8,
        '=' as u8,
    ]
}

/// The bytes that stand in for arbitrary bytes after a lossy decode and
/// re-encode; valid UTF-8 comes through unchanged.
pub open spec fn lossy_bytes(b: Seq<u8>) -> Seq<u8> {
    sbytes(lossy_utf8(b))
}

/// The boundary parameter of a content type: the attribute name matches
/// ignoring case; a quoted value runs to the closing quote, an unquoted
/// one to the next `;` or the end, trimmed, and must be non-empty.
pub open spec fn spec_extract_boundary(ctb: Seq<u8>) -> Option<Seq<u8>> {
    match find_sub_from(lower_bytes(ctb), tok_boundary_eq(), 0) {
        None => None,
        Some(idx) => {
            let after = ctb.skip(idx + 9);
            if after.len() > 0 && after[0] == 34 {
                match find_byte_from(after, 34, 1) {
                    None => None,
                    Some(q) => Some(after.subrange(1, q)),
                }
            } else {
                let end = (match find_byte_from(after, 59, 0) {
                    Some(e) => e,
                    None => after.len() as int,
                });
                let b = crate::types::trim_ws(after.take(end));
                if b.len() == 0 {
                    None
                } else {
                    Some(b)
                }
            }
        },
    }
}

fn tok_boundary_eq_vec() -> (v: Vec<u8>)
    ensures
        v@ == tok_boundary_eq(),
{
    let v: Vec<u8> = vec![
        'b' as u8,
        'o' as u8,
        'u' as u8,
        'n' as u8,
        'd' as u8,
        'a' as u8,
        'r' as u8,
        'y' as u8,
        '=' as u8,
    ];
    assert(v@ =~= tok_boundary_eq());
    v
}

/// Pulls the `boundary=` parameter out of a content-type value.
pub fn extract_boundary(content_type: &str) -> (r: Option<String>)
    ensures
        match spec_extract_boundary(sbytes(content_type@)) {
            Some(b) => r matches Some(s) && s@ == lossy_utf8(b),
            None => r == None::<String>,
        },
{
    let ctb: &[u8] = content_type.as_bytes();
    let n = ctb.len();
    proof {
        assert(ctb@.len() == n as int);
    }
    let lowered = crate::ascii::to_lower_vec(ctb);
    let tok = tok_boundary_eq_vec();
    proof {
        lemma_find_sub_from(lowered@, tok_boundary_eq(), 0);
    }
    let idx = match find_sub_at(lowered.as_slice(), tok.as_slice(), 0) {
        None => {
            return None;
        },
        Some(x) => x,
    };
    assert(idx + 9 <= n) by {
        assert(lowered@.len() == ctb@.len());
    }
    let after: &[u8] = &ctb[idx + 9..n];
    assert(after@ =~= ctb@.skip(idx as int + 9));
    let an = after.len();
    if an > 0 && after[0] == 34 {
        proof {
            lemma_find_byte_from(after@, 34, 1);
        }
        match find_byte_at(after, 34, 1) {
            None => None,
            Some(q) => {
                let vb: &[u8] = &after[1..q];
                assert(vb@ =~= after@.subrange(1, q as int));
                Some(bytes_to_string(vb))
            },
        }
    } else {
        proof {
            lemma_find_byte_from(after@, 59, 0);
        }
        let end = match find_byte_at(after, 59, 0) {
            Some(e) => e,
            None => an,
        };
        let head: &[u8] = &after[0..end];
        assert(head@ =~= after@.take(end as int));
        let trimmed = crate::types::trim_ws_ex(head);
        if trimmed.len() == 0 {
            None
        } else {
            Some(bytes_to_string(trimmed.as_slice()))
        }
    }
}

/// What one multipart body part parses to: headers before the blank line
/// and body after it; with no blank line, a lone line with a colon is
/// headers only, anything else is body only.
pub open spec fn spec_mime_part(data: Seq<u8>) -> (Seq<(Seq<u8>, Seq<u8>)>, Seq<u8>) {
    match find_sub_from(data, crlfcrlf(), 0) {
        Some(p) => (spec_headers(data.take(p), 0), data.skip(p + 4)),
        None => {
            let fle = (match find_sub_from(data, crlf(), 0) {
                Some(x) => x,
                None => data.len() as int,
            });
            match find_byte_from(data.take(fle), 58, 0) {
                Some(_) => (spec_headers(data, 0), Seq::empty()),
                None => (Seq::empty(), data),
            }
        },
    }
}

/// How a parsed part relates to its wire form.
pub open spec fn part_matches(p: MimePart, sp: (Seq<(Seq<u8>, Seq<u8>)>, Seq<u8>)) -> bool {
    headers_match(p.headers@, sp.0) && p.body@ == sp.1
}

/// Parses one part of a multipart body.
pub fn parse_mime_part(data: &[u8]) -> (r: MimePart)
    ensures
        part_matches(r, spec_mime_part(data@)),
{
    let n = data.len();
    proof {
        assert(data@.len() == n as int);
        lemma_find_sub_from(data@, crlfcrlf(), 0);
        lemma_find_sub_from(data@, crlf(), 0);
    }
    let four: Vec<u8> = vec![13u8, 10u8, 13u8, 10u8];
    assert(four@ =~= crlfcrlf());
    match find_sub_at(data, four.as_slice(), 0) {
        Some(p) => {
            let hdr_region: &[u8] = &data[0..p];
            assert(hdr_region@ =~= data@.take(p as int));
            let headers = parse_headers(hdr_region);
            let mut body: Vec<u8> = Vec::new();
            body.extend_from_slice(&data[p + 4..n]);
            assert(body@ =~= data@.skip(p as int + 4));
            MimePart { headers, body }
        },
        None => {
            let crlf_v = crate::types::crlf_vec();
            let fle = match find_sub_at(data, crlf_v.as_slice(), 0) {
                Some(x) => x,
                None => n,
            };
            let first_line: &[u8] = &data[0..fle];
            assert(first_line@ =~= data@.take(fle as int));
            proof {
                lemma_find_byte_from(first_line@, 58, 0);
            }
            match find_byte_at(first_line, 58, 0) {
                Some(_) => {
                    let headers = parse_headers(data);
                    MimePart { headers, body: Vec::new() }
                },
                None => {
                    let mut body: Vec<u8> = Vec::new();
                    body.extend_from_slice(&data[0..n]);
                    assert(body@ =~= data@);
                    proof {
                        assert(headers_match(
                            Seq::<(String, String)>::empty(),
                            Seq::<(Seq<u8>, Seq<u8>)>::empty(),
                        ));
                    }
                    MimePart { headers: Vec::new(), body }
                },
            }
        },
    }
}

/// The raw byte slices of the parts between delimiters, from `pos` on:
/// each runs to the next delimiter, shedding one CR LF just before it.
pub open spec fn spec_parts_from(body: Seq<u8>, delim: Seq<u8>, pos: int) -> Seq<Seq<u8>>
    decreases body.len() - pos when 0 <= pos && delim.len() >= 2 via spec_parts_from_dec
{
    match find_sub_from(body, delim, pos) {
        None => Seq::empty(),
        Some(nx) => {
            let e0 = if nx >= 2 && body[nx - 2] == 13 && body[nx - 1] == 10 {
                nx - 2
            } else {
                nx
            };
            let e = if e0 >= pos {
                e0
            } else {
                pos
            };
            let part = body.subrange(pos, e);
            let pos2 = nx + delim.len();
            if match_at(body, dashdash(), pos2) {
                seq![part]
            } else {
                let pos3 = if match_at(body, crate::types::crlf(), pos2) {
                    pos2 + 2
                } else {
                    pos2
                };
                seq![part] + spec_parts_from(body, delim, pos3)
            }
        },
    }
}

#[via_fn]
proof fn spec_parts_from_dec(body: Seq<u8>, delim: Seq<u8>, pos: int) {
    if 0 <= pos && delim.len() >= 2 {
        lemma_find_sub_from(body, delim, pos);
    }
}

/// The raw byte slices of every part of a multipart body delimited by
/// `delim` (`--` plus the boundary): nothing before the first delimiter
/// counts, and a doubled dash right after a delimiter closes the body.
pub open spec fn spec_part_slices(body: Seq<u8>, delim: Seq<u8>) -> Seq<Seq<u8>> {
    match find_sub_from(body, delim, 0) {
        None => Seq::empty(),
        Some(p0) => {
            let pos = p0 + delim.len();
            if match_at(body, dashdash(), pos) {
                Seq::empty()
            } else {
                let pos2 = if match_at(body, crate::types::crlf(), pos) {
                    pos + 2
                } else {
                    pos
                };
                spec_parts_from(body, delim, pos2)
            }
        },
    }
}

/// Splits a multipart body at its boundary delimiters and parses each
/// part.
#[verifier::rlimit(100)]
pub fn parse_multipart_body(body: &[u8], boundary: &str) -> (r: Vec<MimePart>)
    ensures
        ({
            let slices = spec_part_slices(body@, dashdash() + sbytes(boundary@));
            r@.len() == slices.len() && (forall|i: int|
                0 <= i < slices.len() ==> part_matches(#[trigger] r@[i], spec_mime_part(slices[i])))
        }),
{
    let mut delim: Vec<u8> = vec![45u8, 45u8];
    delim.extend_from_slice(boundary.as_bytes());
    let ghost dl = dashdash() + sbytes(boundary@);
    assert(delim@ =~= dl);
    let ghost slices_all = spec_part_slices(body@, dl);
    let n = body.len();
    proof {
        assert(body@.len() == n as int);
        lemma_find_sub_from(body@, dl, 0);
    }
    let mut parts: Vec<MimePart> = Vec::new();
    let p0 = match find_sub_at(body, delim.as_slice(), 0) {
        None => {
            return parts;
        },
        Some(x) => x,
    };
    let mut pos = p0 + delim.len();
    let dd: Vec<u8> = vec![45u8, 45u8];
    assert(dd@ =~= dashdash());
    if starts_with_at(body, dd.as_slice(), pos) {
        return parts;
    }
    let crlf_v = crate::types::crlf_vec();
    if starts_with_at(body, crlf_v.as_slice(), pos) {
        pos = pos + 2;
    }
    let ghost mut done: Seq<Seq<u8>> = Seq::empty();
    assert(slices_all == done + spec_parts_from(body@, dl, pos as int));
    loop
        invariant_except_break
            slices_all == done + spec_parts_from(body@, dl, pos as int),
        invariant
            pos <= n,
            body@.len() == n as int,
            delim@ == dl,
            dd@ == dashdash(),
            crlf_v@ == crlf(),
            dl.len() >= 2,
            parts@.len() == done.len(),
            forall|i: int|
                0 <= i < done.len() ==> part_matches(#[trigger] parts@[i], spec_mime_part(done[i])),
            slices_all == spec_part_slices(body@, dl),
        ensures
            slices_all == done,
            parts@.len() == done.len(),
            forall|i: int|
                0 <= i < done.len() ==> part_matches(#[trigger] parts@[i], spec_mime_part(done[i])),
        decreases n - pos,
    {
        proof {
            lemma_find_sub_from(body@, dl, pos as int);
        }
        match find_sub_at(body, delim.as_slice(), pos) {
            None => {
                assert(spec_parts_from(body@, dl, pos as int) =~= Seq::<Seq<u8>>::empty());
                assert(slices_all =~= done);
                break;
            },
            Some(nx) => {
                let e0 = if nx >= 2 && body[nx - 2] == 13 && body[nx - 1] == 10 {
                    nx - 2
                } else {
                    nx
                };
                let e = if e0 >= pos {
                    e0
                } else {
                    pos
                };
                let part_data: &[u8] = &body[pos..e];
                assert(part_data@ =~= body@.subrange(pos as int, e as int));
                let part = parse_mime_part(part_data);
                parts.push(part);
                proof {
                    done = done + seq![body@.subrange(pos as int, e as int)];
                }
                let pos2 = nx + delim.len();
                if starts_with_at(body, dd.as_slice(), pos2) {
                    proof {
                        assert(spec_parts_from(body@, dl, pos as int) =~= seq![
                            body@.subrange(pos as int, e as int),
                        ]);
                        assert(slices_all =~= done);
                    }
                    break;
                }
                let new_pos = if starts_with_at(body, crlf_v.as_slice(), pos2) {
                    pos2 + 2
                } else {
                    pos2
                };
                proof {
                    assert(spec_parts_from(body@, dl, pos as int) =~= seq![
                        body@.subrange(pos as int, e as int),
                    ] + spec_parts_from(body@, dl, new_pos as int));
                    assert(slices_all =~= done + spec_parts_from(body@, dl, new_pos as int));
                }
                pos = new_pos;
            },
        }
    }
    parts
}

impl ParsedSipMessage {
    /// Whether the content type declares a multipart body.
    pub fn is_multipart(&self) -> (r: bool)
        ensures
            r == (match lookup_header_alias(
                header_bytes(self.headers@),
                sbytes("Content-Type"@),
                sbytes("c"@),
            ) {
                Some(v) => match_at(lower_bytes(v), tok_multipart(), 0),
                None => false,
            }),
    {
        match self.content_type() {
            None => false,
            Some(ct) => {
                let ctb: &[u8] = ct.as_str().as_bytes();
                let lowered = crate::ascii::to_lower_vec(ctb);
                let tok: Vec<u8> = vec![
                    'm' as u8,
                    'u' as u8,
                    'l' as u8,
                    't' as u8,
                    'i' as u8,
                    'p' as u8,
                    'a' as u8,
                    'r' as u8,
                    't' as u8,
                    '/' as u8,
                ];
                assert(tok@ =~= tok_multipart());
                starts_with_at(lowered.as_slice(), tok.as_slice(), 0)
            },
        }
    }

    /// The multipart boundary named by the content type, if any.
    pub fn multipart_boundary(&self) -> (r: Option<String>)
        ensures
            match lookup_header_alias(
                header_bytes(self.headers@),
                sbytes("Content-Type"@),
                sbytes("c"@),
            ) {
                Some(v) => (match spec_extract_boundary(v) {
                    Some(b) => r matches Some(s) && s@ == lossy_utf8(b),
                    None => r == None::<String>,
                }),
                None => r == None::<String>,
            },
    {
        match self.content_type() {
            None => None,
            Some(ct) => extract_boundary(ct.as_str()),
        }
    }

    /// The parts of a multipart body; `None` without a boundary.
    pub fn body_parts(&self) -> (r: Option<Vec<MimePart>>)
        ensures
            match lookup_header_alias(
                header_bytes(self.headers@),
                sbytes("Content-Type"@),
                sbytes("c"@),
            ) {
                Some(v) => (match spec_extract_boundary(v) {
                    Some(b) => (r matches Some(parts) && ({
                        let slices = spec_part_slices(
                            self.body@,
                            dashdash() + lossy_bytes(b),
                        );
                        parts@.len() == slices.len() && (forall|i: int|
                            0 <= i < slices.len() ==> part_matches(
                                #[trigger] parts@[i],
                                spec_mime_part(slices[i]),
                            ))
                    })),
                    None => r == None::<Vec<MimePart>>,
                }),
                None => r == None::<Vec<MimePart>>,
            },
    {
        match self.multipart_boundary() {
            None => None,
            Some(b) => Some(parse_multipart_body(self.body.as_slice(), b.as_str())),
        }
    }
}

/// Classification, request side: a message whose content opens with one of
/// the fourteen recognised method tokens and parses at all parses to a
/// request whose method is exactly that token, without its trailing space.
pub proof fn lemma_recognised_method_classifies(content: Seq<u8>, k: int)
    requires
        0 <= k < 14,
        match_at(content, spec_method_tok(k), 0),
        spec_parse_msg(content) matches Some(parts),
    ensures
        spec_parse_msg(content) matches Some(parts) && parts.0 matches SpecStart::Req {
            method,
            ..
        } && method == spec_method_tok(k).take(spec_method_tok(k).len() - 1),
{
    let tok = spec_method_tok(k);
    lemma_method_tok_shape(k);
    assert(forall|j: int| 0 <= j < tok.len() ==> content[j] == #[trigger] tok[j]) by {
        assert(forall|j: int|
            0 <= j < tok.len() ==> #[trigger] content.subrange(0, tok.len() as int)[j]
                == content[j]);
    }
    lemma_find_sub_from(content, crlf(), 0);
    let fle = (match find_sub_from(content, crlf(), 0) {
        Some(x) => x,
        None => -1,
    });
    assert(fle >= 0);
    // The line cannot end inside the method: the token holds no CR.
    assert(fle >= tok.len() - 1) by {
        if fle < tok.len() - 1 {
            assert(content.subrange(fle, fle + 2)[0] == content[fle]);
            assert(content[fle] == 13);
        }
    }
    let line = content.take(fle);
    // Not a response: `SIP/2.0 ` differs from every method token in its
    // first two bytes.
    assert(!match_at(line, tok_sip_resp(), 0)) by {
        if match_at(line, tok_sip_resp(), 0) {
            assert(line.subrange(0, 8)[0] == line[0]);
            assert(line.subrange(0, 8)[1] == line[1]);
            assert(line[0] == 'S' as u8 && line[1] == 'I' as u8);
            assert(content[0] == tok[0] && content[1] == tok[1]);
        }
    }
    lemma_find_byte_from(line, 32, 0);
    match find_byte_from(line, 32, 0) {
        None => {
            assert(spec_parse_start(line) == None::<SpecStart>);
        },
        Some(fs) => {
            // The first space is exactly the one that ends the token.
            assert(fs == tok.len() - 1) by {
                if fs < tok.len() - 1 {
                    assert(line[fs] == tok[fs]);
                } else if fs > tok.len() - 1 {
                    if tok.len() - 1 < line.len() {
                        assert(line[tok.len() - 1] == 32);
                    }
                }
            }
            assert(line.take(fs) =~= tok.take(tok.len() - 1));
        },
    }
}

/// Classification, response side: a message whose content opens with
/// `SIP/2.0 ` and parses at all parses to a response.
pub proof fn lemma_response_classifies(content: Seq<u8>)
    requires
        match_at(content, tok_sip_resp(), 0),
        spec_parse_msg(content) matches Some(parts),
    ensures
        spec_parse_msg(content) matches Some(parts) && parts.0 matches SpecStart::Resp { .. },
{
    let tok = tok_sip_resp();
    assert(forall|j: int| 0 <= j < tok.len() ==> content[j] == #[trigger] tok[j]) by {
        assert(forall|j: int|
            0 <= j < tok.len() ==> #[trigger] content.subrange(0, tok.len() as int)[j]
                == content[j]);
    }
    lemma_find_sub_from(content, crlf(), 0);
    let fle = (match find_sub_from(content, crlf(), 0) {
        Some(x) => x,
        None => -1,
    });
    assert(fle >= 0);
    assert(fle >= tok.len()) by {
        if fle < tok.len() {
            assert(content.subrange(fle, fle + 2)[0] == content[fle]);
            assert(content[fle] == 13);
            assert(content[fle] == tok[fle]);
        }
    }
    let line = content.take(fle);
    assert(match_at(line, tok_sip_resp(), 0)) by {
        assert(line.subrange(0, 8) =~= tok);
    }
}

/// Round trip of the start line: rendering a parsed start line back to its
/// wire form and parsing that line again gives the same classification and
/// the same fields. A request's method must hold no space and must not be
/// the literal protocol version; nothing is required of the URI, the code
/// or the reason.
pub proof fn lemma_start_line_round_trip(t: SipMessageType)
    requires
        t matches SipMessageType::Request { method, .. } ==> (forall|j: int|
            0 <= j < sbytes(method@).len() ==> #[trigger] sbytes(method@)[j] != 32) && sbytes(
            method@,
        ) != tok_sip_version(),
    ensures
        match t {
            SipMessageType::Request { method, uri } => spec_parse_start(
                crate::types::spec_start_line_bytes(t),
            ) matches Some(st) && st matches SpecStart::Req { method: m, uri: u } && m == sbytes(
                method@,
            ) && u == sbytes(uri@),
            SipMessageType::Response { code, reason } => spec_parse_start(
                crate::types::spec_start_line_bytes(t),
            ) matches Some(st) && st matches SpecStart::Resp { code: c, reason: re } && c == code
                && re == sbytes(reason@),
        },
{
    let line = crate::types::spec_start_line_bytes(t);
    match t {
        SipMessageType::Request { method, uri } => {
            let mb = sbytes(method@);
            let ub = sbytes(uri@);
            let vt = tok_sip_version();
            assert(line =~= mb + seq![32u8] + ub + seq![32u8] + vt);
            assert(line.len() == mb.len() + 1 + ub.len() + 1 + vt.len());
            assert(forall|j: int| 0 <= j < mb.len() ==> line[j] == #[trigger] mb[j]);
            assert(line[mb.len() as int] == 32);
            // Not a response line.
            assert(!match_at(line, tok_sip_resp(), 0)) by {
                if match_at(line, tok_sip_resp(), 0) {
                    assert(forall|j: int|
                        0 <= j < 8 ==> line[j] == #[trigger] tok_sip_resp()[j]) by {
                        assert(forall|j: int|
                            0 <= j < 8 ==> #[trigger] line.subrange(0, 8)[j] == line[j]);
                    }
                    if mb.len() < 7 {
                        assert(line[mb.len() as int] == 32);
                        assert(tok_sip_resp()[mb.len() as int] != 32);
                    } else if mb.len() == 7 {
                        assert(mb =~= vt);
                    } else {
                        assert(line[7] == mb[7]);
                        assert(mb[7] != 32);
                        assert(tok_sip_resp()[7] == 32);
                    }
                }
            }
            lemma_find_byte_from(line, 32, 0);
            let fs = (match find_byte_from(line, 32, 0) {
                Some(x) => x,
                None => -1,
            });
            assert(fs >= 0);
            assert(fs == mb.len()) by {
                if fs < mb.len() {
                    assert(line[fs] == mb[fs]);
                } else if fs > mb.len() {
                    assert(line[mb.len() as int] == 32);
                }
            }
            let rest = line.skip(fs + 1);
            assert(rest =~= ub + seq![32u8] + vt);
            lemma_rfind_byte_before(rest, 32, rest.len() as int);
            let ls = (match rfind_byte_before(rest, 32, rest.len() as int) {
                Some(x) => x,
                None => -1,
            });
            assert(rest[ub.len() as int] == 32);
            assert(ls >= 0);
            assert(ls == ub.len()) by {
                if ls > ub.len() {
                    assert(rest[ls] == vt[ls - ub.len() - 1]);
                    assert(forall|j: int| 0 <= j < 7 ==> #[trigger] vt[j] != 32);
                } else if ls < ub.len() {
                    assert(rest[ub.len() as int] == 32);
                }
            }
            assert(rest.skip(ls + 1) =~= vt);
            assert(line.take(fs) =~= mb);
            assert(rest.take(ls) =~= ub);
        },
        SipMessageType::Response { code, reason } => {
            let d = crate::ascii::dec_digits(code as nat);
            let rb = sbytes(reason@);
            let vt = tok_sip_version();
            crate::ascii::lemma_dec_digits(code as nat);
            assert(line =~= vt + seq![32u8] + d + seq![32u8] + rb);
            assert(match_at(line, tok_sip_resp(), 0)) by {
                assert(line.subrange(0, 8) =~= tok_sip_resp());
            }
            lemma_find_byte_from(line, 32, 8);
            let sp = (match find_byte_from(line, 32, 8) {
                Some(x) => x,
                None => -1,
            });
            assert(line[8 + d.len() as int] == 32);
            assert(sp >= 0);
            assert(sp == 8 + d.len()) by {
                if sp < 8 + d.len() {
                    assert(line[sp] == d[sp - 8]);
                    assert(crate::ascii::is_digit(d[sp - 8]));
                } else if sp > 8 + d.len() {
                    assert(line[8 + d.len() as int] == 32);
                }
            }
            assert(line.subrange(8, sp) =~= d);
            assert(crate::ascii::spec_dec_std(d, u16::MAX as nat) == Some(code as nat)) by {
                assert(d[0] != 43) by {
                    assert(crate::ascii::is_digit(d[0]));
                }
            }
            assert(line.skip(sp + 1) =~= rb);
        },
    }
}

proof fn lemma_line_end_shift(d: Seq<u8>, pos: int, e: int)
    requires
        0 <= pos <= e <= d.len(),
    ensures
        line_end_from(d, e) == pos + line_end_from(d.skip(pos), e - pos),
{
    lemma_find_sub_shift(d, crlf(), e);
    lemma_find_sub_shift(d.skip(pos), crlf(), e - pos);
    assert(d.skip(pos).subrange(e - pos, d.skip(pos).len() as int) =~= d.subrange(
        e,
        d.len() as int,
    ));
}

proof fn lemma_fold_end_shift(d: Seq<u8>, pos: int, e: int)
    requires
        0 <= pos <= e <= d.len(),
    ensures
        fold_end(d, e) == pos + fold_end(d.skip(pos), e - pos),
    decreases d.len() + 2 - e,
{
    let nxt = e + 2;
    if nxt < d.len() && is_lws(d[nxt]) {
        assert(d.skip(pos)[nxt - pos] == d[nxt]);
        lemma_line_end_shift(d, pos, nxt);
        lemma_find_sub_from(d, crlf(), nxt);
        let le = line_end_from(d, nxt);
        assert(nxt <= le <= d.len()) by {
            match find_sub_from(d, crlf(), nxt) {
                Some(x) => {},
                None => {},
            }
        }
        lemma_fold_end_shift(d, pos, le);
    } else {
        if nxt - pos < d.skip(pos).len() {
            assert(d.skip(pos)[nxt - pos] == d[nxt]);
        }
    }
}

/// The header scan reads only the suffix it stands on.
proof fn lemma_spec_headers_skip(d: Seq<u8>, pos: int)
    requires
        0 <= pos <= d.len(),
    ensures
        spec_headers(d, pos) == spec_headers(d.skip(pos), 0),
    decreases d.len() + 2 - pos,
{
    let t = d.skip(pos);
    if pos >= d.len() {
        assert(t.len() == 0);
    } else {
        lemma_line_end_shift(d, pos, pos);
        let le = line_end_from(d, pos);
        lemma_find_sub_from(d, crlf(), pos);
        assert(pos <= le <= d.len()) by {
            match find_sub_from(d, crlf(), pos) {
                Some(x) => {},
                None => {},
            }
        }
        lemma_fold_end_shift(d, pos, le);
        let fe = fold_end(d, le);
        lemma_fold_end_bounds(d, le);
        assert(d.subrange(pos, fe) =~= t.subrange(0, fe - pos));
        if fe + 2 <= d.len() {
            lemma_spec_headers_skip(d, fe + 2);
            assert(d.skip(fe + 2) =~= t.skip(fe - pos + 2));
            lemma_spec_headers_skip(t, fe - pos + 2);
        } else {
            assert(spec_headers(d, fe + 2) =~= Seq::<(Seq<u8>, Seq<u8>)>::empty());
            assert(spec_headers(t, fe - pos + 2) =~= Seq::<(Seq<u8>, Seq<u8>)>::empty());
        }
    }
}

/// When a header pair survives the round trip: the name holds no colon and
/// no line break and does not open with a blank; the value holds no line
/// break and does not open with a blank (rendering writes one blank of its
/// own, and reparsing trims exactly that).
pub open spec fn wf_header_pair(p: (Seq<u8>, Seq<u8>)) -> bool {
    &&& (forall|j: int|
        0 <= j < p.0.len() ==> #[trigger] p.0[j] != 58 && p.0[j] != 13 && p.0[j] != 10)
    &&& (forall|j: int| 0 <= j < p.1.len() ==> #[trigger] p.1[j] != 13 && p.1[j] != 10)
    &&& (p.0.len() > 0 ==> !is_lws(p.0[0]))
    &&& (p.1.len() > 0 ==> !is_lws(p.1[0]))
}

/// Round trip of the header list: rendering headers as `name: value` lines
/// and scanning the rendered region again yields the same pairs, in the
/// same order, duplicates included.
pub proof fn lemma_headers_round_trip(hb: Seq<(Seq<u8>, Seq<u8>)>)
    requires
        forall|i: int| 0 <= i < hb.len() ==> wf_header_pair(#[trigger] hb[i]),
    ensures
        spec_headers(crate::types::spec_header_lines(hb), 0) == hb,
    decreases hb.len(),
{
    let d = crate::types::spec_header_lines(hb);
    if hb.len() == 0 {
        assert(d.len() == 0);
        assert(spec_headers(d, 0) =~= hb);
    } else {
        let n = hb[0].0;
        let v = hb[0].1;
        assert(wf_header_pair(hb[0]));
        let line0 = n + seq![58u8, 32u8] + v;
        let d1 = crate::types::spec_header_lines(hb.drop_first());
        assert(d =~= line0 + crlf() + d1);
        let ll = line0.len() as int;
        assert(ll == n.len() + 2 + v.len());
        assert(forall|j: int| 0 <= j < ll ==> #[trigger] line0[j] != 13 && line0[j] != 10) by {
            assert(forall|j: int| 0 <= j < n.len() ==> #[trigger] line0[j] == n[j]);
            assert(line0[n.len() as int] == 58);
            assert(line0[n.len() as int + 1] == 32);
            assert(forall|j: int|
                n.len() + 2 <= j < ll ==> #[trigger] line0[j] == v[j - n.len() - 2]);
        }
        assert(forall|j: int| 0 <= j < ll ==> #[trigger] d[j] == line0[j]);
        assert(d[ll] == 13 && d[ll + 1] == 10);
        // The first physical line ends exactly at the rendered line's end.
        lemma_find_sub_from(d, crlf(), 0);
        assert(match_at(d, crlf(), ll)) by {
            assert(d.subrange(ll, ll + 2) =~= crlf());
        }
        assert(forall|j: int| 0 <= j < ll ==> !#[trigger] match_at(d, crlf(), j)) by {
            assert(forall|j: int|
                0 <= j < ll && j + 2 <= d.len() ==> #[trigger] d.subrange(j, j + 2)[0] == d[j]);
        }
        let le = line_end_from(d, 0);
        assert(le == ll) by {
            match find_sub_from(d, crlf(), 0) {
                Some(i) => {
                    if i < ll {
                        assert(match_at(d, crlf(), i));
                    }
                    if i > ll {
                        assert(!match_at(d, crlf(), ll));
                    }
                },
                None => {
                    assert(!match_at(d, crlf(), ll));
                },
            }
        }
        // No folded continuation: the next line opens with a name byte (or
        // its colon), never a blank.
        let nxt = ll + 2;
        if nxt < d.len() {
            assert(d1.len() > 0);
            assert(hb.drop_first().len() > 0);
            let p1 = hb.drop_first()[0];
            assert(wf_header_pair(hb[1]));
            assert(p1 == hb[1]);
            let line1 = p1.0 + seq![58u8, 32u8] + p1.1;
            assert(d1 =~= line1 + crlf() + crate::types::spec_header_lines(
                hb.drop_first().drop_first(),
            ));
            assert(d[nxt] == d1[0]);
            if p1.0.len() == 0 {
                assert(d1[0] == 58);
            } else {
                assert(d1[0] == p1.0[0]);
            }
            assert(!is_lws(d[nxt]));
        }
        let fe = fold_end(d, le);
        assert(fe == ll);
        let line = d.subrange(0, fe);
        assert(line =~= line0);
        // The pair cut from the line is the pair that rendered it.
        lemma_find_byte_from(line0, 58, 0);
        assert(line0[n.len() as int] == 58);
        assert(forall|j: int| 0 <= j < n.len() ==> #[trigger] line0[j] != 58);
        let c = (match find_byte_from(line0, 58, 0) {
            Some(x) => x,
            None => -1,
        });
        assert(c == n.len());
        assert(c + 1 < ll);
        assert(line0.take(c) =~= n);
        let after = line0.skip(c + 1);
        assert(after =~= seq![32u8] + v);
        assert(after[0] == 32);
        assert(skip_lws(after, 0) == 1) by {
            assert(is_lws(after[0]));
            if after.len() > 1 {
                assert(v.len() > 0);
                assert(after[1] == v[0]);
                assert(!is_lws(v[0]));
                assert(!is_lws(after[1]));
                assert(skip_lws(after, 1) == 1);
            } else {
                assert(after.len() == 1);
                assert(skip_lws(after, 1) == 1);
            }
        }
        assert(spec_trim_leading(after) =~= v);
        assert(spec_header_pair(line0) == Some((n, v)));
        // The remaining lines reparse by induction.
        assert(forall|i: int|
            0 <= i < hb.drop_first().len() ==> wf_header_pair(#[trigger] hb.drop_first()[i]));
        lemma_headers_round_trip(hb.drop_first());
        lemma_spec_headers_skip(d, fe + 2);
        assert(d.skip(fe + 2) =~= d1);
        assert(spec_headers(d, 0) =~= seq![(n, v)] + hb.drop_first());
        assert(spec_headers(d, 0) =~= hb);
    }
}

/// Shape of a rendered header region: it ends with CR LF, and every CR in
/// it heads a CR LF pair that is followed by the start of a line (never
/// another CR) or by the region's end.
proof fn lemma_header_lines_shape(hb: Seq<(Seq<u8>, Seq<u8>)>)
    requires
        hb.len() > 0,
        forall|i: int| 0 <= i < hb.len() ==> wf_header_pair(#[trigger] hb[i]),
    ensures
        ({
            let h = crate::types::spec_header_lines(hb);
            h.len() >= 4 && h[h.len() - 2] == 13 && h[h.len() - 1] == 10 && (forall|j: int|
                0 <= j < h.len() && #[trigger] h[j] == 13 ==> j + 2 <= h.len() && h[j + 1] == 10
                    && (j + 2 == h.len() || h[j + 2] != 13))
        }),
    decreases hb.len(),
{
    let h = crate::types::spec_header_lines(hb);
    let n = hb[0].0;
    let v = hb[0].1;
    assert(wf_header_pair(hb[0]));
    let line0 = n + seq![58u8, 32u8] + v;
    let ll = line0.len() as int;
    let d1 = crate::types::spec_header_lines(hb.drop_first());
    assert(h =~= line0 + crlf() + d1);
    assert(forall|j: int| 0 <= j < ll ==> #[trigger] line0[j] != 13 && line0[j] != 10) by {
        assert(forall|j: int| 0 <= j < n.len() ==> #[trigger] line0[j] == n[j]);
        assert(line0[n.len() as int] == 58);
        assert(line0[n.len() as int + 1] == 32);
        assert(forall|j: int|
            n.len() + 2 <= j < ll ==> #[trigger] line0[j] == v[j - n.len() - 2]);
    }
    if hb.len() == 1 {
        assert(d1.len() == 0);
        assert(h =~= line0 + crlf());
        assert(forall|j: int|
            0 <= j < h.len() && #[trigger] h[j] == 13 ==> j == ll);
    } else {
        assert(forall|i: int|
            0 <= i < hb.drop_first().len() ==> wf_header_pair(#[trigger] hb.drop_first()[i]));
        lemma_header_lines_shape(hb.drop_first());
        let p1 = hb.drop_first()[0];
        let line1 = p1.0 + seq![58u8, 32u8] + p1.1;
        assert(d1 =~= line1 + crlf() + crate::types::spec_header_lines(
            hb.drop_first().drop_first(),
        ));
        assert(d1[0] != 13) by {
            if p1.0.len() == 0 {
                assert(d1[0] == 58);
            } else {
                assert(d1[0] == p1.0[0]);
                assert(wf_header_pair(hb.drop_first()[0]));
            }
        }
        assert(h.len() == ll + 2 + d1.len());
        assert(h[h.len() - 2] == d1[d1.len() - 2] && h[h.len() - 1] == d1[d1.len() - 1]);
        assert(forall|j: int|
            0 <= j < h.len() && #[trigger] h[j] == 13 ==> j + 2 <= h.len() && h[j + 1] == 10 && (
            j + 2 == h.len() || h[j + 2] != 13)) by {
            assert(forall|j: int| 0 <= j < ll ==> #[trigger] h[j] == line0[j]);
            assert(h[ll] == 13 && h[ll + 1] == 10 && h[ll + 2] == d1[0]);
            assert(forall|j: int|
                ll + 2 <= j < h.len() ==> #[trigger] h[j] == d1[j - ll - 2]);
        }
    }
}

/// As `lemma_headers_round_trip`, for the rendered region with its final
/// CR LF cut off — the shape the blank-line split hands the header scan.
proof fn lemma_headers_round_trip_trunc(hb: Seq<(Seq<u8>, Seq<u8>)>)
    requires
        hb.len() > 0,
        forall|i: int| 0 <= i < hb.len() ==> wf_header_pair(#[trigger] hb[i]),
    ensures
        ({
            let h = crate::types::spec_header_lines(hb);
            h.len() >= 2 && spec_headers(h.take(h.len() - 2), 0) == hb
        }),
    decreases hb.len(),
{
    let h = crate::types::spec_header_lines(hb);
    let n = hb[0].0;
    let v = hb[0].1;
    assert(wf_header_pair(hb[0]));
    let line0 = n + seq![58u8, 32u8] + v;
    let ll = line0.len() as int;
    let d1 = crate::types::spec_header_lines(hb.drop_first());
    assert(h =~= line0 + crlf() + d1);
    let d = h.take(h.len() - 2);
    assert(forall|j: int| 0 <= j < ll ==> #[trigger] line0[j] != 13 && line0[j] != 10) by {
        assert(forall|j: int| 0 <= j < n.len() ==> #[trigger] line0[j] == n[j]);
        assert(line0[n.len() as int] == 58);
        assert(line0[n.len() as int + 1] == 32);
        assert(forall|j: int|
            n.len() + 2 <= j < ll ==> #[trigger] line0[j] == v[j - n.len() - 2]);
    }
    // The pair cut from the first line is the pair that rendered it, as
    // in the full-region round trip.
    lemma_find_byte_from(line0, 58, 0);
    assert(line0[n.len() as int] == 58);
    assert(forall|j: int| 0 <= j < n.len() ==> #[trigger] line0[j] != 58);
    let c = (match find_byte_from(line0, 58, 0) {
        Some(x) => x,
        None => -1,
    });
    assert(c == n.len());
    assert(c + 1 < ll);
    assert(line0.take(c) =~= n);
    let after = line0.skip(c + 1);
    assert(after =~= seq![32u8] + v);
    assert(skip_lws(after, 0) == 1) by {
        assert(is_lws(after[0]));
        if after.len() > 1 {
            assert(v.len() > 0);
            assert(after[1] == v[0]);
            assert(!is_lws(after[1]));
            assert(skip_lws(after, 1) == 1);
        } else {
            assert(skip_lws(after, 1) == 1);
        }
    }
    assert(spec_trim_leading(after) =~= v);
    assert(spec_header_pair(line0) == Some((n, v)));
    if hb.len() == 1 {
        assert(d1.len() == 0);
        assert(d =~= line0);
        lemma_find_sub_from(d, crlf(), 0);
        assert(forall|j: int| 0 <= j < d.len() ==> !#[trigger] match_at(d, crlf(), j)) by {
            assert(forall|j: int|
                0 <= j < d.len() && j + 2 <= d.len() ==> #[trigger] d.subrange(j, j + 2)[0]
                    == d[j]);
        }
        let le = line_end_from(d, 0);
        assert(le == d.len()) by {
            match find_sub_from(d, crlf(), 0) {
                Some(i) => {
                    assert(match_at(d, crlf(), i));
                },
                None => {},
            }
        }
        assert(fold_end(d, le) == le);
        assert(d.subrange(0, le) =~= line0);
        assert(spec_headers(d, le + 2) =~= Seq::<(Seq<u8>, Seq<u8>)>::empty());
        assert(spec_headers(d, 0) =~= seq![(n, v)]);
        assert(spec_headers(d, 0) =~= hb);
    } else {
        assert(forall|i: int|
            0 <= i < hb.drop_first().len() ==> wf_header_pair(#[trigger] hb.drop_first()[i]));
        lemma_headers_round_trip_trunc(hb.drop_first());
        assert(d1.len() >= 2);
        assert(d =~= line0 + crlf() + d1.take(d1.len() - 2));
        assert(forall|j: int| 0 <= j < ll ==> #[trigger] d[j] == line0[j]);
        assert(d[ll] == 13 && d[ll + 1] == 10);
        lemma_find_sub_from(d, crlf(), 0);
        assert(match_at(d, crlf(), ll)) by {
            assert(d.subrange(ll, ll + 2) =~= crlf());
        }
        assert(forall|j: int| 0 <= j < ll ==> !#[trigger] match_at(d, crlf(), j)) by {
            assert(forall|j: int|
                0 <= j < ll && j + 2 <= d.len() ==> #[trigger] d.subrange(j, j + 2)[0] == d[j]);
        }
        let le = line_end_from(d, 0);
        assert(le == ll) by {
            match find_sub_from(d, crlf(), 0) {
                Some(i) => {
                    if i < ll {
                        assert(match_at(d, crlf(), i));
                    }
                    if i > ll {
                        assert(!match_at(d, crlf(), ll));
                    }
                },
                None => {
                    assert(!match_at(d, crlf(), ll));
                },
            }
        }
        let nxt = ll + 2;
        assert(nxt < d.len());
        let p1 = hb.drop_first()[0];
        assert(wf_header_pair(hb[1]));
        assert(p1 == hb[1]);
        let line1 = p1.0 + seq![58u8, 32u8] + p1.1;
        assert(d1 =~= line1 + crlf() + crate::types::spec_header_lines(
            hb.drop_first().drop_first(),
        ));
        assert(d[nxt] == d1[0]);
        if p1.0.len() == 0 {
            assert(d1[0] == 58);
        } else {
            assert(d1[0] == p1.0[0]);
        }
        assert(!is_lws(d[nxt]));
        let fe = fold_end(d, le);
        assert(fe == ll);
        assert(d.subrange(0, fe) =~= line0);
        lemma_spec_headers_skip(d, fe + 2);
        assert(d.skip(fe + 2) =~= d1.take(d1.len() - 2));
        assert(spec_headers(d, 0) =~= seq![(n, v)] + hb.drop_first());
        assert(spec_headers(d, 0) =~= hb);
    }
}

/// When a parsed message survives the full round trip: the request method
/// holds no space and no line break and is not the bare protocol version;
/// the URI and reason phrase hold no line break; and every header pair is
/// well-formed in the sense of `wf_header_pair`. The body is arbitrary.
pub open spec fn wf_round_trip(p: ParsedSipMessage) -> bool {
    &&& (match p.message_type {
        SipMessageType::Request { method, uri } => (forall|j: int|
            0 <= j < sbytes(method@).len() ==> #[trigger] sbytes(method@)[j] != 32 && sbytes(
                method@,
            )[j] != 13 && sbytes(method@)[j] != 10) && sbytes(method@) != tok_sip_version() && (
        forall|j: int|
            0 <= j < sbytes(uri@).len() ==> #[trigger] sbytes(uri@)[j] != 13 && sbytes(uri@)[j]
                != 10),
        SipMessageType::Response { code, reason } => forall|j: int|
            0 <= j < sbytes(reason@).len() ==> #[trigger] sbytes(reason@)[j] != 13 && sbytes(
                reason@,
            )[j] != 10,
    })
    &&& (forall|i: int|
        0 <= i < header_bytes(p.headers@).len() ==> wf_header_pair(
            #[trigger] header_bytes(p.headers@)[i],
        ))
}

/// The round trip: rebuilding a parsed message's wire form with `to_bytes`
/// and parsing those bytes again yields the same start line, the same
/// ordered header list, and the same body bytes.
#[verifier::rlimit(100)]
pub proof fn lemma_message_round_trip(p: ParsedSipMessage)
    requires
        wf_round_trip(p),
    ensures
        spec_parse_msg(crate::types::spec_to_bytes(p)) matches Some(parts) && start_matches_bytes(
            p.message_type,
            parts.0,
        ) && parts.1 == header_bytes(p.headers@) && parts.2 == p.body@,
{
    let sl = crate::types::spec_start_line_bytes(p.message_type);
    let hb = header_bytes(p.headers@);
    let h = crate::types::spec_header_lines(hb);
    let content = crate::types::spec_to_bytes(p);
    assert(content =~= sl + crlf() + h + crlf() + p.body@);
    // The start line holds no line-break byte.
    assert(forall|j: int| 0 <= j < sl.len() ==> #[trigger] sl[j] != 13 && sl[j] != 10) by {
        let vt = tok_sip_version();
        match p.message_type {
            SipMessageType::Request { method, uri } => {
                let mb = sbytes(method@);
                let ub = sbytes(uri@);
                assert(sl =~= mb + seq![32u8] + ub + seq![32u8] + vt);
                assert(forall|j: int| 0 <= j < mb.len() ==> #[trigger] sl[j] == mb[j]);
                assert(sl[mb.len() as int] == 32);
                assert(forall|j: int|
                    mb.len() + 1 <= j < mb.len() + 1 + ub.len() ==> #[trigger] sl[j] == ub[j
                        - mb.len() - 1]);
                assert(sl[mb.len() as int + 1 + ub.len()] == 32);
                assert(forall|j: int|
                    mb.len() + 2 + ub.len() <= j < sl.len() ==> #[trigger] sl[j] == vt[j
                        - mb.len() - 2 - ub.len()]);
            },
            SipMessageType::Response { code, reason } => {
                let d = crate::ascii::dec_digits(code as nat);
                let rb = sbytes(reason@);
                crate::ascii::lemma_dec_digits(code as nat);
                assert(sl =~= vt + seq![32u8] + d + seq![32u8] + rb);
                assert(forall|j: int| 0 <= j < 7 ==> #[trigger] sl[j] == vt[j]);
                assert(sl[7] == 32);
                assert(forall|j: int|
                    8 <= j < 8 + d.len() ==> #[trigger] sl[j] == d[j - 8]);
                assert(forall|j: int|
                    0 <= j < d.len() ==> crate::ascii::is_digit(#[trigger] d[j]));
                assert(sl[8 + d.len() as int] == 32);
                assert(forall|j: int|
                    9 + d.len() <= j < sl.len() ==> #[trigger] sl[j] == rb[j - 9 - d.len()]);
            },
        }
    }
    let fle0 = sl.len() as int;
    lemma_find_sub_from(content, crlf(), 0);
    assert(match_at(content, crlf(), fle0)) by {
        assert(content.subrange(fle0, fle0 + 2) =~= crlf());
    }
    assert(forall|j: int| 0 <= j < fle0 ==> !#[trigger] match_at(content, crlf(), j)) by {
        assert(forall|j: int| 0 <= j < fle0 ==> #[trigger] content[j] == sl[j]);
        assert(forall|j: int|
            0 <= j < fle0 && j + 2 <= content.len() ==> #[trigger] content.subrange(j, j + 2)[0]
                == content[j]);
    }
    let fle = (match find_sub_from(content, crlf(), 0) {
        Some(x) => x,
        None => -1,
    });
    assert(fle == fle0) by {
        match find_sub_from(content, crlf(), 0) {
            Some(i) => {
                if i < fle0 {
                    assert(match_at(content, crlf(), i));
                }
                if i > fle0 {
                    assert(!match_at(content, crlf(), fle0));
                }
            },
            None => {
                assert(!match_at(content, crlf(), fle0));
            },
        }
    }
    assert(content.take(fle0) =~= sl);
    lemma_start_line_round_trip(p.message_type);
    lemma_find_sub_from(content, crlfcrlf(), 0);
    if hb.len() == 0 {
        assert(h.len() == 0);
        assert(content =~= sl + crlf() + crlf() + p.body@);
        let q = fle0;
        assert(match_at(content, crlfcrlf(), q)) by {
            assert(content.subrange(q, q + 4) =~= crlfcrlf());
        }
        assert(forall|j: int|
            0 <= j < q ==> !#[trigger] match_at(content, crlfcrlf(), j)) by {
            assert(forall|j: int| 0 <= j < q ==> #[trigger] content[j] == sl[j]);
            assert(forall|j: int|
                0 <= j < q && j + 4 <= content.len() ==> #[trigger] content.subrange(
                    j,
                    j + 4,
                )[0] == content[j]);
        }
        let qq = (match find_sub_from(content, crlfcrlf(), 0) {
            Some(x) => x,
            None => -1,
        });
        assert(qq == q) by {
            match find_sub_from(content, crlfcrlf(), 0) {
                Some(i) => {
                    if i < q {
                        assert(match_at(content, crlfcrlf(), i));
                    }
                    if i > q {
                        assert(!match_at(content, crlfcrlf(), q));
                    }
                },
                None => {
                    assert(!match_at(content, crlfcrlf(), q));
                },
            }
        }
        assert(content.skip(q + 4) =~= p.body@);
        assert(hb =~= Seq::<(Seq<u8>, Seq<u8>)>::empty());
    } else {
        lemma_header_lines_shape(hb);
        let q = fle0 + 2 + h.len() - 2;
        assert(forall|j: int|
            0 <= j < h.len() ==> #[trigger] content[fle0 + 2 + j] == h[j]);
        assert(content[q] == 13 && content[q + 1] == 10);
        assert(content[q + 2] == 13 && content[q + 3] == 10);
        assert(match_at(content, crlfcrlf(), q)) by {
            assert(content.subrange(q, q + 4) =~= crlfcrlf());
        }
        // The first line of the header region does not open with CR.
        let n0 = hb[0].0;
        assert(wf_header_pair(hb[0]));
        let line0 = n0 + seq![58u8, 32u8] + hb[0].1;
        assert(h =~= line0 + crlf() + crate::types::spec_header_lines(hb.drop_first()));
        assert(h[0] != 13) by {
            if n0.len() == 0 {
                assert(h[0] == 58);
            } else {
                assert(h[0] == n0[0]);
            }
        }
        assert(forall|j: int|
            0 <= j < q ==> !#[trigger] match_at(content, crlfcrlf(), j)) by {
            assert(forall|j: int| 0 <= j < fle0 ==> #[trigger] content[j] == sl[j]);
            assert(forall|j: int|
                0 <= j < q && j + 4 <= content.len() ==> #[trigger] content.subrange(
                    j,
                    j + 4,
                )[0] == content[j] && content.subrange(j, j + 4)[1] == content[j + 1]
                    && content.subrange(j, j + 4)[2] == content[j + 2]);
            assert(content[fle0] == 13 && content[fle0 + 1] == 10);
            assert(content[fle0 + 2] == h[0]);
            assert forall|j: int|
                fle0 + 2 <= j < q && #[trigger] content[j] == 13 implies content[j + 2]
                != 13 by {
                let jj = j - fle0 - 2;
                assert(h[jj] == 13);
                assert(jj + 2 < h.len());
                assert(h[jj + 2] != 13);
                assert(content[j + 2] == h[jj + 2]);
            }
        }
        let qq = (match find_sub_from(content, crlfcrlf(), 0) {
            Some(x) => x,
            None => -1,
        });
        assert(qq == q) by {
            match find_sub_from(content, crlfcrlf(), 0) {
                Some(i) => {
                    if i < q {
                        assert(match_at(content, crlfcrlf(), i));
                    }
                    if i > q {
                        assert(!match_at(content, crlfcrlf(), q));
                    }
                },
                None => {
                    assert(!match_at(content, crlfcrlf(), q));
                },
            }
        }
        assert(q > fle0 + 1);
        lemma_headers_round_trip_trunc(hb);
        assert(content.subrange(fle0 + 2, q) =~= h.take(h.len() - 2));
        assert(content.skip(q + 4) =~= p.body@);
    }
}

/// How a start line relates to its reparsed form at the byte level.
pub open spec fn start_matches_bytes(t: SipMessageType, st: SpecStart) -> bool {
    match t {
        SipMessageType::Request { method, uri } => st matches SpecStart::Req { method: m, uri: u }
            && m == sbytes(method@) && u == sbytes(uri@),
        SipMessageType::Response { code, reason } => st matches SpecStart::Resp {
            code: c,
            reason: re,
        } && c == code && re == sbytes(reason@),
    }
}

} // verus!
