//! The message reassembler: stitches stream-transport frames back into
//! whole SIP messages, one buffer per (direction, peer address) pair, and
//! passes datagram frames through one-to-one.
//!
//! A buffer is cut at message boundaries: a recognised SIP start line, the
//! blank line that ends the headers, and as many body bytes as the
//! `Content-Length` header declares.

use vstd::prelude::*;

use crate::ascii::is_lws;
use crate::ascii::lower_bytes;
use crate::ascii::eq_ignore_case;
use crate::ascii::eq_ignore_case_ex;
use crate::ascii::sbytes;
use crate::ascii::spec_dec_std;
use crate::ascii::parse_std_usize;
use crate::frame::FrameIterator;
use crate::frame::ParseError;
use crate::search::as_usize_opt;
use crate::search::find_sub_at;
use crate::search::find_sub_from;
use crate::search::lemma_find_sub_from;
use crate::search::match_at;
use crate::search::starts_with_at;
use crate::types::Direction;
use crate::types::Frame;
use crate::types::SipMessage;
use crate::types::Timestamp;
use crate::types::Transport;

verus! {

/// The bytes `SIP/2.0 ` that begin every response.
pub open spec fn tok_sip_resp() -> Seq<u8> {
    seq![
        'S' as u8,
        'I' as u8,
        'P' as u8,
        '/' as u8,
        '2' as u8,
        '.' as u8,
        '0' as u8,
        ' ' as u8,
    ]
}

/// The `k`-th recognised request method, followed by one space.
pub open spec fn spec_method_tok(k: int) -> Seq<u8> {
    if k == 0 {
        seq!['I' as u8, 'N' as u8, 'V' as u8, 'I' as u8, 'T' as u8, 'E' as u8, ' ' as u8]
    } else if k == 1 {
        seq!['A' as u8, 'C' as u8, 'K' as u8, ' ' as u8]
    } else if k == 2 {
        seq!['B' as u8, 'Y' as u8, 'E' as u8, ' ' as u8]
    } else if k == 3 {
        seq!['C' as u8, 'A' as u8, 'N' as u8, 'C' as u8, 'E' as u8, 'L' as u8, ' ' as u8]
    } else if k == 4 {
        seq!['O' as u8, 'P' as u8, 'T' as u8, 'I' as u8, 'O' as u8, 'N' as u8, 'S' as u8, ' ' as u8]
    } else if k == 5 {
        seq![
            'R' as u8,
            'E' as u8,
            'G' as u8,
            'I' as u8,
            'S' as u8,
            'T' as u8,
            'E' as u8,
            'R' as u8,
            ' ' as u8,
        ]
    } else if k == 6 {
        seq!['P' as u8, 'R' as u8, 'A' as u8, 'C' as u8, 'K' as u8, ' ' as u8]
    } else if k == 7 {
        seq![
            'S' as u8,
            'U' as u8,
            'B' as u8,
            'S' as u8,
            'C' as u8,
            'R' as u8,
            'I' as u8,
            'B' as u8,
            'E' as u8,
            ' ' as u8,
        ]
    } else if k == 8 {
        seq!['N' as u8, 'O' as u8, 'T' as u8, 'I' as u8, 'F' as u8, 'Y' as u8, ' ' as u8]
    } else if k == 9 {
        seq![
            'P' as u8,
            'U' as u8,
            'B' as u8,
            'L' as u8,
            'I' as u8,
            'S' as u8,
            'H' as u8,
            ' ' as u8,
        ]
    } else if k == 10 {
        seq!['I' as u8, 'N' as u8, 'F' as u8, 'O' as u8, ' ' as u8]
    } else if k == 11 {
        seq!['R' as u8, 'E' as u8, 'F' as u8, 'E' as u8, 'R' as u8, ' ' as u8]
    } else if k == 12 {
        seq![
            'M' as u8,
            'E' as u8,
            'S' as u8,
            'S' as u8,
            'A' as u8,
            'G' as u8,
            'E' as u8,
            ' ' as u8,
        ]
    } else {
        seq!['U' as u8, 'P' as u8, 'D' as u8, 'A' as u8, 'T' as u8, 'E' as u8, ' ' as u8]
    }
}

/// Whether `s` begins with a recognised SIP start line: `SIP/2.0 ` for a
/// response, or one of the fourteen request methods followed by a space.
pub open spec fn spec_is_sip_start(s: Seq<u8>) -> bool {
    match_at(s, tok_sip_resp(), 0) || (exists|k: int|
        0 <= k < 14 && match_at(s, #[trigger] spec_method_tok(k), 0))
}

fn method_tok_vec(k: usize) -> (v: Vec<u8>)
    requires
        k < 14,
    ensures
        v@ == spec_method_tok(k as int),
{
    let v: Vec<u8> = if k == 0 {
        vec!['I' as u8, 'N' as u8, 'V' as u8, 'I' as u8, 'T' as u8, 'E' as u8, ' ' as u8]
    } else if k == 1 {
        vec!['A' as u8, 'C' as u8, 'K' as u8, ' ' as u8]
    } else if k == 2 {
        vec!['B' as u8, 'Y' as u8, 'E' as u8, ' ' as u8]
    } else if k == 3 {
        vec!['C' as u8, 'A' as u8, 'N' as u8, 'C' as u8, 'E' as u8, 'L' as u8, ' ' as u8]
    } else if k == 4 {
        vec!['O' as u8, 'P' as u8, 'T' as u8, 'I' as u8, 'O' as u8, 'N' as u8, 'S' as u8, ' ' as u8]
    } else if k == 5 {
        vec![
            'R' as u8,
            'E' as u8,
            'G' as u8,
            'I' as u8,
            'S' as u8,
            'T' as u8,
            'E' as u8,
            'R' as u8,
            ' ' as u8,
        ]
    } else if k == 6 {
        vec!['P' as u8, 'R' as u8, 'A' as u8, 'C' as u8, 'K' as u8, ' ' as u8]
    } else if k == 7 {
        vec![
            'S' as u8,
            'U' as u8,
            'B' as u8,
            'S' as u8,
            'C' as u8,
            'R' as u8,
            'I' as u8,
            'B' as u8,
            'E' as u8,
            ' ' as u8,
        ]
    } else if k == 8 {
        vec!['N' as u8, 'O' as u8, 'T' as u8, 'I' as u8, 'F' as u8, 'Y' as u8, ' ' as u8]
    } else if k == 9 {
        vec!['P' as u8, 'U' as u8, 'B' as u8, 'L' as u8, 'I' as u8, 'S' as u8, 'H' as u8, ' ' as u8]
    } else if k == 10 {
        vec!['I' as u8, 'N' as u8, 'F' as u8, 'O' as u8, ' ' as u8]
    } else if k == 11 {
        vec!['R' as u8, 'E' as u8, 'F' as u8, 'E' as u8, 'R' as u8, ' ' as u8]
    } else if k == 12 {
        vec!['M' as u8, 'E' as u8, 'S' as u8, 'S' as u8, 'A' as u8, 'G' as u8, 'E' as u8, ' ' as u8]
    } else {
        vec!['U' as u8, 'P' as u8, 'D' as u8, 'A' as u8, 'T' as u8, 'E' as u8, ' ' as u8]
    };
    assert(v@ =~= spec_method_tok(k as int));
    v
}

fn tok_sip_resp_vec() -> (v: Vec<u8>)
    ensures
        v@ == tok_sip_resp(),
{
    let v: Vec<u8> = vec![
        'S' as u8,
        'I' as u8,
        'P' as u8,
        '/' as u8,
        '2' as u8,
        '.' as u8,
        '0' as u8,
        ' ' as u8,
    ];
    assert(v@ =~= tok_sip_resp());
    v
}

fn crlf_vec() -> (v: Vec<u8>)
    ensures
        v@ == crate::types::crlf(),
{
    let v: Vec<u8> = vec![13u8, 10u8];
    assert(v@ =~= crate::types::crlf());
    v
}

fn crlfcrlf_vec() -> (v: Vec<u8>)
    ensures
        v@ == crlfcrlf(),
{
    let v: Vec<u8> = vec![13u8, 10u8, 13u8, 10u8];
    assert(v@ =~= crlfcrlf());
    v
}

/// The blank line that separates headers from body.
pub open spec fn crlfcrlf() -> Seq<u8> {
    seq![13u8, 10u8, 13u8, 10u8]
}

/// Decides whether `data` begins with a recognised SIP start line.
pub fn is_sip_start(data: &[u8]) -> (r: bool)
    ensures
        r == spec_is_sip_start(data@),
{
    let resp = tok_sip_resp_vec();
    if starts_with_at(data, resp.as_slice(), 0) {
        return true;
    }
    let mut k: usize = 0;
    while k < 14
        invariant
            k <= 14,
            forall|j: int| 0 <= j < k ==> !match_at(data@, #[trigger] spec_method_tok(j), 0),
        decreases 14 - k,
    {
        let tok = method_tok_vec(k);
        if starts_with_at(data, tok.as_slice(), 0) {
            return true;
        }
        k = k + 1;
    }
    false
}

/// Offset of the first recognised SIP start line in `s`: at the beginning,
/// or just after a CR LF.
pub open spec fn spec_find_sip_start(s: Seq<u8>) -> Option<int> {
    if spec_is_sip_start(s) {
        Some(0)
    } else {
        spec_scan_sip(s, 0)
    }
}

pub open spec fn spec_scan_sip(s: Seq<u8>, pos: int) -> Option<int>
    decreases s.len() - pos when pos >= 0 via spec_scan_sip_dec
{
    match find_sub_from(s, crate::types::crlf(), pos) {
        None => None,
        Some(o) => {
            let c = o + 2;
            if c >= s.len() {
                None
            } else if spec_is_sip_start(s.skip(c)) {
                Some(c)
            } else {
                spec_scan_sip(s, c)
            }
        },
    }
}

#[via_fn]
proof fn spec_scan_sip_dec(s: Seq<u8>, pos: int) {
    if pos >= 0 {
        lemma_find_sub_from(s, crate::types::crlf(), pos);
    }
}

pub proof fn lemma_scan_sip_bounds(s: Seq<u8>, pos: int)
    requires
        pos >= 0,
    ensures
        match spec_scan_sip(s, pos) {
            Some(o) => pos < o < s.len(),
            None => true,
        },
    decreases s.len() - pos,
{
    lemma_find_sub_from(s, crate::types::crlf(), pos);
    match find_sub_from(s, crate::types::crlf(), pos) {
        None => {},
        Some(o) => {
            if o + 2 >= s.len() || spec_is_sip_start(s.skip(o + 2)) {
            } else {
                lemma_scan_sip_bounds(s, o + 2);
            }
        },
    }
}

/// Finds the first SIP start line in `data`, as `spec_find_sip_start` says.
pub fn find_sip_start(data: &[u8]) -> (r: Option<usize>)
    ensures
        r == as_usize_opt(spec_find_sip_start(data@)),
{
    if is_sip_start(data) {
        return Some(0);
    }
    let crlf = crlf_vec();
    let n = data.len();
    let mut pos: usize = 0;
    loop
        invariant
            pos <= data@.len(),
            data@.len() == n as int,
            crlf@ == crate::types::crlf(),
            !spec_is_sip_start(data@),
            spec_scan_sip(data@, 0) == spec_scan_sip(data@, pos as int),
        decreases data@.len() - pos,
    {
        proof {
            lemma_find_sub_from(data@, crate::types::crlf(), pos as int);
            lemma_scan_sip_bounds(data@, pos as int);
        }
        match find_sub_at(data, crlf.as_slice(), pos) {
            None => {
                return None;
            },
            Some(o) => {
                let c = o + 2;
                if c >= n {
                    return None;
                }
                let after: &[u8] = &data[c..n];
                assert(after@ =~= data@.skip(c as int));
                if is_sip_start(after) {
                    return Some(c);
                }
                pos = c;
            },
        }
    }
}

/// Leading whitespace trimmed from both ends of a header value, as the
/// reassembler's header scan does (space and horizontal tab).
pub open spec fn trim_lws(b: Seq<u8>) -> Seq<u8> {
    let start = lws_run(b, 0);
    let end = rlws_end(b, b.len() as int, start);
    b.subrange(start, end)
}

pub open spec fn lws_run(b: Seq<u8>, i: int) -> int
    decreases b.len() - i when 0 <= i <= b.len()
{
    if i < b.len() && is_lws(b[i]) {
        lws_run(b, i + 1)
    } else {
        i
    }
}

pub open spec fn rlws_end(b: Seq<u8>, end: int, floor: int) -> int
    decreases end when 0 <= floor <= end <= b.len()
{
    if end > floor && is_lws(b[end - 1]) {
        rlws_end(b, end - 1, floor)
    } else {
        end
    }
}

pub proof fn lemma_lws_run_bounds(b: Seq<u8>, i: int)
    requires
        0 <= i <= b.len(),
    ensures
        i <= lws_run(b, i) <= b.len(),
    decreases b.len() - i,
{
    if i < b.len() && is_lws(b[i]) {
        lemma_lws_run_bounds(b, i + 1);
    }
}

pub proof fn lemma_rlws_end_bounds(b: Seq<u8>, end: int, floor: int)
    requires
        0 <= floor <= end <= b.len(),
    ensures
        floor <= rlws_end(b, end, floor) <= end,
    decreases end,
{
    if end > floor && is_lws(b[end - 1]) {
        lemma_rlws_end_bounds(b, end - 1, floor);
    }
}

/// Trims spaces and horizontal tabs from both ends of `b`.
pub fn trim_bytes(b: &[u8]) -> (r: Vec<u8>)
    ensures
        r@ == trim_lws(b@),
{
    proof {
        lemma_lws_run_bounds(b@, 0);
    }
    let n = b.len();
    let mut start: usize = 0;
    while start < n && (b[start] == 32 || b[start] == 9)
        invariant
            start <= b@.len(),
            b@.len() == n as int,
            lws_run(b@, 0) == lws_run(b@, start as int),
            start as int <= lws_run(b@, 0) <= b@.len(),
        decreases b@.len() - start,
    {
        start = start + 1;
        proof {
            lemma_lws_run_bounds(b@, start as int);
        }
    }
    assert(start as int == lws_run(b@, 0));
    proof {
        lemma_rlws_end_bounds(b@, b@.len() as int, start as int);
    }
    let mut end: usize = n;
    while end > start && (b[end - 1] == 32 || b[end - 1] == 9)
        invariant
            start <= end <= b@.len(),
            b@.len() == n as int,
            rlws_end(b@, b@.len() as int, start as int) == rlws_end(b@, end as int, start as int),
            start as int <= rlws_end(b@, b@.len() as int, start as int) <= end as int,
        decreases end,
    {
        end = end - 1;
        proof {
            lemma_rlws_end_bounds(b@, end as int, start as int);
        }
    }
    assert(end as int == rlws_end(b@, b@.len() as int, start as int));
    let mut out: Vec<u8> = Vec::new();
    out.extend_from_slice(&b[start..end]);
    assert(out@ =~= trim_lws(b@));
    out
}

/// The value of the header named `name` on `line`, where the name matches
/// ignoring ASCII case and is followed directly by a colon; the value is
/// trimmed at both ends. One byte after the colon is required.
pub open spec fn spec_header_line_value(line: Seq<u8>, name: Seq<u8>) -> Option<Seq<u8>> {
    if line.len() <= name.len() + 1 {
        None
    } else if !eq_ignore_case(line.take(name.len() as int), name) {
        None
    } else if line[name.len() as int] != 58 {
        None
    } else {
        Some(trim_lws(line.skip(name.len() as int + 1)))
    }
}

/// As `spec_header_line_value`, for the single-letter compact form, which
/// matches case-sensitively.
pub open spec fn spec_compact_line_value(line: Seq<u8>, compact: u8) -> Option<Seq<u8>> {
    if line.len() < 2 {
        None
    } else if line[0] != compact || line[1] != 58 {
        None
    } else {
        Some(trim_lws(line.skip(2)))
    }
}

/// Extracts the named header's trimmed value from one header line.
pub fn extract_header_value(line: &[u8], name: &[u8]) -> (r: Option<Vec<u8>>)
    ensures
        match r {
            Some(v) => spec_header_line_value(line@, name@) == Some(v@),
            None => spec_header_line_value(line@, name@) == None::<Seq<u8>>,
        },
{
    if line.len() < 2 || name.len() > line.len() - 2 {
        assert(line@.len() <= name@.len() + 1);
        return None;
    }
    assert(line@.len() > name@.len() + 1);
    let prefix: &[u8] = &line[0..name.len()];
    assert(prefix@ =~= line@.take(name@.len() as int));
    if !eq_ignore_case_ex(prefix, name) {
        return None;
    }
    if line[name.len()] != 58 {
        return None;
    }
    let rest: &[u8] = &line[name.len() + 1..line.len()];
    assert(rest@ =~= line@.skip(name@.len() as int + 1));
    Some(trim_bytes(rest))
}

/// Extracts the compact-form header's trimmed value from one header line.
pub fn extract_compact_header_value(line: &[u8], compact: u8) -> (r: Option<Vec<u8>>)
    ensures
        match r {
            Some(v) => spec_compact_line_value(line@, compact) == Some(v@),
            None => spec_compact_line_value(line@, compact) == None::<Seq<u8>>,
        },
{
    if line.len() < 2 {
        return None;
    }
    if line[0] != compact || line[1] != 58 {
        return None;
    }
    let rest: &[u8] = &line[2..line.len()];
    assert(rest@ =~= line@.skip(2));
    Some(trim_bytes(rest))
}

/// The value as a number, exactly as the standard decimal parse reads it.
pub open spec fn spec_parse_cl(v: Seq<u8>) -> Option<usize> {
    match spec_dec_std(v, usize::MAX as nat) {
        Some(n) => Some(n as usize),
        None => None,
    }
}

/// Parses a `Content-Length` value as a non-negative decimal number.
pub fn parse_content_length(value: &[u8]) -> (r: Option<usize>)
    ensures
        r == spec_parse_cl(value@),
{
    parse_std_usize(value)
}

/// The name bytes `Content-Length`.
pub open spec fn tok_content_length() -> Seq<u8> {
    seq![
        'C' as u8,
        'o' as u8,
        'n' as u8,
        't' as u8,
        'e' as u8,
        'n' as u8,
        't' as u8,
        '-' as u8,
        'L' as u8,
        'e' as u8,
        'n' as u8,
        'g' as u8,
        't' as u8,
        'h' as u8,
    ]
}

fn tok_content_length_vec() -> (v: Vec<u8>)
    ensures
        v@ == tok_content_length(),
{
    let v: Vec<u8> = vec![
        'C' as u8,
        'o' as u8,
        'n' as u8,
        't' as u8,
        'e' as u8,
        'n' as u8,
        't' as u8,
        '-' as u8,
        'L' as u8,
        'e' as u8,
        'n' as u8,
        'g' as u8,
        't' as u8,
        'h' as u8,
    ];
    assert(v@ =~= tok_content_length());
    v
}

/// The declared body length of the message that begins `data`, read from
/// the first `Content-Length` (or compact `l`) line before the blank line;
/// `None` when the headers are incomplete or no such line parses.
pub open spec fn spec_find_content_length(data: Seq<u8>) -> Option<usize> {
    match find_sub_from(data, crlfcrlf(), 0) {
        None => None,
        Some(he) => spec_cl_lines(data.take(he), 0),
    }
}

/// Walks the header region line by line for the content length.
pub open spec fn spec_cl_lines(h: Seq<u8>, pos: int) -> Option<usize>
    decreases h.len() + 2 - pos when pos >= 0 via spec_cl_lines_dec
{
    if pos >= h.len() {
        None
    } else {
        let le = (match find_sub_from(h, crate::types::crlf(), pos) {
            Some(x) => x,
            None => h.len() as int,
        });
        let line = h.subrange(pos, le);
        match spec_header_line_value(line, tok_content_length()) {
            Some(v) => spec_parse_cl(v),
            None => match spec_compact_line_value(line, 'l' as u8) {
                Some(v) => spec_parse_cl(v),
                None => spec_cl_lines(h, le + 2),
            },
        }
    }
}

#[via_fn]
proof fn spec_cl_lines_dec(h: Seq<u8>, pos: int) {
    if pos >= 0 {
        lemma_find_sub_from(h, crate::types::crlf(), pos);
    }
}

/// Finds the `Content-Length` of the message that begins `data`.
pub fn find_content_length(data: &[u8]) -> (r: Option<usize>)
    ensures
        r == spec_find_content_length(data@),
{
    let four = crlfcrlf_vec();
    proof {
        lemma_find_sub_from(data@, crlfcrlf(), 0);
    }
    let he = match find_sub_at(data, four.as_slice(), 0) {
        None => {
            return None;
        },
        Some(x) => x,
    };
    let dn = data.len();
    proof {
        assert(data@.len() == dn as int);
    }
    let headers: &[u8] = &data[0..he];
    assert(headers@ =~= data@.take(he as int));
    proof {
        assert(spec_find_content_length(data@) == spec_cl_lines(data@.take(he as int), 0));
    }
    let h_len = headers.len();
    let name = tok_content_length_vec();
    let crlf = crlf_vec();
    let mut pos: usize = 0;
    loop
        invariant
            pos <= h_len,
            headers@.len() == h_len as int,
            headers@ == data@.take(he as int),
            he as int + 4 <= data@.len(),
            data@.len() <= usize::MAX,
            name@ == tok_content_length(),
            crlf@ == crate::types::crlf(),
            spec_cl_lines(headers@, 0) == spec_cl_lines(headers@, pos as int),
            spec_find_content_length(data@) == spec_cl_lines(headers@, 0),
        decreases h_len - pos,
    {
        if pos >= h_len {
            return None;
        }
        proof {
            lemma_find_sub_from(headers@, crate::types::crlf(), pos as int);
        }
        let le = match find_sub_at(headers, crlf.as_slice(), pos) {
            Some(x) => x,
            None => h_len,
        };
        let line: &[u8] = &headers[pos..le];
        assert(line@ =~= headers@.subrange(pos as int, le as int));
        match extract_header_value(line, name.as_slice()) {
            Some(v) => {
                return parse_content_length(v.as_slice());
            },
            None => {},
        }
        match extract_compact_header_value(line, 'l' as u8) {
            Some(v) => {
                return parse_content_length(v.as_slice());
            },
            None => {},
        }
        pos = le + 2;
        if pos > h_len {
            // The last line had no terminator; past it nothing remains.
            proof {
                assert(spec_cl_lines(headers@, le as int + 2) == None::<usize>);
            }
            return None;
        }
    }
}

/// End of the run of CR LF pairs at `i`, stopping while a full pair fits.
pub open spec fn spec_crlf_run(c: Seq<u8>, i: int) -> int
    decreases c.len() - i when 0 <= i <= c.len()
{
    if i + 1 < c.len() && c[i] == 13 && c[i + 1] == 10 {
        spec_crlf_run(c, i + 2)
    } else {
        i
    }
}

pub proof fn lemma_crlf_run_bounds(c: Seq<u8>, i: int)
    requires
        0 <= i <= c.len(),
    ensures
        i <= spec_crlf_run(c, i) <= c.len(),
    decreases c.len() - i,
{
    if i + 1 < c.len() && c[i] == 13 && c[i + 1] == 10 {
        lemma_crlf_run_bounds(c, i + 2);
    }
}

/// End of the run of CR LF pairs at `i`, greedy while two bytes remain.
pub open spec fn spec_crlf_drain(c: Seq<u8>, i: int) -> int
    decreases c.len() - i when 0 <= i <= c.len()
{
    if i + 2 <= c.len() && c[i] == 13 && c[i + 1] == 10 {
        spec_crlf_drain(c, i + 2)
    } else {
        i
    }
}

pub proof fn lemma_crlf_drain_bounds(c: Seq<u8>, i: int)
    requires
        0 <= i <= c.len(),
    ensures
        i <= spec_crlf_drain(c, i) <= c.len(),
    decreases c.len() - i,
{
    if i + 2 <= c.len() && c[i] == 13 && c[i + 1] == 10 {
        lemma_crlf_drain_bounds(c, i + 2);
    }
}

/// What the extract procedure cuts out of one connection buffer: the
/// contents of the complete messages, in order, and the bytes that stay
/// behind to wait for more data.
pub open spec fn spec_extract(c: Seq<u8>) -> (Seq<Seq<u8>>, Seq<u8>)
    decreases c.len() when true via spec_extract_dec
{
    if c.len() == 0 {
        (Seq::empty(), c)
    } else if !spec_is_sip_start(c) {
        let k = spec_crlf_run(c, 0);
        if k > 0 && k < c.len() && spec_is_sip_start(c.skip(k)) {
            spec_extract(c.skip(k))
        } else {
            match spec_find_sip_start(c) {
                Some(o) => if o > 0 {
                    spec_extract(c.skip(o))
                } else {
                    (Seq::empty(), c)
                },
                None => (Seq::empty(), c),
            }
        }
    } else {
        match find_sub_from(c, crlfcrlf(), 0) {
            None => (Seq::empty(), c),
            Some(he) => {
                let bs = he + 4;
                let me = (match spec_find_content_length(c) {
                    Some(cl) => bs + cl,
                    None => bs,
                });
                if me > c.len() {
                    (Seq::empty(), c)
                } else {
                    let msg = c.take(me);
                    let rest0 = c.skip(me);
                    let k = spec_crlf_drain(rest0, 0);
                    let (msgs, rest) = spec_extract(rest0.skip(k));
                    (seq![msg] + msgs, rest)
                }
            },
        }
    }
}

#[via_fn]
proof fn spec_extract_dec(c: Seq<u8>) {
    if c.len() > 0 {
        if !spec_is_sip_start(c) {
            lemma_crlf_run_bounds(c, 0);
            if spec_find_sip_start(c) matches Some(o) {
                if !spec_is_sip_start(c) {
                    lemma_scan_sip_bounds(c, 0);
                }
            }
        } else {
            lemma_find_sub_from(c, crlfcrlf(), 0);
            match find_sub_from(c, crlfcrlf(), 0) {
                Some(he) => {
                    let bs = he + 4;
                    let me = (match spec_find_content_length(c) {
                        Some(cl) => bs + cl,
                        None => bs,
                    });
                    if me <= c.len() {
                        lemma_crlf_drain_bounds(c.skip(me), 0);
                    }
                },
                None => {},
            }
        }
    }
}

/// One half-stream's pending bytes, keyed by direction and peer address.
pub struct ConnectionBuffer {
    pub direction: Direction,
    pub address: String,
    pub transport: Transport,
    /// Timestamp of the first frame of the message now being collected.
    pub timestamp: Timestamp,
    pub content: Vec<u8>,
    /// Frames appended since the last message was cut.
    pub frame_count: usize,
}

/// Skips the leading bytes that `spec_extract` discards before the next
/// message or waiting point, returning the new start.
fn extract_skip(c: &[u8]) -> (r: usize)
    requires
        c@.len() > 0,
        !spec_is_sip_start(c@),
    ensures
        r <= c@.len(),
        r > 0 ==> spec_extract(c@) == spec_extract(c@.skip(r as int)),
        r == 0 ==> spec_extract(c@) == (Seq::<Seq<u8>>::empty(), c@),
{
    proof {
        lemma_crlf_run_bounds(c@, 0);
    }
    let n = c.len();
    let mut k: usize = 0;
    while k < n && c[k] == 13 && k + 1 < n && c[k + 1] == 10
        invariant
            k <= c@.len(),
            c@.len() == n as int,
            spec_crlf_run(c@, 0) == spec_crlf_run(c@, k as int),
            k as int <= spec_crlf_run(c@, 0) <= c@.len(),
        decreases c@.len() - k,
    {
        k = k + 2;
        proof {
            lemma_crlf_run_bounds(c@, k as int);
        }
    }
    assert(k as int == spec_crlf_run(c@, 0));
    if k > 0 && k < n {
        let after: &[u8] = &c[k..n];
        assert(after@ =~= c@.skip(k as int));
        if is_sip_start(after) {
            return k;
        }
    }
    proof {
        if spec_find_sip_start(c@) matches Some(o) {
            lemma_scan_sip_bounds(c@, 0);
        }
    }
    match find_sip_start(c) {
        Some(o) => {
            assert(o > 0);
            o
        },
        None => 0,
    }
}

/// Cuts every complete message off the front of `buf`, exactly as
/// `spec_extract` reads the buffer's bytes. The first message carries the
/// frames accumulated so far; later ones carry zero, and the counter is
/// reset whenever a message was cut. Every message keeps the buffer's key,
/// transport and timestamp, and its content begins with a SIP start line.
#[verifier::rlimit(100)]
pub fn extract_complete(buf: &mut ConnectionBuffer) -> (r: Vec<SipMessage>)
    ensures
        ({
            let (msgs, rest) = spec_extract(old(buf).content@);
            &&& final(buf).content@ == rest
            &&& final(buf).direction == old(buf).direction
            &&& final(buf).address == old(buf).address
            &&& final(buf).transport == old(buf).transport
            &&& final(buf).timestamp == old(buf).timestamp
            &&& final(buf).frame_count == (if msgs.len() > 0 {
                0usize
            } else {
                old(buf).frame_count
            })
            &&& r@.len() == msgs.len()
            &&& (forall|i: int|
                0 <= i < msgs.len() ==> (#[trigger] r@[i]).content@ == msgs[i]
                    && r@[i].direction == old(buf).direction && r@[i].address@ == old(
                    buf,
                ).address@ && r@[i].transport == old(buf).transport && r@[i].timestamp == old(
                    buf,
                ).timestamp && r@[i].frame_count == (if i == 0 {
                    old(buf).frame_count
                } else {
                    0usize
                }))
        }),
{
    let mut messages: Vec<SipMessage> = Vec::new();
    let ghost c0 = buf.content@;
    let ghost spec_msgs = spec_extract(c0).0;
    let ghost spec_rest = spec_extract(c0).1;
    loop
        invariant
            buf.direction == old(buf).direction,
            buf.address == old(buf).address,
            buf.transport == old(buf).transport,
            buf.timestamp == old(buf).timestamp,
            buf.frame_count == (if messages@.len() > 0 {
                0usize
            } else {
                old(buf).frame_count
            }),
            spec_msgs == spec_extract(c0).0 && spec_rest == spec_extract(c0).1,
            spec_extract(c0).0 == messages@.map(|_i: int, m: SipMessage| m.content@)
                + spec_extract(buf.content@).0,
            spec_extract(c0).1 == spec_extract(buf.content@).1,
            forall|i: int|
                0 <= i < messages@.len() ==> (#[trigger] messages@[i]).direction == old(
                    buf,
                ).direction && messages@[i].address@ == old(buf).address@ && messages@[
                    i
                ].transport == old(buf).transport && messages@[i].timestamp == old(
                    buf,
                ).timestamp && messages@[i].frame_count == (if i == 0 {
                    old(buf).frame_count
                } else {
                    0usize
                }),
        ensures
            spec_extract(buf.content@) == (Seq::<Seq<u8>>::empty(), buf.content@),
        decreases buf.content@.len(),
    {
        let n = buf.content.len();
        if n == 0 {
            assert(spec_extract(buf.content@) == (Seq::<Seq<u8>>::empty(), buf.content@));
            break;
        }
        if !is_sip_start(buf.content.as_slice()) {
            let skip = extract_skip(buf.content.as_slice());
            if skip == 0 {
                break;
            }
            let tail = copy_tail(&buf.content, skip);
            assert(tail@ =~= buf.content@.skip(skip as int));
            buf.content = tail;
            continue;
        }
        let four = crlfcrlf_vec();
        proof {
            lemma_find_sub_from(buf.content@, crlfcrlf(), 0);
        }
        let he = match find_sub_at(buf.content.as_slice(), four.as_slice(), 0) {
            None => {
                assert(spec_extract(buf.content@) == (Seq::<Seq<u8>>::empty(), buf.content@));
                break;
            },
            Some(x) => x,
        };
        let bs = he + 4;
        let body_len = match find_content_length(buf.content.as_slice()) {
            Some(cl) => cl,
            None => 0,
        };
        if body_len > n - bs {
            // Body incomplete; wait for more data.
            assert(spec_extract(buf.content@) == (Seq::<Seq<u8>>::empty(), buf.content@));
            break;
        }
        let me = bs + body_len;
        let ghost cpre = buf.content@;
        let msg_content = copy_head(&buf.content, me);
        assert(msg_content@ =~= cpre.take(me as int));
        // Drain the message and any CR LF pairs that separate messages.
        let mut drop_to = me;
        proof {
            lemma_crlf_drain_bounds(cpre.skip(me as int), 0);
        }
        while drop_to < n && buf.content[drop_to] == 13 && drop_to + 1 < n && buf.content[
            drop_to + 1] == 10
            invariant
                me <= drop_to <= n,
                buf.content@ == cpre,
                cpre.len() == n as int,
                spec_crlf_drain(cpre.skip(me as int), 0) == spec_crlf_drain(
                    cpre.skip(me as int),
                    drop_to - me,
                ),
                drop_to - me <= spec_crlf_drain(cpre.skip(me as int), 0) <= cpre.skip(
                    me as int,
                ).len(),
            decreases n - drop_to,
        {
            assert(cpre.skip(me as int)[drop_to - me] == cpre[drop_to as int]);
            assert(cpre.skip(me as int)[drop_to + 1 - me] == cpre[drop_to as int + 1]);
            drop_to = drop_to + 2;
            proof {
                lemma_crlf_drain_bounds(cpre.skip(me as int), drop_to - me);
            }
        }
        proof {
            assert(drop_to + 2 > n || cpre[drop_to as int] != 13 || cpre[drop_to as int + 1]
                != 10);
            if drop_to - me < spec_crlf_drain(cpre.skip(me as int), 0) {
                assert(cpre.skip(me as int)[drop_to - me] == cpre[drop_to as int]);
                assert(drop_to - me + 1 < cpre.skip(me as int).len() ==> cpre.skip(
                    me as int,
                )[drop_to - me + 1] == cpre[drop_to as int + 1]);
            }
            assert(drop_to - me == spec_crlf_drain(cpre.skip(me as int), 0));
        }
        let tail = copy_tail(&buf.content, drop_to);
        assert(tail@ =~= cpre.skip(drop_to as int));
        assert(tail@ =~= cpre.skip(me as int).skip(drop_to - me as int));
        buf.content = tail;
        let fc = if messages.len() == 0 {
            buf.frame_count
        } else {
            0
        };
        let msg = SipMessage {
            direction: buf.direction,
            transport: buf.transport,
            address: buf.address.clone(),
            timestamp: buf.timestamp,
            content: msg_content,
            frame_count: fc,
        };
        messages.push(msg);
        buf.frame_count = 0;
        proof {
            assert(spec_extract(cpre).0 == seq![cpre.take(me as int)] + spec_extract(
                buf.content@,
            ).0);
            assert(spec_extract(cpre).1 == spec_extract(buf.content@).1);
            assert(messages@.map(|_i: int, m: SipMessage| m.content@) =~= messages@.drop_last(
            ).map(|_i: int, m: SipMessage| m.content@) + seq![cpre.take(me as int)]);
            assert(spec_extract(c0).0 =~= messages@.map(|_i: int, m: SipMessage| m.content@)
                + spec_extract(buf.content@).0);
        }
    }
    proof {
        assert(spec_extract(c0).0 =~= messages@.map(|_i: int, m: SipMessage| m.content@));
        assert(forall|i: int|
            0 <= i < messages@.len() ==> (#[trigger] messages@[i]).content@ == spec_extract(
                c0,
            ).0[i]);
    }
    messages
}

/// Copies `v[..k]` into a fresh vector.
fn copy_head(v: &Vec<u8>, k: usize) -> (r: Vec<u8>)
    requires
        k <= v@.len(),
    ensures
        r@ == v@.take(k as int),
{
    let mut r: Vec<u8> = Vec::new();
    r.extend_from_slice(&v.as_slice()[0..k]);
    assert(r@ =~= v@.take(k as int));
    r
}

/// Copies `v[k..]` into a fresh vector.
fn copy_tail(v: &Vec<u8>, k: usize) -> (r: Vec<u8>)
    requires
        k <= v@.len(),
    ensures
        r@ == v@.skip(k as int),
{
    let mut r: Vec<u8> = Vec::new();
    r.extend_from_slice(&v.as_slice()[k..v.len()]);
    assert(r@ =~= v@.skip(k as int));
    r
}

/// The one message a datagram frame carries: content identical to the
/// frame's, counted as exactly one frame.
pub fn udp_message(frame: Frame) -> (m: SipMessage)
    ensures
        m.direction == frame.direction,
        m.transport == frame.transport,
        m.address == frame.address,
        m.timestamp == frame.timestamp,
        m.content == frame.content,
        m.frame_count == 1,
{
    SipMessage {
        direction: frame.direction,
        transport: frame.transport,
        address: frame.address,
        timestamp: frame.timestamp,
        content: frame.content,
        frame_count: 1,
    }
}

/// Index of the buffer keyed by `d` and `a`, or the vector's length when
/// no buffer has that key yet.
fn buffer_index(bufs: &Vec<ConnectionBuffer>, d: Direction, a: &String) -> (idx: usize)
    ensures
        idx as int == spec_key_index(bufs_view(bufs@), d, a@),
{
    proof {
        lemma_key_index(bufs_view(bufs@), d, a@);
    }
    let ghost bv = bufs_view(bufs@);
    let mut i: usize = 0;
    while i < bufs.len()
        invariant
            i <= bufs@.len(),
            bv == bufs_view(bufs@),
            spec_key_index(bv, d, a@) >= i,
            spec_key_index(bv, d, a@) <= bufs@.len(),
            spec_key_index(bv, d, a@) < bufs@.len() ==> bv[spec_key_index(bv, d, a@)].direction
                == d && bv[spec_key_index(bv, d, a@)].address == a@,
        decreases bufs@.len() - i,
    {
        let same_dir = bufs[i].direction == d;
        let same_addr = bufs[i].address.eq(a);
        if same_dir && same_addr {
            proof {
                lemma_key_index(bv, d, a@);
                assert(bv[i as int].direction == d && bv[i as int].address == a@);
                assert(spec_key_index(bv, d, a@) <= i);
            }
            return i;
        }
        proof {
            lemma_key_index(bv, d, a@);
            if spec_key_index(bv, d, a@) == i {
                assert(bv[i as int].direction == d && bv[i as int].address == a@);
            }
        }
        i = i + 1;
    }
    i
}

/// Reassembles SIP messages from the frames of a dump held in memory.
///
/// Datagram frames pass through one-to-one; stream frames accumulate in a
/// per-(direction, peer) buffer until whole messages can be cut. When the
/// frames end, every buffer is flushed, residue included.
pub struct MessageIterator {
    frames: FrameIterator,
    buffers: Vec<ConnectionBuffer>,
    ready: Vec<SipMessage>,
    exhausted: bool,
}

impl MessageIterator {
    /// Messages cut but not yet handed out.
    pub closed spec fn queued(&self) -> Seq<SipMessage> {
        self.ready@
    }

    /// Whether the frame stream has ended and the buffers were flushed.
    pub closed spec fn spec_exhausted(&self) -> bool {
        self.exhausted
    }

    /// The frame input not yet consumed.
    pub closed spec fn remaining_input(&self) -> Seq<u8> {
        self.frames.remaining()
    }

    /// Whether the frame decoder has yielded a record yet.
    pub closed spec fn input_started(&self) -> bool {
        self.frames.spec_started()
    }

    /// The per-(direction, peer) buffers, as their field values.
    pub closed spec fn bufs_model(&self) -> Seq<BufView> {
        bufs_view(self.buffers@)
    }

    pub closed spec fn wf(&self) -> bool {
        &&& self.frames.wf()
        &&& (forall|i: int|
            0 <= i < self.buffers@.len() ==> (#[trigger] self.buffers@[i]).transport
                != Transport::Udp)
        &&& (forall|i: int|
            0 <= i < self.ready@.len() ==> ((#[trigger] self.ready@[i]).transport
                == Transport::Udp ==> self.ready@[i].frame_count == 1))
    }

    /// Starts reassembling the dump `input`.
    pub fn new(input: Vec<u8>) -> (r: MessageIterator)
        ensures
            r.wf(),
            r.queued().len() == 0,
            r.remaining_input() == input@,
            !r.input_started(),
            r.bufs_model().len() == 0,
            !r.spec_exhausted(),
    {
        let r = MessageIterator {
            frames: FrameIterator::new(input),
            buffers: Vec::new(),
            ready: Vec::new(),
            exhausted: false,
        };
        proof {
            assert(bufs_view(r.buffers@) =~= Seq::<BufView>::empty());
        }
        r
    }

    /// Runs extract once more on every buffer, then empties each buffer
    /// into a final message carrying the bytes that never completed:
    /// exactly `spec_flush` of the buffers is queued, and no buffered
    /// byte is lost.
    fn flush_all(&mut self)
        requires
            old(self).wf(),
        ensures
            final(self).wf(),
            final(self).frames == old(self).frames,
            final(self).spec_exhausted() == old(self).spec_exhausted(),
            final(self).bufs_model().len() == 0,
            msgs_views(final(self).queued()) == msgs_views(old(self).queued()) + spec_flush(
                old(self).bufs_model(),
            ),
    {
        let mut bufs: Vec<ConnectionBuffer> = Vec::new();
        core::mem::swap(&mut bufs, &mut self.buffers);
        proof {
            assert(bufs_view(self.buffers@) =~= Seq::<BufView>::empty());
            assert(bufs_view(bufs@) =~= old(self).bufs_model());
        }
        let ghost flush_all_of = spec_flush(old(self).bufs_model());
        let ghost ready0 = msgs_views(old(self).queued());
        while bufs.len() > 0
            invariant
                self.wf(),
                self.frames == old(self).frames,
                self.spec_exhausted() == old(self).spec_exhausted(),
                self.buffers@.len() == 0,
                forall|j: int|
                    0 <= j < bufs@.len() ==> (#[trigger] bufs@[j]).transport != Transport::Udp,
                ready0 + flush_all_of == msgs_views(self.ready@) + spec_flush(bufs_view(bufs@)),
            decreases bufs@.len(),
        {
            let ghost bv_pre = bufs_view(bufs@);
            let mut b = bufs.remove(0);
            proof {
                assert(bufs_view(bufs@) =~= bv_pre.drop_first());
                assert(buf_view(b) == bv_pre[0]);
            }
            let ghost bv = buf_view(b);
            let ghost bt = b.transport;
            let mut msgs = extract_complete(&mut b);
            proof {
                assert(buf_view(b) == extract_rest(bv));
                assert(msgs_views(msgs@) =~= extract_views(bv));
            }
            let ghost emitted = extract_views(bv);
            let ghost ready_pre = msgs_views(self.ready@);
            while msgs.len() > 0
                invariant
                    self.wf(),
                    self.frames == old(self).frames,
                    self.spec_exhausted() == old(self).spec_exhausted(),
                    self.buffers@.len() == 0,
                    bt != Transport::Udp,
                    forall|q: int|
                        0 <= q < msgs@.len() ==> (#[trigger] msgs@[q]).transport == bt,
                    msgs_views(self.ready@) + msgs_views(msgs@) == ready_pre + emitted,
                decreases msgs@.len(),
            {
                let ghost mv_pre = msgs_views(msgs@);
                let m = msgs.remove(0);
                self.ready.push(m);
                proof {
                    assert(msgs_views(msgs@) =~= mv_pre.drop_first());
                    assert(msgs_views(self.ready@) =~= msgs_views(self.ready@.drop_last()).push(
                        msg_view(m),
                    ));
                }
            }
            proof {
                assert(msgs_views(msgs@) =~= Seq::<MsgView>::empty());
                assert(msgs_views(self.ready@) =~= ready_pre + emitted);
            }
            if b.content.len() > 0 {
                let residue = SipMessage {
                    direction: b.direction,
                    transport: b.transport,
                    address: b.address,
                    timestamp: b.timestamp,
                    content: b.content,
                    frame_count: b.frame_count,
                };
                let ghost ready_mid = msgs_views(self.ready@);
                self.ready.push(residue);
                proof {
                    assert(msgs_views(self.ready@) =~= ready_mid.push(msg_view(residue)));
                    assert(msg_view(residue) == (MsgView {
                        direction: extract_rest(bv).direction,
                        transport: extract_rest(bv).transport,
                        address: extract_rest(bv).address,
                        timestamp: extract_rest(bv).timestamp,
                        content: extract_rest(bv).content,
                        frame_count: extract_rest(bv).frame_count,
                    }));
                }
            }
            proof {
                assert(spec_flush(bv_pre) =~= emitted + (if extract_rest(bv).content.len() > 0 {
                    seq![
                        MsgView {
                            direction: extract_rest(bv).direction,
                            transport: extract_rest(bv).transport,
                            address: extract_rest(bv).address,
                            timestamp: extract_rest(bv).timestamp,
                            content: extract_rest(bv).content,
                            frame_count: extract_rest(bv).frame_count,
                        },
                    ]
                } else {
                    Seq::<MsgView>::empty()
                }) + spec_flush(bv_pre.drop_first()));
                assert(ready0 + flush_all_of =~= msgs_views(self.ready@) + spec_flush(
                    bufs_view(bufs@),
                ));
            }
        }
        proof {
            assert(bufs_view(bufs@) =~= Seq::<BufView>::empty());
            assert(spec_flush(Seq::<BufView>::empty()) =~= Seq::<MsgView>::empty());
            assert(msgs_views(self.ready@) =~= ready0 + flush_all_of);
        }
    }

    /// Yields the next reassembled message or a decoder error: the head of
    /// the queue first, else exactly what `spec_mnext` makes of the
    /// remaining frames and buffers — a datagram frame as one identical
    /// message, stream frames absorbed per (direction, peer) key with the
    /// completed messages cut out, and the flush of every buffer at end of
    /// input.
    #[verifier::rlimit(100)]
    pub fn next(&mut self) -> (r: Option<Result<SipMessage, ParseError>>)
        requires
            old(self).wf(),
        ensures
            final(self).wf(),
            old(self).queued().len() > 0 ==> (r matches Some(Ok(m)) && m == old(self).queued()[0] && final(self).queued() == old(self).queued().drop_first() && final(self).remaining_input() == old(self).remaining_input()
                && final(self).input_started() == old(self).input_started()
                && final(self).bufs_model() == old(self).bufs_model()
                && final(self).spec_exhausted() == old(self).spec_exhausted()),
            old(self).queued().len() == 0 && old(self).spec_exhausted() ==> r is None && *final(self) == *old(self),
            old(self).queued().len() == 0 && !old(self).spec_exhausted() ==> (match spec_mnext(
                old(self).remaining_input(),
                old(self).input_started(),
                old(self).bufs_model(),
            ) {
                MStep::MFlushed { queue } => final(self).spec_exhausted() && final(self).bufs_model().len() == 0 && (if queue.len() > 0 {
                    r matches Some(Ok(m)) && msg_view(m) == queue[0] && msgs_views(
                        final(self).queued(),
                    ) == queue.drop_first()
                } else {
                    r is None && final(self).queued().len() == 0
                }),
                MStep::MItem { msg, rem, bufs, queue } => r matches Some(Ok(m)) && msg_view(m)
                    == msg && final(self).remaining_input() == rem && final(self).input_started()
                    && final(self).bufs_model() == bufs && msgs_views(final(self).queued())
                    == queue && !final(self).spec_exhausted(),
                MStep::MErr { rem, bufs } => r matches Some(Err(e)) && (
                e matches ParseError::InvalidHeader(_)) && final(self).remaining_input() == rem
                    && final(self).bufs_model() == bufs && final(self).queued().len() == 0
                    && !final(self).spec_exhausted(),
            }),
            r matches Some(Ok(m)) ==> (m.transport == Transport::Udp ==> m.frame_count == 1),
            r matches Some(Err(e)) ==> e matches ParseError::InvalidHeader(_),
            r is None ==> final(self).queued().len() == 0 && final(self).spec_exhausted(),
    {
        if self.ready.len() > 0 {
            let m = self.ready.remove(0);
            assert(self.ready@ =~= old(self).queued().drop_first());
            return Some(Ok(m));
        }
        if self.exhausted {
            return None;
        }
        let ghost rem0 = self.remaining_input();
        let ghost started0 = self.input_started();
        let ghost bufs0 = self.bufs_model();
        loop
            invariant
                self.wf(),
                old(self).queued().len() == 0,
                !old(self).spec_exhausted(),
                self.queued().len() == 0,
                !self.spec_exhausted(),
                rem0 == old(self).remaining_input(),
                started0 == old(self).input_started(),
                bufs0 == old(self).bufs_model(),
                spec_mnext(rem0, started0, bufs0) == spec_mnext(
                    self.remaining_input(),
                    self.input_started(),
                    self.bufs_model(),
                ),
            decreases self.frames_remaining(),
        {
            let ghost rem_c = self.remaining_input();
            let ghost started_c = self.input_started();
            let ghost bufs_c = self.bufs_model();
            proof {
                self.frames.lemma_wf_bounds();
            }
            let stepped = self.frames.next();
            match stepped {
                Some(Ok(frame)) => {
                    let ghost fstep = crate::frame::spec_next(rem_c, started_c);
                    proof {
                        assert(fstep matches crate::frame::Step::Item(_));
                    }
                    let ghost it = (match fstep {
                        crate::frame::Step::Item(it) => it,
                        _ => arbitrary(),
                    });
                    proof {
                        assert(self.remaining_input() =~= rem_c.skip(it.next_pos));
                    }
                    if matches!(frame.transport, Transport::Udp) {
                        let m = udp_message(frame);
                        proof {
                            assert(msg_view(m) == (MsgView {
                                direction: it.header.direction,
                                transport: it.header.transport,
                                address: crate::types::lossy_utf8(it.header.addr),
                                timestamp: it.header.timestamp,
                                content: it.content,
                                frame_count: 1nat,
                            }));
                            assert(msgs_views(self.ready@) =~= Seq::<MsgView>::empty());
                        }
                        return Some(Ok(m));
                    }
                    let ghost ing = spec_ingest(
                        bufs_c,
                        it.header.direction,
                        crate::types::lossy_utf8(it.header.addr),
                        it.header.transport,
                        it.header.timestamp,
                        it.content,
                    );
                    proof {
                        assert(frame.direction == it.header.direction);
                        assert(frame.address@ == crate::types::lossy_utf8(it.header.addr));
                        assert(frame.transport == it.header.transport);
                        assert(frame.timestamp == it.header.timestamp);
                        assert(frame.content@ == it.content);
                    }
                    self.ingest(frame);
                    proof {
                        self.frames.lemma_wf_bounds();
                        assert(self.bufs_model() == ing.0);
                        assert(msgs_views(self.ready@) =~= ing.1);
                    }
                    if self.ready.len() > 0 {
                        let m = self.ready.remove(0);
                        proof {
                            assert(ing.1.len() > 0);
                            assert(spec_mnext(rem_c, started_c, bufs_c) == (MStep::MItem {
                                msg: ing.1[0],
                                rem: rem_c.skip(it.next_pos),
                                bufs: ing.0,
                                queue: ing.1.drop_first(),
                            }));
                            assert(msg_view(m) == ing.1[0]);
                            assert(msgs_views(self.ready@) =~= ing.1.drop_first());
                        }
                        return Some(Ok(m));
                    }
                    proof {
                        assert(ing.1.len() == 0);
                        assert(msgs_views(self.ready@).len() == 0);
                        assert(self.ready@.len() == 0);
                        assert(spec_mnext(rem_c, started_c, bufs_c) == spec_mnext(
                            rem_c.skip(it.next_pos),
                            true,
                            ing.0,
                        ));
                    }
                },
                Some(Err(e)) => {
                    let ghost fstep = crate::frame::spec_next(rem_c, started_c);
                    proof {
                        assert(fstep matches crate::frame::Step::Error { .. });
                        let np = (match fstep {
                            crate::frame::Step::Error { next_pos } => next_pos,
                            _ => arbitrary(),
                        });
                        assert(self.remaining_input() =~= rem_c.skip(np));
                        assert(msgs_views(self.ready@) =~= Seq::<MsgView>::empty());
                    }
                    return Some(Err(e));
                },
                None => {
                    proof {
                        assert(crate::frame::spec_next(rem_c, started_c)
                            == crate::frame::Step::Done);
                        assert(spec_mnext(rem_c, started_c, bufs_c) == (MStep::MFlushed {
                            queue: spec_flush(bufs_c),
                        }));
                    }
                    self.exhausted = true;
                    self.flush_all();
                    proof {
                        assert(msgs_views(self.ready@) =~= spec_flush(bufs_c));
                    }
                    if self.ready.len() > 0 {
                        let m = self.ready.remove(0);
                        proof {
                            assert(spec_flush(bufs_c).len() > 0);
                            assert(msg_view(m) == spec_flush(bufs_c)[0]);
                            assert(msgs_views(self.ready@) =~= spec_flush(bufs_c).drop_first());
                        }
                        return Some(Ok(m));
                    }
                    proof {
                        assert(spec_flush(bufs_c).len() == 0);
                    }
                    return None;
                },
            }
        }
    }

    /// Bytes of frame input not yet consumed; each absorbed frame shrinks it.
    pub closed spec fn frames_remaining(&self) -> int {
        self.frames.input().len() - self.frames.offset()
    }

    /// Appends one stream frame to its connection buffer (created on first
    /// sight) and moves every message that completes into the queue:
    /// exactly `spec_ingest` of the buffers and the frame's fields.
    #[verifier::rlimit(100)]
    fn ingest(&mut self, frame: Frame)
        requires
            old(self).wf(),
            frame.transport != Transport::Udp,
        ensures
            final(self).wf(),
            final(self).frames == old(self).frames,
            final(self).spec_exhausted() == old(self).spec_exhausted(),
            ({
                let (bufs2, msgs) = spec_ingest(
                    old(self).bufs_model(),
                    frame.direction,
                    frame.address@,
                    frame.transport,
                    frame.timestamp,
                    frame.content@,
                );
                final(self).bufs_model() == bufs2 && msgs_views(final(self).queued())
                    == msgs_views(old(self).queued()) + msgs
            }),
    {
        let ghost bv0 = self.bufs_model();
        let ghost d = frame.direction;
        let ghost a = frame.address@;
        let idx = buffer_index(&self.buffers, frame.direction, &frame.address);
        proof {
            lemma_key_index(bv0, d, a);
        }
        let ghost ki = spec_key_index(bv0, d, a);
        let mut b: ConnectionBuffer;
        if idx < self.buffers.len() {
            b = self.buffers.remove(idx);
            proof {
                assert(buf_view(b) == bv0[ki]);
                assert(bufs_view(self.buffers@) =~= bv0.remove(ki));
            }
        } else {
            b = ConnectionBuffer {
                direction: frame.direction,
                address: frame.address.clone(),
                transport: frame.transport,
                timestamp: frame.timestamp,
                content: Vec::new(),
                frame_count: 0,
            };
            proof {
                assert(buf_view(b) == (BufView {
                    direction: d,
                    address: a,
                    transport: frame.transport,
                    timestamp: frame.timestamp,
                    content: Seq::<u8>::empty(),
                    frame_count: 0nat,
                }));
            }
        }
        let ghost b0 = buf_view(b);
        if b.content.len() == 0 {
            b.timestamp = frame.timestamp;
        }
        b.content.extend_from_slice(frame.content.as_slice());
        b.frame_count = if b.frame_count == usize::MAX {
            b.frame_count
        } else {
            b.frame_count + 1
        };
        let ghost b1 = buf_view(b);
        proof {
            assert(b1.direction == b0.direction);
            assert(b1.address == b0.address);
            assert(b1.transport == b0.transport);
            assert(b1.timestamp == (if b0.content.len() == 0 {
                frame.timestamp
            } else {
                b0.timestamp
            }));
            assert(b1.content == b0.content + frame.content@);
            assert(b1.frame_count == (if b0.frame_count >= usize::MAX as nat {
                b0.frame_count
            } else {
                b0.frame_count + 1
            }));
            assert(b1 == (BufView {
                direction: b0.direction,
                address: b0.address,
                transport: b0.transport,
                timestamp: if b0.content.len() == 0 {
                    frame.timestamp
                } else {
                    b0.timestamp
                },
                content: b0.content + frame.content@,
                frame_count: if b0.frame_count >= usize::MAX as nat {
                    b0.frame_count
                } else {
                    b0.frame_count + 1
                },
            }));
        }
        let ghost bt = b.transport;
        let mut msgs = extract_complete(&mut b);
        proof {
            assert(buf_view(b) == extract_rest(b1));
            assert(msgs_views(msgs@) =~= extract_views(b1));
        }
        let ghost emitted = extract_views(b1);
        let ghost ready_pre = msgs_views(self.ready@);
        while msgs.len() > 0
            invariant
                self.wf(),
                self.frames == old(self).frames,
                self.spec_exhausted() == old(self).spec_exhausted(),
                bt != Transport::Udp,
                forall|q: int| 0 <= q < msgs@.len() ==> (#[trigger] msgs@[q]).transport == bt,
                msgs_views(self.ready@) + msgs_views(msgs@) == ready_pre + emitted,
                bufs_view(self.buffers@) == (if ki < bv0.len() {
                    bv0.remove(ki)
                } else {
                    bv0
                }),
            decreases msgs@.len(),
        {
            let ghost mv_pre = msgs_views(msgs@);
            let m = msgs.remove(0);
            self.ready.push(m);
            proof {
                assert(msgs_views(msgs@) =~= mv_pre.drop_first());
                assert(msgs_views(self.ready@) =~= msgs_views(self.ready@.drop_last()).push(
                    msg_view(m),
                ));
            }
        }
        proof {
            assert(msgs_views(msgs@) =~= Seq::<MsgView>::empty());
            assert(msgs_views(self.ready@) =~= ready_pre + emitted);
        }
        let ghost bufs_mid = bufs_view(self.buffers@);
        self.buffers.push(b);
        proof {
            assert(bufs_view(self.buffers@) =~= bufs_mid.push(extract_rest(b1)));
        }
    }
}

/// Shape of the method tokens: each ends in its one space and holds no/// Shape of the method tokens: each ends in its one space and holds no
/// line-break byte, and none opens like the response token.
pub proof fn lemma_method_tok_shape(k: int)
    requires
        0 <= k < 14,
    ensures
        spec_method_tok(k).len() >= 4,
        spec_method_tok(k).last() == 32,
        forall|j: int|
            0 <= j < spec_method_tok(k).len() - 1 ==> #[trigger] spec_method_tok(k)[j] != 32
                && spec_method_tok(k)[j] != 13 && spec_method_tok(k)[j] != 10,
        !(spec_method_tok(k)[0] == 'S' as u8 && spec_method_tok(k)[1] == 'I' as u8),
{
}

/// A recognised start stays recognised on any prefix that reaches past the
/// blank line at `he`.
proof fn lemma_sip_start_prefix(c: Seq<u8>, he: int, me: int)
    requires
        spec_is_sip_start(c),
        match_at(c, crlfcrlf(), he),
        he + 4 <= me <= c.len(),
    ensures
        spec_is_sip_start(c.take(me)),
{
    assert(c.subrange(he, he + 4)[0] == c[he]);
    assert(c[he] == 13);
    if match_at(c, tok_sip_resp(), 0) {
        let tok = tok_sip_resp();
        assert(forall|j: int| 0 <= j < tok.len() ==> c[j] == #[trigger] tok[j]) by {
            assert(forall|j: int|
                0 <= j < tok.len() ==> #[trigger] c.subrange(0, tok.len() as int)[j] == c[j]);
        }
        assert(he >= tok.len()) by {
            if he < tok.len() {
                assert(c[he] == tok[he]);
            }
        }
        assert(match_at(c.take(me), tok, 0)) by {
            assert(c.take(me).subrange(0, tok.len() as int) =~= tok);
        }
    } else {
        let k = choose|k: int| 0 <= k < 14 && match_at(c, #[trigger] spec_method_tok(k), 0);
        let tok = spec_method_tok(k);
        lemma_method_tok_shape(k);
        assert(forall|j: int| 0 <= j < tok.len() ==> c[j] == #[trigger] tok[j]) by {
            assert(forall|j: int|
                0 <= j < tok.len() ==> #[trigger] c.subrange(0, tok.len() as int)[j] == c[j]);
        }
        assert(he >= tok.len()) by {
            if he < tok.len() {
                assert(c[he] == tok[he]);
            }
        }
        assert(match_at(c.take(me), tok, 0)) by {
            assert(c.take(me).subrange(0, tok.len() as int) =~= tok);
        }
    }
}

/// Every message the extract procedure cuts begins with a recognised SIP
/// start line: extraction only ever cuts at starts it has verified.
pub proof fn lemma_extract_messages_sip(c: Seq<u8>)
    ensures
        forall|i: int|
            0 <= i < spec_extract(c).0.len() ==> spec_is_sip_start(#[trigger] spec_extract(c).0[i]),
    decreases c.len(),
{
    if c.len() == 0 {
    } else if !spec_is_sip_start(c) {
        let k = spec_crlf_run(c, 0);
        lemma_crlf_run_bounds(c, 0);
        if k > 0 && k < c.len() && spec_is_sip_start(c.skip(k)) {
            lemma_extract_messages_sip(c.skip(k));
            assert(spec_extract(c).0 == spec_extract(c.skip(k)).0);
        } else {
            match spec_find_sip_start(c) {
                Some(o) => {
                    if o > 0 {
                        lemma_scan_sip_bounds(c, 0);
                        lemma_extract_messages_sip(c.skip(o));
                        assert(spec_extract(c).0 == spec_extract(c.skip(o)).0);
                    } else {
                        assert(spec_extract(c).0 =~= Seq::<Seq<u8>>::empty());
                    }
                },
                None => {
                    assert(spec_extract(c).0 =~= Seq::<Seq<u8>>::empty());
                },
            }
        }
    } else {
        lemma_find_sub_from(c, crlfcrlf(), 0);
        match find_sub_from(c, crlfcrlf(), 0) {
            None => {},
            Some(he) => {
                let bs = he + 4;
                let me = (match spec_find_content_length(c) {
                    Some(cl) => bs + cl,
                    None => bs,
                });
                if me > c.len() {
                } else {
                    lemma_sip_start_prefix(c, he, me);
                    let rest0 = c.skip(me);
                    let kk = spec_crlf_drain(rest0, 0);
                    lemma_crlf_drain_bounds(rest0, 0);
                    lemma_extract_messages_sip(rest0.skip(kk));
                    let msgs = spec_extract(c).0;
                    let tail = spec_extract(rest0.skip(kk)).0;
                    assert(msgs =~= seq![c.take(me)] + tail);
                    assert(forall|i: int|
                        0 <= i < msgs.len() ==> spec_is_sip_start(#[trigger] msgs[i])) by {
                        assert(msgs[0] == c.take(me));
                        assert(forall|i: int| 1 <= i < msgs.len() ==> msgs[i] == tail[i - 1]);
                    }
                }
            },
        }
    }
}

/// One reassembled message, as its field values.
pub ghost struct MsgView {
    pub direction: Direction,
    pub transport: Transport,
    pub address: Seq<char>,
    pub timestamp: Timestamp,
    pub content: Seq<u8>,
    pub frame_count: nat,
}

/// One connection buffer, as its field values.
pub ghost struct BufView {
    pub direction: Direction,
    pub address: Seq<char>,
    pub transport: Transport,
    pub timestamp: Timestamp,
    pub content: Seq<u8>,
    pub frame_count: nat,
}

pub open spec fn msg_view(m: SipMessage) -> MsgView {
    MsgView {
        direction: m.direction,
        transport: m.transport,
        address: m.address@,
        timestamp: m.timestamp,
        content: m.content@,
        frame_count: m.frame_count as nat,
    }
}

pub open spec fn buf_view(b: ConnectionBuffer) -> BufView {
    BufView {
        direction: b.direction,
        address: b.address@,
        transport: b.transport,
        timestamp: b.timestamp,
        content: b.content@,
        frame_count: b.frame_count as nat,
    }
}

pub open spec fn bufs_view(s: Seq<ConnectionBuffer>) -> Seq<BufView> {
    s.map(|_i: int, b: ConnectionBuffer| buf_view(b))
}

pub open spec fn msgs_views(s: Seq<SipMessage>) -> Seq<MsgView> {
    s.map(|_i: int, m: SipMessage| msg_view(m))
}

/// Index of the buffer keyed by `d` and `a`; the sequence's length when
/// none is.
pub open spec fn spec_key_index(bufs: Seq<BufView>, d: Direction, a: Seq<char>) -> int
    decreases bufs.len(),
{
    if bufs.len() == 0 {
        0
    } else if bufs[0].direction == d && bufs[0].address == a {
        0
    } else {
        1 + spec_key_index(bufs.drop_first(), d, a)
    }
}

pub proof fn lemma_key_index(bufs: Seq<BufView>, d: Direction, a: Seq<char>)
    ensures
        ({
            let i = spec_key_index(bufs, d, a);
            &&& 0 <= i <= bufs.len()
            &&& (i < bufs.len() ==> bufs[i].direction == d && bufs[i].address == a)
            &&& (forall|j: int|
                0 <= j < i ==> !((#[trigger] bufs[j]).direction == d && bufs[j].address == a))
        }),
    decreases bufs.len(),
{
    if bufs.len() == 0 {
    } else if bufs[0].direction == d && bufs[0].address == a {
    } else {
        lemma_key_index(bufs.drop_first(), d, a);
        assert(forall|j: int| 1 <= j < bufs.len() ==> #[trigger] bufs[j] == bufs.drop_first()[
            j - 1]);
    }
}

/// The message views that one run of the extract procedure over a buffer
/// in state `b` emits: the cut contents, under the buffer's key and
/// timestamp; the first one carries the accumulated frame count.
pub open spec fn extract_views(b: BufView) -> Seq<MsgView> {
    let msgs = spec_extract(b.content).0;
    Seq::new(
        msgs.len(),
        |j: int|
            MsgView {
                direction: b.direction,
                transport: b.transport,
                address: b.address,
                timestamp: b.timestamp,
                content: msgs[j],
                frame_count: if j == 0 {
                    b.frame_count
                } else {
                    0
                },
            },
    )
}

/// The buffer after one run of the extract procedure.
pub open spec fn extract_rest(b: BufView) -> BufView {
    let (msgs, rest) = spec_extract(b.content);
    BufView {
        direction: b.direction,
        address: b.address,
        transport: b.transport,
        timestamp: b.timestamp,
        content: rest,
        frame_count: if msgs.len() > 0 {
            0
        } else {
            b.frame_count
        },
    }
}

/// What absorbing one stream frame does: the frame's content is appended
/// to its key's buffer (created on first sight; its timestamp refreshed
/// when the buffer was empty), the frame is counted, and every message
/// that completes is cut. Yields the buffers after and the messages cut.
pub open spec fn spec_ingest(
    bufs: Seq<BufView>,
    d: Direction,
    a: Seq<char>,
    tr: Transport,
    ts: Timestamp,
    content: Seq<u8>,
) -> (Seq<BufView>, Seq<MsgView>) {
    let i = spec_key_index(bufs, d, a);
    let b0 = if i < bufs.len() {
        bufs[i]
    } else {
        BufView {
            direction: d,
            address: a,
            transport: tr,
            timestamp: ts,
            content: Seq::empty(),
            frame_count: 0,
        }
    };
    let b1 = BufView {
        direction: b0.direction,
        address: b0.address,
        transport: b0.transport,
        timestamp: if b0.content.len() == 0 {
            ts
        } else {
            b0.timestamp
        },
        content: b0.content + content,
        frame_count: if b0.frame_count >= usize::MAX as nat {
            b0.frame_count
        } else {
            b0.frame_count + 1
        },
    };
    let msgs = extract_views(b1);
    let b2 = extract_rest(b1);
    let bufs2 = (if i < bufs.len() {
        bufs.remove(i)
    } else {
        bufs
    }).push(b2);
    (bufs2, msgs)
}

/// What flushing at end of input queues: for each buffer in order, the
/// messages one more extract run cuts, then one message holding any bytes
/// that never completed.
pub open spec fn spec_flush(bufs: Seq<BufView>) -> Seq<MsgView>
    decreases bufs.len(),
{
    if bufs.len() == 0 {
        Seq::empty()
    } else {
        let b = bufs[0];
        let msgs = extract_views(b);
        let b2 = extract_rest(b);
        let residue: Seq<MsgView> = if b2.content.len() > 0 {
            seq![
                MsgView {
                    direction: b2.direction,
                    transport: b2.transport,
                    address: b2.address,
                    timestamp: b2.timestamp,
                    content: b2.content,
                    frame_count: b2.frame_count,
                },
            ]
        } else {
            Seq::empty()
        };
        msgs + residue + spec_flush(bufs.drop_first())
    }
}

/// Outcome of asking the reassembler for the next message when its queue
/// is empty and the input has not ended.
pub ghost enum MStep {
    /// The frame stream ended: the buffers were flushed into this queue,
    /// whose head (if any) is handed out.
    MFlushed { queue: Seq<MsgView> },
    /// One message is handed out; `queue` holds the others that completed
    /// with it.
    MItem { msg: MsgView, rem: Seq<u8>, bufs: Seq<BufView>, queue: Seq<MsgView> },
    /// A decoder error item passes through.
    MErr { rem: Seq<u8>, bufs: Seq<BufView> },
}

/// What one call for the next message does: pull frames one at a time;
/// a datagram frame is one message as it stands; a stream frame is
/// absorbed, and the messages it completes are handed out; when nothing
/// completes, pull again; when the frames end, flush.
pub open spec fn spec_mnext(rem: Seq<u8>, started: bool, bufs: Seq<BufView>) -> MStep
    decreases rem.len() via spec_mnext_dec
{
    match crate::frame::spec_next(rem, started) {
        crate::frame::Step::Done => MStep::MFlushed { queue: spec_flush(bufs) },
        crate::frame::Step::Error { next_pos } => MStep::MErr {
            rem: rem.skip(next_pos),
            bufs,
        },
        crate::frame::Step::Item(it) => {
            let rem2 = rem.skip(it.next_pos);
            if it.header.transport == Transport::Udp {
                MStep::MItem {
                    msg: MsgView {
                        direction: it.header.direction,
                        transport: it.header.transport,
                        address: crate::types::lossy_utf8(it.header.addr),
                        timestamp: it.header.timestamp,
                        content: it.content,
                        frame_count: 1,
                    },
                    rem: rem2,
                    bufs,
                    queue: Seq::empty(),
                }
            } else {
                let (bufs2, msgs) = spec_ingest(
                    bufs,
                    it.header.direction,
                    crate::types::lossy_utf8(it.header.addr),
                    it.header.transport,
                    it.header.timestamp,
                    it.content,
                );
                if msgs.len() > 0 {
                    MStep::MItem { msg: msgs[0], rem: rem2, bufs: bufs2, queue: msgs.drop_first() }
                } else {
                    spec_mnext(rem2, true, bufs2)
                }
            }
        },
    }
}

#[via_fn]
proof fn spec_mnext_dec(rem: Seq<u8>, started: bool, bufs: Seq<BufView>) {
    crate::frame::lemma_spec_next_bounds(rem, started);
}

} // verus!
