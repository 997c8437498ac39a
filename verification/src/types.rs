//! The data model: directions, transports, timestamps, frames, reassembled
//! SIP messages, parsed SIP messages, and MIME body parts, together with the
//! header-lookup accessors and the canonical byte reconstruction.

use vstd::prelude::*;

use crate::ascii::dec_chars;
use crate::ascii::dec_digits;
use crate::ascii::eq_ignore_case;
use crate::ascii::eq_ignore_case_ex;
use crate::ascii::append_dec_u16;
use crate::ascii::push_dec_u16;
use crate::ascii::sbytes;
use crate::ascii::spec_dec_std;
use crate::ascii::parse_std_usize;
use crate::ascii::is_ws;
use crate::ascii::skip_ws;
use crate::ascii::skip_non_ws;
use crate::ascii::lemma_skip_ws;
use crate::ascii::is_ws_ex;

verus! {

/// Whether the traced socket operation read or wrote the bytes.
#[derive(Debug, Clone, Copy, PartialEq, Eq, Hash, Structural)]
pub enum Direction {
    Recv,
    Sent,
}

impl Direction {
    /// The preposition the dump header uses for this direction.
    pub fn preposition(&self) -> (r: &'static str)
        ensures
            *self == Direction::Recv ==> r@ == "from"@,
            *self == Direction::Sent ==> r@ == "to"@,
    {
        match self {
            Direction::Recv => "from",
            Direction::Sent => "to",
        }
    }
}

/// The transport a frame was captured on; UDP is the only datagram one.
#[derive(Debug, Clone, Copy, PartialEq, Eq, Structural)]
pub enum Transport {
    Tcp,
    Udp,
    Tls,
    Wss,
}

/// A capture time, with or without a calendar date.
#[derive(Debug, Clone, Copy, PartialEq, Eq, Structural)]
pub enum Timestamp {
    TimeOnly { hour: u8, min: u8, sec: u8, usec: u32 },
    DateTime { year: u16, month: u8, day: u8, hour: u8, min: u8, sec: u8, usec: u32 },
}

impl Timestamp {
    /// The lexicographic key under which timestamps order: date-less times
    /// sort as if on day zero, before any dated time.
    pub open spec fn spec_sort_key(self) -> (u16, u8, u8, u8, u8, u8, u32) {
        match self {
            Timestamp::TimeOnly { hour, min, sec, usec } => (0u16, 0u8, 0u8, hour, min, sec, usec),
            Timestamp::DateTime { year, month, day, hour, min, sec, usec } => (
                year,
                month,
                day,
                hour,
                min,
                sec,
                usec,
            ),
        }
    }

    pub fn sort_key(&self) -> (r: (u16, u8, u8, u8, u8, u8, u32))
        ensures
            r == self.spec_sort_key(),
    {
        match self {
            Timestamp::TimeOnly { hour, min, sec, usec } => (0, 0, 0, *hour, *min, *sec, *usec),
            Timestamp::DateTime { year, month, day, hour, min, sec, usec } => (
                *year,
                *month,
                *day,
                *hour,
                *min,
                *sec,
                *usec,
            ),
        }
    }
}

/// One socket read or write recovered from the dump.
#[derive(Debug, Clone)]
pub struct Frame {
    pub direction: Direction,
    /// The byte count the header line declared; under corruption it may
    /// disagree with `content.len()`, and both are kept.
    pub byte_count: usize,
    pub transport: Transport,
    pub address: String,
    pub timestamp: Timestamp,
    pub content: Vec<u8>,
}

/// One complete SIP message reassembled from one or more frames.
#[derive(Debug, Clone)]
pub struct SipMessage {
    pub direction: Direction,
    pub transport: Transport,
    pub address: String,
    /// Timestamp of the earliest frame that contributed to this message.
    pub timestamp: Timestamp,
    pub content: Vec<u8>,
    /// How many frames were concatenated; a message split off a buffer after
    /// another message from the same buffer carries zero.
    pub frame_count: usize,
}

/// A parsed start line: a request with its method and URI, or a response
/// with its status code and reason phrase.
#[derive(Debug, Clone, PartialEq, Eq)]
pub enum SipMessageType {
    Request { method: String, uri: String },
    Response { code: u16, reason: String },
}

impl SipMessageType {
    /// One-line description: the method of a request, or the code and
    /// reason of a response.
    pub fn summary(&self) -> (r: String)
        ensures
            match self {
                SipMessageType::Request { method, .. } => r@ == method@,
                SipMessageType::Response { code, reason } => r@ == dec_chars(*code as nat) + seq![
                    ' ',
                ] + reason@,
            },
    {
        match self {
            SipMessageType::Request { method, .. } => method.clone(),
            SipMessageType::Response { code, reason } => {
                let mut out = String::new();
                append_dec_u16(&mut out, *code);
                out.append(" ");
                out.append(reason.as_str());
                proof {
                    reveal_strlit(" ");
                    assert(out@ =~= dec_chars(*code as nat) + seq![' '] + reason@);
                }
                out
            },
        }
    }
}

/// A SIP message with its start line, headers and body taken apart.
#[derive(Debug, Clone)]
pub struct ParsedSipMessage {
    pub direction: Direction,
    pub transport: Transport,
    pub address: String,
    pub timestamp: Timestamp,
    pub message_type: SipMessageType,
    /// Wire order and duplicates preserved; names keep their wire case,
    /// values have leading whitespace trimmed.
    pub headers: Vec<(String, String)>,
    pub body: Vec<u8>,
    pub frame_count: usize,
}

/// One part of a multipart body: its own headers and body.
#[derive(Debug, Clone)]
pub struct MimePart {
    pub headers: Vec<(String, String)>,
    pub body: Vec<u8>,
}

/// The character sequence `String::from_utf8_lossy` decodes from arbitrary
/// bytes; it depends on the bytes alone.
pub uninterp spec fn lossy_utf8(b: Seq<u8>) -> Seq<char>;

/// Relies on String::from_utf8_lossy: bytes that already form valid UTF-8
/// decode to exactly that text; invalid sequences are replaced, never
/// dropped, so the text is empty exactly when the bytes are.
#[verifier::external_body]
pub(crate) fn bytes_to_string(b: &[u8]) -> (r: String)
    ensures
        r@ == lossy_utf8(b@),
        vstd::utf8::valid_utf8(b@) ==> r@ == vstd::utf8::decode_utf8(b@),
        (r@.len() == 0) == (b@.len() == 0),
{
    String::from_utf8_lossy(b).into_owned()
}

/// The headers as pairs of byte strings.
pub open spec fn header_bytes(h: Seq<(String, String)>) -> Seq<(Seq<u8>, Seq<u8>)> {
    h.map(|_i: int, p: (String, String)| (sbytes(p.0@), sbytes(p.1@)))
}

/// Value of the first header whose name equals `name` ignoring ASCII case.
pub open spec fn lookup_header(h: Seq<(Seq<u8>, Seq<u8>)>, name: Seq<u8>) -> Option<Seq<u8>>
    decreases h.len(),
{
    if h.len() == 0 {
        None
    } else if eq_ignore_case(h[0].0, name) {
        Some(h[0].1)
    } else {
        lookup_header(h.drop_first(), name)
    }
}

/// Value under the primary name, or under the alias when the primary one
/// is absent.
pub open spec fn lookup_header_alias(
    h: Seq<(Seq<u8>, Seq<u8>)>,
    name: Seq<u8>,
    alias: Seq<u8>,
) -> Option<Seq<u8>> {
    match lookup_header(h, name) {
        Some(v) => Some(v),
        None => lookup_header(h, alias),
    }
}

/// Skipping headers that do not match leaves the lookup unchanged.
pub proof fn lemma_lookup_header_skip(h: Seq<(Seq<u8>, Seq<u8>)>, name: Seq<u8>, i: int)
    requires
        0 <= i <= h.len(),
        forall|j: int| 0 <= j < i ==> !eq_ignore_case(#[trigger] h[j].0, name),
    ensures
        lookup_header(h, name) == lookup_header(h.skip(i), name),
    decreases i,
{
    if i == 0 {
        assert(h.skip(0) =~= h);
    } else {
        assert(!eq_ignore_case(h[0].0, name));
        assert(h.drop_first() =~= h.skip(1));
        assert(forall|j: int|
            0 <= j < i - 1 ==> !eq_ignore_case(#[trigger] h.skip(1)[j].0, name)) by {
            assert(forall|j: int| 0 <= j < i - 1 ==> h.skip(1)[j] == h[j + 1]);
        }
        lemma_lookup_header_skip(h.skip(1), name, i - 1);
        assert(h.skip(1).skip(i - 1) =~= h.skip(i));
    }
}

/// First header whose name case-insensitively equals `name`, as a fresh
/// `String`; `None` when no header matches.
fn lookup_header_ex(headers: &Vec<(String, String)>, name: &[u8]) -> (r: Option<String>)
    ensures
        match r {
            Some(v) => lookup_header(header_bytes(headers@), name@) == Some(sbytes(v@)),
            None => lookup_header(header_bytes(headers@), name@) == None::<Seq<u8>>,
        },
{
    let ghost h = header_bytes(headers@);
    let mut i: usize = 0;
    while i < headers.len()
        invariant
            i <= headers@.len(),
            h == header_bytes(headers@),
            forall|j: int| 0 <= j < i ==> !eq_ignore_case(#[trigger] h[j].0, name@),
        decreases headers@.len() - i,
    {
        let k: &String = &headers[i].0;
        if eq_ignore_case_ex(k.as_str().as_bytes(), name) {
            proof {
                lemma_lookup_header_skip(h, name@, i as int);
                assert(h.skip(i as int)[0] == h[i as int]);
                assert(h.skip(i as int).len() > 0);
            }
            let v = headers[i].1.clone();
            return Some(v);
        }
        i = i + 1;
    }
    proof {
        lemma_lookup_header_skip(h, name@, i as int);
        assert(h.skip(i as int).len() == 0);
    }
    None
}

impl MimePart {
    /// First header matching `name`, ignoring ASCII case.
    pub fn header_value(&self, name: &str) -> (r: Option<String>)
        ensures
            match r {
                Some(v) => lookup_header(header_bytes(self.headers@), sbytes(name@)) == Some(
                    sbytes(v@),
                ),
                None => lookup_header(header_bytes(self.headers@), sbytes(name@)) == None::<
                    Seq<u8>,
                >,
            },
    {
        lookup_header_ex(&self.headers, name.as_bytes())
    }

    pub fn content_type(&self) -> (r: Option<String>)
        ensures
            match r {
                Some(v) => lookup_header(header_bytes(self.headers@), sbytes("Content-Type"@))
                    == Some(sbytes(v@)),
                None => lookup_header(header_bytes(self.headers@), sbytes("Content-Type"@))
                    == None::<Seq<u8>>,
            },
    {
        self.header_value("Content-Type")
    }

    pub fn content_id(&self) -> (r: Option<String>)
        ensures
            match r {
                Some(v) => lookup_header(header_bytes(self.headers@), sbytes("Content-ID"@))
                    == Some(sbytes(v@)),
                None => lookup_header(header_bytes(self.headers@), sbytes("Content-ID"@)) == None::<
                    Seq<u8>,
                >,
            },
    {
        self.header_value("Content-ID")
    }

    pub fn content_disposition(&self) -> (r: Option<String>)
        ensures
            match r {
                Some(v) => lookup_header(
                    header_bytes(self.headers@),
                    sbytes("Content-Disposition"@),
                ) == Some(sbytes(v@)),
                None => lookup_header(header_bytes(self.headers@), sbytes("Content-Disposition"@))
                    == None::<Seq<u8>>,
            },
    {
        self.header_value("Content-Disposition")
    }
}

/// ASCII whitespace trimmed from both ends.
pub open spec fn trim_ws(s: Seq<u8>) -> Seq<u8> {
    let a = skip_ws(s, 0);
    let b = rskip_ws_at(s, s.len() as int, a);
    s.subrange(a, b)
}

/// Exclusive end of the whitespace run that finishes at `end`, never moving
/// below `floor`.
pub open spec fn rskip_ws_at(s: Seq<u8>, end: int, floor: int) -> int
    decreases end when 0 <= floor <= end <= s.len()
{
    if end <= floor {
        end
    } else if is_ws(s[end - 1]) {
        rskip_ws_at(s, end - 1, floor)
    } else {
        end
    }
}

pub proof fn lemma_rskip_ws_at(s: Seq<u8>, end: int, floor: int)
    requires
        0 <= floor <= end <= s.len(),
    ensures
        floor <= rskip_ws_at(s, end, floor) <= end,
        forall|j: int| rskip_ws_at(s, end, floor) <= j < end ==> is_ws(s[j]),
        rskip_ws_at(s, end, floor) > floor ==> !is_ws(s[rskip_ws_at(s, end, floor) - 1]),
    decreases end,
{
    if end > floor && is_ws(s[end - 1]) {
        lemma_rskip_ws_at(s, end - 1, floor);
    }
}

/// Trims ASCII whitespace from both ends of `s`.
pub(crate) fn trim_ws_ex(s: &[u8]) -> (r: Vec<u8>)
    ensures
        r@ == trim_ws(s@),
{
    proof {
        lemma_skip_ws(s@, 0);
    }
    let mut a: usize = 0;
    while a < s.len() && is_ws_ex(s[a])
        invariant
            a <= s@.len(),
            skip_ws(s@, 0) == skip_ws(s@, a as int),
            a as int <= skip_ws(s@, 0) <= s@.len(),
        decreases s@.len() - a,
    {
        a = a + 1;
        proof {
            lemma_skip_ws(s@, a as int);
        }
    }
    assert(a as int == skip_ws(s@, 0));
    let mut b: usize = s.len();
    proof {
        lemma_rskip_ws_at(s@, s@.len() as int, a as int);
    }
    while b > a && is_ws_ex(s[b - 1])
        invariant
            a <= b <= s@.len(),
            rskip_ws_at(s@, s@.len() as int, a as int) == rskip_ws_at(s@, b as int, a as int),
            a as int <= rskip_ws_at(s@, s@.len() as int, a as int) <= b as int,
        decreases b,
    {
        b = b - 1;
        proof {
            lemma_rskip_ws_at(s@, b as int, a as int);
        }
    }
    assert(b as int == rskip_ws_at(s@, s@.len() as int, a as int));
    let mut out: Vec<u8> = Vec::new();
    out.extend_from_slice(&s[a..b]);
    assert(out@ =~= trim_ws(s@));
    out
}

/// The declared content length: the `Content-Length` header, or its compact
/// form `l`, trimmed and read as a decimal number.
pub open spec fn spec_content_length(h: Seq<(Seq<u8>, Seq<u8>)>) -> Option<usize> {
    match lookup_header_alias(h, sbytes("Content-Length"@), sbytes("l"@)) {
        Some(v) => match spec_dec_std(trim_ws(v), usize::MAX as nat) {
            Some(n) => Some(n as usize),
            None => None,
        },
        None => None,
    }
}

/// Second ASCII-whitespace-separated token of `s`, if any.
pub open spec fn spec_second_token(s: Seq<u8>) -> Option<Seq<u8>> {
    let a = skip_ws(s, 0);
    let b = skip_non_ws(s, a);
    let c = skip_ws(s, b);
    let d = skip_non_ws(s, c);
    if c < s.len() {
        Some(s.subrange(c, d))
    } else {
        None
    }
}

/// Second whitespace-separated token of `s`, as a fresh vector.
fn second_token_ex(s: &[u8]) -> (r: Option<Vec<u8>>)
    ensures
        match r {
            Some(v) => spec_second_token(s@) == Some(v@),
            None => spec_second_token(s@) == None::<Seq<u8>>,
        },
{
    proof {
        lemma_skip_ws(s@, 0);
    }
    let mut a: usize = 0;
    while a < s.len() && is_ws_ex(s[a])
        invariant
            a <= s@.len(),
            skip_ws(s@, 0) == skip_ws(s@, a as int),
            a as int <= skip_ws(s@, 0) <= s@.len(),
        decreases s@.len() - a,
    {
        a = a + 1;
        proof {
            lemma_skip_ws(s@, a as int);
        }
    }
    assert(a as int == skip_ws(s@, 0));
    proof {
        lemma_skip_ws(s@, a as int);
    }
    let mut b: usize = a;
    while b < s.len() && !is_ws_ex(s[b])
        invariant
            a <= b <= s@.len(),
            skip_non_ws(s@, a as int) == skip_non_ws(s@, b as int),
            b as int <= skip_non_ws(s@, a as int) <= s@.len(),
        decreases s@.len() - b,
    {
        b = b + 1;
        proof {
            lemma_skip_ws(s@, b as int);
        }
    }
    assert(b as int == skip_non_ws(s@, a as int));
    proof {
        lemma_skip_ws(s@, b as int);
    }
    let mut c: usize = b;
    while c < s.len() && is_ws_ex(s[c])
        invariant
            b <= c <= s@.len(),
            skip_ws(s@, b as int) == skip_ws(s@, c as int),
            c as int <= skip_ws(s@, b as int) <= s@.len(),
        decreases s@.len() - c,
    {
        c = c + 1;
        proof {
            lemma_skip_ws(s@, c as int);
        }
    }
    assert(c as int == skip_ws(s@, b as int));
    if c >= s.len() {
        return None;
    }
    proof {
        lemma_skip_ws(s@, c as int);
    }
    let mut d: usize = c;
    while d < s.len() && !is_ws_ex(s[d])
        invariant
            c <= d <= s@.len(),
            skip_non_ws(s@, c as int) == skip_non_ws(s@, d as int),
            d as int <= skip_non_ws(s@, c as int) <= s@.len(),
        decreases s@.len() - d,
    {
        d = d + 1;
        proof {
            lemma_skip_ws(s@, d as int);
        }
    }
    assert(d as int == skip_non_ws(s@, c as int));
    let mut out: Vec<u8> = Vec::new();
    out.extend_from_slice(&s[c..d]);
    assert(out@ =~= s@.subrange(c as int, d as int));
    Some(out)
}

impl ParsedSipMessage {
    /// First header matching `name`, ignoring ASCII case.
    pub fn header_value(&self, name: &str) -> (r: Option<String>)
        ensures
            match r {
                Some(v) => lookup_header(header_bytes(self.headers@), sbytes(name@)) == Some(
                    sbytes(v@),
                ),
                None => lookup_header(header_bytes(self.headers@), sbytes(name@)) == None::<
                    Seq<u8>,
                >,
            },
    {
        lookup_header_ex(&self.headers, name.as_bytes())
    }

    /// The `Call-ID` header, or its compact form `i`.
    pub fn call_id(&self) -> (r: Option<String>)
        ensures
            match r {
                Some(v) => lookup_header_alias(
                    header_bytes(self.headers@),
                    sbytes("Call-ID"@),
                    sbytes("i"@),
                ) == Some(sbytes(v@)),
                None => lookup_header_alias(
                    header_bytes(self.headers@),
                    sbytes("Call-ID"@),
                    sbytes("i"@),
                ) == None::<Seq<u8>>,
            },
    {
        match self.header_value("Call-ID") {
            Some(v) => Some(v),
            None => self.header_value("i"),
        }
    }

    /// The `Content-Type` header, or its compact form `c`.
    pub fn content_type(&self) -> (r: Option<String>)
        ensures
            match r {
                Some(v) => lookup_header_alias(
                    header_bytes(self.headers@),
                    sbytes("Content-Type"@),
                    sbytes("c"@),
                ) == Some(sbytes(v@)),
                None => lookup_header_alias(
                    header_bytes(self.headers@),
                    sbytes("Content-Type"@),
                    sbytes("c"@),
                ) == None::<Seq<u8>>,
            },
    {
        match self.header_value("Content-Type") {
            Some(v) => Some(v),
            None => self.header_value("c"),
        }
    }

    /// The `Content-Length` header (or compact `l`) as a number.
    pub fn content_length(&self) -> (r: Option<usize>)
        ensures
            r == spec_content_length(header_bytes(self.headers@)),
    {
        let v = match self.header_value("Content-Length") {
            Some(v) => Some(v),
            None => self.header_value("l"),
        };
        match v {
            Some(v) => {
                let trimmed = trim_ws_ex(v.as_str().as_bytes());
                parse_std_usize(trimmed.as_slice())
            },
            None => None,
        }
    }

    /// The `CSeq` header.
    pub fn cseq(&self) -> (r: Option<String>)
        ensures
            match r {
                Some(v) => lookup_header(header_bytes(self.headers@), sbytes("CSeq"@)) == Some(
                    sbytes(v@),
                ),
                None => lookup_header(header_bytes(self.headers@), sbytes("CSeq"@)) == None::<
                    Seq<u8>,
                >,
            },
    {
        self.header_value("CSeq")
    }

    /// The request method; for a response, the method named in the second
    /// token of its `CSeq` header.
    pub fn method(&self) -> (r: Option<String>)
        ensures
            match self.message_type {
                SipMessageType::Request { .. } => r matches Some(m)
                    && self.message_type matches SipMessageType::Request { method, .. }
                    && m@ == method@,
                SipMessageType::Response { .. } => match lookup_header(
                    header_bytes(self.headers@),
                    sbytes("CSeq"@),
                ) {
                    Some(cs) => match spec_second_token(cs) {
                        Some(tok) => r matches Some(m) && m@ == lossy_utf8(tok),
                        None => r == None::<String>,
                    },
                    None => r == None::<String>,
                },
            },
    {
        match &self.message_type {
            SipMessageType::Request { method, .. } => Some(method.clone()),
            SipMessageType::Response { .. } => {
                match self.cseq() {
                    Some(cs) => {
                        match second_token_ex(cs.as_str().as_bytes()) {
                            Some(tok) => Some(bytes_to_string(tok.as_slice())),
                            None => None,
                        }
                    },
                    None => None,
                }
            },
        }
    }

    /// The body decoded as text, with invalid UTF-8 replaced.
    pub fn body_text(&self) -> (r: String)
        ensures
            r@ == lossy_utf8(self.body@),
            vstd::utf8::valid_utf8(self.body@) ==> r@ == vstd::utf8::decode_utf8(self.body@),
    {
        bytes_to_string(self.body.as_slice())
    }

    /// Rebuilds the wire form: start line, headers in order, blank line, body.
    pub fn to_bytes(&self) -> (r: Vec<u8>)
        ensures
            r@ == spec_to_bytes(*self),
    {
        let mut out: Vec<u8> = Vec::new();
        match &self.message_type {
            SipMessageType::Request { method, uri } => {
                out.extend_from_slice(method.as_str().as_bytes());
                out.push(32);
                out.extend_from_slice(uri.as_str().as_bytes());
                out.push(32);
                push_sip_version(&mut out);
            },
            SipMessageType::Response { code, reason } => {
                push_sip_version(&mut out);
                out.push(32);
                push_dec_u16(&mut out, *code);
                out.push(32);
                out.extend_from_slice(reason.as_str().as_bytes());
            },
        }
        out.push(13);
        out.push(10);
        assert(out@ =~= spec_start_line_bytes(self.message_type) + crlf());
        let ghost h = header_bytes(self.headers@);
        let mut i: usize = 0;
        while i < self.headers.len()
            invariant
                i <= self.headers@.len(),
                h == header_bytes(self.headers@),
                out@ == spec_start_line_bytes(self.message_type) + crlf() + spec_header_lines(
                    h.take(i as int),
                ),
            decreases self.headers@.len() - i,
        {
            out.extend_from_slice(self.headers[i].0.as_str().as_bytes());
            out.push(58);
            out.push(32);
            out.extend_from_slice(self.headers[i].1.as_str().as_bytes());
            out.push(13);
            out.push(10);
            proof {
                lemma_header_lines_snoc(h, i as int);
                assert(out@ =~= spec_start_line_bytes(self.message_type) + crlf()
                    + spec_header_lines(h.take(i as int + 1)));
            }
            i = i + 1;
        }
        assert(h.take(i as int) =~= h);
        out.push(13);
        out.push(10);
        out.extend_from_slice(self.body.as_slice());
        assert(out@ =~= spec_to_bytes(*self));
        out
    }
}

/// The bytes `SIP/2.0`.
pub open spec fn sip_version() -> Seq<u8> {
    seq!['S' as u8, 'I' as u8, 'P' as u8, '/' as u8, '2' as u8, '.' as u8, '0' as u8]
}

pub open spec fn crlf() -> Seq<u8> {
    seq![13u8, 10u8]
}

/// The CR LF pair as a vector.
pub fn crlf_vec() -> (v: Vec<u8>)
    ensures
        v@ == crlf(),
{
    let v: Vec<u8> = vec![13u8, 10u8];
    assert(v@ =~= crlf());
    v
}

/// Appends the bytes `SIP/2.0` to `out`.
pub fn push_sip_version(out: &mut Vec<u8>)
    ensures
        final(out)@ == old(out)@ + sip_version(),
{
    out.push('S' as u8);
    out.push('I' as u8);
    out.push('P' as u8);
    out.push('/' as u8);
    out.push('2' as u8);
    out.push('.' as u8);
    out.push('0' as u8);
    assert(final(out)@ =~= old(out)@ + sip_version());
}

/// The start line in wire form, without its line terminator.
pub open spec fn spec_start_line_bytes(t: SipMessageType) -> Seq<u8> {
    match t {
        SipMessageType::Request { method, uri } => sbytes(method@) + seq![32u8] + sbytes(uri@)
            + seq![32u8] + sip_version(),
        SipMessageType::Response { code, reason } => sip_version() + seq![32u8] + dec_digits(
            code as nat,
        ) + seq![32u8] + sbytes(reason@),
    }
}

/// The header region in wire form: one `name: value` line per header.
pub open spec fn spec_header_lines(h: Seq<(Seq<u8>, Seq<u8>)>) -> Seq<u8>
    decreases h.len(),
{
    if h.len() == 0 {
        Seq::empty()
    } else {
        h[0].0 + seq![58u8, 32u8] + h[0].1 + crlf() + spec_header_lines(h.drop_first())
    }
}

/// Appending one header extends the rendered header region by one line.
pub proof fn lemma_header_lines_snoc(h: Seq<(Seq<u8>, Seq<u8>)>, i: int)
    requires
        0 <= i < h.len(),
    ensures
        spec_header_lines(h.take(i + 1)) == spec_header_lines(h.take(i)) + h[i].0 + seq![
            58u8,
            32u8,
        ] + h[i].1 + crlf(),
    decreases i,
{
    if i == 0 {
        let one = h.take(1);
        assert(one[0] == h[0]);
        assert(one.drop_first() =~= Seq::empty());
        assert(h.take(0) =~= Seq::<(Seq<u8>, Seq<u8>)>::empty());
        assert(spec_header_lines(one) =~= Seq::empty() + h[0].0 + seq![58u8, 32u8] + h[0].1
            + crlf());
    } else {
        assert(h.take(i + 1).drop_first() =~= h.drop_first().take(i));
        assert(h.take(i).drop_first() =~= h.drop_first().take(i - 1));
        assert(h.drop_first()[i - 1] == h[i]);
        lemma_header_lines_snoc(h.drop_first(), i - 1);
        assert(h.take(i + 1)[0] == h[0]);
        assert(h.take(i)[0] == h[0]);
        assert(spec_header_lines(h.take(i + 1)) =~= spec_header_lines(h.take(i)) + h[i].0 + seq![
            58u8,
            32u8,
        ] + h[i].1 + crlf());
    }
}

/// The canonical wire form that `to_bytes` rebuilds.
pub open spec fn spec_to_bytes(p: ParsedSipMessage) -> Seq<u8> {
    spec_start_line_bytes(p.message_type) + crlf() + spec_header_lines(header_bytes(p.headers@))
        + crlf() + p.body@
}

} // verus!
