//! The wire-protocol parser: decodes pipelined `METHOD TARGET HTTP/1.1`
//! messages with header lines and `Content-Length`-framed bodies from a
//! byte buffer.
//!
//! The grammar is stated once, as spec functions over `Seq<u8>`
//! (`spec_parse_msg`, `spec_parse_all`); every executable parser is
//! proved to return exactly what the spec grammar says.

use vstd::prelude::*;

use crate::text::{
    bytes_eq, copy_range, dec_of, find_sub, match_at, parse_usize_dec, trim_copy, trimmed,
};

verus! {

/// The request verbs the server understands. Any other verb on the wire
/// is a parse error.
#[derive(Clone, Copy, PartialEq, Eq, Structural, Debug, Hash)]
pub enum Method {
    Get,
    Post,
}

/// The only protocol version the server accepts.
#[derive(Clone, Copy, PartialEq, Eq, Structural, Debug)]
pub enum Version {
    Http11,
}

/// One decoded request. Header order is preserved and names need not be
/// unique; the body bytes are copied out of the read buffer.
pub struct Request {
    pub method: Method,
    pub target: Vec<u8>,
    pub version: Version,
    pub headers: Vec<(Vec<u8>, Vec<u8>)>,
    pub body: Vec<u8>,
}

/// How a parse can fail: a start line that does not fit the grammar, a
/// header line without its colon/CRLF before the blank line, or a body
/// whose declared length exceeds the bytes present.
#[derive(Clone, Copy, PartialEq, Eq, Structural, Debug)]
pub enum ParseError {
    BadStartLine,
    BadHeader,
    Incomplete,
}

/// Mathematical model of a decoded request.
pub ghost struct ReqView {
    pub method: Method,
    pub target: Seq<u8>,
    pub headers: Seq<(Seq<u8>, Seq<u8>)>,
    pub body: Seq<u8>,
}

pub open spec fn headers_view(hs: Seq<(Vec<u8>, Vec<u8>)>) -> Seq<(Seq<u8>, Seq<u8>)> {
    hs.map_values(|p: (Vec<u8>, Vec<u8>)| (p.0@, p.1@))
}

impl View for Request {
    type V = ReqView;

    open spec fn view(&self) -> ReqView {
        ReqView {
            method: self.method,
            target: self.target@,
            headers: headers_view(self.headers@),
            body: self.body@,
        }
    }
}

// Byte strings of the grammar's literal tokens.
pub open spec fn crlf() -> Seq<u8> {
    seq![13u8, 10u8]
}

pub open spec fn colon() -> Seq<u8> {
    seq![58u8]
}

pub open spec fn get_tag() -> Seq<u8> {
    seq!['G' as u8, 'E' as u8, 'T' as u8]
}

pub open spec fn post_tag() -> Seq<u8> {
    seq!['P' as u8, 'O' as u8, 'S' as u8, 'T' as u8]
}

pub open spec fn http_tag() -> Seq<u8> {
    seq!['H' as u8, 'T' as u8, 'T' as u8, 'P' as u8]
}

pub open spec fn http11_tag() -> Seq<u8> {
    http_tag() + seq!['/' as u8, '1' as u8, '.' as u8, '1' as u8]
}

pub open spec fn content_length_name() -> Seq<u8> {
    seq![
        'C' as u8, 'o' as u8, 'n' as u8, 't' as u8, 'e' as u8, 'n' as u8, 't' as u8, '-' as u8,
        'L' as u8, 'e' as u8, 'n' as u8, 'g' as u8, 't' as u8, 'h' as u8,
    ]
}

/// A verb at `pos`: `GET` or `POST`.
pub open spec fn spec_method(s: Seq<u8>, pos: int) -> Option<(Method, int)> {
    if match_at(s, get_tag(), pos) {
        Some((Method::Get, pos + 3))
    } else if match_at(s, post_tag(), pos) {
        Some((Method::Post, pos + 4))
    } else {
        None
    }
}

/// The target: everything from `pos` up to the next literal `HTTP`,
/// trimmed of surrounding whitespace. The cursor stops at the `HTTP`.
pub open spec fn spec_uri(s: Seq<u8>, pos: int) -> Option<(Seq<u8>, int)> {
    match find_sub(s, http_tag(), pos) {
        Some(h) => Some((trimmed(s, pos, h), h)),
        None => None,
    }
}

/// The version tag: literally `HTTP/1.1`; anything after it on the line
/// is discarded up to and including the CRLF.
pub open spec fn spec_http11(s: Seq<u8>, pos: int) -> Option<int> {
    if match_at(s, http11_tag(), pos) {
        match find_sub(s, crlf(), pos + 8) {
            Some(e) => Some(e + 2),
            None => None,
        }
    } else {
        None
    }
}

/// The start line: verb, target, version.
pub open spec fn spec_start_line(s: Seq<u8>, pos: int) -> Option<((Method, Seq<u8>), int)> {
    match spec_method(s, pos) {
        None => None,
        Some((m, p1)) => match spec_uri(s, p1) {
            None => None,
            Some((target, h)) => match spec_http11(s, h) {
                None => None,
                Some(next) => Some(((m, target), next)),
            },
        },
    }
}

/// One header line `NAME:VALUE CRLF`: the colon must come before the
/// line's CRLF; name and value are trimmed.
pub open spec fn spec_header(s: Seq<u8>, pos: int) -> Option<((Seq<u8>, Seq<u8>), int)> {
    match (find_sub(s, colon(), pos), find_sub(s, crlf(), pos)) {
        (Some(c), Some(e)) => if c < e {
            Some(((trimmed(s, pos, c), trimmed(s, c + 1, e)), e + 2))
        } else {
            None
        },
        _ => None,
    }
}

/// The header block: header lines until the blank-line terminator, which
/// is checked at every line boundary and consumed.
pub open spec fn spec_headers(s: Seq<u8>, pos: int) -> Option<(Seq<(Seq<u8>, Seq<u8>)>, int)>
    decreases s.len() - pos,
    when 0 <= pos
{
    if match_at(s, crlf(), pos) {
        Some((Seq::empty(), pos + 2))
    } else {
        match spec_header(s, pos) {
            None => None,
            Some((h, p2)) => if pos < p2 <= s.len() {
                match spec_headers(s, p2) {
                    None => None,
                    Some((rest, e)) => Some((seq![h] + rest, e)),
                }
            } else {
                None
            },
        }
    }
}

/// The body length declared by the headers: the last `Content-Length`
/// header (exact, case-sensitive name) whose value parses as a decimal
/// `usize` wins; with none, the length is zero.
pub open spec fn spec_content_length(hs: Seq<(Seq<u8>, Seq<u8>)>) -> int
    decreases hs.len(),
{
    if hs.len() == 0 {
        0
    } else {
        let prev = spec_content_length(hs.drop_last());
        if hs.last().0 == content_length_name() {
            match dec_of(hs.last().1, usize::MAX as int) {
                Some(v) => v,
                None => prev,
            }
        } else {
            prev
        }
    }
}

/// One whole message starting at `pos`: start line, header block, then
/// exactly `Content-Length` bytes of body. `Incomplete` means the buffer
/// ends before the declared body does.
pub open spec fn spec_parse_msg(s: Seq<u8>, pos: int) -> Result<(ReqView, int), ParseError> {
    match spec_start_line(s, pos) {
        None => Err(ParseError::BadStartLine),
        Some(((m, target), p1)) => match spec_headers(s, p1) {
            None => Err(ParseError::BadHeader),
            Some((hs, body_start)) => {
                let len = spec_content_length(hs);
                if body_start + len <= s.len() {
                    Ok(
                        (
                            ReqView {
                                method: m,
                                target: target,
                                headers: hs,
                                body: s.subrange(body_start, body_start + len),
                            },
                            body_start + len,
                        ),
                    )
                } else {
                    Err(ParseError::Incomplete)
                }
            },
        },
    }
}

/// Every pipelined message from `pos` to the end of the buffer, in
/// order. A buffer that ends exactly at a message boundary parses; any
/// malformed or truncated message fails the whole parse.
pub open spec fn spec_parse_all(s: Seq<u8>, pos: int) -> Result<Seq<ReqView>, ParseError>
    decreases s.len() - pos,
    when 0 <= pos <= s.len()
{
    if pos == s.len() {
        Ok(Seq::empty())
    } else {
        match spec_parse_msg(s, pos) {
            Err(e) => Err(e),
            Ok((r, next)) => if pos < next <= s.len() {
                match spec_parse_all(s, next) {
                    Ok(rest) => Ok(seq![r] + rest),
                    Err(e) => Err(e),
                }
            } else {
                // a parsed message always consumes at least one byte
                // and stays inside the buffer, so this branch cannot
                // be reached; it only bounds the recursion
                Err(ParseError::BadStartLine)
            },
        }
    }
}

// ---------------------------------------------------------------------
// Executable parsers, each proved against the spec grammar.
// ---------------------------------------------------------------------

/// `pat` occurs in `s` at `pos`.
fn match_bytes_at(s: &[u8], pos: usize, pat: &[u8]) -> (r: bool)
    ensures
        r <==> match_at(s@, pat@, pos as int),
{
    if pos > s.len() || pat.len() > s.len() - pos {
        return false;
    }
    let n: usize = pat.len();
    let mut j: usize = 0;
    while j < n
        invariant
            n == pat@.len(),
            pos + n <= s@.len(),
            0 <= j <= n,
            forall|k: int| 0 <= k < j ==> s@[pos + k] == pat@[k],
        decreases n - j,
    {
        proof {
            crate::text::lemma_slice_len_bound(s);
        }
        if s[pos + j] != pat[j] {
            return false;
        }
        j = j + 1;
    }
    true
}

/// First occurrence of `pat` in `s` at or after `from`.
pub(crate) fn find_bytes(s: &[u8], from: usize, pat: &[u8]) -> (r: Option<usize>)
    requires
        from <= s@.len(),
        1 <= pat@.len(),
    ensures
        match r {
            Some(i) => find_sub(s@, pat@, from as int) == Some(i as int) && from <= i
                && i + pat@.len() <= s@.len(),
            None => find_sub(s@, pat@, from as int) is None,
        },
{
    if pat.len() > s.len() {
        proof {
            crate::text::lemma_find_sub_missing(s@, pat@, from as int);
        }
        return None;
    }
    let bound: usize = s.len() - pat.len();
    let mut i: usize = from;
    while i <= bound
        invariant
            from <= i,
            bound == s@.len() - pat@.len(),
            1 <= pat@.len(),
            forall|k: int| from <= k < i ==> !match_at(s@, pat@, k),
        decreases bound + 1 - i,
    {
        proof {
            crate::text::lemma_slice_len_bound(s);
        }
        if match_bytes_at(s, i, pat) {
            proof {
                crate::text::lemma_find_sub_found(s@, pat@, from as int, i as int);
            }
            return Some(i);
        }
        i = i + 1;
    }
    proof {
        assert(forall|k: int| from <= k ==> !match_at(s@, pat@, k));
        crate::text::lemma_find_sub_missing(s@, pat@, from as int);
    }
    None
}

// Executable copies of the grammar's literal tokens.
fn crlf_pat() -> (v: Vec<u8>)
    ensures
        v@ =~= crlf(),
{
    let mut v: Vec<u8> = Vec::new();
    v.push(13);
    v.push(10);
    v
}

fn colon_pat() -> (v: Vec<u8>)
    ensures
        v@ =~= colon(),
{
    let mut v: Vec<u8> = Vec::new();
    v.push(58);
    v
}

fn get_pat() -> (v: Vec<u8>)
    ensures
        v@ =~= get_tag(),
{
    let mut v: Vec<u8> = Vec::new();
    v.push(71);
    v.push(69);
    v.push(84);
    v
}

fn post_pat() -> (v: Vec<u8>)
    ensures
        v@ =~= post_tag(),
{
    let mut v: Vec<u8> = Vec::new();
    v.push(80);
    v.push(79);
    v.push(83);
    v.push(84);
    v
}

fn http_pat() -> (v: Vec<u8>)
    ensures
        v@ =~= http_tag(),
{
    let mut v: Vec<u8> = Vec::new();
    v.push(72);
    v.push(84);
    v.push(84);
    v.push(80);
    v
}

fn http11_pat() -> (v: Vec<u8>)
    ensures
        v@ =~= http11_tag(),
{
    let mut v: Vec<u8> = Vec::new();
    v.push(72);
    v.push(84);
    v.push(84);
    v.push(80);
    v.push(47);
    v.push(49);
    v.push(46);
    v.push(49);
    v
}

fn content_length_pat() -> (v: Vec<u8>)
    ensures
        v@ =~= content_length_name(),
{
    let mut v: Vec<u8> = Vec::new();
    v.push(67);
    v.push(111);
    v.push(110);
    v.push(116);
    v.push(101);
    v.push(110);
    v.push(116);
    v.push(45);
    v.push(76);
    v.push(101);
    v.push(110);
    v.push(103);
    v.push(116);
    v.push(104);
    v
}

/// Recognizes `GET` at `pos`, returning the cursor after it.
pub fn get(s: &[u8], pos: usize) -> (r: Option<usize>)
    requires
        pos <= s@.len(),
    ensures
        match r {
            Some(next) => match_at(s@, get_tag(), pos as int) && next == pos + 3,
            None => !match_at(s@, get_tag(), pos as int),
        },
{
    proof {
        crate::text::lemma_slice_len_bound(s);
    }
    let p = get_pat();
    if match_bytes_at(s, pos, p.as_slice()) {
        Some(pos + 3)
    } else {
        None
    }
}

/// Recognizes `POST` at `pos`, returning the cursor after it.
pub fn post(s: &[u8], pos: usize) -> (r: Option<usize>)
    requires
        pos <= s@.len(),
    ensures
        match r {
            Some(next) => match_at(s@, post_tag(), pos as int) && next == pos + 4,
            None => !match_at(s@, post_tag(), pos as int),
        },
{
    proof {
        crate::text::lemma_slice_len_bound(s);
    }
    let p = post_pat();
    if match_bytes_at(s, pos, p.as_slice()) {
        Some(pos + 4)
    } else {
        None
    }
}

/// Recognizes a supported verb at `pos`.
pub fn method(s: &[u8], pos: usize) -> (r: Option<(Method, usize)>)
    requires
        pos <= s@.len(),
    ensures
        match r {
            Some((m, next)) => spec_method(s@, pos as int) == Some((m, next as int)),
            None => spec_method(s@, pos as int) is None,
        },
{
    match get(s, pos) {
        Some(next) => Some((Method::Get, next)),
        None => match post(s, pos) {
            Some(next) => Some((Method::Post, next)),
            None => None,
        },
    }
}

/// Takes the target: the trimmed text before the literal `HTTP`. The
/// returned cursor points at that `HTTP`.
pub fn uri(s: &[u8], pos: usize) -> (r: Option<(Vec<u8>, usize)>)
    requires
        pos <= s@.len(),
    ensures
        match r {
            Some((t, next)) => spec_uri(s@, pos as int) == Some((t@, next as int))
                && pos <= next <= s@.len(),
            None => spec_uri(s@, pos as int) is None,
        },
{
    let p = http_pat();
    match find_bytes(s, pos, p.as_slice()) {
        Some(h) => {
            proof {
                crate::text::lemma_find_sub_props(s@, http_tag(), pos as int);
            }
            let t = trim_copy(s, pos, h);
            Some((t, h))
        },
        None => None,
    }
}

/// Recognizes the version tag `HTTP/1.1` at `pos` and discards the rest
/// of the line through its CRLF.
pub fn http11(s: &[u8], pos: usize) -> (r: Option<usize>)
    requires
        pos <= s@.len(),
    ensures
        match r {
            Some(next) => spec_http11(s@, pos as int) == Some(next as int)
                && pos < next <= s@.len(),
            None => spec_http11(s@, pos as int) is None,
        },
{
    proof {
        crate::text::lemma_slice_len_bound(s);
    }
    let p = http11_pat();
    if !match_bytes_at(s, pos, p.as_slice()) {
        return None;
    }
    let c = crlf_pat();
    match find_bytes(s, pos + 8, c.as_slice()) {
        Some(e) => Some(e + 2),
        None => None,
    }
}

/// Parses the start line `METHOD TARGET HTTP/1.1 CRLF` at `pos`.
pub fn start_line(s: &[u8], pos: usize) -> (r: Option<((Method, Vec<u8>), usize)>)
    requires
        pos <= s@.len(),
    ensures
        match r {
            Some(((m, t), next)) => spec_start_line(s@, pos as int) == Some(
                ((m, t@), next as int),
            ) && pos < next <= s@.len(),
            None => spec_start_line(s@, pos as int) is None,
        },
{
    match method(s, pos) {
        None => None,
        Some((m, p1)) => match uri(s, p1) {
            None => None,
            Some((t, h)) => match http11(s, h) {
                None => None,
                Some(next) => Some(((m, t), next)),
            },
        },
    }
}

/// Parses one header line `NAME:VALUE CRLF` at `pos`.
pub fn header(s: &[u8], pos: usize) -> (r: Option<((Vec<u8>, Vec<u8>), usize)>)
    requires
        pos <= s@.len(),
    ensures
        match r {
            Some(((n, v), next)) => spec_header(s@, pos as int) == Some(
                ((n@, v@), next as int),
            ) && pos < next <= s@.len(),
            None => spec_header(s@, pos as int) is None,
        },
{
    proof {
        crate::text::lemma_slice_len_bound(s);
    }
    let cp = colon_pat();
    let ep = crlf_pat();
    let c_opt = find_bytes(s, pos, cp.as_slice());
    let e_opt = find_bytes(s, pos, ep.as_slice());
    match (c_opt, e_opt) {
        (Some(c), Some(e)) => {
            if c < e {
                let name = trim_copy(s, pos, c);
                let value = trim_copy(s, c + 1, e);
                Some(((name, value), e + 2))
            } else {
                None
            }
        },
        _ => None,
    }
}

/// Recognizes the blank-line terminator at `pos`.
pub fn end_headers(s: &[u8], pos: usize) -> (r: Option<usize>)
    requires
        pos <= s@.len(),
    ensures
        match r {
            Some(next) => match_at(s@, crlf(), pos as int) && next == pos + 2
                && next <= s@.len(),
            None => !match_at(s@, crlf(), pos as int),
        },
{
    proof {
        crate::text::lemma_slice_len_bound(s);
    }
    let c = crlf_pat();
    if match_bytes_at(s, pos, c.as_slice()) {
        Some(pos + 2)
    } else {
        None
    }
}

/// Parses the whole header block at `pos`, through its terminator.
fn parse_headers(s: &[u8], pos: usize) -> (r: Option<(Vec<(Vec<u8>, Vec<u8>)>, usize)>)
    requires
        pos <= s@.len(),
    ensures
        match r {
            Some((hs, next)) => spec_headers(s@, pos as int) == Some(
                (headers_view(hs@), next as int),
            ) && pos < next <= s@.len(),
            None => spec_headers(s@, pos as int) is None,
        },
{
    let mut acc: Vec<(Vec<u8>, Vec<u8>)> = Vec::new();
    let mut p: usize = pos;
    loop
        invariant
            pos <= p <= s@.len(),
            spec_headers(s@, pos as int) == (match spec_headers(s@, p as int) {
                Some((rest, e)) => Some::<(Seq<(Seq<u8>, Seq<u8>)>, int)>(
                    (headers_view(acc@) + rest, e),
                ),
                None => None::<(Seq<(Seq<u8>, Seq<u8>)>, int)>,
            }),
        decreases s@.len() - p,
    {
        match end_headers(s, p) {
            Some(next) => {
                proof {
                    assert(spec_headers(s@, p as int) == Some(
                        (Seq::<(Seq<u8>, Seq<u8>)>::empty(), next as int),
                    ));
                    assert(headers_view(acc@) + Seq::<(Seq<u8>, Seq<u8>)>::empty()
                        =~= headers_view(acc@));
                }
                return Some((acc, next));
            },
            None => {
            },
        }
        match header(s, p) {
            None => {
                return None;
            },
            Some(((n, v), p2)) => {
                proof {
                    let ghost old_acc = acc@;
                    assert(spec_headers(s@, p as int) == (match spec_headers(s@, p2 as int) {
                        Some((rest, e)) => Some::<(Seq<(Seq<u8>, Seq<u8>)>, int)>(
                            (seq![(n@, v@)] + rest, e),
                        ),
                        None => None::<(Seq<(Seq<u8>, Seq<u8>)>, int)>,
                    }));
                }
                let ghost old_acc = acc@;
                acc.push((n, v));
                proof {
                    assert(headers_view(acc@) =~= headers_view(old_acc) + seq![(n@, v@)]);
                    assert(forall|rest: Seq<(Seq<u8>, Seq<u8>)>|
                        (headers_view(old_acc) + seq![(n@, v@)]) + rest =~= headers_view(old_acc)
                            + (seq![(n@, v@)] + rest));
                }
                p = p2;
            },
        }
    }
}

/// The declared body length of a decoded header list.
fn content_length_of(hs: &Vec<(Vec<u8>, Vec<u8>)>) -> (r: usize)
    ensures
        r as int == spec_content_length(headers_view(hs@)),
{
    let cl = content_length_pat();
    let mut len: usize = 0;
    let mut i: usize = 0;
    while i < hs.len()
        invariant
            0 <= i <= hs@.len(),
            cl@ == content_length_name(),
            len as int == spec_content_length(headers_view(hs@).take(i as int)),
        decreases hs@.len() - i,
    {
        proof {
            assert(headers_view(hs@).take(i + 1).drop_last() =~= headers_view(hs@).take(
                i as int,
            ));
            assert(headers_view(hs@).take(i + 1).last() == (hs@[i as int].0@, hs@[i as int].1@));
        }
        if bytes_eq(hs[i].0.as_slice(), cl.as_slice()) {
            match parse_usize_dec(hs[i].1.as_slice()) {
                Some(v) => {
                    len = v;
                },
                None => {
                },
            }
        }
        i = i + 1;
    }
    proof {
        assert(headers_view(hs@).take(hs@.len() as int) =~= headers_view(hs@));
    }
    len
}

/// Parses one whole message at `pos`, returning the decoded request and
/// the cursor just past its body.
pub fn parse_http_request(s: &[u8], pos: usize) -> (r: Result<(Request, usize), ParseError>)
    requires
        pos <= s@.len(),
    ensures
        match r {
            Ok((req, next)) => spec_parse_msg(s@, pos as int) == Ok::<(ReqView, int), ParseError>(
                (req@, next as int),
            ) && pos < next <= s@.len(),
            Err(e) => spec_parse_msg(s@, pos as int) == Err::<(ReqView, int), ParseError>(e),
        },
{
    let (m, target, p1) = match start_line(s, pos) {
        Some(((m, t), p1)) => (m, t, p1),
        None => {
            return Err(ParseError::BadStartLine);
        },
    };
    let (headers, body_start) = match parse_headers(s, p1) {
        Some((hs, next)) => (hs, next),
        None => {
            return Err(ParseError::BadHeader);
        },
    };
    let len = content_length_of(&headers);
    if len <= s.len() - body_start {
        let body = copy_range(s, body_start, body_start + len);
        let req = Request {
            method: m,
            target,
            version: Version::Http11,
            headers,
            body,
        };
        Ok((req, body_start + len))
    } else {
        Err(ParseError::Incomplete)
    }
}

pub open spec fn reqs_view(rs: Seq<Request>) -> Seq<ReqView> {
    rs.map_values(|r: Request| r@)
}

/// Decodes every pipelined message in the buffer, in order. Fails the
/// whole call if any message is malformed or if the final message is
/// incomplete.
pub fn parse_buffer(s: &[u8]) -> (r: Result<Vec<Request>, ParseError>)
    ensures
        match r {
            Ok(reqs) => spec_parse_all(s@, 0) == Ok::<Seq<ReqView>, ParseError>(reqs_view(reqs@)),
            Err(e) => spec_parse_all(s@, 0) == Err::<Seq<ReqView>, ParseError>(e),
        },
{
    let mut reqs: Vec<Request> = Vec::new();
    let mut pos: usize = 0;
    while pos < s.len()
        invariant
            0 <= pos <= s@.len(),
            spec_parse_all(s@, 0) == (match spec_parse_all(s@, pos as int) {
                Ok(rest) => Ok::<Seq<ReqView>, ParseError>(reqs_view(reqs@) + rest),
                Err(e) => Err::<Seq<ReqView>, ParseError>(e),
            }),
        decreases s@.len() - pos,
    {
        match parse_http_request(s, pos) {
            Ok((req, next)) => {
                let ghost old_reqs = reqs@;
                reqs.push(req);
                proof {
                    assert(reqs_view(reqs@) =~= reqs_view(old_reqs) + seq![req@]);
                    assert(forall|rest: Seq<ReqView>|
                        (reqs_view(old_reqs) + seq![req@]) + rest =~= reqs_view(old_reqs) + (
                        seq![req@] + rest));
                }
                pos = next;
            },
            Err(e) => {
                return Err(e);
            },
        }
    }
    proof {
        assert(spec_parse_all(s@, pos as int) == Ok::<Seq<ReqView>, ParseError>(Seq::empty()));
        assert(reqs_view(reqs@) + Seq::<ReqView>::empty() =~= reqs_view(reqs@));
    }
    Ok(reqs)
}

} // verus!
