//! Laws of the wire parser.
//!
//! The central theorem (`lemma_parse_concat`): a buffer formed by
//! concatenating N self-contained well-formed messages parses to
//! exactly those N requests, in order, with no leftover bytes.
//!
//! The proof rests on an agreement principle: a message's parse reads
//! only the bytes of the window it consumes, so parsing is unchanged
//! when the window sits inside a larger buffer.

use vstd::prelude::*;

use crate::parse::{
    crlf, get_tag, http11_tag, http_tag, post_tag, spec_content_length, spec_header, spec_headers,
    spec_http11, spec_method, spec_parse_all, spec_parse_msg, spec_start_line, spec_uri,
    ParseError, ReqView,
};
use crate::text::{
    find_sub, is_ws, lemma_digits_val_nonneg, lemma_find_sub_found, lemma_find_sub_props, match_at,
    skip_ws_back, skip_ws_fwd, trimmed,
};

verus! {

/// The two buffers hold the same `w` bytes at their base positions.
pub open spec fn agree_window(s1: Seq<u8>, p1: int, s2: Seq<u8>, p2: int, w: int) -> bool {
    &&& 0 <= p1 && 0 <= p2 && 0 <= w
    &&& p1 + w <= s1.len() && p2 + w <= s2.len()
    &&& forall|j: int| 0 <= j < w ==> #[trigger] s1[p1 + j] == s2[p2 + j]
}

proof fn lemma_match_at_agree(
    s1: Seq<u8>,
    p1: int,
    s2: Seq<u8>,
    p2: int,
    w: int,
    pat: Seq<u8>,
    a: int,
)
    requires
        agree_window(s1, p1, s2, p2, w),
        0 <= a,
        a + pat.len() <= w,
    ensures
        match_at(s1, pat, p1 + a) <==> match_at(s2, pat, p2 + a),
{
    if match_at(s1, pat, p1 + a) {
        assert forall|j: int| 0 <= j < pat.len() implies s2[(p2 + a) + j] == pat[j] by {
            assert(s1[p1 + (a + j)] == s2[p2 + (a + j)]);
            assert(s1[(p1 + a) + j] == pat[j]);
        }
        assert(match_at(s2, pat, p2 + a));
    }
    if match_at(s2, pat, p2 + a) {
        assert forall|j: int| 0 <= j < pat.len() implies s1[(p1 + a) + j] == pat[j] by {
            assert(s1[p1 + (a + j)] == s2[p2 + (a + j)]);
            assert(s2[(p2 + a) + j] == pat[j]);
        }
        assert(match_at(s1, pat, p1 + a));
    }
}

proof fn lemma_find_sub_agree(
    s1: Seq<u8>,
    p1: int,
    s2: Seq<u8>,
    p2: int,
    w: int,
    pat: Seq<u8>,
    a: int,
    b: int,
)
    requires
        agree_window(s1, p1, s2, p2, w),
        0 <= a <= b,
        b + pat.len() <= w,
        find_sub(s1, pat, p1 + a) == Some(p1 + b),
    ensures
        find_sub(s2, pat, p2 + a) == Some(p2 + b),
{
    lemma_find_sub_props(s1, pat, p1 + a);
    lemma_match_at_agree(s1, p1, s2, p2, w, pat, b);
    assert forall|k: int| p2 + a <= k < p2 + b implies !match_at(s2, pat, k) by {
        let c = k - p2;
        lemma_match_at_agree(s1, p1, s2, p2, w, pat, c);
        assert(!match_at(s1, pat, p1 + c));
    }
    lemma_find_sub_found(s2, pat, p2 + a, p2 + b);
}

proof fn lemma_skip_ws_fwd_agree(
    s1: Seq<u8>,
    p1: int,
    s2: Seq<u8>,
    p2: int,
    w: int,
    a: int,
    b: int,
)
    requires
        agree_window(s1, p1, s2, p2, w),
        0 <= a <= b <= w,
    ensures
        skip_ws_fwd(s2, p2 + a, p2 + b) - p2 == skip_ws_fwd(s1, p1 + a, p1 + b) - p1,
    decreases b - a,
{
    if a < b {
        assert(s1[p1 + a] == s2[p2 + a]);
        if is_ws(s1[p1 + a]) {
            lemma_skip_ws_fwd_agree(s1, p1, s2, p2, w, a + 1, b);
        }
    }
}

proof fn lemma_skip_ws_back_agree(
    s1: Seq<u8>,
    p1: int,
    s2: Seq<u8>,
    p2: int,
    w: int,
    a: int,
    b: int,
)
    requires
        agree_window(s1, p1, s2, p2, w),
        0 <= a <= b <= w,
    ensures
        skip_ws_back(s2, p2 + a, p2 + b) - p2 == skip_ws_back(s1, p1 + a, p1 + b) - p1,
    decreases b - a,
{
    if a < b {
        assert(s1[p1 + (b - 1)] == s2[p2 + (b - 1)]);
        if is_ws(s1[p1 + b - 1]) {
            lemma_skip_ws_back_agree(s1, p1, s2, p2, w, a, b - 1);
        }
    }
}

proof fn lemma_trimmed_agree(s1: Seq<u8>, p1: int, s2: Seq<u8>, p2: int, w: int, a: int, b: int)
    requires
        agree_window(s1, p1, s2, p2, w),
        0 <= a <= b <= w,
    ensures
        trimmed(s2, p2 + a, p2 + b) == trimmed(s1, p1 + a, p1 + b),
{
    lemma_skip_ws_fwd_agree(s1, p1, s2, p2, w, a, b);
    crate::text::lemma_skip_ws_fwd_bounds(s1, p1 + a, p1 + b);
    let f = skip_ws_fwd(s1, p1 + a, p1 + b) - p1;
    assert(skip_ws_fwd(s2, p2 + a, p2 + b) == p2 + f);
    lemma_skip_ws_back_agree(s1, p1, s2, p2, w, f, b);
    crate::text::lemma_skip_ws_back_bounds(s1, p1 + f, p1 + b);
    let e = skip_ws_back(s1, p1 + f, p1 + b) - p1;
    assert(skip_ws_back(s2, p2 + f, p2 + b) == p2 + e);
    assert forall|k: int| 0 <= k < e - f implies #[trigger] s1.subrange(p1 + f, p1 + e)[k]
        == s2.subrange(p2 + f, p2 + e)[k] by {
        assert(s1[p1 + (f + k)] == s2[p2 + (f + k)]);
    }
    assert(s1.subrange(p1 + f, p1 + e) =~= s2.subrange(p2 + f, p2 + e));
}

proof fn lemma_method_agree(s1: Seq<u8>, p1: int, s2: Seq<u8>, p2: int, w: int, a: int)
    requires
        agree_window(s1, p1, s2, p2, w),
        0 <= a,
        spec_method(s1, p1 + a) is Some,
        (spec_method(s1, p1 + a)->Some_0.1) - p1 <= w,
    ensures
        spec_method(s2, p2 + a) matches Some(r2) && r2.0 == spec_method(s1, p1 + a)->Some_0.0
            && r2.1 - p2 == spec_method(s1, p1 + a)->Some_0.1 - p1,
{
    if match_at(s1, get_tag(), p1 + a) {
        lemma_match_at_agree(s1, p1, s2, p2, w, get_tag(), a);
    } else {
        lemma_match_at_agree(s1, p1, s2, p2, w, get_tag(), a);
        lemma_match_at_agree(s1, p1, s2, p2, w, post_tag(), a);
    }
}

proof fn lemma_start_line_agree(s1: Seq<u8>, p1: int, s2: Seq<u8>, p2: int, w: int, a: int, e: int)
    requires
        agree_window(s1, p1, s2, p2, w),
        0 <= a,
        spec_start_line(s1, p1 + a) matches Some(r1) && r1.1 == p1 + e,
        e <= w,
    ensures
        spec_start_line(s2, p2 + a) matches Some(r2) && r2.0 == spec_start_line(
            s1,
            p1 + a,
        )->Some_0.0 && r2.1 == p2 + e,
{
    let (m, pm) = spec_method(s1, p1 + a)->Some_0;
    let am = pm - p1;
    let h = find_sub(s1, http_tag(), pm)->Some_0 - p1;
    lemma_find_sub_props(s1, http_tag(), pm);
    // the version tag and line end pin every position inside the window
    assert(match_at(s1, http11_tag(), p1 + h));
    let ec = find_sub(s1, crlf(), p1 + h + 8)->Some_0 - p1;
    lemma_find_sub_props(s1, crlf(), p1 + h + 8);
    assert(e == ec + 2);
    assert(h + 8 <= ec);
    lemma_method_agree(s1, p1, s2, p2, w, a);
    lemma_find_sub_agree(s1, p1, s2, p2, w, http_tag(), am, h);
    lemma_trimmed_agree(s1, p1, s2, p2, w, am, h);
    lemma_match_at_agree(s1, p1, s2, p2, w, http11_tag(), h);
    lemma_find_sub_agree(s1, p1, s2, p2, w, crlf(), h + 8, ec);
    assert(spec_uri(s2, p2 + am) matches Some(u) && u.0 == trimmed(s1, p1 + am, p1 + h) && u.1
        == p2 + h);
    assert(spec_http11(s2, p2 + h) == Some(p2 + e));
}

proof fn lemma_header_agree(s1: Seq<u8>, p1: int, s2: Seq<u8>, p2: int, w: int, a: int, e: int)
    requires
        agree_window(s1, p1, s2, p2, w),
        0 <= a,
        spec_header(s1, p1 + a) matches Some(r1) && r1.1 == p1 + e,
        e <= w,
    ensures
        spec_header(s2, p2 + a) matches Some(r2) && r2.0 == spec_header(s1, p1 + a)->Some_0.0
            && r2.1 == p2 + e,
{
    let c = find_sub(s1, crate::parse::colon(), p1 + a)->Some_0 - p1;
    let el = find_sub(s1, crlf(), p1 + a)->Some_0 - p1;
    lemma_find_sub_props(s1, crate::parse::colon(), p1 + a);
    lemma_find_sub_props(s1, crlf(), p1 + a);
    assert(e == el + 2);
    lemma_find_sub_agree(s1, p1, s2, p2, w, crate::parse::colon(), a, c);
    lemma_find_sub_agree(s1, p1, s2, p2, w, crlf(), a, el);
    lemma_trimmed_agree(s1, p1, s2, p2, w, a, c);
    lemma_trimmed_agree(s1, p1, s2, p2, w, c + 1, el);
}

/// A parsed header line ends after its start and inside the buffer.
proof fn lemma_header_bounds(s: Seq<u8>, p: int)
    requires
        0 <= p,
        spec_header(s, p) is Some,
    ensures
        p + 2 <= spec_header(s, p)->Some_0.1 <= s.len(),
{
    lemma_find_sub_props(s, crate::parse::colon(), p);
    lemma_find_sub_props(s, crlf(), p);
}

/// A parsed start line ends after its start and inside the buffer.
proof fn lemma_start_line_bounds(s: Seq<u8>, p: int)
    requires
        0 <= p,
        spec_start_line(s, p) is Some,
    ensures
        p < spec_start_line(s, p)->Some_0.1 <= s.len(),
{
    let pm = spec_method(s, p)->Some_0.1;
    lemma_find_sub_props(s, http_tag(), pm);
    let h = find_sub(s, http_tag(), pm)->Some_0;
    lemma_find_sub_props(s, crlf(), h + 8);
}

/// A parsed header block ends after its start and inside the buffer.
proof fn lemma_headers_bounds(s: Seq<u8>, p: int)
    requires
        0 <= p,
        spec_headers(s, p) is Some,
    ensures
        p + 2 <= spec_headers(s, p)->Some_0.1 <= s.len(),
    decreases s.len() - p,
{
    if match_at(s, crlf(), p) {
    } else {
        let p2 = spec_header(s, p)->Some_0.1;
        lemma_header_bounds(s, p);
        if p < p2 <= s.len() {
            lemma_headers_bounds(s, p2);
        }
    }
}

proof fn lemma_headers_agree(s1: Seq<u8>, p1: int, s2: Seq<u8>, p2: int, w: int, a: int, e: int)
    requires
        agree_window(s1, p1, s2, p2, w),
        0 <= a,
        spec_headers(s1, p1 + a) matches Some(r1) && r1.1 == p1 + e,
        e <= w,
    ensures
        spec_headers(s2, p2 + a) matches Some(r2) && r2.0 == spec_headers(s1, p1 + a)->Some_0.0
            && r2.1 == p2 + e,
    decreases e - a,
{
    lemma_headers_bounds(s1, p1 + a);
    assert(a + 2 <= e);
    if match_at(s1, crlf(), p1 + a) {
        lemma_match_at_agree(s1, p1, s2, p2, w, crlf(), a);
    } else {
        lemma_match_at_agree(s1, p1, s2, p2, w, crlf(), a);
        let eh = spec_header(s1, p1 + a)->Some_0.1 - p1;
        lemma_header_bounds(s1, p1 + a);
        lemma_headers_bounds(s1, p1 + eh);
        assert(eh + 2 <= e);
        lemma_header_agree(s1, p1, s2, p2, w, a, eh);
        lemma_headers_agree(s1, p1, s2, p2, w, eh, e);
    }
}

/// A declared body length is never negative.
proof fn lemma_content_length_nonneg(hs: Seq<(Seq<u8>, Seq<u8>)>)
    ensures
        spec_content_length(hs) >= 0,
    decreases hs.len(),
{
    if hs.len() > 0 {
        lemma_content_length_nonneg(hs.drop_last());
        let v = hs.last().1;
        let body = if v.len() > 0 && v[0] == 43 {
            v.subrange(1, v.len() as int)
        } else {
            v
        };
        if body.len() > 0 && crate::text::all_digits(body) {
            lemma_digits_val_nonneg(body);
        }
    }
}

/// A parsed message consumes at least one byte and stays inside the
/// buffer.
pub proof fn lemma_msg_bounds(s: Seq<u8>, pos: int)
    requires
        0 <= pos,
        spec_parse_msg(s, pos) is Ok,
    ensures
        pos < spec_parse_msg(s, pos)->Ok_0.1 <= s.len(),
{
    let (mt, p1) = spec_start_line(s, pos)->Some_0;
    lemma_find_sub_props(s, http_tag(), spec_method(s, pos)->Some_0.1);
    let h = find_sub(s, http_tag(), spec_method(s, pos)->Some_0.1)->Some_0;
    lemma_find_sub_props(s, crlf(), h + 8);
    lemma_headers_bounds(s, p1);
    let hs = spec_headers(s, p1)->Some_0.0;
    lemma_content_length_nonneg(hs);
}

/// Parsing one message inside a larger buffer gives the same request
/// as parsing it alone: the parse reads only its own window.
proof fn lemma_msg_agree(s1: Seq<u8>, p1: int, s2: Seq<u8>, p2: int, w: int)
    requires
        agree_window(s1, p1, s2, p2, w),
        spec_parse_msg(s1, p1) matches Ok(r1) && r1.1 == p1 + w,
    ensures
        spec_parse_msg(s2, p2) matches Ok(r2) && r2.0 == spec_parse_msg(s1, p1)->Ok_0.0 && r2.1
            == p2 + w,
{
    let sl = spec_start_line(s1, p1)->Some_0;
    let e1 = sl.1 - p1;
    lemma_start_line_bounds(s1, p1);
    assert(0 < e1 <= s1.len() - p1);
    lemma_headers_bounds(s1, p1 + e1);
    let hs = spec_headers(s1, p1 + e1)->Some_0.0;
    let bs = spec_headers(s1, p1 + e1)->Some_0.1 - p1;
    lemma_content_length_nonneg(hs);
    let len = spec_content_length(hs);
    assert(bs + len == w);
    assert(e1 <= bs);
    lemma_start_line_agree(s1, p1, s2, p2, w, 0, e1);
    lemma_headers_agree(s1, p1, s2, p2, w, e1, bs);
    assert forall|k: int| 0 <= k < len implies #[trigger] s1.subrange(p1 + bs, p1 + bs + len)[k]
        == s2.subrange(p2 + bs, p2 + bs + len)[k] by {
        assert(s1[p1 + (bs + k)] == s2[p2 + (bs + k)]);
    }
    assert(s1.subrange(p1 + bs, p1 + bs + len) =~= s2.subrange(p2 + bs, p2 + bs + len));
}

/// Parsing a whole tail inside a larger buffer gives the same requests
/// as parsing the tail alone, when the windows line up to the end.
proof fn lemma_parse_all_agree(s1: Seq<u8>, p1: int, s2: Seq<u8>, p2: int)
    requires
        agree_window(s1, p1, s2, p2, s1.len() - p1),
        s1.len() - p1 == s2.len() - p2,
        spec_parse_all(s1, p1) is Ok,
    ensures
        spec_parse_all(s2, p2) == spec_parse_all(s1, p1),
    decreases s1.len() - p1,
{
    let w = s1.len() - p1;
    if p1 == s1.len() {
        assert(p2 == s2.len());
    } else {
        let (r, next1) = spec_parse_msg(s1, p1)->Ok_0;
        lemma_msg_bounds(s1, p1);
        let mw = next1 - p1;
        assert forall|j: int| 0 <= j < mw implies #[trigger] s1[p1 + j] == s2[p2 + j] by {
        }
        lemma_msg_agree(s1, p1, s2, p2, mw);
        assert forall|j: int| 0 <= j < s1.len() - next1 implies #[trigger] s1[next1 + j] == s2[(p2
            + mw) + j] by {
            assert(s1[p1 + (mw + j)] == s2[p2 + (mw + j)]);
        }
        assert(agree_window(s1, next1, s2, p2 + mw, s1.len() - next1));
        lemma_parse_all_agree(s1, next1, s2, p2 + mw);
    }
}

/// Concatenating self-contained well-formed messages parses to exactly
/// those requests, in order, with no leftover bytes: for `msgs` where
/// each element parses alone as one whole message yielding the
/// matching element of `reqs`, the flattened buffer parses to `reqs`.
pub proof fn lemma_parse_concat(msgs: Seq<Seq<u8>>, reqs: Seq<ReqView>)
    requires
        msgs.len() == reqs.len(),
        forall|i: int|
            0 <= i < msgs.len() ==> spec_parse_msg(#[trigger] msgs[i], 0) == Ok::<
                (ReqView, int),
                ParseError,
            >((reqs[i], msgs[i].len() as int)),
    ensures
        spec_parse_all(msgs.flatten(), 0) == Ok::<Seq<ReqView>, ParseError>(reqs),
    decreases msgs.len(),
{
    let flat = msgs.flatten();
    if msgs.len() == 0 {
        assert(flat =~= Seq::<u8>::empty());
        assert(reqs =~= Seq::<ReqView>::empty());
        assert(spec_parse_all(flat, 0) == Ok::<Seq<ReqView>, ParseError>(Seq::empty()));
    } else {
        let m0 = msgs.first();
        let rest = msgs.drop_first();
        assert(flat == m0 + rest.flatten());
        lemma_msg_bounds(m0, 0);
        let n0 = m0.len() as int;
        assert(0 < n0);
        assert forall|j: int| 0 <= j < n0 implies #[trigger] m0[0 + j] == flat[0 + j] by {
            assert(flat[j] == m0[j]);
        }
        assert(agree_window(m0, 0, flat, 0, n0));
        lemma_msg_agree(m0, 0, flat, 0, n0);
        assert(spec_parse_msg(flat, 0) == Ok::<(ReqView, int), ParseError>((reqs[0], n0)));
        assert(forall|i: int|
            0 <= i < rest.len() ==> spec_parse_msg(#[trigger] rest[i], 0) == Ok::<
                (ReqView, int),
                ParseError,
            >((reqs.drop_first()[i], rest[i].len() as int)));
        lemma_parse_concat(rest, reqs.drop_first());
        let rflat = rest.flatten();
        assert forall|j: int| 0 <= j < rflat.len() implies #[trigger] rflat[0 + j] == flat[n0 + j] by {
            assert(flat[n0 + j] == rflat[j]);
        }
        assert(agree_window(rflat, 0, flat, n0, rflat.len() as int));
        assert(flat.len() - n0 == rflat.len());
        lemma_parse_all_agree(rflat, 0, flat, n0);
        assert(spec_parse_all(flat, n0) == Ok::<Seq<ReqView>, ParseError>(reqs.drop_first()));
        assert(seq![reqs[0]] + reqs.drop_first() =~= reqs);
        assert(spec_parse_all(flat, 0) == Ok::<Seq<ReqView>, ParseError>(reqs));
    }
}

/// A message whose declared `Content-Length` exceeds the bytes present
/// fails the parse as incomplete.
pub proof fn lemma_truncated_body_incomplete(s: Seq<u8>, pos: int)
    requires
        0 <= pos,
        spec_start_line(s, pos) is Some,
        spec_headers(s, spec_start_line(s, pos)->Some_0.1) is Some,
        spec_content_length(
            spec_headers(s, spec_start_line(s, pos)->Some_0.1)->Some_0.0,
        ) > s.len() - spec_headers(s, spec_start_line(s, pos)->Some_0.1)->Some_0.1,
    ensures
        spec_parse_msg(s, pos) == Err::<(ReqView, int), ParseError>(ParseError::Incomplete),
{
}

} // verus!
