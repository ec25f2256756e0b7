//! The route table and dispatcher: method + path-pattern routing with
//! literal and `:name` parameter segments, query-string decoding, and
//! the handlers of the chat API.
//!
//! A route table is built once through `RouterBuilder` and then only
//! read. Lookup prefers literal segments over parameter segments at the
//! first position where two matching patterns differ; among routes of
//! equal preference the latest registered wins.

use vstd::prelude::*;

use crate::chat_service::ChatService;
use crate::parse::{headers_view, Method};
use crate::text::{bytes_eq, copy_range, find_sub, match_at};
use vstd::string::StringSliceAdditionalSpecFns;

verus! {

pub open spec fn slash() -> Seq<u8> {
    seq![47u8]
}

pub open spec fn qmark() -> Seq<u8> {
    seq![63u8]
}

pub open spec fn amp() -> Seq<u8> {
    seq![38u8]
}

pub open spec fn eq_sign() -> Seq<u8> {
    seq![61u8]
}

/// Splits `s[pos..]` at every `/`, keeping empty chunks.
pub open spec fn split_from(s: Seq<u8>, pos: int) -> Seq<Seq<u8>>
    decreases s.len() - pos,
    when 0 <= pos <= s.len()
{
    match find_sub(s, slash(), pos) {
        Some(i) => if pos <= i && i + 1 <= s.len() {
            seq![s.subrange(pos, i)] + split_from(s, i + 1)
        } else {
            seq![s.subrange(pos, s.len() as int)]
        },
        None => seq![s.subrange(pos, s.len() as int)],
    }
}

/// The segments of a path: one leading `/` is dropped, the rest is
/// split at every `/` (so a trailing slash yields an empty segment).
pub open spec fn path_segs(s: Seq<u8>) -> Seq<Seq<u8>> {
    if s.len() > 0 && s[0] == 47 {
        split_from(s, 1)
    } else {
        split_from(s, 0)
    }
}

/// One pattern segment: `is_param` marks a `:name` placeholder, and
/// `text` is the parameter name (without the colon) or the literal.
pub open spec fn seg_pat(seg: Seq<u8>) -> (bool, Seq<u8>) {
    if seg.len() > 0 && seg[0] == 58 {
        (true, seg.subrange(1, seg.len() as int))
    } else {
        (false, seg)
    }
}

/// The pattern a registered path string denotes.
pub open spec fn pattern_of(s: Seq<u8>) -> Seq<(bool, Seq<u8>)> {
    path_segs(s).map_values(|seg: Seq<u8>| seg_pat(seg))
}

pub open spec fn pat_view(p: Seq<(bool, Vec<u8>)>) -> Seq<(bool, Seq<u8>)> {
    p.map_values(|x: (bool, Vec<u8>)| (x.0, x.1@))
}

/// A pattern matches a segment list when the lengths agree and every
/// literal segment equals the path segment at its position.
pub open spec fn pat_matches(pat: Seq<(bool, Seq<u8>)>, segs: Seq<Seq<u8>>) -> bool {
    pat.len() == segs.len() && forall|i: int|
        0 <= i < pat.len() ==> ((#[trigger] pat[i]).0 || pat[i].1 == segs[i])
}

/// The parameter bindings a match yields, in pattern order.
pub open spec fn bindings(pat: Seq<(bool, Seq<u8>)>, segs: Seq<Seq<u8>>) -> Seq<(Seq<u8>, Seq<u8>)>
    decreases pat.len(),
    when pat.len() <= segs.len()
{
    if pat.len() == 0 {
        Seq::empty()
    } else {
        let rest = bindings(pat.drop_first(), segs.drop_first());
        if pat[0].0 {
            seq![(pat[0].1, segs[0])] + rest
        } else {
            rest
        }
    }
}

/// Compares two patterns' preference, walking their segments in step:
/// at the first position where the kinds differ, the literal side wins
/// (1 means `p1` is preferred, -1 means `p2` is, 0 means neither).
pub open spec fn pref_cmp(p1: Seq<(bool, Seq<u8>)>, p2: Seq<(bool, Seq<u8>)>) -> int
    decreases p1.len(),
{
    if p1.len() == 0 || p2.len() == 0 {
        0
    } else if p1[0].0 == p2[0].0 {
        pref_cmp(p1.drop_first(), p2.drop_first())
    } else if !p1[0].0 {
        1
    } else {
        -1
    }
}

/// One registered route.
pub struct Route<H> {
    pub method: Method,
    pub pattern: Vec<(bool, Vec<u8>)>,
    pub handler: H,
}

impl<H> Route<H> {
    /// A route from its parts: the verb, the compiled pattern, and the
    /// handler it dispatches to.
    pub fn new(method: Method, pattern: Vec<(bool, Vec<u8>)>, handler: H) -> (r: Self)
        ensures
            r.method == method,
            r.pattern == pattern,
            r.handler == handler,
    {
        Route { method, pattern, handler }
    }
}

pub open spec fn route_matches<H>(r: &Route<H>, method: Method, segs: Seq<Seq<u8>>) -> bool {
    r.method == method && pat_matches(pat_view(r.pattern@), segs)
}

/// The route that a lookup picks: among matching routes, a later one
/// replaces the current best when its pattern is preferred or of equal
/// preference (so the latest registration wins ties).
pub open spec fn spec_find_best<H>(routes: Seq<Route<H>>, method: Method, segs: Seq<Seq<u8>>) -> Option<int>
    decreases routes.len(),
{
    if routes.len() == 0 {
        None
    } else {
        let prev = spec_find_best(routes.drop_last(), method, segs);
        if route_matches(&routes.last(), method, segs) {
            match prev {
                None => Some(routes.len() - 1),
                Some(i) => {
                    let pi = pat_view(routes[i].pattern@);
                    let pl = pat_view(routes.last().pattern@);
                    if pref_cmp(pl, pi) >= 0 {
                        Some(routes.len() - 1)
                    } else {
                        Some(i)
                    }
                },
            }
        } else {
            prev
        }
    }
}

/// A response: status code, header pairs in order, body bytes.
pub struct Response {
    pub status: u16,
    pub headers: Vec<(Vec<u8>, Vec<u8>)>,
    pub body: Vec<u8>,
}

/// Mathematical model of a response.
pub ghost struct RespView {
    pub status: u16,
    pub headers: Seq<(Seq<u8>, Seq<u8>)>,
    pub body: Seq<u8>,
}

impl View for Response {
    type V = RespView;

    open spec fn view(&self) -> RespView {
        RespView { status: self.status, headers: headers_view(self.headers@), body: self.body@ }
    }
}

/// A response with one `Content-Type` header.
pub open spec fn spec_status_msg(code: u16, msg: Seq<u8>, content_type: Seq<u8>) -> RespView {
    RespView {
        status: code,
        headers: seq![("Content-Type".spec_bytes(), content_type)],
        body: msg,
    }
}

pub open spec fn spec_not_found() -> RespView {
    spec_status_msg(404, "Not found.".spec_bytes(), "text/plain".spec_bytes())
}

pub open spec fn spec_status_ok() -> RespView {
    spec_status_msg(200, Seq::empty(), "text/plain".spec_bytes())
}

pub open spec fn spec_ok_json(body: Seq<u8>) -> RespView {
    spec_status_msg(200, body, "application/json".spec_bytes())
}

pub open spec fn spec_error500(msg: Seq<u8>) -> RespView {
    spec_status_msg(500, msg, "text/plain".spec_bytes())
}

/// Builds a response with the given status, body and content type.
pub fn status_code_msg(code: u16, msg: Vec<u8>, content_type: Vec<u8>) -> (r: Response)
    ensures
        r@ == spec_status_msg(code, msg@, content_type@),
{
    let mut headers: Vec<(Vec<u8>, Vec<u8>)> = Vec::new();
    let mut name: Vec<u8> = Vec::new();
    name.extend_from_slice("Content-Type".as_bytes());
    assert(name@ =~= "Content-Type".spec_bytes());
    headers.push((name, content_type));
    let r = Response { status: code, headers, body: msg };
    proof {
        assert(r@.headers =~= spec_status_msg(code, msg@, content_type@).headers);
    }
    r
}

/// The 404 answer for a method/path with no registered route.
pub fn not_found() -> (r: Response)
    ensures
        r@ == spec_not_found(),
{
    let mut body: Vec<u8> = Vec::new();
    body.extend_from_slice("Not found.".as_bytes());
    let mut ct: Vec<u8> = Vec::new();
    ct.extend_from_slice("text/plain".as_bytes());
    assert(body@ =~= "Not found.".spec_bytes());
    assert(ct@ =~= "text/plain".spec_bytes());
    status_code_msg(404, body, ct)
}

/// An empty 200 answer.
pub fn status_ok() -> (r: Response)
    ensures
        r@ == spec_status_ok(),
{
    let mut ct: Vec<u8> = Vec::new();
    ct.extend_from_slice("text/plain".as_bytes());
    assert(ct@ =~= "text/plain".spec_bytes());
    let body: Vec<u8> = Vec::new();
    assert(body@ =~= Seq::<u8>::empty());
    status_code_msg(200, body, ct)
}

/// A 200 answer carrying a JSON body.
pub fn ok_json(body: Vec<u8>) -> (r: Response)
    ensures
        r@ == spec_ok_json(body@),
{
    let mut ct: Vec<u8> = Vec::new();
    ct.extend_from_slice("application/json".as_bytes());
    assert(ct@ =~= "application/json".spec_bytes());
    status_code_msg(200, body, ct)
}

/// A 500 answer carrying an error description.
pub fn error500(msg: Vec<u8>) -> (r: Response)
    ensures
        r@ == spec_error500(msg@),
{
    let mut ct: Vec<u8> = Vec::new();
    ct.extend_from_slice("text/plain".as_bytes());
    assert(ct@ =~= "text/plain".spec_bytes());
    status_code_msg(500, msg, ct)
}

/// The open phase of route construction.
pub struct RouterBuilder<H> {
    pub routes: Vec<Route<H>>,
    pub service: ChatService,
}

/// The frozen route table, paired with the application state the
/// handlers read and write.
pub struct Router<H> {
    pub routes: Vec<Route<H>>,
    pub service: ChatService,
}

// Executable splitting, matching and lookup.

fn slash_pat() -> (v: Vec<u8>)
    ensures
        v@ =~= slash(),
{
    let mut v: Vec<u8> = Vec::new();
    v.push(47);
    v
}

pub(crate) fn qmark_pat() -> (v: Vec<u8>)
    ensures
        v@ =~= qmark(),
{
    let mut v: Vec<u8> = Vec::new();
    v.push(63);
    v
}

pub(crate) fn amp_pat() -> (v: Vec<u8>)
    ensures
        v@ =~= amp(),
{
    let mut v: Vec<u8> = Vec::new();
    v.push(38);
    v
}

pub(crate) fn eq_pat() -> (v: Vec<u8>)
    ensures
        v@ =~= eq_sign(),
{
    let mut v: Vec<u8> = Vec::new();
    v.push(61);
    v
}

pub open spec fn segs_view(v: Seq<Vec<u8>>) -> Seq<Seq<u8>> {
    v.map_values(|x: Vec<u8>| x@)
}

/// Splits a path (without query) into its segments.
fn split_path(s: &[u8]) -> (v: Vec<Vec<u8>>)
    ensures
        segs_view(v@) == path_segs(s@),
{
    proof {
        crate::text::lemma_slice_len_bound(s);
    }
    let sp = slash_pat();
    let start: usize = if s.len() > 0 && s[0] == 47 {
        1
    } else {
        0
    };
    let mut v: Vec<Vec<u8>> = Vec::new();
    let mut pos: usize = start;
    loop
        invariant
            start <= pos <= s@.len(),
            sp@ =~= slash(),
            path_segs(s@) == segs_view(v@) + split_from(s@, pos as int),
        decreases s@.len() - pos,
    {
        proof {
            crate::text::lemma_slice_len_bound(s);
        }
        match crate::parse::find_bytes(s, pos, sp.as_slice()) {
            Some(i) => {
                let seg = copy_range(s, pos, i);
                let ghost old_v = v@;
                v.push(seg);
                proof {
                    assert(segs_view(v@) =~= segs_view(old_v) + seq![seg@]);
                    assert(split_from(s@, pos as int) == seq![s@.subrange(pos as int, i as int)]
                        + split_from(s@, i + 1));
                    assert((segs_view(old_v) + seq![seg@]) + split_from(s@, i + 1) =~= segs_view(
                        old_v,
                    ) + (seq![seg@] + split_from(s@, i + 1)));
                }
                pos = i + 1;
            },
            None => {
                let seg = copy_range(s, pos, s.len());
                let ghost old_v = v@;
                v.push(seg);
                proof {
                    assert(segs_view(v@) =~= segs_view(old_v) + seq![seg@]);
                    assert(split_from(s@, pos as int) == seq![s@.subrange(
                        pos as int,
                        s@.len() as int,
                    )]);
                    assert(segs_view(old_v) + seq![seg@] =~= segs_view(old_v) + split_from(
                        s@,
                        pos as int,
                    ));
                }
                return v;
            },
        }
    }
}

/// Turns a registered path string into its pattern segments.
fn compile_pattern(s: &[u8]) -> (v: Vec<(bool, Vec<u8>)>)
    ensures
        pat_view(v@) == pattern_of(s@),
{
    let segs = split_path(s);
    let mut v: Vec<(bool, Vec<u8>)> = Vec::new();
    let mut i: usize = 0;
    while i < segs.len()
        invariant
            0 <= i <= segs@.len(),
            segs_view(segs@) == path_segs(s@),
            pat_view(v@) == pattern_of(s@).take(i as int),
        decreases segs@.len() - i,
    {
        let seg = &segs[i];
        let ghost old_v = v@;
        if seg.len() > 0 && seg[0] == 58 {
            let name = copy_range(seg.as_slice(), 1, seg.len());
            v.push((true, name));
        } else {
            let name = copy_range(seg.as_slice(), 0, seg.len());
            v.push((false, name));
        }
        proof {
            let pv = pat_view(v@);
            assert(segs_view(segs@).len() == segs@.len());
            assert(pattern_of(s@).len() == path_segs(s@).len());
            assert(pat_view(old_v).len() == old_v.len());
            assert(pat_view(old_v) == pattern_of(s@).take(i as int));
            assert(old_v.len() == i);
            assert(v@.len() == old_v.len() + 1);
            assert(pv.len() == i + 1);
            assert(forall|k: int| 0 <= k < i ==> pv[k] == pat_view(old_v)[k]);
            assert(pv[i as int] == (v@[i as int].0, v@[i as int].1@));
            assert(segs_view(segs@)[i as int] == segs@[i as int]@);
            assert(pv[i as int] == seg_pat(segs_view(segs@)[i as int]));
            assert(pattern_of(s@)[i as int] == seg_pat(path_segs(s@)[i as int]));
            assert(pv =~= pattern_of(s@).take(i + 1));
        }
        i = i + 1;
    }
    proof {
        assert(pattern_of(s@).take(segs@.len() as int) =~= pattern_of(s@));
    }
    v
}

/// True when the pattern matches the segment list.
fn match_segs(pat: &Vec<(bool, Vec<u8>)>, segs: &Vec<Vec<u8>>) -> (r: bool)
    ensures
        r <==> pat_matches(pat_view(pat@), segs_view(segs@)),
{
    if pat.len() != segs.len() {
        return false;
    }
    let mut i: usize = 0;
    while i < pat.len()
        invariant
            0 <= i <= pat@.len(),
            pat@.len() == segs@.len(),
            forall|k: int|
                0 <= k < i ==> ((#[trigger] pat_view(pat@)[k]).0 || pat_view(pat@)[k].1
                    == segs_view(segs@)[k]),
        decreases pat@.len() - i,
    {
        if !pat[i].0 {
            if !bytes_eq(pat[i].1.as_slice(), segs[i].as_slice()) {
                assert(!(pat_view(pat@)[i as int].0 || pat_view(pat@)[i as int].1 == segs_view(
                    segs@,
                )[i as int]));
                return false;
            }
        }
        i = i + 1;
    }
    true
}

/// True when `cand` should replace `best`: its pattern is preferred,
/// or of equal preference (so a later route wins the tie).
fn takes_over(cand: &Vec<(bool, Vec<u8>)>, best: &Vec<(bool, Vec<u8>)>) -> (r: bool)
    ensures
        r <==> pref_cmp(pat_view(cand@), pat_view(best@)) >= 0,
{
    let n: usize = if cand.len() < best.len() {
        cand.len()
    } else {
        best.len()
    };
    let ghost cv = pat_view(cand@);
    let ghost bv = pat_view(best@);
    let mut i: usize = 0;
    proof {
        assert(cv.skip(0) =~= cv);
        assert(bv.skip(0) =~= bv);
    }
    while i < n
        invariant
            0 <= i <= n,
            n <= cv.len() && n <= bv.len(),
            n == (if cv.len() < bv.len() {
                cv.len()
            } else {
                bv.len()
            }),
            cv == pat_view(cand@) && bv == pat_view(best@),
            pref_cmp(cv, bv) == pref_cmp(cv.skip(i as int), bv.skip(i as int)),
        decreases n - i,
    {
        proof {
            assert(cv.skip(i as int).drop_first() =~= cv.skip(i + 1));
            assert(bv.skip(i as int).drop_first() =~= bv.skip(i + 1));
            assert(cv.skip(i as int)[0] == cv[i as int]);
            assert(bv.skip(i as int)[0] == bv[i as int]);
        }
        if !cand[i].0 && best[i].0 {
            return true;
        }
        if cand[i].0 && !best[i].0 {
            return false;
        }
        i = i + 1;
    }
    proof {
        assert(cv.skip(i as int).len() == 0 || bv.skip(i as int).len() == 0);
    }
    true
}

impl<H> Router<H> {
    /// Opens a builder over the given application state.
    pub fn builder(service: ChatService) -> (b: RouterBuilder<H>)
        ensures
            b.routes@ == Seq::<Route<H>>::empty(),
            b.service == service,
    {
        RouterBuilder { routes: Vec::new(), service }
    }
}

impl<H> RouterBuilder<H> {
    /// Adds a route for `route` (a path pattern such as `/a/:b`) under
    /// the given method.
    pub fn register(self, route: &[u8], method: Method, handler: H) -> (b: Self)
        ensures
            b.service == self.service,
            b.routes@.len() == self.routes@.len() + 1,
            b.routes@.drop_last() == self.routes@,
            b.routes@.last().method == method,
            b.routes@.last().handler == handler,
            pat_view(b.routes@.last().pattern@) == pattern_of(route@),
    {
        let pattern = compile_pattern(route);
        let mut routes = self.routes;
        let ghost old_routes = routes@;
        routes.push(Route::new(method, pattern, handler));
        proof {
            assert(routes@.drop_last() =~= old_routes);
        }
        RouterBuilder { routes, service: self.service }
    }

    /// Freezes the builder into a route table.
    pub fn build(self) -> (r: Router<H>)
        ensures
            r.routes == self.routes,
            r.service == self.service,
    {
        Router { routes: self.routes, service: self.service }
    }
}

impl<H: Copy> Router<H> {
    /// Looks up the route for `method` and `path` (no query part) and
    /// binds its parameters. `None` means no registered route matches.
    pub fn find(&self, method: Method, path: &[u8]) -> (r: Option<(H, Vec<(Vec<u8>, Vec<u8>)>)>)
        ensures
            match r {
                Some((h, params)) => match spec_find_best(
                    self.routes@,
                    method,
                    path_segs(path@),
                ) {
                    Some(i) => h == self.routes@[i].handler && headers_view(params@) == bindings(
                        pat_view(self.routes@[i].pattern@),
                        path_segs(path@),
                    ),
                    None => false,
                },
                None => spec_find_best(self.routes@, method, path_segs(path@)) is None,
            },
    {
        let segs = split_path(path);
        let ghost segsv = path_segs(path@);
        let mut best: Option<usize> = None;
        let mut i: usize = 0;
        proof {
            assert(self.routes@.take(0) =~= Seq::<Route<H>>::empty());
        }
        while i < self.routes.len()
            invariant
                0 <= i <= self.routes@.len(),
                segs_view(segs@) == segsv,
                segsv == path_segs(path@),
                match best {
                    Some(b) => spec_find_best(self.routes@.take(i as int), method, segsv)
                        == Some(b as int) && b < i,
                    None => spec_find_best(self.routes@.take(i as int), method, segsv) is None,
                },
            decreases self.routes@.len() - i,
        {
            proof {
                assert(self.routes@.take(i + 1).drop_last() =~= self.routes@.take(i as int));
                assert(self.routes@.take(i + 1).last() == self.routes@[i as int]);
            }
            let route = &self.routes[i];
            if route.method == method && match_segs(&route.pattern, &segs) {
                assert(route_matches(&self.routes@[i as int], method, segsv));
                match best {
                    None => {
                        best = Some(i);
                    },
                    Some(b) => {
                        if takes_over(&route.pattern, &self.routes[b].pattern) {
                            best = Some(i);
                        }
                    },
                }
            } else {
                assert(!route_matches(&self.routes@[i as int], method, segsv));
            }
            i = i + 1;
        }
        proof {
            assert(self.routes@.take(self.routes@.len() as int) =~= self.routes@);
        }
        match best {
            Some(b) => {
                let route = &self.routes[b];
                proof {
                    lemma_find_best_matches(self.routes@, method, segsv);
                    assert(pat_matches(pat_view(route.pattern@), segsv));
                }
                let params = bind_params(&route.pattern, &segs);
                Some((route.handler, params))
            },
            None => None,
        }
    }
}

/// Preference comparison flips sign when its sides swap.
proof fn lemma_pref_cmp_flip(p1: Seq<(bool, Seq<u8>)>, p2: Seq<(bool, Seq<u8>)>)
    ensures
        pref_cmp(p1, p2) == -pref_cmp(p2, p1),
    decreases p1.len(),
{
    if p1.len() > 0 && p2.len() > 0 && p1[0].0 == p2[0].0 {
        lemma_pref_cmp_flip(p1.drop_first(), p2.drop_first());
    }
}

/// Preference comparison of a pattern with itself is even.
proof fn lemma_pref_cmp_refl(p: Seq<(bool, Seq<u8>)>)
    ensures
        pref_cmp(p, p) == 0,
    decreases p.len(),
{
    if p.len() > 0 {
        lemma_pref_cmp_refl(p.drop_first());
    }
}

/// Preference is transitive over patterns of one length.
proof fn lemma_pref_cmp_trans(
    a: Seq<(bool, Seq<u8>)>,
    b: Seq<(bool, Seq<u8>)>,
    c: Seq<(bool, Seq<u8>)>,
)
    requires
        a.len() == b.len() && b.len() == c.len(),
        pref_cmp(a, b) >= 0,
        pref_cmp(b, c) >= 0,
    ensures
        pref_cmp(a, c) >= 0,
    decreases a.len(),
{
    if a.len() > 0 {
        if a[0].0 == b[0].0 && b[0].0 == c[0].0 {
            lemma_pref_cmp_trans(a.drop_first(), b.drop_first(), c.drop_first());
        }
    }
}

/// The tie-break policy, proved of the lookup: the chosen route
/// matches, no other matching route's pattern is preferred to it (a
/// literal segment beats a parameter segment at the first position
/// where two matching patterns differ), and every matching route
/// registered after it compares strictly worse (so among routes of
/// equal preference, the latest registered wins).
pub proof fn lemma_find_best_maximal<H>(routes: Seq<Route<H>>, method: Method, segs: Seq<Seq<u8>>)
    ensures
        match spec_find_best(routes, method, segs) {
            Some(i) => {
                &&& 0 <= i < routes.len()
                &&& route_matches(&routes[i], method, segs)
                &&& forall|j: int|
                    0 <= j < routes.len() && route_matches(&routes[j], method, segs)
                        ==> pref_cmp(
                        pat_view(routes[i].pattern@),
                        pat_view(#[trigger] routes[j].pattern@),
                    ) >= 0
                &&& forall|j: int|
                    i < j < routes.len() && route_matches(&routes[j], method, segs)
                        ==> pref_cmp(
                        pat_view(routes[i].pattern@),
                        pat_view(#[trigger] routes[j].pattern@),
                    ) > 0
            },
            None => forall|j: int|
                0 <= j < routes.len() ==> !route_matches(&(#[trigger] routes[j]), method, segs),
        },
    decreases routes.len(),
{
    if routes.len() > 0 {
        let prefix = routes.drop_last();
        lemma_find_best_maximal(prefix, method, segs);
        let last = routes.len() - 1;
        assert(forall|j: int| 0 <= j < last ==> prefix[j] == #[trigger] routes[j]);
        let pl = pat_view(routes[last].pattern@);
        if route_matches(&routes[last], method, segs) {
            lemma_pref_cmp_refl(pl);
            match spec_find_best(prefix, method, segs) {
                None => {
                },
                Some(i) => {
                    let pi = pat_view(routes[i].pattern@);
                    lemma_pref_cmp_flip(pl, pi);
                    if pref_cmp(pl, pi) >= 0 {
                        assert forall|j: int|
                            0 <= j < routes.len() && route_matches(
                                &(#[trigger] routes[j]),
                                method,
                                segs,
                            ) implies pref_cmp(pl, pat_view(routes[j].pattern@)) >= 0 by {
                            if j < last {
                                let pj = pat_view(routes[j].pattern@);
                                assert(pref_cmp(pi, pj) >= 0);
                                assert(pi.len() == segs.len() && pl.len() == segs.len()
                                    && pj.len() == segs.len());
                                lemma_pref_cmp_trans(pl, pi, pj);
                            }
                        }
                    }
                },
            }
        }
    }
}

/// The chosen route of a successful lookup does match.
proof fn lemma_find_best_matches<H>(routes: Seq<Route<H>>, method: Method, segs: Seq<Seq<u8>>)
    ensures
        match spec_find_best(routes, method, segs) {
            Some(i) => 0 <= i < routes.len() && route_matches(&routes[i], method, segs),
            None => true,
        },
    decreases routes.len(),
{
    if routes.len() > 0 {
        lemma_find_best_matches(routes.drop_last(), method, segs);
        if spec_find_best(routes.drop_last(), method, segs) is Some {
            let i = spec_find_best(routes.drop_last(), method, segs)->Some_0;
            assert(routes.drop_last()[i] == routes[i]);
        }
    }
}

/// Collects the parameter bindings of a matched pattern.
fn bind_params(pat: &Vec<(bool, Vec<u8>)>, segs: &Vec<Vec<u8>>) -> (params: Vec<(Vec<u8>, Vec<u8>)>)
    requires
        pat_matches(pat_view(pat@), segs_view(segs@)),
    ensures
        headers_view(params@) == bindings(pat_view(pat@), segs_view(segs@)),
{
    let mut params: Vec<(Vec<u8>, Vec<u8>)> = Vec::new();
    let mut i: usize = 0;
    proof {
        assert(pat_view(pat@).skip(0) =~= pat_view(pat@));
        assert(segs_view(segs@).skip(0) =~= segs_view(segs@));
        assert(Seq::<(Seq<u8>, Seq<u8>)>::empty() + bindings(
            pat_view(pat@),
            segs_view(segs@),
        ) =~= bindings(pat_view(pat@), segs_view(segs@)));
    }
    while i < pat.len()
        invariant
            0 <= i <= pat@.len(),
            pat@.len() == segs@.len(),
            bindings(pat_view(pat@), segs_view(segs@)) == headers_view(params@) + bindings(
                pat_view(pat@).skip(i as int),
                segs_view(segs@).skip(i as int),
            ),
        decreases pat@.len() - i,
    {
        proof {
            assert(pat_view(pat@).skip(i as int).drop_first() =~= pat_view(pat@).skip(i + 1));
            assert(segs_view(segs@).skip(i as int).drop_first() =~= segs_view(segs@).skip(i + 1));
            assert(pat_view(pat@).skip(i as int)[0] == pat_view(pat@)[i as int]);
            assert(segs_view(segs@).skip(i as int)[0] == segs_view(segs@)[i as int]);
        }
        if pat[i].0 {
            let name = copy_range(pat[i].1.as_slice(), 0, pat[i].1.len());
            let value = copy_range(segs[i].as_slice(), 0, segs[i].len());
            let ghost old_params = params@;
            proof {
                assert(pat@[i as int].1@.subrange(0, pat@[i as int].1@.len() as int) =~= pat@[
                    i as int].1@);
                assert(segs@[i as int]@.subrange(0, segs@[i as int]@.len() as int) =~= segs@[
                    i as int]@);
            }
            params.push((name, value));
            proof {
                assert(headers_view(params@) =~= headers_view(old_params) + seq![
                    (pat_view(pat@)[i as int].1, segs_view(segs@)[i as int]),
                ]);
                assert((headers_view(old_params) + seq![
                    (pat_view(pat@)[i as int].1, segs_view(segs@)[i as int]),
                ]) + bindings(
                    pat_view(pat@).skip(i + 1),
                    segs_view(segs@).skip(i + 1),
                ) =~= headers_view(old_params) + (seq![
                    (pat_view(pat@)[i as int].1, segs_view(segs@)[i as int]),
                ] + bindings(pat_view(pat@).skip(i + 1), segs_view(segs@).skip(i + 1))));
            }
        }
        i = i + 1;
    }
    proof {
        assert(pat_view(pat@).skip(pat@.len() as int).len() == 0);
        assert(bindings(
            pat_view(pat@).skip(pat@.len() as int),
            segs_view(segs@).skip(segs@.len() as int),
        ) =~= Seq::<(Seq<u8>, Seq<u8>)>::empty());
        assert(headers_view(params@) + Seq::<(Seq<u8>, Seq<u8>)>::empty() =~= headers_view(
            params@,
        ));
    }
    params
}

} // verus!
