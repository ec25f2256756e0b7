//! The dispatcher: turns one decoded request into one response by
//! resolving the route, decoding the query string, and driving the chat
//! handlers.
//!
//! JSON payload conversion cannot happen here, so dispatch runs in
//! steps: `route` either finishes with a response or asks the caller to
//! decode a request body (or encode a response body), and the
//! `route_chat` / `route_message` / `encoded_response` continuations
//! finish the exchange once the caller hands the converted value back.

use vstd::prelude::*;

use crate::chat_service::{insert_desc, room_index, spec_user_chats, ChatError};
use crate::messages::{Chat, Message};
use crate::parse::{find_bytes, headers_view, ReqView, Request};
use crate::router::{
    amp_pat, bindings, eq_pat, eq_sign, error500, not_found, ok_json, pat_view,
    path_segs, qmark, qmark_pat, spec_error500, spec_find_best, spec_not_found, spec_ok_json,
    spec_status_msg, spec_status_ok, status_code_msg, status_ok, Response, Route, Router,
};
use crate::text::{copy_range, dec_of, find_sub, parse_u64_dec};
use vstd::string::StringSliceAdditionalSpecFns;

verus! {

/// The four operations of the chat API.
#[derive(Clone, Copy, PartialEq, Eq, Structural, Debug)]
pub enum HandlerKind {
    CreateChat,
    SendMessage,
    ListChats,
    GetMessages,
}

/// What one dispatch step asks of its caller: either the response is
/// done, or a request body must be decoded from JSON, or a value must
/// be encoded to JSON for the response body.
pub enum RouteStep {
    Done(Response),
    DecodeChat { body: Vec<u8> },
    DecodeMessage { chat_id: u64, body: Vec<u8> },
    EncodeChats { chats: Vec<Chat> },
    EncodeMessages { messages: Vec<Message> },
}

/// The path part of a request target: everything before the first `?`.
pub open spec fn target_path(t: Seq<u8>) -> Seq<u8> {
    match find_sub(t, qmark(), 0) {
        Some(i) => if 0 <= i <= t.len() {
            t.subrange(0, i)
        } else {
            t
        },
        None => t,
    }
}

/// The query part of a request target: everything after the first `?`,
/// or nothing when there is no `?`.
pub open spec fn target_query(t: Seq<u8>) -> Option<Seq<u8>> {
    match find_sub(t, qmark(), 0) {
        Some(i) => if 0 <= i && i + 1 <= t.len() {
            Some(t.subrange(i + 1, t.len() as int))
        } else {
            None
        },
        None => None,
    }
}

/// The pair one `&`-chunk of a query yields: text before the first `=`
/// as the name and the rest as the value (empty without `=`); an empty
/// chunk yields nothing.
pub open spec fn chunk_pair(q: Seq<u8>, lo: int, hi: int) -> Seq<(Seq<u8>, Seq<u8>)> {
    if !(0 <= lo && lo <= hi && hi <= q.len()) {
        Seq::empty()
    } else if lo >= hi {
        Seq::empty()
    } else {
        match find_sub(q, eq_sign(), lo) {
            Some(e) => if e < hi {
                seq![(q.subrange(lo, e), q.subrange(e + 1, hi))]
            } else {
                seq![(q.subrange(lo, hi), Seq::<u8>::empty())]
            },
            None => seq![(q.subrange(lo, hi), Seq::<u8>::empty())],
        }
    }
}

/// The name/value pairs of a query string: `&`-separated chunks, each
/// optionally `=`-separated. Percent-decoding is left to handlers.
pub open spec fn query_pairs_from(q: Seq<u8>, pos: int) -> Seq<(Seq<u8>, Seq<u8>)>
    decreases q.len() - pos,
    when 0 <= pos <= q.len()
{
    match find_sub(q, crate::router::amp(), pos) {
        Some(i) => if pos <= i && i + 1 <= q.len() {
            chunk_pair(q, pos, i) + query_pairs_from(q, i + 1)
        } else {
            chunk_pair(q, pos, q.len() as int)
        },
        None => chunk_pair(q, pos, q.len() as int),
    }
}

/// First pair with the given name.
pub open spec fn pairs_get(pairs: Seq<(Seq<u8>, Seq<u8>)>, name: Seq<u8>) -> Option<Seq<u8>>
    decreases pairs.len(),
{
    if pairs.len() == 0 {
        None
    } else if pairs[0].0 == name {
        Some(pairs[0].1)
    } else {
        pairs_get(pairs.drop_first(), name)
    }
}

/// The `chatId` path parameter, parsed as a decimal `u64`.
pub open spec fn chat_id_of(params: Seq<(Seq<u8>, Seq<u8>)>) -> Option<u64> {
    match pairs_get(params, "chatId".spec_bytes()) {
        Some(v) => match dec_of(v, u64::MAX as int) {
            Some(n) => Some(n as u64),
            None => None,
        },
        None => None,
    }
}

/// What `route` must answer for a request, given the route table and
/// the application state.
pub open spec fn route_step_ok(
    routes: Seq<Route<HandlerKind>>,
    service: &crate::chat_service::ChatService,
    req: ReqView,
    r: &RouteStep,
) -> bool {
    let segs = path_segs(target_path(req.target));
    match spec_find_best(routes, req.method, segs) {
        None => r matches RouteStep::Done(resp) && resp@ == spec_not_found(),
        Some(i) => {
            let params = bindings(pat_view(routes[i].pattern@), segs);
            match routes[i].handler {
                HandlerKind::CreateChat => r matches RouteStep::DecodeChat { body } && body@
                    == req.body,
                HandlerKind::SendMessage => match chat_id_of(params) {
                    Some(id) => r matches RouteStep::DecodeMessage { chat_id, body } && chat_id
                        == id && body@ == req.body,
                    None => r matches RouteStep::Done(resp) && resp@ == spec_error500(
                        "unable to parse chat id".spec_bytes(),
                    ),
                },
                HandlerKind::ListChats => match target_query(req.target) {
                    None => r matches RouteStep::Done(resp) && resp@ == spec_not_found(),
                    Some(q) => match pairs_get(query_pairs_from(q, 0), "userId".spec_bytes()) {
                        None => r matches RouteStep::Done(resp) && resp@ == spec_not_found(),
                        Some(v) => match dec_of(v, u64::MAX as int) {
                            Some(uid) => r matches RouteStep::EncodeChats { chats } && chats@
                                == spec_user_chats(service.rooms@, uid as u64),
                            None => r matches RouteStep::Done(resp) && resp@ == spec_error500(
                                "unable to parse user_id from query string".spec_bytes(),
                            ),
                        },
                    },
                },
                HandlerKind::GetMessages => match chat_id_of(params) {
                    Some(id) => match room_index(service.rooms@, id) {
                        Some(ri) => r matches RouteStep::EncodeMessages { messages } && messages@
                            == service.rooms@[ri].log@,
                        None => r matches RouteStep::Done(resp) && resp@ == spec_error500(
                            "unable to get messages: ".spec_bytes() + (ChatError::UnknownChat {
                                chat_id: id,
                            }).spec_message(),
                        ),
                    },
                    None => r matches RouteStep::Done(resp) && resp@ == spec_error500(
                        "unable to parse chat id".spec_bytes(),
                    ),
                },
            }
        },
    }
}

/// A method/path combination with no registered route is answered with
/// the not-found response, whatever the query string holds: lookup
/// sees only the part of the target before the `?`.
pub proof fn lemma_unrouted_not_found(
    routes: Seq<Route<HandlerKind>>,
    service: &crate::chat_service::ChatService,
    req: ReqView,
    r: &RouteStep,
)
    requires
        route_step_ok(routes, service, req, r),
        spec_find_best(routes, req.method, path_segs(target_path(req.target))) is None,
    ensures
        r matches RouteStep::Done(resp) && resp@ == spec_not_found(),
{
}

/// One `&`-chunk of the query, decoded.
fn parse_chunk(q: &[u8], lo: usize, hi: usize) -> (r: Option<(Vec<u8>, Vec<u8>)>)
    requires
        lo <= hi <= q@.len(),
    ensures
        match r {
            Some(p) => chunk_pair(q@, lo as int, hi as int) == seq![(p.0@, p.1@)],
            None => chunk_pair(q@, lo as int, hi as int) == Seq::<(Seq<u8>, Seq<u8>)>::empty(),
        },
{
    if lo >= hi {
        return None;
    }
    let ep = eq_pat();
    match find_bytes(q, lo, ep.as_slice()) {
        Some(e) => {
            if e < hi {
                Some((copy_range(q, lo, e), copy_range(q, e + 1, hi)))
            } else {
                let empty: Vec<u8> = Vec::new();
                assert(empty@ =~= Seq::<u8>::empty());
                Some((copy_range(q, lo, hi), empty))
            }
        },
        None => {
            let empty: Vec<u8> = Vec::new();
            assert(empty@ =~= Seq::<u8>::empty());
            Some((copy_range(q, lo, hi), empty))
        },
    }
}

/// Decodes a whole query string into its pairs.
pub fn parse_query(q: &[u8]) -> (v: Vec<(Vec<u8>, Vec<u8>)>)
    ensures
        headers_view(v@) == query_pairs_from(q@, 0),
{
    proof {
        crate::text::lemma_slice_len_bound(q);
    }
    let ap = amp_pat();
    let mut v: Vec<(Vec<u8>, Vec<u8>)> = Vec::new();
    let mut pos: usize = 0;
    proof {
        assert(headers_view(v@) + query_pairs_from(q@, 0) =~= query_pairs_from(q@, 0));
    }
    loop
        invariant
            0 <= pos <= q@.len(),
            ap@ =~= crate::router::amp(),
            query_pairs_from(q@, 0) == headers_view(v@) + query_pairs_from(q@, pos as int),
        decreases q@.len() - pos,
    {
        proof {
            crate::text::lemma_slice_len_bound(q);
        }
        match find_bytes(q, pos, ap.as_slice()) {
            Some(i) => {
                let ghost old_v = v@;
                match parse_chunk(q, pos, i) {
                    Some(p) => {
                        v.push(p);
                        proof {
                            assert(headers_view(v@) =~= headers_view(old_v) + chunk_pair(
                                q@,
                                pos as int,
                                i as int,
                            ));
                        }
                    },
                    None => {
                        proof {
                            assert(headers_view(v@) + chunk_pair(q@, pos as int, i as int)
                                =~= headers_view(v@));
                        }
                    },
                }
                proof {
                    assert((headers_view(old_v) + chunk_pair(q@, pos as int, i as int))
                        + query_pairs_from(q@, i + 1) =~= headers_view(old_v) + (chunk_pair(
                        q@,
                        pos as int,
                        i as int,
                    ) + query_pairs_from(q@, i + 1)));
                }
                pos = i + 1;
            },
            None => {
                let ghost old_v = v@;
                match parse_chunk(q, pos, q.len()) {
                    Some(p) => {
                        v.push(p);
                        proof {
                            assert(headers_view(v@) =~= headers_view(old_v) + chunk_pair(
                                q@,
                                pos as int,
                                q@.len() as int,
                            ));
                        }
                    },
                    None => {
                        proof {
                            assert(headers_view(v@) + chunk_pair(
                                q@,
                                pos as int,
                                q@.len() as int,
                            ) =~= headers_view(v@));
                        }
                    },
                }
                return v;
            },
        }
    }
}

/// First pair with the given name.
pub fn pairs_find<'a>(pairs: &'a Vec<(Vec<u8>, Vec<u8>)>, name: &[u8]) -> (r: Option<
    &'a Vec<u8>,
>)
    ensures
        match r {
            Some(v) => pairs_get(headers_view(pairs@), name@) == Some(v@),
            None => pairs_get(headers_view(pairs@), name@) is None,
        },
{
    let mut i: usize = 0;
    proof {
        assert(headers_view(pairs@).skip(0) =~= headers_view(pairs@));
    }
    while i < pairs.len()
        invariant
            0 <= i <= pairs@.len(),
            pairs_get(headers_view(pairs@), name@) == pairs_get(
                headers_view(pairs@).skip(i as int),
                name@,
            ),
        decreases pairs@.len() - i,
    {
        proof {
            assert(headers_view(pairs@).skip(i as int).drop_first() =~= headers_view(
                pairs@,
            ).skip(i + 1));
            assert(headers_view(pairs@).skip(i as int)[0] == headers_view(pairs@)[i as int]);
        }
        if crate::text::bytes_eq(pairs[i].0.as_slice(), name) {
            return Some(&pairs[i].1);
        }
        i = i + 1;
    }
    proof {
        assert(headers_view(pairs@).skip(i as int).len() == 0);
    }
    None
}

/// Copies a byte vector.
fn copy_vec(v: &Vec<u8>) -> (r: Vec<u8>)
    ensures
        r@ == v@,
{
    let r = copy_range(v.as_slice(), 0, v.len());
    assert(r@ =~= v@);
    r
}

/// Bytes of an ASCII literal plus an error text.
fn prefixed_error(prefix: &str, err: &ChatError) -> (v: Vec<u8>)
    ensures
        v@ == prefix.spec_bytes() + err.spec_message(),
{
    let mut v: Vec<u8> = Vec::new();
    v.extend_from_slice(prefix.as_bytes());
    let tail = err.message();
    v.extend_from_slice(tail.as_slice());
    assert(v@ =~= prefix.spec_bytes() + err.spec_message());
    v
}

impl Router<HandlerKind> {
    /// Resolves one request: finds the route for its method and path,
    /// decodes the query string, and either answers directly or asks
    /// the caller for the JSON conversion the handler needs.
    pub fn route(&mut self, req: &Request) -> (r: RouteStep)
        requires
            old(self).service.wf(),
        ensures
            final(self).routes == old(self).routes,
            final(self).service == old(self).service,
            final(self).service.wf(),
            route_step_ok(old(self).routes@, &old(self).service, req@, &r),
    {
        let t = req.target.as_slice();
        proof {
            crate::text::lemma_slice_len_bound(t);
        }
        let qp = qmark_pat();
        let (path, query): (Vec<u8>, Option<Vec<u8>>) = match find_bytes(t, 0, qp.as_slice()) {
            Some(i) => (copy_range(t, 0, i), Some(copy_range(t, i + 1, t.len()))),
            None => (copy_range(t, 0, t.len()), None),
        };
        proof {
            assert(path@ == target_path(req@.target));
            match target_query(req@.target) {
                Some(q) => assert(query matches Some(qv) && qv@ == q),
                None => assert(query is None),
            }
        }
        let found = self.find(req.method, path.as_slice());
        match found {
            None => RouteStep::Done(not_found()),
            Some((kind, params)) => match kind {
                HandlerKind::CreateChat => RouteStep::DecodeChat { body: copy_vec(&req.body) },
                HandlerKind::SendMessage => {
                    match chat_id_param(&params) {
                        Some(id) => RouteStep::DecodeMessage {
                            chat_id: id,
                            body: copy_vec(&req.body),
                        },
                        None => {
                            let mut msg: Vec<u8> = Vec::new();
                            msg.extend_from_slice("unable to parse chat id".as_bytes());
                            assert(msg@ =~= "unable to parse chat id".spec_bytes());
                            RouteStep::Done(error500(msg))
                        },
                    }
                },
                HandlerKind::ListChats => {
                    let q = match query {
                        Some(q) => q,
                        None => {
                            return RouteStep::Done(not_found());
                        },
                    };
                    let pairs = parse_query(q.as_slice());
                    let uid_bytes = match pairs_find(&pairs, "userId".as_bytes()) {
                        Some(v) => v,
                        None => {
                            return RouteStep::Done(not_found());
                        },
                    };
                    match parse_u64_dec(uid_bytes.as_slice()) {
                        Some(uid) => RouteStep::EncodeChats {
                            chats: self.service.get_user_chats(uid),
                        },
                        None => {
                            let mut msg: Vec<u8> = Vec::new();
                            msg.extend_from_slice(
                                "unable to parse user_id from query string".as_bytes(),
                            );
                            assert(msg@ =~= "unable to parse user_id from query string".spec_bytes());
                            RouteStep::Done(error500(msg))
                        },
                    }
                },
                HandlerKind::GetMessages => {
                    match chat_id_param(&params) {
                        Some(id) => match self.service.get_messages(id) {
                            Ok(messages) => RouteStep::EncodeMessages { messages },
                            Err(e) => {
                                proof {
                                    assert(e == ChatError::UnknownChat { chat_id: id });
                                }
                                RouteStep::Done(
                                    error500(prefixed_error("unable to get messages: ", &e)),
                                )
                            },
                        },
                        None => {
                            let mut msg: Vec<u8> = Vec::new();
                            msg.extend_from_slice("unable to parse chat id".as_bytes());
                            assert(msg@ =~= "unable to parse chat id".spec_bytes());
                            RouteStep::Done(error500(msg))
                        },
                    }
                },
            },
        }
    }

    /// Finishes a chat-creation request once the caller has decoded the
    /// body: `Err` carries the description of a failed decode.
    pub fn route_chat(&mut self, decoded: Result<Chat, Vec<u8>>) -> (r: Response)
        requires
            old(self).service.wf(),
        ensures
            final(self).routes == old(self).routes,
            final(self).service.contacts == old(self).service.contacts,
            final(self).service.wf(),
            match decoded {
                Err(emsg) => r@ == spec_error500(emsg@) && final(self).service
                    == old(self).service,
                Ok(chat) => {
                    let res = old(self).service.spec_add_chat_result(chat);
                    match res {
                        Ok(u) => {
                            &&& r@ == spec_status_ok()
                            &&& final(self).service.rooms@.len() == old(self).service.rooms@.len() + 1
                            &&& final(self).service.rooms@.drop_last() == old(self).service.rooms@
                            &&& final(self).service.rooms@.last().chat == chat
                            &&& final(self).service.rooms@.last().log@
                                == Seq::<Message>::empty()
                        },
                        Err(e) => r@ == spec_status_msg(
                            400,
                            "unable to add chat ".spec_bytes() + e.spec_message(),
                            "text/plain".spec_bytes(),
                        ) && final(self).service == old(self).service,
                    }
                },
            },
    {
        let chat = match decoded {
            Ok(chat) => chat,
            Err(emsg) => {
                return error500(emsg);
            },
        };
        match self.service.add_chat(chat) {
            Ok(_) => status_ok(),
            Err(e) => {
                let mut ct: Vec<u8> = Vec::new();
                ct.extend_from_slice("text/plain".as_bytes());
                assert(ct@ =~= "text/plain".spec_bytes());
                status_code_msg(400, prefixed_error("unable to add chat ", &e), ct)
            },
        }
    }

    /// Finishes a message-send request once the caller has decoded the
    /// body: the message goes to the chat `route` named in its step.
    pub fn route_message(&mut self, chat_id: u64, decoded: Result<Message, Vec<u8>>) -> (r:
        Response)
        requires
            old(self).service.wf(),
        ensures
            final(self).routes == old(self).routes,
            final(self).service.contacts == old(self).service.contacts,
            final(self).service.wf(),
            match decoded {
                Err(emsg) => r@ == spec_error500(emsg@) && final(self).service
                    == old(self).service,
                Ok(m) => match room_index(old(self).service.rooms@, chat_id) {
                    Some(i) => {
                        &&& r@ == spec_status_ok()
                        &&& final(self).service.rooms@.len() == old(self).service.rooms@.len()
                        &&& forall|j: int|
                            0 <= j < old(self).service.rooms@.len() && j != i ==> final(self).service.rooms@[j] == old(self).service.rooms@[j]
                        &&& final(self).service.rooms@[i].chat == old(self).service.rooms@[i].chat
                        &&& final(self).service.rooms@[i].log@ == insert_desc(
                            old(self).service.rooms@[i].log@,
                            m,
                        )
                    },
                    None => r@ == spec_not_found() && final(self).service == old(self).service,
                },
            },
    {
        let m = match decoded {
            Ok(m) => m,
            Err(emsg) => {
                return error500(emsg);
            },
        };
        match self.service.send_message(chat_id, m) {
            Ok(_) => status_ok(),
            Err(_) => not_found(),
        }
    }
}

/// The `chatId` parameter of a matched route, parsed as `u64`.
fn chat_id_param(params: &Vec<(Vec<u8>, Vec<u8>)>) -> (r: Option<u64>)
    ensures
        r == chat_id_of(headers_view(params@)),
{
    match pairs_find(params, "chatId".as_bytes()) {
        Some(v) => parse_u64_dec(v.as_slice()),
        None => None,
    }
}

/// Wraps a JSON-encoded response body, or reports the encoder's error.
pub fn encoded_response(encoded: Result<Vec<u8>, Vec<u8>>) -> (r: Response)
    ensures
        match encoded {
            Ok(json) => r@ == spec_ok_json(json@),
            Err(emsg) => r@ == spec_error500(emsg@),
        },
{
    match encoded {
        Ok(json) => ok_json(json),
        Err(emsg) => error500(emsg),
    }
}

} // verus!
