//! The reactor's state: the connection table with its token bookkeeping,
//! per-connection read buffers, the chat route table, and the wire-form
//! response serializer.
//!
//! The event loop itself blocks on an I/O multiplexer, which cannot run
//! here; the surrounding application waits for readiness and calls in:
//! `accept_connection` for a fresh socket, `client_read` for one read
//! of a ready connection (repeated until `WouldBlock`, as an
//! edge-triggered multiplexer requires), the dispatch steps on each
//! decoded request, and `write_response` for each answer.

use vstd::prelude::*;

use crate::chat_service::ChatService;
use crate::dispatch::HandlerKind;
use crate::parse::{crlf, parse_buffer, reqs_view, spec_parse_all, Method, ParseError, Request};
use crate::router::{pat_view, pattern_of, RespView, Response, Route, Router};
use crate::text::{copy_range, dec_digits, push_u64_dec};
use std::io::Read;
use std::io::Write;
use vstd::string::StringSliceAdditionalSpecFns;

verus! {

/// Size of each connection's read buffer.
pub const MAX_BUF_SIZE: usize = 8192;

/// Why a socket operation did not complete: the call would have
/// blocked, or it failed outright.
#[derive(Clone, Copy, PartialEq, Eq, Structural, Debug)]
pub enum IoFailure {
    WouldBlock,
    Other,
}

/// One accepted connection: its socket and its fixed-size read buffer.
pub struct Client<T> {
    pub socket: T,
    pub buffer: Vec<u8>,
}

impl<T> Client<T> {
    /// Wraps a socket with a zeroed read buffer.
    pub fn new(socket: T) -> (c: Self)
        ensures
            c.buffer@.len() == MAX_BUF_SIZE as int,
            forall|i: int| 0 <= i < c.buffer@.len() ==> c.buffer@[i] == 0,
    {
        Client { socket, buffer: vec![0u8; MAX_BUF_SIZE] }
    }
}

impl<T: Read> Client<T> {
    /// One read from the socket into the front of the buffer.
    ///
    /// Relies on `std::io::Read::read`: on `Ok(n)`, at most the
    /// buffer's length was filled (`0 <= n <= buf.len()`), and reading
    /// into a slice cannot resize it. A `WouldBlock` error is told
    /// apart from every other failure.
    #[verifier::external_body]
    pub fn read(&mut self) -> (r: Result<usize, IoFailure>)
        ensures
            final(self).buffer@.len() == old(self).buffer@.len(),
            r matches Ok(n) ==> n <= old(self).buffer@.len(),
    {
        match self.socket.read(&mut self.buffer) {
            Ok(n) => Ok(n),
            Err(e) => {
                if e.kind() == std::io::ErrorKind::WouldBlock {
                    Err(IoFailure::WouldBlock)
                } else {
                    Err(IoFailure::Other)
                }
            },
        }
    }
}

impl<T: Write> Client<T> {
    /// Writes all of `bytes` to the socket.
    ///
    /// Relies on `std::io::Write::write_all`; the read buffer is not
    /// touched. A `WouldBlock` error is told apart from every other
    /// failure.
    #[verifier::external_body]
    pub(crate) fn write_all(&mut self, bytes: &[u8]) -> (r: Result<(), IoFailure>)
        ensures
            final(self).buffer == old(self).buffer,
    {
        match self.socket.write_all(bytes) {
            Ok(()) => Ok(()),
            Err(e) => {
                if e.kind() == std::io::ErrorKind::WouldBlock {
                    Err(IoFailure::WouldBlock)
                } else {
                    Err(IoFailure::Other)
                }
            },
        }
    }
}

// ---------------------------------------------------------------------
// Response serialization to the wire form.
// ---------------------------------------------------------------------

/// The canonical reason phrase of the status codes this server sends;
/// other codes go out with the bare number.
pub open spec fn reason(status: u16) -> Seq<u8> {
    if status == 200 {
        " OK".spec_bytes()
    } else if status == 400 {
        " Bad Request".spec_bytes()
    } else if status == 404 {
        " Not Found".spec_bytes()
    } else if status == 500 {
        " Internal Server Error".spec_bytes()
    } else {
        Seq::empty()
    }
}

pub open spec fn status_line(status: u16) -> Seq<u8> {
    "HTTP/1.1 ".spec_bytes() + dec_digits(status as int) + reason(status) + crlf()
}

/// Header lines in order, each `Name: Value CRLF`.
pub open spec fn headers_wire(hs: Seq<(Seq<u8>, Seq<u8>)>) -> Seq<u8>
    decreases hs.len(),
{
    if hs.len() == 0 {
        Seq::empty()
    } else {
        headers_wire(hs.drop_last()) + hs.last().0 + ": ".spec_bytes() + hs.last().1 + crlf()
    }
}

/// The whole wire form: status line, headers, a `Content-Length`
/// header computed from the body, a blank line, then the body.
pub open spec fn response_wire(r: RespView) -> Seq<u8> {
    status_line(r.status) + headers_wire(r.headers) + "Content-Length: ".spec_bytes()
        + dec_digits(r.body.len() as int) + crlf() + crlf() + r.body
}

/// Serializes a response to its wire form.
pub fn response_bytes(res: &Response) -> (v: Vec<u8>)
    ensures
        v@ == response_wire(res@),
{
    let mut v: Vec<u8> = Vec::new();
    v.extend_from_slice("HTTP/1.1 ".as_bytes());
    push_u64_dec(res.status as u64, &mut v);
    if res.status == 200 {
        v.extend_from_slice(" OK".as_bytes());
    } else if res.status == 400 {
        v.extend_from_slice(" Bad Request".as_bytes());
    } else if res.status == 404 {
        v.extend_from_slice(" Not Found".as_bytes());
    } else if res.status == 500 {
        v.extend_from_slice(" Internal Server Error".as_bytes());
    }
    v.push(13);
    v.push(10);
    assert(v@ =~= status_line(res@.status));
    let ghost sl = status_line(res@.status);
    let mut i: usize = 0;
    proof {
        assert(crate::parse::headers_view(res.headers@).take(0) =~= Seq::<(
            Seq<u8>,
            Seq<u8>,
        )>::empty());
        assert(v@ =~= sl + headers_wire(crate::parse::headers_view(res.headers@).take(0)));
    }
    while i < res.headers.len()
        invariant
            0 <= i <= res.headers@.len(),
            sl == status_line(res@.status),
            v@ == sl + headers_wire(crate::parse::headers_view(res.headers@).take(i as int)),
        decreases res.headers@.len() - i,
    {
        let ghost hv = crate::parse::headers_view(res.headers@);
        proof {
            assert(hv.take(i + 1).drop_last() =~= hv.take(i as int));
            assert(hv.take(i + 1).last() == (res.headers@[i as int].0@, res.headers@[
                i as int].1@));
        }
        v.extend_from_slice(res.headers[i].0.as_slice());
        v.extend_from_slice(": ".as_bytes());
        v.extend_from_slice(res.headers[i].1.as_slice());
        v.push(13);
        v.push(10);
        assert(v@ =~= sl + headers_wire(hv.take(i + 1)));
        i = i + 1;
    }
    proof {
        assert(crate::parse::headers_view(res.headers@).take(res.headers@.len() as int)
            =~= crate::parse::headers_view(res.headers@));
    }
    v.extend_from_slice("Content-Length: ".as_bytes());
    push_u64_dec(res.body.len() as u64, &mut v);
    v.push(13);
    v.push(10);
    v.push(13);
    v.push(10);
    v.extend_from_slice(res.body.as_slice());
    assert(v@ =~= response_wire(res@));
    v
}

// ---------------------------------------------------------------------
// The server's connection table.
// ---------------------------------------------------------------------

/// What one attempted read of a connection came to.
pub enum ReadOutcome {
    /// No connection carries this token.
    NoSuchClient,
    /// The peer closed; the connection was dropped.
    Closed,
    /// Nothing more to read on this readiness edge.
    WouldBlock,
    /// A transport error; the connection was dropped.
    TransportError,
    /// The bytes read did not parse; the connection stays registered.
    ParseFailed(ParseError),
    /// The decoded pipelined requests, in arrival order.
    Requests(Vec<Request>),
}

/// What writing a response came to.
#[derive(Clone, Copy, PartialEq, Eq, Structural, Debug)]
pub enum WriteOutcome {
    NoSuchClient,
    Written,
    /// The write failed; the connection was dropped.
    Failed,
}

pub open spec fn tokens<T>(conns: Seq<(u64, Client<T>)>) -> Seq<u64> {
    conns.map_values(|e: (u64, Client<T>)| e.0)
}

/// The four routes of the chat API, in registration order.
pub open spec fn chat_routes(routes: Seq<Route<HandlerKind>>) -> bool {
    &&& routes.len() == 4
    &&& routes[0].method == Method::Post && routes[0].handler == HandlerKind::CreateChat
        && pat_view(routes[0].pattern@) == pattern_of("/chats".spec_bytes())
    &&& routes[1].method == Method::Post && routes[1].handler == HandlerKind::SendMessage
        && pat_view(routes[1].pattern@) == pattern_of("/chats/:chatId/messages".spec_bytes())
    &&& routes[2].method == Method::Get && routes[2].handler == HandlerKind::ListChats
        && pat_view(routes[2].pattern@) == pattern_of("/chats".spec_bytes())
    &&& routes[3].method == Method::Get && routes[3].handler == HandlerKind::GetMessages
        && pat_view(routes[3].pattern@) == pattern_of("/chats/:chatId/messages".spec_bytes())
}

/// The reactor's state: the listening token, the token counter, the
/// open connections, and the router over the application state.
pub struct Server<T> {
    pub token: u64,
    pub next_token: u64,
    pub connections: Vec<(u64, Client<T>)>,
    pub router: Router<HandlerKind>,
}

impl<T> Server<T> {
    /// Token `0` is the listener's; connection tokens are at least 1,
    /// strictly increasing in table order, all below the counter
    /// (so a token is never reused), and the chat state is sound.
    pub open spec fn wf(&self) -> bool {
        &&& self.token == 0
        &&& 1 <= self.next_token
        &&& forall|i: int, j: int|
            0 <= i < j < self.connections@.len() ==> #[trigger] tokens(self.connections@)[i]
                < #[trigger] tokens(self.connections@)[j]
        &&& forall|i: int|
            0 <= i < self.connections@.len() ==> 1 <= #[trigger] tokens(self.connections@)[i]
                && tokens(self.connections@)[i] < self.next_token
        &&& forall|i: int|
            0 <= i < self.connections@.len() ==> (#[trigger] self.connections@[i]).1.buffer@.len()
                == MAX_BUF_SIZE as int
        &&& self.router.service.wf()
    }

    /// A server over the given chat state, with the four chat routes
    /// registered and no connections yet.
    pub fn new(service: ChatService) -> (s: Server<T>)
        requires
            service.wf(),
        ensures
            s.wf(),
            s.token == 0,
            s.next_token == 1,
            s.connections@.len() == 0,
            s.router.service == service,
            chat_routes(s.router.routes@),
    {
        let b0 = Router::<HandlerKind>::builder(service);
        let b1 = b0.register("/chats".as_bytes(), Method::Post, HandlerKind::CreateChat);
        let b2 = b1.register(
            "/chats/:chatId/messages".as_bytes(),
            Method::Post,
            HandlerKind::SendMessage,
        );
        let b3 = b2.register("/chats".as_bytes(), Method::Get, HandlerKind::ListChats);
        let b4 = b3.register(
            "/chats/:chatId/messages".as_bytes(),
            Method::Get,
            HandlerKind::GetMessages,
        );
        let router = b4.build();
        proof {
            assert(router.routes@.len() == 4);
            assert(router.routes@[3] == b4.routes@.last());
            assert(router.routes@[2] == b4.routes@.drop_last()[2]);
            assert(b3.routes@[2] == b3.routes@.last());
            assert(router.routes@[1] == b3.routes@.drop_last()[1]);
            assert(b2.routes@[1] == b2.routes@.last());
            assert(router.routes@[0] == b2.routes@.drop_last()[0]);
            assert(b1.routes@[0] == b1.routes@.last());
        }
        Server { token: 0, next_token: 1, connections: Vec::new(), router }
    }

    /// Registers an accepted socket under a fresh token (monotonically
    /// assigned, never reused); refuses only when the counter is spent.
    pub fn accept_connection(&mut self, socket: T) -> (r: Option<u64>)
        requires
            old(self).wf(),
        ensures
            final(self).wf(),
            final(self).router == old(self).router,
            final(self).token == old(self).token,
            match r {
                Some(tok) => {
                    &&& tok == old(self).next_token
                    &&& final(self).next_token == old(self).next_token + 1
                    &&& tokens(final(self).connections@) == tokens(
                        old(self).connections@,
                    ).push(tok)
                    &&& final(self).connections@.last().1.buffer@.len() == MAX_BUF_SIZE as int
                },
                None => old(self).next_token == u64::MAX && *final(self) == *old(self),
            },
    {
        if self.next_token == u64::MAX {
            return None;
        }
        let tok = self.next_token;
        self.next_token = self.next_token + 1;
        let ghost old_conns = self.connections@;
        self.connections.push((tok, Client::new(socket)));
        proof {
            assert(tokens(self.connections@) =~= tokens(old_conns).push(tok));
            assert(forall|i: int|
                0 <= i < old_conns.len() ==> (#[trigger] self.connections@[i]) == old_conns[i]);
        }
        Some(tok)
    }

    /// Index of the connection that carries `token`.
    fn find_conn(&self, token: u64) -> (r: Option<usize>)
        ensures
            match r {
                Some(i) => i < self.connections@.len() && self.connections@[i as int].0 == token,
                None => !tokens(self.connections@).contains(token),
            },
    {
        let mut i: usize = 0;
        while i < self.connections.len()
            invariant
                0 <= i <= self.connections@.len(),
                forall|k: int| 0 <= k < i ==> #[trigger] tokens(self.connections@)[k] != token,
            decreases self.connections@.len() - i,
        {
            if self.connections[i].0 == token {
                return Some(i);
            }
            assert(tokens(self.connections@)[i as int] != token);
            i = i + 1;
        }
        proof {
            assert forall|k: int|
                0 <= k < tokens(self.connections@).len() implies #[trigger] tokens(
                self.connections@,
            )[k] != token by {
            }
            assert(!tokens(self.connections@).contains(token));
        }
        None
    }
}

impl<T: Read> Server<T> {
    /// One read for the connection carrying `token`, with its parse and
    /// lifecycle decisions: a zero-length read (peer closed) or a
    /// transport error drops the connection; `WouldBlock` ends the
    /// drain for this readiness edge; a parse failure abandons the
    /// bytes but keeps the connection; otherwise the decoded requests
    /// come back in order, ready to dispatch.
    pub fn client_read(&mut self, token: u64) -> (r: ReadOutcome)
        requires
            old(self).wf(),
        ensures
            final(self).wf(),
            final(self).router == old(self).router,
            final(self).next_token == old(self).next_token,
            final(self).token == old(self).token,
            match r {
                ReadOutcome::NoSuchClient => tokens(final(self).connections@) == tokens(
                    old(self).connections@,
                ) && !tokens(old(self).connections@).contains(token),
                ReadOutcome::Closed | ReadOutcome::TransportError => exists|i: int|
                    0 <= i < old(self).connections@.len() && old(self).connections@[i].0 == token
                        && tokens(final(self).connections@) == tokens(
                        old(self).connections@,
                    ).remove(i),
                ReadOutcome::WouldBlock | ReadOutcome::ParseFailed(_) => tokens(
                    final(self).connections@,
                ) == tokens(old(self).connections@),
                ReadOutcome::Requests(reqs) => tokens(final(self).connections@) == tokens(
                    old(self).connections@,
                ) && (exists|data: Seq<u8>|
                    #[trigger] spec_parse_all(data, 0) == Ok::<_, ParseError>(
                        reqs_view(reqs@),
                    )),
            },
    {
        let idx = match self.find_conn(token) {
            Some(i) => i,
            None => {
                return ReadOutcome::NoSuchClient;
            },
        };
        let ghost old_conns = self.connections@;
        let mut entry = self.connections.remove(idx);
        match entry.1.read() {
            Err(IoFailure::WouldBlock) => {
                self.connections.insert(idx, entry);
                proof {
                    assert(self.connections@ =~= old_conns.remove(idx as int).insert(
                        idx as int,
                        self.connections@[idx as int],
                    ));
                    assert(tokens(self.connections@) =~= tokens(old_conns));
                }
                ReadOutcome::WouldBlock
            },
            Err(IoFailure::Other) => {
                proof {
                    assert(tokens(self.connections@) =~= tokens(old_conns).remove(idx as int));
                    lemma_tokens_remove_sorted(old_conns, idx as int, old(self).next_token);
                }
                ReadOutcome::TransportError
            },
            Ok(n) => {
                if n == 0 {
                    proof {
                        assert(tokens(self.connections@) =~= tokens(old_conns).remove(
                            idx as int,
                        ));
                        lemma_tokens_remove_sorted(old_conns, idx as int, old(self).next_token);
                    }
                    return ReadOutcome::Closed;
                }
                let data = copy_range(entry.1.buffer.as_slice(), 0, n);
                let parsed = parse_buffer(data.as_slice());
                self.connections.insert(idx, entry);
                proof {
                    assert(tokens(self.connections@) =~= tokens(old_conns));
                }
                match parsed {
                    Ok(reqs) => {
                        proof {
                            assert(spec_parse_all(data@, 0) == Ok::<_, ParseError>(
                                reqs_view(reqs@),
                            ));
                        }
                        ReadOutcome::Requests(reqs)
                    },
                    Err(e) => ReadOutcome::ParseFailed(e),
                }
            },
        }
    }
}

impl<T: Write> Server<T> {
    /// Serializes the response and writes it to the connection carrying
    /// `token`. Writes are synchronous: any failure, a would-block
    /// included, is treated as fatal to that connection, which is
    /// dropped.
    pub fn write_response(&mut self, token: u64, res: &Response) -> (r: WriteOutcome)
        requires
            old(self).wf(),
        ensures
            final(self).wf(),
            final(self).router == old(self).router,
            final(self).next_token == old(self).next_token,
            final(self).token == old(self).token,
            match r {
                WriteOutcome::NoSuchClient => tokens(final(self).connections@) == tokens(
                    old(self).connections@,
                ) && !tokens(old(self).connections@).contains(token),
                WriteOutcome::Written => tokens(final(self).connections@) == tokens(
                    old(self).connections@,
                ),
                WriteOutcome::Failed => exists|i: int|
                    0 <= i < old(self).connections@.len() && old(self).connections@[i].0 == token
                        && tokens(final(self).connections@) == tokens(
                        old(self).connections@,
                    ).remove(i),
            },
    {
        let idx = match self.find_conn(token) {
            Some(i) => i,
            None => {
                return WriteOutcome::NoSuchClient;
            },
        };
        let bytes = response_bytes(res);
        let ghost old_conns = self.connections@;
        let mut entry = self.connections.remove(idx);
        match entry.1.write_all(bytes.as_slice()) {
            Ok(_) => {
                self.connections.insert(idx, entry);
                proof {
                    assert(tokens(self.connections@) =~= tokens(old_conns));
                }
                WriteOutcome::Written
            },
            Err(_) => {
                proof {
                    assert(tokens(self.connections@) =~= tokens(old_conns).remove(idx as int));
                    lemma_tokens_remove_sorted(old_conns, idx as int, old(self).next_token);
                }
                WriteOutcome::Failed
            },
        }
    }
}

/// Removing one connection keeps the token order strictly increasing
/// and below the counter, and every remaining buffer at its capacity.
proof fn lemma_tokens_remove_sorted<T>(conns: Seq<(u64, Client<T>)>, idx: int, bound: u64)
    requires
        0 <= idx < conns.len(),
        forall|i: int, j: int|
            0 <= i < j < conns.len() ==> #[trigger] tokens(conns)[i] < #[trigger] tokens(
                conns,
            )[j],
        forall|i: int|
            0 <= i < conns.len() ==> 1 <= #[trigger] tokens(conns)[i] && tokens(conns)[i]
                < bound,
        forall|i: int|
            0 <= i < conns.len() ==> (#[trigger] conns[i]).1.buffer@.len() == MAX_BUF_SIZE as int,
    ensures
        forall|i: int, j: int|
            0 <= i < j < tokens(conns).remove(idx).len() ==> #[trigger] tokens(conns).remove(
                idx,
            )[i] < #[trigger] tokens(conns).remove(idx)[j],
        forall|i: int|
            0 <= i < tokens(conns).remove(idx).len() ==> 1 <= #[trigger] tokens(conns).remove(
                idx,
            )[i] && tokens(conns).remove(idx)[i] < bound,
        forall|i: int|
            0 <= i < conns.remove(idx).len() ==> (#[trigger] conns.remove(idx)[i]).1.buffer@.len()
                == MAX_BUF_SIZE as int,
{
    let t = tokens(conns);
    let r = t.remove(idx);
    assert(forall|i: int| 0 <= i < idx ==> r[i] == t[i]);
    assert(forall|i: int| idx <= i < r.len() ==> r[i] == t[i + 1]);
    assert(forall|i: int| 0 <= i < idx ==> conns.remove(idx)[i] == #[trigger] conns[i]);
    assert(forall|i: int|
        idx <= i < conns.remove(idx).len() ==> #[trigger] conns.remove(idx)[i] == conns[i + 1]);
}

} // verus!
