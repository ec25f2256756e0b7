//! Tests of the reactor state: token assignment, the read/parse cycle,
//! response serialization and writing.

use std::cell::RefCell;
use std::rc::Rc;

use chat_mio::chat_service::ChatService;
use chat_mio::dispatch::RouteStep;
use chat_mio::parse::Method;
use chat_mio::router::status_ok;
use chat_mio::server::{response_bytes, ReadOutcome, Server, WriteOutcome};

/// A socket stand-in: hands out scripted chunks, then either signals
/// would-block or end-of-stream; records everything written to it.
struct FakeSock {
    incoming: Vec<Vec<u8>>,
    closed: bool,
    written: Rc<RefCell<Vec<u8>>>,
    fail_writes: bool,
}

impl FakeSock {
    fn with_data(data: &[u8]) -> Self {
        FakeSock {
            incoming: vec![data.to_vec()],
            closed: false,
            written: Rc::new(RefCell::new(Vec::new())),
            fail_writes: false,
        }
    }

    fn closed() -> Self {
        FakeSock {
            incoming: Vec::new(),
            closed: true,
            written: Rc::new(RefCell::new(Vec::new())),
            fail_writes: false,
        }
    }
}

impl std::io::Read for FakeSock {
    fn read(&mut self, buf: &mut [u8]) -> std::io::Result<usize> {
        if self.incoming.is_empty() {
            if self.closed {
                Ok(0)
            } else {
                Err(std::io::Error::from(std::io::ErrorKind::WouldBlock))
            }
        } else {
            let chunk = self.incoming.remove(0);
            let n = chunk.len().min(buf.len());
            buf[..n].copy_from_slice(&chunk[..n]);
            Ok(n)
        }
    }
}

impl std::io::Write for FakeSock {
    fn write(&mut self, buf: &[u8]) -> std::io::Result<usize> {
        if self.fail_writes {
            return Err(std::io::Error::from(std::io::ErrorKind::BrokenPipe));
        }
        self.written.borrow_mut().extend_from_slice(buf);
        Ok(buf.len())
    }

    fn flush(&mut self) -> std::io::Result<()> {
        Ok(())
    }
}

#[test]
fn create_server() {
    let addr = "127.0.0.1:8080".parse().unwrap();
    let mut listener = mio::net::TcpListener::bind(addr).unwrap();
    let server: Server<mio::net::TcpStream> = Server::new(ChatService::default());
    assert_eq!(server.next_token, 1);
    let mut poll = mio::Poll::new().unwrap();
    poll.registry()
        .register(&mut listener, mio::Token(0), mio::Interest::READABLE)
        .unwrap();
    let mut events = mio::Events::with_capacity(64);
    poll.poll(&mut events, Some(std::time::Duration::from_millis(10))).unwrap();
}

#[test]
fn test_tokens_are_monotonic() {
    let mut server: Server<std::io::Empty> = Server::new(ChatService::default());
    assert_eq!(server.accept_connection(std::io::empty()), Some(1));
    assert_eq!(server.accept_connection(std::io::empty()), Some(2));
    assert_eq!(server.accept_connection(std::io::empty()), Some(3));
}

#[test]
fn test_read_parse_respond_cycle() {
    let mut server: Server<FakeSock> = Server::new(ChatService::default());
    let sock = FakeSock::with_data(b"GET /chats?userId=1 HTTP/1.1\r\n\r\n");
    let written = Rc::clone(&sock.written);
    let token = server.accept_connection(sock).unwrap();

    // one readiness edge: read, parse, dispatch, respond
    let reqs = match server.client_read(token) {
        ReadOutcome::Requests(reqs) => reqs,
        other => panic!("expected requests, got {}", outcome_name(&other)),
    };
    assert_eq!(reqs.len(), 1);
    assert_eq!(reqs[0].method, Method::Get);
    assert_eq!(reqs[0].target, b"/chats?userId=1".to_vec());

    match server.router.route(&reqs[0]) {
        RouteStep::EncodeChats { chats } => assert_eq!(chats.len(), 0),
        _ => panic!("expected an encode step"),
    }
    let resp = chat_mio::dispatch::encoded_response(Ok(b"[]".to_vec()));
    assert_eq!(server.write_response(token, &resp), WriteOutcome::Written);
    assert_eq!(
        String::from_utf8(written.borrow().clone()).unwrap(),
        "HTTP/1.1 200 OK\r\nContent-Type: application/json\r\nContent-Length: 2\r\n\r\n[]"
    );

    // drained: the next read would block, the connection stays
    match server.client_read(token) {
        ReadOutcome::WouldBlock => {},
        other => panic!("expected would-block, got {}", outcome_name(&other)),
    }
}

fn outcome_name(o: &ReadOutcome) -> &'static str {
    match o {
        ReadOutcome::NoSuchClient => "no such client",
        ReadOutcome::Closed => "closed",
        ReadOutcome::WouldBlock => "would block",
        ReadOutcome::TransportError => "transport error",
        ReadOutcome::ParseFailed(_) => "parse failed",
        ReadOutcome::Requests(_) => "requests",
    }
}

#[test]
fn test_peer_close_drops_connection() {
    let mut server: Server<FakeSock> = Server::new(ChatService::default());
    let token = server.accept_connection(FakeSock::closed()).unwrap();
    match server.client_read(token) {
        ReadOutcome::Closed => {},
        other => panic!("expected closed, got {}", outcome_name(&other)),
    }
    match server.client_read(token) {
        ReadOutcome::NoSuchClient => {},
        other => panic!("expected no such client, got {}", outcome_name(&other)),
    }
}

#[test]
fn test_parse_failure_keeps_connection() {
    let mut server: Server<FakeSock> = Server::new(ChatService::default());
    let sock = FakeSock::with_data(b"NONSENSE\r\n\r\n");
    let token = server.accept_connection(sock).unwrap();
    match server.client_read(token) {
        ReadOutcome::ParseFailed(_) => {},
        other => panic!("expected a parse failure, got {}", outcome_name(&other)),
    }
    // still registered
    match server.client_read(token) {
        ReadOutcome::WouldBlock => {},
        other => panic!("expected would-block, got {}", outcome_name(&other)),
    }
}

#[test]
fn test_failed_write_drops_connection() {
    let mut server: Server<FakeSock> = Server::new(ChatService::default());
    let mut sock = FakeSock::with_data(b"");
    sock.fail_writes = true;
    let token = server.accept_connection(sock).unwrap();
    let resp = status_ok();
    assert_eq!(server.write_response(token, &resp), WriteOutcome::Failed);
    assert_eq!(server.write_response(token, &resp), WriteOutcome::NoSuchClient);
}

#[test]
fn test_response_wire_form() {
    let resp = status_ok();
    assert_eq!(
        String::from_utf8(response_bytes(&resp)).unwrap(),
        "HTTP/1.1 200 OK\r\nContent-Type: text/plain\r\nContent-Length: 0\r\n\r\n"
    );
    let resp = chat_mio::router::not_found();
    assert_eq!(
        String::from_utf8(response_bytes(&resp)).unwrap(),
        "HTTP/1.1 404 Not Found\r\nContent-Type: text/plain\r\nContent-Length: 10\r\n\r\nNot found."
    );
    let resp = chat_mio::router::status_code_msg(418, b"odd".to_vec(), b"text/plain".to_vec());
    assert_eq!(
        String::from_utf8(response_bytes(&resp)).unwrap(),
        "HTTP/1.1 418\r\nContent-Type: text/plain\r\nContent-Length: 3\r\n\r\nodd"
    );
}

#[test]
fn test_number_text() {
    assert_eq!(chat_mio::text::u64_to_dec(0), b"0".to_vec());
    assert_eq!(chat_mio::text::u64_to_dec(90210), b"90210".to_vec());
    assert_eq!(chat_mio::text::parse_u64_dec(b"18"), Some(18));
    assert_eq!(chat_mio::text::parse_u64_dec(b"+5"), Some(5));
    assert_eq!(chat_mio::text::parse_u64_dec(b""), None);
    assert_eq!(chat_mio::text::parse_u64_dec(b"12a"), None);
    assert_eq!(chat_mio::text::parse_u64_dec(b"99999999999999999999999"), None);
    assert_eq!(
        chat_mio::text::parse_u64_dec(b"18446744073709551615"),
        Some(u64::MAX)
    );
}
