//! Tests of the wire-protocol parser.

use chat_mio::parse::{
    end_headers, get, header, http11, method, parse_buffer, parse_http_request, post, start_line,
    uri, Method, ParseError, Request,
};

fn header_value<'a>(req: &'a Request, name: &[u8]) -> Option<&'a Vec<u8>> {
    for (n, v) in req.headers.iter() {
        if n.as_slice() == name {
            return Some(v);
        }
    }
    None
}

#[test]
fn test_single_request() {
    let requests =
        parse_buffer(
        b"GET /something/neat/here/1 HTTP/1.1\r\nUser-Agent: Wget/1.20.1 (linux-gnu)\r\nAccept: */*\r\n Accept-Encoding: identity\r\n Host: localhost:8080\r\nConnection: Keep-Alive\r\nContent-Length: 16\r\n\r\n{'kinda':'json'}").unwrap();

    assert_eq!(requests.len(), 1);
}

#[test]
fn test_pipelined_requests_with_body() {
    let requests =
        parse_buffer(
        b"GET /something/neat/here/1 HTTP/1.1\r\nUser-Agent: Wget/1.20.1 (linux-gnu)\r\nAccept: */*\r\n Accept-Encoding: identity\r\n Host: localhost:8080\r\nConnection: Keep-Alive\r\nContent-Length: 15\r\n\r\n{'an':'object'}GET /something/neat/here/1 HTTP/1.1\r\nUser-Agent: Wget/1.20.1 (linux-gnu)\r\nAccept: */*\r\n Accept-Encoding: identity\r\n Host: localhost:8080\r\nConnection: Keep-Alive\r\nContent-Length: 15\r\n\r\n{'an':'object'}").unwrap();

    assert_eq!(requests.len(), 2);
}

#[test]
fn test_parse_pipelined_no_body() {
    let req =
        parse_buffer(b"GET /something/here HTTP/1.1\r\nUser-Agent: something\r\n\r\nGET /something/here HTTP/1.1\r\nUser-Agent: something\r\n\r\n")
            .unwrap();
    assert_eq!(req.len(), 2);
}

#[test]
fn test_bad_content_length() {
    let r =
        parse_http_request(
        b"GET /something/neat/here/1 HTTP/1.1\r\nUser-Agent: Wget/1.20.1 (linux-gnu)\r\nAccept: */*\r\n Accept-Encoding: identity\r\n Host: localhost:8080\r\nConnection: Keep-Alive\r\nContent-Length: 9000\r\n\r\nthis was a body...", 0);
    assert!(r.is_err());
}

#[test]
fn test_truncated_body_is_incomplete() {
    let r = parse_http_request(b"GET /x HTTP/1.1\r\nContent-Length: 9000\r\n\r\nonly 18 bytes here", 0);
    assert_eq!(r.err().unwrap(), ParseError::Incomplete);
}

#[test]
fn test_parse_real() {
    let (req, _) =
        parse_http_request(
        b"GET /something/neat/here/1 HTTP/1.1\r\nUser-Agent: Wget/1.20.1 (linux-gnu)\r\nAccept: */*\r\n Accept-Encoding: identity\r\n Host: localhost:8080\r\nConnection: Keep-Alive\r\nContent-Length: 18\r\n\r\nthis was a body... ", 0)
            .unwrap();
    assert_eq!(req.target, b"/something/neat/here/1".to_vec());
    assert_eq!(req.method, Method::Get);
    let ua = header_value(&req, b"User-Agent");
    let expected = b"Wget/1.20.1 (linux-gnu)".to_vec();
    let declared: usize = String::from_utf8(header_value(&req, b"Content-Length").unwrap().clone())
        .unwrap()
        .parse()
        .unwrap();
    assert_eq!(req.body.len(), declared);
    assert_eq!(req.body, b"this was a body...".to_vec());
    assert_eq!(ua, Some(&expected));
}

#[test]
fn test_parse_request() {
    let (req, _) =
        parse_http_request(b"GET /something/here HTTP/1.1\r\nUser-Agent: something\r\n\r\n", 0)
            .unwrap();
    assert_eq!(req.target, b"/something/here".to_vec());
    assert_eq!(req.method, Method::Get);
    let ua = header_value(&req, b"User-Agent");
    let expected = b"something".to_vec();
    assert_eq!(ua, Some(&expected));
}

#[test]
fn test_header() {
    let s = b"User-Agent:Wget\r\n";
    let ((name, value), rest) = header(s, 0).unwrap();
    assert_eq!(rest, s.len());
    assert_eq!(name, b"User-Agent".to_vec());
    assert_eq!(value, b"Wget".to_vec());
}

#[test]
fn test_start_line() {
    let s = b"GET /something/here HTTP/1.1\r\n";
    let ((m, target), rest) = start_line(s, 0).unwrap();
    assert_eq!(rest, s.len());
    assert_eq!(m, Method::Get);
    assert_eq!(target, b"/something/here".to_vec());
}

#[test]
fn test_start_line2() {
    let s = b"GET /something/neat/here/1 HTTP/1.1\r\nUser-Agent: Wget/1.20.1 (linux-gnu)\r\nAccept: */*\r\n Accept-Encoding: identity\r\n Host: localhost:8080\r\nConnection: Keep-Alive\r\nContent-Length: 15\r\n\r\n{\"an\":\"object\"}";
    let ((m, target), rest) = start_line(s, 0).unwrap();
    assert_eq!(
        &s[rest..],
        &b"User-Agent: Wget/1.20.1 (linux-gnu)\r\nAccept: */*\r\n Accept-Encoding: identity\r\n Host: localhost:8080\r\nConnection: Keep-Alive\r\nContent-Length: 15\r\n\r\n{\"an\":\"object\"}"[..]
    );
    assert_eq!(m, Method::Get);
    assert_eq!(target, b"/something/neat/here/1".to_vec());
}

#[test]
fn test_method() {
    let parsed = get(b"GET", 0);
    assert_eq!(parsed, Some(3));
    let parsed = post(b"POST", 0);
    assert_eq!(parsed, Some(4));
    assert_eq!(method(b"PUT /x HTTP/1.1\r\n", 0), None);
}

#[test]
fn test_uri() {
    let s = b"/something/here HTTP/1.1\r\n";
    let (target, rest) = uri(s, 0).unwrap();
    assert_eq!(&s[rest..], &b"HTTP/1.1\r\n"[..]);
    assert_eq!(target, b"/something/here".to_vec());
}

#[test]
fn test_version() {
    let s = b"HTTP/1.1\r\n";
    assert_eq!(http11(s, 0), Some(s.len()));
    assert_eq!(http11(b"HTTP/1.0\r\n", 0), None);
}

#[test]
fn test_three_pipelined_messages_consume_everything() {
    let one = b"POST /chats HTTP/1.1\r\nContent-Length: 2\r\n\r\nhi";
    let mut buf = Vec::new();
    buf.extend_from_slice(one);
    buf.extend_from_slice(one);
    buf.extend_from_slice(one);
    let reqs = parse_buffer(&buf).unwrap();
    assert_eq!(reqs.len(), 3);
    for r in &reqs {
        assert_eq!(r.method, Method::Post);
        assert_eq!(r.target, b"/chats".to_vec());
        assert_eq!(r.body, b"hi".to_vec());
    }
}

#[test]
fn test_bad_start_line_fails_whole_buffer() {
    let r = parse_buffer(b"GET /ok HTTP/1.1\r\n\r\nBROKEN");
    assert_eq!(r.err().unwrap(), ParseError::BadStartLine);
}

#[test]
fn test_bad_header_line() {
    let r = parse_http_request(b"GET /x HTTP/1.1\r\nNoColonHere\r\n\r\n", 0);
    assert_eq!(r.err().unwrap(), ParseError::BadHeader);
}

#[test]
fn test_end_headers() {
    assert_eq!(end_headers(b"\r\nrest", 0), Some(2));
    assert_eq!(end_headers(b"x\r\n", 0), None);
}

#[test]
fn test_last_content_length_wins() {
    let (req, _) =
        parse_http_request(b"GET /x HTTP/1.1\r\nContent-Length: 1\r\nContent-Length: 3\r\n\r\nabcdef", 0)
            .unwrap();
    assert_eq!(req.body, b"abc".to_vec());
}

#[test]
fn test_unparsable_content_length_defaults_to_zero() {
    let (req, rest) = parse_http_request(b"GET /x HTTP/1.1\r\nContent-Length: soon\r\n\r\nleft", 0)
        .unwrap();
    assert_eq!(req.body, b"".to_vec());
    assert_eq!(rest, b"GET /x HTTP/1.1\r\nContent-Length: soon\r\n\r\n".len());
}
