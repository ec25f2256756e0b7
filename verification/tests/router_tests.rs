//! Tests of the route table, the dispatcher steps, and the response
//! helpers.

use chat_mio::chat_service::ChatService;
use chat_mio::dispatch::{encoded_response, parse_query, RouteStep};
use chat_mio::messages::{Chat, Message};
use chat_mio::parse::{Method, Request, Version};
use chat_mio::router::{status_code_msg, Response, Router};
use chat_mio::server::Server;

fn param<'a>(params: &'a [(Vec<u8>, Vec<u8>)], name: &str) -> &'a [u8] {
    for (n, v) in params.iter() {
        if n.as_slice() == name.as_bytes() {
            return v.as_slice();
        }
    }
    panic!("no such param");
}

fn header_value<'a>(res: &'a Response, name: &str) -> Option<&'a Vec<u8>> {
    for (n, v) in res.headers.iter() {
        if n.eq_ignore_ascii_case(name.as_bytes()) {
            return Some(v);
        }
    }
    None
}

fn request(method: Method, target: &str, body: &str) -> Request {
    Request {
        method,
        target: target.as_bytes().to_vec(),
        version: Version::Http11,
        headers: Vec::new(),
        body: body.as_bytes().to_vec(),
    }
}

#[test]
fn test_route_with_params_and_response() {
    let chat = ChatService::default();
    let router = Router::<usize>::builder(chat)
        .register(b"/home/:id/:answer", Method::Get, 0)
        .build();

    let req = request(Method::Get, "/home/42/everything", "req body");
    let (handler, params) = router.find(Method::Get, b"/home/42/everything").unwrap();
    assert_eq!(handler, 0);
    assert_eq!(params.len(), 2, "Unexpected params len");
    assert_eq!(param(&params, "id"), b"42");
    assert_eq!(param(&params, "answer"), b"everything");
    // the registered handler's behavior
    assert_eq!(req.body, b"req body".to_vec());
    let res = status_code_msg(200, b"body here".to_vec(), b"text/plain".to_vec());
    assert_eq!(res.body, b"body here".to_vec());
    assert_eq!(header_value(&res, "Content-type"), Some(&b"text/plain".to_vec()));
}

#[test]
fn test_literal_beats_parameter() {
    let router = Router::<u32>::builder(ChatService::default())
        .register(b"/home/:id", Method::Get, 1)
        .register(b"/home/specific", Method::Get, 2)
        .build();
    let (h, params) = router.find(Method::Get, b"/home/specific").unwrap();
    assert_eq!(h, 2);
    assert_eq!(params.len(), 0);
    let (h, _) = router.find(Method::Get, b"/home/41").unwrap();
    assert_eq!(h, 1);

    // same preference either way round: the literal still wins
    let router = Router::<u32>::builder(ChatService::default())
        .register(b"/home/specific", Method::Get, 2)
        .register(b"/home/:id", Method::Get, 1)
        .build();
    let (h, _) = router.find(Method::Get, b"/home/specific").unwrap();
    assert_eq!(h, 2);
}

#[test]
fn test_not_found_regardless_of_query() {
    let mut server: Server<std::io::Empty> = Server::new(ChatService::default());
    for target in ["/nope", "/nope?x=1", "/chats/extra/deep/path?userId=1"] {
        let req = request(Method::Get, target, "");
        match server.router.route(&req) {
            RouteStep::Done(resp) => {
                assert_eq!(resp.status, 404);
                assert_eq!(resp.body, b"Not found.".to_vec());
            },
            _ => panic!("expected a final response"),
        }
    }
}

#[test]
fn test_chat_dispatch_flow() {
    let service = ChatService::with_contacts(vec![(1, vec![2]), (2, vec![1])]);
    let mut server: Server<std::io::Empty> = Server::new(service);

    // POST /chats asks for a chat decode, then creates the chat.
    let req = request(Method::Post, "/chats", "{\"id\":9,\"participantIds\":[1,2]}");
    let body = match server.router.route(&req) {
        RouteStep::DecodeChat { body } => body,
        _ => panic!("expected a decode step"),
    };
    assert_eq!(body, req.body);
    let resp = server.router.route_chat(Ok(Chat { id: 9, participant_ids: [1, 2] }));
    assert_eq!(resp.status, 200);

    // creating it again fails with a 400 naming the cause
    let resp = server.router.route_chat(Ok(Chat { id: 9, participant_ids: [1, 2] }));
    assert_eq!(resp.status, 400);
    assert_eq!(
        String::from_utf8(resp.body).unwrap(),
        "unable to add chat Chat already exists"
    );

    // POST /chats/9/messages asks for a message decode, then appends.
    let req = request(Method::Post, "/chats/9/messages", "{...}");
    let chat_id = match server.router.route(&req) {
        RouteStep::DecodeMessage { chat_id, body: _ } => chat_id,
        _ => panic!("expected a decode step"),
    };
    assert_eq!(chat_id, 9);
    let m = Message {
        id: String::new(),
        source_user_id: 1,
        destination_user_id: 2,
        timestamp: 5,
        message: "hi".to_string(),
    };
    let resp = server.router.route_message(9, Ok(m));
    assert_eq!(resp.status, 200);

    // sending into an unknown chat answers 404
    let m = Message {
        id: String::new(),
        source_user_id: 1,
        destination_user_id: 2,
        timestamp: 6,
        message: "hi".to_string(),
    };
    let resp = server.router.route_message(1234, Ok(m));
    assert_eq!(resp.status, 404);

    // GET /chats/9/messages hands the log out for encoding
    let req = request(Method::Get, "/chats/9/messages", "");
    match server.router.route(&req) {
        RouteStep::EncodeMessages { messages } => {
            assert_eq!(messages.len(), 1);
            assert_eq!(messages[0].message, "hi");
        },
        _ => panic!("expected an encode step"),
    }

    // GET /chats?userId=1 hands the chat list out for encoding
    let req = request(Method::Get, "/chats?userId=1", "");
    match server.router.route(&req) {
        RouteStep::EncodeChats { chats } => {
            assert_eq!(chats.len(), 1);
            assert_eq!(chats[0].id, 9);
        },
        _ => panic!("expected an encode step"),
    }

    // GET /chats without a query or userId is not found
    for target in ["/chats", "/chats?wrong=1"] {
        let req = request(Method::Get, target, "");
        match server.router.route(&req) {
            RouteStep::Done(resp) => assert_eq!(resp.status, 404),
            _ => panic!("expected a final response"),
        }
    }

    // a chatId that is not a number answers 500
    let req = request(Method::Get, "/chats/notanumber/messages", "");
    match server.router.route(&req) {
        RouteStep::Done(resp) => {
            assert_eq!(resp.status, 500);
            assert_eq!(String::from_utf8(resp.body).unwrap(), "unable to parse chat id");
        },
        _ => panic!("expected a final response"),
    }

    // an unknown chat id in the path answers 500 with the cause
    let req = request(Method::Get, "/chats/77/messages", "");
    match server.router.route(&req) {
        RouteStep::Done(resp) => {
            assert_eq!(resp.status, 500);
            assert_eq!(
                String::from_utf8(resp.body).unwrap(),
                "unable to get messages: Unable to find chat with id 77"
            );
        },
        _ => panic!("expected a final response"),
    }

    // a decode failure reported by the caller becomes a 500
    let resp = server.router.route_chat(Err(b"unable to parse json: bad".to_vec()));
    assert_eq!(resp.status, 500);
    assert_eq!(String::from_utf8(resp.body).unwrap(), "unable to parse json: bad");
}

#[test]
fn test_encoded_response() {
    let resp = encoded_response(Ok(b"[1,2]".to_vec()));
    assert_eq!(resp.status, 200);
    assert_eq!(resp.body, b"[1,2]".to_vec());
    assert_eq!(header_value(&resp, "Content-Type"), Some(&b"application/json".to_vec()));
    let resp = encoded_response(Err(b"no".to_vec()));
    assert_eq!(resp.status, 500);
    assert_eq!(resp.body, b"no".to_vec());
}

#[test]
fn test_query_pairs() {
    let pairs = parse_query(b"a=1&b&c=three&&d=");
    let view: Vec<(String, String)> = pairs
        .into_iter()
        .map(|(n, v)| (String::from_utf8(n).unwrap(), String::from_utf8(v).unwrap()))
        .collect();
    assert_eq!(
        view,
        vec![
            ("a".to_string(), "1".to_string()),
            ("b".to_string(), "".to_string()),
            ("c".to_string(), "three".to_string()),
            ("d".to_string(), "".to_string()),
        ]
    );
}

#[test]
fn test_root_and_trailing_slash_routes() {
    let router = Router::<u32>::builder(ChatService::default())
        .register(b"/", Method::Get, 1)
        .register(b"/a/", Method::Get, 2)
        .register(b"/a", Method::Get, 3)
        .build();
    assert_eq!(router.find(Method::Get, b"/").map(|r| r.0), Some(1));
    assert_eq!(router.find(Method::Get, b"/a/").map(|r| r.0), Some(2));
    assert_eq!(router.find(Method::Get, b"/a").map(|r| r.0), Some(3));
    assert!(router.find(Method::Post, b"/a").is_none());
}
