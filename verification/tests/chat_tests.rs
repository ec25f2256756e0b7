//! Tests of the chat store: contact checks, room creation, message
//! ordering.

use chat_mio::chat_service::{timestamp, ChatError, ChatService};
use chat_mio::messages::{Chat, Message};

fn msg(src: u64, dst: u64) -> Message {
    let ts = timestamp();
    Message {
        id: String::new(),
        timestamp: ts,
        source_user_id: src,
        destination_user_id: dst,
        message: format!("{} to {} at {}", src, dst, ts),
    }
}

fn msg_at(src: u64, dst: u64, ts: u64) -> Message {
    Message {
        id: String::new(),
        timestamp: ts,
        source_user_id: src,
        destination_user_id: dst,
        message: String::new(),
    }
}

fn mutual_contacts() -> ChatService {
    ChatService::with_contacts(vec![(58534, vec![74827]), (74827, vec![58534])])
}

#[test]
fn test_chat_service() {
    let mut service = mutual_contacts();

    // adding message to log for chat id 11872 users (58534, 74827)
    let chat = Chat {
        id: 11872,
        participant_ids: [58534, 74827],
    };

    service.add_chat(chat).unwrap();

    for _i in 0..10 {
        service.send_message(11872, msg(58534, 74827)).unwrap();
    }

    let messages = service.get_messages(11872).unwrap();
    assert_eq!(messages.len(), 10);

    let mut high_mark = 0;
    for msg in messages {
        if high_mark == 0 {
            high_mark = msg.timestamp;
        }

        assert!(high_mark >= msg.timestamp);
    }
}

#[test]
fn test_log_returns_newest_first() {
    let mut service = mutual_contacts();
    let chat = Chat { id: 7, participant_ids: [58534, 74827] };
    service.add_chat(chat).unwrap();
    for ts in 1..=10 {
        service.send_message(7, msg_at(58534, 74827, ts)).unwrap();
    }
    let messages = service.get_messages(7).unwrap();
    assert_eq!(messages.len(), 10);
    assert_eq!(messages[0].timestamp, 10);
    for w in messages.windows(2) {
        assert!(w[0].timestamp >= w[1].timestamp);
    }
    assert_eq!(messages[9].timestamp, 1);
}

#[test]
fn test_missing_contact_names_direction() {
    // 2 lists 1, but 1 does not list 2 back.
    let mut service = ChatService::with_contacts(vec![(1, vec![]), (2, vec![1])]);
    let err = service.add_chat(Chat { id: 5, participant_ids: [1, 2] }).unwrap_err();
    assert_eq!(err, ChatError::MissingContact { who: 1, whom: 2 });
    assert_eq!(
        String::from_utf8(err.message()).unwrap(),
        "user 1 does not have user 2 in their contact list."
    );
    // the other direction
    let mut service = ChatService::with_contacts(vec![(1, vec![2]), (2, vec![])]);
    let err = service.add_chat(Chat { id: 5, participant_ids: [1, 2] }).unwrap_err();
    assert_eq!(err, ChatError::MissingContact { who: 2, whom: 1 });
    assert_eq!(
        String::from_utf8(err.message()).unwrap(),
        "user 2 does not have user 1 in their contact list."
    );
}

#[test]
fn test_duplicate_chat_fails_second_time() {
    let mut service = mutual_contacts();
    let chat = Chat { id: 11872, participant_ids: [58534, 74827] };
    service.add_chat(chat).unwrap();
    let again = Chat { id: 11872, participant_ids: [58534, 74827] };
    let err = service.add_chat(again).unwrap_err();
    assert_eq!(err, ChatError::AlreadyExists);
    assert_eq!(String::from_utf8(err.message()).unwrap(), "Chat already exists");
}

#[test]
fn test_unknown_participant() {
    let mut service = ChatService::with_contacts(vec![(1, vec![2])]);
    let err = service.add_chat(Chat { id: 5, participant_ids: [1, 2] }).unwrap_err();
    assert_eq!(err, ChatError::UnknownUser);
    assert_eq!(String::from_utf8(err.message()).unwrap(), "unable to create chat");
}

#[test]
fn test_unknown_chat_id() {
    let mut service = mutual_contacts();
    let err = service.send_message(5, msg_at(58534, 74827, 1)).unwrap_err();
    assert_eq!(err, ChatError::UnknownChat { chat_id: 5 });
    assert_eq!(
        String::from_utf8(err.message()).unwrap(),
        "Unable to find chat with id 5"
    );
    assert!(service.get_messages(5).is_err());
}

#[test]
fn test_get_user_chats_filters_by_participant() {
    let mut service = ChatService::with_contacts(vec![
        (1, vec![2, 3]),
        (2, vec![1]),
        (3, vec![1]),
    ]);
    service.add_chat(Chat { id: 10, participant_ids: [1, 2] }).unwrap();
    service.add_chat(Chat { id: 11, participant_ids: [1, 3] }).unwrap();
    let chats = service.get_user_chats(1);
    assert_eq!(chats.len(), 2);
    assert_eq!(chats[0].id, 10);
    assert_eq!(chats[1].id, 11);
    let chats = service.get_user_chats(3);
    assert_eq!(chats.len(), 1);
    assert_eq!(chats[0].id, 11);
    assert_eq!(service.get_user_chats(9).len(), 0);
}

#[test]
fn test_update_timestamp_keeps_payload() {
    let mut m = msg_at(1, 2, 0);
    m.id = "abc".to_string();
    m.message = "hello".to_string();
    m.update_timestamp();
    assert_eq!(m.id, "abc");
    assert_eq!(m.message, "hello");
    assert_eq!(m.source_user_id, 1);
    assert_eq!(m.destination_user_id, 2);
}
