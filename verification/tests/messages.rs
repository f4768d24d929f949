use molybdenite::{Error, Message, MessageRef, Utf8Error};

fn close(payload: &[u8]) -> Message {
    Message::close(payload.to_vec())
}

#[test]
fn close_status_and_reason() {
    let Message::Close(Some(value)) = close(&[0x03, 0xe8, b'b', b'y', b'e']) else {
        panic!("the payload holds a status");
    };
    assert_eq!(value.status(), 1000);
    assert_eq!(value.reason().unwrap(), "bye");
}

#[test]
fn close_reason_may_be_empty() {
    let Message::Close(Some(value)) = close(&[0xff, 0xfe]) else {
        panic!("the payload holds a status");
    };
    assert_eq!(value.status(), 0xfffe);
    assert_eq!(value.reason().unwrap(), "");
}

#[test]
fn close_without_a_status_is_empty() {
    assert!(matches!(close(&[]), Message::Close(None)));
    assert!(matches!(close(&[0x03]), Message::Close(None)));
    assert_eq!(close(&[]).as_str().unwrap(), "");
}

#[test]
fn close_reason_that_is_not_text() {
    let message = close(&[0x03, 0xe8, 0xff]);
    assert!(matches!(message.as_str(), Err(Error::Utf8(Utf8Error::CloseReason))));
}

#[test]
fn messages_as_text() {
    assert_eq!(Message::Text(String::from("text")).as_str().unwrap(), "text");
    assert_eq!(Message::Binary("caf\u{e9}".into()).as_str().unwrap(), "caf\u{e9}");
    assert_eq!(Message::Ping(b"ping".to_vec()).as_str().unwrap(), "ping");
    assert_eq!(Message::Pong(b"pong".to_vec()).as_str().unwrap(), "pong");
    assert_eq!(close(b"..why").as_str().unwrap(), "why");
    assert!(matches!(
        Message::Binary(vec![0xc3]).as_str(),
        Err(Error::Utf8(Utf8Error::TextMessage))
    ));
    assert!(matches!(
        MessageRef::Pong(&[0xed, 0xa0, 0x80]).as_str(),
        Err(Error::Utf8(Utf8Error::TextMessage))
    ));
}

#[test]
fn only_text_is_text() {
    assert_eq!(MessageRef::Text("a").as_text(), Some("a"));
    assert_eq!(MessageRef::Binary(b"a").as_text(), None);
    assert_eq!(Message::Text(String::from("b")).as_text(), Some("b"));
    assert_eq!(close(&[]).as_text(), None);
}

#[test]
fn messages_know_what_they_are() {
    let messages = [
        Message::Text(String::new()),
        Message::Binary(vec![]),
        Message::Ping(vec![]),
        Message::Pong(vec![]),
        close(&[]),
    ];
    for (i, message) in messages.iter().enumerate() {
        assert_eq!(message.is_text(), i == 0);
        assert_eq!(message.is_binary(), i == 1);
        assert_eq!(message.is_ping(), i == 2);
        assert_eq!(message.is_pong(), i == 3);
        assert_eq!(message.is_close(), i == 4);
        let message = message.as_ref();
        assert_eq!(message.is_text(), i == 0);
        assert_eq!(message.is_binary(), i == 1);
        assert_eq!(message.is_ping(), i == 2);
        assert_eq!(message.is_pong(), i == 3);
        assert_eq!(message.is_close(), i == 4);
    }
}

#[test]
fn a_pong_answers_a_ping() {
    assert_eq!(MessageRef::Ping(&[1, 2]).pong(), MessageRef::Pong(&[1, 2]));
    assert_eq!(MessageRef::Text("a").pong(), MessageRef::Text("a"));
    assert_eq!(Message::Ping(vec![3]).pong(), MessageRef::Pong(&[3]));
    assert_eq!(Message::Pong(vec![4]).pong(), MessageRef::Pong(&[4]));
}
