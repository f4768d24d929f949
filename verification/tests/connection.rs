use molybdenite::frame::FrameStream;
use molybdenite::{
    Error, FrameError, IoError, Message, MessageRef, Role, Url, Utf8Error, WebSocket,
    DEFAULT_FRAGMENT_SIZE, DEFAULT_MAX_HANDSHAKE_LEN, DEFAULT_MAX_PAYLOAD_LEN,
};

fn url(text: &str) -> Url {
    Url::parse(text).unwrap()
}

fn open() -> WebSocket<()> {
    let mut socket = WebSocket::server(false, ());
    socket.skip_handshake();
    socket
}

fn open_client() -> WebSocket<()> {
    let mut socket = WebSocket::client_with_mask(url("ws://a/"), (), [1, 2, 3, 4]);
    socket.skip_handshake();
    socket
}

fn read_all(socket: &mut WebSocket<()>) -> Vec<Message> {
    let mut messages = Vec::new();
    while let Some(message) = socket.read().unwrap() {
        messages.push(message);
    }
    messages
}

#[test]
fn defaults() {
    assert_eq!(DEFAULT_MAX_HANDSHAKE_LEN, 8192);
    assert_eq!(DEFAULT_MAX_PAYLOAD_LEN, 0x0fffffff);
    assert_eq!(DEFAULT_FRAGMENT_SIZE, 0x0fffffff);
}

#[test]
fn a_server_is_as_secure_as_told() {
    assert!(WebSocket::server(true, ()).is_secure());
    let socket = WebSocket::server(false, 7);
    assert!(!socket.is_secure());
    assert!(matches!(socket.role(), Role::Server));
}

#[test]
fn a_client_is_as_secure_as_its_url() {
    let socket = WebSocket::client(url("wss://example.com/chat"), ()).unwrap();
    assert!(socket.is_secure());
    assert!(matches!(socket.role(), Role::Client { url } if url.href == "wss://example.com/chat"));
    assert!(!WebSocket::client(url("ws://example.com/"), ()).unwrap().is_secure());
}

#[test]
fn clients_differ_in_their_masks() {
    let mut masks = Vec::new();
    for _ in 0..8 {
        let mut socket = WebSocket::client(url("ws://a/"), ()).unwrap();
        socket.skip_handshake();
        masks.push(socket.close().unwrap()[2..].to_vec());
    }
    masks.sort();
    masks.dedup();
    assert!(masks.len() > 1);
}

#[test]
fn the_mask_is_read_from_its_last_byte() {
    assert_eq!(open_client().close().unwrap(), [0x88, 0x80, 4, 3, 2, 1]);
    let sent = open_client().write(MessageRef::Binary(&[0, 0, 0, 0, 0])).unwrap();
    assert_eq!(sent, [0x82, 0x85, 4, 3, 2, 1, 4, 3, 2, 1, 4]);
}

#[test]
fn the_transport_is_kept() {
    let mut socket = WebSocket::server(false, String::from("transport"));
    socket.inner_mut().push('!');
    assert_eq!(socket.inner_mut(), "transport!");
}

#[test]
fn nothing_works_before_the_handshake() {
    let mut socket = WebSocket::server(false, ());
    assert!(matches!(socket.read(), Err(Error::NoHandshake)));
    assert!(matches!(socket.write(MessageRef::Text("a")), Err(Error::NoHandshake)));
    assert!(matches!(socket.flush(), Err(Error::NoHandshake)));
    assert!(matches!(socket.close(), Err(Error::NoHandshake)));
    // What came too early is read later.
    socket.receive(&[0x81, 0x01, b'a']);
    assert!(matches!(socket.read(), Err(Error::NoHandshake)));
    socket.skip_handshake();
    assert!(matches!(socket.read(), Ok(Some(Message::Text(text))) if text == "a"));
}

#[test]
fn nothing_works_after_the_end() {
    let mut socket = open();
    assert!(matches!(socket.end_of_stream(), Error::Io(IoError::UnexpectedEof)));
    assert!(matches!(socket.read(), Err(Error::WasClosed)));
    assert!(matches!(socket.write(MessageRef::Text("a")), Err(Error::WasClosed)));
    assert!(matches!(socket.flush(), Err(Error::WasClosed)));
    assert!(matches!(socket.close(), Err(Error::WasClosed)));
}

#[test]
fn an_end_within_a_frame_is_an_error_each_time() {
    let mut socket = open();
    socket.receive(&[0x81, 0x02, b'a']);
    assert!(matches!(socket.read(), Ok(None)));
    assert!(matches!(socket.end_of_stream(), Error::Io(IoError::UnexpectedEof)));
    assert!(matches!(socket.read(), Ok(None)));
    assert!(socket.flush().is_ok());
}

#[test]
fn nothing_is_sent_after_a_close() {
    let mut socket = open();
    assert_eq!(socket.close().unwrap(), [0x88, 0x00]);
    assert!(matches!(socket.write(MessageRef::Text("a")), Err(Error::WasClosed)));
    assert!(matches!(socket.close(), Err(Error::WasClosed)));
    assert!(socket.flush().is_ok());
    // The answer of the other end is still read.
    socket.receive(&[0x81, 0x01, b'a', 0x88, 0x00]);
    assert!(matches!(socket.read(), Ok(Some(Message::Text(_)))));
    assert!(matches!(socket.read(), Ok(Some(Message::Close(None)))));
}

#[test]
fn writing_a_close_message_closes_too() {
    let mut socket = open();
    let message = Message::close(vec![0x03, 0xe8]);
    assert_eq!(socket.write(&message).unwrap(), [0x88, 0x02, 0x03, 0xe8]);
    assert!(matches!(socket.write(MessageRef::Text("a")), Err(Error::WasClosed)));

    let mut other = open();
    let empty = other.write(MessageRef::Close(None)).unwrap();
    assert_eq!(empty, open().close().unwrap());
    assert!(matches!(other.close(), Err(Error::WasClosed)));
}

#[test]
fn a_new_handshake_opens_again() {
    let mut socket = open();
    socket.close().unwrap();
    socket.skip_handshake();
    assert!(socket.write(MessageRef::Text("a")).is_ok());
}

#[test]
fn messages_come_in_any_pieces() {
    let mut sender = open_client();
    sender.set_fragment_size(3);
    let mut bytes = sender.write(MessageRef::Text("fragmented text")).unwrap();
    bytes.extend(sender.write(MessageRef::Ping(b"ping")).unwrap());
    bytes.extend(sender.write(MessageRef::Binary(&[5; 200])).unwrap());
    for step in [1, 2, 3, 5, 100, 1000] {
        let mut socket = open();
        let mut messages = Vec::new();
        for piece in bytes.chunks(step) {
            socket.receive(piece);
            messages.extend(read_all(&mut socket));
        }
        assert_eq!(messages.len(), 3);
        assert_eq!(messages[0].as_text(), Some("fragmented text"));
        assert_eq!(messages[1].as_ref(), MessageRef::Ping(b"ping"));
        assert_eq!(messages[2].as_ref(), MessageRef::Binary(&[5; 200]));
    }
}

#[test]
fn a_ping_between_fragments_comes_first() {
    let mut socket = open();
    socket.receive(&[0x01, 0x02, b'a', b'b']);
    socket.receive(&[0x89, 0x01, 7]);
    socket.receive(&[0x00, 0x01, b'c']);
    socket.receive(&[0x8a, 0x00]);
    socket.receive(&[0x80, 0x01, b'd', 0x81, 0x01, b'e']);
    let messages = read_all(&mut socket);
    assert_eq!(messages.len(), 4);
    assert_eq!(messages[0].as_ref(), MessageRef::Ping(&[7]));
    assert_eq!(messages[1].as_ref(), MessageRef::Pong(&[]));
    assert_eq!(messages[2].as_text(), Some("abcd"));
    assert_eq!(messages[3].as_text(), Some("e"));
}

#[test]
fn any_number_of_pings_between_fragments() {
    let first = FrameStream::new((), Some(0x01020304));
    let second = FrameStream::new((), Some(0xa0b0c0d0));
    let fragments = first.write_message(MessageRef::Binary(&[1, 2, 3]), 1);
    let mut socket = open();
    for (i, fragment) in fragments.chunks(7).enumerate() {
        socket.receive(fragment);
        if i < 2 {
            for data in [[1], [2], [3]] {
                socket.receive(&second.write_message(MessageRef::Ping(&data), 1));
                socket.receive(&first.write_message(MessageRef::Pong(&data), 1));
            }
        }
    }
    let messages = read_all(&mut socket);
    assert_eq!(messages.len(), 13);
    for (i, pair) in messages[..12].chunks(2).enumerate() {
        let data = [i as u8 % 3 + 1];
        assert_eq!(pair[0].as_ref(), MessageRef::Ping(&data));
        assert_eq!(pair[1].as_ref(), MessageRef::Pong(&data));
    }
    assert_eq!(messages[12].as_ref(), MessageRef::Binary(&[1, 2, 3]));
}

#[test]
fn a_close_between_fragments_drops_them() {
    let mut socket = open();
    socket.receive(&[0x01, 0x01, b'a', 0x88, 0x02, 0x03, 0xe8, 0x81, 0x01, b'b']);
    assert!(matches!(socket.read(), Ok(Some(Message::Close(Some(close)))) if close.status() == 1000));
    assert!(matches!(socket.read(), Ok(Some(Message::Text(text))) if text == "b"));
}

#[test]
fn unexpected_opcodes() {
    let mut socket = open();
    socket.receive(&[0x80, 0x00]);
    assert!(matches!(socket.read(), Err(Error::Frame(FrameError::UnexpectedOpcodeOpen))));
    socket.receive(&[0x01, 0x00, 0x81, 0x00]);
    assert!(matches!(socket.read(), Err(Error::Frame(FrameError::UnexpectedOpcodeOpenNonFinal))));
    socket.receive(&[0x01, 0x00, 0x89, 0x00, 0x82, 0x00, 0x80, 0x00]);
    assert!(matches!(socket.read(), Ok(Some(Message::Ping(_)))));
    assert!(matches!(socket.read(), Err(Error::Frame(FrameError::UnexpectedOpcodePartialRead))));
    // The interrupted message can still be completed.
    assert!(matches!(socket.read(), Ok(Some(Message::Text(text))) if text.is_empty()));
}

#[test]
fn text_that_is_not_utf8() {
    let mut socket = open();
    socket.receive(&[0x81, 0x01, 0xff]);
    assert!(matches!(socket.read(), Err(Error::Utf8(Utf8Error::TextMessage))));
    socket.receive(&[0x01, 0x01, 0xc3, 0x80, 0x01, 0x28]);
    assert!(matches!(socket.read(), Err(Error::Utf8(Utf8Error::TextMessage))));
    socket.receive(&[0x01, 0x01, 0xc3, 0x89, 0x00, 0x80, 0x01, 0x28]);
    assert!(matches!(socket.read(), Ok(Some(Message::Ping(_)))));
    assert!(matches!(socket.read(), Err(Error::Utf8(Utf8Error::TextMessagePartialRead))));
    // A character may be split between fragments.
    socket.receive(&[0x01, 0x01, 0xc3, 0x80, 0x01, 0xa9]);
    assert!(matches!(socket.read(), Ok(Some(Message::Text(text))) if text == "\u{e9}"));
}

#[test]
fn a_malformed_frame_is_an_error_each_time() {
    let mut socket = open();
    socket.receive(&[0x83, 0x00]);
    assert!(matches!(socket.read(), Err(Error::Frame(FrameError::ReservedOpcode))));
    assert!(matches!(socket.read(), Err(Error::Frame(FrameError::ReservedOpcode))));
}

#[test]
fn payloads_are_limited() {
    let mut socket = open();
    socket.set_max_payload_len(2);
    socket.receive(&[0x82, 0x02, 1, 2, 0x82, 0x03, 1, 2, 3]);
    assert!(matches!(socket.read(), Ok(Some(Message::Binary(data))) if data == [1, 2]));
    assert!(matches!(socket.read(), Err(Error::Frame(FrameError::FramePayloadTooLong))));
}

#[test]
fn fragments_may_be_more_than_the_limit_together() {
    let mut sender = open_client();
    sender.set_fragment_size(2);
    let mut socket = open();
    socket.set_max_payload_len(2);
    let sent = sender.write(MessageRef::Binary(&[1, 2, 3, 4, 5])).unwrap();
    socket.receive(&sent);
    assert!(matches!(socket.read(), Ok(Some(Message::Binary(data))) if data == [1, 2, 3, 4, 5]));
}

#[test]
fn a_failure_gives_fragments_up() {
    let mut socket = open();
    socket.receive(&[0x01, 0x01, b'a']);
    assert!(matches!(socket.read(), Ok(None)));
    socket.transport_failed();
    socket.receive(&[0x80, 0x01, b'b']);
    assert!(matches!(socket.read(), Err(Error::Frame(FrameError::UnexpectedOpcodeOpen))));
    // With a ping among them, they are kept.
    socket.receive(&[0x01, 0x01, b'c', 0x89, 0x00]);
    assert!(matches!(socket.read(), Ok(Some(Message::Ping(_)))));
    socket.transport_failed();
    socket.receive(&[0x80, 0x01, b'd']);
    assert!(matches!(socket.read(), Ok(Some(Message::Text(text))) if text == "cd"));
}
