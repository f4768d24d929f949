use molybdenite::{
    AsMessageRef, ClientStep, Message, MessageRef, ServerStep, Url, WebSocket,
    DEFAULT_FRAGMENT_SIZE,
};
use std::sync::atomic::{AtomicU16, Ordering};

const TEXT: &str = "dumpty yikes dumpty donkey dooby donkey";
static PORT: AtomicU16 = AtomicU16::new(9122);

fn next_port() -> u16 {
    PORT.fetch_add(1, Ordering::SeqCst)
}

fn next_address() -> &'static str {
    Box::leak(format!("127.0.0.1:{}", next_port()).into_boxed_str())
}

fn ws_url(addr: &str, case: &str) -> Url {
    Url::parse(&format!("ws://{}/{}", addr, case)).unwrap()
}

/// Carry out the handshake between two ends, handing over byte by byte.
fn shake_hands(server: &mut WebSocket<()>, client: &mut WebSocket<()>) -> Url {
    let request = client.client_handshake().unwrap();
    let mut waiting = server.server_handshake().unwrap();
    let mut accepted = None;
    for byte in request.request().bytes() {
        match waiting.advance(byte).unwrap() {
            ServerStep::More(next) => waiting = next,
            ServerStep::Accepted(acceptance) => {
                accepted = Some(acceptance);
                break;
            }
        }
    }
    let accepted = accepted.expect("the whole request was sent");
    let response = accepted.response.clone();
    let url = server.finish_server_handshake(Ok(accepted)).unwrap();
    let mut waiting = request.sent().unwrap();
    for byte in response.bytes() {
        match waiting.advance(byte).unwrap() {
            ClientStep::More(next) => waiting = next,
            ClientStep::Connected => {
                client.finish_client_handshake(Ok(())).unwrap();
                return url;
            }
        }
    }
    panic!("the whole response was sent");
}

fn read(ws: &mut WebSocket<()>) -> Message {
    ws.read().unwrap().expect("a message has been received")
}

fn echo_client(ws: &mut WebSocket<()>, fragment_size: usize) -> Vec<u8> {
    let mut sent = Vec::new();
    ws.set_fragment_size(fragment_size);
    loop {
        let msg = read(ws);
        match msg.as_message_ref() {
            MessageRef::Close(_) => break,
            _ => {
                sent.extend(ws.write(msg.pong()).unwrap());
                ws.flush().unwrap();
            }
        }
    }
    sent.extend(ws.close().unwrap());
    sent
}

fn echo(messages: &[MessageRef<'_>], fragment_size: usize, case: &str) {
    let addr = next_address();
    let mut server = WebSocket::server(false, ());
    let mut client = WebSocket::client(ws_url(addr, case), ()).unwrap();
    shake_hands(&mut server, &mut client);

    server.set_fragment_size(fragment_size);
    for message in messages {
        let sent = server.write(*message).unwrap();
        client.receive(&sent);
    }
    let sent = server.close().unwrap();
    client.receive(&sent);

    let answers = echo_client(&mut client, fragment_size);
    server.receive(&answers);
    let mut count = 0;
    for message in messages {
        let expect_response = message.pong();
        let got_message = read(&mut server);
        assert_eq!((&got_message).as_message_ref(), expect_response);
        if got_message.is_close() {
            break;
        }
        count += 1;
    }
    assert_eq!(count, messages.len());
    assert!(read(&mut server).is_close());
}

#[test]
fn test_next_port() {
    assert_ne!(next_port(), next_port());
}

#[test]
fn test_next_address() {
    assert_ne!(next_address(), next_address());
}

#[test]
fn single_text_message_then_close() {
    let addr = next_address();
    let mut server = WebSocket::server(false, ());
    let mut client =
        WebSocket::client(ws_url(addr, "single text message then close"), ()).unwrap();
    let url = shake_hands(&mut server, &mut client);
    assert_eq!(url.path, "/single%20text%20message%20then%20close");

    let sent = server.write(MessageRef::Text(TEXT)).unwrap();
    client.receive(&sent);
    let sent = server.close().unwrap();
    client.receive(&sent);

    assert!(matches!(read(&mut client), Message::Text(text) if text == TEXT));
    assert!(matches!(read(&mut client), Message::Close(None)));
    let sent = client.close().unwrap();
    server.receive(&sent);
    while !matches!(read(&mut server), Message::Close(_)) {}
}

#[test]
fn test_fragmented_echo() {
    let long = TEXT.repeat(700);
    let messages = vec![
        MessageRef::Text(TEXT),
        MessageRef::Text(TEXT),
        MessageRef::Text(TEXT),
        MessageRef::Text(""),
        MessageRef::Text(TEXT),
        MessageRef::Text(TEXT),
        MessageRef::Text(TEXT),
        MessageRef::Ping(TEXT.as_bytes()),
        MessageRef::Text(&long),
        MessageRef::Pong(&[]),
        MessageRef::Binary(long.as_bytes()),
        MessageRef::Text(&long),
        MessageRef::Pong(&[]),
        MessageRef::Binary(long.as_bytes()),
    ];

    (0..messages.len()).for_each(|len| {
        [1, 2, 32, 999, 978243, DEFAULT_FRAGMENT_SIZE / 2, DEFAULT_FRAGMENT_SIZE]
            .into_iter()
            .for_each(|fragment_size| {
                echo(
                    &messages[0..len],
                    fragment_size,
                    &format!("test_echo:len={}:fragment_size={}", len, fragment_size),
                );
            });
    });
}
