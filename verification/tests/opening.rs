use molybdenite::error::UNEXPECTED_CLOSE;
use molybdenite::handshake::{
    accept_key, accept_of_digest, answer_headers, answer_request, check_response, client,
    client_with_key, request_path, response, server,
};
use molybdenite::headers::Headers;
use molybdenite::{
    Acceptance, ClientHandshake, ClientRequest, ClientStep, Error, HandshakeError, ServerHandshake, ServerStep,
    Url, Utf8Error, WebSocket,
};

const KEY: &str = "dGhlIHNhbXBsZSBub25jZQ==";
const ACCEPT: &str = "s3pPLMBiTxaQ9kYGzzhZRbK+xOo=";
const RESPONSE: &str = "HTTP/1.1 101 Switching Protocols\r\nConnection: Upgrade\r\nUpgrade: websocket\r\nSec-WebSocket-Accept: s3pPLMBiTxaQ9kYGzzhZRbK+xOo=\r\n\r\n";
const REQUEST: &str = "GET /chat?x=1 HTTP/1.1\r\nHost: example.com:80\r\nConnection: Upgrade\r\nUpgrade: websocket\r\nSec-WebSocket-Version: 13\r\nSec-WebSocket-Key: dGhlIHNhbXBsZSBub25jZQ==\r\n\r\n";

fn url(text: &str) -> Url {
    Url::parse(text).unwrap()
}

/// Feed a server until it is done, and tell how many bytes that took.
fn serve(mut handshake: ServerHandshake, bytes: &[u8]) -> Option<(usize, Result<Acceptance, Error>)> {
    for (i, byte) in bytes.iter().enumerate() {
        match handshake.advance(*byte) {
            Ok(ServerStep::More(next)) => handshake = next,
            Ok(ServerStep::Accepted(acceptance)) => return Some((i + 1, Ok(acceptance))),
            Err(error) => return Some((i + 1, Err(error))),
        }
    }
    None
}

/// Feed a client until it is done, and tell how many bytes that took.
fn connect(mut handshake: ClientHandshake, bytes: &[u8]) -> Option<(usize, Result<(), Error>)> {
    for (i, byte) in bytes.iter().enumerate() {
        match handshake.advance(*byte) {
            Ok(ClientStep::More(next)) => handshake = next,
            Ok(ClientStep::Connected) => return Some((i + 1, Ok(()))),
            Err(error) => return Some((i + 1, Err(error))),
        }
    }
    None
}

fn served(request: &str) -> Result<Acceptance, Error> {
    serve(server(false, 8192).unwrap(), request.as_bytes()).expect("a whole request").1
}

fn sample_request() -> ClientRequest {
    client_with_key(&url("ws://example.com/chat?x=1"), 8192, *b"the sample nonce").unwrap()
}

fn sample_client() -> ClientHandshake {
    sample_request().sent().unwrap()
}

fn connected(reply: &str) -> Result<(), Error> {
    connect(sample_client(), reply.as_bytes()).expect("a whole response").1
}

fn invalid_header<T>(result: Result<T, Error>) -> String {
    match result {
        Err(Error::Handshake(HandshakeError::MissingOrInvalidHeader(name))) => name,
        _ => panic!("a header is wrong"),
    }
}

#[test]
fn what_an_unexpected_close_says() {
    assert_eq!(UNEXPECTED_CLOSE, "WebSocket unexpectedly closed");
}

#[test]
fn keys_are_answered() {
    assert_eq!(accept_key(KEY).unwrap(), ACCEPT);
    assert_eq!(accept_of_digest([0; 20]), "AAAAAAAAAAAAAAAAAAAAAAAAAAA=");
    assert_eq!(accept_of_digest([0xff; 20]), "//////////////////////////8=");
    assert_eq!(response(ACCEPT), RESPONSE);
}

#[test]
fn the_request_of_a_client() {
    assert_eq!(sample_request().request(), REQUEST);
    let handshake = client_with_key(&url("wss://[::1]/"), 1, [0; 16]).unwrap();
    assert!(handshake.request().starts_with("GET / HTTP/1.1\r\nHost: [::1]:443\r\n"));
    assert!(handshake
        .request()
        .ends_with("Sec-WebSocket-Key: AAAAAAAAAAAAAAAAAAAAAA==\r\n\r\n"));
    let handshake = client_with_key(&url("wss://a:80/b%20c#d"), 1, [0; 16]).unwrap();
    assert!(handshake.request().starts_with("GET /b%20c HTTP/1.1\r\nHost: a:80\r\n"));
}

#[test]
fn requests_that_cannot_be_made() {
    assert!(matches!(
        client(&url("http://example.com/"), 100),
        Err(Error::Handshake(HandshakeError::IncorrectScheme(scheme))) if scheme == "http"
    ));
    let mut no_host = url("ws://example.com/");
    no_host.host = None;
    assert!(matches!(
        client(&no_host, 100),
        Err(Error::Handshake(HandshakeError::NoHostInUrl))
    ));
}

#[test]
fn keys_are_random() {
    let first = client(&url("ws://a/"), 100).unwrap();
    let second = client(&url("ws://a/"), 100).unwrap();
    assert_ne!(first.request(), second.request());
    assert_eq!(first.request().len(), second.request().len());
}

#[test]
fn a_request_is_accepted() {
    let (used, result) = serve(server(false, 8192).unwrap(), format!("{}rest", REQUEST).as_bytes()).unwrap();
    assert_eq!(used, REQUEST.len());
    let acceptance = result.unwrap();
    assert_eq!(acceptance.response, RESPONSE);
    assert_eq!(acceptance.url, url("ws://example.com/chat?x=1"));
    let (_, result) = serve(server(true, 8192).unwrap(), REQUEST.as_bytes()).unwrap();
    assert_eq!(result.unwrap().url.href, "wss://example.com:80/chat?x=1");
}

#[test]
fn a_response_connects() {
    let (used, result) = connect(sample_client(), format!("{}rest", RESPONSE).as_bytes()).unwrap();
    assert_eq!(used, RESPONSE.len());
    assert!(result.is_ok());
    assert!(connect(sample_client(), RESPONSE[..RESPONSE.len() - 1].as_bytes()).is_none());
}

#[test]
fn both_ends_agree() {
    for text in ["ws://localhost:9000/a/b?c=d", "wss://[::1]:1/", "ws://caf\u{e9}.example/?"] {
        let requested = url(text);
        let asking = client(&requested, 8192).unwrap();
        let request = asking.request().to_owned();
        let (used, result) =
            serve(server(requested.is_secure(), 8192).unwrap(), request.as_bytes()).unwrap();
        assert_eq!(used, request.len());
        let acceptance = result.unwrap();
        assert_eq!(acceptance.url, requested);
        let (used, result) = connect(asking.sent().unwrap(), acceptance.response.as_bytes()).unwrap();
        assert_eq!(used, acceptance.response.len());
        assert!(result.is_ok());
    }
}

#[test]
fn request_lines() {
    assert_eq!(request_path("GET /a HTTP/1.1\r\n").unwrap(), "/a");
    assert_eq!(request_path(" GET\t/a \x0cHTTP/1.1 more\n").unwrap(), "/a");
    assert_eq!(request_path("POST /a HTTP/1.1\r\n"), None);
    assert_eq!(request_path("GET /a HTTP/1.0\r\n"), None);
    assert_eq!(request_path("GET /a\r\n"), None);
    assert_eq!(request_path("GET\r\n"), None);
    assert_eq!(request_path(""), None);
    // Only white space of ASCII sets words apart.
    assert_eq!(request_path("GET /a\u{a0}b HTTP/1.1\n").unwrap(), "/a\u{a0}b");
}

#[test]
fn an_invalid_request_line_is_refused_at_once() {
    let line = "PUT / HTTP/1.1\r\n";
    let (used, result) = serve(server(false, 8192).unwrap(), format!("{}Host: a", line).as_bytes()).unwrap();
    assert_eq!(used, line.len());
    assert!(matches!(
        result,
        Err(Error::Handshake(HandshakeError::InvalidRequest(text))) if text == line
    ));
}

#[test]
fn an_invalid_url_is_refused() {
    let result = served(&REQUEST.replace("example.com:80", "a:b:c"));
    assert!(matches!(
        result,
        Err(Error::Handshake(HandshakeError::InvalidRequest(words))) if words == "invalid port number"
    ));
    assert!(matches!(
        Url::parse("no url"),
        Err(words) if words == "relative URL without a base"
    ));
}

#[test]
fn headers_of_a_request() {
    for (line, name) in [
        ("Host: example.com:80\r\n", "Host"),
        ("Connection: Upgrade\r\n", "Connection"),
        ("Upgrade: websocket\r\n", "Upgrade"),
        ("Sec-WebSocket-Version: 13\r\n", "Sec-WebSocket-Version"),
        ("Sec-WebSocket-Key: dGhlIHNhbXBsZSBub25jZQ==\r\n", "Sec-WebSocket-Key"),
    ] {
        assert_eq!(invalid_header(served(&REQUEST.replace(line, ""))), name);
    }
    for (line, name) in [
        ("Connection: Upgrade\r\n", "Connection"),
        ("Upgrade: websocket\r\n", "Upgrade"),
        ("Sec-WebSocket-Version: 13\r\n", "Sec-WebSocket-Version"),
    ] {
        let other = format!("{}: other\r\n", name);
        assert_eq!(invalid_header(served(&REQUEST.replace(line, &other))), name);
    }
    assert_eq!(invalid_header(served(&REQUEST.replace("Host: ", "Host:"))), "Host:example.com:80");
}

#[test]
fn headers_in_any_case() {
    let request = REQUEST
        .replace("Host", "hOsT")
        .replace("Connection: Upgrade", "CONNECTION: UPGRADE")
        .replace("Upgrade: websocket", "upgrade: WebSocket");
    assert_eq!(served(&request).unwrap().response, RESPONSE);
}

#[test]
fn headers_of_a_response() {
    for (line, name) in [
        ("Connection: Upgrade\r\n", "Connection"),
        ("Upgrade: websocket\r\n", "Upgrade"),
        ("Sec-WebSocket-Accept: s3pPLMBiTxaQ9kYGzzhZRbK+xOo=\r\n", "Sec-WebSocket-Accept"),
    ] {
        assert_eq!(invalid_header(connected(&RESPONSE.replace(line, ""))), name);
        let other = format!("{}: other\r\n", name);
        assert_eq!(invalid_header(connected(&RESPONSE.replace(line, &other))), name);
    }
    assert!(connected(&RESPONSE.to_lowercase().replace("http", "HTTP").replace(
        "switching protocols",
        "Switching Protocols"
    ))
    .is_ok());
}

#[test]
fn checking_a_response() {
    let headers = &RESPONSE["HTTP/1.1 101 Switching Protocols\r\n".len()..];
    assert!(check_response(headers, ACCEPT).is_ok());
    assert_eq!(invalid_header(check_response(headers, "other")), "Sec-WebSocket-Accept");
    assert_eq!(invalid_header(check_response("no header\r\n\r\n", ACCEPT)), "no header");
}

#[test]
fn an_unexpected_status_is_refused_at_once() {
    let line = "\u{2003}HTTP/1.1 404 Not Found \r\n";
    let (used, result) = connect(sample_client(), format!("{}more", line).as_bytes()).unwrap();
    assert_eq!(used, line.len());
    assert!(matches!(
        result,
        Err(Error::Handshake(HandshakeError::UnexpectedResponse(status)))
            if status == "HTTP/1.1 404 Not Found"
    ));
    // White space round the status does not matter.
    assert!(connected(&RESPONSE.replace("HTTP/1.1 101", " \u{a0}HTTP/1.1 101")).is_ok());
}

#[test]
fn handshakes_that_are_not_utf8() {
    for bad in [&b"GET \xff"[..], b"GET \xc3\x28", b"GET \xed\xa0", b"\xf4\x90", b"\x80"] {
        let (used, result) = serve(server(false, 8192).unwrap(), bad).unwrap();
        assert_eq!(used, bad.len());
        assert!(matches!(result, Err(Error::Utf8(Utf8Error::Handshake))));
        let (used, result) = connect(sample_client(), bad).unwrap();
        assert_eq!(used, bad.len());
        assert!(matches!(result, Err(Error::Utf8(Utf8Error::Handshake))));
    }
    let mut request = REQUEST.as_bytes()[..60].to_vec();
    request.push(0xfe);
    let (used, result) = serve(server(false, 8192).unwrap(), &request).unwrap();
    assert_eq!(used, 61);
    assert!(matches!(result, Err(Error::Utf8(Utf8Error::Handshake))));
}

#[test]
fn handshakes_in_any_script() {
    let request = REQUEST.replace("/chat?x=1", "/\u{e9}\u{20ac}\u{1d11e}");
    assert_eq!(served(&request).unwrap().url.path, "/%C3%A9%E2%82%AC%F0%9D%84%9E");
}

#[test]
fn long_handshakes_are_cut_off() {
    // The limit is one for the line and the headers.
    let exact = serve(server(false, REQUEST.len()).unwrap(), REQUEST.as_bytes()).unwrap();
    assert_eq!(exact.0, REQUEST.len());
    assert!(exact.1.is_ok());
    let (used, result) = serve(server(false, 100).unwrap(), REQUEST.as_bytes()).unwrap();
    assert_eq!(used, 100);
    assert_eq!(invalid_header(result), "Sec-WebSocket");
    let (used, result) = serve(server(false, 3).unwrap(), REQUEST.as_bytes()).unwrap();
    assert_eq!(used, 3);
    assert!(matches!(
        result,
        Err(Error::Handshake(HandshakeError::InvalidRequest(text))) if text == "GET"
    ));
}

#[test]
fn a_handshake_cut_near_its_end() {
    // What is left of the empty line is taken for a header.
    let limit = REQUEST.len() - 1;
    let (used, result) = serve(server(false, limit).unwrap(), REQUEST.as_bytes()).unwrap();
    assert_eq!(used, limit);
    assert_eq!(invalid_header(result), "\r");
    // Without the empty line every header is there all the same.
    let limit = REQUEST.len() - 2;
    let (used, result) = serve(server(false, limit).unwrap(), REQUEST.as_bytes()).unwrap();
    assert_eq!(used, limit);
    assert_eq!(result.unwrap().response, RESPONSE);
}

#[test]
fn nothing_behind_the_limit_is_used() {
    for limit in 0..REQUEST.len() {
        let mut other = REQUEST.as_bytes()[..limit].to_vec();
        other.extend([0xff; 200]);
        let Ok(handshake) = server(false, limit) else {
            assert_eq!(limit, 0);
            continue;
        };
        let (used, result) = serve(handshake, REQUEST.as_bytes()).unwrap();
        let (same_used, same_result) = serve(server(false, limit).unwrap(), &other).unwrap();
        assert_eq!(used, same_used);
        assert!(used <= limit);
        assert_eq!(format!("{:?}", result.err()), format!("{:?}", same_result.err()));
    }
}

#[test]
fn a_line_may_use_the_limit_up() {
    let line = "GET / HTTP/1.1\r\n";
    let request = REQUEST.replace("/chat?x=1", "/");
    let (used, result) = serve(server(false, line.len()).unwrap(), request.as_bytes()).unwrap();
    assert_eq!(used, line.len());
    assert_eq!(invalid_header(result), "Host");
    let status = "HTTP/1.1 101 Switching Protocols\r\n";
    let request = client_with_key(&url("ws://a/"), status.len(), [0; 16]).unwrap();
    let (used, result) = connect(request.sent().unwrap(), RESPONSE.as_bytes()).unwrap();
    assert_eq!(used, status.len());
    assert_eq!(invalid_header(result), "Connection");
}

#[test]
fn a_character_over_the_limit_is_left_out() {
    let bytes = "GE\u{20ac}T".as_bytes();
    for limit in [2, 3, 4] {
        let (used, result) = serve(server(false, limit).unwrap(), bytes).unwrap();
        assert_eq!(used, limit);
        assert!(matches!(
            result,
            Err(Error::Handshake(HandshakeError::InvalidRequest(text))) if text == "GE"
        ));
    }
    let (_, result) = serve(server(false, 5).unwrap(), bytes).unwrap();
    assert!(matches!(
        result,
        Err(Error::Handshake(HandshakeError::InvalidRequest(text))) if text == "GE\u{20ac}"
    ));
}

#[test]
fn a_limit_of_nothing() {
    assert!(matches!(
        server(false, 0),
        Err(Error::Handshake(HandshakeError::InvalidRequest(text))) if text.is_empty()
    ));
    // The request is there to be sent all the same.
    let request = client(&url("ws://a/"), 0).unwrap();
    assert!(request.request().starts_with("GET / HTTP/1.1\r\n"));
    assert!(matches!(
        request.sent(),
        Err(Error::Handshake(HandshakeError::UnexpectedResponse(status))) if status.is_empty()
    ));
}

#[test]
fn headers_are_looked_up() {
    let headers = Headers::parse("A: 1\r\nb: 2: 3\nA: 4\r\nC\u{212a}: \r\n\r\nD 5").unwrap();
    assert_eq!(headers.get("a").unwrap(), "4");
    assert_eq!(headers.get("b").unwrap(), "2");
    // Names are compared in small letters, of any script.
    assert_eq!(headers.get("ck").unwrap(), "");
    assert!(headers.get("A").is_none());
    assert!(headers.get("d").is_none());
    assert!(headers.value_is("a", "4"));
    assert!(!headers.value_is("b", "2: 3"));
    assert_eq!(invalid_header(Headers::parse("A: 1\r\nnone\r\n")), "none");
    // Without a line feed, a carriage return belongs to the line.
    assert_eq!(Headers::parse("A: 1\r").unwrap().get("a").unwrap(), "1\r");
}

#[test]
fn answers_to_parsed_requests() {
    let mut headers = Headers::new();
    for (name, value) in [
        ("connection", "upgrade"),
        ("upgrade", "websocket"),
        ("sec-websocket-version", "13"),
        ("sec-websocket-key", KEY),
    ] {
        assert!(answer_headers(&headers, Ok(url("ws://a/"))).is_err());
        headers.insert(String::from(name), String::from(value));
    }
    let acceptance = answer_headers(&headers, Ok(url("ws://a/"))).unwrap();
    assert_eq!(acceptance.url.href, "ws://a/");
    assert_eq!(acceptance.response, RESPONSE);
    assert!(matches!(
        answer_headers(&headers, Err(String::from("words"))),
        Err(Error::Handshake(HandshakeError::InvalidRequest(words))) if words == "words"
    ));
    let text = &REQUEST["GET /chat?x=1 HTTP/1.1\r\n".len()..];
    assert_eq!(
        answer_request(true, "/p", text).unwrap().url.href,
        "wss://example.com:80/p"
    );
}

#[test]
fn roles_have_their_own_handshakes() {
    let socket = WebSocket::server(false, ());
    assert!(matches!(socket.client_handshake(), Err(Error::IncorrectRole)));
    assert!(socket.server_handshake().is_ok());
    let socket = WebSocket::client(url("ws://a/"), ()).unwrap();
    assert!(matches!(socket.server_handshake(), Err(Error::IncorrectRole)));
    assert!(socket.client_handshake().is_ok());
}

#[test]
fn an_accepted_request_opens_a_server() {
    let mut socket = WebSocket::server(false, ());
    let refused = serve(socket.server_handshake().unwrap(), b"PUT / HTTP/1.1\n").unwrap().1;
    assert!(matches!(
        socket.finish_server_handshake(refused),
        Err(Error::Handshake(HandshakeError::InvalidRequest(_)))
    ));
    assert!(matches!(socket.read(), Err(Error::NoHandshake)));
    assert!(matches!(socket.flush(), Err(Error::NoHandshake)));
    let accepted = serve(socket.server_handshake().unwrap(), REQUEST.as_bytes()).unwrap().1;
    let requested = socket.finish_server_handshake(accepted).unwrap();
    assert_eq!(requested.href, "ws://example.com/chat?x=1");
    assert!(matches!(socket.read(), Ok(None)));
    assert!(socket.flush().is_ok());
    assert!(matches!(socket.finish_client_handshake(Ok(())), Err(Error::IncorrectRole)));
}

#[test]
fn a_completed_handshake_opens_a_client() {
    let mut socket = WebSocket::client(url("ws://example.com/chat?x=1"), ()).unwrap();
    let failed = connect(sample_client(), b"HTTP/1.1 404 Not Found\r\n").unwrap().1;
    assert!(matches!(
        socket.finish_client_handshake(failed),
        Err(Error::Handshake(HandshakeError::UnexpectedResponse(_)))
    ));
    assert!(matches!(socket.close(), Err(Error::NoHandshake)));
    let completed = connect(sample_client(), RESPONSE.as_bytes()).unwrap().1;
    assert!(socket.finish_client_handshake(completed).is_ok());
    assert!(socket.close().is_ok());
    let accepted = served(REQUEST);
    assert!(matches!(socket.finish_server_handshake(accepted), Err(Error::IncorrectRole)));
}

#[test]
fn sockets_hand_on_their_limits() {
    let mut socket = WebSocket::server(false, ());
    socket.set_max_handshake_len(3);
    let (used, result) = serve(socket.server_handshake().unwrap(), REQUEST.as_bytes()).unwrap();
    assert_eq!(used, 3);
    assert!(result.is_err());
    socket.set_max_handshake_len(0);
    assert!(matches!(
        socket.server_handshake(),
        Err(Error::Handshake(HandshakeError::InvalidRequest(_)))
    ));
    let mut socket = WebSocket::client(url("ws://a/"), ()).unwrap();
    socket.set_max_handshake_len(3);
    let waiting = socket.client_handshake().unwrap().sent().unwrap();
    let (used, result) = connect(waiting, RESPONSE.as_bytes()).unwrap();
    assert_eq!(used, 3);
    assert!(result.is_err());
}

#[test]
fn urls_are_taken_apart() {
    let parts = url("wss://user@Example.com:444/a%20b/../c?q=1#f");
    assert_eq!(parts.href, "wss://user@example.com:444/c?q=1#f");
    assert_eq!(parts.scheme, "wss");
    assert_eq!(parts.host.as_deref(), Some("example.com"));
    assert_eq!(parts.port, Some(444));
    assert_eq!(parts.path, "/c");
    assert_eq!(parts.query.as_deref(), Some("q=1"));
    assert!(parts.is_secure());
    assert_eq!(url("ws://a:80/").port, None);
    assert!(!url("ws://a/").is_secure());
}
