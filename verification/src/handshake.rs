//! The opening handshake, seen from the server and from the client.

use crate::encoding::{base64_text, lemma_base64_chars};
use crate::error::{Error, ErrorModel, HandshakeError, HandshakeErrorModel, Utf8Error};
use crate::head::{head_read, HeadRead, HeadReader, HeadStep};
use crate::headers::{header_is, headers_in, Headers};
use crate::outside::{base64_encode, random_bytes, sha1, sha1_digest, url_parts};
use crate::text::{
    chars_of, decimal, find_word, next_word, same, string_of, to_decimal, trim, trimmed,
};
use crate::url::{Url, UrlModel};
use vstd::prelude::*;
use vstd::string::StringExecFns;
use vstd::utf8::{encode_utf8, is_ascii_chars, is_ascii_chars_encode_utf8};

verus! {

/// The status line of the response that completes a handshake
pub const SWITCHING_PROTOCOLS: &'static str = "HTTP/1.1 101 Switching Protocols";

/// What is hashed together with the key
pub const SEC_WEBSOCKET_ACCEPT_UUID: &'static str = "258EAFA5-E914-47DA-95CA-C5AB0DC85B11";

/// The error of a header that is missing, or has another value
pub open spec fn header_error(name: Seq<char>) -> ErrorModel {
    ErrorModel::Handshake(HandshakeErrorModel::MissingOrInvalidHeader(name))
}

/// The error of a header that is missing, or has another value
fn missing_header(name: &str) -> (error: Error)
    ensures
        error@ == header_error(name@),
{
    Error::Handshake(HandshakeError::MissingOrInvalidHeader(name.to_owned()))
}

/// The line of a header field
pub open spec fn field_line(field: (Seq<char>, Seq<char>)) -> Seq<char> {
    field.0 + ": "@ + field.1
}

/// The lines of header fields, each with its end
pub open spec fn field_lines(fields: Seq<(Seq<char>, Seq<char>)>) -> Seq<char>
    decreases fields.len(),
{
    if fields.len() == 0 {
        seq![]
    } else {
        field_line(fields[0]) + "\r\n"@ + field_lines(fields.skip(1))
    }
}

/// The head of a message
pub open spec fn head_text(line: Seq<char>, fields: Seq<(Seq<char>, Seq<char>)>) -> Seq<char> {
    line + "\r\n"@ + field_lines(fields) + "\r\n"@
}

/// Add the line of a header field to a text
fn push_field(text: &mut String, name: &str, value: &str)
    ensures
        final(text)@ == old(text)@ + (field_line((name@, value@)) + "\r\n"@),
{
    text.append(name);
    text.append(": ");
    text.append(value);
    text.append("\r\n");
    assert(text@ =~= old(text)@ + (field_line((name@, value@)) + "\r\n"@));
}

/// What is hashed for a key
pub open spec fn hashed(key: Seq<char>) -> Seq<u8> {
    encode_utf8(key + SEC_WEBSOCKET_ACCEPT_UUID@)
}

/// Whether SHA-1 is defined for what is hashed: its length in bits has to fit
/// 64 of them
pub open spec fn hashable(key: Seq<char>) -> bool {
    hashed(key).len() < 0x2000_0000_0000_0000
}

/// What a server answers to a key
pub open spec fn accept_text(key: Seq<char>) -> Seq<char> {
    base64_text(sha1_digest(hashed(key)))
}

/// Write a digest as the answer to a key
pub fn accept_of_digest(digest: [u8; 20]) -> (accept: String)
    ensures
        accept@ == base64_text(digest@),
{
    base64_encode(digest.as_slice())
}

/// What a server answers to a key, unless it is too long to be hashed
pub fn accept_key(key: &str) -> (accept: Option<String>)
    ensures
        match accept {
            Some(a) => hashable(key@) && a@ == accept_text(key@),
            None => !hashable(key@),
        },
{
    let mut text: String = key.to_owned();
    text.append(SEC_WEBSOCKET_ACCEPT_UUID);
    let bytes: &[u8] = text.as_str().as_bytes();
    if bytes.len() as u64 >= 0x2000_0000_0000_0000 {
        return None;
    }
    Some(accept_of_digest(sha1(bytes)))
}

/// The path that a request line asks for
///
/// The line is `GET`, the path and `HTTP/1.1`, set apart by white space; what
/// follows is not looked at.
pub open spec fn path_in_request(line: Seq<char>) -> Option<Seq<char>> {
    match next_word(line) {
        Some((method, after_method)) => match next_word(after_method) {
            Some((path, after_path)) => match next_word(after_path) {
                Some((version, _)) => if method == "GET"@ && version == "HTTP/1.1"@ {
                    Some(path)
                } else {
                    None
                },
                None => None,
            },
            None => None,
        },
        None => None,
    }
}

/// The path that a request line asks for
pub fn request_path(line: &str) -> (path: Option<String>)
    ensures
        match (path, path_in_request(line@)) {
            (Some(p), Some(text)) => p@ == text,
            (None, None) => true,
            _ => false,
        },
{
    let chars: Vec<char> = chars_of(line);
    assert(chars@.skip(0) =~= line@);
    if let Some((method_start, method_end)) = find_word(&chars, 0) {
        if let Some((path_start, path_end)) = find_word(&chars, method_end) {
            if let Some((version_start, version_end)) = find_word(&chars, path_end) {
                let method: String = string_of(&chars, method_start, method_end);
                let version: String = string_of(&chars, version_start, version_end);
                if same(method.as_str(), "GET") && same(version.as_str(), "HTTP/1.1") {
                    return Some(string_of(&chars, path_start, path_end));
                }
            }
        }
    }
    None
}

/// The URL that a request is for, as text
pub open spec fn request_url_text(secure: bool, host: Seq<char>, path: Seq<char>) -> Seq<char> {
    (if secure {
        "wss"@
    } else {
        "ws"@
    }) + "://"@ + host + path
}

/// The URL that a request is for, as text
fn request_url(secure: bool, host: &str, path: &str) -> (text: String)
    ensures
        text@ == request_url_text(secure, host@, path@),
{
    let mut text: String = if secure {
        "wss".to_owned()
    } else {
        "ws".to_owned()
    };
    text.append("://");
    text.append(host);
    text.append(path);
    text
}

/// The response that completes a handshake
pub open spec fn response_text(accept: Seq<char>) -> Seq<char> {
    head_text(
        SWITCHING_PROTOCOLS@,
        seq![
            ("Connection"@, "Upgrade"@),
            ("Upgrade"@, "websocket"@),
            ("Sec-WebSocket-Accept"@, accept),
        ],
    )
}

/// The response that completes a handshake
pub fn response(accept: &str) -> (text: String)
    ensures
        text@ == response_text(accept@),
{
    let mut text: String = SWITCHING_PROTOCOLS.to_owned();
    text.append("\r\n");
    push_field(&mut text, "Connection", "Upgrade");
    push_field(&mut text, "Upgrade", "websocket");
    push_field(&mut text, "Sec-WebSocket-Accept", accept);
    text.append("\r\n");
    proof {
        let fields = seq![
            ("Connection"@, "Upgrade"@),
            ("Upgrade"@, "websocket"@),
            ("Sec-WebSocket-Accept"@, accept@),
        ];
        reveal_with_fuel(field_lines, 4);
        assert(fields.skip(1).skip(1).skip(1) =~= seq![]);
        assert(fields.skip(1)[0] == fields[1]);
        assert(fields.skip(1).skip(1)[0] == fields[2]);
        assert(text@ =~= response_text(accept@));
    }
    text
}

/// The request that a client accepted came with, and the response to it
pub struct AcceptanceModel {
    pub url: UrlModel,
    pub response: Seq<char>,
}

/// What the headers of a request are answered, its URL having been parsed to
/// the given result
pub open spec fn answer_to_headers(
    headers: Map<Seq<char>, Seq<char>>,
    url: Result<UrlModel, Seq<char>>,
) -> Result<AcceptanceModel, ErrorModel> {
    match url {
        Err(words) => Err(ErrorModel::Handshake(HandshakeErrorModel::InvalidRequest(words))),
        Ok(url) => if !header_is(headers, "connection"@, "upgrade"@) {
            Err(header_error("Connection"@))
        } else if !header_is(headers, "upgrade"@, "websocket"@) {
            Err(header_error("Upgrade"@))
        } else if !header_is(headers, "sec-websocket-version"@, "13"@) {
            Err(header_error("Sec-WebSocket-Version"@))
        } else if !headers.contains_key("sec-websocket-key"@) || !hashable(
            headers["sec-websocket-key"@],
        ) {
            Err(header_error("Sec-WebSocket-Key"@))
        } else {
            Ok(
                AcceptanceModel {
                    url,
                    response: response_text(accept_text(headers["sec-websocket-key"@])),
                },
            )
        },
    }
}

/// What a request for the given path is answered, its headers having been read
/// to the given result
pub open spec fn answer_to_request(
    secure: bool,
    path: Seq<char>,
    headers: Result<Map<Seq<char>, Seq<char>>, Seq<char>>,
) -> Result<AcceptanceModel, ErrorModel> {
    match headers {
        Err(line) => Err(header_error(line)),
        Ok(headers) => if !headers.contains_key("host"@) {
            Err(header_error("Host"@))
        } else {
            answer_to_headers(
                headers,
                url_parts(request_url_text(secure, headers["host"@], path)),
            )
        },
    }
}

/// A handshake that the server has accepted
pub struct Acceptance {
    /// The URL that the client asked for
    pub url: Url,
    /// What to send to the client, as text
    pub response: String,
}

impl View for Acceptance {
    type V = AcceptanceModel;

    open spec fn view(&self) -> AcceptanceModel {
        AcceptanceModel { url: self.url@, response: self.response@ }
    }
}

/// Whether a request was answered as stated
pub open spec fn is_answer(
    result: Result<Acceptance, Error>,
    answer: Result<AcceptanceModel, ErrorModel>,
) -> bool {
    match (result, answer) {
        (Ok(acceptance), Ok(model)) => acceptance@ == model,
        (Err(e), Err(error)) => e@ == error,
        _ => false,
    }
}

/// Answer the headers of a request, its URL having been parsed
pub fn answer_headers(headers: &Headers, url: Result<Url, String>) -> (result: Result<
    Acceptance,
    Error,
>)
    ensures
        is_answer(
            result,
            answer_to_headers(
                headers@,
                match url {
                    Ok(u) => Ok(u@),
                    Err(words) => Err(words@),
                },
            ),
        ),
{
    let url: Url = match url {
        Ok(url) => url,
        Err(words) => return Err(Error::Handshake(HandshakeError::InvalidRequest(words))),
    };
    if !headers.value_is("connection", "upgrade") {
        return Err(missing_header("Connection"));
    }
    if !headers.value_is("upgrade", "websocket") {
        return Err(missing_header("Upgrade"));
    }
    if !headers.value_is("sec-websocket-version", "13") {
        return Err(missing_header("Sec-WebSocket-Version"));
    }
    let key: &String = match headers.get("sec-websocket-key") {
        Some(key) => key,
        None => return Err(missing_header("Sec-WebSocket-Key")),
    };
    match accept_key(key.as_str()) {
        Some(accept) => Ok(Acceptance { url, response: response(accept.as_str()) }),
        None => Err(missing_header("Sec-WebSocket-Key")),
    }
}

/// Answer a request for the given path, with the text of its headers
pub fn answer_request(secure: bool, path: &str, headers: &str) -> (result: Result<
    Acceptance,
    Error,
>)
    ensures
        is_answer(result, answer_to_request(secure, path@, headers_in(headers@))),
{
    let headers: Headers = match Headers::parse(headers) {
        Ok(headers) => headers,
        Err(error) => return Err(error),
    };
    let host: &String = match headers.get("host") {
        Some(host) => host,
        None => return Err(missing_header("Host")),
    };
    let text: String = request_url(secure, host.as_str(), path);
    answer_headers(&headers, Url::parse(text.as_str()))
}

/// What the bytes of a request come to
pub enum ServerProgress {
    /// The request goes on
    More,
    /// It is refused
    Failed(ErrorModel),
    /// It is accepted, having taken so many bytes
    Accepted { acceptance: AcceptanceModel, used: nat },
}

/// What the bytes of a request come to
pub open spec fn server_progress(secure: bool, bytes: Seq<u8>, limit: nat) -> ServerProgress {
    let not_utf8 = ErrorModel::Utf8(Utf8Error::Handshake);
    let head = head_read(bytes, limit);
    match head {
        HeadRead::InLine => ServerProgress::More,
        HeadRead::InvalidLine => ServerProgress::Failed(not_utf8),
        HeadRead::InHeaders { line }
        | HeadRead::InvalidHeaders { line }
        | HeadRead::Done { line, .. } => match path_in_request(line) {
            None => ServerProgress::Failed(
                ErrorModel::Handshake(HandshakeErrorModel::InvalidRequest(line)),
            ),
            Some(path) => match head {
                HeadRead::InvalidHeaders { .. } => ServerProgress::Failed(not_utf8),
                HeadRead::Done { headers, used, .. } => match answer_to_request(
                    secure,
                    path,
                    headers_in(headers),
                ) {
                    Ok(acceptance) => ServerProgress::Accepted { acceptance, used },
                    Err(error) => ServerProgress::Failed(error),
                },
                _ => ServerProgress::More,
            },
        },
    }
}

/// What a [`ServerHandshake`] has read, and how much it may
pub struct ServerModel {
    pub secure: bool,
    pub fed: Seq<u8>,
    pub limit: nat,
}

/// A server waiting for a request
pub struct ServerHandshake {
    secure: bool,
    path: String,
    reader: HeadReader,
}

/// What one byte more comes to
pub enum ServerStep {
    /// The request goes on
    More(ServerHandshake),
    /// The request is accepted
    Accepted(Acceptance),
}

impl View for ServerHandshake {
    type V = ServerModel;

    closed spec fn view(&self) -> ServerModel {
        ServerModel { secure: self.secure, fed: self.reader@.fed, limit: self.reader@.limit }
    }
}

impl ServerHandshake {
    /// The request goes on
    pub closed spec fn wf(&self) -> bool {
        &&& self.reader.wf()
        &&& match head_read(self.reader@.fed, self.reader@.limit) {
            HeadRead::InHeaders { line } => path_in_request(line) == Some(self.path@),
            _ => true,
        }
    }

    /// Read one byte more of the request
    pub fn advance(self, byte: u8) -> (result: Result<ServerStep, Error>)
        requires
            self.wf(),
        ensures
            server_progress(self@.secure, self@.fed, self@.limit) is More,
            ({
                let fed = self@.fed.push(byte);
                match server_progress(self@.secure, fed, self@.limit) {
                    ServerProgress::More => result matches Ok(ServerStep::More(next)) && next.wf()
                        && next@ == (ServerModel { fed, ..self@ }),
                    ServerProgress::Failed(error) => result matches Err(e) && e@ == error,
                    ServerProgress::Accepted { acceptance, used } => used == fed.len() && (
                    result matches Ok(ServerStep::Accepted(a)) && a@ == acceptance),
                }
            }),
    {
        match self.reader.advance(byte) {
            Err(error) => Err(error),
            Ok(HeadStep::More(reader)) => Ok(
                ServerStep::More(ServerHandshake { secure: self.secure, path: self.path, reader }),
            ),
            Ok(HeadStep::Line { line, next }) => match request_path(line.as_str()) {
                Some(path) => Ok(
                    ServerStep::More(ServerHandshake { secure: self.secure, path, reader: next }),
                ),
                None => Err(Error::Handshake(HandshakeError::InvalidRequest(line))),
            },
            Ok(HeadStep::LineOnly(line)) => match request_path(line.as_str()) {
                Some(path) => {
                    proof {
                        reveal_strlit("");
                        assert(""@ =~= seq![]);
                    }
                    match answer_request(self.secure, path.as_str(), "") {
                        Ok(acceptance) => Ok(ServerStep::Accepted(acceptance)),
                        Err(error) => Err(error),
                    }
                },
                None => Err(Error::Handshake(HandshakeError::InvalidRequest(line))),
            },
            Ok(HeadStep::Headers(headers)) => match answer_request(
                self.secure,
                self.path.as_str(),
                headers.as_str(),
            ) {
                Ok(acceptance) => Ok(ServerStep::Accepted(acceptance)),
                Err(error) => Err(error),
            },
        }
    }
}

/// Wait for a request, of which the first `limit` bytes are looked at
///
/// Where that is nothing, there is no request to wait for.
pub fn server(secure: bool, limit: usize) -> (handshake: Result<ServerHandshake, Error>)
    ensures
        match (handshake, server_progress(secure, seq![], limit as nat)) {
            (Ok(h), ServerProgress::More) => h.wf() && h@ == (ServerModel {
                secure,
                fed: seq![],
                limit: limit as nat,
            }),
            (Err(e), ServerProgress::Failed(error)) => e@ == error,
            _ => false,
        },
        handshake is Ok <==> limit > 0,
{
    match HeadReader::start(limit) {
        HeadStep::LineOnly(line) => Err(Error::Handshake(HandshakeError::InvalidRequest(line))),
        HeadStep::More(reader) => Ok(ServerHandshake { secure, path: String::new(), reader }),
        _ => Err(Error::Bug("a line or headers before the first byte")),
    }
}

/// Why no request can be made for a URL
pub open spec fn request_refusal(url: UrlModel) -> Option<ErrorModel> {
    if url.scheme != "ws"@ && url.scheme != "wss"@ {
        Some(ErrorModel::Handshake(HandshakeErrorModel::IncorrectScheme(url.scheme)))
    } else if url.host is None {
        Some(ErrorModel::Handshake(HandshakeErrorModel::NoHostInUrl))
    } else {
        None
    }
}

/// What a request for a URL asks for: the path and the query
pub open spec fn resource_name(url: UrlModel) -> Seq<char> {
    match url.query {
        Some(query) => url.path + "?"@ + query,
        None => url.path,
    }
}

/// The port that a URL names, or the usual one
pub open spec fn request_port(url: UrlModel) -> u16 {
    match url.port {
        Some(port) => port,
        None => if url.scheme == "wss"@ {
            443
        } else {
            80
        },
    }
}

/// The host and the port of a URL
pub open spec fn request_host(url: UrlModel) -> Seq<char> {
    url.host->0 + ":"@ + decimal(request_port(url) as nat)
}

/// The headers of the request for a URL with the given key
pub open spec fn request_fields(url: UrlModel, key: Seq<char>) -> Seq<(Seq<char>, Seq<char>)> {
    seq![
        ("Host"@, request_host(url)),
        ("Connection"@, "Upgrade"@),
        ("Upgrade"@, "websocket"@),
        ("Sec-WebSocket-Version"@, "13"@),
        ("Sec-WebSocket-Key"@, key),
    ]
}

/// The request for a URL with the given key
pub open spec fn request_text(url: UrlModel, key: Seq<char>) -> Seq<char> {
    head_text("GET "@ + resource_name(url) + " HTTP/1.1"@, request_fields(url, key))
}

/// The request for a URL with the given key
fn write_request(url: &Url, host: &str, key: &str) -> (text: String)
    requires
        url@.host == Some(host@),
    ensures
        text@ == request_text(url@, key@),
{
    let port: u16 = match url.port {
        Some(port) => port,
        None => if url.is_secure() {
            443
        } else {
            80
        },
    };
    let mut host_and_port: String = host.to_owned();
    host_and_port.append(":");
    host_and_port.append(to_decimal(port).as_str());
    let mut text: String = "GET ".to_owned();
    text.append(url.path.as_str());
    if let Some(query) = &url.query {
        text.append("?");
        text.append(query.as_str());
    }
    assert(text@ =~= "GET "@ + resource_name(url@));
    text.append(" HTTP/1.1");
    text.append("\r\n");
    push_field(&mut text, "Host", host_and_port.as_str());
    push_field(&mut text, "Connection", "Upgrade");
    push_field(&mut text, "Upgrade", "websocket");
    push_field(&mut text, "Sec-WebSocket-Version", "13");
    push_field(&mut text, "Sec-WebSocket-Key", key);
    text.append("\r\n");
    proof {
        let fields = request_fields(url@, key@);
        reveal_with_fuel(field_lines, 6);
        assert(fields.skip(1).skip(1).skip(1).skip(1).skip(1) =~= seq![]);
        assert(fields.skip(1)[0] == fields[1]);
        assert(fields.skip(1).skip(1)[0] == fields[2]);
        assert(fields.skip(1).skip(1).skip(1)[0] == fields[3]);
        assert(fields.skip(1).skip(1).skip(1).skip(1)[0] == fields[4]);
        assert(text@ =~= request_text(url@, key@));
    }
    text
}

/// What is wrong with the headers of a response, read to the given result, where
/// the given answer to the key is expected
pub open spec fn response_error(
    headers: Result<Map<Seq<char>, Seq<char>>, Seq<char>>,
    accept: Seq<char>,
) -> Option<ErrorModel> {
    match headers {
        Err(line) => Some(header_error(line)),
        Ok(headers) => if !header_is(headers, "connection"@, "upgrade"@) {
            Some(header_error("Connection"@))
        } else if !header_is(headers, "upgrade"@, "websocket"@) {
            Some(header_error("Upgrade"@))
        } else if !header_is(headers, "sec-websocket-accept"@, accept) {
            Some(header_error("Sec-WebSocket-Accept"@))
        } else {
            None
        },
    }
}

/// Check the headers of a response, where the given answer to the key is
/// expected
pub fn check_response(headers: &str, accept: &str) -> (result: Result<(), Error>)
    ensures
        match (result, response_error(headers_in(headers@), accept@)) {
            (Ok(()), None) => true,
            (Err(e), Some(error)) => e@ == error,
            _ => false,
        },
{
    let headers: Headers = match Headers::parse(headers) {
        Ok(headers) => headers,
        Err(error) => return Err(error),
    };
    if !headers.value_is("connection", "upgrade") {
        return Err(missing_header("Connection"));
    }
    if !headers.value_is("upgrade", "websocket") {
        return Err(missing_header("Upgrade"));
    }
    if !headers.value_is("sec-websocket-accept", accept) {
        return Err(missing_header("Sec-WebSocket-Accept"));
    }
    Ok(())
}

/// What the bytes of a response come to
pub enum ClientProgress {
    /// The response goes on
    More,
    /// It does not complete the handshake
    Failed(ErrorModel),
    /// The handshake is complete, the response having taken so many bytes
    Connected { used: nat },
}

/// What the bytes of a response come to, where the given answer to the key is
/// expected
pub open spec fn client_progress(
    accept: Seq<char>,
    bytes: Seq<u8>,
    limit: nat,
) -> ClientProgress {
    let not_utf8 = ErrorModel::Utf8(Utf8Error::Handshake);
    let head = head_read(bytes, limit);
    match head {
        HeadRead::InLine => ClientProgress::More,
        HeadRead::InvalidLine => ClientProgress::Failed(not_utf8),
        HeadRead::InHeaders { line }
        | HeadRead::InvalidHeaders { line }
        | HeadRead::Done { line, .. } => if trim(line) != SWITCHING_PROTOCOLS@ {
            ClientProgress::Failed(
                ErrorModel::Handshake(HandshakeErrorModel::UnexpectedResponse(trim(line))),
            )
        } else {
            match head {
                HeadRead::InvalidHeaders { .. } => ClientProgress::Failed(not_utf8),
                HeadRead::Done { headers, used, .. } => match response_error(
                    headers_in(headers),
                    accept,
                ) {
                    Some(error) => ClientProgress::Failed(error),
                    None => ClientProgress::Connected { used },
                },
                _ => ClientProgress::More,
            }
        },
    }
}

/// What a [`ClientRequest`] asks for, the answer to the key that it expects, and
/// how much of the response will be looked at
pub struct ClientRequestModel {
    pub request: Seq<char>,
    pub accept: Seq<char>,
    pub limit: nat,
}

/// A client with a request to send
pub struct ClientRequest {
    request: String,
    accept: String,
    limit: usize,
}

impl View for ClientRequest {
    type V = ClientRequestModel;

    closed spec fn view(&self) -> ClientRequestModel {
        ClientRequestModel {
            request: self.request@,
            accept: self.accept@,
            limit: self.limit as nat,
        }
    }
}

/// The answer to the key that a [`ClientHandshake`] expects, what it has read, and
/// how much it may
pub struct ClientModel {
    pub accept: Seq<char>,
    pub fed: Seq<u8>,
    pub limit: nat,
}

/// A client that has sent its request, waiting for the response
pub struct ClientHandshake {
    accept: String,
    reader: HeadReader,
}

/// What one byte more comes to
pub enum ClientStep {
    /// The response goes on
    More(ClientHandshake),
    /// The handshake is complete
    Connected,
}

impl View for ClientHandshake {
    type V = ClientModel;

    closed spec fn view(&self) -> ClientModel {
        ClientModel {
            accept: self.accept@,
            fed: self.reader@.fed,
            limit: self.reader@.limit,
        }
    }
}

/// A key of 16 bytes is short enough to be hashed.
pub proof fn lemma_hashable(key: Seq<u8>)
    requires
        key.len() == 16,
    ensures
        hashable(base64_text(key)),
{
    let text = base64_text(key);
    let uuid = SEC_WEBSOCKET_ACCEPT_UUID@;
    reveal_with_fuel(base64_text, 7);
    assert(text.len() == 24);
    lemma_base64_chars(key);
    reveal_strlit("258EAFA5-E914-47DA-95CA-C5AB0DC85B11");
    assert(is_ascii_chars(text + uuid));
    is_ascii_chars_encode_utf8(text + uuid);
}

impl ClientRequest {
    /// Whether this is the request for a URL with a key of the given bytes
    pub open spec fn is_request_with(&self, url: UrlModel, limit: usize, key: [u8; 16]) -> bool {
        self@ == (ClientRequestModel {
            request: request_text(url, base64_text(key@)),
            accept: accept_text(base64_text(key@)),
            limit: limit as nat,
        })
    }

    /// What to send to the server, as text
    pub fn request(&self) -> (text: &str)
        ensures
            text@ == self@.request,
    {
        self.request.as_str()
    }

    /// Wait for the response, once the request has been sent
    ///
    /// Where nothing of it may be looked at, there is no response to wait for.
    pub fn sent(self) -> (handshake: Result<ClientHandshake, Error>)
        ensures
            match (handshake, client_progress(self@.accept, seq![], self@.limit)) {
                (Ok(h), ClientProgress::More) => h.wf() && h@ == (ClientModel {
                    accept: self@.accept,
                    fed: seq![],
                    limit: self@.limit,
                }),
                (Err(e), ClientProgress::Failed(error)) => e@ == error,
                _ => false,
            },
            handshake is Ok <==> self@.limit > 0,
    {
        match HeadReader::start(self.limit) {
            HeadStep::LineOnly(line) => {
                proof {
                    reveal_strlit("HTTP/1.1 101 Switching Protocols");
                    assert(trim(line@) =~= seq![]);
                }
                Err(Error::Handshake(HandshakeError::UnexpectedResponse(trimmed(line.as_str()))))
            },
            HeadStep::More(reader) => Ok(ClientHandshake { accept: self.accept, reader }),
            _ => Err(Error::Bug("a line or headers before the first byte")),
        }
    }
}

impl ClientHandshake {
    /// The response goes on
    pub closed spec fn wf(&self) -> bool {
        &&& self.reader.wf()
        &&& match head_read(self.reader@.fed, self.reader@.limit) {
            HeadRead::InHeaders { line } => trim(line) == SWITCHING_PROTOCOLS@,
            _ => true,
        }
    }

    /// Read one byte more of the response
    pub fn advance(self, byte: u8) -> (result: Result<ClientStep, Error>)
        requires
            self.wf(),
        ensures
            client_progress(self@.accept, self@.fed, self@.limit) is More,
            ({
                let fed = self@.fed.push(byte);
                match client_progress(self@.accept, fed, self@.limit) {
                    ClientProgress::More => result matches Ok(ClientStep::More(next)) && next.wf()
                        && next@ == (ClientModel { fed, ..self@ }),
                    ClientProgress::Failed(error) => result matches Err(e) && e@ == error,
                    ClientProgress::Connected { used } => used == fed.len() && (result matches Ok(
                        ClientStep::Connected,
                    )),
                }
            }),
    {
        match self.reader.advance(byte) {
            Err(error) => Err(error),
            Ok(HeadStep::More(reader)) => Ok(
                ClientStep::More(ClientHandshake { accept: self.accept, reader }),
            ),
            Ok(HeadStep::Line { line, next }) => {
                let status: String = trimmed(line.as_str());
                if same(status.as_str(), SWITCHING_PROTOCOLS) {
                    Ok(ClientStep::More(ClientHandshake { accept: self.accept, reader: next }))
                } else {
                    Err(Error::Handshake(HandshakeError::UnexpectedResponse(status)))
                }
            },
            Ok(HeadStep::LineOnly(line)) => {
                let status: String = trimmed(line.as_str());
                if !same(status.as_str(), SWITCHING_PROTOCOLS) {
                    return Err(Error::Handshake(HandshakeError::UnexpectedResponse(status)));
                }
                proof {
                    reveal_strlit("");
                    assert(""@ =~= seq![]);
                }
                match check_response("", self.accept.as_str()) {
                    Ok(()) => Ok(ClientStep::Connected),
                    Err(error) => Err(error),
                }
            },
            Ok(HeadStep::Headers(headers)) => match check_response(
                headers.as_str(),
                self.accept.as_str(),
            ) {
                Ok(()) => Ok(ClientStep::Connected),
                Err(error) => Err(error),
            },
        }
    }
}

/// The host of a URL that a request can be made for
fn host_of(url: &Url) -> (host: Result<&String, Error>)
    ensures
        match (host, request_refusal(url@)) {
            (Ok(h), None) => url@.host == Some(h@),
            (Err(e), Some(error)) => e@ == error,
            _ => false,
        },
{
    if !same(url.scheme.as_str(), "ws") && !same(url.scheme.as_str(), "wss") {
        return Err(
            Error::Handshake(HandshakeError::IncorrectScheme(url.scheme.as_str().to_owned())),
        );
    }
    match &url.host {
        Some(host) => Ok(host),
        None => Err(Error::Handshake(HandshakeError::NoHostInUrl)),
    }
}

/// Begin a handshake for a URL; of the response, the first `limit` bytes will be
/// looked at
///
/// The key is random. Where the URL is no reason to refuse, the only error is
/// that no random bytes can be had.
pub fn client(url: &Url, limit: usize) -> (request: Result<ClientRequest, Error>)
    ensures
        match (request, request_refusal(url@)) {
            (Ok(r), None) => exists|key: [u8; 16]| #[trigger] r.is_request_with(url@, limit, key),
            (Err(e), None) => e@ is GetRandom,
            (Err(e), Some(error)) => e@ == error,
            _ => false,
        },
{
    match host_of(url) {
        Ok(_) => {},
        Err(error) => return Err(error),
    }
    let mut key: [u8; 16] = [0u8; 16];
    match random_bytes(&mut key) {
        Ok(()) => client_with_key(url, limit, key),
        Err(error) => Err(Error::from(error)),
    }
}

/// Begin a handshake for a URL, with the given key
pub fn client_with_key(url: &Url, limit: usize, key: [u8; 16]) -> (request: Result<
    ClientRequest,
    Error,
>)
    ensures
        match (request, request_refusal(url@)) {
            (Ok(r), None) => r.is_request_with(url@, limit, key),
            (Err(e), Some(error)) => e@ == error,
            _ => false,
        },
{
    let host: &String = match host_of(url) {
        Ok(host) => host,
        Err(error) => return Err(error),
    };
    let key_text: String = base64_encode(key.as_slice());
    proof {
        lemma_hashable(key@);
    }
    match accept_key(key_text.as_str()) {
        Some(accept) => Ok(
            ClientRequest {
                request: write_request(url, host.as_str(), key_text.as_str()),
                accept,
                limit,
            },
        ),
        None => Err(Error::Bug("a key of 16 bytes is too long")),
    }
}

} // verus!
