//! What the opening handshake decides, case by case.

use crate::encoding::base64_text;
use crate::error::{Error, ErrorModel, HandshakeError, HandshakeErrorModel, Utf8Error};
use crate::handshake::{
    accept_text, answer_to_headers, answer_to_request, client_progress, hashable, is_answer,
    path_in_request, request_host, request_port, request_refusal, request_text, request_url_text,
    resource_name, response_error, server_progress, Acceptance, AcceptanceModel,
    ClientProgress, ClientRequest, ServerProgress,
};
use crate::handshake_laws::law_response_word_for_word;
use crate::head::{head_read, HeadRead};
use crate::headers::headers_in;
use crate::outside::{sha1_digest, url_parts};
use crate::reader::{text_read, TextRead};
use crate::text::{decimal, next_word, same_but_for_case, trim};
use crate::text_laws::law_decimal_tells_numbers_apart;
use crate::url::{Url, UrlModel};
use crate::websocket::{
    after_handshake, Role, RoleModel, SocketModel, WebSocket, DEFAULT_FRAGMENT_SIZE,
    DEFAULT_MAX_HANDSHAKE_LEN, DEFAULT_MAX_PAYLOAD_LEN,
};
use crate::wire_laws::law_bytes_make_a_number;
use vstd::prelude::*;
use vstd::utf8::encode_utf8;

verus! {

/// The first words of a text, at most so many
pub open spec fn first_words(text: Seq<char>, count: nat) -> Seq<Seq<char>>
    decreases count,
{
    match next_word(text) {
        Some((word, rest)) if count > 0 => seq![word] + first_words(rest, (count - 1) as nat),
        _ => seq![],
    }
}

/// A request line asks for a path exactly where its first words are `GET`, the path
/// and `HTTP/1.1`.
pub proof fn law_request_line(line: Seq<char>, path: Seq<char>)
    ensures
        path_in_request(line) == Some(path) <==> first_words(line, 3) == seq![
            "GET"@,
            path,
            "HTTP/1.1"@,
        ],
{
    reveal_with_fuel(first_words, 4);
    let words = first_words(line, 3);
    let asked = seq!["GET"@, path, "HTTP/1.1"@];
    if path_in_request(line) == Some(path) {
        assert(words =~= asked);
    } else if words == asked {
        assert(words.len() == 3);
        assert(words[0] == "GET"@ && words[1] == path && words[2] == "HTTP/1.1"@);
    }
}

/// The URL of a request is the scheme, the whole host and the whole path, so that
/// other paths make other URLs.
pub proof fn law_url_of_a_request(
    secure: bool,
    host: Seq<char>,
    path: Seq<char>,
    other_path: Seq<char>,
)
    ensures
        secure ==> request_url_text(secure, host, path) == "wss"@ + "://"@ + host + path,
        !secure ==> request_url_text(secure, host, path) == "ws"@ + "://"@ + host + path,
        request_url_text(secure, host, path) == request_url_text(secure, host, other_path)
            ==> path == other_path,
{
    let text = request_url_text(secure, host, path);
    let other = request_url_text(secure, host, other_path);
    let before = (if secure {
        "wss"@
    } else {
        "ws"@
    }) + "://"@ + host;
    assert(text.skip(before.len() as int) =~= path);
    assert(other.skip(before.len() as int) =~= other_path);
}

/// What a request asks for and whom: the path with the query, and the host with the
/// port, the usual one where the URL names none.
pub proof fn law_parts_of_a_request(url: UrlModel, host: Seq<char>)
    requires
        url.host == Some(host),
    ensures
        url.query matches Some(query) ==> resource_name(url) == url.path + "?"@ + query,
        url.query is None ==> resource_name(url) == url.path,
        request_host(url) == host + ":"@ + decimal(request_port(url) as nat),
        url.port matches Some(port) ==> request_port(url) == port,
        url.port is None && url.scheme == "wss"@ ==> request_port(url) == 443,
        url.port is None && url.scheme != "wss"@ ==> request_port(url) == 80,
{
}

/// Requests for URLs that differ only in their ports differ in their hosts.
pub proof fn law_ports_tell_requests_apart(url: UrlModel, other: UrlModel)
    requires
        url.host is Some,
        url.host == other.host,
        request_host(url) == request_host(other),
    ensures
        request_port(url) == request_port(other),
{
    let a = decimal(request_port(url) as nat);
    let b = decimal(request_port(other) as nat);
    let before = url.host->0 + ":"@;
    assert(request_host(url).skip(before.len() as int) =~= a);
    assert(request_host(other).skip(before.len() as int) =~= b);
    law_decimal_tells_numbers_apart(request_port(url) as nat, request_port(other) as nat);
}

/// Which URLs no request is made for.
pub proof fn law_urls_that_are_refused(url: UrlModel)
    ensures
        request_refusal(url) is None <==> (url.scheme == "ws"@ || url.scheme == "wss"@)
            && url.host is Some,
        url.scheme != "ws"@ && url.scheme != "wss"@ ==> request_refusal(url) == Some(
            ErrorModel::Handshake(HandshakeErrorModel::IncorrectScheme(url.scheme)),
        ),
        (url.scheme == "ws"@ || url.scheme == "wss"@) && url.host is None ==> request_refusal(url)
            == Some(ErrorModel::Handshake(HandshakeErrorModel::NoHostInUrl)),
{
}

/// What the headers of a request are answered: an error for the first that is
/// missing or wrong, and otherwise the URL and the response to the key.
pub proof fn law_answer_to_headers(headers: Map<Seq<char>, Seq<char>>, url: UrlModel, words: Seq<char>)
    ensures
        answer_to_headers(headers, Err(words)) == Err::<AcceptanceModel, ErrorModel>(
            ErrorModel::Handshake(HandshakeErrorModel::InvalidRequest(words)),
        ),
        ({
            let answer = answer_to_headers(headers, Ok(url));
            let connection = headers.contains_key("connection"@) && same_but_for_case(
                headers["connection"@],
                "upgrade"@,
            );
            let upgrade = headers.contains_key("upgrade"@) && same_but_for_case(
                headers["upgrade"@],
                "websocket"@,
            );
            let version = headers.contains_key("sec-websocket-version"@) && same_but_for_case(
                headers["sec-websocket-version"@],
                "13"@,
            );
            let key = headers["sec-websocket-key"@];
            let hashed = encode_utf8(key + "258EAFA5-E914-47DA-95CA-C5AB0DC85B11"@);
            let has_key = headers.contains_key("sec-websocket-key"@) && hashed.len()
                < 0x2000_0000_0000_0000;
            &&& !connection ==> missing(answer, "Connection"@)
            &&& connection && !upgrade ==> missing(answer, "Upgrade"@)
            &&& connection && upgrade && !version ==> missing(answer, "Sec-WebSocket-Version"@)
            &&& connection && upgrade && version && !has_key ==> missing(
                answer,
                "Sec-WebSocket-Key"@,
            )
            &&& connection && upgrade && version && has_key ==> answer == Ok::<
                AcceptanceModel,
                ErrorModel,
            >(
                AcceptanceModel {
                    url,
                    response:
                        "HTTP/1.1 101 Switching Protocols\r\nConnection: Upgrade\r\nUpgrade: websocket\r\nSec-WebSocket-Accept: "@
                        + base64_text(sha1_digest(hashed)) + "\r\n\r\n"@,
                },
            )
        }),
{
    let key = headers["sec-websocket-key"@];
    law_response_word_for_word(accept_text(key), key);
}

/// Whether a request was refused for want of a header, or for its value
pub open spec fn missing<T>(answer: Result<T, ErrorModel>, name: Seq<char>) -> bool {
    answer matches Err(error) && error == ErrorModel::Handshake(
        HandshakeErrorModel::MissingOrInvalidHeader(name),
    )
}

/// What a request is answered: its headers have to be headers and to name a host,
/// and the rest goes by the headers and the URL of that host and the path.
pub proof fn law_answer_to_a_request(
    secure: bool,
    path: Seq<char>,
    headers: Map<Seq<char>, Seq<char>>,
    line: Seq<char>,
)
    ensures
        missing(answer_to_request(secure, path, Err(line)), line),
        !headers.contains_key("host"@) ==> missing(
            answer_to_request(secure, path, Ok(headers)),
            "Host"@,
        ),
        headers.contains_key("host"@) ==> answer_to_request(secure, path, Ok(headers))
            == answer_to_headers(
            headers,
            url_parts(
                (if secure {
                    "wss"@
                } else {
                    "ws"@
                }) + "://"@ + headers["host"@] + path,
            ),
        ),
{
}

/// Which keys can be answered: those for which SHA-1 is defined.
pub proof fn law_keys_that_can_be_hashed(key: Seq<char>)
    ensures
        hashable(key) <==> encode_utf8(key + "258EAFA5-E914-47DA-95CA-C5AB0DC85B11"@).len()
            < 0x2000_0000_0000_0000,
{
}

/// The head of a message is its first line, up to a line feed, and its headers, up
/// to an empty line, from what the line leaves of the bytes and of the limit.
pub proof fn law_parts_of_a_head(bytes: Seq<u8>, limit: nat)
    ensures
        match text_read(bytes, "\n"@, limit) {
            TextRead::Reading => head_read(bytes, limit) is InLine,
            TextRead::Invalid => head_read(bytes, limit) is InvalidLine,
            TextRead::Done { text: line, used } => match text_read(
                bytes.skip(used as int),
                "\r\n\r\n"@,
                (limit - used) as nat,
            ) {
                TextRead::Reading => head_read(bytes, limit) == (HeadRead::InHeaders { line }),
                TextRead::Invalid => head_read(bytes, limit) == (HeadRead::InvalidHeaders { line }),
                TextRead::Done { text: headers, used: more } => head_read(bytes, limit) == (
                HeadRead::Done { line, headers, used: used + more }),
            },
        },
{
}

/// What a server does with a request as it comes in: it waits for the line, then
/// refuses it or waits for the headers, then answers them.
pub proof fn law_server_answers_what_it_reads(secure: bool, bytes: Seq<u8>, limit: nat)
    ensures
        ({
            let progress = server_progress(secure, bytes, limit);
            let not_utf8 = ServerProgress::Failed(ErrorModel::Utf8(Utf8Error::Handshake));
            match head_read(bytes, limit) {
                HeadRead::InLine => progress is More,
                HeadRead::InvalidLine => progress == not_utf8,
                HeadRead::InHeaders { line } => if path_in_request(line) is Some {
                    progress is More
                } else {
                    progress == invalid_request(line)
                },
                HeadRead::InvalidHeaders { line } => if path_in_request(line) is Some {
                    progress == not_utf8
                } else {
                    progress == invalid_request(line)
                },
                HeadRead::Done { line, headers, used } => match path_in_request(line) {
                    None => progress == invalid_request(line),
                    Some(path) => match answer_to_request(secure, path, headers_in(headers)) {
                        Ok(acceptance) => progress == (ServerProgress::Accepted { acceptance, used }),
                        Err(error) => progress == ServerProgress::Failed(error),
                    },
                },
            }
        }),
{
}

/// The refusal of a request line
pub open spec fn invalid_request(line: Seq<char>) -> ServerProgress {
    ServerProgress::Failed(ErrorModel::Handshake(HandshakeErrorModel::InvalidRequest(line)))
}

/// What is wrong with the headers of a response: the first that is missing or
/// wrong, and otherwise nothing.
pub proof fn law_headers_of_a_response(
    headers: Map<Seq<char>, Seq<char>>,
    accept: Seq<char>,
    line: Seq<char>,
)
    ensures
        response_error(Err(line), accept) == Some(
            ErrorModel::Handshake(HandshakeErrorModel::MissingOrInvalidHeader(line)),
        ),
        ({
            let error = response_error(Ok(headers), accept);
            let connection = headers.contains_key("connection"@) && same_but_for_case(
                headers["connection"@],
                "upgrade"@,
            );
            let upgrade = headers.contains_key("upgrade"@) && same_but_for_case(
                headers["upgrade"@],
                "websocket"@,
            );
            let answer = headers.contains_key("sec-websocket-accept"@) && same_but_for_case(
                headers["sec-websocket-accept"@],
                accept,
            );
            &&& !connection ==> error == Some(
                ErrorModel::Handshake(HandshakeErrorModel::MissingOrInvalidHeader("Connection"@)),
            )
            &&& connection && !upgrade ==> error == Some(
                ErrorModel::Handshake(HandshakeErrorModel::MissingOrInvalidHeader("Upgrade"@)),
            )
            &&& connection && upgrade && !answer ==> error == Some(
                ErrorModel::Handshake(
                    HandshakeErrorModel::MissingOrInvalidHeader("Sec-WebSocket-Accept"@),
                ),
            )
            &&& connection && upgrade && answer ==> error is None
        }),
{
}

/// What a client does with a response as it comes in: it waits for the line, then
/// refuses it unless it says that protocols are switched, then checks the headers.
pub proof fn law_client_checks_what_it_reads(accept: Seq<char>, bytes: Seq<u8>, limit: nat)
    ensures
        ({
            let progress = client_progress(accept, bytes, limit);
            let not_utf8 = ClientProgress::Failed(ErrorModel::Utf8(Utf8Error::Handshake));
            let switching = "HTTP/1.1 101 Switching Protocols"@;
            match head_read(bytes, limit) {
                HeadRead::InLine => progress is More,
                HeadRead::InvalidLine => progress == not_utf8,
                HeadRead::InHeaders { line } => if trim(line) == switching {
                    progress is More
                } else {
                    progress == unexpected_response(trim(line))
                },
                HeadRead::InvalidHeaders { line } => if trim(line) == switching {
                    progress == not_utf8
                } else {
                    progress == unexpected_response(trim(line))
                },
                HeadRead::Done { line, headers, used } => if trim(line) != switching {
                    progress == unexpected_response(trim(line))
                } else {
                    match response_error(headers_in(headers), accept) {
                        None => progress == (ClientProgress::Connected { used }),
                        Some(error) => progress == ClientProgress::Failed(error),
                    }
                },
            }
        }),
{
}

/// The refusal of a status
pub open spec fn unexpected_response(status: Seq<char>) -> ClientProgress {
    ClientProgress::Failed(ErrorModel::Handshake(HandshakeErrorModel::UnexpectedResponse(status)))
}

/// An error, a URL, a role and an acceptance are what they hold.
pub proof fn law_values_are_what_they_hold(
    error: Error,
    handshake: HandshakeError,
    url: Url,
    role: Role,
    result: Result<Acceptance, Error>,
    answer: Result<AcceptanceModel, ErrorModel>,
)
    ensures
        match handshake {
            HandshakeError::InvalidRequest(text) => handshake@
                == HandshakeErrorModel::InvalidRequest(text@),
            HandshakeError::MissingOrInvalidHeader(name) => handshake@
                == HandshakeErrorModel::MissingOrInvalidHeader(name@),
            HandshakeError::IncorrectScheme(scheme) => handshake@
                == HandshakeErrorModel::IncorrectScheme(scheme@),
            HandshakeError::NoHostInUrl => handshake@ == HandshakeErrorModel::NoHostInUrl,
            HandshakeError::UnexpectedResponse(status) => handshake@
                == HandshakeErrorModel::UnexpectedResponse(status@),
        },
        match error {
            Error::Io(e) => error@ == ErrorModel::Io(e),
            Error::GetRandom(e) => error@ == ErrorModel::GetRandom(e),
            Error::Utf8(e) => error@ == ErrorModel::Utf8(e),
            Error::Handshake(e) => error@ == ErrorModel::Handshake(e@),
            Error::Frame(e) => error@ == ErrorModel::Frame(e),
            Error::WasClosed => error@ == ErrorModel::WasClosed,
            Error::IncorrectRole => error@ == ErrorModel::IncorrectRole,
            Error::NoHandshake => error@ == ErrorModel::NoHandshake,
            Error::Bug(text) => error@ == ErrorModel::Bug(text@),
        },
        url@.href == url.href@,
        url@.scheme == url.scheme@,
        url.host matches Some(host) ==> url@.host == Some(host@),
        url.host is None ==> url@.host is None,
        url@.port == url.port,
        url@.path == url.path@,
        url.query matches Some(query) ==> url@.query == Some(query@),
        url.query is None ==> url@.query is None,
        role matches Role::Client { url: u } ==> role@ == (RoleModel::Client { url: u@ }),
        role is Server ==> role@ is Server,
        is_answer(result, answer) ==> match result {
            Ok(acceptance) => answer == Ok::<AcceptanceModel, ErrorModel>(acceptance@)
                && acceptance@.url == acceptance.url@ && acceptance@.response
                == acceptance.response@,
            Err(e) => answer == Err::<AcceptanceModel, ErrorModel>(e@),
        },
{
}

/// What a client's request is made of: the request for its URL with the key in
/// base64, and the answer to that key.
pub proof fn law_request_of_a_client(
    request: ClientRequest,
    url: UrlModel,
    limit: usize,
    key: [u8; 16],
)
    requires
        request.is_request_with(url, limit, key),
    ensures
        request@.request == request_text(url, base64_text(key@)),
        request@.accept == accept_text(base64_text(key@)),
        request@.limit == limit,
{
}

/// A client that has just been made masks with the number of its four bytes, the
/// last one first, has the usual limits, and waits for its handshake.
pub proof fn law_a_new_client<Stream>(
    socket: WebSocket<Stream>,
    url: UrlModel,
    stream: Stream,
    mask: [u8; 4],
)
    requires
        socket.is_client_with(url, stream, mask),
    ensures
        socket@.mask_key matches Some(key) && key == mask@[0] + mask@[1] * 0x100 + mask@[2]
            * 0x1_0000 + mask@[3] * 0x100_0000,
        socket.transport() == stream,
        socket@.secure <==> url.scheme == "wss"@,
        socket@.role == (RoleModel::Client { url }),
        socket@.phase is NoHandshake,
        !socket@.close_sent,
        socket@.received == Seq::<u8>::empty(),
        socket@.max_handshake_len == DEFAULT_MAX_HANDSHAKE_LEN == 8192,
        socket@.max_payload_len == DEFAULT_MAX_PAYLOAD_LEN == 0x0fff_ffff,
        socket@.fragment_size == DEFAULT_FRAGMENT_SIZE == 0x0fff_ffff,
{
    law_bytes_make_a_number(mask@.reverse());
}

/// A handshake opens a websocket and changes nothing else, but that what was sent
/// before it does not count.
pub proof fn law_an_opened_websocket(socket: SocketModel)
    ensures
        after_handshake(socket).phase is Open,
        !after_handshake(socket).close_sent,
        after_handshake(socket).received == socket.received,
        after_handshake(socket).role == socket.role,
        after_handshake(socket).secure == socket.secure,
        after_handshake(socket).mask_key == socket.mask_key,
        after_handshake(socket).max_handshake_len == socket.max_handshake_len,
        after_handshake(socket).max_payload_len == socket.max_payload_len,
        after_handshake(socket).fragment_size == socket.fragment_size,
{
}

} // verus!
