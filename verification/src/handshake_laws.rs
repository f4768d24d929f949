//! What holds of the opening handshake as a whole.

use crate::encoding::{base64_char, base64_text, lemma_base64_chars};
use crate::error::{ErrorModel, HandshakeErrorModel};
use crate::frame::{frame_parse, FrameParse};
use crate::handshake::{
    accept_text, client_progress, field_line, field_lines, hashed, head_text, header_error,
    lemma_hashable, path_in_request, request_fields, request_host, request_port, request_refusal,
    request_text, resource_name, response_text, server_progress, AcceptanceModel,
    ClientProgress, ServerProgress, SWITCHING_PROTOCOLS,
};
use crate::head::{
    head_open, head_read, lemma_head_read_stable, lemma_head_read_used, HeadRead, HEADERS_END,
    LINE_END,
};
use crate::headers::{added_headers, header_field, header_is};
use crate::outside::{sha1_digest, url_parts};
use crate::reader::{
    lemma_encode_push, lemma_text_read_encoded, lemma_text_read_stable, text_read,
    TextRead,
};
use crate::text::{
    ascii_space, colon_at, decimal, ends_with, lemma_first_colon, lemma_span, lower, next_word,
    same_but_for_case, trim, trim_end, white_space,
};
use crate::url::UrlModel;
use crate::websocket::{
    after_handshake, on_frame, reading, refusal, send_refusal, Phase, ReadOutcome, RoleModel,
    SocketModel,
};
use vstd::prelude::*;
use vstd::utf8::encode_utf8;

verus! {

/// Whether the text is one line, or less
pub open spec fn single_line(text: Seq<char>) -> bool {
    forall|i: int| 0 <= i < text.len() ==> #[trigger] text[i] != '\n'
}

/// Whether no colon in the text is followed by a space
pub open spec fn no_colon(text: Seq<char>) -> bool {
    forall|i: int| !#[trigger] colon_at(text, i)
}

/// Whether name and value of a header field come back from its line
pub open spec fn plain_field(field: (Seq<char>, Seq<char>)) -> bool {
    &&& single_line(field.0) && no_colon(field.0)
    &&& single_line(field.1) && no_colon(field.1)
}

/// Whether all header fields come back from their lines
pub open spec fn plain_fields(fields: Seq<(Seq<char>, Seq<char>)>) -> bool {
    forall|i: int| 0 <= i < fields.len() ==> plain_field(#[trigger] fields[i])
}

/// The headers with the given fields added
pub open spec fn with_fields(
    headers: Map<Seq<char>, Seq<char>>,
    fields: Seq<(Seq<char>, Seq<char>)>,
) -> Map<Seq<char>, Seq<char>>
    decreases fields.len(),
{
    if fields.len() == 0 {
        headers
    } else {
        with_fields(headers.insert(lower(fields[0].0), fields[0].1), fields.skip(1))
    }
}

/// Texts are encoded one after the other.
proof fn lemma_encode_concat(a: Seq<char>, b: Seq<char>)
    ensures
        encode_utf8(a + b) == encode_utf8(a) + encode_utf8(b),
    decreases b.len(),
{
    if b.len() == 0 {
        assert(a + b =~= a);
        assert(encode_utf8(a) + encode_utf8(b) =~= encode_utf8(a));
    } else {
        lemma_encode_concat(a, b.drop_last());
        lemma_encode_push(a + b.drop_last(), b.last());
        lemma_encode_push(b.drop_last(), b.last());
        assert((a + b.drop_last()).push(b.last()) =~= a + b);
        assert(b.drop_last().push(b.last()) =~= b);
        assert(encode_utf8(a + b) =~= encode_utf8(a) + encode_utf8(b));
    }
}

/// A first line is read to its end.
proof fn lemma_line_read(line: Seq<char>, limit: nat)
    requires
        single_line(line),
        encode_utf8(line + "\r\n"@).len() <= limit,
    ensures
        text_read(encode_utf8(line + "\r\n"@), LINE_END@, limit) == (TextRead::Done {
            text: line + "\r\n"@,
            used: encode_utf8(line + "\r\n"@).len(),
        }),
{
    let text = line + "\r\n"@;
    reveal_strlit("\r\n");
    reveal_strlit("\n");
    assert forall|k: int| 0 <= k < text.len() implies !ends_with(
        #[trigger] text.take(k),
        LINE_END@,
    ) by {
        if ends_with(text.take(k), LINE_END@) {
            assert(text.take(k).skip(k - 1)[0] == text[k - 1]);
            assert(text[k - 1] == '\n');
        }
    }
    assert(text.skip(text.len() - 1) =~= LINE_END@);
    lemma_text_read_encoded(text, LINE_END@, limit);
}

/// An empty line of a text, from the end of the line before it
spec fn blank_at(text: Seq<char>, i: int) -> bool {
    0 <= i && i + 2 < text.len() && text[i] == '\n' && text[i + 1] == '\r' && text[i + 2] == '\n'
}

/// Behind header fields, the only empty line is the last one.
proof fn lemma_one_blank(fields: Seq<(Seq<char>, Seq<char>)>)
    requires
        plain_fields(fields),
    ensures
        forall|i: int|
            #![trigger blank_at(field_lines(fields) + "\r\n"@, i)]
            blank_at(field_lines(fields) + "\r\n"@, i) ==> i + 3 == (field_lines(fields)
                + "\r\n"@).len(),
        fields.len() > 0 ==> ends_with(field_lines(fields) + "\r\n"@, HEADERS_END@),
    decreases fields.len(),
{
    reveal_strlit("\r\n");
    reveal_strlit("\r\n\r\n");
    reveal_strlit(": ");
    let text = field_lines(fields) + "\r\n"@;
    if fields.len() > 0 {
        let rest = fields.skip(1);
        let line = field_line(fields[0]);
        let after = field_lines(rest) + "\r\n"@;
        assert(plain_field(fields[0]));
        assert forall|i: int| 0 <= i < rest.len() implies plain_field(#[trigger] rest[i]) by {
            assert(plain_field(fields[i + 1]));
        }
        lemma_one_blank(rest);
        assert(text =~= line + "\r\n"@ + after);
        lemma_line_is_single(fields[0]);
        if rest.len() > 0 {
            lemma_line_is_single(rest[0]);
            assert(field_line(rest[0]).len() >= 2);
            assert(after[1] == field_line(rest[0])[1]);
        }
        assert forall|i: int|
            #![trigger blank_at(text, i)]
            blank_at(text, i) implies i + 3 == text.len() by {
            if i < line.len() {
                assert(text[i] == line[i]);
            } else if i >= line.len() + 2 {
                let j = i - line.len() - 2;
                assert(after[j] == text[i]);
                assert(after[j + 1] == text[i + 1]);
                assert(after[j + 2] == text[i + 2]);
                assert(blank_at(after, j));
            } else if i == line.len() + 1 {
                assert(text[i + 2] == after[1]);
            }
        }
        if rest.len() == 0 {
            assert(text.skip(text.len() - 4) =~= HEADERS_END@);
        } else {
            assert(text.skip(text.len() - 4) =~= after.skip(after.len() - 4));
        }
    }
}

/// The line of a header field is one line.
proof fn lemma_line_is_single(field: (Seq<char>, Seq<char>))
    requires
        plain_field(field),
    ensures
        single_line(field_line(field)),
        field_line(field).len() >= 2,
{
    reveal_strlit(": ");
    let line = field_line(field);
    assert forall|i: int| 0 <= i < line.len() implies #[trigger] line[i] != '\n' by {
        if i < field.0.len() {
            assert(line[i] == field.0[i]);
        } else if i >= field.0.len() + 2 {
            assert(line[i] == field.1[i - field.0.len() - 2]);
        }
    }
}

/// Header fields are read to their end.
proof fn lemma_fields_read(fields: Seq<(Seq<char>, Seq<char>)>, limit: nat)
    requires
        fields.len() > 0,
        plain_fields(fields),
        encode_utf8(field_lines(fields) + "\r\n"@).len() <= limit,
    ensures
        text_read(encode_utf8(field_lines(fields) + "\r\n"@), HEADERS_END@, limit) == (
        TextRead::Done {
            text: field_lines(fields) + "\r\n"@,
            used: encode_utf8(field_lines(fields) + "\r\n"@).len(),
        }),
{
    let text = field_lines(fields) + "\r\n"@;
    reveal_strlit("\r\n");
    reveal_strlit("\r\n\r\n");
    lemma_one_blank(fields);
    assert forall|k: int| 0 <= k < text.len() implies !ends_with(
        #[trigger] text.take(k),
        HEADERS_END@,
    ) by {
        if ends_with(text.take(k), HEADERS_END@) {
            let end = text.take(k).skip(k - 4);
            assert(end[1] == text[k - 3]);
            assert(end[2] == text[k - 2]);
            assert(end[3] == text[k - 1]);
            assert(blank_at(text, k - 3));
        }
    }
    lemma_text_read_encoded(text, HEADERS_END@, limit);
}

/// The head of a message is read to its end.
proof fn lemma_head_read(line: Seq<char>, fields: Seq<(Seq<char>, Seq<char>)>, limit: nat)
    requires
        single_line(line),
        fields.len() > 0,
        plain_fields(fields),
        encode_utf8(head_text(line, fields)).len() <= limit,
    ensures
        head_read(encode_utf8(head_text(line, fields)), limit) == (HeadRead::Done {
            line: line + "\r\n"@,
            headers: field_lines(fields) + "\r\n"@,
            used: encode_utf8(head_text(line, fields)).len(),
        }),
{
    let first = line + "\r\n"@;
    let headers = field_lines(fields) + "\r\n"@;
    let bytes = encode_utf8(head_text(line, fields));
    assert(head_text(line, fields) =~= first + headers);
    lemma_encode_concat(first, headers);
    lemma_line_read(line, limit);
    lemma_text_read_stable(encode_utf8(first), encode_utf8(headers), LINE_END@, limit);
    assert(bytes.skip(encode_utf8(first).len() as int) =~= encode_utf8(headers));
    lemma_fields_read(fields, (limit - encode_utf8(first).len()) as nat);
}

/// Name and value of a header field come back from its line.
proof fn lemma_field_comes_back(field: (Seq<char>, Seq<char>))
    requires
        plain_field(field),
    ensures
        header_field(field_line(field)) == Some(field),
{
    reveal_strlit(": ");
    let line = field_line(field);
    let len = field.0.len();
    assert forall|i: int| 0 <= i < len implies !colon_at(line, i) by {
        assert(!colon_at(field.0, i));
        if i + 1 < len {
            assert(line[i] == field.0[i] && line[i + 1] == field.0[i + 1]);
        } else {
            assert(line[i + 1] == ':');
        }
    }
    assert(colon_at(line, len as int));
    lemma_first_colon(line, len);
    assert(line.take(len as int) =~= field.0);
    assert(line.skip(len as int + 2) =~= field.1);
    assert forall|i: int| 0 <= i < field.1.len() implies !colon_at(field.1, i) by {}
    lemma_first_colon(field.1, field.1.len());
    assert(field.1.take(field.1.len() as int) =~= field.1);
}

/// Header fields come back from their lines.
proof fn lemma_fields_come_back(
    headers: Map<Seq<char>, Seq<char>>,
    fields: Seq<(Seq<char>, Seq<char>)>,
)
    requires
        plain_fields(fields),
    ensures
        added_headers(headers, field_lines(fields) + "\r\n"@) == Ok::<
            Map<Seq<char>, Seq<char>>,
            Seq<char>,
        >(with_fields(headers, fields)),
    decreases fields.len(),
{
    reveal_strlit("\r\n");
    let text = field_lines(fields) + "\r\n"@;
    let not_end = |c: char| c != '\n';
    if fields.len() == 0 {
        assert(text =~= "\r\n"@);
        lemma_span(text, not_end, 1);
        assert(text.take(0).len() == 0);
    } else {
        let line = field_line(fields[0]);
        let rest = fields.skip(1);
        let after = field_lines(rest) + "\r\n"@;
        assert(plain_field(fields[0]));
        lemma_line_is_single(fields[0]);
        assert forall|i: int| 0 <= i < rest.len() implies plain_field(#[trigger] rest[i]) by {
            assert(plain_field(fields[i + 1]));
        }
        assert(text =~= line + "\r\n"@ + after);
        assert forall|i: int| 0 <= i < line.len() + 1 implies not_end(#[trigger] text[i]) by {
            if i < line.len() {
                assert(text[i] == line[i]);
            }
        }
        lemma_span(text, not_end, line.len() + 1);
        assert(text.take(line.len() as int) =~= line);
        assert(text.skip(line.len() as int + 2) =~= after);
        lemma_field_comes_back(fields[0]);
        lemma_fields_come_back(headers.insert(lower(fields[0].0), fields[0].1), rest);
    }
}

/// A word stands between white space.
proof fn lemma_next_word(space: Seq<char>, word: Seq<char>, rest: Seq<char>)
    requires
        forall|i: int| 0 <= i < space.len() ==> ascii_space(#[trigger] space[i]),
        forall|i: int| 0 <= i < word.len() ==> !ascii_space(#[trigger] word[i]),
        word.len() > 0,
        rest.len() > 0,
        ascii_space(rest[0]),
    ensures
        next_word(space + word + rest) == Some((word, rest)),
{
    let text = space + word + rest;
    let start = text.skip(space.len() as int);
    assert forall|i: int| 0 <= i < space.len() implies ascii_space(#[trigger] text[i]) by {
        assert(text[i] == space[i]);
    }
    assert(text[space.len() as int] == word[0]);
    lemma_span(text, |c: char| ascii_space(c), space.len());
    assert(start =~= word + rest);
    assert forall|i: int| 0 <= i < word.len() implies !ascii_space(#[trigger] start[i]) by {
        assert(start[i] == word[i]);
    }
    assert(start[word.len() as int] == rest[0]);
    lemma_span(start, |c: char| !ascii_space(c), word.len());
    assert(start.take(word.len() as int) =~= word);
    assert(start.skip(word.len() as int) =~= rest);
}

/// A request line asks for its resource.
proof fn lemma_request_line(resource: Seq<char>)
    requires
        resource.len() > 0,
        forall|i: int| 0 <= i < resource.len() ==> !ascii_space(#[trigger] resource[i]),
    ensures
        path_in_request("GET "@ + resource + " HTTP/1.1"@ + "\r\n"@) == Some(resource),
        single_line("GET "@ + resource + " HTTP/1.1"@),
{
    reveal_strlit("GET ");
    reveal_strlit("GET");
    reveal_strlit(" HTTP/1.1");
    reveal_strlit("HTTP/1.1");
    reveal_strlit("\r\n");
    let line = "GET "@ + resource + " HTTP/1.1"@ + "\r\n"@;
    let space = seq![' '];
    let after_path = " HTTP/1.1"@ + "\r\n"@;
    let after_method = space + resource + after_path;
    assert(line =~= Seq::<char>::empty() + "GET"@ + after_method);
    lemma_next_word(seq![], "GET"@, after_method);
    lemma_next_word(space, resource, after_path);
    assert(after_path =~= space + "HTTP/1.1"@ + "\r\n"@);
    lemma_next_word(space, "HTTP/1.1"@, "\r\n"@);
    let first = "GET "@ + resource + " HTTP/1.1"@;
    assert forall|i: int| 0 <= i < first.len() implies #[trigger] first[i] != '\n' by {
        if 4 <= i < 4 + resource.len() {
            assert(first[i] == resource[i - 4]);
        }
    }
}

/// Decimal digits are digits.
proof fn lemma_decimal(n: nat)
    ensures
        forall|i: int| 0 <= i < decimal(n).len() ==> '0' <= #[trigger] decimal(n)[i] <= '9',
    decreases n,
{
    let digits = decimal(n);
    if n < 10 {
        assert(digits[0] == (0x30 + n) as char);
    } else {
        lemma_decimal(n / 10);
        assert forall|i: int| 0 <= i < digits.len() implies '0' <= #[trigger] digits[i] <= '9' by {
            if i + 1 < digits.len() {
                assert(digits[i] == decimal(n / 10)[i]);
            }
        }
    }
}

/// Whether a request can be made for the URL that reaches the server as it was
/// meant: nothing in the path, the query or the host breaks the lines of the
/// request
pub open spec fn requestable(url: UrlModel) -> bool {
    &&& request_refusal(url) is None
    &&& resource_name(url).len() > 0
    &&& forall|i: int|
        0 <= i < resource_name(url).len() ==> !ascii_space(#[trigger] resource_name(url)[i])
    &&& single_line(url.host->0)
    &&& no_colon(url.host->0)
}

/// The host header comes back.
proof fn lemma_host(url: UrlModel)
    requires
        requestable(url),
    ensures
        plain_field(("Host"@, request_host(url))),
{
    reveal_strlit("Host");
    reveal_strlit(":");
    let port = decimal(request_port(url) as nat);
    lemma_decimal(request_port(url) as nat);
    let name = url.host->0;
    let host = request_host(url);
    assert forall|i: int| 0 <= i < host.len() implies #[trigger] host[i] != '\n' by {
        if i < name.len() {
            assert(host[i] == name[i]);
        } else if i > name.len() {
            assert(host[i] == port[i - name.len() - 1]);
        }
    }
    assert forall|i: int| !#[trigger] colon_at(host, i) by {
        if 0 <= i && i + 1 < host.len() {
            if i + 1 < name.len() {
                assert(!colon_at(name, i));
                assert(host[i] == name[i] && host[i + 1] == name[i + 1]);
            } else if i + 1 == name.len() {
                assert(host[i + 1] == ':');
            } else {
                assert(host[i + 1] == port[i - name.len()]);
            }
        }
    }
}

/// Base64 text, as the value of a header, comes back.
proof fn lemma_base64_value(bytes: Seq<u8>)
    ensures
        single_line(base64_text(bytes)),
        no_colon(base64_text(bytes)),
{
    lemma_base64_chars(bytes);
    let text = base64_text(bytes);
    assert forall|i: int| !#[trigger] colon_at(text, i) by {
        if 0 <= i < text.len() {
            assert(base64_char(text[i]));
        }
    }
}

/// The headers that begin a handshake come back, whoever sends them.
proof fn lemma_upgrade_fields()
    ensures
        plain_field(("Connection"@, "Upgrade"@)),
        plain_field(("Upgrade"@, "websocket"@)),
        plain_field(("Sec-WebSocket-Version"@, "13"@)),
        lower("Connection"@) == "connection"@,
        lower("Upgrade"@) == "upgrade"@,
        same_but_for_case("Upgrade"@, "upgrade"@),
        same_but_for_case("websocket"@, "websocket"@),
        same_but_for_case("13"@, "13"@),
{
    reveal_strlit("Connection");
    reveal_strlit("connection");
    reveal_strlit("Upgrade");
    reveal_strlit("upgrade");
    reveal_strlit("websocket");
    reveal_strlit("Sec-WebSocket-Version");
    reveal_strlit("13");
    assert(lower("Connection"@) =~= "connection"@);
    assert(lower("Upgrade"@) =~= "upgrade"@);
}

/// The request fields come back as headers.
proof fn lemma_request_headers(host: Seq<char>, key: Seq<char>)
    requires
        single_line(host) && no_colon(host),
        single_line(key) && no_colon(key),
    ensures
        plain_fields(fields_of_request(host, key)),
        ({
            let headers = with_fields(Map::empty(), fields_of_request(host, key));
            &&& headers.contains_key("host"@) && headers["host"@] == host
            &&& header_is(headers, "connection"@, "upgrade"@)
            &&& header_is(headers, "upgrade"@, "websocket"@)
            &&& header_is(headers, "sec-websocket-version"@, "13"@)
            &&& headers.contains_key("sec-websocket-key"@)
            &&& headers["sec-websocket-key"@] == key
        }),
{
    let fields = fields_of_request(host, key);
    lemma_upgrade_fields();
    reveal_strlit("Host");
    reveal_strlit("host");
    reveal_strlit("connection");
    reveal_strlit("upgrade");
    reveal_strlit("Sec-WebSocket-Version");
    reveal_strlit("sec-websocket-version");
    reveal_strlit("Sec-WebSocket-Key");
    reveal_strlit("sec-websocket-key");
    assert(lower("Host"@) =~= "host"@);
    assert(lower("Sec-WebSocket-Version"@) =~= "sec-websocket-version"@);
    assert(lower("Sec-WebSocket-Key"@) =~= "sec-websocket-key"@);
    assert(plain_field(fields[0]));
    assert(plain_field(fields[4]));
    reveal_with_fuel(with_fields, 6);
    assert(fields.skip(1)[0] == fields[1]);
    assert(fields.skip(1).skip(1)[0] == fields[2]);
    assert(fields.skip(1).skip(1).skip(1)[0] == fields[3]);
    assert(fields.skip(1).skip(1).skip(1).skip(1)[0] == fields[4]);
    assert(fields.skip(1).skip(1).skip(1).skip(1).skip(1).len() == 0);
}

/// A request for any path and host with any key, written as here, is accepted where
/// host and path make up a URL: that URL comes back, of the whole path and the whole
/// host, and the response answers the whole key.
pub proof fn law_any_request_is_answered(
    path: Seq<char>,
    host: Seq<char>,
    key: Seq<char>,
    secure: bool,
    limit: nat,
)
    requires
        path.len() > 0,
        forall|i: int| 0 <= i < path.len() ==> !ascii_space(#[trigger] path[i]),
        single_line(host) && no_colon(host),
        single_line(key) && no_colon(key),
        encode_utf8(key + "258EAFA5-E914-47DA-95CA-C5AB0DC85B11"@).len() < 0x2000_0000_0000_0000,
        encode_utf8(
            "GET "@ + path + " HTTP/1.1\r\nHost: "@ + host
                + "\r\nConnection: Upgrade\r\nUpgrade: websocket\r\nSec-WebSocket-Version: 13\r\nSec-WebSocket-Key: "@
                + key + "\r\n\r\n"@,
        ).len() <= limit,
    ensures
        ({
            let bytes = encode_utf8(
                "GET "@ + path + " HTTP/1.1\r\nHost: "@ + host
                    + "\r\nConnection: Upgrade\r\nUpgrade: websocket\r\nSec-WebSocket-Version: 13\r\nSec-WebSocket-Key: "@
                    + key + "\r\n\r\n"@,
            );
            let accept = base64_text(
                sha1_digest(encode_utf8(key + "258EAFA5-E914-47DA-95CA-C5AB0DC85B11"@)),
            );
            let url_text = (if secure {
                "wss"@
            } else {
                "ws"@
            }) + "://"@ + host + path;
            server_progress(secure, bytes, limit) == match url_parts(url_text) {
                Ok(url) => ServerProgress::Accepted {
                    acceptance: AcceptanceModel {
                        url,
                        response:
                            "HTTP/1.1 101 Switching Protocols\r\nConnection: Upgrade\r\nUpgrade: websocket\r\nSec-WebSocket-Accept: "@
                            + accept + "\r\n\r\n"@,
                    },
                    used: bytes.len(),
                },
                Err(words) => ServerProgress::Failed(
                    ErrorModel::Handshake(HandshakeErrorModel::InvalidRequest(words)),
                ),
            }
        }),
{
    let fields = fields_of_request(host, key);
    let line = "GET "@ + path + " HTTP/1.1"@;
    lemma_request_head(path, host, key);
    lemma_request_line(path);
    lemma_request_headers(host, key);
    lemma_head_read(line, fields, limit);
    lemma_fields_come_back(Map::empty(), fields);
    law_response_word_for_word(accept_text(key), key);
}

/// The head of a request, word for word.
proof fn lemma_request_head(path: Seq<char>, host: Seq<char>, key: Seq<char>)
    ensures
        head_text("GET "@ + path + " HTTP/1.1"@, fields_of_request(host, key)) == "GET "@ + path
            + " HTTP/1.1\r\nHost: "@ + host
            + "\r\nConnection: Upgrade\r\nUpgrade: websocket\r\nSec-WebSocket-Version: 13\r\nSec-WebSocket-Key: "@
            + key + "\r\n\r\n"@,
{
    lemma_request_lines(host, key);
    reveal_strlit(" HTTP/1.1\r\nHost: ");
    reveal_strlit(" HTTP/1.1");
    reveal_strlit("\r\n");
    reveal_strlit("\r\n\r\n");
    reveal_strlit("Host: ");
    assert(" HTTP/1.1"@ + "\r\n"@ + "Host: "@ =~= " HTTP/1.1\r\nHost: "@);
    assert("\r\n"@ + "\r\n"@ =~= "\r\n\r\n"@);
    let between =
        "\r\nConnection: Upgrade\r\nUpgrade: websocket\r\nSec-WebSocket-Version: 13\r\nSec-WebSocket-Key: "@;
    assert(head_text("GET "@ + path + " HTTP/1.1"@, fields_of_request(host, key)) =~= "GET "@ + path
        + (" HTTP/1.1"@ + "\r\n"@ + "Host: "@) + host + between + key + ("\r\n"@ + "\r\n"@));
}

/// A server accepts the request of a client, and answers its key; what is left
/// to decide is whether the host and the path make up a URL.
pub proof fn law_request_is_answered(url: UrlModel, key: Seq<u8>, secure: bool, limit: nat)
    requires
        requestable(url),
        key.len() == 16,
        encode_utf8(request_text(url, base64_text(key))).len() <= limit,
    ensures
        ({
            let bytes = encode_utf8(request_text(url, base64_text(key)));
            server_progress(secure, bytes, limit) == match url_parts(
                (if secure {
                    "wss"@
                } else {
                    "ws"@
                }) + "://"@ + request_host(url) + resource_name(url),
            ) {
                Ok(requested) => ServerProgress::Accepted {
                    acceptance: AcceptanceModel {
                        url: requested,
                        response: response_text(accept_text(base64_text(key))),
                    },
                    used: bytes.len(),
                },
                Err(words) => ServerProgress::Failed(
                    ErrorModel::Handshake(HandshakeErrorModel::InvalidRequest(words)),
                ),
            }
        }),
{
    let fields = request_fields(url, base64_text(key));
    lemma_request_line(resource_name(url));
    lemma_host(url);
    lemma_base64_value(key);
    assert(fields =~= fields_of_request(request_host(url), base64_text(key)));
    lemma_request_headers(request_host(url), base64_text(key));
    lemma_head_read("GET "@ + resource_name(url) + " HTTP/1.1"@, fields, limit);
    lemma_fields_come_back(Map::empty(), fields);
    lemma_hashable(key);
}

/// The response headers come back.
proof fn lemma_response_headers(accept: Seq<char>)
    requires
        single_line(accept),
        no_colon(accept),
    ensures
        ({
            let fields = seq![
                ("Connection"@, "Upgrade"@),
                ("Upgrade"@, "websocket"@),
                ("Sec-WebSocket-Accept"@, accept),
            ];
            let headers = with_fields(Map::empty(), fields);
            &&& plain_fields(fields)
            &&& header_is(headers, "connection"@, "upgrade"@)
            &&& header_is(headers, "upgrade"@, "websocket"@)
            &&& headers.contains_key("sec-websocket-accept"@)
            &&& headers["sec-websocket-accept"@] == accept
        }),
{
    let fields = seq![
        ("Connection"@, "Upgrade"@),
        ("Upgrade"@, "websocket"@),
        ("Sec-WebSocket-Accept"@, accept),
    ];
    lemma_upgrade_fields();
    reveal_strlit("connection");
    reveal_strlit("upgrade");
    reveal_strlit("Sec-WebSocket-Accept");
    reveal_strlit("sec-websocket-accept");
    assert(lower("Sec-WebSocket-Accept"@) =~= "sec-websocket-accept"@);
    assert(plain_field(fields[2]));
    reveal_with_fuel(with_fields, 4);
    assert(fields.skip(1)[0] == fields[1]);
    assert(fields.skip(1).skip(1)[0] == fields[2]);
    assert(fields.skip(1).skip(1).skip(1).len() == 0);
}

/// The status line is known without its end.
proof fn lemma_status_line()
    ensures
        single_line(SWITCHING_PROTOCOLS@),
        trim(SWITCHING_PROTOCOLS@ + "\r\n"@) == SWITCHING_PROTOCOLS@,
{
    reveal_strlit("HTTP/1.1 101 Switching Protocols");
    reveal_strlit("\r\n");
    let status = SWITCHING_PROTOCOLS@;
    let line = status + "\r\n"@;
    lemma_span(line, |c: char| white_space(c), 0);
    assert(line.skip(0) =~= line);
    assert(line.drop_last() =~= status.push('\r'));
    assert(line.drop_last().drop_last() =~= status);
    reveal_with_fuel(trim_end, 3);
}

/// A client is connected by a response exactly when it answers the key: a server
/// that answers it with something else, not only in the case of letters, is
/// refused.
pub proof fn law_response_completes_the_handshake(
    accept: Seq<char>,
    answered: Seq<char>,
    limit: nat,
)
    requires
        single_line(answered),
        no_colon(answered),
        encode_utf8(response_text(answered)).len() <= limit,
    ensures
        ({
            let bytes = encode_utf8(response_text(answered));
            client_progress(accept, bytes, limit) == if same_but_for_case(answered, accept) {
                ClientProgress::Connected { used: bytes.len() }
            } else {
                ClientProgress::Failed(header_error("Sec-WebSocket-Accept"@))
            }
        }),
{
    let fields = seq![
        ("Connection"@, "Upgrade"@),
        ("Upgrade"@, "websocket"@),
        ("Sec-WebSocket-Accept"@, answered),
    ];
    lemma_status_line();
    lemma_response_headers(answered);
    lemma_head_read(SWITCHING_PROTOCOLS@, fields, limit);
    lemma_fields_come_back(Map::empty(), fields);
}

/// A client and a server complete the handshake with each other: the server
/// accepts what the client sends, and the client is connected by what the server
/// sends.
pub proof fn law_handshake_completes(
    url: UrlModel,
    key: Seq<u8>,
    secure: bool,
    server_limit: nat,
    client_limit: nat,
)
    requires
        requestable(url),
        key.len() == 16,
        url_parts(
            (if secure {
                "wss"@
            } else {
                "ws"@
            }) + "://"@ + request_host(url) + resource_name(url),
        ) is Ok,
        encode_utf8(request_text(url, base64_text(key))).len() <= server_limit,
        encode_utf8(response_text(accept_text(base64_text(key)))).len() <= client_limit,
    ensures
        server_progress(
            secure,
            encode_utf8(request_text(url, base64_text(key))),
            server_limit,
        ) matches ServerProgress::Accepted { acceptance, .. } && client_progress(
            accept_text(base64_text(key)),
            encode_utf8(acceptance.response),
            client_limit,
        ) is Connected,
{
    law_request_is_answered(url, key, secure, server_limit);
    lemma_base64_value(sha1_digest(hashed(base64_text(key))));
    let accept = accept_text(base64_text(key));
    law_response_completes_the_handshake(accept, accept, client_limit);
}

/// A server that is done with a request does not look at what follows it.
pub proof fn law_server_stops_at_the_end(secure: bool, bytes: Seq<u8>, more: Seq<u8>, limit: nat)
    requires
        !(server_progress(secure, bytes, limit) is More),
    ensures
        server_progress(secure, bytes + more, limit) == server_progress(secure, bytes, limit),
        server_progress(secure, bytes, limit) matches ServerProgress::Accepted { used, .. }
            ==> used <= bytes.len(),
{
    lemma_head_read_further(bytes, more, limit);
}

/// A client that is done with a response does not look at what follows it.
pub proof fn law_client_stops_at_the_end(
    accept: Seq<char>,
    bytes: Seq<u8>,
    more: Seq<u8>,
    limit: nat,
)
    requires
        !(client_progress(accept, bytes, limit) is More),
    ensures
        client_progress(accept, bytes + more, limit) == client_progress(accept, bytes, limit),
        client_progress(accept, bytes, limit) matches ClientProgress::Connected { used }
            ==> used <= bytes.len(),
{
    lemma_head_read_further(bytes, more, limit);
}

/// What has been read of a head stays.
proof fn lemma_head_read_further(bytes: Seq<u8>, more: Seq<u8>, limit: nat)
    ensures
        !head_open(head_read(bytes, limit)) ==> head_read(bytes + more, limit) == head_read(
            bytes,
            limit,
        ),
        head_read(bytes, limit) matches HeadRead::InHeaders { line } ==> match head_read(
            bytes + more,
            limit,
        ) {
            HeadRead::InHeaders { line: l } => l == line,
            HeadRead::InvalidHeaders { line: l } => l == line,
            HeadRead::Done { line: l, .. } => l == line,
            _ => false,
        },
        head_read(bytes, limit) matches HeadRead::Done { used, .. } ==> used <= bytes.len(),
{
    if head_open(head_read(bytes, limit)) {
        if head_read(bytes, limit) is InHeaders {
            lemma_text_read_stable(bytes, more, LINE_END@, limit);
        }
    } else {
        lemma_head_read_stable(bytes, more, limit);
    }
}

/// No more than the limit is used of a handshake: the line and the headers
/// together are not longer, however much was sent.
pub proof fn law_head_keeps_the_limit(bytes: Seq<u8>, limit: nat)
    ensures
        match head_read(bytes, limit) {
            HeadRead::InHeaders { line } => encode_utf8(line).len() <= limit,
            HeadRead::InvalidHeaders { line } => encode_utf8(line).len() <= limit,
            HeadRead::Done { line, headers, used } => encode_utf8(line).len() + encode_utf8(
                headers,
            ).len() <= limit && used <= limit,
            _ => true,
        },
{
    lemma_head_read_used(bytes, limit);
}

/// A handshake that is longer than the limit is cut off there: what it comes to
/// is decided by the first `limit` bytes, whatever follows them.
pub proof fn law_long_handshakes_are_cut(
    secure: bool,
    accept: Seq<char>,
    bytes: Seq<u8>,
    limit: nat,
)
    requires
        bytes.len() >= limit,
    ensures
        head_read(bytes, limit) == head_read(bytes.take(limit as int), limit),
        server_progress(secure, bytes, limit) == server_progress(
            secure,
            bytes.take(limit as int),
            limit,
        ),
        client_progress(accept, bytes, limit) == client_progress(
            accept,
            bytes.take(limit as int),
            limit,
        ),
        !(server_progress(secure, bytes, limit) is More),
        !(client_progress(accept, bytes, limit) is More),
{
    let start = bytes.take(limit as int);
    lemma_head_read_used(start, limit);
    lemma_head_read_stable(start, bytes.skip(limit as int), limit);
    assert(start + bytes.skip(limit as int) =~= bytes);
}

/// What a handshake comes to for the websocket of a server, when a client has sent
/// the bytes; nothing while the request goes on
pub open spec fn server_outcome(socket: SocketModel, bytes: Seq<u8>) -> Option<
    Result<AcceptanceModel, ErrorModel>,
> {
    match socket.role {
        RoleModel::Client { .. } => Some(Err(ErrorModel::IncorrectRole)),
        RoleModel::Server => match server_progress(
            socket.secure,
            bytes,
            socket.max_handshake_len as nat,
        ) {
            ServerProgress::More => None,
            ServerProgress::Failed(error) => Some(Err(error)),
            ServerProgress::Accepted { acceptance, .. } => Some(Ok(acceptance)),
        },
    }
}

/// What a handshake comes to for the websocket of a client that expects the given
/// answer to its key, when a server has sent the bytes; nothing while the response
/// goes on
pub open spec fn client_outcome(
    socket: SocketModel,
    accept: Seq<char>,
    bytes: Seq<u8>,
) -> Option<Result<(), ErrorModel>> {
    match socket.role {
        RoleModel::Server => Some(Err(ErrorModel::IncorrectRole)),
        RoleModel::Client { url } => match request_refusal(url) {
            Some(error) => Some(Err(error)),
            None => match client_progress(accept, bytes, socket.max_handshake_len as nat) {
                ClientProgress::More => None,
                ClientProgress::Failed(error) => Some(Err(error)),
                ClientProgress::Connected { .. } => Some(Ok(())),
            },
        },
    }
}

/// What a websocket is after a handshake: open once it has succeeded, and
/// unchanged otherwise
pub open spec fn after_outcome<T>(
    socket: SocketModel,
    outcome: Option<Result<T, ErrorModel>>,
) -> SocketModel {
    match outcome {
        Some(Ok(_)) => after_handshake(socket),
        _ => socket,
    }
}

/// Whether reading, writing, flushing and closing are refused for want of a
/// handshake
pub open spec fn awaits_handshake(socket: SocketModel) -> bool {
    let error = ErrorModel::NoHandshake;
    &&& refusal(socket.phase) == Some(error)
    &&& send_refusal(socket) == Some(error)
    &&& reading(socket.phase, socket.received, socket.max_payload_len as nat).outcome
        == ReadOutcome::Fail(error)
}

/// Whether writing, flushing and closing are not refused at all, and reading is not
/// for want of a handshake
pub open spec fn in_use(socket: SocketModel) -> bool {
    &&& refusal(socket.phase) is None
    &&& send_refusal(socket) is None
    &&& reading(socket.phase, socket.received, socket.max_payload_len as nat).outcome
        != ReadOutcome::Fail(ErrorModel::NoHandshake)
}

/// After the handshake, reading does not ask for it.
proof fn lemma_reading_in_use(phase: Phase, received: Seq<u8>, max_len: nat)
    requires
        !(phase is NoHandshake),
    ensures
        reading(phase, received, max_len).outcome != ReadOutcome::Fail(ErrorModel::NoHandshake),
    decreases received.len(),
{
    if let FrameParse::Complete { frame, size } = frame_parse(received, max_len) {
        lemma_reading_in_use(on_frame(phase, frame).0, received.skip(size as int), max_len);
    }
}

/// A server's websocket is open once a request has been accepted, and awaits a
/// handshake until then; a client's refuses to wait for a request.
pub proof fn law_server_handshake_opens(socket: SocketModel, bytes: Seq<u8>)
    requires
        socket.phase is NoHandshake,
    ensures
        ({
            let outcome = server_outcome(socket, bytes);
            let after = after_outcome(socket, outcome);
            &&& outcome matches Some(Ok(_)) ==> in_use(after)
            &&& !(outcome matches Some(Ok(_))) ==> after == socket && awaits_handshake(after)
            &&& socket.role is Client ==> outcome == Some(
                Err::<AcceptanceModel, ErrorModel>(ErrorModel::IncorrectRole),
            )
        }),
{
    lemma_reading_in_use(Phase::Open, socket.received, socket.max_payload_len as nat);
}

/// A client's websocket is open once a response has completed the handshake, and
/// awaits one until then; a server's refuses to make a request.
pub proof fn law_client_handshake_opens(socket: SocketModel, accept: Seq<char>, bytes: Seq<u8>)
    requires
        socket.phase is NoHandshake,
    ensures
        ({
            let outcome = client_outcome(socket, accept, bytes);
            let after = after_outcome(socket, outcome);
            &&& outcome matches Some(Ok(_)) ==> in_use(after)
            &&& !(outcome matches Some(Ok(_))) ==> after == socket && awaits_handshake(after)
            &&& socket.role is Server ==> outcome == Some(
                Err::<(), ErrorModel>(ErrorModel::IncorrectRole),
            )
        }),
{
    lemma_reading_in_use(Phase::Open, socket.received, socket.max_payload_len as nat);
}

/// The request that a client makes, word for word.
pub proof fn law_request_word_for_word(url: UrlModel, host: Seq<char>, key: Seq<char>)
    requires
        url.host == Some(host),
    ensures
        request_text(url, key) == "GET "@ + url.path + (match url.query {
            Some(query) => "?"@ + query,
            None => Seq::empty(),
        }) + " HTTP/1.1\r\nHost: "@ + host + ":"@ + decimal(
            match url.port {
                Some(port) => port as nat,
                None => if url.scheme == "wss"@ {
                    443
                } else {
                    80
                },
            },
        )
            + "\r\nConnection: Upgrade\r\nUpgrade: websocket\r\nSec-WebSocket-Version: 13\r\nSec-WebSocket-Key: "@
            + key + "\r\n\r\n"@,
{
    let fields = request_fields(url, key);
    let host_and_port = request_host(url);
    assert(fields =~= fields_of_request(host_and_port, key));
    lemma_request_head(resource_name(url), host_and_port, key);
    let between =
        "\r\nConnection: Upgrade\r\nUpgrade: websocket\r\nSec-WebSocket-Version: 13\r\nSec-WebSocket-Key: "@;
    assert(request_text(url, key) =~= "GET "@ + url.path + (match url.query {
        Some(query) => "?"@ + query,
        None => Seq::empty(),
    }) + " HTTP/1.1\r\nHost: "@ + host + ":"@ + decimal(request_port(url) as nat) + between + key
        + "\r\n\r\n"@);
}

/// The header fields of a request for the given host with the given key
spec fn fields_of_request(host: Seq<char>, key: Seq<char>) -> Seq<(Seq<char>, Seq<char>)> {
    seq![
        ("Host"@, host),
        ("Connection"@, "Upgrade"@),
        ("Upgrade"@, "websocket"@),
        ("Sec-WebSocket-Version"@, "13"@),
        ("Sec-WebSocket-Key"@, key),
    ]
}

/// The header lines of a request, word for word.
proof fn lemma_request_lines(host: Seq<char>, key: Seq<char>)
    ensures
        field_lines(fields_of_request(host, key)) == "Host: "@ + host
            + "\r\nConnection: Upgrade\r\nUpgrade: websocket\r\nSec-WebSocket-Version: 13\r\nSec-WebSocket-Key: "@
            + key + "\r\n"@,
{
    let fields = fields_of_request(host, key);
    reveal_with_fuel(field_lines, 6);
    assert(fields.skip(1).skip(1).skip(1).skip(1).skip(1) =~= seq![]);
    assert(fields.skip(1)[0] == fields[1]);
    assert(fields.skip(1).skip(1)[0] == fields[2]);
    assert(fields.skip(1).skip(1).skip(1)[0] == fields[3]);
    assert(fields.skip(1).skip(1).skip(1).skip(1)[0] == fields[4]);
    lemma_words_of_request();
    let between = "\r\n"@ + ("Connection"@ + ": "@ + "Upgrade"@ + "\r\n"@) + ("Upgrade"@ + ": "@
        + "websocket"@ + "\r\n"@) + ("Sec-WebSocket-Version"@ + ": "@ + "13"@ + "\r\n"@) + (
    "Sec-WebSocket-Key"@ + ": "@);
    assert(field_lines(fields) =~= ("Host"@ + ": "@) + host + between + key + "\r\n"@);
}

/// The words between host and key.
proof fn lemma_words_of_request()
    ensures
        "Host"@ + ": "@ == "Host: "@,
        "\r\n"@ + ("Connection"@ + ": "@ + "Upgrade"@ + "\r\n"@) + ("Upgrade"@ + ": "@
            + "websocket"@ + "\r\n"@) + ("Sec-WebSocket-Version"@ + ": "@ + "13"@ + "\r\n"@) + (
        "Sec-WebSocket-Key"@ + ": "@)
            == "\r\nConnection: Upgrade\r\nUpgrade: websocket\r\nSec-WebSocket-Version: 13\r\nSec-WebSocket-Key: "@,
{
    reveal_strlit("Host");
    reveal_strlit("Host: ");
    reveal_strlit(": ");
    reveal_strlit("\r\n");
    reveal_strlit("Connection");
    reveal_strlit("Upgrade");
    reveal_strlit("websocket");
    reveal_strlit("Sec-WebSocket-Version");
    reveal_strlit("13");
    reveal_strlit("Sec-WebSocket-Key");
    reveal_strlit(
        "\r\nConnection: Upgrade\r\nUpgrade: websocket\r\nSec-WebSocket-Version: 13\r\nSec-WebSocket-Key: ",
    );
    assert("Host"@ + ": "@ =~= "Host: "@);
    assert("\r\n"@ + ("Connection"@ + ": "@ + "Upgrade"@ + "\r\n"@) + ("Upgrade"@ + ": "@
        + "websocket"@ + "\r\n"@) + ("Sec-WebSocket-Version"@ + ": "@ + "13"@ + "\r\n"@) + (
    "Sec-WebSocket-Key"@ + ": "@)
        =~= "\r\nConnection: Upgrade\r\nUpgrade: websocket\r\nSec-WebSocket-Version: 13\r\nSec-WebSocket-Key: "@);
}

/// The response to a key, word for word.
pub proof fn law_response_word_for_word(accept: Seq<char>, key: Seq<char>)
    ensures
        response_text(accept)
            == "HTTP/1.1 101 Switching Protocols\r\nConnection: Upgrade\r\nUpgrade: websocket\r\nSec-WebSocket-Accept: "@
            + accept + "\r\n\r\n"@,
        accept_text(key) == base64_text(
            sha1_digest(encode_utf8(key + "258EAFA5-E914-47DA-95CA-C5AB0DC85B11"@)),
        ),
{
    let fields = seq![
        ("Connection"@, "Upgrade"@),
        ("Upgrade"@, "websocket"@),
        ("Sec-WebSocket-Accept"@, accept),
    ];
    reveal_with_fuel(field_lines, 4);
    assert(fields.skip(1).skip(1).skip(1) =~= seq![]);
    assert(fields.skip(1)[0] == fields[1]);
    assert(fields.skip(1).skip(1)[0] == fields[2]);
    lemma_words_of_response();
    let before = "HTTP/1.1 101 Switching Protocols"@ + "\r\n"@ + ("Connection"@ + ": "@
        + "Upgrade"@ + "\r\n"@) + ("Upgrade"@ + ": "@ + "websocket"@ + "\r\n"@) + (
    "Sec-WebSocket-Accept"@ + ": "@);
    assert(response_text(accept) =~= before + accept + ("\r\n"@ + "\r\n"@));
}

/// The words round the answer to a key.
proof fn lemma_words_of_response()
    ensures
        "HTTP/1.1 101 Switching Protocols"@ + "\r\n"@ + ("Connection"@ + ": "@ + "Upgrade"@
            + "\r\n"@) + ("Upgrade"@ + ": "@ + "websocket"@ + "\r\n"@) + ("Sec-WebSocket-Accept"@
            + ": "@)
            == "HTTP/1.1 101 Switching Protocols\r\nConnection: Upgrade\r\nUpgrade: websocket\r\nSec-WebSocket-Accept: "@,
        "\r\n"@ + "\r\n"@ == "\r\n\r\n"@,
{
    reveal_strlit("HTTP/1.1 101 Switching Protocols");
    reveal_strlit("\r\n");
    reveal_strlit("\r\n\r\n");
    reveal_strlit(": ");
    reveal_strlit("Connection");
    reveal_strlit("Upgrade");
    reveal_strlit("websocket");
    reveal_strlit("Sec-WebSocket-Accept");
    reveal_strlit(
        "HTTP/1.1 101 Switching Protocols\r\nConnection: Upgrade\r\nUpgrade: websocket\r\nSec-WebSocket-Accept: ",
    );
    assert("HTTP/1.1 101 Switching Protocols"@ + "\r\n"@ + ("Connection"@ + ": "@ + "Upgrade"@
        + "\r\n"@) + ("Upgrade"@ + ": "@ + "websocket"@ + "\r\n"@) + ("Sec-WebSocket-Accept"@
        + ": "@)
        =~= "HTTP/1.1 101 Switching Protocols\r\nConnection: Upgrade\r\nUpgrade: websocket\r\nSec-WebSocket-Accept: "@);
    assert("\r\n"@ + "\r\n"@ =~= "\r\n\r\n"@);
}

} // verus!
