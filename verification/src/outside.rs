//! What the library takes from outside: each item here is believed as stated.

use crate::encoding::base64_text;
use crate::reader::{begins_char, char_bytes, is_char};
use crate::text::ascii_lower;
use crate::url::{Url, UrlModel};
use base64::Engine;
use bytes::BytesMut;
use getrandom::Error as RandomError;
use vstd::prelude::*;
use vstd::utf8::{decode_utf8, is_ascii_chars, valid_utf8};

verus! {

/// The error of `getrandom`, carried through without being looked into
#[verifier::external_type_specification]
#[verifier::external_body]
pub struct ExRandomError(RandomError);

/// Calls `getrandom::getrandom`, which fills the slice with random bytes or says
/// why it cannot; whatever it does, the slice keeps its length. Nothing is
/// claimed of the bytes, nor of when the call succeeds.
#[verifier::external_body]
pub(crate) fn random_bytes(dest: &mut [u8]) -> (result: Result<(), RandomError>)
    ensures
        final(dest)@.len() == old(dest)@.len(),
{
    getrandom::getrandom(dest)
}

/// The growing buffer of the `bytes` crate
#[verifier::external_type_specification]
#[verifier::external_body]
pub struct ExBytesMut(BytesMut);

/// The bytes that a buffer holds, oldest first
pub uninterp spec fn buffered(buffer: BytesMut) -> Seq<u8>;

/// Calls `BytesMut::with_capacity`: the new buffer holds nothing. It panics where
/// the capacity is more than an allocation can hold.
#[verifier::external_body]
pub(crate) fn buffer_with_capacity(capacity: usize) -> (buffer: BytesMut)
    requires
        capacity <= 0x7fff_ffff,
    ensures
        buffered(buffer) == Seq::<u8>::empty(),
{
    BytesMut::with_capacity(capacity)
}

/// Dereferences a `BytesMut`: the slice is what the buffer holds.
#[verifier::external_body]
pub(crate) fn buffer_bytes(buffer: &BytesMut) -> (bytes: &[u8])
    ensures
        bytes@ == buffered(*buffer),
{
    buffer
}

/// Calls `BytesMut::split_to`: the first `at` bytes move into the buffer that is
/// returned, and the rest stays. It panics where the buffer holds fewer bytes.
#[verifier::external_body]
pub(crate) fn buffer_split_to(buffer: &mut BytesMut, at: usize) -> (front: BytesMut)
    requires
        at <= buffered(*old(buffer)).len(),
    ensures
        buffered(front) == buffered(*old(buffer)).take(at as int),
        buffered(*final(buffer)) == buffered(*old(buffer)).skip(at as int),
{
    buffer.split_to(at)
}

/// Calls `BytesMut::extend_from_slice`: the bytes are added behind what the
/// buffer held. Like every collection that grows, it panics where no memory can
/// be had.
#[verifier::external_body]
pub(crate) fn buffer_extend(buffer: &mut BytesMut, bytes: &[u8])
    ensures
        buffered(*final(buffer)) == buffered(*old(buffer)) + bytes@,
{
    buffer.extend_from_slice(bytes)
}

/// Calls `std::str::from_utf8`: the bytes are a string slice exactly when they
/// are valid UTF-8, and the slice then holds those very bytes.
#[verifier::external_body]
pub(crate) fn str_from_utf8(bytes: &[u8]) -> (text: Option<&str>)
    ensures
        text is Some <==> valid_utf8(bytes@),
        text matches Some(t) ==> t@ == decode_utf8(bytes@),
{
    std::str::from_utf8(bytes).ok()
}

/// Calls `String::from_utf8`: the bytes become a string exactly when they are
/// valid UTF-8, and the string then holds those very bytes.
#[verifier::external_body]
pub(crate) fn string_from_utf8(bytes: Vec<u8>) -> (text: Option<String>)
    ensures
        text is Some <==> valid_utf8(bytes@),
        text matches Some(t) ==> t@ == decode_utf8(bytes@),
{
    String::from_utf8(bytes).ok()
}

/// The parts of the URL that a text spells, or what `url::ParseError` says of it
pub uninterp spec fn url_parts(text: Seq<char>) -> Result<UrlModel, Seq<char>>;

/// Calls `url::Url::parse` and copies the parts of the result, one field each.
/// The parts, or the words of the error, depend on the text alone.
#[verifier::external_body]
pub(crate) fn parse_url(text: &str) -> (url: Result<Url, String>)
    ensures
        match (url, url_parts(text@)) {
            (Ok(u), Ok(parts)) => u@ == parts,
            (Err(e), Err(words)) => e@ == words,
            _ => false,
        },
{
    match url::Url::parse(text) {
        Ok(url) => Ok(Url {
            href: String::from(url.as_str()),
            scheme: String::from(url.scheme()),
            host: url.host_str().map(String::from),
            port: url.port(),
            path: String::from(url.path()),
            query: url.query().map(String::from),
        }),
        Err(error) => Err(error.to_string()),
    }
}

/// `String::push` adds a character at the end.
pub assume_specification[ String::push ](text: &mut String, c: char)
    ensures
        final(text)@ == old(text)@.push(c),
;

/// The text in small letters, by the rules of Unicode
pub uninterp spec fn lowercase(text: Seq<char>) -> Seq<char>;

/// Calls `str::to_lowercase`: the result depends on the text alone. Where the
/// text is ASCII, each capital letter becomes its small one and nothing else
/// changes.
#[verifier::external_body]
pub(crate) fn to_lowercase(text: &str) -> (result: String)
    ensures
        result@ == lowercase(text@),
        is_ascii_chars(text@) ==> result@ == text@.map_values(|c: char| ascii_lower(c)),
{
    text.to_lowercase()
}

/// The incremental UTF-8 decoder of the `utf8parse` crate
#[verifier::external_type_specification]
#[verifier::external_body]
pub struct ExParser(utf8parse::Parser);

/// The bytes that a decoder holds of a character that it has not seen the end of
pub uninterp spec fn unfinished(parser: utf8parse::Parser) -> Seq<u8>;

/// What one byte more makes of the bytes that a decoder holds
pub enum Decoded {
    /// The start of a character
    Pending,
    /// A character
    Codepoint(char),
    /// Nothing that can become a character
    Invalid,
}

/// Takes down what the decoder makes of a byte
pub struct CodepointReceiver {
    /// What it was told last
    pub decoded: Decoded,
}

impl utf8parse::Receiver for CodepointReceiver {
    /// The bytes are a character
    fn codepoint(&mut self, c: char)
        ensures
            final(self).decoded == Decoded::Codepoint(c),
    {
        self.decoded = Decoded::Codepoint(c);
    }

    /// The bytes cannot become a character
    fn invalid_sequence(&mut self)
        ensures
            final(self).decoded == Decoded::Invalid,
    {
        self.decoded = Decoded::Invalid;
    }
}

/// Calls `utf8parse::Parser::new`: the decoder holds nothing yet.
#[verifier::external_body]
pub(crate) fn new_parser() -> (parser: utf8parse::Parser)
    ensures
        unfinished(parser) == Seq::<u8>::empty(),
{
    utf8parse::Parser::new()
}

/// Calls `utf8parse::Parser::advance`. The byte joins those that the decoder
/// holds: where they now encode a character the receiver is told which, where
/// they are the start of one the decoder keeps them and the receiver is told
/// nothing, and otherwise the receiver is told that they are invalid.
#[verifier::external_body]
pub(crate) fn advance_parser(parser: &mut utf8parse::Parser, byte: u8) -> (decoded: Decoded)
    ensures
        ({
            let seen = unfinished(*old(parser)).push(byte);
            let kept = unfinished(*final(parser));
            match decoded {
                Decoded::Codepoint(c) => char_bytes(c) == seen && kept == Seq::<u8>::empty(),
                Decoded::Pending => !is_char(seen) && begins_char(seen) && kept == seen,
                Decoded::Invalid => !is_char(seen) && !begins_char(seen) && kept == Seq::<
                    u8,
                >::empty(),
            }
        }),
{
    let mut receiver = CodepointReceiver { decoded: Decoded::Pending };
    parser.advance(&mut receiver, byte);
    receiver.decoded
}

/// Calls `base64::Engine::encode` of the engine `STANDARD`: the standard alphabet,
/// with padding. It panics where the length of the result overflows; the bound is
/// far below that.
#[verifier::external_body]
pub(crate) fn base64_encode(bytes: &[u8]) -> (text: String)
    requires
        bytes@.len() <= 0x1000_0000,
    ensures
        text@ == base64_text(bytes@),
{
    base64::engine::general_purpose::STANDARD.encode(bytes)
}

/// The SHA-1 digest of the bytes
pub uninterp spec fn sha1_digest(bytes: Seq<u8>) -> Seq<u8>;

/// Calls `sha1_smol::Sha1::from`, `Sha1::digest` and `Digest::bytes`: the 20 bytes
/// depend on the input alone. The length in bits must fit 64 of them, or its
/// computation overflows.
#[verifier::external_body]
pub(crate) fn sha1(bytes: &[u8]) -> (digest: [u8; 20])
    requires
        bytes@.len() < 0x2000_0000_0000_0000,
    ensures
        digest@ == sha1_digest(bytes@),
{
    sha1_smol::Sha1::from(bytes).digest().bytes()
}

} // verus!
