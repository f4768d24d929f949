//! Messages, owned and borrowed.

use crate::error::{Error, ErrorModel, Utf8Error};
use crate::frame::Opcode;
use crate::outside::str_from_utf8;
use vstd::prelude::*;
use vstd::slice::slice_subrange;
use vstd::utf8::{decode_utf8, encode_utf8, valid_utf8};

verus! {

/// What a message is, owned or borrowed
///
/// A close message is the bytes of its payload, two of status and then the
/// reason, or nothing at all.
pub enum MessageModel {
    Text(Seq<char>),
    Binary(Seq<u8>),
    Ping(Seq<u8>),
    Pong(Seq<u8>),
    Close(Option<Seq<u8>>),
}

impl MessageModel {
    /// The opcode of the frame that carries the message, or of its first
    /// fragment
    pub open spec fn opcode(self) -> Opcode {
        match self {
            MessageModel::Text(_) => Opcode::Text,
            MessageModel::Binary(_) => Opcode::Binary,
            MessageModel::Ping(_) => Opcode::Ping,
            MessageModel::Pong(_) => Opcode::Pong,
            MessageModel::Close(_) => Opcode::Close,
        }
    }

    /// The bytes that the message puts into its frames
    pub open spec fn payload(self) -> Seq<u8> {
        match self {
            MessageModel::Text(text) => encode_utf8(text),
            MessageModel::Binary(data) => data,
            MessageModel::Ping(data) => data,
            MessageModel::Pong(data) => data,
            MessageModel::Close(Some(bytes)) => bytes,
            MessageModel::Close(None) => seq![],
        }
    }

    /// The message read as text
    pub open spec fn text(self) -> Result<Seq<char>, Utf8Error> {
        match self {
            MessageModel::Text(text) => Ok(text),
            MessageModel::Binary(data) => utf8_text(data, Utf8Error::TextMessage),
            MessageModel::Ping(data) => utf8_text(data, Utf8Error::TextMessage),
            MessageModel::Pong(data) => utf8_text(data, Utf8Error::TextMessage),
            MessageModel::Close(Some(bytes)) => utf8_text(bytes.skip(2), Utf8Error::CloseReason),
            MessageModel::Close(None) => Ok(seq![]),
        }
    }

    /// The message with a ping turned into the pong that answers it
    pub open spec fn pong(self) -> MessageModel {
        match self {
            MessageModel::Ping(data) => MessageModel::Pong(data),
            _ => self,
        }
    }
}

/// The text that the bytes encode, or `error` if they encode none
pub open spec fn utf8_text(bytes: Seq<u8>, error: Utf8Error) -> Result<Seq<char>, Utf8Error> {
    if valid_utf8(bytes) {
        Ok(decode_utf8(bytes))
    } else {
        Err(error)
    }
}

/// The message that a close frame with the given payload stands for
pub open spec fn close_message(payload: Seq<u8>) -> MessageModel {
    if payload.len() < 2 {
        MessageModel::Close(None)
    } else {
        MessageModel::Close(Some(payload))
    }
}

/// Whether a text result is what the model says
pub open spec fn is_text_result(
    result: Result<&str, Error>,
    model: Result<Seq<char>, Utf8Error>,
) -> bool {
    match (result, model) {
        (Ok(text), Ok(chars)) => text@ == chars,
        (Err(error), Err(utf8)) => error@ == ErrorModel::Utf8(utf8),
        _ => false,
    }
}

/// The value from a close message
#[derive(Debug, PartialEq)]
pub struct Close {
    bytes: Vec<u8>,
}

impl View for Close {
    type V = Seq<u8>;

    /// The payload of the close message
    closed spec fn view(&self) -> Seq<u8> {
        self.bytes@
    }
}

impl Close {
    /// A close message has room for a status
    #[verifier::type_invariant]
    spec fn has_status(self) -> bool {
        self.bytes@.len() >= 2
    }

    /// Status of a close message
    pub fn status(&self) -> (status: u16)
        ensures
            self@.len() >= 2,
            status == self@[0] * 0x100 + self@[1],
    {
        proof {
            use_type_invariant(self);
        }
        self.bytes[0] as u16 * 0x100 + self.bytes[1] as u16
    }

    /// The reason the websocket was closed
    pub fn reason(&self) -> (reason: Result<&str, Error>)
        ensures
            self@.len() >= 2,
            is_text_result(reason, utf8_text(self@.skip(2), Utf8Error::CloseReason)),
    {
        proof {
            use_type_invariant(self);
            assert(self@.skip(2) =~= self@.subrange(2, self@.len() as int));
        }
        match str_from_utf8(slice_subrange(self.bytes.as_slice(), 2, self.bytes.len())) {
            Some(text) => Ok(text),
            None => Err(Error::Utf8(Utf8Error::CloseReason)),
        }
    }
}

/// A reference to a websocket message
///
/// Used to prevent needless data copying. A type implementing [`AsMessageRef`]
/// is passed to [`WebSocket::write`](crate::WebSocket::write), this may be
/// `MessageRef` or [`Message`].
#[derive(Debug, Clone, Copy, PartialEq)]
pub enum MessageRef<'data> {
    /// A (UTF-8) text message
    Text(&'data str),
    /// A binary message
    Binary(&'data [u8]),
    /// A ping message
    ///
    /// Sending a [`MessageRef::Ping`] should result in
    /// [`WebSocket::read`](crate::WebSocket::read) eventually returning a
    /// [`Message::Pong`].
    Ping(&'data [u8]),
    /// A pong message
    Pong(&'data [u8]),
    /// A close message
    ///
    /// Sending [`MessageRef::Close`] (or [`Message::Close`]) will cause the
    /// websocket to be in a closed state. No further messages can be sent; an
    /// attempt to do so will return [`Error::WasClosed`]. This is equivalent to
    /// calling [`WebSocket::close`](crate::WebSocket::close).
    Close(Option<&'data Close>),
}

impl<'data> View for MessageRef<'data> {
    type V = MessageModel;

    open spec fn view(&self) -> MessageModel {
        match *self {
            MessageRef::Text(text) => MessageModel::Text(text@),
            MessageRef::Binary(data) => MessageModel::Binary(data@),
            MessageRef::Ping(data) => MessageModel::Ping(data@),
            MessageRef::Pong(data) => MessageModel::Pong(data@),
            MessageRef::Close(Some(close)) => MessageModel::Close(Some(close@)),
            MessageRef::Close(None) => MessageModel::Close(None),
        }
    }
}

impl<'data> MessageRef<'data> {
    /// The opcode of the frame that carries the message, or of its first
    /// fragment
    pub fn opcode(&self) -> (opcode: Opcode)
        ensures
            opcode == self@.opcode(),
    {
        match self {
            MessageRef::Text(_) => Opcode::Text,
            MessageRef::Binary(_) => Opcode::Binary,
            MessageRef::Ping(_) => Opcode::Ping,
            MessageRef::Pong(_) => Opcode::Pong,
            MessageRef::Close(_) => Opcode::Close,
        }
    }

    /// The bytes that the message puts into its frames
    pub fn payload(&self) -> (payload: &[u8])
        ensures
            payload@ == self@.payload(),
    {
        match self {
            MessageRef::Text(text) => text.as_bytes(),
            MessageRef::Binary(data) => data,
            MessageRef::Ping(data) => data,
            MessageRef::Pong(data) => data,
            MessageRef::Close(Some(close)) => close.bytes.as_slice(),
            MessageRef::Close(None) => &[],
        }
    }

    /// Interpret the message as a [`str`]
    ///
    /// - For [`MessageRef::Text`], return the text
    /// - For [`MessageRef::Binary`], [`MessageRef::Ping`], [`MessageRef::Pong`]
    ///   - If data is not valid UTF-8, return [`Utf8Error::TextMessage`]
    ///   - If the data is UTF-8, return the data as UTF-8
    /// - Variant [`MessageRef::Close`]
    ///   - If the close reason is not valid UTF-8, return [`Utf8Error::CloseReason`]
    ///   - If the close reason is UTF-8, return the reason as UTF-8
    pub fn as_str(&self) -> (text: Result<&'data str, Error>)
        ensures
            is_text_result(text, self@.text()),
    {
        match self {
            MessageRef::Text(text) => Ok(text),
            MessageRef::Binary(data) | MessageRef::Ping(data) | MessageRef::Pong(data) => {
                match str_from_utf8(data) {
                    Some(text) => Ok(text),
                    None => Err(Error::Utf8(Utf8Error::TextMessage)),
                }
            },
            MessageRef::Close(Some(close)) => close.reason(),
            MessageRef::Close(None) => {
                proof {
                    reveal_strlit("");
                    assert(""@ =~= seq![]);
                }
                Ok("")
            },
        }
    }

    /// Extract text from [`MessageRef::Text`]
    ///
    /// If the message is [`MessageRef::Text`], return the inner `&str`.
    pub fn as_text(&self) -> (text: Option<&'data str>)
        ensures
            match self@ {
                MessageModel::Text(chars) => text matches Some(t) && t@ == chars,
                _ => text is None,
            },
    {
        match self {
            MessageRef::Text(text) => Some(text),
            _ => None,
        }
    }

    /// Return `true` if the message is [`MessageRef::Text`]
    pub fn is_text(&self) -> (result: bool)
        ensures
            result <==> self@ is Text,
    {
        matches!(self, MessageRef::Text(_))
    }

    /// Return `true` if the message is [`MessageRef::Binary`]
    pub fn is_binary(&self) -> (result: bool)
        ensures
            result <==> self@ is Binary,
    {
        matches!(self, MessageRef::Binary(_))
    }

    /// Return `true` if the message is [`MessageRef::Ping`]
    pub fn is_ping(&self) -> (result: bool)
        ensures
            result <==> self@ is Ping,
    {
        matches!(self, MessageRef::Ping(_))
    }

    /// Return `true` if the message is [`MessageRef::Pong`]
    pub fn is_pong(&self) -> (result: bool)
        ensures
            result <==> self@ is Pong,
    {
        matches!(self, MessageRef::Pong(_))
    }

    /// Return `true` if the message is [`MessageRef::Close`]
    pub fn is_close(&self) -> (result: bool)
        ensures
            result <==> self@ is Close,
    {
        matches!(self, MessageRef::Close(_))
    }

    /// Transform a [`MessageRef::Ping`] into [`MessageRef::Pong`]
    pub fn pong(&self) -> (answer: Self)
        ensures
            answer@ == self@.pong(),
    {
        match self {
            MessageRef::Ping(data) => MessageRef::Pong(data),
            _ => *self,
        }
    }
}

/// An owned websocket message
///
/// Essentially equivalent to [`MessageRef`]. This type is returned by
/// [`WebSocket::read`](crate::WebSocket::read).
#[derive(Debug)]
pub enum Message {
    /// A (UTF-8) text message
    Text(String),
    /// A binary message
    Binary(Vec<u8>),
    /// A ping message
    ///
    /// Sending a [`Message::Ping`] should result in
    /// [`WebSocket::read`](crate::WebSocket::read) eventually returning a
    /// [`Message::Pong`].
    Ping(Vec<u8>),
    /// A pong message
    Pong(Vec<u8>),
    /// A close message
    ///
    /// Sending [`Message::Close`] will cause the websocket to be in a closed
    /// state. No further messages can be sent; an attempt to do so will return
    /// [`Error::WasClosed`]. This is equivalent to calling
    /// [`WebSocket::close`](crate::WebSocket::close).
    Close(Option<Close>),
}

impl View for Message {
    type V = MessageModel;

    open spec fn view(&self) -> MessageModel {
        match *self {
            Message::Text(text) => MessageModel::Text(text@),
            Message::Binary(data) => MessageModel::Binary(data@),
            Message::Ping(data) => MessageModel::Ping(data@),
            Message::Pong(data) => MessageModel::Pong(data@),
            Message::Close(Some(close)) => MessageModel::Close(Some(close@)),
            Message::Close(None) => MessageModel::Close(None),
        }
    }
}

impl Message {
    /// The message of a close frame with the given payload
    ///
    /// A payload too short for a status is dropped.
    pub fn close(payload: Vec<u8>) -> (message: Message)
        ensures
            message@ == close_message(payload@),
    {
        if payload.len() < 2 {
            Message::Close(None)
        } else {
            Message::Close(Some(Close { bytes: payload }))
        }
    }

    /// Borrow the message
    pub fn as_ref(&self) -> (message: MessageRef<'_>)
        ensures
            message@ == self@,
    {
        match self {
            Message::Text(text) => MessageRef::Text(text.as_str()),
            Message::Binary(data) => MessageRef::Binary(data.as_slice()),
            Message::Ping(data) => MessageRef::Ping(data.as_slice()),
            Message::Pong(data) => MessageRef::Pong(data.as_slice()),
            Message::Close(close) => MessageRef::Close(close.as_ref()),
        }
    }

    /// Interpret the message as a [`str`]
    ///
    /// Equivalent to [`MessageRef::as_str`].
    pub fn as_str(&self) -> (text: Result<&str, Error>)
        ensures
            is_text_result(text, self@.text()),
    {
        self.as_ref().as_str()
    }

    /// Extract text from [`Message::Text`]
    ///
    /// Equivalent to [`MessageRef::as_text`]
    pub fn as_text(&self) -> (text: Option<&str>)
        ensures
            match self@ {
                MessageModel::Text(chars) => text matches Some(t) && t@ == chars,
                _ => text is None,
            },
    {
        self.as_ref().as_text()
    }

    /// Return `true` if the message is [`Message::Text`]
    pub fn is_text(&self) -> (result: bool)
        ensures
            result <==> self@ is Text,
    {
        self.as_ref().is_text()
    }

    /// Return `true` if the message is [`Message::Binary`]
    pub fn is_binary(&self) -> (result: bool)
        ensures
            result <==> self@ is Binary,
    {
        self.as_ref().is_binary()
    }

    /// Return `true` if the message is [`Message::Ping`]
    pub fn is_ping(&self) -> (result: bool)
        ensures
            result <==> self@ is Ping,
    {
        self.as_ref().is_ping()
    }

    /// Return `true` if the message is [`Message::Pong`]
    pub fn is_pong(&self) -> (result: bool)
        ensures
            result <==> self@ is Pong,
    {
        self.as_ref().is_pong()
    }

    /// Return `true` if the message is [`Message::Close`]
    pub fn is_close(&self) -> (result: bool)
        ensures
            result <==> self@ is Close,
    {
        self.as_ref().is_close()
    }

    /// Transform a [`Message::Ping`] into [`MessageRef::Pong`]
    pub fn pong(&self) -> (answer: MessageRef<'_>)
        ensures
            answer@ == self@.pong(),
    {
        self.as_ref().pong()
    }
}

/// Create a [`MessageRef`] from a type
pub trait AsMessageRef<'data>: Sized {
    /// The message that the value stands for
    spec fn message(self) -> MessageModel;

    /// Create the [`MessageRef`]
    fn as_message_ref(self) -> (message: MessageRef<'data>)
        ensures
            message@ == self.message(),
    ;
}

impl<'data> AsMessageRef<'data> for &'data Message {
    open spec fn message(self) -> MessageModel {
        self@
    }

    fn as_message_ref(self) -> (message: MessageRef<'data>) {
        self.as_ref()
    }
}

impl<'data> AsMessageRef<'data> for MessageRef<'data> {
    open spec fn message(self) -> MessageModel {
        self@
    }

    fn as_message_ref(self) -> (message: MessageRef<'data>) {
        self
    }
}

} // verus!
