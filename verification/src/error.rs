//! The errors of the library.

use getrandom::Error as RandomError;
use vstd::prelude::*;

verus! {

/// What the error of an unexpectedly closed stream says
pub const UNEXPECTED_CLOSE: &'static str = "WebSocket unexpectedly closed";

/// Errors that may occur
#[non_exhaustive]
#[derive(Debug)]
pub enum Error {
    /// I/O error
    Io(IoError),
    /// Problem generating client mask key
    GetRandom(RandomError),
    /// Something was not valid UTF-8
    Utf8(Utf8Error),
    /// The handshake could not be completed
    Handshake(HandshakeError),
    /// A frame received was incorrect
    Frame(FrameError),
    /// A websocket was closed
    WasClosed,
    /// Called [`WebSocket::client_handshake`](crate::WebSocket::client_handshake)
    /// on a server, or
    /// [`WebSocket::server_handshake`](crate::WebSocket::server_handshake) on a
    /// client
    IncorrectRole,
    /// A handshake has not been carried out yet
    NoHandshake,
    /// A state that is never reached
    Bug(&'static str),
}

/// An I/O failure that the library itself diagnoses
///
/// Failures of the transport stay with whoever drives it.
#[derive(Debug, Clone, Copy, PartialEq, Eq, Structural)]
pub enum IoError {
    /// The stream ended where more was expected
    UnexpectedEof,
}

/// UTF-8 decoding error
#[non_exhaustive]
#[derive(Debug, Clone, Copy, PartialEq, Eq, Structural)]
pub enum Utf8Error {
    /// The reason supplied in the close message is not valid UTF-8
    CloseReason,
    /// A text message was not valid UTF-8
    TextMessage,
    /// A fragmented text message was not valid UTF-8. This should be considered
    /// identical to [`Utf8Error::TextMessage`].
    TextMessagePartialRead,
    /// The WebSocket handshake was not valid UTF-8. The request from the client
    /// or the response from the server may cause this.
    Handshake,
}

/// A WebSocket frame was not valid
#[non_exhaustive]
#[derive(Debug, Clone, Copy, PartialEq, Eq, Structural)]
pub enum FrameError {
    /// A reserved opcode was sent
    ReservedOpcode,
    /// A control frame (close, ping, pong) was fragmented
    FragmentedControl,
    /// The payload of a control frame (close, ping, pong) was more than 125
    /// bytes long
    LargeControl,
    /// A reserved bit on the frame was set
    RsvSet,
    /// The frame payload was longer than the configured maximum
    FramePayloadTooLong,
    /// The frame in its entirety was too long, regardless of the configured
    /// maximum payload length
    FrameTooLong,
    /// An unexpected opcode was received
    UnexpectedOpcodeOpen,
    /// An unexpected opcode was received, this is essentially identical to
    /// [`FrameError::UnexpectedOpcodeOpen`]
    UnexpectedOpcodeOpenNonFinal,
    /// An unexpected opcode was received, this is essentially identical to
    /// [`FrameError::UnexpectedOpcodeOpen`]
    UnexpectedOpcodePartialRead,
}

/// An error in the handshake occurred
#[non_exhaustive]
#[derive(Debug)]
pub enum HandshakeError {
    /// The HTTP request line from the client was invalid
    InvalidRequest(String),
    /// A header was missing, or its value was incorrect
    MissingOrInvalidHeader(String),
    /// The request scheme was not `ws` or `wss`
    IncorrectScheme(String),
    /// The request URL does not have a host (IP or domain name)
    NoHostInUrl,
    /// The server did not respond the way we expected
    UnexpectedResponse(String),
}

/// What an [`Error`] says, with texts as character sequences
pub enum ErrorModel {
    Io(IoError),
    GetRandom(RandomError),
    Utf8(Utf8Error),
    Handshake(HandshakeErrorModel),
    Frame(FrameError),
    WasClosed,
    IncorrectRole,
    NoHandshake,
    Bug(Seq<char>),
}

/// What a [`HandshakeError`] says, with texts as character sequences
pub enum HandshakeErrorModel {
    InvalidRequest(Seq<char>),
    MissingOrInvalidHeader(Seq<char>),
    IncorrectScheme(Seq<char>),
    NoHostInUrl,
    UnexpectedResponse(Seq<char>),
}

impl View for HandshakeError {
    type V = HandshakeErrorModel;

    open spec fn view(&self) -> HandshakeErrorModel {
        match *self {
            HandshakeError::InvalidRequest(text) => HandshakeErrorModel::InvalidRequest(text@),
            HandshakeError::MissingOrInvalidHeader(text) =>
                HandshakeErrorModel::MissingOrInvalidHeader(text@),
            HandshakeError::IncorrectScheme(text) => HandshakeErrorModel::IncorrectScheme(text@),
            HandshakeError::NoHostInUrl => HandshakeErrorModel::NoHostInUrl,
            HandshakeError::UnexpectedResponse(text) =>
                HandshakeErrorModel::UnexpectedResponse(text@),
        }
    }
}

impl View for Error {
    type V = ErrorModel;

    open spec fn view(&self) -> ErrorModel {
        match *self {
            Error::Io(error) => ErrorModel::Io(error),
            Error::GetRandom(error) => ErrorModel::GetRandom(error),
            Error::Utf8(error) => ErrorModel::Utf8(error),
            Error::Handshake(error) => ErrorModel::Handshake(error@),
            Error::Frame(error) => ErrorModel::Frame(error),
            Error::WasClosed => ErrorModel::WasClosed,
            Error::IncorrectRole => ErrorModel::IncorrectRole,
            Error::NoHandshake => ErrorModel::NoHandshake,
            Error::Bug(text) => ErrorModel::Bug(text@),
        }
    }
}

impl Error {
    /// The error of a stream that ended where a frame was expected
    pub fn unexpected_close() -> (error: Error)
        ensures
            error@ == ErrorModel::Io(IoError::UnexpectedEof),
    {
        Error::Io(IoError::UnexpectedEof)
    }
}

impl From<RandomError> for Error {
    fn from(error: RandomError) -> (result: Self) {
        Error::GetRandom(error)
    }
}

impl vstd::std_specs::convert::FromSpecImpl<RandomError> for Error {
    open spec fn obeys_from_spec() -> bool {
        true
    }

    open spec fn from_spec(error: RandomError) -> Self {
        Error::GetRandom(error)
    }
}

} // verus!
