//! A WebSocket implementation whose protocol core is verified.
//!
//! The crate performs no I/O. A [`WebSocket`] is handed the bytes that its
//! transport received and hands back the bytes that its transport must send;
//! everything between the two (framing, masking, fragmentation, the opening
//! handshake, the life cycle of a connection) is proved against the contracts
//! stated beside the code.

pub mod answer_laws;
pub mod encoding;
pub mod error;
pub mod frame;
pub mod handshake;
pub mod handshake_laws;
pub mod head;
pub mod headers;
pub mod laws;
pub mod message;
pub mod number;
pub mod outside;
pub mod reader;
pub mod text;
pub mod text_laws;
pub mod url;
pub mod websocket;
pub mod wire_laws;

pub use error::{Error, FrameError, HandshakeError, IoError, Utf8Error};
pub use handshake::{
    Acceptance, ClientHandshake, ClientRequest, ClientStep, ServerHandshake, ServerStep,
};
pub use message::{AsMessageRef, Close, Message, MessageRef};
pub use url::Url;
pub use websocket::{
    Role, WebSocket, DEFAULT_FRAGMENT_SIZE, DEFAULT_MAX_HANDSHAKE_LEN, DEFAULT_MAX_PAYLOAD_LEN,
};
