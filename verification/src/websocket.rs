//! The life of a connection: which messages may be sent, and which message the
//! received frames make up.

use crate::error::{Error, ErrorModel, FrameError, IoError, Utf8Error};
use crate::frame::{
    frame_parse, frames_bytes, message_bytes, message_frames, Frame, FrameModel, FrameParse,
    FrameStream, Opcode,
};
use crate::handshake::{
    self, request_refusal, server_progress, Acceptance, ClientRequest, ServerHandshake, ServerModel,
    ServerProgress,
};
use crate::message::{close_message, AsMessageRef, Message, MessageModel, MessageRef};
use crate::number::be_value;
use crate::outside::{random_bytes, string_from_utf8};
use crate::url::{Url, UrlModel};
use vstd::prelude::*;
use vstd::utf8::{decode_utf8, valid_utf8};

verus! {

/// The default maximum handshake length, in bytes
///
/// If the HTTP handshake is larger than this amount, the data will be silently
/// truncated.
pub const DEFAULT_MAX_HANDSHAKE_LEN: usize = 8192;

/// The default maximum payload length, in bytes
///
/// 268 MB.
pub const DEFAULT_MAX_PAYLOAD_LEN: usize = 0x0fffffff;

/// The default fragmentation size
///
/// Messages longer than this will be split into multiple frames.
pub const DEFAULT_FRAGMENT_SIZE: usize = DEFAULT_MAX_PAYLOAD_LEN;

/// A websocket role
#[derive(Clone)]
pub enum Role {
    /// The client
    ///
    /// If the role of a [`WebSocket`] is [`Role::Client`], calling
    /// [`WebSocket::client_handshake`] will begin a websocket handshake.
    Client {
        /// The URL of the request made in [`WebSocket::client`]
        url: Url,
    },
    /// The server
    ///
    /// If the role of a [`WebSocket`] is [`Role::Server`], calling
    /// [`WebSocket::server_handshake`] will listen for a websocket handshake,
    /// which ends with the URL requested by the client.
    Server,
}

/// What a [`Role`] says
pub enum RoleModel {
    Client { url: UrlModel },
    Server,
}

impl View for Role {
    type V = RoleModel;

    open spec fn view(&self) -> RoleModel {
        match *self {
            Role::Client { url } => RoleModel::Client { url: url@ },
            Role::Server => RoleModel::Server,
        }
    }
}

/// What a message made of fragments holds
#[derive(Debug, Clone, Copy, PartialEq, Eq, Structural)]
pub enum DataKind {
    /// Text
    Text,
    /// Bytes
    Binary,
}

/// Where a connection is in its life
pub enum Phase {
    /// The transport has ended
    Closed,
    /// No handshake has taken place yet
    NoHandshake,
    /// Between two messages
    Open,
    /// Fragments of a message have been read, and nothing else since the first
    Fragmented { kind: DataKind, payload: Seq<u8> },
    /// Fragments of a message have been read, and a ping or pong among them
    PartialRead { kind: DataKind, payload: Seq<u8> },
}

/// What reading comes to
pub enum ReadOutcome {
    /// There is no message yet
    NeedData,
    /// A message
    Deliver(MessageModel),
    /// An error
    Fail(ErrorModel),
}

/// What a whole message of the given kind and payload comes to
pub open spec fn finished(kind: DataKind, payload: Seq<u8>, error: Utf8Error) -> ReadOutcome {
    match kind {
        DataKind::Binary => ReadOutcome::Deliver(MessageModel::Binary(payload)),
        DataKind::Text => if valid_utf8(payload) {
            ReadOutcome::Deliver(MessageModel::Text(decode_utf8(payload)))
        } else {
            ReadOutcome::Fail(ErrorModel::Utf8(error))
        },
    }
}

/// What a control frame comes to
pub open spec fn control_message(frame: FrameModel) -> MessageModel {
    match frame.opcode {
        Opcode::Ping => MessageModel::Ping(frame.payload),
        Opcode::Pong => MessageModel::Pong(frame.payload),
        _ => close_message(frame.payload),
    }
}

/// What a frame does to a connection, and what reading it comes to
pub open spec fn on_frame(phase: Phase, frame: FrameModel) -> (Phase, ReadOutcome) {
    match phase {
        Phase::Closed => (phase, ReadOutcome::Fail(ErrorModel::WasClosed)),
        Phase::NoHandshake => (phase, ReadOutcome::Fail(ErrorModel::NoHandshake)),
        Phase::Open => if frame.opcode.control() {
            (phase, ReadOutcome::Deliver(control_message(frame)))
        } else if frame.opcode is Text || frame.opcode is Binary {
            let kind = if frame.opcode is Text {
                DataKind::Text
            } else {
                DataKind::Binary
            };
            if frame.fin {
                (phase, finished(kind, frame.payload, Utf8Error::TextMessage))
            } else {
                (Phase::Fragmented { kind, payload: frame.payload }, ReadOutcome::NeedData)
            }
        } else {
            (phase, ReadOutcome::Fail(ErrorModel::Frame(FrameError::UnexpectedOpcodeOpen)))
        },
        Phase::Fragmented { kind, payload } => match frame.opcode {
            Opcode::Continuation => if frame.fin {
                (Phase::Open, finished(kind, payload + frame.payload, Utf8Error::TextMessage))
            } else {
                (
                    Phase::Fragmented { kind, payload: payload + frame.payload },
                    ReadOutcome::NeedData,
                )
            },
            // A ping or pong is handed over at once; the message waits for it.
            Opcode::Ping | Opcode::Pong => (
                Phase::PartialRead { kind, payload },
                ReadOutcome::Deliver(control_message(frame)),
            ),
            Opcode::Close => (Phase::Open, ReadOutcome::Deliver(control_message(frame))),
            _ => (
                Phase::Open,
                ReadOutcome::Fail(ErrorModel::Frame(FrameError::UnexpectedOpcodeOpenNonFinal)),
            ),
        },
        Phase::PartialRead { kind, payload } => match frame.opcode {
            Opcode::Continuation => if frame.fin {
                (
                    Phase::Open,
                    finished(kind, payload + frame.payload, Utf8Error::TextMessagePartialRead),
                )
            } else {
                (
                    Phase::PartialRead { kind, payload: payload + frame.payload },
                    ReadOutcome::NeedData,
                )
            },
            Opcode::Ping | Opcode::Pong | Opcode::Close => (
                phase,
                ReadOutcome::Deliver(control_message(frame)),
            ),
            _ => (
                phase,
                ReadOutcome::Fail(ErrorModel::Frame(FrameError::UnexpectedOpcodePartialRead)),
            ),
        },
    }
}

/// The phase after a failure of the stream itself: fragments that nothing has
/// interrupted are given up
pub open spec fn after_failure(phase: Phase) -> Phase {
    match phase {
        Phase::Fragmented { .. } => Phase::Open,
        _ => phase,
    }
}

/// What reading does to a connection and its received bytes
pub struct Reading {
    pub phase: Phase,
    pub received: Seq<u8>,
    pub outcome: ReadOutcome,
}

/// What reading the received bytes comes to: frame after frame is taken until
/// there is a message, an error, or no whole frame
pub open spec fn reading(phase: Phase, received: Seq<u8>, max_len: nat) -> Reading
    decreases received.len(),
{
    match phase {
        Phase::Closed => Reading {
            phase,
            received,
            outcome: ReadOutcome::Fail(ErrorModel::WasClosed),
        },
        Phase::NoHandshake => Reading {
            phase,
            received,
            outcome: ReadOutcome::Fail(ErrorModel::NoHandshake),
        },
        _ => match frame_parse(received, max_len) {
            FrameParse::Incomplete => Reading { phase, received, outcome: ReadOutcome::NeedData },
            FrameParse::Malformed(error) => Reading {
                phase: after_failure(phase),
                received,
                outcome: ReadOutcome::Fail(ErrorModel::Frame(error)),
            },
            FrameParse::Complete { frame, size } => {
                let (next, outcome) = on_frame(phase, frame);
                let rest = received.skip(size as int);
                if outcome is NeedData {
                    reading(next, rest, max_len)
                } else {
                    Reading { phase: next, received: rest, outcome }
                }
            },
        },
    }
}

/// Reading neither ends a connection nor takes back its handshake.
pub proof fn lemma_reading_phase(phase: Phase, received: Seq<u8>, max_len: nat)
    ensures
        reading(phase, received, max_len).phase is Closed <==> phase is Closed,
        reading(phase, received, max_len).phase is NoHandshake <==> phase is NoHandshake,
    decreases received.len(),
{
    if let FrameParse::Complete { frame, size } = frame_parse(received, max_len) {
        lemma_reading_phase(on_frame(phase, frame).0, received.skip(size as int), max_len);
    }
}

/// Whether the result of reading is what the model says
pub open spec fn is_read_result(
    result: Result<Option<Message>, Error>,
    outcome: ReadOutcome,
) -> bool {
    match outcome {
        ReadOutcome::NeedData => result matches Ok(None),
        ReadOutcome::Deliver(message) => result matches Ok(Some(m)) && m@ == message,
        ReadOutcome::Fail(error) => result matches Err(e) && e@ == error,
    }
}

/// State of a [`WebSocket`]
#[derive(Debug)]
enum State {
    Closed,
    NoHandshake,
    Open,
    Fragmented { kind: DataKind, payload: Vec<u8> },
    PartialRead { kind: DataKind, payload: Vec<u8> },
}

impl View for State {
    type V = Phase;

    closed spec fn view(&self) -> Phase {
        match *self {
            State::Closed => Phase::Closed,
            State::NoHandshake => Phase::NoHandshake,
            State::Open => Phase::Open,
            State::Fragmented { kind, payload } => Phase::Fragmented { kind, payload: payload@ },
            State::PartialRead { kind, payload } => Phase::PartialRead { kind, payload: payload@ },
        }
    }
}

/// Make a message of its whole payload
fn finish(kind: DataKind, payload: Vec<u8>, error: Utf8Error) -> (result: Result<
    Option<Message>,
    Error,
>)
    ensures
        is_read_result(result, finished(kind, payload@, error)),
{
    match kind {
        DataKind::Binary => Ok(Some(Message::Binary(payload))),
        DataKind::Text => match string_from_utf8(payload) {
            Some(text) => Ok(Some(Message::Text(text))),
            None => Err(Error::Utf8(error)),
        },
    }
}

impl State {
    /// Take in a frame
    fn on_frame(self, frame: Frame) -> (result: (State, Result<Option<Message>, Error>))
        ensures
            result.0@ == on_frame(self@, frame@).0,
            is_read_result(result.1, on_frame(self@, frame@).1),
    {
        let opcode: Opcode = frame.opcode();
        let fin: bool = frame.fin();
        let mut data: Vec<u8> = frame.payload();
        match self {
            State::Closed => (State::Closed, Err(Error::WasClosed)),
            State::NoHandshake => (State::NoHandshake, Err(Error::NoHandshake)),
            State::Open => {
                let kind: DataKind = match opcode {
                    Opcode::Text => DataKind::Text,
                    Opcode::Binary => DataKind::Binary,
                    Opcode::Ping => return (State::Open, Ok(Some(Message::Ping(data)))),
                    Opcode::Pong => return (State::Open, Ok(Some(Message::Pong(data)))),
                    Opcode::Close => return (State::Open, Ok(Some(Message::close(data)))),
                    _ => return (
                        State::Open,
                        Err(Error::Frame(FrameError::UnexpectedOpcodeOpen)),
                    ),
                };
                if fin {
                    (State::Open, finish(kind, data, Utf8Error::TextMessage))
                } else {
                    (State::Fragmented { kind, payload: data }, Ok(None))
                }
            },
            State::Fragmented { kind, mut payload } => match opcode {
                Opcode::Continuation => {
                    payload.append(&mut data);
                    if fin {
                        (State::Open, finish(kind, payload, Utf8Error::TextMessage))
                    } else {
                        (State::Fragmented { kind, payload }, Ok(None))
                    }
                },
                Opcode::Ping => (
                    State::PartialRead { kind, payload },
                    Ok(Some(Message::Ping(data))),
                ),
                Opcode::Pong => (
                    State::PartialRead { kind, payload },
                    Ok(Some(Message::Pong(data))),
                ),
                Opcode::Close => (State::Open, Ok(Some(Message::close(data)))),
                _ => (
                    State::Open,
                    Err(Error::Frame(FrameError::UnexpectedOpcodeOpenNonFinal)),
                ),
            },
            State::PartialRead { kind, mut payload } => match opcode {
                Opcode::Continuation => {
                    payload.append(&mut data);
                    if fin {
                        (State::Open, finish(kind, payload, Utf8Error::TextMessagePartialRead))
                    } else {
                        (State::PartialRead { kind, payload }, Ok(None))
                    }
                },
                Opcode::Ping => (
                    State::PartialRead { kind, payload },
                    Ok(Some(Message::Ping(data))),
                ),
                Opcode::Pong => (
                    State::PartialRead { kind, payload },
                    Ok(Some(Message::Pong(data))),
                ),
                Opcode::Close => (
                    State::PartialRead { kind, payload },
                    Ok(Some(Message::close(data))),
                ),
                _ => (
                    State::PartialRead { kind, payload },
                    Err(Error::Frame(FrameError::UnexpectedOpcodePartialRead)),
                ),
            },
        }
    }

    /// Take in a failure of the stream itself
    fn after_failure(self) -> (state: State)
        ensures
            state@ == after_failure(self@),
    {
        match self {
            State::Fragmented { .. } => State::Open,
            state => state,
        }
    }
}

/// What a [`WebSocket`] is, apart from its transport
pub struct SocketModel {
    /// Whether the connection is under TLS
    pub secure: bool,
    /// Which end of the connection this is
    pub role: RoleModel,
    /// Where the connection is in its life
    pub phase: Phase,
    /// Whether a close message has been sent
    pub close_sent: bool,
    /// What has been received and not been read
    pub received: Seq<u8>,
    /// What masks the payloads that are sent
    pub mask_key: Option<u32>,
    pub max_handshake_len: usize,
    pub max_payload_len: usize,
    pub fragment_size: usize,
}

impl SocketModel {
    /// A fragment holds at least one byte, and nothing is sent before the
    /// handshake
    pub open spec fn wf(self) -> bool {
        &&& self.fragment_size > 0
        &&& self.close_sent ==> !(self.phase is NoHandshake)
    }
}

/// What a websocket is once its handshake has been carried out
pub open spec fn after_handshake(socket: SocketModel) -> SocketModel {
    SocketModel { phase: Phase::Open, close_sent: false, ..socket }
}

/// The answer to an attempt to use a connection, unless it can be used
pub open spec fn refusal(phase: Phase) -> Option<ErrorModel> {
    match phase {
        Phase::Closed => Some(ErrorModel::WasClosed),
        Phase::NoHandshake => Some(ErrorModel::NoHandshake),
        _ => None,
    }
}

/// The answer to an attempt to send a message, unless it can be sent
pub open spec fn send_refusal(socket: SocketModel) -> Option<ErrorModel> {
    match refusal(socket.phase) {
        Some(error) => Some(error),
        None => if socket.close_sent {
            Some(ErrorModel::WasClosed)
        } else {
            None
        },
    }
}

/// A websocket
///
/// To get a websocket connection up and running, call [`WebSocket::server`]
/// then [`WebSocket::server_handshake`], or [`WebSocket::client`] then
/// [`WebSocket::client_handshake`] to start sending and receiving [`Message`]s.
///
/// The websocket holds its transport, and leaves it alone: what
/// [`WebSocket::write`] and [`WebSocket::close`] return is to be sent over it,
/// and what it receives is to be handed to [`WebSocket::receive`].
pub struct WebSocket<Stream> {
    stream: FrameStream<Stream>,
    secure: bool,
    role: Role,
    state: State,
    close_sent: bool,
    max_handshake_len: usize,
    max_payload_len: usize,
    fragment_size: usize,
}

impl<Stream> View for WebSocket<Stream> {
    type V = SocketModel;

    closed spec fn view(&self) -> SocketModel {
        SocketModel {
            secure: self.secure,
            role: self.role@,
            phase: self.state@,
            close_sent: self.close_sent,
            received: self.stream@.received,
            mask_key: self.stream@.mask_key,
            max_handshake_len: self.max_handshake_len,
            max_payload_len: self.max_payload_len,
            fragment_size: self.fragment_size,
        }
    }
}

impl<Stream> WebSocket<Stream> {
    /// The transport
    pub closed spec fn transport(&self) -> Stream {
        self.stream@.stream
    }

    /// What every websocket keeps to
    pub open spec fn wf(&self) -> bool {
        self@.wf()
    }

    /// Whether the websocket is "secure"
    ///
    /// Returns true if the URL passed to [`WebSocket::client`] had a scheme of
    /// `wss`. Otherwise, returns the value passed to [`WebSocket::server`].
    pub fn is_secure(&self) -> (secure: bool)
        ensures
            secure == self@.secure,
    {
        self.secure
    }

    /// The role of this websocket
    pub fn role(&self) -> (role: &Role)
        ensures
            role@ == self@.role,
    {
        &self.role
    }

    /// The transport
    pub fn inner_mut(&mut self) -> (stream: &mut Stream)
        ensures
            *stream == old(self).transport(),
            final(self).transport() == *final(stream),
            final(self)@ == old(self)@,
            old(self).wf() ==> final(self).wf(),
    {
        self.stream.inner_mut()
    }

    /// Set the maximum handshake length
    ///
    /// The default value is [`DEFAULT_MAX_HANDSHAKE_LEN`].
    pub fn set_max_handshake_len(&mut self, max_handshake_len: usize)
        ensures
            final(self)@ == (SocketModel { max_handshake_len, ..old(self)@ }),
            final(self).transport() == old(self).transport(),
            old(self).wf() ==> final(self).wf(),
    {
        self.max_handshake_len = max_handshake_len;
    }

    /// Set the maximum payload length
    ///
    /// The default value is [`DEFAULT_MAX_PAYLOAD_LEN`].
    pub fn set_max_payload_len(&mut self, max_payload_len: usize)
        ensures
            final(self)@ == (SocketModel { max_payload_len, ..old(self)@ }),
            final(self).transport() == old(self).transport(),
            old(self).wf() ==> final(self).wf(),
    {
        self.max_payload_len = max_payload_len;
    }

    /// Set the fragment size
    ///
    /// Messages larger than the given fragment size will be split into multiple
    /// frames. They will still reach their destination as a single [`Message`].
    pub fn set_fragment_size(&mut self, fragment_size: usize)
        requires
            fragment_size > 0,
        ensures
            final(self)@ == (SocketModel { fragment_size, ..old(self)@ }),
            final(self).transport() == old(self).transport(),
            old(self).wf() ==> final(self).wf(),
    {
        self.fragment_size = fragment_size;
    }

    /// Create a websocket with a [`Role::Server`] role
    ///
    /// This function does not listen for a handshake. Call
    /// [`WebSocket::server_handshake`] to wait for one. Forgetting to do this
    /// will cause [`WebSocket::read`] and [`WebSocket::write`] to return
    /// [`Error::NoHandshake`].
    pub fn server(secure: bool, stream: Stream) -> (socket: Self)
        ensures
            socket.wf(),
            socket.transport() == stream,
            socket@ == (SocketModel {
                secure,
                role: RoleModel::Server,
                phase: Phase::NoHandshake,
                close_sent: false,
                received: seq![],
                mask_key: None,
                max_handshake_len: DEFAULT_MAX_HANDSHAKE_LEN,
                max_payload_len: DEFAULT_MAX_PAYLOAD_LEN,
                fragment_size: DEFAULT_FRAGMENT_SIZE,
            }),
    {
        WebSocket {
            stream: FrameStream::new(stream, None),
            secure,
            role: Role::Server,
            state: State::NoHandshake,
            close_sent: false,
            max_handshake_len: DEFAULT_MAX_HANDSHAKE_LEN,
            max_payload_len: DEFAULT_MAX_PAYLOAD_LEN,
            fragment_size: DEFAULT_FRAGMENT_SIZE,
        }
    }

    /// Create a websocket with a [`Role::Client`] role
    ///
    /// This function does not start a handshake. Call
    /// [`WebSocket::client_handshake`] to initiate one. Forgetting to do this
    /// will cause [`WebSocket::read`] and [`WebSocket::write`] to return
    /// [`Error::NoHandshake`].
    ///
    /// The mask key is random; the only error is that no random bytes can be had.
    pub fn client(url: Url, stream: Stream) -> (socket: Result<Self, Error>)
        ensures
            match socket {
                Ok(s) => exists|mask_bytes: [u8; 4]| #[trigger]
                    s.is_client_with(url@, stream, mask_bytes),
                Err(e) => e@ is GetRandom,
            },
    {
        let mut mask_bytes: [u8; 4] = [0u8; 4];
        match random_bytes(&mut mask_bytes) {
            Ok(()) => Ok(WebSocket::client_with_mask(url, stream, mask_bytes)),
            Err(error) => Err(Error::from(error)),
        }
    }

    /// Whether this is a client that has just been made, with a mask key of the
    /// given bytes, the last one first
    pub open spec fn is_client_with(
        &self,
        url: UrlModel,
        stream: Stream,
        mask_bytes: [u8; 4],
    ) -> bool {
        &&& self.wf()
        &&& self.transport() == stream
        &&& self@ == (SocketModel {
            secure: url.scheme == "wss"@,
            role: RoleModel::Client { url },
            phase: Phase::NoHandshake,
            close_sent: false,
            received: seq![],
            mask_key: Some(be_value(mask_bytes@.reverse()) as u32),
            max_handshake_len: DEFAULT_MAX_HANDSHAKE_LEN,
            max_payload_len: DEFAULT_MAX_PAYLOAD_LEN,
            fragment_size: DEFAULT_FRAGMENT_SIZE,
        })
    }

    /// Create a websocket with a [`Role::Client`] role and the given mask
    pub fn client_with_mask(url: Url, stream: Stream, mask_bytes: [u8; 4]) -> (socket: Self)
        ensures
            socket.is_client_with(url@, stream, mask_bytes),
    {
        let secure: bool = url.is_secure();
        let mask_key: u32 = mask_bytes[0] as u32 + mask_bytes[1] as u32 * 0x100
            + mask_bytes[2] as u32 * 0x1_0000 + mask_bytes[3] as u32 * 0x100_0000;
        proof {
            let bytes = mask_bytes@.reverse();
            assert(bytes.drop_last().drop_last().drop_last().drop_last() =~= seq![]);
            reveal_with_fuel(be_value, 5);
        }
        WebSocket {
            stream: FrameStream::new(stream, Some(mask_key)),
            secure,
            role: Role::Client { url },
            state: State::NoHandshake,
            close_sent: false,
            max_handshake_len: DEFAULT_MAX_HANDSHAKE_LEN,
            max_payload_len: DEFAULT_MAX_PAYLOAD_LEN,
            fragment_size: DEFAULT_FRAGMENT_SIZE,
        }
    }

    /// Pinkie promise that you've already done a handshake
    ///
    /// If you've already done a handshake, call this method rather than
    /// [`WebSocket::client_handshake`] or [`WebSocket::server_handshake`].
    pub fn skip_handshake(&mut self)
        ensures
            final(self)@ == after_handshake(old(self)@),
            final(self).transport() == old(self).transport(),
            old(self).wf() ==> final(self).wf(),
    {
        self.state = State::Open;
        self.close_sent = false;
    }

    /// Wait for a websocket handshake
    ///
    /// A websocket with a role [`Role::Server`] will read the request of a client
    /// that makes a connection, byte by byte. Once the request is accepted and
    /// the response has been sent, or it is refused, call
    /// [`WebSocket::finish_server_handshake`]. A websocket with a role
    /// [`Role::Client`] will return [`Error::IncorrectRole`].
    pub fn server_handshake(&self) -> (result: Result<ServerHandshake, Error>)
        ensures
            match self@.role {
                RoleModel::Server => match (
                    result,
                    server_progress(self@.secure, seq![], self@.max_handshake_len as nat),
                ) {
                    (Ok(handshake), ServerProgress::More) => handshake.wf() && handshake@ == (
                    ServerModel {
                        secure: self@.secure,
                        fed: seq![],
                        limit: self@.max_handshake_len as nat,
                    }),
                    (Err(e), ServerProgress::Failed(error)) => e@ == error,
                    _ => false,
                },
                RoleModel::Client { .. } => result matches Err(error) && error@
                    == ErrorModel::IncorrectRole,
            },
            self@.role is Server ==> (result is Ok <==> self@.max_handshake_len > 0),
    {
        match &self.role {
            Role::Client { .. } => Err(Error::IncorrectRole),
            Role::Server => handshake::server(self.secure, self.max_handshake_len),
        }
    }

    /// End a handshake that [`WebSocket::server_handshake`] began
    ///
    /// The websocket is open exactly when the request was accepted, and the URL
    /// that the client asked for comes back. Otherwise it stays as it is.
    pub fn finish_server_handshake(&mut self, outcome: Result<Acceptance, Error>) -> (result:
        Result<Url, Error>)
        ensures
            match old(self)@.role {
                RoleModel::Server => match outcome {
                    Ok(acceptance) => {
                        &&& result matches Ok(url) && url@ == acceptance@.url
                        &&& final(self)@ == after_handshake(old(self)@)
                    },
                    Err(error) => {
                        &&& result matches Err(e) && e@ == error@
                        &&& final(self)@ == old(self)@
                    },
                },
                RoleModel::Client { .. } => {
                    &&& result matches Err(e) && e@ == ErrorModel::IncorrectRole
                    &&& final(self)@ == old(self)@
                },
            },
            final(self).transport() == old(self).transport(),
            old(self).wf() ==> final(self).wf(),
    {
        match (&self.role, outcome) {
            (Role::Client { .. }, _) => Err(Error::IncorrectRole),
            (Role::Server, Err(error)) => Err(error),
            (Role::Server, Ok(acceptance)) => {
                self.skip_handshake();
                Ok(acceptance.url)
            },
        }
    }

    /// Initiate a websocket handshake
    ///
    /// A websocket with a role [`Role::Client`] will initiate a handshake with
    /// the URL passed to [`WebSocket::client`]. The request is to be sent, and
    /// the response to be read, byte by byte; once it completes the handshake, or
    /// fails to, call [`WebSocket::finish_client_handshake`]. A websocket with a
    /// role [`Role::Server`] will return [`Error::IncorrectRole`].
    ///
    /// The key is random. Where the URL is no reason to refuse, the only error is
    /// that no random bytes can be had.
    pub fn client_handshake(&self) -> (result: Result<ClientRequest, Error>)
        ensures
            match self@.role {
                RoleModel::Client { url } => match (result, request_refusal(url)) {
                    (Ok(request), None) => exists|key: [u8; 16]| #[trigger]
                        request.is_request_with(url, self@.max_handshake_len, key),
                    (Err(e), None) => e@ is GetRandom,
                    (Err(e), Some(error)) => e@ == error,
                    _ => false,
                },
                RoleModel::Server => result matches Err(error) && error@
                    == ErrorModel::IncorrectRole,
            },
    {
        match &self.role {
            Role::Client { url } => {
                let result: Result<ClientRequest, Error> = handshake::client(
                    url,
                    self.max_handshake_len,
                );
                proof {
                    if let Ok(request) = &result {
                        let key = choose|key: [u8; 16]| #[trigger]
                            request.is_request_with(url@, self.max_handshake_len, key);
                        assert(request.is_request_with(url@, self@.max_handshake_len, key));
                    }
                }
                result
            },
            Role::Server => Err(Error::IncorrectRole),
        }
    }

    /// End a handshake that [`WebSocket::client_handshake`] began
    ///
    /// The websocket is open exactly when the response completed the handshake.
    /// Otherwise it stays as it is.
    pub fn finish_client_handshake(&mut self, outcome: Result<(), Error>) -> (result: Result<
        (),
        Error,
    >)
        ensures
            match old(self)@.role {
                RoleModel::Client { .. } => match outcome {
                    Ok(()) => {
                        &&& result is Ok
                        &&& final(self)@ == after_handshake(old(self)@)
                    },
                    Err(error) => {
                        &&& result matches Err(e) && e@ == error@
                        &&& final(self)@ == old(self)@
                    },
                },
                RoleModel::Server => {
                    &&& result matches Err(e) && e@ == ErrorModel::IncorrectRole
                    &&& final(self)@ == old(self)@
                },
            },
            final(self).transport() == old(self).transport(),
            old(self).wf() ==> final(self).wf(),
    {
        match (&self.role, outcome) {
            (Role::Server, _) => Err(Error::IncorrectRole),
            (Role::Client { .. }, Err(error)) => Err(error),
            (Role::Client { .. }, Ok(())) => {
                self.skip_handshake();
                Ok(())
            },
        }
    }

    /// Keep bytes that the transport received, for [`WebSocket::read`]
    pub fn receive(&mut self, data: &[u8])
        ensures
            final(self)@ == (SocketModel {
                received: old(self)@.received + data@,
                ..old(self)@
            }),
            final(self).transport() == old(self).transport(),
            old(self).wf() ==> final(self).wf(),
    {
        self.stream.receive(data);
    }

    /// Read a message from the other end of this websocket
    ///
    /// `None` means that more must be received before there is a message. What
    /// has been received of it is kept, so nothing is lost by not coming back,
    /// or by coming back later.
    pub fn read(&mut self) -> (result: Result<Option<Message>, Error>)
        ensures
            ({
                let after = reading(
                    old(self)@.phase,
                    old(self)@.received,
                    old(self)@.max_payload_len as nat,
                );
                &&& is_read_result(result, after.outcome)
                &&& final(self)@ == (SocketModel {
                    phase: after.phase,
                    received: after.received,
                    ..old(self)@
                })
                &&& final(self).transport() == old(self).transport()
            }),
            old(self).wf() ==> final(self).wf(),
    {
        proof {
            lemma_reading_phase(self@.phase, self@.received, self@.max_payload_len as nat);
        }
        match &self.state {
            State::Closed => return Err(Error::WasClosed),
            State::NoHandshake => return Err(Error::NoHandshake),
            _ => {},
        }
        loop
            invariant
                !(self@.phase is Closed),
                !(self@.phase is NoHandshake),
                self@ == (SocketModel {
                    phase: self@.phase,
                    received: self@.received,
                    ..old(self)@
                }),
                self.transport() == old(self).transport(),
                reading(self@.phase, self@.received, self@.max_payload_len as nat) == reading(
                    old(self)@.phase,
                    old(self)@.received,
                    old(self)@.max_payload_len as nat,
                ),
            decreases self@.received.len(),
        {
            let ghost before = self@;
            let next: Result<Option<Frame>, Error> = self.stream.read_frame(self.max_payload_len);
            let mut state: State = State::Open;
            std::mem::swap(&mut state, &mut self.state);
            match next {
                Ok(Some(frame)) => {
                    let (after, result): (State, Result<Option<Message>, Error>) = state.on_frame(
                        frame,
                    );
                    self.state = after;
                    match result {
                        Ok(None) => {},
                        _ => return result,
                    }
                },
                Ok(None) => {
                    self.state = state;
                    return Ok(None);
                },
                Err(error) => {
                    self.state = state.after_failure();
                    return Err(error);
                },
            }
        }
    }

    /// The transport has ended while a message was awaited
    ///
    /// The websocket is closed, unless it ended in the middle of a frame.
    pub fn end_of_stream(&mut self) -> (error: Error)
        ensures
            error@ == ErrorModel::Io(IoError::UnexpectedEof),
            final(self)@ == (SocketModel {
                phase: if old(self)@.received.len() == 0 {
                    Phase::Closed
                } else {
                    after_failure(old(self)@.phase)
                },
                ..old(self)@
            }),
            final(self).transport() == old(self).transport(),
            old(self).wf() ==> final(self).wf(),
    {
        match self.stream.end_of_stream() {
            Ok(()) => {
                self.state = State::Closed;
                Error::unexpected_close()
            },
            Err(error) => {
                self.transport_failed();
                error
            },
        }
    }

    /// The transport has failed while a message was awaited
    ///
    /// Fragments of a message are given up, unless a ping or pong was among them.
    pub fn transport_failed(&mut self)
        ensures
            final(self)@ == (SocketModel { phase: after_failure(old(self)@.phase), ..old(self)@ }),
            final(self).transport() == old(self).transport(),
            old(self).wf() ==> final(self).wf(),
    {
        let mut state: State = State::Open;
        std::mem::swap(&mut state, &mut self.state);
        self.state = state.after_failure();
    }

    /// Whether messages can be read and written at all
    fn usable(&self) -> (result: Result<(), Error>)
        ensures
            match (result, refusal(self@.phase)) {
                (Ok(()), None) => true,
                (Err(e), Some(error)) => e@ == error,
                _ => false,
            },
    {
        match &self.state {
            State::Closed => Err(Error::WasClosed),
            State::NoHandshake => Err(Error::NoHandshake),
            _ => Ok(()),
        }
    }

    /// Whether a message can be sent
    fn sendable(&self) -> (result: Result<(), Error>)
        ensures
            match (result, send_refusal(self@)) {
                (Ok(()), None) => true,
                (Err(e), Some(error)) => e@ == error,
                _ => false,
            },
    {
        match self.usable() {
            Ok(()) => if self.close_sent {
                Err(Error::WasClosed)
            } else {
                Ok(())
            },
            Err(error) => Err(error),
        }
    }

    /// Write a message to the other end of the websocket
    ///
    /// The bytes that come back are to be sent over the transport. Once they
    /// hold a close message, no other message can be written.
    pub fn write<'data, M: AsMessageRef<'data>>(&mut self, message: M) -> (result: Result<
        Vec<u8>,
        Error,
    >)
        requires
            old(self).wf(),
        ensures
            match (result, send_refusal(old(self)@)) {
                (Ok(bytes), None) => {
                    &&& bytes@ == message_bytes(
                        message.message(),
                        old(self)@.fragment_size as nat,
                        old(self)@.mask_key,
                    )
                    &&& final(self)@ == (SocketModel {
                        close_sent: message.message() is Close,
                        ..old(self)@
                    })
                },
                (Err(e), Some(error)) => e@ == error && final(self)@ == old(self)@,
                _ => false,
            },
            final(self).transport() == old(self).transport(),
            old(self).wf() ==> final(self).wf(),
    {
        match self.sendable() {
            Ok(()) => {},
            Err(error) => return Err(error),
        }
        let message: MessageRef<'data> = message.as_message_ref();
        let bytes: Vec<u8> = self.stream.write_message(message, self.fragment_size);
        self.close_sent = message.is_close();
        Ok(bytes)
    }

    /// Whether messages sitting in intermediate buffers may be written out
    ///
    /// Calling this, and flushing the transport, may be necessary after calling
    /// [`WebSocket::write`].
    pub fn flush(&self) -> (result: Result<(), Error>)
        ensures
            match (result, refusal(self@.phase)) {
                (Ok(()), None) => true,
                (Err(e), Some(error)) => e@ == error,
                _ => false,
            },
    {
        self.usable()
    }

    /// Write an empty [`Message::Close`] to the other end of the websocket
    ///
    /// This method is equivalent to calling [`WebSocket::write`] with
    /// [`MessageRef::Close`], and the transport is to be flushed once the bytes
    /// have been sent.
    pub fn close(&mut self) -> (result: Result<Vec<u8>, Error>)
        ensures
            match (result, send_refusal(old(self)@)) {
                (Ok(bytes), None) => {
                    &&& bytes@ == message_bytes(
                        MessageModel::Close(None),
                        old(self)@.fragment_size as nat,
                        old(self)@.mask_key,
                    )
                    &&& final(self)@ == (SocketModel { close_sent: true, ..old(self)@ })
                },
                (Err(e), Some(error)) => e@ == error && final(self)@ == old(self)@,
                _ => false,
            },
            final(self).transport() == old(self).transport(),
            old(self).wf() ==> final(self).wf(),
    {
        match self.sendable() {
            Ok(()) => {},
            Err(error) => return Err(error),
        }
        let bytes: Vec<u8> = self.stream.write_close();
        proof {
            let frame = FrameModel { fin: true, opcode: Opcode::Close, payload: seq![] };
            let frames = message_frames(
                MessageModel::Close(None),
                self.fragment_size as nat,
            );
            assert(frames =~= seq![frame]);
            assert(frames.drop_last() =~= seq![]);
            reveal_with_fuel(frames_bytes, 2);
            assert(bytes@ =~= frames_bytes(frames, self.stream@.mask_key));
        }
        self.close_sent = true;
        Ok(bytes)
    }
}

} // verus!
