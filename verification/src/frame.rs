//! Frames: the wire format, how a frame is cut out of a buffer, and how a
//! message is put into frames.

use crate::error::{Error, ErrorModel, FrameError, IoError};
use crate::message::{Message, MessageModel, MessageRef};
use crate::number::{
    be_bytes, be_value, lemma_be_bytes_len, lemma_be_value_bound, lemma_pow_256, push_be, read_be,
};
use crate::outside::{
    buffer_bytes, buffer_extend, buffer_split_to, buffer_with_capacity, buffered,
};
use bytes::BytesMut;
use vstd::arithmetic::div_mod::lemma_fundamental_div_mod;
use vstd::prelude::*;
use vstd::slice::{slice_subrange, slice_to_vec};

verus! {

/// Bit of the first two bytes: this frame ends its message
pub const FIN: u16 = 0b1000_0000_0000_0000;

/// Bit of the first two bytes: reserved
pub const RSV1: u16 = 0b0100_0000_0000_0000;

/// Bit of the first two bytes: reserved
pub const RSV2: u16 = 0b0010_0000_0000_0000;

/// Bit of the first two bytes: reserved
pub const RSV3: u16 = 0b0001_0000_0000_0000;

/// Bits of the first two bytes: the opcode
pub const OPCODE: u16 = 0b0000_1111_0000_0000;

/// Bit of the first two bytes: the payload is masked
pub const MASK: u16 = 0b0000_0000_1000_0000;

/// Bits of the first two bytes: the payload length, or where it is found
pub const PAYLOAD_LEN: u16 = 0b0000_0000_0111_1111;

/// The longest payload whose length stands in the first two bytes
pub const SMALL_PAYLOAD: u16 = 0b0000_0000_0111_1101;

/// The longest payload whose length stands in the first two bytes
pub const SMALL_PAYLOAD_USIZE: usize = 0b0111_1101;

/// Says that the payload length stands in the two bytes that follow
pub const EXTENDED_PAYLOAD: u16 = 0b0000_0000_0111_1110;

/// Says that the payload length stands in the eight bytes that follow
pub const BIG_EXTENDED_PAYLOAD: u16 = 0b0000_0000_0111_1111;

/// The size of what every frame starts with
pub const FIRST_SHORT_SIZE: usize = 2;

/// The size of a payload length of two bytes
pub const EXTENDED_PAYLOAD_SIZE: usize = 2;

/// The size of a payload length of eight bytes
pub const BIG_EXTENDED_PAYLOAD_SIZE: usize = 8;

/// The size of a mask key
pub const MASK_KEY_SIZE: usize = 4;

/// What a frame is for
#[derive(Debug, Clone, Copy, PartialEq, Eq, Structural)]
pub enum Opcode {
    /// The next fragment of a message
    Continuation,
    /// A text message, or its first fragment
    Text,
    /// A binary message, or its first fragment
    Binary,
    /// A close message
    Close,
    /// A ping message
    Ping,
    /// A pong message
    Pong,
    /// None of the above
    Reserved,
}

impl Opcode {
    /// The number that stands for the opcode in a frame
    pub open spec fn number(self) -> nat {
        match self {
            Opcode::Continuation => 0,
            Opcode::Text => 1,
            Opcode::Binary => 2,
            Opcode::Close => 8,
            Opcode::Ping => 9,
            Opcode::Pong => 10,
            Opcode::Reserved => 11,
        }
    }

    /// Whether frames with the opcode control the connection
    pub open spec fn control(self) -> bool {
        self is Close || self is Ping || self is Pong
    }
}

/// The opcode that a number in a frame stands for
pub open spec fn numbered_opcode(number: nat) -> Opcode {
    if number == 0 {
        Opcode::Continuation
    } else if number == 1 {
        Opcode::Text
    } else if number == 2 {
        Opcode::Binary
    } else if number == 8 {
        Opcode::Close
    } else if number == 9 {
        Opcode::Ping
    } else if number == 10 {
        Opcode::Pong
    } else {
        Opcode::Reserved
    }
}

/// Whether the frame ends its message
pub open spec fn short_fin(short: nat) -> bool {
    short / 0x8000 % 2 == 1
}

/// The three reserved bits
pub open spec fn short_reserved(short: nat) -> nat {
    short / 0x1000 % 8
}

/// What the frame is for
pub open spec fn short_opcode(short: nat) -> Opcode {
    numbered_opcode(short / 0x100 % 0x10)
}

/// Whether the payload is masked
pub open spec fn short_masked(short: nat) -> bool {
    short / 0x80 % 2 == 1
}

/// The payload length, or a number that says where it is found
pub open spec fn short_len(short: nat) -> nat {
    short % 0x80
}

/// The first two bytes of a frame, as one number
pub open spec fn first_short_value(fin: bool, opcode: Opcode, masked: bool, len: nat) -> nat {
    (if fin {
        0x8000nat
    } else {
        0
    }) + opcode.number() * 0x100 + (if masked {
        0x80nat
    } else {
        0
    }) + (if len <= 125 {
        len
    } else if len <= 0xffff {
        126
    } else {
        127
    })
}

/// The payload with the bytes of the mask key laid over it, again and again
pub open spec fn masked(payload: Seq<u8>, mask_key: u32) -> Seq<u8> {
    Seq::new(
        payload.len(),
        |i: int| payload[i] ^ be_bytes(mask_key as nat, 4)[i % 4],
    )
}

/// What a frame says: how its header is laid out and masked is not part of it
pub struct FrameModel {
    pub fin: bool,
    pub opcode: Opcode,
    pub payload: Seq<u8>,
}

/// The payload length as it stands behind the first two bytes
pub open spec fn length_bytes(len: nat) -> Seq<u8> {
    if len <= 125 {
        seq![]
    } else if len <= 0xffff {
        be_bytes(len, 2)
    } else {
        be_bytes(len, 8)
    }
}

/// The frame on the wire
pub open spec fn frame_bytes(frame: FrameModel, mask_key: Option<u32>) -> Seq<u8> {
    let len = frame.payload.len();
    be_bytes(first_short_value(frame.fin, frame.opcode, mask_key is Some, len), 2)
        + length_bytes(len) + match mask_key {
        Some(key) => be_bytes(key as nat, 4) + masked(frame.payload, key),
        None => frame.payload,
    }
}

/// What stands at the start of a buffer
pub enum FrameParse {
    /// Not yet a whole frame
    Incomplete,
    /// Nothing that can become a frame
    Malformed(FrameError),
    /// A frame of the given size
    Complete { frame: FrameModel, size: nat },
}

/// The size of the payload length behind the first two bytes
pub open spec fn length_size(short: nat) -> nat {
    if short_len(short) <= 125 {
        0
    } else if short_len(short) == 126 {
        2
    } else {
        8
    }
}

/// The size of everything before the payload
pub open spec fn header_size(short: nat) -> nat {
    2 + length_size(short) + if short_masked(short) {
        4nat
    } else {
        0
    }
}

/// What stands at the start of a buffer, for payloads of at most `max_len` bytes
pub open spec fn frame_parse(buffer: Seq<u8>, max_len: nat) -> FrameParse {
    let short = be_value(buffer.take(2));
    let opcode = short_opcode(short);
    let len_end = 2 + length_size(short) as int;
    let payload_start = header_size(short) as int;
    let payload_len = if length_size(short) == 0 {
        short_len(short)
    } else {
        be_value(buffer.subrange(2, len_end))
    };
    let end = payload_start + payload_len;
    if buffer.len() < 2 {
        FrameParse::Incomplete
    } else if opcode is Reserved {
        FrameParse::Malformed(FrameError::ReservedOpcode)
    } else if opcode.control() && !short_fin(short) {
        FrameParse::Malformed(FrameError::FragmentedControl)
    } else if opcode.control() && short_len(short) > 125 {
        FrameParse::Malformed(FrameError::LargeControl)
    } else if short_reserved(short) != 0 {
        FrameParse::Malformed(FrameError::RsvSet)
    } else if buffer.len() < payload_start {
        FrameParse::Incomplete
    } else if payload_len > max_len {
        FrameParse::Malformed(FrameError::FramePayloadTooLong)
    } else if end > usize::MAX {
        FrameParse::Malformed(FrameError::FrameTooLong)
    } else if buffer.len() < end {
        FrameParse::Incomplete
    } else {
        let payload = buffer.subrange(payload_start, end);
        FrameParse::Complete {
            frame: FrameModel {
                fin: short_fin(short),
                opcode,
                payload: if short_masked(short) {
                    masked(
                        payload,
                        be_value(buffer.subrange(len_end, len_end + 4)) as u32,
                    )
                } else {
                    payload
                },
            },
            size: end as nat,
        }
    }
}

proof fn lemma_short_bits(short: u16)
    ensures
        (short & FIN != 0) == short_fin(short as nat),
        ((short & OPCODE) >> 8) as nat == short as nat / 0x100 % 0x10,
        (short & (RSV1 | RSV2 | RSV3) != 0) == (short_reserved(short as nat) != 0),
        (short & MASK != 0) == short_masked(short as nat),
        (short & PAYLOAD_LEN) as nat == short_len(short as nat),
{
    assert((short & FIN != 0) == (short / 0x8000 % 2 == 1)) by (bit_vector);
    assert(((short & OPCODE) >> 8) == short / 0x100 % 0x10) by (bit_vector);
    assert((short & (RSV1 | RSV2 | RSV3) != 0) == (short / 0x1000 % 8 != 0)) by (bit_vector);
    assert((short & MASK != 0) == (short / 0x80 % 2 == 1)) by (bit_vector);
    assert((short & PAYLOAD_LEN) == short % 0x80) by (bit_vector);
}

/// The opcode that a number in a frame stands for
pub fn num_to_opcode(n: usize) -> (opcode: Opcode)
    ensures
        opcode == numbered_opcode(n as nat),
{
    match n {
        0 => Opcode::Continuation,
        1 => Opcode::Text,
        2 => Opcode::Binary,
        8 => Opcode::Close,
        9 => Opcode::Ping,
        10 => Opcode::Pong,
        _ => Opcode::Reserved,
    }
}

/// The opcode in the first two bytes of a frame
pub fn short_to_opcode(short: u16) -> (opcode: Opcode)
    ensures
        opcode == short_opcode(short as nat),
{
    proof {
        lemma_short_bits(short);
    }
    num_to_opcode(((short & OPCODE) >> 8) as usize)
}

/// Whether a reserved bit is set in the first two bytes of a frame
pub fn rsv_set(short: u16) -> (set: bool)
    ensures
        set == (short_reserved(short as nat) != 0),
{
    proof {
        lemma_short_bits(short);
    }
    short & (RSV1 | RSV2 | RSV3) != 0
}

impl Opcode {
    /// Whether frames with the opcode control the connection
    pub fn is_control(&self) -> (result: bool)
        ensures
            result == self.control(),
    {
        matches!(self, Opcode::Close | Opcode::Ping | Opcode::Pong)
    }

    /// The number that stands for the opcode in a frame
    fn to_number(self) -> (number: u16)
        ensures
            number == self.number(),
    {
        match self {
            Opcode::Continuation => 0,
            Opcode::Text => 1,
            Opcode::Binary => 2,
            Opcode::Close => 8,
            Opcode::Ping => 9,
            Opcode::Pong => 10,
            Opcode::Reserved => 11,
        }
    }

    /// The ping or pong message with the given payload
    pub fn ping_pong_message(&self, payload: Vec<u8>) -> (message: Result<Message, Error>)
        ensures
            match *self {
                Opcode::Ping => message matches Ok(m) && m@ == MessageModel::Ping(payload@),
                Opcode::Pong => message matches Ok(m) && m@ == MessageModel::Pong(payload@),
                _ => message matches Err(e) && e@ == ErrorModel::Bug(
                    "ping pong opcode not ping or pong?"@,
                ),
            },
    {
        match self {
            Opcode::Ping => Ok(Message::Ping(payload)),
            Opcode::Pong => Ok(Message::Pong(payload)),
            _ => Err(Error::Bug("ping pong opcode not ping or pong?")),
        }
    }
}

/// The first two bytes of a frame
pub fn first_short(fin: bool, opcode: Opcode, mask_key: Option<u32>, payload: &[u8]) -> (short: u16)
    ensures
        short == first_short_value(fin, opcode, mask_key is Some, payload@.len()),
{
    let number: u16 = opcode.to_number();
    let len: u16 = if payload.len() <= SMALL_PAYLOAD_USIZE {
        payload.len() as u16
    } else if payload.len() <= 0xffff {
        EXTENDED_PAYLOAD
    } else {
        BIG_EXTENDED_PAYLOAD
    };
    let mut short: u16 = if fin {
        FIN
    } else {
        0
    };
    let ghost start = short;
    short |= number << 8;
    short |= len;
    assert(start | (number << 8) | len == start + number * 0x100 + len && (start | (number << 8)
        | len) & 0x80 == 0) by (bit_vector)
        requires
            start == 0 || start == 0x8000,
            number <= 11,
            len <= 0x7f,
    ;
    let ghost plain = short;
    if mask_key.is_some() {
        short |= MASK;
        assert(plain | MASK == plain + 0x80) by (bit_vector)
            requires
                plain & 0x80 == 0,
        ;
    }
    short
}

/// Lay the mask key over the payload, or take it off again
pub fn unmask_payload(payload: &mut [u8], mask_key: u32)
    ensures
        final(payload)@ == masked(old(payload)@, mask_key),
{
    let mut mask_bytes: Vec<u8> = Vec::new();
    push_be(&mut mask_bytes, mask_key as u64, MASK_KEY_SIZE);
    proof {
        lemma_be_bytes_len(mask_key as nat, 4);
        assert(mask_bytes@ =~= be_bytes(mask_key as nat, 4));
    }
    let mut i: usize = 0;
    while i < payload.len()
        invariant
            i <= payload@.len(),
            payload@.len() == old(payload)@.len(),
            mask_bytes@ == be_bytes(mask_key as nat, 4),
            mask_bytes@.len() == 4,
            forall|j: int| 0 <= j < i ==> payload@[j] == masked(old(payload)@, mask_key)[j],
            forall|j: int| i <= j < payload@.len() ==> payload@[j] == old(payload)@[j],
        decreases payload@.len() - i,
    {
        let j: usize = i % 4;
        payload[i] = payload[i] ^ mask_bytes[j];
        i += 1;
    }
    proof {
        assert(payload@ =~= masked(old(payload)@, mask_key));
    }
}

/// A frame
#[derive(Debug)]
pub struct Frame {
    first_short: u16,
    payload: Vec<u8>,
}

impl View for Frame {
    type V = FrameModel;

    closed spec fn view(&self) -> FrameModel {
        FrameModel {
            fin: short_fin(self.first_short as nat),
            opcode: short_opcode(self.first_short as nat),
            payload: self.payload@,
        }
    }
}

impl Frame {
    /// Whether the frame ends its message
    pub fn fin(&self) -> (fin: bool)
        ensures
            fin == self@.fin,
    {
        proof {
            lemma_short_bits(self.first_short);
        }
        self.first_short & FIN != 0
    }

    /// The payload of the frame, without its mask
    pub fn payload(self) -> (payload: Vec<u8>)
        ensures
            payload@ == self@.payload,
    {
        self.payload
    }

    /// What the frame is for
    pub fn opcode(&self) -> (opcode: Opcode)
        ensures
            opcode == self@.opcode,
    {
        short_to_opcode(self.first_short)
    }
}

/// Whether the result of parsing is what the model says
pub open spec fn is_parse_result(result: Result<Option<Frame>, Error>, model: FrameParse) -> bool {
    match model {
        FrameParse::Incomplete => result matches Ok(None),
        FrameParse::Malformed(error) => result matches Err(e) && e@ == ErrorModel::Frame(error),
        FrameParse::Complete { frame, .. } => result matches Ok(Some(f)) && f@ == frame,
    }
}

/// What is left of a buffer once the frame at its start has been taken
pub open spec fn after_parse(buffer: Seq<u8>, model: FrameParse) -> Seq<u8> {
    match model {
        FrameParse::Complete { size, .. } => buffer.skip(size as int),
        _ => buffer,
    }
}

/// Take the frame at the start of the buffer
///
/// Where the buffer does not hold a whole frame yet, or none with a payload of
/// at most `max_len` bytes, it is left as it is.
pub fn parse_frame(buffer: &mut BytesMut, max_len: usize) -> (result: Result<Option<Frame>, Error>)
    ensures
        is_parse_result(
            result,
            frame_parse(buffered(*old(buffer)), max_len as nat),
        ),
        buffered(*final(buffer)) == after_parse(
            buffered(*old(buffer)),
            frame_parse(buffered(*old(buffer)), max_len as nat),
        ),
{
    let bytes: &[u8] = buffer_bytes(buffer);
    let ghost all = bytes@;
    if bytes.len() < FIRST_SHORT_SIZE {
        return Ok(None);
    }
    let first_short: u16 = read_be(bytes, 0, FIRST_SHORT_SIZE) as u16;
    proof {
        assert(all.take(2) =~= all.subrange(0, 2));
        lemma_be_value_bound(all.take(2));
        lemma_pow_256();
        lemma_short_bits(first_short);
    }
    let short_len: u16 = first_short & PAYLOAD_LEN;
    let payload_len_size: usize = if short_len <= SMALL_PAYLOAD {
        0
    } else if short_len == EXTENDED_PAYLOAD {
        EXTENDED_PAYLOAD_SIZE
    } else {
        BIG_EXTENDED_PAYLOAD_SIZE
    };
    let is_masked: bool = first_short & MASK != 0;
    let mask_key_size: usize = if is_masked {
        MASK_KEY_SIZE
    } else {
        0
    };
    let header_size: usize = FIRST_SHORT_SIZE + payload_len_size + mask_key_size;
    let opcode: Opcode = short_to_opcode(first_short);
    if opcode == Opcode::Reserved {
        return Err(Error::Frame(FrameError::ReservedOpcode));
    }
    if opcode.is_control() {
        if first_short & FIN == 0 {
            return Err(Error::Frame(FrameError::FragmentedControl));
        }
        if payload_len_size != 0 {
            return Err(Error::Frame(FrameError::LargeControl));
        }
    }
    if rsv_set(first_short) {
        return Err(Error::Frame(FrameError::RsvSet));
    }
    if bytes.len() < header_size {
        return Ok(None);
    }
    let payload_len: u64 = if payload_len_size == 0 {
        short_len as u64
    } else {
        read_be(bytes, FIRST_SHORT_SIZE, payload_len_size)
    };
    let mask_key: Option<u32> = if is_masked {
        proof {
            let key = all.subrange(2 + payload_len_size, 2 + payload_len_size + 4);
            lemma_be_value_bound(key);
        }
        Some(read_be(bytes, FIRST_SHORT_SIZE + payload_len_size, MASK_KEY_SIZE) as u32)
    } else {
        None
    };
    if payload_len > max_len as u64 {
        return Err(Error::Frame(FrameError::FramePayloadTooLong));
    }
    let frame_size: usize = match header_size.checked_add(payload_len as usize) {
        Some(size) => size,
        None => return Err(Error::Frame(FrameError::FrameTooLong)),
    };
    if bytes.len() < frame_size {
        return Ok(None);
    }
    let whole_frame: BytesMut = buffer_split_to(buffer, frame_size);
    let mut payload: Vec<u8> = slice_to_vec(
        slice_subrange(buffer_bytes(&whole_frame), header_size, frame_size),
    );
    proof {
        assert(payload@ =~= all.subrange(header_size as int, frame_size as int));
    }
    if let Some(key) = mask_key {
        unmask_payload(payload.as_mut_slice(), key);
    }
    Ok(Some(Frame { first_short, payload }))
}

/// How many fragments of the given size it takes to hold `len` bytes
pub open spec fn fragment_count(len: nat, fragment_size: nat) -> nat
    recommends
        fragment_size > 0,
{
    ((len + fragment_size - 1) / fragment_size as int) as nat
}

/// Fragment number `i` of a payload
pub open spec fn fragment(payload: Seq<u8>, fragment_size: nat, i: int) -> Seq<u8> {
    let start = i * fragment_size;
    let end = start + fragment_size;
    payload.subrange(
        start,
        if end < payload.len() {
            end
        } else {
            payload.len() as int
        },
    )
}

/// The frames that carry a message
///
/// A message longer than the fragment size is split, unless it controls the
/// connection. The first fragment has the opcode of the message, the others
/// continue it, and the last one ends it.
pub open spec fn message_frames(message: MessageModel, fragment_size: nat) -> Seq<FrameModel> {
    let opcode = message.opcode();
    let payload = message.payload();
    let count = fragment_count(payload.len(), fragment_size);
    if payload.len() <= fragment_size || opcode.control() {
        seq![FrameModel { fin: true, opcode, payload }]
    } else {
        Seq::new(
            count,
            |i: int|
                FrameModel {
                    fin: i + 1 == count,
                    opcode: if i == 0 {
                        opcode
                    } else {
                        Opcode::Continuation
                    },
                    payload: fragment(payload, fragment_size, i),
                },
        )
    }
}

/// The frames on the wire, one behind the other
pub open spec fn frames_bytes(frames: Seq<FrameModel>, mask_key: Option<u32>) -> Seq<u8>
    decreases frames.len(),
{
    if frames.len() == 0 {
        seq![]
    } else {
        frames_bytes(frames.drop_last(), mask_key) + frame_bytes(frames.last(), mask_key)
    }
}

/// The message on the wire
pub open spec fn message_bytes(
    message: MessageModel,
    fragment_size: nat,
    mask_key: Option<u32>,
) -> Seq<u8> {
    frames_bytes(message_frames(message, fragment_size), mask_key)
}

/// What a [`FrameStream`] holds
pub struct FrameStreamModel<Stream> {
    pub stream: Stream,
    pub received: Seq<u8>,
    pub mask_key: Option<u32>,
}

/// A transport, the bytes received from it that have not been read as frames,
/// and the key that masks what is sent over it
pub struct FrameStream<Stream> {
    stream: Stream,
    buffer: BytesMut,
    mask_key: Option<u32>,
}

impl<Stream> View for FrameStream<Stream> {
    type V = FrameStreamModel<Stream>;

    closed spec fn view(&self) -> FrameStreamModel<Stream> {
        FrameStreamModel {
            stream: self.stream,
            received: buffered(self.buffer),
            mask_key: self.mask_key,
        }
    }
}

/// Append the data with the mask key laid over it
fn write_masked(data: &[u8], mask_key: u32, out: &mut Vec<u8>)
    ensures
        final(out)@ == old(out)@ + masked(data@, mask_key),
{
    let mut copy: Vec<u8> = slice_to_vec(data);
    unmask_payload(copy.as_mut_slice(), mask_key);
    out.append(&mut copy);
}

impl<Stream> FrameStream<Stream> {
    /// The transport
    pub fn inner_mut(&mut self) -> (stream: &mut Stream)
        ensures
            *stream == old(self)@.stream,
            final(self)@ == (FrameStreamModel { stream: *final(stream), ..old(self)@ }),
    {
        &mut self.stream
    }

    /// A stream from which nothing has been received
    pub fn new(stream: Stream, mask_key: Option<u32>) -> (frames: Self)
        ensures
            frames@ == (FrameStreamModel { stream, received: seq![], mask_key }),
    {
        FrameStream { stream, buffer: buffer_with_capacity(4096), mask_key }
    }

    /// Keep bytes that the transport received
    pub fn receive(&mut self, data: &[u8])
        ensures
            final(self)@ == (FrameStreamModel {
                received: old(self)@.received + data@,
                ..old(self)@
            }),
    {
        buffer_extend(&mut self.buffer, data);
    }

    /// The next frame, or `None` if more must be received to complete it
    pub fn read_frame(&mut self, max_len: usize) -> (result: Result<Option<Frame>, Error>)
        ensures
            is_parse_result(result, frame_parse(old(self)@.received, max_len as nat)),
            final(self)@ == (FrameStreamModel {
                received: after_parse(
                    old(self)@.received,
                    frame_parse(old(self)@.received, max_len as nat),
                ),
                ..old(self)@
            }),
    {
        parse_frame(&mut self.buffer, max_len)
    }

    /// The transport has ended: this is unexpected in the middle of a frame
    pub fn end_of_stream(&self) -> (result: Result<(), Error>)
        ensures
            match result {
                Ok(()) => self@.received.len() == 0,
                Err(e) => self@.received.len() > 0 && e@ == ErrorModel::Io(IoError::UnexpectedEof),
            },
    {
        if buffer_bytes(&self.buffer).len() == 0 {
            Ok(())
        } else {
            Err(Error::unexpected_close())
        }
    }

    /// The bytes to send for a message, split into frames with a payload of at
    /// most `fragment_size` bytes
    pub fn write_message(&self, message: MessageRef<'_>, fragment_size: usize) -> (bytes: Vec<u8>)
        requires
            fragment_size > 0,
        ensures
            bytes@ == message_bytes(message@, fragment_size as nat, self@.mask_key),
    {
        let mut out: Vec<u8> = Vec::new();
        let opcode: Opcode = message.opcode();
        let payload: &[u8] = message.payload();
        let len: usize = payload.len();
        let ghost frames = message_frames(message@, fragment_size as nat);
        proof {
            reveal_with_fuel(frames_bytes, 2);
        }
        if len <= fragment_size || opcode.is_control() {
            // One frame is enough, or it is a control frame, which cannot be fragmented.
            self.write_frame(first_short(true, opcode, self.mask_key, payload), payload, &mut out);
            proof {
                let frame = FrameModel { fin: true, opcode, payload: payload@ };
                assert(frames =~= seq![frame]);
                assert(frames.drop_last() =~= Seq::<FrameModel>::empty());
                assert(out@ =~= frame_bytes(frame, self.mask_key));
            }
            return out;
        }
        let mut start: usize = 0;
        let ghost mut written: int = 0;
        assert(frames.take(0) =~= Seq::<FrameModel>::empty());
        proof {
            lemma_fragments(len as nat, fragment_size as nat, 0);
        }
        while start < len
            invariant
                0 < fragment_size < len,
                len == payload@.len(),
                payload@ == message@.payload(),
                opcode == message@.opcode(),
                !opcode.control(),
                frames == message_frames(message@, fragment_size as nat),
                frames.len() == fragment_count(len as nat, fragment_size as nat),
                start == if written < frames.len() {
                    written * fragment_size
                } else {
                    len as int
                },
                0 <= written <= frames.len(),
                start <= len,
                start == 0 <==> written == 0,
                written < frames.len() <==> start < len,
                out@ == frames_bytes(frames.take(written), self.mask_key),
            decreases len - start,
        {
            proof {
                lemma_fragments(len as nat, fragment_size as nat, written as nat);
            }
            let last: bool = len - start <= fragment_size;
            let end: usize = if last {
                len
            } else {
                start + fragment_size
            };
            let part: &[u8] = slice_subrange(payload, start, end);
            let part_opcode: Opcode = if start == 0 {
                opcode
            } else {
                Opcode::Continuation
            };
            let ghost before = out@;
            self.write_frame(first_short(last, part_opcode, self.mask_key, part), part, &mut out);
            proof {
                let frame = FrameModel { fin: last, opcode: part_opcode, payload: part@ };
                assert(part@ =~= fragment(payload@, fragment_size as nat, written));
                assert(frames[written] == frame);
                assert(frames.take(written + 1).drop_last() =~= frames.take(written));
                assert(out@ =~= before + frame_bytes(frame, self.mask_key));
            }
            start = end;
            proof {
                written = written + 1;
                lemma_fragments(len as nat, fragment_size as nat, written as nat);
            }
        }
        assert(frames.take(written) =~= frames);
        out
    }

    /// Append a frame that starts with the given two bytes
    fn write_frame(&self, first_short: u16, payload: &[u8], out: &mut Vec<u8>)
        ensures
            final(out)@ == old(out)@ + be_bytes(first_short as nat, 2)
                + length_bytes(payload@.len()) + match self.mask_key {
                Some(key) => be_bytes(key as nat, 4) + masked(payload@, key),
                None => payload@,
            },
    {
        push_be(out, first_short as u64, FIRST_SHORT_SIZE);
        if payload.len() > SMALL_PAYLOAD_USIZE {
            if payload.len() <= 0xffff {
                push_be(out, payload.len() as u64, EXTENDED_PAYLOAD_SIZE);
            } else {
                push_be(out, payload.len() as u64, BIG_EXTENDED_PAYLOAD_SIZE);
            }
        }
        match self.mask_key {
            Some(key) => {
                push_be(out, key as u64, MASK_KEY_SIZE);
                write_masked(payload, key, out);
            },
            None => {
                out.extend_from_slice(payload);
            },
        }
        proof {
            assert(out@ =~= old(out)@ + be_bytes(first_short as nat, 2)
                + length_bytes(payload@.len()) + match self.mask_key {
                Some(key) => be_bytes(key as nat, 4) + masked(payload@, key),
                None => payload@,
            });
        }
    }

    /// The bytes to send for an empty close message
    pub fn write_close(&self) -> (bytes: Vec<u8>)
        ensures
            bytes@ == frame_bytes(
                FrameModel { fin: true, opcode: Opcode::Close, payload: seq![] },
                self@.mask_key,
            ),
    {
        let mut out: Vec<u8> = Vec::new();
        let mut first_short: u16 = 0b1000_1000_0000_0000;
        if self.mask_key.is_some() {
            first_short |= MASK;
            assert(0b1000_1000_0000_0000u16 | MASK == 0x8880) by (bit_vector);
        }
        push_be(&mut out, first_short as u64, FIRST_SHORT_SIZE);
        if let Some(key) = self.mask_key {
            push_be(&mut out, key as u64, MASK_KEY_SIZE);
        }
        proof {
            assert(out@ =~= frame_bytes(
                FrameModel { fin: true, opcode: Opcode::Close, payload: seq![] },
                self.mask_key,
            ));
        }
        out
    }
}

/// Where fragment number `i` lies, and which one is the last.
pub proof fn lemma_fragments(len: nat, fragment_size: nat, i: nat)
    requires
        0 < fragment_size < len,
    ensures
        fragment_count(len, fragment_size) >= 2,
        i < fragment_count(len, fragment_size) <==> i * fragment_size < len,
        i + 1 == fragment_count(len, fragment_size) <==> i * fragment_size < len <= i
            * fragment_size + fragment_size,
        (i + 1) * fragment_size == i * fragment_size + fragment_size,
{
    let q = fragment_count(len, fragment_size) as int;
    let f = fragment_size as int;
    let n = len as int;
    let r = (n + f - 1) % f;
    assert(n + f - 1 == f * q + r && 0 <= r < f) by {
        lemma_fundamental_div_mod(n + f - 1, f);
    }
    assert(q >= 2) by (nonlinear_arith)
        requires
            n + f - 1 == f * q + r,
            0 <= r < f,
            0 < f < n,
    ;
    assert(i < q <==> i * f < n) by (nonlinear_arith)
        requires
            n + f - 1 == f * q + r,
            0 <= r < f,
            i >= 0,
    ;
    assert(i + 1 == q <==> i * f < n <= i * f + f) by (nonlinear_arith)
        requires
            n + f - 1 == f * q + r,
            0 <= r < f,
            i >= 0,
    ;
    assert((i + 1) * f == i * f + f) by (nonlinear_arith);
}

} // verus!
