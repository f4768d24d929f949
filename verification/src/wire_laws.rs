//! What stands on the wire, byte by byte.

use crate::error::{ErrorModel, FrameError, Utf8Error};
use crate::frame::{
    after_parse, first_short_value, frame_bytes, frame_parse, frames_bytes, is_parse_result,
    lemma_fragments, length_size, masked, message_bytes, message_frames, numbered_opcode,
    short_fin, short_len, short_masked, short_opcode, short_reserved, Frame, FrameModel,
    FrameParse, Opcode,
};
use crate::laws::{lemma_first_short, lemma_read_frame, sendable_frame};
use crate::message::{
    close_message, is_text_result, utf8_text, AsMessageRef, Message, MessageModel, MessageRef,
};
use crate::number::{
    be_bytes, be_value, lemma_be_bytes_len, lemma_be_round_trip, lemma_be_value_bound,
    lemma_pow_256,
};
use crate::websocket::{
    after_failure, finished, is_read_result, on_frame, reading, refusal, send_refusal, DataKind, Phase,
    ReadOutcome, Reading, SocketModel,
};
use crate::Error;
use vstd::prelude::*;
use vstd::utf8::{
    decode_utf8, decode_utf8_encode_utf8, encode_utf8, encode_utf8_decode_utf8,
    encode_utf8_valid_utf8, valid_utf8,
};

verus! {

/// Numbers are read with the most significant byte first.
pub proof fn law_bytes_make_a_number(bytes: Seq<u8>)
    ensures
        bytes.len() == 2 ==> be_value(bytes) == bytes[0] * 0x100 + bytes[1],
        bytes.len() == 4 ==> be_value(bytes) == bytes[0] * 0x100_0000 + bytes[1] * 0x1_0000
            + bytes[2] * 0x100 + bytes[3],
        bytes.len() == 8 ==> be_value(bytes) == bytes[0] * 0x100_0000_0000_0000 + bytes[1]
            * 0x1_0000_0000_0000 + bytes[2] * 0x100_0000_0000 + bytes[3] * 0x1_0000_0000 + bytes[4]
            * 0x100_0000 + bytes[5] * 0x1_0000 + bytes[6] * 0x100 + bytes[7],
{
    reveal_with_fuel(be_value, 9);
}

/// Numbers are written with the most significant byte first.
pub proof fn law_a_number_makes_bytes(value: nat)
    ensures
        be_bytes(value, 2).len() == 2,
        value < 0x1_0000 ==> be_bytes(value, 2)[0] * 0x100 + be_bytes(value, 2)[1] == value,
        be_bytes(value, 4).len() == 4,
        value < 0x1_0000_0000 ==> be_bytes(value, 4)[0] * 0x100_0000 + be_bytes(value, 4)[1]
            * 0x1_0000 + be_bytes(value, 4)[2] * 0x100 + be_bytes(value, 4)[3] == value,
        be_bytes(value, 8).len() == 8,
        value < 0x1_0000_0000_0000_0000 ==> be_bytes(value, 8)[0] * 0x100_0000_0000_0000 + be_bytes(
            value,
            8,
        )[1] * 0x1_0000_0000_0000 + be_bytes(value, 8)[2] * 0x100_0000_0000 + be_bytes(value, 8)[3]
            * 0x1_0000_0000 + be_bytes(value, 8)[4] * 0x100_0000 + be_bytes(value, 8)[5] * 0x1_0000
            + be_bytes(value, 8)[6] * 0x100 + be_bytes(value, 8)[7] == value,
{
    lemma_pow_256();
    lemma_be_bytes_len(value, 2);
    lemma_be_bytes_len(value, 4);
    lemma_be_bytes_len(value, 8);
    law_bytes_make_a_number(be_bytes(value, 2));
    law_bytes_make_a_number(be_bytes(value, 4));
    law_bytes_make_a_number(be_bytes(value, 8));
    if value < 0x1_0000 {
        lemma_be_round_trip(value, 2);
    }
    if value < 0x1_0000_0000 {
        lemma_be_round_trip(value, 4);
    }
    if value < 0x1_0000_0000_0000_0000 {
        lemma_be_round_trip(value, 8);
    }
}

/// Each byte of a masked payload is the byte of the payload, with the byte of the
/// key laid over it whose turn it is: the four bytes of the key, the most
/// significant first, take turns.
pub proof fn law_masked_bytes(payload: Seq<u8>, mask_key: u32, key: Seq<u8>, i: int)
    requires
        key.len() == 4,
        key[0] * 0x100_0000 + key[1] * 0x1_0000 + key[2] * 0x100 + key[3] == mask_key,
        0 <= i < payload.len(),
    ensures
        masked(payload, mask_key).len() == payload.len(),
        masked(payload, mask_key)[i] == payload[i] ^ key[i % 4],
{
    law_a_number_makes_bytes(mask_key as nat);
    assert(be_bytes(mask_key as nat, 4) =~= key);
}

/// The number of an opcode in a frame, and no other opcode has it.
pub proof fn law_opcode_numbers(opcode: Opcode, number: nat)
    ensures
        (opcode is Continuation <==> opcode.number() == 0) && (numbered_opcode(
            number,
        ) is Continuation <==> number == 0),
        (opcode is Text <==> opcode.number() == 1) && (numbered_opcode(number) is Text <==> number
            == 1),
        (opcode is Binary <==> opcode.number() == 2) && (numbered_opcode(number) is Binary
            <==> number == 2),
        (opcode is Close <==> opcode.number() == 8) && (numbered_opcode(number) is Close <==> number
            == 8),
        (opcode is Ping <==> opcode.number() == 9) && (numbered_opcode(number) is Ping <==> number
            == 9),
        (opcode is Pong <==> opcode.number() == 10) && (numbered_opcode(number) is Pong <==> number
            == 10),
        opcode.number() < 16,
        opcode.control() <==> 8 <= opcode.number() <= 10,
{
}

/// How a frame is laid out on the wire: the bits of the first two bytes, the
/// length of the payload behind them where it is more than 125, the mask key where
/// there is one, and the payload, with the bytes of the key laid over it in turn.
pub proof fn law_frame_layout(frame: FrameModel, mask_key: Option<u32>)
    requires
        frame.payload.len() < 0x1_0000_0000_0000_0000,
    ensures
        ({
            let bytes = frame_bytes(frame, mask_key);
            let len = frame.payload.len() as int;
            let head = if len <= 125 {
                2
            } else if len <= 0xffff {
                4
            } else {
                10int
            };
            &&& bytes.len() >= head
            &&& bytes[0] / 0x80 == if frame.fin {
                1int
            } else {
                0
            }
            &&& bytes[0] % 0x80 == match frame.opcode {
                Opcode::Continuation => 0int,
                Opcode::Text => 1,
                Opcode::Binary => 2,
                Opcode::Close => 8,
                Opcode::Ping => 9,
                Opcode::Pong => 10,
                Opcode::Reserved => 11,
            }
            &&& bytes[1] / 0x80 == if mask_key is Some {
                1int
            } else {
                0
            }
            &&& len <= 125 ==> bytes[1] % 0x80 == len
            &&& 125 < len <= 0xffff ==> bytes[1] % 0x80 == 126 && bytes[2] * 0x100 + bytes[3] == len
            &&& len > 0xffff ==> bytes[1] % 0x80 == 127 && bytes[2] * 0x100_0000_0000_0000 + bytes[3]
                * 0x1_0000_0000_0000 + bytes[4] * 0x100_0000_0000 + bytes[5] * 0x1_0000_0000
                + bytes[6] * 0x100_0000 + bytes[7] * 0x1_0000 + bytes[8] * 0x100 + bytes[9] == len
            &&& match mask_key {
                Some(key) => {
                    &&& bytes.len() == head + 4 + len
                    &&& bytes[head] * 0x100_0000 + bytes[head + 1] * 0x1_0000 + bytes[head + 2]
                        * 0x100 + bytes[head + 3] == key
                    &&& forall|i: int|
                        0 <= i < len ==> bytes[head + 4 + i] == #[trigger] frame.payload[i]
                            ^ bytes[head + i % 4]
                },
                None => {
                    &&& bytes.len() == head + len
                    &&& forall|i: int| 0 <= i < len ==> bytes[head + i] == #[trigger] frame.payload[i]
                },
            }
        }),
{
    let bytes = frame_bytes(frame, mask_key);
    let len = frame.payload.len();
    let head = if len <= 125 {
        2
    } else if len <= 0xffff {
        4
    } else {
        10int
    };
    let short = first_short_value(frame.fin, frame.opcode, mask_key is Some, len);
    lemma_first_short(frame.fin, frame.opcode, mask_key is Some, len);
    law_a_number_makes_bytes(short);
    law_a_number_makes_bytes(len);
    law_opcode_numbers(frame.opcode, 0);
    assert(bytes[0] == be_bytes(short, 2)[0]);
    assert(bytes[1] == be_bytes(short, 2)[1]);
    let b0 = bytes[0] as int;
    let b1 = bytes[1] as int;
    assert(short == b0 * 0x100 + b1);
    assert(short / 0x100 == b0);
    assert(short / 0x8000 == b0 / 0x80);
    assert(short / 0x1000 == b0 / 0x10);
    assert(short / 0x80 == b0 * 2 + b1 / 0x80);
    assert(short % 0x80 == b1 % 0x80);
    if 125 < len <= 0xffff {
        assert(bytes[2] == be_bytes(len, 2)[0]);
        assert(bytes[3] == be_bytes(len, 2)[1]);
    } else if len > 0xffff {
        assert forall|j: int| 0 <= j < 8 implies bytes[j + 2] == #[trigger] be_bytes(len, 8)[j] by {}
    }
    match mask_key {
        Some(key) => {
            let key_bytes = be_bytes(key as nat, 4);
            law_a_number_makes_bytes(key as nat);
            assert forall|j: int| 0 <= j < 4 implies bytes[head + j] == #[trigger] key_bytes[j] by {}
            assert(bytes[head + 0] == key_bytes[0]);
            assert forall|i: int| 0 <= i < len implies bytes[head + 4 + i]
                == #[trigger] frame.payload[i] ^ bytes[head + i % 4] by {
                law_masked_bytes(frame.payload, key, key_bytes, i);
                assert(bytes[head + 4 + i] == masked(frame.payload, key)[i]);
                assert(bytes[head + i % 4] == key_bytes[i % 4]);
            }
        },
        None => {
            assert forall|i: int| 0 <= i < len implies bytes[head + i]
                == #[trigger] frame.payload[i] by {}
        },
    }
}

/// What is refused for the first two bytes alone, in which order: an opcode
/// without a meaning, a control frame in fragments or with a long payload, and a
/// reserved bit.
pub proof fn law_refused_for_the_first_bytes(buffer: Seq<u8>, max_len: nat)
    ensures
        buffer.len() < 2 ==> frame_parse(buffer, max_len) is Incomplete,
        buffer.len() >= 2 ==> {
            let opcode = buffer[0] % 0x10;
            let known = opcode <= 2 || 8 <= opcode <= 10;
            let control = 8 <= opcode <= 10;
            let parse = frame_parse(buffer, max_len);
            &&& !known ==> parse == FrameParse::Malformed(FrameError::ReservedOpcode)
            &&& control && buffer[0] < 0x80 ==> parse == FrameParse::Malformed(
                FrameError::FragmentedControl,
            )
            &&& control && buffer[0] >= 0x80 && buffer[1] % 0x80 > 125 ==> parse
                == FrameParse::Malformed(FrameError::LargeControl)
            &&& known && (control ==> buffer[0] >= 0x80 && buffer[1] % 0x80 <= 125) ==> (buffer[0]
                / 0x10 % 8 != 0 <==> parse == FrameParse::Malformed(FrameError::RsvSet))
        },
{
    if buffer.len() >= 2 {
        lemma_first_two(buffer);
    }
}

/// The fields of the first two bytes.
proof fn lemma_first_two(buffer: Seq<u8>)
    requires
        buffer.len() >= 2,
    ensures
        ({
            let short = be_value(buffer.take(2));
            &&& short == buffer[0] * 0x100 + buffer[1]
            &&& short_fin(short) == (buffer[0] >= 0x80)
            &&& short_reserved(short) == buffer[0] / 0x10 % 8
            &&& short / 0x100 % 0x10 == buffer[0] % 0x10
            &&& short_masked(short) == (buffer[1] >= 0x80)
            &&& short_len(short) == buffer[1] % 0x80
        }),
{
    law_bytes_make_a_number(buffer.take(2));
    let b0 = buffer[0] as int;
    let b1 = buffer[1] as int;
    let short = be_value(buffer.take(2));
    assert(short == b0 * 0x100 + b1);
    assert(short / 0x100 == b0);
    assert(short / 0x8000 == b0 / 0x80);
    assert(short / 0x1000 == b0 / 0x10);
    assert(short / 0x80 == b0 * 2 + b1 / 0x80);
    assert(short % 0x80 == b1 % 0x80);
}

/// The payload length that a buffer announces, where the first two bytes, and the
/// length behind them, have arrived
pub open spec fn announced_len(buffer: Seq<u8>) -> int {
    if buffer[1] % 0x80 <= 125 {
        buffer[1] as int % 0x80
    } else if buffer[1] % 0x80 == 126 {
        buffer[2] * 0x100 + buffer[3]
    } else {
        buffer[2] * 0x100_0000_0000_0000 + buffer[3] * 0x1_0000_0000_0000 + buffer[4]
            * 0x100_0000_0000 + buffer[5] * 0x1_0000_0000 + buffer[6] * 0x100_0000 + buffer[7]
            * 0x1_0000 + buffer[8] * 0x100 + buffer[9]
    }
}

/// Where the payload starts that a buffer announces
pub open spec fn payload_start(buffer: Seq<u8>) -> int {
    (if buffer[1] % 0x80 <= 125 {
        2
    } else if buffer[1] % 0x80 == 126 {
        4
    } else {
        10int
    }) + if buffer[1] >= 0x80 {
        4int
    } else {
        0
    }
}

/// What becomes of a buffer whose first two bytes are in order: it waits for the
/// rest of the header, then a payload over the maximum is refused, however its
/// length is written, then it waits for the payload; and the frame that is read has
/// the bits of the first byte and the bytes of the payload, with those of the mask
/// key taken off in turn.
pub proof fn law_what_is_read(buffer: Seq<u8>, max_len: nat)
    requires
        buffer.len() >= 2,
        buffer[0] % 0x10 <= 2 || (8 <= buffer[0] % 0x10 <= 10 && buffer[0] >= 0x80 && buffer[1]
            % 0x80 <= 125),
        buffer[0] / 0x10 % 8 == 0,
    ensures
        ({
            let start = payload_start(buffer);
            let len = announced_len(buffer);
            let parse = frame_parse(buffer, max_len);
            &&& buffer.len() < start ==> parse is Incomplete
            &&& buffer.len() >= start && len > max_len ==> parse == FrameParse::Malformed(
                FrameError::FramePayloadTooLong,
            )
            &&& buffer.len() >= start && len <= max_len && start + len > usize::MAX ==> parse
                == FrameParse::Malformed(FrameError::FrameTooLong)
            &&& start <= buffer.len() < start + len && len <= max_len && start + len <= usize::MAX
                ==> parse is Incomplete
            &&& start + len <= buffer.len() && len <= max_len && start + len <= usize::MAX ==> {
                &&& parse matches FrameParse::Complete { frame, size }
                &&& size == start + len
                &&& frame.fin == (buffer[0] >= 0x80)
                &&& frame.opcode.number() == buffer[0] % 0x10
                &&& frame.payload.len() == len
                &&& forall|i: int|
                    0 <= i < len ==> #[trigger] frame.payload[i] == if buffer[1] >= 0x80 {
                        buffer[start + i] ^ buffer[start - 4 + i % 4]
                    } else {
                        buffer[start + i]
                    }
            }
        }),
{
    let short = be_value(buffer.take(2));
    let start = payload_start(buffer);
    let len = announced_len(buffer);
    let len_end = 2 + length_size(short) as int;
    lemma_first_two(buffer);
    law_opcode_numbers(short_opcode(short), (buffer[0] % 0x10) as nat);
    if buffer.len() >= start {
        law_bytes_make_a_number(buffer.subrange(2, len_end));
        if start + len <= buffer.len() && buffer[1] >= 0x80 {
            let key_bytes = buffer.subrange(len_end, len_end + 4);
            law_bytes_make_a_number(key_bytes);
            lemma_be_value_bound(key_bytes);
            lemma_pow_256();
            let key = be_value(key_bytes) as u32;
            let payload = buffer.subrange(start, start + len);
            assert forall|i: int| 0 <= i < len implies #[trigger] masked(payload, key)[i]
                == buffer[start + i] ^ buffer[start - 4 + i % 4] by {
                law_masked_bytes(payload, key, key_bytes, i);
                assert(key_bytes[i % 4] == buffer[start - 4 + i % 4]);
            }
        }
    }
}

/// No frame with a payload over the maximum is read, whatever its header looks
/// like, and no frame that may not be sent.
pub proof fn law_frames_that_are_read_fit(buffer: Seq<u8>, max_len: nat)
    ensures
        frame_parse(buffer, max_len) matches FrameParse::Complete { frame, size } ==> {
            &&& frame.payload.len() <= max_len
            &&& sendable_frame(frame)
            &&& frame.payload.len() + 2 <= size <= buffer.len()
            &&& after_parse(buffer, frame_parse(buffer, max_len)) == buffer.subrange(
                size as int,
                buffer.len() as int,
            )
        },
        !(frame_parse(buffer, max_len) is Complete) ==> after_parse(
            buffer,
            frame_parse(buffer, max_len),
        ) == buffer,
{
    if buffer.len() >= 2 {
        lemma_first_two(buffer);
    }
}

/// A frame with a payload over the maximum is refused, masked or not, whatever
/// follows it, and whatever was read before it.
pub proof fn law_oversized_frame(
    frame: FrameModel,
    mask_key: Option<u32>,
    rest: Seq<u8>,
    max_len: nat,
    phase: Phase,
)
    requires
        sendable_frame(frame),
        max_len < frame.payload.len() < 0x1_0000_0000_0000_0000,
        !(phase is Closed),
        !(phase is NoHandshake),
    ensures
        frame_parse(frame_bytes(frame, mask_key) + rest, max_len) == FrameParse::Malformed(
            FrameError::FramePayloadTooLong,
        ),
        reading(phase, frame_bytes(frame, mask_key) + rest, max_len).outcome == ReadOutcome::Fail(
            ErrorModel::Frame(FrameError::FramePayloadTooLong),
        ),
        reading(phase, frame_bytes(frame, mask_key) + rest, max_len).received == frame_bytes(
            frame,
            mask_key,
        ) + rest,
{
    let bytes = frame_bytes(frame, mask_key);
    let all = bytes + rest;
    law_frame_layout(frame, mask_key);
    assert forall|i: int| 0 <= i < bytes.len() implies all[i] == bytes[i] by {}
    assert(all[0] == bytes[0] && all[1] == bytes[1]);
    law_what_is_read(all, max_len);
}

/// What fragments hold: the fragments of a message longer than the fragment size
/// are its payload, cut at the multiples of that size, and there are just as many
/// as that takes; any other message is one frame with the whole payload.
pub proof fn law_where_a_message_is_cut(message: MessageModel, fragment_size: nat)
    requires
        fragment_size > 0,
    ensures
        ({
            let frames = message_frames(message, fragment_size);
            let payload = message.payload();
            if message is Ping || message is Pong || message is Close || payload.len()
                <= fragment_size {
                frames == seq![FrameModel { fin: true, opcode: message.opcode(), payload }]
            } else {
                &&& frames.len() >= 2
                &&& (frames.len() - 1) * fragment_size < payload.len() <= frames.len()
                    * fragment_size
                &&& forall|i: int|
                    #![trigger frames[i]]
                    0 <= i < frames.len() ==> {
                        &&& frames[i].fin <==> i == frames.len() - 1
                        &&& frames[i].opcode == if i == 0 {
                            message.opcode()
                        } else {
                            Opcode::Continuation
                        }
                        &&& frames[i].payload == payload.subrange(
                            i * fragment_size,
                            if i == frames.len() - 1 {
                                payload.len() as int
                            } else {
                                (i + 1) * fragment_size
                            },
                        )
                    }
            }
        }),
{
    let frames = message_frames(message, fragment_size);
    let len = message.payload().len();
    if len > fragment_size && !message.opcode().control() {
        let last = (frames.len() - 1) as nat;
        lemma_fragments(len, fragment_size, 0);
        lemma_fragments(len, fragment_size, last);
        assert forall|i: int| #![trigger frames[i]] 0 <= i < frames.len() implies frames[i].payload
            == message.payload().subrange(
            i * fragment_size,
            if i == frames.len() - 1 {
                len as int
            } else {
                (i + 1) * fragment_size
            },
        ) by {
            lemma_fragments(len, fragment_size, i as nat);
            lemma_fragments(len, fragment_size, (i + 1) as nat);
        }
    }
}

/// Frames follow each other on the wire, and a message is its frames.
pub proof fn law_frames_follow_each_other(
    frames: Seq<FrameModel>,
    frame: FrameModel,
    mask_key: Option<u32>,
    message: MessageModel,
    fragment_size: nat,
)
    ensures
        frames_bytes(Seq::empty(), mask_key) == Seq::<u8>::empty(),
        frames_bytes(frames.push(frame), mask_key) == frames_bytes(frames, mask_key) + frame_bytes(
            frame,
            mask_key,
        ),
        message_bytes(message, fragment_size, mask_key) == frames_bytes(
            message_frames(message, fragment_size),
            mask_key,
        ),
{
    assert(frames.push(frame).drop_last() =~= frames);
}

/// What carries a message: its opcode, and its bytes, which for a text are its
/// encoding.
pub proof fn law_what_carries_a_message(text: Seq<char>, data: Seq<u8>)
    ensures
        MessageModel::Text(text).opcode() is Text,
        MessageModel::Text(text).payload() == encode_utf8(text),
        MessageModel::Binary(data).opcode() is Binary,
        MessageModel::Binary(data).payload() == data,
        MessageModel::Ping(data).opcode() is Ping,
        MessageModel::Ping(data).payload() == data,
        MessageModel::Pong(data).opcode() is Pong,
        MessageModel::Pong(data).payload() == data,
        MessageModel::Close(Some(data)).opcode() is Close,
        MessageModel::Close(Some(data)).payload() == data,
        MessageModel::Close(None).opcode() is Close,
        MessageModel::Close(None).payload() == Seq::<u8>::empty(),
{
}

/// A message, owned or borrowed, is what it holds.
pub proof fn law_a_message_is_what_it_holds(owned: Message, borrowed: MessageRef<'_>)
    ensures
        owned matches Message::Text(text) ==> owned@ == MessageModel::Text(text@),
        owned matches Message::Binary(data) ==> owned@ == MessageModel::Binary(data@),
        owned matches Message::Ping(data) ==> owned@ == MessageModel::Ping(data@),
        owned matches Message::Pong(data) ==> owned@ == MessageModel::Pong(data@),
        owned matches Message::Close(Some(close)) ==> owned@ == MessageModel::Close(Some(close@)),
        owned matches Message::Close(None) ==> owned@ == MessageModel::Close(None),
        borrowed matches MessageRef::Text(text) ==> borrowed@ == MessageModel::Text(text@),
        borrowed matches MessageRef::Binary(data) ==> borrowed@ == MessageModel::Binary(data@),
        borrowed matches MessageRef::Ping(data) ==> borrowed@ == MessageModel::Ping(data@),
        borrowed matches MessageRef::Pong(data) ==> borrowed@ == MessageModel::Pong(data@),
        borrowed matches MessageRef::Close(Some(close)) ==> borrowed@ == MessageModel::Close(
            Some(close@),
        ),
        borrowed matches MessageRef::Close(None) ==> borrowed@ == MessageModel::Close(None),
{
}

/// Bytes are read as the one text that they encode, and as none where they encode
/// none: the data of a message, or the reason of a close message behind its status.
pub proof fn law_messages_read_as_text(data: Seq<u8>, text: Seq<char>)
    ensures
        MessageModel::Text(text).text() == Ok::<Seq<char>, Utf8Error>(text),
        MessageModel::Close(None).text() == Ok::<Seq<char>, Utf8Error>(Seq::empty()),
        reads_as(utf8_text(data, Utf8Error::CloseReason), data, text, Utf8Error::CloseReason),
        reads_as(MessageModel::Binary(data).text(), data, text, Utf8Error::TextMessage),
        reads_as(MessageModel::Ping(data).text(), data, text, Utf8Error::TextMessage),
        reads_as(MessageModel::Pong(data).text(), data, text, Utf8Error::TextMessage),
        data.len() >= 2 ==> reads_as(
            MessageModel::Close(Some(data)).text(),
            data.subrange(2, data.len() as int),
            text,
            Utf8Error::CloseReason,
        ),
{
    lemma_one_text(data, text);
    let reason = data.subrange(2, data.len() as int);
    assert(data.len() >= 2 ==> data.skip(2) =~= reason);
    lemma_one_text(reason, text);
}

/// Whether the bytes were read as the text where they encode it, as some text that
/// they encode where they are read at all, and refused otherwise
pub open spec fn reads_as(
    result: Result<Seq<char>, Utf8Error>,
    bytes: Seq<u8>,
    text: Seq<char>,
    error: Utf8Error,
) -> bool {
    &&& encode_utf8(text) == bytes <==> result == Ok::<Seq<char>, Utf8Error>(text)
    &&& match result {
        Ok(t) => encode_utf8(t) == bytes,
        Err(e) => e == error,
    }
}

/// Bytes encode the text that they decode to, and no other.
proof fn lemma_one_text(bytes: Seq<u8>, text: Seq<char>)
    ensures
        encode_utf8(text) == bytes <==> valid_utf8(bytes) && decode_utf8(bytes) == text,
        valid_utf8(bytes) ==> encode_utf8(decode_utf8(bytes)) == bytes,
{
    encode_utf8_valid_utf8(text);
    encode_utf8_decode_utf8(text);
    if valid_utf8(bytes) {
        decode_utf8_encode_utf8(bytes);
    }
}

/// A close message keeps its payload, unless it is too short for a status.
pub proof fn law_close_messages(payload: Seq<u8>)
    ensures
        payload.len() >= 2 ==> close_message(payload) == MessageModel::Close(Some(payload)),
        payload.len() < 2 ==> close_message(payload) == MessageModel::Close(None),
{
}

/// Results are what the model says, neither more nor less.
pub proof fn law_results_are_what_the_model_says(
    parsed: Result<Option<Frame>, Error>,
    parse: FrameParse,
    read: Result<Option<Message>, Error>,
    outcome: ReadOutcome,
    text: Result<&str, Error>,
    chars: Result<Seq<char>, Utf8Error>,
)
    ensures
        is_parse_result(parsed, parse) ==> match parsed {
            Ok(Some(frame)) => parse matches FrameParse::Complete { frame: f, .. } && f == frame@,
            Ok(None) => parse is Incomplete,
            Err(error) => parse matches FrameParse::Malformed(e) && error@ == ErrorModel::Frame(e),
        },
        is_read_result(read, outcome) ==> match read {
            Ok(Some(message)) => outcome == ReadOutcome::Deliver(message@),
            Ok(None) => outcome is NeedData,
            Err(error) => outcome == ReadOutcome::Fail(error@),
        },
        is_text_result(text, chars) ==> match text {
            Ok(t) => chars == Ok::<Seq<char>, Utf8Error>(t@),
            Err(error) => chars matches Err(e) && error@ == ErrorModel::Utf8(e),
        },
{
}

/// Whether a whole message is delivered: data always, and text where the bytes
/// encode one.
pub proof fn law_whole_messages(payload: Seq<u8>, text: Seq<char>, error: Utf8Error)
    ensures
        finished(DataKind::Binary, payload, error) == ReadOutcome::Deliver(
            MessageModel::Binary(payload),
        ),
        encode_utf8(text) == payload <==> finished(DataKind::Text, payload, error)
            == ReadOutcome::Deliver(MessageModel::Text(text)),
        match finished(DataKind::Text, payload, error) {
            ReadOutcome::Deliver(message) => message matches MessageModel::Text(t) && encode_utf8(t)
                == payload,
            ReadOutcome::Fail(e) => e == ErrorModel::Utf8(error),
            ReadOutcome::NeedData => false,
        },
{
    lemma_one_text(payload, text);
}

/// A ping or pong is handed over at once with its data, wherever it comes; a close
/// message too, and it gives up fragments that nothing has interrupted.
pub proof fn law_control_frames_are_handed_over(
    phase: Phase,
    frame: FrameModel,
    mask_key: Option<u32>,
    rest: Seq<u8>,
    max_len: nat,
)
    requires
        !(phase is Closed),
        !(phase is NoHandshake),
        sendable_frame(frame),
        frame.opcode is Ping || frame.opcode is Pong || frame.opcode is Close,
        frame.payload.len() <= max_len,
    ensures
        ({
            let after = reading(phase, frame_bytes(frame, mask_key) + rest, max_len);
            &&& after.received == rest
            &&& frame.opcode is Ping ==> after.outcome == ReadOutcome::Deliver(
                MessageModel::Ping(frame.payload),
            )
            &&& frame.opcode is Pong ==> after.outcome == ReadOutcome::Deliver(
                MessageModel::Pong(frame.payload),
            )
            &&& frame.opcode is Close && frame.payload.len() >= 2 ==> after.outcome
                == ReadOutcome::Deliver(MessageModel::Close(Some(frame.payload)))
            &&& frame.opcode is Close && frame.payload.len() < 2 ==> after.outcome
                == ReadOutcome::Deliver(MessageModel::Close(None))
            &&& match phase {
                Phase::Fragmented { kind, payload } => if frame.opcode is Close {
                    after.phase is Open
                } else {
                    after.phase == (Phase::PartialRead { kind, payload })
                },
                _ => after.phase == phase,
            }
        }),
{
    lemma_read_frame(phase, frame, mask_key, rest, max_len);
}

/// A frame out of place is refused: a continuation of nothing, or a new message
/// before the last one is whole. The refused frame is gone, and with it fragments
/// that nothing has interrupted.
pub proof fn law_frames_out_of_place(
    phase: Phase,
    frame: FrameModel,
    mask_key: Option<u32>,
    rest: Seq<u8>,
    max_len: nat,
)
    requires
        frame.payload.len() <= max_len,
        frame.payload.len() + 14 <= usize::MAX,
    ensures
        ({
            let after = reading(phase, frame_bytes(frame, mask_key) + rest, max_len);
            let new = frame.opcode is Text || frame.opcode is Binary;
            &&& phase is Open && frame.opcode is Continuation ==> after == (Reading {
                phase: Phase::Open,
                received: rest,
                outcome: ReadOutcome::Fail(ErrorModel::Frame(FrameError::UnexpectedOpcodeOpen)),
            })
            &&& phase is Fragmented && new ==> after == (Reading {
                phase: Phase::Open,
                received: rest,
                outcome: ReadOutcome::Fail(
                    ErrorModel::Frame(FrameError::UnexpectedOpcodeOpenNonFinal),
                ),
            })
            &&& phase is PartialRead && new ==> after == (Reading {
                phase,
                received: rest,
                outcome: ReadOutcome::Fail(
                    ErrorModel::Frame(FrameError::UnexpectedOpcodePartialRead),
                ),
            })
        }),
{
    if !(phase is Closed) && !(phase is NoHandshake) && sendable_frame(frame) {
        lemma_read_frame(phase, frame, mask_key, rest, max_len);
    }
}

/// A frame of data in its place: one that does not end its message adds its payload
/// to what was read, and reading goes on behind it; one that does ends in the whole
/// message, and the connection is between messages again.
pub proof fn law_data_frames_add_up(
    phase: Phase,
    frame: FrameModel,
    mask_key: Option<u32>,
    rest: Seq<u8>,
    max_len: nat,
)
    requires
        !(frame.opcode is Reserved),
        !frame.opcode.control(),
        frame.payload.len() <= max_len,
        frame.payload.len() + 14 <= usize::MAX,
    ensures
        ({
            let after = reading(phase, frame_bytes(frame, mask_key) + rest, max_len);
            let kind = if frame.opcode is Text {
                DataKind::Text
            } else {
                DataKind::Binary
            };
            match (phase, frame.opcode is Continuation) {
                (Phase::Open, false) => if frame.fin {
                    after == (Reading {
                        phase: Phase::Open,
                        received: rest,
                        outcome: finished(kind, frame.payload, Utf8Error::TextMessage),
                    })
                } else {
                    after == reading(
                        Phase::Fragmented { kind, payload: frame.payload },
                        rest,
                        max_len,
                    )
                },
                (Phase::Fragmented { kind, payload }, true) => if frame.fin {
                    after == (Reading {
                        phase: Phase::Open,
                        received: rest,
                        outcome: finished(kind, payload + frame.payload, Utf8Error::TextMessage),
                    })
                } else {
                    after == reading(
                        Phase::Fragmented { kind, payload: payload + frame.payload },
                        rest,
                        max_len,
                    )
                },
                (Phase::PartialRead { kind, payload }, true) => if frame.fin {
                    after == (Reading {
                        phase: Phase::Open,
                        received: rest,
                        outcome: finished(
                            kind,
                            payload + frame.payload,
                            Utf8Error::TextMessagePartialRead,
                        ),
                    })
                } else {
                    after == reading(
                        Phase::PartialRead { kind, payload: payload + frame.payload },
                        rest,
                        max_len,
                    )
                },
                _ => true,
            }
        }),
{
    if !(phase is Closed) && !(phase is NoHandshake) {
        lemma_read_frame(phase, frame, mask_key, rest, max_len);
    }
}

/// Without a whole frame nothing is taken: part of one is waited for, and a
/// malformed one fails each time it is looked at.
pub proof fn law_nothing_is_taken_without_a_frame(phase: Phase, received: Seq<u8>, max_len: nat)
    requires
        !(phase is Closed),
        !(phase is NoHandshake),
    ensures
        ({
            let after = reading(phase, received, max_len);
            match frame_parse(received, max_len) {
                FrameParse::Incomplete => after == (Reading {
                    phase,
                    received,
                    outcome: ReadOutcome::NeedData,
                }),
                FrameParse::Malformed(error) => {
                    &&& after.received == received
                    &&& after.outcome == ReadOutcome::Fail(ErrorModel::Frame(error))
                    &&& phase is Fragmented ==> after.phase is Open
                    &&& !(phase is Fragmented) ==> after.phase == phase
                },
                _ => true,
            }
        }),
{
}

/// A failure of the transport gives up fragments that nothing has interrupted, and
/// changes no other phase.
pub proof fn law_after_a_failure(phase: Phase)
    ensures
        phase is Fragmented ==> after_failure(phase) is Open,
        !(phase is Fragmented) ==> after_failure(phase) == phase,
{
}

/// A websocket is refused for what it is waiting for, and for nothing else.
pub proof fn law_when_a_websocket_is_refused(socket: SocketModel)
    ensures
        refusal(socket.phase) == match socket.phase {
            Phase::Closed => Some(ErrorModel::WasClosed),
            Phase::NoHandshake => Some(ErrorModel::NoHandshake),
            _ => None,
        },
        refusal(socket.phase) is Some ==> send_refusal(socket) == refusal(socket.phase),
        refusal(socket.phase) is None && socket.close_sent ==> send_refusal(socket) == Some(
            ErrorModel::WasClosed,
        ),
        refusal(socket.phase) is None && !socket.close_sent ==> send_refusal(socket) is None,
{
}

/// Reading takes the frame at the front, whatever its header looks like, and goes on
/// behind it where it comes to no message and no error.
pub proof fn law_reading_frame_by_frame(phase: Phase, received: Seq<u8>, max_len: nat)
    requires
        !(phase is Closed),
        !(phase is NoHandshake),
    ensures
        frame_parse(received, max_len) matches FrameParse::Complete { frame, size } ==> {
            let (next, outcome) = on_frame(phase, frame);
            let rest = received.subrange(size as int, received.len() as int);
            reading(phase, received, max_len) == if outcome is NeedData {
                reading(next, rest, max_len)
            } else {
                Reading { phase: next, received: rest, outcome }
            }
        },
{
    if let FrameParse::Complete { size, .. } = frame_parse(received, max_len) {
        assert(received.skip(size as int) =~= received.subrange(
            size as int,
            received.len() as int,
        ));
    }
}

/// What a frame does: control frames are handed over, data in its place is added to
/// what was read, and data out of place is refused.
pub proof fn law_what_a_frame_does(phase: Phase, frame: FrameModel)
    requires
        !(phase is Closed),
        !(phase is NoHandshake),
        !(frame.opcode is Reserved),
    ensures
        ({
            let (next, outcome) = on_frame(phase, frame);
            let new = frame.opcode is Text || frame.opcode is Binary;
            let kind = if frame.opcode is Text {
                DataKind::Text
            } else {
                DataKind::Binary
            };
            &&& frame.opcode is Ping ==> outcome == ReadOutcome::Deliver(
                MessageModel::Ping(frame.payload),
            )
            &&& frame.opcode is Pong ==> outcome == ReadOutcome::Deliver(
                MessageModel::Pong(frame.payload),
            )
            &&& frame.opcode is Close ==> outcome == ReadOutcome::Deliver(
                if frame.payload.len() >= 2 {
                    MessageModel::Close(Some(frame.payload))
                } else {
                    MessageModel::Close(None)
                },
            )
            &&& match phase {
                Phase::Open => {
                    &&& !(new && !frame.fin) ==> next is Open
                    &&& new && !frame.fin ==> outcome is NeedData && next == (Phase::Fragmented {
                        kind,
                        payload: frame.payload,
                    })
                    &&& new && frame.fin ==> outcome == finished(
                        kind,
                        frame.payload,
                        Utf8Error::TextMessage,
                    )
                    &&& frame.opcode is Continuation ==> outcome == ReadOutcome::Fail(
                        ErrorModel::Frame(FrameError::UnexpectedOpcodeOpen),
                    )
                },
                Phase::Fragmented { kind, payload } => {
                    &&& frame.opcode is Ping || frame.opcode is Pong ==> next == (
                    Phase::PartialRead { kind, payload })
                    &&& frame.opcode is Close ==> next is Open
                    &&& new ==> next is Open && outcome == ReadOutcome::Fail(
                        ErrorModel::Frame(FrameError::UnexpectedOpcodeOpenNonFinal),
                    )
                    &&& frame.opcode is Continuation && !frame.fin ==> outcome is NeedData && next
                        == (Phase::Fragmented { kind, payload: payload + frame.payload })
                    &&& frame.opcode is Continuation && frame.fin ==> next is Open && outcome
                        == finished(kind, payload + frame.payload, Utf8Error::TextMessage)
                },
                Phase::PartialRead { kind, payload } => {
                    &&& !(frame.opcode is Continuation) ==> next == phase
                    &&& new ==> outcome == ReadOutcome::Fail(
                        ErrorModel::Frame(FrameError::UnexpectedOpcodePartialRead),
                    )
                    &&& frame.opcode is Continuation && !frame.fin ==> outcome is NeedData && next
                        == (Phase::PartialRead { kind, payload: payload + frame.payload })
                    &&& frame.opcode is Continuation && frame.fin ==> next is Open && outcome
                        == finished(kind, payload + frame.payload, Utf8Error::TextMessagePartialRead)
                },
                _ => true,
            }
        }),
{
}

/// What is written is the message that was handed over, owned or borrowed.
pub proof fn law_what_is_handed_over<'data>(owned: &'data Message, borrowed: MessageRef<'data>)
    ensures
        owned.message() == owned@,
        borrowed.message() == borrowed@,
{
}

} // verus!
