//! What holds of the library as a whole.

use crate::error::{ErrorModel, Utf8Error};
use crate::frame::{
    first_short_value, fragment, fragment_count, frame_bytes, frame_parse, frames_bytes,
    header_size, lemma_fragments, length_bytes, length_size, masked, message_bytes, message_frames,
    short_fin, short_len, short_masked, short_opcode, short_reserved, FrameModel, FrameParse,
    Opcode,
};
use crate::message::MessageModel;
use crate::number::{be_bytes, be_value, lemma_be_bytes_len, lemma_be_round_trip, lemma_pow_256};
use crate::websocket::{
    control_message, finished, on_frame, reading, refusal, send_refusal, DataKind, Phase,
    ReadOutcome, Reading, SocketModel,
};
use vstd::prelude::*;
use vstd::utf8::{decode_utf8, encode_utf8_decode_utf8, encode_utf8_valid_utf8, valid_utf8};

verus! {

/// Masking undoes itself.
pub proof fn law_unmasking(payload: Seq<u8>, mask_key: u32)
    ensures
        masked(masked(payload, mask_key), mask_key) == payload,
{
    assert forall|i: int| 0 <= i < payload.len() implies masked(
        masked(payload, mask_key),
        mask_key,
    )[i] == payload[i] by {
        let byte = payload[i];
        let key = be_bytes(mask_key as nat, 4)[i % 4];
        assert(byte ^ key ^ key == byte) by (bit_vector);
    }
    assert(masked(masked(payload, mask_key), mask_key) =~= payload);
}

/// Whether a frame may be sent: its opcode has a meaning, and a control frame
/// is whole and short
pub open spec fn sendable_frame(frame: FrameModel) -> bool {
    &&& !(frame.opcode is Reserved)
    &&& frame.opcode.control() ==> frame.fin && frame.payload.len() <= 125
}

/// The fields of the first two bytes are read back.
pub proof fn lemma_first_short(fin: bool, opcode: Opcode, is_masked: bool, len: nat)
    ensures
        ({
            let short = first_short_value(fin, opcode, is_masked, len);
            &&& short < 0x1_0000
            &&& short_fin(short) == fin
            &&& short_reserved(short) == 0
            &&& short / 0x100 % 0x10 == opcode.number()
            &&& short_masked(short) == is_masked
            &&& short_len(short) == if len <= 125 {
                len
            } else if len <= 0xffff {
                126
            } else {
                127
            }
        }),
{
    let code: nat = if len <= 125 {
        len
    } else if len <= 0xffff {
        126
    } else {
        127
    };
    let low = code + if is_masked {
        0x80nat
    } else {
        0
    };
    let number = opcode.number();
    let top = number + if fin {
        0x80nat
    } else {
        0
    };
    let short = first_short_value(fin, opcode, is_masked, len);
    assert(number <= 11);
    assert(short == top * 0x100 + low);
    assert(short / 0x100 == top);
    assert(short / 0x1000 == top / 0x10);
    assert(short / 0x8000 == top / 0x80);
    assert(short / 0x80 == top * 2 + low / 0x80);
}

/// A frame on the wire is read back as the frame that was sent, masked or not,
/// and whatever follows it is left alone.
pub proof fn law_frame_round_trip(
    frame: FrameModel,
    mask_key: Option<u32>,
    rest: Seq<u8>,
    max_len: nat,
)
    requires
        sendable_frame(frame),
        frame.payload.len() <= max_len,
        frame_bytes(frame, mask_key).len() <= usize::MAX,
    ensures
        frame_parse(frame_bytes(frame, mask_key) + rest, max_len) == (FrameParse::Complete {
            frame,
            size: frame_bytes(frame, mask_key).len(),
        }),
{
    let len = frame.payload.len();
    let short = first_short_value(frame.fin, frame.opcode, mask_key is Some, len);
    let bytes = frame_bytes(frame, mask_key);
    let all = bytes + rest;
    lemma_first_short(frame.fin, frame.opcode, mask_key is Some, len);
    assert(short_opcode(short) == frame.opcode);
    lemma_pow_256();
    lemma_be_bytes_len(short, 2);
    lemma_be_round_trip(short, 2);
    assert(all.take(2) =~= be_bytes(short, 2));
    lemma_be_bytes_len(len, 2);
    lemma_be_bytes_len(len, 8);
    let len_end = 2 + length_size(short) as int;
    assert(length_bytes(len).len() == length_size(short));
    assert(all.subrange(2, len_end) =~= length_bytes(len));
    if len > 125 {
        lemma_be_round_trip(len, length_size(short));
    }
    let start = header_size(short) as int;
    match mask_key {
        Some(key) => {
            lemma_be_bytes_len(key as nat, 4);
            lemma_be_round_trip(key as nat, 4);
            assert(all.subrange(len_end, len_end + 4) =~= be_bytes(key as nat, 4));
            assert(all.subrange(start, start + len) =~= masked(frame.payload, key));
            law_unmasking(frame.payload, key);
        },
        None => {
            assert(all.subrange(start, start + len) =~= frame.payload);
        },
    }
}

/// A frame says that it is masked exactly when there is a mask key: all that a
/// client sends is masked, and nothing that a server sends.
pub proof fn law_masked_with_a_key(frame: FrameModel, mask_key: Option<u32>)
    ensures
        short_masked(be_value(frame_bytes(frame, mask_key).take(2))) <==> mask_key is Some,
{
    let len = frame.payload.len();
    let short = first_short_value(frame.fin, frame.opcode, mask_key is Some, len);
    lemma_first_short(frame.fin, frame.opcode, mask_key is Some, len);
    lemma_pow_256();
    lemma_be_bytes_len(short, 2);
    lemma_be_round_trip(short, 2);
    assert(frame_bytes(frame, mask_key).take(2) =~= be_bytes(short, 2));
}

/// What stands at the start of a buffer does not change when more arrives
/// behind it, once it is a whole frame or malformed.
pub proof fn law_parse_ignores_what_follows(buffer: Seq<u8>, more: Seq<u8>, max_len: nat)
    requires
        !(frame_parse(buffer, max_len) is Incomplete),
    ensures
        frame_parse(buffer + more, max_len) == frame_parse(buffer, max_len),
{
    let all = buffer + more;
    let short = be_value(buffer.take(2));
    let len_end = 2 + length_size(short) as int;
    let start = header_size(short) as int;
    assert(all.take(2) =~= buffer.take(2));
    if buffer.len() >= start {
        assert(all.subrange(2, len_end) =~= buffer.subrange(2, len_end));
        if short_masked(short) {
            assert(all.subrange(len_end, len_end + 4) =~= buffer.subrange(len_end, len_end + 4));
        }
        if let FrameParse::Complete { size, .. } = frame_parse(buffer, max_len) {
            assert(all.subrange(start, size as int) =~= buffer.subrange(start, size as int));
        }
    }
}

/// A part of a frame is not taken for a frame, nor for an error.
pub proof fn law_partial_frame_waits(
    frame: FrameModel,
    mask_key: Option<u32>,
    part: int,
    max_len: nat,
)
    requires
        sendable_frame(frame),
        frame.payload.len() <= max_len,
        frame_bytes(frame, mask_key).len() <= usize::MAX,
        0 <= part < frame_bytes(frame, mask_key).len(),
    ensures
        frame_parse(frame_bytes(frame, mask_key).take(part), max_len) is Incomplete,
{
    let bytes = frame_bytes(frame, mask_key);
    law_frame_round_trip(frame, mask_key, seq![], max_len);
    assert(bytes + seq![] =~= bytes);
    if !(frame_parse(bytes.take(part), max_len) is Incomplete) {
        law_parse_ignores_what_follows(bytes.take(part), bytes.skip(part), max_len);
        assert(bytes.take(part) + bytes.skip(part) =~= bytes);
    }
}

/// What has been read of a message is kept while the rest is awaited: however
/// the received bytes are split, reading comes to the same in the end.
pub proof fn law_reading_resumes(phase: Phase, received: Seq<u8>, more: Seq<u8>, max_len: nat)
    ensures
        ({
            let first = reading(phase, received, max_len);
            let whole = reading(phase, received + more, max_len);
            if first.outcome is NeedData {
                whole == reading(first.phase, first.received + more, max_len)
            } else {
                whole == Reading { received: first.received + more, ..first }
            }
        }),
    decreases received.len(),
{
    match frame_parse(received, max_len) {
        FrameParse::Incomplete => {},
        FrameParse::Malformed(_) => {
            law_parse_ignores_what_follows(received, more, max_len);
        },
        FrameParse::Complete { frame, size } => {
            law_parse_ignores_what_follows(received, more, max_len);
            let next = on_frame(phase, frame).0;
            assert((received + more).skip(size as int) =~= received.skip(size as int) + more);
            law_reading_resumes(next, received.skip(size as int), more, max_len);
        },
    }
}

/// Reading takes bytes from the front of what was received, and leaves the rest
/// as it was.
pub proof fn law_reading_takes_from_the_front(phase: Phase, received: Seq<u8>, max_len: nat)
    ensures
        reading(phase, received, max_len).received.is_suffix_of(received),
    decreases received.len(),
{
    let left = reading(phase, received, max_len).received;
    match frame_parse(received, max_len) {
        FrameParse::Complete { frame, size } if refusal(phase) is None => {
            let rest = received.skip(size as int);
            law_reading_takes_from_the_front(on_frame(phase, frame).0, rest, max_len);
            assert(left.is_suffix_of(rest));
            assert(left =~= received.skip(received.len() - left.len()));
        },
        _ => {
            assert(left == received);
        },
    }
}

/// The fragments of a message, laid end to end, are its payload; none is longer
/// than the fragment size, unless the message controls the connection.
pub proof fn law_fragments_make_the_payload(message: MessageModel, fragment_size: nat)
    requires
        fragment_size > 0,
    ensures
        ({
            let frames = message_frames(message, fragment_size);
            &&& frames.len() >= 1
            &&& frames_payload(frames) == message.payload()
            &&& frames[0].opcode == message.opcode()
            &&& forall|i: int| 1 <= i < frames.len() ==> frames[i].opcode is Continuation
            &&& forall|i: int| 0 <= i < frames.len() ==> (frames[i].fin <==> i + 1 == frames.len())
            &&& message.opcode().control() ==> frames.len() == 1
            &&& !message.opcode().control() ==> forall|i: int|
                0 <= i < frames.len() ==> frames[i].payload.len() <= fragment_size
        }),
{
    let payload = message.payload();
    let frames = message_frames(message, fragment_size);
    if payload.len() <= fragment_size || message.opcode().control() {
        assert(frames.drop_last() =~= seq![]);
        reveal_with_fuel(frames_payload, 2);
        assert(frames_payload(frames) =~= payload);
    } else {
        let count = fragment_count(payload.len(), fragment_size);
        lemma_fragments(payload.len(), fragment_size, (count - 1) as nat);
        lemma_fragments(payload.len(), fragment_size, 0);
        assert forall|i: int| 0 <= i < frames.len() implies frames[i].payload.len()
            <= fragment_size by {
            lemma_fragments(payload.len(), fragment_size, i as nat);
        }
        lemma_payload_of_fragments(message, fragment_size, count);
        assert(frames.take(count as int) =~= frames);
        assert(payload.take(payload.len() as int) =~= payload);
    }
}

/// The payloads of the frames, laid end to end
pub open spec fn frames_payload(frames: Seq<FrameModel>) -> Seq<u8>
    decreases frames.len(),
{
    if frames.len() == 0 {
        seq![]
    } else {
        frames_payload(frames.drop_last()) + frames.last().payload
    }
}

/// Where the first `count` fragments end
spec fn fragments_end(len: nat, fragment_size: nat, count: nat) -> int {
    if count * fragment_size < len {
        (count * fragment_size) as int
    } else {
        len as int
    }
}

proof fn lemma_payload_of_fragments(message: MessageModel, fragment_size: nat, count: nat)
    requires
        0 < fragment_size < message.payload().len(),
        !message.opcode().control(),
        count <= message_frames(message, fragment_size).len(),
    ensures
        frames_payload(message_frames(message, fragment_size).take(count as int))
            == message.payload().take(fragments_end(message.payload().len(), fragment_size, count)),
    decreases count,
{
    let payload = message.payload();
    let frames = message_frames(message, fragment_size);
    if count == 0 {
        assert(0 * fragment_size == 0) by (nonlinear_arith);
        assert(frames_payload(frames.take(0)) =~= payload.take(0));
    } else {
        let before = (count - 1) as nat;
        lemma_fragments(payload.len(), fragment_size, before);
        lemma_payload_of_fragments(message, fragment_size, before);
        assert(frames.take(count as int).drop_last() =~= frames.take(before as int));
        assert(frames.take(count as int).last() == frames[before as int]);
        assert(payload.take(fragments_end(payload.len(), fragment_size, before)) + fragment(
            payload,
            fragment_size,
            before as int,
        ) =~= payload.take(fragments_end(payload.len(), fragment_size, count)));
    }
}

proof fn lemma_frames_bytes_first(frames: Seq<FrameModel>, mask_key: Option<u32>)
    requires
        frames.len() > 0,
    ensures
        frames_bytes(frames, mask_key) == frame_bytes(frames[0], mask_key) + frames_bytes(
            frames.skip(1),
            mask_key,
        ),
    decreases frames.len(),
{
    if frames.len() == 1 {
        assert(frames.drop_last() =~= seq![]);
        assert(frames.skip(1) =~= seq![]);
        reveal_with_fuel(frames_bytes, 2);
        assert(frames_bytes(frames, mask_key) =~= frame_bytes(frames[0], mask_key) + frames_bytes(
            frames.skip(1),
            mask_key,
        ));
    } else {
        lemma_frames_bytes_first(frames.drop_last(), mask_key);
        assert(frames.drop_last().skip(1) =~= frames.skip(1).drop_last());
        assert(frames.skip(1).last() == frames.last());
        assert(frames_bytes(frames, mask_key) =~= frame_bytes(frames[0], mask_key) + frames_bytes(
            frames.skip(1),
            mask_key,
        ));
    }
}

/// Whether a message can be sent and received: a control message fits into one
/// short frame, a close message is empty or holds a status, no frame is longer
/// than the receiver accepts, and a frame of that size can be counted
pub open spec fn deliverable(message: MessageModel, fragment_size: nat, max_len: nat) -> bool {
    let len = message.payload().len();
    &&& message.opcode().control() ==> len <= 125 && len <= max_len
    &&& len <= max_len || fragment_size <= max_len
    &&& message matches MessageModel::Close(Some(bytes)) ==> bytes.len() >= 2
    &&& len + 14 <= usize::MAX
}

/// What fragments of the message make
spec fn kind_of(message: MessageModel) -> DataKind {
    if message is Text {
        DataKind::Text
    } else {
        DataKind::Binary
    }
}

proof fn lemma_frame_size(frame: FrameModel, mask_key: Option<u32>)
    ensures
        2 <= frame_bytes(frame, mask_key).len() <= frame.payload.len() + 14,
{
    let len = frame.payload.len();
    lemma_be_bytes_len(
        first_short_value(frame.fin, frame.opcode, mask_key is Some, len),
        2,
    );
    lemma_be_bytes_len(len, 2);
    lemma_be_bytes_len(len, 8);
    if let Some(key) = mask_key {
        lemma_be_bytes_len(key as nat, 4);
    }
}

/// Reading a frame at the start of the received bytes.
pub proof fn lemma_read_frame(
    phase: Phase,
    frame: FrameModel,
    mask_key: Option<u32>,
    rest: Seq<u8>,
    max_len: nat,
)
    requires
        refusal(phase) is None,
        sendable_frame(frame),
        frame.payload.len() <= max_len,
        frame.payload.len() + 14 <= usize::MAX,
    ensures
        ({
            let (next, outcome) = on_frame(phase, frame);
            reading(phase, frame_bytes(frame, mask_key) + rest, max_len) == if outcome is NeedData {
                reading(next, rest, max_len)
            } else {
                Reading { phase: next, received: rest, outcome }
            }
        }),
{
    let bytes = frame_bytes(frame, mask_key);
    lemma_frame_size(frame, mask_key);
    law_frame_round_trip(frame, mask_key, rest, max_len);
    assert((bytes + rest).skip(bytes.len() as int) =~= rest);
}

/// The fragments that are still to come complete the message.
proof fn lemma_read_rest(
    message: MessageModel,
    fragment_size: nat,
    mask_key: Option<u32>,
    i: nat,
    phase: Phase,
    rest: Seq<u8>,
    max_len: nat,
)
    requires
        deliverable(message, fragment_size, max_len),
        0 < fragment_size < message.payload().len(),
        !message.opcode().control(),
        1 <= i < message_frames(message, fragment_size).len(),
        ({
            let kind = kind_of(message);
            let payload = message.payload().take((i * fragment_size) as int);
            phase == (Phase::Fragmented { kind, payload }) || phase == (Phase::PartialRead {
                kind,
                payload,
            })
        }),
    ensures
        reading(
            phase,
            frames_bytes(message_frames(message, fragment_size).skip(i as int), mask_key) + rest,
            max_len,
        ) == (Reading {
            phase: Phase::Open,
            received: rest,
            outcome: ReadOutcome::Deliver(message),
        }),
    decreases message_frames(message, fragment_size).len() - i,
{
    let payload = message.payload();
    let frames = message_frames(message, fragment_size);
    let left = frames.skip(i as int);
    let frame = frames[i as int];
    let tail = frames_bytes(left.skip(1), mask_key) + rest;
    lemma_fragments(payload.len(), fragment_size, i);
    lemma_frames_bytes_first(left, mask_key);
    assert(left[0] == frame);
    assert(frames_bytes(left, mask_key) + rest =~= frame_bytes(frame, mask_key) + tail);
    lemma_read_frame(phase, frame, mask_key, tail, max_len);
    let so_far = payload.take((i * fragment_size) as int);
    if i + 1 == frames.len() {
        assert(so_far + frame.payload =~= payload);
        lemma_text_comes_back(message);
        assert(left.skip(1) =~= seq![]);
        assert(tail =~= rest);
    } else {
        assert(so_far + frame.payload =~= payload.take(((i + 1) * fragment_size) as int));
        assert(left.skip(1) =~= frames.skip((i + 1) as int));
        lemma_read_rest(
            message,
            fragment_size,
            mask_key,
            i + 1,
            on_frame(phase, frame).0,
            rest,
            max_len,
        );
    }
}

proof fn lemma_text_comes_back(message: MessageModel)
    ensures
        message matches MessageModel::Text(text) ==> valid_utf8(message.payload()) && decode_utf8(
            message.payload(),
        ) == text,
{
    if let MessageModel::Text(text) = message {
        encode_utf8_valid_utf8(text);
        encode_utf8_decode_utf8(text);
    }
}

/// A message that was sent reaches the other end as that message, whatever the
/// fragment size, masked or not; what was sent behind it stays to be read.
pub proof fn law_message_round_trip(
    message: MessageModel,
    fragment_size: nat,
    mask_key: Option<u32>,
    rest: Seq<u8>,
    max_len: nat,
)
    requires
        fragment_size > 0,
        deliverable(message, fragment_size, max_len),
    ensures
        reading(Phase::Open, message_bytes(message, fragment_size, mask_key) + rest, max_len) == (
        Reading { phase: Phase::Open, received: rest, outcome: ReadOutcome::Deliver(message) }),
{
    let payload = message.payload();
    let frames = message_frames(message, fragment_size);
    lemma_text_comes_back(message);
    law_fragments_make_the_payload(message, fragment_size);
    lemma_frames_bytes_first(frames, mask_key);
    let tail = frames_bytes(frames.skip(1), mask_key) + rest;
    assert(frames_bytes(frames, mask_key) + rest =~= frame_bytes(frames[0], mask_key) + tail);
    lemma_read_frame(Phase::Open, frames[0], mask_key, tail, max_len);
    if frames.len() == 1 {
        assert(frames.skip(1) =~= seq![]);
        assert(tail =~= rest);
        if !message.opcode().control() && payload.len() > fragment_size {
            lemma_fragments(payload.len(), fragment_size, 0);
        }
    } else {
        lemma_fragments(payload.len(), fragment_size, 0);
        assert(0 * fragment_size == 0) by (nonlinear_arith);
        assert(frames[0].payload =~= payload.take(fragment_size as int));
        lemma_read_rest(
            message,
            fragment_size,
            mask_key,
            1,
            on_frame(Phase::Open, frames[0]).0,
            rest,
            max_len,
        );
    }
}

/// What so many reads, one after the other, do to a connection
pub struct Reads {
    pub phase: Phase,
    pub received: Seq<u8>,
    pub outcomes: Seq<ReadOutcome>,
}

/// What so many reads of the received bytes, one after the other, come to
pub open spec fn reads(phase: Phase, received: Seq<u8>, max_len: nat, count: nat) -> Reads
    decreases count,
{
    if count == 0 {
        Reads { phase, received, outcomes: seq![] }
    } else {
        let first = reading(phase, received, max_len);
        let later = reads(first.phase, first.received, max_len, (count - 1) as nat);
        Reads { outcomes: seq![first.outcome] + later.outcomes, ..later }
    }
}

/// A frame, and what masks it on the wire
pub struct SentFrame {
    pub frame: FrameModel,
    pub mask_key: Option<u32>,
}

/// The frames on the wire, each under its own mask
pub open spec fn sent_bytes(sent: Seq<SentFrame>) -> Seq<u8>
    decreases sent.len(),
{
    if sent.len() == 0 {
        seq![]
    } else {
        frame_bytes(sent[0].frame, sent[0].mask_key) + sent_bytes(sent.skip(1))
    }
}

/// Those of the frames that do not control the connection
pub open spec fn data_frames(sent: Seq<SentFrame>) -> Seq<FrameModel>
    decreases sent.len(),
{
    if sent.len() == 0 {
        seq![]
    } else if sent[0].frame.opcode.control() {
        data_frames(sent.skip(1))
    } else {
        seq![sent[0].frame] + data_frames(sent.skip(1))
    }
}

/// What reading those of the frames comes to that control the connection
pub open spec fn control_outcomes(sent: Seq<SentFrame>) -> Seq<ReadOutcome>
    decreases sent.len(),
{
    if sent.len() == 0 {
        seq![]
    } else if sent[0].frame.opcode.control() {
        seq![ReadOutcome::Deliver(control_message(sent[0].frame))] + control_outcomes(sent.skip(1))
    } else {
        control_outcomes(sent.skip(1))
    }
}

/// Whether a receiver takes the frame for what it is: it may be sent, it is not
/// longer than the receiver accepts, and a frame of that size can be counted
pub open spec fn receivable(frame: FrameModel, max_len: nat) -> bool {
    &&& sendable_frame(frame)
    &&& frame.payload.len() <= max_len
    &&& frame.payload.len() + 14 <= usize::MAX
}

/// Whether each of the frames can be received and is data, a ping or a pong, and
/// the last one is data
pub open spec fn data_and_pings(sent: Seq<SentFrame>, max_len: nat) -> bool {
    &&& forall|i: int|
        0 <= i < sent.len() ==> receivable((#[trigger] sent[i]).frame, max_len)
            && !(sent[i].frame.opcode is Close)
    &&& sent.len() > 0 ==> !sent.last().frame.opcode.control()
}

/// Whether the frames are the fragments of one message, the last of which alone
/// ends it, with any number of pings and pongs between them
pub open spec fn interrupted_fragments(sent: Seq<SentFrame>, max_len: nat) -> bool {
    let data = data_frames(sent);
    &&& sent.len() > 0
    &&& data_and_pings(sent, max_len)
    &&& sent[0].frame.opcode is Text || sent[0].frame.opcode is Binary
    &&& forall|i: int| 1 <= i < data.len() ==> (#[trigger] data[i]).opcode is Continuation
    &&& forall|i: int|
        0 <= i < data.len() ==> ((#[trigger] data[i]).fin <==> i + 1 == data.len())
}

/// Where the last frame is data, there is data.
proof fn lemma_some_data(sent: Seq<SentFrame>)
    requires
        sent.len() > 0,
        !sent.last().frame.opcode.control(),
    ensures
        data_frames(sent).len() > 0,
    decreases sent.len(),
{
    if sent[0].frame.opcode.control() {
        assert(sent.skip(1).last() == sent.last());
        lemma_some_data(sent.skip(1));
    }
}

/// The payload of frames starts with that of the first.
proof fn lemma_frames_payload_first(frame: FrameModel, later: Seq<FrameModel>)
    ensures
        frames_payload(seq![frame] + later) == frame.payload + frames_payload(later),
    decreases later.len(),
{
    let frames = seq![frame] + later;
    if later.len() == 0 {
        assert(frames.drop_last() =~= seq![]);
        reveal_with_fuel(frames_payload, 2);
    } else {
        lemma_frames_payload_first(frame, later.drop_last());
        assert(frames.drop_last() =~= seq![frame] + later.drop_last());
        assert(frames.last() == later.last());
    }
    assert(frames_payload(frames) =~= frame.payload + frames_payload(later));
}

/// The phase with fragments read, with or without a ping or pong among them
spec fn partly_read(kind: DataKind, payload: Seq<u8>, interrupted: bool) -> Phase {
    if interrupted {
        Phase::PartialRead { kind, payload }
    } else {
        Phase::Fragmented { kind, payload }
    }
}

/// The error of a message that is not text, with or without a ping or pong among
/// its fragments
pub open spec fn not_text(interrupted: bool) -> Utf8Error {
    if interrupted {
        Utf8Error::TextMessagePartialRead
    } else {
        Utf8Error::TextMessage
    }
}

/// The fragments that are still to come complete the message, with pings and
/// pongs handed over on the way.
proof fn lemma_read_interrupted(
    sent: Seq<SentFrame>,
    kind: DataKind,
    payload: Seq<u8>,
    interrupted: bool,
    rest: Seq<u8>,
    max_len: nat,
)
    requires
        sent.len() > 0,
        data_and_pings(sent, max_len),
        forall|i: int|
            0 <= i < data_frames(sent).len() ==> (#[trigger] data_frames(
                sent,
            )[i]).opcode is Continuation,
        forall|i: int|
            0 <= i < data_frames(sent).len() ==> ((#[trigger] data_frames(sent)[i]).fin <==> i + 1
                == data_frames(sent).len()),
    ensures
        reads(
            partly_read(kind, payload, interrupted),
            sent_bytes(sent) + rest,
            max_len,
            control_outcomes(sent).len() + 1,
        ) == (Reads {
            phase: Phase::Open,
            received: rest,
            outcomes: control_outcomes(sent).push(
                finished(
                    kind,
                    payload + frames_payload(data_frames(sent)),
                    not_text(interrupted || control_outcomes(sent).len() > 0),
                ),
            ),
        }),
    decreases sent.len(),
{
    let phase = partly_read(kind, payload, interrupted);
    let later = sent.skip(1);
    let tail = sent_bytes(later) + rest;
    let frame = sent[0].frame;
    let data = data_frames(sent);
    let later_data = data_frames(later);
    let all = sent_bytes(sent) + rest;
    let count = control_outcomes(sent).len() + 1;
    assert(receivable(sent[0].frame, max_len));
    assert(all =~= frame_bytes(frame, sent[0].mask_key) + tail);
    lemma_read_frame(phase, frame, sent[0].mask_key, tail, max_len);
    assert forall|i: int| 0 <= i < later.len() implies receivable(
        (#[trigger] later[i]).frame,
        max_len,
    ) && !(later[i].frame.opcode is Close) by {
        assert(later[i] == sent[i + 1]);
    }
    if later.len() > 0 {
        assert(later.last() == sent.last());
        lemma_some_data(later);
    }
    if frame.opcode.control() {
        lemma_read_interrupted(later, kind, payload, true, rest, max_len);
        let after = reads(Phase::PartialRead { kind, payload }, tail, max_len, (count - 1) as nat);
        assert(reads(phase, all, max_len, count).outcomes =~= control_outcomes(sent).push(
            after.outcomes.last(),
        ));
    } else {
        assert(data[0] == frame);
        lemma_frames_payload_first(frame, later_data);
        if later.len() == 0 {
            assert(later_data =~= seq![]);
            assert(tail =~= rest);
            assert(payload + frames_payload(data) =~= payload + frame.payload);
            reveal_with_fuel(reads, 2);
            assert(reads(phase, all, max_len, count).outcomes =~= control_outcomes(sent).push(
                finished(kind, payload + frame.payload, not_text(interrupted)),
            ));
        } else {
            assert forall|i: int| 0 <= i < later_data.len() implies (
            #[trigger] later_data[i]).opcode is Continuation && (later_data[i].fin <==> i + 1
                == later_data.len()) by {
                assert(later_data[i] == data[i + 1]);
            }
            lemma_read_interrupted(
                later,
                kind,
                payload + frame.payload,
                interrupted,
                rest,
                max_len,
            );
            assert(payload + frames_payload(data) =~= payload + frame.payload + frames_payload(
                later_data,
            ));
        }
    }
}

/// Fragments of a message, with any number of pings and pongs between them, are
/// read as the pings and pongs, in order, and then the whole message; what was
/// sent behind them stays to be read.
pub proof fn law_interrupted_fragments(sent: Seq<SentFrame>, rest: Seq<u8>, max_len: nat)
    requires
        interrupted_fragments(sent, max_len),
    ensures
        ({
            let controls = control_outcomes(sent);
            let kind = if sent[0].frame.opcode is Text {
                DataKind::Text
            } else {
                DataKind::Binary
            };
            reads(Phase::Open, sent_bytes(sent) + rest, max_len, controls.len() + 1) == (Reads {
                phase: Phase::Open,
                received: rest,
                outcomes: controls.push(
                    finished(
                        kind,
                        frames_payload(data_frames(sent)),
                        not_text(controls.len() > 0),
                    ),
                ),
            })
        }),
{
    let frame = sent[0].frame;
    let kind = if frame.opcode is Text {
        DataKind::Text
    } else {
        DataKind::Binary
    };
    let later = sent.skip(1);
    let tail = sent_bytes(later) + rest;
    let data = data_frames(sent);
    let later_data = data_frames(later);
    let all = sent_bytes(sent) + rest;
    let count = control_outcomes(sent).len() + 1;
    assert(receivable(sent[0].frame, max_len));
    assert(all =~= frame_bytes(frame, sent[0].mask_key) + tail);
    lemma_read_frame(Phase::Open, frame, sent[0].mask_key, tail, max_len);
    assert(data[0] == frame);
    lemma_frames_payload_first(frame, later_data);
    if later.len() == 0 {
        assert(later_data =~= seq![]);
        assert(tail =~= rest);
        assert(frames_payload(data) =~= frame.payload);
        reveal_with_fuel(reads, 2);
        assert(reads(Phase::Open, all, max_len, count).outcomes =~= control_outcomes(sent).push(
            finished(kind, frame.payload, Utf8Error::TextMessage),
        ));
    } else {
        assert(later.last() == sent.last());
        lemma_some_data(later);
        assert forall|i: int| 0 <= i < later.len() implies receivable(
            (#[trigger] later[i]).frame,
            max_len,
        ) && !(later[i].frame.opcode is Close) by {
            assert(later[i] == sent[i + 1]);
        }
        assert forall|i: int| 0 <= i < later_data.len() implies (
        #[trigger] later_data[i]).opcode is Continuation && (later_data[i].fin <==> i + 1
            == later_data.len()) by {
            assert(later_data[i] == data[i + 1]);
        }
        lemma_read_interrupted(later, kind, frame.payload, false, rest, max_len);
    }
}

/// A frame that does not control the connection is among the data.
proof fn lemma_is_data(sent: Seq<SentFrame>, i: int)
    requires
        0 <= i < sent.len(),
        !sent[i].frame.opcode.control(),
    ensures
        data_frames(sent).contains(sent[i].frame),
    decreases sent.len(),
{
    let data = data_frames(sent);
    let later = sent.skip(1);
    if i == 0 {
        assert(data[0] == sent[0].frame);
    } else {
        lemma_is_data(later, i - 1);
        let j = data_frames(later).index_of(sent[i].frame);
        assert(data_frames(later)[j] == later[i - 1].frame);
        if sent[0].frame.opcode.control() {
            assert(data[j] == sent[i].frame);
        } else {
            assert(data[j + 1] == sent[i].frame);
        }
    }
}

/// Pings and pongs between the fragments of a message, however many and wherever,
/// are handed over first, in order, and the message reaches the other end all the
/// same.
pub proof fn law_interrupted_message(
    message: MessageModel,
    fragment_size: nat,
    sent: Seq<SentFrame>,
    rest: Seq<u8>,
    max_len: nat,
)
    requires
        message is Text || message is Binary,
        fragment_size > 0,
        deliverable(message, fragment_size, max_len),
        data_frames(sent) == message_frames(message, fragment_size),
        forall|i: int|
            0 <= i < sent.len() && (#[trigger] sent[i]).frame.opcode.control() ==> receivable(
                sent[i].frame,
                max_len,
            ) && !(sent[i].frame.opcode is Close),
        sent.len() > 0,
        !sent[0].frame.opcode.control(),
        !sent.last().frame.opcode.control(),
    ensures
        reads(
            Phase::Open,
            sent_bytes(sent) + rest,
            max_len,
            control_outcomes(sent).len() + 1,
        ) == (Reads {
            phase: Phase::Open,
            received: rest,
            outcomes: control_outcomes(sent).push(ReadOutcome::Deliver(message)),
        }),
{
    let frames = message_frames(message, fragment_size);
    law_fragments_make_the_payload(message, fragment_size);
    lemma_text_comes_back(message);
    assert(frames[0] == sent[0].frame);
    assert forall|i: int| 0 <= i < sent.len() implies receivable(
        (#[trigger] sent[i]).frame,
        max_len,
    ) && !(sent[i].frame.opcode is Close) by {
        if !sent[i].frame.opcode.control() {
            lemma_is_data(sent, i);
            let j = frames.index_of(sent[i].frame);
            assert(frames[j] == sent[i].frame);
            lemma_fragment_len(message, fragment_size, j);
        }
    }
    law_interrupted_fragments(sent, rest, max_len);
}

/// A fragment is not longer than the message.
proof fn lemma_fragment_len(message: MessageModel, fragment_size: nat, i: int)
    requires
        fragment_size > 0,
        0 <= i < message_frames(message, fragment_size).len(),
    ensures
        message_frames(message, fragment_size)[i].payload.len() <= message.payload().len(),
{
    let len = message.payload().len();
    if len > fragment_size && !message.opcode().control() {
        lemma_fragments(len, fragment_size, i as nat);
    }
}

/// Before the handshake every use of a websocket is refused, and what has been
/// received stays unread.
pub proof fn law_nothing_before_the_handshake(socket: SocketModel)
    requires
        socket.phase is NoHandshake,
    ensures
        refusal(socket.phase) == Some(ErrorModel::NoHandshake),
        send_refusal(socket) == Some(ErrorModel::NoHandshake),
        reading(socket.phase, socket.received, socket.max_payload_len as nat) == (Reading {
            phase: socket.phase,
            received: socket.received,
            outcome: ReadOutcome::Fail(ErrorModel::NoHandshake),
        }),
{
}

/// Once the transport has ended every use of a websocket is refused.
pub proof fn law_nothing_after_the_end(socket: SocketModel)
    requires
        socket.phase is Closed,
    ensures
        refusal(socket.phase) == Some(ErrorModel::WasClosed),
        send_refusal(socket) == Some(ErrorModel::WasClosed),
        reading(socket.phase, socket.received, socket.max_payload_len as nat) == (Reading {
            phase: socket.phase,
            received: socket.received,
            outcome: ReadOutcome::Fail(ErrorModel::WasClosed),
        }),
{
}

/// Once a close message has been sent no other message can be, while messages
/// can still be read unless the transport has ended.
pub proof fn law_nothing_sent_after_a_close(socket: SocketModel)
    requires
        socket.wf(),
        socket.close_sent,
    ensures
        send_refusal(socket) == Some(ErrorModel::WasClosed),
        refusal(socket.phase) is None <==> !(socket.phase is Closed),
{
}

/// The answer to a ping is the pong with the data of the ping, and any other
/// message answers itself.
pub proof fn law_pong_answers_ping(message: MessageModel)
    ensures
        message matches MessageModel::Ping(data) ==> message.pong() == MessageModel::Pong(data),
        message.pong().payload() == message.payload(),
        !(message.pong() is Ping),
        !(message is Ping) ==> message.pong() == message,
        message.pong().pong() == message.pong(),
{
}

} // verus!
