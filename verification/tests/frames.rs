use bytes::BytesMut;
use molybdenite::frame::{
    first_short, num_to_opcode, parse_frame, rsv_set, short_to_opcode, unmask_payload, Frame,
    FrameStream, Opcode,
};
use molybdenite::{Error, FrameError, Message, MessageRef};

fn parse(bytes: &[u8], max_len: usize) -> (Result<Option<Frame>, Error>, Vec<u8>) {
    let mut buffer = BytesMut::from(bytes);
    let result = parse_frame(&mut buffer, max_len);
    (result, buffer.to_vec())
}

fn parsed(bytes: &[u8]) -> (bool, Opcode, Vec<u8>) {
    let (frame, rest) = parse(bytes, 1000);
    let frame = frame.unwrap().expect("a whole frame");
    assert!(rest.is_empty());
    (frame.fin(), frame.opcode(), frame.payload())
}

fn refused(bytes: &[u8], max_len: usize) -> FrameError {
    let (result, rest) = parse(bytes, max_len);
    assert_eq!(rest, bytes);
    match result {
        Err(Error::Frame(error)) => error,
        _ => panic!("the frame is malformed"),
    }
}

#[test]
fn unmasked_text_frame() {
    let frame = [0x81, 0x05, 0x48, 0x65, 0x6c, 0x6c, 0x6f];
    assert_eq!(parsed(&frame), (true, Opcode::Text, b"Hello".to_vec()));
}

#[test]
fn masked_text_frame() {
    let frame = [0x81, 0x85, 0x37, 0xfa, 0x21, 0x3d, 0x7f, 0x9f, 0x4d, 0x51, 0x58];
    assert_eq!(parsed(&frame), (true, Opcode::Text, b"Hello".to_vec()));
}

#[test]
fn lengths_of_two_and_eight_bytes() {
    let mut frame = vec![0x82, 0x7e, 0x01, 0x00];
    frame.extend([7; 256]);
    assert_eq!(parsed(&frame), (true, Opcode::Binary, vec![7; 256]));
    let mut frame = vec![0x02, 0x7f, 0, 0, 0, 0, 0, 0, 0, 0x02];
    frame.extend([1, 2]);
    assert_eq!(parsed(&frame), (false, Opcode::Binary, vec![1, 2]));
}

#[test]
fn what_follows_a_frame_stays() {
    let (frame, rest) = parse(&[0x8a, 0x01, 0x2a, 0x81, 0x05], 1000);
    let frame = frame.unwrap().unwrap();
    assert_eq!(frame.opcode(), Opcode::Pong);
    assert_eq!(frame.payload(), [0x2a]);
    assert_eq!(rest, [0x81, 0x05]);
}

#[test]
fn part_of_a_frame_waits() {
    let frame = [0x81, 0x85, 0x37, 0xfa, 0x21, 0x3d, 0x7f, 0x9f, 0x4d, 0x51, 0x58];
    for len in 0..frame.len() {
        let (result, rest) = parse(&frame[..len], 1000);
        assert!(matches!(result, Ok(None)));
        assert_eq!(rest, &frame[..len]);
    }
}

#[test]
fn malformed_frames() {
    assert_eq!(refused(&[0x83, 0x00], 1000), FrameError::ReservedOpcode);
    assert_eq!(refused(&[0x09, 0x00], 1000), FrameError::FragmentedControl);
    assert_eq!(refused(&[0x89, 0x7e], 1000), FrameError::LargeControl);
    assert_eq!(refused(&[0xc1, 0x00], 1000), FrameError::RsvSet);
    assert_eq!(refused(&[0xa1, 0x00], 1000), FrameError::RsvSet);
    assert_eq!(refused(&[0x91, 0x00], 1000), FrameError::RsvSet);
    assert_eq!(refused(&[0x81, 0x05], 4), FrameError::FramePayloadTooLong);
    let mut huge = vec![0x82, 0x7f];
    huge.extend([0xff; 8]);
    assert_eq!(refused(&huge, usize::MAX), FrameError::FrameTooLong);
}

#[test]
fn the_opcode_is_judged_first() {
    // Reserved opcode, reserved bit and too long a payload, all at once.
    assert_eq!(refused(&[0xff, 0x7f], 0), FrameError::ReservedOpcode);
    assert_eq!(refused(&[0x79, 0x7f], 0), FrameError::FragmentedControl);
    assert_eq!(refused(&[0xf9, 0x7f], 0), FrameError::LargeControl);
}

#[test]
fn payload_of_the_longest_length() {
    let (result, _) = parse(&[0x81, 0x03, 1, 2, 3], 3);
    assert!(matches!(result, Ok(Some(_))));
    let (result, _) = parse(&[0x81, 0x03, 1, 2, 3], 2);
    assert!(matches!(result, Err(Error::Frame(FrameError::FramePayloadTooLong))));
}

#[test]
fn masking_undoes_itself() {
    let mut payload = *b"a longer payload than the key";
    unmask_payload(&mut payload, 0x12345678);
    assert_eq!(&payload[..5], &[b'a' ^ 0x12, b' ' ^ 0x34, b'l' ^ 0x56, b'o' ^ 0x78, b'n' ^ 0x12]);
    unmask_payload(&mut payload, 0x12345678);
    assert_eq!(&payload, b"a longer payload than the key");
}

#[test]
fn opcodes_have_numbers() {
    let numbers = [
        (0, Opcode::Continuation),
        (1, Opcode::Text),
        (2, Opcode::Binary),
        (3, Opcode::Reserved),
        (7, Opcode::Reserved),
        (8, Opcode::Close),
        (9, Opcode::Ping),
        (10, Opcode::Pong),
        (11, Opcode::Reserved),
        (15, Opcode::Reserved),
    ];
    for (number, opcode) in numbers {
        assert_eq!(num_to_opcode(number), opcode);
        assert_eq!(short_to_opcode((number as u16) << 8 | 0xf0ff), opcode);
    }
    assert!(!rsv_set(0x8fff));
    assert!(rsv_set(0x1000) && rsv_set(0x2000) && rsv_set(0x4000));
}

#[test]
fn first_two_bytes() {
    assert_eq!(first_short(true, Opcode::Text, None, &[0; 5]), 0x8105);
    assert_eq!(first_short(false, Opcode::Binary, Some(0), &[0; 125]), 0x02fd);
    assert_eq!(first_short(false, Opcode::Continuation, None, &[0; 126]), 0x007e);
    assert_eq!(first_short(true, Opcode::Binary, Some(1), &[0; 65535]), 0x82fe);
    assert_eq!(first_short(true, Opcode::Pong, None, &[0; 65536]), 0x8a7f);
}

#[test]
fn ping_pong_messages() {
    let ping = Opcode::Ping.ping_pong_message(vec![1]);
    assert!(matches!(ping, Ok(Message::Ping(data)) if data == [1]));
    let pong = Opcode::Pong.ping_pong_message(vec![2]);
    assert!(matches!(pong, Ok(Message::Pong(data)) if data == [2]));
    assert!(matches!(
        Opcode::Text.ping_pong_message(vec![]),
        Err(Error::Bug("ping pong opcode not ping or pong?"))
    ));
}

#[test]
fn messages_are_split() {
    let stream = FrameStream::new((), None);
    assert_eq!(
        stream.write_message(MessageRef::Text("Hello"), 3),
        [0x01, 0x03, 0x48, 0x65, 0x6c, 0x80, 0x02, 0x6c, 0x6f]
    );
    assert_eq!(
        stream.write_message(MessageRef::Binary(&[1, 2, 3]), 1),
        [0x02, 0x01, 1, 0x00, 0x01, 2, 0x80, 0x01, 3]
    );
    assert_eq!(stream.write_message(MessageRef::Binary(&[1, 2]), 2), [0x82, 0x02, 1, 2]);
    assert_eq!(stream.write_message(MessageRef::Text(""), 1), [0x81, 0x00]);
    // Control messages are not split.
    assert_eq!(stream.write_message(MessageRef::Ping(&[1, 2]), 1), [0x89, 0x02, 1, 2]);
}

#[test]
fn masked_messages() {
    let stream = FrameStream::new((), Some(0x37fa213d));
    assert_eq!(
        stream.write_message(MessageRef::Text("Hello"), 10),
        [0x81, 0x85, 0x37, 0xfa, 0x21, 0x3d, 0x7f, 0x9f, 0x4d, 0x51, 0x58]
    );
    assert_eq!(stream.write_close(), [0x88, 0x80, 0x37, 0xfa, 0x21, 0x3d]);
    assert_eq!(FrameStream::new((), None).write_close(), [0x88, 0x00]);
}

#[test]
fn long_lengths_on_the_wire() {
    let stream = FrameStream::new((), None);
    let data = vec![9; 65536];
    assert_eq!(stream.write_message(MessageRef::Binary(&data[..126]), 70000)[..4], [0x82, 0x7e, 0, 126]);
    assert_eq!(
        stream.write_message(MessageRef::Binary(&data[..65535]), 70000)[..4],
        [0x82, 0x7e, 0xff, 0xff]
    );
    let bytes = stream.write_message(MessageRef::Binary(&data), 70000);
    assert_eq!(bytes[..10], [0x82, 0x7f, 0, 0, 0, 0, 0, 1, 0, 0]);
    assert_eq!(bytes.len(), 65546);
}

#[test]
fn every_fragment_of_the_right_length() {
    let stream = FrameStream::new((), None);
    // One byte more than fits into the first fragment.
    let data = vec![3; 16777217];
    let bytes = stream.write_message(MessageRef::Binary(&data), 16777216);
    let mut frames = FrameStream::new((), None);
    frames.receive(&bytes);
    let first = frames.read_frame(usize::MAX).unwrap().unwrap();
    assert!(!first.fin());
    assert_eq!(first.payload().len(), 16777216);
    let last = frames.read_frame(usize::MAX).unwrap().unwrap();
    assert!(last.fin());
    assert_eq!(last.opcode(), Opcode::Continuation);
    assert_eq!(last.payload(), [3]);
    assert!(frames.end_of_stream().is_ok());
}

#[test]
fn a_stream_ends_between_frames() {
    let mut frames = FrameStream::new(5, None);
    assert_eq!(*frames.inner_mut(), 5);
    assert!(frames.end_of_stream().is_ok());
    frames.receive(&[0x81]);
    assert!(frames.read_frame(10).unwrap().is_none());
    assert!(matches!(frames.end_of_stream(), Err(Error::Io(_))));
}
