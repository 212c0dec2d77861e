use snarkos_node::codec::{CodecError, Payload};
use snarkos_node::frame::{read_header, read_message, write_message, FrameError, MAX_MESSAGE_SIZE};

#[test]
fn frame_round_trip() {
    let payload = Payload::Transaction(vec![1, 2, 3]);
    let frame = write_message(&payload).unwrap();
    assert_eq!(&frame[..4], &[0, 0, 0, 8]);
    let len = read_header(&frame[..4]).unwrap();
    assert_eq!(len, 8);
    assert_eq!(read_message(&frame[4..4 + len]).unwrap(), payload);
}

#[test]
fn oversize_frame_is_refused() {
    assert_eq!(read_header(&[0, 0x80, 0, 1]), Err(FrameError::TooBig(0x0080_0001, MAX_MESSAGE_SIZE)));
    assert_eq!(read_header(&[0, 0x80, 0, 0]), Ok(MAX_MESSAGE_SIZE));
    let big = Payload::Block(vec![0; MAX_MESSAGE_SIZE]);
    assert_eq!(write_message(&big), Err(FrameError::TooBig(MAX_MESSAGE_SIZE + 5, MAX_MESSAGE_SIZE)));
}

#[test]
fn malformed_frame_body_is_refused() {
    assert_eq!(read_message(&[42]), Err(FrameError::Codec(CodecError::Malformed)));
}
