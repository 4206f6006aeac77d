use sherlock::message::{
    encode_frame, frame_header, frame_len, FrameError, ServerResponse, MAX_MESSAGE_LEN,
};

#[test]
fn header_is_big_endian() {
    assert_eq!(frame_header(0x0102_0304).unwrap(), [1, 2, 3, 4]);
    assert_eq!(frame_header(5).unwrap(), [0, 0, 0, 5]);
}

#[test]
fn header_round_trip() {
    for len in [0usize, 1, 255, 256, 65_536, MAX_MESSAGE_LEN] {
        assert_eq!(frame_len(frame_header(len).unwrap()), Ok(len));
    }
}

#[test]
fn oversized_lengths_are_refused() {
    assert_eq!(frame_len([0, 0x10, 0, 1]), Err(FrameError::InvalidSize));
    assert_eq!(frame_len([0xFF, 0xFF, 0xFF, 0xFF]), Err(FrameError::InvalidSize));
    assert_eq!(frame_len([0, 0x10, 0, 0]), Ok(MAX_MESSAGE_LEN));
}

#[test]
fn too_long_for_a_header() {
    assert_eq!(frame_header(u32::MAX as usize + 1), Err(FrameError::TooLong));
}

#[test]
fn frame_carries_payload() {
    let bytes = encode_frame(b"hi!").unwrap();
    assert_eq!(bytes, vec![0, 0, 0, 3, b'h', b'i', b'!']);
    let header = [bytes[0], bytes[1], bytes[2], bytes[3]];
    assert_eq!(frame_len(header), Ok(3));
}

#[test]
fn responses_compare_by_kind() {
    assert!(ServerResponse::Print("a".into()) == ServerResponse::Print("b".into()));
}
