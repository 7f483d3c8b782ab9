use face_service::wire::{decode_be32, encode_be32, encode_frame, frame_step, FrameOutcome};

#[test]
fn be32_encodes_big_endian() {
    assert_eq!(encode_be32(0x01020304), vec![1u8, 2, 3, 4]);
    assert_eq!(encode_be32(0), vec![0u8, 0, 0, 0]);
    assert_eq!(encode_be32(u32::MAX), vec![255u8, 255, 255, 255]);
}

#[test]
fn be32_decodes_what_it_encoded() {
    for n in [0u32, 1, 255, 256, 65535, 0xDEADBEEF, u32::MAX] {
        let b = encode_be32(n);
        assert_eq!(decode_be32(b[0], b[1], b[2], b[3]), n);
    }
}

#[test]
fn frame_is_length_prefix_then_payload() {
    let payload = vec![9u8, 8, 7];
    assert_eq!(encode_frame(&payload), vec![0u8, 0, 0, 3, 9, 8, 7]);
    assert_eq!(encode_frame(&Vec::new()), vec![0u8, 0, 0, 0]);
}

#[test]
fn whole_frame_is_taken_with_its_length() {
    let buf = vec![0u8, 0, 0, 2, 5, 6, 99];
    match frame_step(&buf, false) {
        FrameOutcome::Frame { payload, consumed } => {
            assert_eq!(payload, vec![5u8, 6]);
            assert_eq!(consumed, 6);
        }
        _ => panic!("expected a frame"),
    }
}

#[test]
fn short_buffer_on_open_stream_waits() {
    assert!(matches!(frame_step(&vec![0u8, 0], false), FrameOutcome::NeedMore));
    assert!(matches!(frame_step(&vec![0u8, 0, 0, 5, 1], false), FrameOutcome::NeedMore));
    assert!(matches!(frame_step(&Vec::new(), false), FrameOutcome::NeedMore));
}

#[test]
fn clean_close_before_any_byte_is_end_of_stream() {
    assert!(matches!(frame_step(&Vec::new(), true), FrameOutcome::EndOfStream));
}

#[test]
fn truncated_frame_is_an_error_not_a_crash() {
    // Fewer payload bytes than the declared length, then the stream closes.
    assert!(matches!(frame_step(&vec![0u8, 0, 0, 5, 1, 2], true), FrameOutcome::Truncated));
    // The stream closes in the middle of the length prefix itself.
    assert!(matches!(frame_step(&vec![0u8, 0], true), FrameOutcome::Truncated));
}

#[test]
fn framed_payload_round_trips() {
    let payload = vec![1u8, 2, 3, 4, 5, 6, 7, 8];
    let mut wire = encode_frame(&payload);
    wire.extend_from_slice(&[42u8, 42]);
    match frame_step(&wire, false) {
        FrameOutcome::Frame { payload: got, consumed } => {
            assert_eq!(got, payload);
            assert_eq!(&wire[consumed..], &[42u8, 42]);
        }
        _ => panic!("expected a frame"),
    }
}
