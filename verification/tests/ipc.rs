use scal::ipc::{read_frame, write_frame, FrameError};

#[test]
fn frame_is_length_then_payload() {
    assert_eq!(write_frame(&[7, 8, 9]), vec![3, 0, 0, 0, 0, 0, 0, 0, 7, 8, 9]);
    assert_eq!(write_frame(&[]), vec![0; 8]);
}

#[test]
fn frame_round_trips() {
    let payload: Vec<u8> = (0..=255).collect();
    let mut frame = write_frame(&payload);
    assert_eq!(read_frame(&frame), Ok(payload.clone()));
    frame.extend_from_slice(&[1, 2, 3]);
    assert_eq!(read_frame(&frame), Ok(payload));
}

#[test]
fn short_input_has_no_length() {
    assert_eq!(read_frame(&[1, 0, 0]), Err(FrameError::NoData));
    assert_eq!(read_frame(&[]), Err(FrameError::NoData));
}

#[test]
fn missing_payload_bytes_are_reported() {
    assert_eq!(read_frame(&[4, 0, 0, 0, 0, 0, 0, 0, 1, 2]), Err(FrameError::Incomplete));
}

#[test]
fn huge_length_is_refused() {
    // Where usize has 64 bits the length fits but the bytes are missing.
    let expected = if usize::BITS < 64 { FrameError::TooLarge } else { FrameError::Incomplete };
    assert_eq!(read_frame(&[0xff; 8]), Err(expected));
    if usize::BITS < 64 {
        assert_eq!(read_frame(&[0, 0, 0, 0, 1, 0, 0, 0]), Err(FrameError::TooLarge));
    }
}
