use simple_graphics_controller::frame::{
    frame, parse_frame_header, FrameBuffer, FrameReader, FrameTooLarge, ReadFailure, ReadProgress,
    FRAME_HEADER_LEN, MAX_FRAME_LEN,
};

#[test]
fn headers_are_big_endian() {
    assert_eq!(FRAME_HEADER_LEN, 4);
    assert_eq!(parse_frame_header(&[0, 0, 0, 0]), Ok(0));
    assert_eq!(parse_frame_header(&[0, 0, 0, 25]), Ok(25));
    assert_eq!(parse_frame_header(&[0, 1, 2, 3]), Ok(66051));
    assert_eq!(parse_frame_header(&[0, 0x10, 0, 0]), Ok(MAX_FRAME_LEN));
    assert_eq!(parse_frame_header(&[0, 0x10, 0, 1]), Err(FrameTooLarge { len: 1048577 }));
    assert_eq!(
        parse_frame_header(&[0xff, 0xff, 0xff, 0xff]),
        Err(FrameTooLarge { len: 4294967295 })
    );
}

#[test]
fn payload_is_framed_with_its_length() {
    assert_eq!(frame(&[0xa3, 0x41, 0x63, 0x6b]).unwrap(), vec![0, 0, 0, 4, 0xa3, 0x41, 0x63, 0x6b]);
    assert_eq!(frame(&[]).unwrap(), vec![0, 0, 0, 0]);
    let long = vec![7u8; 66051];
    assert_eq!(&frame(&long).unwrap()[..5], &[0, 1, 2, 3, 7]);
}

#[test]
fn payload_over_the_limit_is_refused() {
    let longest = vec![0u8; MAX_FRAME_LEN];
    assert_eq!(frame(&longest).unwrap().len(), MAX_FRAME_LEN + 4);
    let longer = vec![0u8; MAX_FRAME_LEN + 1];
    assert_eq!(frame(&longer), Err(FrameTooLarge { len: MAX_FRAME_LEN + 1 }));
}

#[test]
fn frames_survive_any_cutting() {
    let payloads: Vec<Vec<u8>> = vec![vec![1, 2, 3], vec![], vec![9; 300]];
    let mut wire = Vec::new();
    for payload in &payloads {
        wire.extend(frame(payload).unwrap());
    }
    for size in [1, 2, 3, 5, 7, 400] {
        let mut buffer = FrameBuffer::new();
        let mut found = Vec::new();
        for chunk in wire.chunks(size) {
            buffer.extend(chunk);
            while let Some(payload) = buffer.next_frame().unwrap() {
                found.push(payload);
            }
        }
        assert_eq!(found, payloads);
    }
}

#[test]
fn partial_frame_waits_for_its_rest() {
    let mut buffer = FrameBuffer::new();
    assert_eq!(buffer.next_frame(), Ok(None));
    buffer.extend(&[0, 0, 0]);
    assert_eq!(buffer.next_frame(), Ok(None));
    buffer.extend(&[2, 8]);
    assert_eq!(buffer.next_frame(), Ok(None));
    buffer.extend(&[9, 0, 0]);
    assert_eq!(buffer.next_frame(), Ok(Some(vec![8, 9])));
    assert_eq!(buffer.next_frame(), Ok(None));
    buffer.extend(&[0, 0]);
    assert_eq!(buffer.next_frame(), Ok(Some(vec![])));
}

#[test]
fn oversized_frame_is_an_error_and_stays() {
    let mut buffer = FrameBuffer::new();
    buffer.extend(&[1, 0, 0, 0, 5]);
    assert_eq!(buffer.next_frame(), Err(FrameTooLarge { len: 16777216 }));
    assert_eq!(buffer.next_frame(), Err(FrameTooLarge { len: 16777216 }));
}

#[test]
fn reader_asks_for_the_header_then_the_payload() {
    let mut reader = FrameReader::new();
    assert_eq!(reader.wanted(), 4);
    assert!(matches!(reader.receive(&[0, 0], &[11]), ReadProgress::More));
    assert_eq!(reader.wanted(), 2);
    assert!(matches!(reader.receive(&[0, 3], &[]), ReadProgress::More));
    assert_eq!(reader.wanted(), 3);
    assert!(matches!(reader.receive(&[5], &[12]), ReadProgress::More));
    assert_eq!(reader.wanted(), 2);
    match reader.receive(&[6, 7], &[]) {
        ReadProgress::Done { payload, fds } => {
            assert_eq!(payload, vec![5, 6, 7]);
            assert_eq!(fds, vec![11, 12]);
        }
        _ => panic!("the frame is complete"),
    }
}

#[test]
fn reader_reports_the_end_and_oversized_frames() {
    let mut reader = FrameReader::new();
    assert!(matches!(
        reader.receive(&[], &[]),
        ReadProgress::Failed(ReadFailure::Closed)
    ));
    assert!(matches!(
        reader.receive(&[0, 0x20, 0, 0], &[]),
        ReadProgress::Failed(ReadFailure::TooLarge(FrameTooLarge { len: 2097152 }))
    ));
    let mut empty = FrameReader::new();
    match empty.receive(&[0, 0, 0, 0], &[]) {
        ReadProgress::Done { payload, fds } => assert!(payload.is_empty() && fds.is_empty()),
        _ => panic!("an empty frame is complete with its header"),
    }
}
