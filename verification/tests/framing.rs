use bars_core::config::{open_package, seal_package, PackageError, PACKAGE_LIMIT};
use bars_core::ipc::{decode_frame, encode_frame, frame_len, Frame, FrameError, MAX_FRAME};

#[test]
fn frame_is_length_then_payload() {
    let bytes = encode_frame(&vec![7, 8, 9]).unwrap();
    assert_eq!(bytes, vec![3, 0, 0, 0, 7, 8, 9]);
}

#[test]
fn frame_length_is_little_endian() {
    let payload = vec![1u8; 0x0102];
    let bytes = encode_frame(&payload).unwrap();
    assert_eq!(&bytes[..4], &[0x02, 0x01, 0, 0]);
    assert_eq!(bytes.len(), 4 + 0x0102);
}

#[test]
fn frame_of_exactly_16_mib_is_accepted() {
    let payload = vec![0u8; MAX_FRAME];
    let bytes = encode_frame(&payload).unwrap();
    assert_eq!(&bytes[..4], &[0, 0, 0, 1]);
    match decode_frame(&bytes) {
        Frame::Complete { payload: p, consumed } => {
            assert_eq!(p.len(), 16 * 1024 * 1024);
            assert_eq!(consumed, 4 + 16 * 1024 * 1024);
        },
        _ => panic!("frame refused"),
    }
    assert_eq!(frame_len(&[0, 0, 0, 1]), Ok(16 * 1024 * 1024));
}

#[test]
fn frame_above_16_mib_is_rejected() {
    let payload = vec![0u8; MAX_FRAME + 1];
    assert_eq!(encode_frame(&payload), Err(FrameError::Oversized));
    assert_eq!(frame_len(&[1, 0, 0, 1]), Err(FrameError::Oversized));
    assert!(matches!(decode_frame(&vec![1, 0, 0, 1, 5, 5]), Frame::Oversized));
    assert!(matches!(decode_frame(&vec![0xff, 0xff, 0xff, 0xff]), Frame::Oversized));
}

#[test]
fn incomplete_frames_wait() {
    assert!(matches!(decode_frame(&vec![]), Frame::Incomplete));
    assert!(matches!(decode_frame(&vec![2, 0, 0]), Frame::Incomplete));
    assert!(matches!(decode_frame(&vec![2, 0, 0, 0, 1]), Frame::Incomplete));
}

#[test]
fn frame_is_taken_off_the_front() {
    match decode_frame(&vec![2, 0, 0, 0, 10, 11, 1, 0, 0, 0, 12]) {
        Frame::Complete { payload, consumed } => {
            assert_eq!(payload, vec![10, 11]);
            assert_eq!(consumed, 6);
        },
        _ => panic!("frame refused"),
    }
    match decode_frame(&vec![0, 0, 0, 0]) {
        Frame::Complete { payload, consumed } => {
            assert!(payload.is_empty());
            assert_eq!(consumed, 4);
        },
        _ => panic!("frame refused"),
    }
}

#[test]
fn package_starts_with_magic_and_version() {
    let bytes = seal_package(&vec![1, 2, 3]).unwrap();
    assert_eq!(bytes, vec![0xff, 0x42, 0x41, 0x52, 0x53, 0x13, 0x65, 0x75, 0, 0, 1, 2, 3]);
    assert_eq!(&bytes[..8], b"\xffBARS\x13eu");
}

#[test]
fn package_round_trip() {
    let payload: Vec<u8> = (0..=255).collect();
    let bytes = seal_package(&payload).unwrap();
    assert_eq!(open_package(&bytes), Ok(payload));
    assert_eq!(open_package(&seal_package(&vec![]).unwrap()), Ok(vec![]));
}

#[test]
fn package_errors() {
    assert_eq!(open_package(&vec![0xff, 0x42]), Err(PackageError::Truncated));
    assert_eq!(
        open_package(&vec![0xff, 0x42, 0x41, 0x52, 0x53, 0x13, 0x65, 0x76, 0, 0]),
        Err(PackageError::Invalid)
    );
    assert_eq!(
        open_package(&vec![0xff, 0x42, 0x41, 0x52, 0x53, 0x13, 0x65, 0x75, 0]),
        Err(PackageError::Truncated)
    );
    assert_eq!(
        open_package(&vec![0xff, 0x42, 0x41, 0x52, 0x53, 0x13, 0x65, 0x75, 0, 1, 9]),
        Err(PackageError::Unsupported)
    );
    assert_eq!(
        open_package(&vec![0xff, 0x42, 0x41, 0x52, 0x53, 0x13, 0x65, 0x75, 1, 0]),
        Err(PackageError::Unsupported)
    );
    assert_eq!(PackageError::Invalid.message(), "invalid config file");
    assert_eq!(PackageError::Unsupported.message(), "unsupported config version");
}

#[test]
fn package_limit_is_16_mib() {
    let payload = vec![0u8; PACKAGE_LIMIT];
    let bytes = seal_package(&payload).unwrap();
    assert_eq!(open_package(&bytes).map(|p| p.len()), Ok(PACKAGE_LIMIT));
    assert_eq!(seal_package(&vec![0u8; PACKAGE_LIMIT + 1]), Err(PackageError::TooLarge));
    let mut long = bytes;
    long.push(0);
    assert_eq!(open_package(&long), Err(PackageError::TooLarge));
}

#[test]
fn package_carries_an_encoded_value() {
    let value: (Option<String>, Vec<(u64, bool)>) = (Some("pkg".to_string()), vec![(1, true), (2, false)]);
    let payload = bincode::serialize(&value).unwrap();
    let bytes = seal_package(&payload).unwrap();
    let back: (Option<String>, Vec<(u64, bool)>) =
        bincode::deserialize(&open_package(&bytes).unwrap()).unwrap();
    assert_eq!(back, value);
}
