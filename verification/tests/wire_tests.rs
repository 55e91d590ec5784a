use ninja::dag::{decode_limited_frame, encode_limited_frame, limited_frame_len, MAX_FRAME_SIZE};
use ninja::wire::{decode_frame, encode_frame, frame_len, FrameError};

#[test]
fn frame_has_big_endian_length_then_payload() {
    let f = encode_frame(b"hello");
    assert_eq!(f, vec![0, 0, 0, 5, b'h', b'e', b'l', b'l', b'o']);
    assert_eq!(frame_len(&[0, 0, 1, 2]), 258);
}

#[test]
fn frame_roundtrip_with_trailing_bytes() {
    let payload = br#"{"TaskAssign":{"task_id":"task-001","command":"echo","args":["Hello Ninja"]}}"#;
    let mut buf = encode_frame(payload);
    buf.extend_from_slice(b"next");
    let (p, n) = decode_frame(&buf).unwrap();
    assert_eq!(p, payload.to_vec());
    assert_eq!(n, payload.len() + 4);
}

#[test]
fn frame_errors() {
    assert_eq!(decode_frame(&[0, 0, 1]), Err(FrameError::ConnectionClosed));
    assert_eq!(decode_frame(&[0, 0, 0, 3, 1, 2]), Err(FrameError::Truncated));
    assert_eq!(decode_frame(&[0, 0, 0, 0]), Ok((vec![], 4)));
}

#[test]
fn limited_frame_roundtrip() {
    let f = encode_limited_frame(b"abc").unwrap();
    assert_eq!(f, vec![0, 0, 0, 3, b'a', b'b', b'c']);
    assert_eq!(decode_limited_frame(&f), Ok((b"abc".to_vec(), 7)));
}

#[test]
fn limited_frame_rejects_large_frames() {
    assert_eq!(MAX_FRAME_SIZE, 16 * 1024 * 1024);
    let big = vec![0u8; MAX_FRAME_SIZE as usize + 1];
    assert_eq!(encode_limited_frame(&big), Err(FrameError::FrameTooLarge(MAX_FRAME_SIZE + 1)));
    let exact = vec![7u8; MAX_FRAME_SIZE as usize];
    assert_eq!(encode_limited_frame(&exact).unwrap().len(), MAX_FRAME_SIZE as usize + 4);
    assert_eq!(limited_frame_len(&[0x01, 0, 0, 1]), Err(FrameError::FrameTooLarge(0x0100_0001)));
    assert_eq!(limited_frame_len(&[0x01, 0, 0, 0]), Ok(0x0100_0000));
    assert_eq!(
        decode_limited_frame(&[0x01, 0, 0, 1, 9]),
        Err(FrameError::FrameTooLarge(0x0100_0001))
    );
    assert_eq!(decode_limited_frame(&[0, 0, 0, 2, 9]), Err(FrameError::ConnectionClosed));
    assert_eq!(decode_limited_frame(&[0, 0]), Err(FrameError::ConnectionClosed));
}

#[test]
fn test_send_receive_message_roundtrip() {
    // bincode writes `Message::TaskAssign(task)` as the variant's index (4) and then the task's fields.
    let sent = (4u32, ("task-001".to_string(), "echo".to_string(), vec!["Hello Ninja".to_string()]));
    let payload = bincode::serialize(&sent).expect("送信失敗");
    let frame = encode_limited_frame(&payload).expect("送信失敗");
    let (received, used) = decode_limited_frame(&frame).expect("受信失敗");
    assert_eq!(used, frame.len());
    let back: (u32, (String, String, Vec<String>)) = bincode::deserialize(&received).expect("受信失敗");
    assert_eq!(sent, back);
}
