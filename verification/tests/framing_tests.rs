use aether_vm::net::{parse_ws_frame, ws_declared_len, ws_frame_header_size, encode_ws_frame_with};
use aether_vm::rpc::{frame_length, frame_prefix, MAX_FRAME_LEN};

#[test]
fn frame_prefix_is_little_endian() {
    assert_eq!(frame_prefix(5), vec![5, 0, 0, 0]);
    assert_eq!(frame_prefix(0x01020304), vec![4, 3, 2, 1]);
    assert_eq!(frame_length(&frame_prefix(1234)), Ok(1234));
    assert_eq!(frame_length(&frame_prefix(MAX_FRAME_LEN)), Ok(MAX_FRAME_LEN));
}

#[test]
fn oversized_frames_are_refused() {
    assert_eq!(
        frame_length(&frame_prefix(MAX_FRAME_LEN + 1)),
        Err("Payload length 67108865 exceeds 64MB limit".to_string())
    );
    assert_eq!(
        frame_length(&[255, 255, 255, 255]),
        Err("Payload length 4294967295 exceeds 64MB limit".to_string())
    );
}

#[test]
fn declared_websocket_lengths() {
    let small = encode_ws_frame_with(b"hi", 1, None);
    assert_eq!(ws_frame_header_size(small[1]), 2);
    assert_eq!(ws_declared_len(&small), 2);
    let payload = vec![7u8; 300];
    let medium = encode_ws_frame_with(&payload, 2, Some([1, 2, 3, 4]));
    let h = ws_frame_header_size(medium[1]);
    assert_eq!(h, 8);
    assert_eq!(ws_declared_len(&medium[..h]), 300);
    let (op, body, used) = parse_ws_frame(&medium).unwrap();
    assert_eq!((op, body, used), (2, payload, h + 300));
}
