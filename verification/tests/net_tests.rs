use aether_vm::net::{
    encode_ws_frame, encode_ws_frame_with, parse_status_code, parse_url, parse_ws_frame,
    ws_frame_header_size,
};

#[test]
fn short_unmasked_frame() {
    let f = encode_ws_frame_with(b"hi", 0x1, None);
    assert_eq!(f, vec![0x81, 2, b'h', b'i']);
    assert_eq!(encode_ws_frame(b"hi", 0x1, false), f);
    assert_eq!(parse_ws_frame(&f), Some((1, b"hi".to_vec(), 4)));
}

#[test]
fn masked_frame_round_trips() {
    let key = [1u8, 2, 3, 4];
    let f = encode_ws_frame_with(b"abcde", 0x2, Some(key));
    assert_eq!(&f[..6], &[0x82, 0x85, 1, 2, 3, 4]);
    assert_eq!(f[6], b'a' ^ 1);
    assert_eq!(f[10], b'e' ^ 1);
    assert_eq!(parse_ws_frame(&f), Some((2, b"abcde".to_vec(), 11)));
    let g = encode_ws_frame(b"xyz", 0x1, true);
    assert_eq!(g[1], 0x83);
    assert_eq!(parse_ws_frame(&g), Some((1, b"xyz".to_vec(), 9)));
}

#[test]
fn medium_and_long_lengths() {
    let p = vec![7u8; 300];
    let f = encode_ws_frame_with(&p, 0x2, None);
    assert_eq!(&f[..4], &[0x82, 126, 1, 44]);
    assert_eq!(parse_ws_frame(&f), Some((2, p.clone(), 304)));
    let q = vec![1u8; 70000];
    let g = encode_ws_frame_with(&q, 0x2, None);
    assert_eq!(&g[..10], &[0x82, 127, 0, 0, 0, 0, 0, 1, 0x11, 0x70]);
    let (op, payload, used) = parse_ws_frame(&g).unwrap();
    assert_eq!((op, payload.len(), used), (2, 70000, 70010));
}

#[test]
fn incomplete_frames_wait_for_more() {
    assert_eq!(parse_ws_frame(&[0x81]), None);
    assert_eq!(parse_ws_frame(&[0x81, 5, b'a']), None);
    assert_eq!(parse_ws_frame(&[0x81, 126, 1]), None);
    assert_eq!(ws_frame_header_size(0x85), 6);
    assert_eq!(ws_frame_header_size(126), 4);
    assert_eq!(ws_frame_header_size(0xFF), 14);
}

#[test]
fn trailing_bytes_are_left() {
    let mut f = encode_ws_frame_with(b"ok", 0x9, None);
    f.extend_from_slice(&[1, 2, 3]);
    assert_eq!(parse_ws_frame(&f), Some((9, b"ok".to_vec(), 4)));
}

#[test]
fn urls() {
    assert_eq!(
        parse_url("http://example.com/a/b?x=1"),
        Ok(("example.com".to_string(), 80, "/a/b?x=1".to_string()))
    );
    assert_eq!(parse_url("wss://chat.local:9443"), Ok(("chat.local".to_string(), 9443, "/".to_string())));
    assert_eq!(parse_url("https://h"), Ok(("h".to_string(), 443, "/".to_string())));
    assert_eq!(parse_url("localhost:8080/x"), Ok(("localhost".to_string(), 8080, "/x".to_string())));
    assert_eq!(parse_url("ws://h:+81/"), Ok(("h".to_string(), 81, "/".to_string())));
    assert_eq!(parse_url("http://h:99999/"), Err("Invalid port in url: 99999".to_string()));
    assert_eq!(parse_url("http://h:/"), Err("Invalid port in url: ".to_string()));
}

#[test]
fn status_codes() {
    assert_eq!(parse_status_code("HTTP/1.1 200 OK\r\n"), Some(200));
    assert_eq!(parse_status_code("HTTP/1.1   404   Not Found"), Some(404));
    assert_eq!(parse_status_code("HTTP/1.1 -5"), Some(-5));
    assert_eq!(parse_status_code("HTTP/1.1"), None);
    assert_eq!(parse_status_code("HTTP/1.1 OK"), None);
    assert_eq!(parse_status_code(""), None);
}
