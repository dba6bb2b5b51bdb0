use aether_vm::crypto::{base64_decode, hmac_sha256, md5, sec_websocket_accept, sha1, sha256};
use aether_vm::base64::base64_encode;
use aether_vm::sha1::sha1_bytes;
use aether_vm::sha256::sha256_bytes;

#[test]
fn sha256_known_vectors() {
    assert_eq!(sha256(b""), "e3b0c44298fc1c149afbf4c8996fb92427ae41e4649b934ca495991b7852b855");
    assert_eq!(sha256(b"abc"), "ba7816bf8f01cfea414140de5dae2223b00361a396177a9cb410ff61f20015ad");
    assert_eq!(
        sha256(b"abcdbcdecdefdefgefghfghighijhijkijkljklmklmnlmnomnopnopq"),
        "248d6a61d20638b8e5c026930c3e6039a33ce45964ff2167f6ecedd419db06c1"
    );
    let long = vec![b'a'; 1000];
    assert_eq!(sha256(&long), "41edece42d63e8d9bf515a9ba6932e1c20cbc9f5a5d134645adb5db1b9737ea3");
    assert_eq!(sha256_bytes(b"abc")[0], 0xba);
}

#[test]
fn sha1_known_vectors() {
    assert_eq!(sha1(b""), "da39a3ee5e6b4b0d3255bfef95601890afd80709");
    assert_eq!(sha1(b"abc"), "a9993e364706816aba3e25717850c26c9cd0d89d");
    assert_eq!(sha1(b"The quick brown fox jumps over the lazy dog"), "2fd4e1c67a2d28fced849ee1bb76e7391b93eb12");
    assert_eq!(sha1_bytes(b"abc")[19], 0x9d);
}

#[test]
fn md5_known_vectors() {
    assert_eq!(md5(b""), "d41d8cd98f00b204e9800998ecf8427e");
    assert_eq!(md5(b"abc"), "900150983cd24fb0d6963f7d28e17f72");
    assert_eq!(md5(b"The quick brown fox jumps over the lazy dog"), "9e107d9d372bb6826bd81d3542a419d6");
    let long = vec![b'x'; 200];
    assert_eq!(md5(&long).len(), 32);
}

#[test]
fn base64_known_vectors() {
    assert_eq!(base64_encode(b""), "");
    assert_eq!(base64_encode(b"f"), "Zg==");
    assert_eq!(base64_encode(b"fo"), "Zm8=");
    assert_eq!(base64_encode(b"foo"), "Zm9v");
    assert_eq!(base64_encode(b"foobar"), "Zm9vYmFy");
    assert_eq!(base64_decode("Zm9vYmFy").unwrap(), b"foobar".to_vec());
    assert_eq!(base64_decode("  Zm9v\r\nYmE=  ").unwrap(), b"fooba".to_vec());
    assert_eq!(base64_decode("").unwrap(), Vec::<u8>::new());
}

#[test]
fn base64_errors() {
    assert_eq!(base64_decode("Zm9"), Err("Invalid Base64 chunk length".to_string()));
    assert_eq!(base64_decode("Zm9v!A=="), Err("Invalid Base64 char: !".to_string()));
    assert_eq!(base64_decode("*m9v"), Err("Invalid Base64 char: *".to_string()));
}

#[test]
fn base64_roundtrip_values() {
    for len in 0..20usize {
        let data: Vec<u8> = (0..len).map(|i| (i * 37 + 11) as u8).collect();
        let text = base64_encode(&data);
        assert_eq!(base64_decode(&text).unwrap(), data);
    }
}

#[test]
fn hmac_known_vectors() {
    assert_eq!(
        hmac_sha256(b"key", b"The quick brown fox jumps over the lazy dog"),
        "f7bc83f430538424b13298e6aa6fb143ef4d59a14946175997479dbc2d1a3cd8"
    );
    let long_key = vec![0xaau8; 131];
    assert_eq!(
        hmac_sha256(&long_key, b"Test Using Larger Than Block-Size Key - Hash Key First"),
        "60e431591ee0b67f0d8a26aacbf5b77f8e0bc6213728c5140546040f0ee37f54"
    );
}

#[test]
fn websocket_accept_rfc_example() {
    assert_eq!(sec_websocket_accept("dGhlIHNhbXBsZSBub25jZQ=="), "s3pPLMBiTxaQ9kYGzzhZRbK+xOo=");
    assert_eq!(sec_websocket_accept("  dGhlIHNhbXBsZSBub25jZQ==  "), "s3pPLMBiTxaQ9kYGzzhZRbK+xOo=");
}
