//! Digests, HMAC and the WebSocket handshake token.
use vstd::prelude::*;
use vstd::utf8::encode_utf8;
use crate::base64::{base64_encode_spec, base64_encode};
use crate::sha1::{sha1_spec, sha1_bytes};
use crate::sha256::{sha256_spec, sha256_bytes, digest_input_ok};
use crate::text::{hex_lower, to_hex, chars_of, trim_bounds, trim_spec, string_from_range, push_str};

pub use crate::base64::base64_decode;
pub use crate::md5::md5;

verus! {

/// The SHA-256 digest of `input` as 64 lower-case hex characters.
pub fn sha256(input: &[u8]) -> (s: String)
    requires
        digest_input_ok(input.len() as nat),
    ensures
        s@ == hex_lower(sha256_spec(input@)),
{
    let bytes = sha256_bytes(input);
    to_hex(&bytes)
}

/// The SHA-1 digest of `input` as 40 lower-case hex characters.
pub fn sha1(input: &[u8]) -> (s: String)
    requires
        digest_input_ok(input.len() as nat),
    ensures
        s@ == hex_lower(sha1_spec(input@)),
{
    let bytes = sha1_bytes(input);
    to_hex(&bytes)
}

/// The HMAC block key: long keys are hashed first, then the key is zero-filled to 64 bytes.
pub open spec fn hmac_block_key(key: Seq<u8>) -> Seq<u8> {
    if key.len() > 64 {
        sha256_spec(key) + Seq::new(32, |i: int| 0u8)
    } else {
        key + Seq::new((64 - key.len()) as nat, |i: int| 0u8)
    }
}

pub open spec fn xor_pad(k: Seq<u8>, pad: u8) -> Seq<u8> {
    Seq::new(k.len(), |i: int| k[i] ^ pad)
}

/// HMAC-SHA256 (RFC 2104) of `message` under `key`, as raw bytes.
pub open spec fn hmac_sha256_spec(key: Seq<u8>, message: Seq<u8>) -> Seq<u8> {
    let k = hmac_block_key(key);
    let inner = sha256_spec(xor_pad(k, 0x36) + message);
    sha256_spec(xor_pad(k, 0x5c) + inner)
}

proof fn lemma_sha256_len(x: Seq<u8>)
    ensures
        sha256_spec(x).len() == 32,
{
}

/// HMAC-SHA256 of `message` under `key`, as 64 lower-case hex characters.
pub fn hmac_sha256(key: &[u8], message: &[u8]) -> (s: String)
    requires
        digest_input_ok(key.len() as nat),
        digest_input_ok((64 + message.len()) as nat),
    ensures
        s@ == hex_lower(hmac_sha256_spec(key@, message@)),
{
    let mut k: Vec<u8> = Vec::new();
    if key.len() > 64 {
        let hash = sha256_bytes(key);
        let mut i: usize = 0;
        while i < 32
            invariant
                i <= 32,
                hash@.len() == 32,
                k@ == hash@.take(i as int),
            decreases 32 - i,
        {
            k.push(hash[i]);
            i = i + 1;
            assert(k@ =~= hash@.take(i as int));
        }
        while k.len() < 64
            invariant
                32 <= k@.len() <= 64,
                hash@.len() == 32,
                k@ == hash@ + Seq::new((k@.len() - 32) as nat, |j: int| 0u8),
            decreases 64 - k.len(),
        {
            k.push(0u8);
            assert(k@ =~= hash@ + Seq::new((k@.len() - 32) as nat, |j: int| 0u8));
        }
    } else {
        let mut i: usize = 0;
        while i < key.len()
            invariant
                i <= key.len() <= 64,
                k@ == key@.take(i as int),
            decreases key.len() - i,
        {
            k.push(key[i]);
            i = i + 1;
            assert(k@ =~= key@.take(i as int));
        }
        assert(key@.take(key.len() as int) =~= key@);
        while k.len() < 64
            invariant
                key.len() <= k@.len() <= 64,
                k@ == key@ + Seq::new((k@.len() - key.len()) as nat, |j: int| 0u8),
            decreases 64 - k.len(),
        {
            k.push(0u8);
            assert(k@ =~= key@ + Seq::new((k@.len() - key.len()) as nat, |j: int| 0u8));
        }
    }
    assert(k@ =~= hmac_block_key(key@));
    let mut inner: Vec<u8> = Vec::new();
    let mut outer: Vec<u8> = Vec::new();
    let mut i: usize = 0;
    while i < 64
        invariant
            i <= 64,
            k@.len() == 64,
            inner@ == xor_pad(k@, 0x36).take(i as int),
            outer@ == xor_pad(k@, 0x5c).take(i as int),
        decreases 64 - i,
    {
        inner.push(k[i] ^ 0x36u8);
        outer.push(k[i] ^ 0x5cu8);
        i = i + 1;
        assert(inner@ =~= xor_pad(k@, 0x36).take(i as int));
        assert(outer@ =~= xor_pad(k@, 0x5c).take(i as int));
    }
    assert(inner@ =~= xor_pad(k@, 0x36));
    assert(outer@ =~= xor_pad(k@, 0x5c));
    let mut j: usize = 0;
    let ghost ipad = inner@;
    while j < message.len()
        invariant
            j <= message.len(),
            inner@ == ipad + message@.take(j as int),
        decreases message.len() - j,
    {
        inner.push(message[j]);
        j = j + 1;
        assert(inner@ =~= ipad + message@.take(j as int));
    }
    assert(message@.take(message.len() as int) =~= message@);
    let inner_hash = sha256_bytes(inner.as_slice());
    let ghost opad = outer@;
    let mut t: usize = 0;
    while t < 32
        invariant
            t <= 32,
            inner_hash@.len() == 32,
            outer@ == opad + inner_hash@.take(t as int),
        decreases 32 - t,
    {
        outer.push(inner_hash[t]);
        t = t + 1;
        assert(outer@ =~= opad + inner_hash@.take(t as int));
    }
    assert(inner_hash@.take(32) =~= inner_hash@);
    let outer_hash = sha256_bytes(outer.as_slice());
    to_hex(&outer_hash)
}

/// The GUID that RFC 6455 appends to the client key.
pub open spec fn websocket_guid() -> Seq<char> {
    "258EAFA5-E914-47DA-95CA-C5AB0DC85B11"@
}

/// The RFC 6455 `Sec-WebSocket-Accept` value for a client key.
pub open spec fn websocket_accept_spec(key: Seq<char>) -> Seq<char> {
    base64_encode_spec(sha1_spec(encode_utf8(trim_spec(key) + websocket_guid())))
}

/// Computes the RFC 6455 `Sec-WebSocket-Accept` token: Base64 of SHA-1 of the trimmed key and
/// the protocol GUID.
pub fn sec_websocket_accept(key: &str) -> (s: String)
    requires
        digest_input_ok(encode_utf8(trim_spec(key@) + websocket_guid()).len()),
    ensures
        s@ == websocket_accept_spec(key@),
{
    let cs = chars_of(key);
    let (lo, hi) = trim_bounds(&cs);
    let mut joined = string_from_range(&cs, lo, hi);
    push_str(&mut joined, "258EAFA5-E914-47DA-95CA-C5AB0DC85B11");
    let bytes = joined.as_str().as_bytes();
    let digest = sha1_bytes(bytes);
    base64_encode(&digest)
}

} // verus!
