//! MD5 (RFC 1321): the mathematical definition and a verified implementation.
use vstd::prelude::*;
use vstd::slice::slice_to_vec;
use crate::sha1::rotl;
use crate::sha256::{pad_zeros, digest_input_ok, lemma_pad_len};
use crate::text::{hex_lower, to_hex};

verus! {

/// Per-round rotation amounts.
pub const MD5_S: [u32; 64] = [
    7, 12, 17, 22, 7, 12, 17, 22, 7, 12, 17, 22, 7, 12, 17, 22,
    5, 9, 14, 20, 5, 9, 14, 20, 5, 9, 14, 20, 5, 9, 14, 20,
    4, 11, 16, 23, 4, 11, 16, 23, 4, 11, 16, 23, 4, 11, 16, 23,
    6, 10, 15, 21, 6, 10, 15, 21, 6, 10, 15, 21, 6, 10, 15, 21,
];

/// Per-round additive constants.
pub const MD5_K: [u32; 64] = [
    0xd76aa478, 0xe8c7b756, 0x242070db, 0xc1bdceee, 0xf57c0faf, 0x4787c62a, 0xa8304613, 0xfd469501,
    0x698098d8, 0x8b44f7af, 0xffff5bb1, 0x895cd7be, 0x6b901122, 0xfd987193, 0xa679438e, 0x49b40821,
    0xf61e2562, 0xc040b340, 0x265e5a51, 0xe9b6c7aa, 0xd62f105d, 0x02441453, 0xd8a1e681, 0xe7d3fbc8,
    0x21e1cde6, 0xc33707d6, 0xf4d50d87, 0x455a14ed, 0xa9e3e905, 0xfcefa3f8, 0x676f02d9, 0x8d2a4c8a,
    0xfffa3942, 0x8771f681, 0x6d9d6122, 0xfde5380c, 0xa4beea44, 0x4bdecfa9, 0xf6bb4b60, 0xbebfbc70,
    0x289b7ec6, 0xeaa127fa, 0xd4ef3085, 0x04881d05, 0xd9d4d039, 0xe6db99e5, 0x1fa27cf8, 0xc4ac5665,
    0xf4292244, 0x432aff97, 0xab9423a7, 0xfc93a039, 0x655b59c3, 0x8f0ccc92, 0xffeff47d, 0x85845dd1,
    0x6fa87e4f, 0xfe2ce6e0, 0xa3014314, 0x4e0811a1, 0xf7537e82, 0xbd3af235, 0x2ad7d2bb, 0xeb86d391,
];

/// The four registers (and chaining value) of MD5.
#[derive(Clone, Copy)]
pub struct Md5State {
    pub a: u32,
    pub b: u32,
    pub c: u32,
    pub d: u32,
}

/// Little-endian 32-bit word number `i` of a block.
pub open spec fn word_le(blk: Seq<u8>, i: int) -> u32 {
    (blk[4 * i] as u32) | ((blk[4 * i + 1] as u32) << 8u32) | ((blk[4 * i + 2] as u32) << 16u32)
        | ((blk[4 * i + 3] as u32) << 24u32)
}

/// The auxiliary function of round `i`.
pub open spec fn md5_f(i: int, b: u32, c: u32, d: u32) -> u32 {
    if i < 16 {
        (b & c) | (!b & d)
    } else if i < 32 {
        (d & b) | (!d & c)
    } else if i < 48 {
        b ^ c ^ d
    } else {
        c ^ (b | !d)
    }
}

/// The message word used in round `i`.
pub open spec fn md5_g(i: int) -> int {
    if i < 16 {
        i
    } else if i < 32 {
        (5 * i + 1) % 16
    } else if i < 48 {
        (3 * i + 5) % 16
    } else {
        (7 * i) % 16
    }
}

pub open spec fn md5_round(s: Md5State, i: int, blk: Seq<u8>) -> Md5State {
    let f = md5_f(i, s.b, s.c, s.d);
    Md5State {
        a: s.d,
        b: s.b.wrapping_add(
            rotl(
                s.a.wrapping_add(f).wrapping_add(MD5_K@[i]).wrapping_add(word_le(blk, md5_g(i))),
                MD5_S@[i],
            ),
        ),
        c: s.b,
        d: s.c,
    }
}

pub open spec fn md5_rounds(s: Md5State, blk: Seq<u8>, n: nat) -> Md5State
    decreases n,
{
    if n == 0 {
        s
    } else {
        md5_round(md5_rounds(s, blk, (n - 1) as nat), n - 1, blk)
    }
}

pub open spec fn md5_compress(h: Md5State, blk: Seq<u8>) -> Md5State {
    let r = md5_rounds(h, blk, 64);
    Md5State {
        a: h.a.wrapping_add(r.a),
        b: h.b.wrapping_add(r.b),
        c: h.c.wrapping_add(r.c),
        d: h.d.wrapping_add(r.d),
    }
}

pub open spec fn md5_blocks(h: Md5State, msg: Seq<u8>, n: nat) -> Md5State
    decreases n,
{
    if n == 0 {
        h
    } else {
        md5_compress(md5_blocks(h, msg, (n - 1) as nat), msg.subrange(64 * (n - 1), 64 * (n as int)))
    }
}

pub open spec fn le32(x: u32) -> Seq<u8> {
    seq![x as u8, (x >> 8u32) as u8, (x >> 16u32) as u8, (x >> 24u32) as u8]
}

pub open spec fn le64(x: u64) -> Seq<u8> {
    seq![
        x as u8,
        (x >> 8u64) as u8,
        (x >> 16u64) as u8,
        (x >> 24u64) as u8,
        (x >> 32u64) as u8,
        (x >> 40u64) as u8,
        (x >> 48u64) as u8,
        (x >> 56u64) as u8,
    ]
}

/// Padding with a little-endian bit length, as MD5 uses it.
pub open spec fn pad_le(input: Seq<u8>) -> Seq<u8> {
    input + seq![0x80u8] + Seq::new(pad_zeros(input.len()), |i: int| 0u8) + le64(
        (input.len() * 8) as u64,
    )
}

pub open spec fn md5_initial() -> Md5State {
    Md5State { a: 0x67452301, b: 0xefcdab89, c: 0x98badcfe, d: 0x10325476 }
}

/// The 16-byte MD5 digest of a byte sequence.
pub open spec fn md5_spec(input: Seq<u8>) -> Seq<u8> {
    let m = pad_le(input);
    let h = md5_blocks(md5_initial(), m, m.len() / 64);
    le32(h.a) + le32(h.b) + le32(h.c) + le32(h.d)
}

fn pad_message_le(input: &[u8]) -> (msg: Vec<u8>)
    requires
        digest_input_ok(input.len() as nat),
    ensures
        msg@ == pad_le(input@),
        msg@.len() % 64 == 0,
{
    let bit_len: u64 = (input.len() as u64) * 8;
    let mut msg = slice_to_vec(input);
    msg.push(0x80u8);
    let zeros: usize = (119 - (input.len() % 64)) % 64;
    let mut i: usize = 0;
    while i < zeros
        invariant
            i <= zeros,
            zeros == pad_zeros(input.len() as nat),
            input.len() + 128 <= usize::MAX,
            msg@ == input@ + seq![0x80u8] + Seq::new(i as nat, |j: int| 0u8),
        decreases zeros - i,
    {
        msg.push(0u8);
        i = i + 1;
        assert(msg@ =~= input@ + seq![0x80u8] + Seq::new(i as nat, |j: int| 0u8));
    }
    msg.push(bit_len as u8);
    msg.push((bit_len >> 8u64) as u8);
    msg.push((bit_len >> 16u64) as u8);
    msg.push((bit_len >> 24u64) as u8);
    msg.push((bit_len >> 32u64) as u8);
    msg.push((bit_len >> 40u64) as u8);
    msg.push((bit_len >> 48u64) as u8);
    msg.push((bit_len >> 56u64) as u8);
    assert(msg@ =~= pad_le(input@));
    proof {
        lemma_pad_len(input.len() as nat);
    }
    msg
}

fn rotl32(x: u32, n: u32) -> (r: u32)
    requires
        0 < n < 32,
    ensures
        r == rotl(x, n),
{
    (x << n) | (x >> (32 - n))
}

fn md5_compress_block(h: Md5State, msg: &Vec<u8>, off: usize) -> (r: Md5State)
    requires
        off + 64 <= msg.len(),
    ensures
        r == md5_compress(h, msg@.subrange(off as int, off + 64)),
{
    let ghost blk = msg@.subrange(off as int, off + 64);
    let mut m: Vec<u32> = Vec::new();
    let mut j: usize = 0;
    while j < 16
        invariant
            j <= 16,
            off + 64 <= msg.len(),
            blk == msg@.subrange(off as int, off + 64),
            m@.len() == j,
            forall|q: int| 0 <= q < j ==> #[trigger] m@[q] == word_le(blk, q),
        decreases 16 - j,
    {
        let p = off + 4 * j;
        let x = (msg[p] as u32) | ((msg[p + 1] as u32) << 8u32) | ((msg[p + 2] as u32) << 16u32)
            | ((msg[p + 3] as u32) << 24u32);
        assert(blk[4 * j] == msg@[off + 4 * j]);
        assert(blk[4 * j + 1] == msg@[off + 4 * j + 1]);
        assert(blk[4 * j + 2] == msg@[off + 4 * j + 2]);
        assert(blk[4 * j + 3] == msg@[off + 4 * j + 3]);
        m.push(x);
        j = j + 1;
    }
    let mut s = h;
    let mut i: usize = 0;
    while i < 64
        invariant
            i <= 64,
            m@.len() == 16,
            forall|q: int| 0 <= q < 16 ==> #[trigger] m@[q] == word_le(blk, q),
            s == md5_rounds(h, blk, i as nat),
        decreases 64 - i,
    {
        let (f, g) = if i <= 15 {
            ((s.b & s.c) | (!s.b & s.d), i)
        } else if i <= 31 {
            ((s.d & s.b) | (!s.d & s.c), (5 * i + 1) % 16)
        } else if i <= 47 {
            (s.b ^ s.c ^ s.d, (3 * i + 5) % 16)
        } else {
            (s.c ^ (s.b | !s.d), (7 * i) % 16)
        };
        assert(g == md5_g(i as int));
        let sh = MD5_S[i];
        assert(0 < sh < 32) by {
            assert(MD5_S@ =~= seq![
                7u32, 12, 17, 22, 7, 12, 17, 22, 7, 12, 17, 22, 7, 12, 17, 22,
                5, 9, 14, 20, 5, 9, 14, 20, 5, 9, 14, 20, 5, 9, 14, 20,
                4, 11, 16, 23, 4, 11, 16, 23, 4, 11, 16, 23, 4, 11, 16, 23,
                6, 10, 15, 21, 6, 10, 15, 21, 6, 10, 15, 21, 6, 10, 15, 21,
            ]);
        }
        let nb = s.b.wrapping_add(
            rotl32(s.a.wrapping_add(f).wrapping_add(MD5_K[i]).wrapping_add(m[g]), sh),
        );
        s = Md5State { a: s.d, b: nb, c: s.b, d: s.c };
        i = i + 1;
    }
    Md5State {
        a: h.a.wrapping_add(s.a),
        b: h.b.wrapping_add(s.b),
        c: h.c.wrapping_add(s.c),
        d: h.d.wrapping_add(s.d),
    }
}

/// Computes the raw 16-byte MD5 digest of `input`.
pub fn md5_bytes(input: &[u8]) -> (out: [u8; 16])
    requires
        digest_input_ok(input.len() as nat),
    ensures
        out@ == md5_spec(input@),
{
    let msg = pad_message_le(input);
    let mut h = Md5State { a: 0x67452301, b: 0xefcdab89, c: 0x98badcfe, d: 0x10325476 };
    let mut off: usize = 0;
    while off < msg.len()
        invariant
            off <= msg.len(),
            off % 64 == 0,
            msg@.len() % 64 == 0,
            h == md5_blocks(md5_initial(), msg@, (off / 64) as nat),
        decreases msg.len() - off,
    {
        h = md5_compress_block(h, &msg, off);
        assert((off + 64) / 64 == off / 64 + 1);
        off = off + 64;
    }
    let out: [u8; 16] = [
        h.a as u8, (h.a >> 8u32) as u8, (h.a >> 16u32) as u8, (h.a >> 24u32) as u8,
        h.b as u8, (h.b >> 8u32) as u8, (h.b >> 16u32) as u8, (h.b >> 24u32) as u8,
        h.c as u8, (h.c >> 8u32) as u8, (h.c >> 16u32) as u8, (h.c >> 24u32) as u8,
        h.d as u8, (h.d >> 8u32) as u8, (h.d >> 16u32) as u8, (h.d >> 24u32) as u8,
    ];
    assert(out@ =~= le32(h.a) + le32(h.b) + le32(h.c) + le32(h.d));
    out
}

/// The MD5 digest of `input` as 32 lower-case hex characters.
pub fn md5(input: &[u8]) -> (s: String)
    requires
        digest_input_ok(input.len() as nat),
    ensures
        s@ == hex_lower(md5_spec(input@)),
{
    let out = md5_bytes(input);
    to_hex(&out)
}

proof fn lemma_md5_prefix_only(h: Md5State, m1: Seq<u8>, m2: Seq<u8>, n: nat)
    requires
        64 * n <= m1.len(),
        64 * n <= m2.len(),
        forall|i: int| 0 <= i < 64 * n ==> m1[i] == m2[i],
    ensures
        md5_blocks(h, m1, n) == md5_blocks(h, m2, n),
    decreases n,
{
    if n > 0 {
        lemma_md5_prefix_only(h, m1, m2, (n - 1) as nat);
        assert(m1.subrange(64 * (n - 1), 64 * (n as int)) =~= m2.subrange(64 * (n - 1), 64 * (n as int)));
    }
}

/// MD5 chains its blocks: over a message `a` of exactly `na` blocks followed by `b`, the
/// chaining value after `na + nb` blocks is the one reached by processing the first `nb` blocks
/// of `b` starting from the chaining value that `a` left. So each block is compressed from the
/// value that the blocks before it produced, and the digest depends on every block.
pub proof fn lemma_md5_chaining(h: Md5State, a: Seq<u8>, b: Seq<u8>, na: nat, nb: nat)
    requires
        a.len() == 64 * na,
        b.len() >= 64 * nb,
    ensures
        md5_blocks(h, a + b, na + nb) == md5_blocks(md5_blocks(h, a, na), b, nb),
    decreases nb,
{
    if nb == 0 {
        assert forall|i: int| 0 <= i < 64 * na implies (a + b)[i] == a[i] by {}
        lemma_md5_prefix_only(h, a + b, a, na);
    } else {
        lemma_md5_chaining(h, a, b, na, (nb - 1) as nat);
        assert((a + b).subrange(64 * (na + nb - 1), 64 * ((na + nb) as int)) =~= b.subrange(
            64 * (nb - 1),
            64 * (nb as int),
        ));
        assert((na + nb - 1) as nat == (na + (nb - 1) as nat));
    }
}

/// MD5 padding: the message, the byte `0x80`, zero bytes, and the message's length in bits
/// as eight bytes, least significant byte first. The padded length is a whole number of 64-byte blocks, and the
/// fewest that leave room for the marker and the length: 9 to 72 bytes more than the message.
pub proof fn lemma_md5_padding(input: Seq<u8>)
    requires
        input.len() * 8 <= u64::MAX,
    ensures
        ({
            let p = pad_le(input);
            let n = input.len();
            let t = p.len() - 8;
            &&& p.len() % 64 == 0
            &&& n + 9 <= p.len() <= n + 72
            &&& p.subrange(0, n as int) == input
            &&& p[n as int] == 0x80
            &&& forall|j: int| n < j < t ==> p[j] == 0
            &&& p[t] as int * 0x1
                + p[t + 1] as int * 0x100
                + p[t + 2] as int * 0x1_0000
                + p[t + 3] as int * 0x100_0000
                + p[t + 4] as int * 0x1_0000_0000
                + p[t + 5] as int * 0x100_0000_0000
                + p[t + 6] as int * 0x1_0000_0000_0000
                + p[t + 7] as int * 0x100_0000_0000_0000 == 8 * n
        }),
{
    let p = pad_le(input);
    let n = input.len();
    crate::sha256::lemma_pad_len(n);
    let x = (n * 8) as u64;
    assert(x as int == 8 * n);
    assert(x as int == (x as u8) as int * 0x1 + ((x >> 8u64) as u8) as int * 0x100 + ((x >> 16u64) as u8) as int * 0x1_0000 + ((x >> 24u64) as u8) as int * 0x100_0000 + ((x >> 32u64) as u8) as int * 0x1_0000_0000 + ((x >> 40u64) as u8) as int * 0x100_0000_0000 + ((x >> 48u64) as u8) as int * 0x1_0000_0000_0000 + ((x >> 56u64) as u8) as int * 0x100_0000_0000_0000) by (bit_vector);
    assert(p.subrange(0, n as int) =~= input);
    let z = Seq::new(pad_zeros(n), |i: int| 0u8);
    let tail = le64(x);
    assert(p == input + seq![0x80u8] + z + tail);
    let t = p.len() - 8;
    assert(t == n + 1 + z.len());
    assert(p[t + 0] == tail[0] && tail[0] == x as u8);
    assert(p[t + 1] == tail[1] && tail[1] == (x >> 8u64) as u8);
    assert(p[t + 2] == tail[2] && tail[2] == (x >> 16u64) as u8);
    assert(p[t + 3] == tail[3] && tail[3] == (x >> 24u64) as u8);
    assert(p[t + 4] == tail[4] && tail[4] == (x >> 32u64) as u8);
    assert(p[t + 5] == tail[5] && tail[5] == (x >> 40u64) as u8);
    assert(p[t + 6] == tail[6] && tail[6] == (x >> 48u64) as u8);
    assert(p[t + 7] == tail[7] && tail[7] == (x >> 56u64) as u8);
    assert forall|j: int| n < j < t implies p[j] == 0 by {
        assert(p[j] == z[j - n - 1]);
    }
}

} // verus!
