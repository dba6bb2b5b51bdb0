//! SHA-256 (FIPS 180-4): the mathematical definition and a verified implementation.
use vstd::prelude::*;
use vstd::slice::slice_to_vec;

verus! {

/// The round constants of SHA-256.
pub const K256: [u32; 64] = [
    0x428a2f98, 0x71374491, 0xb5c0fbcf, 0xe9b5dba5, 0x3956c25b, 0x59f111f1, 0x923f82a4, 0xab1c5ed5,
    0xd807aa98, 0x12835b01, 0x243185be, 0x550c7dc3, 0x72be5d74, 0x80deb1fe, 0x9bdc06a7, 0xc19bf174,
    0xe49b69c1, 0xefbe4786, 0x0fc19dc6, 0x240ca1cc, 0x2de92c6f, 0x4a7484aa, 0x5cb0a9dc, 0x76f988da,
    0x983e5152, 0xa831c66d, 0xb00327c8, 0xbf597fc7, 0xc6e00bf3, 0xd5a79147, 0x06ca6351, 0x14292967,
    0x27b70a85, 0x2e1b2138, 0x4d2c6dfc, 0x53380d13, 0x650a7354, 0x766a0abb, 0x81c2c92e, 0x92722c85,
    0xa2bfe8a1, 0xa81a664b, 0xc24b8b70, 0xc76c51a3, 0xd192e819, 0xd6990624, 0xf40e3585, 0x106aa070,
    0x19a4c116, 0x1e376c08, 0x2748774c, 0x34b0bcb5, 0x391c0cb3, 0x4ed8aa4a, 0x5b9cca4f, 0x682e6ff3,
    0x748f82ee, 0x78a5636f, 0x84c87814, 0x8cc70208, 0x90befffa, 0xa4506ceb, 0xbef9a3f7, 0xc67178f2,
];

/// The eight working registers (and chaining value) of SHA-256.
#[derive(Clone, Copy)]
pub struct Sha256State {
    pub a: u32,
    pub b: u32,
    pub c: u32,
    pub d: u32,
    pub e: u32,
    pub f: u32,
    pub g: u32,
    pub h: u32,
}

/// Right rotation of a 32-bit word by `n` bits, `0 < n < 32`.
pub open spec fn rotr(x: u32, n: u32) -> u32 {
    (x >> n) | (x << ((32 - n) as u32))
}

pub open spec fn small_sigma0(x: u32) -> u32 {
    rotr(x, 7) ^ rotr(x, 18) ^ (x >> 3u32)
}

pub open spec fn small_sigma1(x: u32) -> u32 {
    rotr(x, 17) ^ rotr(x, 19) ^ (x >> 10u32)
}

pub open spec fn big_sigma0(x: u32) -> u32 {
    rotr(x, 2) ^ rotr(x, 13) ^ rotr(x, 22)
}

pub open spec fn big_sigma1(x: u32) -> u32 {
    rotr(x, 6) ^ rotr(x, 11) ^ rotr(x, 25)
}

/// Big-endian 32-bit word number `i` of a block.
pub open spec fn word_be(blk: Seq<u8>, i: int) -> u32 {
    ((blk[4 * i] as u32) << 24u32) | ((blk[4 * i + 1] as u32) << 16u32) | ((blk[4 * i + 2] as u32)
        << 8u32) | (blk[4 * i + 3] as u32)
}

/// Message-schedule word `t`, given the words `w` before it.
pub open spec fn schedule_word(blk: Seq<u8>, w: Seq<u32>, t: int) -> u32 {
    if t < 16 {
        word_be(blk, t)
    } else {
        w[t - 16].wrapping_add(small_sigma0(w[t - 15])).wrapping_add(w[t - 7]).wrapping_add(
            small_sigma1(w[t - 2]),
        )
    }
}

/// The first `n` words of the message schedule of a 64-byte block.
pub open spec fn schedule(blk: Seq<u8>, n: nat) -> Seq<u32>
    decreases n,
{
    if n == 0 {
        Seq::empty()
    } else {
        let w = schedule(blk, (n - 1) as nat);
        w.push(schedule_word(blk, w, n - 1))
    }
}

/// One SHA-256 round with constant `k` and schedule word `w`.
pub open spec fn round(s: Sha256State, k: u32, w: u32) -> Sha256State {
    let ch = (s.e & s.f) ^ (!s.e & s.g);
    let t1 = s.h.wrapping_add(big_sigma1(s.e)).wrapping_add(ch).wrapping_add(k).wrapping_add(w);
    let maj = (s.a & s.b) ^ (s.a & s.c) ^ (s.b & s.c);
    let t2 = big_sigma0(s.a).wrapping_add(maj);
    Sha256State {
        a: t1.wrapping_add(t2),
        b: s.a,
        c: s.b,
        d: s.c,
        e: s.d.wrapping_add(t1),
        f: s.e,
        g: s.f,
        h: s.g,
    }
}

/// The working registers after the first `n` rounds.
pub open spec fn rounds(s: Sha256State, w: Seq<u32>, n: nat) -> Sha256State
    decreases n,
{
    if n == 0 {
        s
    } else {
        round(rounds(s, w, (n - 1) as nat), K256@[n - 1], w[n - 1])
    }
}

/// Word-wise modular sum of two states.
pub open spec fn add_states(x: Sha256State, y: Sha256State) -> Sha256State {
    Sha256State {
        a: x.a.wrapping_add(y.a),
        b: x.b.wrapping_add(y.b),
        c: x.c.wrapping_add(y.c),
        d: x.d.wrapping_add(y.d),
        e: x.e.wrapping_add(y.e),
        f: x.f.wrapping_add(y.f),
        g: x.g.wrapping_add(y.g),
        h: x.h.wrapping_add(y.h),
    }
}

/// The compression function applied to one 64-byte block.
pub open spec fn compress(h: Sha256State, blk: Seq<u8>) -> Sha256State {
    add_states(h, rounds(h, schedule(blk, 64), 64))
}

/// The chaining value after the first `n` blocks of `msg`.
pub open spec fn process_blocks(h: Sha256State, msg: Seq<u8>, n: nat) -> Sha256State
    decreases n,
{
    if n == 0 {
        h
    } else {
        compress(process_blocks(h, msg, (n - 1) as nat), msg.subrange(64 * (n - 1), 64 * (n as int)))
    }
}

/// Number of zero bytes between the `0x80` marker and the length field.
pub open spec fn pad_zeros(len: nat) -> nat {
    ((119 - (len % 64)) % 64) as nat
}

/// The eight big-endian bytes of a 64-bit value.
pub open spec fn be64(x: u64) -> Seq<u8> {
    seq![
        (x >> 56u64) as u8,
        (x >> 48u64) as u8,
        (x >> 40u64) as u8,
        (x >> 32u64) as u8,
        (x >> 24u64) as u8,
        (x >> 16u64) as u8,
        (x >> 8u64) as u8,
        x as u8,
    ]
}

/// The four big-endian bytes of a 32-bit value.
pub open spec fn be32(x: u32) -> Seq<u8> {
    seq![(x >> 24u32) as u8, (x >> 16u32) as u8, (x >> 8u32) as u8, x as u8]
}

/// Merkle–Damgård padding with a big-endian bit length, as SHA-1 and SHA-256 use it.
pub open spec fn pad_be(input: Seq<u8>) -> Seq<u8> {
    input + seq![0x80u8] + Seq::new(pad_zeros(input.len()), |i: int| 0u8) + be64(
        (input.len() * 8) as u64,
    )
}

pub open spec fn initial_state() -> Sha256State {
    Sha256State {
        a: 0x6a09e667,
        b: 0xbb67ae85,
        c: 0x3c6ef372,
        d: 0xa54ff53a,
        e: 0x510e527f,
        f: 0x9b05688c,
        g: 0x1f83d9ab,
        h: 0x5be0cd19,
    }
}

pub open spec fn state_bytes(s: Sha256State) -> Seq<u8> {
    be32(s.a) + be32(s.b) + be32(s.c) + be32(s.d) + be32(s.e) + be32(s.f) + be32(s.g) + be32(s.h)
}

/// The SHA-256 digest of a byte sequence.
pub open spec fn sha256_spec(input: Seq<u8>) -> Seq<u8> {
    let m = pad_be(input);
    state_bytes(process_blocks(initial_state(), m, m.len() / 64))
}

/// Inputs whose bit length fits the 64-bit length field and whose padded form fits in memory.
pub open spec fn digest_input_ok(len: nat) -> bool {
    len * 8 <= u64::MAX && len + 128 <= usize::MAX
}

proof fn lemma_schedule_len(blk: Seq<u8>, n: nat)
    ensures
        schedule(blk, n).len() == n,
    decreases n,
{
    if n > 0 {
        lemma_schedule_len(blk, (n - 1) as nat);
    }
}

pub proof fn lemma_pad_len(len: nat)
    ensures
        (len + 1 + pad_zeros(len) + 8) % 64 == 0,
        len + 1 + pad_zeros(len) + 8 <= len + 72,
{
}

fn rotr32(x: u32, n: u32) -> (r: u32)
    requires
        0 < n < 32,
    ensures
        r == rotr(x, n),
{
    (x >> n) | (x << (32 - n))
}

/// Appends the SHA padding of `input` to a copy of it, with the bit length in big-endian order.
pub fn pad_message_be(input: &[u8]) -> (msg: Vec<u8>)
    requires
        digest_input_ok(input.len() as nat),
    ensures
        msg@ == pad_be(input@),
        msg@.len() % 64 == 0,
{
    let bit_len: u64 = (input.len() as u64) * 8;
    let mut msg = slice_to_vec(input);
    msg.push(0x80u8);
    let zeros: usize = (119 - (input.len() % 64)) % 64;
    let mut i: usize = 0;
    while i < zeros
        invariant
            i <= zeros,
            zeros == pad_zeros(input.len() as nat),
            input.len() + 128 <= usize::MAX,
            msg@ == input@ + seq![0x80u8] + Seq::new(i as nat, |j: int| 0u8),
        decreases zeros - i,
    {
        msg.push(0u8);
        i = i + 1;
        assert(msg@ =~= input@ + seq![0x80u8] + Seq::new(i as nat, |j: int| 0u8));
    }
    msg.push((bit_len >> 56u64) as u8);
    msg.push((bit_len >> 48u64) as u8);
    msg.push((bit_len >> 40u64) as u8);
    msg.push((bit_len >> 32u64) as u8);
    msg.push((bit_len >> 24u64) as u8);
    msg.push((bit_len >> 16u64) as u8);
    msg.push((bit_len >> 8u64) as u8);
    msg.push(bit_len as u8);
    assert(msg@ =~= pad_be(input@));
    proof {
        lemma_pad_len(input.len() as nat);
    }
    msg
}

/// Big-endian word at byte position `p`.
fn load_be(msg: &Vec<u8>, p: usize) -> (w: u32)
    requires
        p + 4 <= msg.len(),
    ensures
        w == ((msg@[p as int] as u32) << 24u32) | ((msg@[p + 1] as u32) << 16u32) | ((msg@[p
            + 2] as u32) << 8u32) | (msg@[p + 3] as u32),
{
    ((msg[p] as u32) << 24u32) | ((msg[p + 1] as u32) << 16u32) | ((msg[p + 2] as u32) << 8u32)
        | (msg[p + 3] as u32)
}

/// Applies the compression function to the block at `off`.
fn compress_block(h: Sha256State, msg: &Vec<u8>, off: usize) -> (r: Sha256State)
    requires
        off + 64 <= msg.len(),
    ensures
        r == compress(h, msg@.subrange(off as int, off + 64)),
{
    let ghost blk = msg@.subrange(off as int, off + 64);
    let mut w: Vec<u32> = Vec::new();
    let mut i: usize = 0;
    while i < 16
        invariant
            i <= 16,
            off + 64 <= msg.len(),
            blk == msg@.subrange(off as int, off + 64),
            w@ == schedule(blk, i as nat),
        decreases 16 - i,
    {
        proof {
            lemma_schedule_len(blk, i as nat);
        }
        let x = load_be(msg, off + 4 * i);
        assert(blk[4 * i] == msg@[off + 4 * i]);
        assert(blk[4 * i + 1] == msg@[off + 4 * i + 1]);
        assert(blk[4 * i + 2] == msg@[off + 4 * i + 2]);
        assert(blk[4 * i + 3] == msg@[off + 4 * i + 3]);
        w.push(x);
        i = i + 1;
    }
    while i < 64
        invariant
            16 <= i <= 64,
            w@ == schedule(blk, i as nat),
        decreases 64 - i,
    {
        proof {
            lemma_schedule_len(blk, i as nat);
        }
        let w15 = w[i - 15];
        let w2 = w[i - 2];
        let s0 = rotr32(w15, 7) ^ rotr32(w15, 18) ^ (w15 >> 3u32);
        let s1 = rotr32(w2, 17) ^ rotr32(w2, 19) ^ (w2 >> 10u32);
        let x = w[i - 16].wrapping_add(s0).wrapping_add(w[i - 7]).wrapping_add(s1);
        w.push(x);
        i = i + 1;
    }
    proof {
        lemma_schedule_len(blk, 64);
    }
    let mut s = h;
    let mut t: usize = 0;
    while t < 64
        invariant
            t <= 64,
            w@ == schedule(blk, 64),
            w@.len() == 64,
            s == rounds(h, w@, t as nat),
        decreases 64 - t,
    {
        let ch = (s.e & s.f) ^ (!s.e & s.g);
        let t1 = s.h.wrapping_add(
            rotr32(s.e, 6) ^ rotr32(s.e, 11) ^ rotr32(s.e, 25),
        ).wrapping_add(ch).wrapping_add(K256[t]).wrapping_add(w[t]);
        let maj = (s.a & s.b) ^ (s.a & s.c) ^ (s.b & s.c);
        let t2 = (rotr32(s.a, 2) ^ rotr32(s.a, 13) ^ rotr32(s.a, 22)).wrapping_add(maj);
        s = Sha256State {
            a: t1.wrapping_add(t2),
            b: s.a,
            c: s.b,
            d: s.c,
            e: s.d.wrapping_add(t1),
            f: s.e,
            g: s.f,
            h: s.g,
        };
        t = t + 1;
    }
    Sha256State {
        a: h.a.wrapping_add(s.a),
        b: h.b.wrapping_add(s.b),
        c: h.c.wrapping_add(s.c),
        d: h.d.wrapping_add(s.d),
        e: h.e.wrapping_add(s.e),
        f: h.f.wrapping_add(s.f),
        g: h.g.wrapping_add(s.g),
        h: h.h.wrapping_add(s.h),
    }
}

/// Computes the raw 32-byte SHA-256 digest of `input`.
pub fn sha256_bytes(input: &[u8]) -> (out: [u8; 32])
    requires
        digest_input_ok(input.len() as nat),
    ensures
        out@ == sha256_spec(input@),
{
    let msg = pad_message_be(input);
    let mut h = Sha256State {
        a: 0x6a09e667,
        b: 0xbb67ae85,
        c: 0x3c6ef372,
        d: 0xa54ff53a,
        e: 0x510e527f,
        f: 0x9b05688c,
        g: 0x1f83d9ab,
        h: 0x5be0cd19,
    };
    let mut off: usize = 0;
    while off < msg.len()
        invariant
            off <= msg.len(),
            off % 64 == 0,
            msg@.len() % 64 == 0,
            h == process_blocks(initial_state(), msg@, (off / 64) as nat),
        decreases msg.len() - off,
    {
        h = compress_block(h, &msg, off);
        assert((off + 64) / 64 == off / 64 + 1);
        off = off + 64;
    }
    let out: [u8; 32] = [
        (h.a >> 24u32) as u8, (h.a >> 16u32) as u8, (h.a >> 8u32) as u8, h.a as u8,
        (h.b >> 24u32) as u8, (h.b >> 16u32) as u8, (h.b >> 8u32) as u8, h.b as u8,
        (h.c >> 24u32) as u8, (h.c >> 16u32) as u8, (h.c >> 8u32) as u8, h.c as u8,
        (h.d >> 24u32) as u8, (h.d >> 16u32) as u8, (h.d >> 8u32) as u8, h.d as u8,
        (h.e >> 24u32) as u8, (h.e >> 16u32) as u8, (h.e >> 8u32) as u8, h.e as u8,
        (h.f >> 24u32) as u8, (h.f >> 16u32) as u8, (h.f >> 8u32) as u8, h.f as u8,
        (h.g >> 24u32) as u8, (h.g >> 16u32) as u8, (h.g >> 8u32) as u8, h.g as u8,
        (h.h >> 24u32) as u8, (h.h >> 16u32) as u8, (h.h >> 8u32) as u8, h.h as u8,
    ];
    assert(out@ =~= state_bytes(h));
    out
}

proof fn lemma_sha256_prefix_only(h: Sha256State, m1: Seq<u8>, m2: Seq<u8>, n: nat)
    requires
        64 * n <= m1.len(),
        64 * n <= m2.len(),
        forall|i: int| 0 <= i < 64 * n ==> m1[i] == m2[i],
    ensures
        process_blocks(h, m1, n) == process_blocks(h, m2, n),
    decreases n,
{
    if n > 0 {
        lemma_sha256_prefix_only(h, m1, m2, (n - 1) as nat);
        assert(m1.subrange(64 * (n - 1), 64 * (n as int)) =~= m2.subrange(64 * (n - 1), 64 * (n as int)));
    }
}

/// SHA-256 chains its blocks: over a message `a` of exactly `na` blocks followed by `b`, the
/// chaining value after `na + nb` blocks is the one reached by processing the first `nb` blocks
/// of `b` starting from the chaining value that `a` left. So each block is compressed from the
/// value that the blocks before it produced, and the digest depends on every block.
pub proof fn lemma_sha256_chaining(h: Sha256State, a: Seq<u8>, b: Seq<u8>, na: nat, nb: nat)
    requires
        a.len() == 64 * na,
        b.len() >= 64 * nb,
    ensures
        process_blocks(h, a + b, na + nb) == process_blocks(process_blocks(h, a, na), b, nb),
    decreases nb,
{
    if nb == 0 {
        assert forall|i: int| 0 <= i < 64 * na implies (a + b)[i] == a[i] by {}
        lemma_sha256_prefix_only(h, a + b, a, na);
    } else {
        lemma_sha256_chaining(h, a, b, na, (nb - 1) as nat);
        assert((a + b).subrange(64 * (na + nb - 1), 64 * ((na + nb) as int)) =~= b.subrange(
            64 * (nb - 1),
            64 * (nb as int),
        ));
        assert((na + nb - 1) as nat == (na + (nb - 1) as nat));
    }
}

/// SHA-1 and SHA-256 padding: the message, the byte `0x80`, zero bytes, and the message's length in bits
/// as eight bytes, most significant byte first. The padded length is a whole number of 64-byte blocks, and the
/// fewest that leave room for the marker and the length: 9 to 72 bytes more than the message.
pub proof fn lemma_sha_padding(input: Seq<u8>)
    requires
        input.len() * 8 <= u64::MAX,
    ensures
        ({
            let p = pad_be(input);
            let n = input.len();
            let t = p.len() - 8;
            &&& p.len() % 64 == 0
            &&& n + 9 <= p.len() <= n + 72
            &&& p.subrange(0, n as int) == input
            &&& p[n as int] == 0x80
            &&& forall|j: int| n < j < t ==> p[j] == 0
            &&& p[t] as int * 0x100_0000_0000_0000
                + p[t + 1] as int * 0x1_0000_0000_0000
                + p[t + 2] as int * 0x100_0000_0000
                + p[t + 3] as int * 0x1_0000_0000
                + p[t + 4] as int * 0x100_0000
                + p[t + 5] as int * 0x1_0000
                + p[t + 6] as int * 0x100
                + p[t + 7] as int * 0x1 == 8 * n
        }),
{
    let p = pad_be(input);
    let n = input.len();
    crate::sha256::lemma_pad_len(n);
    let x = (n * 8) as u64;
    assert(x as int == 8 * n);
    assert(x as int == (x as u8) as int * 0x1 + ((x >> 8u64) as u8) as int * 0x100 + ((x >> 16u64) as u8) as int * 0x1_0000 + ((x >> 24u64) as u8) as int * 0x100_0000 + ((x >> 32u64) as u8) as int * 0x1_0000_0000 + ((x >> 40u64) as u8) as int * 0x100_0000_0000 + ((x >> 48u64) as u8) as int * 0x1_0000_0000_0000 + ((x >> 56u64) as u8) as int * 0x100_0000_0000_0000) by (bit_vector);
    assert(p.subrange(0, n as int) =~= input);
    let z = Seq::new(pad_zeros(n), |i: int| 0u8);
    let tail = be64(x);
    assert(p == input + seq![0x80u8] + z + tail);
    let t = p.len() - 8;
    assert(t == n + 1 + z.len());
    assert(p[t + 0] == tail[0] && tail[0] == (x >> 56u64) as u8);
    assert(p[t + 1] == tail[1] && tail[1] == (x >> 48u64) as u8);
    assert(p[t + 2] == tail[2] && tail[2] == (x >> 40u64) as u8);
    assert(p[t + 3] == tail[3] && tail[3] == (x >> 32u64) as u8);
    assert(p[t + 4] == tail[4] && tail[4] == (x >> 24u64) as u8);
    assert(p[t + 5] == tail[5] && tail[5] == (x >> 16u64) as u8);
    assert(p[t + 6] == tail[6] && tail[6] == (x >> 8u64) as u8);
    assert(p[t + 7] == tail[7] && tail[7] == x as u8);
    assert forall|j: int| n < j < t implies p[j] == 0 by {
        assert(p[j] == z[j - n - 1]);
    }
}

} // verus!
