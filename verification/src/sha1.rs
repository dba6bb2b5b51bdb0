//! SHA-1 (FIPS 180-1 / RFC 3174): the mathematical definition and a verified implementation.
use vstd::prelude::*;
use crate::sha256::{be32, pad_be, pad_message_be, word_be, digest_input_ok};

verus! {

/// The five registers (and chaining value) of SHA-1.
#[derive(Clone, Copy)]
pub struct Sha1State {
    pub a: u32,
    pub b: u32,
    pub c: u32,
    pub d: u32,
    pub e: u32,
}

/// Left rotation of a 32-bit word by `n` bits, `0 < n < 32`.
pub open spec fn rotl(x: u32, n: u32) -> u32 {
    (x << n) | (x >> ((32 - n) as u32))
}

/// Message-schedule word `t`, given the words `w` before it.
pub open spec fn sha1_schedule_word(blk: Seq<u8>, w: Seq<u32>, t: int) -> u32 {
    if t < 16 {
        word_be(blk, t)
    } else {
        rotl(w[t - 3] ^ w[t - 8] ^ w[t - 14] ^ w[t - 16], 1)
    }
}

/// The first `n` words of the 80-word schedule of a 64-byte block.
pub open spec fn sha1_schedule(blk: Seq<u8>, n: nat) -> Seq<u32>
    decreases n,
{
    if n == 0 {
        Seq::empty()
    } else {
        let w = sha1_schedule(blk, (n - 1) as nat);
        w.push(sha1_schedule_word(blk, w, n - 1))
    }
}

/// The round function of round `t`.
pub open spec fn sha1_f(t: int, b: u32, c: u32, d: u32) -> u32 {
    if t < 20 {
        (b & c) | (!b & d)
    } else if t < 40 {
        b ^ c ^ d
    } else if t < 60 {
        (b & c) | (b & d) | (c & d)
    } else {
        b ^ c ^ d
    }
}

/// The additive constant of round `t`.
pub open spec fn sha1_k(t: int) -> u32 {
    if t < 20 {
        0x5a827999u32
    } else if t < 40 {
        0x6ed9eba1u32
    } else if t < 60 {
        0x8f1bbcdcu32
    } else {
        0xca62c1d6u32
    }
}

pub open spec fn sha1_round(s: Sha1State, t: int, w: u32) -> Sha1State {
    let temp = rotl(s.a, 5).wrapping_add(sha1_f(t, s.b, s.c, s.d)).wrapping_add(s.e).wrapping_add(
        sha1_k(t),
    ).wrapping_add(w);
    Sha1State { a: temp, b: s.a, c: rotl(s.b, 30), d: s.c, e: s.d }
}

/// The registers after the first `n` rounds.
pub open spec fn sha1_rounds(s: Sha1State, w: Seq<u32>, n: nat) -> Sha1State
    decreases n,
{
    if n == 0 {
        s
    } else {
        sha1_round(sha1_rounds(s, w, (n - 1) as nat), n - 1, w[n - 1])
    }
}

pub open spec fn sha1_compress(h: Sha1State, blk: Seq<u8>) -> Sha1State {
    let r = sha1_rounds(h, sha1_schedule(blk, 80), 80);
    Sha1State {
        a: h.a.wrapping_add(r.a),
        b: h.b.wrapping_add(r.b),
        c: h.c.wrapping_add(r.c),
        d: h.d.wrapping_add(r.d),
        e: h.e.wrapping_add(r.e),
    }
}

pub open spec fn sha1_blocks(h: Sha1State, msg: Seq<u8>, n: nat) -> Sha1State
    decreases n,
{
    if n == 0 {
        h
    } else {
        sha1_compress(sha1_blocks(h, msg, (n - 1) as nat), msg.subrange(64 * (n - 1), 64 * (n as int)))
    }
}

pub open spec fn sha1_initial() -> Sha1State {
    Sha1State { a: 0x67452301, b: 0xefcdab89, c: 0x98badcfe, d: 0x10325476, e: 0xc3d2e1f0 }
}

pub open spec fn sha1_state_bytes(s: Sha1State) -> Seq<u8> {
    be32(s.a) + be32(s.b) + be32(s.c) + be32(s.d) + be32(s.e)
}

/// The SHA-1 digest of a byte sequence.
pub open spec fn sha1_spec(input: Seq<u8>) -> Seq<u8> {
    let m = pad_be(input);
    sha1_state_bytes(sha1_blocks(sha1_initial(), m, m.len() / 64))
}

proof fn lemma_sha1_schedule_len(blk: Seq<u8>, n: nat)
    ensures
        sha1_schedule(blk, n).len() == n,
    decreases n,
{
    if n > 0 {
        lemma_sha1_schedule_len(blk, (n - 1) as nat);
    }
}

fn rotl32(x: u32, n: u32) -> (r: u32)
    requires
        0 < n < 32,
    ensures
        r == rotl(x, n),
{
    (x << n) | (x >> (32 - n))
}

fn load_be(msg: &Vec<u8>, p: usize) -> (w: u32)
    requires
        p + 4 <= msg.len(),
    ensures
        w == ((msg@[p as int] as u32) << 24u32) | ((msg@[p + 1] as u32) << 16u32) | ((msg@[p
            + 2] as u32) << 8u32) | (msg@[p + 3] as u32),
{
    ((msg[p] as u32) << 24u32) | ((msg[p + 1] as u32) << 16u32) | ((msg[p + 2] as u32) << 8u32)
        | (msg[p + 3] as u32)
}

fn sha1_compress_block(h: Sha1State, msg: &Vec<u8>, off: usize) -> (r: Sha1State)
    requires
        off + 64 <= msg.len(),
    ensures
        r == sha1_compress(h, msg@.subrange(off as int, off + 64)),
{
    let ghost blk = msg@.subrange(off as int, off + 64);
    let mut w: Vec<u32> = Vec::new();
    let mut i: usize = 0;
    while i < 16
        invariant
            i <= 16,
            off + 64 <= msg.len(),
            blk == msg@.subrange(off as int, off + 64),
            w@ == sha1_schedule(blk, i as nat),
        decreases 16 - i,
    {
        proof {
            lemma_sha1_schedule_len(blk, i as nat);
        }
        let x = load_be(msg, off + 4 * i);
        assert(blk[4 * i] == msg@[off + 4 * i]);
        assert(blk[4 * i + 1] == msg@[off + 4 * i + 1]);
        assert(blk[4 * i + 2] == msg@[off + 4 * i + 2]);
        assert(blk[4 * i + 3] == msg@[off + 4 * i + 3]);
        w.push(x);
        i = i + 1;
    }
    while i < 80
        invariant
            16 <= i <= 80,
            w@ == sha1_schedule(blk, i as nat),
        decreases 80 - i,
    {
        proof {
            lemma_sha1_schedule_len(blk, i as nat);
        }
        let x = rotl32(w[i - 3] ^ w[i - 8] ^ w[i - 14] ^ w[i - 16], 1);
        w.push(x);
        i = i + 1;
    }
    proof {
        lemma_sha1_schedule_len(blk, 80);
    }
    let mut s = h;
    let mut t: usize = 0;
    while t < 80
        invariant
            t <= 80,
            w@ == sha1_schedule(blk, 80),
            w@.len() == 80,
            s == sha1_rounds(h, w@, t as nat),
        decreases 80 - t,
    {
        let (f, k) = if t < 20 {
            ((s.b & s.c) | (!s.b & s.d), 0x5a827999u32)
        } else if t < 40 {
            (s.b ^ s.c ^ s.d, 0x6ed9eba1u32)
        } else if t < 60 {
            ((s.b & s.c) | (s.b & s.d) | (s.c & s.d), 0x8f1bbcdcu32)
        } else {
            (s.b ^ s.c ^ s.d, 0xca62c1d6u32)
        };
        let temp = rotl32(s.a, 5).wrapping_add(f).wrapping_add(s.e).wrapping_add(k).wrapping_add(
            w[t],
        );
        s = Sha1State { a: temp, b: s.a, c: rotl32(s.b, 30), d: s.c, e: s.d };
        t = t + 1;
    }
    Sha1State {
        a: h.a.wrapping_add(s.a),
        b: h.b.wrapping_add(s.b),
        c: h.c.wrapping_add(s.c),
        d: h.d.wrapping_add(s.d),
        e: h.e.wrapping_add(s.e),
    }
}

/// Computes the raw 20-byte SHA-1 digest of `input`.
pub fn sha1_bytes(input: &[u8]) -> (out: [u8; 20])
    requires
        digest_input_ok(input.len() as nat),
    ensures
        out@ == sha1_spec(input@),
{
    let msg = pad_message_be(input);
    let mut h = Sha1State {
        a: 0x67452301,
        b: 0xefcdab89,
        c: 0x98badcfe,
        d: 0x10325476,
        e: 0xc3d2e1f0,
    };
    let mut off: usize = 0;
    while off < msg.len()
        invariant
            off <= msg.len(),
            off % 64 == 0,
            msg@.len() % 64 == 0,
            h == sha1_blocks(sha1_initial(), msg@, (off / 64) as nat),
        decreases msg.len() - off,
    {
        h = sha1_compress_block(h, &msg, off);
        assert((off + 64) / 64 == off / 64 + 1);
        off = off + 64;
    }
    let out: [u8; 20] = [
        (h.a >> 24u32) as u8, (h.a >> 16u32) as u8, (h.a >> 8u32) as u8, h.a as u8,
        (h.b >> 24u32) as u8, (h.b >> 16u32) as u8, (h.b >> 8u32) as u8, h.b as u8,
        (h.c >> 24u32) as u8, (h.c >> 16u32) as u8, (h.c >> 8u32) as u8, h.c as u8,
        (h.d >> 24u32) as u8, (h.d >> 16u32) as u8, (h.d >> 8u32) as u8, h.d as u8,
        (h.e >> 24u32) as u8, (h.e >> 16u32) as u8, (h.e >> 8u32) as u8, h.e as u8,
    ];
    assert(out@ =~= sha1_state_bytes(h));
    out
}

proof fn lemma_sha1_prefix_only(h: Sha1State, m1: Seq<u8>, m2: Seq<u8>, n: nat)
    requires
        64 * n <= m1.len(),
        64 * n <= m2.len(),
        forall|i: int| 0 <= i < 64 * n ==> m1[i] == m2[i],
    ensures
        sha1_blocks(h, m1, n) == sha1_blocks(h, m2, n),
    decreases n,
{
    if n > 0 {
        lemma_sha1_prefix_only(h, m1, m2, (n - 1) as nat);
        assert(m1.subrange(64 * (n - 1), 64 * (n as int)) =~= m2.subrange(64 * (n - 1), 64 * (n as int)));
    }
}

/// SHA-1 chains its blocks: over a message `a` of exactly `na` blocks followed by `b`, the
/// chaining value after `na + nb` blocks is the one reached by processing the first `nb` blocks
/// of `b` starting from the chaining value that `a` left. So each block is compressed from the
/// value that the blocks before it produced, and the digest depends on every block.
pub proof fn lemma_sha1_chaining(h: Sha1State, a: Seq<u8>, b: Seq<u8>, na: nat, nb: nat)
    requires
        a.len() == 64 * na,
        b.len() >= 64 * nb,
    ensures
        sha1_blocks(h, a + b, na + nb) == sha1_blocks(sha1_blocks(h, a, na), b, nb),
    decreases nb,
{
    if nb == 0 {
        assert forall|i: int| 0 <= i < 64 * na implies (a + b)[i] == a[i] by {}
        lemma_sha1_prefix_only(h, a + b, a, na);
    } else {
        lemma_sha1_chaining(h, a, b, na, (nb - 1) as nat);
        assert((a + b).subrange(64 * (na + nb - 1), 64 * ((na + nb) as int)) =~= b.subrange(
            64 * (nb - 1),
            64 * (nb as int),
        ));
        assert((na + nb - 1) as nat == (na + (nb - 1) as nat));
    }
}

} // verus!
