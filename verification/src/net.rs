//! WebSocket frames, URLs and HTTP status lines.
use vstd::prelude::*;
use crate::text::{
    chars_of, digits_value, all_digits, is_whitespace, parse_u64, parse_u64_spec, push_str,
    string_from_range, string_of, unicode_whitespace,
};

verus! {

/// Big-endian bytes of a 16-bit number.
pub open spec fn be16(x: u16) -> Seq<u8> {
    seq![(x >> 8u16) as u8, x as u8]
}

/// Big-endian bytes of a 64-bit number.
pub open spec fn be64(x: u64) -> Seq<u8> {
    seq![
        (x >> 56u64) as u8,
        (x >> 48u64) as u8,
        (x >> 40u64) as u8,
        (x >> 32u64) as u8,
        (x >> 24u64) as u8,
        (x >> 16u64) as u8,
        (x >> 8u64) as u8,
        x as u8,
    ]
}

pub open spec fn read_be16(b: Seq<u8>, p: int) -> u16 {
    ((b[p] as u16) << 8u16) | (b[p + 1] as u16)
}

pub open spec fn read_be64(b: Seq<u8>, p: int) -> u64 {
    ((b[p] as u64) << 56u64) | ((b[p + 1] as u64) << 48u64) | ((b[p + 2] as u64) << 40u64) | ((b[p
        + 3] as u64) << 32u64) | ((b[p + 4] as u64) << 24u64) | ((b[p + 5] as u64) << 16u64) | ((b[p
        + 6] as u64) << 8u64) | (b[p + 7] as u64)
}

/// The second header byte and extended length of a frame: the mask bit with a 7-bit length,
/// or 126 and a 16-bit length, or 127 and a 64-bit length.
pub open spec fn ws_len_field(len: nat, mask_bit: u8) -> Seq<u8> {
    if len <= 125 {
        seq![mask_bit | (len as u8)]
    } else if len <= 65535 {
        seq![mask_bit | 126u8] + be16(len as u16)
    } else {
        seq![mask_bit | 127u8] + be64(len as u64)
    }
}

/// The payload with byte `i` xor-ed with key byte `i % 4`.
pub open spec fn masked(p: Seq<u8>, key: Seq<u8>) -> Seq<u8> {
    Seq::new(p.len(), |i: int| p[i] ^ key[i % 4])
}

/// A final WebSocket frame with the given opcode (low four bits), masked with `key` when one
/// is given.
pub open spec fn ws_frame(p: Seq<u8>, opcode: u8, key: Option<Seq<u8>>) -> Seq<u8> {
    seq![0x80u8 | (opcode & 0x0Fu8)] + match key {
        Some(k) => ws_len_field(p.len(), 0x80u8) + k + masked(p, k),
        None => ws_len_field(p.len(), 0u8) + p,
    }
}

/// The mask key derived from the sub-second nanoseconds of the clock.
pub open spec fn mask_key_of(n: u32) -> Seq<u8> {
    seq![
        ((n & 0xFFu32) as u8) ^ 0x5Au8,
        (((n >> 8u32) & 0xFFu32) as u8) ^ 0xA5u8,
        (((n >> 16u32) & 0xFFu32) as u8) ^ 0x3Cu8,
        (((n >> 24u32) & 0xFFu32) as u8) ^ 0xC3u8,
    ]
}

fn push_all(out: &mut Vec<u8>, b: &[u8])
    ensures
        final(out)@ == old(out)@ + b@,
{
    let ghost start = out@;
    let mut i: usize = 0;
    while i < b.len()
        invariant
            i <= b.len(),
            out@ == start + b@.take(i as int),
        decreases b.len() - i,
    {
        out.push(b[i]);
        i = i + 1;
        assert(out@ =~= start + b@.take(i as int));
    }
    assert(b@.take(b.len() as int) =~= b@);
}

/// A WebSocket frame holding `payload`, masked with `key` where one is given.
pub fn encode_ws_frame_with(payload: &[u8], opcode: u8, key: Option<[u8; 4]>) -> (r: Vec<u8>)
    ensures
        r@ == ws_frame(payload@, opcode, match key {
            Some(k) => Some(k@),
            None => None,
        }),
{
    let mut frame: Vec<u8> = Vec::new();
    frame.push(0x80 | (opcode & 0x0F));
    let len = payload.len();
    let mask_bit: u8 = if key.is_some() { 0x80 } else { 0x00 };
    let ghost head = frame@;
    if len <= 125 {
        frame.push(mask_bit | (len as u8));
    } else if len <= 65535 {
        frame.push(mask_bit | 126);
        let l = len as u16;
        frame.push((l >> 8) as u8);
        frame.push(l as u8);
    } else {
        frame.push(mask_bit | 127);
        let l = len as u64;
        frame.push((l >> 56) as u8);
        frame.push((l >> 48) as u8);
        frame.push((l >> 40) as u8);
        frame.push((l >> 32) as u8);
        frame.push((l >> 24) as u8);
        frame.push((l >> 16) as u8);
        frame.push((l >> 8) as u8);
        frame.push(l as u8);
    }
    assert(frame@ =~= head + ws_len_field(len as nat, mask_bit));
    match key {
        Some(k) => {
            let ghost before = frame@;
            frame.push(k[0]);
            frame.push(k[1]);
            frame.push(k[2]);
            frame.push(k[3]);
            assert(frame@ =~= before + k@);
            let ghost mid = frame@;
            let mut i: usize = 0;
            while i < len
                invariant
                    i <= len == payload@.len(),
                    frame@ == mid + masked(payload@, k@).take(i as int),
                decreases len - i,
            {
                frame.push(payload[i] ^ k[i % 4]);
                i = i + 1;
                assert(frame@ =~= mid + masked(payload@, k@).take(i as int));
            }
            assert(masked(payload@, k@).take(len as int) =~= masked(payload@, k@));
        },
        None => {
            push_all(&mut frame, payload);
        },
    }
    assert(frame@ =~= ws_frame(payload@, opcode, match key {
        Some(k) => Some(k@),
        None => None,
    }));
    frame
}

/// Sub-second nanoseconds of the current time since the Unix epoch (0 before it).
/// Trusted: reads `SystemTime::now()`; `Duration::subsec_nanos` is documented to be below one
/// billion. Nothing else is claimed of the value.
#[verifier::external_body]
fn clock_subsec_nanos() -> (n: u32)
    ensures
        n < 1_000_000_000,
{
    std::time::SystemTime::now().duration_since(std::time::UNIX_EPOCH).unwrap_or_default().subsec_nanos()
}

fn mask_key_from(n: u32) -> (k: [u8; 4])
    ensures
        k@ == mask_key_of(n),
{
    let k = [
        ((n & 0xFF) as u8) ^ 0x5A,
        (((n >> 8) & 0xFF) as u8) ^ 0xA5,
        (((n >> 16) & 0xFF) as u8) ^ 0x3C,
        (((n >> 24) & 0xFF) as u8) ^ 0xC3,
    ];
    assert(k@ =~= mask_key_of(n));
    k
}

/// A WebSocket frame holding `payload`; when `mask` is set, masked with a key taken from the
/// clock.
pub fn encode_ws_frame(payload: &[u8], opcode: u8, mask: bool) -> (r: Vec<u8>)
    ensures
        !mask ==> r@ == ws_frame(payload@, opcode, None),
        mask ==> exists|n: u32| n < 1_000_000_000 && r@ == #[trigger] ws_frame(payload@, opcode, Some(mask_key_of(n))),
{
    if mask {
        let n = clock_subsec_nanos();
        let k = mask_key_from(n);
        let r = encode_ws_frame_with(payload, opcode, Some(k));
        assert(r@ == ws_frame(payload@, opcode, Some(mask_key_of(n))));
        r
    } else {
        encode_ws_frame_with(payload, opcode, None)
    }
}

/// The size of a frame's header given its second byte: two bytes, the extended length, and
/// the mask key.
pub open spec fn ws_header_size(b1: u8) -> nat {
    let code = b1 & 0x7Fu8;
    2 + (if code <= 125 {
        0nat
    } else if code == 126 {
        2nat
    } else {
        8nat
    }) + (if b1 & 0x80u8 != 0 {
        4nat
    } else {
        0nat
    })
}

/// The payload length that a frame header declares (truncated to `usize`).
pub open spec fn ws_payload_len(b: Seq<u8>) -> nat {
    let code = b[1] & 0x7Fu8;
    if code <= 125 {
        code as nat
    } else if code == 126 {
        read_be16(b, 2) as nat
    } else {
        (read_be64(b, 2) as usize) as nat
    }
}

/// The frame at the start of `b`: its opcode, its unmasked payload and its size; `None` while
/// `b` does not yet hold all of it.
pub open spec fn parse_ws_frame_spec(b: Seq<u8>) -> Option<(u8, Seq<u8>, nat)> {
    if b.len() < 2 || b.len() < ws_header_size(b[1]) {
        None
    } else {
        let h = ws_header_size(b[1]);
        let n = ws_payload_len(b);
        if b.len() - h < n {
            None
        } else {
            let body = b.subrange(h as int, (h + n) as int);
            let payload = if b[1] & 0x80u8 != 0 {
                masked(body, b.subrange(h - 4, h as int))
            } else {
                body
            };
            Some((b[0] & 0x0Fu8, payload, h + n))
        }
    }
}

proof fn lemma_len_byte(mb: u8, x: u8)
    requires
        mb == 0 || mb == 0x80,
        x < 128,
    ensures
        (mb | x) & 0x7Fu8 == x,
        ((mb | x) & 0x80u8 != 0) == (mb == 0x80),
{
    assert((mb | x) & 0x7Fu8 == x && (((mb | x) & 0x80u8 != 0) == (mb == 0x80))) by (bit_vector)
        requires
            mb == 0 || mb == 0x80,
            x < 128,
    ;
}

proof fn lemma_be16(x: u16)
    ensures
        read_be16(be16(x), 0) == x,
{
    let hi = (x >> 8u16) as u8;
    let lo = x as u8;
    assert(((hi as u16) << 8u16) | (lo as u16) == x) by (bit_vector)
        requires
            hi == (x >> 8u16) as u8,
            lo == x as u8,
    ;
}

proof fn lemma_be64(x: u64)
    ensures
        read_be64(be64(x), 0) == x,
{
    let b = be64(x);
    let (b0, b1, b2, b3, b4, b5, b6, b7) = (b[0], b[1], b[2], b[3], b[4], b[5], b[6], b[7]);
    assert(((b0 as u64) << 56u64) | ((b1 as u64) << 48u64) | ((b2 as u64) << 40u64) | ((b3 as u64)
        << 32u64) | ((b4 as u64) << 24u64) | ((b5 as u64) << 16u64) | ((b6 as u64) << 8u64) | (b7 as u64)
        == x) by (bit_vector)
        requires
            b0 == (x >> 56u64) as u8,
            b1 == (x >> 48u64) as u8,
            b2 == (x >> 40u64) as u8,
            b3 == (x >> 32u64) as u8,
            b4 == (x >> 24u64) as u8,
            b5 == (x >> 16u64) as u8,
            b6 == (x >> 8u64) as u8,
            b7 == x as u8,
    ;
}

proof fn lemma_unmask(p: Seq<u8>, k: Seq<u8>)
    requires
        k.len() == 4,
    ensures
        masked(masked(p, k), k) == p,
{
    assert forall|i: int| 0 <= i < p.len() implies #[trigger] masked(masked(p, k), k)[i] == p[i] by {
        let x = p[i];
        let y = k[i % 4];
        assert((x ^ y) ^ y == x) by (bit_vector);
    }
    assert(masked(masked(p, k), k) =~= p);
}

/// Reading a frame back from the front of a byte stream gives its opcode (low four bits) and
/// its payload, unmasked, and the frame's size; whatever follows the frame is left unread.
pub proof fn lemma_ws_frame_roundtrip(p: Seq<u8>, opcode: u8, key: Option<Seq<u8>>, rest: Seq<u8>)
    requires
        p.len() <= usize::MAX,
        key matches Some(k) ==> k.len() == 4,
    ensures
        parse_ws_frame_spec(ws_frame(p, opcode, key) + rest) == Some(
            (opcode & 0x0Fu8, p, ws_frame(p, opcode, key).len()),
        ),
{
    let f = ws_frame(p, opcode, key);
    let b = f + rest;
    let mb: u8 = if key is Some { 0x80 } else { 0 };
    let lf = ws_len_field(p.len(), mb);
    let len = p.len();
    assert(((0x80u8 | (opcode & 0x0Fu8)) & 0x0Fu8) == (opcode & 0x0Fu8)) by (bit_vector);
    assert(b[0] == 0x80u8 | (opcode & 0x0Fu8));
    assert(b[1] == lf[0]);
    if len <= 125 {
        lemma_len_byte(mb, len as u8);
    } else if len <= 65535 {
        lemma_len_byte(mb, 126u8);
        lemma_be16(len as u16);
        assert(b[2] == be16(len as u16)[0] && b[3] == be16(len as u16)[1]);
    } else {
        lemma_len_byte(mb, 127u8);
        lemma_be64(len as u64);
        let e = be64(len as u64);
        assert(b[2] == e[0] && b[3] == e[1] && b[4] == e[2] && b[5] == e[3]);
        assert(b[6] == e[4] && b[7] == e[5] && b[8] == e[6] && b[9] == e[7]);
    }
    let h = ws_header_size(b[1]);
    assert(h == 1 + lf.len() + (if key is Some { 4nat } else { 0nat }));
    assert(ws_payload_len(b) == len);
    match key {
        Some(k) => {
            assert(b.subrange(h as int, (h + len) as int) =~= masked(p, k));
            assert(b.subrange(h - 4, h as int) =~= k);
            lemma_unmask(p, k);
        },
        None => {
            assert(b.subrange(h as int, (h + len) as int) =~= p);
        },
    }
}

/// The header size of a frame whose second byte is `b1`.
pub fn ws_frame_header_size(b1: u8) -> (n: usize)
    ensures
        n == ws_header_size(b1),
{
    let code = b1 & 0x7F;
    let ext: usize = if code <= 125 {
        0
    } else if code == 126 {
        2
    } else {
        8
    };
    let key: usize = if b1 & 0x80 != 0 {
        4
    } else {
        0
    };
    2 + ext + key
}

/// The payload length that a complete frame header declares.
pub fn ws_declared_len(header: &[u8]) -> (n: usize)
    requires
        header@.len() >= 2,
        header@.len() >= ws_header_size(header@[1]),
    ensures
        n == ws_payload_len(header@),
{
    let code = header[1] & 0x7F;
    let ghost h = ws_header_size(header@[1]);
    if code <= 125 {
        code as usize
    } else if code == 126 {
        assert(h >= 4);
        (((header[2] as u16) << 8) | (header[3] as u16)) as usize
    } else {
        assert(h >= 10);
        let x: u64 = ((header[2] as u64) << 56) | ((header[3] as u64) << 48) | ((header[4] as u64) << 40)
            | ((header[5] as u64) << 32) | ((header[6] as u64) << 24) | ((header[7] as u64) << 16) | ((
        header[8] as u64) << 8) | (header[9] as u64);
        #[verifier::truncate]
        (x as usize)
    }
}

/// Reads the frame at the start of `buf`: its opcode, unmasked payload, and size; `None`
/// while `buf` does not hold the whole frame.
pub fn parse_ws_frame(buf: &[u8]) -> (r: Option<(u8, Vec<u8>, usize)>)
    ensures
        match parse_ws_frame_spec(buf@) {
            Some((op, p, used)) => r matches Some(x) && x.0 == op && x.1@ == p && x.2 == used,
            None => r is None,
        },
{
    if buf.len() < 2 {
        return None;
    }
    let b1 = buf[1];
    let h = ws_frame_header_size(b1);
    if buf.len() < h {
        return None;
    }
    let code = b1 & 0x7F;
    let n: usize = if code <= 125 {
        code as usize
    } else if code == 126 {
        (((buf[2] as u16) << 8) | (buf[3] as u16)) as usize
    } else {
        let x: u64 = ((buf[2] as u64) << 56) | ((buf[3] as u64) << 48) | ((buf[4] as u64) << 40) | ((
        buf[5] as u64) << 32) | ((buf[6] as u64) << 24) | ((buf[7] as u64) << 16) | ((buf[8] as u64)
            << 8) | (buf[9] as u64);
        #[verifier::truncate]
        (x as usize)
    };
    assert(n == ws_payload_len(buf@));
    if buf.len() - h < n {
        return None;
    }
    let mut payload: Vec<u8> = Vec::new();
    let masked_frame = b1 & 0x80 != 0;
    let ghost body = buf@.subrange(h as int, h + n);
    let ghost key = if masked_frame { buf@.subrange(h - 4, h as int) } else { Seq::empty() };
    let mut i: usize = 0;
    while i < n
        invariant
            i <= n,
            h + n <= buf.len(),
            buf.len() == buf@.len(),
            h >= 2,
            masked_frame ==> h >= 6,
            body == buf@.subrange(h as int, h + n),
            masked_frame ==> key == buf@.subrange(h - 4, h as int),
            payload@ == (if masked_frame {
                masked(body, key)
            } else {
                body
            }).take(i as int),
        decreases n - i,
    {
        let b = buf[h + i];
        if masked_frame {
            let kb = buf[h - 4 + i % 4];
            assert(kb == key[(i % 4) as int]);
            payload.push(b ^ kb);
        } else {
            payload.push(b);
        }
        i = i + 1;
        assert(payload@ =~= (if masked_frame {
            masked(body, key)
        } else {
            body
        }).take(i as int));
    }
    assert((if masked_frame {
        masked(body, key)
    } else {
        body
    }).take(n as int) =~= (if masked_frame {
        masked(body, key)
    } else {
        body
    }));
    Some((buf[0] & 0x0F, payload, h + n))
}

/// Whether `s` begins with `prefix`.
pub open spec fn has_prefix(s: Seq<char>, prefix: Seq<char>) -> bool {
    s.len() >= prefix.len() && s.take(prefix.len() as int) == prefix
}

/// The scheme's default port and the text after the scheme: `ws://` and `http://` give 80,
/// `wss://` and `https://` give 443; without a known scheme the whole text, with 80.
pub open spec fn url_scheme(url: Seq<char>) -> (Seq<char>, u16) {
    if has_prefix(url, "ws://"@) {
        (url.skip(5), 80)
    } else if has_prefix(url, "wss://"@) {
        (url.skip(6), 443)
    } else if has_prefix(url, "http://"@) {
        (url.skip(7), 80)
    } else if has_prefix(url, "https://"@) {
        (url.skip(8), 443)
    } else {
        (url, 80)
    }
}

/// The first position of `c` in `s`.
pub open spec fn first_index(s: Seq<char>, c: char) -> Option<int> {
    if exists|i: int| 0 <= i < s.len() && s[i] == c {
        Some(choose|i: int| 0 <= i < s.len() && s[i] == c && forall|j: int| 0 <= j < i ==> s[j] != c)
    } else {
        None
    }
}

/// What `str::parse::<u16>` gives.
pub open spec fn parse_u16_spec(s: Seq<char>) -> Option<u16> {
    match parse_u64_spec(s) {
        Some(v) => if v <= u16::MAX {
            Some(v as u16)
        } else {
            None
        },
        None => None,
    }
}

/// The part before the first `/`, and the path from it on (`/` when there is none).
pub open spec fn split_path(rest: Seq<char>) -> (Seq<char>, Seq<char>) {
    match first_index(rest, '/') {
        Some(i) => (rest.take(i), rest.skip(i)),
        None => (rest, "/"@),
    }
}

/// The host, and the port after the first `:` (a valid `u16`), else the default port.
pub open spec fn split_port(host_port: Seq<char>, default_port: u16) -> Result<(Seq<char>, u16), Seq<char>> {
    match first_index(host_port, ':') {
        Some(j) => {
            let p = host_port.skip(j + 1);
            match parse_u16_spec(p) {
                Some(port) => Ok((host_port.take(j), port)),
                None => Err("Invalid port in url: "@ + p),
            }
        },
        None => Ok((host_port, default_port)),
    }
}

/// Host, port and path of a URL: the scheme's default port unless one follows the host
/// after `:`, and the path from the first `/` on (`/` when there is none).
pub open spec fn parse_url_spec(url: Seq<char>) -> Result<(Seq<char>, u16, Seq<char>), Seq<char>> {
    let (rest, default_port) = url_scheme(url);
    let (host_port, path) = split_path(rest);
    match split_port(host_port, default_port) {
        Ok((host, port)) => Ok((host, port, path)),
        Err(e) => Err(e),
    }
}

fn starts_with(s: &Vec<char>, lit: &str) -> (r: bool)
    ensures
        r == has_prefix(s@, lit@),
{
    let l = chars_of(lit);
    if s.len() < l.len() {
        return false;
    }
    let mut i: usize = 0;
    while i < l.len()
        invariant
            i <= l@.len() <= s@.len(),
            l@ == lit@,
            forall|j: int| 0 <= j < i ==> s@[j] == l@[j],
        decreases l@.len() - i,
    {
        if s[i] != l[i] {
            assert(s@.take(l@.len() as int)[i as int] != l@[i as int]);
            return false;
        }
        i = i + 1;
    }
    assert(s@.take(l@.len() as int) =~= l@);
    true
}

proof fn lemma_first_index_at(t: Seq<char>, c: char, k: int)
    requires
        0 <= k < t.len(),
        t[k] == c,
        forall|j: int| 0 <= j < k ==> t[j] != c,
    ensures
        first_index(t, c) == Some(k),
{
    let w = choose|w: int| 0 <= w < t.len() && t[w] == c && forall|j: int| 0 <= j < w ==> t[j] != c;
    assert(w == k) by {
        if w < k {
            assert(t[w] != c);
        }
        if w > k {
            assert(t[k] != c);
        }
    }
}

proof fn lemma_first_index_none(t: Seq<char>, c: char)
    requires
        forall|j: int| 0 <= j < t.len() ==> t[j] != c,
    ensures
        first_index(t, c) is None,
{
}

/// The first position of `c` in `s[lo..hi]`.
pub(crate) fn find_char(s: &Vec<char>, lo: usize, hi: usize, c: char) -> (r: Option<usize>)
    requires
        lo <= hi <= s@.len(),
    ensures
        r matches Some(i) ==> lo <= i < hi && s@[i as int] == c && forall|j: int| lo <= j < i ==> s@[j] != c,
        r is None ==> forall|j: int| lo <= j < hi ==> s@[j] != c,
{
    let mut i = lo;
    while i < hi
        invariant
            lo <= i <= hi <= s@.len(),
            forall|j: int| lo <= j < i ==> s@[j] != c,
        decreases hi - i,
    {
        if s[i] == c {
            return Some(i);
        }
        i = i + 1;
    }
    None
}

fn scheme_split(s: &Vec<char>) -> (r: (usize, u16))
    ensures
        r.0 <= s@.len(),
        s@.skip(r.0 as int) == url_scheme(s@).0,
        r.1 == url_scheme(s@).1,
{
    proof {
        reveal_strlit("ws://");
        reveal_strlit("wss://");
        reveal_strlit("http://");
        reveal_strlit("https://");
    }
    let r: (usize, u16) = if starts_with(s, "ws://") {
        (5, 80)
    } else if starts_with(s, "wss://") {
        (6, 443)
    } else if starts_with(s, "http://") {
        (7, 80)
    } else if starts_with(s, "https://") {
        (8, 443)
    } else {
        (0, 80)
    };
    assert(s@.skip(r.0 as int) =~= url_scheme(s@).0);
    r
}

fn invalid_port(s: &Vec<char>, lo: usize, hi: usize) -> (m: String)
    requires
        lo <= hi <= s@.len(),
    ensures
        m@ == "Invalid port in url: "@ + s@.subrange(lo as int, hi as int),
{
    let mut m = string_of("Invalid port in url: ");
    let p = string_from_range(s, lo, hi);
    push_str(&mut m, p.as_str());
    m
}

fn path_split(s: &Vec<char>, start: usize) -> (r: (usize, String))
    requires
        start <= s@.len(),
    ensures
        start <= r.0 <= s@.len(),
        s@.subrange(start as int, r.0 as int) == split_path(s@.skip(start as int)).0,
        r.1@ == split_path(s@.skip(start as int)).1,
{
    let ghost rest = s@.skip(start as int);
    let n = s.len();
    assert(s@.subrange(start as int, n as int) =~= rest);
    let found = find_char(s, start, n, '/');
    match found {
        Some(i) => {
            let path = string_from_range(s, i, n);
            let ghost k = i - start;
            proof {
                lemma_first_index_at(rest, '/', k);
            }
            assert(s@.subrange(start as int, i as int) =~= rest.take(k));
            assert(path@ =~= rest.skip(k));
            (i, path)
        },
        None => {
            proof {
                lemma_first_index_none(rest, '/');
            }
            (n, string_of("/"))
        },
    }
}

fn port_split(s: &Vec<char>, start: usize, end: usize, default_port: u16) -> (r: Result<(String, u16), String>)
    requires
        start <= end <= s@.len(),
    ensures
        match split_port(s@.subrange(start as int, end as int), default_port) {
            Ok((h, port)) => r matches Ok(x) && x.0@ == h && x.1 == port,
            Err(e) => r matches Err(m) && m@ == e,
        },
{
    let ghost hp = s@.subrange(start as int, end as int);
    match find_char(s, start, end, ':') {
        Some(j) => {
            let ghost jj = (j - start) as int;
            proof {
                lemma_first_index_at(hp, ':', jj);
            }
            let port_chars = chars_in(s, j + 1, end);
            assert(port_chars@ =~= hp.skip(jj + 1));
            match parse_u64(&port_chars) {
                Some(v) => {
                    if v <= 65535 {
                        let host = string_from_range(s, start, j);
                        assert(host@ =~= hp.take(jj));
                        Ok((host, v as u16))
                    } else {
                        Err(invalid_port(s, j + 1, end))
                    }
                },
                None => Err(invalid_port(s, j + 1, end)),
            }
        },
        None => {
            proof {
                lemma_first_index_none(hp, ':');
            }
            Ok((string_from_range(s, start, end), default_port))
        },
    }
}

pub(crate) fn chars_in(s: &Vec<char>, lo: usize, hi: usize) -> (v: Vec<char>)
    requires
        lo <= hi <= s@.len(),
    ensures
        v@ == s@.subrange(lo as int, hi as int),
{
    let mut v: Vec<char> = Vec::new();
    let mut k = lo;
    while k < hi
        invariant
            lo <= k <= hi <= s@.len(),
            v@ == s@.subrange(lo as int, k as int),
        decreases hi - k,
    {
        v.push(s[k]);
        k = k + 1;
        assert(v@ =~= s@.subrange(lo as int, k as int));
    }
    v
}

/// Splits a URL into host, port and path; the port after `:` must be a valid `u16`.
pub fn parse_url(url: &str) -> (r: Result<(String, u16, String), String>)
    ensures
        match parse_url_spec(url@) {
            Ok((h, port, path)) => r matches Ok(x) && x.0@ == h && x.1 == port && x.2@ == path,
            Err(e) => r matches Err(m) && m@ == e,
        },
{
    let s = chars_of(url);
    let (start, default_port) = scheme_split(&s);
    let (hp_end, path) = path_split(&s, start);
    match port_split(&s, start, hp_end, default_port) {
        Ok((host, port)) => Ok((host, port, path)),
        Err(e) => Err(e),
    }
}

/// Whitespace-separated words, as `str::split_whitespace` yields them.
pub open spec fn words(s: Seq<char>) -> Seq<Seq<char>>
    decreases s.len(),
{
    if s.len() == 0 {
        Seq::empty()
    } else {
        let w = words(s.drop_last());
        let c = s.last();
        if unicode_whitespace(c) {
            w
        } else if s.len() >= 2 && !unicode_whitespace(s[s.len() - 2]) {
            w.update(w.len() - 1, w.last().push(c))
        } else {
            w.push(seq![c])
        }
    }
}

proof fn lemma_words_nonempty(s: Seq<char>)
    requires
        s.len() > 0,
        !unicode_whitespace(s.last()),
    ensures
        words(s).len() > 0,
    decreases s.len(),
{
    if s.len() >= 2 && !unicode_whitespace(s[s.len() - 2]) {
        assert(s.drop_last().last() == s[s.len() - 2]);
        lemma_words_nonempty(s.drop_last());
    }
}

/// What `str::parse::<i64>` gives: an optional sign, then one or more decimal digits whose
/// value fits in 64 signed bits.
pub open spec fn parse_i64_spec(t: Seq<char>) -> Option<i64> {
    if t.len() > 0 && t[0] == '-' {
        let d = t.drop_first();
        if d.len() > 0 && all_digits(d) && digits_value(d) <= 0x8000_0000_0000_0000 {
            Some((-(digits_value(d) as int)) as i64)
        } else {
            None
        }
    } else {
        match parse_u64_spec(t) {
            Some(v) => if v <= i64::MAX as u64 {
                Some(v as i64)
            } else {
                None
            },
            None => None,
        }
    }
}

/// The status code of an HTTP status line: its second word, read as an `i64`.
pub open spec fn status_code_spec(line: Seq<char>) -> Option<i64> {
    let w = words(line);
    if w.len() >= 2 {
        parse_i64_spec(w[1])
    } else {
        None
    }
}

pub open spec fn word_views(ws: Seq<Vec<char>>) -> Seq<Seq<char>> {
    ws.map_values(|w: Vec<char>| w@)
}

/// The whitespace-separated words of `s`.
pub fn split_words(s: &Vec<char>) -> (r: Vec<Vec<char>>)
    ensures
        word_views(r@) == words(s@),
{
    let mut out: Vec<Vec<char>> = Vec::new();
    let mut i: usize = 0;
    assert(s@.take(0) =~= Seq::<char>::empty());
    assert(word_views(out@) =~= words(s@.take(0)));
    while i < s.len()
        invariant
            i <= s@.len(),
            word_views(out@) == words(s@.take(i as int)),
        decreases s@.len() - i,
    {
        let c = s[i];
        let ghost t = s@.take(i + 1);
        assert(t.drop_last() =~= s@.take(i as int));
        assert(t.last() == c);
        let ghost before = word_views(out@);
        if is_whitespace(c) {
        } else if i >= 1 && !is_whitespace(s[i - 1]) {
            assert(t[t.len() - 2] == s@[i - 1]);
            proof {
                assert(s@.take(i as int).last() == s@[i - 1]);
                lemma_words_nonempty(s@.take(i as int));
            }
            let last = out.len() - 1;
            let mut w = out.remove(last);
            w.push(c);
            out.push(w);
            assert(word_views(out@) =~= before.update(before.len() - 1, before.last().push(c)));
        } else {
            let mut w: Vec<char> = Vec::new();
            w.push(c);
            out.push(w);
            assert(word_views(out@) =~= before.push(seq![c]));
        }
        i = i + 1;
    }
    assert(s@.take(s@.len() as int) =~= s@);
    out
}

/// Parses a decimal `i64` as `str::parse::<i64>` does.
pub fn parse_i64(t: &Vec<char>) -> (r: Option<i64>)
    ensures
        r == parse_i64_spec(t@),
{
    if t.len() > 0 && t[0] == '-' {
        let d = chars_in(t, 1, t.len());
        assert(d@ =~= t@.drop_first());
        if d.len() == 0 || d[0] == '+' {
            assert(d@.len() > 0 ==> !all_digits(d@));
            return None;
        }
        assert(parse_u64_spec(d@) == (if d@.len() > 0 && all_digits(d@) && digits_value(d@) <= u64::MAX {
            Some(digits_value(d@) as u64)
        } else {
            None
        }));
        match parse_u64(&d) {
            Some(v) => {
                if v < 0x8000_0000_0000_0000 {
                    Some(-(v as i64))
                } else if v == 0x8000_0000_0000_0000 {
                    Some(i64::MIN)
                } else {
                    None
                }
            },
            None => None,
        }
    } else {
        match parse_u64(t) {
            Some(v) => {
                if v <= 0x7FFF_FFFF_FFFF_FFFF {
                    Some(v as i64)
                } else {
                    None
                }
            },
            None => None,
        }
    }
}

/// The status code of an HTTP status line (`HTTP/1.1 200 OK` gives 200).
pub fn parse_status_code(status_line: &str) -> (r: Option<i64>)
    ensures
        r == status_code_spec(status_line@),
{
    let s = chars_of(status_line);
    let parts = split_words(&s);
    if parts.len() >= 2 {
        assert(word_views(parts@)[1] == parts@[1]@);
        parse_i64(&parts[1])
    } else {
        None
    }
}

} // verus!
