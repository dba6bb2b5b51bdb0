//! AetherPack, the binary encoding of values, and hex conversion of byte strings.
use vstd::prelude::*;
use vstd::utf8::*;
use crate::value::{fn_text, function_text, 
    entry_models, lemma_entry_models, lemma_entry_models_push, lemma_models, lemma_models_push,
    models, Value, ValueView,
};
use crate::text::{
    chars_of, decimal, hex_digit_spec, hex_lower, push_char, push_decimal, push_str,
    string_from_range, string_of, to_hex, trim_back, trim_bounds, trim_front, trim_spec,
    unicode_whitespace,
};

verus! {

/// Lower-case hexadecimal text of `bytes`, two characters per byte.
pub fn bytes_to_hex(bytes: &[u8]) -> (s: String)
    ensures
        s@ == hex_lower(bytes@),
{
    to_hex(bytes)
}

/// The value of an ASCII hexadecimal digit of either case.
pub open spec fn hex_value(b: u8) -> Option<u8> {
    if 0x30 <= b <= 0x39 {
        Some((b - 0x30) as u8)
    } else if 0x61 <= b <= 0x66 {
        Some((b - 0x61 + 10) as u8)
    } else if 0x41 <= b <= 0x46 {
        Some((b - 0x41 + 10) as u8)
    } else {
        None
    }
}

/// `u8::from_str_radix(_, 16)` on a two-byte slice: two hex digits, or `+` and one digit.
pub open spec fn hex_pair(b0: u8, b1: u8) -> Option<u8> {
    match (hex_value(b0), hex_value(b1)) {
        (Some(h), Some(l)) => Some((h * 16 + l) as u8),
        (None, Some(l)) => if b0 == 0x2b {
            Some(l)
        } else {
            None
        },
        _ => None,
    }
}

pub open spec fn hex_error_message(i: nat) -> Seq<char> {
    "Invalid hex at index "@ + decimal(i) + ": invalid digit found in string"@
}

/// Decodes the byte pairs of `b` from index `i` on.
pub open spec fn hex_pairs(b: Seq<u8>, i: nat) -> Result<Seq<u8>, Seq<char>>
    decreases b.len() - i,
{
    if i + 1 >= b.len() {
        Ok(Seq::empty())
    } else {
        match hex_pair(b[i as int], b[(i + 1) as int]) {
            Some(x) => match hex_pairs(b, i + 2) {
                Ok(rest) => Ok(seq![x] + rest),
                Err(e) => Err(e),
            },
            None => Err(hex_error_message(i)),
        }
    }
}

/// The bytes of the trimmed text, which `hex_to_bytes` reads two at a time.
pub open spec fn hex_input(hex: Seq<char>) -> Seq<u8> {
    encode_utf8(trim_spec(hex))
}

/// What `hex_to_bytes` returns for the bytes `b` of the trimmed text.
pub open spec fn hex_decode(b: Seq<u8>) -> Result<Seq<u8>, Seq<char>> {
    if b.len() % 2 != 0 {
        Err("Hex string length must be even"@)
    } else {
        hex_pairs(b, 0)
    }
}

/// Every two-byte slice taken by `hex_to_bytes` starts and ends on a character boundary.
pub open spec fn hex_slices_ok(b: Seq<u8>) -> bool {
    b.len() % 2 == 0 ==> forall|i: int|
        0 <= i < b.len() && i % 2 == 0 ==> !is_continuation_byte(#[trigger] b[i])
}

fn hex_value_of(b: u8) -> (r: Option<u8>)
    ensures
        r == hex_value(b),
{
    if 0x30 <= b && b <= 0x39 {
        Some(b - 0x30)
    } else if 0x61 <= b && b <= 0x66 {
        Some(b - 0x61 + 10)
    } else if 0x41 <= b && b <= 0x46 {
        Some(b - 0x41 + 10)
    } else {
        None
    }
}

fn hex_pair_of(b0: u8, b1: u8) -> (r: Option<u8>)
    ensures
        r == hex_pair(b0, b1),
{
    match (hex_value_of(b0), hex_value_of(b1)) {
        (Some(h), Some(l)) => {
            assert(h < 16 && l < 16);
            Some(h * 16 + l)
        },
        (None, Some(l)) => if b0 == 0x2b {
            Some(l)
        } else {
            None
        },
        _ => None,
    }
}

/// Decodes the trimmed bytes `b`; each two-byte slice must lie on character boundaries.
fn decode_hex_bytes(b: &[u8]) -> (r: Result<Vec<u8>, String>)
    requires
        hex_slices_ok(b@),
    ensures
        match hex_decode(b@) {
            Ok(v) => r matches Ok(out) && out@ == v,
            Err(e) => r matches Err(msg) && msg@ == e,
        },
{
    if b.len() % 2 != 0 {
        return Err(string_of("Hex string length must be even"));
    }
    let mut out: Vec<u8> = Vec::new();
    let mut i: usize = 0;
    while i < b.len()
        invariant
            i <= b.len(),
            i % 2 == 0,
            b@.len() % 2 == 0,
            hex_pairs(b@, 0) == match hex_pairs(b@, i as nat) {
                Ok(rest) => Ok(out@ + rest),
                Err(e) => Err(e),
            },
        decreases b.len() - i,
    {
        match hex_pair_of(b[i], b[i + 1]) {
            Some(x) => {
                let ghost prev = out@;
                out.push(x);
                proof {
                    match hex_pairs(b@, (i + 2) as nat) {
                        Ok(rest) => {
                            assert(prev + (seq![x] + rest) =~= out@ + rest);
                        },
                        Err(_) => {},
                    }
                }
                i = i + 2;
            },
            None => {
                let mut msg = string_of("Invalid hex at index ");
                push_decimal(&mut msg, i as u64);
                push_str(&mut msg, ": invalid digit found in string");
                return Err(msg);
            },
        }
    }
    assert(out@ + Seq::<u8>::empty() =~= out@);
    Ok(out)
}

/// Decodes hexadecimal text, after trimming surrounding whitespace, into bytes.
/// Each pair of bytes is read as by `u8::from_str_radix(_, 16)`; the text must not put a
/// multi-byte character across a pair boundary.
pub fn hex_to_bytes(hex: &str) -> (r: Result<Vec<u8>, String>)
    requires
        hex_slices_ok(hex_input(hex@)),
    ensures
        match hex_decode(hex_input(hex@)) {
            Ok(v) => r matches Ok(out) && out@ == v,
            Err(e) => r matches Err(msg) && msg@ == e,
        },
{
    let chars = chars_of(hex);
    let (lo, hi) = trim_bounds(&chars);
    let clean = string_from_range(&chars, lo, hi);
    let b = clean.as_str().as_bytes();
    decode_hex_bytes(b)
}

/// `hex_to_bytes`, or `None` where a two-byte slice of the trimmed text would split a
/// character.
pub fn hex_to_bytes_checked(hex: &str) -> (r: Option<Result<Vec<u8>, String>>)
    ensures
        r is None <==> !hex_slices_ok(hex_input(hex@)),
        r matches Some(res) ==> match hex_decode(hex_input(hex@)) {
            Ok(v) => res matches Ok(out) && out@ == v,
            Err(e) => res matches Err(msg) && msg@ == e,
        },
{
    let chars = chars_of(hex);
    let (lo, hi) = trim_bounds(&chars);
    let clean = string_from_range(&chars, lo, hi);
    let b = clean.as_str().as_bytes();
    assert(b@ == hex_input(hex@));
    if b.len() % 2 == 0 {
        let mut i: usize = 0;
        while i < b.len()
            invariant
                i <= b.len(),
                i % 2 == 0,
                b@.len() % 2 == 0,
                b@ == hex_input(hex@),
                forall|k: int| 0 <= k < i && k % 2 == 0 ==> !is_continuation_byte(#[trigger] b@[k]),
            decreases b.len() - i,
        {
            if 0x80 <= b[i] && b[i] <= 0xbf {
                assert(is_continuation_byte(b@[i as int]));
                return None;
            }
            i = i + 2;
        }
    }
    Some(decode_hex_bytes(b))
}

proof fn lemma_hex_lower_shape(b: Seq<u8>)
    ensures
        hex_lower(b).len() == 2 * b.len(),
        forall|k: int|
            0 <= k < b.len() ==> hex_lower(b)[2 * k] == hex_digit_spec(#[trigger] b[k] >> 4u8)
                && hex_lower(b)[2 * k + 1] == hex_digit_spec(b[k] & 0x0fu8),
    decreases b.len(),
{
    if b.len() > 0 {
        let p = b.drop_last();
        lemma_hex_lower_shape(p);
        assert forall|k: int| 0 <= k < b.len() implies hex_lower(b)[2 * k] == hex_digit_spec(
            #[trigger] b[k] >> 4u8,
        ) && hex_lower(b)[2 * k + 1] == hex_digit_spec(b[k] & 0x0fu8) by {
            if k < p.len() {
                assert(b[k] == p[k]);
            }
        }
    }
}

proof fn lemma_nibbles(x: u8)
    ensures
        x >> 4u8 < 16,
        x & 0x0fu8 < 16,
{
    assert(x >> 4u8 < 16 && x & 0x0fu8 < 16) by (bit_vector);
}

proof fn lemma_hex_digit(n: u8)
    requires
        n < 16,
    ensures
        '0' <= hex_digit_spec(n) <= 'f',
        !unicode_whitespace(hex_digit_spec(n)),
        hex_value(hex_digit_spec(n) as u8) == Some(n),
{
}

proof fn lemma_hex_pairs_of(b: Seq<u8>, bytes: Seq<u8>, k: int)
    requires
        0 <= k <= b.len(),
        bytes.len() == 2 * b.len(),
        forall|j: int|
            0 <= j < b.len() ==> hex_value(bytes[2 * j]) == Some(#[trigger] b[j] >> 4u8)
                && hex_value(bytes[2 * j + 1]) == Some(b[j] & 0x0fu8),
    ensures
        hex_pairs(bytes, (2 * k) as nat) == Ok::<Seq<u8>, Seq<char>>(b.subrange(k, b.len() as int)),
    decreases b.len() - k,
{
    if k < b.len() {
        lemma_hex_pairs_of(b, bytes, k + 1);
        let x = b[k];
        let hi = x >> 4u8;
        let lo = x & 0x0fu8;
        assert(hi < 16 && lo < 16 && ((hi * 16 + lo) as u8) == x) by (bit_vector)
            requires
                hi == x >> 4u8,
                lo == x & 0x0fu8,
        ;
        assert(hex_value(bytes[2 * k]) == Some(hi));
        assert(hex_pair(bytes[2 * k], bytes[2 * k + 1]) == Some(x));
        assert(seq![x] + b.subrange(k + 1, b.len() as int) =~= b.subrange(k, b.len() as int));
    } else {
        assert(b.subrange(k, b.len() as int) =~= Seq::<u8>::empty());
    }
}

/// Decoding the hexadecimal text of some bytes gives the bytes back.
pub proof fn lemma_hex_roundtrip(b: Seq<u8>)
    ensures
        hex_slices_ok(hex_input(hex_lower(b))),
        hex_decode(hex_input(hex_lower(b))) == Ok::<Seq<u8>, Seq<char>>(b),
{
    let h = hex_lower(b);
    lemma_hex_lower_shape(b);
    assert forall|i: int| 0 <= i < h.len() implies '0' <= #[trigger] h[i] <= 'f' && !unicode_whitespace(
        h[i],
    ) by {
        let k = i / 2;
        assert(b[k] == b[k]);
        lemma_nibbles(b[k]);
        if i % 2 == 0 {
            assert(i == 2 * k);
            lemma_hex_digit(b[k] >> 4u8);
        } else {
            assert(i == 2 * k + 1);
            lemma_hex_digit(b[k] & 0x0fu8);
        }
    }
    assert(trim_front(h) == h);
    assert(trim_back(h) == h);
    assert(trim_spec(h) == h);
    assert(is_ascii_chars(h));
    is_ascii_chars_encode_utf8(h);
    let bytes = encode_utf8(h);
    assert(hex_input(h) == bytes);
    assert forall|j: int| 0 <= j < b.len() implies bytes[2 * j] == hex_digit_spec(
        #[trigger] b[j] >> 4u8,
    ) as u8 && bytes[2 * j + 1] == hex_digit_spec(b[j] & 0x0fu8) as u8 by {
        assert(h[2 * j] == hex_digit_spec(b[j] >> 4u8));
        assert(h[2 * j + 1] == hex_digit_spec(b[j] & 0x0fu8));
        assert(bytes[2 * j] == h[2 * j] as u8);
        assert(bytes[2 * j + 1] == h[2 * j + 1] as u8);
        lemma_nibbles(b[j]);
        lemma_hex_digit(b[j] >> 4u8);
        lemma_hex_digit(b[j] & 0x0fu8);
    }
    lemma_hex_pairs_of(b, bytes, 0);
    assert(b.subrange(0, b.len() as int) =~= b);
    assert forall|i: int| 0 <= i < bytes.len() && i % 2 == 0 implies !is_continuation_byte(
        #[trigger] bytes[i],
    ) by {
        assert(bytes[i] == h[i] as u8);
        assert('0' <= h[i] <= 'f');
    }
}

/// Whitespace in front of a text that starts with no whitespace is what trimming the front drops.
proof fn lemma_trim_front_padded(pre: Seq<char>, x: Seq<char>)
    requires
        forall|i: int| 0 <= i < pre.len() ==> unicode_whitespace(#[trigger] pre[i]),
        x.len() == 0 || !unicode_whitespace(x[0]),
    ensures
        trim_front(pre + x) == trim_front(x),
    decreases pre.len(),
{
    if pre.len() > 0 {
        assert((pre + x).drop_first() =~= pre.drop_first() + x);
        lemma_trim_front_padded(pre.drop_first(), x);
    } else {
        assert(pre + x =~= x);
    }
}

/// Whitespace after a text that ends with no whitespace is what trimming the back drops.
proof fn lemma_trim_back_padded(x: Seq<char>, suf: Seq<char>)
    requires
        forall|i: int| 0 <= i < suf.len() ==> unicode_whitespace(#[trigger] suf[i]),
        x.len() == 0 || !unicode_whitespace(x.last()),
    ensures
        trim_back(x + suf) == trim_back(x),
    decreases suf.len(),
{
    if suf.len() > 0 {
        assert((x + suf).drop_last() =~= x + suf.drop_last());
        lemma_trim_back_padded(x, suf.drop_last());
    } else {
        assert(x + suf =~= x);
    }
}

/// Decoding the hexadecimal text of some bytes, with any whitespace before and after it,
/// gives the bytes back.
pub proof fn lemma_hex_roundtrip_padded(b: Seq<u8>, pre: Seq<char>, suf: Seq<char>)
    requires
        forall|i: int| 0 <= i < pre.len() ==> unicode_whitespace(#[trigger] pre[i]),
        forall|i: int| 0 <= i < suf.len() ==> unicode_whitespace(#[trigger] suf[i]),
    ensures
        hex_slices_ok(hex_input(pre + hex_lower(b) + suf)),
        hex_decode(hex_input(pre + hex_lower(b) + suf)) == Ok::<Seq<u8>, Seq<char>>(b),
{
    let h = hex_lower(b);
    lemma_hex_roundtrip(b);
    lemma_hex_lower_shape(b);
    if h.len() > 0 {
        let k = b.len() - 1;
        assert(b[0] == b[0] && b[k] == b[k]);
        lemma_nibbles(b[0]);
        lemma_nibbles(b[k]);
        lemma_hex_digit(b[0] >> 4u8);
        lemma_hex_digit(b[k] & 0x0fu8);
        assert(h[0] == hex_digit_spec(b[0] >> 4u8));
        assert(h.last() == h[2 * k + 1]);
    }
    if h.len() == 0 {
        let all = pre + h + suf;
        assert forall|j: int| 0 <= j < all.len() implies unicode_whitespace(#[trigger] all[j]) by {
            if j < pre.len() {
                assert(all[j] == pre[j]);
            } else {
                assert(all[j] == suf[j - pre.len()]);
            }
        }
        lemma_trim_front_all_space(all, 0);
        assert(all.skip(0) =~= all);
        assert(trim_back(Seq::<char>::empty()) == Seq::<char>::empty());
        assert(trim_front(h) == h);
        assert(trim_spec(h) == h);
    } else {
        lemma_trim_front_padded(pre, h + suf);
        assert(pre + h + suf =~= pre + (h + suf));
        assert((h + suf)[0] == h[0]);
        assert(trim_front(h + suf) == h + suf);
        lemma_trim_back_padded(h, suf);
    }
    assert(trim_spec(pre + h + suf) == trim_spec(h));
}

/// The suffixes of an all-whitespace text trim to nothing at the front.
proof fn lemma_trim_front_all_space(s: Seq<char>, i: int)
    requires
        forall|j: int| 0 <= j < s.len() ==> unicode_whitespace(#[trigger] s[j]),
        0 <= i <= s.len(),
    ensures
        trim_front(s.skip(i)) == Seq::<char>::empty(),
    decreases s.len() - i,
{
    if i < s.len() {
        assert(s.skip(i).drop_first() =~= s.skip(i + 1));
        assert(s.skip(i)[0] == s[i]);
        lemma_trim_front_all_space(s, i + 1);
    } else {
        assert(s.skip(i) =~= Seq::<char>::empty());
    }
}

/// The upper-case form of an ASCII letter; other characters stay.
pub open spec fn ascii_upper(c: char) -> char {
    if 'a' <= c <= 'z' {
        ((c as u32) - 32) as char
    } else {
        c
    }
}

/// The upper-case hexadecimal text of some bytes.
pub open spec fn hex_upper_text(b: Seq<u8>) -> Seq<char> {
    hex_lower(b).map_values(|c: char| ascii_upper(c))
}

/// An upper-case hex digit has the digit's value.
proof fn lemma_upper_digit(n: u8)
    requires
        n < 16,
    ensures
        '0' <= ascii_upper(hex_digit_spec(n)) <= 'F',
        hex_value(ascii_upper(hex_digit_spec(n)) as u8) == Some(n),
{
    if n >= 10 {
        let c = hex_digit_spec(n);
        assert(c as u32 == 0x61 + (n - 10));
        assert(ascii_upper(c) as u32 == 0x41 + (n - 10));
    }
}

/// Decoding the upper-case hexadecimal text of some bytes gives the bytes back.
pub proof fn lemma_hex_upper_roundtrip(b: Seq<u8>)
    ensures
        hex_slices_ok(hex_input(hex_upper_text(b))),
        hex_decode(hex_input(hex_upper_text(b))) == Ok::<Seq<u8>, Seq<char>>(b),
{
    let h = hex_upper_text(b);
    lemma_hex_lower_shape(b);
    assert forall|i: int| 0 <= i < h.len() implies '0' <= #[trigger] h[i] <= 'F' && !unicode_whitespace(h[i]) by {
        let k = i / 2;
        assert(b[k] == b[k]);
        lemma_nibbles(b[k]);
        if i % 2 == 0 {
            assert(i == 2 * k);
            lemma_upper_digit(b[k] >> 4u8);
        } else {
            assert(i == 2 * k + 1);
            lemma_upper_digit(b[k] & 0x0fu8);
        }
    }
    assert(trim_front(h) == h);
    assert(trim_back(h) == h);
    assert(is_ascii_chars(h));
    is_ascii_chars_encode_utf8(h);
    let bytes = encode_utf8(h);
    assert(hex_input(h) == bytes);
    assert forall|j: int| 0 <= j < b.len() implies hex_value(bytes[2 * j]) == Some(#[trigger] b[j] >> 4u8)
        && hex_value(bytes[2 * j + 1]) == Some(b[j] & 0x0fu8) by {
        lemma_nibbles(b[j]);
        lemma_upper_digit(b[j] >> 4u8);
        lemma_upper_digit(b[j] & 0x0fu8);
        assert(h[2 * j] == ascii_upper(hex_digit_spec(b[j] >> 4u8)));
        assert(h[2 * j + 1] == ascii_upper(hex_digit_spec(b[j] & 0x0fu8)));
        assert(bytes[2 * j] == h[2 * j] as u8);
        assert(bytes[2 * j + 1] == h[2 * j + 1] as u8);
    }
    lemma_hex_pairs_of(b, bytes, 0);
    assert(b.subrange(0, b.len() as int) =~= b);
    assert forall|i: int| 0 <= i < bytes.len() && i % 2 == 0 implies !is_continuation_byte(
        #[trigger] bytes[i],
    ) by {
        assert(bytes[i] == h[i] as u8);
        assert('0' <= h[i] <= 'F');
    }
}

/// A trimmed text of ASCII characters and odd length is refused for its length.
pub proof fn lemma_hex_odd_length(hex: Seq<char>)
    requires
        is_ascii_chars(trim_spec(hex)),
        trim_spec(hex).len() % 2 == 1,
    ensures
        hex_decode(hex_input(hex)) == Err::<Seq<u8>, Seq<char>>("Hex string length must be even"@),
{
    is_ascii_chars_encode_utf8(trim_spec(hex));
}

pub const AETHERPACK_VERSION: u8 = 0x01;
pub const TAG_NIL: u8 = 0x00;
pub const TAG_FALSE: u8 = 0x01;
pub const TAG_TRUE: u8 = 0x02;
pub const TAG_INT_POS: u8 = 0x03;
pub const TAG_INT_NEG: u8 = 0x04;
pub const TAG_FLOAT: u8 = 0x05;
pub const TAG_STRING: u8 = 0x06;
pub const TAG_BYTES: u8 = 0x07;
pub const TAG_ARRAY: u8 = 0x08;
pub const TAG_MAP: u8 = 0x09;
pub const TAG_TUPLE: u8 = 0x0A;
pub const TAG_SET: u8 = 0x0B;

/// The header of every packed payload: the magic bytes `AE 50 41 43` and the version.
pub open spec fn pack_header() -> Seq<u8> {
    seq![0xAEu8, 0x50u8, 0x41u8, 0x43u8, AETHERPACK_VERSION]
}

/// Little-endian bytes of a 32-bit number.
pub open spec fn le32(x: u32) -> Seq<u8> {
    seq![x as u8, (x >> 8u32) as u8, (x >> 16u32) as u8, (x >> 24u32) as u8]
}

/// Little-endian bytes of a 64-bit number.
pub open spec fn le64(x: u64) -> Seq<u8> {
    seq![
        x as u8,
        (x >> 8u64) as u8,
        (x >> 16u64) as u8,
        (x >> 24u64) as u8,
        (x >> 32u64) as u8,
        (x >> 40u64) as u8,
        (x >> 48u64) as u8,
        (x >> 56u64) as u8,
    ]
}

/// A length or count as written on the wire: its low 32 bits.
pub open spec fn len_prefix(n: nat) -> Seq<u8> {
    le32(n as u32)
}

/// The absolute value of an integer, as written after its sign tag.
pub open spec fn magnitude(i: i64) -> u64 {
    if i >= 0 {
        i as u64
    } else {
        (-(i as int)) as u64
    }
}

/// The encoding of a value: a tag byte and its payload.
pub open spec fn enc(v: ValueView) -> Seq<u8>
    decreases v,
{
    match v {
        ValueView::Nil => seq![TAG_NIL],
        ValueView::Bool(b) => seq![if b { TAG_TRUE } else { TAG_FALSE }],
        ValueView::Int(i) => seq![if i >= 0 { TAG_INT_POS } else { TAG_INT_NEG }] + le64(magnitude(i)),
        ValueView::Float(f) => seq![TAG_FLOAT] + le64(f),
        ValueView::String(s) => seq![TAG_STRING] + len_prefix(encode_utf8(s).len()) + encode_utf8(s),
        ValueView::Array(items) => seq![TAG_ARRAY] + len_prefix(items.len()) + enc_items(items),
        ValueView::Tuple(items) => seq![TAG_TUPLE] + len_prefix(items.len()) + enc_items(items),
        ValueView::SetItems(items) => seq![TAG_SET] + len_prefix(items.len()) + enc_items(items),
        ValueView::MapEntries(es) => seq![TAG_MAP] + len_prefix(es.len()) + enc_entries(es),
        ValueView::Function(f) => seq![TAG_STRING] + len_prefix(encode_utf8(fn_text(f.name)).len())
            + encode_utf8(fn_text(f.name)),
    }
}

/// The encodings of a list of values, one after another.
pub open spec fn enc_items(s: Seq<ValueView>) -> Seq<u8>
    decreases s,
{
    if s.len() == 0 {
        Seq::empty()
    } else {
        enc_items(s.drop_last()) + enc(s.last())
    }
}

/// The encodings of map entries, one after another.
pub open spec fn enc_entries(s: Seq<(Seq<char>, ValueView)>) -> Seq<u8>
    decreases s,
{
    if s.len() == 0 {
        Seq::empty()
    } else {
        enc_entries(s.drop_last()) + enc_entry(s.last())
    }
}

/// One map entry: the key's length and UTF-8 bytes, then the value.
pub open spec fn enc_entry(e: (Seq<char>, ValueView)) -> Seq<u8>
    decreases e,
{
    len_prefix(encode_utf8(e.0).len()) + encode_utf8(e.0) + enc(e.1)
}

/// The packed form of a value: header, then encoding.
pub open spec fn pack_spec(v: ValueView) -> Seq<u8> {
    pack_header() + enc(v)
}

fn push_le32(out: &mut Vec<u8>, x: u32)
    ensures
        final(out)@ == old(out)@ + le32(x),
{
    out.push(x as u8);
    out.push((x >> 8) as u8);
    out.push((x >> 16) as u8);
    out.push((x >> 24) as u8);
    assert(final(out)@ =~= old(out)@ + le32(x));
}

fn push_le64(out: &mut Vec<u8>, x: u64)
    ensures
        final(out)@ == old(out)@ + le64(x),
{
    out.push(x as u8);
    out.push((x >> 8) as u8);
    out.push((x >> 16) as u8);
    out.push((x >> 24) as u8);
    out.push((x >> 32) as u8);
    out.push((x >> 40) as u8);
    out.push((x >> 48) as u8);
    out.push((x >> 56) as u8);
    assert(final(out)@ =~= old(out)@ + le64(x));
}

fn push_bytes(out: &mut Vec<u8>, b: &[u8])
    ensures
        final(out)@ == old(out)@ + b@,
{
    let ghost start = out@;
    let mut i: usize = 0;
    while i < b.len()
        invariant
            i <= b.len(),
            out@ == start + b@.take(i as int),
        decreases b.len() - i,
    {
        out.push(b[i]);
        i = i + 1;
        assert(out@ =~= start + b@.take(i as int));
    }
    assert(b@.take(b.len() as int) =~= b@);
}

/// The 32-bit number whose little-endian bytes start at `p`.
pub open spec fn read32(b: Seq<u8>, p: int) -> u32 {
    (b[p] as u32) | ((b[p + 1] as u32) << 8u32) | ((b[p + 2] as u32) << 16u32) | ((b[p + 3] as u32)
        << 24u32)
}

/// The 64-bit number whose little-endian bytes start at `p`.
pub open spec fn read64(b: Seq<u8>, p: int) -> u64 {
    (b[p] as u64) | ((b[p + 1] as u64) << 8u64) | ((b[p + 2] as u64) << 16u64) | ((b[p + 3] as u64)
        << 24u64) | ((b[p + 4] as u64) << 32u64) | ((b[p + 5] as u64) << 40u64) | ((b[p
        + 6] as u64) << 48u64) | ((b[p + 7] as u64) << 56u64)
}

/// The upper-case hexadecimal digit of a nibble.
pub open spec fn hex_upper_digit(n: u8) -> char {
    if n < 10 {
        (('0' as u8) + n) as char
    } else {
        (('A' as u8) + (n - 10)) as char
    }
}

/// A byte as two upper-case hex digits (`{:02X}`).
pub open spec fn hex_upper(b: u8) -> Seq<char> {
    seq![hex_upper_digit(b >> 4u8), hex_upper_digit(b & 0x0fu8)]
}

pub open spec fn eof_message(what: Seq<char>) -> Seq<char> {
    "Unexpected EOF reading "@ + what
}

pub open spec fn unknown_tag_message(tag: u8, at: nat) -> Seq<char> {
    "Unknown AetherPack tag: 0x"@ + hex_upper(tag) + " at offset "@ + decimal(at)
}

/// What `String::from_utf8_lossy` makes of `bytes`.
pub uninterp spec fn utf8_lossy(bytes: Seq<u8>) -> Seq<char>;

/// Decodes bytes as UTF-8, putting U+FFFD in place of invalid sequences.
/// Trusted: `String::from_utf8_lossy`; its result depends on the bytes alone, and its
/// documentation says that bytes that are valid UTF-8 come back as that text unchanged.
#[verifier::external_body]
fn from_utf8_lossy(bytes: &[u8]) -> (s: String)
    ensures
        s@ == utf8_lossy(bytes@),
        valid_utf8(bytes@) ==> s@ == decode_utf8(bytes@),
{
    String::from_utf8_lossy(bytes).to_string()
}

/// The text that `from_utf8_lossy` gives for `bytes`: their decoding when they are valid UTF-8.
pub open spec fn text_of(bytes: Seq<u8>) -> Seq<char> {
    if valid_utf8(bytes) {
        decode_utf8(bytes)
    } else {
        utf8_lossy(bytes)
    }
}

/// Each byte as an integer value.
pub open spec fn byte_values(b: Seq<u8>) -> Seq<ValueView> {
    b.map_values(|x: u8| ValueView::Int(x as i64))
}

/// The collection that a list tag stands for.
pub open spec fn collection(tag: u8, items: Seq<ValueView>) -> ValueView {
    if tag == TAG_ARRAY {
        ValueView::Array(items)
    } else if tag == TAG_TUPLE {
        ValueView::Tuple(items)
    } else {
        ValueView::SetItems(items)
    }
}

pub open spec fn collection_name(tag: u8) -> Seq<char> {
    if tag == TAG_ARRAY {
        "ARRAY"@
    } else if tag == TAG_TUPLE {
        "TUPLE"@
    } else {
        "SET"@
    }
}

/// No key occurs twice among the entries.
pub open spec fn keys_unique(es: Seq<(Seq<char>, ValueView)>) -> bool {
    forall|i: int, j: int| 0 <= i < j < es.len() ==> #[trigger] es[i].0 != #[trigger] es[j].0
}

/// Stores `v` under `k`: in place where the key is present, else as a new last entry.
pub open spec fn entry_put(es: Seq<(Seq<char>, ValueView)>, k: Seq<char>, v: ValueView) -> Seq<
    (Seq<char>, ValueView),
> {
    if exists|i: int| 0 <= i < es.len() && #[trigger] es[i].0 == k {
        let i = choose|i: int| 0 <= i < es.len() && #[trigger] es[i].0 == k;
        es.update(i, (k, v))
    } else {
        es.push((k, v))
    }
}

/// The map built by storing the pairs in order, later pairs replacing earlier ones.
pub open spec fn map_of_pairs(pairs: Seq<(Seq<char>, ValueView)>) -> Seq<(Seq<char>, ValueView)>
    decreases pairs.len(),
{
    if pairs.len() == 0 {
        Seq::empty()
    } else {
        entry_put(map_of_pairs(pairs.drop_last()), pairs.last().0, pairs.last().1)
    }
}

/// Reads one value at `off`: the value and the offset after it, or the error message.
pub open spec fn parse_value(b: Seq<u8>, off: nat) -> Result<(ValueView, nat), Seq<char>>
    decreases b.len() - off, 0nat,
{
    if off >= b.len() {
        Err("Unexpected EOF while unpacking AetherPack value"@)
    } else {
        let tag = b[off as int];
        let p = off + 1;
        if tag == TAG_NIL {
            Ok((ValueView::Nil, p))
        } else if tag == TAG_FALSE {
            Ok((ValueView::Bool(false), p))
        } else if tag == TAG_TRUE {
            Ok((ValueView::Bool(true), p))
        } else if tag == TAG_INT_POS {
            if p + 8 > b.len() {
                Err(eof_message("INT_POS"@))
            } else {
                Ok((ValueView::Int(read64(b, p as int) as i64), p + 8))
            }
        } else if tag == TAG_INT_NEG {
            if p + 8 > b.len() {
                Err(eof_message("INT_NEG"@))
            } else {
                Ok((ValueView::Int(vstd::wrapping::i64_specs::wrapping_sub(0, read64(b, p as int) as i64)), p + 8))
            }
        } else if tag == TAG_FLOAT {
            if p + 8 > b.len() {
                Err(eof_message("FLOAT"@))
            } else {
                Ok((ValueView::Float(read64(b, p as int)), p + 8))
            }
        } else if tag == TAG_STRING || tag == TAG_BYTES {
            let name = if tag == TAG_STRING { "STRING"@ } else { "BYTES"@ };
            if p + 4 > b.len() {
                Err(eof_message(name + " length"@))
            } else {
                let q = (p + 4 + read32(b, p as int)) as nat;
                if q > b.len() {
                    Err(eof_message(name + " payload"@))
                } else if tag == TAG_STRING {
                    Ok((ValueView::String(text_of(b.subrange((p + 4) as int, q as int))), q))
                } else {
                    Ok((ValueView::Array(byte_values(b.subrange((p + 4) as int, q as int))), q))
                }
            }
        } else if tag == TAG_ARRAY || tag == TAG_TUPLE || tag == TAG_SET {
            if p + 4 > b.len() {
                Err(eof_message(collection_name(tag) + " count"@))
            } else {
                match parse_items(b, p + 4, read32(b, p as int) as nat) {
                    Ok((items, q)) => Ok((collection(tag, items), q)),
                    Err(e) => Err(e),
                }
            }
        } else if tag == TAG_MAP {
            if p + 4 > b.len() {
                Err(eof_message("MAP entry count"@))
            } else {
                match parse_entries(b, p + 4, read32(b, p as int) as nat) {
                    Ok((pairs, q)) => Ok((ValueView::MapEntries(map_of_pairs(pairs)), q)),
                    Err(e) => Err(e),
                }
            }
        } else {
            Err(unknown_tag_message(tag, off))
        }
    }
}

/// Reads `count` values one after another from `off`.
pub open spec fn parse_items(b: Seq<u8>, off: nat, count: nat) -> Result<(Seq<ValueView>, nat), Seq<char>>
    decreases b.len() - off, count,
{
    if count == 0 {
        Ok((Seq::empty(), off))
    } else {
        match parse_value(b, off) {
            Ok((v, q)) => if off < q <= b.len() {
                match parse_items(b, q, (count - 1) as nat) {
                    Ok((vs, r)) => Ok((seq![v] + vs, r)),
                    Err(e) => Err(e),
                }
            } else {
                Err(Seq::empty())
            },
            Err(e) => Err(e),
        }
    }
}

/// Reads `count` map entries (key length, key bytes, value) one after another from `off`.
pub open spec fn parse_entries(b: Seq<u8>, off: nat, count: nat) -> Result<
    (Seq<(Seq<char>, ValueView)>, nat),
    Seq<char>,
>
    decreases b.len() - off, count,
{
    if count == 0 {
        Ok((Seq::empty(), off))
    } else if off + 4 > b.len() {
        Err(eof_message("MAP key length"@))
    } else {
        let vo = (off + 4 + read32(b, off as int)) as nat;
        if vo > b.len() {
            Err(eof_message("MAP key content"@))
        } else {
            let key = text_of(b.subrange((off + 4) as int, vo as int));
            match parse_value(b, vo) {
                Ok((v, q)) => if vo < q <= b.len() {
                    match parse_entries(b, q, (count - 1) as nat) {
                        Ok((es, r)) => Ok((seq![(key, v)] + es, r)),
                        Err(e) => Err(e),
                    }
                } else {
                    Err(Seq::empty())
                },
                Err(e) => Err(e),
            }
        }
    }
}

/// What `unpack` returns for `b`.
pub open spec fn unpack_spec(b: Seq<u8>) -> Result<ValueView, Seq<char>> {
    if b.len() < 5 {
        Err("AetherPack payload too small (< 5 bytes)"@)
    } else if b.subrange(0, 4) != pack_header().subrange(0, 4) {
        Err("Invalid AetherPack magic header"@)
    } else if b[4] != AETHERPACK_VERSION {
        Err("Unsupported AetherPack version: 0x"@ + hex_upper(b[4]))
    } else {
        match parse_value(b, 5) {
            Ok((v, _)) => Ok(v),
            Err(e) => Err(e),
        }
    }
}

fn read_u32_at(bytes: &[u8], p: usize) -> (r: u32)
    requires
        p + 4 <= bytes@.len(),
    ensures
        r == read32(bytes@, p as int),
{
    (bytes[p] as u32) | ((bytes[p + 1] as u32) << 8) | ((bytes[p + 2] as u32) << 16) | ((bytes[p
        + 3] as u32) << 24)
}

fn read_u64_at(bytes: &[u8], p: usize) -> (r: u64)
    requires
        p + 8 <= bytes@.len(),
    ensures
        r == read64(bytes@, p as int),
{
    (bytes[p] as u64) | ((bytes[p + 1] as u64) << 8) | ((bytes[p + 2] as u64) << 16) | ((bytes[p
        + 3] as u64) << 24) | ((bytes[p + 4] as u64) << 32) | ((bytes[p + 5] as u64) << 40) | ((
    bytes[p + 6] as u64) << 48) | ((bytes[p + 7] as u64) << 56)
}

fn hex_upper_char(n: u8) -> (c: char)
    requires
        n < 16,
    ensures
        c == hex_upper_digit(n),
{
    match n {
        0 => '0',
        1 => '1',
        2 => '2',
        3 => '3',
        4 => '4',
        5 => '5',
        6 => '6',
        7 => '7',
        8 => '8',
        9 => '9',
        10 => 'A',
        11 => 'B',
        12 => 'C',
        13 => 'D',
        14 => 'E',
        _ => 'F',
    }
}

fn push_hex_upper(out: &mut String, b: u8)
    ensures
        final(out)@ == old(out)@ + hex_upper(b),
{
    assert(b >> 4u8 < 16u8) by (bit_vector);
    assert(b & 0x0fu8 < 16u8) by (bit_vector);
    push_char(out, hex_upper_char(b >> 4u8));
    push_char(out, hex_upper_char(b & 0x0fu8));
    assert(final(out)@ =~= old(out)@ + hex_upper(b));
}

fn eof_error(what: &str) -> (r: String)
    ensures
        r@ == eof_message(what@),
{
    let mut m = string_of("Unexpected EOF reading ");
    push_str(&mut m, what);
    m
}

fn eof_error2(what: &str, part: &str) -> (r: String)
    ensures
        r@ == eof_message(what@ + part@),
{
    let mut m = string_of("Unexpected EOF reading ");
    push_str(&mut m, what);
    push_str(&mut m, part);
    assert(m@ =~= eof_message(what@ + part@));
    m
}

fn collection_name_of(tag: u8) -> (r: &'static str)
    ensures
        r@ == collection_name(tag),
{
    if tag == TAG_ARRAY {
        "ARRAY"
    } else if tag == TAG_TUPLE {
        "TUPLE"
    } else {
        "SET"
    }
}

fn make_collection(tag: u8, items: Vec<Value>) -> (r: Value)
    ensures
        r@ == collection(tag, models(items@)),
{
    if tag == TAG_ARRAY {
        Value::Array(items)
    } else if tag == TAG_TUPLE {
        Value::Tuple(items)
    } else {
        Value::SetItems(items)
    }
}

/// The position of `key` among the entries, if present.
fn key_position(map: &Vec<(String, Value)>, key: &String) -> (r: Option<usize>)
    ensures
        r matches Some(i) ==> i < map@.len() && map@[i as int].0@ == key@,
        r is None ==> forall|i: int| 0 <= i < map@.len() ==> #[trigger] map@[i].0@ != key@,
{
    let mut i: usize = 0;
    while i < map.len()
        invariant
            i <= map.len(),
            forall|j: int| 0 <= j < i ==> #[trigger] map@[j].0@ != key@,
        decreases map.len() - i,
    {
        if map[i].0 == *key {
            return Some(i);
        }
        i = i + 1;
    }
    None
}

/// Stores a value under a key, in place where the key is present.
pub(crate) fn put_entry(map: &mut Vec<(String, Value)>, key: String, v: Value)
    requires
        keys_unique(entry_models(old(map)@)),
    ensures
        keys_unique(entry_models(final(map)@)),
        entry_models(final(map)@) == entry_put(entry_models(old(map)@), key@, v@),
{
    let ghost before = entry_models(map@);
    proof {
        lemma_entry_models(map@);
    }
    match key_position(map, &key) {
        Some(i) => {
            let ghost kv = (key@, v@);
            map.set(i, (key, v));
            proof {
                lemma_entry_models(map@);
                assert(before[i as int].0 == kv.0);
                let j = choose|j: int| 0 <= j < before.len() && #[trigger] before[j].0 == kv.0;
                assert(j == i) by {
                    if j != i {
                        if j < i {
                            assert(before[j].0 != before[i as int].0);
                        } else {
                            assert(before[i as int].0 != before[j].0);
                        }
                    }
                }
                assert(entry_models(map@) =~= before.update(i as int, kv));
            }
        },
        None => {
            let ghost kv = (key@, v@);
            map.push((key, v));
            proof {
                lemma_entry_models(map@);
                assert(!exists|j: int| 0 <= j < before.len() && #[trigger] before[j].0 == kv.0);
                assert(entry_models(map@) =~= before.push(kv));
            }
        },
    }
}

/// Strings, lists and maps fit their 32-bit length fields, and map keys are distinct.
pub open spec fn packable(v: ValueView) -> bool
    decreases v,
{
    match v {
        ValueView::String(t) => encode_utf8(t).len() <= u32::MAX,
        ValueView::Array(items) => items.len() <= u32::MAX && packable_items(items),
        ValueView::Tuple(items) => items.len() <= u32::MAX && packable_items(items),
        ValueView::SetItems(items) => items.len() <= u32::MAX && packable_items(items),
        ValueView::MapEntries(es) => es.len() <= u32::MAX && keys_unique(es) && packable_entries(es),
        ValueView::Function(_) => false,
        _ => true,
    }
}

pub open spec fn packable_items(s: Seq<ValueView>) -> bool
    decreases s,
{
    if s.len() == 0 {
        true
    } else {
        packable_items(s.drop_last()) && packable(s.last())
    }
}

pub open spec fn packable_entries(s: Seq<(Seq<char>, ValueView)>) -> bool
    decreases s,
{
    if s.len() == 0 {
        true
    } else {
        packable_entries(s.drop_last()) && encode_utf8(s.last().0).len() <= u32::MAX && packable(
            s.last().1,
        )
    }
}

proof fn lemma_items_front(s: Seq<ValueView>)
    requires
        s.len() > 0,
    ensures
        enc_items(s) == enc(s[0]) + enc_items(s.drop_first()),
        packable_items(s) == (packable(s[0]) && packable_items(s.drop_first())),
    decreases s.len(),
{
    if s.len() == 1 {
        assert(s.drop_last() =~= Seq::<ValueView>::empty());
        assert(s.drop_first() =~= Seq::<ValueView>::empty());
        assert(enc(s[0]) + Seq::<u8>::empty() =~= enc(s[0]));
        assert(Seq::<u8>::empty() + enc(s[0]) =~= enc(s[0]));
    } else {
        lemma_items_front(s.drop_last());
        assert(s.drop_last().drop_first() =~= s.drop_first().drop_last());
        assert(s.drop_last()[0] == s[0]);
        assert(s.drop_first().last() == s.last());
        assert(enc(s[0]) + enc_items(s.drop_last().drop_first()) + enc(s.last()) =~= enc(s[0])
            + (enc_items(s.drop_first().drop_last()) + enc(s.last())));
    }
}

proof fn lemma_entries_front(s: Seq<(Seq<char>, ValueView)>)
    requires
        s.len() > 0,
    ensures
        enc_entries(s) == enc_entry(s[0]) + enc_entries(s.drop_first()),
        packable_entries(s) == (encode_utf8(s[0].0).len() <= u32::MAX && packable(s[0].1)
            && packable_entries(s.drop_first())),
    decreases s.len(),
{
    if s.len() == 1 {
        assert(s.drop_last() =~= Seq::<(Seq<char>, ValueView)>::empty());
        assert(s.drop_first() =~= Seq::<(Seq<char>, ValueView)>::empty());
        assert(enc_entry(s[0]) + Seq::<u8>::empty() =~= enc_entry(s[0]));
        assert(Seq::<u8>::empty() + enc_entry(s[0]) =~= enc_entry(s[0]));
    } else {
        lemma_entries_front(s.drop_last());
        assert(s.drop_last().drop_first() =~= s.drop_first().drop_last());
        assert(s.drop_last()[0] == s[0]);
        assert(s.drop_first().last() == s.last());
        assert(enc_entry(s[0]) + enc_entries(s.drop_last().drop_first()) + enc_entry(s.last())
            =~= enc_entry(s[0]) + (enc_entries(s.drop_first().drop_last()) + enc_entry(s.last())));
    }
}

proof fn lemma_read32(b: Seq<u8>, p: int, x: u32)
    requires
        0 <= p,
        p + 4 <= b.len(),
        b.subrange((p) as int, (p + 4) as int) == le32(x),
    ensures
        read32(b, p) == x,
{
    let (b0, b1, b2, b3) = (b[p], b[p + 1], b[p + 2], b[p + 3]);
    assert(b0 == b.subrange((p) as int, (p + 4) as int)[0]);
    assert(b1 == b.subrange((p) as int, (p + 4) as int)[1]);
    assert(b2 == b.subrange((p) as int, (p + 4) as int)[2]);
    assert(b3 == b.subrange((p) as int, (p + 4) as int)[3]);
    assert((b0 as u32) | ((b1 as u32) << 8u32) | ((b2 as u32) << 16u32) | ((b3 as u32) << 24u32)
        == x) by (bit_vector)
        requires
            b0 == x as u8,
            b1 == (x >> 8u32) as u8,
            b2 == (x >> 16u32) as u8,
            b3 == (x >> 24u32) as u8,
    ;
}

proof fn lemma_read64(b: Seq<u8>, p: int, x: u64)
    requires
        0 <= p,
        p + 8 <= b.len(),
        b.subrange((p) as int, (p + 8) as int) == le64(x),
    ensures
        read64(b, p) == x,
{
    let w = b.subrange((p) as int, (p + 8) as int);
    let (b0, b1, b2, b3, b4, b5, b6, b7) = (
        b[p],
        b[p + 1],
        b[p + 2],
        b[p + 3],
        b[p + 4],
        b[p + 5],
        b[p + 6],
        b[p + 7],
    );
    assert(b0 == w[0] && b1 == w[1] && b2 == w[2] && b3 == w[3]);
    assert(b4 == w[4] && b5 == w[5] && b6 == w[6] && b7 == w[7]);
    assert((b0 as u64) | ((b1 as u64) << 8u64) | ((b2 as u64) << 16u64) | ((b3 as u64) << 24u64)
        | ((b4 as u64) << 32u64) | ((b5 as u64) << 40u64) | ((b6 as u64) << 48u64) | ((b7 as u64)
        << 56u64) == x) by (bit_vector)
        requires
            b0 == x as u8,
            b1 == (x >> 8u64) as u8,
            b2 == (x >> 16u64) as u8,
            b3 == (x >> 24u64) as u8,
            b4 == (x >> 32u64) as u8,
            b5 == (x >> 40u64) as u8,
            b6 == (x >> 48u64) as u8,
            b7 == (x >> 56u64) as u8,
    ;
}

proof fn lemma_map_of_unique(pairs: Seq<(Seq<char>, ValueView)>)
    requires
        keys_unique(pairs),
    ensures
        map_of_pairs(pairs) == pairs,
    decreases pairs.len(),
{
    if pairs.len() > 0 {
        let init = pairs.drop_last();
        assert(keys_unique(init));
        lemma_map_of_unique(init);
        let k = pairs.last().0;
        assert(!exists|i: int| 0 <= i < init.len() && #[trigger] init[i].0 == k) by {
            if exists|i: int| 0 <= i < init.len() && #[trigger] init[i].0 == k {
                let i = choose|i: int| 0 <= i < init.len() && #[trigger] init[i].0 == k;
                assert(pairs[i].0 != pairs[pairs.len() - 1].0);
            }
        }
        assert(init.push(pairs.last()) =~= pairs);
    }
}

proof fn lemma_window(b: Seq<u8>, off: int, e: Seq<u8>, a: int, n: int)
    requires
        0 <= off,
        off + e.len() <= b.len(),
        b.subrange(off, (off + e.len()) as int) == e,
        0 <= a,
        0 <= n,
        a + n <= e.len(),
    ensures
        b.subrange((off + a) as int, (off + a + n) as int) == e.subrange(a, (a + n) as int),
{
    assert forall|j: int| 0 <= j < n implies #[trigger] b.subrange((off + a) as int, (off + a + n) as int)[j]
        == e.subrange(a, (a + n) as int)[j] by {
        assert(b.subrange(off, (off + e.len()) as int)[a + j] == b[off + a + j]);
    }
    assert(b.subrange((off + a) as int, (off + a + n) as int) =~= e.subrange(a, (a + n) as int));
}

proof fn lemma_parse_value(v: ValueView, b: Seq<u8>, off: nat)
    requires
        packable(v),
        off + enc(v).len() <= b.len(),
        b.subrange(off as int, (off + enc(v).len()) as int) == enc(v),
    ensures
        parse_value(b, off) == Ok::<(ValueView, nat), Seq<char>>((v, off + enc(v).len())),
    decreases v,
{
    let e = enc(v);
    let o = off as int;
    let p = o + 1;
    assert(b[o] == b.subrange(o, (o + e.len()) as int)[0]);
    match v {
        ValueView::Nil => {},
        ValueView::Bool(_) => {},
        ValueView::Int(i) => {
            lemma_window(b, o, e, 1, 8);
            assert(e.subrange(1, 9) =~= le64(magnitude(i)));
            lemma_read64(b, p, magnitude(i));
            if i >= 0 {
            } else if i == i64::MIN {
                assert(magnitude(i) == 0x8000_0000_0000_0000u64);
                assert((0x8000_0000_0000_0000u64 as i64) == i64::MIN) by (bit_vector);
            } else {
                assert(magnitude(i) as i64 == -i);
            }
        },
        ValueView::Float(f) => {
            lemma_window(b, o, e, 1, 8);
            assert(e.subrange(1, 9) =~= le64(f));
            lemma_read64(b, p, f);
        },
        ValueView::String(t) => {
            let bytes = encode_utf8(t);
            lemma_window(b, o, e, 1, 4);
            assert(e.subrange(1, 5) =~= le32(bytes.len() as u32));
            lemma_read32(b, p, bytes.len() as u32);
            lemma_window(b, o, e, 5, bytes.len() as int);
            assert(e.subrange(5, (5 + bytes.len()) as int) =~= bytes);
            encode_utf8_valid_utf8(t);
            encode_utf8_decode_utf8(t);
        },
        ValueView::Array(items) => {
            let body = enc_items(items);
            lemma_window(b, o, e, 1, 4);
            assert(e.subrange(1, 5) =~= le32(items.len() as u32));
            lemma_read32(b, p, items.len() as u32);
            lemma_window(b, o, e, 5, body.len() as int);
            assert(e.subrange(5, 5 + body.len() as int) =~= body);
            lemma_parse_items(items, b, (p + 4) as nat);
        },
        ValueView::Tuple(items) => {
            let body = enc_items(items);
            lemma_window(b, o, e, 1, 4);
            assert(e.subrange(1, 5) =~= le32(items.len() as u32));
            lemma_read32(b, p, items.len() as u32);
            lemma_window(b, o, e, 5, body.len() as int);
            assert(e.subrange(5, 5 + body.len() as int) =~= body);
            lemma_parse_items(items, b, (p + 4) as nat);
        },
        ValueView::SetItems(items) => {
            let body = enc_items(items);
            lemma_window(b, o, e, 1, 4);
            assert(e.subrange(1, 5) =~= le32(items.len() as u32));
            lemma_read32(b, p, items.len() as u32);
            lemma_window(b, o, e, 5, body.len() as int);
            assert(e.subrange(5, 5 + body.len() as int) =~= body);
            lemma_parse_items(items, b, (p + 4) as nat);
        },
        ValueView::MapEntries(es) => {
            let body = enc_entries(es);
            lemma_window(b, o, e, 1, 4);
            assert(e.subrange(1, 5) =~= le32(es.len() as u32));
            lemma_read32(b, p, es.len() as u32);
            lemma_window(b, o, e, 5, body.len() as int);
            assert(e.subrange(5, (5 + body.len()) as int) =~= body);
            lemma_parse_entries(es, b, (p + 4) as nat);
            lemma_map_of_unique(es);
        },
        ValueView::Function(_) => {},
    }
}

proof fn lemma_parse_items(s: Seq<ValueView>, b: Seq<u8>, off: nat)
    requires
        packable_items(s),
        off + enc_items(s).len() <= b.len(),
        b.subrange(off as int, (off + enc_items(s).len()) as int) == enc_items(s),
    ensures
        parse_items(b, off, s.len()) == Ok::<(Seq<ValueView>, nat), Seq<char>>(
            (s, off + enc_items(s).len()),
        ),
    decreases s,
{
    if s.len() > 0 {
        lemma_items_front(s);
        let e = enc_items(s);
        let first = enc(s[0]);
        let rest = s.drop_first();
        let o = off as int;
        lemma_window(b, o, e, 0, first.len() as int);
        assert(e.subrange(0, first.len() as int) =~= first);
        assert(first.len() >= 1);
        lemma_parse_value(s[0], b, off);
        let q = off + first.len();
        lemma_window(b, o, e, first.len() as int, enc_items(rest).len() as int);
        assert(e.subrange(first.len() as int, (first.len() + enc_items(rest).len()) as int) =~= enc_items(rest));
        lemma_parse_items(rest, b, q);
        assert(seq![s[0]] + rest =~= s);
    } else {
        assert(s =~= Seq::<ValueView>::empty());
    }
}

proof fn lemma_parse_entries(s: Seq<(Seq<char>, ValueView)>, b: Seq<u8>, off: nat)
    requires
        packable_entries(s),
        off + enc_entries(s).len() <= b.len(),
        b.subrange(off as int, (off + enc_entries(s).len()) as int) == enc_entries(s),
    ensures
        parse_entries(b, off, s.len()) == Ok::<(Seq<(Seq<char>, ValueView)>, nat), Seq<char>>(
            (s, off + enc_entries(s).len()),
        ),
    decreases s,
{
    if s.len() > 0 {
        lemma_entries_front(s);
        let e = enc_entries(s);
        let kv = s[0];
        let kb = encode_utf8(kv.0);
        let ve = enc(kv.1);
        let rest = s.drop_first();
        let re = enc_entries(rest);
        let o = off as int;
        assert(e =~= le32(kb.len() as u32) + kb + ve + re);
        lemma_window(b, o, e, 0, 4);
        assert(e.subrange(0, 4) =~= le32(kb.len() as u32));
        lemma_read32(b, o, kb.len() as u32);
        lemma_window(b, o, e, 4, kb.len() as int);
        assert(e.subrange(4, (4 + kb.len()) as int) =~= kb);
        encode_utf8_valid_utf8(kv.0);
        encode_utf8_decode_utf8(kv.0);
        let vo: int = 4 + kb.len() as int;
        lemma_window(b, o, e, vo, ve.len() as int);
        assert(e.subrange(vo, (vo + ve.len()) as int) =~= ve);
        lemma_parse_value(kv.1, b, (o + vo) as nat);
        let q: int = vo + ve.len();
        lemma_window(b, o, e, q, re.len() as int);
        assert(e.subrange(q, (q + re.len()) as int) =~= re);
        lemma_parse_entries(rest, b, (o + q) as nat);
        assert(seq![kv] + rest =~= s);
    } else {
        assert(s =~= Seq::<(Seq<char>, ValueView)>::empty());
    }
}

/// Unpacking the packed form of a value gives the value back, for every value whose strings
/// (in UTF-8 bytes), lists and maps are no longer than `u32::MAX` and whose maps have distinct
/// keys.
pub proof fn lemma_pack_unpack(v: ValueView)
    requires
        packable(v),
    ensures
        unpack_spec(pack_spec(v)) == Ok::<ValueView, Seq<char>>(v),
{
    let b = pack_spec(v);
    assert(b.subrange(0, 4) =~= pack_header().subrange(0, 4));
    assert(b[4] == AETHERPACK_VERSION);
    assert(b.subrange(5, (5 + enc(v).len()) as int) =~= enc(v));
    lemma_parse_value(v, b, 5);
}

/// Unpacking reads one value and ignores whatever bytes follow it: the packed form of a value
/// followed by any bytes unpacks to the value.
pub proof fn lemma_pack_unpack_trailing(v: ValueView, junk: Seq<u8>)
    requires
        packable(v),
    ensures
        unpack_spec(pack_spec(v) + junk) == Ok::<ValueView, Seq<char>>(v),
{
    let p = pack_spec(v);
    let b = p + junk;
    assert(b.subrange(0, 4) =~= p.subrange(0, 4));
    assert(p.subrange(0, 4) =~= pack_header().subrange(0, 4));
    assert(b[4] == p[4]);
    assert(p.subrange(5, (5 + enc(v).len()) as int) =~= enc(v));
    assert(b.subrange(5, (5 + enc(v).len()) as int) =~= enc(v));
    lemma_parse_value(v, b, 5);
}

/// The AetherPack binary encoding of values.
pub struct AetherPack;

impl AetherPack {
    /// The packed bytes of a value: the header `AE 50 41 43 01`, then the value's encoding.
    pub fn pack(val: &Value) -> (r: Vec<u8>)
        ensures
            r@ == pack_spec(val@),
    {
        let mut out: Vec<u8> = Vec::new();
        out.push(0xAE);
        out.push(0x50);
        out.push(0x41);
        out.push(0x43);
        out.push(AETHERPACK_VERSION);
        assert(out@ =~= pack_header());
        Self::pack_value(val, &mut out);
        out
    }

    fn pack_value(val: &Value, out: &mut Vec<u8>)
        ensures
            final(out)@ == old(out)@ + enc(val@),
        decreases val,
    {
        let ghost start = out@;
        match val {
            Value::Nil => out.push(TAG_NIL),
            Value::Bool(b) => out.push(if *b { TAG_TRUE } else { TAG_FALSE }),
            Value::Int(i) => {
                if *i >= 0 {
                    out.push(TAG_INT_POS);
                    push_le64(out, *i as u64);
                } else {
                    out.push(TAG_INT_NEG);
                    let mag: u64 = if *i == i64::MIN {
                        0x8000_0000_0000_0000
                    } else {
                        (-*i) as u64
                    };
                    push_le64(out, mag);
                }
            },
            Value::Float(f) => {
                out.push(TAG_FLOAT);
                push_le64(out, *f);
            },
            Value::String(s) => {
                out.push(TAG_STRING);
                let bytes = s.as_str().as_bytes();
                push_le32(out, #[verifier::truncate] (bytes.len() as u32));
                push_bytes(out, bytes);
            },
            Value::Array(items) => {
                out.push(TAG_ARRAY);
                proof {
                    lemma_models(items@);
                }
                push_le32(out, #[verifier::truncate] (items.len() as u32));
                Self::pack_items(items, out);
            },
            Value::Tuple(items) => {
                out.push(TAG_TUPLE);
                proof {
                    lemma_models(items@);
                }
                push_le32(out, #[verifier::truncate] (items.len() as u32));
                Self::pack_items(items, out);
            },
            Value::SetItems(items) => {
                out.push(TAG_SET);
                proof {
                    lemma_models(items@);
                }
                push_le32(out, #[verifier::truncate] (items.len() as u32));
                Self::pack_items(items, out);
            },
            Value::MapEntries(entries) => {
                out.push(TAG_MAP);
                proof {
                    lemma_entry_models(entries@);
                }
                push_le32(out, #[verifier::truncate] (entries.len() as u32));
                Self::pack_entries(entries, out);
            },
            Value::Function(f) => {
                let text = function_text(&f.name);
                out.push(TAG_STRING);
                let bytes = text.as_str().as_bytes();
                push_le32(out, #[verifier::truncate] (bytes.len() as u32));
                push_bytes(out, bytes);
            },
        }
        assert(out@ =~= start + enc(val@));
    }

    fn pack_items(items: &Vec<Value>, out: &mut Vec<u8>)
        ensures
            final(out)@ == old(out)@ + enc_items(models(items@)),
        decreases items,
    {
        let ghost start = out@;
        let mut i: usize = 0;
        assert(models(items@.take(0)) =~= Seq::<ValueView>::empty());
        assert(start + enc_items(Seq::<ValueView>::empty()) =~= start);
        while i < items.len()
            invariant
                i <= items.len(),
                out@ == start + enc_items(models(items@.take(i as int))),
            decreases items.len() - i,
        {
            assert(decreases_to!(items => items@[i as int]));
            Self::pack_value(&items[i], out);
            proof {
                let prev = items@.take(i as int);
                lemma_models_push(prev, items@[i as int]);
                assert(items@.take(i + 1) =~= prev.push(items@[i as int]));
                let ms = models(prev).push(items@[i as int]@);
                assert(ms.drop_last() =~= models(prev));
                assert(out@ =~= start + enc_items(ms));
            }
            i = i + 1;
        }
        assert(items@.take(items.len() as int) =~= items@);
    }

    fn pack_entries(entries: &Vec<(String, Value)>, out: &mut Vec<u8>)
        ensures
            final(out)@ == old(out)@ + enc_entries(entry_models(entries@)),
        decreases entries,
    {
        let ghost start = out@;
        let mut i: usize = 0;
        assert(entry_models(entries@.take(0)) =~= Seq::<(Seq<char>, ValueView)>::empty());
        assert(start + enc_entries(Seq::<(Seq<char>, ValueView)>::empty()) =~= start);
        while i < entries.len()
            invariant
                i <= entries.len(),
                out@ == start + enc_entries(entry_models(entries@.take(i as int))),
            decreases entries.len() - i,
        {
            assert(decreases_to!(entries => entries@[i as int].1));
            let key = entries[i].0.as_str().as_bytes();
            push_le32(out, #[verifier::truncate] (key.len() as u32));
            push_bytes(out, key);
            Self::pack_value(&entries[i].1, out);
            proof {
                let prev = entries@.take(i as int);
                lemma_entry_models_push(prev, entries@[i as int]);
                assert(entries@.take(i + 1) =~= prev.push(entries@[i as int]));
                let ms = entry_models(prev).push((entries@[i as int].0@, entries@[i as int].1@));
                assert(ms.drop_last() =~= entry_models(prev));
                let kv = ms.last();
                assert(enc_entry(kv) == len_prefix(encode_utf8(kv.0).len()) + encode_utf8(kv.0)
                    + enc(kv.1));
                assert(out@ =~= start + enc_entries(ms));
            }
            i = i + 1;
        }
        assert(entries@.take(entries.len() as int) =~= entries@);
    }
    /// The value packed in `bytes`, or why it cannot be read: a payload shorter than 5 bytes,
    /// a wrong magic header, an unsupported version, or an error in the encoding itself.
    pub fn unpack(bytes: &[u8]) -> (r: Result<Value, String>)
        ensures
            match unpack_spec(bytes@) {
                Ok(v) => r matches Ok(x) && x@ == v,
                Err(e) => r matches Err(m) && m@ == e,
            },
    {
        if bytes.len() < 5 {
            return Err(string_of("AetherPack payload too small (< 5 bytes)"));
        }
        if !(bytes[0] == 0xAE && bytes[1] == 0x50 && bytes[2] == 0x41 && bytes[3] == 0x43) {
            proof {
                if bytes@.subrange(0, 4) == pack_header().subrange(0, 4) {
                    assert(bytes@[0] == bytes@.subrange(0, 4)[0]);
                    assert(bytes@[1] == bytes@.subrange(0, 4)[1]);
                    assert(bytes@[2] == bytes@.subrange(0, 4)[2]);
                    assert(bytes@[3] == bytes@.subrange(0, 4)[3]);
                }
            }
            return Err(string_of("Invalid AetherPack magic header"));
        }
        assert(bytes@.subrange(0, 4) =~= pack_header().subrange(0, 4));
        if bytes[4] != AETHERPACK_VERSION {
            let mut m = string_of("Unsupported AetherPack version: 0x");
            push_hex_upper(&mut m, bytes[4]);
            return Err(m);
        }
        let mut offset: usize = 5;
        Self::unpack_value(bytes, &mut offset)
    }

    fn unpack_value(bytes: &[u8], offset: &mut usize) -> (r: Result<Value, String>)
        requires
            *old(offset) <= bytes@.len(),
        ensures
            r is Ok ==> *old(offset) < *final(offset) <= bytes@.len(),
            match parse_value(bytes@, *old(offset) as nat) {
                Ok((v, q)) => r matches Ok(x) && x@ == v && *final(offset) == q,
                Err(e) => r matches Err(m) && m@ == e,
            },
        decreases bytes@.len() - *old(offset), 0int,
    {
        if *offset >= bytes.len() {
            return Err(string_of("Unexpected EOF while unpacking AetherPack value"));
        }
        let at = *offset;
        let tag = bytes[at];
        let p = at + 1;
        *offset = p;
        if tag == TAG_NIL {
            Ok(Value::Nil)
        } else if tag == TAG_FALSE {
            Ok(Value::Bool(false))
        } else if tag == TAG_TRUE {
            Ok(Value::Bool(true))
        } else if tag == TAG_INT_POS || tag == TAG_INT_NEG || tag == TAG_FLOAT {
            if bytes.len() - p < 8 {
                return Err(eof_error(
                    if tag == TAG_INT_POS {
                        "INT_POS"
                    } else if tag == TAG_INT_NEG {
                        "INT_NEG"
                    } else {
                        "FLOAT"
                    },
                ));
            }
            let raw = read_u64_at(bytes, p);
            *offset = p + 8;
            if tag == TAG_INT_POS {
                Ok(Value::Int(raw as i64))
            } else if tag == TAG_INT_NEG {
                Ok(Value::Int(0i64.wrapping_sub(raw as i64)))
            } else {
                Ok(Value::Float(raw))
            }
        } else if tag == TAG_STRING || tag == TAG_BYTES {
            let name = if tag == TAG_STRING {
                "STRING"
            } else {
                "BYTES"
            };
            if bytes.len() - p < 4 {
                return Err(eof_error2(name, " length"));
            }
            let n = read_u32_at(bytes, p) as usize;
            if n > bytes.len() - (p + 4) {
                return Err(eof_error2(name, " payload"));
            }
            let q = p + 4 + n;
            let sub = vstd::slice::slice_subrange(bytes, p + 4, q);
            *offset = q;
            if tag == TAG_STRING {
                Ok(Value::String(from_utf8_lossy(sub)))
            } else {
                let mut items: Vec<Value> = Vec::new();
                let mut i: usize = 0;
                while i < sub.len()
                    invariant
                        i <= sub@.len(),
                        models(items@) == byte_values(sub@).take(i as int),
                    decreases sub@.len() - i,
                {
                    let ghost prev = items@;
                    items.push(Value::Int(sub[i] as i64));
                    proof {
                        lemma_models_push(prev, Value::Int(sub@[i as int] as i64));
                        assert(models(items@) =~= byte_values(sub@).take(i + 1));
                    }
                    i = i + 1;
                }
                assert(byte_values(sub@).take(sub@.len() as int) =~= byte_values(sub@));
                Ok(Value::Array(items))
            }
        } else if tag == TAG_ARRAY || tag == TAG_TUPLE || tag == TAG_SET {
            if bytes.len() - p < 4 {
                return Err(eof_error2(collection_name_of(tag), " count"));
            }
            let count = read_u32_at(bytes, p);
            *offset = p + 4;
            match Self::unpack_items(bytes, offset, count as usize) {
                Ok(items) => Ok(make_collection(tag, items)),
                Err(e) => Err(e),
            }
        } else if tag == TAG_MAP {
            if bytes.len() - p < 4 {
                return Err(eof_error("MAP entry count"));
            }
            let count = read_u32_at(bytes, p);
            *offset = p + 4;
            match Self::unpack_entries(bytes, offset, count as usize) {
                Ok(map) => Ok(Value::MapEntries(map)),
                Err(e) => Err(e),
            }
        } else {
            let mut m = string_of("Unknown AetherPack tag: 0x");
            push_hex_upper(&mut m, tag);
            push_str(&mut m, " at offset ");
            push_decimal(&mut m, at as u64);
            Err(m)
        }
    }

    fn unpack_items(bytes: &[u8], offset: &mut usize, count: usize) -> (r: Result<Vec<Value>, String>)
        requires
            *old(offset) <= bytes@.len(),
        ensures
            r is Ok ==> *old(offset) <= *final(offset) <= bytes@.len(),
            match parse_items(bytes@, *old(offset) as nat, count as nat) {
                Ok((vs, q)) => r matches Ok(items) && models(items@) == vs && *final(offset) == q,
                Err(e) => r matches Err(m) && m@ == e,
            },
        decreases bytes@.len() - *old(offset), count as int,
    {
        let ghost b = bytes@;
        let ghost start = *offset as nat;
        let mut items: Vec<Value> = Vec::new();
        let mut k: usize = 0;
        assert(models(items@) =~= Seq::<ValueView>::empty());
        while k < count
            invariant
                b == bytes@,
                start == *old(offset),
                start <= *offset <= bytes@.len(),
                k <= count,
                parse_items(b, start, count as nat) == match parse_items(b, *offset as nat, (count - k) as nat) {
                    Ok((vs, q)) => Ok((models(items@) + vs, q)),
                    Err(e) => Err(e),
                },
            decreases count - k,
        {
            let ghost before = *offset as nat;
            let v = match Self::unpack_value(bytes, offset) {
                Ok(v) => v,
                Err(e) => {
                    assert(parse_items(b, before, (count - k) as nat) == Err::<
                        (Seq<ValueView>, nat),
                        Seq<char>,
                    >(e@));
                    return Err(e);
                },
            };
            let ghost prev = items@;
            proof {
                lemma_models_push(prev, v);
                match parse_items(b, *offset as nat, (count - k - 1) as nat) {
                    Ok((vs, q)) => {
                        assert(models(prev) + (seq![v@] + vs) =~= models(prev).push(v@) + vs);
                    },
                    Err(_) => {},
                }
            }
            items.push(v);
            k = k + 1;
        }
        assert(models(items@) + Seq::<ValueView>::empty() =~= models(items@));
        Ok(items)
    }

    fn unpack_entries(bytes: &[u8], offset: &mut usize, count: usize) -> (r: Result<
        Vec<(String, Value)>,
        String,
    >)
        requires
            *old(offset) <= bytes@.len(),
        ensures
            r is Ok ==> *old(offset) <= *final(offset) <= bytes@.len(),
            match parse_entries(bytes@, *old(offset) as nat, count as nat) {
                Ok((pairs, q)) => r matches Ok(map) && entry_models(map@) == map_of_pairs(pairs)
                    && *final(offset) == q,
                Err(e) => r matches Err(m) && m@ == e,
            },
        decreases bytes@.len() - *old(offset), count as int,
    {
        let ghost b = bytes@;
        let ghost start = *offset as nat;
        let ghost mut pairs: Seq<(Seq<char>, ValueView)> = Seq::empty();
        let mut map: Vec<(String, Value)> = Vec::new();
        let mut k: usize = 0;
        assert(entry_models(map@) =~= map_of_pairs(pairs));
        assert(pairs + Seq::<(Seq<char>, ValueView)>::empty() =~= Seq::<(Seq<char>, ValueView)>::empty());
        while k < count
            invariant
                b == bytes@,
                start == *old(offset),
                start <= *offset <= bytes@.len(),
                k <= count,
                keys_unique(entry_models(map@)),
                entry_models(map@) == map_of_pairs(pairs),
                parse_entries(b, start, count as nat) == match parse_entries(b, *offset as nat, (count - k) as nat) {
                    Ok((rest, q)) => Ok((pairs + rest, q)),
                    Err(e) => Err(e),
                },
            decreases count - k,
        {
            let off = *offset;
            if bytes.len() - off < 4 {
                let m = eof_error("MAP key length");
                assert(parse_entries(b, off as nat, (count - k) as nat) == Err::<
                    (Seq<(Seq<char>, ValueView)>, nat),
                    Seq<char>,
                >(m@));
                return Err(m);
            }
            let n = read_u32_at(bytes, off) as usize;
            if n > bytes.len() - (off + 4) {
                let m = eof_error("MAP key content");
                assert(parse_entries(b, off as nat, (count - k) as nat) == Err::<
                    (Seq<(Seq<char>, ValueView)>, nat),
                    Seq<char>,
                >(m@));
                return Err(m);
            }
            let vo = off + 4 + n;
            let key = from_utf8_lossy(vstd::slice::slice_subrange(bytes, off + 4, vo));
            *offset = vo;
            let v = match Self::unpack_value(bytes, offset) {
                Ok(v) => v,
                Err(e) => return Err(e),
            };
            let ghost kv = (key@, v@);
            proof {
                match parse_entries(b, *offset as nat, (count - k - 1) as nat) {
                    Ok((rest, q)) => {
                        assert(pairs + (seq![kv] + rest) =~= pairs.push(kv) + rest);
                    },
                    Err(_) => {},
                }
                assert(pairs.push(kv).drop_last() =~= pairs);
            }
            put_entry(&mut map, key, v);
            proof {
                pairs = pairs.push(kv);
            }
            k = k + 1;
        }
        assert(pairs + Seq::<(Seq<char>, ValueView)>::empty() =~= pairs);
        Ok(map)
    }
}

/// The largest payload a framed message may announce.
pub const MAX_FRAME_LEN: usize = 67108864;

pub open spec fn frame_too_long_message(n: nat) -> Seq<char> {
    "Payload length "@ + decimal(n) + " exceeds 64MB limit"@
}

/// The four-byte prefix announcing a payload of `len` bytes: the low 32 bits of `len`,
/// little-endian.
pub fn frame_prefix(len: usize) -> (r: Vec<u8>)
    ensures
        r@ == le32(len as u32),
{
    let mut r: Vec<u8> = Vec::new();
    push_le32(&mut r, #[verifier::truncate] (len as u32));
    assert(r@ =~= le32(len as u32));
    r
}

/// The payload length that a four-byte prefix announces, refused above 64 MiB.
pub fn frame_length(prefix: &[u8]) -> (r: Result<usize, String>)
    requires
        prefix@.len() == 4,
    ensures
        read32(prefix@, 0) <= MAX_FRAME_LEN ==> r == Ok::<usize, String>(read32(prefix@, 0) as usize),
        read32(prefix@, 0) > MAX_FRAME_LEN ==> (r matches Err(e) && e@ == frame_too_long_message(
            read32(prefix@, 0) as nat,
        )),
{
    let n = read_u32_at(prefix, 0);
    if n as usize > MAX_FRAME_LEN {
        let mut e = string_of("Payload length ");
        push_decimal(&mut e, n as u64);
        push_str(&mut e, " exceeds 64MB limit");
        Err(e)
    } else {
        Ok(n as usize)
    }
}

/// A prefix reads back as the length it was made from, for every length the limit allows.
pub proof fn lemma_frame_roundtrip(len: usize)
    requires
        len <= MAX_FRAME_LEN,
    ensures
        read32(le32(len as u32), 0) == len,
{
    assert(le32(len as u32).subrange(0, 4) =~= le32(len as u32));
    lemma_read32(le32(len as u32), 0, len as u32);
}

} // verus!
