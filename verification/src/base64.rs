//! Base64 (RFC 4648, standard alphabet, `=` padding).
use vstd::prelude::*;
use vstd::utf8::{encode_utf8, is_ascii_chars, is_ascii_chars_encode_utf8};
use crate::text::{
    chars_of, new_string, push_char, string_of, strip_breaks, strip_breaks_range, trim_back, trim_bounds,
    trim_front, trim_spec, unicode_whitespace,
};

verus! {

/// The Base64 alphabet character of a 6-bit value.
pub open spec fn b64_char(n: u8) -> char {
    if n < 26 {
        (('A' as u8) + n) as char
    } else if n < 52 {
        (('a' as u8) + (n - 26)) as char
    } else if n < 62 {
        (('0' as u8) + (n - 52)) as char
    } else if n == 62 {
        '+'
    } else {
        '/'
    }
}

/// The four output characters of a group of one to three input bytes.
pub open spec fn encode_group(g: Seq<u8>) -> Seq<char> {
    let b0 = g[0];
    let b1: u8 = if g.len() > 1 { g[1] } else { 0 };
    let b2: u8 = if g.len() > 2 { g[2] } else { 0 };
    seq![
        b64_char(b0 >> 2u8),
        b64_char(((b0 & 0x03u8) << 4u8) | (b1 >> 4u8)),
        if g.len() > 1 { b64_char(((b1 & 0x0Fu8) << 2u8) | (b2 >> 6u8)) } else { '=' },
        if g.len() > 2 { b64_char(b2 & 0x3Fu8) } else { '=' },
    ]
}

/// Base64 text of a byte sequence: one group of four characters per three bytes.
pub open spec fn base64_encode_spec(x: Seq<u8>) -> Seq<char>
    decreases x.len(),
{
    if x.len() == 0 {
        Seq::empty()
    } else if x.len() <= 3 {
        encode_group(x)
    } else {
        encode_group(x.take(3)) + base64_encode_spec(x.skip(3))
    }
}

/// The 6-bit value of a Base64 alphabet byte, if it is one.
pub open spec fn b64_value(c: u8) -> Option<u8> {
    if 65 <= c <= 90 {
        Some((c - 65) as u8)
    } else if 97 <= c <= 122 {
        Some((c - 97 + 26) as u8)
    } else if 48 <= c <= 57 {
        Some((c - 48 + 52) as u8)
    } else if c == 43 {
        Some(62u8)
    } else if c == 47 {
        Some(63u8)
    } else {
        None
    }
}

pub open spec fn invalid_char_message(c: u8) -> Seq<char> {
    "Invalid Base64 char: "@.push((c as u32) as char)
}

pub open spec fn chunk_length_message() -> Seq<char> {
    "Invalid Base64 chunk length"@
}

/// Decodes one four-byte chunk: bytes out, or the message of the first invalid character.
pub open spec fn decode_chunk(c: Seq<u8>) -> Result<Seq<u8>, Seq<char>> {
    match (b64_value(c[0]), b64_value(c[1])) {
        (None, _) => Err(invalid_char_message(c[0])),
        (Some(_), None) => Err(invalid_char_message(c[1])),
        (Some(v0), Some(v1)) => {
            let first = (v0 << 2u8) | (v1 >> 4u8);
            if c[2] == 61 {
                Ok(seq![first])
            } else {
                match b64_value(c[2]) {
                    None => Err(invalid_char_message(c[2])),
                    Some(v2) => {
                        let second = ((v1 & 0x0Fu8) << 4u8) | (v2 >> 2u8);
                        if c[3] == 61 {
                            Ok(seq![first, second])
                        } else {
                            match b64_value(c[3]) {
                                None => Err(invalid_char_message(c[3])),
                                Some(v3) => Ok(seq![first, second, ((v2 & 0x03u8) << 6u8) | v3]),
                            }
                        }
                    },
                }
            }
        },
    }
}

/// Decodes cleaned Base64 bytes chunk by chunk; the first failing chunk decides the error.
pub open spec fn decode_clean_spec(b: Seq<u8>) -> Result<Seq<u8>, Seq<char>>
    decreases b.len(),
{
    if b.len() == 0 {
        Ok(Seq::empty())
    } else if b.len() < 4 {
        Err(chunk_length_message())
    } else {
        match decode_chunk(b.take(4)) {
            Err(e) => Err(e),
            Ok(out) => match decode_clean_spec(b.skip(4)) {
                Err(e) => Err(e),
                Ok(rest) => Ok(out + rest),
            },
        }
    }
}

/// What `base64_decode` computes: trim, drop line breaks and spaces, decode the UTF-8 bytes.
pub open spec fn base64_decode_spec(input: Seq<char>) -> Result<Seq<u8>, Seq<char>> {
    decode_clean_spec(encode_utf8(strip_breaks(trim_spec(input))))
}

proof fn lemma_encode_concat(a: Seq<u8>, b: Seq<u8>)
    requires
        a.len() % 3 == 0,
    ensures
        base64_encode_spec(a + b) == base64_encode_spec(a) + base64_encode_spec(b),
    decreases a.len(),
{
    if a.len() == 0 {
        assert(a + b =~= b);
        assert(base64_encode_spec(a) =~= Seq::<char>::empty());
        assert(Seq::<char>::empty() + base64_encode_spec(b) =~= base64_encode_spec(b));
    } else if a.len() == 3 {
        if b.len() > 0 {
            assert((a + b).take(3) =~= a);
            assert((a + b).skip(3) =~= b);
        } else {
            assert(a + b =~= a);
            assert(base64_encode_spec(b) =~= Seq::<char>::empty());
            assert(base64_encode_spec(a) + Seq::<char>::empty() =~= base64_encode_spec(a));
        }
    } else {
        lemma_encode_concat(a.skip(3), b);
        assert((a + b).take(3) =~= a.take(3));
        assert((a + b).skip(3) =~= a.skip(3) + b);
        assert(encode_group(a.take(3)) + (base64_encode_spec(a.skip(3)) + base64_encode_spec(b))
            =~= (encode_group(a.take(3)) + base64_encode_spec(a.skip(3))) + base64_encode_spec(b));
    }
}

fn b64_char_exec(n: u8) -> (c: char)
    requires
        n < 64,
    ensures
        c == b64_char(n),
{
    if n < 26 {
        (65u8 + n) as char
    } else if n < 52 {
        (97u8 + (n - 26)) as char
    } else if n < 62 {
        (48u8 + (n - 52)) as char
    } else if n == 62 {
        '+'
    } else {
        '/'
    }
}

/// Encodes bytes as Base64 text with `=` padding.
pub fn base64_encode(input: &[u8]) -> (out: String)
    ensures
        out@ == base64_encode_spec(input@),
{
    let mut out = new_string();
    let mut i: usize = 0;
    assert(input@.take(0) =~= Seq::<u8>::empty());
    while i < input.len()
        invariant
            i <= input.len(),
            i % 3 == 0 || i == input.len(),
            out@ == base64_encode_spec(input@.take(i as int)),
        decreases input.len() - i,
    {
        let rem = input.len() - i;
        let k: usize = if rem >= 3 { 3 } else { rem };
        let b0 = input[i];
        let b1: u8 = if k > 1 { input[i + 1] } else { 0 };
        let b2: u8 = if k > 2 { input[i + 2] } else { 0 };
        assert(b0 >> 2u8 < 64u8) by (bit_vector);
        assert(((b0 & 0x03u8) << 4u8) | (b1 >> 4u8) < 64u8) by (bit_vector);
        assert(((b1 & 0x0Fu8) << 2u8) | (b2 >> 6u8) < 64u8) by (bit_vector);
        assert(b2 & 0x3Fu8 < 64u8) by (bit_vector);
        let ghost before = out@;
        push_char(&mut out, b64_char_exec(b0 >> 2u8));
        push_char(&mut out, b64_char_exec(((b0 & 0x03u8) << 4u8) | (b1 >> 4u8)));
        if k > 1 {
            push_char(&mut out, b64_char_exec(((b1 & 0x0Fu8) << 2u8) | (b2 >> 6u8)));
        } else {
            push_char(&mut out, '=');
        }
        if k > 2 {
            push_char(&mut out, b64_char_exec(b2 & 0x3Fu8));
        } else {
            push_char(&mut out, '=');
        }
        proof {
            let g = input@.subrange(i as int, i + k);
            assert(out@ =~= before + encode_group(g));
            assert(base64_encode_spec(g) == encode_group(g));
            assert(input@.take(i + k) =~= input@.take(i as int) + g);
            lemma_encode_concat(input@.take(i as int), g);
        }
        i = i + k;
    }
    assert(input@.take(input.len() as int) =~= input@);
    out
}

fn b64_value_exec(c: u8) -> (r: Option<u8>)
    ensures
        r == b64_value(c),
{
    if 65 <= c && c <= 90 {
        Some(c - 65)
    } else if 97 <= c && c <= 122 {
        Some(c - 97 + 26)
    } else if 48 <= c && c <= 57 {
        Some(c - 48 + 52)
    } else if c == 43 {
        Some(62)
    } else if c == 47 {
        Some(63)
    } else {
        None
    }
}

fn invalid_char(c: u8) -> (e: String)
    ensures
        e@ == invalid_char_message(c),
{
    let mut e = string_of("Invalid Base64 char: ");
    push_char(&mut e, c as char);
    e
}

/// Decodes Base64 text that has already been trimmed and cleaned of line breaks and spaces.
pub fn base64_decode_clean(b: &[u8]) -> (r: Result<Vec<u8>, String>)
    ensures
        match decode_clean_spec(b@) {
            Ok(v) => r matches Ok(out) && out@ == v,
            Err(m) => r matches Err(e) && e@ == m,
        },
{
    let mut out: Vec<u8> = Vec::new();
    let mut i: usize = 0;
    assert(b@.skip(0) =~= b@);
    while i < b.len()
        invariant
            i <= b.len(),
            match decode_clean_spec(b@) {
                Ok(v) => decode_clean_spec(b@.skip(i as int)) matches Ok(rest) && v == out@ + rest,
                Err(m) => decode_clean_spec(b@.skip(i as int)) == Err::<Seq<u8>, Seq<char>>(m),
            },
        decreases b.len() - i,
    {
        let ghost tail = b@.skip(i as int);
        if b.len() - i < 4 {
            return Err(string_of("Invalid Base64 chunk length"));
        }
        let ghost c = tail.take(4);
        assert(c[0] == b[i as int] && c[1] == b[i + 1] && c[2] == b[i + 2] && c[3] == b[i + 3]);
        assert(tail.skip(4) =~= b@.skip(i + 4));
        let c0 = match b64_value_exec(b[i]) {
            Some(v) => v,
            None => {
                return Err(invalid_char(b[i]));
            },
        };
        let c1 = match b64_value_exec(b[i + 1]) {
            Some(v) => v,
            None => {
                return Err(invalid_char(b[i + 1]));
            },
        };
        let ghost before = out@;
        out.push((c0 << 2u8) | (c1 >> 4u8));
        if b[i + 2] != 61 {
            let c2 = match b64_value_exec(b[i + 2]) {
                Some(v) => v,
                None => {
                    return Err(invalid_char(b[i + 2]));
                },
            };
            out.push(((c1 & 0x0Fu8) << 4u8) | (c2 >> 2u8));
            if b[i + 3] != 61 {
                let c3 = match b64_value_exec(b[i + 3]) {
                    Some(v) => v,
                    None => {
                        return Err(invalid_char(b[i + 3]));
                    },
                };
                out.push(((c2 & 0x03u8) << 6u8) | c3);
            }
        }
        proof {
            let d = decode_chunk(c);
            assert(d matches Ok(piece) && out@ =~= before + piece);
            match decode_clean_spec(b@) {
                Ok(v) => {
                    let piece = d->Ok_0;
                    let rest2 = decode_clean_spec(b@.skip(i + 4))->Ok_0;
                    assert(v == before + (piece + rest2));
                    assert(before + (piece + rest2) =~= out@ + rest2);
                },
                Err(m) => {},
            }
        }
        i = i + 4;
    }
    proof {
        assert(b@.skip(b.len() as int) =~= Seq::<u8>::empty());
        match decode_clean_spec(b@) {
            Ok(v) => {
                assert(out@ + Seq::<u8>::empty() =~= out@);
            },
            Err(m) => {},
        }
    }
    Ok(out)
}

/// Decodes Base64 text; surrounding whitespace and any line breaks or spaces are ignored.
pub fn base64_decode(input: &str) -> (r: Result<Vec<u8>, String>)
    ensures
        match base64_decode_spec(input@) {
            Ok(v) => r matches Ok(out) && out@ == v,
            Err(m) => r matches Err(e) && e@ == m,
        },
{
    let cs = chars_of(input);
    let (lo, hi) = trim_bounds(&cs);
    let clean = strip_breaks_range(&cs, lo, hi);
    let bytes = clean.as_str().as_bytes();
    base64_decode_clean(bytes)
}

/// The Base64 text of `x` contains only ASCII characters.
pub open spec fn ascii_bytes(s: Seq<char>) -> Seq<u8> {
    Seq::new(s.len(), |i: int| s[i] as u8)
}

proof fn lemma_group_roundtrip(g: Seq<u8>)
    requires
        1 <= g.len() <= 3,
    ensures
        decode_chunk(ascii_bytes(encode_group(g))) == Ok::<Seq<u8>, Seq<char>>(g),
{
    let b0 = g[0];
    let b1: u8 = if g.len() > 1 { g[1] } else { 0 };
    let b2: u8 = if g.len() > 2 { g[2] } else { 0 };
    let n0 = b0 >> 2u8;
    let n1 = ((b0 & 0x03u8) << 4u8) | (b1 >> 4u8);
    let n2 = ((b1 & 0x0Fu8) << 2u8) | (b2 >> 6u8);
    let n3 = b2 & 0x3Fu8;
    assert(n0 < 64 && n1 < 64 && n2 < 64 && n3 < 64) by (bit_vector)
        requires
            n0 == b0 >> 2u8,
            n1 == ((b0 & 0x03u8) << 4u8) | (b1 >> 4u8),
            n2 == ((b1 & 0x0Fu8) << 2u8) | (b2 >> 6u8),
            n3 == b2 & 0x3Fu8,
    ;
    lemma_char_value(n0);
    lemma_char_value(n1);
    lemma_char_value(n2);
    lemma_char_value(n3);
    assert(((n0 << 2u8) | (n1 >> 4u8)) == b0) by (bit_vector)
        requires
            n0 == b0 >> 2u8,
            n1 == ((b0 & 0x03u8) << 4u8) | (b1 >> 4u8),
    ;
    assert((((n1 & 0x0Fu8) << 4u8) | (n2 >> 2u8)) == b1) by (bit_vector)
        requires
            n1 == ((b0 & 0x03u8) << 4u8) | (b1 >> 4u8),
            n2 == ((b1 & 0x0Fu8) << 2u8) | (b2 >> 6u8),
    ;
    assert((((n2 & 0x03u8) << 6u8) | n3) == b2) by (bit_vector)
        requires
            n2 == ((b1 & 0x0Fu8) << 2u8) | (b2 >> 6u8),
            n3 == b2 & 0x3Fu8,
    ;
    let e = ascii_bytes(encode_group(g));
    assert(e[0] == b64_char(n0) as u8);
    assert(e[1] == b64_char(n1) as u8);
    if g.len() == 1 {
        assert(e[2] == 61);
        assert(seq![b0] =~= g);
    } else if g.len() == 2 {
        assert(e[2] == b64_char(n2) as u8);
        assert(e[3] == 61);
        assert(seq![b0, b1] =~= g);
    } else {
        assert(e[2] == b64_char(n2) as u8);
        assert(e[3] == b64_char(n3) as u8);
        assert(seq![b0, b1, b2] =~= g);
    }
}

proof fn lemma_char_value(n: u8)
    requires
        n < 64,
    ensures
        b64_value(b64_char(n) as u8) == Some(n),
        b64_char(n) as u8 != 61,
        '!' <= b64_char(n) <= '~',
{
}

/// Decoding the Base64 text of any byte sequence gives the bytes back.
pub proof fn lemma_base64_roundtrip(x: Seq<u8>)
    ensures
        decode_clean_spec(ascii_bytes(base64_encode_spec(x))) == Ok::<Seq<u8>, Seq<char>>(x),
    decreases x.len(),
{
    let e = ascii_bytes(base64_encode_spec(x));
    if x.len() == 0 {
        assert(e =~= Seq::<u8>::empty());
        assert(x =~= Seq::<u8>::empty());
    } else if x.len() <= 3 {
        lemma_group_roundtrip(x);
        assert(e.len() == 4);
        assert(e.take(4) =~= e);
        assert(e.skip(4) =~= Seq::<u8>::empty());
        assert(decode_clean_spec(e.skip(4)) == Ok::<Seq<u8>, Seq<char>>(Seq::empty()));
        assert(x + Seq::<u8>::empty() =~= x);
    } else {
        let g = x.take(3);
        lemma_group_roundtrip(g);
        lemma_base64_roundtrip(x.skip(3));
        assert(base64_encode_spec(x) == encode_group(g) + base64_encode_spec(x.skip(3)));
        assert(encode_group(g).len() == 4);
        assert(e.len() >= 4);
        assert(e.take(4) =~= ascii_bytes(encode_group(g)));
        assert(e.skip(4) =~= ascii_bytes(base64_encode_spec(x.skip(3))));
        assert(decode_chunk(e.take(4)) == Ok::<Seq<u8>, Seq<char>>(g));
        assert(decode_clean_spec(e.skip(4)) == Ok::<Seq<u8>, Seq<char>>(x.skip(3)));
        assert(g + x.skip(3) =~= x);
        assert(decode_clean_spec(e) == Ok::<Seq<u8>, Seq<char>>(g + x.skip(3)));
    }
}

/// A line break or space, which `base64_decode` drops.
pub open spec fn is_break(c: char) -> bool {
    c == '\r' || c == '\n' || c == ' '
}

proof fn lemma_encode_printable(x: Seq<u8>)
    ensures
        forall|i: int| 0 <= i < base64_encode_spec(x).len() ==> '!' <= #[trigger] base64_encode_spec(x)[i] <= '~',
    decreases x.len(),
{
    if x.len() > 0 {
        let g = if x.len() <= 3 { x } else { x.take(3) };
        let b0 = g[0];
        let b1: u8 = if g.len() > 1 { g[1] } else { 0 };
        let b2: u8 = if g.len() > 2 { g[2] } else { 0 };
        let n0 = b0 >> 2u8;
        let n1 = ((b0 & 0x03u8) << 4u8) | (b1 >> 4u8);
        let n2 = ((b1 & 0x0Fu8) << 2u8) | (b2 >> 6u8);
        let n3 = b2 & 0x3Fu8;
        assert(n0 < 64 && n1 < 64 && n2 < 64 && n3 < 64) by (bit_vector)
            requires
                n0 == b0 >> 2u8,
                n1 == ((b0 & 0x03u8) << 4u8) | (b1 >> 4u8),
                n2 == ((b1 & 0x0Fu8) << 2u8) | (b2 >> 6u8),
                n3 == b2 & 0x3Fu8,
        ;
        lemma_char_value(n0);
        lemma_char_value(n1);
        lemma_char_value(n2);
        lemma_char_value(n3);
        let e = encode_group(g);
        assert(forall|i: int| 0 <= i < 4 ==> '!' <= #[trigger] e[i] <= '~');
        if x.len() > 3 {
            lemma_encode_printable(x.skip(3));
            let r = base64_encode_spec(x.skip(3));
            assert(base64_encode_spec(x) == e + r);
            assert forall|i: int| 0 <= i < base64_encode_spec(x).len() implies '!'
                <= #[trigger] base64_encode_spec(x)[i] <= '~' by {
                if i < 4 {
                    assert(base64_encode_spec(x)[i] == e[i]);
                } else {
                    assert(base64_encode_spec(x)[i] == r[i - 4]);
                }
            }
        }
    }
}

proof fn lemma_strip_none(t: Seq<char>)
    requires
        forall|i: int| 0 <= i < t.len() ==> !is_break(#[trigger] t[i]),
    ensures
        strip_breaks(t) == t,
    decreases t.len(),
{
    if t.len() > 0 {
        lemma_strip_none(t.drop_last());
        assert(t.drop_last().push(t.last()) =~= t);
    }
}

proof fn lemma_strip_all(t: Seq<char>)
    requires
        forall|i: int| 0 <= i < t.len() ==> is_break(#[trigger] t[i]),
    ensures
        strip_breaks(t) == Seq::<char>::empty(),
    decreases t.len(),
{
    if t.len() > 0 {
        lemma_strip_all(t.drop_last());
    }
}

proof fn lemma_strip_concat(a: Seq<char>, b: Seq<char>)
    ensures
        strip_breaks(a + b) == strip_breaks(a) + strip_breaks(b),
    decreases b.len(),
{
    if b.len() == 0 {
        assert(a + b =~= a);
        assert(strip_breaks(a) + strip_breaks(b) =~= strip_breaks(a));
    } else {
        lemma_strip_concat(a, b.drop_last());
        assert((a + b).drop_last() =~= a + b.drop_last());
        assert((a + b).last() == b.last());
        assert(strip_breaks(a) + strip_breaks(b.drop_last()).push(b.last()) =~= (strip_breaks(a)
            + strip_breaks(b.drop_last())).push(b.last()));
    }
}

proof fn lemma_strip_keeps(t: Seq<char>, i: int)
    requires
        0 <= i < t.len(),
        !is_break(t[i]),
    ensures
        strip_breaks(t).contains(t[i]),
    decreases t.len(),
{
    if i < t.len() - 1 {
        lemma_strip_keeps(t.drop_last(), i);
        let r = strip_breaks(t.drop_last());
        let j = choose|j: int| 0 <= j < r.len() && r[j] == t[i];
        if !is_break(t.last()) {
            assert(strip_breaks(t)[j] == r[j]);
        }
    } else {
        assert(strip_breaks(t).last() == t[i]);
    }
}

proof fn lemma_trim_front_skip(t: Seq<char>) -> (k: int)
    ensures
        0 <= k <= t.len(),
        trim_front(t) == t.skip(k),
        forall|i: int| 0 <= i < k ==> unicode_whitespace(#[trigger] t[i]),
    decreases t.len(),
{
    if t.len() > 0 && unicode_whitespace(t[0]) {
        let k0 = lemma_trim_front_skip(t.drop_first());
        assert(t.drop_first().skip(k0) =~= t.skip(k0 + 1));
        assert forall|i: int| 0 <= i < k0 + 1 implies unicode_whitespace(#[trigger] t[i]) by {
            if i > 0 {
                assert(t[i] == t.drop_first()[i - 1]);
            }
        }
        k0 + 1
    } else {
        assert(t.skip(0) =~= t);
        0
    }
}

proof fn lemma_trim_back_take(t: Seq<char>) -> (k: int)
    ensures
        0 <= k <= t.len(),
        trim_back(t) == t.take(k),
        forall|i: int| k <= i < t.len() ==> unicode_whitespace(#[trigger] t[i]),
    decreases t.len(),
{
    if t.len() > 0 && unicode_whitespace(t.last()) {
        let k0 = lemma_trim_back_take(t.drop_last());
        assert(t.drop_last().take(k0) =~= t.take(k0));
        assert forall|i: int| k0 <= i < t.len() implies unicode_whitespace(#[trigger] t[i]) by {
            if i < t.len() - 1 {
                assert(t[i] == t.drop_last()[i]);
            }
        }
        k0
    } else {
        assert(t.take(t.len() as int) =~= t);
        t.len() as int
    }
}

/// The public decoder gives back the bytes of any Base64 text of them into which line breaks
/// and spaces were put anywhere: every text whose characters, without `\r`, `\n` and spaces,
/// are the encoding of the bytes (the encoding itself among them).
pub proof fn lemma_base64_decode_with_breaks(x: Seq<u8>, t: Seq<char>)
    requires
        strip_breaks(t) == base64_encode_spec(x),
    ensures
        base64_decode_spec(t) == Ok::<Seq<u8>, Seq<char>>(x),
{
    let e = base64_encode_spec(x);
    lemma_encode_printable(x);
    assert forall|i: int| 0 <= i < t.len() && unicode_whitespace(t[i]) implies is_break(
        #[trigger] t[i],
    ) by {
        if !is_break(t[i]) {
            lemma_strip_keeps(t, i);
            let j = choose|j: int| 0 <= j < e.len() && e[j] == t[i];
            assert('!' <= e[j] <= '~');
        }
    }
    let k1 = lemma_trim_front_skip(t);
    let f = t.skip(k1);
    let k2 = lemma_trim_back_take(f);
    let m = f.take(k2);
    assert(trim_spec(t) == m);
    let pre = t.take(k1);
    let post = f.skip(k2);
    assert(t =~= pre + (m + post));
    assert forall|i: int| 0 <= i < pre.len() implies is_break(#[trigger] pre[i]) by {
        assert(pre[i] == t[i]);
    }
    assert forall|i: int| 0 <= i < post.len() implies is_break(#[trigger] post[i]) by {
        assert(post[i] == f[k2 + i]);
        assert(f[k2 + i] == t[k1 + k2 + i]);
    }
    lemma_strip_all(pre);
    lemma_strip_all(post);
    lemma_strip_concat(pre, m + post);
    lemma_strip_concat(m, post);
    assert(strip_breaks(m) =~= e);
    assert forall|i: int| 0 <= i < e.len() implies !is_break(#[trigger] e[i]) by {
        assert('!' <= e[i] <= '~');
    }
    lemma_strip_none(e);
    assert(is_ascii_chars(e));
    is_ascii_chars_encode_utf8(e);
    assert(encode_utf8(e) =~= ascii_bytes(e));
    lemma_base64_roundtrip(x);
}

/// Decoding the Base64 text of some bytes with the public decoder gives the bytes back.
pub proof fn lemma_base64_decode_encode(x: Seq<u8>)
    ensures
        base64_decode_spec(base64_encode_spec(x)) == Ok::<Seq<u8>, Seq<char>>(x),
{
    let e = base64_encode_spec(x);
    lemma_encode_printable(x);
    assert forall|i: int| 0 <= i < e.len() implies !is_break(#[trigger] e[i]) by {
        assert('!' <= e[i] <= '~');
    }
    lemma_strip_none(e);
    lemma_base64_decode_with_breaks(x, e);
}

} // verus!
