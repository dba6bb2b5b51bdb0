//! The text functions of the `Strings` module: splitting, joining, searching, replacing,
//! trimming and case mapping.
use vstd::prelude::*;
use crate::text::{
    chars_of, lowercase, push_str, string_from_range, string_of, to_lowercase, to_uppercase,
    trim_bounds, trim_spec, uppercase,
};

verus! {

/// `p` occurs in `s` at position `i`.
pub open spec fn matches_at(s: Seq<char>, p: Seq<char>, i: int) -> bool {
    0 <= i && i + p.len() <= s.len() && s.subrange(i, i + p.len()) == p
}

/// The first position at or after `i` where `p` occurs in `s`.
pub open spec fn find_from(s: Seq<char>, p: Seq<char>, i: nat) -> Option<nat>
    decreases s.len() + 1 - i,
{
    if i + p.len() > s.len() {
        None
    } else if matches_at(s, p, i as int) {
        Some(i)
    } else {
        find_from(s, p, i + 1)
    }
}

/// A found occurrence lies at or after the starting position and inside the text.
pub proof fn lemma_find_bounds(s: Seq<char>, p: Seq<char>, i: nat)
    ensures
        find_from(s, p, i) matches Some(j) ==> i <= j && j + p.len() <= s.len() && matches_at(s, p, j as int),
    decreases s.len() + 1 - i,
{
    if i + p.len() <= s.len() && !matches_at(s, p, i as int) {
        lemma_find_bounds(s, p, i + 1);
    }
}

/// The pieces of `s` between the occurrences of a non-empty `sep`, searched from the left
/// without overlap, from position `start` on.
pub open spec fn split_from(s: Seq<char>, sep: Seq<char>, start: nat) -> Seq<Seq<char>>
    decreases s.len() - start,
{
    if sep.len() == 0 || start > s.len() {
        seq![]
    } else {
        match find_from(s, sep, start) {
            Some(i) => {
                proof {
                    lemma_find_bounds(s, sep, start);
                }
                seq![s.subrange(start as int, i as int)] + split_from(s, sep, i + sep.len())
            },
            None => seq![s.subrange(start as int, s.len() as int)],
        }
    }
}

/// What `Strings.split` gives: the pieces between the occurrences of `sep`, or each character
/// on its own when `sep` is empty.
pub open spec fn split_spec(s: Seq<char>, sep: Seq<char>) -> Seq<Seq<char>> {
    if sep.len() == 0 {
        Seq::new(s.len(), |i: int| seq![s[i]])
    } else {
        split_from(s, sep, 0)
    }
}

/// The texts joined with `sep` between them.
pub open spec fn join_spec(parts: Seq<Seq<char>>, sep: Seq<char>) -> Seq<char>
    decreases parts.len(),
{
    if parts.len() == 0 {
        Seq::empty()
    } else if parts.len() == 1 {
        parts[0]
    } else {
        join_spec(parts.drop_last(), sep) + sep + parts.last()
    }
}

/// `to` before, between and after the characters of `s`.
pub open spec fn interleave(s: Seq<char>, to: Seq<char>) -> Seq<char>
    decreases s.len(),
{
    if s.len() == 0 {
        to
    } else {
        interleave(s.drop_last(), to) + seq![s.last()] + to
    }
}

/// What `str::replace` gives: each occurrence of `from`, searched from the left without
/// overlap, replaced by `to`; an empty `from` occurs before every character and at the end.
pub open spec fn replace_spec(s: Seq<char>, from: Seq<char>, to: Seq<char>) -> Seq<char> {
    if from.len() == 0 {
        interleave(s, to)
    } else {
        join_spec(split_from(s, from, 0), to)
    }
}

pub open spec fn texts(v: Seq<String>) -> Seq<Seq<char>> {
    v.map_values(|x: String| x@)
}

proof fn lemma_join_cons(a: Seq<char>, rest: Seq<Seq<char>>, sep: Seq<char>)
    requires
        rest.len() > 0,
    ensures
        join_spec(seq![a] + rest, sep) == a + sep + join_spec(rest, sep),
    decreases rest.len(),
{
    let all = seq![a] + rest;
    assert(all.drop_last() =~= seq![a] + rest.drop_last());
    assert(all.last() == rest.last());
    assert(join_spec(all, sep) == join_spec(all.drop_last(), sep) + sep + all.last());
    if rest.len() == 1 {
        assert(seq![a] + rest.drop_last() =~= seq![a]);
        assert(join_spec(seq![a], sep) == seq![a][0]);
        assert(join_spec(rest, sep) == rest[0]);
        assert(rest.last() == rest[0]);
    } else {
        lemma_join_cons(a, rest.drop_last(), sep);
        assert(join_spec(rest, sep) == join_spec(rest.drop_last(), sep) + sep + rest.last());
        assert(a + sep + join_spec(rest.drop_last(), sep) + sep + rest.last() =~= a + sep + (join_spec(
            rest.drop_last(),
            sep,
        ) + sep + rest.last()));
    }
}

proof fn lemma_split_join_from(s: Seq<char>, sep: Seq<char>, start: nat)
    requires
        sep.len() > 0,
        start <= s.len(),
    ensures
        join_spec(split_from(s, sep, start), sep) == s.subrange(start as int, s.len() as int),
    decreases s.len() - start,
{
    lemma_find_bounds(s, sep, start);
    match find_from(s, sep, start) {
        Some(i) => {
            let next = i + sep.len();
            lemma_split_join_from(s, sep, next);
            let rest = split_from(s, sep, next);
            lemma_find_bounds(s, sep, next);
            assert(rest.len() > 0);
            lemma_join_cons(s.subrange(start as int, i as int), rest, sep);
            assert(s.subrange(i as int, next as int) == sep);
            assert(s.subrange(start as int, i as int) + sep + s.subrange(next as int, s.len() as int)
                =~= s.subrange(start as int, s.len() as int));
        },
        None => {},
    }
}

/// Joining the pieces of a split with the separator gives the text back, and so replacing a
/// non-empty text by itself changes nothing.
pub proof fn lemma_split_join(s: Seq<char>, sep: Seq<char>)
    requires
        sep.len() > 0,
    ensures
        join_spec(split_spec(s, sep), sep) == s,
        replace_spec(s, sep, sep) == s,
{
    lemma_split_join_from(s, sep, 0);
    assert(s.subrange(0, s.len() as int) =~= s);
}

/// Whether `p` occurs in `s` at `i`.
fn matches_at_exec(s: &Vec<char>, p: &Vec<char>, i: usize) -> (r: bool)
    requires
        i + p.len() <= s.len(),
    ensures
        r == matches_at(s@, p@, i as int),
{
    let mut k: usize = 0;
    while k < p.len()
        invariant
            k <= p.len(),
            i + p.len() <= s.len(),
            forall|j: int| 0 <= j < k ==> s@[i + j] == p@[j],
        decreases p.len() - k,
    {
        if s[i + k] != p[k] {
            assert(s@.subrange(i as int, i + p.len())[k as int] != p@[k as int]);
            return false;
        }
        k = k + 1;
    }
    assert(s@.subrange(i as int, i + p.len()) =~= p@);
    true
}

/// The first position at or after `i` where `p` occurs in `s`.
fn find_from_exec(s: &Vec<char>, p: &Vec<char>, i: usize) -> (r: Option<usize>)
    ensures
        match find_from(s@, p@, i as nat) {
            Some(j) => r == Some(j as usize),
            None => r is None,
        },
{
    if p.len() == 0 {
        if i <= s.len() {
            assert(s@.subrange(i as int, i as int) =~= p@);
            return Some(i);
        }
        return None;
    }
    let mut j: usize = i;
    while j <= s.len() && p.len() <= s.len() - j
        invariant
            i <= j,
            p@.len() > 0,
            find_from(s@, p@, i as nat) == find_from(s@, p@, j as nat),
        decreases s.len() + 1 - j,
    {
        if matches_at_exec(s, p, j) {
            return Some(j);
        }
        j = j + 1;
    }
    None
}

/// Splits `s` at each occurrence of `sep`, or into its characters when `sep` is empty.
pub fn strings_split(s: &str, sep: &str) -> (r: Vec<String>)
    ensures
        texts(r@) == split_spec(s@, sep@),
{
    let cs = chars_of(s);
    let ps = chars_of(sep);
    let mut out: Vec<String> = Vec::new();
    if ps.len() == 0 {
        let mut i: usize = 0;
        while i < cs.len()
            invariant
                i <= cs.len(),
                texts(out@) == Seq::new(i as nat, |k: int| seq![cs@[k]]),
            decreases cs.len() - i,
        {
            let ghost before = texts(out@);
            let one = string_from_range(&cs, i, i + 1);
            out.push(one);
            proof {
                assert(cs@.subrange(i as int, i + 1) =~= seq![cs@[i as int]]);
                assert(texts(out@) =~= before.push(one@));
                assert(Seq::new((i + 1) as nat, |k: int| seq![cs@[k]]) =~= Seq::new(i as nat, |k: int| seq![cs@[k]]).push(seq![cs@[i as int]]));
            }
            i = i + 1;
        }
        assert(split_spec(s@, sep@) =~= Seq::new(cs@.len(), |k: int| seq![cs@[k]]));
        return out;
    }
    let mut pos: usize = 0;
    assert(texts(out@) + split_from(cs@, ps@, 0) =~= split_from(cs@, ps@, 0));
    loop
        invariant
            pos <= cs.len(),
            ps@.len() > 0,
            cs@ == s@,
            ps@ == sep@,
            texts(out@) + split_from(cs@, ps@, pos as nat) == split_from(cs@, ps@, 0),
        decreases cs.len() - pos,
    {
        proof {
            lemma_find_bounds(cs@, ps@, pos as nat);
        }
        match find_from_exec(&cs, &ps, pos) {
            Some(i) => {
                let piece = string_from_range(&cs, pos, i);
                let ghost before = texts(out@);
                out.push(piece);
                proof {
                    assert(texts(out@) =~= before.push(piece@));
                    assert(before.push(piece@) + split_from(cs@, ps@, (i + ps@.len()) as nat)
                        =~= before + (seq![piece@] + split_from(cs@, ps@, (i + ps@.len()) as nat)));
                }
                pos = i + ps.len();
            },
            None => {
                let piece = string_from_range(&cs, pos, cs.len());
                let ghost before = texts(out@);
                out.push(piece);
                proof {
                    assert(texts(out@) =~= before.push(piece@));
                    assert(before.push(piece@) =~= before + seq![piece@]);
                    assert(split_from(cs@, ps@, pos as nat) == seq![cs@.subrange(pos as int, cs@.len() as int)]);
                    assert(split_spec(s@, sep@) == split_from(cs@, ps@, 0));
                }
                return out;
            },
        }
    }
}

/// Joins the texts with `sep` between them.
pub fn strings_join(parts: &Vec<String>, sep: &str) -> (r: String)
    ensures
        r@ == join_spec(texts(parts@), sep@),
{
    let mut out = string_of("");
    proof {
        reveal_strlit("");
    }
    let mut i: usize = 0;
    while i < parts.len()
        invariant
            i <= parts.len(),
            out@ == join_spec(texts(parts@).take(i as int), sep@),
        decreases parts.len() - i,
    {
        let ghost t = texts(parts@);
        if i > 0 {
            push_str(&mut out, sep);
        }
        push_str(&mut out, parts[i].as_str());
        proof {
            assert(t.take(i + 1).drop_last() =~= t.take(i as int));
            if i == 0 {
                assert(t.take(1)[0] == parts@[0]@);
                assert(out@ =~= t.take(1)[0]);
            } else {
                assert(t.take(i + 1).last() == parts@[i as int]@);
            }
        }
        i = i + 1;
    }
    assert(texts(parts@).take(parts@.len() as int) =~= texts(parts@));
    out
}

/// Whether `sub` occurs in `s`.
pub fn strings_contains(s: &str, sub: &str) -> (r: bool)
    ensures
        r == find_from(s@, sub@, 0) is Some,
{
    let cs = chars_of(s);
    let ps = chars_of(sub);
    find_from_exec(&cs, &ps, 0).is_some()
}

/// Whether `s` begins with `prefix`.
pub fn strings_starts_with(s: &str, prefix: &str) -> (r: bool)
    ensures
        r == (prefix@.len() <= s@.len() && s@.subrange(0, prefix@.len() as int) == prefix@),
{
    let cs = chars_of(s);
    let ps = chars_of(prefix);
    ps.len() <= cs.len() && matches_at_exec(&cs, &ps, 0)
}

/// Whether `s` ends with `suffix`.
pub fn strings_ends_with(s: &str, suffix: &str) -> (r: bool)
    ensures
        r == (suffix@.len() <= s@.len() && s@.subrange(s@.len() - suffix@.len(), s@.len() as int)
            == suffix@),
{
    let cs = chars_of(s);
    let ps = chars_of(suffix);
    ps.len() <= cs.len() && matches_at_exec(&cs, &ps, cs.len() - ps.len())
}

/// Replaces each occurrence of `from` by `to`.
pub fn strings_replace(s: &str, from: &str, to: &str) -> (r: String)
    ensures
        r@ == replace_spec(s@, from@, to@),
{
    if from.unicode_len() == 0 {
        let cs = chars_of(s);
        let mut out = string_of(to);
        let mut i: usize = 0;
        assert(cs@.take(0) =~= Seq::<char>::empty());
        while i < cs.len()
            invariant
                i <= cs.len(),
                out@ == interleave(cs@.take(i as int), to@),
            decreases cs.len() - i,
        {
            let one = string_from_range(&cs, i, i + 1);
            push_str(&mut out, one.as_str());
            push_str(&mut out, to);
            proof {
                assert(cs@.take(i + 1).drop_last() =~= cs@.take(i as int));
                assert(cs@.subrange(i as int, i + 1) =~= seq![cs@.take(i + 1).last()]);
            }
            i = i + 1;
        }
        assert(cs@.take(cs@.len() as int) =~= cs@);
        out
    } else {
        let pieces = strings_split(s, from);
        strings_join(&pieces, to)
    }
}

/// The text without leading and trailing whitespace.
pub fn strings_trim(s: &str) -> (r: String)
    ensures
        r@ == trim_spec(s@),
{
    let cs = chars_of(s);
    let (lo, hi) = trim_bounds(&cs);
    string_from_range(&cs, lo, hi)
}

/// The text in upper case.
pub fn strings_upper(s: &str) -> (r: String)
    ensures
        r@ == uppercase(s@),
{
    to_uppercase(s)
}

/// The text in lower case.
pub fn strings_lower(s: &str) -> (r: String)
    ensures
        r@ == lowercase(s@),
{
    to_lowercase(s)
}

} // verus!
