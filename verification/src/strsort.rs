//! Ordering and sorting of strings, as `Ord` on `String` orders them.
use vstd::prelude::*;
use crate::text::chars_of;

verus! {

/// Lexicographic order on characters. Comparing UTF-8 bytes, as `String`'s `Ord` does,
/// orders text the same way, since UTF-8 keeps the order of code points.
pub open spec fn lex_lt(a: Seq<char>, b: Seq<char>) -> bool
    decreases a.len(),
{
    if a.len() == 0 {
        b.len() > 0
    } else if b.len() == 0 {
        false
    } else if a[0] != b[0] {
        (a[0] as int) < (b[0] as int)
    } else {
        lex_lt(a.drop_first(), b.drop_first())
    }
}

pub proof fn lemma_lex_irreflexive(a: Seq<char>)
    ensures
        !lex_lt(a, a),
    decreases a.len(),
{
    if a.len() > 0 {
        lemma_lex_irreflexive(a.drop_first());
    }
}

pub proof fn lemma_lex_total(a: Seq<char>, b: Seq<char>)
    ensures
        a == b || lex_lt(a, b) || lex_lt(b, a),
    decreases a.len(),
{
    if a.len() > 0 && b.len() > 0 && a[0] == b[0] {
        lemma_lex_total(a.drop_first(), b.drop_first());
        if a.drop_first() == b.drop_first() {
            assert forall|i: int| 0 <= i < a.len() implies a[i] == b[i] by {
                if i > 0 {
                    assert(a[i] == a.drop_first()[i - 1]);
                    assert(b[i] == b.drop_first()[i - 1]);
                }
            }
            assert(a =~= b);
        }
    }
    if a.len() == 0 && b.len() == 0 {
        assert(a =~= b);
    } else if a.len() == 0 {
        assert(lex_lt(a, b));
    } else if b.len() == 0 {
        assert(lex_lt(b, a));
    } else if a[0] != b[0] {
        assert((a[0] as int) != (b[0] as int));
        assert(lex_lt(a, b) || lex_lt(b, a));
    }
}

pub proof fn lemma_lex_asymmetric(a: Seq<char>, b: Seq<char>)
    ensures
        !(lex_lt(a, b) && lex_lt(b, a)),
    decreases a.len(),
{
    if a.len() > 0 && b.len() > 0 && a[0] == b[0] {
        lemma_lex_asymmetric(a.drop_first(), b.drop_first());
    }
}

pub proof fn lemma_lex_transitive(a: Seq<char>, b: Seq<char>, c: Seq<char>)
    requires
        lex_lt(a, b),
        lex_lt(b, c),
    ensures
        lex_lt(a, c),
    decreases a.len(),
{
    if a.len() > 0 && b.len() > 0 && c.len() > 0 && a[0] == b[0] && b[0] == c[0] {
        lemma_lex_transitive(a.drop_first(), b.drop_first(), c.drop_first());
    }
}

/// Whether `a` comes before `b`.
pub fn string_lt(a: &String, b: &String) -> (r: bool)
    ensures
        r == lex_lt(a@, b@),
{
    let x = chars_of(a.as_str());
    let y = chars_of(b.as_str());
    let mut i: usize = 0;
    assert(x@.skip(0) =~= x@);
    assert(y@.skip(0) =~= y@);
    while i < x.len() && i < y.len() && x[i] == y[i]
        invariant
            i <= x@.len(),
            i <= y@.len(),
            x@.take(i as int) == y@.take(i as int),
            lex_lt(x@, y@) == lex_lt(x@.skip(i as int), y@.skip(i as int)),
        decreases x@.len() - i,
    {
        assert(x@.skip(i as int).drop_first() =~= x@.skip(i + 1));
        assert(y@.skip(i as int).drop_first() =~= y@.skip(i + 1));
        assert(x@.take(i + 1) =~= x@.take(i as int).push(x@[i as int]));
        assert(y@.take(i + 1) =~= y@.take(i as int).push(y@[i as int]));
        i = i + 1;
    }
    if i == x.len() {
        i < y.len()
    } else if i == y.len() {
        false
    } else {
        x[i] < y[i]
    }
}

/// Strictly increasing.
pub open spec fn sorted_strict(s: Seq<Seq<char>>) -> bool {
    forall|i: int, j: int| 0 <= i < j < s.len() ==> lex_lt(#[trigger] s[i], #[trigger] s[j])
}

pub open spec fn string_views(s: Seq<String>) -> Seq<Seq<char>> {
    s.map_values(|x: String| x@)
}

/// Sorts distinct strings in increasing order.
pub fn sort_strings(v: Vec<String>) -> (r: Vec<String>)
    requires
        forall|i: int, j: int| 0 <= i < j < v@.len() ==> #[trigger] v@[i]@ != #[trigger] v@[j]@,
    ensures
        sorted_strict(string_views(r@)),
        r@.len() == v@.len(),
        forall|x: Seq<char>| string_views(r@).contains(x) <==> string_views(v@).contains(x),
{
    let mut out: Vec<String> = Vec::new();
    let mut k: usize = 0;
    while k < v.len()
        invariant
            k <= v@.len(),
            out@.len() == k,
            forall|i: int, j: int| 0 <= i < j < v@.len() ==> #[trigger] v@[i]@ != #[trigger] v@[j]@,
            sorted_strict(string_views(out@)),
            forall|x: Seq<char>| string_views(out@).contains(x) <==> string_views(v@.take(k as int)).contains(x),
        decreases v@.len() - k,
    {
        let x = v[k].clone();
        let ghost xs = x@;
        let ghost before = string_views(out@);
        assert(!before.contains(xs)) by {
            if before.contains(xs) {
                let p = choose|p: int| 0 <= p < before.len() && before[p] == xs;
                assert(string_views(v@.take(k as int)).contains(xs));
                let q = choose|q: int| 0 <= q < k && string_views(v@.take(k as int))[q] == xs;
                assert(v@[q]@ == v@[k as int]@);
            }
        }
        let mut p: usize = 0;
        loop
            invariant
                p <= out@.len(),
                before == string_views(out@),
                forall|i: int| 0 <= i < p ==> lex_lt(#[trigger] before[i], xs),
                !before.contains(xs),
                xs == x@,
            ensures
                p <= out@.len(),
                forall|i: int| 0 <= i < p ==> lex_lt(#[trigger] before[i], xs),
                p < out@.len() ==> lex_lt(xs, before[p as int]),
            decreases out@.len() - p,
        {
            if p >= out.len() {
                break;
            }
            let lt = string_lt(&x, &out[p]);
            assert(before[p as int] == out@[p as int]@);
            if lt {
                break;
            }
            proof {
                lemma_lex_total(xs, before[p as int]);
                assert(before.contains(before[p as int]));
            }
            p = p + 1;
        }
        out.insert(p, x);
        let ghost after = string_views(out@);
        assert(after =~= before.insert(p as int, xs));
        proof {
            assert forall|i: int, j: int| 0 <= i < j < after.len() implies lex_lt(#[trigger] after[i], #[trigger] after[j]) by {
                if j < p {
                    assert(after[i] == before[i] && after[j] == before[j]);
                } else if j == p {
                    assert(after[i] == before[i]);
                } else if i < p {
                    assert(after[i] == before[i] && after[j] == before[j - 1]);
                    assert(lex_lt(xs, before[p as int]));
                    if j - 1 > p {
                        assert(lex_lt(before[p as int], before[j - 1]));
                        lemma_lex_transitive(xs, before[p as int], before[j - 1]);
                    }
                    lemma_lex_transitive(before[i], xs, before[j - 1]);
                } else if i == p {
                    assert(after[j] == before[j - 1]);
                    assert(lex_lt(xs, before[p as int]));
                    if j - 1 > p {
                        assert(lex_lt(before[p as int], before[j - 1]));
                        lemma_lex_transitive(xs, before[p as int], before[j - 1]);
                    }
                } else {
                    assert(after[i] == before[i - 1] && after[j] == before[j - 1]);
                }
            }
            let tk = string_views(v@.take(k + 1));
            assert(tk =~= string_views(v@.take(k as int)).push(xs));
            assert forall|y: Seq<char>| after.contains(y) <==> tk.contains(y) by {
                if after.contains(y) {
                    let i = choose|i: int| 0 <= i < after.len() && after[i] == y;
                    if i < p {
                        assert(before[i] == y && before.contains(y));
                    } else if i > p {
                        assert(before[i - 1] == y && before.contains(y));
                    }
                    if y != xs {
                        let q = choose|q: int| 0 <= q < k && string_views(v@.take(k as int))[q] == y;
                        assert(tk[q] == y);
                    } else {
                        assert(tk[k as int] == y);
                    }
                }
                if tk.contains(y) {
                    let q = choose|q: int| 0 <= q < tk.len() && tk[q] == y;
                    if q < k {
                        assert(string_views(v@.take(k as int))[q] == y);
                        assert(string_views(v@.take(k as int)).contains(y));
                        assert(before.contains(y));
                        let i = choose|i: int| 0 <= i < before.len() && before[i] == y;
                        if i < p {
                            assert(after[i] == y);
                        } else {
                            assert(after[i + 1] == y);
                        }
                    } else {
                        assert(after[p as int] == y);
                    }
                }
            }
        }
        k = k + 1;
    }
    assert(v@.take(v@.len() as int) =~= v@);
    out
}

} // verus!
