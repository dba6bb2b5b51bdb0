//! How data frame rows are matched by key: the row pairs of a join and the row groups of a
//! group-by. Keys are the texts of the key column's cells.
use vstd::prelude::*;
use crate::dataframe::string_cells;
use crate::text::{lowercase, to_lowercase};

verus! {

/// The rows among the first `n` whose key is `key`, in order.
pub open spec fn key_hits(key: Seq<char>, keys: Seq<Seq<char>>, n: int) -> Seq<usize>
    decreases n,
{
    if n <= 0 {
        Seq::empty()
    } else if keys[n - 1] == key {
        key_hits(key, keys, n - 1).push((n - 1) as usize)
    } else {
        key_hits(key, keys, n - 1)
    }
}

/// The pairs that left row `i` contributes to a join: one with each right row of the same key;
/// or, when there is none and unmatched rows are kept, one with no right row.
pub open spec fn row_pairs(i: int, hits: Seq<usize>, keep: bool) -> Seq<(usize, Option<usize>)> {
    if hits.len() > 0 {
        Seq::new(hits.len(), |k: int| (i as usize, Some(hits[k])))
    } else if keep {
        seq![(i as usize, None::<usize>)]
    } else {
        Seq::empty()
    }
}

/// The pairs of the first `n` left rows, left row by left row.
pub open spec fn join_pairs(
    left: Seq<Seq<char>>,
    right: Seq<Seq<char>>,
    keep: bool,
    n: int,
) -> Seq<(usize, Option<usize>)>
    decreases n,
{
    if n <= 0 {
        Seq::empty()
    } else {
        join_pairs(left, right, keep, n - 1) + row_pairs(n - 1, key_hits(left[n - 1], right, right.len() as int), keep)
    }
}

/// The distinct keys among the first `n` rows, in the order they first appear.
pub open spec fn first_keys(keys: Seq<Seq<char>>, n: int) -> Seq<Seq<char>>
    decreases n,
{
    if n <= 0 {
        Seq::empty()
    } else if first_keys(keys, n - 1).contains(keys[n - 1]) {
        first_keys(keys, n - 1)
    } else {
        first_keys(keys, n - 1).push(keys[n - 1])
    }
}

proof fn lemma_key_hits(key: Seq<char>, keys: Seq<Seq<char>>, n: int)
    requires
        0 <= n <= keys.len(),
        keys.len() <= usize::MAX,
    ensures
        forall|k: int| 0 <= k < key_hits(key, keys, n).len() ==> {
            &&& #[trigger] key_hits(key, keys, n)[k] < n
            &&& keys[key_hits(key, keys, n)[k] as int] == key
        },
        (forall|j: int| 0 <= j < n ==> keys[j] != key) ==> key_hits(key, keys, n).len() == 0,
    decreases n,
{
    if n > 0 {
        lemma_key_hits(key, keys, n - 1);
        let prev = key_hits(key, keys, n - 1);
        let cur = key_hits(key, keys, n);
        assert forall|k: int| 0 <= k < cur.len() implies {
            &&& #[trigger] cur[k] < n
            &&& keys[cur[k] as int] == key
        } by {
            if k < prev.len() {
                assert(cur[k] == prev[k]);
            }
        }
    }
}

/// The keys of the groups are the keys that occur among the rows, each of them once.
pub proof fn lemma_first_keys(keys: Seq<Seq<char>>, n: int)
    requires
        0 <= n <= keys.len(),
    ensures
        forall|x: Seq<char>|
            first_keys(keys, n).contains(x) <==> exists|j: int| 0 <= j < n && #[trigger] keys[j] == x,
        forall|a: int, b: int|
            0 <= a < b < first_keys(keys, n).len() ==> first_keys(keys, n)[a] != first_keys(
                keys,
                n,
            )[b],
    decreases n,
{
    if n > 0 {
        lemma_first_keys(keys, n - 1);
        let p = first_keys(keys, n - 1);
        assert forall|x: Seq<char>|
            first_keys(keys, n).contains(x) <==> exists|j: int| 0 <= j < n && #[trigger] keys[j] == x by {
            if first_keys(keys, n).contains(x) {
                if p.contains(x) {
                    let j = choose|j: int| 0 <= j < n - 1 && #[trigger] keys[j] == x;
                    assert(0 <= j < n && keys[j] == x);
                } else {
                    let q = first_keys(keys, n);
                    let t = choose|t: int| 0 <= t < q.len() && q[t] == x;
                    if t < p.len() {
                        assert(p[t] == x);
                    }
                    assert(keys[n - 1] == x);
                }
            }
            if exists|j: int| 0 <= j < n && #[trigger] keys[j] == x {
                let j = choose|j: int| 0 <= j < n && #[trigger] keys[j] == x;
                if j < n - 1 {
                    assert(p.contains(x));
                    if !p.contains(keys[n - 1]) {
                        let t = choose|t: int| 0 <= t < p.len() && p[t] == x;
                        assert(first_keys(keys, n)[t] == x);
                    }
                } else {
                    if !p.contains(keys[n - 1]) {
                        assert(first_keys(keys, n)[p.len() as int] == x);
                    }
                }
            }
        }
    }
}

/// The pairs of a join on key texts: for each left row in order, a pair with each right row of
/// the same key, in order; a left row without any gets a pair with no right row when
/// `keep_unmatched` holds, and no pair otherwise.
pub fn join_rows(left_keys: &Vec<String>, right_keys: &Vec<String>, keep_unmatched: bool) -> (r: Vec<
    (usize, Option<usize>),
>)
    ensures
        r@ == join_pairs(
            string_cells(left_keys@),
            string_cells(right_keys@),
            keep_unmatched,
            left_keys@.len() as int,
        ),
{
    let ghost lk = string_cells(left_keys@);
    let ghost rk = string_cells(right_keys@);
    let mut r: Vec<(usize, Option<usize>)> = Vec::new();
    let mut i: usize = 0;
    while i < left_keys.len()
        invariant
            i <= left_keys@.len(),
            lk == string_cells(left_keys@),
            rk == string_cells(right_keys@),
            r@ == join_pairs(lk, rk, keep_unmatched, i as int),
        decreases left_keys@.len() - i,
    {
        let ghost before = r@;
        let mut found = false;
        let mut j: usize = 0;
        while j < right_keys.len()
            invariant
                i < left_keys@.len(),
                j <= right_keys@.len(),
                lk == string_cells(left_keys@),
                rk == string_cells(right_keys@),
                r@ == before + Seq::new(
                    key_hits(lk[i as int], rk, j as int).len(),
                    |k: int| (i, Some(key_hits(lk[i as int], rk, j as int)[k])),
                ),
                found == (key_hits(lk[i as int], rk, j as int).len() > 0),
            decreases right_keys@.len() - j,
        {
            if right_keys[j] == left_keys[i] {
                r.push((i, Some(j)));
                found = true;
                assert(r@ =~= before + Seq::new(
                    key_hits(lk[i as int], rk, j + 1).len(),
                    |k: int| (i, Some(key_hits(lk[i as int], rk, j + 1)[k])),
                ));
            } else {
                assert(key_hits(lk[i as int], rk, j + 1) == key_hits(lk[i as int], rk, j as int));
            }
            j = j + 1;
        }
        if !found && keep_unmatched {
            r.push((i, None));
        }
        proof {
            let hits = key_hits(lk[i as int], rk, rk.len() as int);
            assert(rk.len() == right_keys@.len());
            assert(r@ =~= join_pairs(lk, rk, keep_unmatched, i as int) + row_pairs(
                i as int,
                hits,
                keep_unmatched,
            ));
        }
        i = i + 1;
    }
    r
}

/// Whether a join of kind `how` keeps left rows without a match: for `left` and `outer`,
/// compared after lower-casing.
pub fn join_keeps_unmatched(how: &str) -> (r: bool)
    ensures
        r == (lowercase(how@) == "left"@ || lowercase(how@) == "outer"@),
{
    let h = to_lowercase(how);
    let left = String::from_str("left");
    let outer = String::from_str("outer");
    h == left || h == outer
}

/// Every pair of a join matches rows of equal keys, and names a left row that exists.
pub proof fn lemma_join_pairs_match(left: Seq<Seq<char>>, right: Seq<Seq<char>>, keep: bool, n: int)
    requires
        0 <= n <= left.len(),
        left.len() <= usize::MAX,
        right.len() <= usize::MAX,
    ensures
        forall|p: int|
            0 <= p < join_pairs(left, right, keep, n).len() ==> {
                let pair = #[trigger] join_pairs(left, right, keep, n)[p];
                &&& pair.0 < n
                &&& pair.1 matches Some(j) ==> j < right.len() && right[j as int] == left[pair.0 as int]
            },
    decreases n,
{
    if n > 0 {
        lemma_join_pairs_match(left, right, keep, n - 1);
        lemma_key_hits(left[n - 1], right, right.len() as int);
        let prev = join_pairs(left, right, keep, n - 1);
        let add = row_pairs(n - 1, key_hits(left[n - 1], right, right.len() as int), keep);
        assert forall|p: int| 0 <= p < join_pairs(left, right, keep, n).len() implies {
            let pair = #[trigger] join_pairs(left, right, keep, n)[p];
            &&& pair.0 < n
            &&& pair.1 matches Some(j) ==> j < right.len() && right[j as int] == left[pair.0 as int]
        } by {
            if p < prev.len() {
                assert(join_pairs(left, right, keep, n)[p] == prev[p]);
            } else {
                assert(join_pairs(left, right, keep, n)[p] == add[p - prev.len()]);
                let hits = key_hits(left[n - 1], right, right.len() as int);
                if hits.len() > 0 {
                    assert(add[p - prev.len()] == (((n - 1) as usize), Some(hits[p - prev.len()])));
                }
            }
        }
    }
}

/// When unmatched rows are kept, every left row appears in at least one pair.
pub proof fn lemma_join_keeps_every_left_row(left: Seq<Seq<char>>, right: Seq<Seq<char>>, n: int, i: int)
    requires
        0 <= i < n <= left.len(),
        left.len() <= usize::MAX,
    ensures
        exists|p: int|
            0 <= p < join_pairs(left, right, true, n).len() && (#[trigger] join_pairs(
                left,
                right,
                true,
                n,
            )[p]).0 == i,
    decreases n,
{
    let prev = join_pairs(left, right, true, n - 1);
    let add = row_pairs(n - 1, key_hits(left[n - 1], right, right.len() as int), true);
    let all = join_pairs(left, right, true, n);
    if i < n - 1 {
        lemma_join_keeps_every_left_row(left, right, n - 1, i);
        let p = choose|p: int| 0 <= p < prev.len() && (#[trigger] prev[p]).0 == i;
        assert(all[p] == prev[p]);
    } else {
        assert(add.len() > 0);
        assert(add[0].0 == i);
        assert(all[prev.len() as int] == add[0]);
    }
}

/// Each row lies in the rows of its own key.
pub proof fn lemma_row_in_its_group(keys: Seq<Seq<char>>, n: int, j: int)
    requires
        0 <= j < n <= keys.len(),
        keys.len() <= usize::MAX,
    ensures
        key_hits(keys[j], keys, n).contains(j as usize),
    decreases n,
{
    let cur = key_hits(keys[j], keys, n);
    if j == n - 1 {
        assert(cur[cur.len() - 1] == j as usize);
    } else {
        lemma_row_in_its_group(keys, n - 1, j);
        let prev = key_hits(keys[j], keys, n - 1);
        let t = choose|t: int| 0 <= t < prev.len() && prev[t] == j as usize;
        assert(cur[t] == prev[t]);
    }
}

/// The groups of rows by key: the distinct keys in the order they first appear, and for each
/// the rows that have it, in order.
pub fn group_rows(keys: &Vec<String>) -> (r: (Vec<String>, Vec<Vec<usize>>))
    ensures
        string_cells(r.0@) == first_keys(string_cells(keys@), keys@.len() as int),
        r.1@.len() == r.0@.len(),
        forall|g: int|
            0 <= g < r.1@.len() ==> (#[trigger] r.1@[g])@ == key_hits(
                r.0@[g]@,
                string_cells(keys@),
                keys@.len() as int,
            ),
{
    let ghost ks = string_cells(keys@);
    let mut names: Vec<String> = Vec::new();
    let mut buckets: Vec<Vec<usize>> = Vec::new();
    let mut i: usize = 0;
    while i < keys.len()
        invariant
            i <= keys@.len(),
            ks == string_cells(keys@),
            string_cells(names@) == first_keys(ks, i as int),
            buckets@.len() == names@.len(),
            forall|g: int|
                0 <= g < buckets@.len() ==> (#[trigger] buckets@[g])@ == key_hits(
                    names@[g]@,
                    ks,
                    i as int,
                ),
        decreases keys@.len() - i,
    {
        proof {
            lemma_first_keys(ks, i as int);
        }
        let mut g: usize = 0;
        let mut at: Option<usize> = None;
        while g < names.len()
            invariant
                g <= names@.len(),
                i < keys@.len(),
                ks == string_cells(keys@),
                at matches Some(a) ==> a < names@.len() && names@[a as int]@ == ks[i as int],
                at is None ==> forall|h: int| 0 <= h < g ==> #[trigger] names@[h]@ != ks[i as int],
            decreases names@.len() - g,
        {
            if at.is_none() && names[g] == keys[i] {
                at = Some(g);
            }
            g = g + 1;
        }
        let ghost old_names = names@;
        let ghost old_buckets = buckets@;
        match at {
            Some(a) => {
                let mut b = buckets.remove(a);
                b.push(i);
                buckets.insert(a, b);
                proof {
                    assert(first_keys(ks, i as int).contains(ks[i as int])) by {
                        assert(string_cells(old_names)[a as int] == ks[i as int]);
                    }
                    assert(first_keys(ks, i + 1) == first_keys(ks, i as int));
                    assert forall|h: int| 0 <= h < buckets@.len() implies (#[trigger] buckets@[h])@
                        == key_hits(names@[h]@, ks, i + 1) by {
                        if h == a {
                            assert(buckets@[h] == b);
                        } else {
                            assert(buckets@[h] == old_buckets[h]);
                            assert(string_cells(old_names)[h] != string_cells(old_names)[a as int]);
                        }
                    }
                }
            },
            None => {
                let key = keys[i].clone();
                names.push(key);
                let mut b: Vec<usize> = Vec::new();
                b.push(i);
                buckets.push(b);
                proof {
                    assert(!first_keys(ks, i as int).contains(ks[i as int])) by {
                        if first_keys(ks, i as int).contains(ks[i as int]) {
                            let t = choose|t: int|
                                0 <= t < first_keys(ks, i as int).len() && first_keys(
                                    ks,
                                    i as int,
                                )[t] == ks[i as int];
                            assert(old_names[t]@ == ks[i as int]);
                        }
                    }
                    assert(string_cells(names@) =~= first_keys(ks, i + 1));
                    lemma_key_hits(ks[i as int], ks, i as int);
                    assert(forall|j: int| 0 <= j < i ==> ks[j] != ks[i as int]) by {
                        assert forall|j: int| 0 <= j < i implies ks[j] != ks[i as int] by {
                            if ks[j] == ks[i as int] {
                                assert(first_keys(ks, i as int).contains(ks[j]));
                            }
                        }
                    }
                    assert(b@ =~= key_hits(ks[i as int], ks, i + 1));
                    assert forall|h: int| 0 <= h < buckets@.len() implies (#[trigger] buckets@[h])@
                        == key_hits(names@[h]@, ks, i + 1) by {
                        if h < old_buckets.len() {
                            assert(buckets@[h] == old_buckets[h]);
                            assert(names@[h] == old_names[h]);
                        }
                    }
                }
            },
        }
        i = i + 1;
    }
    (names, buckets)
}

} // verus!
