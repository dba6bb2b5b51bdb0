//! Column totals and extremes. Integer, boolean and text columns are reduced here; the float
//! reductions are computed by the caller and passed in by their bit patterns.
use vstd::prelude::*;
use crate::dataframe::{ColumnView, TypedColumn};
use crate::strsort::{lemma_lex_asymmetric, lemma_lex_transitive, lex_lt, string_lt};
use crate::value::{Value, ValueView};

verus! {

/// The sum of the first `n` integers.
pub open spec fn int_total(v: Seq<i64>, n: int) -> int
    decreases n,
{
    if n <= 0 {
        0
    } else {
        int_total(v, n - 1) + v[n - 1]
    }
}

/// Every running sum of the integers fits in an `i64`.
pub open spec fn sum_fits(v: Seq<i64>) -> bool {
    forall|k: int| 0 <= k <= v.len() ==> i64::MIN <= #[trigger] int_total(v, k) <= i64::MAX
}

/// The number of `true` among the first `n` booleans.
pub open spec fn true_count(v: Seq<bool>, n: int) -> int
    decreases n,
{
    if n <= 0 {
        0
    } else {
        true_count(v, n - 1) + if v[n - 1] { 1int } else { 0int }
    }
}

/// The least of the first `n` integers (`n >= 1`).
pub open spec fn int_min(v: Seq<i64>, n: int) -> i64
    decreases n,
{
    if n <= 1 {
        v[0]
    } else if v[n - 1] < int_min(v, n - 1) {
        v[n - 1]
    } else {
        int_min(v, n - 1)
    }
}

/// The greatest of the first `n` integers (`n >= 1`).
pub open spec fn int_max(v: Seq<i64>, n: int) -> i64
    decreases n,
{
    if n <= 1 {
        v[0]
    } else if v[n - 1] > int_max(v, n - 1) {
        v[n - 1]
    } else {
        int_max(v, n - 1)
    }
}

/// The first of the first `n` texts in lexicographic order (`n >= 1`).
pub open spec fn text_min(v: Seq<Seq<char>>, n: int) -> Seq<char>
    decreases n,
{
    if n <= 1 {
        v[0]
    } else if lex_lt(v[n - 1], text_min(v, n - 1)) {
        v[n - 1]
    } else {
        text_min(v, n - 1)
    }
}

/// The last of the first `n` texts in lexicographic order (`n >= 1`).
pub open spec fn text_max(v: Seq<Seq<char>>, n: int) -> Seq<char>
    decreases n,
{
    if n <= 1 {
        v[0]
    } else if lex_lt(text_max(v, n - 1), v[n - 1]) {
        v[n - 1]
    } else {
        text_max(v, n - 1)
    }
}

/// A column's sum: integers add up, booleans count their `true` cells, floats give the total
/// computed by the caller; text and vector columns have none.
pub open spec fn column_sum(c: ColumnView, float_total: u64) -> ValueView {
    match c {
        ColumnView::Int(v) => ValueView::Int(int_total(v, v.len() as int) as i64),
        ColumnView::Float(_) => ValueView::Float(float_total),
        ColumnView::Bool(v) => ValueView::Int(true_count(v, v.len() as int) as i64),
        _ => ValueView::Nil,
    }
}

/// A column's least cell: nothing for an empty or a vector column; `false` is below `true`;
/// for floats, the least computed by the caller.
pub open spec fn column_min(c: ColumnView, float_min: u64) -> ValueView {
    if c.len() == 0 {
        ValueView::Nil
    } else {
        match c {
            ColumnView::Int(v) => ValueView::Int(int_min(v, v.len() as int)),
            ColumnView::Float(_) => ValueView::Float(float_min),
            ColumnView::String(v) => ValueView::String(text_min(v, v.len() as int)),
            ColumnView::Bool(v) => ValueView::Bool(forall|i: int| 0 <= i < v.len() ==> v[i]),
            ColumnView::Vector(_) => ValueView::Nil,
        }
    }
}

/// A column's greatest cell: nothing for an empty or a vector column; `true` is above
/// `false`; for floats, the greatest computed by the caller.
pub open spec fn column_max(c: ColumnView, float_max: u64) -> ValueView {
    if c.len() == 0 {
        ValueView::Nil
    } else {
        match c {
            ColumnView::Int(v) => ValueView::Int(int_max(v, v.len() as int)),
            ColumnView::Float(_) => ValueView::Float(float_max),
            ColumnView::String(v) => ValueView::String(text_max(v, v.len() as int)),
            ColumnView::Bool(v) => ValueView::Bool(exists|i: int| 0 <= i < v.len() && v[i]),
            ColumnView::Vector(_) => ValueView::Nil,
        }
    }
}

proof fn lemma_true_count_bounds(v: Seq<bool>, n: int)
    requires
        0 <= n,
    ensures
        0 <= true_count(v, n) <= n,
    decreases n,
{
    if n > 0 {
        lemma_true_count_bounds(v, n - 1);
    }
}

fn sum_ints(v: &Vec<i64>) -> (s: i64)
    requires
        sum_fits(v@),
    ensures
        s == int_total(v@, v@.len() as int),
{
    let mut s: i64 = 0;
    let mut i: usize = 0;
    while i < v.len()
        invariant
            i <= v@.len(),
            sum_fits(v@),
            s == int_total(v@, i as int),
        decreases v@.len() - i,
    {
        assert(i64::MIN <= int_total(v@, i + 1) <= i64::MAX);
        s = s + v[i];
        i = i + 1;
    }
    s
}

fn count_true(v: &Vec<bool>) -> (c: usize)
    ensures
        c == true_count(v@, v@.len() as int),
{
    let mut c: usize = 0;
    let mut i: usize = 0;
    while i < v.len()
        invariant
            i <= v@.len(),
            c == true_count(v@, i as int),
        decreases v@.len() - i,
    {
        proof {
            lemma_true_count_bounds(v@, i as int);
        }
        if v[i] {
            c = c + 1;
        }
        i = i + 1;
    }
    c
}

impl TypedColumn {
    /// The column's sum (see `column_sum`); `float_total` is the sum of a float column.
    pub fn sum(&self, float_total: u64) -> (r: Value)
        requires
            self@ matches ColumnView::Int(v) ==> sum_fits(v),
        ensures
            r@ == column_sum(self@, float_total),
    {
        match self {
            TypedColumn::Int(v) => Value::Int(sum_ints(v)),
            TypedColumn::Float(_) => Value::Float(float_total),
            TypedColumn::Bool(v) => {
                let c = count_true(v);
                proof {
                    lemma_true_count_bounds(v@, v@.len() as int);
                }
                Value::Int(c as i64)
            },
            _ => Value::Nil,
        }
    }

    /// The column's least cell (see `column_min`); `float_min` is the least cell of a float
    /// column.
    pub fn min(&self, float_min: u64) -> (r: Value)
        ensures
            r@ == column_min(self@, float_min),
    {
        match self {
            TypedColumn::Int(v) => {
                if v.len() == 0 {
                    return Value::Nil;
                }
                let mut m = v[0];
                let mut i: usize = 1;
                while i < v.len()
                    invariant
                        1 <= i <= v@.len(),
                        m == int_min(v@, i as int),
                    decreases v@.len() - i,
                {
                    if v[i] < m {
                        m = v[i];
                    }
                    i = i + 1;
                }
                Value::Int(m)
            },
            TypedColumn::Float(v) => {
                if v.len() == 0 {
                    return Value::Nil;
                }
                Value::Float(float_min)
            },
            TypedColumn::String(v) => {
                if v.len() == 0 {
                    return Value::Nil;
                }
                let mut m: usize = 0;
                let mut i: usize = 1;
                while i < v.len()
                    invariant
                        1 <= i <= v@.len(),
                        m < i,
                        v@[m as int]@ == text_min(crate::dataframe::string_cells(v@), i as int),
                    decreases v@.len() - i,
                {
                    if string_lt(&v[i], &v[m]) {
                        m = i;
                    }
                    i = i + 1;
                }
                Value::String(v[m].clone())
            },
            TypedColumn::Bool(v) => {
                if v.len() == 0 {
                    return Value::Nil;
                }
                let mut all = true;
                let mut i: usize = 0;
                while i < v.len()
                    invariant
                        i <= v@.len(),
                        all == (forall|k: int| 0 <= k < i ==> v@[k]),
                    decreases v@.len() - i,
                {
                    all = all && v[i];
                    i = i + 1;
                }
                Value::Bool(all)
            },
            TypedColumn::Vector(_) => Value::Nil,
        }
    }

    /// The column's greatest cell (see `column_max`); `float_max` is the greatest cell of a
    /// float column.
    pub fn max(&self, float_max: u64) -> (r: Value)
        ensures
            r@ == column_max(self@, float_max),
    {
        match self {
            TypedColumn::Int(v) => {
                if v.len() == 0 {
                    return Value::Nil;
                }
                let mut m = v[0];
                let mut i: usize = 1;
                while i < v.len()
                    invariant
                        1 <= i <= v@.len(),
                        m == int_max(v@, i as int),
                    decreases v@.len() - i,
                {
                    if v[i] > m {
                        m = v[i];
                    }
                    i = i + 1;
                }
                Value::Int(m)
            },
            TypedColumn::Float(v) => {
                if v.len() == 0 {
                    return Value::Nil;
                }
                Value::Float(float_max)
            },
            TypedColumn::String(v) => {
                if v.len() == 0 {
                    return Value::Nil;
                }
                let mut m: usize = 0;
                let mut i: usize = 1;
                while i < v.len()
                    invariant
                        1 <= i <= v@.len(),
                        m < i,
                        v@[m as int]@ == text_max(crate::dataframe::string_cells(v@), i as int),
                    decreases v@.len() - i,
                {
                    if string_lt(&v[m], &v[i]) {
                        m = i;
                    }
                    i = i + 1;
                }
                Value::String(v[m].clone())
            },
            TypedColumn::Bool(v) => {
                if v.len() == 0 {
                    return Value::Nil;
                }
                let mut any = false;
                let mut i: usize = 0;
                while i < v.len()
                    invariant
                        i <= v@.len(),
                        any == (exists|k: int| 0 <= k < i && v@[k]),
                    decreases v@.len() - i,
                {
                    any = any || v[i];
                    i = i + 1;
                }
                Value::Bool(any)
            },
            TypedColumn::Vector(_) => Value::Nil,
        }
    }
}

/// The least of a list of integers is one of them, and none is below it.
pub proof fn lemma_int_min_is_least(v: Seq<i64>, n: int)
    requires
        1 <= n <= v.len(),
    ensures
        exists|i: int| 0 <= i < n && v[i] == int_min(v, n),
        forall|i: int| 0 <= i < n ==> int_min(v, n) <= #[trigger] v[i],
    decreases n,
{
    if n > 1 {
        lemma_int_min_is_least(v, n - 1);
        if v[n - 1] < int_min(v, n - 1) {
            assert(v[n - 1] == int_min(v, n));
        }
    } else {
        assert(v[0] == int_min(v, n));
    }
}

/// The greatest of a list of integers is one of them, and none is above it.
pub proof fn lemma_int_max_is_greatest(v: Seq<i64>, n: int)
    requires
        1 <= n <= v.len(),
    ensures
        exists|i: int| 0 <= i < n && v[i] == int_max(v, n),
        forall|i: int| 0 <= i < n ==> #[trigger] v[i] <= int_max(v, n),
    decreases n,
{
    if n > 1 {
        lemma_int_max_is_greatest(v, n - 1);
        if v[n - 1] > int_max(v, n - 1) {
            assert(v[n - 1] == int_max(v, n));
        }
    } else {
        assert(v[0] == int_max(v, n));
    }
}

/// The first of a list of texts in lexicographic order is one of them, and none comes before
/// it.
pub proof fn lemma_text_min_is_first(v: Seq<Seq<char>>, n: int)
    requires
        1 <= n <= v.len(),
    ensures
        exists|i: int| 0 <= i < n && v[i] == text_min(v, n),
        forall|i: int| 0 <= i < n ==> !lex_lt(#[trigger] v[i], text_min(v, n)),
    decreases n,
{
    if n > 1 {
        lemma_text_min_is_first(v, n - 1);
        let p = text_min(v, n - 1);
        if lex_lt(v[n - 1], p) {
            assert(v[n - 1] == text_min(v, n));
            assert forall|i: int| 0 <= i < n implies !lex_lt(#[trigger] v[i], text_min(v, n)) by {
                if i < n - 1 && lex_lt(v[i], v[n - 1]) {
                    lemma_lex_transitive(v[i], v[n - 1], p);
                }
                if i == n - 1 {
                    lemma_lex_asymmetric(v[i], v[i]);
                }
            }
        } else {
            assert forall|i: int| 0 <= i < n implies !lex_lt(#[trigger] v[i], text_min(v, n)) by {
            }
        }
    } else {
        assert(v[0] == text_min(v, n));
        lemma_lex_asymmetric(v[0], v[0]);
    }
}

/// The last of a list of texts in lexicographic order is one of them, and none comes after it.
pub proof fn lemma_text_max_is_last(v: Seq<Seq<char>>, n: int)
    requires
        1 <= n <= v.len(),
    ensures
        exists|i: int| 0 <= i < n && v[i] == text_max(v, n),
        forall|i: int| 0 <= i < n ==> !lex_lt(text_max(v, n), #[trigger] v[i]),
    decreases n,
{
    if n > 1 {
        lemma_text_max_is_last(v, n - 1);
        let p = text_max(v, n - 1);
        if lex_lt(p, v[n - 1]) {
            assert(v[n - 1] == text_max(v, n));
            assert forall|i: int| 0 <= i < n implies !lex_lt(text_max(v, n), #[trigger] v[i]) by {
                if i < n - 1 && lex_lt(v[n - 1], v[i]) {
                    lemma_lex_transitive(p, v[n - 1], v[i]);
                }
                if i == n - 1 {
                    lemma_lex_asymmetric(v[i], v[i]);
                }
            }
        } else {
            assert forall|i: int| 0 <= i < n implies !lex_lt(text_max(v, n), #[trigger] v[i]) by {
            }
        }
    } else {
        assert(v[0] == text_max(v, n));
        lemma_lex_asymmetric(v[0], v[0]);
    }
}

} // verus!
