//! Columnar data frames: typed columns, and the frame operations that select, filter, extend
//! and cut them. Floating-point cells are held by their bit patterns; arithmetic on them is left
//! to the users of this module.
use vstd::prelude::*;
use crate::strmap::{Duplicate, StrMap};
use crate::text::{push_decimal, push_str, string_of, decimal};
use crate::strsort::{lemma_lex_asymmetric, lemma_lex_irreflexive, lemma_lex_total, lemma_lex_transitive, lex_lt, string_lt};
use crate::value::{lemma_models, models, Value, ValueView};

verus! {

pub enum TypedColumn {
    Int(Vec<i64>),
    Float(Vec<u64>),
    String(Vec<String>),
    Bool(Vec<bool>),
    Vector(Vec<Vec<u64>>),
}

#[verifier::ext_equal]
pub enum ColumnView {
    Int(Seq<i64>),
    Float(Seq<u64>),
    String(Seq<Seq<char>>),
    Bool(Seq<bool>),
    Vector(Seq<Seq<u64>>),
}

pub open spec fn string_cells(v: Seq<String>) -> Seq<Seq<char>> {
    v.map_values(|s: String| s@)
}

pub open spec fn vector_cells(v: Seq<Vec<u64>>) -> Seq<Seq<u64>> {
    v.map_values(|x: Vec<u64>| x@)
}

impl View for TypedColumn {
    type V = ColumnView;

    open spec fn view(&self) -> ColumnView {
        match self {
            TypedColumn::Int(v) => ColumnView::Int(v@),
            TypedColumn::Float(v) => ColumnView::Float(v@),
            TypedColumn::String(v) => ColumnView::String(string_cells(v@)),
            TypedColumn::Bool(v) => ColumnView::Bool(v@),
            TypedColumn::Vector(v) => ColumnView::Vector(vector_cells(v@)),
        }
    }
}

impl ColumnView {
    pub open spec fn len(self) -> nat {
        match self {
            ColumnView::Int(v) => v.len(),
            ColumnView::Float(v) => v.len(),
            ColumnView::String(v) => v.len(),
            ColumnView::Bool(v) => v.len(),
            ColumnView::Vector(v) => v.len(),
        }
    }

    /// Cell `i` as a value: a vector cell becomes an array of floats.
    pub open spec fn cell(self, i: int) -> ValueView {
        match self {
            ColumnView::Int(v) => ValueView::Int(v[i]),
            ColumnView::Float(v) => ValueView::Float(v[i]),
            ColumnView::String(v) => ValueView::String(v[i]),
            ColumnView::Bool(v) => ValueView::Bool(v[i]),
            ColumnView::Vector(v) => ValueView::Array(v[i].map_values(|f: u64| ValueView::Float(f))),
        }
    }

    /// The column with its cells rearranged: cell `k` of the result is cell `idx[k]` here.
    pub open spec fn pick(self, idx: Seq<int>) -> ColumnView {
        match self {
            ColumnView::Int(v) => ColumnView::Int(Seq::new(idx.len(), |k: int| v[idx[k]])),
            ColumnView::Float(v) => ColumnView::Float(Seq::new(idx.len(), |k: int| v[idx[k]])),
            ColumnView::String(v) => ColumnView::String(Seq::new(idx.len(), |k: int| v[idx[k]])),
            ColumnView::Bool(v) => ColumnView::Bool(Seq::new(idx.len(), |k: int| v[idx[k]])),
            ColumnView::Vector(v) => ColumnView::Vector(Seq::new(idx.len(), |k: int| v[idx[k]])),
        }
    }

    pub open spec fn same_kind(self, other: ColumnView) -> bool {
        match (self, other) {
            (ColumnView::Int(_), ColumnView::Int(_)) => true,
            (ColumnView::Float(_), ColumnView::Float(_)) => true,
            (ColumnView::String(_), ColumnView::String(_)) => true,
            (ColumnView::Bool(_), ColumnView::Bool(_)) => true,
            (ColumnView::Vector(_), ColumnView::Vector(_)) => true,
            _ => false,
        }
    }
}

/// Positions as integers.
pub open spec fn positions(s: Seq<usize>) -> Seq<int> {
    Seq::new(s.len(), |k: int| s[k] as int)
}

/// `start`, `start + 1`, ..., `n` positions in all.
pub open spec fn run_from(start: int, n: nat) -> Seq<int> {
    Seq::new(n, |k: int| start + k)
}

/// The positions below `n` whose mask entry is set, in order.
pub open spec fn kept(mask: Seq<bool>, n: nat) -> Seq<int>
    decreases n,
{
    if n == 0 {
        Seq::empty()
    } else {
        let k = kept(mask, (n - 1) as nat);
        if mask[n - 1] {
            k.push(n - 1)
        } else {
            k
        }
    }
}

proof fn lemma_kept_bounds(mask: Seq<bool>, n: nat)
    ensures
        kept(mask, n).len() <= n,
        forall|i: int| 0 <= i < kept(mask, n).len() ==> 0 <= #[trigger] kept(mask, n)[i] < n,
    decreases n,
{
    if n > 0 {
        lemma_kept_bounds(mask, (n - 1) as nat);
    }
}

fn copy_strings(v: &Vec<String>) -> (r: Vec<String>)
    ensures
        r@ == v@,
{
    let mut r: Vec<String> = Vec::new();
    let mut i: usize = 0;
    while i < v.len()
        invariant
            i <= v@.len(),
            r@ == v@.take(i as int),
        decreases v@.len() - i,
    {
        r.push(v[i].clone());
        assert(r@ =~= v@.take(i + 1));
        i = i + 1;
    }
    assert(v@.take(v@.len() as int) =~= v@);
    r
}

fn copy_bits(v: &Vec<u64>) -> (r: Vec<u64>)
    ensures
        r@ == v@,
{
    let mut r: Vec<u64> = Vec::new();
    let mut i: usize = 0;
    while i < v.len()
        invariant
            i <= v@.len(),
            r@ == v@.take(i as int),
        decreases v@.len() - i,
    {
        r.push(v[i]);
        assert(r@ =~= v@.take(i + 1));
        i = i + 1;
    }
    assert(v@.take(v@.len() as int) =~= v@);
    r
}

impl TypedColumn {
    pub fn len(&self) -> (n: usize)
        ensures
            n == self@.len(),
    {
        match self {
            TypedColumn::Int(v) => v.len(),
            TypedColumn::Float(v) => v.len(),
            TypedColumn::String(v) => v.len(),
            TypedColumn::Bool(v) => v.len(),
            TypedColumn::Vector(v) => v.len(),
        }
    }

    /// `int64`, `float64`, `string`, `bool` or `vector`.
    pub fn kind_name(&self) -> (s: &'static str)
        ensures
            s@ == match self@ {
                ColumnView::Int(_) => "int64"@,
                ColumnView::Float(_) => "float64"@,
                ColumnView::String(_) => "string"@,
                ColumnView::Bool(_) => "bool"@,
                ColumnView::Vector(_) => "vector"@,
            },
    {
        match self {
            TypedColumn::Int(_) => "int64",
            TypedColumn::Float(_) => "float64",
            TypedColumn::String(_) => "string",
            TypedColumn::Bool(_) => "bool",
            TypedColumn::Vector(_) => "vector",
        }
    }

    fn vector_value(cell: &Vec<u64>) -> (v: Value)
        ensures
            v@ == ValueView::Array(cell@.map_values(|f: u64| ValueView::Float(f))),
    {
        let mut items: Vec<Value> = Vec::new();
        let mut i: usize = 0;
        while i < cell.len()
            invariant
                i <= cell@.len(),
                items@.len() == i,
                forall|j: int| 0 <= j < i ==> (#[trigger] items@[j])@ == ValueView::Float(cell@[j]),
            decreases cell@.len() - i,
        {
            items.push(Value::Float(cell[i]));
            i = i + 1;
        }
        proof {
            lemma_models(items@);
        }
        assert(models(items@) =~= cell@.map_values(|f: u64| ValueView::Float(f)));
        Value::Array(items)
    }

    /// Cell `idx` as a value, if the column has one there.
    pub fn get(&self, idx: usize) -> (r: Option<Value>)
        ensures
            idx < self@.len() ==> (r matches Some(v) && v@ == self@.cell(idx as int)),
            idx >= self@.len() ==> r is None,
    {
        if idx >= self.len() {
            return None;
        }
        match self {
            TypedColumn::Int(v) => Some(Value::Int(v[idx])),
            TypedColumn::Float(v) => Some(Value::Float(v[idx])),
            TypedColumn::String(v) => {
                assert(string_cells(v@)[idx as int] == v@[idx as int]@);
                Some(Value::String(v[idx].clone()))
            },
            TypedColumn::Bool(v) => Some(Value::Bool(v[idx])),
            TypedColumn::Vector(v) => {
                assert(vector_cells(v@)[idx as int] == v@[idx as int]@);
                Some(Self::vector_value(&v[idx]))
            },
        }
    }

    /// Every cell as a value, in order.
    pub fn to_values(&self) -> (r: Vec<Value>)
        ensures
            models(r@) == Seq::new(self@.len(), |i: int| self@.cell(i)),
    {
        let n = self.len();
        let mut r: Vec<Value> = Vec::new();
        let mut i: usize = 0;
        while i < n
            invariant
                i <= n == self@.len(),
                r@.len() == i,
                forall|j: int| 0 <= j < i ==> (#[trigger] r@[j])@ == self@.cell(j),
            decreases n - i,
        {
            match self.get(i) {
                Some(v) => r.push(v),
                None => r.push(Value::Nil),
            }
            i = i + 1;
        }
        proof {
            lemma_models(r@);
        }
        assert(models(r@) =~= Seq::new(self@.len(), |i: int| self@.cell(i)));
        r
    }

    /// A copy of the column.
    pub fn duplicate_column(&self) -> (r: TypedColumn)
        ensures
            r@ == self@,
    {
        match self {
            TypedColumn::Int(v) => {
                let mut out: Vec<i64> = Vec::new();
                let mut i: usize = 0;
                while i < v.len()
                    invariant
                        i <= v@.len(),
                        out@ == v@.take(i as int),
                    decreases v@.len() - i,
                {
                    out.push(v[i]);
                    assert(out@ =~= v@.take(i + 1));
                    i = i + 1;
                }
                assert(v@.take(v@.len() as int) =~= v@);
                TypedColumn::Int(out)
            },
            TypedColumn::Float(v) => TypedColumn::Float(copy_bits(v)),
            TypedColumn::String(v) => TypedColumn::String(copy_strings(v)),
            TypedColumn::Bool(v) => {
                let mut out: Vec<bool> = Vec::new();
                let mut i: usize = 0;
                while i < v.len()
                    invariant
                        i <= v@.len(),
                        out@ == v@.take(i as int),
                    decreases v@.len() - i,
                {
                    out.push(v[i]);
                    assert(out@ =~= v@.take(i + 1));
                    i = i + 1;
                }
                assert(v@.take(v@.len() as int) =~= v@);
                TypedColumn::Bool(out)
            },
            TypedColumn::Vector(v) => {
                let mut out: Vec<Vec<u64>> = Vec::new();
                let mut i: usize = 0;
                while i < v.len()
                    invariant
                        i <= v@.len(),
                        vector_cells(out@) == vector_cells(v@).take(i as int),
                    decreases v@.len() - i,
                {
                    let c = copy_bits(&v[i]);
                    let ghost before = vector_cells(out@);
                    out.push(c);
                    assert(vector_cells(out@) =~= before.push(c@));
                    assert(vector_cells(v@).take(i + 1) =~= vector_cells(v@).take(i as int).push(v@[i as int]@));
                    i = i + 1;
                }
                assert(vector_cells(v@).take(v@.len() as int) =~= vector_cells(v@));
                TypedColumn::Vector(out)
            },
        }
    }
}

/// The cells of `v` at the positions `idx`, in that order.
fn pick_cells<T: Duplicate>(v: &Vec<T>, idx: &Vec<usize>) -> (r: Vec<T>)
    requires
        forall|k: int| 0 <= k < idx@.len() ==> #[trigger] idx@[k] < v@.len(),
    ensures
        r@.len() == idx@.len(),
        forall|k: int| 0 <= k < idx@.len() ==> (#[trigger] r@[k])@ == v@[idx@[k] as int]@,
{
    let mut r: Vec<T> = Vec::new();
    let mut k: usize = 0;
    while k < idx.len()
        invariant
            k <= idx@.len(),
            forall|q: int| 0 <= q < idx@.len() ==> #[trigger] idx@[q] < v@.len(),
            r@.len() == k,
            forall|q: int| 0 <= q < k ==> (#[trigger] r@[q])@ == v@[idx@[q] as int]@,
        decreases idx@.len() - k,
    {
        r.push(v[idx[k]].duplicate());
        k = k + 1;
    }
    r
}

impl TypedColumn {
    /// The column with its cells rearranged: cell `k` of the result is cell `indices[k]`.
    pub fn reorder_by_indices(&self, indices: &Vec<usize>) -> (r: TypedColumn)
        requires
            forall|k: int| 0 <= k < indices@.len() ==> #[trigger] indices@[k] < self@.len(),
        ensures
            r@ == self@.pick(positions(indices@)),
    {
        match self {
            TypedColumn::Int(v) => {
                let c = pick_cells(v, indices);
                assert(c@ =~= Seq::new(indices@.len(), |k: int| v@[positions(indices@)[k]]));
                TypedColumn::Int(c)
            },
            TypedColumn::Float(v) => {
                let c = pick_cells(v, indices);
                assert(c@ =~= Seq::new(indices@.len(), |k: int| v@[positions(indices@)[k]]));
                TypedColumn::Float(c)
            },
            TypedColumn::String(v) => {
                let c = pick_cells(v, indices);
                assert(string_cells(c@) =~= Seq::new(indices@.len(), |k: int| string_cells(v@)[positions(indices@)[k]]));
                TypedColumn::String(c)
            },
            TypedColumn::Bool(v) => {
                let c = pick_cells(v, indices);
                assert(c@ =~= Seq::new(indices@.len(), |k: int| v@[positions(indices@)[k]]));
                TypedColumn::Bool(c)
            },
            TypedColumn::Vector(v) => {
                let c = pick_cells(v, indices);
                assert(vector_cells(c@) =~= Seq::new(indices@.len(), |k: int| vector_cells(v@)[positions(indices@)[k]]));
                TypedColumn::Vector(c)
            },
        }
    }

    /// The cells whose mask entry is set, in order; cells past the end of the mask are dropped.
    pub fn filter_by_mask(&self, mask: &[bool]) -> (r: TypedColumn)
        ensures
            ({
                let n = if self@.len() < mask@.len() { self@.len() } else { mask@.len() };
                r@ == self@.pick(kept(mask@, n))
            }),
    {
        let n = if self.len() < mask.len() { self.len() } else { mask.len() };
        let mut idx: Vec<usize> = Vec::new();
        let mut i: usize = 0;
        while i < n
            invariant
                i <= n <= self@.len(),
                n <= mask@.len(),
                idx@.len() == kept(mask@, i as nat).len(),
                forall|k: int| 0 <= k < idx@.len() ==> #[trigger] idx@[k] as int == kept(mask@, i as nat)[k],
                forall|k: int| 0 <= k < idx@.len() ==> #[trigger] idx@[k] < i,
            decreases n - i,
        {
            if mask[i] {
                idx.push(i);
            }
            i = i + 1;
        }
        let r = self.reorder_by_indices(&idx);
        proof {
            assert(positions(idx@) =~= kept(mask@, n as nat));
        }
        r
    }

    /// Cells `start` up to `start + len`, stopping at the end of the column.
    pub fn slice(&self, start: usize, len: usize) -> (r: TypedColumn)
        requires
            start <= self@.len(),
            start + len <= usize::MAX,
        ensures
            ({
                let end = if start + len < self@.len() { start + len } else { self@.len() as int };
                r@ == self@.pick(run_from(start as int, (end - start) as nat))
            }),
    {
        let n = self.len();
        let end = if start + len < n { start + len } else { n };
        let mut idx: Vec<usize> = Vec::new();
        let mut i: usize = start;
        while i < end
            invariant
                start <= i <= end <= n == self@.len(),
                idx@.len() == i - start,
                forall|k: int| 0 <= k < idx@.len() ==> #[trigger] idx@[k] == start + k,
            decreases end - i,
        {
            idx.push(i);
            i = i + 1;
        }
        let r = self.reorder_by_indices(&idx);
        assert(positions(idx@) =~= run_from(start as int, (end - start) as nat));
        r
    }
}

impl Duplicate for TypedColumn {
    fn duplicate(&self) -> (r: TypedColumn) {
        self.duplicate_column()
    }
}

/// The column `c` with the cells that a mask keeps.
pub open spec fn masked_column(c: ColumnView, mask: Seq<bool>) -> ColumnView {
    let n = if c.len() < mask.len() { c.len() } else { mask.len() };
    c.pick(kept(mask, n))
}

/// Columns by name, in a declared order, with a row count.
pub struct NativeDataFrame {
    pub column_names: Vec<String>,
    pub columns: StrMap<TypedColumn>,
    pub row_count: usize,
}

/// The rows a frame with these columns has: the length of the first named column, or 0.
pub open spec fn rows_of(names: Seq<String>, cols: Map<Seq<char>, ColumnView>) -> nat {
    if names.len() > 0 && cols.contains_key(names[0]@) {
        cols[names[0]@].len()
    } else {
        0
    }
}

/// The names among `cols` that the map holds, in order.
pub open spec fn present_names(cols: Seq<String>, m: Map<Seq<char>, ColumnView>) -> Seq<Seq<char>>
    decreases cols.len(),
{
    if cols.len() == 0 {
        Seq::empty()
    } else {
        let rest = present_names(cols.drop_last(), m);
        if m.contains_key(cols.last()@) {
            rest.push(cols.last()@)
        } else {
            rest
        }
    }
}

impl NativeDataFrame {
    pub fn new(column_names: Vec<String>, columns: StrMap<TypedColumn>) -> (df: Self)
        ensures
            df.column_names@ == column_names@,
            df.columns == columns,
            df.row_count == rows_of(column_names@, columns@),
    {
        let row_count = if column_names.len() > 0 {
            match columns.lookup(&column_names[0]) {
                Some(col) => col.len(),
                None => 0,
            }
        } else {
            0
        };
        NativeDataFrame { column_names, columns, row_count }
    }

    /// `(rows, columns)`.
    pub fn shape(&self) -> (r: (usize, usize))
        ensures
            r == (self.row_count, self.column_names@.len() as usize),
    {
        (self.row_count, self.column_names.len())
    }

    /// The columns named in `cols` that the frame has, in that order.
    pub fn select(&self, cols: &Vec<String>) -> (df: Self)
        ensures
            string_cells(df.column_names@) == present_names(cols@, self.columns@),
            df.columns@ == self.columns@.restrict(Set::new(|k: Seq<char>| string_cells(cols@).contains(k))),
            df.row_count == rows_of(df.column_names@, df.columns@),
    {
        let mut names: Vec<String> = Vec::new();
        let mut picked: StrMap<TypedColumn> = StrMap::new();
        let mut i: usize = 0;
        assert(cols@.take(0) =~= Seq::<String>::empty());
        while i < cols.len()
            invariant
                i <= cols@.len(),
                picked.wf(),
                string_cells(names@) == present_names(cols@.take(i as int), self.columns@),
                picked@ == self.columns@.restrict(Set::new(|k: Seq<char>| string_cells(cols@.take(i as int)).contains(k))),
            decreases cols@.len() - i,
        {
            let ghost before = string_cells(names@);
            let ghost t = cols@.take(i + 1);
            assert(t.drop_last() =~= cols@.take(i as int));
            assert(t.last() == cols@[i as int]);
            let ghost old_p = picked@;
            match self.columns.lookup(&cols[i]) {
                Some(col) => {
                    names.push(cols[i].clone());
                    assert(string_cells(names@) =~= before.push(cols@[i as int]@));
                    picked.insert(cols[i].clone(), col.duplicate_column());
                    assert(picked@ == old_p.insert(cols@[i as int]@, self.columns@[cols@[i as int]@]));
                },
                None => {
                    assert(!self.columns@.contains_key(cols@[i as int]@));
                },
            }
            proof {
                let pre = string_cells(cols@.take(i as int));
                let x = cols@[i as int]@;
                assert(string_cells(t) =~= pre.push(x));
                assert forall|k: Seq<char>| pre.push(x).contains(k) <==> (pre.contains(k) || k == x) by {
                    if pre.push(x).contains(k) {
                        let j = choose|j: int| 0 <= j < pre.push(x).len() && pre.push(x)[j] == k;
                        if j < pre.len() {
                            assert(pre[j] == k);
                        }
                    }
                    if pre.contains(k) {
                        let j = choose|j: int| 0 <= j < pre.len() && pre[j] == k;
                        assert(pre.push(x)[j] == k);
                    }
                    if k == x {
                        assert(pre.push(x)[pre.len() as int] == k);
                    }
                }
                let target = self.columns@.restrict(Set::new(|k: Seq<char>| string_cells(t).contains(k)));
                assert forall|k: Seq<char>| picked@.dom().contains(k) <==> target.dom().contains(k) by {
                    assert(old_p.dom().contains(k) <==> (self.columns@.contains_key(k) && pre.contains(k)));
                    assert(string_cells(t).contains(k) <==> (pre.contains(k) || k == x));
                }
                assert forall|k: Seq<char>| #[trigger] picked@.dom().contains(k) implies picked@[k] == target[k] by {
                    assert(old_p.dom().contains(k) <==> (self.columns@.contains_key(k) && pre.contains(k)));
                    assert(old_p.dom().contains(k) ==> old_p[k] == self.columns@[k]);
                    assert(string_cells(t).contains(k) <==> (pre.contains(k) || k == x));
                }
                assert(picked@ =~= target);
            }
            i = i + 1;
        }
        assert(cols@.take(cols@.len() as int) =~= cols@);
        Self::new(names, picked)
    }

    /// Every column with the cells that `mask` keeps; the names stay.
    pub fn filter(&self, mask: &[bool]) -> (df: Self)
        ensures
            df.column_names@ == self.column_names@,
            df.columns@ == self.columns@.map_values(|c: ColumnView| masked_column(c, mask@)),
            df.row_count == rows_of(df.column_names@, df.columns@),
    {
        let mut cols: StrMap<TypedColumn> = StrMap::new();
        let mut i: usize = 0;
        let ghost e = self.columns.entries@;
        assert(crate::strmap::map_of(e.take(0)) =~= Map::<Seq<char>, ColumnView>::empty());
        assert(Map::<Seq<char>, ColumnView>::empty().map_values(|c: ColumnView| masked_column(c, mask@)) =~= Map::<Seq<char>, ColumnView>::empty());
        while i < self.columns.entries.len()
            invariant
                i <= e.len(),
                e == self.columns.entries@,
                cols.wf(),
                cols@ == crate::strmap::map_of(e.take(i as int)).map_values(|c: ColumnView| masked_column(c, mask@)),
            decreases e.len() - i,
        {
            let ghost before = crate::strmap::map_of(e.take(i as int));
            assert(e.take(i + 1).drop_last() =~= e.take(i as int));
            let c = self.columns.entries[i].1.filter_by_mask(mask);
            cols.insert(self.columns.entries[i].0.clone(), c);
            assert(cols@ =~= crate::strmap::map_of(e.take(i + 1)).map_values(|c: ColumnView| masked_column(c, mask@)));
            i = i + 1;
        }
        assert(e.take(e.len() as int) =~= e);
        Self::new(copy_strings(&self.column_names), cols)
    }

    /// The frame with column `name` set to `col`, the name added at the end if it is new.
    pub fn with_column(&self, name: String, col: TypedColumn) -> (df: Self)
        ensures
            string_cells(df.column_names@) == if string_cells(self.column_names@).contains(name@) {
                string_cells(self.column_names@)
            } else {
                string_cells(self.column_names@).push(name@)
            },
            df.columns@ == self.columns@.insert(name@, col@),
            df.row_count == rows_of(df.column_names@, df.columns@),
    {
        let mut names = copy_strings(&self.column_names);
        let mut found = false;
        let mut i: usize = 0;
        while i < names.len()
            invariant
                i <= names@.len(),
                names@ == self.column_names@,
                found == exists|j: int| 0 <= j < i && names@[j]@ == name@,
            decreases names@.len() - i,
        {
            if names[i] == name {
                found = true;
            }
            i = i + 1;
        }
        proof {
            if found {
                let j = choose|j: int| 0 <= j < names@.len() && names@[j]@ == name@;
                assert(string_cells(names@)[j] == name@);
            }
            if string_cells(self.column_names@).contains(name@) {
                let j = choose|j: int| 0 <= j < string_cells(self.column_names@).len() && string_cells(self.column_names@)[j] == name@;
                assert(names@[j]@ == name@);
            }
        }
        if !found {
            let ghost before = string_cells(names@);
            names.push(name.clone());
            assert(string_cells(names@) =~= before.push(name@));
        }
        let mut cols: StrMap<TypedColumn> = StrMap::new();
        cols.extend_from(&self.columns);
        assert(Map::<Seq<char>, ColumnView>::empty().union_prefer_right(self.columns@) =~= self.columns@);
        cols.insert(name, col);
        Self::new(names, cols)
    }

    /// The first `n` rows.
    pub fn head(&self, n: usize) -> (df: Self)
        ensures
            df.column_names@ == self.column_names@,
            df.row_count == if n < self.row_count { n } else { self.row_count },
            df.columns@ == self.columns@.map_values(|c: ColumnView| c.pick(run_from(0, if df.row_count < c.len() { df.row_count as nat } else { c.len() }))),
    {
        let count = if n < self.row_count { n } else { self.row_count };
        let mut cols: StrMap<TypedColumn> = StrMap::new();
        let mut i: usize = 0;
        let ghost e = self.columns.entries@;
        assert(crate::strmap::map_of(e.take(0)) =~= Map::<Seq<char>, ColumnView>::empty());
        assert(Map::<Seq<char>, ColumnView>::empty().map_values(|c: ColumnView| c.pick(run_from(0, if count < c.len() { count as nat } else { c.len() }))) =~= Map::<Seq<char>, ColumnView>::empty());
        while i < self.columns.entries.len()
            invariant
                i <= e.len(),
                e == self.columns.entries@,
                cols.wf(),
                cols@ == crate::strmap::map_of(e.take(i as int)).map_values(|c: ColumnView| c.pick(run_from(0, if count < c.len() { count as nat } else { c.len() }))),
            decreases e.len() - i,
        {
            assert(e.take(i + 1).drop_last() =~= e.take(i as int));
            let c = self.columns.entries[i].1.slice(0, count);
            cols.insert(self.columns.entries[i].0.clone(), c);
            assert(cols@ =~= crate::strmap::map_of(e.take(i + 1)).map_values(|c: ColumnView| c.pick(run_from(0, if count < c.len() { count as nat } else { c.len() }))));
            i = i + 1;
        }
        assert(e.take(e.len() as int) =~= e);
        NativeDataFrame { column_names: copy_strings(&self.column_names), columns: cols, row_count: count }
    }
}

/// The open data frames, with the id the next one gets.
pub struct DataFrameRegistry {
    pub next_id: u64,
    pub frames: Vec<(u64, NativeDataFrame)>,
}

impl DataFrameRegistry {
    pub open spec fn wf(&self) -> bool {
        &&& self.next_id >= 1
        &&& forall|i: int| 0 <= i < self.frames@.len() ==> (#[trigger] self.frames@[i]).0 < self.next_id
    }

    pub fn new() -> (r: Self)
        ensures
            r.wf(),
            r.next_id == 1,
            r.frames@.len() == 0,
    {
        DataFrameRegistry { next_id: 1, frames: Vec::new() }
    }
}

pub open spec fn frame_not_found_message(id: u64) -> Seq<char> {
    "DataFrame with ID "@ + decimal(id as nat) + " not found"@
}

/// Keeps `df` under the next id and returns that id.
pub fn register_df(reg: &mut DataFrameRegistry, df: NativeDataFrame) -> (id: u64)
    requires
        old(reg).wf(),
        old(reg).next_id < u64::MAX,
    ensures
        final(reg).wf(),
        id == old(reg).next_id,
        final(reg).next_id == id + 1,
        final(reg).frames@ == old(reg).frames@.push((id, df)),
{
    let id = reg.next_id;
    reg.next_id = reg.next_id + 1;
    reg.frames.push((id, df));
    id
}

/// The index of the frame with id `id`, if it is open.
pub fn df_index(reg: &DataFrameRegistry, id: u64) -> (r: Option<usize>)
    ensures
        r matches Some(i) ==> i < reg.frames@.len() && reg.frames@[i as int].0 == id,
        r is None ==> forall|i: int| 0 <= i < reg.frames@.len() ==> #[trigger] reg.frames@[i].0 != id,
{
    let mut i: usize = 0;
    while i < reg.frames.len()
        invariant
            i <= reg.frames.len(),
            forall|j: int| 0 <= j < i ==> #[trigger] reg.frames@[j].0 != id,
        decreases reg.frames.len() - i,
    {
        if reg.frames[i].0 == id {
            return Some(i);
        }
        i = i + 1;
    }
    None
}

/// The frame with id `id`.
pub fn get_df(reg: &DataFrameRegistry, id: u64) -> (r: Result<&NativeDataFrame, String>)
    ensures
        r matches Ok(df) ==> exists|i: int| 0 <= i < reg.frames@.len() && reg.frames@[i].0 == id && reg.frames@[i].1 == *df,
        r is Err ==> forall|i: int| 0 <= i < reg.frames@.len() ==> #[trigger] reg.frames@[i].0 != id,
        r matches Err(e) ==> e@ == frame_not_found_message(id),
{
    match df_index(reg, id) {
        Some(i) => Ok(&reg.frames[i].1),
        None => {
            let mut e = string_of("DataFrame with ID ");
            push_decimal(&mut e, id);
            push_str(&mut e, " not found");
            Err(e)
        },
    }
}

/// Whether row `a` comes before row `b` when rows are sorted stably by an integer, boolean or
/// text column: by the cell (in descending order when `desc`), equal cells keeping row order.
pub open spec fn row_before(c: ColumnView, desc: bool, a: int, b: int) -> bool {
    match c {
        ColumnView::Int(v) => if desc {
            v[a] > v[b] || (v[a] == v[b] && a < b)
        } else {
            v[a] < v[b] || (v[a] == v[b] && a < b)
        },
        ColumnView::Bool(v) => if desc {
            (v[a] && !v[b]) || (v[a] == v[b] && a < b)
        } else {
            (!v[a] && v[b]) || (v[a] == v[b] && a < b)
        },
        ColumnView::String(v) => if desc {
            lex_lt(v[b], v[a]) || (v[a] == v[b] && a < b)
        } else {
            lex_lt(v[a], v[b]) || (v[a] == v[b] && a < b)
        },
        _ => a < b,
    }
}

/// `order` lists the rows `0..n` as a stable sort by `c` puts them.
pub open spec fn stably_sorted(c: ColumnView, desc: bool, order: Seq<usize>, n: nat) -> bool {
    &&& order.len() == n
    &&& forall|i: int| 0 <= i < order.len() ==> #[trigger] order[i] < n
    &&& forall|i: int, j: int| 0 <= i < j < order.len() ==> row_before(c, desc, #[trigger] order[i] as int, #[trigger] order[j] as int)
}

/// An integer, boolean or text column.
pub open spec fn orderable(c: ColumnView) -> bool {
    c is Int || c is Bool || c is String
}

proof fn lemma_row_before_order(c: ColumnView, desc: bool, a: int, b: int, x: int)
    requires
        orderable(c),
        0 <= a < c.len(),
        0 <= b < c.len(),
        0 <= x < c.len(),
    ensures
        !row_before(c, desc, a, a),
        a != b ==> (row_before(c, desc, a, b) || row_before(c, desc, b, a)),
        !(row_before(c, desc, a, b) && row_before(c, desc, b, a)),
        row_before(c, desc, a, b) && row_before(c, desc, b, x) ==> row_before(c, desc, a, x),
{
    match c {
        ColumnView::String(v) => {
            lemma_lex_irreflexive(v[a]);
            lemma_lex_total(v[a], v[b]);
            lemma_lex_asymmetric(v[a], v[b]);
            if lex_lt(v[a], v[b]) && lex_lt(v[b], v[x]) {
                lemma_lex_transitive(v[a], v[b], v[x]);
            }
            if lex_lt(v[x], v[b]) && lex_lt(v[b], v[a]) {
                lemma_lex_transitive(v[x], v[b], v[a]);
            }
        },
        _ => {},
    }
}

/// Whether row `a` comes before row `b` in a stable sort by the column.
fn row_before_exec(col: &TypedColumn, desc: bool, a: usize, b: usize) -> (r: bool)
    requires
        orderable(col@),
        a < col@.len(),
        b < col@.len(),
    ensures
        r == row_before(col@, desc, a as int, b as int),
{
    match col {
        TypedColumn::Int(v) => if desc {
            v[a] > v[b] || (v[a] == v[b] && a < b)
        } else {
            v[a] < v[b] || (v[a] == v[b] && a < b)
        },
        TypedColumn::Bool(v) => if desc {
            (v[a] && !v[b]) || (v[a] == v[b] && a < b)
        } else {
            (!v[a] && v[b]) || (v[a] == v[b] && a < b)
        },
        TypedColumn::String(v) => {
            assert(string_cells(v@)[a as int] == v@[a as int]@);
            assert(string_cells(v@)[b as int] == v@[b as int]@);
            let same = v[a] == v[b];
            if desc {
                string_lt(&v[b], &v[a]) || (same && a < b)
            } else {
                string_lt(&v[a], &v[b]) || (same && a < b)
            }
        },
        _ => a < b,
    }
}

/// The rows `0..n` in the order of a stable sort by an integer, boolean or text column.
pub fn sort_order(col: &TypedColumn, n: usize, desc: bool) -> (order: Vec<usize>)
    requires
        orderable(col@),
        n <= col@.len(),
    ensures
        stably_sorted(col@, desc, order@, n as nat),
{
    let mut out: Vec<usize> = Vec::new();
    let mut k: usize = 0;
    while k < n
        invariant
            k <= n <= col@.len(),
            orderable(col@),
            out@.len() == k,
            forall|i: int| 0 <= i < out@.len() ==> #[trigger] out@[i] < k,
            forall|i: int, j: int| 0 <= i < j < out@.len() ==> row_before(col@, desc, #[trigger] out@[i] as int, #[trigger] out@[j] as int),
        decreases n - k,
    {
        let mut p: usize = 0;
        loop
            invariant
                p <= out@.len(),
                k < n <= col@.len(),
                orderable(col@),
                forall|i: int| 0 <= i < out@.len() ==> #[trigger] out@[i] < k,
                forall|i: int| 0 <= i < p ==> row_before(col@, desc, #[trigger] out@[i] as int, k as int),
            ensures
                p <= out@.len(),
                forall|i: int| 0 <= i < p ==> row_before(col@, desc, #[trigger] out@[i] as int, k as int),
                p < out@.len() ==> row_before(col@, desc, k as int, out@[p as int] as int),
            decreases out@.len() - p,
        {
            if p >= out.len() {
                break;
            }
            if row_before_exec(col, desc, k, out[p]) {
                break;
            }
            proof {
                lemma_row_before_order(col@, desc, k as int, out@[p as int] as int, k as int);
            }
            p = p + 1;
        }
        let ghost before = out@;
        out.insert(p, k);
        proof {
            assert(out@ =~= before.insert(p as int, k));
            assert forall|i: int, j: int| 0 <= i < j < out@.len() implies row_before(col@, desc, #[trigger] out@[i] as int, #[trigger] out@[j] as int) by {
                if j < p {
                    assert(out@[i] == before[i] && out@[j] == before[j]);
                } else if j == p {
                    assert(out@[i] == before[i]);
                } else if i < p {
                    assert(out@[i] == before[i] && out@[j] == before[j - 1]);
                    if j - 1 > p {
                        assert(row_before(col@, desc, before[p as int] as int, before[j - 1] as int));
                        lemma_row_before_order(col@, desc, k as int, before[p as int] as int, before[j - 1] as int);
                    }
                    lemma_row_before_order(col@, desc, before[i] as int, k as int, before[j - 1] as int);
                } else if i == p {
                    assert(out@[j] == before[j - 1]);
                    if j - 1 > p {
                        assert(row_before(col@, desc, before[p as int] as int, before[j - 1] as int));
                        lemma_row_before_order(col@, desc, k as int, before[p as int] as int, before[j - 1] as int);
                    }
                } else {
                    assert(out@[i] == before[i - 1] && out@[j] == before[j - 1]);
                }
            }
        }
        k = k + 1;
    }
    out
}

/// `out` holds the columns of `cols` with their rows in `order`: the stable order by column
/// `key` when that column holds integers, booleans or text, and `float_order` otherwise.
pub open spec fn sorted_by_order(
    cols: Map<Seq<char>, ColumnView>,
    key: Seq<char>,
    desc: bool,
    float_order: Seq<usize>,
    n: nat,
    order: Seq<usize>,
    out: Map<Seq<char>, ColumnView>,
) -> bool {
    &&& (if orderable(cols[key]) {
        stably_sorted(cols[key], desc, order, n)
    } else {
        order == float_order
    })
    &&& out == cols.map_values(|c: ColumnView| c.pick(positions(order)))
}

pub open spec fn column_not_found_message(name: Seq<char>) -> Seq<char> {
    "Column '"@ + name + "' not found"@
}

impl NativeDataFrame {
    /// The rows reordered by column `col_name`: a stable sort, in descending order when
    /// `descending`. For an integer, boolean or text column the order is computed here; for a
    /// column of floating-point numbers or vectors the caller supplies it as `float_order`.
    pub fn sort_by(&self, col_name: &str, descending: bool, float_order: &Vec<usize>) -> (r: Result<Self, String>)
        requires
            self.columns.wf(),
            forall|k: Seq<char>| #[trigger] self.columns@.contains_key(k) ==> self.row_count <= self.columns@[k].len(),
            self.columns@.contains_key(col_name@) && !orderable(self.columns@[col_name@]) ==> (
                forall|i: int| 0 <= i < float_order@.len() ==> #[trigger] float_order@[i] < self.row_count),
        ensures
            !self.columns@.contains_key(col_name@) ==> (r matches Err(e) && e@ == column_not_found_message(col_name@)),
            self.columns@.contains_key(col_name@) ==> r is Ok,
            r matches Ok(df) ==> df.column_names@ == self.column_names@,
            r matches Ok(df) ==> df.row_count == rows_of(df.column_names@, df.columns@),
            r matches Ok(df) ==> {
                &&& exists|order: Seq<usize>| #[trigger] sorted_by_order(
                    self.columns@,
                    col_name@,
                    descending,
                    float_order@,
                    self.row_count as nat,
                    order,
                    df.columns@,
                )
            },
    {
        let key = string_of(col_name);
        let col = match self.columns.lookup(&key) {
            Some(c) => c,
            None => {
                let mut e = string_of("Column '");
                push_str(&mut e, col_name);
                push_str(&mut e, "' not found");
                return Err(e);
            },
        };
        let order: Vec<usize> = match col {
            TypedColumn::Int(_) | TypedColumn::Bool(_) | TypedColumn::String(_) => sort_order(col, self.row_count, descending),
            _ => {
                let mut o: Vec<usize> = Vec::new();
                let mut i: usize = 0;
                while i < float_order.len()
                    invariant
                        i <= float_order@.len(),
                        o@ == float_order@.take(i as int),
                    decreases float_order@.len() - i,
                {
                    o.push(float_order[i]);
                    assert(o@ =~= float_order@.take(i + 1));
                    i = i + 1;
                }
                assert(float_order@.take(float_order@.len() as int) =~= float_order@);
                o
            },
        };
        assert(forall|i: int| 0 <= i < order@.len() ==> #[trigger] order@[i] < self.row_count);
        let mut cols: StrMap<TypedColumn> = StrMap::new();
        let mut i: usize = 0;
        let ghost e = self.columns.entries@;
        assert(crate::strmap::map_of(e.take(0)) =~= Map::<Seq<char>, ColumnView>::empty());
        assert(Map::<Seq<char>, ColumnView>::empty().map_values(|c: ColumnView| c.pick(positions(order@))) =~= Map::<Seq<char>, ColumnView>::empty());
        while i < self.columns.entries.len()
            invariant
                i <= e.len(),
                e == self.columns.entries@,
                self.columns.wf(),
                cols.wf(),
                forall|k: Seq<char>| #[trigger] self.columns@.contains_key(k) ==> self.row_count <= self.columns@[k].len(),
                forall|q: int| 0 <= q < order@.len() ==> #[trigger] order@[q] < self.row_count,
                cols@ == crate::strmap::map_of(e.take(i as int)).map_values(|c: ColumnView| c.pick(positions(order@))),
            decreases e.len() - i,
        {
            assert(e.take(i + 1).drop_last() =~= e.take(i as int));
            proof {
                crate::strmap::lemma_map_of_value(e, i as int);
                let kk = e[i as int].0@;
                assert(self.columns@.contains_key(kk));
                assert(self.row_count <= self.columns@[kk].len());
                assert(e[i as int].1@.len() == self.columns@[kk].len());
            }
            let c = self.columns.entries[i].1.reorder_by_indices(&order);
            cols.insert(self.columns.entries[i].0.clone(), c);
            assert(cols@ =~= crate::strmap::map_of(e.take(i + 1)).map_values(|c: ColumnView| c.pick(positions(order@))));
            i = i + 1;
        }
        assert(e.take(e.len() as int) =~= e);
        proof {
            let ord = order@;
            assert(col@ == self.columns@[col_name@]);
            assert(if orderable(self.columns@[col_name@]) {
                stably_sorted(self.columns@[col_name@], descending, ord, self.row_count as nat)
            } else {
                ord == float_order@
            });
            assert(cols@ == self.columns@.map_values(|c: ColumnView| c.pick(positions(ord))));
            assert(sorted_by_order(self.columns@, col_name@, descending, float_order@, self.row_count as nat, ord, cols@));
        }
        let ghost ord = order@;
        let df = Self::new(copy_strings(&self.column_names), cols);
        assert(df.column_names@ == self.column_names@);
        assert(df.row_count == rows_of(df.column_names@, df.columns@));
        assert(sorted_by_order(self.columns@, col_name@, descending, float_order@, self.row_count as nat, ord, df.columns@));
        let ghost dcols = df.columns@;
        let r: Result<Self, String> = Ok(df);
        assert(r matches Ok(d) ==> d.columns@ == dcols);
        assert(r matches Ok(d) ==> exists|order: Seq<usize>| #[trigger] sorted_by_order(self.columns@, col_name@, descending, float_order@, self.row_count as nat, order, d.columns@));
        r
    }
}

} // verus!
