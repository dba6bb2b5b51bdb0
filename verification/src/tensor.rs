//! Dense row-major tensors: their shape bookkeeping and the moves of their elements.
//! An element is held as the bit pattern of a 64-bit float; arithmetic on elements is not
//! done here.
use vstd::prelude::*;
use vstd::arithmetic::div_mod::{lemma_fundamental_div_mod, lemma_fundamental_div_mod_converse};
use crate::shapes::{compute_strides, suffix_product};
use crate::text::{decimal, new_string, push_char, push_decimal, push_str};

verus! {

/// The bit pattern of the float `0.0`.
pub const ZERO_BITS: u64 = 0;

/// The bit pattern of the float `1.0`.
pub const ONE_BITS: u64 = 0x3FF0000000000000;

/// A dense tensor: its dimensions, the row-major stride of each dimension, and its elements
/// in row-major order.
#[derive(Clone, Debug)]
pub struct TensorData {
    pub shape: Vec<usize>,
    pub strides: Vec<usize>,
    pub data: Vec<u64>,
}

/// The number of elements of a tensor of this shape: the product of its dimensions.
pub open spec fn element_count(shape: Seq<usize>) -> int {
    suffix_product(shape, 0)
}

/// Every partial product of the dimensions, taken from the last one backwards, fits in a
/// `usize`.
pub open spec fn shape_fits(shape: Seq<usize>) -> bool {
    forall|i: int| 0 <= i <= shape.len() ==> #[trigger] suffix_product(shape, i) <= usize::MAX
}

/// The row-major strides of a shape.
pub open spec fn row_major_strides(shape: Seq<usize>) -> Seq<usize> {
    Seq::new(shape.len(), |i: int| suffix_product(shape, i + 1) as usize)
}

/// The dimensions separated by `", "`.
pub open spec fn dims_body(shape: Seq<usize>) -> Seq<char>
    decreases shape.len(),
{
    if shape.len() == 0 {
        Seq::empty()
    } else if shape.len() == 1 {
        decimal(shape[0] as nat)
    } else {
        dims_body(shape.drop_last()) + ", "@ + decimal(shape.last() as nat)
    }
}

/// A shape as a list in brackets, such as `[2, 3]`.
pub open spec fn dims_text(shape: Seq<usize>) -> Seq<char> {
    "["@ + dims_body(shape) + "]"@
}

/// The message for elements that do not fill a shape.
pub open spec fn size_error(shape: Seq<usize>, len: nat) -> Seq<char> {
    "Shape "@ + dims_text(shape) + " requires "@ + decimal(element_count(shape) as nat)
        + " elements, but provided data has "@ + decimal(len)
}

/// The message for a transposition of a tensor that is not a matrix.
pub open spec fn transpose_error(shape: Seq<usize>) -> Seq<char> {
    "transpose requires 2D matrix, got shape "@ + dims_text(shape)
}

/// `len` copies of `bits`.
pub open spec fn filled(len: int, bits: u64) -> Seq<u64> {
    Seq::new(len as nat, |i: int| bits)
}

/// The elements of the `n` by `n` identity matrix: element `k` stands in row `k / n` and
/// column `k % n`, and is one on the diagonal.
pub open spec fn eye_bits(n: int) -> Seq<u64> {
    Seq::new((n * n) as nat, |k: int| if k / n == k % n { ONE_BITS } else { ZERO_BITS })
}

/// The elements of the transpose of a `rows` by `cols` matrix: element `k` of the result
/// stands in row `k / rows` and column `k % rows`, so it is the element of row `k % rows` and
/// column `k / rows` of the matrix.
pub open spec fn transposed(d: Seq<u64>, rows: int, cols: int) -> Seq<u64> {
    Seq::new((rows * cols) as nat, |k: int| d[(k % rows) * cols + k / rows])
}

impl TensorData {
    /// The shape fits in a `usize`, the strides are the row-major strides of the shape, and
    /// there is one element for each position.
    pub open spec fn wf(&self) -> bool {
        &&& shape_fits(self.shape@)
        &&& self.strides@ == row_major_strides(self.shape@)
        &&& self.data@.len() == element_count(self.shape@)
    }
}

proof fn lemma_dims_body_step(shape: Seq<usize>, i: int)
    requires
        0 <= i < shape.len(),
    ensures
        dims_body(shape.take(i + 1)) == if i == 0 {
            decimal(shape[0] as nat)
        } else {
            dims_body(shape.take(i)) + ", "@ + decimal(shape[i] as nat)
        },
{
    assert(shape.take(i + 1).drop_last() =~= shape.take(i));
}

/// Appends the dimensions of `shape` in brackets.
pub(crate) fn push_dims(out: &mut String, shape: &[usize])
    ensures
        final(out)@ == old(out)@ + dims_text(shape@),
{
    let ghost start = out@;
    push_char(out, '[');
    proof {
        reveal_strlit("[");
        assert(shape@.take(0) =~= Seq::<usize>::empty());
    }
    let mut i: usize = 0;
    while i < shape.len()
        invariant
            i <= shape@.len(),
            out@ == start + "["@ + dims_body(shape@.take(i as int)),
        decreases shape@.len() - i,
    {
        proof {
            lemma_dims_body_step(shape@, i as int);
        }
        if i > 0 {
            push_str(out, ", ");
        } else {
            assert(dims_body(shape@.take(0)) == Seq::<char>::empty());
        }
        push_decimal(out, shape[i] as u64);
        i = i + 1;
    }
    assert(shape@.take(shape@.len() as int) =~= shape@);
    push_str(out, "]");
    assert(out@ =~= start + dims_text(shape@));
}

/// The product of the dimensions of `shape`.
fn count_elements(shape: &[usize]) -> (n: usize)
    requires
        shape_fits(shape@),
    ensures
        n == element_count(shape@),
{
    let mut acc: usize = 1;
    let mut i: usize = shape.len();
    while i > 0
        invariant
            i <= shape@.len(),
            shape_fits(shape@),
            acc == suffix_product(shape@, i as int),
        decreases i,
    {
        assert(suffix_product(shape@, i - 1) == shape@[i - 1] * suffix_product(shape@, i as int));
        assert(suffix_product(shape@, i - 1) <= usize::MAX);
        acc = shape[i - 1] * acc;
        i = i - 1;
    }
    acc
}

/// The strides of a shape that fits.
fn strides_of(shape: &Vec<usize>) -> (r: Vec<usize>)
    requires
        shape_fits(shape@),
    ensures
        r@ == row_major_strides(shape@),
{
    let r = compute_strides(shape.as_slice());
    assert(r@ =~= row_major_strides(shape@));
    r
}

/// `len` copies of `bits`.
fn fill(len: usize, bits: u64) -> (v: Vec<u64>)
    ensures
        v@ == filled(len as int, bits),
{
    let mut v: Vec<u64> = Vec::new();
    let mut k: usize = 0;
    while k < len
        invariant
            k <= len,
            v@ == filled(k as int, bits),
        decreases len - k,
    {
        v.push(bits);
        k = k + 1;
        assert(v@ =~= filled(k as int, bits));
    }
    v
}

proof fn lemma_transpose_index(k: int, rows: int, cols: int)
    requires
        0 <= k < rows * cols,
        0 < rows,
        0 < cols,
    ensures
        0 <= k % rows < rows,
        0 <= k / rows < cols,
        (k % rows) * cols + k / rows < rows * cols,
{
    lemma_fundamental_div_mod(k, rows);
    let r = k % rows;
    let c = k / rows;
    assert(0 <= r < rows);
    assert(0 <= c < cols) by (nonlinear_arith)
        requires
            k == rows * c + r,
            0 <= r < rows,
            0 <= k < rows * cols,
            0 < rows,
    ;
    assert(r * cols + c < rows * cols) by (nonlinear_arith)
        requires
            0 <= r < rows,
            0 <= c < cols,
    ;
}

proof fn lemma_matrix_fits(shape: Seq<usize>)
    requires
        shape.len() == 2,
        shape_fits(shape),
    ensures
        element_count(shape) == shape[0] * shape[1],
        shape_fits(seq![shape[1], shape[0]]),
        element_count(seq![shape[1], shape[0]]) == shape[0] * shape[1],
{
    let t = seq![shape[1], shape[0]];
    assert(suffix_product(shape, 2) == 1);
    assert(suffix_product(shape, 1) == shape[1] * suffix_product(shape, 2));
    assert(suffix_product(shape, 1) == shape[1]);
    assert(suffix_product(shape, 0) <= usize::MAX);
    assert(suffix_product(t, 2) == 1);
    assert(suffix_product(t, 1) == t[1] * suffix_product(t, 2));
    assert(suffix_product(t, 1) == shape[0]);
    assert(shape[1] * shape[0] == shape[0] * shape[1]) by (nonlinear_arith);
    assert(suffix_product(t, 0) == shape[0] * shape[1]);
    assert(suffix_product(shape, 1) <= usize::MAX);
    assert(forall|i: int| 0 <= i <= t.len() ==> #[trigger] suffix_product(t, i) <= usize::MAX) by {
        assert forall|i: int| 0 <= i <= t.len() implies #[trigger] suffix_product(t, i)
            <= usize::MAX by {
            if i == 0 {
            } else if i == 1 {
                assert(shape[0] <= usize::MAX);
            } else {
            }
        }
    }
}

impl TensorData {
    /// A tensor of the given shape holding `data`; an error where the number of elements is
    /// not the product of the dimensions.
    pub fn new(shape: Vec<usize>, data: Vec<u64>) -> (r: Result<TensorData, String>)
        requires
            shape_fits(shape@),
        ensures
            match r {
                Ok(t) => {
                    &&& data@.len() == element_count(shape@)
                    &&& t.wf()
                    &&& t.shape@ == shape@
                    &&& t.data@ == data@
                },
                Err(e) => data@.len() != element_count(shape@) && e@ == size_error(
                    shape@,
                    data@.len(),
                ),
            },
    {
        let expected = count_elements(shape.as_slice());
        if expected != data.len() {
            let mut msg = new_string();
            push_str(&mut msg, "Shape ");
            push_dims(&mut msg, shape.as_slice());
            push_str(&mut msg, " requires ");
            push_decimal(&mut msg, expected as u64);
            push_str(&mut msg, " elements, but provided data has ");
            push_decimal(&mut msg, data.len() as u64);
            assert(msg@ =~= size_error(shape@, data@.len()));
            return Err(msg);
        }
        let strides = strides_of(&shape);
        Ok(TensorData { shape, strides, data })
    }

    fn filled_with(shape: Vec<usize>, bits: u64) -> (t: TensorData)
        requires
            shape_fits(shape@),
        ensures
            t.wf(),
            t.shape@ == shape@,
            t.data@ == filled(element_count(shape@), bits),
    {
        let size = count_elements(shape.as_slice());
        let strides = strides_of(&shape);
        let data = fill(size, bits);
        TensorData { shape, strides, data }
    }

    /// A tensor of the given shape whose elements are all `0.0`.
    pub fn zeros(shape: Vec<usize>) -> (t: TensorData)
        requires
            shape_fits(shape@),
        ensures
            t.wf(),
            t.shape@ == shape@,
            t.data@ == filled(element_count(shape@), ZERO_BITS),
    {
        Self::filled_with(shape, ZERO_BITS)
    }

    /// A tensor of the given shape whose elements are all `1.0`.
    pub fn ones(shape: Vec<usize>) -> (t: TensorData)
        requires
            shape_fits(shape@),
        ensures
            t.wf(),
            t.shape@ == shape@,
            t.data@ == filled(element_count(shape@), ONE_BITS),
    {
        Self::filled_with(shape, ONE_BITS)
    }

    /// The `n` by `n` identity matrix.
    pub fn eye(n: usize) -> (t: TensorData)
        requires
            n * n <= usize::MAX,
        ensures
            t.wf(),
            t.shape@ == seq![n, n],
            t.strides@ == seq![n, 1usize],
            t.data@ == eye_bits(n as int),
    {
        let size = n * n;
        let mut data: Vec<u64> = Vec::new();
        let mut k: usize = 0;
        while k < size
            invariant
                k <= size == n * n,
                data@ =~= Seq::new(
                    k as nat,
                    |j: int| if j / (n as int) == j % (n as int) { ONE_BITS } else { ZERO_BITS },
                ),
            decreases size - k,
        {
            assert(n > 0) by (nonlinear_arith)
                requires
                    k < size,
                    size == n * n,
            ;
            let bits = if k / n == k % n { ONE_BITS } else { ZERO_BITS };
            data.push(bits);
            k = k + 1;
        }
        let shape = vec![n, n];
        let strides = vec![n, 1usize];
        proof {
            assert(suffix_product(shape@, 2) == 1);
            assert(suffix_product(shape@, 1) == n);
            assert(suffix_product(shape@, 0) == n * n);
            assert(n <= usize::MAX);
            assert(shape_fits(shape@));
            assert(strides@ =~= row_major_strides(shape@));
            assert(data@ =~= eye_bits(n as int));
        }
        TensorData { shape, strides, data }
    }

    /// The transpose of a matrix; an error for a tensor that is not two-dimensional.
    pub fn transpose(&self) -> (r: Result<TensorData, String>)
        requires
            self.wf(),
        ensures
            match r {
                Ok(t) => {
                    &&& self.shape@.len() == 2
                    &&& t.wf()
                    &&& t.shape@ == seq![self.shape@[1], self.shape@[0]]
                    &&& t.data@ == transposed(
                        self.data@,
                        self.shape@[0] as int,
                        self.shape@[1] as int,
                    )
                },
                Err(e) => self.shape@.len() != 2 && e@ == transpose_error(self.shape@),
            },
    {
        if self.shape.len() != 2 {
            let mut msg = new_string();
            push_str(&mut msg, "transpose requires 2D matrix, got shape ");
            push_dims(&mut msg, self.shape.as_slice());
            return Err(msg);
        }
        let rows = self.shape[0];
        let cols = self.shape[1];
        proof {
            lemma_matrix_fits(self.shape@);
        }
        let size = rows * cols;
        let mut out: Vec<u64> = Vec::new();
        let mut k: usize = 0;
        while k < size
            invariant
                k <= size == rows * cols,
                self.data@.len() == rows * cols,
                out@ =~= Seq::new(
                    k as nat,
                    |j: int| self.data@[(j % (rows as int)) * (cols as int) + j / (rows as int)],
                ),
            decreases size - k,
        {
            assert(rows > 0 && cols > 0) by (nonlinear_arith)
                requires
                    k < size,
                    size == rows * cols,
            ;
            proof {
                lemma_transpose_index(k as int, rows as int, cols as int);
            }
            let src = (k % rows) * cols + k / rows;
            out.push(self.data[src]);
            k = k + 1;
        }
        let shape = vec![cols, rows];
        proof {
            assert(shape@ =~= seq![self.shape@[1], self.shape@[0]]);
        }
        let strides = strides_of(&shape);
        proof {
            assert(out@ =~= transposed(self.data@, rows as int, cols as int));
        }
        Ok(TensorData { shape, strides, data: out })
    }

    /// The same elements under another shape; an error where their number is not the product
    /// of the new dimensions.
    pub fn reshape(&self, new_shape: Vec<usize>) -> (r: Result<TensorData, String>)
        requires
            shape_fits(new_shape@),
        ensures
            match r {
                Ok(t) => {
                    &&& self.data@.len() == element_count(new_shape@)
                    &&& t.wf()
                    &&& t.shape@ == new_shape@
                    &&& t.data@ == self.data@
                },
                Err(e) => self.data@.len() != element_count(new_shape@) && e@ == size_error(
                    new_shape@,
                    self.data@.len(),
                ),
            },
    {
        let data = self.data.clone();
        assert(data@ =~= self.data@);
        Self::new(new_shape, data)
    }

    /// A tensor of the same shape whose elements are all `0.0`.
    pub fn zeros_like(&self) -> (t: TensorData)
        requires
            self.wf(),
        ensures
            t.wf(),
            t.shape@ == self.shape@,
            t.data@ == filled(element_count(self.shape@), ZERO_BITS),
    {
        let shape = self.shape.clone();
        assert(shape@ =~= self.shape@);
        Self::zeros(shape)
    }

    /// A tensor of the same shape whose elements are all `1.0`.
    pub fn ones_like(&self) -> (t: TensorData)
        requires
            self.wf(),
        ensures
            t.wf(),
            t.shape@ == self.shape@,
            t.data@ == filled(element_count(self.shape@), ONE_BITS),
    {
        let shape = self.shape.clone();
        assert(shape@ =~= self.shape@);
        Self::ones(shape)
    }
}

/// Transposing a matrix twice gives back its elements.
pub proof fn lemma_transpose_twice(d: Seq<u64>, rows: int, cols: int)
    requires
        0 <= rows,
        0 <= cols,
        d.len() == rows * cols,
    ensures
        transposed(transposed(d, rows, cols), cols, rows) == d,
{
    let t = transposed(d, rows, cols);
    let tt = transposed(t, cols, rows);
    assert(cols * rows == rows * cols) by (nonlinear_arith);
    assert forall|k: int| 0 <= k < d.len() implies #[trigger] tt[k] == d[k] by {
        assert(rows > 0 && cols > 0) by (nonlinear_arith)
            requires
                0 <= k < rows * cols,
                0 <= rows,
                0 <= cols,
        ;
        lemma_transpose_index(k, cols, rows);
        let a = k % cols;
        let b = k / cols;
        let j = a * rows + b;
        lemma_fundamental_div_mod_converse(j, rows, a, b);
        lemma_transpose_index(j, rows, cols);
        lemma_fundamental_div_mod(k, cols);
        assert(b * cols + a == k) by (nonlinear_arith)
            requires
                k == cols * b + a,
        ;
    }
    assert(tt =~= d);
}

} // verus!
