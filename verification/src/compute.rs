//! Compute buffers: dense three-dimensional grids of floats, addressed by `(x, y, z)` with `x`
//! varying fastest; and the split of a run of work into the contiguous chunks that the workers
//! take. An element is held as the bit pattern of a 64-bit float.
use vstd::prelude::*;
use vstd::arithmetic::div_mod::lemma_fundamental_div_mod;
use crate::tensor::{dims_text, push_dims};
use crate::text::{decimal, new_string, push_char, push_decimal, push_str};

verus! {

/// A grid of `dims[0] * dims[1] * dims[2]` elements.
#[derive(Clone, Debug)]
pub struct ComputeBuffer {
    pub dims: [usize; 3],
    pub data: Vec<u64>,
}

/// The number of elements of a grid.
pub open spec fn grid_len(dims: [usize; 3]) -> int {
    dims[0] * dims[1] * dims[2]
}

/// The products that sizing a grid computes fit in a `usize`.
pub open spec fn grid_fits(dims: [usize; 3]) -> bool {
    &&& dims[0] * dims[1] <= usize::MAX
    &&& grid_len(dims) <= usize::MAX
}

/// The position of `(x, y, z)` in the elements.
pub open spec fn linear_index_spec(dims: [usize; 3], x: int, y: int, z: int) -> int {
    z * (dims[0] * dims[1]) + y * dims[0] + x
}

/// `(x, y, z)` lies inside the grid.
pub open spec fn in_grid(dims: [usize; 3], x: int, y: int, z: int) -> bool {
    x < dims[0] && y < dims[1] && z < dims[2]
}

/// The message for elements that do not fill a grid.
pub open spec fn buffer_size_error(dims: [usize; 3], len: nat) -> Seq<char> {
    "Buffer size mismatch: expected "@ + decimal(grid_len(dims) as nat) + " elements for dims "@
        + dims_text(dims@) + ", got "@ + decimal(len)
}

/// The message for a position outside the grid.
pub open spec fn index_error(dims: [usize; 3], x: nat, y: nat, z: nat) -> Seq<char> {
    "Index out of bounds: ("@ + decimal(x) + ", "@ + decimal(y) + ", "@ + decimal(z)
        + ") for dims "@ + dims_text(dims@)
}

proof fn lemma_index_in_grid(dims: [usize; 3], x: int, y: int, z: int)
    requires
        0 <= x,
        0 <= y,
        0 <= z,
        in_grid(dims, x, y, z),
    ensures
        0 <= linear_index_spec(dims, x, y, z) < grid_len(dims),
{
    let a = dims[0] as int;
    let b = dims[1] as int;
    let c = dims[2] as int;
    assert(0 <= z * (a * b) + y * a + x < a * b * c) by (nonlinear_arith)
        requires
            0 <= x < a,
            0 <= y < b,
            0 <= z < c,
    ;
}

fn dims_list(dims: [usize; 3]) -> (v: Vec<usize>)
    ensures
        v@ == dims@,
{
    let v = vec![dims[0], dims[1], dims[2]];
    assert(v@ =~= dims@);
    v
}

impl ComputeBuffer {
    /// The elements fill the grid, whose size fits in a `usize`.
    pub open spec fn wf(&self) -> bool {
        &&& grid_fits(self.dims)
        &&& self.data@.len() == grid_len(self.dims)
    }

    /// A buffer of the given dimensions holding `data`; an error where the number of elements
    /// is not the size of the grid.
    pub fn new(dims: [usize; 3], data: Vec<u64>) -> (r: Result<ComputeBuffer, String>)
        requires
            grid_fits(dims),
        ensures
            match r {
                Ok(b) => b.wf() && b.dims == dims && b.data@ == data@,
                Err(e) => data@.len() != grid_len(dims) && e@ == buffer_size_error(
                    dims,
                    data@.len(),
                ),
            },
    {
        let expected = dims[0] * dims[1] * dims[2];
        if data.len() != expected {
            let mut msg = new_string();
            push_str(&mut msg, "Buffer size mismatch: expected ");
            push_decimal(&mut msg, expected as u64);
            push_str(&mut msg, " elements for dims ");
            let list = dims_list(dims);
            push_dims(&mut msg, list.as_slice());
            push_str(&mut msg, ", got ");
            push_decimal(&mut msg, data.len() as u64);
            assert(msg@ =~= buffer_size_error(dims, data@.len()));
            return Err(msg);
        }
        Ok(ComputeBuffer { dims, data })
    }

    /// A buffer of the given dimensions whose elements are all `0.0`.
    pub fn zeros(dims: [usize; 3]) -> (b: ComputeBuffer)
        requires
            grid_fits(dims),
        ensures
            b.wf(),
            b.dims == dims,
            forall|i: int| 0 <= i < b.data@.len() ==> #[trigger] b.data@[i] == 0u64,
    {
        let len = dims[0] * dims[1] * dims[2];
        let mut data: Vec<u64> = Vec::new();
        let mut k: usize = 0;
        while k < len
            invariant
                k <= len,
                data@.len() == k,
                forall|i: int| 0 <= i < k ==> #[trigger] data@[i] == 0u64,
            decreases len - k,
        {
            data.push(0);
            k = k + 1;
        }
        ComputeBuffer { dims, data }
    }

    /// The number of elements.
    pub fn len(&self) -> (n: usize)
        ensures
            n == self.data@.len(),
    {
        self.data.len()
    }

    /// Whether there are no elements.
    pub fn is_empty(&self) -> (b: bool)
        ensures
            b == (self.data@.len() == 0),
    {
        self.data.len() == 0
    }

    /// The position of `(x, y, z)` in the elements: `z * (X * Y) + y * X + x`.
    pub fn linear_index(&self, x: usize, y: usize, z: usize) -> (i: usize)
        requires
            self.dims[0] * self.dims[1] <= usize::MAX,
            linear_index_spec(self.dims, x as int, y as int, z as int) <= usize::MAX,
        ensures
            i == linear_index_spec(self.dims, x as int, y as int, z as int),
    {
        let plane = self.dims[0] * self.dims[1];
        assert(z * plane <= usize::MAX && y * self.dims[0] <= usize::MAX) by (nonlinear_arith)
            requires
                z * plane + y * self.dims[0] + x <= usize::MAX,
                0 <= x,
                0 <= y,
                0 <= z,
                0 <= plane,
        ;
        z * plane + y * self.dims[0] + x
    }

    /// The element at `(x, y, z)`; `None` outside the grid.
    pub fn get(&self, x: usize, y: usize, z: usize) -> (r: Option<u64>)
        requires
            self.wf(),
        ensures
            in_grid(self.dims, x as int, y as int, z as int) ==> r == Some(
                self.data@[linear_index_spec(self.dims, x as int, y as int, z as int)],
            ),
            !in_grid(self.dims, x as int, y as int, z as int) ==> r is None,
    {
        if x < self.dims[0] && y < self.dims[1] && z < self.dims[2] {
            proof {
                lemma_index_in_grid(self.dims, x as int, y as int, z as int);
            }
            let i = self.linear_index(x, y, z);
            Some(self.data[i])
        } else {
            None
        }
    }

    /// Writes the element at `(x, y, z)`; an error, and no change, outside the grid.
    pub fn set(&mut self, x: usize, y: usize, z: usize, val: u64) -> (r: Result<(), String>)
        requires
            old(self).wf(),
        ensures
            final(self).wf(),
            final(self).dims == old(self).dims,
            match r {
                Ok(()) => {
                    &&& in_grid(old(self).dims, x as int, y as int, z as int)
                    &&& final(self).data@ == old(self).data@.update(
                        linear_index_spec(old(self).dims, x as int, y as int, z as int),
                        val,
                    )
                },
                Err(e) => {
                    &&& !in_grid(old(self).dims, x as int, y as int, z as int)
                    &&& final(self).data@ == old(self).data@
                    &&& e@ == index_error(old(self).dims, x as nat, y as nat, z as nat)
                },
            },
    {
        if x < self.dims[0] && y < self.dims[1] && z < self.dims[2] {
            proof {
                lemma_index_in_grid(self.dims, x as int, y as int, z as int);
            }
            let i = self.linear_index(x, y, z);
            self.data.set(i, val);
            Ok(())
        } else {
            let mut msg = new_string();
            push_str(&mut msg, "Index out of bounds: (");
            push_decimal(&mut msg, x as u64);
            push_str(&mut msg, ", ");
            push_decimal(&mut msg, y as u64);
            push_str(&mut msg, ", ");
            push_decimal(&mut msg, z as u64);
            push_str(&mut msg, ") for dims ");
            let list = dims_list(self.dims);
            push_dims(&mut msg, list.as_slice());
            assert(msg@ =~= index_error(self.dims, x as nat, y as nat, z as nat));
            Err(msg)
        }
    }
}

/// The length of each chunk when `total` items are shared among `workers`: `total / workers`
/// rounded up.
pub open spec fn chunk_len(total: int, workers: int) -> int {
    (total + workers - 1) / workers
}

/// The chunks of `0..total` that the workers take: chunk `i` is `i * c .. min((i + 1) * c,
/// total)` for the chunk length `c`, as many as it takes to reach `total`. They follow each
/// other without gap or overlap, none is empty, and there are at most `workers` of them.
pub fn chunk_bounds(total: usize, workers: usize) -> (r: Vec<(usize, usize)>)
    requires
        workers >= 1,
        total + workers <= usize::MAX,
    ensures
        forall|i: int|
            0 <= i < r@.len() ==> {
                let c = chunk_len(total as int, workers as int);
                &&& (#[trigger] r@[i]).0 == i * c
                &&& r@[i].1 == if (i + 1) * c < total {
                    (i + 1) * c
                } else {
                    total as int
                }
            },
        r@.len() <= workers,
        total == 0 ==> r@.len() == 0,
        total > 0 ==> r@.len() > 0 && r@[0].0 == 0 && r@[r@.len() - 1].1 == total,
        forall|i: int| 0 <= i < r@.len() ==> (#[trigger] r@[i]).0 < r@[i].1,
        forall|i: int| 0 <= i < r@.len() - 1 ==> (#[trigger] r@[i]).1 == r@[i + 1].0,
{
    let mut r: Vec<(usize, usize)> = Vec::new();
    if total == 0 {
        return r;
    }
    let c = (total + workers - 1) / workers;
    let ghost cs = c as int;
    proof {
        lemma_fundamental_div_mod((total + workers - 1) as int, workers as int);
        assert(cs >= 1 && workers * cs >= total) by (nonlinear_arith)
            requires
                total + workers - 1 == workers * cs + (total + workers - 1) % (workers as int),
                0 <= (total + workers - 1) % (workers as int) < workers,
                total >= 1,
                workers >= 1,
        ;
    }
    let mut start: usize = 0;
    while start < total
        invariant
            1 <= c,
            c == chunk_len(total as int, workers as int),
            workers * c >= total,
            total >= 1,
            start <= total,
            start < total ==> start == r@.len() * c,
            start == total ==> r@.len() > 0 && (r@.len() - 1) * c < total,
            r@.len() > 0 ==> r@[r@.len() - 1].1 == start,
            r@.len() == 0 ==> start == 0,
            forall|i: int|
                0 <= i < r@.len() ==> {
                    &&& (#[trigger] r@[i]).0 == i * c
                    &&& r@[i].1 == if (i + 1) * c < total {
                        (i + 1) * c
                    } else {
                        total as int
                    }
                },
        decreases total - start,
    {
        let ghost len = r@.len() as int;
        assert((len + 1) * c == len * c + c) by (nonlinear_arith);
        let end = if c < total - start { start + c } else { total };
        r.push((start, end));
        start = end;
        proof {
            if start == total {
                assert((r@.len() - 1) * c < total);
            }
        }
    }
    proof {
        let n = r@.len() as int;
        assert(n <= workers) by (nonlinear_arith)
            requires
                (n - 1) * c < total,
                workers * c >= total,
                c >= 1,
                n >= 1,
        ;
        assert forall|i: int| 0 <= i < r@.len() implies (#[trigger] r@[i]).0 < r@[i].1 by {
            assert((i + 1) * c == i * c + c) by (nonlinear_arith);
            assert(i * c <= (n - 1) * c) by (nonlinear_arith)
                requires
                    i <= n - 1,
                    c >= 1,
            ;
        }
        assert forall|i: int| 0 <= i < r@.len() - 1 implies (#[trigger] r@[i]).1 == r@[i + 1].0 by {
            assert((i + 1) * c <= (n - 1) * c) by (nonlinear_arith)
                requires
                    i + 1 <= n - 1,
                    c >= 1,
            ;
        }
    }
    r
}

} // verus!
