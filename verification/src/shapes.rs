//! Index arithmetic of dense arrays: the dimensions of a compute grid, the strides of a
//! row-major shape, and the pseudo-random sequence that fills arrays with noise.
use vstd::prelude::*;
use crate::text::string_of;
use crate::value::{Value, ValueView};

verus! {

/// `usize::max(v, 1)`.
pub open spec fn at_least_one(v: usize) -> usize {
    if v == 0 {
        1
    } else {
        v
    }
}

/// Dimension `k` of a grid given as a list: an integer item cast to `usize`, at least 1; 1 when
/// the item is missing or not an integer.
pub open spec fn dim_of(items: Seq<ValueView>, k: int) -> usize {
    if k < items.len() && items[k] is Int {
        at_least_one(items[k]->Int_0 as usize)
    } else {
        1
    }
}

/// The grid dimensions that a value gives.
pub open spec fn dims_spec(v: ValueView) -> Result<[usize; 3], Seq<char>> {
    match v {
        ValueView::Array(items) => Ok([dim_of(items, 0), dim_of(items, 1), dim_of(items, 2)]),
        ValueView::Int(i) => Ok([at_least_one(i as usize), 1, 1]),
        _ => Err("Dimensions must be an array [x, y, z] or single integer"@),
    }
}

fn dim_at(items: &Vec<Value>, k: usize) -> (d: usize)
    ensures
        d == dim_of(crate::value::models(items@), k as int),
{
    proof {
        crate::value::lemma_models(items@);
    }
    if k < items.len() {
        match &items[k] {
            Value::Int(i) => {
                let v = *i as usize;
                if v == 0 {
                    1
                } else {
                    v
                }
            },
            _ => 1,
        }
    } else {
        1
    }
}

/// The dimensions `[x, y, z]` of a compute grid: from a list, its first three integers (each
/// at least 1, a missing or non-integer item counting as 1), or from one integer `[n, 1, 1]`.
pub fn parse_dims(val: &Value) -> (r: Result<[usize; 3], String>)
    ensures
        match r {
            Ok(d) => dims_spec(val@) == Ok::<[usize; 3], Seq<char>>(d),
            Err(e) => dims_spec(val@) == Err::<[usize; 3], Seq<char>>(e@),
        },
{
    match val {
        Value::Array(items) => Ok([dim_at(items, 0), dim_at(items, 1), dim_at(items, 2)]),
        Value::Int(i) => {
            let v = *i as usize;
            Ok([if v == 0 { 1 } else { v }, 1, 1])
        },
        _ => Err(string_of("Dimensions must be an array [x, y, z] or single integer")),
    }
}

/// The product of the dimensions from `i` on.
pub open spec fn suffix_product(shape: Seq<usize>, i: int) -> int
    decreases shape.len() - i,
{
    if i >= shape.len() {
        1
    } else {
        shape[i] * suffix_product(shape, i + 1)
    }
}

/// The row-major strides of `shape`: each dimension's stride is the product of the dimensions
/// after it.
pub fn compute_strides(shape: &[usize]) -> (r: Vec<usize>)
    requires
        forall|i: int| 1 <= i <= shape@.len() ==> #[trigger] suffix_product(shape@, i) <= usize::MAX,
    ensures
        r@.len() == shape@.len(),
        forall|i: int| 0 <= i < shape@.len() ==> #[trigger] r@[i] == suffix_product(shape@, i + 1),
{
    let n = shape.len();
    let mut strides: Vec<usize> = Vec::new();
    let mut k: usize = 0;
    while k < n
        invariant
            k <= n == shape@.len(),
            strides@.len() == k,
            forall|j: int| 0 <= j < k ==> strides@[j] == 1,
        decreases n - k,
    {
        strides.push(1);
        k = k + 1;
    }
    if n == 0 {
        return strides;
    }
    let mut i: usize = n - 1;
    assert(suffix_product(shape@, n as int) == 1);
    while i > 0
        invariant
            0 <= i < n == shape@.len(),
            strides@.len() == n,
            forall|i2: int| 1 <= i2 <= shape@.len() ==> #[trigger] suffix_product(shape@, i2) <= usize::MAX,
            forall|j: int| i <= j < n ==> #[trigger] strides@[j] == suffix_product(shape@, j + 1),
            forall|j: int| 0 <= j < i ==> strides@[j] == 1,
        decreases i,
    {
        let ghost a = strides@[i as int] as int;
        let ghost b = shape@[i as int] as int;
        let ghost c = suffix_product(shape@, i + 1);
        assert(suffix_product(shape@, i as int) == b * c);
        assert(a == c);
        assert(a * b == b * c) by (nonlinear_arith)
            requires
                a == c,
        ;
        assert(suffix_product(shape@, i as int) <= usize::MAX);
        let s = strides[i] * shape[i];
        strides.set(i - 1, s);
        i = i - 1;
    }
    strides
}

/// One output of the mixing function that turns a counter into a well-spread 64-bit value.
pub open spec fn mix64(z0: u64) -> u64 {
    let z1 = ((((z0 ^ (z0 >> 30u64)) as nat) * 0xbf58476d1ce4e5b9nat) % 0x1_0000_0000_0000_0000nat) as u64;
    let z2 = ((((z1 ^ (z1 >> 27u64)) as nat) * 0x94d049bb133111ebnat) % 0x1_0000_0000_0000_0000nat) as u64;
    z2 ^ (z2 >> 31u64)
}

/// The step by which the counter advances.
pub const GOLDEN_GAMMA: u64 = 0x9e3779b97f4a7c15;

/// The counter that the generator starts from.
pub const RNG_SEED: u64 = 0x853c49e6748fea9b;

/// The next pseudo-random number: the mix of the current counter, which then advances by the
/// golden-ratio step (wrapping).
pub fn next_random_u64(state: &mut u64) -> (r: u64)
    ensures
        r == mix64(*old(state)),
        *final(state) == ((*old(state) as nat + GOLDEN_GAMMA as nat) % 0x1_0000_0000_0000_0000nat) as u64,
{
    let mut z = *state;
    *state = state.wrapping_add(GOLDEN_GAMMA);
    z = (z ^ (z >> 30)).wrapping_mul(0xbf58476d1ce4e5b9);
    z = (z ^ (z >> 27)).wrapping_mul(0x94d049bb133111eb);
    z ^ (z >> 31)
}

} // verus!
