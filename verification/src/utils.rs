//! Numeric utilities over binary32 bit-pattern vectors: dot product,
//! in-place L2 normalization, and arithmetic mean.

use vstd::prelude::*;

use crate::numeric::{
    add_bits, bits_add, bits_div, bits_is_finite, bits_mul, bits_of_u64, bits_sqrt, div_bits,
    is_finite_bits, mul_bits, of_u64_bits, sqrt_bits, F_ONE, F_ZERO,
};

verus! {

/// The number of component pairs a dot product runs over: the shorter length.
pub open spec fn min_len(a: Seq<u32>, b: Seq<u32>) -> int {
    if a.len() <= b.len() {
        a.len() as int
    } else {
        b.len() as int
    }
}

/// The left fold of `acc + a[j] * b[j]` over `j` in `[i, min_len)`, in
/// binary32 arithmetic.
pub open spec fn dot_from(a: Seq<u32>, b: Seq<u32>, i: int, acc: u32) -> u32
    decreases min_len(a, b) - i,
{
    if i < 0 || i >= min_len(a, b) {
        acc
    } else {
        dot_from(a, b, i + 1, bits_add(acc, bits_mul(a[i], b[i])))
    }
}

/// The dot product of `a` and `b` in binary32 arithmetic, accumulated left to
/// right from `+0` over the first `min_len(a, b)` component pairs.
pub open spec fn dot_spec(a: Seq<u32>, b: Seq<u32>) -> u32 {
    dot_from(a, b, 0, F_ZERO)
}

/// Returns the binary32 dot product of the two vectors, truncated to the
/// shorter input when the lengths differ.
pub fn dot_product(arr1: &Vec<u32>, arr2: &Vec<u32>) -> (r: u32)
    ensures
        r == dot_spec(arr1@, arr2@),
{
    let n: usize = if arr1.len() <= arr2.len() {
        arr1.len()
    } else {
        arr2.len()
    };
    let mut result: u32 = F_ZERO;
    let mut i: usize = 0;
    while i < n
        invariant
            i <= n,
            n == min_len(arr1@, arr2@),
            dot_from(arr1@, arr2@, i as int, result) == dot_spec(arr1@, arr2@),
        decreases n - i,
    {
        result = add_bits(result, mul_bits(arr1[i], arr2[i]));
        i = i + 1;
    }
    result
}

/// The scale factor normalization multiplies by: `1 / sqrt(dot(v, v))` in
/// binary32 arithmetic.
pub open spec fn norm_scale(v: Seq<u32>) -> u32 {
    bits_div(F_ONE, bits_sqrt(dot_spec(v, v)))
}

/// The L2-normalized form of `v`: every component multiplied by the scale
/// factor when that factor is finite, and `v` unchanged otherwise (an
/// all-zero vector yields an infinite factor and is left as it is).
pub open spec fn normalized(v: Seq<u32>) -> Seq<u32> {
    let s = norm_scale(v);
    if bits_is_finite(s) {
        Seq::new(v.len(), |i: int| bits_mul(v[i], s))
    } else {
        v
    }
}

/// Scales the vector in place to unit L2 norm, leaving it unchanged when the
/// scale factor is not finite.
pub fn vector_norm(vector: &mut Vec<u32>)
    ensures
        final(vector)@ == normalized(old(vector)@),
{
    let sum_sq = dot_product(vector, vector);
    let s = div_bits(F_ONE, sqrt_bits(sum_sq));
    if is_finite_bits(s) {
        let n = vector.len();
        let mut i: usize = 0;
        while i < n
            invariant
                i <= n,
                n == vector@.len(),
                vector@.len() == old(vector)@.len(),
                s == norm_scale(old(vector)@),
                bits_is_finite(s),
                forall|j: int| 0 <= j < i ==> vector@[j] == bits_mul(old(vector)@[j], s),
                forall|j: int| i <= j < n ==> vector@[j] == old(vector)@[j],
            decreases n - i,
        {
            let x = vector[i];
            vector[i] = mul_bits(x, s);
            i = i + 1;
        }
        assert(vector@ =~= normalized(old(vector)@));
    }
}

/// The left fold of binary32 addition over `xs[i..]`, starting from `acc`.
pub open spec fn sum_from(xs: Seq<u32>, i: int, acc: u32) -> u32
    decreases xs.len() - i,
{
    if i < 0 || i >= xs.len() {
        acc
    } else {
        sum_from(xs, i + 1, bits_add(acc, xs[i]))
    }
}

/// The binary32 sum of `xs`, accumulated left to right from `+0`.
pub open spec fn sum_spec(xs: Seq<u32>) -> u32 {
    sum_from(xs, 0, F_ZERO)
}

/// The binary32 mean of `xs`: the sum divided by the element count. On an
/// empty input the division is by `+0`; callers avoid that case.
pub open spec fn mean_spec(xs: Seq<u32>) -> u32 {
    bits_div(sum_spec(xs), bits_of_u64(xs.len() as u64))
}

/// Returns the binary32 arithmetic mean of the given values.
pub fn mean(numbers: &Vec<u32>) -> (r: u32)
    ensures
        r == mean_spec(numbers@),
{
    let n = numbers.len();
    let mut sum: u32 = F_ZERO;
    let mut i: usize = 0;
    while i < n
        invariant
            i <= n,
            n == numbers@.len(),
            sum_from(numbers@, i as int, sum) == sum_spec(numbers@),
        decreases n - i,
    {
        sum = add_bits(sum, numbers[i]);
        i = i + 1;
    }
    div_bits(sum, of_u64_bits(n as u64))
}

} // verus!
