//! Random-number helpers and small numeric utilities shared by the
//! demonstration state and evaluator implementations.

use rand::Rng;
use vstd::prelude::*;

verus! {

/// Relies on `rand::thread_rng` and `rand::Rng::gen_range` over
/// `value_min..value_max`: the result lies in that half-open range.
#[verifier::external_body]
pub fn random_in_range(value_min: i32, value_max: i32) -> (r: i32)
    requires
        value_min < value_max,
    ensures
        value_min <= r < value_max,
{
    rand::thread_rng().gen_range(value_min..value_max)
}

/// Relies on `rand::thread_rng` and `rand::Rng::gen_range` over `0..bound`:
/// the result is strictly below the bound.
#[verifier::external_body]
pub fn random_below_usize(bound: usize) -> (r: usize)
    requires
        bound >= 1,
    ensures
        r < bound,
{
    rand::thread_rng().gen_range(0..bound)
}

/// Relies on `rand::thread_rng` and `rand::Rng::gen_range` over `0..bound`:
/// the result is strictly below the bound.
#[verifier::external_body]
pub fn random_below_u32(bound: u32) -> (r: u32)
    requires
        bound >= 1,
    ensures
        r < bound,
{
    rand::thread_rng().gen_range(0..bound)
}

/// Fills an array with fresh random draws, each within the given half-open
/// range.
pub fn random_array<const SIZE: usize>(value_min: i32, value_max: i32) -> (r: [i32; SIZE])
    requires
        value_min < value_max,
    ensures
        forall|k: int| 0 <= k < SIZE ==> value_min <= #[trigger] r[k] < value_max,
{
    let mut array: [i32; SIZE] = [0i32; SIZE];

    for index in 0..SIZE
        invariant
            value_min < value_max,
            forall|k: int| 0 <= k < index ==> value_min <= #[trigger] array[k] < value_max,
    {
        array[index] = random_in_range(value_min, value_max);
    }

    array
}

/// The sum of the first `k` coordinate products of two vectors.
pub open spec fn dot_prefix<const COUNT: usize>(
    array0: [i32; COUNT],
    array1: [i32; COUNT],
    k: int,
) -> int
    decreases k,
{
    if k <= 0 {
        0
    } else {
        dot_prefix(array0, array1, k - 1) + array0[k - 1] * array1[k - 1]
    }
}

/// The dot product of two equal-length integer vectors.
///
/// The precondition asks exactly that no partial sum leaves the `i64` range,
/// which is what the running accumulator needs.
pub fn dot_product<const COUNT: usize>(array0: [i32; COUNT], array1: [i32; COUNT]) -> (r: i64)
    requires
        forall|k: int|
            0 <= k <= COUNT ==> i64::MIN <= #[trigger] dot_prefix(array0, array1, k) <= i64::MAX,
    ensures
        r as int == dot_prefix(array0, array1, COUNT as int),
{
    let mut sum: i64 = 0;

    for index in 0..COUNT
        invariant
            sum as int == dot_prefix(array0, array1, index as int),
            forall|k: int|
                0 <= k <= COUNT ==> i64::MIN <= #[trigger] dot_prefix(array0, array1, k)
                    <= i64::MAX,
    {
        let a: i64 = array0[index] as i64;
        let b: i64 = array1[index] as i64;
        assert(i64::MIN <= a * b <= i64::MAX) by (nonlinear_arith)
            requires
                -0x8000_0000 <= a <= 0x7fff_ffff,
                -0x8000_0000 <= b <= 0x7fff_ffff,
        {}
        let product: i64 = a * b;
        assert(dot_prefix(array0, array1, index + 1) == sum + product);
        sum = sum + product;
    }

    sum
}

} // verus!
