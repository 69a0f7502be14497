//! Allocation self-checks the kernel runs once its allocator is installed:
//! values stored in heap boxes and vectors read back unchanged.
use vstd::prelude::*;

verus! {

/// `0 + 1 + ... + (n - 1)`.
pub open spec fn sum_below(n: nat) -> nat
    decreases n,
{
    if n == 0 {
        0
    } else {
        sum_below((n - 1) as nat) + (n - 1) as nat
    }
}

/// Gauss's formula for `sum_below`.
pub proof fn lemma_sum_below(n: nat)
    ensures
        2 * sum_below(n) == n * (n - 1),
    decreases n,
{
    if n > 0 {
        lemma_sum_below((n - 1) as nat);
        assert(n * (n - 1) == (n - 1) * (n - 2) + 2 * (n - 1)) by (nonlinear_arith);
    }
}

/// Two small values placed in heap boxes read back unchanged.
pub fn simple_allocation() -> (ok: bool)
    ensures
        ok,
{
    let v1: i32 = 41;
    let v2: i32 = 33;
    let heap_value_1 = Box::new(v1);
    let heap_value_2 = Box::new(v2);
    if *heap_value_1 != v1 {
        return false;
    }
    if *heap_value_2 != v2 {
        return false;
    }
    true
}

/// Push `0..n` into a vector and check that the elements sum to `(n - 1) * n / 2`.
fn vec_sum_matches(n: u64) -> (ok: bool)
    requires
        1 <= n <= 1000,
    ensures
        ok,
{
    let mut vec: Vec<u64> = Vec::new();
    for i in 0..n
        invariant
            vec@.len() == i,
            forall|k: int| 0 <= k < i ==> vec@[k] == k,
    {
        vec.push(i);
    }
    let mut sum: u64 = 0;
    for k in 0..vec.len()
        invariant
            vec@.len() == n,
            n <= 1000,
            forall|j: int| 0 <= j < n ==> vec@[j] == j,
            sum == sum_below(k as nat),
    {
        proof {
            lemma_sum_below(k as nat);
            lemma_sum_below((k + 1) as nat);
            assert((k + 1) * k <= 1000 * 1000) by (nonlinear_arith)
                requires
                    k < 1000,
            ;
        }
        sum = sum + vec[k];
    }
    assert((n - 1) * n <= 1000 * 1000) by (nonlinear_arith)
        requires
            1 <= n <= 1000,
    ;
    let expected = (n - 1) * n / 2;
    proof {
        lemma_sum_below(n as nat);
        assert((n - 1) * n == n * (n - 1)) by (nonlinear_arith);
    }
    sum == expected
}

/// A vector of 10 numbers sums to the closed form.
pub fn small_vec() -> (ok: bool)
    ensures
        ok,
{
    vec_sum_matches(10)
}

/// A vector of 1000 numbers sums to the closed form.
pub fn large_vec() -> (ok: bool)
    ensures
        ok,
{
    vec_sum_matches(1000)
}

} // verus!
