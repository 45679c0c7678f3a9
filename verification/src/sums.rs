//! Sums in the field, which are exclusive ors, over ranges of indices.

use crate::field::{lemma_product_additive_right, lemma_product_zero, lemma_xor_zero, product};
use vstd::prelude::*;

verus! {

/// The sum of `f(i)` over `i < n`.
pub open spec fn xor_sum(f: spec_fn(int) -> u128, n: nat) -> u128
    decreases n,
{
    if n == 0 {
        0
    } else {
        xor_sum(f, (n - 1) as nat) ^ f(n - 1)
    }
}

proof fn lemma_xor_regroup(a: u128, b: u128, c: u128, d: u128)
    by (bit_vector)
    ensures
        (a ^ c) ^ (b ^ d) == (a ^ b) ^ (c ^ d),
        (a ^ b) ^ c == a ^ (b ^ c),
{
}

/// Functions that agree below `n` have the same sum.
pub proof fn lemma_sum_of_equals(f: spec_fn(int) -> u128, g: spec_fn(int) -> u128, n: nat)
    requires
        forall|i: int| 0 <= i < n ==> #[trigger] f(i) == g(i),
    ensures
        xor_sum(f, n) == xor_sum(g, n),
    decreases n,
{
    if n > 0 {
        lemma_sum_of_equals(f, g, (n - 1) as nat);
        assert(f(n - 1) == g(n - 1));
    }
}

/// The sum of the sums of two functions is the sum of their sum.
pub proof fn lemma_sum_of_sums(
    f: spec_fn(int) -> u128,
    g: spec_fn(int) -> u128,
    h: spec_fn(int) -> u128,
    n: nat,
)
    requires
        forall|i: int| 0 <= i < n ==> #[trigger] h(i) == f(i) ^ g(i),
    ensures
        xor_sum(h, n) == xor_sum(f, n) ^ xor_sum(g, n),
    decreases n,
{
    if n == 0 {
        lemma_xor_zero(0);
    } else {
        lemma_sum_of_sums(f, g, h, (n - 1) as nat);
        assert(h(n - 1) == f(n - 1) ^ g(n - 1));
        lemma_xor_regroup(
            xor_sum(f, (n - 1) as nat),
            xor_sum(g, (n - 1) as nat),
            f(n - 1),
            g(n - 1),
        );
    }
}

/// A factor common to every term of a sum can be taken out of it.
pub proof fn lemma_sum_of_products(
    t: Seq<u128>,
    a: u128,
    f: spec_fn(int) -> u128,
    g: spec_fn(int) -> u128,
    n: nat,
)
    requires
        forall|i: int| 0 <= i < n ==> #[trigger] f(i) == product(t, a, g(i)),
    ensures
        xor_sum(f, n) == product(t, a, xor_sum(g, n)),
    decreases n,
{
    if n == 0 {
        lemma_product_zero(t, a);
    } else {
        lemma_sum_of_products(t, a, f, g, (n - 1) as nat);
        assert(f(n - 1) == product(t, a, g(n - 1)));
        lemma_product_additive_right(t, a, xor_sum(g, (n - 1) as nat), g(n - 1));
    }
}

/// The sum over a range is the sum over its first `m` indices and the
/// sum over the others.
pub proof fn lemma_sum_split(
    f: spec_fn(int) -> u128,
    tail: spec_fn(int) -> u128,
    m: nat,
    n: nat,
)
    requires
        forall|i: int| 0 <= i < n ==> #[trigger] tail(i) == f(m + i),
    ensures
        xor_sum(f, m + n) == xor_sum(f, m) ^ xor_sum(tail, n),
    decreases n,
{
    if n == 0 {
        lemma_xor_zero(xor_sum(f, m));
    } else {
        lemma_sum_split(f, tail, m, (n - 1) as nat);
        assert(tail(n - 1) == f(m + (n - 1)));
        lemma_xor_regroup(xor_sum(f, m), xor_sum(tail, (n - 1) as nat), f(m + n - 1), 0);
    }
}

/// The sum over the indices below `a * b` is the sum, over `i < a`, of
/// the sums over `j < b` of the terms of index `i + a * j`: `rows(i)` is
/// the inner sum for `i`.
pub proof fn lemma_sum_by_rows(
    f: spec_fn(int) -> u128,
    rows: spec_fn(int) -> u128,
    a: nat,
    b: nat,
)
    requires
        forall|i: int|
            0 <= i < a ==> #[trigger] rows(i) == xor_sum(|j: int| f(i + a * j), b),
    ensures
        xor_sum(f, a * b) == xor_sum(rows, a),
    decreases b,
{
    if b == 0 {
        assert(a * 0 == 0) by (nonlinear_arith);
        let zero = |i: int| 0u128;
        lemma_sum_of_equals(rows, zero, a);
        lemma_sum_of_zeros(a);
    } else {
        let before = |i: int| xor_sum(|j: int| f(i + a * j), (b - 1) as nat);
        let last = |i: int| f(a * (b - 1) + i);
        lemma_sum_by_rows(f, before, a, (b - 1) as nat);
        assert(a * b == a * (b - 1) + a) by (nonlinear_arith)
            requires
                b >= 1,
        ;
        lemma_sum_split(f, last, (a * (b - 1)) as nat, a);
        assert forall|i: int| 0 <= i < a implies #[trigger] rows(i) == before(i) ^ last(i) by {
            let inner = |j: int| f(i + a * j);
            assert(rows(i) == xor_sum(inner, b));
            assert(inner(b - 1) == f(i + a * (b - 1)));
        }
        lemma_sum_of_sums(before, last, rows, a);
    }
}

/// A sum of zeros is zero.
pub proof fn lemma_sum_of_zeros(n: nat)
    ensures
        xor_sum(|i: int| 0u128, n) == 0,
    decreases n,
{
    if n > 0 {
        lemma_sum_of_zeros((n - 1) as nat);
        lemma_xor_zero(0);
    }
}

/// The sum over the indices below `a * b` is the sum, over `j < b`, of
/// the sums over `i < a` of the terms of index `i + a * j`: `blocks(j)` is
/// the inner sum for `j`.
pub proof fn lemma_sum_by_blocks(
    f: spec_fn(int) -> u128,
    blocks: spec_fn(int) -> u128,
    a: nat,
    b: nat,
)
    requires
        forall|j: int|
            0 <= j < b ==> #[trigger] blocks(j) == xor_sum(|i: int| f(i + a * j), a),
    ensures
        xor_sum(f, a * b) == xor_sum(blocks, b),
    decreases b,
{
    if b == 0 {
        assert(a * 0 == 0) by (nonlinear_arith);
    } else {
        lemma_sum_by_blocks(f, blocks, a, (b - 1) as nat);
        assert(a * b == a * (b - 1) + a) by (nonlinear_arith)
            requires
                b >= 1,
        ;
        let last = |i: int| f(a * (b - 1) + i);
        let inner = |i: int| f(i + a * (b - 1));
        lemma_sum_split(f, last, (a * (b - 1)) as nat, a);
        lemma_sum_of_equals(last, inner, a);
        assert(blocks(b - 1) == xor_sum(inner, a));
    }
}

} // verus!
