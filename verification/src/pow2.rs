//! Powers of two and base 2 logarithms of natural numbers.

use vstd::prelude::*;

verus! {

/// Two to the power `n`.
pub open spec fn two_pow(n: nat) -> nat
    decreases n,
{
    if n == 0 {
        1
    } else {
        2 * two_pow((n - 1) as nat)
    }
}

/// Whether `n` is a power of two.
pub open spec fn is_pow2(n: nat) -> bool
    decreases n,
{
    n == 1 || (n >= 2 && n % 2 == 0 && is_pow2(n / 2))
}

/// The number of times `n` can be halved before it is at most one.
pub open spec fn log2(n: nat) -> nat
    decreases n,
{
    if n <= 1 {
        0
    } else {
        1 + log2(n / 2)
    }
}

/// `i` halved `k` times.
pub open spec fn halved(i: nat, k: nat) -> nat
    decreases k,
{
    if k == 0 {
        i
    } else {
        halved(i, (k - 1) as nat) / 2
    }
}

/// A power of two is at least one.
pub proof fn lemma_two_pow_positive(n: nat)
    ensures
        two_pow(n) >= 1,
    decreases n,
{
    if n > 0 {
        lemma_two_pow_positive((n - 1) as nat);
    }
}

/// The powers of two grow with the exponent.
pub proof fn lemma_two_pow_monotonic(a: nat, b: nat)
    requires
        a <= b,
    ensures
        two_pow(a) <= two_pow(b),
    decreases b,
{
    if a < b {
        lemma_two_pow_monotonic(a, (b - 1) as nat);
    }
}

/// A power of two is two to the power of its logarithm.
pub proof fn lemma_pow2_log2(n: nat)
    requires
        is_pow2(n),
    ensures
        n == two_pow(log2(n)),
    decreases n,
{
    if n != 1 {
        lemma_pow2_log2(n / 2);
    }
}

/// Two to the power `k` is a power of two, and `k` is its logarithm.
pub proof fn lemma_two_pow_is_pow2(k: nat)
    ensures
        is_pow2(two_pow(k)),
        log2(two_pow(k)) == k,
    decreases k,
{
    if k > 0 {
        lemma_two_pow_is_pow2((k - 1) as nat);
        lemma_two_pow_positive((k - 1) as nat);
    }
}

/// An index below two to the power `n`, halved `k` times, is below two to the power `n - k`.
pub proof fn lemma_halved_bound(i: nat, n: nat, k: nat)
    requires
        i < two_pow(n),
        k <= n,
    ensures
        halved(i, k) < two_pow((n - k) as nat),
    decreases k,
{
    if k > 0 {
        lemma_halved_bound(i, n, (k - 1) as nat);
    }
}


/// Two to the power `k`, if it fits the index type.
pub fn pow2_checked(k: usize) -> (r: Option<usize>)
    ensures
        r is Some <==> two_pow(k as nat) <= usize::MAX,
        r is Some ==> r->0 == two_pow(k as nat),
{
    let mut d: usize = 1;
    let mut i: usize = 0;
    while i < k
        invariant
            i <= k,
            d == two_pow(i as nat),
        decreases k - i,
    {
        match d.checked_mul(2) {
            Some(next) => {
                d = next;
            },
            None => {
                proof {
                    lemma_two_pow_monotonic((i + 1) as nat, k as nat);
                }
                return None;
            },
        }
        i += 1;
    }
    Some(d)
}


/// The power of a sum is the product of the powers.
pub proof fn lemma_two_pow_add(a: nat, b: nat)
    ensures
        two_pow(a + b) == two_pow(a) * two_pow(b),
    decreases b,
{
    if b == 0 {
        assert(two_pow(a) * 1 == two_pow(a)) by (nonlinear_arith);
    } else {
        lemma_two_pow_add(a, (b - 1) as nat);
        assert(2 * (two_pow(a) * two_pow((b - 1) as nat)) == two_pow(a) * (2 * two_pow(
            (b - 1) as nat,
        ))) by (nonlinear_arith);
    }
}

/// An index below `n * m` splits into a quotient below `n` and a remainder below `m`.
pub proof fn lemma_split_index(i: nat, n: nat, m: nat)
    requires
        i < n * m,
        m > 0,
    ensures
        i / m < n,
        i % m < m,
{
    assert(i / m < n) by (nonlinear_arith)
        requires
            i < n * m,
            m > 0,
    ;
}

/// A quotient below `n` and a remainder below `m` join into an index below `n * m`.
pub proof fn lemma_join_index(q: nat, r: nat, n: nat, m: nat)
    requires
        q < n,
        r < m,
    ensures
        q * m + r < n * m,
        (q * m + r) / m == q,
        (q * m + r) % m == r,
{
    assert(q * m + r < n * m) by (nonlinear_arith)
        requires
            q < n,
            r < m,
    ;
    vstd::arithmetic::div_mod::lemma_fundamental_div_mod_converse(
        (q * m + r) as int,
        m as int,
        q as int,
        r as int,
    );
}

/// The base 2 logarithm of `n`.
pub fn log2_of(n: usize) -> (k: usize)
    ensures
        k == log2(n as nat),
{
    let mut k: usize = 0;
    let mut m: usize = n;
    while m > 1
        invariant
            k + log2(m as nat) == log2(n as nat),
            k + m <= n || m <= 1,
        decreases m,
    {
        m = m / 2;
        k += 1;
    }
    k
}

/// Two to the power `k`, for `k` at most 7.
pub fn pow2_small(k: usize) -> (r: usize)
    requires
        k <= 7,
    ensures
        r == two_pow(k as nat),
        1 <= r <= 128,
{
    reveal_with_fuel(two_pow, 8);
    let mut r: usize = 1;
    let mut i: usize = 0;
    while i < k
        invariant
            i <= k <= 7,
            r == two_pow(i as nat),
            r <= two_pow(7),
            two_pow(7) == 128,
        decreases k - i,
    {
        proof {
            lemma_two_pow_monotonic((i + 1) as nat, 7);
        }
        r = r * 2;
        i += 1;
    }
    r
}

/// The values of some powers of two.
pub proof fn lemma_two_pow_64()
    ensures
        two_pow(7) == 128,
        two_pow(32) == 0x1_0000_0000,
        two_pow(64) == 0x1_0000_0000_0000_0000,
{
    reveal_with_fuel(two_pow, 9);
    assert(two_pow(8) == 256);
    lemma_two_pow_add(8, 8);
    assert(two_pow(16) == 256 * 256);
    lemma_two_pow_add(16, 16);
    assert(two_pow(32) == 65536 * 65536);
    lemma_two_pow_add(32, 32);
    assert(two_pow(64) == 0x1_0000_0000 * 0x1_0000_0000);
}


/// Halving does not increase an index.
pub proof fn lemma_halved_le(i: nat, k: nat)
    ensures
        halved(i, k) <= i,
    decreases k,
{
    if k > 0 {
        lemma_halved_le(i, (k - 1) as nat);
    }
}

} // verus!
