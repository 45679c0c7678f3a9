//! Arithmetic of the 128-bit binary tower field on elements held as `u128`.
//!
//! Addition is bitwise exclusive or. Multiplication is bilinear over the
//! two-element field, so it is fixed by the products of the 128 basis
//! elements `1 << i`. A [`BinaryField128`] holds those products and
//! multiplies by expanding both operands over the basis.
//!
//! A table is taken where the element one is neutral in it and the
//! products of the basis do not depend on the order of the factors. Of
//! such a table this module proves that multiplication has a unit, is
//! commutative and distributes over addition; it is associative where it
//! is so on the basis, which [`BinaryField128::is_associative`] checks.

use vstd::prelude::*;

verus! {

/// Number of entries of a table of basis products.
pub const TABLE_LEN: usize = 16384;

/// Number of entries of the table of the products of bytes with basis elements.
pub const WINDOWS_LEN: usize = 524288;

/// Bit `i` of `x`.
pub open spec fn bit(x: u128, i: usize) -> bool {
    (x >> i) & 1 == 1
}

/// The basis element with only bit `i` set.
pub open spec fn basis(i: usize) -> u128 {
    1u128 << i
}

/// `x` if `b` holds and zero otherwise: the product of a bit with an element.
pub open spec fn select(b: bool, x: u128) -> u128 {
    if b {
        x
    } else {
        0
    }
}

/// Entry `(i, j)` of a table of basis products: the product of `basis(i)` and `basis(j)`.
pub open spec fn entry(t: Seq<u128>, i: int, j: int) -> u128 {
    t[i * 128 + j]
}

/// The product of `a` with `basis(j)`: the sum of the entries `(i, j)` over
/// the bits `i < n` that are set in `a`.
pub open spec fn column(t: Seq<u128>, a: u128, j: int, n: nat) -> u128
    decreases n,
{
    if n == 0 {
        0
    } else {
        column(t, a, j, (n - 1) as nat) ^ select(bit(a, (n - 1) as usize), entry(t, n - 1, j))
    }
}

/// The sum of the products of `a` with `basis(j)` over the bits `j < m` that are set in `b`.
pub open spec fn product_upto(t: Seq<u128>, a: u128, b: u128, m: nat) -> u128
    decreases m,
{
    if m == 0 {
        0
    } else {
        product_upto(t, a, b, (m - 1) as nat) ^ select(
            bit(b, (m - 1) as usize),
            column(t, a, m - 1, 128),
        )
    }
}

/// The product of `a` and `b` in the algebra whose basis products are `t`.
pub open spec fn product(t: Seq<u128>, a: u128, b: u128) -> u128 {
    product_upto(t, a, b, 128)
}

/// Byte `p` of `a`, where `shift` is `8 * p`.
pub open spec fn byte_at(a: u128, shift: usize) -> u128 {
    (a >> shift) & 0xff
}

/// The product with `basis(j)` of the element whose byte `p` is `v` and
/// whose other bytes are zero, as far as the lowest `n` bits of the byte go.
pub open spec fn window(t: Seq<u128>, p: int, v: u128, j: int, n: nat) -> u128
    decreases n,
{
    if n == 0 {
        0
    } else {
        window(t, p, v, j, (n - 1) as nat) ^ select(
            bit(v, (n - 1) as usize),
            entry(t, 8 * p + n - 1, j),
        )
    }
}

/// `windows` holds, at the index `(256 * p + v) * 128 + j`, the product
/// with `basis(j)` of the element whose byte `p` is `v` and whose other
/// bytes are zero.
pub closed spec fn windows_of(t: Seq<u128>, windows: Seq<u128>) -> bool {
    &&& windows.len() == 524288
    &&& forall|x: int|
        0 <= x < 524288 ==> #[trigger] windows[x] == window(
            t,
            x / 32768,
            ((x / 128) % 256) as u128,
            x % 128,
            8,
        )
}

/// The first row and the first column of `t` say that `basis(0)`, the
/// element one, is neutral.
pub open spec fn unital(t: Seq<u128>) -> bool {
    forall|j: int|
        0 <= j < 128 ==> #[trigger] entry(t, 0, j) == basis(j as usize) && entry(t, j, 0) == basis(
            j as usize,
        )
}

/// The product of two basis elements does not depend on their order.
pub open spec fn symmetric(t: Seq<u128>) -> bool {
    forall|i: int, j: int|
        0 <= i < 128 && 0 <= j < 128 ==> #[trigger] entry(t, i, j) == entry(t, j, i)
}

/// `t` is a table of the basis products of a commutative algebra of
/// dimension 128 with the element one as its unit.
pub open spec fn valid_table(t: Seq<u128>) -> bool {
    t.len() == 16384 && unital(t) && symmetric(t)
}

/// Zero is neutral for addition, and every element is its own opposite.
pub proof fn lemma_xor_zero(x: u128)
    ensures
        x ^ 0 == x,
        0 ^ x == x,
        x ^ x == 0,
{
    assert(x ^ 0 == x && 0 ^ x == x && x ^ x == 0) by (bit_vector);
}

/// Bit `i` of `x`.
pub fn get_bit(x: u128, i: usize) -> (r: bool)
    requires
        i < 128,
    ensures
        r == bit(x, i),
{
    (x >> i) & 1 == 1
}

/// The 128-bit binary field, given by the products of its basis
/// elements. The products of the bytes with the basis elements are kept
/// beside them, so that a product reads one entry for each byte of a
/// factor and not one for each bit.
pub struct BinaryField128 {
    pub products: Vec<u128>,
    pub windows: Vec<u128>,
}

impl BinaryField128 {
    /// The table is one of basis products with the element one as unit,
    /// and the products of the bytes are those that it gives.
    pub open spec fn wf(&self) -> bool {
        valid_table(self.products@) && windows_of(self.products@, self.windows@)
    }

    /// The product of `a` and `b` in this field.
    pub open spec fn product(&self, a: u128, b: u128) -> u128 {
        product(self.products@, a, b)
    }

    /// Takes the table of basis products, entry `(i, j)` at index `128 * i + j`,
    /// if it has 16384 entries, the element one is neutral in it, and the
    /// product of two basis elements does not depend on their order.
    pub fn new(products: Vec<u128>) -> (r: Option<BinaryField128>)
        ensures
            r is Some <==> valid_table(products@),
            r is Some ==> r->0.wf() && r->0.products@ == products@,
    {
        if products.len() != TABLE_LEN {
            return None;
        }
        let mut j: usize = 0;
        while j < 128
            invariant
                j <= 128,
                products@.len() == 16384,
                forall|k: int|
                    0 <= k < j ==> #[trigger] entry(products@, 0, k) == basis(k as usize) && entry(
                        products@,
                        k,
                        0,
                    ) == basis(k as usize),
            decreases 128 - j,
        {
            let e: u128 = 1u128 << j;
            if products[j] != e || products[j * 128] != e {
                proof {
                    assert(entry(products@, 0, j as int) == products@[j as int]);
                    assert(entry(products@, j as int, 0) == products@[j * 128]);
                }
                return None;
            }
            j += 1;
        }
        let mut i: usize = 0;
        while i < 128
            invariant
                i <= 128,
                products@.len() == 16384,
                unital(products@),
                forall|x: int, y: int|
                    0 <= x < i && 0 <= y < 128 ==> #[trigger] entry(products@, x, y) == entry(
                        products@,
                        y,
                        x,
                    ),
            decreases 128 - i,
        {
            let mut k: usize = 0;
            while k < 128
                invariant
                    k <= 128,
                    i < 128,
                    products@.len() == 16384,
                    forall|x: int, y: int|
                        0 <= x < i && 0 <= y < 128 ==> #[trigger] entry(products@, x, y) == entry(
                            products@,
                            y,
                            x,
                        ),
                    forall|y: int|
                        0 <= y < k ==> #[trigger] entry(products@, i as int, y) == entry(
                            products@,
                            y,
                            i as int,
                        ),
                decreases 128 - k,
            {
                if products[i * 128 + k] != products[k * 128 + i] {
                    proof {
                        assert(entry(products@, i as int, k as int) != entry(
                            products@,
                            k as int,
                            i as int,
                        ));
                    }
                    return None;
                }
                k += 1;
            }
            i += 1;
        }
        let windows = byte_windows(&products);
        Some(BinaryField128 { products, windows })
    }

    /// The product of `a` with the basis element `j`.
    fn column(&self, a: u128, j: usize) -> (r: u128)
        requires
            self.wf(),
            j < 128,
        ensures
            r == column(self.products@, a, j as int, 128),
    {
        let mut acc: u128 = 0;
        let mut p: usize = 0;
        while p < 16
            invariant
                p <= 16,
                j < 128,
                windows_of(self.products@, self.windows@),
                acc == column(self.products@, a, j as int, (8 * p) as nat),
            decreases 16 - p,
        {
            let byte = (a >> (8 * p)) & 0xff;
            proof {
                lemma_byte_is_small(a, (8 * p) as usize);
            }
            let v = byte as usize;
            let at = (p * 256 + v) * 128 + j;
            proof {
                lemma_column_by_window(self.products@, a, j as int, p as int, 8);
                assert(at / 32768 == p && (at / 128) % 256 == v && at % 128 == j);
                lemma_xor_three(
                    column(self.products@, a, j as int, (8 * p) as nat),
                    window(self.products@, p as int, v as u128, j as int, 8),
                );
            }
            acc = acc ^ self.windows[at];
            p += 1;
        }
        acc
    }

    /// Multiplies `a` by `b`.
    pub fn mul(&self, a: u128, b: u128) -> (r: u128)
        requires
            self.wf(),
        ensures
            r == self.product(a, b),
    {
        let mut acc: u128 = 0;
        let mut j: usize = 0;
        while j < 128
            invariant
                j <= 128,
                self.wf(),
                acc == product_upto(self.products@, a, b, j as nat),
            decreases 128 - j,
        {
            proof {
                lemma_xor_zero(acc);
            }
            if get_bit(b, j) {
                let c = self.column(a, j);
                acc = acc ^ c;
            }
            j += 1;
        }
        acc
    }
}


proof fn lemma_byte_is_small(a: u128, shift: usize)
    by (bit_vector)
    requires
        shift <= 120,
    ensures
        (a >> shift) & 0xff < 256,
{
}

proof fn lemma_bit_of_byte(a: u128, shift: usize, i: usize)
    by (bit_vector)
    requires
        shift <= 120,
        i < 8,
    ensures
        ((a >> ((shift + i) as usize)) & 1 == 1) == ((((a >> shift) & 0xff) >> i) & 1 == 1),
{
}

proof fn lemma_xor_three(a: u128, b: u128)
    by (bit_vector)
    ensures
        forall|c: u128| #[trigger] ((a ^ b) ^ c) == a ^ (b ^ c),
{
}

/// The bits of the byte `p` of `a` add to its column what the window of
/// the byte holds.
proof fn lemma_column_by_window(t: Seq<u128>, a: u128, j: int, p: int, n: nat)
    requires
        0 <= p < 16,
        n <= 8,
    ensures
        column(t, a, j, (8 * p + n) as nat) == column(t, a, j, (8 * p) as nat) ^ window(
            t,
            p,
            byte_at(a, (8 * p) as usize),
            j,
            n,
        ),
    decreases n,
{
    let before = column(t, a, j, (8 * p) as nat);
    if n == 0 {
        lemma_xor_zero(before);
    } else {
        lemma_column_by_window(t, a, j, p, (n - 1) as nat);
        lemma_bit_of_byte(a, (8 * p) as usize, (n - 1) as usize);
        lemma_xor_three(before, window(t, p, byte_at(a, (8 * p) as usize), j, (n - 1) as nat));
    }
}

/// The products of the bytes with the basis elements that the table `products` gives.
fn byte_windows(products: &Vec<u128>) -> (windows: Vec<u128>)
    requires
        products@.len() == 16384,
    ensures
        windows_of(products@, windows@),
{
    let mut windows: Vec<u128> = Vec::with_capacity(WINDOWS_LEN);
    let mut p: usize = 0;
    while p < 16
        invariant
            p <= 16,
            products@.len() == 16384,
            windows@.len() == p * 32768,
            forall|x: int|
                0 <= x < windows@.len() ==> #[trigger] windows@[x] == window(
                    products@,
                    x / 32768,
                    ((x / 128) % 256) as u128,
                    x % 128,
                    8,
                ),
        decreases 16 - p,
    {
        let mut v: usize = 0;
        while v < 256
            invariant
                v <= 256,
                p < 16,
                products@.len() == 16384,
                windows@.len() == p * 32768 + v * 128,
                forall|x: int|
                    0 <= x < windows@.len() ==> #[trigger] windows@[x] == window(
                        products@,
                        x / 32768,
                        ((x / 128) % 256) as u128,
                        x % 128,
                        8,
                    ),
            decreases 256 - v,
        {
            let mut j: usize = 0;
            while j < 128
                invariant
                    j <= 128,
                    v < 256,
                    p < 16,
                    products@.len() == 16384,
                    windows@.len() == p * 32768 + v * 128 + j,
                    forall|x: int|
                        0 <= x < windows@.len() ==> #[trigger] windows@[x] == window(
                            products@,
                            x / 32768,
                            ((x / 128) % 256) as u128,
                            x % 128,
                            8,
                        ),
                decreases 128 - j,
            {
                let mut w: u128 = 0;
                let mut i: usize = 0;
                while i < 8
                    invariant
                        i <= 8,
                        j < 128,
                        v < 256,
                        p < 16,
                        products@.len() == 16384,
                        w == window(products@, p as int, v as u128, j as int, i as nat),
                    decreases 8 - i,
                {
                    let term = if get_bit(v as u128, i) {
                        products[(8 * p + i) * 128 + j]
                    } else {
                        0
                    };
                    w = w ^ term;
                    i += 1;
                }
                let ghost before = windows@;
                let ghost at = (p * 32768 + v * 128 + j) as int;
                windows.push(w);
                proof {
                    assert(at / 32768 == p && (at / 128) % 256 == v && at % 128 == j);
                    assert forall|x: int| 0 <= x < windows@.len() implies #[trigger] windows@[x]
                        == window(
                        products@,
                        x / 32768,
                        ((x / 128) % 256) as u128,
                        x % 128,
                        8,
                    ) by {
                        if x < at {
                            assert(windows@[x] == before[x]);
                        }
                    }
                }
                j += 1;
            }
            v += 1;
        }
        p += 1;
    }
    windows
}

proof fn lemma_xor_shuffle(a: u128, b: u128, c: u128, d: u128)
    by (bit_vector)
    ensures
        (a ^ c) ^ (b ^ d) == (a ^ b) ^ (c ^ d),
{
}

proof fn lemma_bit_of_xor(x: u128, y: u128, i: usize)
    by (bit_vector)
    requires
        i < 128,
    ensures
        (((x ^ y) >> i) & 1 == 1) == (((x >> i) & 1 == 1) != ((y >> i) & 1 == 1)),
{
}

proof fn lemma_bit_of_one(i: usize)
    by (bit_vector)
    requires
        i < 128,
    ensures
        ((1u128 >> i) & 1 == 1) == (i == 0),
        (0u128 >> i) & 1 == 0,
{
}

/// The low `m` bits of `x`.
pub open spec fn low_bits(x: u128, m: usize) -> u128 {
    if m >= 128 {
        x
    } else {
        x & (((1u128 << m) - 1) as u128)
    }
}

proof fn lemma_low_bits_step(x: u128, m: usize)
    by (bit_vector)
    requires
        m < 128,
    ensures
        (if m + 1 >= 128 {
            x
        } else {
            x & (((1u128 << ((m + 1) as usize)) - 1) as u128)
        }) == (x & (((1u128 << m) - 1) as u128)) ^ (if (x >> m) & 1 == 1 {
            1u128 << m
        } else {
            0
        }),
        x & (((1u128 << 0usize) - 1) as u128) == 0,
{
}

/// The sum of the basis elements of the bits `j < m` that are set in `x`.
pub open spec fn bits_sum(x: u128, m: nat) -> u128
    decreases m,
{
    if m == 0 {
        0
    } else {
        bits_sum(x, (m - 1) as nat) ^ select(bit(x, (m - 1) as usize), basis((m - 1) as usize))
    }
}

/// An element is the sum of the basis elements of its set bits.
pub proof fn lemma_bits_sum(x: u128, m: nat)
    requires
        m <= 128,
    ensures
        bits_sum(x, m) == low_bits(x, m as usize),
    decreases m,
{
    if m == 0 {
        lemma_low_bits_step(x, 0);
    } else {
        lemma_bits_sum(x, (m - 1) as nat);
        lemma_low_bits_step(x, (m - 1) as usize);
    }
}

/// The product with a basis element is additive in the other factor.
pub proof fn lemma_column_additive(t: Seq<u128>, a: u128, b: u128, j: int, n: nat)
    requires
        n <= 128,
    ensures
        column(t, a ^ b, j, n) == column(t, a, j, n) ^ column(t, b, j, n),
    decreases n,
{
    if n == 0 {
        lemma_xor_zero(0);
    } else {
        let i = (n - 1) as usize;
        let e = entry(t, n - 1, j);
        lemma_column_additive(t, a, b, j, (n - 1) as nat);
        lemma_bit_of_xor(a, b, i);
        lemma_xor_zero(e);
        lemma_xor_zero(0);
        assert(select(bit(a ^ b, i), e) == select(bit(a, i), e) ^ select(bit(b, i), e));
        lemma_xor_shuffle(
            column(t, a, j, (n - 1) as nat),
            column(t, b, j, (n - 1) as nat),
            select(bit(a, i), e),
            select(bit(b, i), e),
        );
    }
}

proof fn lemma_product_additive_left_upto(t: Seq<u128>, a: u128, b: u128, x: u128, m: nat)
    requires
        m <= 128,
    ensures
        product_upto(t, a ^ b, x, m) == product_upto(t, a, x, m) ^ product_upto(t, b, x, m),
    decreases m,
{
    if m == 0 {
        lemma_xor_zero(0);
    } else {
        lemma_product_additive_left_upto(t, a, b, x, (m - 1) as nat);
        lemma_column_additive(t, a, b, m - 1, 128);
        lemma_xor_zero(0);
        lemma_xor_shuffle(
            product_upto(t, a, x, (m - 1) as nat),
            product_upto(t, b, x, (m - 1) as nat),
            select(bit(x, (m - 1) as usize), column(t, a, m - 1, 128)),
            select(bit(x, (m - 1) as usize), column(t, b, m - 1, 128)),
        );
    }
}

proof fn lemma_product_additive_right_upto(t: Seq<u128>, a: u128, x: u128, y: u128, m: nat)
    requires
        m <= 128,
    ensures
        product_upto(t, a, x ^ y, m) == product_upto(t, a, x, m) ^ product_upto(t, a, y, m),
    decreases m,
{
    if m == 0 {
        lemma_xor_zero(0);
    } else {
        let j = (m - 1) as usize;
        let c = column(t, a, m - 1, 128);
        lemma_product_additive_right_upto(t, a, x, y, (m - 1) as nat);
        lemma_bit_of_xor(x, y, j);
        lemma_xor_zero(c);
        lemma_xor_zero(0);
        assert(select(bit(x ^ y, j), c) == select(bit(x, j), c) ^ select(bit(y, j), c));
        lemma_xor_shuffle(
            product_upto(t, a, x, (m - 1) as nat),
            product_upto(t, a, y, (m - 1) as nat),
            select(bit(x, j), c),
            select(bit(y, j), c),
        );
    }
}

/// Multiplication distributes over addition in its first factor.
pub proof fn lemma_product_additive_left(t: Seq<u128>, a: u128, b: u128, x: u128)
    ensures
        product(t, a ^ b, x) == product(t, a, x) ^ product(t, b, x),
{
    lemma_product_additive_left_upto(t, a, b, x, 128);
}

/// Multiplication distributes over addition in its second factor.
pub proof fn lemma_product_additive_right(t: Seq<u128>, a: u128, x: u128, y: u128)
    ensures
        product(t, a, x ^ y) == product(t, a, x) ^ product(t, a, y),
{
    lemma_product_additive_right_upto(t, a, x, y, 128);
}

proof fn lemma_column_of_zero(t: Seq<u128>, j: int, n: nat)
    requires
        n <= 128,
    ensures
        column(t, 0, j, n) == 0,
    decreases n,
{
    if n > 0 {
        lemma_column_of_zero(t, j, (n - 1) as nat);
        lemma_bit_of_one((n - 1) as usize);
        lemma_xor_zero(0);
    }
}

proof fn lemma_product_of_zero_upto(t: Seq<u128>, x: u128, m: nat)
    requires
        m <= 128,
    ensures
        product_upto(t, 0, x, m) == 0,
        product_upto(t, x, 0, m) == 0,
    decreases m,
{
    if m > 0 {
        lemma_product_of_zero_upto(t, x, (m - 1) as nat);
        lemma_column_of_zero(t, m - 1, 128);
        lemma_bit_of_one((m - 1) as usize);
        lemma_xor_zero(0);
    }
}

/// A product with zero is zero.
pub proof fn lemma_product_zero(t: Seq<u128>, x: u128)
    ensures
        product(t, 0, x) == 0,
        product(t, x, 0) == 0,
{
    lemma_product_of_zero_upto(t, x, 128);
}

proof fn lemma_column_of_one(t: Seq<u128>, j: int, n: nat)
    requires
        1 <= n <= 128,
    ensures
        column(t, 1, j, n) == entry(t, 0, j),
    decreases n,
{
    lemma_bit_of_one((n - 1) as usize);
    lemma_xor_zero(entry(t, 0, j));
    if n > 1 {
        lemma_column_of_one(t, j, (n - 1) as nat);
        assert(!bit(1, (n - 1) as usize));
    } else {
        assert(bit(1, 0));
        assert(column(t, 1, j, 0) == 0);
    }
}

proof fn lemma_one_times_upto(t: Seq<u128>, x: u128, m: nat)
    requires
        valid_table(t),
        m <= 128,
    ensures
        product_upto(t, 1, x, m) == bits_sum(x, m),
    decreases m,
{
    if m > 0 {
        lemma_one_times_upto(t, x, (m - 1) as nat);
        lemma_column_of_one(t, m - 1, 128);
        assert(entry(t, 0, m - 1) == basis((m - 1) as usize));
    }
}

proof fn lemma_column_at_zero(t: Seq<u128>, x: u128, n: nat)
    requires
        valid_table(t),
        n <= 128,
    ensures
        column(t, x, 0, n) == bits_sum(x, n),
    decreases n,
{
    if n > 0 {
        lemma_column_at_zero(t, x, (n - 1) as nat);
        assert(entry(t, 0, n - 1) == basis((n - 1) as usize));
    }
}

proof fn lemma_times_one_upto(t: Seq<u128>, x: u128, m: nat)
    requires
        1 <= m <= 128,
    ensures
        product_upto(t, x, 1, m) == column(t, x, 0, 128),
    decreases m,
{
    lemma_bit_of_one((m - 1) as usize);
    lemma_xor_zero(column(t, x, 0, 128));
    if m > 1 {
        lemma_times_one_upto(t, x, (m - 1) as nat);
        assert(!bit(1, (m - 1) as usize));
    } else {
        assert(bit(1, 0));
        assert(product_upto(t, x, 1, 0) == 0);
    }
}

/// The element one is neutral on both sides.
pub proof fn lemma_product_one(t: Seq<u128>, x: u128)
    requires
        valid_table(t),
    ensures
        product(t, 1, x) == x,
        product(t, x, 1) == x,
{
    lemma_one_times_upto(t, x, 128);
    lemma_bits_sum(x, 128);
    lemma_times_one_upto(t, x, 128);
    lemma_column_at_zero(t, x, 128);
}

/// Multiplication with the basis products `t` is associative.
#[verifier::opaque]
pub open spec fn associative(t: Seq<u128>) -> bool {
    forall|a: u128, b: u128, c: u128| #[trigger]
        product(t, product(t, a, b), c) == product(t, a, product(t, b, c))
}

/// One instance of associativity.
pub proof fn lemma_associate(t: Seq<u128>, a: u128, b: u128, c: u128)
    requires
        associative(t),
    ensures
        product(t, product(t, a, b), c) == product(t, a, product(t, b, c)),
{
    reveal(associative);
}

/// The term of the pair of bits `(x mod 128, x div 128)` in the product
/// of `a` and `b`: the product of the two basis elements where both bits are set.
pub open spec fn grid_term(t: Seq<u128>, a: u128, b: u128, x: int) -> u128 {
    select(bit(a, (x % 128) as usize) && bit(b, (x / 128) as usize), entry(t, x % 128, x / 128))
}

proof fn lemma_column_as_sum(t: Seq<u128>, a: u128, j: int, n: nat, f: spec_fn(int) -> u128)
    requires
        forall|i: int| 0 <= i < n ==> #[trigger] f(i) == select(bit(a, i as usize), entry(t, i, j)),
    ensures
        column(t, a, j, n) == crate::sums::xor_sum(f, n),
    decreases n,
{
    if n > 0 {
        lemma_column_as_sum(t, a, j, (n - 1) as nat, f);
        assert(f(n - 1) == select(bit(a, (n - 1) as usize), entry(t, n - 1, j)));
    }
}

proof fn lemma_product_as_sum(t: Seq<u128>, a: u128, b: u128, m: nat, f: spec_fn(int) -> u128)
    requires
        forall|j: int|
            0 <= j < m ==> #[trigger] f(j) == select(bit(b, j as usize), column(t, a, j, 128)),
    ensures
        product_upto(t, a, b, m) == crate::sums::xor_sum(f, m),
    decreases m,
{
    if m > 0 {
        lemma_product_as_sum(t, a, b, (m - 1) as nat, f);
        assert(f(m - 1) == select(bit(b, (m - 1) as usize), column(t, a, m - 1, 128)));
    }
}

/// The product of `a` and `b` is the sum of the terms of all pairs of bits.
proof fn lemma_product_over_grid(t: Seq<u128>, a: u128, b: u128)
    ensures
        product(t, a, b) == crate::sums::xor_sum(|x: int| grid_term(t, a, b, x), 16384),
{
    let grid = |x: int| grid_term(t, a, b, x);
    let blocks = |j: int| select(bit(b, j as usize), column(t, a, j, 128));
    lemma_product_as_sum(t, a, b, 128, blocks);
    assert forall|j: int| 0 <= j < 128 implies #[trigger] blocks(j) == crate::sums::xor_sum(
        |i: int| grid(i + 128 * j),
        128,
    ) by {
        let inner = |i: int| grid(i + 128 * j);
        if bit(b, j as usize) {
            lemma_column_as_sum(t, a, j, 128, inner);
        } else {
            crate::sums::lemma_sum_of_equals(inner, |i: int| 0u128, 128);
            crate::sums::lemma_sum_of_zeros(128);
        }
    }
    crate::sums::lemma_sum_by_blocks(grid, blocks, 128, 128);
}

/// The product of `b` and `a` is the sum of the terms of all pairs of
/// bits in the product of `a` and `b`, where the table is symmetric.
proof fn lemma_product_over_swapped_grid(t: Seq<u128>, a: u128, b: u128)
    requires
        symmetric(t),
    ensures
        product(t, b, a) == crate::sums::xor_sum(|x: int| grid_term(t, a, b, x), 16384),
{
    let grid = |x: int| grid_term(t, a, b, x);
    let rows = |j: int| select(bit(a, j as usize), column(t, b, j, 128));
    lemma_product_as_sum(t, b, a, 128, rows);
    assert forall|j: int| 0 <= j < 128 implies #[trigger] rows(j) == crate::sums::xor_sum(
        |i: int| grid(j + 128 * i),
        128,
    ) by {
        let inner = |i: int| grid(j + 128 * i);
        if bit(a, j as usize) {
            assert forall|i: int| 0 <= i < 128 implies #[trigger] inner(i) == select(
                bit(b, i as usize),
                entry(t, i, j),
            ) by {
                assert(entry(t, i, j) == entry(t, j, i));
            }
            lemma_column_as_sum(t, b, j, 128, inner);
        } else {
            crate::sums::lemma_sum_of_equals(inner, |i: int| 0u128, 128);
            crate::sums::lemma_sum_of_zeros(128);
        }
    }
    crate::sums::lemma_sum_by_rows(grid, rows, 128, 128);
}

/// Multiplication is commutative.
pub proof fn lemma_product_commutes(t: Seq<u128>, a: u128, b: u128)
    requires
        valid_table(t),
    ensures
        product(t, a, b) == product(t, b, a),
{
    lemma_product_over_grid(t, a, b);
    lemma_product_over_swapped_grid(t, a, b);
}

proof fn lemma_bit_of_basis(i: usize, k: usize)
    by (bit_vector)
    requires
        i < 128,
        k < 128,
    ensures
        (((1u128 << i) >> k) & 1 == 1) == (i == k),
{
}

/// The product of the basis element `i` with the basis element `j` is
/// the entry `(i, j)` of the table.
proof fn lemma_column_of_basis(t: Seq<u128>, i: int, j: int, n: nat)
    requires
        0 <= i < 128,
        n <= 128,
    ensures
        column(t, basis(i as usize), j, n) == select(i < n, entry(t, i, j)),
    decreases n,
{
    if n > 0 {
        lemma_column_of_basis(t, i, j, (n - 1) as nat);
        lemma_bit_of_basis(i as usize, (n - 1) as usize);
        lemma_xor_zero(entry(t, i, j));
        lemma_xor_zero(0);
    }
}

proof fn lemma_product_with_basis_upto(t: Seq<u128>, x: u128, k: int, m: nat)
    requires
        0 <= k < 128,
        m <= 128,
    ensures
        product_upto(t, x, basis(k as usize), m) == select(k < m, column(t, x, k, 128)),
    decreases m,
{
    if m > 0 {
        lemma_product_with_basis_upto(t, x, k, (m - 1) as nat);
        lemma_bit_of_basis(k as usize, (m - 1) as usize);
        lemma_xor_zero(column(t, x, k, 128));
        lemma_xor_zero(0);
    }
}

/// The product of an element with the basis element `k` is its column `k`.
pub proof fn lemma_product_with_basis(t: Seq<u128>, x: u128, k: int)
    requires
        0 <= k < 128,
    ensures
        product(t, x, basis(k as usize)) == column(t, x, k, 128),
{
    lemma_product_with_basis_upto(t, x, k, 128);
}

/// The product of the basis elements `i` and `j` is the entry `(i, j)`.
pub proof fn lemma_product_of_basis(t: Seq<u128>, i: int, j: int)
    requires
        0 <= i < 128,
        0 <= j < 128,
    ensures
        product(t, basis(i as usize), basis(j as usize)) == entry(t, i, j),
{
    lemma_product_with_basis(t, basis(i as usize), j);
    lemma_column_of_basis(t, i, j, 128);
}

/// The basis elements `i`, `j` and `k` associate: the product of the
/// entry `(i, j)` with the basis element `k` is the product of the entry
/// `(j, k)` with the basis element `i`.
pub open spec fn basis_triple(t: Seq<u128>, i: int, j: int, k: int) -> bool {
    column(t, entry(t, i, j), k, 128) == column(t, entry(t, j, k), i, 128)
}

/// Multiplication is associative on the basis.
pub open spec fn associative_on_basis(t: Seq<u128>) -> bool {
    forall|i: int, j: int, k: int|
        0 <= i < 128 && 0 <= j < 128 && 0 <= k < 128 ==> #[trigger] basis_triple(t, i, j, k)
}

/// The three elements associate.
pub open spec fn associates(t: Seq<u128>, a: u128, b: u128, c: u128) -> bool {
    product(t, product(t, a, b), c) == product(t, a, product(t, b, c))
}

/// Where two elements associate with `b` and `c`, so does their sum.
proof fn lemma_associates_first(t: Seq<u128>, a1: u128, a2: u128, b: u128, c: u128)
    requires
        associates(t, a1, b, c),
        associates(t, a2, b, c),
    ensures
        associates(t, a1 ^ a2, b, c),
{
    lemma_product_additive_left(t, a1, a2, b);
    lemma_product_additive_left(t, product(t, a1, b), product(t, a2, b), c);
    lemma_product_additive_left(t, a1, a2, product(t, b, c));
}

/// Where `a` and `c` associate with two elements, they do with their sum.
proof fn lemma_associates_second(t: Seq<u128>, a: u128, b1: u128, b2: u128, c: u128)
    requires
        associates(t, a, b1, c),
        associates(t, a, b2, c),
    ensures
        associates(t, a, b1 ^ b2, c),
{
    lemma_product_additive_right(t, a, b1, b2);
    lemma_product_additive_left(t, product(t, a, b1), product(t, a, b2), c);
    lemma_product_additive_left(t, b1, b2, c);
    lemma_product_additive_right(t, a, product(t, b1, c), product(t, b2, c));
}

/// Where `a` and `b` associate with two elements, they do with their sum.
proof fn lemma_associates_third(t: Seq<u128>, a: u128, b: u128, c1: u128, c2: u128)
    requires
        associates(t, a, b, c1),
        associates(t, a, b, c2),
    ensures
        associates(t, a, b, c1 ^ c2),
{
    lemma_product_additive_right(t, product(t, a, b), c1, c2);
    lemma_product_additive_right(t, b, c1, c2);
    lemma_product_additive_right(t, a, product(t, b, c1), product(t, b, c2));
}

/// Zero associates with everything, in each place.
proof fn lemma_associates_zero(t: Seq<u128>, x: u128, y: u128)
    ensures
        associates(t, 0, x, y),
        associates(t, x, 0, y),
        associates(t, x, y, 0),
{
    lemma_product_zero(t, x);
    lemma_product_zero(t, y);
    lemma_product_zero(t, product(t, x, y));
    lemma_product_zero(t, 0);
}

proof fn lemma_associates_basis(t: Seq<u128>, i: int, j: int, k: int)
    requires
        valid_table(t),
        associative_on_basis(t),
        0 <= i < 128,
        0 <= j < 128,
        0 <= k < 128,
    ensures
        associates(t, basis(i as usize), basis(j as usize), basis(k as usize)),
{
    assert(basis_triple(t, i, j, k));
    lemma_product_of_basis(t, i, j);
    lemma_product_of_basis(t, j, k);
    lemma_product_with_basis(t, entry(t, i, j), k);
    lemma_product_with_basis(t, entry(t, j, k), i);
    lemma_product_commutes(t, basis(i as usize), entry(t, j, k));
}

proof fn lemma_associates_bits_first(t: Seq<u128>, a: u128, j: int, k: int, m: nat)
    requires
        valid_table(t),
        associative_on_basis(t),
        0 <= j < 128,
        0 <= k < 128,
        m <= 128,
    ensures
        associates(t, bits_sum(a, m), basis(j as usize), basis(k as usize)),
    decreases m,
{
    lemma_associates_zero(t, basis(j as usize), basis(k as usize));
    if m > 0 {
        lemma_associates_bits_first(t, a, j, k, (m - 1) as nat);
        lemma_associates_basis(t, m - 1, j, k);
        lemma_associates_first(
            t,
            bits_sum(a, (m - 1) as nat),
            select(bit(a, (m - 1) as usize), basis((m - 1) as usize)),
            basis(j as usize),
            basis(k as usize),
        );
    }
}

proof fn lemma_associates_bits_second(t: Seq<u128>, a: u128, b: u128, k: int, m: nat)
    requires
        valid_table(t),
        associative_on_basis(t),
        0 <= k < 128,
        m <= 128,
    ensures
        associates(t, a, bits_sum(b, m), basis(k as usize)),
    decreases m,
{
    lemma_associates_zero(t, a, basis(k as usize));
    if m > 0 {
        lemma_associates_bits_second(t, a, b, k, (m - 1) as nat);
        lemma_associates_bits_first(t, a, m - 1, k, 128);
        lemma_bits_sum(a, 128);
        lemma_associates_second(
            t,
            a,
            bits_sum(b, (m - 1) as nat),
            select(bit(b, (m - 1) as usize), basis((m - 1) as usize)),
            basis(k as usize),
        );
    }
}

proof fn lemma_associates_bits_third(t: Seq<u128>, a: u128, b: u128, c: u128, m: nat)
    requires
        valid_table(t),
        associative_on_basis(t),
        m <= 128,
    ensures
        associates(t, a, b, bits_sum(c, m)),
    decreases m,
{
    lemma_associates_zero(t, a, b);
    if m > 0 {
        lemma_associates_bits_third(t, a, b, c, (m - 1) as nat);
        lemma_associates_bits_second(t, a, b, m - 1, 128);
        lemma_bits_sum(b, 128);
        lemma_associates_third(
            t,
            a,
            b,
            bits_sum(c, (m - 1) as nat),
            select(bit(c, (m - 1) as usize), basis((m - 1) as usize)),
        );
    }
}

/// Multiplication that is associative on the basis is associative.
pub proof fn lemma_associative(t: Seq<u128>)
    requires
        valid_table(t),
        associative_on_basis(t),
    ensures
        associative(t),
{
    reveal(associative);
    assert forall|a: u128, b: u128, c: u128| #[trigger]
        product(t, product(t, a, b), c) == product(t, a, product(t, b, c)) by {
        lemma_associates_bits_third(t, a, b, c, 128);
        lemma_bits_sum(c, 128);
    }
}

impl BinaryField128 {
    /// Whether multiplication is associative on the basis, and so on the whole field.
    pub fn is_associative(&self) -> (ok: bool)
        requires
            self.wf(),
        ensures
            ok == associative_on_basis(self.products@),
            ok ==> associative(self.products@),
    {
        let mut i: usize = 0;
        while i < 128
            invariant
                i <= 128,
                self.wf(),
                forall|x: int, y: int, z: int|
                    0 <= x < i && 0 <= y < 128 && 0 <= z < 128 ==> #[trigger] basis_triple(
                        self.products@,
                        x,
                        y,
                        z,
                    ),
            decreases 128 - i,
        {
            let mut j: usize = 0;
            while j < 128
                invariant
                    j <= 128,
                    i < 128,
                    self.wf(),
                    forall|x: int, y: int, z: int|
                        0 <= x < i && 0 <= y < 128 && 0 <= z < 128 ==> #[trigger] basis_triple(
                            self.products@,
                            x,
                            y,
                            z,
                        ),
                    forall|y: int, z: int|
                        0 <= y < j && 0 <= z < 128 ==> #[trigger] basis_triple(
                            self.products@,
                            i as int,
                            y,
                            z,
                        ),
                decreases 128 - j,
            {
                let mut k: usize = 0;
                while k < 128
                    invariant
                        k <= 128,
                        i < 128,
                        j < 128,
                        self.wf(),
                        forall|x: int, y: int, z: int|
                            0 <= x < i && 0 <= y < 128 && 0 <= z < 128 ==> #[trigger] basis_triple(
                                self.products@,
                                x,
                                y,
                                z,
                            ),
                        forall|y: int, z: int|
                            0 <= y < j && 0 <= z < 128 ==> #[trigger] basis_triple(
                                self.products@,
                                i as int,
                                y,
                                z,
                            ),
                        forall|z: int|
                            0 <= z < k ==> #[trigger] basis_triple(
                                self.products@,
                                i as int,
                                j as int,
                                z,
                            ),
                    decreases 128 - k,
                {
                    let left = self.column(self.products[i * 128 + j], k);
                    let right = self.column(self.products[j * 128 + k], i);
                    if left != right {
                        proof {
                            assert(!basis_triple(self.products@, i as int, j as int, k as int));
                        }
                        return false;
                    }
                    k += 1;
                }
                j += 1;
            }
            i += 1;
        }
        proof {
            lemma_associative(self.products@);
        }
        true
    }
}

} // verus!
