//! Multilinear polynomials held by their evaluations on the cube, packed
//! into field elements, and tables of the equality polynomial.

use crate::field::{bit, get_bit, lemma_xor_zero, product, select, BinaryField128};
use crate::pow2::{is_pow2, lemma_pow2_log2, log2, pow2_checked, two_pow};
use crate::utils::TAU;
use vstd::prelude::*;

verus! {

/// The sum of the products of the first `n` entries of `a` with those of `b`.
pub open spec fn dot(t: Seq<u128>, a: Seq<u128>, b: Seq<u128>, n: nat) -> u128
    decreases n,
{
    if n == 0 {
        0
    } else {
        dot(t, a, b, (n - 1) as nat) ^ product(t, a[n - 1], b[n - 1])
    }
}

/// One fold at the challenge `r` of the pair `(c0, c1)`: `c0 + r (c0 + c1)`,
/// which is `(1 - r) c0 + r c1`.
pub open spec fn fold_pair(t: Seq<u128>, r: u128, c0: u128, c1: u128) -> u128 {
    product(t, r, c0 ^ c1) ^ c0
}

/// The evaluations `vals` with their lowest variable bound to `r`.
pub open spec fn folded_lo(t: Seq<u128>, vals: Seq<u128>, r: u128) -> Seq<u128> {
    Seq::new(vals.len() / 2, |i: int| fold_pair(t, r, vals[2 * i], vals[2 * i + 1]))
}

/// The table `prev` of the equality polynomial over some point, extended
/// by one more coordinate `r` as its highest variable: each entry `x`
/// gives `x (1 - r)` in the lower half and `x r` in the upper half.
pub open spec fn eq_extend(t: Seq<u128>, prev: Seq<u128>, r: u128) -> Seq<u128> {
    Seq::new(
        2 * prev.len(),
        |i: int|
            if i < prev.len() {
                prev[i] ^ product(t, prev[i], r)
            } else {
                product(t, prev[i - prev.len()], r)
            },
    )
}

/// The table `start` extended by each coordinate of `point` in turn.
pub open spec fn eq_fold(t: Seq<u128>, start: Seq<u128>, point: Seq<u128>) -> Seq<u128>
    decreases point.len(),
{
    if point.len() == 0 {
        start
    } else {
        eq_extend(t, eq_fold(t, start, point.drop_last()), point.last())
    }
}

/// The evaluations of the equality polynomial at `point` on the cube: the
/// entry of index `b` is the product over the coordinates `i` of `point[i]`
/// where bit `i` of `b` is set and of `1 - point[i]` where it is not.
pub open spec fn eq_table(t: Seq<u128>, point: Seq<u128>) -> Seq<u128> {
    eq_fold(t, seq![1u128], point)
}

/// Each coordinate doubles the table.
pub proof fn lemma_eq_fold_len(t: Seq<u128>, start: Seq<u128>, point: Seq<u128>)
    ensures
        eq_fold(t, start, point).len() == start.len() * two_pow(point.len()),
    decreases point.len(),
{
    if point.len() > 0 {
        lemma_eq_fold_len(t, start, point.drop_last());
        assert(2 * (start.len() * two_pow((point.len() - 1) as nat)) == start.len() * (2
            * two_pow((point.len() - 1) as nat))) by (nonlinear_arith);
    } else {
        assert(two_pow(0) == 1);
        assert(start.len() * 1 == start.len()) by (nonlinear_arith);
    }
}

/// Extends the table `eq` by each of the coordinates `point`.
pub fn extend_eq(field: &BinaryField128, eq: Vec<u128>, point: &[u128]) -> (r: Vec<u128>)
    requires
        field.wf(),
        eq@.len() * two_pow(point@.len()) <= usize::MAX,
    ensures
        r@ == eq_fold(field.products@, eq@, point@),
{
    let ghost t = field.products@;
    let ghost start = eq@;
    let mut bases = eq;
    let mut k: usize = 0;
    assert(point@.take(0) =~= Seq::<u128>::empty());
    while k < point.len()
        invariant
            k <= point@.len(),
            field.wf(),
            t == field.products@,
            start.len() * two_pow(point@.len()) <= usize::MAX,
            bases@ == eq_fold(t, start, point@.take(k as int)),
        decreases point@.len() - k,
    {
        let ghost prev = bases@;
        let r = point[k];
        proof {
            lemma_eq_fold_len(t, start, point@.take(k as int));
            lemma_eq_fold_len(t, start, point@.take(k + 1));
            lemma_eq_fold_len(t, start, point@);
            crate::pow2::lemma_two_pow_monotonic((k + 1) as nat, point@.len());
            assert(start.len() * two_pow((k + 1) as nat) <= start.len() * two_pow(point@.len()))
                by (nonlinear_arith)
                requires
                    two_pow((k + 1) as nat) <= two_pow(point@.len()),
            ;
            assert(start.len() * two_pow((k + 1) as nat) == 2 * (start.len() * two_pow(k as nat)))
                by (nonlinear_arith)
                requires
                    two_pow((k + 1) as nat) == 2 * two_pow(k as nat),
            ;
            assert(point@.take(k + 1).drop_last() =~= point@.take(k as int));
        }
        let size = bases.len();
        let mut upper: Vec<u128> = Vec::with_capacity(size);
        let mut i: usize = 0;
        while i < size
            invariant
                i <= size,
                size == prev.len(),
                field.wf(),
                t == field.products@,
                bases@.len() == size,
                upper@.len() == i,
                forall|m: int| 0 <= m < i ==> upper@[m] == product(t, prev[m], r),
                forall|m: int| 0 <= m < i ==> bases@[m] == prev[m] ^ product(t, prev[m], r),
                forall|m: int| i <= m < size ==> bases@[m] == prev[m],
            decreases size - i,
        {
            let y = field.mul(bases[i], r);
            let x = bases[i] ^ y;
            bases[i] = x;
            upper.push(y);
            i += 1;
        }
        bases.append(&mut upper);
        assert(bases@ =~= eq_extend(t, prev, r));
        k += 1;
    }
    assert(point@.take(k as int) =~= point@);
    bases
}

/// The evaluations of the equality polynomial at the point `r` on the cube.
pub fn compute_eq(field: &BinaryField128, r: &[u128]) -> (eq: Vec<u128>)
    requires
        field.wf(),
        two_pow(r@.len()) <= usize::MAX,
    ensures
        eq@ == eq_table(field.products@, r@),
{
    let mut eq: Vec<u128> = Vec::new();
    eq.push(1u128);
    assert(eq@ =~= seq![1u128]);
    assert(1 * two_pow(r@.len()) == two_pow(r@.len()));
    extend_eq(field, eq, r)
}


/// The sum of the first `n` entries of `e` at which the bit of `x` is set:
/// `x`, read as a vector of bits, times the vector `e`.
pub open spec fn bit_dot(x: u128, e: Seq<u128>, n: nat) -> u128
    decreases n,
{
    if n == 0 {
        0
    } else {
        bit_dot(x, e, (n - 1) as nat) ^ select(bit(x, (n - 1) as usize), e[n - 1])
    }
}

/// The first `k` elements of `chunk`, each of `n_bits` bits, laid side by
/// side from the lowest bits up.
pub open spec fn packed(chunk: Seq<u128>, n_bits: nat, k: nat) -> u128
    decreases k,
{
    if k == 0 {
        0
    } else {
        packed(chunk, n_bits, (k - 1) as nat) | (chunk[k - 1] << (((k - 1) * n_bits) as usize))
    }
}

/// The elements of `coeffs` from index `j * degree` up to, and without,
/// index `(j + 1) * degree`, or up to the end where that comes first.
pub open spec fn chunk(coeffs: Seq<u128>, degree: nat, j: int) -> Seq<u128> {
    coeffs.subrange(
        j * degree,
        if (j + 1) * degree <= coeffs.len() {
            (j + 1) * degree
        } else {
            coeffs.len() as int
        },
    )
}

/// The coefficients `coeffs` of a subfield of `n_bits` bits, taken `128 /
/// n_bits` at a time as one element of the whole field each.
pub open spec fn repacked(coeffs: Seq<u128>, n_bits: nat) -> Seq<u128> {
    let degree: nat = 128nat / n_bits;
    Seq::new(
        ((coeffs.len() + 128nat / n_bits - 1) / ((128nat / n_bits) as int)) as nat,
        |j: int| packed(chunk(coeffs, degree, j), n_bits, chunk(coeffs, degree, j).len()),
    )
}

/// Table of the equality polynomial over a point of `vars` coordinates:
/// its evaluations on the cube, the lowest variable in the lowest bit of the index.
#[derive(Clone, Debug)]
pub struct LagrangeBases {
    pub vals: Vec<u128>,
    pub vars: usize,
}

/// A multilinear polynomial, held by its evaluations on the cube. The
/// lowest `packing_factor` variables index the bits inside one coefficient,
/// the others index the coefficients. The coefficients belong to the
/// subfield of tower level `tower_level`, of two to the power `tower_level` bits.
#[derive(Clone, Debug)]
pub struct PackedMLE {
    pub packing_factor: usize,
    pub variables: usize,
    pub coeffs: Vec<u128>,
    pub tower_level: usize,
}

/// Every element of `coeffs` belongs to the subfield of tower level `level`.
pub open spec fn in_subfield(coeffs: Seq<u128>, level: nat) -> bool {
    forall|i: int| 0 <= i < coeffs.len() ==> #[trigger] coeffs[i] < two_pow(two_pow(level))
}

impl PackedMLE {
    /// The coefficients are a power of two of elements of the subfield of
    /// tower level `tower_level`, packed or not, and `variables` counts
    /// the variables that index them and their bits.
    pub open spec fn wf(&self) -> bool {
        &&& self.tower_level <= 7
        &&& self.packing_factor == 0 || self.packing_factor == self.tower_level
        &&& is_pow2(self.coeffs@.len())
        &&& self.variables == log2(self.coeffs@.len()) + self.packing_factor
        &&& in_subfield(self.coeffs@, self.tower_level as nat)
    }

    /// The value of the polynomial at the point of the cube whose bits are
    /// those of `idx`: bit `idx mod 2^p` of coefficient `idx div 2^p`, for
    /// the packing factor `p`.
    pub open spec fn bit_at(&self, idx: nat) -> bool {
        bit(
            self.coeffs@[(idx / two_pow(self.packing_factor as nat)) as int],
            (idx % two_pow(self.packing_factor as nat)) as usize,
        )
    }

    /// The sum over `s < n` of the entries `eq[s]` at which the polynomial
    /// is one at the point `base + s * step` of the cube.
    pub open spec fn strided_sum(&self, eq: Seq<u128>, base: nat, step: nat, n: nat) -> u128
        decreases n,
    {
        if n == 0 {
            0
        } else {
            self.strided_sum(eq, base, step, (n - 1) as nat) ^ select(
                self.bit_at((base + (n - 1) * step) as nat),
                eq[n - 1],
            )
        }
    }

    /// The number of points of the cube is the number of coefficients times
    /// the number of bits read from each.
    pub proof fn lemma_cube_size(&self)
        requires
            self.wf(),
        ensures
            two_pow(self.variables as nat) == self.coeffs@.len() * two_pow(
                self.packing_factor as nat,
            ),
            1 <= two_pow(self.packing_factor as nat) <= 128,
    {
        lemma_pow2_log2(self.coeffs@.len());
        crate::pow2::lemma_two_pow_add(log2(self.coeffs@.len()), self.packing_factor as nat);
        crate::pow2::lemma_two_pow_monotonic(self.packing_factor as nat, 7);
        crate::pow2::lemma_two_pow_positive(self.packing_factor as nat);
        reveal_with_fuel(two_pow, 8);
    }

    /// The polynomial with the coefficients `coeffs` of the subfield of
    /// tower level `tower_level`. Where `packed` holds, each coefficient
    /// stands for its bits, one evaluation each; else for itself.
    pub fn new(coeffs: Vec<u128>, tower_level: usize, packed: bool) -> (mle: PackedMLE)
        requires
            tower_level <= 7,
            is_pow2(coeffs@.len()),
            in_subfield(coeffs@, tower_level as nat),
        ensures
            mle.wf(),
            mle.coeffs@ == coeffs@,
            mle.tower_level == tower_level,
            mle.packing_factor == (if packed {
                tower_level
            } else {
                0
            }),
            mle.variables == log2(coeffs@.len()) + mle.packing_factor,
    {
        let log_len = crate::pow2::log2_of(coeffs.len());
        proof {
            lemma_pow2_log2(coeffs@.len());
            if log_len >= 64 {
                crate::pow2::lemma_two_pow_monotonic(64, log_len as nat);
                crate::pow2::lemma_two_pow_64();
            }
        }
        if packed {
            PackedMLE { packing_factor: tower_level, variables: log_len + tower_level, coeffs, tower_level }
        } else {
            PackedMLE { packing_factor: 0, variables: log_len, coeffs, tower_level }
        }
    }

    /// The value of the polynomial at the point of the cube whose bits are those of `idx`.
    pub fn packed_idx(&self, idx: usize) -> (b: bool)
        requires
            self.wf(),
            idx < two_pow(self.variables as nat),
        ensures
            b == self.bit_at(idx as nat),
    {
        let size = crate::pow2::pow2_small(self.packing_factor);
        proof {
            self.lemma_cube_size();
            crate::pow2::lemma_split_index(idx as nat, self.coeffs@.len(), size as nat);
        }
        let out_idx = idx / size;
        let in_idx = idx % size;
        get_bit(self.coeffs[out_idx], in_idx)
    }

    /// Coefficient `idx`.
    pub fn idx(&self, idx: usize) -> (c: u128)
        requires
            idx < self.coeffs@.len(),
        ensures
            c == self.coeffs@[idx as int],
    {
        self.coeffs[idx]
    }

    /// The number of coefficients.
    pub fn len(&self) -> (n: usize)
        ensures
            n == self.coeffs@.len(),
    {
        self.coeffs.len()
    }
}


/// Every element of the whole field is in the subfield of tower level 7.
pub proof fn lemma_whole_field(coeffs: Seq<u128>)
    ensures
        in_subfield(coeffs, 7),
{
    crate::pow2::lemma_two_pow_64();
    crate::pow2::lemma_two_pow_add(64, 64);
    assert(two_pow(128) == 0x1_0000_0000_0000_0000 * 0x1_0000_0000_0000_0000);
}

/// Binds the lowest variable of the evaluations `vals` to `r`.
pub fn fold_vals(field: &BinaryField128, vals: &[u128], r: u128) -> (out: Vec<u128>)
    requires
        field.wf(),
    ensures
        out@ == folded_lo(field.products@, vals@, r),
{
    let half_len = vals.len() / 2;
    let mut out: Vec<u128> = Vec::with_capacity(half_len);
    let mut i: usize = 0;
    while i < half_len
        invariant
            i <= half_len,
            half_len == vals@.len() / 2,
            vals@.len() <= usize::MAX,
            field.wf(),
            out@.len() == i,
            forall|m: int|
                0 <= m < i ==> out@[m] == fold_pair(
                    field.products@,
                    r,
                    vals@[2 * m],
                    vals@[2 * m + 1],
                ),
        decreases half_len - i,
    {
        let c0 = vals[2 * i];
        let c1 = vals[2 * i + 1];
        out.push(field.mul(r, c0 ^ c1) ^ c0);
        i += 1;
    }
    assert(out@ =~= folded_lo(field.products@, vals@, r));
    out
}

/// The number of elements that `len` coefficients of the subfield of
/// tower level `level` are repacked into.
pub open spec fn repacked_len(len: nat, level: nat) -> nat {
    ((len + 128nat / two_pow(level) - 1) / ((128nat / two_pow(level)) as int)) as nat
}

/// A power of two of coefficients is repacked into a power of two of
/// elements: one where the coefficients do not fill an element, else one
/// for every `128 / n` coefficients, for `n` their number of bits.
pub proof fn lemma_repacked_len(len: nat, level: nat)
    requires
        is_pow2(len),
        level <= 7,
    ensures
        is_pow2(repacked_len(len, level)),
        log2(len) + level >= 7 ==> repacked_len(len, level) == two_pow(
            (log2(len) + level - 7) as nat,
        ),
        log2(len) + level < 7 ==> repacked_len(len, level) == 1,
{
    let a = log2(len);
    let b = (7 - level) as nat;
    let n_bits = two_pow(level);
    let degree = two_pow(b);
    crate::pow2::lemma_two_pow_64();
    crate::pow2::lemma_two_pow_add(level, b);
    crate::pow2::lemma_two_pow_positive(level);
    crate::pow2::lemma_two_pow_positive(b);
    assert(128nat / n_bits == degree) by (nonlinear_arith)
        requires
            n_bits * degree == 128,
            n_bits > 0,
    ;
    lemma_pow2_log2(len);
    if a >= b {
        crate::pow2::lemma_two_pow_add((a - b) as nat, b);
        crate::pow2::lemma_two_pow_is_pow2((a - b) as nat);
        let q = two_pow((a - b) as nat);
        vstd::arithmetic::div_mod::lemma_fundamental_div_mod_converse(
            len + degree - 1,
            degree as int,
            q as int,
            degree - 1,
        );
    } else {
        crate::pow2::lemma_two_pow_monotonic(a + 1, b);
        crate::pow2::lemma_two_pow_positive(a);
        vstd::arithmetic::div_mod::lemma_fundamental_div_mod_converse(
            len + degree - 1,
            degree as int,
            1,
            len - 1,
        );
    }
}

/// Takes the coefficients `coeffs`, of the subfield of tower level
/// `tower_level`, `128 / n` at a time, for `n` their number of bits, and
/// lays each group out as one element of the whole field.
pub fn repack(coeffs: &[u128], tower_level: usize) -> (out: Vec<u128>)
    requires
        tower_level <= 7,
    ensures
        out@ == repacked(coeffs@, two_pow(tower_level as nat)),
{
    let n_bits = crate::pow2::pow2_small(tower_level);
    let degree = crate::pow2::pow2_small(7 - tower_level);
    let len = coeffs.len();
    let whole = len / degree;
    proof {
        vstd::arithmetic::div_mod::lemma_fundamental_div_mod(len as int, degree as int);
        if len % degree != 0 {
            assert(whole * 2 <= len) by (nonlinear_arith)
                requires
                    degree * whole <= len,
                    degree >= 2,
            ;
        }
    }
    let out_len = if len % degree == 0 {
        whole
    } else {
        whole + 1
    };
    proof {
        crate::pow2::lemma_two_pow_64();
        crate::pow2::lemma_two_pow_add(tower_level as nat, (7 - tower_level) as nat);
        assert(n_bits * degree == 128);
        assert(128nat / (n_bits as nat) == degree) by (nonlinear_arith)
            requires
                n_bits * degree == 128,
                n_bits > 0,
        ;
        vstd::arithmetic::div_mod::lemma_fundamental_div_mod(len as int, degree as int);
        if len % degree == 0 {
            vstd::arithmetic::div_mod::lemma_fundamental_div_mod_converse(
                len + degree - 1,
                degree as int,
                whole as int,
                degree - 1,
            );
        } else {
            assert((whole + 1) * degree == whole * degree + degree) by (nonlinear_arith);
            assert(degree * whole == whole * degree) by (nonlinear_arith);
            vstd::arithmetic::div_mod::lemma_fundamental_div_mod_converse(
                len + degree - 1,
                degree as int,
                whole + 1,
                (len % degree) - 1,
            );
        }
        assert(degree * whole == whole * degree) by (nonlinear_arith);
    }
    assert(out_len == (len + degree - 1) / (degree as int));
    let mut out: Vec<u128> = Vec::with_capacity(out_len);
    let mut j: usize = 0;
    while j < out_len
        invariant
            j <= out_len,
            len == coeffs@.len(),
            1 <= degree <= 128,
            1 <= n_bits <= 128,
            n_bits * degree == 128,
            whole <= out_len <= whole + 1,
            whole * degree <= len,
            out_len == whole + 1 ==> whole * degree < len,
            out@.len() == j,
            forall|m: int|
                0 <= m < j ==> out@[m] == packed(
                    chunk(coeffs@, degree as nat, m),
                    n_bits as nat,
                    chunk(coeffs@, degree as nat, m).len(),
                ),
        decreases out_len - j,
    {
        proof {
            assert(j * degree <= whole * degree) by (nonlinear_arith)
                requires
                    j <= whole,
            ;
            if j < whole {
                assert(j * degree + degree <= whole * degree) by (nonlinear_arith)
                    requires
                        j < whole,
                ;
            }
            assert((j + 1) * degree == j * degree + degree) by (nonlinear_arith);
        }
        let start = j * degree;
        let end = if len - start >= degree {
            start + degree
        } else {
            len
        };
        let ghost piece = chunk(coeffs@, degree as nat, j as int);
        assert(piece == coeffs@.subrange(start as int, end as int));
        let mut acc: u128 = 0;
        let mut i: usize = 0;
        let mut shift: usize = 0;
        while i < end - start
            invariant
                i <= end - start <= degree,
                start <= end <= len,
                len == coeffs@.len(),
                n_bits * degree == 128,
                1 <= n_bits <= 128,
                piece == coeffs@.subrange(start as int, end as int),
                shift == i * n_bits,
                acc == packed(piece, n_bits as nat, i as nat),
            decreases end - start - i,
        {
            proof {
                assert(i * n_bits + n_bits <= degree * n_bits) by (nonlinear_arith)
                    requires
                        i < degree,
                ;
                assert((i + 1) * n_bits == i * n_bits + n_bits) by (nonlinear_arith);
                assert(degree * n_bits == n_bits * degree) by (nonlinear_arith);
                assert(piece[i as int] == coeffs@[start + i]);
            }
            acc = acc | (coeffs[start + i] << shift);
            i += 1;
            shift = shift + n_bits;
        }
        out.push(acc);
        j += 1;
    }
    assert(out@ =~= repacked(coeffs@, n_bits as nat));
    out
}

impl PackedMLE {
    /// The sum over `s < n` of the entries `eq[s]` at which the polynomial
    /// is one at the point `base + s * step` of the cube.
    pub fn sum_strided(&self, eq: &[u128], base: usize, step: usize, n: usize) -> (r: u128)
        requires
            self.wf(),
            n <= eq@.len(),
            n > 0 ==> base + (n - 1) * step < two_pow(self.variables as nat),
            n > 0 ==> base + (n - 1) * step <= usize::MAX,
        ensures
            r == self.strided_sum(eq@, base as nat, step as nat, n as nat),
    {
        let mut acc: u128 = 0;
        let mut s: usize = 0;
        let mut at: usize = base;
        while s < n
            invariant
                s <= n <= eq@.len(),
                self.wf(),
                n > 0 ==> base + (n - 1) * step < two_pow(self.variables as nat),
                n > 0 ==> base + (n - 1) * step <= usize::MAX,
                s < n ==> at == base + s * step,
                acc == self.strided_sum(eq@, base as nat, step as nat, s as nat),
            decreases n - s,
        {
            proof {
                lemma_xor_zero(acc);
                assert(s * step <= (n - 1) * step) by (nonlinear_arith)
                    requires
                        s <= n - 1,
                ;
            }
            if self.packed_idx(at) {
                acc = acc ^ eq[s];
            }
            s += 1;
            if s < n {
                proof {
                    assert(s * step <= (n - 1) * step) by (nonlinear_arith)
                        requires
                            s <= n - 1,
                    ;
                    assert(s * step == (s - 1) * step + step) by (nonlinear_arith);
                }
                at = at + step;
            }
        }
        acc
    }

    /// The polynomial over the whole field with the same evaluations: the
    /// coefficients are taken `128 / n` at a time, for `n` the number of
    /// bits of a coefficient, and each group is laid out as one element.
    pub fn repack_for_fri(&self) -> (mle: PackedMLE)
        requires
            self.wf(),
        ensures
            mle.wf(),
            mle.coeffs@ == repacked(self.coeffs@, two_pow(self.tower_level as nat)),
            mle.packing_factor == 0,
            mle.tower_level == 7,
            mle.variables == log2(mle.coeffs@.len()),
    {
        let out = repack(self.coeffs.as_slice(), self.tower_level);
        proof {
            lemma_repacked_len(self.coeffs@.len(), self.tower_level as nat);
            lemma_whole_field(out@);
        }
        PackedMLE::new(out, 7, false)
    }

    /// The evaluation with the lowest `eq.vars` variables bound by the
    /// table `eq` and the others set to the bits of `idx`.
    pub fn get_bound_elem(&self, idx: usize, eq: &LagrangeBases) -> (r: u128)
        requires
            self.wf(),
            eq.wf(),
            eq.vars <= self.variables,
            idx < two_pow((self.variables - eq.vars) as nat),
            two_pow(self.variables as nat) <= usize::MAX,
        ensures
            r == self.strided_sum(eq.vals@, (idx * eq.vals@.len()) as nat, 1, eq.vals@.len()),
    {
        let size = eq.vals.len();
        proof {
            crate::pow2::lemma_two_pow_add((self.variables - eq.vars) as nat, eq.vars as nat);
            crate::pow2::lemma_two_pow_positive(eq.vars as nat);
            crate::pow2::lemma_join_index(
                idx as nat,
                (size - 1) as nat,
                two_pow((self.variables - eq.vars) as nat),
                size as nat,
            );
            assert((size - 1) * 1 == size - 1);
        }
        self.sum_strided(eq.vals.as_slice(), idx * size, 1, size)
    }

    /// Binds the lowest variable to `r`.
    pub fn fold_lo(&self, r: &u128, field: &BinaryField128) -> (mle: PackedMLE)
        requires
            self.wf(),
            field.wf(),
            self.coeffs@.len() >= 2,
        ensures
            mle.wf(),
            mle.coeffs@ == folded_lo(field.products@, self.coeffs@, *r),
            mle.packing_factor == 0,
            mle.tower_level == 7,
            mle.variables == log2(self.coeffs@.len()) - 1,
    {
        let fold = fold_vals(field, self.coeffs.as_slice(), *r);
        proof {
            lemma_whole_field(fold@);
        }
        PackedMLE::new(fold, 7, false)
    }
}

impl LagrangeBases {
    /// The table holds two to the power `vars` entries.
    pub open spec fn wf(&self) -> bool {
        self.vals@.len() == two_pow(self.vars as nat)
    }

    /// The table over the empty point: the one entry 1.
    pub fn new() -> (eq: LagrangeBases)
        ensures
            eq.wf(),
            eq.vals@ == seq![1u128],
            eq.vars == 0,
    {
        let mut vals: Vec<u128> = Vec::new();
        vals.push(1u128);
        assert(vals@ =~= seq![1u128]);
        LagrangeBases { vals, vars: 0 }
    }

    /// Entry `idx`.
    pub fn idx(&self, idx: usize) -> (v: u128)
        requires
            idx < self.vals@.len(),
        ensures
            v == self.vals@[idx as int],
    {
        self.vals[idx]
    }

    /// Bit `idx mod 128` of entry `idx div 128`.
    pub fn packed_idx(&self, idx: usize) -> (b: bool)
        requires
            idx / 128 < self.vals@.len(),
        ensures
            b == bit(self.vals@[(idx / 128) as int], (idx % 128) as usize),
    {
        let out_idx = idx / 128;
        let in_idx = idx % 128;
        get_bit(self.vals[out_idx], in_idx)
    }

    /// The table of the equality polynomial at `point`.
    pub fn gen_from_point(point: &[u128], field: &BinaryField128) -> (eq: LagrangeBases)
        requires
            field.wf(),
            two_pow(point@.len()) <= usize::MAX,
        ensures
            eq.wf(),
            eq.vals@ == eq_table(field.products@, point@),
            eq.vars == point@.len(),
    {
        let vals = compute_eq(field, point);
        proof {
            lemma_eq_fold_len(field.products@, seq![1u128], point@);
            assert(1 * two_pow(point@.len()) == two_pow(point@.len()));
        }
        LagrangeBases { vals, vars: point.len() }
    }

    /// Binds the lowest variable to `r`.
    pub fn fold_lo(&mut self, r: &u128, field: &BinaryField128)
        requires
            old(self).wf(),
            old(self).vars >= 1,
            field.wf(),
        ensures
            final(self).wf(),
            final(self).vals@ == folded_lo(field.products@, old(self).vals@, *r),
            final(self).vars == old(self).vars - 1,
    {
        let fold = fold_vals(field, self.vals.as_slice(), *r);
        self.vals = fold;
        self.vars = self.vars - 1;
    }
}


/// Row `i` of the bit matrix whose columns are the first `n` elements of
/// `vals`: bit `j` of the row is bit `i` of `vals[j]`.
pub open spec fn row_bits(vals: Seq<u128>, i: usize, n: nat) -> u128
    decreases n,
{
    if n == 0 {
        0
    } else {
        row_bits(vals, i, (n - 1) as nat) | select(
            bit(vals[n - 1], i),
            crate::field::basis((n - 1) as usize),
        )
    }
}

/// The 128 by 128 bit matrix held in the first 128 elements of `vals`, transposed.
pub open spec fn transposed(vals: Seq<u128>) -> Seq<u128> {
    Seq::new(128, |i: int| row_bits(vals, i as usize, 128))
}

/// The table `vals` extended by the coordinate `p` as its highest
/// variable: each entry `x` gives `x + p x` in the lower half and `p x` in
/// the upper half.
pub open spec fn tensored(t: Seq<u128>, vals: Seq<u128>, p: u128) -> Seq<u128> {
    Seq::new(
        2 * vals.len(),
        |i: int|
            if i < vals.len() {
                vals[i] ^ product(t, p, vals[i])
            } else {
                product(t, p, vals[i - vals.len()])
            },
    )
}

/// The sums of the adjacent pairs of `vals`.
pub open spec fn pair_sums(vals: Seq<u128>) -> Seq<u128> {
    Seq::new(vals.len() / 2, |i: int| vals[2 * i] ^ vals[2 * i + 1])
}

/// The smaller of two lengths.
pub open spec fn shorter(a: nat, b: nat) -> nat {
    if a <= b {
        a
    } else {
        b
    }
}

proof fn lemma_or_bit(x: u128, k: usize, j: usize)
    by (bit_vector)
    requires
        k < 128,
        j < 128,
    ensures
        ((x | (1u128 << k)) >> j) & 1 == 1 <==> ((x >> j) & 1 == 1 || j == k),
        (0u128 >> j) & 1 == 0,
        x | 0 == x,
{
}

/// Bit `j` of row `i` is bit `i` of element `j`, for `j` below `n`, and is
/// clear from `n` on.
pub proof fn lemma_row_bits(vals: Seq<u128>, i: usize, n: nat, j: usize)
    requires
        n <= 128,
        j < 128,
    ensures
        bit(row_bits(vals, i, n), j) == (j < n && bit(vals[j as int], i)),
    decreases n,
{
    if n == 0 {
        lemma_or_bit(0, 0, j);
    } else {
        lemma_row_bits(vals, i, (n - 1) as nat, j);
        lemma_or_bit(row_bits(vals, i, (n - 1) as nat), (n - 1) as usize, j);
    }
}

/// The sum of the products of the entries of `scalars` and `vals`, as far as both go.
pub fn compute_dot_product(scalars: &[u128], vals: &[u128], field: &BinaryField128) -> (r: u128)
    requires
        field.wf(),
    ensures
        r == dot(field.products@, scalars@, vals@, shorter(scalars@.len(), vals@.len())),
{
    let n = if scalars.len() <= vals.len() {
        scalars.len()
    } else {
        vals.len()
    };
    let mut acc: u128 = 0;
    let mut i: usize = 0;
    while i < n
        invariant
            i <= n,
            n <= scalars@.len(),
            n <= vals@.len(),
            field.wf(),
            acc == dot(field.products@, scalars@, vals@, i as nat),
        decreases n - i,
    {
        acc = acc ^ field.mul(scalars[i], vals[i]);
        i += 1;
    }
    acc
}

/// Transposes the 128 by 128 bit matrix held in the first 128 elements of
/// `vals`: bit `j` of element `i` of the result is bit `i` of `vals[j]`.
pub fn switch_view(vals: &[u128]) -> (rows: Vec<u128>)
    requires
        vals@.len() >= 128,
    ensures
        rows@ == transposed(vals@),
        forall|i: usize, j: usize|
            i < 128 && j < 128 ==> bit(#[trigger] rows@[i as int], j) == bit(
                #[trigger] vals@[j as int],
                i,
            ),
{
    let mut rows: Vec<u128> = Vec::with_capacity(128);
    let mut i: usize = 0;
    while i < 128
        invariant
            i <= 128,
            vals@.len() >= 128,
            rows@.len() == i,
            forall|m: int| 0 <= m < i ==> rows@[m] == row_bits(vals@, m as usize, 128),
        decreases 128 - i,
    {
        let mut acc: u128 = 0;
        let mut j: usize = 0;
        while j < 128
            invariant
                j <= 128,
                i < 128,
                vals@.len() >= 128,
                acc == row_bits(vals@, i, j as nat),
            decreases 128 - j,
        {
            proof {
                lemma_or_bit(acc, j, j);
            }
            if get_bit(vals[j], i) {
                acc = acc | (1u128 << j);
            }
            j += 1;
        }
        rows.push(acc);
        i += 1;
    }
    assert(rows@ =~= transposed(vals@));
    assert forall|i: usize, j: usize| i < 128 && j < 128 implies bit(
        #[trigger] rows@[i as int],
        j,
    ) == bit(#[trigger] vals@[j as int], i) by {
        lemma_row_bits(vals@, i, 128, j);
    }
    rows
}

/// The sum of the products of `scalars` with the rows of the bit matrix
/// whose columns are the first 128 elements of `vals`.
pub fn compute_row_batch(scalars: &[u128], vals: &[u128], field: &BinaryField128) -> (r: u128)
    requires
        field.wf(),
        vals@.len() >= 128,
    ensures
        r == dot(field.products@, scalars@, transposed(vals@), shorter(scalars@.len(), 128)),
{
    let row_view = switch_view(vals);
    let n = if scalars.len() <= 128 {
        scalars.len()
    } else {
        128
    };
    let mut acc: u128 = 0;
    let mut i: usize = 0;
    while i < n
        invariant
            i <= n,
            n <= scalars@.len(),
            n <= 128,
            row_view@.len() == 128,
            field.wf(),
            acc == dot(field.products@, scalars@, row_view@, i as nat),
        decreases n - i,
    {
        acc = acc ^ field.mul(scalars[i], row_view[i]);
        i += 1;
    }
    acc
}

impl LagrangeBases {
    /// The table that holds the coefficients of `mle`.
    pub fn from_mle(mle: PackedMLE) -> (eq: LagrangeBases)
        requires
            mle.wf(),
        ensures
            eq.wf(),
            eq.vals@ == mle.coeffs@,
            eq.vars == log2(mle.coeffs@.len()),
    {
        let vars = crate::pow2::log2_of(mle.coeffs.len());
        proof {
            lemma_pow2_log2(mle.coeffs@.len());
        }
        LagrangeBases { vals: mle.coeffs, vars }
    }

    /// Extends the table by the coordinate `point` as its highest variable.
    pub fn tensor(&mut self, point: &u128, field: &BinaryField128)
        requires
            old(self).wf(),
            field.wf(),
            2 * old(self).vals@.len() <= usize::MAX,
            old(self).vars < usize::MAX,
        ensures
            final(self).wf(),
            final(self).vals@ == tensored(field.products@, old(self).vals@, *point),
            final(self).vars == old(self).vars + 1,
    {
        let size = self.vals.len();
        let ghost prev = self.vals@;
        let mut upper: Vec<u128> = Vec::with_capacity(size);
        let mut i: usize = 0;
        while i < size
            invariant
                i <= size,
                size == prev.len(),
                field.wf(),
                self.vars == old(self).vars,
                self.vals@.len() == size,
                upper@.len() == i,
                forall|m: int| 0 <= m < i ==> upper@[m] == product(field.products@, *point, prev[m]),
                forall|m: int|
                    0 <= m < i ==> self.vals@[m] == prev[m] ^ product(
                        field.products@,
                        *point,
                        prev[m],
                    ),
                forall|m: int| i <= m < size ==> self.vals@[m] == prev[m],
            decreases size - i,
        {
            let l = self.vals[i];
            let r = field.mul(*point, l);
            self.vals[i] = l ^ r;
            upper.push(r);
            i += 1;
        }
        self.vals.append(&mut upper);
        self.vars = self.vars + 1;
        assert(self.vals@ =~= tensored(field.products@, prev, *point));
    }

    /// Each entry, read as a vector of 128 bits, times the vector of the
    /// first 128 entries of `eq`.
    pub fn row_batch(&self, eq: &LagrangeBases) -> (batched: LagrangeBases)
        ensures
            batched.vars == self.vars,
            batched.vals@.len() == self.vals@.len(),
            forall|i: int|
                0 <= i < self.vals@.len() ==> #[trigger] batched.vals@[i] == bit_dot(
                    self.vals@[i],
                    eq.vals@,
                    shorter(128, eq.vals@.len()),
                ),
    {
        let n = if eq.vals.len() <= 128 {
            eq.vals.len()
        } else {
            128
        };
        let mut vals: Vec<u128> = Vec::with_capacity(self.vals.len());
        let mut i: usize = 0;
        while i < self.vals.len()
            invariant
                i <= self.vals@.len(),
                n == shorter(128, eq.vals@.len()),
                vals@.len() == i,
                forall|m: int|
                    0 <= m < i ==> #[trigger] vals@[m] == bit_dot(
                        self.vals@[m],
                        eq.vals@,
                        n as nat,
                    ),
            decreases self.vals@.len() - i,
        {
            let x = self.vals[i];
            let mut acc: u128 = 0;
            let mut b: usize = 0;
            while b < n
                invariant
                    b <= n,
                    n <= 128,
                    n <= eq.vals@.len(),
                    acc == bit_dot(x, eq.vals@, b as nat),
                decreases n - b,
            {
                proof {
                    lemma_xor_zero(acc);
                }
                if get_bit(x, b) {
                    acc = acc ^ eq.vals[b];
                }
                b += 1;
            }
            vals.push(acc);
            i += 1;
        }
        LagrangeBases { vals, vars: self.vars }
    }

    /// Sums the table over its lowest variable, where it has one.
    pub fn fold_in(&mut self)
        requires
            old(self).wf(),
        ensures
            final(self).wf(),
            old(self).vals@.len() > 1 ==> final(self).vals@ == pair_sums(old(self).vals@)
                && final(self).vars == old(self).vars - 1,
            old(self).vals@.len() <= 1 ==> final(self).vals@ == old(self).vals@
                && final(self).vars == old(self).vars,
    {
        if self.vals.len() > 1 {
            let half = self.vals.len() / 2;
            let mut fold: Vec<u128> = Vec::with_capacity(half);
            let mut i: usize = 0;
            while i < half
                invariant
                    i <= half,
                    half == self.vals@.len() / 2,
                    self.vals@.len() <= usize::MAX,
                    fold@.len() == i,
                    forall|m: int|
                        0 <= m < i ==> fold@[m] == self.vals@[2 * m] ^ self.vals@[2 * m + 1],
                decreases half - i,
            {
                fold.push(self.vals[2 * i] ^ self.vals[2 * i + 1]);
                i += 1;
            }
            assert(fold@ =~= pair_sums(self.vals@));
            self.vals = fold;
            self.vars = self.vars - 1;
        }
    }
}


/// Binding the lowest variable to `r` interpolates between the value `c0`
/// at zero and the value `c1` at one: the fold `c0 + r (c0 + c1)` is `(1 -
/// r) c0 + r c1`, where subtraction is addition.
pub proof fn lemma_fold_pair_interpolates(t: Seq<u128>, r: u128, c0: u128, c1: u128)
    requires
        crate::field::valid_table(t),
    ensures
        fold_pair(t, r, c0, c1) == product(t, 1u128 ^ r, c0) ^ product(t, r, c1),
{
    crate::field::lemma_product_additive_right(t, r, c0, c1);
    crate::field::lemma_product_additive_left(t, 1u128, r, c0);
    crate::field::lemma_product_one(t, c0);
    let a = product(t, r, c0);
    let b = product(t, r, c1);
    assert((a ^ b) ^ c0 == (c0 ^ a) ^ b) by (bit_vector);
}

/// The fold of a polynomial has, at each point `x` of the smaller cube,
/// the value `(1 - r) f(0, x) + r f(1, x)`, where `f(0, x)` and `f(1, x)`
/// are the evaluations of index `2 x` and `2 x + 1`.
pub proof fn lemma_fold_lo_interpolates(t: Seq<u128>, vals: Seq<u128>, r: u128, x: int)
    requires
        crate::field::valid_table(t),
        0 <= x < vals.len() / 2,
    ensures
        folded_lo(t, vals, r)[x] == product(t, 1u128 ^ r, vals[2 * x]) ^ product(
            t,
            r,
            vals[2 * x + 1],
        ),
{
    lemma_fold_pair_interpolates(t, r, vals[2 * x], vals[2 * x + 1]);
}

/// Extending a table by the coordinates of a point, from the first on, is
/// extending it by the first and then by the others.
pub proof fn lemma_eq_fold_first(t: Seq<u128>, start: Seq<u128>, point: Seq<u128>)
    requires
        point.len() >= 1,
    ensures
        eq_fold(t, start, point) == eq_fold(t, eq_extend(t, start, point[0]), point.skip(1)),
    decreases point.len(),
{
    reveal_with_fuel(eq_fold, 2);
    let first = eq_extend(t, start, point[0]);
    let rest = point.skip(1);
    if point.len() == 1 {
        assert(point.drop_last().len() == 0);
        assert(rest.len() == 0);
        assert(point.last() == point[0]);
        assert(eq_fold(t, start, point.drop_last()) == start);
        assert(eq_fold(t, first, rest) == first);
    } else {
        lemma_eq_fold_first(t, start, point.drop_last());
        assert(point.drop_last().skip(1) =~= rest.drop_last());
        assert(point.drop_last()[0] == point[0]);
        assert(rest.last() == point.last());
        assert(eq_fold(t, first, rest) == eq_extend(
            t,
            eq_fold(t, first, rest.drop_last()),
            rest.last(),
        ));
    }
}


/// The sum over `s < n` of the products of `eq[s]` with the coefficient of
/// index `base + s * step`.
pub open spec fn strided_dot(
    t: Seq<u128>,
    eq: Seq<u128>,
    coeffs: Seq<u128>,
    base: nat,
    step: nat,
    n: nat,
) -> u128
    decreases n,
{
    if n == 0 {
        0
    } else {
        strided_dot(t, eq, coeffs, base, step, (n - 1) as nat) ^ product(
            t,
            eq[n - 1],
            coeffs[(base + (n - 1) * step) as int],
        )
    }
}

impl PackedMLE {
    /// The polynomial in the variables that `eq` does not bind, with the
    /// highest `eq.vars` variables bound by the table `eq`: the
    /// evaluation of index `i` is the sum over `s` of the entries `eq[s]` at
    /// which this polynomial is one at the point `i + s * 2^k`, for `k`
    /// the number of variables left.
    pub fn fold_as_unpacked_hi(&self, eq: &LagrangeBases) -> (mle: PackedMLE)
        requires
            self.wf(),
            eq.wf(),
            eq.vars <= self.variables,
            two_pow(self.variables as nat) <= usize::MAX,
        ensures
            mle.wf(),
            mle.packing_factor == 0,
            mle.tower_level == 7,
            mle.variables == self.variables - eq.vars,
            mle.coeffs@.len() == two_pow((self.variables - eq.vars) as nat),
            forall|i: int|
                0 <= i < mle.coeffs@.len() ==> #[trigger] mle.coeffs@[i] == self.strided_sum(
                    eq.vals@,
                    i as nat,
                    two_pow((self.variables - eq.vars) as nat),
                    eq.vals@.len(),
                ),
    {
        let ghost left = (self.variables - eq.vars) as nat;
        proof {
            crate::pow2::lemma_two_pow_add(left, eq.vars as nat);
            crate::pow2::lemma_two_pow_positive(left);
            crate::pow2::lemma_two_pow_positive(eq.vars as nat);
            crate::pow2::lemma_two_pow_monotonic(left, self.variables as nat);
            assert(two_pow(left) * two_pow(eq.vars as nat) == two_pow(eq.vars as nat) * two_pow(
                left,
            )) by (nonlinear_arith);
        }
        let count = match pow2_checked(self.variables - eq.vars) {
            Some(count) => count,
            None => 1,
        };
        let size = eq.vals.len();
        let mut vals: Vec<u128> = Vec::with_capacity(count);
        let mut i: usize = 0;
        while i < count
            invariant
                i <= count,
                self.wf(),
                eq.wf(),
                size == eq.vals@.len(),
                size >= 1,
                count == two_pow(left),
                left == self.variables - eq.vars,
                size * count == two_pow(self.variables as nat),
                two_pow(self.variables as nat) <= usize::MAX,
                vals@.len() == i,
                forall|m: int|
                    0 <= m < i ==> #[trigger] vals@[m] == self.strided_sum(
                        eq.vals@,
                        m as nat,
                        count as nat,
                        size as nat,
                    ),
            decreases count - i,
        {
            proof {
                crate::pow2::lemma_join_index(
                    (size - 1) as nat,
                    i as nat,
                    size as nat,
                    count as nat,
                );
            }
            vals.push(self.sum_strided(eq.vals.as_slice(), i, count, size));
            i += 1;
        }
        proof {
            lemma_whole_field(vals@);
            crate::pow2::lemma_two_pow_is_pow2(left);
        }
        PackedMLE::new(vals, 7, false)
    }

    /// The polynomial in the variables that `eq` does not bind, with the
    /// lowest `eq.vars` variables bound by the table `eq`.
    pub fn fold_as_unpacked_lo(&self, eq: &LagrangeBases) -> (mle: PackedMLE)
        requires
            self.wf(),
            eq.wf(),
            eq.vars <= self.variables,
            two_pow(self.variables as nat) <= usize::MAX,
        ensures
            mle.wf(),
            mle.packing_factor == 0,
            mle.tower_level == 7,
            mle.variables == self.variables - eq.vars,
            mle.coeffs@.len() == two_pow((self.variables - eq.vars) as nat),
            forall|i: int|
                0 <= i < mle.coeffs@.len() ==> #[trigger] mle.coeffs@[i] == self.strided_sum(
                    eq.vals@,
                    (i * eq.vals@.len()) as nat,
                    1,
                    eq.vals@.len(),
                ),
    {
        let ghost left = (self.variables - eq.vars) as nat;
        proof {
            crate::pow2::lemma_two_pow_monotonic(left, self.variables as nat);
        }
        let count = match pow2_checked(self.variables - eq.vars) {
            Some(count) => count,
            None => 1,
        };
        let mut vals: Vec<u128> = Vec::with_capacity(count);
        let mut i: usize = 0;
        while i < count
            invariant
                i <= count,
                self.wf(),
                eq.wf(),
                eq.vars <= self.variables,
                count == two_pow(left),
                left == self.variables - eq.vars,
                two_pow(self.variables as nat) <= usize::MAX,
                vals@.len() == i,
                forall|m: int|
                    0 <= m < i ==> #[trigger] vals@[m] == self.strided_sum(
                        eq.vals@,
                        (m * eq.vals@.len()) as nat,
                        1,
                        eq.vals@.len(),
                    ),
            decreases count - i,
        {
            vals.push(self.get_bound_elem(i, eq));
            i += 1;
        }
        proof {
            lemma_whole_field(vals@);
            crate::pow2::lemma_two_pow_is_pow2(left);
        }
        PackedMLE::new(vals, 7, false)
    }

    /// The polynomial in all but the lowest seven variables, with those
    /// seven bound by the first 128 entries of the table `eq`.
    pub fn batch_rows(&self, eq: &LagrangeBases) -> (mle: PackedMLE)
        requires
            self.wf(),
            self.variables >= 7,
            eq.vals@.len() >= 128,
            two_pow(self.variables as nat) <= usize::MAX,
        ensures
            mle.wf(),
            mle.packing_factor == 0,
            mle.tower_level == 7,
            mle.variables == self.variables - 7,
            mle.coeffs@.len() == two_pow((self.variables - 7) as nat),
            forall|k: int|
                0 <= k < mle.coeffs@.len() ==> #[trigger] mle.coeffs@[k] == self.strided_sum(
                    eq.vals@,
                    (k * 128) as nat,
                    1,
                    128,
                ),
    {
        let ghost left = (self.variables - 7) as nat;
        proof {
            crate::pow2::lemma_two_pow_monotonic(left, self.variables as nat);
            crate::pow2::lemma_two_pow_add(left, 7);
            crate::pow2::lemma_two_pow_64();
        }
        let count = match pow2_checked(self.variables - TAU) {
            Some(count) => count,
            None => 1,
        };
        let mut vals: Vec<u128> = Vec::with_capacity(count);
        let mut k: usize = 0;
        while k < count
            invariant
                k <= count,
                self.wf(),
                eq.vals@.len() >= 128,
                count == two_pow(left),
                count * 128 == two_pow(self.variables as nat),
                two_pow(self.variables as nat) <= usize::MAX,
                vals@.len() == k,
                forall|m: int|
                    0 <= m < k ==> #[trigger] vals@[m] == self.strided_sum(
                        eq.vals@,
                        (m * 128) as nat,
                        1,
                        128,
                    ),
            decreases count - k,
        {
            vals.push(self.sum_strided(eq.vals.as_slice(), k * 128, 1, 128));
            k += 1;
        }
        proof {
            lemma_whole_field(vals@);
            crate::pow2::lemma_two_pow_is_pow2(left);
        }
        PackedMLE::new(vals, 7, false)
    }

    /// The product with `r` of each coefficient of index `i | (1 << i)`,
    /// for `i` below half the number of coefficients.
    pub fn fold_hi(&self, r: &u128, field: &BinaryField128) -> (mle: PackedMLE)
        requires
            field.wf(),
            is_pow2(self.coeffs@.len() / 2),
            self.coeffs@.len() / 2 <= 32,
            forall|i: usize|
                i < self.coeffs@.len() / 2 ==> (#[trigger] (i | (1usize << i)))
                    < self.coeffs@.len(),
        ensures
            mle.wf(),
            mle.packing_factor == 0,
            mle.tower_level == 7,
            mle.coeffs@.len() == self.coeffs@.len() / 2,
            forall|i: usize|
                i < mle.coeffs@.len() ==> #[trigger] mle.coeffs@[i as int] == product(
                    field.products@,
                    *r,
                    self.coeffs@[i as int] ^ self.coeffs@[(i | (1usize << i)) as int]
                        ^ self.coeffs@[i as int],
                ),
    {
        let half_len = self.coeffs.len() / 2;
        let mut fold: Vec<u128> = Vec::with_capacity(half_len);
        let mut i: usize = 0;
        while i < half_len
            invariant
                i <= half_len,
                half_len == self.coeffs@.len() / 2,
                half_len <= 32,
                field.wf(),
                forall|k: usize|
                    k < self.coeffs@.len() / 2 ==> (#[trigger] (k | (1usize << k)))
                        < self.coeffs@.len(),
                fold@.len() == i,
                forall|k: usize|
                    k < i ==> #[trigger] fold@[k as int] == product(
                        field.products@,
                        *r,
                        self.coeffs@[k as int] ^ self.coeffs@[(k | (1usize << k)) as int]
                            ^ self.coeffs@[k as int],
                    ),
            decreases half_len - i,
        {
            let low = self.coeffs[i];
            let high = self.coeffs[i | (1usize << i)];
            fold.push(field.mul(*r, low ^ high ^ low));
            i += 1;
        }
        proof {
            lemma_whole_field(fold@);
        }
        PackedMLE::new(fold, 7, false)
    }

    /// The polynomial with the highest `eq.vars` of the variables that
    /// index the coefficients bound by the table `eq`: the coefficient of
    /// index `i` is the sum over `s` of the products of `eq[s]` with the
    /// coefficient of index `i + s * n`, for `n` the number of coefficients left.
    pub fn fold_as_packed_hi(&self, eq: &LagrangeBases, field: &BinaryField128) -> (mle: PackedMLE)
        requires
            self.wf(),
            eq.wf(),
            field.wf(),
            eq.vars <= log2(self.coeffs@.len()),
        ensures
            mle.wf(),
            mle.packing_factor == 0,
            mle.tower_level == 7,
            mle.coeffs@.len() == two_pow((log2(self.coeffs@.len()) - eq.vars) as nat),
            forall|i: int|
                0 <= i < mle.coeffs@.len() ==> #[trigger] mle.coeffs@[i] == strided_dot(
                    field.products@,
                    eq.vals@,
                    self.coeffs@,
                    i as nat,
                    mle.coeffs@.len(),
                    eq.vals@.len(),
                ),
    {
        let ghost log_len = log2(self.coeffs@.len());
        let ghost left = (log_len - eq.vars) as nat;
        proof {
            lemma_pow2_log2(self.coeffs@.len());
            crate::pow2::lemma_two_pow_add(left, eq.vars as nat);
            crate::pow2::lemma_two_pow_positive(left);
            crate::pow2::lemma_two_pow_positive(eq.vars as nat);
            crate::pow2::lemma_two_pow_monotonic(left, log_len);
            assert(two_pow(left) * two_pow(eq.vars as nat) == two_pow(eq.vars as nat) * two_pow(
                left,
            )) by (nonlinear_arith);
        }
        let size = eq.vals.len();
        let count = self.coeffs.len() / size;
        proof {
            vstd::arithmetic::div_mod::lemma_fundamental_div_mod_converse(
                self.coeffs@.len() as int,
                size as int,
                two_pow(left) as int,
                0,
            );
        }
        let mut vals: Vec<u128> = Vec::with_capacity(count);
        let mut i: usize = 0;
        while i < count
            invariant
                i <= count,
                field.wf(),
                size == eq.vals@.len(),
                size >= 1,
                count == two_pow(left),
                size * count == self.coeffs@.len(),
                self.coeffs@.len() <= usize::MAX,
                vals@.len() == i,
                forall|m: int|
                    0 <= m < i ==> #[trigger] vals@[m] == strided_dot(
                        field.products@,
                        eq.vals@,
                        self.coeffs@,
                        m as nat,
                        count as nat,
                        size as nat,
                    ),
            decreases count - i,
        {
            let mut res: u128 = 0;
            let mut sub_cube: usize = 0;
            let mut at: usize = i;
            while sub_cube < size
                invariant
                    sub_cube <= size,
                    i < count,
                    field.wf(),
                    size == eq.vals@.len(),
                    size * count == self.coeffs@.len(),
                    self.coeffs@.len() <= usize::MAX,
                    sub_cube < size ==> at == i + sub_cube * count,
                    res == strided_dot(
                        field.products@,
                        eq.vals@,
                        self.coeffs@,
                        i as nat,
                        count as nat,
                        sub_cube as nat,
                    ),
                decreases size - sub_cube,
            {
                proof {
                    crate::pow2::lemma_join_index(
                        sub_cube as nat,
                        i as nat,
                        size as nat,
                        count as nat,
                    );
                }
                res = res ^ field.mul(eq.idx(sub_cube), self.idx(at));
                sub_cube += 1;
                if sub_cube < size {
                    proof {
                        crate::pow2::lemma_join_index(
                            sub_cube as nat,
                            i as nat,
                            size as nat,
                            count as nat,
                        );
                        assert(sub_cube * count == (sub_cube - 1) * count + count)
                            by (nonlinear_arith);
                    }
                    at = at + count;
                }
            }
            vals.push(res);
            i += 1;
        }
        proof {
            lemma_whole_field(vals@);
            crate::pow2::lemma_two_pow_is_pow2(left);
        }
        PackedMLE::new(vals, 7, false)
    }
}

} // verus!
