//! Codes that the butterflies of an additive transform build from a
//! message, and what the folds make of them.

use crate::field::{
    associative, associative_on_basis, lemma_associate, lemma_associative,
    lemma_product_additive_left, lemma_product_additive_right, lemma_product_commutes,
    lemma_product_one, product, valid_table,
};
use crate::honest::{folds_to_constant, lemma_dot_sum, lemma_eq_fold_concat, lemma_eq_tensor};
use crate::sums::{lemma_sum_of_equals, xor_sum};
use crate::utils::mle::{dot, eq_extend, eq_fold, eq_table, lemma_fold_pair_interpolates};
use crate::pow2::two_pow;
use crate::prover::{
    lemma_state_after_shape, lemma_state_after_unfold, state_after, state_challenge, state_shape,
    RoundState,
};
use crate::utils::code::folded_code;
use crate::utils::mle::{fold_pair, folded_lo};
use vstd::prelude::*;

verus! {

/// The entries of even index of `m`.
pub open spec fn evens(m: Seq<u128>) -> Seq<u128> {
    Seq::new(m.len() / 2, |i: int| m[2 * i])
}

/// The entries of odd index of `m`.
pub open spec fn odds(m: Seq<u128>) -> Seq<u128> {
    Seq::new(m.len() / 2, |i: int| m[2 * i + 1])
}

/// The fold at `r` of each entry of `a` with the entry of `b` of the same
/// index: `a[i] + r (a[i] + b[i])`.
pub open spec fn mixed(t: Seq<u128>, r: u128, a: Seq<u128>, b: Seq<u128>) -> Seq<u128> {
    Seq::new(a.len(), |i: int| fold_pair(t, r, a[i], b[i]))
}

/// The second input of each butterfly of the code `c`: the sum of the two
/// symbols of the pair.
pub open spec fn second_inputs(c: Seq<u128>) -> Seq<u128> {
    Seq::new(c.len() / 2, |i: int| c[2 * i] ^ c[2 * i + 1])
}

/// The first input of each butterfly of the code `c` with the twiddles
/// `row`: the first symbol of the pair, less the second input times the twiddle.
pub open spec fn first_inputs(t: Seq<u128>, row: Seq<u128>, c: Seq<u128>) -> Seq<u128> {
    Seq::new(
        c.len() / 2,
        |i: int| c[2 * i] ^ product(t, c[2 * i] ^ c[2 * i + 1], row[i]),
    )
}

/// The code `c` is built from the message `m` by the butterflies of the
/// rounds from `k` on: a message of one element is repeated four times;
/// else the first and the second inputs of the butterflies of the round
/// `k` are the codes, from the round `k + 1` on, of the entries of even
/// and of odd index of the message.
pub open spec fn encodes(t: Seq<u128>, twiddles: Seq<Seq<u128>>, c: Seq<u128>, m: Seq<u128>, k: nat)
    -> bool
    decreases m.len(),
{
    &&& c.len() == 4 * m.len()
    &&& if m.len() <= 1 {
        m.len() == 1 && c[0] == m[0] && c[1] == m[0] && c[2] == m[0] && c[3] == m[0]
    } else {
        &&& m.len() % 2 == 0
        &&& encodes(t, twiddles, first_inputs(t, twiddles[k as int], c), evens(m), k + 1)
        &&& encodes(t, twiddles, second_inputs(c), odds(m), k + 1)
    }
}

proof fn lemma_xor_four(a: u128, b: u128, c: u128, d: u128)
    by (bit_vector)
    ensures
        (a ^ b) ^ (c ^ d) == (a ^ c) ^ (b ^ d),
        (a ^ b) ^ (c ^ d) == ((a ^ c) ^ d) ^ b,
        a ^ b == b ^ a,
{
}

/// The sum of two folds is the fold of the sums.
proof fn lemma_fold_of_sums(t: Seq<u128>, r: u128, a0: u128, b0: u128, a1: u128, b1: u128)
    ensures
        fold_pair(t, r, a0, b0) ^ fold_pair(t, r, a1, b1) == fold_pair(t, r, a0 ^ a1, b0 ^ b1),
{
    lemma_product_additive_right(t, r, a0 ^ b0, a1 ^ b1);
    lemma_xor_four(a0, b0, a1, b1);
    lemma_xor_four(product(t, r, a0 ^ b0), a0, product(t, r, a1 ^ b1), a1);
}

/// The fold of two products with a common right factor is the product of
/// the fold with that factor.
proof fn lemma_fold_of_products(t: Seq<u128>, r: u128, a: u128, b: u128, w: u128)
    requires
        associative(t),
    ensures
        fold_pair(t, r, product(t, a, w), product(t, b, w)) == product(t, fold_pair(t, r, a, b), w),
{
    lemma_product_additive_left(t, a, b, w);
    lemma_associate(t, r, a ^ b, w);
    lemma_product_additive_left(t, product(t, r, a ^ b), a, w);
}

/// The butterflies commute with the fold: the inputs of the butterflies
/// of the fold of two codes are the folds of the inputs.
proof fn lemma_inputs_of_mixed(
    t: Seq<u128>,
    row: Seq<u128>,
    r: u128,
    a: Seq<u128>,
    b: Seq<u128>,
)
    requires
        valid_table(t),
        associative(t),
        a.len() == b.len(),
    ensures
        second_inputs(mixed(t, r, a, b)) == mixed(t, r, second_inputs(a), second_inputs(b)),
        first_inputs(t, row, mixed(t, r, a, b)) == mixed(
            t,
            r,
            first_inputs(t, row, a),
            first_inputs(t, row, b),
        ),
{
    let c = mixed(t, r, a, b);
    let seconds = mixed(t, r, second_inputs(a), second_inputs(b));
    let firsts = mixed(t, r, first_inputs(t, row, a), first_inputs(t, row, b));
    assert forall|i: int| 0 <= i < c.len() / 2 implies #[trigger] second_inputs(c)[i]
        == seconds[i] by {
        lemma_fold_of_sums(t, r, a[2 * i], b[2 * i], a[2 * i + 1], b[2 * i + 1]);
    }
    assert forall|i: int| 0 <= i < c.len() / 2 implies #[trigger] first_inputs(t, row, c)[i]
        == firsts[i] by {
        let (a0, a1) = (a[2 * i], a[2 * i + 1]);
        let (b0, b1) = (b[2 * i], b[2 * i + 1]);
        lemma_fold_of_sums(t, r, a0, b0, a1, b1);
        lemma_fold_of_products(t, r, a0 ^ a1, b0 ^ b1, row[i]);
        lemma_fold_of_sums(
            t,
            r,
            a0,
            b0,
            product(t, a0 ^ a1, row[i]),
            product(t, b0 ^ b1, row[i]),
        );
    }
    assert(second_inputs(c) =~= seconds);
    assert(first_inputs(t, row, c) =~= firsts);
}

/// The fold of the codes of two messages is the code of the fold of the messages.
pub proof fn lemma_encodes_mixed(
    t: Seq<u128>,
    twiddles: Seq<Seq<u128>>,
    r: u128,
    a: Seq<u128>,
    b: Seq<u128>,
    ma: Seq<u128>,
    mb: Seq<u128>,
    k: nat,
)
    requires
        valid_table(t),
        associative(t),
        ma.len() == mb.len(),
        encodes(t, twiddles, a, ma, k),
        encodes(t, twiddles, b, mb, k),
    ensures
        encodes(t, twiddles, mixed(t, r, a, b), mixed(t, r, ma, mb), k),
    decreases ma.len(),
{
    let c = mixed(t, r, a, b);
    let mc = mixed(t, r, ma, mb);
    if ma.len() > 1 {
        let row = twiddles[k as int];
        lemma_inputs_of_mixed(t, row, r, a, b);
        lemma_encodes_mixed(
            t,
            twiddles,
            r,
            first_inputs(t, row, a),
            first_inputs(t, row, b),
            evens(ma),
            evens(mb),
            k + 1,
        );
        lemma_encodes_mixed(
            t,
            twiddles,
            r,
            second_inputs(a),
            second_inputs(b),
            odds(ma),
            odds(mb),
            k + 1,
        );
        assert(evens(mc) =~= mixed(t, r, evens(ma), evens(mb)));
        assert(odds(mc) =~= mixed(t, r, odds(ma), odds(mb)));
    }
}

/// Code fold correctness, one round. The fold, in the round `k`, of the
/// code that the butterflies build from a message is the code that the
/// butterflies of the later rounds build from the fold of the message.
pub proof fn lemma_fold_of_code(
    t: Seq<u128>,
    twiddles: Seq<Seq<u128>>,
    c: Seq<u128>,
    m: Seq<u128>,
    k: nat,
    r: u128,
)
    requires
        valid_table(t),
        associative(t),
        encodes(t, twiddles, c, m, k),
        m.len() >= 2,
    ensures
        encodes(t, twiddles, folded_code(t, twiddles[k as int], c, r), folded_lo(t, m, r), k + 1),
{
    let row = twiddles[k as int];
    let x0 = first_inputs(t, row, c);
    let x1 = second_inputs(c);
    lemma_encodes_mixed(t, twiddles, r, x0, x1, evens(m), odds(m), k + 1);
    assert forall|i: int| 0 <= i < c.len() / 2 implies folded_code(t, row, c, r)[i] == mixed(
        t,
        r,
        x0,
        x1,
    )[i] by {
        lemma_xor_four(c[2 * i], c[2 * i + 1], 0, 0);
        let u = x0[i];
        lemma_xor_four(u, product(t, r, u ^ x1[i]), 0, 0);
    }
    assert(folded_code(t, row, c, r) =~= mixed(t, r, x0, x1));
    assert(folded_lo(t, m, r) =~= mixed(t, r, evens(m), odds(m)));
}

/// The code `c` folded in the rounds 0 to `k - 1` at the challenges `rs`.
pub open spec fn code_after(
    t: Seq<u128>,
    twiddles: Seq<Seq<u128>>,
    c: Seq<u128>,
    rs: Seq<u128>,
    k: nat,
) -> Seq<u128>
    decreases k,
{
    if k == 0 {
        c
    } else {
        folded_code(t, twiddles[k - 1], code_after(t, twiddles, c, rs, (k - 1) as nat), rs[k - 1])
    }
}

/// The message `m` with its lowest `k` variables bound to the challenges `rs`.
pub open spec fn message_after(t: Seq<u128>, m: Seq<u128>, rs: Seq<u128>, k: nat) -> Seq<u128>
    decreases k,
{
    if k == 0 {
        m
    } else {
        folded_lo(t, message_after(t, m, rs, (k - 1) as nat), rs[k - 1])
    }
}

/// After `k` folds the code is the code of the message after `k` folds.
pub proof fn lemma_folds_of_code(
    t: Seq<u128>,
    twiddles: Seq<Seq<u128>>,
    c: Seq<u128>,
    m: Seq<u128>,
    rs: Seq<u128>,
    l: nat,
    k: nat,
)
    requires
        valid_table(t),
        associative(t),
        encodes(t, twiddles, c, m, 0),
        m.len() == two_pow(l),
        k <= l,
    ensures
        message_after(t, m, rs, k).len() == two_pow((l - k) as nat),
        encodes(t, twiddles, code_after(t, twiddles, c, rs, k), message_after(t, m, rs, k), k),
    decreases k,
{
    if k > 0 {
        lemma_folds_of_code(t, twiddles, c, m, rs, l, (k - 1) as nat);
        assert(two_pow((l - k + 1) as nat) == 2 * two_pow((l - k) as nat));
        crate::pow2::lemma_two_pow_positive((l - k) as nat);
        lemma_fold_of_code(
            t,
            twiddles,
            code_after(t, twiddles, c, rs, (k - 1) as nat),
            message_after(t, m, rs, (k - 1) as nat),
            (k - 1) as nat,
            rs[k - 1],
        );
    }
}

/// Code fold correctness. The code that the butterflies build from a
/// message of two to the power `l` elements, folded `l` times, is a code
/// of four symbols, each of which is the one element that is left of the
/// message when its `l` variables are bound to the challenges.
pub proof fn lemma_code_folds_to_message(
    t: Seq<u128>,
    twiddles: Seq<Seq<u128>>,
    c: Seq<u128>,
    m: Seq<u128>,
    rs: Seq<u128>,
    l: nat,
)
    requires
        valid_table(t),
        associative(t),
        encodes(t, twiddles, c, m, 0),
        m.len() == two_pow(l),
    ensures
        code_after(t, twiddles, c, rs, l).len() == 4,
        message_after(t, m, rs, l).len() == 1,
        forall|i: int|
            0 <= i < 4 ==> #[trigger] code_after(t, twiddles, c, rs, l)[i] == message_after(
                t,
                m,
                rs,
                l,
            )[0],
{
    lemma_folds_of_code(t, twiddles, c, m, rs, l, l);
    assert(two_pow(0) == 1);
}

/// The states of the commit phase hold, after each round, a code that
/// the butterflies of the later rounds build from the polynomial that is
/// left, where the phase starts with the code of the polynomial.
pub proof fn lemma_states_encode(
    t: Seq<u128>,
    twiddles: Seq<Seq<u128>>,
    start: RoundState,
    rounds: nat,
    k: nat,
)
    requires
        valid_table(t),
        associative(t),
        state_shape(start, rounds),
        encodes(t, twiddles, start.code, start.mle, 0),
        k <= rounds,
    ensures
        encodes(
            t,
            twiddles,
            state_after(t, twiddles, start, k).code,
            state_after(t, twiddles, start, k).mle,
            k,
        ),
    decreases k,
{
    lemma_state_after_unfold(t, twiddles, start, (k - 1) as nat);
    if k > 0 {
        let before = state_after(t, twiddles, start, (k - 1) as nat);
        lemma_states_encode(t, twiddles, start, rounds, (k - 1) as nat);
        lemma_state_after_shape(t, twiddles, start, rounds, (k - 1) as nat);
        assert(two_pow((rounds - k + 1) as nat) == 2 * two_pow((rounds - k) as nat));
        crate::pow2::lemma_two_pow_positive((rounds - k) as nat);
        lemma_fold_of_code(
            t,
            twiddles,
            before.code,
            before.mle,
            (k - 1) as nat,
            state_challenge(t, before),
        );
    }
}

/// The commit phase that starts with the code of the polynomial ends
/// with a code of four equal symbols.
pub proof fn lemma_encoding_folds_to_constant(
    t: Seq<u128>,
    twiddles: Seq<Seq<u128>>,
    start: RoundState,
    rounds: nat,
)
    requires
        valid_table(t),
        associative(t),
        state_shape(start, rounds),
        encodes(t, twiddles, start.code, start.mle, 0),
    ensures
        folds_to_constant(t, twiddles, start, rounds),
{
    lemma_states_encode(t, twiddles, start, rounds, rounds);
    lemma_state_after_shape(t, twiddles, start, rounds, rounds);
    assert(two_pow(0) == 1);
}

/// Binding the lowest `k + 1` variables is binding the lowest one and
/// then the next `k`.
pub proof fn lemma_message_after_first(t: Seq<u128>, m: Seq<u128>, rs: Seq<u128>, k: nat)
    requires
        k < rs.len(),
    ensures
        message_after(t, m, rs, k + 1) == message_after(
            t,
            folded_lo(t, m, rs[0]),
            rs.skip(1),
            k,
        ),
    decreases k,
{
    reveal_with_fuel(message_after, 2);
    if k > 0 {
        lemma_message_after_first(t, m, rs, (k - 1) as nat);
        assert(rs.skip(1)[k - 1] == rs[k as int]);
    }
}

/// The sum of the products of the first `2 n` entries of `a` and `b`,
/// taken two by two.
proof fn lemma_dot_by_pairs(
    t: Seq<u128>,
    a: Seq<u128>,
    b: Seq<u128>,
    n: nat,
    f: spec_fn(int) -> u128,
)
    requires
        forall|j: int|
            0 <= j < n ==> #[trigger] f(j) == product(t, a[2 * j], b[2 * j]) ^ product(
                t,
                a[2 * j + 1],
                b[2 * j + 1],
            ),
    ensures
        dot(t, a, b, 2 * n) == xor_sum(f, n),
    decreases n,
{
    if n > 0 {
        lemma_dot_by_pairs(t, a, b, (n - 1) as nat, f);
        let j = (n - 1) as int;
        assert(f(j) == product(t, a[2 * j], b[2 * j]) ^ product(t, a[2 * j + 1], b[2 * j + 1]));
        reveal_with_fuel(dot, 3);
        let x = product(t, a[2 * j], b[2 * j]);
        let y = product(t, a[2 * j + 1], b[2 * j + 1]);
        let d = dot(t, a, b, (2 * n - 2) as nat);
        assert(dot(t, a, b, 2 * n) == (d ^ x) ^ y);
        assert((d ^ x) ^ y == d ^ (x ^ y)) by (bit_vector);
    }
}

/// In an associative field, the one element that is left
/// of a message of two to the power `l` elements when its `l` variables
/// are bound to the challenges `rs` is the evaluation of the message at
/// `rs`: the sum of the products of its elements and the entries of the
/// equality table of `rs`.
pub proof fn lemma_message_folds_to_evaluation(t: Seq<u128>, m: Seq<u128>, rs: Seq<u128>, l: nat)
    requires
        valid_table(t),
        associative(t),
        m.len() == two_pow(l),
        rs.len() == l,
    ensures
        message_after(t, m, rs, l)[0] == dot(t, m, eq_table(t, rs), two_pow(l)),
    decreases l,
{
    if l == 0 {
        assert(two_pow(0) == 1);
        reveal_with_fuel(dot, 2);
        lemma_product_one(t, m[0]);
        crate::field::lemma_xor_zero(m[0]);
        assert(eq_table(t, rs) =~= seq![1u128]);
    } else {
        let r = rs[0];
        let rest = rs.skip(1);
        let folded = folded_lo(t, m, r);
        let half = two_pow((l - 1) as nat);
        let low = eq_table(t, rest);
        let full = eq_table(t, rs);
        lemma_message_after_first(t, m, rs, (l - 1) as nat);
        lemma_message_folds_to_evaluation(t, folded, rest, (l - 1) as nat);
        // The table of all coordinates is the table of the first, extended by the others.
        let first = seq![1u128 ^ r, r];
        assert(rs =~= seq![r] + rest);
        lemma_eq_fold_concat(t, seq![1u128], seq![r], rest);
        lemma_product_one(t, r);
        assert(eq_fold(t, seq![1u128], seq![r]) == eq_extend(t, seq![1u128], r)) by {
            reveal_with_fuel(eq_fold, 2);
            assert(seq![r].drop_last() =~= Seq::<u128>::empty());
        }
        assert(eq_extend(t, seq![1u128], r) =~= first);
        assert(full == eq_fold(t, first, rest));
        let pairs = |j: int|
            product(t, m[2 * j], full[2 * j]) ^ product(t, m[2 * j + 1], full[2 * j + 1]);
        let terms = |j: int| product(t, folded[j], low[j]);
        lemma_dot_by_pairs(t, m, full, half, pairs);
        lemma_dot_sum(t, folded, low, half, terms);
        assert forall|j: int| 0 <= j < half implies #[trigger] pairs(j) == terms(j) by {
            let (m0, m1) = (m[2 * j], m[2 * j + 1]);
            lemma_eq_tensor(t, first, rest, 0, j);
            lemma_eq_tensor(t, first, rest, 1, j);
            assert(full[2 * j] == product(t, 1u128 ^ r, low[j]));
            assert(full[2 * j + 1] == product(t, r, low[j]));
            lemma_fold_pair_interpolates(t, r, m0, m1);
            lemma_product_additive_left(t, product(t, 1u128 ^ r, m0), product(t, r, m1), low[j]);
            lemma_product_commutes(t, 1u128 ^ r, m0);
            lemma_product_commutes(t, r, m1);
            lemma_associate(t, m0, 1u128 ^ r, low[j]);
            lemma_associate(t, m1, r, low[j]);
        }
        lemma_sum_of_equals(pairs, terms, half);
    }
}

/// Code fold correctness, in full. In a field whose multiplication is
/// associative on the basis, the code that the butterflies build from a message of two to the power `l`
/// elements, folded `l` times at the challenges `rs`, is a
/// code of four symbols, each of which is the evaluation of the message
/// at `rs`: the sum of the products of its elements and the entries of
/// the equality table of `rs`.
pub proof fn lemma_code_folds_to_evaluation(
    t: Seq<u128>,
    twiddles: Seq<Seq<u128>>,
    c: Seq<u128>,
    m: Seq<u128>,
    rs: Seq<u128>,
    l: nat,
)
    requires
        valid_table(t),
        associative_on_basis(t),
        encodes(t, twiddles, c, m, 0),
        m.len() == two_pow(l),
        rs.len() == l,
    ensures
        code_after(t, twiddles, c, rs, l).len() == 4,
        forall|i: int|
            0 <= i < 4 ==> #[trigger] code_after(t, twiddles, c, rs, l)[i] == dot(
                t,
                m,
                eq_table(t, rs),
                two_pow(l),
            ),
{
    lemma_associative(t);
    lemma_code_folds_to_message(t, twiddles, c, m, rs, l);
    lemma_message_folds_to_evaluation(t, m, rs, l);
}

} // verus!
