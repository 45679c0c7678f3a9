//! The Reed-Solomon code of rate one quarter over the binary tower field,
//! and its fold with the twiddles of the additive transform.

use crate::field::{product, BinaryField128};
use crate::pow2::two_pow;
use crate::utils::mle::{repack, repacked};
use vstd::prelude::*;

verus! {

/// Inverse of the rate of the code.
pub const RATE: usize = 4;

/// Base 2 logarithm of the inverse of the rate.
pub const LOG_RATE: usize = 2;

/// The subspace evaluations of an additive transform: `evals[round][idx]`
/// is the twiddle of the butterfly of index `idx` in the round `round`.
#[derive(Debug)]
pub struct TwiddleTable {
    pub evals: Vec<Vec<u128>>,
}

/// The encoding of a message: the message, repacked into elements of the
/// whole field, transformed on each of the four cosets in turn.
#[derive(Clone, Debug)]
pub struct Code {
    pub encoding: Vec<u128>,
}

/// The twiddles as a sequence of rounds.
pub open spec fn twiddles_of(evals: Seq<Vec<u128>>) -> Seq<Seq<u128>> {
    Seq::new(evals.len(), |k: int| evals[k]@)
}

/// The fold at the challenge `r` of the adjacent symbols `v0` and `v1`
/// whose butterfly has the twiddle `twiddle`: the butterfly is undone,
/// `x1 = v0 + v1` and `x0 = v0 + x1 * twiddle`, and the two are combined
/// to `x0 + r (x0 + x1)`.
pub open spec fn folded_symbol(t: Seq<u128>, r: u128, twiddle: u128, v0: u128, v1: u128) -> u128 {
    let x1 = v1 ^ v0;
    let x0 = v0 ^ product(t, x1, twiddle);
    x0 ^ product(t, r, x0 ^ x1)
}

/// The code `encoding` folded at the challenge `r` with the twiddles `row` of its round.
pub open spec fn folded_code(t: Seq<u128>, row: Seq<u128>, encoding: Seq<u128>, r: u128) -> Seq<
    u128,
> {
    Seq::new(
        encoding.len() / 2,
        |i: int| folded_symbol(t, r, row[i], encoding[2 * i], encoding[2 * i + 1]),
    )
}

/// The fold undoes the butterfly of the transform. Where the adjacent
/// symbols are the butterfly `(x0 + x1 * twiddle, x0 + x1 * twiddle + x1)`
/// of the symbols `x0` and `x1`, their fold at the challenge `r` is
/// `x0 + r (x0 + x1)`, which is `(1 - r) x0 + r x1`: the fold of a code is
/// the code of the folded message.
pub proof fn lemma_fold_undoes_butterfly(t: Seq<u128>, r: u128, twiddle: u128, x0: u128, x1: u128)
    requires
        crate::field::valid_table(t),
    ensures
        folded_symbol(
            t,
            r,
            twiddle,
            x0 ^ product(t, x1, twiddle),
            x0 ^ product(t, x1, twiddle) ^ x1,
        ) == crate::utils::mle::fold_pair(t, r, x0, x1),
        folded_symbol(
            t,
            r,
            twiddle,
            x0 ^ product(t, x1, twiddle),
            x0 ^ product(t, x1, twiddle) ^ x1,
        ) == product(t, 1u128 ^ r, x0) ^ product(t, r, x1),
{
    let p = product(t, x1, twiddle);
    let v0 = x0 ^ p;
    let v1 = v0 ^ x1;
    assert(v1 ^ v0 == x1) by (bit_vector)
        requires
            v1 == v0 ^ x1,
    ;
    assert(v0 ^ p == x0) by (bit_vector)
        requires
            v0 == x0 ^ p,
    ;
    let q = product(t, r, x0 ^ x1);
    assert(x0 ^ q == q ^ x0) by (bit_vector);
    crate::utils::mle::lemma_fold_pair_interpolates(t, r, x0, x1);
}

impl TwiddleTable {
    /// The twiddles as a sequence of rounds.
    pub open spec fn rounds(&self) -> Seq<Seq<u128>> {
        twiddles_of(self.evals@)
    }

    /// The table has a twiddle for each pair of symbols of a code of
    /// `len` symbols in the round `round`, and of its folds in the rounds
    /// that follow, for `rounds` rounds in all.
    pub open spec fn covers(&self, round: nat, len: nat, rounds: nat) -> bool
        decreases rounds,
    {
        rounds > 0 ==> {
            &&& round < self.evals@.len()
            &&& self.evals@[round as int]@.len() >= len / 2
            &&& self.covers(round + 1, len / 2, (rounds - 1) as nat)
        }
    }

    /// The twiddle of the butterfly of index `idx` in the round `round`.
    pub fn get_subspace_eval(&self, round: usize, idx: usize) -> (twiddle: u128)
        requires
            round < self.evals@.len(),
            idx < self.evals@[round as int]@.len(),
        ensures
            twiddle == self.rounds()[round as int][idx as int],
    {
        self.evals[round][idx]
    }
}

/// Folds the adjacent symbols `val0` and `val1`, the pair of index `idx`
/// of a code in the round `round`, at the challenge `r`.
pub fn fold(
    r: u128,
    round: usize,
    idx: usize,
    val0: u128,
    val1: u128,
    ntt: &TwiddleTable,
    field: &BinaryField128,
) -> (folded: u128)
    requires
        field.wf(),
        round < ntt.evals@.len(),
        idx < ntt.evals@[round as int]@.len(),
    ensures
        folded == folded_symbol(
            field.products@,
            r,
            ntt.rounds()[round as int][idx as int],
            val0,
            val1,
        ),
{
    let twiddle = ntt.get_subspace_eval(round, idx);
    let x1 = val1 ^ val0;
    let x0 = val0 ^ field.mul(x1, twiddle);
    x0 ^ field.mul(r, x0 ^ x1)
}

impl Code {
    /// The message repacked into elements of the whole field: the elements
    /// of `message`, of the subfield of tower level `tower_level`, are
    /// taken `128 / n` at a time, for `n` their number of bits.
    pub fn repack_message(message: &[u128], tower_level: usize) -> (repacked_message: Vec<u128>)
        requires
            tower_level <= 7,
        ensures
            repacked_message@ == repacked(message@, two_pow(tower_level as nat)),
    {
        repack(message, tower_level)
    }

    /// The code folded at the challenge `r` in the round `round`: half as many symbols.
    pub fn fold_code(&self, r: u128, round: usize, ntt: &TwiddleTable, field: &BinaryField128) -> (code:
        Code)
        requires
            field.wf(),
            round < ntt.evals@.len(),
            ntt.evals@[round as int]@.len() >= self.encoding@.len() / 2,
        ensures
            code.encoding@ == folded_code(
                field.products@,
                ntt.rounds()[round as int],
                self.encoding@,
                r,
            ),
    {
        let half = self.encoding.len() / 2;
        let mut encoding: Vec<u128> = Vec::with_capacity(half);
        let mut i: usize = 0;
        while i < half
            invariant
                i <= half,
                half == self.encoding@.len() / 2,
                self.encoding@.len() <= usize::MAX,
                field.wf(),
                round < ntt.evals@.len(),
                ntt.evals@[round as int]@.len() >= half,
                encoding@.len() == i,
                forall|m: int|
                    0 <= m < i ==> encoding@[m] == folded_symbol(
                        field.products@,
                        r,
                        ntt.rounds()[round as int][m],
                        self.encoding@[2 * m],
                        self.encoding@[2 * m + 1],
                    ),
            decreases half - i,
        {
            let folded = fold(
                r,
                round,
                i,
                self.encoding[2 * i],
                self.encoding[2 * i + 1],
                ntt,
                field,
            );
            encoding.push(folded);
            i += 1;
        }
        assert(encoding@ =~= folded_code(
            field.products@,
            ntt.rounds()[round as int],
            self.encoding@,
            r,
        ));
        Code { encoding }
    }

    /// Symbol `idx`.
    pub fn idx(&self, idx: usize) -> (symbol: u128)
        requires
            idx < self.encoding@.len(),
        ensures
            symbol == self.encoding@[idx as int],
    {
        self.encoding[idx]
    }
}


/// The vectors `parts` one after another.
pub open spec fn concat(parts: Seq<Vec<u128>>) -> Seq<u128>
    decreases parts.len(),
{
    if parts.len() == 0 {
        Seq::empty()
    } else {
        concat(parts.drop_last()) + parts.last()@
    }
}

/// `cosets` are what `transform` gave for `message` and each of the coset
/// indices 0 to 3, and `encoding` is those four vectors one after another.
pub open spec fn is_encoding<T: Fn(Vec<u128>, u32) -> Vec<u128>>(
    transform: T,
    message: Seq<u128>,
    inputs: Seq<Vec<u128>>,
    cosets: Seq<Vec<u128>>,
    encoding: Seq<u128>,
) -> bool {
    &&& inputs.len() == 4
    &&& cosets.len() == 4
    &&& forall|k: int|
        0 <= k < 4 ==> (#[trigger] inputs[k])@ == message && transform.ensures(
            (inputs[k], k as u32),
            cosets[k],
        )
    &&& encoding == concat(cosets)
}

impl Code {
    /// Encodes `message`, whose elements belong to the subfield of tower
    /// level `tower_level`: the message is repacked into elements of the
    /// whole field, and `transform` is called on a copy of it for each of
    /// the coset indices 0 to 3. The code holds the four results, in order.
    pub fn encode_with_transform<T: Fn(Vec<u128>, u32) -> Vec<u128>>(
        message: &[u128],
        tower_level: usize,
        transform: T,
    ) -> (code: Code)
        requires
            tower_level <= 7,
            forall|m: Vec<u128>, round: u32| round < 4 ==> transform.requires((m, round)),
        ensures
            exists|inputs: Seq<Vec<u128>>, cosets: Seq<Vec<u128>>|
                #[trigger] is_encoding(
                    transform,
                    repacked(message@, two_pow(tower_level as nat)),
                    inputs,
                    cosets,
                    code.encoding@,
                ),
    {
        let repacked_message = Code::repack_message(message, tower_level);
        let mut encoding: Vec<u128> = Vec::new();
        let ghost mut inputs: Seq<Vec<u128>> = Seq::empty();
        let ghost mut cosets: Seq<Vec<u128>> = Seq::empty();
        let mut round: u32 = 0;
        while round < 4
            invariant
                round <= 4,
                inputs.len() == round,
                cosets.len() == round,
                forall|m: Vec<u128>, k: u32| k < 4 ==> transform.requires((m, k)),
                forall|k: int|
                    0 <= k < round ==> (#[trigger] inputs[k])@ == repacked_message@
                        && transform.ensures((inputs[k], k as u32), cosets[k]),
                encoding@ == concat(cosets),
            decreases 4 - round,
        {
            let temp = repacked_message.clone();
            let mut transformed = transform(temp, round);
            proof {
                let before = cosets;
                inputs = inputs.push(temp);
                cosets = before.push(transformed);
                assert(cosets.drop_last() =~= before);
            }
            encoding.append(&mut transformed);
            round += 1;
        }
        let code = Code { encoding };
        proof {
            let message = repacked(message@, two_pow(tower_level as nat));
            assert(is_encoding(transform, message, inputs, cosets, code.encoding@));
            assert(exists|inputs: Seq<Vec<u128>>, cosets: Seq<Vec<u128>>| #[trigger]
                is_encoding(transform, message, inputs, cosets, code.encoding@));
        }
        code
    }
}


impl TwiddleTable {
    /// A table that covers a code of two to the power `n` symbols for
    /// `rounds` rounds from the round `round` on has, in the round `k`
    /// after that, a twiddle for each pair of the code folded `k` times.
    pub proof fn lemma_covers_round(&self, round: nat, n: nat, rounds: nat, k: nat)
        requires
            self.covers(round, two_pow(n), rounds),
            k < rounds,
            rounds <= n,
        ensures
            round + k < self.evals@.len(),
            self.evals@[(round + k) as int]@.len() >= two_pow((n - k - 1) as nat),
        decreases k,
    {
        assert(two_pow(n) == 2 * two_pow((n - 1) as nat));
        if k > 0 {
            self.lemma_covers_round(round + 1, (n - 1) as nat, (rounds - 1) as nat, (k - 1) as nat);
        }
    }
}

impl Code {
    /// Encodes `message` with the transform `forward_transform` of an
    /// additive NTT over the whole field: the code holds the transforms of
    /// the repacked message on the cosets 0 to 3, in order.
    pub fn new<T: Fn(Vec<u128>, u32) -> Vec<u128>>(
        message: &[u128],
        tower_level: usize,
        forward_transform: T,
    ) -> (code: Code)
        requires
            tower_level <= 7,
            forall|m: Vec<u128>, round: u32| round < 4 ==> forward_transform.requires((m, round)),
        ensures
            exists|inputs: Seq<Vec<u128>>, cosets: Seq<Vec<u128>>| #[trigger]
                is_encoding(
                    forward_transform,
                    repacked(message@, two_pow(tower_level as nat)),
                    inputs,
                    cosets,
                    code.encoding@,
                ),
    {
        Code::encode_with_transform(message, tower_level, forward_transform)
    }

    /// Encodes `message` with the transform `forward_transform_ext` of an
    /// additive NTT over a subfield, extended to the whole field: the code
    /// holds the transforms of the repacked message on the cosets 0 to 3,
    /// in order.
    pub fn new_ext<T: Fn(Vec<u128>, u32) -> Vec<u128>>(
        message: &[u128],
        tower_level: usize,
        forward_transform_ext: T,
    ) -> (code: Code)
        requires
            tower_level <= 7,
            forall|m: Vec<u128>, round: u32|
                round < 4 ==> forward_transform_ext.requires((m, round)),
        ensures
            exists|inputs: Seq<Vec<u128>>, cosets: Seq<Vec<u128>>| #[trigger]
                is_encoding(
                    forward_transform_ext,
                    repacked(message@, two_pow(tower_level as nat)),
                    inputs,
                    cosets,
                    code.encoding@,
                ),
    {
        Code::encode_with_transform(message, tower_level, forward_transform_ext)
    }
}

} // verus!
