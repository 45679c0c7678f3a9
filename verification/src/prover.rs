//! The prover: commitment, the interleaved sum-check and FRI commit phase,
//! and the FRI query phase.

use crate::error::Error;
use crate::field::{product, BinaryField128};
use crate::pow2::{halved, is_pow2, log2, two_pow};
use crate::utils::channel::{
    challenge_at, challenges_at, commitment_bytes, field_bytes, fri_commitment_bytes, queries_at,
    Channel,
};
use crate::utils::code::{concat, folded_code, is_encoding, Code, TwiddleTable, LOG_RATE};
use crate::utils::merkle::{
    compute_leaf_hashes, digests, leaf_layer, merkle_path, merkle_root, merklize, tree_layers,
    MerkleTree, VectorCommitment,
};
use crate::utils::mle::{
    bit_dot, compute_row_batch, dot, eq_table, folded_lo, repacked, transposed, LagrangeBases,
    PackedMLE,
};
use crate::utils::TAU;
use vstd::bytes::spec_u128_to_le_bytes;
use vstd::prelude::*;

verus! {

/// The commitment to a packed multilinear polynomial: the commitment to its
/// encoding, and the tower level of the field that its coefficients are packed in.
#[derive(Clone, Copy, Debug)]
pub struct FriCommitment {
    pub vector_commitment: VectorCommitment,
    pub packing_factor: usize,
}

/// A univariate polynomial, held by its coefficients from the constant one up.
#[derive(Clone, Debug)]
pub struct Univariate {
    pub coeffs: Vec<u128>,
}

/// The value at `r` of the polynomial with the coefficients `coeffs`.
pub open spec fn horner(t: Seq<u128>, coeffs: Seq<u128>, r: u128) -> u128
    decreases coeffs.len(),
{
    if coeffs.len() == 0 {
        0
    } else {
        coeffs[0] ^ product(t, horner(t, coeffs.drop_first(), r), r)
    }
}

/// The sum over `i < n` of the products of the entries of even index `2 i`
/// of `mle` and of `eq`: the round polynomial at zero.
pub open spec fn even_dot(t: Seq<u128>, mle: Seq<u128>, eq: Seq<u128>, n: nat) -> u128
    decreases n,
{
    if n == 0 {
        0
    } else {
        even_dot(t, mle, eq, (n - 1) as nat) ^ product(t, mle[2 * (n - 1)], eq[2 * (n - 1)])
    }
}

/// The sum over `i < n` of the products of the sums of the pairs `(2 i, 2 i
/// + 1)` of `mle` and of `eq`: the leading coefficient of the round polynomial.
pub open spec fn pair_dot(t: Seq<u128>, mle: Seq<u128>, eq: Seq<u128>, n: nat) -> u128
    decreases n,
{
    if n == 0 {
        0
    } else {
        pair_dot(t, mle, eq, (n - 1) as nat) ^ product(
            t,
            mle[2 * (n - 1)] ^ mle[2 * (n - 1) + 1],
            eq[2 * (n - 1)] ^ eq[2 * (n - 1) + 1],
        )
    }
}

/// The oracle of a sum-check round on the product of `mle` and `eq` with
/// the running claim `claim`: the value at zero, the sum of the values at
/// zero, at one and at infinity, and the value at infinity, where the value
/// at one is the claim less the value at zero.
pub open spec fn round_poly(t: Seq<u128>, mle: Seq<u128>, eq: Seq<u128>, claim: u128) -> Seq<u128> {
    let half = mle.len() / 2;
    let eval_at_0 = even_dot(t, mle, eq, half);
    let eval_at_inf = pair_dot(t, mle, eq, half);
    let eval_at_1 = claim ^ eval_at_0;
    seq![eval_at_0, eval_at_0 ^ eval_at_1 ^ eval_at_inf, eval_at_inf]
}

/// The partial evaluations of `mle` with all but its lowest seven
/// variables bound by the table `eq`: entry `k` is the sum over `j` of the
/// entries `eq[j]` at which `mle` is one at the point `k + 128 j`.
pub open spec fn partial_evals(mle: PackedMLE, eq: Seq<u128>) -> Seq<u128> {
    Seq::new(
        128,
        |k: int|
            mle.strided_sum(eq, k as nat, 128, two_pow((mle.variables - 7) as nat)),
    )
}

impl Univariate {
    /// The polynomial with the coefficients `coeffs`, the constant one first.
    pub fn new(coeffs: Vec<u128>) -> (p: Univariate)
        ensures
            p.coeffs == coeffs,
    {
        Univariate { coeffs }
    }

    /// The value of the polynomial at `r`.
    pub fn evaluate(&self, r: u128, field: &BinaryField128) -> (v: u128)
        requires
            field.wf(),
        ensures
            v == horner(field.products@, self.coeffs@, r),
    {
        let mut eval: u128 = 0;
        let mut i: usize = self.coeffs.len();
        assert(self.coeffs@.skip(i as int).len() == 0);
        while i > 0
            invariant
                i <= self.coeffs@.len(),
                field.wf(),
                eval == horner(field.products@, self.coeffs@.skip(i as int), r),
            decreases i,
        {
            i -= 1;
            proof {
                let rest = self.coeffs@.skip(i as int);
                assert(rest.drop_first() =~= self.coeffs@.skip(i + 1));
                assert(rest[0] == self.coeffs@[i as int]);
            }
            eval = self.coeffs[i] ^ field.mul(eval, r);
        }
        assert(self.coeffs@.skip(0) =~= self.coeffs@);
        eval
    }
}

/// The partial evaluations of `mle` with all but its lowest seven
/// variables bound by the table `eq`.
pub fn get_partial_evals(mle: &PackedMLE, eq: &LagrangeBases) -> (evals: Vec<u128>)
    requires
        mle.wf(),
        mle.variables >= 7,
        two_pow(mle.variables as nat) <= usize::MAX,
        eq.vals@.len() >= two_pow((mle.variables - 7) as nat),
    ensures
        evals@ == partial_evals(*mle, eq.vals@),
{
    proof {
        crate::pow2::lemma_two_pow_64();
        crate::pow2::lemma_two_pow_add((mle.variables - 7) as nat, 7);
        crate::pow2::lemma_two_pow_positive((mle.variables - 7) as nat);
    }
    let count = two_pow_of(mle.variables - TAU);
    let mut evals: Vec<u128> = Vec::with_capacity(128);
    let mut k: usize = 0;
    while k < 128
        invariant
            k <= 128,
            mle.wf(),
            mle.variables >= 7,
            count == two_pow((mle.variables - 7) as nat),
            count >= 1,
            two_pow(mle.variables as nat) == count * 128,
            two_pow(mle.variables as nat) <= usize::MAX,
            eq.vals@.len() >= count,
            evals@.len() == k,
            forall|m: int|
                0 <= m < k ==> evals@[m] == mle.strided_sum(eq.vals@, m as nat, 128, count as nat),
        decreases 128 - k,
    {
        evals.push(mle.sum_strided(eq.vals.as_slice(), k, 128, count));
        k += 1;
    }
    assert(evals@ =~= partial_evals(*mle, eq.vals@));
    evals
}

/// Two to the power `k`, where it fits.
fn two_pow_of(k: usize) -> (r: usize)
    requires
        two_pow(k as nat) <= usize::MAX,
    ensures
        r == two_pow(k as nat),
{
    match crate::pow2::pow2_checked(k) {
        Some(r) => r,
        None => 0,
    }
}

/// The oracle of a sum-check round on the product of `mle` and `eq` with
/// the running claim `sum_check_claim`.
pub fn sum_check_round(
    mle: &PackedMLE,
    eq: &LagrangeBases,
    sum_check_claim: u128,
    field: &BinaryField128,
) -> (poly: Univariate)
    requires
        field.wf(),
        eq.vals@.len() >= 2 * (mle.coeffs@.len() / 2),
    ensures
        poly.coeffs@ == round_poly(field.products@, mle.coeffs@, eq.vals@, sum_check_claim),
{
    let half_size = mle.len() / 2;
    let mut eval_at_0: u128 = 0;
    let mut eval_at_inf: u128 = 0;
    let mut i: usize = 0;
    while i < half_size
        invariant
            i <= half_size,
            half_size == mle.coeffs@.len() / 2,
            mle.coeffs@.len() <= usize::MAX,
            eq.vals@.len() >= 2 * half_size,
            field.wf(),
            eval_at_0 == even_dot(field.products@, mle.coeffs@, eq.vals@, i as nat),
            eval_at_inf == pair_dot(field.products@, mle.coeffs@, eq.vals@, i as nat),
        decreases half_size - i,
    {
        let m0 = mle.idx(2 * i);
        let m1 = mle.idx(2 * i + 1);
        let e0 = eq.idx(2 * i);
        let e1 = eq.idx(2 * i + 1);
        eval_at_0 = eval_at_0 ^ field.mul(m0, e0);
        eval_at_inf = eval_at_inf ^ field.mul(m0 ^ m1, e0 ^ e1);
        i += 1;
    }
    let eval_at_1 = sum_check_claim ^ eval_at_0;
    let mut coeffs: Vec<u128> = Vec::with_capacity(3);
    coeffs.push(eval_at_0);
    coeffs.push(eval_at_0 ^ eval_at_1 ^ eval_at_inf);
    coeffs.push(eval_at_inf);
    assert(coeffs@ =~= round_poly(field.products@, mle.coeffs@, eq.vals@, sum_check_claim));
    Univariate::new(coeffs)
}

/// The commitment to a code of a power of two of symbols: the root of the
/// Merkle tree over its pairs of adjacent symbols, and the depth of that tree.
pub fn commit_oracle(code: &Code) -> (r: (VectorCommitment, MerkleTree))
    requires
        is_pow2(code.encoding@.len()),
        code.encoding@.len() >= 2,
    ensures
        r.1.wf(),
        r.1.layers() == tree_layers(leaf_layer(code.encoding@)),
        r.0.root@ == merkle_root(leaf_layer(code.encoding@)),
        r.0.depth == log2(code.encoding@.len()) - 1,
{
    let leaf_hashes = compute_leaf_hashes(code.encoding.as_slice());
    assert(digests(leaf_hashes@).len() == leaf_hashes@.len());
    let merkle_tree = merklize(leaf_hashes);
    proof {
        crate::utils::merkle::lemma_tree_of_leaves(merkle_tree.layers());
    }
    let vector_commitment = VectorCommitment {
        root: merkle_tree.get_root(),
        depth: crate::pow2::log2_of(code.encoding.len()) - 1,
    };
    (vector_commitment, merkle_tree)
}


/// An evaluation proof.
#[derive(Debug)]
pub struct EvalProof {
    /// The 128 partial evaluations of the polynomial with all but its lowest seven variables bound.
    pub upper_partial_evals: Vec<u128>,
    /// The oracle of each sum-check round, three coefficients each.
    pub sum_check_oracles: Vec<Univariate>,
    /// The first symbol of the code folded in every round.
    pub final_folded_value: u128,
    /// The commitment to the code folded in each round.
    pub fri_oracles: Vec<VectorCommitment>,
    /// For each round and each query, the pair of adjacent symbols opened.
    pub fri_queried_symbols: Vec<Vec<(u128, u128)>>,
    /// For each round and each query, the Merkle path of the leaf opened.
    pub fri_merkle_paths: Vec<Vec<Vec<crate::utils::merkle::Hash>>>,
}

/// What an evaluation proof holds, as plain sequences.
pub struct ProofModel {
    pub upper_partial_evals: Seq<u128>,
    pub sum_check_oracles: Seq<Seq<u128>>,
    pub final_folded_value: u128,
    pub fri_oracles: Seq<(Seq<u8>, usize)>,
    pub fri_queried_symbols: Seq<Seq<(u128, u128)>>,
    pub fri_merkle_paths: Seq<Seq<Seq<Seq<u8>>>>,
}

/// The coefficients of each oracle.
pub open spec fn oracles_view(v: Seq<Univariate>) -> Seq<Seq<u128>> {
    Seq::new(v.len(), |k: int| v[k].coeffs@)
}

/// The root and the depth of each commitment.
pub open spec fn commitments_view(v: Seq<VectorCommitment>) -> Seq<(Seq<u8>, usize)> {
    Seq::new(v.len(), |k: int| (v[k].root@, v[k].depth))
}

/// The pairs of symbols of each round.
pub open spec fn symbols_view(v: Seq<Vec<(u128, u128)>>) -> Seq<Seq<(u128, u128)>> {
    Seq::new(v.len(), |k: int| v[k]@)
}

/// The digests of each path.
pub open spec fn paths_view(v: Seq<Vec<crate::utils::merkle::Hash>>) -> Seq<Seq<Seq<u8>>> {
    Seq::new(v.len(), |i: int| digests(v[i]@))
}

/// The digests of each path of each round.
pub open spec fn round_paths_view(v: Seq<Vec<Vec<crate::utils::merkle::Hash>>>) -> Seq<
    Seq<Seq<Seq<u8>>>,
> {
    Seq::new(v.len(), |k: int| paths_view(v[k]@))
}

impl View for EvalProof {
    type V = ProofModel;

    open spec fn view(&self) -> ProofModel {
        ProofModel {
            upper_partial_evals: self.upper_partial_evals@,
            sum_check_oracles: oracles_view(self.sum_check_oracles@),
            final_folded_value: self.final_folded_value,
            fri_oracles: commitments_view(self.fri_oracles@),
            fri_queried_symbols: symbols_view(self.fri_queried_symbols@),
            fri_merkle_paths: round_paths_view(self.fri_merkle_paths@),
        }
    }
}

/// What the prover and the transcript hold between two rounds of the commit phase.
pub struct RoundState {
    /// The bytes absorbed by the transcript.
    pub absorbed: Seq<u8>,
    /// The number of challenges drawn from the transcript.
    pub counter: nat,
    /// The running sum-check claim.
    pub claim: u128,
    /// The evaluations of the polynomial, folded so far.
    pub mle: Seq<u128>,
    /// The equality table, folded so far.
    pub eq: Seq<u128>,
    /// The code, folded so far.
    pub code: Seq<u128>,
}

/// The root of the commitment to the code `code`.
pub open spec fn oracle_root(code: Seq<u128>) -> Seq<u8> {
    merkle_root(leaf_layer(code))
}

/// The depth of the commitment to the code `code`.
pub open spec fn oracle_depth(code: Seq<u128>) -> usize {
    (log2(code.len()) - 1) as usize
}

/// The statement as the transcript absorbs it: the commitment, the point, the evaluation.
pub open spec fn statement_bytes(commitment: FriCommitment, point: Seq<u128>, eval: u128) -> Seq<
    u8,
> {
    fri_commitment_bytes(commitment) + field_bytes(point) + spec_u128_to_le_bytes(eval)
}

/// Each entry of `eq`, read as a vector of 128 bits, times the vector `batching`.
pub open spec fn row_batched(eq: Seq<u128>, batching: Seq<u128>) -> Seq<u128> {
    Seq::new(eq.len(), |i: int| bit_dot(eq[i], batching, 128))
}

/// The oracle that the prover sends in the round that starts in the state `s`.
pub open spec fn state_poly(t: Seq<u128>, s: RoundState) -> Seq<u128> {
    round_poly(t, s.mle, s.eq, s.claim)
}

/// The challenge of the round that starts in the state `s`: drawn after the oracle is absorbed.
pub open spec fn state_challenge(t: Seq<u128>, s: RoundState) -> u128 {
    challenge_at(s.absorbed + field_bytes(state_poly(t, s)), s.counter as usize)
}

/// The state after the round that starts in the state `s`, whose twiddles
/// are `row`: the oracle is absorbed, the challenge is drawn, the claim
/// becomes the value of the oracle at the challenge, the code is folded
/// and the commitment to it absorbed, and the polynomial and the equality
/// table are folded.
pub open spec fn next_state(t: Seq<u128>, row: Seq<u128>, s: RoundState) -> RoundState {
    let poly = state_poly(t, s);
    let r = state_challenge(t, s);
    let code = folded_code(t, row, s.code, r);
    RoundState {
        absorbed: s.absorbed + field_bytes(poly) + commitment_bytes(
            oracle_root(code),
            oracle_depth(code),
        ),
        counter: s.counter + 1,
        claim: horner(t, poly, r),
        mle: folded_lo(t, s.mle, r),
        eq: folded_lo(t, s.eq, r),
        code,
    }
}

/// The state after `k` rounds from the state `start`.
#[verifier::opaque]
pub open spec fn state_after(t: Seq<u128>, twiddles: Seq<Seq<u128>>, start: RoundState, k: nat)
    -> RoundState
    decreases k,
{
    if k == 0 {
        start
    } else {
        next_state(t, twiddles[k - 1], state_after(t, twiddles, start, (k - 1) as nat))
    }
}

/// The state in which the commit phase starts, for the polynomial `mle`
/// with the encoding `encoding`, at the point `point`, where the
/// transcript has absorbed `absorbed`, the statement included, and
/// `counter` challenges were drawn: the seven batching challenges are
/// drawn, the claim is the row batch of the partial evaluations, the
/// polynomial is repacked over the whole field, and the equality table of
/// the upper coordinates is batched by rows.
pub open spec fn start_state(
    t: Seq<u128>,
    mle: PackedMLE,
    point: Seq<u128>,
    encoding: Seq<u128>,
    absorbed: Seq<u8>,
    counter: nat,
) -> RoundState {
    let right_eq = eq_table(t, point.skip(7));
    let batching_eq = eq_table(t, challenges_at(absorbed, counter as usize, 7));
    RoundState {
        absorbed,
        counter: counter + 7,
        claim: dot(t, batching_eq, transposed(partial_evals(mle, right_eq)), 128),
        mle: repacked(mle.coeffs@, two_pow(mle.tower_level as nat)),
        eq: row_batched(right_eq, batching_eq),
        code: encoding,
    }
}

/// The queries of the query phase after the commit phase ended in the
/// state `last`: drawn after the final folded value is absorbed.
pub open spec fn final_queries(last: RoundState, rounds: nat) -> Seq<usize> {
    queries_at(
        last.absorbed + spec_u128_to_le_bytes(last.code[0]),
        last.counter as usize,
        rounds + 2,
    )
}

/// The layers of the tree from which the openings of round `k` are taken:
/// the tree over the encoding in round 0, the tree over the code folded
/// `k` times after that.
pub open spec fn round_layers(base: Seq<Seq<Seq<u8>>>, code: Seq<u128>, k: nat) -> Seq<
    Seq<Seq<u8>>,
> {
    if k == 0 {
        base
    } else {
        tree_layers(leaf_layer(code))
    }
}

/// The proof for the polynomial `mle` at the point `point`, with the
/// encoding `encoding` and the layers `base` of the Merkle tree over it,
/// where the transcript has absorbed `absorbed`, the statement included,
/// and `counter` challenges were drawn.
#[verifier::opaque]
pub open spec fn proof_model(
    t: Seq<u128>,
    twiddles: Seq<Seq<u128>>,
    mle: PackedMLE,
    point: Seq<u128>,
    encoding: Seq<u128>,
    base: Seq<Seq<Seq<u8>>>,
    absorbed: Seq<u8>,
    counter: nat,
) -> ProofModel {
    let rounds = (point.len() - 7) as nat;
    let start = start_state(t, mle, point, encoding, absorbed, counter);
    let last = state_after(t, twiddles, start, rounds);
    let queries = final_queries(last, rounds);
    ProofModel {
        upper_partial_evals: partial_evals(mle, eq_table(t, point.skip(7))),
        sum_check_oracles: Seq::new(
            rounds,
            |k: int| state_poly(t, state_after(t, twiddles, start, k as nat)),
        ),
        final_folded_value: last.code[0],
        fri_oracles: Seq::new(
            rounds,
            |k: int|
                (
                    oracle_root(state_after(t, twiddles, start, (k + 1) as nat).code),
                    oracle_depth(state_after(t, twiddles, start, (k + 1) as nat).code),
                ),
        ),
        fri_queried_symbols: Seq::new(
            rounds,
            |k: int|
                Seq::new(
                    queries.len(),
                    |i: int|
                        opened_pair(
                            state_after(t, twiddles, start, k as nat).code,
                            halved(queries[i] as nat, (k + 1) as nat),
                        ),
                ),
        ),
        fri_merkle_paths: Seq::new(
            rounds,
            |k: int|
                Seq::new(
                    queries.len(),
                    |i: int|
                        merkle_path(
                            round_layers(
                                base,
                                state_after(t, twiddles, start, k as nat).code,
                                k as nat,
                            ),
                            halved(queries[i] as nat, (k + 1) as nat),
                        ),
                ),
        ),
    }
}

/// The pair of adjacent symbols of `code` under the leaf `q`.
pub open spec fn opened_pair(code: Seq<u128>, q: nat) -> (u128, u128) {
    (code[(2 * q) as int], code[(2 * q + 1) as int])
}

/// The number of challenges that proving or verifying draws for `rounds`
/// rounds: seven for the batching, one in each round, and 144 for the
/// queries unless the query domain holds fewer than 144 indices.
pub open spec fn challenges_drawn(rounds: nat) -> nat {
    if two_pow(rounds + 2) < 144 {
        7 + rounds
    } else {
        7 + rounds + 144
    }
}


/// What the commit phase leaves for the query phase, round by round.
struct ProofState {
    fri_folded_codes: Vec<Code>,
    fri_oracles: Vec<VectorCommitment>,
    fri_merkle_trees: Vec<MerkleTree>,
    sum_check_oracles: Vec<Univariate>,
    random_challenges: Vec<u128>,
}

impl ProofState {
    /// No round is recorded.
    spec fn is_empty(&self) -> bool {
        &&& self.fri_folded_codes@.len() == 0
        &&& self.fri_oracles@.len() == 0
        &&& self.fri_merkle_trees@.len() == 0
        &&& self.sum_check_oracles@.len() == 0
        &&& self.random_challenges@.len() == 0
    }

    /// The code and the tree recorded for the round `j` of `rounds` have
    /// the sizes of that round.
    spec fn shaped(&self, rounds: nat, j: int) -> bool {
        &&& self.fri_merkle_trees@[j].wf()
        &&& self.fri_merkle_trees@[j].layers().last().len() * 2
            == self.fri_folded_codes@[j].encoding@.len()
        &&& self.fri_folded_codes@[j].encoding@.len() == 4 * two_pow((rounds - 1 - j) as nat)
    }

    /// The first `k` rounds from the state `start` are recorded.
    spec fn records(&self, t: Seq<u128>, twiddles: Seq<Seq<u128>>, start: RoundState, k: nat)
        -> bool {
        &&& self.fri_folded_codes@.len() == k
        &&& self.fri_oracles@.len() == k
        &&& self.fri_merkle_trees@.len() == k
        &&& self.sum_check_oracles@.len() == k
        &&& self.random_challenges@.len() == k
        &&& forall|j: int| 0 <= j < k ==> #[trigger] self.records_round(t, twiddles, start, j)
    }

    /// Entry `j` of each vector is what round `j` from the state `start` produced.
    spec fn records_round(
        &self,
        t: Seq<u128>,
        twiddles: Seq<Seq<u128>>,
        start: RoundState,
        j: int,
    ) -> bool {
        let before = state_after(t, twiddles, start, j as nat);
        let after = state_after(t, twiddles, start, (j + 1) as nat);
        &&& self.fri_folded_codes@[j].encoding@ == after.code
        &&& self.fri_oracles@[j].root@ == oracle_root(after.code)
        &&& self.fri_oracles@[j].depth == oracle_depth(after.code)
        &&& self.fri_merkle_trees@[j].wf()
        &&& self.fri_merkle_trees@[j].layers() == tree_layers(leaf_layer(after.code))
        &&& self.sum_check_oracles@[j].coeffs@ == state_poly(t, before)
        &&& self.random_challenges@[j] == state_challenge(t, before)
    }

    fn new() -> (state: ProofState)
        ensures
            state.is_empty(),
    {
        ProofState {
            fri_folded_codes: Vec::new(),
            fri_oracles: Vec::new(),
            fri_merkle_trees: Vec::new(),
            sum_check_oracles: Vec::new(),
            random_challenges: Vec::new(),
        }
    }

    fn update(
        &mut self,
        folded_code: Code,
        commitment: VectorCommitment,
        merkle_tree: MerkleTree,
        poly: Univariate,
        challenge: u128,
    )
        ensures
            final(self).fri_folded_codes@ == old(self).fri_folded_codes@.push(folded_code),
            final(self).fri_oracles@ == old(self).fri_oracles@.push(commitment),
            final(self).fri_merkle_trees@ == old(self).fri_merkle_trees@.push(merkle_tree),
            final(self).sum_check_oracles@ == old(self).sum_check_oracles@.push(poly),
            final(self).random_challenges@ == old(self).random_challenges@.push(challenge),
    {
        self.fri_folded_codes.push(folded_code);
        self.fri_oracles.push(commitment);
        self.fri_merkle_trees.push(merkle_tree);
        self.sum_check_oracles.push(poly);
        self.random_challenges.push(challenge);
    }
}

/// The state after no round is the start; the state after `k + 1` rounds
/// is the state one round after the state after `k` rounds.
pub proof fn lemma_state_after_unfold(
    t: Seq<u128>,
    twiddles: Seq<Seq<u128>>,
    start: RoundState,
    k: nat,
)
    ensures
        state_after(t, twiddles, start, 0) == start,
        state_after(t, twiddles, start, k + 1) == next_state(
            t,
            twiddles[k as int],
            state_after(t, twiddles, start, k),
        ),
{
    reveal_with_fuel(state_after, 2);
}

/// The state `s` has `left` rounds to go: the polynomial and the equality
/// table hold two to the power `left` entries and the code four times as many.
pub open spec fn state_shape(s: RoundState, left: nat) -> bool {
    &&& s.mle.len() == two_pow(left)
    &&& s.eq.len() == two_pow(left)
    &&& s.code.len() == 4 * two_pow(left)
}

/// A round takes a state with `left` rounds to go to one with `left - 1`,
/// and draws one challenge.
pub proof fn lemma_next_state_shape(t: Seq<u128>, row: Seq<u128>, s: RoundState, left: nat)
    requires
        state_shape(s, left),
        left >= 1,
    ensures
        state_shape(next_state(t, row, s), (left - 1) as nat),
        next_state(t, row, s).counter == s.counter + 1,
{
}

/// After `k` of `rounds` rounds the state has `rounds - k` rounds to go,
/// and `k` challenges were drawn.
pub proof fn lemma_state_after_shape(
    t: Seq<u128>,
    twiddles: Seq<Seq<u128>>,
    start: RoundState,
    rounds: nat,
    k: nat,
)
    requires
        state_shape(start, rounds),
        k <= rounds,
    ensures
        state_shape(state_after(t, twiddles, start, k), (rounds - k) as nat),
        state_after(t, twiddles, start, k).counter == start.counter + k,
    decreases k,
{
    lemma_state_after_unfold(t, twiddles, start, (k - 1) as nat);
    if k > 0 {
        lemma_state_after_shape(t, twiddles, start, rounds, (k - 1) as nat);
        lemma_next_state_shape(
            t,
            twiddles[k - 1],
            state_after(t, twiddles, start, (k - 1) as nat),
            (rounds - k + 1) as nat,
        );
    }
}


/// What the transcript has absorbed when the challenge of the round
/// after `k` rounds from the state `start` cannot be drawn: the oracle of
/// that round is the last that went in.
pub open spec fn stalled(t: Seq<u128>, twiddles: Seq<Seq<u128>>, start: RoundState, k: nat) -> Seq<
    u8,
> {
    state_after(t, twiddles, start, k).absorbed + field_bytes(
        state_poly(t, state_after(t, twiddles, start, k)),
    )
}

/// What one round of the commit phase produces.
struct RoundOutput {
    folded_code: Code,
    commitment: VectorCommitment,
    merkle_tree: MerkleTree,
    poly: Univariate,
    challenge: u128,
}

/// Runs one round of the commit phase on the code `code`.
fn commit_round(
    round: usize,
    code: &Code,
    ntt: &TwiddleTable,
    channel: &mut Channel,
    repacked_mle: &mut PackedMLE,
    tensored_eq: &mut LagrangeBases,
    sum_check_claim: &mut u128,
    field: &BinaryField128,
) -> (r: Result<RoundOutput, Error>)
    requires
        field.wf(),
        old(repacked_mle).wf(),
        old(tensored_eq).wf(),
        old(tensored_eq).vars >= 1,
        old(repacked_mle).coeffs@.len() == two_pow(old(tensored_eq).vars as nat),
        code.encoding@.len() == 4 * two_pow(old(tensored_eq).vars as nat),
        round < ntt.evals@.len(),
        ntt.evals@[round as int]@.len() >= code.encoding@.len() / 2,
    ensures
        ({
            let s = RoundState {
                absorbed: old(channel).state@,
                counter: old(channel).round_idx as nat,
                claim: *old(sum_check_claim),
                mle: old(repacked_mle).coeffs@,
                eq: old(tensored_eq).vals@,
                code: code.encoding@,
            };
            let next = next_state(field.products@, ntt.rounds()[round as int], s);
            if old(channel).round_idx == usize::MAX {
                &&& r == Err::<RoundOutput, Error>(Error::TranscriptOverflow)
                &&& final(channel).round_idx == usize::MAX
                &&& final(channel).state@ == s.absorbed + field_bytes(
                    state_poly(field.products@, s),
                )
            } else {
                &&& r is Ok
                &&& final(channel).state@ == next.absorbed
                &&& final(channel).round_idx == next.counter
                &&& *final(sum_check_claim) == next.claim
                &&& final(repacked_mle).wf()
                &&& final(repacked_mle).coeffs@ == next.mle
                &&& final(tensored_eq).wf()
                &&& final(tensored_eq).vals@ == next.eq
                &&& final(tensored_eq).vars == old(tensored_eq).vars - 1
                &&& r->Ok_0.folded_code.encoding@ == next.code
                &&& r->Ok_0.commitment.root@ == oracle_root(next.code)
                &&& r->Ok_0.commitment.depth == oracle_depth(next.code)
                &&& r->Ok_0.merkle_tree.wf()
                &&& r->Ok_0.merkle_tree.layers() == tree_layers(leaf_layer(next.code))
                &&& r->Ok_0.poly.coeffs@ == state_poly(field.products@, s)
                &&& r->Ok_0.challenge == state_challenge(field.products@, s)
            }
        }),
{
    let ghost left = tensored_eq.vars as nat;
    proof {
        crate::pow2::lemma_two_pow_positive((left - 1) as nat);
        crate::pow2::lemma_two_pow_is_pow2(left + 1);
        assert(two_pow(left + 1) == 2 * two_pow(left));
        assert(two_pow(left) == 2 * two_pow((left - 1) as nat));
    }
    let poly = sum_check_round(repacked_mle, tensored_eq, *sum_check_claim, field);
    let _ = channel.observe_field_elems(poly.coeffs.as_slice());
    let challenge = match channel.get_random_point() {
        Ok(r) => r,
        Err(e) => {
            return Err(e);
        },
    };
    *sum_check_claim = poly.evaluate(challenge, field);
    let folded_code = code.fold_code(challenge, round, ntt, field);
    let (commitment, merkle_tree) = commit_oracle(&folded_code);
    channel.observe_vector_commitment(&commitment);
    *repacked_mle = repacked_mle.fold_lo(&challenge, field);
    tensored_eq.fold_lo(&challenge, field);
    Ok(RoundOutput { folded_code, commitment, merkle_tree, poly, challenge })
}

/// Runs the rounds of the commit phase and gives the final folded value.
fn commit_phase(
    rounds: usize,
    encoding: &Code,
    ntt: &TwiddleTable,
    channel: &mut Channel,
    proof_state: &mut ProofState,
    repacked_mle: &mut PackedMLE,
    tensored_eq: &mut LagrangeBases,
    sum_check_claim: &mut u128,
    field: &BinaryField128,
) -> (r: Result<u128, Error>)
    requires
        rounds >= 1,
        field.wf(),
        old(proof_state).is_empty(),
        old(repacked_mle).wf(),
        old(tensored_eq).wf(),
        old(tensored_eq).vars == rounds,
        state_shape(
            RoundState {
                absorbed: old(channel).state@,
                counter: old(channel).round_idx as nat,
                claim: *old(sum_check_claim),
                mle: old(repacked_mle).coeffs@,
                eq: old(tensored_eq).vals@,
                code: encoding.encoding@,
            },
            rounds as nat,
        ),
        ntt.covers(0, encoding.encoding@.len(), rounds as nat),
    ensures
        ({
            let start = RoundState {
                absorbed: old(channel).state@,
                counter: old(channel).round_idx as nat,
                claim: *old(sum_check_claim),
                mle: old(repacked_mle).coeffs@,
                eq: old(tensored_eq).vals@,
                code: encoding.encoding@,
            };
            let last = state_after(field.products@, ntt.rounds(), start, rounds as nat);
            if old(channel).round_idx + rounds > usize::MAX {
                &&& r == Err::<u128, Error>(Error::TranscriptOverflow)
                &&& final(channel).round_idx == usize::MAX
                &&& final(channel).state@ == stalled(
                    field.products@,
                    ntt.rounds(),
                    start,
                    (usize::MAX - old(channel).round_idx) as nat,
                )
            } else {
                &&& r == Ok::<u128, Error>(last.code[0])
                &&& final(channel).state@ == last.absorbed
                &&& final(channel).round_idx == last.counter
                &&& final(proof_state).records(field.products@, ntt.rounds(), start, rounds as nat)
            }
        }),
{
    let ghost t = field.products@;
    let ghost twiddles = ntt.rounds();
    let ghost start = RoundState {
        absorbed: channel.state@,
        counter: channel.round_idx as nat,
        claim: *sum_check_claim,
        mle: repacked_mle.coeffs@,
        eq: tensored_eq.vals@,
        code: encoding.encoding@,
    };
    proof {
        lemma_state_after_unfold(t, twiddles, start, 0);
    }
    let mut round: usize = 0;
    while round < rounds
        invariant
            round <= rounds,
            rounds >= 1,
            field.wf(),
            t == field.products@,
            twiddles == ntt.rounds(),
            state_shape(start, rounds as nat),
            start == (RoundState {
                absorbed: old(channel).state@,
                counter: old(channel).round_idx as nat,
                claim: *old(sum_check_claim),
                mle: old(repacked_mle).coeffs@,
                eq: old(tensored_eq).vals@,
                code: encoding.encoding@,
            }),
            repacked_mle.wf(),
            tensored_eq.wf(),
            tensored_eq.vars == rounds - round,
            proof_state.records(t, twiddles, start, round as nat),
            channel.state@ == state_after(t, twiddles, start, round as nat).absorbed,
            channel.round_idx == state_after(t, twiddles, start, round as nat).counter,
            *sum_check_claim == state_after(t, twiddles, start, round as nat).claim,
            repacked_mle.coeffs@ == state_after(t, twiddles, start, round as nat).mle,
            tensored_eq.vals@ == state_after(t, twiddles, start, round as nat).eq,
            ntt.covers(
                round as nat,
                state_after(t, twiddles, start, round as nat).code.len(),
                (rounds - round) as nat,
            ),
        decreases rounds - round,
    {
        let ghost s = state_after(t, twiddles, start, round as nat);
        proof {
            lemma_state_after_shape(t, twiddles, start, rounds as nat, round as nat);
            if round > 0 {
                assert(proof_state.records_round(t, twiddles, start, round - 1));
            }
        }
        let ghost entered = RoundState {
            absorbed: channel.state@,
            counter: channel.round_idx as nat,
            claim: *sum_check_claim,
            mle: repacked_mle.coeffs@,
            eq: tensored_eq.vals@,
            code: s.code,
        };
        assert(entered == s);
        let output = if round == 0 {
            commit_round(
                round,
                encoding,
                ntt,
                channel,
                repacked_mle,
                tensored_eq,
                sum_check_claim,
                field,
            )
        } else {
            commit_round(
                round,
                &proof_state.fri_folded_codes[round - 1],
                ntt,
                channel,
                repacked_mle,
                tensored_eq,
                sum_check_claim,
                field,
            )
        };
        let output = match output {
            Ok(output) => output,
            Err(e) => {
                assert(round == usize::MAX - old(channel).round_idx);
                return Err(e);
            },
        };
        let ghost recorded = *proof_state;
        let ghost next = state_after(t, twiddles, start, (round + 1) as nat);
        proof {
            lemma_state_after_unfold(t, twiddles, start, round as nat);
        }
        assert(next == next_state(t, twiddles[round as int], s));
        proof_state.update(
            output.folded_code,
            output.commitment,
            output.merkle_tree,
            output.poly,
            output.challenge,
        );
        proof {
            lemma_records_push(*proof_state, recorded, t, twiddles, start, round as nat);
        }
        round += 1;
    }
    proof {
        lemma_state_after_shape(t, twiddles, start, rounds as nat, rounds as nat);
        assert(two_pow(0) == 1);
        assert(proof_state.records_round(t, twiddles, start, rounds - 1));
    }
    Ok(proof_state.fri_folded_codes[rounds - 1].idx(0))
}

/// A record of `k` rounds, with what round `k` produced pushed on each
/// vector, is a record of `k + 1` rounds.
proof fn lemma_records_push(
    now: ProofState,
    before: ProofState,
    t: Seq<u128>,
    twiddles: Seq<Seq<u128>>,
    start: RoundState,
    k: nat,
)
    requires
        before.records(t, twiddles, start, k),
        now.fri_folded_codes@.len() == k + 1,
        now.fri_oracles@.len() == k + 1,
        now.fri_merkle_trees@.len() == k + 1,
        now.sum_check_oracles@.len() == k + 1,
        now.random_challenges@.len() == k + 1,
        now.fri_folded_codes@ == before.fri_folded_codes@.push(now.fri_folded_codes@[k as int]),
        now.fri_oracles@ == before.fri_oracles@.push(now.fri_oracles@[k as int]),
        now.fri_merkle_trees@ == before.fri_merkle_trees@.push(now.fri_merkle_trees@[k as int]),
        now.sum_check_oracles@ == before.sum_check_oracles@.push(now.sum_check_oracles@[k as int]),
        now.random_challenges@ == before.random_challenges@.push(now.random_challenges@[k as int]),
        now.records_round(t, twiddles, start, k as int),
    ensures
        now.records(t, twiddles, start, k + 1),
{
    assert forall|j: int| 0 <= j < k + 1 implies #[trigger] now.records_round(
        t,
        twiddles,
        start,
        j,
    ) by {
        if j < k {
            assert(before.records_round(t, twiddles, start, j));
            assert(now.fri_folded_codes@[j] == before.fri_folded_codes@[j]);
            assert(now.fri_oracles@[j] == before.fri_oracles@[j]);
            assert(now.fri_merkle_trees@[j] == before.fri_merkle_trees@[j]);
            assert(now.sum_check_oracles@[j] == before.sum_check_oracles@[j]);
            assert(now.random_challenges@[j] == before.random_challenges@[j]);
        }
    }
}


/// The code that is opened in round `k`: the encoding in round 0, else the
/// code folded in round `k - 1`.
spec fn round_code(encoding: Seq<u128>, codes: Seq<Code>, k: int) -> Seq<u128> {
    if k == 0 {
        encoding
    } else {
        codes[k - 1].encoding@
    }
}

/// The layers of the tree that is opened in round `k`.
spec fn round_tree(base: Seq<Seq<Seq<u8>>>, trees: Seq<MerkleTree>, k: int) -> Seq<Seq<Seq<u8>>> {
    if k == 0 {
        base
    } else {
        trees[k - 1].layers()
    }
}

/// The Merkle path and the pair of symbols of each of the leaves `queries`.
fn gather_round_queries(tree: &MerkleTree, code: &Code, queries: &[usize]) -> (r: (
    Vec<Vec<crate::utils::merkle::Hash>>,
    Vec<(u128, u128)>,
))
    requires
        tree.wf(),
        tree.layers().last().len() * 2 == code.encoding@.len(),
        forall|i: int| 0 <= i < queries@.len() ==> queries@[i] < tree.layers().last().len(),
    ensures
        paths_view(r.0@) == Seq::new(
            queries@.len(),
            |i: int| merkle_path(tree.layers(), queries@[i] as nat),
        ),
        r.1@ == Seq::new(
            queries@.len(),
            |i: int| opened_pair(code.encoding@, queries@[i] as nat),
        ),
{
    let mut merkle_paths: Vec<Vec<crate::utils::merkle::Hash>> = Vec::with_capacity(queries.len());
    let mut queried_symbols: Vec<(u128, u128)> = Vec::with_capacity(queries.len());
    let ghost symbols = code.encoding.len();
    let mut i: usize = 0;
    while i < queries.len()
        invariant
            i <= queries@.len(),
            tree.wf(),
            tree.layers().last().len() * 2 == code.encoding@.len(),
            code.encoding@.len() <= usize::MAX,
            forall|m: int| 0 <= m < queries@.len() ==> queries@[m] < tree.layers().last().len(),
            merkle_paths@.len() == i,
            queried_symbols@.len() == i,
            forall|m: int|
                0 <= m < i ==> digests((#[trigger] merkle_paths@[m])@) == merkle_path(
                    tree.layers(),
                    queries@[m] as nat,
                ),
            forall|m: int|
                0 <= m < i ==> #[trigger] queried_symbols@[m] == opened_pair(
                    code.encoding@,
                    queries@[m] as nat,
                ),
        decreases queries@.len() - i,
    {
        let q = queries[i];
        merkle_paths.push(tree.get_merkle_path(q));
        queried_symbols.push((code.encoding[2 * q], code.encoding[2 * q + 1]));
        i += 1;
    }
    assert(paths_view(merkle_paths@) =~= Seq::new(
        queries@.len(),
        |i: int| merkle_path(tree.layers(), queries@[i] as nat),
    ));
    assert(queried_symbols@ =~= Seq::new(
        queries@.len(),
        |i: int| opened_pair(code.encoding@, queries@[i] as nat),
    ));
    (merkle_paths, queried_symbols)
}

/// Draws the queries and opens, in each round, the leaf of each query in
/// the code of that round.
fn query_phase(
    rounds: usize,
    encoding: &Code,
    merkle_tree: &MerkleTree,
    channel: &mut Channel,
    proof_state: &ProofState,
) -> (r: Result<
    (Vec<Vec<(u128, u128)>>, Vec<Vec<Vec<crate::utils::merkle::Hash>>>),
    Error,
>)
    requires
        rounds >= 1,
        two_pow((rounds + 2) as nat) <= usize::MAX,
        encoding.encoding@.len() == 4 * two_pow(rounds as nat),
        merkle_tree.wf(),
        merkle_tree.layers().last().len() * 2 == encoding.encoding@.len(),
        proof_state.fri_folded_codes@.len() == rounds,
        proof_state.fri_merkle_trees@.len() == rounds,
        forall|j: int| 0 <= j < rounds ==> #[trigger] proof_state.shaped(rounds as nat, j),
    ensures
        final(channel).state@ == old(channel).state@,
        ({
            let queries = queries_at(
                old(channel).state@,
                old(channel).round_idx,
                (rounds + 2) as nat,
            );
            if two_pow((rounds + 2) as nat) >= 144 && old(channel).round_idx + 144 > usize::MAX {
                r == Err::<
                    (Vec<Vec<(u128, u128)>>, Vec<Vec<Vec<crate::utils::merkle::Hash>>>),
                    Error,
                >(Error::TranscriptOverflow) && final(channel).round_idx == usize::MAX
            } else {
                &&& r is Ok
                &&& final(channel).round_idx == old(channel).round_idx + (if two_pow(
                    (rounds + 2) as nat,
                ) >= 144 {
                    144int
                } else {
                    0int
                })
                &&& symbols_view(r->Ok_0.0@) == Seq::new(
                    rounds as nat,
                    |k: int|
                        Seq::new(
                            queries.len(),
                            |i: int|
                                opened_pair(
                                    round_code(
                                        encoding.encoding@,
                                        proof_state.fri_folded_codes@,
                                        k,
                                    ),
                                    halved(queries[i] as nat, (k + 1) as nat),
                                ),
                        ),
                )
                &&& round_paths_view(r->Ok_0.1@) == Seq::new(
                    rounds as nat,
                    |k: int|
                        Seq::new(
                            queries.len(),
                            |i: int|
                                merkle_path(
                                    round_tree(
                                        merkle_tree.layers(),
                                        proof_state.fri_merkle_trees@,
                                        k,
                                    ),
                                    halved(queries[i] as nat, (k + 1) as nat),
                                ),
                        ),
                )
            }
        }),
{
    let ghost queries = queries_at(channel.state@, channel.round_idx, (rounds + 2) as nat);
    proof {
        crate::utils::channel::lemma_queries_bound(
            channel.state@,
            channel.round_idx,
            (rounds + 2) as nat,
        );
        crate::pow2::lemma_two_pow_64();
        if rounds + 2 >= 64 {
            crate::pow2::lemma_two_pow_monotonic(64, (rounds + 2) as nat);
        }
    }
    let drawn = match channel.gen_queries(rounds + LOG_RATE) {
        Ok(drawn) => drawn,
        Err(e) => {
            return Err(e);
        },
    };
    let mut current_queries: Vec<usize> = Vec::with_capacity(drawn.len());
    let mut i: usize = 0;
    while i < drawn.len()
        invariant
            i <= drawn@.len(),
            current_queries@.len() == i,
            forall|m: int| 0 <= m < i ==> current_queries@[m] == drawn@[m] / 2,
        decreases drawn@.len() - i,
    {
        current_queries.push(drawn[i] / 2);
        i += 1;
    }
    proof {
        reveal_with_fuel(halved, 2);
        assert(drawn@ == queries);
        assert forall|m: int| 0 <= m < queries.len() implies #[trigger] current_queries@[m]
            == halved(queries[m] as nat, 1) by {
            assert(halved(queries[m] as nat, 1) == halved(queries[m] as nat, 0) / 2);
        }
    }
    let mut round_merkle_paths: Vec<Vec<Vec<crate::utils::merkle::Hash>>> = Vec::with_capacity(
        rounds,
    );
    let mut round_queried_symbols: Vec<Vec<(u128, u128)>> = Vec::with_capacity(rounds);
    let mut round: usize = 0;
    while round < rounds
        invariant
            round <= rounds,
            rounds >= 1,
            queries.len() == current_queries@.len(),
            forall|m: int| 0 <= m < queries.len() ==> (#[trigger] queries[m]) < two_pow((rounds + 2) as nat),
            forall|m: int|
                0 <= m < queries.len() ==> #[trigger] current_queries@[m] == halved(
                    queries[m] as nat,
                    (round + 1) as nat,
                ),
            encoding.encoding@.len() == 4 * two_pow(rounds as nat),
            merkle_tree.wf(),
            merkle_tree.layers().last().len() * 2 == encoding.encoding@.len(),
            proof_state.fri_folded_codes@.len() == rounds,
            proof_state.fri_merkle_trees@.len() == rounds,
            forall|j: int| 0 <= j < rounds ==> #[trigger] proof_state.shaped(rounds as nat, j),
            round_merkle_paths@.len() == round,
            round_queried_symbols@.len() == round,
            forall|k: int|
                0 <= k < round ==> (#[trigger] round_queried_symbols@[k])@ == Seq::new(
                    queries.len(),
                    |i: int|
                        opened_pair(
                            round_code(encoding.encoding@, proof_state.fri_folded_codes@, k),
                            halved(queries[i] as nat, (k + 1) as nat),
                        ),
                ),
            forall|k: int|
                0 <= k < round ==> paths_view((#[trigger] round_merkle_paths@[k])@) == Seq::new(
                    queries.len(),
                    |i: int|
                        merkle_path(
                            round_tree(merkle_tree.layers(), proof_state.fri_merkle_trees@, k),
                            halved(queries[i] as nat, (k + 1) as nat),
                        ),
                ),
        decreases rounds - round,
    {
        proof {
            assert(two_pow((rounds - round) as nat) == 2 * two_pow((rounds - round - 1) as nat));
            assert forall|m: int| 0 <= m < queries.len() implies current_queries@[m] < 2 * two_pow(
                (rounds - round) as nat,
            ) by {
                assert(queries[m] < two_pow((rounds + 2) as nat));
                crate::pow2::lemma_halved_bound(
                    queries[m] as nat,
                    (rounds + 2) as nat,
                    (round + 1) as nat,
                );
                assert(two_pow((rounds - round + 1) as nat) == 2 * two_pow(
                    (rounds - round) as nat,
                ));
            }
            if round > 0 {
                assert(proof_state.shaped(rounds as nat, round - 1));
            }
        }
        let (merkle_paths, queried_symbols) = if round == 0 {
            gather_round_queries(merkle_tree, encoding, current_queries.as_slice())
        } else {
            gather_round_queries(
                &proof_state.fri_merkle_trees[round - 1],
                &proof_state.fri_folded_codes[round - 1],
                current_queries.as_slice(),
            )
        };
        proof {
            assert(queried_symbols@ =~= Seq::new(
                queries.len(),
                |i: int|
                    opened_pair(
                        round_code(
                            encoding.encoding@,
                            proof_state.fri_folded_codes@,
                            round as int,
                        ),
                        halved(queries[i] as nat, (round + 1) as nat),
                    ),
            ));
            assert(paths_view(merkle_paths@) =~= Seq::new(
                queries.len(),
                |i: int|
                    merkle_path(
                        round_tree(
                            merkle_tree.layers(),
                            proof_state.fri_merkle_trees@,
                            round as int,
                        ),
                        halved(queries[i] as nat, (round + 1) as nat),
                    ),
            ));
        }
        round_merkle_paths.push(merkle_paths);
        round_queried_symbols.push(queried_symbols);
        let ghost before = current_queries@;
        let mut j: usize = 0;
        while j < current_queries.len()
            invariant
                j <= current_queries@.len(),
                current_queries@.len() == before.len(),
                forall|m: int| 0 <= m < j ==> current_queries@[m] == before[m] / 2,
                forall|m: int| j <= m < before.len() ==> current_queries@[m] == before[m],
            decreases current_queries@.len() - j,
        {
            let halved_query = current_queries[j] / 2;
            current_queries[j] = halved_query;
            j += 1;
        }
        round += 1;
    }
    proof {
        assert(symbols_view(round_queried_symbols@) =~= Seq::new(
            rounds as nat,
            |k: int|
                Seq::new(
                    queries.len(),
                    |i: int|
                        opened_pair(
                            round_code(encoding.encoding@, proof_state.fri_folded_codes@, k),
                            halved(queries[i] as nat, (k + 1) as nat),
                        ),
                ),
        ));
        assert(round_paths_view(round_merkle_paths@) =~= Seq::new(
            rounds as nat,
            |k: int|
                Seq::new(
                    queries.len(),
                    |i: int|
                        merkle_path(
                            round_tree(merkle_tree.layers(), proof_state.fri_merkle_trees@, k),
                            halved(queries[i] as nat, (k + 1) as nat),
                        ),
                ),
        ));
    }
    Ok((round_queried_symbols, round_merkle_paths))
}


impl EvalProof {
    fn new(
        upper_partial_evals: Vec<u128>,
        proof_state: ProofState,
        final_folded_value: u128,
        fri_queried_symbols: Vec<Vec<(u128, u128)>>,
        fri_merkle_paths: Vec<Vec<Vec<crate::utils::merkle::Hash>>>,
    ) -> (proof: EvalProof)
        ensures
            proof.upper_partial_evals == upper_partial_evals,
            proof.sum_check_oracles == proof_state.sum_check_oracles,
            proof.fri_oracles == proof_state.fri_oracles,
            proof.final_folded_value == final_folded_value,
            proof.fri_queried_symbols == fri_queried_symbols,
            proof.fri_merkle_paths == fri_merkle_paths,
    {
        EvalProof {
            upper_partial_evals,
            sum_check_oracles: proof_state.sum_check_oracles,
            fri_oracles: proof_state.fri_oracles,
            final_folded_value,
            fri_queried_symbols,
            fri_merkle_paths,
        }
    }
}

/// The rounds recorded and the openings gathered make up the proof.
proof fn lemma_proof_assembled(
    proof: EvalProof,
    proof_state: ProofState,
    t: Seq<u128>,
    twiddles: Seq<Seq<u128>>,
    mle: PackedMLE,
    point: Seq<u128>,
    encoding: Seq<u128>,
    base: Seq<Seq<Seq<u8>>>,
    absorbed: Seq<u8>,
    counter: nat,
)
    requires
        point.len() >= 8,
        ({
            let rounds = (point.len() - 7) as nat;
            let start = start_state(t, mle, point, encoding, absorbed, counter);
            let last = state_after(t, twiddles, start, rounds);
            let queries = final_queries(last, rounds);
            &&& proof_state.records(t, twiddles, start, rounds)
            &&& proof.upper_partial_evals@ == partial_evals(mle, eq_table(t, point.skip(7)))
            &&& proof.sum_check_oracles == proof_state.sum_check_oracles
            &&& proof.fri_oracles == proof_state.fri_oracles
            &&& proof.final_folded_value == last.code[0]
            &&& symbols_view(proof.fri_queried_symbols@) == Seq::new(
                rounds,
                |k: int|
                    Seq::new(
                        queries.len(),
                        |i: int|
                            opened_pair(
                                round_code(encoding, proof_state.fri_folded_codes@, k),
                                halved(queries[i] as nat, (k + 1) as nat),
                            ),
                    ),
            )
            &&& round_paths_view(proof.fri_merkle_paths@) == Seq::new(
                rounds,
                |k: int|
                    Seq::new(
                        queries.len(),
                        |i: int|
                            merkle_path(
                                round_tree(base, proof_state.fri_merkle_trees@, k),
                                halved(queries[i] as nat, (k + 1) as nat),
                            ),
                    ),
            )
        }),
    ensures
        proof@ == proof_model(t, twiddles, mle, point, encoding, base, absorbed, counter),
{
    let rounds = (point.len() - 7) as nat;
    let start = start_state(t, mle, point, encoding, absorbed, counter);
    let model = proof_model(t, twiddles, mle, point, encoding, base, absorbed, counter);
    reveal(proof_model);
    lemma_state_after_unfold(t, twiddles, start, 0);
    assert forall|k: int| 0 <= k < rounds implies #[trigger] proof@.sum_check_oracles[k]
        == model.sum_check_oracles[k] by {
        assert(proof_state.records_round(t, twiddles, start, k));
    }
    assert forall|k: int| 0 <= k < rounds implies #[trigger] proof@.fri_oracles[k]
        == model.fri_oracles[k] by {
        assert(proof_state.records_round(t, twiddles, start, k));
    }
    assert forall|k: int| 0 <= k < rounds implies #[trigger] proof@.fri_queried_symbols[k]
        == model.fri_queried_symbols[k] by {
        if k > 0 {
            assert(proof_state.records_round(t, twiddles, start, k - 1));
        }
        assert(round_code(encoding, proof_state.fri_folded_codes@, k) == state_after(
            t,
            twiddles,
            start,
            k as nat,
        ).code);
        assert(proof@.fri_queried_symbols[k] =~= model.fri_queried_symbols[k]);
    }
    assert forall|k: int| 0 <= k < rounds implies #[trigger] proof@.fri_merkle_paths[k]
        == model.fri_merkle_paths[k] by {
        if k > 0 {
            assert(proof_state.records_round(t, twiddles, start, k - 1));
        }
        assert(round_tree(base, proof_state.fri_merkle_trees@, k) == round_layers(
            base,
            state_after(t, twiddles, start, k as nat).code,
            k as nat,
        ));
        assert(proof@.fri_merkle_paths[k] =~= model.fri_merkle_paths[k]);
    }
    assert(proof@.sum_check_oracles =~= model.sum_check_oracles);
    assert(proof@.fri_oracles =~= model.fri_oracles);
    assert(proof@.fri_queried_symbols =~= model.fri_queried_symbols);
    assert(proof@.fri_merkle_paths =~= model.fri_merkle_paths);
}

/// What proving gives for the polynomial `mle` with the encoding
/// `encoding`, the commitment `commitment` and the layers `base` of the
/// tree over the encoding, at the point `point` with the evaluation
/// `eval`, where the transcript has absorbed `absorbed` and `counter`
/// challenges were drawn: the proof, unless the counter of the transcript
/// cannot take the challenges that are drawn.
pub open spec fn proving_outcome(
    t: Seq<u128>,
    twiddles: Seq<Seq<u128>>,
    mle: PackedMLE,
    point: Seq<u128>,
    eval: u128,
    encoding: Seq<u128>,
    commitment: FriCommitment,
    base: Seq<Seq<Seq<u8>>>,
    absorbed: Seq<u8>,
    counter: nat,
    r: Result<EvalProof, Error>,
) -> bool {
    if counter + challenges_drawn((point.len() - 7) as nat) > usize::MAX {
        r == Err::<EvalProof, Error>(Error::TranscriptOverflow)
    } else {
        r is Ok && r->Ok_0@ == proof_model(
            t,
            twiddles,
            mle,
            point,
            encoding,
            base,
            absorbed + statement_bytes(commitment, point, eval),
            counter,
        )
    }
}

/// What the transcript has absorbed when proving ends: the statement,
/// the oracle and the commitment of each round, and the final folded
/// value; or, where the counter of the transcript is exhausted before,
/// what went in until a challenge could not be drawn.
pub open spec fn transcript_after_proving(
    t: Seq<u128>,
    twiddles: Seq<Seq<u128>>,
    mle: PackedMLE,
    point: Seq<u128>,
    eval: u128,
    encoding: Seq<u128>,
    commitment: FriCommitment,
    absorbed: Seq<u8>,
    counter: nat,
) -> Seq<u8> {
    let rounds = (point.len() - 7) as nat;
    let bound = absorbed + statement_bytes(commitment, point, eval);
    let start = start_state(t, mle, point, encoding, bound, counter);
    let last = state_after(t, twiddles, start, rounds);
    if counter + 7 > usize::MAX {
        bound
    } else if counter + 7 + rounds > usize::MAX {
        stalled(t, twiddles, start, (usize::MAX - counter - 7) as nat)
    } else {
        last.absorbed + spec_u128_to_le_bytes(last.code[0])
    }
}

/// Proving is deterministic: two runs on the same polynomial, point,
/// evaluation, encoding, commitment and tree, from the same transcript,
/// fail alike or give proofs that hold the same values throughout.
pub proof fn lemma_proving_is_deterministic(
    t: Seq<u128>,
    twiddles: Seq<Seq<u128>>,
    mle: PackedMLE,
    point: Seq<u128>,
    eval: u128,
    encoding: Seq<u128>,
    commitment: FriCommitment,
    base: Seq<Seq<Seq<u8>>>,
    absorbed: Seq<u8>,
    counter: nat,
    first: Result<EvalProof, Error>,
    second: Result<EvalProof, Error>,
)
    requires
        proving_outcome(
            t,
            twiddles,
            mle,
            point,
            eval,
            encoding,
            commitment,
            base,
            absorbed,
            counter,
            first,
        ),
        proving_outcome(
            t,
            twiddles,
            mle,
            point,
            eval,
            encoding,
            commitment,
            base,
            absorbed,
            counter,
            second,
        ),
    ensures
        first is Ok <==> second is Ok,
        first is Ok ==> first->Ok_0@ == second->Ok_0@,
        first is Err ==> first->Err_0 == second->Err_0,
{
}

/// Proves that the polynomial `mle`, committed to by `commitment` through
/// the encoding `encoding` and the tree `merkle_tree` over it, has the
/// evaluation `eval` at the point `eval_point`.
pub fn prove(
    mle: &PackedMLE,
    eval_point: &[u128],
    eval: u128,
    encoding: &Code,
    commitment: &FriCommitment,
    merkle_tree: &MerkleTree,
    ntt: &TwiddleTable,
    channel: &mut Channel,
    field: &BinaryField128,
) -> (r: Result<EvalProof, Error>)
    requires
        field.wf(),
        mle.wf(),
        mle.packing_factor == mle.tower_level,
        mle.variables >= 8,
        eval_point@.len() == mle.variables,
        two_pow(mle.variables as nat) <= usize::MAX,
        encoding.encoding@.len() == 4 * two_pow((mle.variables - 7) as nat),
        merkle_tree.wf(),
        merkle_tree.layers().last().len() * 2 == encoding.encoding@.len(),
        ntt.covers(0, encoding.encoding@.len(), (mle.variables - 7) as nat),
    ensures
        proving_outcome(
            field.products@,
            ntt.rounds(),
            *mle,
            eval_point@,
            eval,
            encoding.encoding@,
            *commitment,
            merkle_tree.layers(),
            old(channel).state@,
            old(channel).round_idx as nat,
            r,
        ),
        final(channel).state@ == transcript_after_proving(
            field.products@,
            ntt.rounds(),
            *mle,
            eval_point@,
            eval,
            encoding.encoding@,
            *commitment,
            old(channel).state@,
            old(channel).round_idx as nat,
        ),
        r is Err ==> final(channel).round_idx == usize::MAX,
        r is Ok ==> final(channel).round_idx == old(channel).round_idx + challenges_drawn(
            (mle.variables - 7) as nat,
        ),
{
    let ghost t = field.products@;
    let ghost twiddles = ntt.rounds();
    let ghost rounds = (mle.variables - 7) as nat;
    let ghost absorbed = old(channel).state@ + statement_bytes(*commitment, eval_point@, eval);
    let ghost counter = old(channel).round_idx as nat;
    let ghost start = start_state(t, *mle, eval_point@, encoding.encoding@, absorbed, counter);
    bind_statement(channel, commitment, eval_point, eval);
    let setup = match batching_setup(mle, eval_point, channel, field) {
        Ok(setup) => setup,
        Err(e) => {
            return Err(e);
        },
    };
    let upper_partial_evals = setup.upper_partial_evals;
    let mut repacked_mle = setup.repacked_mle;
    let mut tensored_eq = setup.tensored_eq;
    let mut sum_check_claim = setup.sum_check_claim;
    let rounds_run = eval_point.len() - TAU;
    let mut proof_state = ProofState::new();
    assert(start == RoundState {
        absorbed: channel.state@,
        counter: channel.round_idx as nat,
        claim: sum_check_claim,
        mle: repacked_mle.coeffs@,
        eq: tensored_eq.vals@,
        code: encoding.encoding@,
    });

    let final_code_folded_value = match commit_phase(
        rounds_run,
        encoding,
        ntt,
        channel,
        &mut proof_state,
        &mut repacked_mle,
        &mut tensored_eq,
        &mut sum_check_claim,
        field,
    ) {
        Ok(value) => value,
        Err(e) => {
            return Err(e);
        },
    };
    proof {
        lemma_state_after_shape(t, twiddles, start, rounds, rounds);
        lemma_recorded_shapes(proof_state, t, twiddles, start, rounds);
        crate::pow2::lemma_two_pow_monotonic(rounds + 2, mle.variables as nat);
    }

    let _ = channel.observe_field_elem(final_code_folded_value);

    let (round_queried_symbols, round_merkle_paths) = match query_phase(
        rounds_run,
        encoding,
        merkle_tree,
        channel,
        &proof_state,
    ) {
        Ok(opened) => opened,
        Err(e) => {
            return Err(e);
        },
    };

    let proof = EvalProof::new(
        upper_partial_evals,
        proof_state,
        final_code_folded_value,
        round_queried_symbols,
        round_merkle_paths,
    );
    proof {
        lemma_proof_assembled(
            proof,
            proof_state,
            t,
            twiddles,
            *mle,
            eval_point@,
            encoding.encoding@,
            merkle_tree.layers(),
            absorbed,
            counter,
        );
    }
    Ok(proof)
}

/// Absorbs the statement: the commitment, the point, the evaluation.
fn bind_statement(
    channel: &mut Channel,
    commitment: &FriCommitment,
    eval_point: &[u128],
    eval: u128,
)
    ensures
        final(channel).state@ == old(channel).state@ + statement_bytes(
            *commitment,
            eval_point@,
            eval,
        ),
        final(channel).round_idx == old(channel).round_idx,
{
    channel.observe_fri_commitment(commitment);
    let _ = channel.observe_field_elems(eval_point);
    let _ = channel.observe_field_elem(eval);
    assert(channel.state@ =~= old(channel).state@ + statement_bytes(
        *commitment,
        eval_point@,
        eval,
    ));
}

/// What the prover holds when the commit phase starts.
struct BatchingSetup {
    upper_partial_evals: Vec<u128>,
    repacked_mle: PackedMLE,
    tensored_eq: LagrangeBases,
    sum_check_claim: u128,
}

/// Computes the partial evaluations, draws the batching challenges, and
/// prepares the claim, the polynomial and the equality table of the commit phase.
fn batching_setup(
    mle: &PackedMLE,
    eval_point: &[u128],
    channel: &mut Channel,
    field: &BinaryField128,
) -> (r: Result<BatchingSetup, Error>)
    requires
        field.wf(),
        mle.wf(),
        mle.packing_factor == mle.tower_level,
        mle.variables >= 8,
        eval_point@.len() == mle.variables,
        two_pow(mle.variables as nat) <= usize::MAX,
    ensures
        final(channel).state@ == old(channel).state@,
        old(channel).round_idx + 7 > usize::MAX ==> r == Err::<BatchingSetup, Error>(
            Error::TranscriptOverflow,
        ) && final(channel).round_idx == usize::MAX,
        old(channel).round_idx + 7 <= usize::MAX ==> {
            let t = field.products@;
            let right_eq = eq_table(t, eval_point@.skip(7));
            let batching_eq = eq_table(
                t,
                challenges_at(old(channel).state@, old(channel).round_idx, 7),
            );
            &&& r is Ok
            &&& final(channel).round_idx == old(channel).round_idx + 7
            &&& r->Ok_0.upper_partial_evals@ == partial_evals(*mle, right_eq)
            &&& r->Ok_0.sum_check_claim == dot(
                t,
                batching_eq,
                transposed(partial_evals(*mle, right_eq)),
                128,
            )
            &&& r->Ok_0.repacked_mle.wf()
            &&& r->Ok_0.repacked_mle.coeffs@ == repacked(
                mle.coeffs@,
                two_pow(mle.tower_level as nat),
            )
            &&& r->Ok_0.repacked_mle.coeffs@.len() == two_pow((mle.variables - 7) as nat)
            &&& r->Ok_0.tensored_eq.wf()
            &&& r->Ok_0.tensored_eq.vars == mle.variables - 7
            &&& r->Ok_0.tensored_eq.vals@ == row_batched(right_eq, batching_eq)
        },
{
    let (_, right) = eval_point.split_at(TAU);
    assert(right@ =~= eval_point@.skip(7));
    proof {
        crate::pow2::lemma_two_pow_monotonic(right@.len(), mle.variables as nat);
        crate::pow2::lemma_two_pow_64();
    }
    let right_eq = LagrangeBases::gen_from_point(right, field);
    let upper_partial_evals = get_partial_evals(mle, &right_eq);
    let tensor_batching_point = match channel.get_random_points(TAU) {
        Ok(point) => point,
        Err(e) => {
            return Err(e);
        },
    };
    let batching_eq = LagrangeBases::gen_from_point(tensor_batching_point.as_slice(), field);
    let repacked_mle = mle.repack_for_fri();
    proof {
        crate::utils::mle::lemma_repacked_len(mle.coeffs@.len(), mle.tower_level as nat);
    }
    let sum_check_claim = compute_row_batch(
        batching_eq.vals.as_slice(),
        upper_partial_evals.as_slice(),
        field,
    );
    let tensored_eq = right_eq.row_batch(&batching_eq);
    assert(tensored_eq.vals@ =~= row_batched(right_eq.vals@, batching_eq.vals@));
    Ok(BatchingSetup { upper_partial_evals, repacked_mle, tensored_eq, sum_check_claim })
}

/// The codes and the trees recorded for the rounds have the sizes that the query phase needs.
proof fn lemma_recorded_shapes(
    proof_state: ProofState,
    t: Seq<u128>,
    twiddles: Seq<Seq<u128>>,
    start: RoundState,
    rounds: nat,
)
    requires
        proof_state.records(t, twiddles, start, rounds),
        state_shape(start, rounds),
    ensures
        forall|j: int| 0 <= j < rounds ==> #[trigger] proof_state.shaped(rounds as nat, j),
{
    assert forall|j: int| 0 <= j < rounds implies #[trigger] proof_state.shaped(rounds, j) by {
        assert(proof_state.records_round(t, twiddles, start, j));
        lemma_state_after_shape(t, twiddles, start, rounds, (j + 1) as nat);
        let leaves = leaf_layer(state_after(t, twiddles, start, (j + 1) as nat).code);
        assert(tree_layers(leaves)[log2(leaves.len()) as int] == leaves);
        assert(tree_layers(leaves).last() == leaves);
    }
}

/// Four vectors of `n` elements each, one after another, make `4 n` elements.
proof fn lemma_concat_four(parts: Seq<Vec<u128>>, n: nat)
    requires
        parts.len() == 4,
        forall|k: int| 0 <= k < 4 ==> (#[trigger] parts[k])@.len() == n,
    ensures
        concat(parts).len() == 4 * n,
{
    let three = parts.drop_last();
    let two = three.drop_last();
    let one = two.drop_last();
    assert(three.last() == parts[2]);
    assert(two.last() == parts[1]);
    assert(one.last() == parts[0]);
    assert(one.drop_last().len() == 0);
    reveal_with_fuel(concat, 5);
}

/// Commits to the polynomial `mle`: its coefficients are encoded with
/// `transform`, the Merkle tree is built over the pairs of adjacent symbols
/// of the encoding, and the commitment holds the root and the depth of
/// that tree and the tower level of the coefficients.
pub fn commit<T: Fn(Vec<u128>, u32) -> Vec<u128>>(mle: &PackedMLE, transform: T) -> (r: (
    FriCommitment,
    Code,
    MerkleTree,
))
    requires
        mle.wf(),
        forall|m: Vec<u128>, round: u32| round < 4 ==> transform.requires((m, round)),
        forall|m: Vec<u128>, round: u32, out: Vec<u128>|
            transform.ensures((m, round), out) ==> out@.len() == m@.len(),
    ensures
        exists|inputs: Seq<Vec<u128>>, cosets: Seq<Vec<u128>>| #[trigger]
            is_encoding(
                transform,
                repacked(mle.coeffs@, two_pow(mle.tower_level as nat)),
                inputs,
                cosets,
                r.1.encoding@,
            ),
        r.1.encoding@.len() == 4 * crate::utils::mle::repacked_len(
            mle.coeffs@.len(),
            mle.tower_level as nat,
        ),
        r.2.wf(),
        r.2.layers() == tree_layers(leaf_layer(r.1.encoding@)),
        r.0.vector_commitment.root@ == oracle_root(r.1.encoding@),
        r.0.vector_commitment.depth == oracle_depth(r.1.encoding@),
        r.0.packing_factor == mle.tower_level,
{
    let code = Code::new_ext(mle.coeffs.as_slice(), mle.tower_level, transform);
    let ghost message = repacked(mle.coeffs@, two_pow(mle.tower_level as nat));
    let ghost (inputs, cosets) = choose|inputs: Seq<Vec<u128>>, cosets: Seq<Vec<u128>>| #[trigger]
        is_encoding(transform, message, inputs, cosets, code.encoding@);
    proof {
        assert forall|k: int| 0 <= k < 4 implies (#[trigger] cosets[k])@.len() == message.len() by {
            assert(inputs[k]@ == message);
            assert(transform.ensures((inputs[k], k as u32), cosets[k]));
        }
        lemma_concat_four(cosets, message.len());
        crate::utils::mle::lemma_repacked_len(mle.coeffs@.len(), mle.tower_level as nat);
        let m = message.len();
        assert(is_pow2(2 * m));
        assert(is_pow2(4 * m));
    }
    let (vector_commitment, merkle_tree) = commit_oracle(&code);
    let fri_commitment = FriCommitment { vector_commitment, packing_factor: mle.tower_level };
    let r = (fri_commitment, code, merkle_tree);
    proof {
        assert(is_encoding(transform, message, inputs, cosets, r.1.encoding@));
    }
    r
}


/// The value at zero of a polynomial of three coefficients is the first,
/// the value at one is the sum of the three.
pub proof fn lemma_horner_at_zero_and_one(t: Seq<u128>, coeffs: Seq<u128>)
    requires
        crate::field::valid_table(t),
        coeffs.len() == 3,
    ensures
        horner(t, coeffs, 0) == coeffs[0],
        horner(t, coeffs, 1) == coeffs[0] ^ coeffs[1] ^ coeffs[2],
{
    let c1 = coeffs.drop_first();
    let c2 = c1.drop_first();
    let c3 = c2.drop_first();
    assert(c3.len() == 0);
    assert(c2[0] == coeffs[2]);
    assert(c1[0] == coeffs[1]);
    reveal_with_fuel(horner, 4);
    crate::field::lemma_product_zero(t, horner(t, c1, 0));
    crate::field::lemma_product_zero(t, 0);
    crate::field::lemma_product_one(t, 0);
    crate::field::lemma_product_one(t, horner(t, c3, 1));
    crate::field::lemma_product_one(t, horner(t, c2, 1));
    crate::field::lemma_product_one(t, horner(t, c1, 1));
    crate::field::lemma_xor_zero(coeffs[0]);
    crate::field::lemma_xor_zero(coeffs[1]);
    crate::field::lemma_xor_zero(coeffs[2]);
    let (a, b, c) = (coeffs[0], coeffs[1], coeffs[2]);
    assert(a ^ (b ^ c) == a ^ b ^ c) by (bit_vector);
}

/// The oracle of a round sums, over zero and one, to the claim that it was made for.
pub proof fn lemma_round_poly_sums(t: Seq<u128>, mle: Seq<u128>, eq: Seq<u128>, claim: u128)
    requires
        crate::field::valid_table(t),
    ensures
        horner(t, round_poly(t, mle, eq, claim), 0) ^ horner(t, round_poly(t, mle, eq, claim), 1)
            == claim,
{
    let poly = round_poly(t, mle, eq, claim);
    lemma_horner_at_zero_and_one(t, poly);
    let e0 = poly[0];
    let einf = poly[2];
    assert(poly[1] == e0 ^ (claim ^ e0) ^ einf);
    assert(e0 ^ (e0 ^ (e0 ^ (claim ^ e0) ^ einf) ^ einf) == claim) by (bit_vector);
}

} // verus!
