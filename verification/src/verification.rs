//! The verifier: replays the transcript and checks the sum-check oracles,
//! the Merkle openings, the consistency of the folds and the final value.

use crate::error::Error;
use crate::field::BinaryField128;
use crate::pow2::{halved, two_pow};
use crate::prover::{
    challenges_drawn, horner, statement_bytes, EvalProof, FriCommitment, ProofModel,
};
use crate::utils::channel::{
    challenge_at, challenges_at, commitment_bytes, field_bytes, queries_at, Channel,
};
use crate::utils::code::{fold, folded_symbol, TwiddleTable, LOG_RATE};
use crate::utils::merkle::{
    digests, hash_tuple, leaf_digest, path_check, verify_merkle_path, VectorCommitment,
};
use crate::utils::mle::{compute_row_batch, dot, eq_fold, extend_eq, transposed};
use crate::utils::TAU;
use vstd::bytes::spec_u128_to_le_bytes;
use vstd::prelude::*;

verus! {

/// The evaluations of the equality polynomial at the point `r`, of at
/// least one coordinate, on the cube: the table `[1 - r[0], r[0]]` extended
/// by each further coordinate.
pub open spec fn seeded_eq_table(t: Seq<u128>, r: Seq<u128>) -> Seq<u128> {
    eq_fold(t, seq![1u128 ^ r[0], r[0]], r.skip(1))
}

/// What the verifier and the transcript hold between two sum-check rounds.
pub struct VerifierState {
    /// The bytes absorbed by the transcript.
    pub absorbed: Seq<u8>,
    /// The number of challenges drawn from the transcript.
    pub counter: nat,
    /// The running sum-check claim.
    pub claim: u128,
    /// The challenges of the rounds so far.
    pub challenges: Seq<u128>,
}

/// The lengths that a proof for `rounds` rounds must have: one oracle of
/// three coefficients, one commitment, one vector of opened pairs and one
/// vector of paths for each round.
pub open spec fn well_shaped(proof: ProofModel, rounds: nat) -> bool {
    &&& proof.sum_check_oracles.len() == rounds
    &&& proof.fri_oracles.len() == rounds
    &&& proof.fri_queried_symbols.len() == rounds
    &&& proof.fri_merkle_paths.len() == rounds
    &&& forall|k: int| 0 <= k < rounds ==> (#[trigger] proof.sum_check_oracles[k]).len() == 3
}

/// Round `k` of the sum-check from the state `s`: the oracle must sum to
/// the claim over zero and one; it is absorbed, the challenge is drawn, the
/// commitment to the folded code is absorbed, and the claim becomes the
/// value of the oracle at the challenge.
pub open spec fn sumcheck_round(t: Seq<u128>, proof: ProofModel, s: VerifierState, k: int)
    -> Result<VerifierState, Error> {
    let oracle = proof.sum_check_oracles[k];
    let absorbed = s.absorbed + field_bytes(oracle);
    let r = challenge_at(absorbed, s.counter as usize);
    if horner(t, oracle, 0) ^ horner(t, oracle, 1) != s.claim {
        Err(Error::SumCheck { round: k as usize })
    } else if s.counter >= usize::MAX {
        Err(Error::TranscriptOverflow)
    } else {
        Ok(
            VerifierState {
                absorbed: absorbed + commitment_bytes(proof.fri_oracles[k].0, proof.fri_oracles[k].1),
                counter: s.counter + 1,
                claim: horner(t, oracle, r),
                challenges: s.challenges.push(r),
            },
        )
    }
}

/// The first `k` rounds of the sum-check from the state `start`.
#[verifier::opaque]
pub open spec fn sumcheck_run(t: Seq<u128>, proof: ProofModel, start: VerifierState, k: nat)
    -> Result<VerifierState, Error>
    decreases k,
{
    if k == 0 {
        Ok(start)
    } else {
        match sumcheck_run(t, proof, start, (k - 1) as nat) {
            Err(e) => Err(e),
            Ok(s) => sumcheck_round(t, proof, s, k - 1),
        }
    }
}

/// The check of one opening in the round `round`, for the query number
/// `query` whose symbol stands at the index `at` of the code of this round.
/// After round 0, `prev`, the fold of the pair opened for this query in
/// the round before, must be the symbol of the pair `pair` that stands at
/// `at`: the second where `at` is odd, the first where it is even. The
/// leaf of the pair, of index `at / 2`, must have the path `path` to the
/// root `root` at `depth`. The result is the fold of the pair at the
/// challenge `r` with the twiddle of index `at / 2` in `row`.
pub open spec fn query_check(
    t: Seq<u128>,
    row: Seq<u128>,
    root: Seq<u8>,
    depth: usize,
    round: usize,
    query: usize,
    at: usize,
    pair: (u128, u128),
    path: Seq<Seq<u8>>,
    prev: u128,
    r: u128,
) -> Result<u128, Error> {
    let expected = if at % 2 == 1 {
        pair.1
    } else {
        pair.0
    };
    let leaf = (at / 2) as usize;
    if round > 0 && prev != expected {
        Err(Error::FoldConsistency { round, query })
    } else {
        match path_check(root, depth as nat, leaf_digest(pair.0, pair.1), leaf, path) {
            Err(e) => Err(e),
            Ok(_) => Ok(folded_symbol(t, r, row[leaf as int], pair.0, pair.1)),
        }
    }
}

/// What the checks of the openings of one round need.
pub struct RoundOpenings {
    /// The basis products of the field.
    pub t: Seq<u128>,
    /// The twiddles of the round.
    pub row: Seq<u128>,
    /// The root and the depth of the commitment to the code of the round.
    pub oracle: (Seq<u8>, usize),
    /// The number of the round.
    pub round: usize,
    /// For each query, the index of its symbol in the code of the round.
    pub ats: Seq<usize>,
    /// The pairs opened.
    pub symbols: Seq<(u128, u128)>,
    /// The paths opened.
    pub paths: Seq<Seq<Seq<u8>>>,
    /// For each query, the fold of the pair opened in the round before.
    pub prev: Seq<u128>,
    /// The challenge of the round.
    pub challenge: u128,
}

impl RoundOpenings {
    /// The check of the opening number `i`.
    pub open spec fn check(self, i: int) -> Result<u128, Error> {
        query_check(
            self.t,
            self.row,
            self.oracle.0,
            self.oracle.1,
            self.round,
            i as usize,
            self.ats[i],
            self.symbols[i],
            self.paths[i],
            self.prev[i],
            self.challenge,
        )
    }

    /// The checks of the first `n` openings, in order: the first failure,
    /// or the folds of the pairs.
    pub open spec fn prefix(self, n: nat) -> Result<Seq<u128>, Error>
        decreases n,
    {
        if n == 0 {
            Ok(Seq::empty())
        } else {
            match self.prefix((n - 1) as nat) {
                Err(e) => Err(e),
                Ok(folded) => match self.check(n - 1) {
                    Err(e) => Err(e),
                    Ok(symbol) => Ok(folded.push(symbol)),
                },
            }
        }
    }

    /// The checks of the round: it must open one pair and one path for each query.
    pub open spec fn outcome(self) -> Result<Seq<u128>, Error> {
        if self.symbols.len() != self.ats.len() || self.paths.len() != self.ats.len() {
            Err(Error::ShapeMismatch)
        } else {
            self.prefix(self.ats.len())
        }
    }

    /// A failure among the first `m` openings is the outcome of any longer prefix.
    pub proof fn lemma_failure_stays(self, m: nat, n: nat)
        requires
            m <= n,
            self.prefix(m) is Err,
        ensures
            self.prefix(n) == self.prefix(m),
        decreases n,
    {
        if m < n {
            self.lemma_failure_stays(m, (n - 1) as nat);
        }
    }

    /// The checks of a prefix that succeed give one fold for each opening.
    pub proof fn lemma_prefix_len(self, n: nat)
        requires
            self.prefix(n) is Ok,
        ensures
            self.prefix(n)->Ok_0.len() == n,
        decreases n,
    {
        if n > 0 {
            self.lemma_prefix_len((n - 1) as nat);
        }
    }
}

/// What the checks of the openings need of the statement and the proof.
pub struct Openings {
    /// The basis products of the field.
    pub t: Seq<u128>,
    /// The twiddles of each round.
    pub twiddles: Seq<Seq<u128>>,
    /// The root and the depth of the commitment to the encoding.
    pub base: (Seq<u8>, usize),
    /// The commitment to the code folded in each round.
    pub oracles: Seq<(Seq<u8>, usize)>,
    /// The pairs opened in each round.
    pub symbols: Seq<Seq<(u128, u128)>>,
    /// The paths opened in each round.
    pub paths: Seq<Seq<Seq<Seq<u8>>>>,
    /// The challenge of each round.
    pub challenges: Seq<u128>,
    /// The queries, as drawn.
    pub queries: Seq<usize>,
}

impl Openings {
    /// The indices of the symbols of the queries in the code of the round
    /// `k`: each query halved `k` times.
    pub open spec fn ats(self, k: int) -> Seq<usize> {
        Seq::new(self.queries.len(), |i: int| halved(self.queries[i] as nat, k as nat) as usize)
    }

    /// The openings of the round `k`, checked against the commitment to
    /// the encoding in round 0 and against the commitment of the round
    /// before after that, where `prev` are the folds of the round before.
    pub open spec fn of_round(self, k: int, prev: Seq<u128>) -> RoundOpenings {
        RoundOpenings {
            t: self.t,
            row: self.twiddles[k],
            oracle: if k == 0 {
                self.base
            } else {
                self.oracles[k - 1]
            },
            round: k as usize,
            ats: self.ats(k),
            symbols: self.symbols[k],
            paths: self.paths[k],
            prev,
            challenge: self.challenges[k],
        }
    }

    /// The checks of the first `k` rounds, in order: the first failure, or
    /// the folds of the pairs opened in the last of them.
    #[verifier::opaque]
    pub open spec fn rounds(self, k: nat) -> Result<Seq<u128>, Error>
        decreases k,
    {
        if k == 0 {
            Ok(Seq::empty())
        } else {
            match self.rounds((k - 1) as nat) {
                Err(e) => Err(e),
                Ok(prev) => self.of_round(k - 1, prev).outcome(),
            }
        }
    }

    /// No round gives no fold; the outcome of `k + 1` rounds is the first
    /// failure among the first `k`, else the outcome of the round `k`.
    pub proof fn lemma_rounds_unfold(self, k: nat)
        ensures
            self.rounds(0) == Ok::<Seq<u128>, Error>(Seq::empty()),
            self.rounds(k + 1) == (match self.rounds(k) {
                Err(e) => Err(e),
                Ok(prev) => self.of_round(k as int, prev).outcome(),
            }),
    {
        reveal_with_fuel(Openings::rounds, 2);
    }

    /// A failure among the first `m` rounds is the outcome of any more rounds.
    pub proof fn lemma_failure_stays(self, m: nat, n: nat)
        requires
            m <= n,
            self.rounds(m) is Err,
        ensures
            self.rounds(n) == self.rounds(m),
        decreases n,
    {
        if m < n {
            self.lemma_failure_stays(m, (n - 1) as nat);
            self.lemma_rounds_unfold((n - 1) as nat);
        }
    }
}

/// Whether every element of `folded` is `value`.
pub open spec fn all_equal(folded: Seq<u128>, value: u128) -> bool {
    forall|i: int| 0 <= i < folded.len() ==> folded[i] == value
}

/// The query phase of the verifier after the sum-check, which drew the
/// challenges `challenges` and left the transcript with `absorbed` and
/// `counter`: the final folded value is absorbed, the queries are drawn,
/// the openings of every round are checked, and the pairs opened in the
/// last round must all fold to the final folded value.
pub open spec fn openings_model(
    t: Seq<u128>,
    twiddles: Seq<Seq<u128>>,
    commitment: FriCommitment,
    proof: ProofModel,
    rounds: nat,
    absorbed: Seq<u8>,
    counter: nat,
    challenges: Seq<u128>,
) -> Result<(), Error> {
    let openings = openings_of(t, twiddles, commitment, proof, rounds, absorbed, counter, challenges);
    if two_pow(rounds + 2) > usize::MAX {
        Err(Error::DomainSizeOverflow)
    } else if two_pow(rounds + 2) >= 144 && counter + 144 > usize::MAX {
        Err(Error::TranscriptOverflow)
    } else {
        match openings.rounds(rounds) {
            Err(e) => Err(e),
            Ok(folded) => if all_equal(folded, proof.final_folded_value) {
                Ok(())
            } else {
                Err(Error::FinalValue)
            },
        }
    }
}

/// What the checks of the openings need: the queries are drawn after the
/// final folded value is absorbed.
pub open spec fn openings_of(
    t: Seq<u128>,
    twiddles: Seq<Seq<u128>>,
    commitment: FriCommitment,
    proof: ProofModel,
    rounds: nat,
    absorbed: Seq<u8>,
    counter: nat,
    challenges: Seq<u128>,
) -> Openings {
    Openings {
        t,
        twiddles,
        base: (commitment.vector_commitment.root@, commitment.vector_commitment.depth),
        oracles: proof.fri_oracles,
        symbols: proof.fri_queried_symbols,
        paths: proof.fri_merkle_paths,
        challenges,
        queries: queries_at(
            absorbed + spec_u128_to_le_bytes(proof.final_folded_value),
            counter as usize,
            rounds + 2,
        ),
    }
}

/// The state in which the verifier starts the sum-check: the statement is
/// absorbed, the seven batching challenges are drawn, and the claim is the
/// row batch of the partial evaluations of the proof.
pub open spec fn verifier_start(
    t: Seq<u128>,
    commitment: FriCommitment,
    point: Seq<u128>,
    eval: u128,
    proof: ProofModel,
    absorbed: Seq<u8>,
    counter: nat,
) -> VerifierState {
    let bound = absorbed + statement_bytes(commitment, point, eval);
    let batching_eq = seeded_eq_table(t, challenges_at(bound, counter as usize, 7));
    VerifierState {
        absorbed: bound,
        counter: counter + 7,
        claim: dot(t, batching_eq, transposed(proof.upper_partial_evals), 128),
        challenges: Seq::empty(),
    }
}

/// The verdict on the proof `proof` that the polynomial committed to by
/// `commitment` has the evaluation `eval` at the point `point`, where the
/// transcript has absorbed `absorbed` and `counter` challenges were drawn:
/// the first check that fails, in the order of the protocol, or success.
pub open spec fn verify_model(
    t: Seq<u128>,
    twiddles: Seq<Seq<u128>>,
    commitment: FriCommitment,
    point: Seq<u128>,
    eval: u128,
    proof: ProofModel,
    absorbed: Seq<u8>,
    counter: nat,
) -> Result<(), Error> {
    let rounds = (point.len() - 7) as nat;
    let start = verifier_start(t, commitment, point, eval, proof, absorbed, counter);
    if proof.upper_partial_evals.len() != 128 {
        Err(Error::ShapeMismatch)
    } else if dot(t, seeded_eq_table(t, point.take(7)), proof.upper_partial_evals, 128) != eval {
        Err(Error::InitialClaim)
    } else if counter + 7 > usize::MAX {
        Err(Error::TranscriptOverflow)
    } else if !well_shaped(proof, rounds) {
        Err(Error::ShapeMismatch)
    } else {
        match sumcheck_run(t, proof, start, rounds) {
            Err(e) => Err(e),
            Ok(s) => openings_model(
                t,
                twiddles,
                commitment,
                proof,
                rounds,
                s.absorbed,
                s.counter,
                s.challenges,
            ),
        }
    }
}

/// The evaluations of the equality polynomial at the point `r`, of at
/// least one coordinate, on the cube.
pub fn compute_eq_table(r: &[u128], field: &BinaryField128) -> (eq: Vec<u128>)
    requires
        field.wf(),
        r@.len() >= 1,
        two_pow(r@.len()) <= usize::MAX,
    ensures
        eq@ == seeded_eq_table(field.products@, r@),
{
    let mut eq: Vec<u128> = Vec::with_capacity(2);
    eq.push(1u128 ^ r[0]);
    eq.push(r[0]);
    assert(eq@ =~= seq![1u128 ^ r@[0], r@[0]]);
    let (_, rest) = r.split_at(1);
    assert(rest@ =~= r@.skip(1));
    assert(two_pow(r@.len()) == 2 * two_pow(rest@.len()));
    extend_eq(field, eq, rest)
}


/// The outcome of no round is the start; the outcome of `k + 1` rounds is
/// the first failure among the first `k`, else the outcome of the round `k`.
pub proof fn lemma_sumcheck_unfold(t: Seq<u128>, proof: ProofModel, start: VerifierState, k: nat)
    ensures
        sumcheck_run(t, proof, start, 0) == Ok::<VerifierState, Error>(start),
        sumcheck_run(t, proof, start, k + 1) == (match sumcheck_run(t, proof, start, k) {
            Err(e) => Err(e),
            Ok(s) => sumcheck_round(t, proof, s, k as int),
        }),
{
    reveal_with_fuel(sumcheck_run, 2);
}

/// A failure among the first `m` rounds is the outcome of any more rounds.
pub proof fn lemma_sumcheck_failure_stays(
    t: Seq<u128>,
    proof: ProofModel,
    start: VerifierState,
    m: nat,
    n: nat,
)
    requires
        m <= n,
        sumcheck_run(t, proof, start, m) is Err,
    ensures
        sumcheck_run(t, proof, start, n) == sumcheck_run(t, proof, start, m),
    decreases n,
{
    if m < n {
        lemma_sumcheck_failure_stays(t, proof, start, m, (n - 1) as nat);
        lemma_sumcheck_unfold(t, proof, start, (n - 1) as nat);
    }
}

/// The transcript where the first `k` rounds of the sum-check from the
/// state `start` end: after the last round where all are accepted, else
/// where the first failure is found, which is before the oracle is
/// absorbed where it does not sum to the claim, and after it where no
/// challenge can be drawn.
#[verifier::opaque]
pub open spec fn sumcheck_halt(t: Seq<u128>, proof: ProofModel, start: VerifierState, k: nat) -> (
    Seq<u8>,
    nat,
)
    decreases k,
{
    match sumcheck_run(t, proof, start, k) {
        Ok(s) => (s.absorbed, s.counter),
        Err(_) => if k == 0 {
            (start.absorbed, start.counter)
        } else {
            match sumcheck_run(t, proof, start, (k - 1) as nat) {
                Err(_) => sumcheck_halt(t, proof, start, (k - 1) as nat),
                Ok(s) => {
                    let oracle = proof.sum_check_oracles[k - 1];
                    if horner(t, oracle, 0) ^ horner(t, oracle, 1) != s.claim {
                        (s.absorbed, s.counter)
                    } else {
                        (s.absorbed + field_bytes(oracle), s.counter)
                    }
                },
            }
        },
    }
}

/// The transcript does not move after a failure.
pub proof fn lemma_sumcheck_halt_stays(
    t: Seq<u128>,
    proof: ProofModel,
    start: VerifierState,
    m: nat,
    n: nat,
)
    requires
        m <= n,
        sumcheck_run(t, proof, start, m) is Err,
    ensures
        sumcheck_halt(t, proof, start, n) == sumcheck_halt(t, proof, start, m),
    decreases n,
{
    if m < n {
        lemma_sumcheck_halt_stays(t, proof, start, m, (n - 1) as nat);
        lemma_sumcheck_failure_stays(t, proof, start, m, (n - 1) as nat);
        lemma_sumcheck_failure_stays(t, proof, start, m, n);
        reveal_with_fuel(sumcheck_halt, 2);
    }
}

/// The counter of the transcript after the query phase that starts with
/// the counter `counter`: 144 challenges are drawn where the query domain
/// fits the index type and holds at least 144 indices, as far as the
/// counter goes.
pub open spec fn counter_after_queries(counter: nat, rounds: nat) -> nat {
    if two_pow(rounds + 2) > usize::MAX || two_pow(rounds + 2) < 144 {
        counter
    } else if counter + 144 > usize::MAX {
        usize::MAX as nat
    } else {
        counter + 144
    }
}

/// The transcript that the verifier leaves: what was absorbed and how
/// many challenges were drawn when the verdict was reached.
pub open spec fn transcript_after_verifying(
    t: Seq<u128>,
    commitment: FriCommitment,
    point: Seq<u128>,
    eval: u128,
    proof: ProofModel,
    absorbed: Seq<u8>,
    counter: nat,
) -> (Seq<u8>, nat) {
    let rounds = (point.len() - 7) as nat;
    let bound = absorbed + statement_bytes(commitment, point, eval);
    let start = verifier_start(t, commitment, point, eval, proof, absorbed, counter);
    if proof.upper_partial_evals.len() != 128 || dot(
        t,
        seeded_eq_table(t, point.take(7)),
        proof.upper_partial_evals,
        128,
    ) != eval {
        (bound, counter)
    } else if counter + 7 > usize::MAX {
        (bound, usize::MAX as nat)
    } else if !well_shaped(proof, rounds) {
        (bound, counter + 7)
    } else {
        match sumcheck_run(t, proof, start, rounds) {
            Err(_) => sumcheck_halt(t, proof, start, rounds),
            Ok(s) => (
                s.absorbed + spec_u128_to_le_bytes(proof.final_folded_value),
                counter_after_queries(s.counter, rounds),
            ),
        }
    }
}

/// Whether the proof has the lengths of a proof for `rounds` rounds.
fn check_shape(proof: &EvalProof, rounds: usize) -> (ok: bool)
    ensures
        ok == well_shaped(proof@, rounds as nat),
{
    if proof.sum_check_oracles.len() != rounds || proof.fri_oracles.len() != rounds
        || proof.fri_queried_symbols.len() != rounds || proof.fri_merkle_paths.len() != rounds {
        return false;
    }
    let mut k: usize = 0;
    while k < rounds
        invariant
            k <= rounds,
            proof.sum_check_oracles@.len() == rounds,
            forall|m: int| 0 <= m < k ==> (#[trigger] proof@.sum_check_oracles[m]).len() == 3,
        decreases rounds - k,
    {
        if proof.sum_check_oracles[k].coeffs.len() != 3 {
            assert(proof@.sum_check_oracles[k as int].len() != 3);
            return false;
        }
        k += 1;
    }
    true
}

/// Runs the sum-check rounds of the verifier and gives the challenges.
fn sumcheck_phase(
    proof: &EvalProof,
    rounds: usize,
    claim: u128,
    channel: &mut Channel,
    field: &BinaryField128,
) -> (r: Result<Vec<u128>, Error>)
    requires
        field.wf(),
        well_shaped(proof@, rounds as nat),
    ensures
        ({
            let start = VerifierState {
                absorbed: old(channel).state@,
                counter: old(channel).round_idx as nat,
                claim,
                challenges: Seq::empty(),
            };
            &&& (final(channel).state@, final(channel).round_idx as nat) == sumcheck_halt(
                field.products@,
                proof@,
                start,
                rounds as nat,
            )
            &&& match sumcheck_run(field.products@, proof@, start, rounds as nat) {
                Err(e) => r == Err::<Vec<u128>, Error>(e),
                Ok(s) => {
                    &&& r is Ok
                    &&& r->Ok_0@ == s.challenges
                    &&& s.challenges.len() == rounds
                    &&& final(channel).state@ == s.absorbed
                    &&& final(channel).round_idx == s.counter
                    &&& s.counter == old(channel).round_idx + rounds
                },
            }
        }),
{
    let ghost t = field.products@;
    let ghost start = VerifierState {
        absorbed: channel.state@,
        counter: channel.round_idx as nat,
        claim,
        challenges: Seq::empty(),
    };
    let mut sum_check_claim = claim;
    let mut random_point: Vec<u128> = Vec::new();
    let mut round: usize = 0;
    proof {
        lemma_sumcheck_unfold(t, proof@, start, 0);
    }
    while round < rounds
        invariant
            round <= rounds,
            field.wf(),
            t == field.products@,
            well_shaped(proof@, rounds as nat),
            start == (VerifierState {
                absorbed: old(channel).state@,
                counter: old(channel).round_idx as nat,
                claim,
                challenges: Seq::empty(),
            }),
            sumcheck_run(t, proof@, start, round as nat) == Ok::<VerifierState, Error>(
                VerifierState {
                    absorbed: channel.state@,
                    counter: channel.round_idx as nat,
                    claim: sum_check_claim,
                    challenges: random_point@,
                },
            ),
            random_point@.len() == round,
            channel.round_idx == old(channel).round_idx + round,
        decreases rounds - round,
    {
        let ghost s = VerifierState {
            absorbed: channel.state@,
            counter: channel.round_idx as nat,
            claim: sum_check_claim,
            challenges: random_point@,
        };
        proof {
            lemma_sumcheck_unfold(t, proof@, start, round as nat);
        }
        let oracle = &proof.sum_check_oracles[round];
        assert(oracle.coeffs@ == proof@.sum_check_oracles[round as int]);
        if oracle.evaluate(0, field) ^ oracle.evaluate(1, field) != sum_check_claim {
            proof {
                assert(sumcheck_round(t, proof@, s, round as int) == Err::<VerifierState, Error>(
                    Error::SumCheck { round },
                ));
                assert(sumcheck_run(t, proof@, start, (round + 1) as nat) is Err);
                lemma_sumcheck_failure_stays(t, proof@, start, (round + 1) as nat, rounds as nat);
                lemma_sumcheck_halt_stays(t, proof@, start, (round + 1) as nat, rounds as nat);
                reveal_with_fuel(sumcheck_halt, 2);
            }
            return Err(Error::SumCheck { round });
        }
        let _ = channel.observe_field_elems(oracle.coeffs.as_slice());
        let r = match channel.get_random_point() {
            Ok(r) => r,
            Err(e) => {
                proof {
                    assert(sumcheck_round(t, proof@, s, round as int) == Err::<
                        VerifierState,
                        Error,
                    >(Error::TranscriptOverflow));
                    assert(sumcheck_run(t, proof@, start, (round + 1) as nat) is Err);
                    lemma_sumcheck_halt_stays(t, proof@, start, (round + 1) as nat, rounds as nat);
                    reveal_with_fuel(sumcheck_halt, 2);
                    lemma_sumcheck_failure_stays(
                        t,
                        proof@,
                        start,
                        (round + 1) as nat,
                        rounds as nat,
                    );
                }
                return Err(e);
            },
        };
        let current_oracle = &proof.fri_oracles[round];
        assert(proof@.fri_oracles[round as int] == (current_oracle.root@, current_oracle.depth));
        channel.observe_vector_commitment(current_oracle);
        sum_check_claim = oracle.evaluate(r, field);
        random_point.push(r);
        proof {
            let next = sumcheck_round(t, proof@, s, round as int);
            assert(next is Ok);
            assert(channel.state@ =~= next->Ok_0.absorbed);
        }
        round += 1;
    }
    proof {
        reveal_with_fuel(sumcheck_halt, 1);
    }
    Ok(random_point)
}

/// The vector computed is the one of the model, or the failure is the same.
pub open spec fn same_outcome(r: Result<Vec<u128>, Error>, model: Result<Seq<u128>, Error>) -> bool {
    match model {
        Err(e) => r == Err::<Vec<u128>, Error>(e),
        Ok(folded) => r is Ok && r->Ok_0@ == folded,
    }
}

/// Checks one opening and folds the pair opened.
fn check_opening(
    round: usize,
    query: usize,
    at: usize,
    oracle: &VectorCommitment,
    pair: (u128, u128),
    path: &Vec<crate::utils::merkle::Hash>,
    prev: u128,
    challenge: u128,
    ntt: &TwiddleTable,
    field: &BinaryField128,
) -> (r: Result<u128, Error>)
    requires
        field.wf(),
        round < ntt.evals@.len(),
        at / 2 < ntt.evals@[round as int]@.len(),
    ensures
        r == query_check(
            field.products@,
            ntt.rounds()[round as int],
            oracle.root@,
            oracle.depth,
            round,
            query,
            at,
            pair,
            digests(path@),
            prev,
            challenge,
        ),
{
    let (s0, s1) = pair;
    let hash = hash_tuple(&(s0, s1));
    if round > 0 {
        let expected = if at % 2 == 1 {
            s1
        } else {
            s0
        };
        if prev != expected {
            return Err(Error::FoldConsistency { round, query });
        }
    }
    let leaf = at / 2;
    match verify_merkle_path(oracle, hash, leaf, path.as_slice()) {
        Ok(_) => {},
        Err(e) => {
            return Err(e);
        },
    }
    Ok(fold(challenge, round, leaf, s0, s1, ntt, field))
}

/// Checks the openings of one round, folds the pairs opened, and moves
/// each query to the index of its symbol in the code of the next round.
fn check_round(
    round: usize,
    oracle: &VectorCommitment,
    symbols: &Vec<(u128, u128)>,
    paths: &Vec<Vec<crate::utils::merkle::Hash>>,
    current_queries: &mut Vec<usize>,
    folded_symbols: &Vec<u128>,
    challenge: u128,
    ntt: &TwiddleTable,
    field: &BinaryField128,
) -> (r: Result<Vec<u128>, Error>)
    requires
        field.wf(),
        round < ntt.evals@.len(),
        forall|i: int|
            0 <= i < old(current_queries)@.len() ==> (#[trigger] old(current_queries)@[i]) / 2
                < ntt.evals@[round as int]@.len(),
        round > 0 ==> folded_symbols@.len() == old(current_queries)@.len(),
    ensures
        same_outcome(
            r,
            (RoundOpenings {
                t: field.products@,
                row: ntt.rounds()[round as int],
                oracle: (oracle.root@, oracle.depth),
                round,
                ats: old(current_queries)@,
                symbols: symbols@,
                paths: crate::prover::paths_view(paths@),
                prev: folded_symbols@,
                challenge,
            }).outcome(),
        ),
        r is Ok ==> final(current_queries)@.len() == old(current_queries)@.len() && r->Ok_0@.len()
            == old(current_queries)@.len(),
        r is Ok ==> forall|i: int|
            0 <= i < old(current_queries)@.len() ==> #[trigger] final(current_queries)@[i] == old(
                current_queries,
            )@[i] / 2,
{
    let ghost model = RoundOpenings {
        t: field.products@,
        row: ntt.rounds()[round as int],
        oracle: (oracle.root@, oracle.depth),
        round,
        ats: current_queries@,
        symbols: symbols@,
        paths: crate::prover::paths_view(paths@),
        prev: folded_symbols@,
        challenge,
    };
    let count = current_queries.len();
    if symbols.len() != count || paths.len() != count {
        return Err(Error::ShapeMismatch);
    }
    let mut folded: Vec<u128> = Vec::with_capacity(count);
    let mut i: usize = 0;
    while i < count
        invariant
            i <= count,
            field.wf(),
            round < ntt.evals@.len(),
            count == current_queries@.len(),
            model.ats == old(current_queries)@,
            count == model.ats.len(),
            symbols@.len() == count,
            paths@.len() == count,
            round > 0 ==> folded_symbols@.len() == count,
            model.t == field.products@,
            model.row == ntt.rounds()[round as int],
            model.oracle == (oracle.root@, oracle.depth),
            model.round == round,
            model.symbols == symbols@,
            model.paths == crate::prover::paths_view(paths@),
            model.prev == folded_symbols@,
            model.challenge == challenge,
            forall|m: int|
                0 <= m < count ==> (#[trigger] model.ats[m]) / 2 < ntt.evals@[round as int]@.len(),
            forall|m: int| 0 <= m < i ==> #[trigger] current_queries@[m] == model.ats[m] / 2,
            forall|m: int| i <= m < count ==> #[trigger] current_queries@[m] == model.ats[m],
            model.prefix(i as nat) == Ok::<Seq<u128>, Error>(folded@),
        decreases count - i,
    {
        let at = current_queries[i];
        assert(at == model.ats[i as int]);
        let prev = if round > 0 {
            folded_symbols[i]
        } else {
            0
        };
        assert(round > 0 ==> prev == model.prev[i as int]);
        let symbol = match check_opening(
            round,
            i,
            at,
            oracle,
            symbols[i],
            &paths[i],
            prev,
            challenge,
            ntt,
            field,
        ) {
            Ok(symbol) => symbol,
            Err(e) => {
                proof {
                    assert(model.check(i as int) == Err::<u128, Error>(e));
                    assert(model.prefix((i + 1) as nat) == Err::<Seq<u128>, Error>(e));
                    model.lemma_failure_stays((i + 1) as nat, count as nat);
                }
                return Err(e);
            },
        };
        assert(model.check(i as int) == Ok::<u128, Error>(symbol));
        current_queries[i] = at / 2;
        folded.push(symbol);
        i += 1;
    }
    proof {
        model.lemma_prefix_len(count as nat);
    }
    Ok(folded)
}


/// Whether every element of `folded` is `value`.
fn check_final(folded: &Vec<u128>, value: u128) -> (ok: bool)
    ensures
        ok == all_equal(folded@, value),
{
    let mut i: usize = 0;
    while i < folded.len()
        invariant
            i <= folded@.len(),
            forall|m: int| 0 <= m < i ==> folded@[m] == value,
        decreases folded@.len() - i,
    {
        if folded[i] != value {
            return false;
        }
        i += 1;
    }
    true
}

/// Runs the query phase of the verifier.
fn check_openings(
    commitment: &FriCommitment,
    proof: &EvalProof,
    rounds: usize,
    challenges: &Vec<u128>,
    ntt: &TwiddleTable,
    channel: &mut Channel,
    field: &BinaryField128,
) -> (r: Result<(), Error>)
    requires
        field.wf(),
        well_shaped(proof@, rounds as nat),
        challenges@.len() == rounds,
        rounds + 2 <= usize::MAX,
        two_pow((rounds + 2) as nat) <= usize::MAX ==> ntt.covers(
            0,
            two_pow((rounds + 2) as nat),
            rounds as nat,
        ),
    ensures
        r == openings_model(
            field.products@,
            ntt.rounds(),
            *commitment,
            proof@,
            rounds as nat,
            old(channel).state@,
            old(channel).round_idx as nat,
            challenges@,
        ),
        final(channel).state@ == old(channel).state@ + spec_u128_to_le_bytes(
            proof.final_folded_value,
        ),
        final(channel).round_idx == counter_after_queries(
            old(channel).round_idx as nat,
            rounds as nat,
        ),
{
    let ghost openings = openings_of(
        field.products@,
        ntt.rounds(),
        *commitment,
        proof@,
        rounds as nat,
        channel.state@,
        channel.round_idx as nat,
        challenges@,
    );
    let _ = channel.observe_field_elem(proof.final_folded_value);
    let mut current_queries = match channel.gen_queries(rounds + LOG_RATE) {
        Ok(drawn) => drawn,
        Err(e) => {
            return Err(e);
        },
    };
    assert(current_queries@ == openings.queries);
    assert(current_queries@ =~= openings.ats(0));
    proof {
        crate::utils::channel::lemma_queries_bound(
            old(channel).state@ + spec_u128_to_le_bytes(proof.final_folded_value),
            old(channel).round_idx,
            (rounds + 2) as nat,
        );
        openings.lemma_rounds_unfold(0);
    }
    let mut folded_symbols: Vec<u128> = Vec::new();
    let mut round: usize = 0;
    while round < rounds
        invariant
            round <= rounds,
            field.wf(),
            well_shaped(proof@, rounds as nat),
            challenges@.len() == rounds,
            two_pow((rounds + 2) as nat) <= usize::MAX,
            ntt.covers(0, two_pow((rounds + 2) as nat), rounds as nat),
            openings == openings_of(
                field.products@,
                ntt.rounds(),
                *commitment,
                proof@,
                rounds as nat,
                old(channel).state@,
                old(channel).round_idx as nat,
                challenges@,
            ),
            forall|i: int|
                0 <= i < openings.queries.len() ==> (#[trigger] openings.queries[i]) < two_pow(
                    (rounds + 2) as nat,
                ),
            current_queries@ == openings.ats(round as int),
            two_pow((rounds + 2) as nat) >= 144 ==> old(channel).round_idx + 144 <= usize::MAX,
            channel.state@ == old(channel).state@ + spec_u128_to_le_bytes(
                proof.final_folded_value,
            ),
            channel.round_idx == counter_after_queries(
                old(channel).round_idx as nat,
                rounds as nat,
            ),
            round > 0 ==> folded_symbols@.len() == openings.queries.len(),
            openings.rounds(round as nat) == Ok::<Seq<u128>, Error>(folded_symbols@),
        decreases rounds - round,
    {
        proof {
            ntt.lemma_covers_round(0, (rounds + 2) as nat, rounds as nat, round as nat);
            openings.lemma_rounds_unfold(round as nat);
            assert forall|i: int| 0 <= i < current_queries@.len() implies (
            #[trigger] current_queries@[i]) / 2 < ntt.evals@[round as int]@.len() by {
                assert(openings.queries[i] < two_pow((rounds + 2) as nat));
                crate::pow2::lemma_halved_bound(
                    openings.queries[i] as nat,
                    (rounds + 2) as nat,
                    (round + 1) as nat,
                );
            }
        }
        let oracle = if round == 0 {
            &commitment.vector_commitment
        } else {
            &proof.fri_oracles[round - 1]
        };
        let ghost before = current_queries@;
        let checked = check_round(
            round,
            oracle,
            &proof.fri_queried_symbols[round],
            &proof.fri_merkle_paths[round],
            &mut current_queries,
            &folded_symbols,
            challenges[round],
            ntt,
            field,
        );
        proof {
            let model = openings.of_round(round as int, folded_symbols@);
            assert(model.oracle == (oracle.root@, oracle.depth));
            assert(model.symbols == proof.fri_queried_symbols@[round as int]@);
            assert(model.paths == crate::prover::paths_view(
                proof.fri_merkle_paths@[round as int]@,
            ));
            assert(same_outcome(checked, model.outcome()));
        }
        folded_symbols = match checked {
            Ok(folded) => folded,
            Err(e) => {
                proof {
                    assert(openings.rounds((round + 1) as nat) == Err::<Seq<u128>, Error>(e));
                    openings.lemma_failure_stays((round + 1) as nat, rounds as nat);
                }
                return Err(e);
            },
        };
        proof {
            assert forall|i: int| 0 <= i < current_queries@.len() implies current_queries@[i]
                == openings.ats(round + 1)[i] by {
                assert(current_queries@[i] == before[i] / 2);
                assert(before[i] == openings.ats(round as int)[i]);
                crate::pow2::lemma_halved_le(openings.queries[i] as nat, round as nat);
                crate::pow2::lemma_halved_le(openings.queries[i] as nat, (round + 1) as nat);
                assert(halved(openings.queries[i] as nat, (round + 1) as nat) == halved(
                    openings.queries[i] as nat,
                    round as nat,
                ) / 2);
            }
            assert(current_queries@ =~= openings.ats(round + 1));
        }
        round += 1;
    }
    if !check_final(&folded_symbols, proof.final_folded_value) {
        return Err(Error::FinalValue);
    }
    Ok(())
}

/// Checks the proof `eval_proof` that the polynomial committed to by
/// `commitment` has the evaluation `eval` at the point `eval_point`.
pub fn verify(
    commitment: &FriCommitment,
    eval_point: &[u128],
    eval: u128,
    eval_proof: EvalProof,
    ntt: &TwiddleTable,
    channel: &mut Channel,
    field: &BinaryField128,
) -> (r: Result<(), Error>)
    requires
        field.wf(),
        eval_point@.len() >= 7,
        two_pow((eval_point@.len() - 5) as nat) <= usize::MAX ==> ntt.covers(
            0,
            two_pow((eval_point@.len() - 5) as nat),
            (eval_point@.len() - 7) as nat,
        ),
    ensures
        r == verify_model(
            field.products@,
            ntt.rounds(),
            *commitment,
            eval_point@,
            eval,
            eval_proof@,
            old(channel).state@,
            old(channel).round_idx as nat,
        ),
        (final(channel).state@, final(channel).round_idx as nat) == transcript_after_verifying(
            field.products@,
            *commitment,
            eval_point@,
            eval,
            eval_proof@,
            old(channel).state@,
            old(channel).round_idx as nat,
        ),
        r is Ok ==> final(channel).round_idx == old(channel).round_idx + challenges_drawn(
            (eval_point@.len() - 7) as nat,
        ),
{
    let ghost t = field.products@;
    let ghost bound = old(channel).state@ + statement_bytes(*commitment, eval_point@, eval);
    channel.observe_fri_commitment(commitment);
    let _ = channel.observe_field_elems(eval_point);
    let _ = channel.observe_field_elem(eval);
    assert(channel.state@ =~= bound);

    let (left, right) = eval_point.split_at(TAU);
    assert(left@ =~= eval_point@.take(7));
    proof {
        crate::pow2::lemma_two_pow_64();
    }
    if eval_proof.upper_partial_evals.len() != 128 {
        return Err(Error::ShapeMismatch);
    }
    let left_eq = compute_eq_table(left, field);
    let derived_eval = crate::utils::mle::compute_dot_product(
        left_eq.as_slice(),
        eval_proof.upper_partial_evals.as_slice(),
        field,
    );
    proof {
        crate::utils::mle::lemma_eq_fold_len(
            t,
            seq![1u128 ^ left@[0], left@[0]],
            left@.skip(1),
        );
        reveal_with_fuel(two_pow, 8);
    }
    if derived_eval != eval {
        return Err(Error::InitialClaim);
    }
    let tensor_batching_point = match channel.get_random_points(TAU) {
        Ok(point) => point,
        Err(e) => {
            return Err(e);
        },
    };
    let batching_eq = compute_eq_table(tensor_batching_point.as_slice(), field);
    let sum_check_claim = compute_row_batch(
        batching_eq.as_slice(),
        eval_proof.upper_partial_evals.as_slice(),
        field,
    );
    proof {
        let point = tensor_batching_point@;
        crate::utils::mle::lemma_eq_fold_len(t, seq![1u128 ^ point[0], point[0]], point.skip(1));
    }
    let rounds = eval_point.len() - TAU;
    if !check_shape(&eval_proof, rounds) {
        return Err(Error::ShapeMismatch);
    }
    let random_point = match sumcheck_phase(&eval_proof, rounds, sum_check_claim, channel, field) {
        Ok(challenges) => challenges,
        Err(e) => {
            return Err(e);
        },
    };
    check_openings(commitment, &eval_proof, rounds, &random_point, ntt, channel, field)
}


/// The table that the verifier builds for a point of at least one
/// coordinate is the table of the equality polynomial at that point.
pub proof fn lemma_seeded_eq_table(t: Seq<u128>, r: Seq<u128>)
    requires
        crate::field::valid_table(t),
        r.len() >= 1,
    ensures
        seeded_eq_table(t, r) == crate::utils::mle::eq_table(t, r),
{
    crate::utils::mle::lemma_eq_fold_first(t, seq![1u128], r);
    crate::field::lemma_product_one(t, r[0]);
    assert(crate::utils::mle::eq_extend(t, seq![1u128], r[0]) =~= seq![1u128 ^ r[0], r[0]]);
}


/// `x` after `n` steps, each of which adds to it its product with `r`.
pub open spec fn scaled(t: Seq<u128>, x: u128, r: u128, n: nat) -> u128
    decreases n,
{
    if n == 0 {
        x
    } else {
        scaled(t, x, r, (n - 1) as nat) ^ crate::field::product(
            t,
            scaled(t, x, r, (n - 1) as nat),
            r,
        )
    }
}

/// One step of the tower induction on the 128 elements `eval`: element
/// `i` takes 128 steps with `a`, the bit matrix is transposed, element
/// `i` takes 128 steps with `b`, and the bit matrix is transposed back.
pub open spec fn tower_step(t: Seq<u128>, eval: Seq<u128>, i: int, a: u128, b: u128) -> Seq<u128> {
    let rows = transposed(eval.update(i, scaled(t, eval[i], a, 128)));
    transposed(rows.update(i, scaled(t, rows[i], b, 128)))
}

/// The elements after the first `k` steps of the tower induction from the
/// element one followed by 127 zeros.
pub open spec fn tower_evals(t: Seq<u128>, r_init: Seq<u128>, r_sum: Seq<u128>, k: nat) -> Seq<u128>
    decreases k,
{
    if k == 0 {
        Seq::new(128, |j: int| if j == 0 { 1u128 } else { 0u128 })
    } else {
        tower_step(t, tower_evals(t, r_init, r_sum, (k - 1) as nat), k - 1, r_init[k - 1], r_sum[k - 1])
    }
}

/// Adds to `x`, 128 times, its product with `r`.
fn scale(x: u128, r: u128, field: &BinaryField128) -> (y: u128)
    requires
        field.wf(),
    ensures
        y == scaled(field.products@, x, r, 128),
{
    let mut y = x;
    let mut n: usize = 0;
    while n < 128
        invariant
            n <= 128,
            field.wf(),
            y == scaled(field.products@, x, r, n as nat),
        decreases 128 - n,
    {
        let temp = field.mul(y, r);
        y = y ^ temp;
        n += 1;
    }
    y
}

/// The row batch by `eq_batch` of the elements that the tower induction
/// on the points `r_init` and `r_sum` ends with.
pub fn compute_eq_tower_ind(
    r_init: &[u128],
    r_sum: &[u128],
    eq_batch: &[u128],
    field: &BinaryField128,
) -> (r: u128)
    requires
        field.wf(),
        r_init@.len() == r_sum@.len(),
        r_init@.len() <= 128,
    ensures
        r == dot(
            field.products@,
            eq_batch@,
            transposed(tower_evals(field.products@, r_init@, r_sum@, r_init@.len())),
            crate::utils::mle::shorter(eq_batch@.len(), 128),
        ),
{
    let ghost t = field.products@;
    let mut eval: Vec<u128> = Vec::with_capacity(128);
    let mut j: usize = 0;
    while j < 128
        invariant
            j <= 128,
            eval@.len() == j,
            forall|m: int| 0 <= m < j ==> eval@[m] == (if m == 0 { 1u128 } else { 0u128 }),
        decreases 128 - j,
    {
        eval.push(if j == 0 { 1u128 } else { 0u128 });
        j += 1;
    }
    assert(eval@ =~= tower_evals(t, r_init@, r_sum@, 0));
    let mut i: usize = 0;
    while i < r_init.len()
        invariant
            i <= r_init@.len(),
            r_init@.len() == r_sum@.len(),
            r_init@.len() <= 128,
            field.wf(),
            t == field.products@,
            eval@.len() == 128,
            eval@ == tower_evals(t, r_init@, r_sum@, i as nat),
        decreases r_init@.len() - i,
    {
        let ghost before = eval@;
        let first = scale(eval[i], r_init[i], field);
        eval[i] = first;
        let mut rows = crate::utils::mle::switch_view(eval.as_slice());
        let second = scale(rows[i], r_sum[i], field);
        rows[i] = second;
        eval = crate::utils::mle::switch_view(rows.as_slice());
        assert(eval@ == tower_step(t, before, i as int, r_init@[i as int], r_sum@[i as int]));
        i += 1;
    }
    compute_row_batch(eq_batch, eval.as_slice(), field)
}

} // verus!
