//! Completeness: what the verifier finds in a proof that the prover made.

use crate::codewords::{encodes, lemma_encoding_folds_to_constant};
use crate::error::Error;
use crate::field::{
    associative, associative_on_basis, lemma_associate, lemma_associative, product, select,
    valid_table,
};
use crate::pow2::{halved, two_pow};
use crate::prover::{
    challenges_drawn, final_queries, lemma_round_poly_sums, lemma_state_after_shape,
    lemma_state_after_unfold, next_state, opened_pair, oracle_depth, oracle_root, partial_evals,
    proof_model, round_layers, start_state, state_after, state_challenge, state_poly, state_shape,
    statement_bytes, FriCommitment, ProofModel, RoundState,
};
use crate::sums::{lemma_sum_by_rows, lemma_sum_of_equals, lemma_sum_of_products, xor_sum};
use crate::utils::channel::{challenges_at, lemma_queries_bound};
use crate::utils::code::folded_code;
use crate::utils::merkle::{
    is_tree, leaf_digest, leaf_layer, lemma_merkle_round_trip, lemma_tree_layers,
    lemma_tree_of_leaves, merkle_path,
};
use crate::utils::mle::{
    dot, eq_fold, eq_table, lemma_eq_fold_len, lemma_repacked_len, PackedMLE,
};
use crate::verification::{
    all_equal, lemma_seeded_eq_table, lemma_sumcheck_unfold, openings_model, openings_of,
    query_check, sumcheck_round, sumcheck_run, verifier_start, verify_model, well_shaped,
    Openings, RoundOpenings, VerifierState,
};
use vstd::prelude::*;

verus! {

/// The challenges of the first `k` rounds from the state `start`.
pub open spec fn round_challenges(
    t: Seq<u128>,
    twiddles: Seq<Seq<u128>>,
    start: RoundState,
    k: nat,
) -> Seq<u128> {
    Seq::new(k, |j: int| state_challenge(t, state_after(t, twiddles, start, j as nat)))
}

/// What the verifier holds after `k` rounds in which it saw what the
/// prover sent from the state `start`: the transcript and the claim of
/// the prover, and the challenges of the rounds.
pub open spec fn mirrored(t: Seq<u128>, twiddles: Seq<Seq<u128>>, start: RoundState, k: nat)
    -> VerifierState {
    let s = state_after(t, twiddles, start, k);
    VerifierState {
        absorbed: s.absorbed,
        counter: s.counter,
        claim: s.claim,
        challenges: round_challenges(t, twiddles, start, k),
    }
}

/// A proof that the prover made has the lengths that the verifier asks for.
pub proof fn lemma_honest_shape(
    t: Seq<u128>,
    twiddles: Seq<Seq<u128>>,
    mle: PackedMLE,
    point: Seq<u128>,
    encoding: Seq<u128>,
    base: Seq<Seq<Seq<u8>>>,
    absorbed: Seq<u8>,
    counter: nat,
)
    requires
        point.len() >= 7,
    ensures
        well_shaped(
            proof_model(t, twiddles, mle, point, encoding, base, absorbed, counter),
            (point.len() - 7) as nat,
        ),
        proof_model(
            t,
            twiddles,
            mle,
            point,
            encoding,
            base,
            absorbed,
            counter,
        ).upper_partial_evals.len() == 128,
{
    reveal(proof_model);
}

/// The verifier, shown the oracles and the commitments that the prover
/// sent in the first `k` rounds, accepts each oracle and ends with the
/// transcript, the claim and the challenges of the prover.
pub proof fn lemma_honest_rounds(
    t: Seq<u128>,
    twiddles: Seq<Seq<u128>>,
    proof: ProofModel,
    start: RoundState,
    begin: VerifierState,
    rounds: nat,
    k: nat,
)
    requires
        valid_table(t),
        k <= rounds,
        start.counter + rounds <= usize::MAX,
        begin == mirrored(t, twiddles, start, 0),
        proof.sum_check_oracles.len() == rounds,
        proof.fri_oracles.len() == rounds,
        forall|j: int|
            0 <= j < rounds ==> #[trigger] proof.sum_check_oracles[j] == state_poly(
                t,
                state_after(t, twiddles, start, j as nat),
            ),
        forall|j: int|
            0 <= j < rounds ==> #[trigger] proof.fri_oracles[j] == (
                oracle_root(state_after(t, twiddles, start, (j + 1) as nat).code),
                oracle_depth(state_after(t, twiddles, start, (j + 1) as nat).code),
            ),
    ensures
        sumcheck_run(t, proof, begin, k) == Ok::<VerifierState, Error>(
            mirrored(t, twiddles, start, k),
        ),
        state_after(t, twiddles, start, k).counter == start.counter + k,
    decreases k,
{
    lemma_sumcheck_unfold(t, proof, begin, (k - 1) as nat);
    lemma_state_after_unfold(t, twiddles, start, (k - 1) as nat);
    if k > 0 {
        let j = (k - 1) as nat;
        lemma_honest_rounds(t, twiddles, proof, start, begin, rounds, j);
        let s = state_after(t, twiddles, start, j);
        let v = mirrored(t, twiddles, start, j);
        let next = next_state(t, twiddles[j as int], s);
        assert(proof.sum_check_oracles[j as int] == state_poly(t, s));
        assert(proof.fri_oracles[j as int] == (oracle_root(next.code), oracle_depth(next.code)));
        lemma_round_poly_sums(t, s.mle, s.eq, s.claim);
        let after = sumcheck_round(t, proof, v, j as int);
        assert(after is Ok);
        assert(after->Ok_0.challenges =~= round_challenges(t, twiddles, start, k));
        assert(after->Ok_0.absorbed == next.absorbed);
        assert(after->Ok_0 == mirrored(t, twiddles, start, k));
    } else {
        assert(round_challenges(t, twiddles, start, 0) =~= Seq::<u128>::empty());
    }
}

/// The verifier accepts every sum-check oracle of a proof that the prover
/// made for the same statement from the same transcript, and is left
/// with the transcript and the challenges of the prover.
pub proof fn lemma_honest_sumcheck(
    t: Seq<u128>,
    twiddles: Seq<Seq<u128>>,
    mle: PackedMLE,
    point: Seq<u128>,
    eval: u128,
    encoding: Seq<u128>,
    commitment: FriCommitment,
    base: Seq<Seq<Seq<u8>>>,
    absorbed: Seq<u8>,
    counter: nat,
)
    requires
        valid_table(t),
        point.len() >= 7,
        counter + 7 + (point.len() - 7) <= usize::MAX,
    ensures
        ({
            let rounds = (point.len() - 7) as nat;
            let bound = absorbed + statement_bytes(commitment, point, eval);
            let proof = proof_model(t, twiddles, mle, point, encoding, base, bound, counter);
            let start = start_state(t, mle, point, encoding, bound, counter);
            sumcheck_run(
                t,
                proof,
                verifier_start(t, commitment, point, eval, proof, absorbed, counter),
                rounds,
            ) == Ok::<VerifierState, Error>(mirrored(t, twiddles, start, rounds))
        }),
{
    let rounds = (point.len() - 7) as nat;
    let bound = absorbed + statement_bytes(commitment, point, eval);
    let proof = proof_model(t, twiddles, mle, point, encoding, base, bound, counter);
    let start = start_state(t, mle, point, encoding, bound, counter);
    let begin = verifier_start(t, commitment, point, eval, proof, absorbed, counter);
    reveal(proof_model);
    lemma_state_after_unfold(t, twiddles, start, 0);
    lemma_seeded_eq_table(t, challenges_at(bound, counter as usize, 7));
    assert(round_challenges(t, twiddles, start, 0) =~= Seq::<u128>::empty());
    assert(begin == mirrored(t, twiddles, start, 0));
    lemma_honest_rounds(t, twiddles, proof, start, begin, rounds, rounds);
}


/// An opening that the prover made passes its check. Where the pair of
/// the leaf `at / 2` of the code `code` is opened with its path in the
/// tree `layers` over the code, against the root and the depth of that
/// tree, and where, after round 0, the fold of the round before is the
/// symbol of index `at` of the code, the check gives the symbol of index
/// `at / 2` of the code folded at the challenge `r`.
pub proof fn lemma_opening_passes(
    t: Seq<u128>,
    row: Seq<u128>,
    code: Seq<u128>,
    layers: Seq<Seq<Seq<u8>>>,
    round: usize,
    query: usize,
    at: usize,
    prev: u128,
    r: u128,
)
    requires
        is_tree(layers),
        layers.last() == leaf_layer(code),
        layers.len() - 1 <= usize::MAX,
        at < code.len(),
        code.len() % 2 == 0,
        round > 0 ==> prev == code[at as int],
    ensures
        query_check(
            t,
            row,
            layers[0][0],
            (layers.len() - 1) as usize,
            round,
            query,
            at,
            opened_pair(code, (at / 2) as nat),
            merkle_path(layers, (at / 2) as nat),
            prev,
            r,
        ) == Ok::<u128, Error>(folded_code(t, row, code, r)[(at / 2) as int]),
{
    let leaf = (at / 2) as usize;
    assert(leaf < leaf_layer(code).len());
    lemma_merkle_round_trip(layers, leaf);
    assert(layers.last()[leaf as int] == leaf_digest(code[2 * leaf], code[2 * leaf + 1]));
}


/// The openings `round` are those that the prover made in one round from
/// the code `code` and the tree `layers` over it.
pub open spec fn honest_round(round: RoundOpenings, code: Seq<u128>, layers: Seq<Seq<Seq<u8>>>)
    -> bool {
    &&& is_tree(layers)
    &&& layers.last() == leaf_layer(code)
    &&& layers.len() - 1 <= usize::MAX
    &&& code.len() % 2 == 0
    &&& round.oracle == (layers[0][0], (layers.len() - 1) as usize)
    &&& round.symbols.len() == round.ats.len()
    &&& round.paths.len() == round.ats.len()
    &&& forall|i: int| 0 <= i < round.ats.len() ==> #[trigger] honest_opening(round, code, layers, i)
}

/// The opening number `i` of `round` is the one that the prover made.
pub open spec fn honest_opening(
    round: RoundOpenings,
    code: Seq<u128>,
    layers: Seq<Seq<Seq<u8>>>,
    i: int,
) -> bool {
    &&& round.ats[i] < code.len()
    &&& round.symbols[i] == opened_pair(code, (round.ats[i] / 2) as nat)
    &&& round.paths[i] == merkle_path(layers, (round.ats[i] / 2) as nat)
    &&& round.round > 0 ==> round.prev[i] == code[round.ats[i] as int]
}

/// The symbols that the openings of a round fold to: for each query, the
/// symbol of the folded code under the leaf opened.
pub open spec fn folded_at(round: RoundOpenings, code: Seq<u128>, n: nat) -> Seq<u128> {
    Seq::new(
        n,
        |i: int| folded_code(round.t, round.row, code, round.challenge)[(round.ats[i] / 2) as int],
    )
}

/// Every opening of a round that the prover made passes its check.
pub proof fn lemma_honest_round(
    round: RoundOpenings,
    code: Seq<u128>,
    layers: Seq<Seq<Seq<u8>>>,
    n: nat,
)
    requires
        honest_round(round, code, layers),
        n <= round.ats.len(),
    ensures
        round.prefix(n) == Ok::<Seq<u128>, Error>(folded_at(round, code, n)),
    decreases n,
{
    if n == 0 {
        assert(folded_at(round, code, 0) =~= Seq::<u128>::empty());
    } else {
        let i = (n - 1) as int;
        lemma_honest_round(round, code, layers, (n - 1) as nat);
        assert(honest_opening(round, code, layers, i));
        lemma_opening_passes(
            round.t,
            round.row,
            code,
            layers,
            round.round,
            i as usize,
            round.ats[i],
            round.prev[i],
            round.challenge,
        );
        assert(folded_at(round, code, (n - 1) as nat).push(
            folded_code(round.t, round.row, code, round.challenge)[(round.ats[i] / 2) as int],
        ) =~= folded_at(round, code, n));
    }
}

/// For each query, the symbol of the code after `k` rounds that the query
/// has come to; nothing before the first round.
pub open spec fn reached(
    t: Seq<u128>,
    twiddles: Seq<Seq<u128>>,
    start: RoundState,
    queries: Seq<usize>,
    k: nat,
) -> Seq<u128> {
    if k == 0 {
        Seq::empty()
    } else {
        Seq::new(
            queries.len(),
            |i: int| state_after(t, twiddles, start, k).code[halved(queries[i] as nat, k) as int],
        )
    }
}

/// The openings are those that the prover made from the state `start`
/// with the tree `base` over the encoding, for the given queries.
pub open spec fn honest_openings(
    o: Openings,
    start: RoundState,
    base: Seq<Seq<Seq<u8>>>,
    rounds: nat,
) -> bool {
    &&& state_shape(start, rounds)
    &&& two_pow(rounds + 2) <= usize::MAX
    &&& is_tree(base)
    &&& base.last() == leaf_layer(start.code)
    &&& o.base == (base[0][0], (base.len() - 1) as usize)
    &&& o.challenges == round_challenges(o.t, o.twiddles, start, rounds)
    &&& forall|i: int|
        0 <= i < o.queries.len() ==> (#[trigger] o.queries[i]) < two_pow(rounds + 2)
    &&& o.oracles.len() == rounds
    &&& o.symbols.len() == rounds
    &&& o.paths.len() == rounds
    &&& forall|j: int| 0 <= j < rounds ==> #[trigger] honest_in_round(o, start, base, j)
}

/// What the openings hold for the round `j` is what the prover made in that round.
pub open spec fn honest_in_round(o: Openings, start: RoundState, base: Seq<Seq<Seq<u8>>>, j: int)
    -> bool {
    let code = state_after(o.t, o.twiddles, start, j as nat).code;
    let next = state_after(o.t, o.twiddles, start, (j + 1) as nat).code;
    &&& o.oracles[j] == (oracle_root(next), oracle_depth(next))
    &&& o.symbols[j] == Seq::new(
        o.queries.len(),
        |i: int| opened_pair(code, halved(o.queries[i] as nat, (j + 1) as nat)),
    )
    &&& o.paths[j] == Seq::new(
        o.queries.len(),
        |i: int|
            merkle_path(
                round_layers(base, code, j as nat),
                halved(o.queries[i] as nat, (j + 1) as nat),
            ),
    )
}

/// In each round the verifier opens the code that the prover folded: the
/// openings of the round `j` are honest for the code after `j` rounds.
proof fn lemma_round_is_honest(
    o: Openings,
    start: RoundState,
    base: Seq<Seq<Seq<u8>>>,
    rounds: nat,
    j: nat,
)
    requires
        honest_openings(o, start, base, rounds),
        j < rounds,
    ensures
        honest_round(
            o.of_round(j as int, reached(o.t, o.twiddles, start, o.queries, j)),
            state_after(o.t, o.twiddles, start, j).code,
            round_layers(base, state_after(o.t, o.twiddles, start, j).code, j),
        ),
        state_after(o.t, o.twiddles, start, j + 1).code == folded_code(
            o.t,
            o.twiddles[j as int],
            state_after(o.t, o.twiddles, start, j).code,
            o.challenges[j as int],
        ),
{
    let t = o.t;
    let twiddles = o.twiddles;
    let s = state_after(t, twiddles, start, j);
    let code = s.code;
    let layers = round_layers(base, code, j);
    let round = o.of_round(j as int, reached(t, twiddles, start, o.queries, j));
    let left = (rounds - j) as nat;
    lemma_state_after_shape(t, twiddles, start, rounds, j);
    lemma_state_after_unfold(t, twiddles, start, j);
    crate::pow2::lemma_two_pow_add(left, 2);
    crate::pow2::lemma_two_pow_add(left, 1);
    assert(two_pow(2) == 4 && two_pow(1) == 2) by {
        reveal_with_fuel(two_pow, 3);
    }
    assert(code.len() == two_pow(left + 2));
    let leaves = leaf_layer(code);
    assert(leaves.len() == two_pow(left + 1));
    crate::pow2::lemma_two_pow_is_pow2(left + 1);
    crate::pow2::lemma_two_pow_is_pow2(left + 2);
    crate::pow2::lemma_two_pow_monotonic(left + 1, rounds + 2);
    crate::pow2::lemma_two_pow_64();
    if left + 1 >= 64 {
        crate::pow2::lemma_two_pow_monotonic(64, left + 1);
    }
    assert(honest_in_round(o, start, base, j as int));
    if j == 0 {
        lemma_state_after_unfold(t, twiddles, start, 0);
        lemma_tree_of_leaves(base);
    } else {
        lemma_tree_layers(leaves);
        assert(honest_in_round(o, start, base, j - 1));
    }
    assert(round.oracle == (layers[0][0], (layers.len() - 1) as usize));
    assert forall|i: int| 0 <= i < round.ats.len() implies #[trigger] honest_opening(
        round,
        code,
        layers,
        i,
    ) by {
        let q = o.queries[i] as nat;
        assert(o.queries[i] < two_pow(rounds + 2));
        crate::pow2::lemma_halved_bound(q, rounds + 2, j);
        crate::pow2::lemma_halved_le(q, j);
        assert(halved(q, j + 1) == halved(q, j) / 2);
        assert(round.ats[i] == halved(q, j));
    }
}

/// The checks of the first `k` rounds pass on the openings that the
/// prover made, and leave, for each query, the symbol that it has come to.
pub proof fn lemma_honest_openings(
    o: Openings,
    start: RoundState,
    base: Seq<Seq<Seq<u8>>>,
    rounds: nat,
    k: nat,
)
    requires
        honest_openings(o, start, base, rounds),
        k <= rounds,
    ensures
        o.rounds(k) == Ok::<Seq<u128>, Error>(reached(o.t, o.twiddles, start, o.queries, k)),
    decreases k,
{
    o.lemma_rounds_unfold((k - 1) as nat);
    if k > 0 {
        let j = (k - 1) as nat;
        let t = o.t;
        let twiddles = o.twiddles;
        lemma_honest_openings(o, start, base, rounds, j);
        lemma_round_is_honest(o, start, base, rounds, j);
        let prev = reached(t, twiddles, start, o.queries, j);
        let code = state_after(t, twiddles, start, j).code;
        let round = o.of_round(j as int, prev);
        lemma_honest_round(round, code, round_layers(base, code, j), o.queries.len());
        assert forall|i: int| 0 <= i < o.queries.len() implies folded_at(
            round,
            code,
            o.queries.len(),
        )[i] == reached(t, twiddles, start, o.queries, k)[i] by {
            let q = o.queries[i] as nat;
            crate::pow2::lemma_halved_le(q, j);
            assert(halved(q, k) == halved(q, j) / 2);
            assert(round.ats[i] == halved(q, j));
        }
        assert(folded_at(round, code, o.queries.len()) =~= reached(
            t,
            twiddles,
            start,
            o.queries,
            k,
        ));
    }
}


/// The code with which the commit phase starts in the state `start` is
/// folded, in `rounds` rounds, to a code whose first four symbols are equal.
pub open spec fn folds_to_constant(
    t: Seq<u128>,
    twiddles: Seq<Seq<u128>>,
    start: RoundState,
    rounds: nat,
) -> bool {
    forall|i: int|
        0 <= i < 4 ==> #[trigger] state_after(t, twiddles, start, rounds).code[i] == state_after(
            t,
            twiddles,
            start,
            rounds,
        ).code[0]
}

/// The commit phase starts with a polynomial and an equality table of two
/// to the power of the number of rounds entries, and a code of four times
/// as many symbols.
pub proof fn lemma_start_shape(
    t: Seq<u128>,
    mle: PackedMLE,
    point: Seq<u128>,
    encoding: Seq<u128>,
    absorbed: Seq<u8>,
    counter: nat,
)
    requires
        mle.wf(),
        mle.packing_factor == mle.tower_level,
        mle.variables >= 7,
        point.len() == mle.variables,
        encoding.len() == 4 * two_pow((point.len() - 7) as nat),
    ensures
        state_shape(
            start_state(t, mle, point, encoding, absorbed, counter),
            (point.len() - 7) as nat,
        ),
{
    let rounds = (point.len() - 7) as nat;
    lemma_repacked_len(mle.coeffs@.len(), mle.tower_level as nat);
    lemma_eq_fold_len(t, seq![1u128], point.skip(7));
    assert(1 * two_pow(rounds) == two_pow(rounds));
}

/// Completeness. Let the commitment be the one to the encoding, let the
/// claimed evaluation be the evaluation of the polynomial at the point,
/// which is the sum over the cube of the low seven variables of the
/// products of the equality table of the low coordinates and the partial
/// evaluations, and let the encoding be one that the folds of all rounds
/// take to a code of four equal symbols. Then the proof that the prover
/// makes from a transcript is accepted by the verifier from the same
/// transcript.
pub proof fn lemma_honest_proof_is_accepted(
    t: Seq<u128>,
    twiddles: Seq<Seq<u128>>,
    mle: PackedMLE,
    point: Seq<u128>,
    eval: u128,
    encoding: Seq<u128>,
    commitment: FriCommitment,
    base: Seq<Seq<Seq<u8>>>,
    absorbed: Seq<u8>,
    counter: nat,
)
    requires
        valid_table(t),
        mle.wf(),
        mle.packing_factor == mle.tower_level,
        mle.variables >= 7,
        point.len() == mle.variables,
        encoding.len() == 4 * two_pow((point.len() - 7) as nat),
        two_pow((point.len() - 5) as nat) <= usize::MAX,
        counter + challenges_drawn((point.len() - 7) as nat) <= usize::MAX,
        is_tree(base),
        base.last() == leaf_layer(encoding),
        commitment.vector_commitment.root@ == base[0][0],
        commitment.vector_commitment.depth == base.len() - 1,
        dot(
            t,
            eq_table(t, point.take(7)),
            partial_evals(mle, eq_table(t, point.skip(7))),
            128,
        ) == eval,
        folds_to_constant(
            t,
            twiddles,
            start_state(
                t,
                mle,
                point,
                encoding,
                absorbed + statement_bytes(commitment, point, eval),
                counter,
            ),
            (point.len() - 7) as nat,
        ),
    ensures
        verify_model(
            t,
            twiddles,
            commitment,
            point,
            eval,
            proof_model(
                t,
                twiddles,
                mle,
                point,
                encoding,
                base,
                absorbed + statement_bytes(commitment, point, eval),
                counter,
            ),
            absorbed,
            counter,
        ) == Ok::<(), Error>(()),
{
    let rounds = (point.len() - 7) as nat;
    let bound = absorbed + statement_bytes(commitment, point, eval);
    let proof = proof_model(t, twiddles, mle, point, encoding, base, bound, counter);
    let start = start_state(t, mle, point, encoding, bound, counter);
    let last = state_after(t, twiddles, start, rounds);
    lemma_honest_shape(t, twiddles, mle, point, encoding, base, bound, counter);
    lemma_honest_sumcheck(
        t,
        twiddles,
        mle,
        point,
        eval,
        encoding,
        commitment,
        base,
        absorbed,
        counter,
    );
    lemma_seeded_eq_table(t, point.take(7));
    reveal(proof_model);
    lemma_start_shape(t, mle, point, encoding, bound, counter);
    lemma_state_after_shape(t, twiddles, start, rounds, rounds);
    // The openings are those of the prover.
    let o = openings_of(
        t,
        twiddles,
        commitment,
        proof,
        rounds,
        last.absorbed,
        last.counter,
        round_challenges(t, twiddles, start, rounds),
    );
    assert(o.queries == final_queries(last, rounds));
    lemma_queries_bound(
        last.absorbed + vstd::bytes::spec_u128_to_le_bytes(last.code[0]),
        last.counter as usize,
        rounds + 2,
    );
    lemma_tree_of_leaves(base);
    assert forall|j: int| 0 <= j < rounds implies #[trigger] honest_in_round(o, start, base, j) by {
        assert(o.symbols[j] == proof.fri_queried_symbols[j]);
        assert(o.paths[j] == proof.fri_merkle_paths[j]);
        assert(o.oracles[j] == proof.fri_oracles[j]);
    }
    assert(honest_openings(o, start, base, rounds));
    lemma_honest_openings(o, start, base, rounds, rounds);
    let folded = reached(t, twiddles, start, o.queries, rounds);
    assert(all_equal(folded, proof.final_folded_value)) by {
        assert forall|i: int| 0 <= i < folded.len() implies folded[i]
            == proof.final_folded_value by {
            let q = o.queries[i] as nat;
            assert(o.queries[i] < two_pow(rounds + 2));
            crate::pow2::lemma_halved_bound(q, rounds + 2, rounds);
            assert(two_pow(2) == 4) by {
                reveal_with_fuel(two_pow, 3);
            }
            let at = halved(q, rounds) as int;
            assert(last.code[at] == last.code[0]);
        }
    }
    assert(openings_model(
        t,
        twiddles,
        commitment,
        proof,
        rounds,
        last.absorbed,
        last.counter,
        round_challenges(t, twiddles, start, rounds),
    ) == Ok::<(), Error>(()));
}

/// The value of the polynomial `mle` at the point whose equality table is
/// `table`: the sum of the entries of the table at the points of the cube
/// at which the polynomial is one.
pub open spec fn evaluation(mle: PackedMLE, table: Seq<u128>) -> u128 {
    mle.strided_sum(table, 0, 1, table.len())
}

/// Extending a table by the coordinates `a` and then `b` is extending it
/// by `a` and then extending the result by `b`.
pub proof fn lemma_eq_fold_concat(t: Seq<u128>, start: Seq<u128>, a: Seq<u128>, b: Seq<u128>)
    ensures
        eq_fold(t, start, a + b) == eq_fold(t, eq_fold(t, start, a), b),
    decreases b.len(),
{
    if b.len() == 0 {
        assert(a + b =~= a);
    } else {
        lemma_eq_fold_concat(t, start, a, b.drop_last());
        assert((a + b).drop_last() =~= a + b.drop_last());
        assert((a + b).last() == b.last());
    }
}

/// The table `s` extended by the coordinates `pt` is the tensor product
/// of `s` and the equality table of `pt`: the entry of index `i + n j`,
/// for `n` the length of `s`, is the product of entry `i` of `s` and
/// entry `j` of the table of `pt`.
pub proof fn lemma_eq_tensor(t: Seq<u128>, s: Seq<u128>, pt: Seq<u128>, i: int, j: int)
    requires
        valid_table(t),
        associative(t),
        0 <= i < s.len(),
        0 <= j < two_pow(pt.len()),
    ensures
        eq_fold(t, s, pt).len() == s.len() * two_pow(pt.len()),
        eq_table(t, pt).len() == two_pow(pt.len()),
        0 <= i + s.len() * j < s.len() * two_pow(pt.len()),
        eq_fold(t, s, pt)[i + s.len() * j] == product(t, s[i], eq_table(t, pt)[j]),
    decreases pt.len(),
{
    let n = s.len();
    lemma_eq_fold_len(t, s, pt);
    lemma_eq_fold_len(t, seq![1u128], pt);
    assert(1 * two_pow(pt.len()) == two_pow(pt.len()));
    crate::pow2::lemma_join_index(j as nat, i as nat, two_pow(pt.len()), n);
    assert(n * j == j * n) by (nonlinear_arith);
    assert(n * two_pow(pt.len()) == two_pow(pt.len()) * n) by (nonlinear_arith);
    if pt.len() == 0 {
        assert(two_pow(0) == 1);
        assert(n * 0 == 0);
        crate::field::lemma_product_one(t, s[i]);
    } else {
        let rest = pt.drop_last();
        let r = pt.last();
        let h = two_pow(rest.len());
        let below = eq_fold(t, s, rest);
        let table = eq_table(t, rest);
        lemma_eq_fold_len(t, s, rest);
        lemma_eq_fold_len(t, seq![1u128], rest);
        assert(1 * h == h);
        assert(two_pow(pt.len()) == 2 * h);
        let m = n * h;
        if j < h {
            lemma_eq_tensor(t, s, rest, i, j);
            let x = i + n * j;
            let y = product(t, s[i], table[j]);
            assert(below[x] == y);
            lemma_associate(t, s[i], table[j], r);
            crate::field::lemma_product_additive_right(t, s[i], table[j], product(t, table[j], r));
        } else {
            lemma_eq_tensor(t, s, rest, i, j - h);
            assert(n * j == n * (j - h) + n * h) by (nonlinear_arith);
            let x = i + n * (j - h);
            let y = product(t, s[i], table[j - h]);
            assert(below[x] == y);
            lemma_associate(t, s[i], table[j - h], r);
        }
    }
}

/// The sum over `s < n` of the entries `eq[s]` at which the polynomial is
/// one at the point `base + s * step`, as a sum of a function of `s`.
pub proof fn lemma_strided_sum(
    mle: PackedMLE,
    eq: Seq<u128>,
    base: nat,
    step: nat,
    n: nat,
    f: spec_fn(int) -> u128,
)
    requires
        forall|s: int|
            0 <= s < n ==> #[trigger] f(s) == select(
                mle.bit_at((base + s * step) as nat),
                eq[s],
            ),
    ensures
        mle.strided_sum(eq, base, step, n) == xor_sum(f, n),
    decreases n,
{
    if n > 0 {
        lemma_strided_sum(mle, eq, base, step, (n - 1) as nat, f);
        assert(f(n - 1) == select(mle.bit_at((base + (n - 1) * step) as nat), eq[n - 1]));
    }
}

/// The sum of the products of the first `n` entries of `a` and `b`, as a
/// sum of a function of the index.
pub proof fn lemma_dot_sum(
    t: Seq<u128>,
    a: Seq<u128>,
    b: Seq<u128>,
    n: nat,
    f: spec_fn(int) -> u128,
)
    requires
        forall|i: int| 0 <= i < n ==> #[trigger] f(i) == product(t, a[i], b[i]),
    ensures
        dot(t, a, b, n) == xor_sum(f, n),
    decreases n,
{
    if n > 0 {
        lemma_dot_sum(t, a, b, (n - 1) as nat, f);
        assert(f(n - 1) == product(t, a[n - 1], b[n - 1]));
    }
}

/// In an associative field, the evaluation of a polynomial at a point is
/// the sum, over the cube of the low seven variables, of the products of
/// the equality table of the low seven coordinates and the partial
/// evaluations with the other variables bound: the sum that the
/// verifier compares with the claimed evaluation.
pub proof fn lemma_evaluation_in_tensor_form(t: Seq<u128>, mle: PackedMLE, point: Seq<u128>)
    requires
        valid_table(t),
        associative(t),
        mle.variables >= 7,
        point.len() == mle.variables,
    ensures
        evaluation(mle, eq_table(t, point)) == dot(
            t,
            eq_table(t, point.take(7)),
            partial_evals(mle, eq_table(t, point.skip(7))),
            128,
        ),
{
    let left = point.take(7);
    let right = point.skip(7);
    let low = eq_table(t, left);
    let high = eq_table(t, right);
    let full = eq_table(t, point);
    let partial = partial_evals(mle, high);
    let m = two_pow(right.len());
    assert(point =~= left + right);
    lemma_eq_fold_concat(t, seq![1u128], left, right);
    assert(full == eq_fold(t, low, right));
    lemma_eq_fold_len(t, seq![1u128], left);
    lemma_eq_fold_len(t, low, right);
    crate::pow2::lemma_two_pow_64();
    assert(low.len() == 128);
    assert(full.len() == 128 * m);
    let terms = |x: int| select(mle.bit_at(x as nat), full[x]);
    let rows = |i: int| xor_sum(|j: int| terms(i + 128 * j), m);
    let products = |i: int| product(t, low[i], partial[i]);
    lemma_strided_sum(mle, full, 0, 1, full.len(), terms);
    assert(rows == (|i: int| xor_sum(|j: int| terms(i + 128 * j), m)));
    lemma_sum_by_rows(terms, rows, 128, m);
    assert forall|i: int| 0 <= i < 128 implies #[trigger] rows(i) == products(i) by {
        let inner = |j: int| terms(i + 128 * j);
        let bits = |j: int| select(mle.bit_at((i + j * 128) as nat), high[j]);
        assert forall|j: int| 0 <= j < m implies #[trigger] inner(j) == product(
            t,
            low[i],
            bits(j),
        ) by {
            lemma_eq_tensor(t, low, right, i, j);
            crate::field::lemma_product_zero(t, low[i]);
        }
        lemma_sum_of_products(t, low[i], inner, bits, m);
        lemma_strided_sum(mle, high, i as nat, 128, m, bits);
        assert(partial[i] == mle.strided_sum(high, i as nat, 128, m));
    }
    lemma_sum_of_equals(rows, products, 128);
    lemma_dot_sum(t, low, partial, 128, products);
}

/// Completeness for evaluations. In a field whose multiplication is
/// associative on the basis, let the
/// commitment be the one to the encoding, let the claimed evaluation be
/// the evaluation of the polynomial at the point, and let the encoding be
/// one that the folds of all rounds take to a code of four equal symbols.
/// Then the proof that the prover makes from a transcript is accepted by
/// the verifier from the same transcript.
pub proof fn lemma_evaluation_proof_is_accepted(
    t: Seq<u128>,
    twiddles: Seq<Seq<u128>>,
    mle: PackedMLE,
    point: Seq<u128>,
    encoding: Seq<u128>,
    commitment: FriCommitment,
    base: Seq<Seq<Seq<u8>>>,
    absorbed: Seq<u8>,
    counter: nat,
)
    requires
        valid_table(t),
        associative_on_basis(t),
        mle.wf(),
        mle.packing_factor == mle.tower_level,
        mle.variables >= 7,
        point.len() == mle.variables,
        encoding.len() == 4 * two_pow((point.len() - 7) as nat),
        two_pow((point.len() - 5) as nat) <= usize::MAX,
        counter + challenges_drawn((point.len() - 7) as nat) <= usize::MAX,
        is_tree(base),
        base.last() == leaf_layer(encoding),
        commitment.vector_commitment.root@ == base[0][0],
        commitment.vector_commitment.depth == base.len() - 1,
        folds_to_constant(
            t,
            twiddles,
            start_state(
                t,
                mle,
                point,
                encoding,
                absorbed + statement_bytes(
                    commitment,
                    point,
                    evaluation(mle, eq_table(t, point)),
                ),
                counter,
            ),
            (point.len() - 7) as nat,
        ),
    ensures
        verify_model(
            t,
            twiddles,
            commitment,
            point,
            evaluation(mle, eq_table(t, point)),
            proof_model(
                t,
                twiddles,
                mle,
                point,
                encoding,
                base,
                absorbed + statement_bytes(
                    commitment,
                    point,
                    evaluation(mle, eq_table(t, point)),
                ),
                counter,
            ),
            absorbed,
            counter,
        ) == Ok::<(), Error>(()),
{
    lemma_associative(t);
    lemma_evaluation_in_tensor_form(t, mle, point);
    lemma_honest_proof_is_accepted(
        t,
        twiddles,
        mle,
        point,
        evaluation(mle, eq_table(t, point)),
        encoding,
        commitment,
        base,
        absorbed,
        counter,
    );
}

/// Completeness for codes of butterflies. In a field whose
/// multiplication is associative on the basis, let the encoding be the code that the butterflies with the twiddles build
/// from the repacked coefficients of the polynomial, let the commitment be
/// the one to the encoding, and let the claimed evaluation be the
/// evaluation of the polynomial at the point. Then the proof that the
/// prover makes from a transcript is accepted by the verifier from the
/// same transcript.
pub proof fn lemma_encoded_evaluation_proof_is_accepted(
    t: Seq<u128>,
    twiddles: Seq<Seq<u128>>,
    mle: PackedMLE,
    point: Seq<u128>,
    encoding: Seq<u128>,
    commitment: FriCommitment,
    base: Seq<Seq<Seq<u8>>>,
    absorbed: Seq<u8>,
    counter: nat,
)
    requires
        valid_table(t),
        associative_on_basis(t),
        mle.wf(),
        mle.packing_factor == mle.tower_level,
        mle.variables >= 7,
        point.len() == mle.variables,
        two_pow((point.len() - 5) as nat) <= usize::MAX,
        counter + challenges_drawn((point.len() - 7) as nat) <= usize::MAX,
        encodes(
            t,
            twiddles,
            encoding,
            crate::utils::mle::repacked(mle.coeffs@, two_pow(mle.tower_level as nat)),
            0,
        ),
        is_tree(base),
        base.last() == leaf_layer(encoding),
        commitment.vector_commitment.root@ == base[0][0],
        commitment.vector_commitment.depth == base.len() - 1,
    ensures
        verify_model(
            t,
            twiddles,
            commitment,
            point,
            evaluation(mle, eq_table(t, point)),
            proof_model(
                t,
                twiddles,
                mle,
                point,
                encoding,
                base,
                absorbed + statement_bytes(
                    commitment,
                    point,
                    evaluation(mle, eq_table(t, point)),
                ),
                counter,
            ),
            absorbed,
            counter,
        ) == Ok::<(), Error>(()),
{
    lemma_associative(t);
    let eval = evaluation(mle, eq_table(t, point));
    let bound = absorbed + statement_bytes(commitment, point, eval);
    let start = start_state(t, mle, point, encoding, bound, counter);
    lemma_repacked_len(mle.coeffs@.len(), mle.tower_level as nat);
    lemma_start_shape(t, mle, point, encoding, bound, counter);
    lemma_encoding_folds_to_constant(t, twiddles, start, (point.len() - 7) as nat);
    lemma_evaluation_proof_is_accepted(
        t,
        twiddles,
        mle,
        point,
        encoding,
        commitment,
        base,
        absorbed,
        counter,
    );
}

} // verus!
