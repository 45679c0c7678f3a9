use fri_binius::error::{Error, ErrorKind};
use fri_binius::field::BinaryField128;
use fri_binius::prover::{commit, prove, EvalProof, FriCommitment};
use fri_binius::utils::channel::Channel;
use fri_binius::utils::code::{Code, TwiddleTable, LOG_RATE};
use fri_binius::utils::merkle::MerkleTree;
use fri_binius::utils::mle::{LagrangeBases, PackedMLE};
use fri_binius::verification::verify;
use rand::rngs::StdRng;
use rand::{Rng, SeedableRng};

/// Product in the binary tower of `bits` bits, by the tower's recursion.
fn tower_mul(a: u128, b: u128, bits: u32) -> u128 {
    if a == 0 || b == 0 {
        return 0;
    }
    if bits == 1 {
        return a & b;
    }
    let half = bits / 2;
    let mask = (1u128 << half) - 1;
    let (a0, a1) = (a & mask, a >> half);
    let (b0, b1) = (b & mask, b >> half);
    let z0 = tower_mul(a0, b0, half);
    let z2 = tower_mul(a1, b1, half);
    let z1 = tower_mul(a0 ^ a1, b0 ^ b1, half) ^ z0 ^ z2;
    let alpha = if half == 1 { 1 } else { 1u128 << (half / 2) };
    let z2_alpha = tower_mul(z2, alpha, half);
    (z0 ^ z2) | ((z1 ^ z2_alpha) << half)
}

fn tower_field() -> BinaryField128 {
    let mut products = Vec::with_capacity(128 * 128);
    for i in 0..128 {
        for j in 0..128 {
            products.push(tower_mul(1u128 << i, 1u128 << j, 128));
        }
    }
    BinaryField128::new(products).expect("the tower's table is valid")
}

/// Twiddles for a code of `4 * 2^log_len` symbols, drawn from `rng`.
fn random_twiddles(log_len: usize, rng: &mut StdRng) -> TwiddleTable {
    let evals = (0..log_len)
        .map(|round| (0..2usize << (log_len - round)).map(|_| rng.gen()).collect())
        .collect();
    TwiddleTable { evals }
}

/// The part of the encoding of `message` on the coset `coset`: the
/// butterflies that the fold undoes, from the last round down to `round`.
fn transform(
    field: &BinaryField128,
    ntt: &TwiddleTable,
    message: &[u128],
    coset: usize,
    round: usize,
) -> Vec<u128> {
    if message.len() == 1 {
        return vec![message[0]];
    }
    let even: Vec<u128> = message.iter().step_by(2).copied().collect();
    let odd: Vec<u128> = message.iter().skip(1).step_by(2).copied().collect();
    let x0 = transform(field, ntt, &even, coset, round + 1);
    let x1 = transform(field, ntt, &odd, coset, round + 1);
    let n = x0.len();
    let mut out = Vec::with_capacity(2 * n);
    for j in 0..n {
        let twiddle = ntt.evals[round][coset * n + j];
        let v0 = x0[j] ^ field.mul(x1[j], twiddle);
        out.push(v0);
        out.push(v0 ^ x1[j]);
    }
    out
}

struct Instance {
    field: BinaryField128,
    ntt: TwiddleTable,
    mle: PackedMLE,
    point: Vec<u128>,
    eval: u128,
    commitment: FriCommitment,
    code: Code,
    tree: MerkleTree,
}

/// A random polynomial of `2^l` coefficients of 64 bits, committed to, and
/// its evaluation at a random point.
fn instance(l: usize, seed: u64) -> Instance {
    let mut rng = StdRng::seed_from_u64(seed);
    let field = tower_field();
    let poly: Vec<u128> = (0..1usize << l).map(|_| rng.gen::<u64>() as u128).collect();
    let mle = PackedMLE::new(poly, 6, true);
    let ntt = random_twiddles(l - 1, &mut rng);
    let (commitment, code, tree) = commit(&mle, |message: Vec<u128>, coset: u32| {
        transform(&field, &ntt, &message, coset as usize, 0)
    });
    let point: Vec<u128> = (0..l + 6).map(|_| rng.gen()).collect();
    let bases = LagrangeBases::gen_from_point(&point, &field);
    let eval = mle.get_bound_elem(0, &bases);
    Instance {
        field,
        ntt,
        mle,
        point,
        eval,
        commitment,
        code,
        tree,
    }
}

fn proof_of(instance: &Instance) -> EvalProof {
    let mut channel = Channel::new();
    prove(
        &instance.mle,
        &instance.point,
        instance.eval,
        &instance.code,
        &instance.commitment,
        &instance.tree,
        &instance.ntt,
        &mut channel,
        &instance.field,
    )
    .expect("the transcript cannot overflow")
}

fn verdict(instance: &Instance, proof: EvalProof) -> Result<(), Error> {
    let mut channel = Channel::new();
    verify(
        &instance.commitment,
        &instance.point,
        instance.eval,
        proof,
        &instance.ntt,
        &mut channel,
        &instance.field,
    )
}

#[test]
fn fri_test() {
    for l in 10..12 {
        println!("--------------|| length 2^{:?} ||-------------- \n\n", l + 6);
        let instance = instance(l, 0);
        let eval_proof = proof_of(&instance);
        verdict(&instance, eval_proof).unwrap();
    }
}

#[test]
fn proof_has_the_shape_of_its_statement() {
    let instance = instance(10, 0);
    let proof = proof_of(&instance);
    let rounds = 9;
    assert_eq!(instance.code.encoding.len(), 4 << rounds);
    assert_eq!(instance.commitment.vector_commitment.depth, rounds + LOG_RATE - 1);
    assert_eq!(instance.commitment.packing_factor, 6);
    assert_eq!(proof.upper_partial_evals.len(), 128);
    assert_eq!(proof.sum_check_oracles.len(), rounds);
    assert_eq!(proof.fri_oracles.len(), rounds);
    assert_eq!(proof.fri_queried_symbols.len(), rounds);
    assert_eq!(proof.fri_merkle_paths.len(), rounds);
    for round in 0..rounds {
        assert_eq!(proof.sum_check_oracles[round].coeffs.len(), 3);
        assert_eq!(proof.fri_oracles[round].depth, rounds - round);
        assert_eq!(proof.fri_queried_symbols[round].len(), 144);
        assert_eq!(proof.fri_merkle_paths[round].len(), 144);
        for path in &proof.fri_merkle_paths[round] {
            assert_eq!(path.len(), rounds + 1 - round);
        }
    }
}

#[test]
fn final_folded_value_is_the_evaluation_of_the_repacked_polynomial() {
    let instance = instance(10, 3);
    let proof = proof_of(&instance);
    let mut folded = instance.code.fold_code(0, 0, &instance.ntt, &instance.field);
    for round in 1..9 {
        folded = folded.fold_code(0, round, &instance.ntt, &instance.field);
    }
    assert_eq!(folded.encoding.len(), 4);
    let repacked = instance.mle.repack_for_fri();
    for symbol in &folded.encoding {
        assert_eq!(*symbol, repacked.coeffs[0]);
    }
    assert_eq!(proof.fri_queried_symbols[8].len(), 144);
}

#[test]
fn sizes_on_both_sides_of_the_query_threshold_verify() {
    // 12 variables: 5 rounds, a query domain of 128 indices, every index queried once.
    let small = instance(6, 12);
    let proof = proof_of(&small);
    for round in 0..5 {
        assert_eq!(proof.fri_queried_symbols[round].len(), 128);
        assert_eq!(proof.fri_merkle_paths[round].len(), 128);
    }
    assert_eq!(verdict(&small, proof), Ok(()));

    // 13 variables: 6 rounds, a query domain of 256 indices, 144 queries drawn.
    let large = instance(7, 13);
    let proof = proof_of(&large);
    for round in 0..6 {
        assert_eq!(proof.fri_queried_symbols[round].len(), 144);
        assert_eq!(proof.fri_merkle_paths[round].len(), 144);
    }
    assert_eq!(verdict(&large, proof), Ok(()));
}

#[test]
fn smallest_statement_has_one_round() {
    let tiny = instance(2, 8);
    assert_eq!(tiny.mle.variables, 8);
    assert_eq!(tiny.code.encoding.len(), 8);
    let proof = proof_of(&tiny);
    assert_eq!(proof.sum_check_oracles.len(), 1);
    assert_eq!(proof.fri_queried_symbols[0].len(), 8);
    assert_eq!(verdict(&tiny, proof), Ok(()));
}

#[test]
fn zero_polynomial_evaluates_to_zero_and_verifies() {
    let mut zero = instance(7, 1);
    let field = tower_field();
    zero.mle = PackedMLE::new(vec![0u128; 1 << 7], 6, true);
    let (commitment, code, tree) = commit(&zero.mle, |message: Vec<u128>, coset: u32| {
        transform(&field, &zero.ntt, &message, coset as usize, 0)
    });
    zero.commitment = commitment;
    zero.code = code;
    zero.tree = tree;
    zero.eval = 0;
    assert!(zero.code.encoding.iter().all(|symbol| *symbol == 0));
    let proof = proof_of(&zero);
    assert_eq!(proof.final_folded_value, 0);
    assert_eq!(verdict(&zero, proof), Ok(()));
}

#[test]
fn wrong_evaluation_fails_the_initial_claim() {
    let mut instance = instance(7, 5);
    let proof = proof_of(&instance);
    instance.eval ^= 1;
    assert_eq!(verdict(&instance, proof), Err(Error::InitialClaim));
}

#[test]
fn two_runs_of_the_prover_give_the_same_proof() {
    let instance = instance(8, 21);
    let first = proof_of(&instance);
    let second = proof_of(&instance);
    assert_eq!(first.upper_partial_evals, second.upper_partial_evals);
    assert_eq!(first.final_folded_value, second.final_folded_value);
    assert_eq!(first.sum_check_oracles.len(), second.sum_check_oracles.len());
    for round in 0..first.sum_check_oracles.len() {
        assert_eq!(
            first.sum_check_oracles[round].coeffs,
            second.sum_check_oracles[round].coeffs
        );
        assert_eq!(first.fri_oracles[round].root.0, second.fri_oracles[round].root.0);
        assert_eq!(first.fri_oracles[round].depth, second.fri_oracles[round].depth);
        assert_eq!(
            first.fri_queried_symbols[round],
            second.fri_queried_symbols[round]
        );
        assert_eq!(
            first.fri_merkle_paths[round].len(),
            second.fri_merkle_paths[round].len()
        );
        for (a, b) in first.fri_merkle_paths[round]
            .iter()
            .zip(second.fri_merkle_paths[round].iter())
        {
            assert_eq!(a.len(), b.len());
            for (x, y) in a.iter().zip(b.iter()) {
                assert_eq!(x.0, y.0);
            }
        }
    }
}

#[test]
fn prover_and_verifier_leave_the_same_transcript() {
    let instance = instance(7, 2);
    let mut proving = Channel::new();
    let proof = prove(
        &instance.mle,
        &instance.point,
        instance.eval,
        &instance.code,
        &instance.commitment,
        &instance.tree,
        &instance.ntt,
        &mut proving,
        &instance.field,
    )
    .unwrap();
    let mut verifying = Channel::new();
    verify(
        &instance.commitment,
        &instance.point,
        instance.eval,
        proof,
        &instance.ntt,
        &mut verifying,
        &instance.field,
    )
    .unwrap();
    assert_eq!(proving.state, verifying.state);
    assert_eq!(proving.round_idx, 7 + 6 + 144);
    assert_eq!(verifying.round_idx, 7 + 6 + 144);
}

#[test]
fn flipped_final_folded_value_is_a_consistency_failure() {
    let instance = instance(10, 0);
    let mut proof = proof_of(&instance);
    proof.final_folded_value ^= 1;
    let outcome = verdict(&instance, proof);
    assert!(outcome.is_err());
    assert_eq!(outcome.unwrap_err().kind(), ErrorKind::ConsistencyFailure);
}

#[test]
fn final_value_check_rejects_when_the_openings_still_match() {
    // With every index queried once, the queries do not depend on the transcript.
    let small = instance(6, 4);
    let mut proof = proof_of(&small);
    proof.final_folded_value ^= 1;
    assert_eq!(verdict(&small, proof), Err(Error::FinalValue));
}

#[test]
fn swapped_queried_symbols_fail_fold_consistency() {
    let instance = instance(10, 0);
    let mut proof = proof_of(&instance);
    let symbols = &mut proof.fri_queried_symbols[1];
    let second = (1..symbols.len())
        .find(|j| symbols[*j] != symbols[0])
        .expect("two different pairs");
    symbols.swap(0, second);
    assert_eq!(
        verdict(&instance, proof),
        Err(Error::FoldConsistency { round: 1, query: 0 })
    );
}

#[test]
fn truncated_merkle_path_is_a_shape_mismatch() {
    let instance = instance(10, 0);
    let mut proof = proof_of(&instance);
    proof.fri_merkle_paths[0][0].pop();
    let outcome = verdict(&instance, proof);
    assert_eq!(outcome, Err(Error::ShapeMismatch));
    assert_eq!(outcome.unwrap_err().kind(), ErrorKind::ShapeMismatch);
}

#[test]
fn wrong_lengths_are_shape_mismatches() {
    let instance = instance(7, 9);

    let mut proof = proof_of(&instance);
    proof.upper_partial_evals.pop();
    assert_eq!(verdict(&instance, proof), Err(Error::ShapeMismatch));

    let mut proof = proof_of(&instance);
    proof.sum_check_oracles.pop();
    assert_eq!(verdict(&instance, proof), Err(Error::ShapeMismatch));

    let mut proof = proof_of(&instance);
    proof.sum_check_oracles[2].coeffs.push(0);
    assert_eq!(verdict(&instance, proof), Err(Error::ShapeMismatch));

    let mut proof = proof_of(&instance);
    proof.fri_oracles.pop();
    assert_eq!(verdict(&instance, proof), Err(Error::ShapeMismatch));

    let mut proof = proof_of(&instance);
    proof.fri_queried_symbols.pop();
    assert_eq!(verdict(&instance, proof), Err(Error::ShapeMismatch));

    let mut proof = proof_of(&instance);
    proof.fri_merkle_paths.pop();
    assert_eq!(verdict(&instance, proof), Err(Error::ShapeMismatch));

    let mut proof = proof_of(&instance);
    proof.fri_queried_symbols[3].pop();
    assert_eq!(verdict(&instance, proof), Err(Error::ShapeMismatch));

    let mut proof = proof_of(&instance);
    proof.fri_merkle_paths[0].pop();
    assert_eq!(verdict(&instance, proof), Err(Error::ShapeMismatch));
}

#[test]
fn any_single_mutation_is_rejected() {
    let instance = instance(7, 17);

    let mut proof = proof_of(&instance);
    proof.upper_partial_evals[5] ^= 1 << 77;
    assert_eq!(verdict(&instance, proof), Err(Error::InitialClaim));

    for round in 0..6 {
        for coefficient in 0..3 {
            let mut proof = proof_of(&instance);
            proof.sum_check_oracles[round].coeffs[coefficient] ^= 1;
            let outcome = verdict(&instance, proof);
            assert!(outcome.is_err());
            assert_eq!(outcome.unwrap_err().kind(), ErrorKind::ConsistencyFailure);
        }
    }

    for value in [0, 64, 127] {
        let mut proof = proof_of(&instance);
        proof.upper_partial_evals[value] ^= 1;
        assert_eq!(verdict(&instance, proof), Err(Error::InitialClaim));
    }

    let mut proof = proof_of(&instance);
    proof.sum_check_oracles[3].coeffs[1] ^= 1;
    assert_eq!(verdict(&instance, proof), Err(Error::SumCheck { round: 3 }));

    let mut proof = proof_of(&instance);
    proof.fri_oracles[1].root.0[0] ^= 1;
    let outcome = verdict(&instance, proof);
    assert!(outcome.is_err());
    assert_eq!(outcome.unwrap_err().kind(), ErrorKind::ConsistencyFailure);

    for round in 0..6 {
        let mut proof = proof_of(&instance);
        proof.fri_queried_symbols[round][10].0 ^= 1 << 3;
        let outcome = verdict(&instance, proof);
        assert!(outcome.is_err());
        assert_eq!(outcome.unwrap_err().kind(), ErrorKind::ConsistencyFailure);

        let mut proof = proof_of(&instance);
        proof.fri_queried_symbols[round][10].1 ^= 1 << 100;
        let outcome = verdict(&instance, proof);
        assert!(outcome.is_err());
        assert_eq!(outcome.unwrap_err().kind(), ErrorKind::ConsistencyFailure);

        let mut proof = proof_of(&instance);
        let last = proof.fri_merkle_paths[round][10].len() - 1;
        proof.fri_merkle_paths[round][10][last].0[31] ^= 0x80;
        let outcome = verdict(&instance, proof);
        assert!(matches!(outcome, Err(Error::MerklePath { .. })));
        assert_eq!(outcome.unwrap_err().kind(), ErrorKind::ConsistencyFailure);
    }

    let mut proof = proof_of(&instance);
    proof.fri_queried_symbols[0][0].0 ^= 1;
    assert!(matches!(
        verdict(&instance, proof),
        Err(Error::MerklePath { .. })
    ));
}

#[test]
fn wrong_commitment_fails_the_first_opening() {
    let mut instance = instance(7, 23);
    let proof = proof_of(&instance);
    instance.commitment.vector_commitment.root.0[3] ^= 4;
    let outcome = verdict(&instance, proof);
    assert!(outcome.is_err());
    assert_eq!(outcome.unwrap_err().kind(), ErrorKind::ConsistencyFailure);
}

#[test]
fn exhausted_transcript_stops_prover_and_verifier() {
    let instance = instance(7, 3);
    let proof = proof_of(&instance);

    let mut channel = Channel::new();
    channel.round_idx = usize::MAX - 100;
    let outcome = prove(
        &instance.mle,
        &instance.point,
        instance.eval,
        &instance.code,
        &instance.commitment,
        &instance.tree,
        &instance.ntt,
        &mut channel,
        &instance.field,
    );
    assert!(matches!(outcome, Err(Error::TranscriptOverflow)));
    assert_eq!(channel.round_idx, usize::MAX);

    let mut channel = Channel::new();
    channel.round_idx = usize::MAX - 3;
    let outcome = verify(
        &instance.commitment,
        &instance.point,
        instance.eval,
        proof,
        &instance.ntt,
        &mut channel,
        &instance.field,
    );
    assert_eq!(outcome, Err(Error::TranscriptOverflow));
    assert_eq!(outcome.unwrap_err().kind(), ErrorKind::TranscriptOverflow);
}

fn statement_bytes(instance: &Instance) -> Vec<u8> {
    let mut bytes = instance.commitment.vector_commitment.root.0.to_vec();
    bytes.extend_from_slice(&(instance.commitment.vector_commitment.depth as u64).to_le_bytes());
    bytes.extend_from_slice(&(instance.commitment.packing_factor as u64).to_le_bytes());
    for coordinate in &instance.point {
        bytes.extend_from_slice(&coordinate.to_le_bytes());
    }
    bytes.extend_from_slice(&instance.eval.to_le_bytes());
    bytes
}

#[test]
fn transcript_stops_where_the_verdict_is_reached() {
    let mut instance = instance(7, 29);
    let honest = statement_bytes(&instance);

    // A wrong claim is found before any challenge is drawn.
    let proof = proof_of(&instance);
    instance.eval ^= 2;
    let mut channel = Channel::new();
    let outcome = verify(
        &instance.commitment,
        &instance.point,
        instance.eval,
        proof,
        &instance.ntt,
        &mut channel,
        &instance.field,
    );
    assert_eq!(outcome, Err(Error::InitialClaim));
    assert_eq!(channel.state, statement_bytes(&instance));
    assert_eq!(channel.round_idx, 0);
    instance.eval ^= 2;

    // A wrong oracle is found before it is absorbed.
    let mut proof = proof_of(&instance);
    let first = proof.sum_check_oracles[0].coeffs.clone();
    let root = proof.fri_oracles[0].root.0;
    let depth = proof.fri_oracles[0].depth;
    proof.sum_check_oracles[1].coeffs[1] ^= 1;
    let mut channel = Channel::new();
    let outcome = verify(
        &instance.commitment,
        &instance.point,
        instance.eval,
        proof,
        &instance.ntt,
        &mut channel,
        &instance.field,
    );
    assert_eq!(outcome, Err(Error::SumCheck { round: 1 }));
    let mut expected = honest.clone();
    for coefficient in &first {
        expected.extend_from_slice(&coefficient.to_le_bytes());
    }
    expected.extend_from_slice(&root);
    expected.extend_from_slice(&(depth as u64).to_le_bytes());
    assert_eq!(channel.state, expected);
    assert_eq!(channel.round_idx, 8);

    // The prover that cannot draw the batching challenges has absorbed the statement.
    let mut channel = Channel::new();
    channel.round_idx = usize::MAX - 6;
    let outcome = prove(
        &instance.mle,
        &instance.point,
        instance.eval,
        &instance.code,
        &instance.commitment,
        &instance.tree,
        &instance.ntt,
        &mut channel,
        &instance.field,
    );
    assert!(matches!(outcome, Err(Error::TranscriptOverflow)));
    assert_eq!(channel.state, honest);
    assert_eq!(channel.round_idx, usize::MAX);

    // The prover that cannot draw the challenge of the second round has
    // absorbed the oracle of that round after the first round.
    let reference = proof_of(&instance);
    let mut channel = Channel::new();
    channel.round_idx = usize::MAX - 8;
    let outcome = prove(
        &instance.mle,
        &instance.point,
        instance.eval,
        &instance.code,
        &instance.commitment,
        &instance.tree,
        &instance.ntt,
        &mut channel,
        &instance.field,
    );
    assert!(matches!(outcome, Err(Error::TranscriptOverflow)));
    assert_eq!(channel.round_idx, usize::MAX);
    assert_eq!(channel.state.len(), honest.len() + 48 + 40 + 48);
    assert_eq!(&channel.state[..honest.len()], &honest[..]);
    // The challenges differ with the counter, so the oracles differ from the reference.
    assert_eq!(reference.sum_check_oracles[0].coeffs.len(), 3);
}

#[test]
fn polynomial_of_twenty_variables_verifies() {
    let mut rng = StdRng::seed_from_u64(0);
    let field = tower_field();
    let l = 14;
    let poly: Vec<u128> = (0..1usize << l).map(|_| rng.gen::<u64>() as u128).collect();
    let mle = PackedMLE::new(poly, 6, true);
    let ntt = random_twiddles(l - 1, &mut rng);
    let (commitment, code, tree) = commit(&mle, |message: Vec<u128>, coset: u32| {
        transform(&field, &ntt, &message, coset as usize, 0)
    });
    let point: Vec<u128> = (0..l + 6).map(|_| rng.gen()).collect();
    // The evaluation, from the partial evaluations over the upper coordinates.
    let right = LagrangeBases::gen_from_point(&point[7..], &field);
    let left = LagrangeBases::gen_from_point(&point[..7], &field);
    let partial = fri_binius::prover::get_partial_evals(&mle, &right);
    let eval = fri_binius::utils::mle::compute_dot_product(&left.vals, &partial, &field);
    let instance = Instance {
        field,
        ntt,
        mle,
        point,
        eval,
        commitment,
        code,
        tree,
    };
    let proof = proof_of(&instance);
    assert_eq!(proof.sum_check_oracles.len(), 13);
    assert_eq!(proof.upper_partial_evals, partial);
    assert_eq!(verdict(&instance, proof), Ok(()));
}

#[test]
fn evaluation_is_the_sum_over_the_low_cube_of_the_partial_evaluations() {
    let instance = instance(5, 31);
    let right = LagrangeBases::gen_from_point(&instance.point[7..], &instance.field);
    let left = LagrangeBases::gen_from_point(&instance.point[..7], &instance.field);
    let partial = fri_binius::prover::get_partial_evals(&instance.mle, &right);
    assert_eq!(
        fri_binius::utils::mle::compute_dot_product(&left.vals, &partial, &instance.field),
        instance.eval
    );
}
