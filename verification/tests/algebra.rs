use fri_binius::field::{get_bit, BinaryField128};
use fri_binius::prover::{get_partial_evals, sum_check_round, Univariate};
use fri_binius::utils::code::{fold, Code, TwiddleTable};
use fri_binius::utils::mle::{
    compute_dot_product, compute_eq, compute_row_batch, fold_vals, repack, switch_view,
    LagrangeBases, PackedMLE,
};
use fri_binius::verification::{compute_eq_table, compute_eq_tower_ind};
use rand::rngs::StdRng;
use rand::{Rng, SeedableRng};

/// Product in the binary tower of `bits` bits, by the tower's recursion.
fn tower_mul(a: u128, b: u128, bits: u32) -> u128 {
    if a == 0 || b == 0 {
        return 0;
    }
    if bits == 1 {
        return a & b;
    }
    let half = bits / 2;
    let mask = (1u128 << half) - 1;
    let (a0, a1) = (a & mask, a >> half);
    let (b0, b1) = (b & mask, b >> half);
    let z0 = tower_mul(a0, b0, half);
    let z2 = tower_mul(a1, b1, half);
    let z1 = tower_mul(a0 ^ a1, b0 ^ b1, half) ^ z0 ^ z2;
    let alpha = if half == 1 { 1 } else { 1u128 << (half / 2) };
    let z2_alpha = tower_mul(z2, alpha, half);
    (z0 ^ z2) | ((z1 ^ z2_alpha) << half)
}

fn tower_table() -> Vec<u128> {
    let mut products = Vec::with_capacity(128 * 128);
    for i in 0..128 {
        for j in 0..128 {
            products.push(tower_mul(1u128 << i, 1u128 << j, 128));
        }
    }
    products
}

fn tower_field() -> BinaryField128 {
    BinaryField128::new(tower_table()).expect("the tower's table is valid")
}

fn random_elems(count: usize, seed: u64) -> Vec<u128> {
    let mut rng = StdRng::seed_from_u64(seed);
    (0..count).map(|_| rng.gen()).collect()
}

fn random_twiddles(log_len: usize, rng: &mut StdRng) -> TwiddleTable {
    let evals = (0..log_len)
        .map(|round| (0..2usize << (log_len - round)).map(|_| rng.gen()).collect())
        .collect();
    TwiddleTable { evals }
}

/// The part of the encoding of `message` on the coset `coset`: the
/// butterflies that the fold undoes, from the last round down to `round`.
fn transform(
    field: &BinaryField128,
    ntt: &TwiddleTable,
    message: &[u128],
    coset: usize,
    round: usize,
) -> Vec<u128> {
    if message.len() == 1 {
        return vec![message[0]];
    }
    let even: Vec<u128> = message.iter().step_by(2).copied().collect();
    let odd: Vec<u128> = message.iter().skip(1).step_by(2).copied().collect();
    let x0 = transform(field, ntt, &even, coset, round + 1);
    let x1 = transform(field, ntt, &odd, coset, round + 1);
    let n = x0.len();
    let mut out = Vec::with_capacity(2 * n);
    for j in 0..n {
        let twiddle = ntt.evals[round][coset * n + j];
        let v0 = x0[j] ^ field.mul(x1[j], twiddle);
        out.push(v0);
        out.push(v0 ^ x1[j]);
    }
    out
}

#[test]
fn test_fold() {
    let l = 11;
    let mut rng = StdRng::seed_from_u64(11);
    let field = tower_field();
    let poly: Vec<u128> = (0..1 << l).map(|_| rng.gen()).collect();

    let ntt = random_twiddles(l, &mut rng);

    let code = Code::encode_with_transform(&poly, 7, |message: Vec<u128>, coset: u32| {
        transform(&field, &ntt, &message, coset as usize, 0)
    });

    let r: Vec<u128> = (0..l).map(|_| rng.gen()).collect();

    let r_eq = LagrangeBases::gen_from_point(&r, &field);

    let poly_eval: u128 = poly
        .iter()
        .zip(r_eq.vals)
        .map(|(coeff, eq_val)| field.mul(*coeff, eq_val))
        .fold(0, |sum, term| sum ^ term);

    let mut folded_code = code.fold_code(r[0], 0, &ntt, &field);
    for round in 1..l {
        folded_code = folded_code.fold_code(r[round], round, &ntt, &field)
    }
    assert_eq!(poly_eval, folded_code.idx(0));
    assert!(
        !folded_code.encoding.is_empty(),
        "folding produced empty code"
    );
    assert_eq!(folded_code.encoding, vec![poly_eval; 4]);
}

#[test]
fn table_must_have_its_size_its_unit_and_its_symmetry() {
    let table = tower_table();
    assert!(BinaryField128::new(table.clone()).is_some());
    assert!(BinaryField128::new(table[..16383].to_vec()).is_none());
    assert!(BinaryField128::new(vec![]).is_none());
    let mut wrong_row = table.clone();
    wrong_row[5] ^= 1;
    assert!(BinaryField128::new(wrong_row).is_none());
    let mut wrong_column = table.clone();
    wrong_column[7 * 128] ^= 2;
    assert!(BinaryField128::new(wrong_column).is_none());
    let mut lopsided = table.clone();
    lopsided[3 * 128 + 5] ^= 1;
    assert!(BinaryField128::new(lopsided).is_none());
    let mut elsewhere = table;
    elsewhere[3 * 128 + 5] ^= 1;
    elsewhere[5 * 128 + 3] ^= 1;
    assert!(BinaryField128::new(elsewhere).is_some());
}

#[test]
fn product_is_the_bilinear_extension_of_the_table() {
    let field = tower_field();
    // In the field of four elements, with x = 2: x x = x + 1, x (x + 1) = 1.
    assert_eq!(field.mul(2, 2), 3);
    assert_eq!(field.mul(2, 3), 1);
    assert_eq!(field.mul(3, 3), 2);
    // In the field of sixteen elements, with y = 4: y y = y x + 1.
    assert_eq!(field.mul(4, 2), 8);
    assert_eq!(field.mul(4, 4), 9);
    assert_eq!(field.mul(0, 12345), 0);
    assert_eq!(field.mul(12345, 0), 0);
    let xs = random_elems(40, 1);
    for pair in xs.chunks(2) {
        assert_eq!(field.mul(pair[0], pair[1]), tower_mul(pair[0], pair[1], 128));
        assert_eq!(field.mul(pair[0], pair[1]), field.mul(pair[1], pair[0]));
        assert_eq!(field.mul(1, pair[0]), pair[0]);
        assert_eq!(field.mul(pair[0], 1), pair[0]);
    }
    for triple in xs.chunks(3) {
        if let [a, b, c] = *triple {
            assert_eq!(field.mul(a, b ^ c), field.mul(a, b) ^ field.mul(a, c));
            assert_eq!(field.mul(a ^ b, c), field.mul(a, c) ^ field.mul(b, c));
            assert_eq!(field.mul(field.mul(a, b), c), field.mul(a, field.mul(b, c)));
        }
    }
}

#[test]
fn product_follows_the_table_that_it_is_given() {
    // A table in which the product of two basis elements is the higher of
    // them, but for the products with the unit.
    let mut products = vec![0u128; 128 * 128];
    for i in 0..128 {
        for j in 0..128 {
            products[i * 128 + j] = 1 << i.max(j);
        }
    }
    let algebra = BinaryField128::new(products).unwrap();
    assert_eq!(algebra.mul(1, 0b1010), 0b1010);
    assert_eq!(algebra.mul(0b100, 0b1), 0b100);
    // 2 * 2 = 2, 4 * 2 = 4, and 2 * 8 = 8 and 4 * 8 = 8 cancel.
    assert_eq!(algebra.mul(0b110, 0b1010), 0b110);
    assert_eq!(algebra.mul(0b1010, 0b110), 0b110);
    assert_eq!(algebra.mul(0b110, 0b0010), 0b110);
    assert_eq!(algebra.mul(0b1000, 0b0110), 0);
}

#[test]
fn bits_are_read_from_the_lowest_up() {
    assert!(get_bit(1, 0));
    assert!(!get_bit(1, 1));
    assert!(get_bit(1 << 127, 127));
    assert!(!get_bit(u128::MAX ^ (1 << 64), 64));
    assert!(get_bit(0b100, 2));
}

#[test]
fn packed_index_reads_bit_by_bit() {
    let coeffs: Vec<u128> = vec![0b1010_0101, 0xff, 0, 0x80];
    let mle = PackedMLE::new(coeffs.clone(), 3, true);
    assert_eq!(mle.packing_factor, 3);
    assert_eq!(mle.variables, 5);
    assert_eq!(mle.tower_level, 3);
    assert_eq!(mle.len(), 4);
    for i in 0..32 {
        let expected = (coeffs[i >> 3] >> (i & 7)) & 1 == 1;
        assert_eq!(mle.packed_idx(i), expected);
    }
    assert_eq!(mle.idx(3), 0x80);

    let unpacked = PackedMLE::new(vec![3, 2, 1, 0, 1, 2, 3, 4], 7, false);
    assert_eq!(unpacked.packing_factor, 0);
    assert_eq!(unpacked.variables, 3);
    assert!(unpacked.packed_idx(0));
    assert!(!unpacked.packed_idx(1));
    assert!(!unpacked.packed_idx(3));
}

#[test]
fn repacking_lays_coefficients_side_by_side() {
    assert_eq!(
        repack(&[0x1111, 0x2222, 0x3333, 0x4444], 6),
        vec![0x2222_0000_0000_0000_1111, 0x4444_0000_0000_0000_3333]
    );
    let bytes: Vec<u128> = (1..=32).collect();
    let packed = repack(&bytes, 3);
    assert_eq!(packed.len(), 2);
    assert_eq!(packed[0], u128::from_le_bytes(core::array::from_fn(|i| i as u8 + 1)));
    assert_eq!(packed[1], u128::from_le_bytes(core::array::from_fn(|i| i as u8 + 17)));
    assert_eq!(repack(&[5, 6, 7], 7), vec![5, 6, 7]);
    assert_eq!(repack(&[1, 0, 1], 0), vec![0b101]);
    assert_eq!(repack(&[], 4), Vec::<u128>::new());
    assert_eq!(Code::repack_message(&[1, 2, 3], 5), vec![1 | 2 << 32 | 3 << 64]);

    let coeffs: Vec<u128> = random_elems(8, 3).iter().map(|x| x & 0xffff_ffff).collect();
    let mle = PackedMLE::new(coeffs, 5, true);
    let repacked = mle.repack_for_fri();
    assert_eq!(repacked.len(), 2);
    assert_eq!(repacked.packing_factor, 0);
    assert_eq!(repacked.tower_level, 7);
    assert_eq!(repacked.variables, 1);
    for i in 0..256 {
        assert_eq!(
            mle.packed_idx(i),
            (repacked.coeffs[i >> 7] >> (i & 127)) & 1 == 1
        );
    }
}

#[test]
fn fold_lo_interpolates_between_the_halves() {
    let field = tower_field();
    let vals = random_elems(16, 5);
    let r = random_elems(1, 6)[0];
    let folded = fold_vals(&field, &vals, r);
    assert_eq!(folded.len(), 8);
    for x in 0..8 {
        assert_eq!(
            folded[x],
            field.mul(1 ^ r, vals[2 * x]) ^ field.mul(r, vals[2 * x + 1])
        );
        assert_eq!(
            folded[x],
            vals[2 * x] ^ field.mul(r, vals[2 * x] ^ vals[2 * x + 1])
        );
    }
    assert_eq!(fold_vals(&field, &[10, 20], 0), vec![10]);
    assert_eq!(fold_vals(&field, &[10, 20], 1), vec![20]);
    assert_eq!(fold_vals(&field, &[10, 20, 30], 1), vec![20]);
    assert_eq!(fold_vals(&field, &[10], 1), Vec::<u128>::new());

    let mle = PackedMLE::new(vals.clone(), 7, false);
    let by_mle = mle.fold_lo(&r, &field);
    assert_eq!(by_mle.coeffs, folded);
    assert_eq!(by_mle.variables, 3);
    assert_eq!(by_mle.packing_factor, 0);

    let mut eq = LagrangeBases {
        vals: vals.clone(),
        vars: 4,
    };
    eq.fold_lo(&r, &field);
    assert_eq!(eq.vals, folded);
    assert_eq!(eq.vars, 3);
}

#[test]
fn equality_table_is_the_product_over_the_coordinates() {
    let field = tower_field();
    assert_eq!(compute_eq(&field, &[]), vec![1]);
    let eq = LagrangeBases::new();
    assert_eq!(eq.vals, vec![1]);
    assert_eq!(eq.vars, 0);

    let point = random_elems(4, 7);
    let table = LagrangeBases::gen_from_point(&point, &field);
    assert_eq!(table.vars, 4);
    assert_eq!(table.vals.len(), 16);
    for index in 0..16usize {
        let mut expected = 1u128;
        for (i, r) in point.iter().enumerate() {
            let factor = if (index >> i) & 1 == 1 { *r } else { 1 ^ *r };
            expected = field.mul(expected, factor);
        }
        assert_eq!(table.idx(index), expected);
    }
    assert_eq!(table.vals.iter().fold(0, |sum, x| sum ^ x), 1);
    assert_eq!(compute_eq(&field, &point), table.vals);
    assert_eq!(compute_eq_table(&point, &field), table.vals);
    assert_eq!(compute_eq_table(&[9], &field), vec![8, 9]);
    assert_eq!(compute_eq(&field, &[0, 1]), vec![0, 0, 1, 0]);

    let mut grown = LagrangeBases::gen_from_point(&point[..3], &field);
    grown.tensor(&point[3], &field);
    assert_eq!(grown.vals, table.vals);
    assert_eq!(grown.vars, 4);
}

#[test]
fn table_folds_and_views() {
    let field = tower_field();
    let vals = random_elems(8, 8);
    let mut table = LagrangeBases {
        vals: vals.clone(),
        vars: 3,
    };
    assert_eq!(table.packed_idx(0), vals[0] & 1 == 1);
    assert_eq!(table.packed_idx(128 + 5), (vals[1] >> 5) & 1 == 1);
    assert_eq!(table.packed_idx(7 * 128 + 127), vals[7] >> 127 == 1);
    table.fold_in();
    assert_eq!(table.vars, 2);
    assert_eq!(
        table.vals,
        vec![
            vals[0] ^ vals[1],
            vals[2] ^ vals[3],
            vals[4] ^ vals[5],
            vals[6] ^ vals[7]
        ]
    );
    let mut single = LagrangeBases::new();
    single.fold_in();
    assert_eq!(single.vals, vec![1]);
    assert_eq!(single.vars, 0);

    let from = LagrangeBases::from_mle(PackedMLE::new(vals.clone(), 7, false));
    assert_eq!(from.vals, vals);
    assert_eq!(from.vars, 3);

    let batch = random_elems(128, 9);
    let eq = LagrangeBases {
        vals: batch.clone(),
        vars: 7,
    };
    let source = LagrangeBases {
        vals: vec![0, 1, 0b110, u128::MAX],
        vars: 2,
    };
    let batched = source.row_batch(&eq);
    assert_eq!(batched.vars, 2);
    assert_eq!(batched.vals[0], 0);
    assert_eq!(batched.vals[1], batch[0]);
    assert_eq!(batched.vals[2], batch[1] ^ batch[2]);
    assert_eq!(batched.vals[3], batch.iter().fold(0, |sum, x| sum ^ x));
    let short = LagrangeBases {
        vals: vec![5, 6],
        vars: 1,
    };
    assert_eq!(source.row_batch(&short).vals, vec![0, 5, 6, 5 ^ 6]);
    let _ = field;
}

#[test]
fn bound_elements_sum_the_table_over_the_set_bits() {
    let field = tower_field();
    let coeffs: Vec<u128> = vec![0b0110, 0b1001, 0b1111, 0b0000];
    let mle = PackedMLE::new(coeffs, 2, true);
    assert_eq!(mle.variables, 4);
    let point = random_elems(2, 10);
    let eq = LagrangeBases::gen_from_point(&point, &field);
    assert_eq!(mle.get_bound_elem(0, &eq), eq.vals[1] ^ eq.vals[2]);
    assert_eq!(mle.get_bound_elem(1, &eq), eq.vals[0] ^ eq.vals[3]);
    assert_eq!(mle.get_bound_elem(2, &eq), 1);
    assert_eq!(mle.get_bound_elem(3, &eq), 0);
    let lo = mle.fold_as_unpacked_lo(&eq);
    assert_eq!(lo.coeffs, vec![eq.vals[1] ^ eq.vals[2], eq.vals[0] ^ eq.vals[3], 1, 0]);
    assert_eq!(lo.variables, 2);

    // With the highest two variables bound, the point i + 4 s is bit i of coefficient s.
    let hi = mle.fold_as_unpacked_hi(&eq);
    assert_eq!(
        hi.coeffs,
        vec![
            eq.vals[1] ^ eq.vals[2],
            eq.vals[0] ^ eq.vals[2],
            eq.vals[0] ^ eq.vals[2],
            eq.vals[1] ^ eq.vals[2]
        ]
    );

    let whole = LagrangeBases::new();
    assert_eq!(mle.get_bound_elem(5, &whole), 0);
    assert_eq!(mle.get_bound_elem(4, &whole), 1);

    let full = LagrangeBases::gen_from_point(&random_elems(4, 11), &field);
    let mut expected = 0;
    for i in 0..16 {
        if mle.packed_idx(i) {
            expected ^= full.vals[i];
        }
    }
    assert_eq!(mle.get_bound_elem(0, &full), expected);
}

#[test]
fn partial_evaluations_and_row_batches() {
    let field = tower_field();
    let coeffs: Vec<u128> = random_elems(4, 12);
    let mle = PackedMLE::new(coeffs.clone(), 7, true);
    assert_eq!(mle.variables, 9);
    let point = random_elems(2, 13);
    let eq = LagrangeBases::gen_from_point(&point, &field);
    let evals = get_partial_evals(&mle, &eq);
    assert_eq!(evals.len(), 128);
    for k in 0..128 {
        let mut expected = 0;
        for j in 0..4 {
            if (coeffs[j] >> k) & 1 == 1 {
                expected ^= eq.vals[j];
            }
        }
        assert_eq!(evals[k], expected);
    }

    let seven = LagrangeBases::gen_from_point(&random_elems(7, 14), &field);
    let rows = mle.batch_rows(&seven);
    assert_eq!(rows.len(), 4);
    for k in 0..4 {
        let mut expected = 0;
        for i in 0..128 {
            if (coeffs[k] >> i) & 1 == 1 {
                expected ^= seven.vals[i];
            }
        }
        assert_eq!(rows.coeffs[k], expected);
    }
}

#[test]
fn switching_the_view_transposes_the_bits() {
    let vals = random_elems(128, 15);
    let rows = switch_view(&vals);
    assert_eq!(rows.len(), 128);
    for i in 0..128 {
        for j in 0..128 {
            assert_eq!((rows[i] >> j) & 1, (vals[j] >> i) & 1);
        }
    }
    assert_eq!(switch_view(&rows), vals);
    let mut unit = vec![0u128; 128];
    unit[3] = 1 << 9;
    let mut expected = vec![0u128; 128];
    expected[9] = 1 << 3;
    assert_eq!(switch_view(&unit), expected);
}

#[test]
fn dot_products_and_row_batches() {
    let field = tower_field();
    assert_eq!(compute_dot_product(&[2, 3], &[2, 3], &field), 3 ^ 2);
    assert_eq!(compute_dot_product(&[2, 3, 7], &[2], &field), 3);
    assert_eq!(compute_dot_product(&[], &[2], &field), 0);
    let scalars = random_elems(128, 16);
    let vals = random_elems(128, 17);
    let rows = switch_view(&vals);
    assert_eq!(
        compute_row_batch(&scalars, &vals, &field),
        compute_dot_product(&scalars, &rows, &field)
    );
    assert_eq!(
        compute_row_batch(&scalars[..5], &vals, &field),
        compute_dot_product(&scalars[..5], &rows, &field)
    );
}

#[test]
fn univariate_is_evaluated_from_the_constant_coefficient_up() {
    let field = tower_field();
    let poly = Univariate::new(vec![5, 7, 9]);
    assert_eq!(poly.evaluate(0, &field), 5);
    assert_eq!(poly.evaluate(1, &field), 5 ^ 7 ^ 9);
    let r = random_elems(1, 18)[0];
    assert_eq!(
        poly.evaluate(r, &field),
        5 ^ field.mul(7, r) ^ field.mul(9, field.mul(r, r))
    );
    assert_eq!(Univariate::new(vec![]).evaluate(r, &field), 0);
    assert_eq!(Univariate::new(vec![4]).evaluate(r, &field), 4);
}

#[test]
fn round_oracle_sums_to_the_claim() {
    let field = tower_field();
    let mle = PackedMLE::new(random_elems(8, 19), 7, false);
    let eq = LagrangeBases {
        vals: random_elems(8, 20),
        vars: 3,
    };
    let claim = random_elems(1, 21)[0];
    let poly = sum_check_round(&mle, &eq, claim, &field);
    assert_eq!(poly.coeffs.len(), 3);
    let mut at_zero = 0;
    let mut at_infinity = 0;
    for i in 0..4 {
        at_zero ^= field.mul(mle.coeffs[2 * i], eq.vals[2 * i]);
        at_infinity ^= field.mul(
            mle.coeffs[2 * i] ^ mle.coeffs[2 * i + 1],
            eq.vals[2 * i] ^ eq.vals[2 * i + 1],
        );
    }
    assert_eq!(poly.coeffs[0], at_zero);
    assert_eq!(poly.coeffs[2], at_infinity);
    assert_eq!(poly.coeffs[1], claim ^ at_infinity);
    assert_eq!(poly.evaluate(0, &field) ^ poly.evaluate(1, &field), claim);

    // With the true sum as the claim, the oracle is the sum over the folded product.
    let mut sum = 0;
    for i in 0..8 {
        sum ^= field.mul(mle.coeffs[i], eq.vals[i]);
    }
    let poly = sum_check_round(&mle, &eq, sum, &field);
    let r = random_elems(1, 22)[0];
    let folded_mle = fold_vals(&field, &mle.coeffs, r);
    let folded_eq = fold_vals(&field, &eq.vals, r);
    assert_eq!(
        poly.evaluate(r, &field),
        compute_dot_product(&folded_mle, &folded_eq, &field)
    );
}

#[test]
fn fold_undoes_the_butterfly() {
    let field = tower_field();
    let ntt = TwiddleTable {
        evals: vec![vec![0, 0x1234_5678], vec![77]],
    };
    assert_eq!(ntt.get_subspace_eval(0, 1), 0x1234_5678);
    assert_eq!(ntt.get_subspace_eval(1, 0), 77);
    // With the twiddle zero the pair (x0, x0 + x1) folds to x0 + r x1.
    let (x0, x1, r) = (10u128, 12u128, 0xabcdu128);
    assert_eq!(fold(r, 0, 0, x0, x0 ^ x1, &ntt, &field), x0 ^ field.mul(r, x0 ^ x1));
    assert_eq!(fold(0, 0, 0, x0, x0 ^ x1, &ntt, &field), x0);
    assert_eq!(fold(1, 0, 0, x0, x0 ^ x1, &ntt, &field), x1);
    let twiddle = 0x1234_5678u128;
    let v0 = x0 ^ field.mul(x1, twiddle);
    let v1 = v0 ^ x1;
    assert_eq!(fold(0, 0, 1, v0, v1, &ntt, &field), x0);
    assert_eq!(fold(1, 0, 1, v0, v1, &ntt, &field), x1);
    assert_eq!(
        fold(r, 0, 1, v0, v1, &ntt, &field),
        field.mul(1 ^ r, x0) ^ field.mul(r, x1)
    );

    let code = Code {
        encoding: vec![x0, x0 ^ x1, v0, v1],
    };
    let folded = code.fold_code(r, 0, &ntt, &field);
    assert_eq!(folded.encoding.len(), 2);
    assert_eq!(folded.idx(0), folded.idx(1));
    assert_eq!(code.idx(2), v0);
}

#[test]
fn encoding_holds_the_four_cosets_in_order() {
    let code = Code::encode_with_transform(&[1, 2, 3, 4], 6, |message: Vec<u128>, coset: u32| {
        message.iter().map(|x| x ^ ((coset as u128) << 120)).collect()
    });
    let lo = 1 | 2 << 64;
    let hi = 3 | 4 << 64;
    assert_eq!(
        code.encoding,
        vec![
            lo,
            hi,
            lo ^ 1 << 120,
            hi ^ 1 << 120,
            lo ^ 2 << 120,
            hi ^ 2 << 120,
            lo ^ 3 << 120,
            hi ^ 3 << 120
        ]
    );
    let shift = |message: Vec<u128>, coset: u32| -> Vec<u128> {
        message.iter().map(|x| x ^ ((coset as u128) << 120)).collect()
    };
    assert_eq!(Code::new(&[1, 2, 3, 4], 6, shift).encoding, code.encoding);
    assert_eq!(Code::new_ext(&[1, 2, 3, 4], 6, shift).encoding, code.encoding);
    let whole = Code::new(&[7, 8], 7, |message: Vec<u128>, coset: u32| {
        message.iter().rev().map(|x| x + coset as u128).collect()
    });
    assert_eq!(whole.encoding, vec![8, 7, 9, 8, 10, 9, 11, 10]);
}

#[test]
fn fold_hi_scales_the_upper_coefficients() {
    let field = tower_field();
    let r = random_elems(1, 23)[0];
    let two = PackedMLE::new(vec![5, 9], 7, false);
    assert_eq!(two.fold_hi(&r, &field).coeffs, vec![field.mul(r, 9)]);
    let four = PackedMLE::new(vec![5, 9, 11, 13], 7, false);
    assert_eq!(
        four.fold_hi(&r, &field).coeffs,
        vec![field.mul(r, 9), field.mul(r, 13)]
    );
}

#[test]
fn packed_hi_fold_binds_the_highest_coefficient_variables() {
    let field = tower_field();
    let coeffs = random_elems(8, 24);
    let mle = PackedMLE::new(coeffs.clone(), 7, false);
    let eq = LagrangeBases::gen_from_point(&random_elems(2, 25), &field);
    let folded = mle.fold_as_packed_hi(&eq, &field);
    assert_eq!(folded.len(), 2);
    for i in 0..2 {
        let mut expected = 0;
        for s in 0..4 {
            expected ^= field.mul(eq.vals[s], coeffs[i + 2 * s]);
        }
        assert_eq!(folded.coeffs[i], expected);
    }
    let none = LagrangeBases::new();
    assert_eq!(mle.fold_as_packed_hi(&none, &field).coeffs, coeffs);
}

#[test]
fn tower_induction_on_empty_points_batches_the_unit() {
    let field = tower_field();
    let eq_batch = random_elems(128, 26);
    // Without a step the elements are 1, 0, ..., 0, whose rows are the same.
    assert_eq!(compute_eq_tower_ind(&[], &[], &eq_batch, &field), eq_batch[0]);
    // Adding to an element 128 times its product with zero leaves it.
    assert_eq!(compute_eq_tower_ind(&[0], &[0], &eq_batch, &field), eq_batch[0]);
    // Adding to an element its product with one cancels it at the first step.
    assert_eq!(compute_eq_tower_ind(&[1], &[5], &eq_batch, &field), 0);
}

#[test]
fn tower_is_associative_and_the_toy_table_too() {
    assert!(tower_field().is_associative());

    // The product "the higher of the two basis elements" is associative.
    let mut products = vec![0u128; 128 * 128];
    for i in 0..128 {
        for j in 0..128 {
            products[i * 128 + j] = 1 << i.max(j);
        }
    }
    assert!(BinaryField128::new(products).unwrap().is_associative());
}

#[test]
fn table_that_does_not_associate_is_found() {
    // Symmetric and with its unit, but (2 * 2) * 4 = 8 * 4 = 0 and 2 * (2 * 4) = 2 * 16 = 32.
    let mut products = vec![0u128; 128 * 128];
    for j in 0..128 {
        products[j] = 1 << j;
        products[j * 128] = 1 << j;
    }
    products[128 + 1] = 8;
    products[128 + 2] = 16;
    products[2 * 128 + 1] = 16;
    products[128 + 4] = 32;
    products[4 * 128 + 1] = 32;
    let algebra = BinaryField128::new(products).unwrap();
    assert_eq!(algebra.mul(algebra.mul(2, 2), 4), 0);
    assert_eq!(algebra.mul(2, algebra.mul(2, 4)), 32);
    assert!(!algebra.is_associative());
}
