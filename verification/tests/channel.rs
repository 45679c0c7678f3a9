use fri_binius::error::{Error, ErrorKind};
use fri_binius::prover::FriCommitment;
use fri_binius::utils::channel::Channel;
use fri_binius::utils::merkle::{hash, VectorCommitment};

fn challenge(absorbed: &[u8], counter: usize) -> u128 {
    let mut bytes = absorbed.to_vec();
    bytes.extend_from_slice(&(counter as u64).to_le_bytes());
    let digest = hash(&bytes).0;
    let mut low = [0u8; 16];
    low.copy_from_slice(&digest[..16]);
    u128::from_le_bytes(low)
}

#[test]
fn new_channel_is_empty() {
    let channel = Channel::new();
    assert!(channel.state.is_empty());
    assert_eq!(channel.round_idx, 0);
}

#[test]
fn field_elements_are_absorbed_as_sixteen_little_endian_bytes() {
    let mut channel = Channel::new();
    let x: u128 = 0x0011_2233_4455_6677_8899_aabb_ccdd_eeff;
    assert_eq!(channel.observe_field_elem(x), Ok(()));
    assert_eq!(channel.state, x.to_le_bytes().to_vec());
    assert_eq!(channel.state[0], 0xff);
    assert_eq!(channel.state[15], 0x00);

    assert_eq!(channel.observe_field_elems(&[1, 2]), Ok(()));
    let mut expected = x.to_le_bytes().to_vec();
    expected.extend_from_slice(&1u128.to_le_bytes());
    expected.extend_from_slice(&2u128.to_le_bytes());
    assert_eq!(channel.state, expected);
    assert_eq!(channel.round_idx, 0);

    assert_eq!(channel.observe_field_elems(&[]), Ok(()));
    assert_eq!(channel.state, expected);
}

#[test]
fn commitments_are_absorbed_as_root_depth_and_packing_factor() {
    let root = hash(b"root");
    let vector_commitment = VectorCommitment { root, depth: 11 };
    let mut channel = Channel::new();
    channel.observe_vector_commitment(&vector_commitment);
    let mut expected = root.0.to_vec();
    expected.extend_from_slice(&11u64.to_le_bytes());
    assert_eq!(channel.state, expected);
    assert_eq!(channel.state.len(), 40);

    let mut channel = Channel::new();
    channel.observe_fri_commitment(&FriCommitment {
        vector_commitment,
        packing_factor: 6,
    });
    expected.extend_from_slice(&6u64.to_le_bytes());
    assert_eq!(channel.state, expected);
    assert_eq!(channel.state.len(), 48);
}

#[test]
fn challenge_is_read_from_the_digest_of_state_and_counter() {
    let mut channel = Channel::new();
    channel.observe_field_elem(42).unwrap();
    let absorbed = channel.state.clone();
    assert_eq!(channel.get_random_point(), Ok(challenge(&absorbed, 0)));
    assert_eq!(channel.round_idx, 1);
    assert_eq!(channel.state, absorbed);
    assert_eq!(channel.get_random_point(), Ok(challenge(&absorbed, 1)));
    assert_eq!(channel.round_idx, 2);
    assert_ne!(challenge(&absorbed, 0), challenge(&absorbed, 1));
}

#[test]
fn first_challenge_of_the_empty_transcript() {
    // Keccak-256 of eight zero bytes, its first 16 bytes read little-endian.
    let digest = hash(&[0u8; 8]).0;
    let mut channel = Channel::new();
    let point = channel.get_random_point().unwrap();
    assert_eq!(point.to_le_bytes(), digest[..16]);
}

#[test]
fn several_challenges_are_the_single_ones_in_order() {
    let mut one_by_one = Channel::new();
    one_by_one.observe_field_elem(7).unwrap();
    let mut at_once = Channel::new();
    at_once.observe_field_elem(7).unwrap();
    let points = at_once.get_random_points(5).unwrap();
    assert_eq!(points.len(), 5);
    for point in &points {
        assert_eq!(one_by_one.get_random_point(), Ok(*point));
    }
    assert_eq!(at_once.round_idx, 5);
    assert_eq!(at_once.get_random_points(0), Ok(vec![]));
    assert_eq!(at_once.round_idx, 5);
}

#[test]
fn same_transcript_gives_the_same_challenges() {
    let mut first = Channel::new();
    let mut second = Channel::new();
    for channel in [&mut first, &mut second] {
        channel.observe_field_elems(&[3, 1, 4, 1, 5]).unwrap();
    }
    assert_eq!(first.get_random_points(9), second.get_random_points(9));
    first.observe_field_elem(0).unwrap();
    second.observe_field_elem(1).unwrap();
    assert_ne!(first.get_random_point(), second.get_random_point());
}

#[test]
fn exhausted_counter_is_a_transcript_overflow() {
    let mut channel = Channel::new();
    channel.round_idx = usize::MAX;
    assert_eq!(channel.get_random_point(), Err(Error::TranscriptOverflow));
    assert_eq!(channel.round_idx, usize::MAX);

    let mut channel = Channel::new();
    channel.round_idx = usize::MAX - 2;
    assert_eq!(channel.get_random_points(3), Err(Error::TranscriptOverflow));
    assert_eq!(channel.round_idx, usize::MAX);

    let mut channel = Channel::new();
    channel.round_idx = usize::MAX - 2;
    assert_eq!(channel.get_random_points(2).map(|points| points.len()), Ok(2));
    assert_eq!(channel.round_idx, usize::MAX);
    assert_eq!(
        Error::TranscriptOverflow.kind(),
        ErrorKind::TranscriptOverflow
    );
}

#[test]
fn small_domains_are_queried_exhaustively() {
    let mut channel = Channel::new();
    assert_eq!(channel.gen_queries(0), Ok(vec![0]));
    assert_eq!(channel.gen_queries(3), Ok((0..8).collect::<Vec<usize>>()));
    assert_eq!(channel.gen_queries(7), Ok((0..128).collect::<Vec<usize>>()));
    assert_eq!(channel.round_idx, 0);
}

#[test]
fn large_domains_get_144_masked_challenges() {
    let mut channel = Channel::new();
    channel.observe_field_elem(99).unwrap();
    let absorbed = channel.state.clone();
    let queries = channel.gen_queries(8).unwrap();
    assert_eq!(queries.len(), 144);
    assert_eq!(channel.round_idx, 144);
    for (i, query) in queries.iter().enumerate() {
        assert!(*query < 256);
        assert_eq!(*query as u128, challenge(&absorbed, i) & 0xff);
    }

    let mut channel = Channel::new();
    channel.observe_field_elem(99).unwrap();
    let queries = channel.gen_queries(20).unwrap();
    for (i, query) in queries.iter().enumerate() {
        assert_eq!(*query as u128, challenge(&absorbed, i) & ((1 << 20) - 1));
    }
}

#[test]
fn domain_that_does_not_fit_is_an_overflow() {
    let mut channel = Channel::new();
    assert_eq!(
        channel.gen_queries(usize::BITS as usize),
        Err(Error::DomainSizeOverflow)
    );
    assert_eq!(channel.gen_queries(usize::MAX), Err(Error::DomainSizeOverflow));
    assert_eq!(channel.round_idx, 0);
    assert_eq!(
        Error::DomainSizeOverflow.kind(),
        ErrorKind::DomainSizeOverflow
    );
    let top = channel.gen_queries(usize::BITS as usize - 1).unwrap();
    assert_eq!(top.len(), 144);
}

#[test]
fn queries_need_144_challenges() {
    let mut channel = Channel::new();
    channel.round_idx = usize::MAX - 143;
    assert_eq!(channel.gen_queries(10), Err(Error::TranscriptOverflow));

    let mut channel = Channel::new();
    channel.round_idx = usize::MAX - 143;
    assert_eq!(channel.gen_queries(5).map(|queries| queries.len()), Ok(32));
    assert_eq!(channel.round_idx, usize::MAX - 143);

    let mut channel = Channel::new();
    channel.round_idx = usize::MAX - 144;
    assert_eq!(channel.gen_queries(10).map(|queries| queries.len()), Ok(144));
    assert_eq!(channel.round_idx, usize::MAX);
}

#[test]
fn every_error_has_its_kind_and_words() {
    let all = [
        (Error::SerializationFailure, ErrorKind::SerializationFailure),
        (Error::TranscriptOverflow, ErrorKind::TranscriptOverflow),
        (Error::DomainSizeOverflow, ErrorKind::DomainSizeOverflow),
        (Error::ShapeMismatch, ErrorKind::ShapeMismatch),
        (Error::InitialClaim, ErrorKind::ConsistencyFailure),
        (Error::SumCheck { round: 1 }, ErrorKind::ConsistencyFailure),
        (
            Error::FoldConsistency { round: 2, query: 3 },
            ErrorKind::ConsistencyFailure,
        ),
        (Error::MerklePath { index: 4 }, ErrorKind::ConsistencyFailure),
        (Error::FinalValue, ErrorKind::ConsistencyFailure),
    ];
    for (error, kind) in all {
        assert_eq!(error.kind(), kind);
        assert!(!error.message().is_empty());
    }
    assert_eq!(Error::TranscriptOverflow.message(), "channel counter overflow");
}
