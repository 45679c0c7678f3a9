//! The Fiat-Shamir transcript: what the two parties send is absorbed, and
//! challenges are squeezed from a Keccak-256 digest of all that was absorbed.

use crate::error::Error;
use crate::pow2::{pow2_checked, two_pow};
use crate::prover::FriCommitment;
use crate::utils::merkle::{hash, keccak256, VectorCommitment};
use vstd::bytes::{
    spec_u128_from_le_bytes, spec_u128_to_le_bytes, spec_u64_to_le_bytes, u128_from_le_bytes,
    u128_to_le_bytes, u64_to_le_bytes,
};
use vstd::prelude::*;

verus! {

/// Number of queries of the FRI query phase.
pub const QUERIES: usize = 144;

/// The eight little-endian bytes of an index.
pub open spec fn index_bytes(x: usize) -> Seq<u8> {
    spec_u64_to_le_bytes(x as u64)
}

/// The bytes of the field elements `elems`, 16 little-endian bytes each, in order.
pub open spec fn field_bytes(elems: Seq<u128>) -> Seq<u8>
    decreases elems.len(),
{
    if elems.len() == 0 {
        Seq::empty()
    } else {
        field_bytes(elems.drop_last()) + spec_u128_to_le_bytes(elems.last())
    }
}

/// The bytes of a commitment to `root` at `depth`: the root, then the depth.
pub open spec fn commitment_bytes(root: Seq<u8>, depth: usize) -> Seq<u8> {
    root + index_bytes(depth)
}

/// The bytes of a vector commitment: the root, then the depth.
pub open spec fn vector_commitment_bytes(c: VectorCommitment) -> Seq<u8> {
    commitment_bytes(c.root@, c.depth)
}

/// The bytes of a commitment: the vector commitment, then the packing factor.
pub open spec fn fri_commitment_bytes(c: FriCommitment) -> Seq<u8> {
    vector_commitment_bytes(c.vector_commitment) + index_bytes(c.packing_factor)
}

/// The digest from which challenge number `counter` is read after `absorbed`.
pub open spec fn digest_at(absorbed: Seq<u8>, counter: usize) -> Seq<u8> {
    keccak256(absorbed + index_bytes(counter))
}

/// Challenge number `counter` after `absorbed`: the first 16 bytes of the
/// digest, read as a little-endian field element.
pub open spec fn challenge_at(absorbed: Seq<u8>, counter: usize) -> u128 {
    spec_u128_from_le_bytes(digest_at(absorbed, counter).take(16))
}

/// The `n` challenges that follow challenge number `counter` after `absorbed`.
pub open spec fn challenges_at(absorbed: Seq<u8>, counter: usize, n: nat) -> Seq<u128> {
    Seq::new(n, |i: int| challenge_at(absorbed, (counter + i) as usize))
}

/// The queries into a domain of two to the power `log_max_len` drawn from
/// challenge number `counter` on: every index once where the domain holds
/// fewer than 144, else the 144 challenges reduced to their low
/// `log_max_len` bits.
pub open spec fn queries_at(absorbed: Seq<u8>, counter: usize, log_max_len: nat) -> Seq<usize> {
    if two_pow(log_max_len) < 144 {
        Seq::new(two_pow(log_max_len), |i: int| i as usize)
    } else {
        Seq::new(
            144,
            |i: int|
                (challenge_at(absorbed, (counter + i) as usize) % (two_pow(log_max_len) as u128))
                    as usize,
        )
    }
}

/// The transcript: the bytes absorbed so far and the number of challenges drawn.
#[derive(Debug)]
pub struct Channel {
    pub state: Vec<u8>,
    pub round_idx: usize,
}

impl Channel {
    /// The empty transcript.
    pub fn new() -> (c: Channel)
        ensures
            c.state@ == Seq::<u8>::empty(),
            c.round_idx == 0,
    {
        Channel { state: Vec::new(), round_idx: 0 }
    }

    fn absorb_bytes(&mut self, bytes: &[u8])
        ensures
            final(self).state@ == old(self).state@ + bytes@,
            final(self).round_idx == old(self).round_idx,
    {
        self.state.extend_from_slice(bytes);
    }

    fn sample_digest(&self, counter: usize) -> (d: [u8; 32])
        ensures
            d@ == digest_at(self.state@, counter),
    {
        let mut sponge = self.state.clone();
        let mut tail = u64_to_le_bytes(counter as u64);
        sponge.append(&mut tail);
        hash(sponge.as_slice()).0
    }

    /// Absorbs the 16 little-endian bytes of `elem`.
    pub fn observe_field_elem(&mut self, elem: u128) -> (r: Result<(), Error>)
        ensures
            r is Ok,
            final(self).state@ == old(self).state@ + spec_u128_to_le_bytes(elem),
            final(self).round_idx == old(self).round_idx,
    {
        let buffer = u128_to_le_bytes(elem);
        self.absorb_bytes(buffer.as_slice());
        Ok(())
    }

    /// Absorbs each of `elems` in order.
    pub fn observe_field_elems(&mut self, elems: &[u128]) -> (r: Result<(), Error>)
        ensures
            r is Ok,
            final(self).state@ == old(self).state@ + field_bytes(elems@),
            final(self).round_idx == old(self).round_idx,
    {
        let mut i: usize = 0;
        assert(elems@.take(0) =~= Seq::<u128>::empty());
        while i < elems.len()
            invariant
                i <= elems@.len(),
                self.state@ == old(self).state@ + field_bytes(elems@.take(i as int)),
                self.round_idx == old(self).round_idx,
            decreases elems@.len() - i,
        {
            let ghost before = elems@.take(i as int);
            let ghost after = elems@.take(i + 1);
            assert(after.drop_last() =~= before);
            assert(after.last() == elems@[i as int]);
            let _ = self.observe_field_elem(elems[i]);
            assert(self.state@ =~= old(self).state@ + field_bytes(after));
            i += 1;
        }
        assert(elems@.take(i as int) =~= elems@);
        Ok(())
    }

    /// Absorbs the root and then the depth of `commitment`.
    pub fn observe_vector_commitment(&mut self, commitment: &VectorCommitment)
        ensures
            final(self).state@ == old(self).state@ + vector_commitment_bytes(*commitment),
            final(self).round_idx == old(self).round_idx,
    {
        let root = commitment.root();
        self.absorb_bytes(root.0.as_slice());
        let depth = u64_to_le_bytes(commitment.depth() as u64);
        self.absorb_bytes(depth.as_slice());
        assert(self.state@ =~= old(self).state@ + vector_commitment_bytes(*commitment));
    }

    /// Absorbs the vector commitment and then the packing factor of `commitment`.
    pub fn observe_fri_commitment(&mut self, commitment: &FriCommitment)
        ensures
            final(self).state@ == old(self).state@ + fri_commitment_bytes(*commitment),
            final(self).round_idx == old(self).round_idx,
    {
        self.observe_vector_commitment(&commitment.vector_commitment);
        let factor = u64_to_le_bytes(commitment.packing_factor as u64);
        self.absorb_bytes(factor.as_slice());
        assert(self.state@ =~= old(self).state@ + fri_commitment_bytes(*commitment));
    }

    /// Draws the next challenge. Nothing is absorbed; the counter advances,
    /// unless it is exhausted.
    pub fn get_random_point(&mut self) -> (r: Result<u128, Error>)
        ensures
            final(self).state@ == old(self).state@,
            old(self).round_idx == usize::MAX ==> r == Err::<u128, Error>(
                Error::TranscriptOverflow,
            ) && final(self).round_idx == old(self).round_idx,
            old(self).round_idx < usize::MAX ==> r == Ok::<u128, Error>(
                challenge_at(old(self).state@, old(self).round_idx),
            ) && final(self).round_idx == old(self).round_idx + 1,
    {
        let digest = self.sample_digest(self.round_idx);
        if self.round_idx == usize::MAX {
            return Err(Error::TranscriptOverflow);
        }
        self.round_idx = self.round_idx + 1;
        let mut low: Vec<u8> = Vec::with_capacity(16);
        let mut i: usize = 0;
        while i < 16
            invariant
                i <= 16,
                low@ == digest@.take(i as int),
            decreases 16 - i,
        {
            low.push(digest[i]);
            i += 1;
        }
        Ok(u128_from_le_bytes(low.as_slice()))
    }

    /// Draws the next `n` challenges.
    pub fn get_random_points(&mut self, n: usize) -> (r: Result<Vec<u128>, Error>)
        ensures
            final(self).state@ == old(self).state@,
            old(self).round_idx + n > usize::MAX ==> r == Err::<Vec<u128>, Error>(
                Error::TranscriptOverflow,
            ) && final(self).round_idx == usize::MAX,
            old(self).round_idx + n <= usize::MAX ==> r is Ok && r->Ok_0@ == challenges_at(
                old(self).state@,
                old(self).round_idx,
                n as nat,
            ) && final(self).round_idx == old(self).round_idx + n,
    {
        let mut points: Vec<u128> = Vec::new();
        let mut i: usize = 0;
        while i < n
            invariant
                i <= n,
                self.state@ == old(self).state@,
                self.round_idx == old(self).round_idx + i,
                points@ == challenges_at(old(self).state@, old(self).round_idx, i as nat),
            decreases n - i,
        {
            match self.get_random_point() {
                Ok(point) => {
                    points.push(point);
                },
                Err(e) => {
                    return Err(e);
                },
            }
            i += 1;
            assert(points@ =~= challenges_at(old(self).state@, old(self).round_idx, i as nat));
        }
        Ok(points)
    }

    /// Draws the queries of the FRI query phase into a domain of two to the
    /// power `log_max_len`.
    pub fn gen_queries(&mut self, log_max_len: usize) -> (r: Result<Vec<usize>, Error>)
        ensures
            final(self).state@ == old(self).state@,
            two_pow(log_max_len as nat) > usize::MAX ==> r == Err::<Vec<usize>, Error>(
                Error::DomainSizeOverflow,
            ) && final(self).round_idx == old(self).round_idx,
            two_pow(log_max_len as nat) <= usize::MAX && two_pow(log_max_len as nat) < 144 ==> r
                is Ok && final(self).round_idx == old(self).round_idx,
            144 <= two_pow(log_max_len as nat) <= usize::MAX && old(self).round_idx + 144
                > usize::MAX ==> r == Err::<Vec<usize>, Error>(Error::TranscriptOverflow)
                && final(self).round_idx == usize::MAX,
            144 <= two_pow(log_max_len as nat) <= usize::MAX && old(self).round_idx + 144
                <= usize::MAX ==> r is Ok && final(self).round_idx == old(self).round_idx + 144,
            r is Ok ==> r->Ok_0@ == queries_at(
                old(self).state@,
                old(self).round_idx,
                log_max_len as nat,
            ),
    {
        let domain_size = match pow2_checked(log_max_len) {
            Some(d) => d,
            None => {
                return Err(Error::DomainSizeOverflow);
            },
        };
        if domain_size < QUERIES {
            let mut all: Vec<usize> = Vec::with_capacity(domain_size);
            let mut i: usize = 0;
            while i < domain_size
                invariant
                    i <= domain_size,
                    all@.len() == i,
                    forall|k: int| 0 <= k < i ==> all@[k] == k as usize,
                decreases domain_size - i,
            {
                all.push(i);
                i += 1;
            }
            assert(all@ =~= queries_at(old(self).state@, old(self).round_idx, log_max_len as nat));
            return Ok(all);
        }
        let random_elems = match self.get_random_points(QUERIES) {
            Ok(elems) => elems,
            Err(e) => {
                return Err(e);
            },
        };
        let modulus = domain_size as u128;
        let mut queries: Vec<usize> = Vec::with_capacity(QUERIES);
        let mut i: usize = 0;
        while i < QUERIES
            invariant
                i <= 144,
                random_elems@.len() == 144,
                modulus == domain_size,
                domain_size >= 144,
                queries@.len() == i,
                forall|k: int| 0 <= k < i ==> queries@[k] == (random_elems@[k] % modulus) as usize,
            decreases 144 - i,
        {
            queries.push((random_elems[i] % modulus) as usize);
            i += 1;
        }
        assert(queries@ =~= queries_at(
            old(self).state@,
            old(self).round_idx,
            log_max_len as nat,
        ));
        Ok(queries)
    }
}


/// Each query is an index into the domain that it was drawn for.
pub proof fn lemma_queries_bound(absorbed: Seq<u8>, counter: usize, log_max_len: nat)
    requires
        two_pow(log_max_len) <= usize::MAX,
    ensures
        forall|i: int|
            0 <= i < queries_at(absorbed, counter, log_max_len).len() ==> (#[trigger] queries_at(
                absorbed,
                counter,
                log_max_len,
            )[i]) < two_pow(log_max_len),
        queries_at(absorbed, counter, log_max_len).len() == (if two_pow(log_max_len) < 144 {
            two_pow(log_max_len)
        } else {
            144
        }),
{
}

} // verus!
