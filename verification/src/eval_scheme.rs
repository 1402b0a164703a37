//! Schemes that open a multilinear table at a point.
use vstd::prelude::*;
use vstd::arithmetic::power2::{lemma_pow2_adds, lemma_pow2_strictly_increases, pow2};
use crate::compact_fri::{CompactEvalProof, CompactFriError, NoHook, claimed_value, compact_claimed_value, compact_fri_prove, compact_fri_verify, fri_verdict, is_fri_proof, lemma_fri_complete, prover_bound, query_count, query_indices, tau_of};
use crate::field::TowerField;
use crate::fri::{CryptographicHasher, FriChannel, FriCode};
use crate::interleaved_commit::lemma_log_bound;
use crate::mle::mle;
use crate::transcript::{FiatShamir, squeezed_by};

verus! {

/// A scheme that proves the value of a table at a point.
pub trait EvalScheme<F: TowerField, T: FiatShamir<F>> {
    /// What proves a value.
    type Proof;

    /// Why a proof is refused.
    type Error;

    /// Whether tables of `2^n` values can be opened.
    spec fn fits(&self, n: nat) -> bool;

    /// The proof of the value of a table at a point.
    spec fn proves(&self, evals: Seq<F>, point: Seq<F>, channel: T, proof: Self::Proof) -> bool;

    /// The transcript after proving.
    spec fn proved_channel(&self, evals: Seq<F>, point: Seq<F>, channel: T) -> T;

    /// The verdict on a proof of a value at a point.
    spec fn verdict(&self, point: Seq<F>, value: F, proof: Self::Proof, channel: T) -> Result<
        (),
        Self::Error,
    >;

    /// The transcript after verifying.
    spec fn verdict_channel(&self, point: Seq<F>, value: F, proof: Self::Proof, channel: T) -> T;

    /// The value at a point that a proof is about.
    spec fn claimed(point: Seq<F>, proof: Self::Proof) -> F;

    /// The size of a proof in bytes.
    spec fn proof_size(proof: Self::Proof) -> nat;

    /// Proves the value of a table at a point.
    fn prove(&self, evals: &[F], point: &[F], channel: &mut T) -> (proof: Self::Proof)
        requires
            self.fits(point.len() as nat),
            evals.len() == pow2(point.len() as nat),
        ensures
            self.proves(evals@, point@, *old(channel), proof),
            *final(channel) == self.proved_channel(evals@, point@, *old(channel)),
    ;

    /// Verifies a proof of a value at a point.
    fn verify(&self, point: &[F], value: F, proof: &Self::Proof, channel: &mut T) -> (r: Result<
        (),
        Self::Error,
    >)
        requires
            self.fits(point.len() as nat),
        ensures
            r == self.verdict(point@, value, *proof, *old(channel)),
            *final(channel) == self.verdict_channel(point@, value, *proof, *old(channel)),
    ;

    /// Computes [`EvalScheme::claimed`].
    fn claimed_value(point: &[F], proof: &Self::Proof) -> (v: F)
        ensures
            v == Self::claimed(point@, *proof),
    ;

    /// Computes [`EvalScheme::proof_size`].
    fn proof_byte_len(proof: &Self::Proof) -> (r: usize)
        requires
            Self::proof_size(*proof) <= usize::MAX,
        ensures
            r == Self::proof_size(*proof),
    ;

    /// The proof of a table's value is about that value and accepted, and the
    /// verifier's transcript ends where the prover's does.
    proof fn complete(&self, evals: Seq<F>, point: Seq<F>, channel: T, proof: Self::Proof)
        requires
            self.fits(point.len()),
            evals.len() == pow2(point.len()),
            self.proves(evals, point, channel, proof),
        ensures
            Self::claimed(point, proof) == mle(evals, point),
            self.verdict(point, mle(evals, point), proof, channel) is Ok,
            self.verdict_channel(point, mle(evals, point), proof, channel)
                == self.proved_channel(evals, point, channel),
    ;
}

/// The compact FRI opening as a scheme.
pub struct CompactScheme<C, H> {
    pub code: C,
    pub hasher: H,
    pub num_queries: usize,
}

impl<F: TowerField, T: FriChannel<F>, C: FriCode<F>, H: CryptographicHasher<F>> EvalScheme<
    F,
    T,
> for CompactScheme<C, H> {
    type Proof = CompactEvalProof<F>;

    type Error = CompactFriError<()>;

    open spec fn fits(&self, n: nat) -> bool {
        self.num_queries > 0 && pow2(n + 2) <= usize::MAX
    }

    open spec fn proves(
        &self,
        evals: Seq<F>,
        point: Seq<F>,
        channel: T,
        proof: CompactEvalProof<F>,
    ) -> bool {
        let nr = (point.len() - tau_of(point.len())) as nat;
        let bound = prover_bound(self.code, self.hasher, evals, point, channel);
        is_fri_proof(
            self.code,
            self.hasher,
            evals,
            point,
            channel,
            query_indices(bound, nr + 2, self.num_queries as nat),
            proof,
        )
    }

    open spec fn proved_channel(&self, evals: Seq<F>, point: Seq<F>, channel: T) -> T {
        let nr = (point.len() - tau_of(point.len())) as nat;
        squeezed_by(
            prover_bound(self.code, self.hasher, evals, point, channel),
            query_count(nr + 2, self.num_queries as nat),
        )
    }

    open spec fn verdict(
        &self,
        point: Seq<F>,
        value: F,
        proof: CompactEvalProof<F>,
        channel: T,
    ) -> Result<(), CompactFriError<()>> {
        fri_verdict(
            self.code,
            self.hasher,
            NoHook,
            point,
            value,
            proof,
            channel,
            self.num_queries as nat,
        ).result
    }

    open spec fn verdict_channel(
        &self,
        point: Seq<F>,
        value: F,
        proof: CompactEvalProof<F>,
        channel: T,
    ) -> T {
        fri_verdict(
            self.code,
            self.hasher,
            NoHook,
            point,
            value,
            proof,
            channel,
            self.num_queries as nat,
        ).channel
    }

    open spec fn claimed(point: Seq<F>, proof: CompactEvalProof<F>) -> F {
        claimed_value(point, proof)
    }

    open spec fn proof_size(proof: CompactEvalProof<F>) -> nat {
        proof.size()
    }

    fn prove(&self, evals: &[F], point: &[F], channel: &mut T) -> (proof: CompactEvalProof<F>) {
        proof {
            lemma_log_bound((point.len() + 2) as nat);
            lemma_pow2_adds(point.len() as nat, 2);
            vstd::arithmetic::power2::lemma2_to64();
        }
        compact_fri_prove(evals, point, &self.code, channel, &self.hasher, self.num_queries)
    }

    fn verify(&self, point: &[F], value: F, proof: &CompactEvalProof<F>, channel: &mut T) -> (r:
        Result<(), CompactFriError<()>>) {
        proof {
            let n = point.len() as nat;
            lemma_log_bound(n + 2);
            if tau_of(n) > 0 {
                lemma_pow2_strictly_increases((n - tau_of(n) + 2) as nat, n + 2);
            }
        }
        compact_fri_verify(
            point,
            value,
            proof,
            &self.code,
            channel,
            &self.hasher,
            self.num_queries,
        )
    }

    fn claimed_value(point: &[F], proof: &CompactEvalProof<F>) -> (v: F) {
        compact_claimed_value(point, proof)
    }

    fn proof_byte_len(proof: &CompactEvalProof<F>) -> (r: usize) {
        proof.byte_len()
    }

    proof fn complete(
        &self,
        evals: Seq<F>,
        point: Seq<F>,
        channel: T,
        proof: CompactEvalProof<F>,
    ) {
        let n = point.len();
        if tau_of(n) > 0 {
            lemma_pow2_strictly_increases((n - tau_of(n) + 2) as nat, n + 2);
        }
        let bound = prover_bound(self.code, self.hasher, evals, point, channel);
        lemma_fri_complete(
            self.code,
            self.hasher,
            NoHook,
            evals,
            point,
            channel,
            self.num_queries as nat,
            bound,
            proof,
        );
    }
}

} // verus!
