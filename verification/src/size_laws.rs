//! Laws of sizes: a proof is as long as the elements and digests in it.
use vstd::prelude::*;
use crate::auth_killshot_sweep::SweepAuthProofKillShot;
use crate::auth_pcs::AuthMleOpeningProof;
use crate::auth_sumcheck::{AuthProof, slots_size};
use crate::auth_unified_v2::{AuthKillShotProof, shift_claims, unified_claims};
use crate::batched_open::BatchedOpeningProof;
use crate::chain_accumulator_killshot::ChainAccumulatorProofKillShot;
use crate::column_scheme::ColumnScheme;
use crate::compact_fri::{CompactEvalProof, total_len};
use crate::compressed_rounds::CompressedRoundPolynomial;
use crate::eval_scheme::EvalScheme;
use crate::field::TowerField;
use crate::guard_bucket_killshot::BatchedGuardBucketProofKillShot;
use crate::killshot::{TraceProofKillShot, kill_shot_size};
use crate::mixed_open::MixedOpeningProof;
use crate::owner_killshot::{OwnerAuthProofKillShot, main_size};
use crate::perm_sumcheck::PermProof;
use crate::rounds::poly_messages;
use crate::source_binding::SourceBindingProof;
use crate::spine_killshot::SpineProofKillShot;
use crate::transcript::FiatShamir;

verus! {

/// The number of elements in some lists.
pub open spec fn count<A>(lists: Seq<Seq<A>>) -> nat
    decreases lists.len(),
{
    if lists.len() == 0 {
        0
    } else {
        count(lists.drop_last()) + lists.last().len()
    }
}

/// Lists of one length.
proof fn lemma_count_even<A>(lists: Seq<Seq<A>>, n: nat)
    requires
        forall|i: int| 0 <= i < lists.len() ==> (#[trigger] lists[i]).len() == n,
    ensures
        count(lists) == lists.len() * n,
    decreases lists.len(),
{
    if lists.len() > 0 {
        lemma_count_even(lists.drop_last(), n);
        let m = (lists.len() - 1) as nat;
        assert((m + 1) * n == m * n + n) by (nonlinear_arith);
    }
}

proof fn lemma_count_total<A>(lists: Seq<Seq<A>>, len: spec_fn(int) -> nat)
    requires
        forall|i: int| 0 <= i < lists.len() ==> (#[trigger] lists[i]).len() == len(i),
    ensures
        count(lists) == total_len(len, lists.len()),
    decreases lists.len(),
{
    if lists.len() > 0 {
        let k = lists.len() - 1;
        lemma_count_total(lists.drop_last(), len);
        assert(lists[k].len() == len(k));
    }
}

/// Two sumchecks whose polynomials have the degrees that are checked take sixteen
/// bytes an element: those of the polynomials and those of the claims.
pub proof fn lemma_pair_size<F: TowerField>(proof: AuthKillShotProof<F>)
    requires
        forall|i: int|
            0 <= i < proof.main.round_polys.len() ==> (
            #[trigger] proof.main.round_polys[i]).coeffs.len() == 10,
        forall|i: int|
            0 <= i < proof.shift.round_polys.len() ==> (
            #[trigger] proof.shift.round_polys[i]).coeffs.len() == 3,
    ensures
        kill_shot_size(proof) == 16 * (count(poly_messages(proof.main.round_polys@))
            + unified_claims(proof.main).len() + count(poly_messages(proof.shift.round_polys@))
            + shift_claims(proof.shift).len()),
{
    lemma_count_even(poly_messages(proof.main.round_polys@), 10);
    lemma_count_even(poly_messages(proof.shift.round_polys@), 3);
}

/// A proof of a trace is as long as its parts, and each part counts.
pub proof fn lemma_trace_size<F: TowerField>(proof: TraceProofKillShot<F>)
    ensures
        proof.size() - kill_shot_size(proof.kill_shot) == 16 * (3 * (proof.state_batch.rounds.len()
            + proof.sin_batch.rounds.len() + proof.sout_batch.rounds.len()) + 3),
{
}

/// In the size of a proof of a body the claims of the two sumchecks are left out.
pub proof fn lemma_spine_size<F: TowerField>(proof: SpineProofKillShot<F>)
    ensures
        proof.size() + 16 * (unified_claims(proof.kill_shot.main).len() + shift_claims(
            proof.kill_shot.shift,
        ).len()) == proof.trace().size(),
{
}

/// Proofs of chains and of updates are as long as their parts.
pub proof fn lemma_linked_sizes<F: TowerField>(
    chain: ChainAccumulatorProofKillShot<F>,
    update: BatchedGuardBucketProofKillShot<F>,
)
    ensures
        chain.size() - kill_shot_size(chain.kill_shot) == 16 * (3 * (chain.chain.rounds.len()
            + chain.batch.rounds.len()) + 1 + chain.batch.b_finals.len()),
        update.size() - kill_shot_size(update.kill_shot) == 16 * (3 * (update.chain.rounds.len()
            + update.batch.rounds.len()) + 1 + update.batch.b_finals.len()),
{
}

/// A proof of a permutation is as long as its parts.
pub proof fn lemma_perm_size<F: TowerField>(proof: PermProof<F>)
    ensures
        proof.size() - kill_shot_size(proof.pair) == 16 * (2 * proof.expand.len() + 1),
{
}

/// The sumchecks of an authorization: a further permutation adds its own size and
/// an element, whatever the others are.
pub proof fn lemma_auth_size<F: TowerField>(p: AuthProof<F>, q: AuthProof<F>, slot: PermProof<F>)
    requires
        q.slots@ == p.slots@.push(slot),
        q.slot_v0.len() == p.slot_v0.len() + 1,
        q.boundary.rounds.len() == p.boundary.rounds.len(),
    ensures
        q.size() == p.size() + slot.size() + 16,
        p.size() - slots_size(p.slots@, p.slots.len() as nat) == 16 * (p.slot_v0.len() + 3
            * p.boundary.rounds.len() + 1),
        p.slots.len() == 0 ==> slots_size(p.slots@, p.slots.len() as nat) == 0,
{
    lemma_slots_prefix(p.slots@, q.slots@, p.slots.len() as nat);
}

proof fn lemma_slots_prefix<F: TowerField>(p: Seq<PermProof<F>>, q: Seq<PermProof<F>>, k: nat)
    requires
        k <= p.len() <= q.len(),
        forall|i: int| 0 <= i < k ==> #[trigger] p[i] == q[i],
    ensures
        slots_size(p, k) == slots_size(q, k),
    decreases k,
{
    if k > 0 {
        lemma_slots_prefix(p, q, (k - 1) as nat);
        assert(p[k - 1] == q[k - 1]);
    }
}

/// Openings of columns: the cap, thirty-two bytes a digest, and the opening.
pub proof fn lemma_opening_sizes<F: TowerField, O, S: ColumnScheme<F, Opening = O>>(
    pcs: AuthMleOpeningProof<O>,
    sweep: SweepAuthProofKillShot<F, O>,
    owner: OwnerAuthProofKillShot<F, O>,
)
    ensures
        pcs.size::<F, S>() - S::opening_size(pcs.opening) == 32 * pcs.commitment.cap.hashes.len(),
        sweep.size::<S>() - kill_shot_size(sweep.kill_shot) - sweep.pcs.size::<F, S>() == 16 * (3
            * sweep.batch.rounds.len() + sweep.batch.b_finals.len()),
        owner.size::<S>() - owner.pcs.size::<F, S>() == 16 * (count(
            Seq::new(
                owner.kill_shot.main.round_polys.len() as nat,
                |i: int| owner.kill_shot.main.round_polys[i].coeffs_no_linear@,
            ),
        ) + 2 * owner.kill_shot.shift.round_polys.len() + 2 * owner.boundary.round_polys.len() + 3
            * owner.batch.rounds.len() + 8),
{
    let polys = owner.kill_shot.main.round_polys@;
    lemma_main_size(polys, polys.len());
    assert(Seq::new(polys.len(), |i: int| polys[i].coeffs_no_linear@) =~= Seq::new(
        owner.kill_shot.main.round_polys.len() as nat,
        |i: int| owner.kill_shot.main.round_polys[i].coeffs_no_linear@,
    ));
}

proof fn lemma_main_size<F>(polys: Seq<CompressedRoundPolynomial<F>>, k: nat)
    requires
        k <= polys.len(),
    ensures
        main_size(polys, k) == 16 * count(Seq::new(k, |i: int| polys[i].coeffs_no_linear@)),
    decreases k,
{
    let all = Seq::new(k, |i: int| polys[i].coeffs_no_linear@);
    if k > 0 {
        let j = (k - 1) as nat;
        lemma_main_size(polys, j);
        assert(all.drop_last() =~= Seq::new(j, |i: int| polys[i].coeffs_no_linear@));
    }
}

/// An opening of a table takes sixteen bytes an element, two elements a round of
/// the sumcheck and a queried pair, and thirty-two bytes a root and a sibling.
pub proof fn lemma_compact_size<F: TowerField>(proof: CompactEvalProof<F>)
    ensures
        proof.size() == 16 * (proof.upper_partial_evals.len() + 2 * (proof.sum_check_oracles.len()
            + count(
            Seq::new(
                proof.fri_queried_symbols.len() as nat,
                |i: int| proof.fri_queried_symbols[i]@,
            ),
        )) + proof.final_codeword.len()) + 32 * (proof.fri_roots.len() + count(
            Seq::new(
                proof.fri_merkle_batch.len() as nat,
                |i: int| proof.fri_merkle_batch[i].siblings@,
            ),
        )),
{
    let symbols = Seq::new(
        proof.fri_queried_symbols.len() as nat,
        |i: int| proof.fri_queried_symbols[i]@,
    );
    let siblings = Seq::new(
        proof.fri_merkle_batch.len() as nat,
        |i: int| proof.fri_merkle_batch[i].siblings@,
    );
    lemma_count_total(symbols, |i: int| proof.fri_queried_symbols[i].len() as nat);
    lemma_count_total(siblings, |i: int| proof.fri_merkle_batch[i].siblings.len() as nat);
}

/// A binding takes sixteen bytes an element and a short digest, and thirty-two a
/// sibling of the source.
pub proof fn lemma_binding_size<F: TowerField>(proof: SourceBindingProof<F>)
    ensures
        proof.size() == 16 * (proof.h_evals.len() + proof.folded_roots.len()
            + proof.source_symbols.len() + 2 * count(
            Seq::new(
                proof.folded_queried_symbols.len() as nat,
                |i: int| proof.folded_queried_symbols[i]@,
            ),
        ) + count(
            Seq::new(
                proof.folded_merkle_batch.len() as nat,
                |i: int| proof.folded_merkle_batch[i].siblings@,
            ),
        )) + 32 * proof.source_merkle_batch.siblings.len(),
{
    let symbols = Seq::new(
        proof.folded_queried_symbols.len() as nat,
        |i: int| proof.folded_queried_symbols[i]@,
    );
    let siblings = Seq::new(
        proof.folded_merkle_batch.len() as nat,
        |i: int| proof.folded_merkle_batch[i].siblings@,
    );
    lemma_count_total(symbols, |i: int| proof.folded_queried_symbols[i].len() as nat);
    lemma_count_total(siblings, |i: int| proof.folded_merkle_batch[i].siblings.len() as nat);
}

/// Openings of several columns are as long as their parts.
pub proof fn lemma_batched_sizes<F: TowerField, P, T: FiatShamir<F>, S: EvalScheme<F, T, Proof = P>>(
    mixed: MixedOpeningProof<F>,
    batched: BatchedOpeningProof<F, P>,
)
    ensures
        mixed.size() - mixed.fri_proof.size() - mixed.source_proof.size() == 16
            * mixed.all_openings.len(),
        batched.size::<T, S>() - S::proof_size(batched.fri_proof) == 16 * (
        batched.column_openings.len() + 3 * batched.sumcheck_rounds.len()),
{
}

} // verus!
