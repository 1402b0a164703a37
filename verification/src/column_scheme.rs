//! Schemes that commit to columns and open them at a point.
use vstd::prelude::*;
use vstd::arithmetic::power2::{lemma_pow2_adds, pow2};
use crate::compact_fri::tau_of;
use crate::field::TowerField;
use crate::fri::{CryptographicHasher, FriChannel, FriCode, digest_of};
use crate::hashing::HashOutput;
use crate::interleaved_commit::{CAP_SEGMENTS, InterleavedCommitment, InterleavedProverState, SourceHasher, SourceMerkleTree, cols_wf, encoded_words, interleaved_commit, segment_message, slice_views, source_leaves, vec_views};
use crate::merkle::node;
use crate::mixed_open::{EvalClaim, MixedOpenError, MixedOpeningProof, column_values, is_mixed_proof, lemma_mixed_complete, mixed_verdict, prove_mixed_opening, verify_mixed_opening};
use crate::source_binding::binding_limits;
use crate::sponge::{digest_to_fields, lanes_of};
use crate::wiping::wipe_columns;

verus! {

/// A scheme that commits to columns of one length and opens all of them at a
/// point.
pub trait ColumnScheme<F: TowerField> {
    /// What the prover keeps for the opening.
    type State;

    /// What shows the values of the columns at a point.
    type Opening;

    /// Whether `k` columns of `2^n` values can be committed to and opened.
    spec fn fits(&self, n: nat, k: nat) -> bool;

    /// The digests that are published for columns of `2^n` values.
    spec fn digests(&self, cols: Seq<Seq<F>>, n: nat) -> Seq<HashOutput>;

    /// Whether a state is that of the given columns.
    spec fn keeps(&self, cols: Seq<Seq<F>>, n: nat, state: Self::State) -> bool;

    /// The opening of columns at a point.
    spec fn opens(&self, cols: Seq<Seq<F>>, point: Seq<F>, opening: Self::Opening) -> bool;

    /// Whether an opening of a commitment is accepted with the given values.
    spec fn accepts(
        &self,
        commitment: &InterleavedCommitment,
        point: &[F],
        values: Seq<F>,
        opening: &Self::Opening,
    ) -> bool;

    /// The two elements that a transcript absorbs for a digest.
    spec fn lanes(digest: HashOutput) -> Seq<F>;

    /// The size of an opening in bytes.
    spec fn opening_size(opening: Self::Opening) -> nat;

    /// Commits to columns.
    fn commit(&self, cols: &[&[F]], n: usize) -> (r: (Vec<HashOutput>, Self::State))
        requires
            n > 0,
            self.fits(n as nat, cols.len() as nat),
            cols_wf(slice_views(cols@), n as nat),
        ensures
            r.0@ == self.digests(slice_views(cols@), n as nat),
            self.keeps(slice_views(cols@), n as nat, r.1),
    ;

    /// Opens columns at a point. What was kept of them is used up.
    fn open(&self, cols: &[&[F]], n: usize, state: Self::State, point: &[F]) -> (opening:
        Self::Opening)
        requires
            n > 0,
            point.len() == n,
            self.fits(n as nat, cols.len() as nat),
            cols_wf(slice_views(cols@), n as nat),
            self.keeps(slice_views(cols@), n as nat, state),
        ensures
            self.opens(slice_views(cols@), point@, opening),
    ;

    /// Computes [`ColumnScheme::accepts`].
    fn verify(
        &self,
        commitment: &InterleavedCommitment,
        point: &[F],
        values: &[F],
        opening: &Self::Opening,
    ) -> (r: bool)
        requires
            point.len() > 0,
            commitment.log_rows == point.len(),
            commitment.n_cols == values.len(),
            self.fits(point.len() as nat, values.len() as nat),
        ensures
            r == self.accepts(commitment, point, values@, opening),
    ;

    /// Computes [`ColumnScheme::lanes`].
    fn digest_lanes(digest: &HashOutput) -> (r: [F; 2])
        ensures
            r@ == Self::lanes(*digest),
    ;

    /// Computes [`ColumnScheme::opening_size`].
    fn opening_byte_len(opening: &Self::Opening) -> (r: usize)
        requires
            Self::opening_size(*opening) <= usize::MAX,
        ensures
            r == Self::opening_size(*opening),
    ;

    /// The opening of committed columns is accepted with their values at the
    /// point, and with no others.
    proof fn complete(
        &self,
        cols: Seq<Seq<F>>,
        commitment: &InterleavedCommitment,
        point: &[F],
        values: Seq<F>,
        opening: &Self::Opening,
    )
        requires
            point.len() > 0,
            self.fits(point.len() as nat, cols.len()),
            cols_wf(cols, point.len() as nat),
            commitment.n_cols == cols.len(),
            commitment.log_rows == point.len(),
            commitment.cap.hashes@ == self.digests(cols, point.len() as nat),
            self.opens(cols, point@, *opening),
        ensures
            self.accepts(commitment, point, values, opening) <==> values == column_values(
                cols,
                point@,
            ),
    ;
}

/// The interleaved commitment with the mixed opening, as a scheme. Each opening
/// starts from the same transcript.
pub struct MixedScheme<C, H, P> {
    pub code: C,
    pub hasher: H,
    pub num_queries: usize,
    pub channel: P,
}

/// What is kept of columns between the commitment and the opening.
pub struct MixedState<F> {
    pub encoded_cols: Vec<Vec<F>>,
    pub source_tree: SourceMerkleTree,
}

impl<F: TowerField, P: FriChannel<F> + Copy, C: FriCode<F>, H: CryptographicHasher<F>> ColumnScheme<
    F,
> for MixedScheme<C, H, P> {
    type State = MixedState<F>;

    type Opening = MixedOpeningProof<F>;

    open spec fn fits(&self, n: nat, k: nat) -> bool {
        &&& self.num_queries > 0
        &&& 4 * pow2(n) <= usize::MAX
        &&& binding_limits(n, k, tau_of(n), self.num_queries as nat)
    }

    open spec fn digests(&self, cols: Seq<Seq<F>>, n: nat) -> Seq<HashOutput> {
        Seq::new(
            CAP_SEGMENTS as nat,
            |s: int| digest_of(segment_message(cols, n, s as nat)),
        ).push(node(SourceHasher, source_leaves(encoded_words(self.code, cols), n), n + 1, 0))
    }

    open spec fn keeps(&self, cols: Seq<Seq<F>>, n: nat, state: MixedState<F>) -> bool {
        let words = encoded_words(self.code, cols);
        &&& vec_views(state.encoded_cols@) == words
        &&& state.source_tree.of(source_leaves(words, n), n + 1)
    }

    open spec fn opens(&self, cols: Seq<Seq<F>>, point: Seq<F>, opening: MixedOpeningProof<F>) -> bool {
        is_mixed_proof(
            self.code,
            self.hasher,
            cols,
            point,
            Seq::empty(),
            self.num_queries as nat,
            self.channel,
            opening,
        )
    }

    open spec fn accepts(
        &self,
        commitment: &InterleavedCommitment,
        point: &[F],
        values: Seq<F>,
        opening: &MixedOpeningProof<F>,
    ) -> bool {
        mixed_verdict(
            &self.code,
            &self.hasher,
            commitment,
            point,
            Seq::empty(),
            opening,
            self.num_queries,
            self.channel,
        ).result == Ok::<Seq<F>, MixedOpenError>(values)
    }

    open spec fn lanes(digest: HashOutput) -> Seq<F> {
        lanes_of(digest@)
    }

    open spec fn opening_size(opening: MixedOpeningProof<F>) -> nat {
        opening.size()
    }

    fn commit(&self, cols: &[&[F]], n: usize) -> (r: (Vec<HashOutput>, MixedState<F>)) {
        let ghost views = slice_views(cols@);
        proof {
            assert(pow2(n as nat) == cols[0].len()) by {
                assert(views[0].len() == pow2(n as nat));
            }
            assert forall|c: int| 0 <= c < cols.len() implies (#[trigger] cols[c]).len()
                == cols[0].len() by {
                assert(views[c].len() == views[0].len());
            }
        }
        let (commitment, state) = interleaved_commit(cols, &self.code);
        proof {
            assert(views[0].len() == pow2(state.log_rows as nat));
            crate::fri::lemma_log_len(n as nat);
            crate::fri::lemma_log_len(state.log_rows as nat);
            let want = <Self as ColumnScheme<F>>::digests(self, views, n as nat);
            assert forall|s: int| 0 <= s < CAP_SEGMENTS + 1 implies commitment.cap.hashes@[s]
                == want[s] by {
                if s < CAP_SEGMENTS {
                    assert(commitment.cap.hashes[s] == digest_of(
                        segment_message(views, n as nat, s as nat),
                    ));
                }
            }
            assert(commitment.cap.hashes@ =~= want);
        }
        (
            commitment.cap.hashes,
            MixedState { encoded_cols: state.encoded_cols, source_tree: state.source_tree },
        )
    }

    fn open(&self, cols: &[&[F]], n: usize, state: MixedState<F>, point: &[F]) -> (opening:
        MixedOpeningProof<F>) {
        let ghost views = slice_views(cols@);
        let mut raw_cols: Vec<&[F]> = Vec::new();
        let mut c: usize = 0;
        while c < cols.len()
            invariant
                c <= cols.len(),
                raw_cols@ == cols@.take(c as int),
            decreases cols.len() - c,
        {
            raw_cols.push(cols[c]);
            proof {
                assert(raw_cols@ =~= cols@.take(c + 1));
            }
            c += 1;
        }
        proof {
            assert(slice_views(raw_cols@) =~= views);
        }
        let mut kept = InterleavedProverState {
            raw_cols,
            log_rows: n,
            n_cols: cols.len(),
            encoded_cols: state.encoded_cols,
            source_tree: state.source_tree,
        };
        let claims: Vec<EvalClaim<F>> = Vec::new();
        proof {
            assert(claims@ =~= Seq::<EvalClaim<F>>::empty());
        }
        let mut channel = self.channel;
        let opening = prove_mixed_opening(
            &kept,
            point,
            claims.as_slice(),
            &self.code,
            &mut channel,
            &self.hasher,
            self.num_queries,
        );
        wipe_columns(&mut kept.encoded_cols);
        opening
    }

    fn verify(
        &self,
        commitment: &InterleavedCommitment,
        point: &[F],
        values: &[F],
        opening: &MixedOpeningProof<F>,
    ) -> (r: bool) {
        let claims: Vec<EvalClaim<F>> = Vec::new();
        proof {
            assert(claims@ =~= Seq::<EvalClaim<F>>::empty());
        }
        let mut channel = self.channel;
        match verify_mixed_opening(
            commitment,
            point,
            claims.as_slice(),
            opening,
            &self.code,
            &mut channel,
            &self.hasher,
            self.num_queries,
        ) {
            Ok(got) => same_elems(got.as_slice(), values),
            Err(_) => false,
        }
    }

    fn digest_lanes(digest: &HashOutput) -> (r: [F; 2]) {
        digest_to_fields(digest)
    }

    fn opening_byte_len(opening: &MixedOpeningProof<F>) -> (r: usize) {
        opening.byte_len()
    }

    proof fn complete(
        &self,
        cols: Seq<Seq<F>>,
        commitment: &InterleavedCommitment,
        point: &[F],
        values: Seq<F>,
        opening: &MixedOpeningProof<F>,
    ) {
        lemma_pow2_adds(point.len() as nat, 2);
        vstd::arithmetic::power2::lemma2_to64();
        lemma_mixed_complete(
            &self.code,
            &self.hasher,
            commitment,
            cols,
            point,
            Seq::empty(),
            opening,
            self.num_queries,
            self.channel,
        );
    }
}

/// Whether two lists are equal.
fn same_elems<F: TowerField>(a: &[F], b: &[F]) -> (r: bool)
    ensures
        r == (a@ == b@),
{
    if a.len() != b.len() {
        return false;
    }
    let mut i: usize = 0;
    while i < a.len()
        invariant
            i <= a.len(),
            a.len() == b.len(),
            forall|k: int| 0 <= k < i ==> a[k] == #[trigger] b[k],
        decreases a.len() - i,
    {
        if !a[i].equals(b[i]) {
            proof {
                assert(a@[i as int] != b@[i as int]);
            }
            return false;
        }
        i += 1;
    }
    proof {
        assert(a@ =~= b@);
    }
    true
}

} // verus!
