//! Commitments to the columns of an authorization, and their openings.
//!
//! A reduction of claims on a private column ends in one claim on it. The claim
//! means something only against a commitment to the same column that was made
//! before any challenge was drawn. How columns are committed to and opened is
//! left to a [`ColumnScheme`].
use vstd::prelude::*;
use vstd::arithmetic::power2::pow2;
use crate::auth_killshot::absorb_pair;
use crate::batch_eval::BatchEvalReduction;
use crate::column_scheme::ColumnScheme;
use crate::field::TowerField;
use crate::hashing::HashOutput;
use crate::interleaved_commit::{InterleavedCommitment, MerkleCap, cols_wf, slice_views};
use crate::mixed_open::column_values;
use crate::transcript::{FiatShamir, absorb_all};

verus! {

/// The fewest variables of a committed column.
pub const AUTH_PCS_BASE_LOG: usize = 9;

/// The first element that the transcript absorbs of a commitment.
pub const AUTH_PCS_COMMIT_TAG: u128 = 0xA07D_6B12_C011_17ED;

/// The opening of a column, or of several at one point, with the commitment to
/// them.
#[derive(Clone, Debug, PartialEq, Eq)]
pub struct AuthMleOpeningProof<O> {
    pub commitment: InterleavedCommitment,
    pub opening: O,
}

/// The opening of several columns.
pub type AuthMleMultiOpeningProof<O> = AuthMleOpeningProof<O>;

impl<O> AuthMleOpeningProof<O> {
    /// The size in bytes: 32 a digest of the cap, and the opening.
    pub open spec fn size<F: TowerField, S: ColumnScheme<F, Opening = O>>(&self) -> nat {
        self.commitment.cap.hashes.len() as nat * 32 + S::opening_size(self.opening)
    }

    /// Computes [`AuthMleOpeningProof::size`].
    pub fn byte_len<F: TowerField, S: ColumnScheme<F, Opening = O>>(&self) -> (r: usize)
        requires
            self.size::<F, S>() <= usize::MAX,
        ensures
            r == self.size::<F, S>(),
    {
        self.commitment.cap.hashes.len() * 32 + S::opening_byte_len(&self.opening)
    }
}

/// Whether a commitment is to the given columns, each of `2^num_vars` values.
pub open spec fn commits<F: TowerField, S: ColumnScheme<F>>(
    commitment: InterleavedCommitment,
    scheme: S,
    cols: Seq<Seq<F>>,
    num_vars: nat,
) -> bool {
    &&& cols_wf(cols, num_vars)
    &&& commitment.n_cols == cols.len()
    &&& commitment.log_rows == num_vars
    &&& commitment.cap.hashes@ == scheme.digests(cols, num_vars)
}

/// Columns with the commitment to them. They can be opened once.
pub struct AuthMleCommittedColumns<'a, F, K> {
    pub commitment: InterleavedCommitment,
    pub columns: Vec<&'a [F]>,
    pub state: Option<K>,
}

impl<'a, F: TowerField, K> AuthMleCommittedColumns<'a, F, K> {
    /// Whether these are the given columns, not opened yet.
    pub open spec fn of<S: ColumnScheme<F, State = K>>(
        &self,
        scheme: S,
        cols: Seq<Seq<F>>,
        num_vars: nat,
    ) -> bool {
        &&& slice_views(self.columns@) == cols
        &&& self.state matches Some(state)
        &&& scheme.keeps(cols, num_vars, state)
        &&& commits(self.commitment, scheme, cols, num_vars)
    }
}

/// A column with the commitment to it. It can be opened once.
pub struct AuthMleCommittedColumn<'a, F, K> {
    pub commitment: InterleavedCommitment,
    pub column: &'a [F],
    pub state: Option<K>,
}

impl<'a, F: TowerField, K> AuthMleCommittedColumn<'a, F, K> {
    /// Whether this is the given column, not opened yet.
    pub open spec fn of<S: ColumnScheme<F, State = K>>(
        &self,
        scheme: S,
        column: Seq<F>,
        num_vars: nat,
    ) -> bool {
        &&& self.column@ == column
        &&& self.state matches Some(state)
        &&& scheme.keeps(seq![column], num_vars, state)
        &&& commits(self.commitment, scheme, seq![column], num_vars)
    }
}

/// Commits to columns.
pub fn commit_auth_mle_columns<'a, F: TowerField, S: ColumnScheme<F>>(
    columns: &[&'a [F]],
    num_vars: usize,
    scheme: &S,
) -> (r: AuthMleCommittedColumns<'a, F, S::State>)
    requires
        num_vars >= AUTH_PCS_BASE_LOG,
        cols_wf(slice_views(columns@), num_vars as nat),
        scheme.fits(num_vars as nat, columns.len() as nat),
    ensures
        r.of(*scheme, slice_views(columns@), num_vars as nat),
{
    let (hashes, state) = scheme.commit(columns, num_vars);
    let mut kept: Vec<&'a [F]> = Vec::new();
    let mut c: usize = 0;
    while c < columns.len()
        invariant
            c <= columns.len(),
            kept@ == columns@.take(c as int),
        decreases columns.len() - c,
    {
        kept.push(columns[c]);
        proof {
            assert(kept@ =~= columns@.take(c + 1));
        }
        c += 1;
    }
    proof {
        assert(kept@ =~= columns@);
    }
    let commitment = InterleavedCommitment {
        cap: MerkleCap { hashes },
        log_rows: num_vars,
        n_cols: columns.len(),
    };
    AuthMleCommittedColumns { commitment, columns: kept, state: Some(state) }
}

/// Commits to a column.
pub fn commit_auth_mle_column<'a, F: TowerField, S: ColumnScheme<F>>(
    column: &'a [F],
    num_vars: usize,
    scheme: &S,
) -> (r: AuthMleCommittedColumn<'a, F, S::State>)
    requires
        num_vars >= AUTH_PCS_BASE_LOG,
        column.len() == pow2(num_vars as nat),
        scheme.fits(num_vars as nat, 1),
    ensures
        r.of(*scheme, column@, num_vars as nat),
{
    let columns: [&'a [F]; 1] = [column];
    proof {
        assert(slice_views(columns@) =~= seq![column@]);
    }
    let (hashes, state) = scheme.commit(columns.as_slice(), num_vars);
    let commitment = InterleavedCommitment {
        cap: MerkleCap { hashes },
        log_rows: num_vars,
        n_cols: 1,
    };
    AuthMleCommittedColumn { commitment, column, state: Some(state) }
}

/// The transcript after the first `k` digests, each as its two lanes.
pub open spec fn lanes_absorbed<F: TowerField, T: FiatShamir<F>, S: ColumnScheme<F>>(
    channel: T,
    hashes: Seq<HashOutput>,
    k: nat,
) -> T
    decreases k,
{
    if k == 0 {
        channel
    } else {
        absorb_all(
            lanes_absorbed::<F, T, S>(channel, hashes, (k - 1) as nat),
            S::lanes(hashes[k - 1]),
        )
    }
}

/// The transcript after absorbing a commitment: a tag, the number of variables,
/// the number of digests, and the lanes of the digests.
pub open spec fn commitment_absorbed<F: TowerField, T: FiatShamir<F>, S: ColumnScheme<F>>(
    channel: T,
    commitment: InterleavedCommitment,
) -> T {
    let len = commitment.cap.hashes.len();
    lanes_absorbed::<F, T, S>(
        channel.absorbed(F::of_u128(AUTH_PCS_COMMIT_TAG)).absorbed(
            F::of_u128(commitment.log_rows as u128),
        ).absorbed(F::of_u128(len as u128)),
        commitment.cap.hashes@,
        len as nat,
    )
}

/// Absorbs a commitment, before any challenge is drawn.
pub fn absorb_auth_mle_commitment<F: TowerField, T: FiatShamir<F>, S: ColumnScheme<F>>(
    channel: &mut T,
    commitment: &InterleavedCommitment,
)
    ensures
        *final(channel) == commitment_absorbed::<F, T, S>(*old(channel), *commitment),
{
    channel.absorb(F::from_u128(AUTH_PCS_COMMIT_TAG));
    channel.absorb(F::from_u128(commitment.log_rows as u128));
    channel.absorb(F::from_u128(commitment.cap.hashes.len() as u128));
    let ghost start = *channel;
    let mut k: usize = 0;
    while k < commitment.cap.hashes.len()
        invariant
            k <= commitment.cap.hashes.len(),
            *channel == lanes_absorbed::<F, T, S>(start, commitment.cap.hashes@, k as nat),
        decreases commitment.cap.hashes.len() - k,
    {
        let lanes = S::digest_lanes(&commitment.cap.hashes[k]);
        absorb_pair(channel, &lanes);
        k += 1;
    }
}

/// A copy of a commitment.
pub fn copied_commitment(commitment: &InterleavedCommitment) -> (r: InterleavedCommitment)
    ensures
        r.cap.hashes@ == commitment.cap.hashes@,
        r.log_rows == commitment.log_rows,
        r.n_cols == commitment.n_cols,
{
    let mut hashes: Vec<[u8; 32]> = Vec::new();
    let mut i: usize = 0;
    while i < commitment.cap.hashes.len()
        invariant
            i <= commitment.cap.hashes.len(),
            hashes@ == commitment.cap.hashes@.take(i as int),
        decreases commitment.cap.hashes.len() - i,
    {
        let h: [u8; 32] = commitment.cap.hashes[i];
        hashes.push(h);
        proof {
            assert(hashes@ =~= commitment.cap.hashes@.take(i + 1));
        }
        i += 1;
    }
    proof {
        assert(hashes@ =~= commitment.cap.hashes@);
    }
    InterleavedCommitment {
        cap: MerkleCap { hashes },
        log_rows: commitment.log_rows,
        n_cols: commitment.n_cols,
    }
}

/// The opening of columns at a point.
pub open spec fn is_opening<F: TowerField, S: ColumnScheme<F>>(
    scheme: S,
    cols: Seq<Seq<F>>,
    point: Seq<F>,
    proof: AuthMleOpeningProof<S::Opening>,
) -> bool {
    &&& commits(proof.commitment, scheme, cols, point.len())
    &&& scheme.opens(cols, point, proof.opening)
}

/// Opens columns at a point. The columns cannot be opened again.
pub fn open_auth_mle_columns_committed<'a, F: TowerField, S: ColumnScheme<F>>(
    committed: &mut AuthMleCommittedColumns<'a, F, S::State>,
    num_vars: usize,
    point: &[F],
    scheme: &S,
) -> (proof: AuthMleMultiOpeningProof<S::Opening>)
    requires
        num_vars >= AUTH_PCS_BASE_LOG,
        point.len() == num_vars,
        scheme.fits(num_vars as nat, old(committed).columns.len() as nat),
        old(committed).of(*scheme, slice_views(old(committed).columns@), num_vars as nat),
    ensures
        is_opening(*scheme, slice_views(old(committed).columns@), point@, proof),
        proof.commitment.cap.hashes@ == old(committed).commitment.cap.hashes@,
        final(committed).commitment == old(committed).commitment,
        final(committed).columns == old(committed).columns,
        final(committed).state is None,
{
    let state = committed.state.take().unwrap();
    let opening = scheme.open(committed.columns.as_slice(), num_vars, state, point);
    AuthMleOpeningProof { commitment: copied_commitment(&committed.commitment), opening }
}

/// Opens a column at the point of a reduction. The column cannot be opened
/// again.
pub fn open_auth_mle_committed<'a, F: TowerField, S: ColumnScheme<F>>(
    committed: &mut AuthMleCommittedColumn<'a, F, S::State>,
    num_vars: usize,
    reduction: &BatchEvalReduction<F>,
    scheme: &S,
) -> (proof: AuthMleOpeningProof<S::Opening>)
    requires
        num_vars >= AUTH_PCS_BASE_LOG,
        reduction.point.len() == num_vars,
        scheme.fits(num_vars as nat, 1),
        old(committed).of(*scheme, old(committed).column@, num_vars as nat),
    ensures
        is_opening(*scheme, seq![old(committed).column@], reduction.point@, proof),
        proof.commitment.cap.hashes@ == old(committed).commitment.cap.hashes@,
        final(committed).commitment == old(committed).commitment,
        final(committed).column == old(committed).column,
        final(committed).state is None,
{
    let state = committed.state.take().unwrap();
    let columns: [&'a [F]; 1] = [committed.column];
    proof {
        assert(slice_views(columns@) =~= seq![committed.column@]);
    }
    let opening = scheme.open(
        columns.as_slice(),
        num_vars,
        state,
        reduction.point.as_slice(),
    );
    AuthMleOpeningProof { commitment: copied_commitment(&committed.commitment), opening }
}

/// Whether an opening of columns at a point is accepted with the given values.
pub open spec fn opening_accepted<'b, F: TowerField, S: ColumnScheme<F>>(
    scheme: &'b S,
    proof: &'b AuthMleOpeningProof<S::Opening>,
    num_vars: nat,
    point: &'b [F],
    values: Seq<F>,
) -> bool {
    &&& num_vars >= AUTH_PCS_BASE_LOG
    &&& point.len() == num_vars
    &&& proof.commitment.log_rows == num_vars
    &&& proof.commitment.n_cols == values.len()
    &&& scheme.accepts(&proof.commitment, point, values, &proof.opening)
}

/// Verifies an opening of columns at one point.
pub fn verify_auth_mle_multi_opening<F: TowerField, S: ColumnScheme<F>>(
    proof: &AuthMleMultiOpeningProof<S::Opening>,
    num_vars: usize,
    point: &[F],
    values: &[F],
    scheme: &S,
) -> (r: bool)
    requires
        num_vars >= AUTH_PCS_BASE_LOG ==> scheme.fits(num_vars as nat, values.len() as nat),
    ensures
        r == opening_accepted(scheme, proof, num_vars as nat, point, values@),
{
    if num_vars < AUTH_PCS_BASE_LOG || point.len() != num_vars {
        return false;
    }
    if proof.commitment.log_rows != num_vars || proof.commitment.n_cols != values.len() {
        return false;
    }
    scheme.verify(&proof.commitment, point, values, &proof.opening)
}

/// Verifies an opening of a column against a reduced claim.
pub fn verify_auth_mle_opening<F: TowerField, S: ColumnScheme<F>>(
    proof: &AuthMleOpeningProof<S::Opening>,
    num_vars: usize,
    reduction: &BatchEvalReduction<F>,
    scheme: &S,
) -> (r: bool)
    requires
        num_vars >= AUTH_PCS_BASE_LOG ==> scheme.fits(num_vars as nat, 1),
    ensures
        forall|point: &[F]|
            point@ == reduction.point@ ==> r == #[trigger] opening_accepted(
                scheme,
                proof,
                num_vars as nat,
                point,
                seq![reduction.value],
            ),
{
    let values = [reduction.value];
    proof {
        assert(values@ =~= seq![reduction.value]);
    }
    let point = reduction.point.as_slice();
    let r = verify_auth_mle_multi_opening(proof, num_vars, point, values.as_slice(), scheme);
    proof {
        assert forall|p: &[F]| p@ == reduction.point@ implies r == #[trigger] opening_accepted(
            scheme,
            proof,
            num_vars as nat,
            p,
            seq![reduction.value],
        ) by {
            lemma_same_slice(p, point);
        }
    }
    r
}

/// Slices with the same elements are the same.
pub proof fn lemma_same_slice<F>(a: &[F], b: &[F])
    requires
        a@ == b@,
    ensures
        a == b,
{
    assert(a =~= b);
}

/// Completeness: the opening of committed columns is accepted with their values
/// at the point, and with no others.
pub proof fn lemma_opening_complete<'b, F: TowerField, S: ColumnScheme<F>>(
    scheme: &'b S,
    cols: Seq<Seq<F>>,
    proof: &'b AuthMleOpeningProof<S::Opening>,
    num_vars: nat,
    point: &'b [F],
    values: Seq<F>,
)
    requires
        num_vars >= AUTH_PCS_BASE_LOG,
        point.len() == num_vars,
        scheme.fits(num_vars, cols.len()),
        is_opening(*scheme, cols, point@, *proof),
    ensures
        opening_accepted(scheme, proof, num_vars, point, values) <==> values == column_values(
            cols,
            point@,
        ),
{
    scheme.complete(cols, &proof.commitment, point, values, &proof.opening);
}

} // verus!
