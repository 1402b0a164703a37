//! The binding of an opened word to committed columns.
//!
//! The prover reveals the table that is left when the tensor variables are set,
//! commits the words of the folds in between, and opens all of them on random
//! paths that start at the words of the committed columns.
use vstd::prelude::*;
use vstd::arithmetic::power2::{lemma_pow2_adds, lemma_pow2_pos, lemma_pow2_strictly_increases, pow2};
use crate::compact_fri::{CompactFriQueryContext, FriContext, first_bad, gen_compact_queries, lemma_first_bad_stays, lemma_none_bad, masked, masked_values, query_count, query_indices, total_len, word_root, word_tree};
use crate::field::TowerField;
use crate::fri::{CryptographicHasher, FriChannel, FriCode, digest_of, high_pair_fold, pair_positions};
use crate::hashing::{HashOutput, same_hash};
use crate::high_fold::{build_high_tensor_layers, build_high_tensor_layers_from_source_code, high_leaf_message, high_leaves, high_pair_leaf_hash, high_pair_leaf_index, high_pair_parity, high_pair_positions, high_pair_tree_depth, high_table, horner, horner_table, layers_of, lemma_encoded_horner, lemma_high_table_len, lemma_pair_leaf, pair_leaf, pair_parity, tensor_high_fold_pair};
use crate::interleaved_commit::{InterleavedCommitment, InterleavedProverState, SourceBatchedMerkleProof, SourceHash, SourceHasher, encoded_words, leaf_symbols, lemma_log_bound, lemma_pair_positions, pair_symbols, row_at, slice_views, source_leaf_hash, source_leaf_message, source_leaf_positions, source_leaves, source_root_from_cap, source_tree_depth, vec_views, verify_source_batched_merkle_proof, words_wf};
use crate::merkle::{MerkleBatchError, batch_siblings, batch_verdict, keys_of, lemma_batch_complete, node, sorted_keys};
use crate::mle::{evaluate_slice, fold, lemma_half_pow2, mle, pow2_usize};
use crate::poly::pow;
use crate::shift::powers;
use crate::short_hash::{ShortBatchedMerkleProof, ShortHash, build_short_batched_merkle_proof, lemma_short_complete, short_digest_of, short_hash_to_output, short_root, short_siblings, short_verdict, verify_short_batched_merkle_proof, wide};
use crate::sum::{lemma_sum_ext, sum};
use crate::table::{copied, subrange};
use crate::transcript::{FiatShamir, absorb_all, absorb_slice, challenges, squeezed_by};

verus! {

/// The tag that the binding absorbs first.
pub const MIXED_SOURCE_BINDING_TAG: u128 = 0x5B1D_0000_0000_0001;

/// A proof that an opened word belongs to committed columns.
#[derive(Clone, Debug, PartialEq, Eq)]
pub struct SourceBindingProof<F> {
    /// The table that is left when the tensor variables are set.
    pub h_evals: Vec<F>,
    /// The roots of the folded layers in between.
    pub folded_roots: Vec<ShortHash>,
    /// For every query, the two symbols of every column.
    pub source_symbols: Vec<F>,
    /// The proof of the source symbols.
    pub source_merkle_batch: SourceBatchedMerkleProof,
    /// For every folded layer, the two symbols of every query.
    pub folded_queried_symbols: Vec<Vec<(F, F)>>,
    /// The proofs of the folded layers' symbols.
    pub folded_merkle_batch: Vec<ShortBatchedMerkleProof>,
}

impl<F: TowerField> SourceBindingProof<F> {
    /// The size in bytes: 16 a field element, 32 a digest of the source tree, 16
    /// one of a folded layer.
    pub open spec fn size(&self) -> nat {
        let symbols = total_len(
            |i: int| self.folded_queried_symbols[i].len() as nat,
            self.folded_queried_symbols.len() as nat,
        );
        let siblings = total_len(
            |i: int| self.folded_merkle_batch[i].siblings.len() as nat,
            self.folded_merkle_batch.len() as nat,
        );
        self.h_evals.len() as nat * 16 + self.folded_roots.len() as nat * 16
            + self.source_symbols.len() as nat * 16 + self.source_merkle_batch.siblings.len() as nat
            * 32 + symbols * 32 + siblings * 16
    }

    /// Computes [`SourceBindingProof::size`].
    pub fn byte_len(&self) -> (r: usize)
        requires
            self.size() <= usize::MAX,
        ensures
            r == self.size(),
    {
        let ghost fs = |i: int| self.folded_queried_symbols[i].len() as nat;
        let ghost fb = |i: int| self.folded_merkle_batch[i].siblings.len() as nat;
        let mut symbols: usize = 0;
        let mut i: usize = 0;
        while i < self.folded_queried_symbols.len()
            invariant
                i <= self.folded_queried_symbols.len(),
                fs == (|i: int| self.folded_queried_symbols[i].len() as nat),
                symbols == total_len(fs, i as nat),
                total_len(fs, self.folded_queried_symbols.len() as nat) * 32 <= usize::MAX,
            decreases self.folded_queried_symbols.len() - i,
        {
            proof {
                crate::compact_fri::lemma_total_len_mono(
                    fs,
                    (i + 1) as nat,
                    self.folded_queried_symbols.len() as nat,
                );
            }
            symbols = symbols + self.folded_queried_symbols[i].len();
            i += 1;
        }
        let mut siblings: usize = 0;
        let mut j: usize = 0;
        while j < self.folded_merkle_batch.len()
            invariant
                j <= self.folded_merkle_batch.len(),
                fb == (|i: int| self.folded_merkle_batch[i].siblings.len() as nat),
                siblings == total_len(fb, j as nat),
                total_len(fb, self.folded_merkle_batch.len() as nat) * 16 <= usize::MAX,
            decreases self.folded_merkle_batch.len() - j,
        {
            proof {
                crate::compact_fri::lemma_total_len_mono(
                    fb,
                    (j + 1) as nat,
                    self.folded_merkle_batch.len() as nat,
                );
            }
            siblings = siblings + self.folded_merkle_batch[j].siblings.len();
            j += 1;
        }
        self.h_evals.len() * 16 + self.folded_roots.len() * 16 + self.source_symbols.len() * 16
            + self.source_merkle_batch.siblings.len() * 32 + symbols * 2 * 16 + siblings * 16
    }
}

/// Why a binding was refused.
#[derive(Clone, Copy, Debug, PartialEq, Eq, Structural)]
pub enum SourceBindingError {
    /// The point does not have a coordinate for every row variable.
    PointDimension,
    /// The rounds do not have a variable for every row variable.
    ContextDimension,
    /// The revealed table has another length.
    HLength { expected: usize, got: usize },
    /// The number of folded layers is another one.
    RoundCount,
    /// The revealed table does not have the claimed value.
    HClaim,
    /// The word of the revealed table is not the final word.
    FinalCodeword,
    /// The word of the revealed table does not have the root of the first round.
    RoundZeroRoot,
    /// The number of source symbols is another one.
    SourceSymbolLength { expected: usize, got: usize },
    /// The commitment holds no source root.
    MissingSourceRoot,
    /// A batched Merkle proof was refused.
    Merkle(MerkleBatchError),
    /// A folded layer has another number of symbols than there are queries.
    SymbolCount { layer: usize, expected: usize, got: usize },
    /// A symbol is not the fold of the layer before.
    PathInconsistency { query: usize, layer: usize },
    /// The last fold is not in the word of the revealed table; both by their bit
    /// patterns.
    HCodeMismatch { query: usize, got: u128, expected: u128 },
}

/// The transcript after the first `k` roots of the folded layers.
pub open spec fn roots_committed<F, T: FriChannel<F>>(
    channel: T,
    roots: Seq<ShortHash>,
    log_n: nat,
    k: nat,
) -> T
    decreases k,
{
    if k == 0 {
        channel
    } else {
        roots_committed(channel, roots, log_n, (k - 1) as nat).committed(
            wide(roots[k - 1]),
            (log_n - k + 1) as nat,
        )
    }
}

/// The transcript after the commitments of a binding.
pub open spec fn binding_observed<F: TowerField, T: FriChannel<F>>(
    channel: T,
    roots: Seq<ShortHash>,
    h: Seq<F>,
    log_n: nat,
) -> T {
    roots_committed(
        absorb_all(channel.absorbed(F::of_u128(MIXED_SOURCE_BINDING_TAG)), h),
        roots,
        log_n,
        roots.len(),
    )
}

/// Absorbs the commitments of a binding.
pub fn observe_source_binding_commitments<F: TowerField, T: FriChannel<F>>(
    channel: &mut T,
    folded_roots: &[ShortHash],
    h_evals: &[F],
    log_n: usize,
)
    requires
        folded_roots.len() < log_n < usize::MAX - 1,
    ensures
        *final(channel) == binding_observed(
            *old(channel),
            folded_roots@,
            h_evals@,
            log_n as nat,
        ),
{
    channel.absorb(F::from_u128(MIXED_SOURCE_BINDING_TAG));
    absorb_slice(channel, h_evals);
    let ghost start = *channel;
    let mut i: usize = 0;
    while i < folded_roots.len()
        invariant
            i <= folded_roots.len() < log_n < usize::MAX - 1,
            *channel == roots_committed(start, folded_roots@, log_n as nat, i as nat),
        decreases folded_roots.len() - i,
    {
        let layer_log: usize = log_n - 1 - i;
        channel.observe_vector_commitment(
            &short_hash_to_output(&folded_roots[i]),
            high_pair_tree_depth(layer_log),
        );
        i += 1;
    }
}

/// The leaves that the queries meet after `k` folds: for no fold, in the tree
/// over the columns.
pub open spec fn path_leaves(queries: Seq<usize>, log_n: nat, k: nat) -> Seq<usize>
    decreases k,
{
    if k == 0 {
        Seq::new(queries.len(), |i: int| pair_leaf(queries[i] as int, log_n) as usize)
    } else {
        let before = path_leaves(queries, log_n, (k - 1) as nat);
        Seq::new(
            queries.len(),
            |i: int| pair_leaf(before[i] as int, (log_n - k) as nat) as usize,
        )
    }
}

/// The leaves stay within their trees.
pub proof fn lemma_path_leaves(queries: Seq<usize>, log_n: nat, k: nat)
    requires
        k < log_n,
        pow2(log_n + 2) <= usize::MAX,
        forall|i: int| 0 <= i < queries.len() ==> #[trigger] queries[i] < pow2(log_n + 2),
    ensures
        path_leaves(queries, log_n, k).len() == queries.len(),
        forall|i: int|
            0 <= i < queries.len() ==> #[trigger] path_leaves(queries, log_n, k)[i] < pow2(
                (log_n - k + 1) as nat,
            ),
        k == 0 ==> forall|i: int|
            0 <= i < queries.len() ==> #[trigger] path_leaves(queries, log_n, k)[i] == pair_leaf(
                queries[i] as int,
                log_n,
            ),
        k > 0 ==> forall|i: int|
            0 <= i < queries.len() ==> #[trigger] path_leaves(queries, log_n, k)[i] == pair_leaf(
                path_leaves(queries, log_n, (k - 1) as nat)[i] as int,
                (log_n - k) as nat,
            ),
    decreases k,
{
    let now = path_leaves(queries, log_n, k);
    if k == 0 {
        assert forall|i: int| 0 <= i < queries.len() implies #[trigger] now[i] < pow2(
            (log_n + 1) as nat,
        ) && now[i] == pair_leaf(queries[i] as int, log_n) by {
            assert(queries[i] < pow2(log_n + 2));
            lemma_pair_leaf(queries[i] as int, log_n);
        }
    } else {
        lemma_path_leaves(queries, log_n, (k - 1) as nat);
        let before = path_leaves(queries, log_n, (k - 1) as nat);
        assert forall|i: int| 0 <= i < queries.len() implies #[trigger] now[i] < pow2(
            (log_n - k + 1) as nat,
        ) && now[i] == pair_leaf(before[i] as int, (log_n - k) as nat) by {
            assert(before[i] < pow2((log_n - k + 2) as nat));
            lemma_pair_leaf(before[i] as int, (log_n - k) as nat);
        }
    }
}

/// The symbols of one query, out of those of all queries.
pub open spec fn source_slice<F>(symbols: Seq<F>, n_cols: nat, i: int) -> Seq<F> {
    symbols.subrange(i * (2 * n_cols), i * (2 * n_cols) + 2 * n_cols)
}

/// The combinations of the first and of the second symbols of all columns.
pub open spec fn reduced_pair<F: TowerField>(symbols: Seq<F>, gamma: F) -> (F, F) {
    let n = symbols.len() / 2;
    (
        horner(gamma, Seq::new(n, |k: int| symbols[2 * k])),
        horner(gamma, Seq::new(n, |k: int| symbols[2 * k + 1])),
    )
}

/// The digests of the source leaves.
pub open spec fn source_digests<F: TowerField>(
    symbols: Seq<F>,
    n_cols: nat,
    log_n: nat,
    leaves: Seq<usize>,
) -> Seq<HashOutput> {
    Seq::new(
        leaves.len(),
        |i: int|
            digest_of(
                source_leaf_message(
                    log_n,
                    n_cols,
                    leaves[i] as nat,
                    source_slice(symbols, n_cols, i),
                ),
            ),
    )
}

/// The first folds.
pub open spec fn first_folds<F: TowerField>(
    symbols: Seq<F>,
    n_cols: nat,
    gamma: F,
    r: F,
    log_n: nat,
    leaves: Seq<usize>,
) -> Seq<F> {
    Seq::new(
        leaves.len(),
        |i: int|
            {
                let (s0, s1) = reduced_pair(source_slice(symbols, n_cols, i), gamma);
                high_pair_fold(r, log_n, leaves[i] as int, s0, s1)
            },
    )
}

/// The digests of the leaves of a folded layer.
pub open spec fn layer_digests<F: TowerField>(
    symbols: Seq<(F, F)>,
    log: nat,
    leaves: Seq<usize>,
) -> Seq<ShortHash> {
    Seq::new(
        leaves.len(),
        |i: int|
            short_digest_of(high_leaf_message(log, leaves[i] as nat, symbols[i].0, symbols[i].1)),
    )
}

/// The symbol of a pair that continues a path.
pub open spec fn path_symbol<F>(symbols: Seq<(F, F)>, before: Seq<usize>, log: nat, i: int) -> F {
    if pair_parity(before[i] as int, log) == 1 {
        symbols[i].1
    } else {
        symbols[i].0
    }
}

/// The check of one folded layer: the next folds, or why it is refused.
pub open spec fn layer_verdict<F: TowerField>(
    symbols: Seq<(F, F)>,
    siblings: Seq<ShortHash>,
    root: ShortHash,
    before: Seq<usize>,
    leaves: Seq<usize>,
    log: nat,
    r: F,
    layer: nat,
    folded: Seq<F>,
) -> Result<Seq<F>, SourceBindingError> {
    if symbols.len() != leaves.len() {
        Err(
            SourceBindingError::SymbolCount {
                layer: layer as usize,
                expected: leaves.len() as usize,
                got: symbols.len() as usize,
            },
        )
    } else {
        match short_verdict(
            root,
            siblings,
            log + 1,
            leaves,
            layer_digests(symbols, log, leaves),
        ) {
            Err(e) => Err(SourceBindingError::Merkle(e)),
            Ok(_) => match first_bad(
                leaves.len(),
                |i: int| folded[i] == path_symbol(symbols, before, log, i),
            ) {
                Some(i) => Err(
                    SourceBindingError::PathInconsistency {
                        query: i as usize,
                        layer: layer as usize,
                    },
                ),
                None => Ok(
                    Seq::new(
                        leaves.len(),
                        |i: int|
                            high_pair_fold(
                                r,
                                log,
                                leaves[i] as int,
                                symbols[i].0,
                                symbols[i].1,
                            ),
                    ),
                ),
            },
        }
    }
}

/// The folds after `k` folded layers, or why one is refused.
pub open spec fn path_run<F: TowerField>(
    proof: SourceBindingProof<F>,
    beta: Seq<F>,
    queries: Seq<usize>,
    log_n: nat,
    folded: Seq<F>,
    k: nat,
) -> Result<Seq<F>, SourceBindingError>
    decreases k,
{
    if k == 0 {
        Ok(folded)
    } else {
        match path_run(proof, beta, queries, log_n, folded, (k - 1) as nat) {
            Err(e) => Err(e),
            Ok(before) => layer_verdict(
                proof.folded_queried_symbols[k - 1]@,
                proof.folded_merkle_batch[k - 1].siblings@,
                proof.folded_roots[k - 1],
                path_leaves(queries, log_n, (k - 1) as nat),
                path_leaves(queries, log_n, k),
                (log_n - k) as nat,
                beta[beta.len() - 1 - k],
                (k - 1) as nat,
                before,
            ),
        }
    }
}

/// What is wrong with a binding before its commitments are absorbed.
pub open spec fn binding_shape_error<F: TowerField, C: FriCode<F>, H: CryptographicHasher<F>>(
    code: C,
    hasher: H,
    log_n: nat,
    point: Seq<F>,
    proof: SourceBindingProof<F>,
    ctx: FriContext<F>,
) -> Option<SourceBindingError> {
    let layers = if ctx.tau == 0 {
        0
    } else {
        ctx.tau - 1
    };
    let right = point.take(ctx.n_rounds as int);
    let word = code.encoded(masked(proof.h_evals@, right));
    if point.len() != log_n {
        Some(SourceBindingError::PointDimension)
    } else if ctx.tau + ctx.n_rounds != log_n {
        Some(SourceBindingError::ContextDimension)
    } else if proof.h_evals.len() != pow2(ctx.n_rounds) {
        Some(
            SourceBindingError::HLength {
                expected: pow2(ctx.n_rounds) as usize,
                got: proof.h_evals.len(),
            },
        )
    } else if proof.folded_roots.len() != layers || proof.folded_queried_symbols.len() != layers
        || proof.folded_merkle_batch.len() != layers {
        Some(SourceBindingError::RoundCount)
    } else if mle(proof.h_evals@, right) != ctx.claim {
        Some(SourceBindingError::HClaim)
    } else if ctx.n_rounds == 0 && word != ctx.final_word {
        Some(SourceBindingError::FinalCodeword)
    } else if ctx.n_rounds > 0 && (ctx.roots.len() == 0 || ctx.roots[0] != word_root(
        hasher,
        word,
        ctx.n_rounds + 1,
    )) {
        Some(SourceBindingError::RoundZeroRoot)
    } else {
        None
    }
}

/// The verdict on the queried symbols of a binding.
pub open spec fn binding_query_verdict<F: TowerField, C: FriCode<F>>(
    code: C,
    commitment: InterleavedCommitment,
    gamma: F,
    proof: SourceBindingProof<F>,
    beta: Seq<F>,
    queries: Seq<usize>,
) -> Result<(), SourceBindingError> {
    let log_n = commitment.log_rows as nat;
    let n_cols = commitment.n_cols as nat;
    let hashes = commitment.cap.hashes@;
    let leaves = path_leaves(queries, log_n, 0);
    let symbols = proof.source_symbols@;
    if symbols.len() != queries.len() * n_cols * 2 {
        Err(
            SourceBindingError::SourceSymbolLength {
                expected: (queries.len() * n_cols * 2) as usize,
                got: symbols.len() as usize,
            },
        )
    } else if hashes.len() == 0 {
        Err(SourceBindingError::MissingSourceRoot)
    } else {
        match batch_verdict(
            SourceHasher,
            hashes.last(),
            proof.source_merkle_batch.siblings@,
            log_n + 1,
            leaves,
            source_digests(symbols, n_cols, log_n, leaves),
        ) {
            Err(e) => Err(SourceBindingError::Merkle(e)),
            Ok(_) => {
                let folded = first_folds(symbols, n_cols, gamma, beta.last(), log_n, leaves);
                let k = (beta.len() - 1) as nat;
                match path_run(proof, beta, queries, log_n, folded, k) {
                    Err(e) => Err(e),
                    Ok(last) => {
                        let word = code.encoded(proof.h_evals@);
                        let at = path_leaves(queries, log_n, k);
                        match first_bad(queries.len(), |i: int| last[i] == word[at[i] as int]) {
                            None => Ok(()),
                            Some(i) => Err(
                                SourceBindingError::HCodeMismatch {
                                    query: i as usize,
                                    got: last[i].bits(),
                                    expected: word[at[i] as int].bits(),
                                },
                            ),
                        }
                    },
                }
            },
        }
    }
}

/// The queries of a binding.
pub open spec fn binding_queries<F: TowerField, T: FriChannel<F>>(
    proof: SourceBindingProof<F>,
    log_n: nat,
    num_queries: nat,
    before: T,
) -> Seq<usize> {
    query_indices(
        binding_observed(before, proof.folded_roots@, proof.h_evals@, log_n),
        log_n + 2,
        num_queries,
    )
}

/// The transcript once the queries of a binding are drawn.
pub open spec fn binding_channel<F: TowerField, T: FriChannel<F>>(
    proof: SourceBindingProof<F>,
    log_n: nat,
    num_queries: nat,
    before: T,
) -> T {
    squeezed_by(
        binding_observed(before, proof.folded_roots@, proof.h_evals@, log_n),
        query_count(log_n + 2, num_queries),
    )
}

/// The verdict on a binding.
pub open spec fn binding_verdict<
    F: TowerField,
    T: FriChannel<F>,
    C: FriCode<F>,
    H: CryptographicHasher<F>,
>(
    code: C,
    hasher: H,
    commitment: InterleavedCommitment,
    gamma: F,
    point: Seq<F>,
    proof: SourceBindingProof<F>,
    ctx: FriContext<F>,
    num_queries: nat,
    before: T,
) -> Result<(), SourceBindingError> {
    let log_n = commitment.log_rows as nat;
    match binding_shape_error(code, hasher, log_n, point, proof, ctx) {
        Some(e) => Err(e),
        None => binding_query_verdict(
            code,
            commitment,
            gamma,
            proof,
            ctx.beta,
            binding_queries(proof, log_n, num_queries, before),
        ),
    }
}

/// The transcript after the check of a binding.
pub open spec fn binding_channel_after<
    F: TowerField,
    T: FriChannel<F>,
    C: FriCode<F>,
    H: CryptographicHasher<F>,
>(
    code: C,
    hasher: H,
    commitment: InterleavedCommitment,
    point: Seq<F>,
    proof: SourceBindingProof<F>,
    ctx: FriContext<F>,
    num_queries: nat,
    before: T,
) -> T {
    let log_n = commitment.log_rows as nat;
    match binding_shape_error(code, hasher, log_n, point, proof, ctx) {
        Some(e) => before,
        None => binding_channel(proof, log_n, num_queries, before),
    }
}

/// Whether two tables are equal.
fn same_elems<F: TowerField>(a: &[F], b: &[F]) -> (r: bool)
    ensures
        r == (a@ == b@),
{
    if a.len() != b.len() {
        return false;
    }
    let mut i: usize = 0;
    while i < a.len()
        invariant
            i <= a.len(),
            a.len() == b.len(),
            forall|k: int| 0 <= k < i ==> a@[k] == b@[k],
        decreases a.len() - i,
    {
        if !a[i].equals(b[i]) {
            return false;
        }
        i += 1;
    }
    proof {
        assert(a@ =~= b@);
    }
    true
}

/// Whether the revealed table has the value that the rounds claim.
pub fn assert_source_h_claim_matches_compact<F: TowerField>(
    primary_point: &[F],
    ctx: &CompactFriQueryContext<F>,
    h_evals: &[F],
) -> (r: Result<(), SourceBindingError>)
    requires
        ctx.n_rounds <= primary_point.len(),
        h_evals.len() == pow2(ctx.n_rounds as nat),
    ensures
        r == if mle(h_evals@, primary_point@.take(ctx.n_rounds as int))
            == ctx.initial_sumcheck_claim {
            Ok::<(), SourceBindingError>(())
        } else {
            Err(SourceBindingError::HClaim)
        },
{
    let right = subrange(primary_point, 0, ctx.n_rounds);
    proof {
        assert(right@ =~= primary_point@.take(ctx.n_rounds as int));
    }
    let value = evaluate_slice(h_evals, right.as_slice());
    if value.equals(ctx.initial_sumcheck_claim) {
        Ok(())
    } else {
        Err(SourceBindingError::HClaim)
    }
}

/// Whether the revealed table has the value that the rounds claim, and gives
/// the word that they start from.
pub fn assert_source_h_matches_compact<
    F: TowerField,
    C: FriCode<F>,
    H: CryptographicHasher<F>,
>(
    primary_point: &[F],
    ctx: &CompactFriQueryContext<F>,
    h_evals: &[F],
    code: &C,
    hasher: &H,
) -> (r: Result<(), SourceBindingError>)
    requires
        ctx.n_rounds <= primary_point.len(),
        ctx.n_rounds < 62,
        h_evals.len() == pow2(ctx.n_rounds as nat),
        4 * h_evals.len() <= usize::MAX,
    ensures
        ({
            let right = primary_point@.take(ctx.n_rounds as int);
            let word = code.encoded(masked(h_evals@, right));
            let nr = ctx.n_rounds as nat;
            r == if mle(h_evals@, right) != ctx.initial_sumcheck_claim {
                Err::<(), SourceBindingError>(SourceBindingError::HClaim)
            } else if nr == 0 && word != ctx.final_codeword@ {
                Err(SourceBindingError::FinalCodeword)
            } else if nr > 0 && (ctx.fri_roots.len() == 0 || ctx.fri_roots[0] != word_root(
                *hasher,
                word,
                nr + 1,
            )) {
                Err(SourceBindingError::RoundZeroRoot)
            } else {
                Ok(())
            }
        }),
{
    match assert_source_h_claim_matches_compact(primary_point, ctx, h_evals) {
        Ok(_) => {},
        Err(e) => {
            return Err(e);
        },
    }
    let right = subrange(primary_point, 0, ctx.n_rounds);
    proof {
        assert(right@ =~= primary_point@.take(ctx.n_rounds as int));
    }
    let g_evals = masked_values(h_evals, right.as_slice());
    proof {
        assert(pow2(ctx.n_rounds as nat) == g_evals.len());
        code.encoded_len(g_evals@, ctx.n_rounds as nat);
    }
    let g_code = code.encode(g_evals.as_slice());
    if ctx.n_rounds == 0 {
        if !same_elems(g_code.as_slice(), ctx.final_codeword.as_slice()) {
            return Err(SourceBindingError::FinalCodeword);
        }
        return Ok(());
    }
    let tree = word_tree(hasher, &g_code, ctx.n_rounds + 1);
    proof {
        vstd::arithmetic::power2::lemma2_to64();
        let d = (ctx.n_rounds + 1) as int;
        assert(tree.layers[d].len() == pow2(0));
        assert(tree.layers[d][0] == word_root(*hasher, g_code@, d as nat));
    }
    let root = tree.get_root();
    if ctx.fri_roots.len() == 0 || !same_hash(&ctx.fri_roots[0], &root) {
        return Err(SourceBindingError::RoundZeroRoot);
    }
    Ok(())
}

/// The combinations of the first and of the second symbols of all columns by
/// some weights.
pub open spec fn weighted_pair<F: TowerField>(symbols: Seq<F>, weights: Seq<F>) -> (F, F) {
    (
        sum(weights.len(), |k: int| weights[k].mul(symbols[2 * k])),
        sum(weights.len(), |k: int| weights[k].mul(symbols[2 * k + 1])),
    )
}

proof fn lemma_weighted_pair<F: TowerField>(symbols: Seq<F>, weights: Seq<F>, gamma: F)
    requires
        symbols.len() == 2 * weights.len(),
        forall|k: int| 0 <= k < weights.len() ==> #[trigger] weights[k] == pow(gamma, k as nat),
    ensures
        weighted_pair(symbols, weights) == reduced_pair(symbols, gamma),
{
    let n = weights.len();
    let v0 = Seq::new(n, |k: int| symbols[2 * k]);
    let v1 = Seq::new(n, |k: int| symbols[2 * k + 1]);
    assert(n == symbols.len() / 2);
    lemma_sum_ext(
        n,
        |k: int| weights[k].mul(symbols[2 * k]),
        |k: int| pow(gamma, k as nat).mul(v0[k]),
    );
    lemma_sum_ext(
        n,
        |k: int| weights[k].mul(symbols[2 * k + 1]),
        |k: int| pow(gamma, k as nat).mul(v1[k]),
    );
}

/// Computes [`weighted_pair`].
pub fn reduce_source_pair_flat<F: TowerField>(symbols: &[F], weights: &[F]) -> (r: (F, F))
    requires
        symbols.len() == 2 * weights.len(),
    ensures
        r == weighted_pair(symbols@, weights@),
{
    let ghost f0 = |k: int| weights@[k].mul(symbols@[2 * k]);
    let ghost f1 = |k: int| weights@[k].mul(symbols@[2 * k + 1]);
    let mut s0 = F::zero_value();
    let mut s1 = F::zero_value();
    let mut k: usize = 0;
    while k < weights.len()
        invariant
            k <= weights.len(),
            symbols.len() == 2 * weights.len(),
            f0 == (|k: int| weights@[k].mul(symbols@[2 * k])),
            f1 == (|k: int| weights@[k].mul(symbols@[2 * k + 1])),
            s0 == sum(k as nat, f0),
            s1 == sum(k as nat, f1),
        decreases weights.len() - k,
    {
        s0 = s0.plus(weights[k].times(symbols[2 * k]));
        s1 = s1.plus(weights[k].times(symbols[2 * k + 1]));
        k += 1;
    }
    (s0, s1)
}

/// The next leaves of the paths.
fn next_leaves(before: &Vec<usize>, log: usize) -> (r: Vec<usize>)
    requires
        log > 0,
        pow2((log + 2) as nat) <= usize::MAX,
        forall|i: int| 0 <= i < before.len() ==> #[trigger] before[i] < pow2((log + 2) as nat),
    ensures
        r.len() == before.len(),
        forall|i: int|
            0 <= i < before.len() ==> #[trigger] r[i] == pair_leaf(
                before[i] as int,
                log as nat,
            ) as usize,
{
    let mut r: Vec<usize> = Vec::new();
    let mut i: usize = 0;
    while i < before.len()
        invariant
            i <= before.len(),
            log > 0,
            pow2((log + 2) as nat) <= usize::MAX,
            forall|i: int| 0 <= i < before.len() ==> #[trigger] before[i] < pow2((log + 2) as nat),
            r.len() == i,
            forall|k: int|
                0 <= k < i ==> #[trigger] r[k] == pair_leaf(before[k] as int, log as nat) as usize,
        decreases before.len() - i,
    {
        proof {
            assert(before[i as int] < pow2((log + 2) as nat));
        }
        r.push(high_pair_leaf_index(before[i], log));
        i += 1;
    }
    r
}

/// The check of one folded layer.
fn check_layer<F: TowerField>(
    symbols: &Vec<(F, F)>,
    batch: &ShortBatchedMerkleProof,
    root: &ShortHash,
    before: &Vec<usize>,
    leaves: &Vec<usize>,
    log: usize,
    r: F,
    layer: usize,
    folded: &Vec<F>,
) -> (out: Result<Vec<F>, SourceBindingError>)
    requires
        log > 0,
        pow2((log + 2) as nat) <= usize::MAX,
        before.len() == leaves.len(),
        folded.len() == leaves.len(),
        forall|i: int| 0 <= i < leaves.len() ==> #[trigger] leaves[i] < pow2((log + 1) as nat),
    ensures
        ({
            let want = layer_verdict(
                symbols@,
                batch.siblings@,
                *root,
                before@,
                leaves@,
                log as nat,
                r,
                layer as nat,
                folded@,
            );
            match out {
                Ok(next) => want == Ok::<Seq<F>, SourceBindingError>(next@) && next.len()
                    == leaves.len(),
                Err(e) => want == Err::<Seq<F>, SourceBindingError>(e),
            }
        }),
{
    let n: usize = leaves.len();
    if symbols.len() != n {
        return Err(
            SourceBindingError::SymbolCount { layer, expected: n, got: symbols.len() },
        );
    }
    let mut hashes: Vec<ShortHash> = Vec::new();
    let mut i: usize = 0;
    while i < n
        invariant
            i <= n,
            n == leaves.len(),
            n == symbols.len(),
            hashes.len() == i,
            forall|k: int|
                0 <= k < i ==> #[trigger] hashes[k] == layer_digests(
                    symbols@,
                    log as nat,
                    leaves@,
                )[k],
        decreases n - i,
    {
        let (s0, s1) = symbols[i];
        hashes.push(high_pair_leaf_hash(log, leaves[i], s0, s1));
        i += 1;
    }
    proof {
        assert(hashes@ =~= layer_digests(symbols@, log as nat, leaves@));
        lemma_log_bound((log + 2) as nat);
        lemma_half_pow2((log + 2) as nat);
        lemma_pow2_strictly_increases(log as nat, (log + 2) as nat);
    }
    match verify_short_batched_merkle_proof(
        root,
        batch,
        high_pair_tree_depth(log),
        leaves.as_slice(),
        hashes.as_slice(),
    ) {
        Ok(_) => {},
        Err(e) => {
            return Err(SourceBindingError::Merkle(e));
        },
    }
    let ghost ok = |i: int| folded@[i] == path_symbol(symbols@, before@, log as nat, i);
    let mut next: Vec<F> = Vec::new();
    let mut j: usize = 0;
    while j < n
        invariant
            j <= n,
            n == leaves.len(),
            n == symbols.len(),
            n == before.len(),
            n == folded.len(),
            log > 0,
            pow2((log + 1) as nat) <= usize::MAX,
            pow2(log as nat) <= usize::MAX,
            forall|i: int| 0 <= i < leaves.len() ==> #[trigger] leaves[i] < pow2((log + 1) as nat),
            ok == (|i: int| folded@[i] == path_symbol(symbols@, before@, log as nat, i)),
            first_bad(j as nat, ok) is None,
            hashes@ == layer_digests(symbols@, log as nat, leaves@),
            short_verdict(
                *root,
                batch.siblings@,
                (log + 1) as nat,
                leaves@,
                hashes@,
            ) is Ok,
            next.len() == j,
            forall|k: int|
                0 <= k < j ==> #[trigger] next[k] == high_pair_fold(
                    r,
                    log as nat,
                    leaves[k] as int,
                    symbols[k].0,
                    symbols[k].1,
                ),
        decreases n - j,
    {
        let (s0, s1) = symbols[j];
        let expected = if high_pair_parity(before[j], log) == 1 {
            s1
        } else {
            s0
        };
        if !folded[j].equals(expected) {
            proof {
                assert(first_bad((j + 1) as nat, ok) == Some(j as int));
                lemma_first_bad_stays((j + 1) as nat, n as nat, ok);
            }
            return Err(SourceBindingError::PathInconsistency { query: j, layer });
        }
        proof {
            assert(leaves[j as int] < pow2((log + 1) as nat));
        }
        next.push(tensor_high_fold_pair(r, log, leaves[j], s0, s1));
        j += 1;
    }
    proof {
        assert(next@ =~= Seq::new(
            leaves@.len(),
            |i: int|
                high_pair_fold(r, log as nat, leaves@[i] as int, symbols@[i].0, symbols@[i].1),
        ));
    }
    Ok(next)
}

/// A path that fails stays refused.
pub proof fn lemma_path_error<F: TowerField>(
    proof: SourceBindingProof<F>,
    beta: Seq<F>,
    queries: Seq<usize>,
    log_n: nat,
    folded: Seq<F>,
    j: nat,
    k: nat,
)
    requires
        j <= k,
        path_run(proof, beta, queries, log_n, folded, j) is Err,
    ensures
        path_run(proof, beta, queries, log_n, folded, k) == path_run(
            proof,
            beta,
            queries,
            log_n,
            folded,
            j,
        ),
    decreases k,
{
    if j < k {
        lemma_path_error(proof, beta, queries, log_n, folded, j, (k - 1) as nat);
    }
}

/// The check of the queried symbols of a binding.
fn check_binding_queries<F: TowerField, C: FriCode<F>>(
    code: &C,
    commitment: &InterleavedCommitment,
    gamma: F,
    proof: &SourceBindingProof<F>,
    beta: &Vec<F>,
    queries: &Vec<usize>,
) -> (out: Result<(), SourceBindingError>)
    requires
        0 < beta.len() <= commitment.log_rows,
        pow2((commitment.log_rows + 2) as nat) <= usize::MAX,
        queries.len() * commitment.n_cols * 2 <= usize::MAX,
        commitment.n_cols * 2 <= usize::MAX,
        proof.h_evals.len() == pow2((commitment.log_rows - beta.len()) as nat),
        proof.folded_roots.len() == beta.len() - 1,
        proof.folded_queried_symbols.len() == beta.len() - 1,
        proof.folded_merkle_batch.len() == beta.len() - 1,
        forall|i: int|
            0 <= i < queries.len() ==> #[trigger] queries[i] < pow2(
                (commitment.log_rows + 2) as nat,
            ),
    ensures
        out == binding_query_verdict(*code, *commitment, gamma, *proof, beta@, queries@),
{
    let log_n: usize = commitment.log_rows;
    let n_cols: usize = commitment.n_cols;
    let n: usize = queries.len();
    let tau: usize = beta.len();
    let ghost symbols = proof.source_symbols@;
    proof {
        lemma_log_bound((log_n + 2) as nat);
        lemma_half_pow2((log_n + 2) as nat);
        assert(n * n_cols * 2 == n * (n_cols * 2) && n * n_cols <= n * n_cols * 2)
            by (nonlinear_arith);
    }
    let expected: usize = n * n_cols * 2;
    if proof.source_symbols.len() != expected {
        return Err(
            SourceBindingError::SourceSymbolLength { expected, got: proof.source_symbols.len() },
        );
    }
    let source_root = match source_root_from_cap(&commitment.cap) {
        Some(root) => root,
        None => {
            return Err(SourceBindingError::MissingSourceRoot);
        },
    };
    let mut leaves = next_leaves(queries, log_n);
    proof {
        assert(leaves@ =~= path_leaves(queries@, log_n as nat, 0));
        lemma_path_leaves(queries@, log_n as nat, 0);
    }
    let weights = powers(gamma, n_cols);
    let ghost digests = source_digests(symbols, n_cols as nat, log_n as nat, leaves@);
    let ghost firsts = first_folds(
        symbols,
        n_cols as nat,
        gamma,
        beta@.last(),
        log_n as nat,
        leaves@,
    );
    let mut hashes: Vec<SourceHash> = Vec::new();
    let mut folded: Vec<F> = Vec::new();
    let mut i: usize = 0;
    while i < n
        invariant
            i <= n,
            n == leaves.len(),
            n == queries.len(),
            0 < tau == beta.len() <= log_n < 62,
            pow2((log_n + 1) as nat) <= usize::MAX,
            symbols == proof.source_symbols@,
            symbols.len() == n * (n_cols * 2) <= usize::MAX,
            n_cols * 2 <= usize::MAX,
            leaves@ == path_leaves(queries@, log_n as nat, 0),
            forall|i: int|
                0 <= i < queries.len() ==> #[trigger] path_leaves(
                    queries@,
                    log_n as nat,
                    0,
                )[i] < pow2((log_n - 0 + 1) as nat),
            weights.len() == n_cols,
            forall|k: int|
                0 <= k < weights.len() ==> #[trigger] weights[k] == pow(gamma, k as nat),
            digests == source_digests(symbols, n_cols as nat, log_n as nat, leaves@),
            firsts == first_folds(
                symbols,
                n_cols as nat,
                gamma,
                beta@.last(),
                log_n as nat,
                leaves@,
            ),
            hashes.len() == i,
            folded.len() == i,
            forall|k: int| 0 <= k < i ==> #[trigger] hashes[k] == digests[k],
            forall|k: int| 0 <= k < i ==> #[trigger] folded[k] == firsts[k],
        decreases n - i,
    {
        proof {
            assert((i + 1) * (n_cols * 2) <= n * (n_cols * 2)) by (nonlinear_arith)
                requires
                    i + 1 <= n,
            ;
            assert((i + 1) * (n_cols * 2) == i * (n_cols * 2) + n_cols * 2) by (nonlinear_arith);
            assert(i * (n_cols * 2) >= 0) by (nonlinear_arith);
            assert(path_leaves(queries@, log_n as nat, 0)[i as int] < pow2((log_n + 1) as nat));
        }
        let width: usize = n_cols * 2;
        let start: usize = i * width;
        let part = subrange(proof.source_symbols.as_slice(), start, start + width);
        proof {
            assert(start == i * (2 * n_cols)) by (nonlinear_arith)
                requires
                    start == i * (n_cols * 2),
            ;
            assert(part@ == source_slice(symbols, n_cols as nat, i as int));
        }
        hashes.push(source_leaf_hash(log_n, n_cols, leaves[i], part.as_slice()));
        let (s0, s1) = reduce_source_pair_flat(part.as_slice(), weights.as_slice());
        proof {
            lemma_weighted_pair(part@, weights@, gamma);
        }
        folded.push(tensor_high_fold_pair(beta[tau - 1], log_n, leaves[i], s0, s1));
        i += 1;
    }
    proof {
        assert(hashes@ =~= digests);
        assert(folded@ =~= firsts);
    }
    match verify_source_batched_merkle_proof(
        &source_root,
        &proof.source_merkle_batch,
        source_tree_depth(log_n),
        leaves.as_slice(),
        hashes.as_slice(),
    ) {
        Ok(_) => {},
        Err(e) => {
            return Err(SourceBindingError::Merkle(e));
        },
    }
    let mut k: usize = 0;
    while k < tau - 1
        invariant
            k <= tau - 1,
            0 < tau == beta.len() <= log_n < 62,
            n == queries.len(),
            pow2((log_n + 2) as nat) <= usize::MAX,
            proof.folded_roots.len() == tau - 1,
            proof.folded_queried_symbols.len() == tau - 1,
            proof.folded_merkle_batch.len() == tau - 1,
            forall|i: int|
                0 <= i < queries.len() ==> #[trigger] queries[i] < pow2((log_n + 2) as nat),
            leaves@ == path_leaves(queries@, log_n as nat, k as nat),
            folded.len() == n,
            path_run(*proof, beta@, queries@, log_n as nat, firsts, k as nat) == Ok::<
                Seq<F>,
                SourceBindingError,
            >(folded@),
            ({
                let want = binding_query_verdict(
                    *code,
                    *commitment,
                    gamma,
                    *proof,
                    beta@,
                    queries@,
                );
                let run = path_run(
                    *proof,
                    beta@,
                    queries@,
                    log_n as nat,
                    firsts,
                    (tau - 1) as nat,
                );
                run is Err ==> want == Err::<(), SourceBindingError>(run->Err_0)
            }),
        decreases tau - k,
    {
        let log: usize = log_n - 1 - k;
        proof {
            lemma_path_leaves(queries@, log_n as nat, k as nat);
            lemma_path_leaves(queries@, log_n as nat, (k + 1) as nat);
            if k >= 1 {
                lemma_pow2_strictly_increases((log + 2) as nat, (log_n + 2) as nat);
            } else {
                lemma_pow2_strictly_increases((log_n + 1) as nat, (log_n + 2) as nat);
            }
            assert forall|i: int| 0 <= i < leaves.len() implies #[trigger] leaves[i] < pow2(
                (log + 2) as nat,
            ) by {
                assert(path_leaves(queries@, log_n as nat, k as nat)[i] < pow2(
                    (log_n - k + 1) as nat,
                ));
            }
        }
        let next = next_leaves(&leaves, log);
        proof {
            assert(next@ =~= path_leaves(queries@, log_n as nat, (k + 1) as nat));
            assert forall|i: int| 0 <= i < next.len() implies #[trigger] next[i] < pow2(
                (log + 1) as nat,
            ) by {
                assert(path_leaves(queries@, log_n as nat, (k + 1) as nat)[i] < pow2(
                    (log_n - (k + 1) + 1) as nat,
                ));
            }
        }
        match check_layer(
            &proof.folded_queried_symbols[k],
            &proof.folded_merkle_batch[k],
            &proof.folded_roots[k],
            &leaves,
            &next,
            log,
            beta[tau - 2 - k],
            k,
            &folded,
        ) {
            Ok(more) => {
                folded = more;
            },
            Err(e) => {
                proof {
                    lemma_path_error(
                        *proof,
                        beta@,
                        queries@,
                        log_n as nat,
                        firsts,
                        (k + 1) as nat,
                        (tau - 1) as nat,
                    );
                }
                return Err(e);
            },
        }
        leaves = next;
        k += 1;
    }
    proof {
        let m = (log_n - tau) as nat;
        lemma_pow2_adds(m, 2);
        vstd::arithmetic::power2::lemma2_to64();
        lemma_pow2_strictly_increases(m + 2, (log_n + 2) as nat);
        code.encoded_len(proof.h_evals@, m);
        lemma_path_leaves(queries@, log_n as nat, (tau - 1) as nat);
    }
    let h_code = code.encode(proof.h_evals.as_slice());
    let ghost ok = |i: int| folded@[i] == h_code@[leaves@[i] as int];
    let mut q: usize = 0;
    while q < n
        invariant
            q <= n,
            n == leaves.len(),
            n == queries.len(),
            n == folded.len(),
            0 < tau <= log_n,
            leaves@ == path_leaves(queries@, log_n as nat, (tau - 1) as nat),
            h_code.len() == pow2((log_n - tau + 2) as nat),
            forall|i: int|
                0 <= i < queries.len() ==> #[trigger] path_leaves(
                    queries@,
                    log_n as nat,
                    (tau - 1) as nat,
                )[i] < pow2((log_n - (tau - 1) + 1) as nat),
            ok == (|i: int| folded@[i] == h_code@[leaves@[i] as int]),
            first_bad(q as nat, ok) is None,
            ({
                let want = binding_query_verdict(
                    *code,
                    *commitment,
                    gamma,
                    *proof,
                    beta@,
                    queries@,
                );
                let bad = first_bad(n as nat, ok);
                want == match bad {
                    None => Ok::<(), SourceBindingError>(()),
                    Some(i) => Err(
                        SourceBindingError::HCodeMismatch {
                            query: i as usize,
                            got: folded@[i].bits(),
                            expected: h_code@[leaves@[i] as int].bits(),
                        },
                    ),
                }
            }),
        decreases n - q,
    {
        proof {
            assert(path_leaves(queries@, log_n as nat, (tau - 1) as nat)[q as int] < pow2(
                (log_n - (tau - 1) + 1) as nat,
            ));
        }
        if !folded[q].equals(h_code[leaves[q]]) {
            proof {
                assert(first_bad((q + 1) as nat, ok) == Some(q as int));
                lemma_first_bad_stays((q + 1) as nat, n as nat, ok);
            }
            return Err(
                SourceBindingError::HCodeMismatch {
                    query: q,
                    got: folded[q].to_u128(),
                    expected: h_code[leaves[q]].to_u128(),
                },
            );
        }
        q += 1;
    }
    Ok(())
}

/// The machine limits of a binding.
pub open spec fn binding_limits(log_n: nat, n_cols: nat, tau: nat, num_queries: nat) -> bool {
    &&& 0 < tau <= log_n
    &&& pow2(log_n + 2) <= usize::MAX
    &&& n_cols * 2 <= usize::MAX
    &&& query_count(log_n + 2, num_queries) * n_cols * 2 <= usize::MAX
}

/// Verifies a binding.
pub fn verify_source_binding<
    F: TowerField,
    T: FriChannel<F>,
    C: FriCode<F>,
    H: CryptographicHasher<F>,
>(
    commitment: &InterleavedCommitment,
    gamma: F,
    primary_point: &[F],
    proof: &SourceBindingProof<F>,
    ctx: &CompactFriQueryContext<F>,
    code: &C,
    channel: &mut T,
    hasher: &H,
    num_queries: usize,
) -> (out: Result<(), SourceBindingError>)
    requires
        ctx.tau + ctx.n_rounds <= usize::MAX,
        ctx.tensor_batching_point.len() == ctx.tau,
        primary_point.len() == commitment.log_rows && ctx.tau + ctx.n_rounds
            == commitment.log_rows ==> binding_limits(
            commitment.log_rows as nat,
            commitment.n_cols as nat,
            ctx.tau as nat,
            num_queries as nat,
        ),
    ensures
        out == binding_verdict(
            *code,
            *hasher,
            *commitment,
            gamma,
            primary_point@,
            *proof,
            ctx.contents(),
            num_queries as nat,
            *old(channel),
        ),
        *final(channel) == binding_channel_after(
            *code,
            *hasher,
            *commitment,
            primary_point@,
            *proof,
            ctx.contents(),
            num_queries as nat,
            *old(channel),
        ),
{
    let log_n: usize = commitment.log_rows;
    if primary_point.len() != log_n {
        return Err(SourceBindingError::PointDimension);
    }
    if ctx.tau + ctx.n_rounds != log_n {
        return Err(SourceBindingError::ContextDimension);
    }
    proof {
        lemma_log_bound((log_n + 2) as nat);
        lemma_pow2_strictly_increases(ctx.n_rounds as nat, (log_n + 2) as nat);
        lemma_pow2_strictly_increases((ctx.n_rounds + 2) as nat, (log_n + 2) as nat);
        lemma_pow2_adds(ctx.n_rounds as nat, 2);
        vstd::arithmetic::power2::lemma2_to64();
    }
    let expected: usize = pow2_usize(ctx.n_rounds);
    if proof.h_evals.len() != expected {
        return Err(SourceBindingError::HLength { expected, got: proof.h_evals.len() });
    }
    let layers: usize = ctx.tau - 1;
    if proof.folded_roots.len() != layers || proof.folded_queried_symbols.len() != layers
        || proof.folded_merkle_batch.len() != layers {
        return Err(SourceBindingError::RoundCount);
    }
    match assert_source_h_matches_compact(
        primary_point,
        ctx,
        proof.h_evals.as_slice(),
        code,
        hasher,
    ) {
        Ok(_) => {},
        Err(e) => {
            return Err(e);
        },
    }
    observe_source_binding_commitments(
        channel,
        proof.folded_roots.as_slice(),
        proof.h_evals.as_slice(),
        log_n,
    );
    let queries = gen_compact_queries(channel, log_n + 2, num_queries);
    check_binding_queries(code, commitment, gamma, proof, &ctx.tensor_batching_point, &queries)
}

/// The roots of the folded layers of a table.
pub open spec fn layer_roots<F: TowerField, C: FriCode<F>>(
    code: C,
    t: Seq<F>,
    beta: Seq<F>,
    log_n: nat,
) -> Seq<ShortHash> {
    Seq::new(
        (beta.len() - 1) as nat,
        |k: int|
            short_root(
                high_leaves(
                    code.encoded(high_table(t, beta, (k + 1) as nat)),
                    (log_n - 1 - k) as nat,
                ),
                (log_n - k) as nat,
            ),
    )
}

/// The symbols that some leaves of a layer hold.
pub open spec fn leaf_pairs<F>(word: Seq<F>, log: nat, leaves: Seq<usize>) -> Seq<(F, F)> {
    Seq::new(
        leaves.len(),
        |i: int|
            (
                word[pair_positions(log, leaves[i] as int).0],
                word[pair_positions(log, leaves[i] as int).1],
            ),
    )
}

/// The binding of the table `t` to the words of columns.
pub open spec fn is_binding<F: TowerField, T: FriChannel<F>, C: FriCode<F>>(
    code: C,
    words: Seq<Seq<F>>,
    t: Seq<F>,
    beta: Seq<F>,
    log_n: nat,
    num_queries: nat,
    before: T,
    proof: SourceBindingProof<F>,
) -> bool {
    let tau = beta.len();
    let queries = binding_queries(proof, log_n, num_queries, before);
    let leaves = path_leaves(queries, log_n, 0);
    let n_cols = words.len();
    &&& proof.h_evals@ == high_table(t, beta, tau)
    &&& proof.folded_roots@ == layer_roots(code, t, beta, log_n)
    &&& proof.source_symbols.len() == queries.len() * n_cols * 2
    &&& forall|i: int|
        0 <= i < queries.len() ==> #[trigger] source_slice(proof.source_symbols@, n_cols, i)
            == pair_symbols(words, pair_positions(log_n, leaves[i] as int))
    &&& proof.source_merkle_batch.siblings@ == batch_siblings(
        SourceHasher,
        source_leaves(words, log_n),
        keys_of(sorted_keys(leaves, leaves.len())),
        0,
        log_n + 1,
    )
    &&& proof.folded_queried_symbols.len() == tau - 1
    &&& proof.folded_merkle_batch.len() == tau - 1
    &&& forall|k: int|
        0 <= k < tau - 1 ==> (#[trigger] proof.folded_queried_symbols[k])@ == leaf_pairs(
            code.encoded(high_table(t, beta, (k + 1) as nat)),
            (log_n - 1 - k) as nat,
            path_leaves(queries, log_n, (k + 1) as nat),
        )
    &&& forall|k: int|
        0 <= k < tau - 1 ==> (#[trigger] proof.folded_merkle_batch[k]).siblings@ == short_siblings(
            high_leaves(
                code.encoded(high_table(t, beta, (k + 1) as nat)),
                (log_n - 1 - k) as nat,
            ),
            path_leaves(queries, log_n, (k + 1) as nat),
            (log_n - k) as nat,
        )
}

/// The symbols of the columns at the queried leaves, query by query.
fn queried_source_symbols<F: TowerField>(
    words: &Vec<Vec<F>>,
    log_n: usize,
    leaves: &Vec<usize>,
) -> (s: Vec<F>)
    requires
        log_n > 0,
        pow2((log_n + 2) as nat) <= usize::MAX,
        words_wf(vec_views(words@), log_n as nat),
        forall|i: int| 0 <= i < leaves.len() ==> #[trigger] leaves[i] < pow2((log_n + 1) as nat),
    ensures
        s.len() == leaves.len() * words.len() * 2,
        forall|i: int|
            0 <= i < leaves.len() ==> #[trigger] source_slice(s@, words.len() as nat, i)
                == pair_symbols(
                vec_views(words@),
                pair_positions(log_n as nat, leaves[i] as int),
            ),
{
    let ghost n_cols = words.len() as nat;
    let ghost views = vec_views(words@);
    let mut s: Vec<F> = Vec::new();
    let mut i: usize = 0;
    while i < leaves.len()
        invariant
            i <= leaves.len(),
            log_n > 0,
            pow2((log_n + 2) as nat) <= usize::MAX,
            views == vec_views(words@),
            n_cols == words.len(),
            words_wf(views, log_n as nat),
            forall|i: int|
                0 <= i < leaves.len() ==> #[trigger] leaves[i] < pow2((log_n + 1) as nat),
            s.len() == i * (2 * n_cols),
            forall|k: int|
                0 <= k < i ==> #[trigger] source_slice(s@, n_cols, k) == pair_symbols(
                    views,
                    pair_positions(log_n as nat, leaves[k] as int),
                ),
        decreases leaves.len() - i,
    {
        let ghost before = s@;
        proof {
            assert(leaves[i as int] < pow2((log_n + 1) as nat));
        }
        let (p0, p1) = source_leaf_positions(log_n, leaves[i]);
        proof {
            assert forall|c: int| 0 <= c < words.len() implies p0 < (#[trigger] words[c]).len()
                && p1 < words[c].len() by {
                assert(views[c].len() == pow2((log_n + 2) as nat));
            }
        }
        let part = leaf_symbols(words, p0, p1);
        let mut j: usize = 0;
        while j < part.len()
            invariant
                j <= part.len(),
                s@ == before + part@.take(j as int),
            decreases part.len() - j,
        {
            s.push(part[j]);
            proof {
                assert(s@ =~= before + part@.take(j + 1));
            }
            j += 1;
        }
        proof {
            assert(s@ =~= before + part@);
            let w = 2 * n_cols;
            assert((i + 1) * w == i * w + w) by (nonlinear_arith);
            assert forall|k: int| 0 <= k < i + 1 implies #[trigger] source_slice(s@, n_cols, k)
                == pair_symbols(views, pair_positions(log_n as nat, leaves[k] as int)) by {
                assert(0 <= k * w && k * w + w <= (i + 1) * w) by (nonlinear_arith)
                    requires
                        0 <= k < i + 1,
                ;
                if k < i {
                    assert(k * w + w <= i * w) by (nonlinear_arith)
                        requires
                            0 <= k < i,
                    ;
                    assert(source_slice(s@, n_cols, k) =~= source_slice(before, n_cols, k));
                } else {
                    assert(source_slice(s@, n_cols, k) =~= part@);
                }
            }
        }
        i += 1;
    }
    proof {
        let (a, b) = (leaves.len() as int, n_cols as int);
        assert(a * (2 * b) == a * b * 2) by (nonlinear_arith);
    }
    s
}

/// The symbols of a layer at the queried leaves.
fn queried_layer_symbols<F: TowerField>(word: &Vec<F>, log: usize, leaves: &Vec<usize>) -> (s: Vec<
    (F, F),
>)
    requires
        log > 0,
        word.len() == pow2((log + 2) as nat),
        forall|i: int| 0 <= i < leaves.len() ==> #[trigger] leaves[i] < pow2((log + 1) as nat),
    ensures
        s@ == leaf_pairs(word@, log as nat, leaves@),
{
    let mut s: Vec<(F, F)> = Vec::new();
    let mut i: usize = 0;
    while i < leaves.len()
        invariant
            i <= leaves.len(),
            log > 0,
            word.len() == pow2((log + 2) as nat),
            forall|i: int| 0 <= i < leaves.len() ==> #[trigger] leaves[i] < pow2((log + 1) as nat),
            s.len() == i,
            forall|k: int|
                0 <= k < i ==> #[trigger] s[k] == leaf_pairs(word@, log as nat, leaves@)[k],
        decreases leaves.len() - i,
    {
        proof {
            assert(leaves[i as int] < pow2((log + 1) as nat));
        }
        let (p0, p1) = high_pair_positions(log, leaves[i]);
        s.push((word[p0], word[p1]));
        i += 1;
    }
    proof {
        assert(s@ =~= leaf_pairs(word@, log as nat, leaves@));
    }
    s
}

/// Proves the binding of a table to committed columns.
pub fn prove_source_binding<'a, F: TowerField, T: FriChannel<F>, C: FriCode<F>>(
    state: &InterleavedProverState<'a, F>,
    c_evals: &[F],
    ctx: &CompactFriQueryContext<F>,
    code: &C,
    channel: &mut T,
    num_queries: usize,
) -> (out: SourceBindingProof<F>)
    requires
        state.of(*code, slice_views(state.raw_cols@)),
        c_evals.len() == pow2(state.log_rows as nat),
        state.n_cols == 1 ==> c_evals@ == state.raw_cols[0]@,
        4 * c_evals.len() <= usize::MAX,
        0 < ctx.tau,
        ctx.tau + ctx.n_rounds == state.log_rows,
        ctx.tensor_batching_point.len() == ctx.tau,
    ensures
        is_binding(
            *code,
            vec_views(state.encoded_cols@),
            c_evals@,
            ctx.tensor_batching_point@,
            state.log_rows as nat,
            num_queries as nat,
            *old(channel),
            out,
        ),
        *final(channel) == binding_channel(
            out,
            state.log_rows as nat,
            num_queries as nat,
            *old(channel),
        ),
{
    let log_n: usize = state.log_rows;
    let beta = &ctx.tensor_batching_point;
    let tau: usize = ctx.tau;
    let ghost words = vec_views(state.encoded_cols@);
    proof {
        lemma_pow2_adds(log_n as nat, 2);
        vstd::arithmetic::power2::lemma2_to64();
        lemma_log_bound((log_n + 2) as nat);
        let cols = slice_views(state.raw_cols@);
        assert forall|c: int| 0 <= c < words.len() implies (#[trigger] words[c]).len() == pow2(
            (log_n + 2) as nat,
        ) by {
            assert(cols[c].len() == pow2(log_n as nat));
            code.encoded_len(cols[c], log_n as nat);
        }
        assert(pow2(log_n as nat) == c_evals.len() && beta.len() <= log_n);
    }
    let (h_evals, layers) = if state.n_cols == 1 {
        proof {
            assert(words[0] == code.encoded(slice_views(state.raw_cols@)[0]));
        }
        build_high_tensor_layers_from_source_code(
            c_evals,
            &state.encoded_cols[0],
            beta.as_slice(),
            code,
        )
    } else {
        build_high_tensor_layers(c_evals, beta.as_slice(), code)
    };
    let mut folded_roots: Vec<ShortHash> = Vec::new();
    let mut i: usize = 0;
    while i < layers.len()
        invariant
            i <= layers.len(),
            layers.len() == tau - 1,
            tau == beta.len(),
            layers_of(layers@, *code, c_evals@, beta@, log_n as nat),
            folded_roots.len() == i,
            forall|k: int|
                0 <= k < i ==> #[trigger] folded_roots[k] == layer_roots(
                    *code,
                    c_evals@,
                    beta@,
                    log_n as nat,
                )[k],
        decreases layers.len() - i,
    {
        proof {
            assert(layers[i as int].tree.wf());
        }
        folded_roots.push(layers[i].tree.get_root());
        i += 1;
    }
    proof {
        assert(folded_roots@ =~= layer_roots(*code, c_evals@, beta@, log_n as nat));
    }
    observe_source_binding_commitments(
        channel,
        folded_roots.as_slice(),
        h_evals.as_slice(),
        log_n,
    );
    let queries = gen_compact_queries(channel, log_n + 2, num_queries);
    let source_leaves_at = next_leaves(&queries, log_n);
    proof {
        assert(source_leaves_at@ =~= path_leaves(queries@, log_n as nat, 0));
        lemma_path_leaves(queries@, log_n as nat, 0);
        assert forall|i: int| 0 <= i < source_leaves_at.len() implies #[trigger] source_leaves_at[i]
            < pow2((log_n + 1) as nat) by {
            assert(path_leaves(queries@, log_n as nat, 0)[i] < pow2((log_n - 0 + 1) as nat));
        }
    }
    let source_symbols = queried_source_symbols(&state.encoded_cols, log_n, &source_leaves_at);
    let source_merkle_batch = state.source_tree.build_batched_merkle_proof(
        &state.encoded_cols,
        log_n,
        source_leaves_at.as_slice(),
    );
    let mut folded_queried_symbols: Vec<Vec<(F, F)>> = Vec::new();
    let mut folded_merkle_batch: Vec<ShortBatchedMerkleProof> = Vec::new();
    let mut leaves = copied(source_leaves_at.as_slice());
    let mut k: usize = 0;
    while k < layers.len()
        invariant
            k <= layers.len(),
            layers.len() == tau - 1,
            0 < tau == beta.len() <= log_n < 62,
            pow2((log_n + 2) as nat) <= usize::MAX,
            c_evals.len() == pow2(log_n as nat),
            layers_of(layers@, *code, c_evals@, beta@, log_n as nat),
            forall|i: int|
                0 <= i < queries.len() ==> #[trigger] queries[i] < pow2((log_n + 2) as nat),
            leaves@ == path_leaves(queries@, log_n as nat, k as nat),
            folded_queried_symbols.len() == k,
            folded_merkle_batch.len() == k,
            forall|j: int|
                0 <= j < k ==> (#[trigger] folded_queried_symbols[j])@ == leaf_pairs(
                    code.encoded(high_table(c_evals@, beta@, (j + 1) as nat)),
                    (log_n - 1 - j) as nat,
                    path_leaves(queries@, log_n as nat, (j + 1) as nat),
                ),
            forall|j: int|
                0 <= j < k ==> (#[trigger] folded_merkle_batch[j]).siblings@ == short_siblings(
                    high_leaves(
                        code.encoded(high_table(c_evals@, beta@, (j + 1) as nat)),
                        (log_n - 1 - j) as nat,
                    ),
                    path_leaves(queries@, log_n as nat, (j + 1) as nat),
                    (log_n - j) as nat,
                ),
        decreases layers.len() - k,
    {
        let log: usize = log_n - 1 - k;
        proof {
            assert(layers[k as int].log_rows == log);
            lemma_path_leaves(queries@, log_n as nat, k as nat);
            lemma_path_leaves(queries@, log_n as nat, (k + 1) as nat);
            lemma_pow2_strictly_increases((log + 2) as nat, (log_n + 2) as nat);
            lemma_high_table_len(c_evals@, beta@, (k + 1) as nat, log_n as nat);
            code.encoded_len(high_table(c_evals@, beta@, (k + 1) as nat), log as nat);
            assert forall|i: int| 0 <= i < leaves.len() implies #[trigger] leaves[i] < pow2(
                (log + 2) as nat,
            ) by {
                assert(path_leaves(queries@, log_n as nat, k as nat)[i] < pow2(
                    (log_n - k + 1) as nat,
                ));
            }
        }
        let next = next_leaves(&leaves, log);
        proof {
            assert(next@ =~= path_leaves(queries@, log_n as nat, (k + 1) as nat));
            assert forall|i: int| 0 <= i < next.len() implies #[trigger] next[i] < pow2(
                (log + 1) as nat,
            ) by {
                assert(path_leaves(queries@, log_n as nat, (k + 1) as nat)[i] < pow2(
                    (log_n - (k + 1) + 1) as nat,
                ));
            }
        }
        let symbols = queried_layer_symbols(&layers[k].code, log, &next);
        let batch = build_short_batched_merkle_proof(
            &layers[k].tree,
            next.as_slice(),
            high_pair_tree_depth(log),
        );
        folded_queried_symbols.push(symbols);
        folded_merkle_batch.push(batch);
        leaves = next;
        k += 1;
    }
    SourceBindingProof {
        h_evals,
        folded_roots,
        source_symbols,
        source_merkle_batch,
        folded_queried_symbols,
        folded_merkle_batch,
    }
}

/// The combination of the symbols of the columns at a leaf is the pair of
/// symbols of the combination of the columns.
pub proof fn lemma_reduced_pair<F: TowerField, C: FriCode<F>>(
    code: C,
    cols: Seq<Seq<F>>,
    gamma: F,
    log_n: nat,
    leaf: int,
)
    requires
        log_n > 0,
        forall|c: int| 0 <= c < cols.len() ==> (#[trigger] cols[c]).len() == pow2(log_n),
        0 <= leaf < pow2(log_n + 1),
    ensures
        ({
            let (p0, p1) = pair_positions(log_n, leaf);
            let word = code.encoded(horner_table(gamma, cols, pow2(log_n)));
            reduced_pair(pair_symbols(encoded_words(code, cols), (p0, p1)), gamma) == (
                word[p0],
                word[p1],
            )
        }),
{
    let (p0, p1) = pair_positions(log_n, leaf);
    let words = encoded_words(code, cols);
    lemma_pair_positions(log_n, leaf);
    lemma_encoded_horner(code, gamma, cols, log_n, p0);
    lemma_encoded_horner(code, gamma, cols, log_n, p1);
    let symbols = pair_symbols(words, (p0, p1));
    let n = words.len();
    assert(symbols.len() / 2 == n);
    assert(Seq::new(n, |k: int| symbols[2 * k]) =~= row_at(words, p0));
    assert(Seq::new(n, |k: int| symbols[2 * k + 1]) =~= row_at(words, p1));
    assert(words =~= Seq::new(cols.len(), |c: int| code.encoded(cols[c])));
}

#[verifier::spinoff_prover]
proof fn lemma_paths_follow<F: TowerField, T: FriChannel<F>, C: FriCode<F>>(
    code: C,
    cols: Seq<Seq<F>>,
    gamma: F,
    beta: Seq<F>,
    log_n: nat,
    num_queries: nat,
    before: T,
    proof: SourceBindingProof<F>,
    k: nat,
)
    requires
        0 < beta.len() <= log_n,
        pow2(log_n + 2) <= usize::MAX,
        num_queries > 0,
        forall|c: int| 0 <= c < cols.len() ==> (#[trigger] cols[c]).len() == pow2(log_n),
        is_binding(
            code,
            encoded_words(code, cols),
            horner_table(gamma, cols, pow2(log_n)),
            beta,
            log_n,
            num_queries,
            before,
            proof,
        ),
        forall|i: int|
            0 <= i < binding_queries(proof, log_n, num_queries, before).len()
                ==> #[trigger] binding_queries(proof, log_n, num_queries, before)[i] < pow2(
                log_n + 2,
            ),
        binding_queries(proof, log_n, num_queries, before).len() > 0,
        k < beta.len(),
    ensures
        ({
            let queries = binding_queries(proof, log_n, num_queries, before);
            let leaves = path_leaves(queries, log_n, 0);
            let t = horner_table(gamma, cols, pow2(log_n));
            let folded = first_folds(
                proof.source_symbols@,
                cols.len(),
                gamma,
                beta.last(),
                log_n,
                leaves,
            );
            let got = path_run(proof, beta, queries, log_n, folded, k);
            &&& got is Ok
            &&& got->Ok_0.len() == queries.len()
            &&& forall|i: int|
                0 <= i < queries.len() ==> #[trigger] got->Ok_0[i] == code.encoded(
                    high_table(t, beta, k + 1),
                )[path_leaves(queries, log_n, k)[i] as int]
        }),
    decreases k,
{
    let queries = binding_queries(proof, log_n, num_queries, before);
    let leaves = path_leaves(queries, log_n, 0);
    let words = encoded_words(code, cols);
    let t = horner_table(gamma, cols, pow2(log_n));
    let n_cols = cols.len();
    let folded = first_folds(proof.source_symbols@, n_cols, gamma, beta.last(), log_n, leaves);
    lemma_log_bound(log_n + 2);
    if k == 0 {
        lemma_path_leaves(queries, log_n, 0);
        assert forall|i: int| 0 <= i < queries.len() implies #[trigger] folded[i] == code.encoded(
            high_table(t, beta, 1),
        )[leaves[i] as int] by {
            let leaf = leaves[i] as int;
            assert(leaf < pow2(log_n + 1));
            assert(source_slice(proof.source_symbols@, words.len(), i) == pair_symbols(
                words,
                pair_positions(log_n, leaf),
            ));
            lemma_reduced_pair(code, cols, gamma, log_n, leaf);
            code.high_fold(t, beta.last(), log_n, leaf);
            assert(high_table(t, beta, 0) == t);
            assert(high_table(t, beta, 1) == fold(t, beta[beta.len() - 1]));
        }
    } else {
        let j = (k - 1) as nat;
        lemma_paths_follow(
            code,
            cols,
            gamma,
            beta,
            log_n,
            num_queries,
            before,
            proof,
            j,
        );
        lemma_path_leaves(queries, log_n, j);
        lemma_path_leaves(queries, log_n, k);
        let log = (log_n - k) as nat;
        let prev = path_leaves(queries, log_n, j);
        let now = path_leaves(queries, log_n, k);
        let table = high_table(t, beta, k);
        let word = code.encoded(table);
        let symbols = proof.folded_queried_symbols[k - 1]@;
        let siblings = proof.folded_merkle_batch[k - 1].siblings@;
        assert(symbols == leaf_pairs(word, log, now));
        lemma_high_table_len(t, beta, k, log_n);
        let tree = high_leaves(word, log);
        let digests = layer_digests(symbols, log, now);
        assert forall|i: int| 0 <= i < now.len() implies #[trigger] now[i] < pow2(log + 1) by {}
        assert forall|i: int| 0 <= i < now.len() implies #[trigger] digests[i]
            == tree[now[i] as int] by {
            assert(now[i] < pow2(log + 1));
        }
        lemma_short_complete(tree, log + 1, now, digests);
        assert(proof.folded_roots[k - 1] == short_root(tree, log + 1));
        let got = path_run(proof, beta, queries, log_n, folded, j)->Ok_0;
        let ok = |i: int| got[i] == path_symbol(symbols, prev, log, i);
        assert forall|i: int| 0 <= i < now.len() implies #[trigger] ok(i) by {
            assert(got[i] == word[prev[i] as int]);
            assert(prev[i] < pow2(log + 2));
            lemma_pair_leaf(prev[i] as int, log);
            assert(now[i] == pair_leaf(prev[i] as int, log));
        }
        lemma_none_bad(now.len(), ok);
        let next = path_run(proof, beta, queries, log_n, folded, k);
        assert(next is Ok);
        let r = beta[beta.len() - 1 - k];
        assert forall|i: int| 0 <= i < queries.len() implies #[trigger] next->Ok_0[i]
            == code.encoded(high_table(t, beta, k + 1))[now[i] as int] by {
            assert(now[i] < pow2(log + 1));
            code.high_fold(table, r, log, now[i] as int);
            assert(high_table(t, beta, k + 1) == fold(table, beta[beta.len() - (k + 1)]));
        }
    }
}

/// The queries stay within the word.
pub proof fn lemma_queries_within<F: TowerField, T: FiatShamir<F>>(
    channel: T,
    log: nat,
    num_queries: nat,
)
    requires
        pow2(log) <= usize::MAX,
    ensures
        query_indices(channel, log, num_queries).len() == query_count(log, num_queries),
        forall|i: int|
            0 <= i < query_indices(channel, log, num_queries).len() ==> #[trigger] query_indices(
                channel,
                log,
                num_queries,
            )[i] < pow2(log),
{
    let queries = query_indices(channel, log, num_queries);
    lemma_pow2_pos(log);
    assert forall|i: int| 0 <= i < queries.len() implies #[trigger] queries[i] < pow2(log) by {
        let b = challenges(channel, queries.len())[i].bits() as nat;
        vstd::arithmetic::div_mod::lemma_mod_bound(b as int, pow2(log) as int);
    }
}

/// Completeness: the queried symbols of a binding of the combination of
/// committed columns are accepted.
pub proof fn lemma_binding_complete<F: TowerField, T: FriChannel<F>, C: FriCode<F>>(
    code: C,
    cols: Seq<Seq<F>>,
    commitment: InterleavedCommitment,
    gamma: F,
    beta: Seq<F>,
    num_queries: nat,
    before: T,
    proof: SourceBindingProof<F>,
)
    requires
        0 < beta.len() <= commitment.log_rows,
        pow2((commitment.log_rows + 2) as nat) <= usize::MAX,
        num_queries > 0,
        commitment.n_cols == cols.len(),
        forall|c: int|
            0 <= c < cols.len() ==> (#[trigger] cols[c]).len() == pow2(commitment.log_rows as nat),
        commitment.cap.hashes.len() > 0,
        commitment.cap.hashes@.last() == node(
            SourceHasher,
            source_leaves(encoded_words(code, cols), commitment.log_rows as nat),
            (commitment.log_rows + 1) as nat,
            0,
        ),
        is_binding(
            code,
            encoded_words(code, cols),
            horner_table(gamma, cols, pow2(commitment.log_rows as nat)),
            beta,
            commitment.log_rows as nat,
            num_queries,
            before,
            proof,
        ),
    ensures
        binding_query_verdict(
            code,
            commitment,
            gamma,
            proof,
            beta,
            binding_queries(proof, commitment.log_rows as nat, num_queries, before),
        ) is Ok,
{
    let log_n = commitment.log_rows as nat;
    let n_cols = commitment.n_cols as nat;
    let queries = binding_queries(proof, log_n, num_queries, before);
    let words = encoded_words(code, cols);
    let leaves = path_leaves(queries, log_n, 0);
    let k = (beta.len() - 1) as nat;
    lemma_queries_within(
        binding_observed(before, proof.folded_roots@, proof.h_evals@, log_n),
        log_n + 2,
        num_queries,
    );
    lemma_pow2_pos(log_n + 2);
    lemma_path_leaves(queries, log_n, 0);
    let tree = source_leaves(words, log_n);
    let digests = source_digests(proof.source_symbols@, n_cols, log_n, leaves);
    assert forall|i: int| 0 <= i < leaves.len() implies #[trigger] leaves[i] < pow2(log_n + 1) by {
        assert(leaves[i] < pow2((log_n - 0 + 1) as nat));
    }
    assert forall|i: int| 0 <= i < leaves.len() implies #[trigger] digests[i]
        == tree[leaves[i] as int] by {
        assert(leaves[i] < pow2(log_n + 1));
        assert(source_slice(proof.source_symbols@, words.len(), i) == pair_symbols(
            words,
            pair_positions(log_n, leaves[i] as int),
        ));
    }
    lemma_batch_complete(SourceHasher, tree, log_n + 1, leaves, digests);
    lemma_paths_follow(code, cols, gamma, beta, log_n, num_queries, before, proof, k);
    let folded = first_folds(proof.source_symbols@, n_cols, gamma, beta.last(), log_n, leaves);
    let last = path_run(proof, beta, queries, log_n, folded, k)->Ok_0;
    let word = code.encoded(proof.h_evals@);
    let at = path_leaves(queries, log_n, k);
    let ok = |i: int| last[i] == word[at[i] as int];
    assert forall|i: int| 0 <= i < queries.len() implies #[trigger] ok(i) by {
        assert(last[i] == word[at[i] as int]);
    }
    lemma_none_bad(queries.len(), ok);
}

} // verus!
