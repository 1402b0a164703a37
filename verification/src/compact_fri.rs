//! The compact FRI opening of a multilinear polynomial at a point.
//!
//! The eight highest variables are handled by a tensor decomposition: the
//! prover sends the values of the rows, and a random combination of the rows is
//! proved by a sumcheck that is interleaved with the folding of a codeword.
//! The queried symbols come with one batched Merkle proof a round.
use vstd::prelude::*;
use vstd::arithmetic::power2::{lemma_pow2_adds, lemma_pow2_pos, lemma_pow2_strictly_increases, pow2};
use crate::field::{BinaryField, TowerField, lemma_add_cancel};
use crate::fri::{CryptographicHasher, FriChannel, FriCode, LOG_RATE};
use crate::hashing::HashOutput;
use crate::merkle::{BatchedMerkleProof, MerkleBatchError, MerkleTree, batch_siblings, batch_verdict, build_batched_merkle_proof, keys_of, lemma_batch_complete, node, sorted_keys, verify_batched_merkle_proof};
use crate::mle::{eq_at, eq_ind_partial_eval, eq_table, evaluate_slice, lemma_half_pow2, lemma_mle_sum, mle, pow2_usize};
use crate::sum::{lemma_sum_ext, lemma_sum_scale, sum};
use crate::table::{copied, subrange};
use crate::tensor::{lemma_eq_at_concat, lemma_sum_blocks};
use crate::transcript::{FiatShamir, absorb_all, absorb_slice, challenges, lemma_challenge_at, lemma_challenges_len, squeeze_many, squeezed_by};

verus! {

/// The number of variables that the tensor decomposition handles.
pub const COMPACT_TAU: usize = 8;

/// The number of queries.
pub const COMPACT_NUM_QUERIES: usize = 64;

/// An opening proof with batched Merkle proofs.
#[derive(Clone, Debug, PartialEq, Eq)]
pub struct CompactEvalProof<F> {
    pub upper_partial_evals: Vec<F>,
    pub sum_check_oracles: Vec<[F; 2]>,
    pub fri_roots: Vec<HashOutput>,
    pub fri_queried_symbols: Vec<Vec<(F, F)>>,
    pub fri_merkle_batch: Vec<BatchedMerkleProof>,
    pub final_codeword: Vec<F>,
}

/// The sum of the lengths of the first `k` items.
pub open spec fn total_len(len: spec_fn(int) -> nat, k: nat) -> nat
    decreases k,
{
    if k == 0 {
        0
    } else {
        total_len(len, (k - 1) as nat) + len(k - 1)
    }
}

/// More items are not shorter.
pub proof fn lemma_total_len_mono(len: spec_fn(int) -> nat, j: nat, k: nat)
    requires
        j <= k,
    ensures
        total_len(len, j) <= total_len(len, k),
    decreases k,
{
    if j < k {
        lemma_total_len_mono(len, j, (k - 1) as nat);
    }
}

impl<F: TowerField> CompactEvalProof<F> {
    /// The size in bytes: 16 a field element, 32 a digest.
    pub open spec fn size(&self) -> nat {
        let symbols = total_len(
            |i: int| self.fri_queried_symbols[i].len() as nat,
            self.fri_queried_symbols.len() as nat,
        );
        let siblings = total_len(
            |i: int| self.fri_merkle_batch[i].siblings.len() as nat,
            self.fri_merkle_batch.len() as nat,
        );
        self.upper_partial_evals.len() as nat * 16 + self.sum_check_oracles.len() as nat * 32
            + self.fri_roots.len() as nat * 32 + symbols * 32 + siblings * 32
            + self.final_codeword.len() as nat * 16
    }

    /// Computes [`CompactEvalProof::size`].
    pub fn byte_len(&self) -> (r: usize)
        requires
            self.size() <= usize::MAX,
        ensures
            r == self.size(),
    {
        let ghost fs = |i: int| self.fri_queried_symbols[i].len() as nat;
        let ghost fb = |i: int| self.fri_merkle_batch[i].siblings.len() as nat;
        let mut symbols: usize = 0;
        let mut i: usize = 0;
        while i < self.fri_queried_symbols.len()
            invariant
                i <= self.fri_queried_symbols.len(),
                fs == (|i: int| self.fri_queried_symbols[i].len() as nat),
                symbols == total_len(fs, i as nat),
                total_len(fs, self.fri_queried_symbols.len() as nat) * 32 <= usize::MAX,
            decreases self.fri_queried_symbols.len() - i,
        {
            proof {
                lemma_total_len_mono(
                    fs,
                    (i + 1) as nat,
                    self.fri_queried_symbols.len() as nat,
                );
            }
            symbols = symbols + self.fri_queried_symbols[i].len();
            i += 1;
        }
        let mut siblings: usize = 0;
        let mut j: usize = 0;
        while j < self.fri_merkle_batch.len()
            invariant
                j <= self.fri_merkle_batch.len(),
                fb == (|i: int| self.fri_merkle_batch[i].siblings.len() as nat),
                siblings == total_len(fb, j as nat),
                total_len(fb, self.fri_merkle_batch.len() as nat) * 32 <= usize::MAX,
            decreases self.fri_merkle_batch.len() - j,
        {
            proof {
                lemma_total_len_mono(fb, (j + 1) as nat, self.fri_merkle_batch.len() as nat);
            }
            siblings = siblings + self.fri_merkle_batch[j].siblings.len();
            j += 1;
        }
        self.upper_partial_evals.len() * 16 + self.sum_check_oracles.len() * 2 * 16
            + self.fri_roots.len() * 32 + symbols * 2 * 16 + siblings * 32
            + self.final_codeword.len() * 16
    }
}

/// The number of tensor variables of a point of `n` coordinates.
pub open spec fn tau_of(n: nat) -> nat {
    if n < COMPACT_TAU {
        n
    } else {
        COMPACT_TAU as nat
    }
}

/// Row `row` of a table, the rows having `len` values.
pub open spec fn row_of<F>(evals: Seq<F>, len: nat, row: int) -> Seq<F> {
    evals.subrange(row * len, row * len + len)
}

/// The values of all the rows at the low coordinates of the point.
pub open spec fn upper_evals<F: BinaryField>(evals: Seq<F>, point: Seq<F>) -> Seq<F> {
    let tau = tau_of(point.len());
    let len = pow2((point.len() - tau) as nat);
    Seq::new(
        pow2(tau),
        |row: int| mle(row_of(evals, len, row), point.take(point.len() - tau)),
    )
}

/// The inner product.
pub open spec fn dot<F: BinaryField>(a: Seq<F>, b: Seq<F>) -> F {
    sum(a.len(), |i: int| a[i].mul(b[i]))
}

/// The combination of the rows by the weights at `beta`.
pub open spec fn batched_rows<F: BinaryField>(evals: Seq<F>, beta: Seq<F>, len: nat) -> Seq<F> {
    Seq::new(
        len,
        |j: int| sum(pow2(beta.len()), |row: int| eq_at(beta, row).mul(evals[row * len + j])),
    )
}

/// A table times the weights at a point.
pub open spec fn masked<F: BinaryField>(h: Seq<F>, right: Seq<F>) -> Seq<F> {
    Seq::new(h.len(), |j: int| h[j].mul(eq_at(right, j)))
}

/// The state after the tensor decomposition.
pub struct FriOpening<F, T> {
    pub upper: Seq<F>,
    pub eval: F,
    pub beta: Seq<F>,
    pub h: Seq<F>,
    pub claim: F,
    pub table: Seq<F>,
    pub channel: T,
}

/// The tensor decomposition of a table at a point.
pub open spec fn fri_opening<F: TowerField, T: FriChannel<F>>(
    evals: Seq<F>,
    point: Seq<F>,
    channel: T,
) -> FriOpening<F, T> {
    let n = point.len();
    let tau = tau_of(n);
    let right = point.take(n - tau);
    let left = point.skip(n - tau);
    let upper = upper_evals(evals, point);
    let eval = dot(upper, eq_table(left));
    let bound = absorb_all(channel, point).absorbed(eval);
    let beta = challenges(bound, tau);
    let h = batched_rows(evals, beta, pow2((n - tau) as nat));
    FriOpening {
        upper,
        eval,
        beta,
        h,
        claim: dot(upper, eq_table(beta)),
        table: masked(h, right),
        channel: squeezed_by(bound, tau),
    }
}

/// The digests of the pairs of neighbours of a word.
pub open spec fn pair_leaves<F: TowerField, H: CryptographicHasher<F>>(
    hasher: H,
    word: Seq<F>,
) -> Seq<HashOutput> {
    Seq::new(
        word.len() / 2,
        |i: int| hasher.pair_digest(word[2 * i], word[2 * i + 1]),
    )
}

/// The root of the tree over the pairs of a word.
pub open spec fn word_root<F: TowerField, H: CryptographicHasher<F>>(
    hasher: H,
    word: Seq<F>,
    depth: nat,
) -> HashOutput {
    node(hasher, pair_leaves(hasher, word), depth, 0)
}

/// A word folded pair by pair.
pub open spec fn fold_word<F: TowerField, C: FriCode<F>>(
    code: C,
    word: Seq<F>,
    r: F,
    round: nat,
) -> Seq<F> {
    Seq::new(
        word.len() / 2,
        |i: int| code.folded(r, round, i, word[2 * i], word[2 * i + 1]),
    )
}

/// A table with its upper half added to its lower half, times `r`.
pub open spec fn fold_upper<F: BinaryField>(t: Seq<F>, r: F) -> Seq<F> {
    Seq::new(t.len() / 2, |j: int| t[j].add(r.mul(t[j + t.len() / 2])))
}

/// The depth of the tree of a round.
pub open spec fn round_depth(n_rounds: nat, round: nat) -> nat {
    (n_rounds + LOG_RATE - 1 - round) as nat
}

/// The prover after some rounds.
pub struct FriRun<F, T> {
    pub table: Seq<F>,
    pub word: Seq<F>,
    pub claim: F,
    pub channel: T,
    pub oracles: Seq<Seq<F>>,
    pub roots: Seq<HashOutput>,
    pub words: Seq<Seq<F>>,
    pub challenges: Seq<F>,
}

/// The prover after `k` of `n_rounds` rounds.
pub open spec fn fri_run<F: TowerField, T: FriChannel<F>, C: FriCode<F>, H: CryptographicHasher<F>>(
    code: C,
    hasher: H,
    opening: FriOpening<F, T>,
    n_rounds: nat,
    k: nat,
) -> FriRun<F, T>
    decreases k,
{
    if k == 0 {
        FriRun {
            table: opening.table,
            word: code.encoded(opening.table),
            claim: opening.claim,
            channel: opening.channel,
            oracles: Seq::empty(),
            roots: Seq::empty(),
            words: Seq::empty(),
            challenges: Seq::empty(),
        }
    } else {
        let round = (k - 1) as nat;
        let s = fri_run(code, hasher, opening, n_rounds, round);
        let c0 = sum(s.table.len() / 2, |j: int| s.table[j]);
        let c1 = s.claim;
        let depth = round_depth(n_rounds, round);
        let root = word_root(hasher, s.word, depth);
        let sent = s.channel.absorbed(c0).absorbed(c1).committed(root, depth);
        let r = sent.challenge();
        FriRun {
            table: fold_upper(s.table, r),
            word: fold_word(code, s.word, r, round),
            claim: c0.add(c1.mul(r)),
            channel: sent.squeezed(),
            oracles: s.oracles.push(seq![c0, c1]),
            roots: s.roots.push(root),
            words: s.words.push(s.word),
            challenges: s.challenges.push(r),
        }
    }
}

/// The query indices that a transcript gives: the low bits of its challenges.
pub open spec fn query_indices<F: TowerField, T: FiatShamir<F>>(
    channel: T,
    log: nat,
    num_queries: nat,
) -> Seq<usize> {
    let n = query_count(log, num_queries);
    Seq::new(
        n,
        |i: int| (challenges(channel, n)[i].bits() as nat % pow2(log)) as usize,
    )
}

/// The number of queries: as many as asked for, or as there are places.
pub open spec fn query_count(log: nat, num_queries: nat) -> nat {
    if num_queries < pow2(log) {
        num_queries
    } else {
        pow2(log)
    }
}

/// The index of the pair that a query meets in a round.
pub open spec fn query_pair(q: usize, round: nat) -> int {
    q as int / (pow2(round) as int) / 2
}

/// The pairs that the queries meet in a round.
pub open spec fn query_pairs(queries: Seq<usize>, round: nat) -> Seq<usize> {
    Seq::new(queries.len(), |i: int| query_pair(queries[i], round) as usize)
}

/// The symbols that the queries meet in a round.
pub open spec fn query_symbols<F>(word: Seq<F>, queries: Seq<usize>, round: nat) -> Seq<(F, F)> {
    Seq::new(
        queries.len(),
        |i: int|
            (word[2 * query_pair(queries[i], round)], word[2 * query_pair(queries[i], round) + 1]),
    )
}

/// What the rounds leave for the queries.
#[derive(Clone, Debug, PartialEq, Eq)]
pub struct CompactFriQueryContext<F> {
    pub tau: usize,
    pub n_rounds: usize,
    pub tensor_batching_point: Vec<F>,
    pub initial_sumcheck_claim: F,
    pub source_h_evals: Vec<F>,
    pub fri_roots: Vec<HashOutput>,
    pub final_codeword: Vec<F>,
}

/// The contents of a [`CompactFriQueryContext`].
pub struct FriContext<F> {
    pub tau: nat,
    pub n_rounds: nat,
    pub beta: Seq<F>,
    pub claim: F,
    pub h: Seq<F>,
    pub roots: Seq<HashOutput>,
    pub final_word: Seq<F>,
}

impl<F> CompactFriQueryContext<F> {
    /// The contents.
    pub open spec fn contents(&self) -> FriContext<F> {
        FriContext {
            tau: self.tau as nat,
            n_rounds: self.n_rounds as nat,
            beta: self.tensor_batching_point@,
            claim: self.initial_sumcheck_claim,
            h: self.source_h_evals@,
            roots: self.fri_roots@,
            final_word: self.final_codeword@,
        }
    }
}

/// What was asked of the codeword.
#[derive(Clone, Debug, PartialEq, Eq)]
pub struct CompactFriQueryInfo<F> {
    pub tau: usize,
    pub n_rounds: usize,
    pub tensor_batching_point: Vec<F>,
    pub initial_sumcheck_claim: F,
    pub query_indices: Vec<usize>,
}

/// A step of the prover between the rounds and the queries.
pub trait ProverHook<F: TowerField, T: FriChannel<F>> {
    /// What the step gives.
    type Extra;

    /// When the step can be taken.
    spec fn ready(&self, ctx: FriContext<F>) -> bool;

    /// The transcript after the step.
    spec fn channel_after(&self, ctx: FriContext<F>, before: T) -> T;

    /// What the step gives.
    spec fn gives(&self, ctx: FriContext<F>, before: T, extra: Self::Extra) -> bool;

    /// Takes the step.
    fn before_queries(&self, ctx: &CompactFriQueryContext<F>, channel: &mut T) -> (e: Self::Extra)
        requires
            self.ready(ctx.contents()),
        ensures
            self.gives(ctx.contents(), *old(channel), e),
            *final(channel) == self.channel_after(ctx.contents(), *old(channel)),
    ;
}

/// The step that does nothing.
pub struct NoHook;

impl<F: TowerField, T: FriChannel<F>> ProverHook<F, T> for NoHook {
    type Extra = ();

    open spec fn ready(&self, ctx: FriContext<F>) -> bool {
        true
    }

    open spec fn channel_after(&self, ctx: FriContext<F>, before: T) -> T {
        before
    }

    open spec fn gives(&self, ctx: FriContext<F>, before: T, extra: ()) -> bool {
        true
    }

    fn before_queries(&self, ctx: &CompactFriQueryContext<F>, channel: &mut T) -> (e: ()) {
    }
}

/// Divides by a power of two.
pub fn shift_right(q: usize, k: usize) -> (r: usize)
    ensures
        r == q as int / (pow2(k as nat) as int),
        r <= q,
{
    let mut r: usize = q;
    let mut i: usize = 0;
    proof {
        vstd::arithmetic::power2::lemma2_to64();
    }
    while i < k
        invariant
            i <= k,
            r == q as int / (pow2(i as nat) as int),
            r <= q,
        decreases k - i,
    {
        proof {
            lemma_half_pow2((i + 1) as nat);
            let m = pow2(i as nat) as int;
            vstd::arithmetic::div_mod::lemma_div_denominator(q as int, m, 2);
            assert(m * 2 == pow2((i + 1) as nat));
        }
        r = r / 2;
        i += 1;
    }
    r
}

/// Draws the query indices.
pub fn gen_compact_queries<F: TowerField, T: FiatShamir<F>>(
    channel: &mut T,
    log_max_len: usize,
    num_queries: usize,
) -> (r: Vec<usize>)
    requires
        pow2(log_max_len as nat) <= usize::MAX,
    ensures
        r@ == query_indices(*old(channel), log_max_len as nat, num_queries as nat),
        r.len() == query_count(log_max_len as nat, num_queries as nat),
        *final(channel) == squeezed_by(
            *old(channel),
            query_count(log_max_len as nat, num_queries as nat),
        ),
        forall|i: int| 0 <= i < r.len() ==> #[trigger] r[i] < pow2(log_max_len as nat),
{
    let domain: usize = pow2_usize(log_max_len);
    proof {
        lemma_pow2_pos(log_max_len as nat);
    }
    let n: usize = if num_queries < domain {
        num_queries
    } else {
        domain
    };
    proof {
        lemma_challenges_len(*channel, n as nat);
    }
    let elems = squeeze_many(channel, n);
    let mut out: Vec<usize> = Vec::new();
    let mut i: usize = 0;
    while i < n
        invariant
            i <= n,
            elems.len() == n,
            domain == pow2(log_max_len as nat),
            domain > 0,
            out.len() == i,
            forall|k: int|
                0 <= k < i ==> #[trigger] out[k] == (elems[k].bits() as nat % pow2(
                    log_max_len as nat,
                )) as usize,
            forall|k: int| 0 <= k < i ==> #[trigger] out[k] < domain,
        decreases n - i,
    {
        let v: u128 = elems[i].to_u128() % (domain as u128);
        out.push(v as usize);
        i += 1;
    }
    proof {
        assert(out@ =~= query_indices(*old(channel), log_max_len as nat, num_queries as nat));
    }
    out
}

/// The inner product of two tables.
fn dot_value<F: TowerField>(a: &[F], b: &[F]) -> (v: F)
    requires
        a.len() == b.len(),
    ensures
        v == dot(a@, b@),
{
    let ghost f = |i: int| a@[i].mul(b@[i]);
    let mut acc = F::zero_value();
    let mut i: usize = 0;
    while i < a.len()
        invariant
            i <= a.len(),
            a.len() == b.len(),
            f == (|i: int| a@[i].mul(b@[i])),
            acc == sum(i as nat, f),
        decreases a.len() - i,
    {
        acc = acc.plus(a[i].times(b[i]));
        i += 1;
    }
    acc
}

/// The values of the rows.
fn upper_values<F: TowerField>(evals: &[F], right: &[F], tau: usize) -> (u: Vec<F>)
    requires
        evals.len() == pow2((right.len() + tau) as nat),
    ensures
        u.len() == pow2(tau as nat),
        forall|row: int|
            0 <= row < u.len() ==> #[trigger] u[row] == mle(
                row_of(evals@, pow2(right.len() as nat), row),
                right@,
            ),
{
    let n: usize = right.len();
    proof {
        lemma_pow2_adds(n as nat, tau as nat);
        lemma_pow2_pos(n as nat);
        lemma_pow2_pos(tau as nat);
        let (a, b) = (pow2(n as nat), pow2(tau as nat));
        assert(a <= a * b && b <= a * b) by (nonlinear_arith)
            requires
                a > 0,
                b > 0,
        ;
    }
    let len: usize = pow2_usize(n);
    let rows: usize = pow2_usize(tau);
    let mut u: Vec<F> = Vec::new();
    let mut row: usize = 0;
    while row < rows
        invariant
            row <= rows,
            len == pow2(n as nat),
            n == right.len(),
            evals.len() == len * rows,
            u.len() == row,
            forall|k: int|
                0 <= k < row ==> #[trigger] u[k] == mle(row_of(evals@, len as nat, k), right@),
        decreases rows - row,
    {
        proof {
            assert((row + 1) * len <= len * rows) by (nonlinear_arith)
                requires
                    row + 1 <= rows,
            ;
            assert((row + 1) * len == row * len + len) by (nonlinear_arith);
        }
        let start: usize = row * len;
        let part = subrange(evals, start, start + len);
        u.push(evaluate_slice(part.as_slice(), right));
        row += 1;
    }
    u
}

/// The combination of the rows.
fn batched_values<F: TowerField>(evals: &[F], weights: &[F], len: usize, Ghost(beta): Ghost<Seq<F>>) -> (h:
    Vec<F>)
    requires
        weights@ == eq_table(beta),
        evals.len() == len * weights.len(),
    ensures
        h@ == batched_rows(evals@, beta, len as nat),
{
    let mut h: Vec<F> = Vec::new();
    let rows: usize = weights.len();
    let mut j: usize = 0;
    while j < len
        invariant
            j <= len,
            rows == weights.len(),
            rows == pow2(beta.len()),
            weights@ == eq_table(beta),
            evals.len() == len * rows,
            h.len() == j,
            forall|k: int|
                0 <= k < j ==> #[trigger] h[k] == batched_rows(evals@, beta, len as nat)[k],
        decreases len - j,
    {
        let ghost f = |row: int| eq_at(beta, row).mul(evals@[row * len + j]);
        let mut acc = F::zero_value();
        let mut row: usize = 0;
        while row < rows
            invariant
                row <= rows,
                j < len,
                rows == weights.len(),
                weights@ == eq_table(beta),
                evals.len() == len * rows,
                f == (|row: int| eq_at(beta, row).mul(evals@[row * len + j])),
                acc == sum(row as nat, f),
            decreases rows - row,
        {
            proof {
                assert(row * len + j < len * rows) by (nonlinear_arith)
                    requires
                        row + 1 <= rows,
                        j < len,
                ;
                assert(0 <= row * len <= row * len + j) by (nonlinear_arith);
            }
            acc = acc.plus(weights[row].times(evals[row * len + j]));
            row += 1;
        }
        proof {
            assert(acc == batched_rows(evals@, beta, len as nat)[j as int]) by {
                lemma_sum_ext(
                    rows as nat,
                    f,
                    |row: int| eq_at(beta, row).mul(evals@[row * (len as nat) + j]),
                );
            }
        }
        h.push(acc);
        j += 1;
    }
    proof {
        assert(h@ =~= batched_rows(evals@, beta, len as nat));
    }
    h
}

/// The product of a table with the weights at a point.
pub(crate) fn masked_values<F: TowerField>(h: &[F], right: &[F]) -> (t: Vec<F>)
    requires
        h.len() == pow2(right.len() as nat),
    ensures
        t@ == masked(h@, right@),
{
    let eq_right = eq_ind_partial_eval(right);
    let mut t: Vec<F> = Vec::new();
    let mut j: usize = 0;
    while j < h.len()
        invariant
            j <= h.len(),
            h.len() == eq_right.len(),
            eq_right@ == eq_table(right@),
            t.len() == j,
            forall|k: int| 0 <= k < j ==> #[trigger] t[k] == h@[k].mul(eq_at(right@, k)),
        decreases h.len() - j,
    {
        t.push(h[j].times(eq_right[j]));
        j += 1;
    }
    proof {
        assert(t@ =~= masked(h@, right@));
    }
    t
}

/// Adds the upper half of a table, times `r`, to its lower half.
pub fn fold_evals_in_place<F: TowerField>(t: &mut Vec<F>, r: F)
    ensures
        final(t)@ == fold_upper(old(t)@, r),
{
    let half: usize = t.len() / 2;
    let mut j: usize = 0;
    while j < half
        invariant
            j <= half,
            half == old(t).len() / 2,
            t.len() == old(t).len(),
            forall|k: int| 0 <= k < j ==> t[k] == fold_upper(old(t)@, r)[k],
            forall|k: int| j <= k < t.len() ==> t[k] == old(t)[k],
        decreases half - j,
    {
        let v = t[j].plus(r.times(t[j + half]));
        t.set(j, v);
        j += 1;
    }
    t.truncate(half);
    proof {
        assert(t@ =~= fold_upper(old(t)@, r));
    }
}

/// Folds a word pair by pair.
fn fold_code<F: TowerField, C: FriCode<F>>(code: &C, word: &Vec<F>, r: F, round: usize) -> (w: Vec<
    F,
>)
    ensures
        w@ == fold_word(*code, word@, r, round as nat),
{
    let half: usize = word.len() / 2;
    let mut w: Vec<F> = Vec::new();
    let mut i: usize = 0;
    while i < half
        invariant
            i <= half,
            half == word.len() / 2,
            w.len() == i,
            forall|k: int|
                0 <= k < i ==> #[trigger] w[k] == code.folded(
                    r,
                    round as nat,
                    k,
                    word[2 * k],
                    word[2 * k + 1],
                ),
        decreases half - i,
    {
        w.push(code.fold_symbol(r, round, i, word[2 * i], word[2 * i + 1]));
        i += 1;
    }
    proof {
        assert(w@ =~= fold_word(*code, word@, r, round as nat));
    }
    w
}

/// The tree over the pairs of a word.
pub(crate) fn word_tree<F: TowerField, H: CryptographicHasher<F>>(
    hasher: &H,
    word: &Vec<F>,
    depth: usize,
) -> (t: MerkleTree)
    requires
        word.len() == pow2((depth + 1) as nat),
    ensures
        t.of(*hasher, pair_leaves(*hasher, word@), depth as nat),
        t.leaves() == pair_leaves(*hasher, word@),
{
    proof {
        lemma_half_pow2((depth + 1) as nat);
    }
    let half: usize = word.len() / 2;
    let mut leaves: Vec<HashOutput> = Vec::new();
    let mut i: usize = 0;
    while i < half
        invariant
            i <= half,
            half == word.len() / 2,
            leaves.len() == i,
            forall|k: int|
                0 <= k < i ==> #[trigger] leaves[k] == hasher.pair_digest(
                    word[2 * k],
                    word[2 * k + 1],
                ),
        decreases half - i,
    {
        leaves.push(hasher.hash_pair(&word[2 * i], &word[2 * i + 1]));
        i += 1;
    }
    proof {
        assert(leaves@ =~= pair_leaves(*hasher, word@));
    }
    MerkleTree::new(hasher, leaves, depth)
}

/// The lengths in a run of the prover.
pub proof fn lemma_fri_run_shape<
    F: TowerField,
    T: FriChannel<F>,
    C: FriCode<F>,
    H: CryptographicHasher<F>,
>(code: C, hasher: H, opening: FriOpening<F, T>, n_rounds: nat, k: nat)
    requires
        k <= n_rounds,
        opening.table.len() == pow2(n_rounds),
    ensures
        ({
            let s = fri_run(code, hasher, opening, n_rounds, k);
            &&& s.table.len() == pow2((n_rounds - k) as nat)
            &&& s.word.len() == pow2((n_rounds - k + 2) as nat)
            &&& s.oracles.len() == k
            &&& s.roots.len() == k
            &&& s.words.len() == k
            &&& s.challenges.len() == k
        }),
    decreases k,
{
    if k == 0 {
        code.encoded_len(opening.table, n_rounds);
    } else {
        lemma_fri_run_shape(code, hasher, opening, n_rounds, (k - 1) as nat);
        lemma_half_pow2((n_rounds - k + 1) as nat);
        lemma_half_pow2((n_rounds - k + 3) as nat);
    }
}

/// What a run recorded of an earlier round stays.
pub proof fn lemma_fri_run_prefix<
    F: TowerField,
    T: FriChannel<F>,
    C: FriCode<F>,
    H: CryptographicHasher<F>,
>(code: C, hasher: H, opening: FriOpening<F, T>, n_rounds: nat, j: nat, k: nat)
    requires
        j < k <= n_rounds,
        opening.table.len() == pow2(n_rounds),
    ensures
        ({
            let s = fri_run(code, hasher, opening, n_rounds, k);
            let t = fri_run(code, hasher, opening, n_rounds, (j + 1) as nat);
            let b = fri_run(code, hasher, opening, n_rounds, j);
            &&& s.oracles[j as int] == t.oracles[j as int]
            &&& s.roots[j as int] == t.roots[j as int]
            &&& s.challenges[j as int] == t.challenges[j as int]
            &&& s.words[j as int] == b.word
        }),
    decreases k,
{
    lemma_fri_run_shape(code, hasher, opening, n_rounds, (k - 1) as nat);
    if j < k - 1 {
        lemma_fri_run_prefix(code, hasher, opening, n_rounds, j, (k - 1) as nat);
    }
}

/// The rounds of the prover.
struct ProvedFri<F> {
    oracles: Vec<[F; 2]>,
    roots: Vec<HashOutput>,
    trees: Vec<MerkleTree>,
    words: Vec<Vec<F>>,
    final_word: Vec<F>,
}

/// The oracles as sequences.
pub open spec fn oracle_views<F>(oracles: Seq<[F; 2]>) -> Seq<Seq<F>> {
    Seq::new(oracles.len(), |i: int| oracles[i]@)
}

/// Runs the rounds of the prover.
fn prove_fri_rounds<F: TowerField, T: FriChannel<F>, C: FriCode<F>, H: CryptographicHasher<F>>(
    table: Vec<F>,
    claim: F,
    n_rounds: usize,
    code: &C,
    hasher: &H,
    channel: &mut T,
    Ghost(opening): Ghost<FriOpening<F, T>>,
) -> (out: ProvedFri<F>)
    requires
        table@ == opening.table,
        claim == opening.claim,
        *old(channel) == opening.channel,
        table.len() == pow2(n_rounds as nat),
        n_rounds <= 120,
        pow2((n_rounds + 2) as nat) <= usize::MAX,
    ensures
        ({
            let s = fri_run(*code, *hasher, opening, n_rounds as nat, n_rounds as nat);
            &&& oracle_views(out.oracles@) == s.oracles
            &&& out.roots@ == s.roots
            &&& out.final_word@ == s.word
            &&& *final(channel) == s.channel
            &&& out.words.len() == n_rounds
            &&& out.trees.len() == n_rounds
            &&& forall|k: int|
                0 <= k < n_rounds ==> #[trigger] out.words[k]@ == s.words[k]
            &&& forall|k: int|
                0 <= k < n_rounds ==> (#[trigger] out.trees[k]).of(
                    *hasher,
                    pair_leaves(*hasher, s.words[k]),
                    round_depth(n_rounds as nat, k as nat),
                )
            &&& forall|k: int|
                0 <= k < n_rounds ==> (#[trigger] out.trees[k]).leaves() == pair_leaves(
                    *hasher,
                    s.words[k],
                )
        }),
{
    let ghost nr = n_rounds as nat;
    proof {
        lemma_pow2_adds(nr, 2);
        vstd::arithmetic::power2::lemma2_to64();
        assert(pow2(nr) == table.len());
    }
    let mut cur = table;
    let mut word = code.encode(cur.as_slice());
    let mut cl = claim;
    let mut oracles: Vec<[F; 2]> = Vec::new();
    let mut roots: Vec<HashOutput> = Vec::new();
    let mut trees: Vec<MerkleTree> = Vec::new();
    let mut words: Vec<Vec<F>> = Vec::new();
    let mut round: usize = 0;
    proof {
        assert(oracle_views(oracles@) =~= Seq::empty());
    }
    while round < n_rounds
        invariant
            round <= n_rounds <= 120,
            nr == n_rounds,
            opening.table.len() == pow2(nr),
            ({
                let s = fri_run(*code, *hasher, opening, nr, round as nat);
                &&& s.table == cur@
                &&& s.word == word@
                &&& s.claim == cl
                &&& s.channel == *channel
                &&& s.oracles == oracle_views(oracles@)
                &&& s.roots == roots@
                &&& words.len() == round
                &&& trees.len() == round
                &&& forall|k: int| 0 <= k < round ==> #[trigger] words[k]@ == s.words[k]
                &&& forall|k: int|
                    0 <= k < round ==> (#[trigger] trees[k]).of(
                        *hasher,
                        pair_leaves(*hasher, s.words[k]),
                        round_depth(nr, k as nat),
                    )
                &&& forall|k: int|
                    0 <= k < round ==> (#[trigger] trees[k]).leaves() == pair_leaves(
                        *hasher,
                        s.words[k],
                    )
            }),
        decreases n_rounds - round,
    {
        let ghost s = fri_run(*code, *hasher, opening, nr, round as nat);
        proof {
            lemma_fri_run_shape(*code, *hasher, opening, nr, round as nat);
        }
        let half: usize = cur.len() / 2;
        let ghost f = |j: int| s.table[j];
        let mut p0 = F::zero_value();
        let mut j: usize = 0;
        while j < half
            invariant
                j <= half,
                half == cur.len() / 2,
                cur@ == s.table,
                f == (|j: int| s.table[j]),
                p0 == sum(j as nat, f),
            decreases half - j,
        {
            p0 = p0.plus(cur[j]);
            j += 1;
        }
        let p1 = cl.plus(p0);
        let c0 = p0;
        let c1 = p0.plus(p1);
        proof {
            // c1 == claim
            F::add_comm(cl, p0);
            lemma_add_cancel(p0, cl);
        }
        let ghost before = oracles@;
        oracles.push([c0, c1]);
        let depth: usize = n_rounds + LOG_RATE - 1 - round;
        let tree = word_tree(hasher, &word, depth);
        let ghost top = tree.layers[tree.layers.len() - 1];
        proof {
            vstd::arithmetic::power2::lemma2_to64();
            assert(tree.layers[depth as int].len() == pow2((depth - depth) as nat));
            assert(tree.layers[depth as int][0] == node(
                *hasher,
                pair_leaves(*hasher, word@),
                depth as nat,
                0,
            ));
        }
        let root = tree.get_root();
        roots.push(root);
        trees.push(tree);
        channel.absorb(c0);
        channel.absorb(c1);
        channel.observe_vector_commitment(&root, depth);
        let r = channel.squeeze();
        cl = c0.plus(c1.times(r));
        let next = fold_code(code, &word, r, round);
        words.push(word);
        fold_evals_in_place(&mut cur, r);
        word = next;
        proof {
            let t = fri_run(*code, *hasher, opening, nr, (round + 1) as nat);
            assert(oracle_views(oracles@) =~= oracle_views(before).push(seq![c0, c1])) by {
                assert([c0, c1]@ =~= seq![c0, c1]);
            }
            assert(t.words == s.words.push(s.word));
        }
        round += 1;
    }
    ProvedFri { oracles, roots, trees, words, final_word: word }
}

/// The rounds of an opening.
pub open spec fn fri_rounds<F: TowerField, T: FriChannel<F>, C: FriCode<F>, H: CryptographicHasher<F>>(
    code: C,
    hasher: H,
    evals: Seq<F>,
    point: Seq<F>,
    channel: T,
) -> FriRun<F, T> {
    let nr = (point.len() - tau_of(point.len())) as nat;
    fri_run(code, hasher, fri_opening(evals, point, channel), nr, nr)
}

/// What the prover's rounds leave for the queries.
pub open spec fn prover_context<
    F: TowerField,
    T: FriChannel<F>,
    C: FriCode<F>,
    H: CryptographicHasher<F>,
>(code: C, hasher: H, evals: Seq<F>, point: Seq<F>, channel: T) -> FriContext<F> {
    let tau = tau_of(point.len());
    let opening = fri_opening(evals, point, channel);
    let run = fri_rounds(code, hasher, evals, point, channel);
    FriContext {
        tau,
        n_rounds: (point.len() - tau) as nat,
        beta: opening.beta,
        claim: opening.claim,
        h: opening.h,
        roots: run.roots,
        final_word: run.word,
    }
}

/// The transcript once the final word is absorbed.
pub open spec fn prover_bound<
    F: TowerField,
    T: FriChannel<F>,
    C: FriCode<F>,
    H: CryptographicHasher<F>,
>(code: C, hasher: H, evals: Seq<F>, point: Seq<F>, channel: T) -> T {
    let run = fri_rounds(code, hasher, evals, point, channel);
    absorb_all(run.channel, run.word)
}

/// The proof of an opening with the given queries.
pub open spec fn is_fri_proof<
    F: TowerField,
    T: FriChannel<F>,
    C: FriCode<F>,
    H: CryptographicHasher<F>,
>(
    code: C,
    hasher: H,
    evals: Seq<F>,
    point: Seq<F>,
    channel: T,
    queries: Seq<usize>,
    proof: CompactEvalProof<F>,
) -> bool {
    let nr = (point.len() - tau_of(point.len())) as nat;
    let run = fri_rounds(code, hasher, evals, point, channel);
    &&& proof.upper_partial_evals@ == upper_evals(evals, point)
    &&& oracle_views(proof.sum_check_oracles@) == run.oracles
    &&& proof.fri_roots@ == run.roots
    &&& proof.final_codeword@ == run.word
    &&& proof.fri_queried_symbols.len() == nr
    &&& proof.fri_merkle_batch.len() == nr
    &&& forall|k: int|
        0 <= k < nr ==> (#[trigger] proof.fri_queried_symbols[k])@ == query_symbols(
            run.words[k],
            queries,
            k as nat,
        )
    &&& forall|k: int|
        0 <= k < nr ==> (#[trigger] proof.fri_merkle_batch[k]).siblings@ == batch_siblings(
            hasher,
            pair_leaves(hasher, run.words[k]),
            keys_of(sorted_keys(query_pairs(queries, k as nat), queries.len())),
            0,
            round_depth(nr, k as nat),
        )
}

/// A query stays within the tree of every round.
pub proof fn lemma_query_pair_bound(q: usize, n_rounds: nat, round: nat)
    requires
        round < n_rounds,
        q < pow2(n_rounds + 2),
    ensures
        0 <= query_pair(q, round) < pow2(round_depth(n_rounds, round)),
        query_pair(q, round) <= q,
        2 * query_pair(q, round) + 1 < pow2((n_rounds - round + 2) as nat),
{
    let d = round_depth(n_rounds, round);
    lemma_pow2_adds(round, (n_rounds - round + 2) as nat);
    lemma_pow2_pos(round);
    lemma_half_pow2((n_rounds - round + 2) as nat);
    let m = pow2(round) as int;
    let b = pow2((n_rounds - round + 2) as nat) as int;
    vstd::arithmetic::div_mod::lemma_div_pos_is_pos(q as int, m);
    assert(q as int / m < b) by {
        vstd::arithmetic::div_mod::lemma_multiply_divide_lt(q as int, m, b);
    }
    vstd::arithmetic::div_mod::lemma_div_nonincreasing(q as int, m);
    assert(d == n_rounds - round + 1);
}

/// The pairs and the symbols that the queries meet in a round.
fn query_round<F: TowerField>(
    word: &Vec<F>,
    queries: &Vec<usize>,
    round: usize,
    n_rounds: usize,
) -> (r: (Vec<(F, F)>, Vec<usize>))
    requires
        round < n_rounds,
        word.len() == pow2((n_rounds - round + 2) as nat),
        forall|i: int|
            0 <= i < queries.len() ==> #[trigger] queries[i] < pow2((n_rounds + 2) as nat),
    ensures
        r.0@ == query_symbols(word@, queries@, round as nat),
        r.1@ == query_pairs(queries@, round as nat),
{
    let mut symbols: Vec<(F, F)> = Vec::new();
    let mut pairs: Vec<usize> = Vec::new();
    let mut i: usize = 0;
    while i < queries.len()
        invariant
            i <= queries.len(),
            round < n_rounds,
            word.len() == pow2((n_rounds - round + 2) as nat),
            forall|i: int|
                0 <= i < queries.len() ==> #[trigger] queries[i] < pow2((n_rounds + 2) as nat),
            symbols.len() == i,
            pairs.len() == i,
            forall|k: int|
                0 <= k < i ==> #[trigger] symbols[k] == query_symbols(
                    word@,
                    queries@,
                    round as nat,
                )[k],
            forall|k: int|
                0 <= k < i ==> #[trigger] pairs[k] == query_pairs(queries@, round as nat)[k],
        decreases queries.len() - i,
    {
        proof {
            assert(queries[i as int] < pow2((n_rounds + 2) as nat));
            lemma_query_pair_bound(queries[i as int], n_rounds as nat, round as nat);
        }
        let pair: usize = shift_right(queries[i], round) / 2;
        symbols.push((word[pair * 2], word[pair * 2 + 1]));
        pairs.push(pair);
        i += 1;
    }
    proof {
        assert(symbols@ =~= query_symbols(word@, queries@, round as nat));
        assert(pairs@ =~= query_pairs(queries@, round as nat));
    }
    (symbols, pairs)
}

/// Proves an opening, taking a step between the rounds and the queries.
pub fn compact_fri_prove_with_query_hook<
    F: TowerField,
    T: FriChannel<F>,
    C: FriCode<F>,
    H: CryptographicHasher<F>,
    K: ProverHook<F, T>,
>(
    evals: &[F],
    eval_point: &[F],
    code: &C,
    channel: &mut T,
    hasher: &H,
    num_queries: usize,
    hook: &K,
) -> (out: (CompactEvalProof<F>, CompactFriQueryInfo<F>, K::Extra))
    requires
        evals.len() == pow2(eval_point.len() as nat),
        4 * evals.len() <= usize::MAX,
        eval_point.len() <= 120,
        hook.ready(prover_context(*code, *hasher, evals@, eval_point@, *old(channel))),
    ensures
        ({
            let n = eval_point.len() as nat;
            let nr = (n - tau_of(n)) as nat;
            let ctx = prover_context(*code, *hasher, evals@, eval_point@, *old(channel));
            let bound = prover_bound(*code, *hasher, evals@, eval_point@, *old(channel));
            let mid = hook.channel_after(ctx, bound);
            let queries = query_indices(mid, nr + 2, num_queries as nat);
            &&& is_fri_proof(
                *code,
                *hasher,
                evals@,
                eval_point@,
                *old(channel),
                queries,
                out.0,
            )
            &&& hook.gives(ctx, bound, out.2)
            &&& out.1.tau == ctx.tau
            &&& out.1.n_rounds == nr
            &&& out.1.tensor_batching_point@ == ctx.beta
            &&& out.1.initial_sumcheck_claim == ctx.claim
            &&& out.1.query_indices@ == queries
            &&& *final(channel) == squeezed_by(mid, query_count(nr + 2, num_queries as nat))
        }),
{
    let ghost start = *channel;
    let ghost opening = fri_opening(evals@, eval_point@, start);
    let n: usize = eval_point.len();
    absorb_slice(channel, eval_point);
    let tau: usize = if n < COMPACT_TAU {
        n
    } else {
        COMPACT_TAU
    };
    let n_rounds: usize = n - tau;
    proof {
        lemma_pow2_adds(n_rounds as nat, tau as nat);
        lemma_pow2_adds(n_rounds as nat, 2);
        lemma_pow2_pos(tau as nat);
        lemma_pow2_pos(n_rounds as nat);
        vstd::arithmetic::power2::lemma2_to64();
        let (a, b) = (pow2(n_rounds as nat), pow2(tau as nat));
        assert(a <= a * b && b <= a * b) by (nonlinear_arith)
            requires
                a > 0,
                b > 0,
        ;
    }
    let right = subrange(eval_point, 0, n_rounds);
    let left = subrange(eval_point, n_rounds, n);
    proof {
        assert(right@ =~= eval_point@.take(n_rounds as int));
        assert(left@ =~= eval_point@.skip(n_rounds as int));
    }
    let upper = upper_values(evals, right.as_slice(), tau);
    proof {
        assert(upper@ =~= opening.upper);
    }
    let left_eq = eq_ind_partial_eval(left.as_slice());
    let eval = dot_value(upper.as_slice(), left_eq.as_slice());
    channel.absorb(eval);
    proof {
        lemma_challenges_len(*channel, tau as nat);
    }
    let beta = squeeze_many(channel, tau);
    let batching_eq = eq_ind_partial_eval(beta.as_slice());
    let row_len: usize = pow2_usize(n_rounds);
    let h = batched_values(evals, batching_eq.as_slice(), row_len, Ghost(beta@));
    let table = masked_values(h.as_slice(), right.as_slice());
    let claim = dot_value(upper.as_slice(), batching_eq.as_slice());
    let rounds = prove_fri_rounds(table, claim, n_rounds, code, hasher, channel, Ghost(opening));
    let ghost run = fri_run(*code, *hasher, opening, n_rounds as nat, n_rounds as nat);
    absorb_slice(channel, rounds.final_word.as_slice());
    let context = CompactFriQueryContext {
        tau,
        n_rounds,
        tensor_batching_point: copied(beta.as_slice()),
        initial_sumcheck_claim: claim,
        source_h_evals: h,
        fri_roots: copied(rounds.roots.as_slice()),
        final_codeword: copied(rounds.final_word.as_slice()),
    };
    let extra = hook.before_queries(&context, channel);
    let queries = gen_compact_queries(channel, n_rounds + LOG_RATE, num_queries);
    let mut symbols_out: Vec<Vec<(F, F)>> = Vec::new();
    let mut batches: Vec<BatchedMerkleProof> = Vec::new();
    let mut round: usize = 0;
    while round < n_rounds
        invariant
            round <= n_rounds <= 120,
            opening.table.len() == pow2(n_rounds as nat),
            run == fri_run(*code, *hasher, opening, n_rounds as nat, n_rounds as nat),
            rounds.words.len() == n_rounds,
            rounds.trees.len() == n_rounds,
            forall|k: int| 0 <= k < n_rounds ==> #[trigger] rounds.words[k]@ == run.words[k],
            forall|k: int|
                0 <= k < n_rounds ==> (#[trigger] rounds.trees[k]).of(
                    *hasher,
                    pair_leaves(*hasher, run.words[k]),
                    round_depth(n_rounds as nat, k as nat),
                ),
            forall|k: int|
                0 <= k < n_rounds ==> (#[trigger] rounds.trees[k]).leaves() == pair_leaves(
                    *hasher,
                    run.words[k],
                ),
            forall|i: int|
                0 <= i < queries.len() ==> #[trigger] queries[i] < pow2((n_rounds + 2) as nat),
            symbols_out.len() == round,
            batches.len() == round,
            forall|k: int|
                0 <= k < round ==> (#[trigger] symbols_out[k])@ == query_symbols(
                    run.words[k],
                    queries@,
                    k as nat,
                ),
            forall|k: int|
                0 <= k < round ==> (#[trigger] batches[k]).siblings@ == batch_siblings(
                    *hasher,
                    pair_leaves(*hasher, run.words[k]),
                    keys_of(sorted_keys(query_pairs(queries@, k as nat), queries.len() as nat)),
                    0,
                    round_depth(n_rounds as nat, k as nat),
                ),
        decreases n_rounds - round,
    {
        proof {
            lemma_fri_run_prefix(
                *code,
                *hasher,
                opening,
                n_rounds as nat,
                round as nat,
                n_rounds as nat,
            );
            lemma_fri_run_shape(*code, *hasher, opening, n_rounds as nat, round as nat);
            assert(rounds.words[round as int]@ == run.words[round as int]);
            assert(rounds.trees[round as int].of(
                *hasher,
                pair_leaves(*hasher, run.words[round as int]),
                round_depth(n_rounds as nat, round as nat),
            ));
        }
        let depth: usize = n_rounds + LOG_RATE - 1 - round;
        let (symbols, pairs) = query_round(&rounds.words[round], &queries, round, n_rounds);
        proof {
            assert forall|k: int| 0 <= k < pairs.len() implies #[trigger] pairs[k] < pow2(
                depth as nat,
            ) by {
                assert(queries[k] < pow2((n_rounds + 2) as nat));
                lemma_query_pair_bound(queries[k], n_rounds as nat, round as nat);
            }
        }
        let batch = build_batched_merkle_proof(
            hasher,
            &rounds.trees[round],
            pairs.as_slice(),
            depth,
        );
        symbols_out.push(symbols);
        batches.push(batch);
        round += 1;
    }
    let info = CompactFriQueryInfo {
        tau,
        n_rounds,
        tensor_batching_point: beta,
        initial_sumcheck_claim: claim,
        query_indices: queries,
    };
    let proof_out = CompactEvalProof {
        upper_partial_evals: upper,
        sum_check_oracles: rounds.oracles,
        fri_roots: rounds.roots,
        fri_queried_symbols: symbols_out,
        fri_merkle_batch: batches,
        final_codeword: rounds.final_word,
    };
    (proof_out, info, extra)
}

/// Proves an opening.
pub fn compact_fri_prove<
    F: TowerField,
    T: FriChannel<F>,
    C: FriCode<F>,
    H: CryptographicHasher<F>,
>(
    evals: &[F],
    eval_point: &[F],
    code: &C,
    channel: &mut T,
    hasher: &H,
    num_queries: usize,
) -> (out: CompactEvalProof<F>)
    requires
        evals.len() == pow2(eval_point.len() as nat),
        4 * evals.len() <= usize::MAX,
        eval_point.len() <= 120,
    ensures
        ({
            let n = eval_point.len() as nat;
            let nr = (n - tau_of(n)) as nat;
            let bound = prover_bound(*code, *hasher, evals@, eval_point@, *old(channel));
            let queries = query_indices(bound, nr + 2, num_queries as nat);
            &&& is_fri_proof(*code, *hasher, evals@, eval_point@, *old(channel), queries, out)
            &&& *final(channel) == squeezed_by(bound, query_count(nr + 2, num_queries as nat))
        }),
{
    let (proof_out, _info, _extra) = compact_fri_prove_with_query_hook(
        evals,
        eval_point,
        code,
        channel,
        hasher,
        num_queries,
        &NoHook,
    );
    proof_out
}

/// The values of the rows of a table at a point.
pub open spec fn row_values<F: BinaryField>(evals: Seq<F>, right: Seq<F>, rows: nat) -> Seq<F> {
    Seq::new(rows, |row: int| mle(row_of(evals, pow2(right.len()), row), right))
}

/// The combination of the values of the rows is a value of the table.
pub proof fn lemma_rows_eval<F: BinaryField>(evals: Seq<F>, right: Seq<F>, left: Seq<F>)
    requires
        evals.len() == pow2(right.len() + left.len()),
    ensures
        dot(row_values(evals, right, pow2(left.len())), eq_table(left)) == mle(
            evals,
            right + left,
        ),
{
    let point = right + left;
    let len = pow2(right.len());
    let rows = pow2(left.len());
    lemma_pow2_adds(right.len(), left.len());
    lemma_pow2_pos(right.len());
    lemma_mle_sum(evals, point);
    let f = |i: int| eq_at(point, i).mul(evals[i]);
    assert(rows * len == len * rows) by (nonlinear_arith);
    lemma_sum_blocks(rows, len, f);
    let by_row = |a: int| sum(len, |b: int| f(a * len + b));
    let upper = row_values(evals, right, rows);
    let want = |a: int| upper[a].mul(eq_table(left)[a]);
    assert forall|a: int| 0 <= a < rows implies #[trigger] by_row(a) == want(a) by {
        assert(0 <= a * len && a * len + len <= evals.len()) by (nonlinear_arith)
            requires
                0 <= a < rows,
                evals.len() == len * rows,
        ;
        let row = row_of(evals, len, a);
        lemma_mle_sum(row, right);
        let g = |b: int| eq_at(right, b).mul(row[b]);
        let e = eq_at(left, a);
        lemma_sum_scale(len, e, g);
        let h = |b: int| e.mul(g(b));
        let r = |b: int| f(a * len + b);
        assert forall|b: int| 0 <= b < len implies #[trigger] h(b) == r(b) by {
            let i = a * len + b;
            vstd::arithmetic::div_mod::lemma_fundamental_div_mod_converse(i, len as int, a, b);
            lemma_eq_at_concat(right, left, i);
            let p = eq_at(right, b);
            F::mul_comm(p, e);
            F::mul_assoc(e, p, row[b]);
        }
        lemma_sum_ext(len, h, r);
        F::mul_comm(e, mle(row, right));
    }
    lemma_sum_ext(rows, by_row, want);
}

/// The combination of the values of the rows is the value of the table.
pub proof fn lemma_opening_eval<F: TowerField, T: FriChannel<F>>(
    evals: Seq<F>,
    point: Seq<F>,
    channel: T,
)
    requires
        evals.len() == pow2(point.len()),
    ensures
        fri_opening(evals, point, channel).eval == mle(evals, point),
{
    let n = point.len();
    let tau = tau_of(n);
    let right = point.take(n - tau);
    let left = point.skip(n - tau);
    assert(right + left =~= point);
    lemma_rows_eval(evals, right, left);
    assert(upper_evals(evals, point) =~= row_values(evals, right, pow2(tau)));
}

/// The value that a proof is about: that which the row values give at the point,
/// or zero where there is another number of them.
pub open spec fn claimed_value<F: TowerField>(point: Seq<F>, proof: CompactEvalProof<F>) -> F {
    let tau = tau_of(point.len());
    let upper = proof.upper_partial_evals@;
    if upper.len() != pow2(tau) {
        F::zero()
    } else {
        dot(upper, eq_table(point.skip(point.len() - tau)))
    }
}

/// Computes [`claimed_value`].
pub fn compact_claimed_value<F: TowerField>(eval_point: &[F], proof: &CompactEvalProof<F>) -> (v: F)
    ensures
        v == claimed_value(eval_point@, *proof),
{
    let n: usize = eval_point.len();
    let tau: usize = if n < COMPACT_TAU {
        n
    } else {
        COMPACT_TAU
    };
    proof {
        vstd::arithmetic::power2::lemma2_to64();
        if tau < 8 {
            lemma_pow2_strictly_increases(tau as nat, 8);
        }
    }
    let left = subrange(eval_point, n - tau, n);
    proof {
        assert(left@ =~= eval_point@.skip(n - tau));
    }
    if proof.upper_partial_evals.len() != pow2_usize(tau) {
        return F::zero_value();
    }
    let left_eq = eq_ind_partial_eval(left.as_slice());
    dot_value(proof.upper_partial_evals.as_slice(), left_eq.as_slice())
}

/// Why an opening was refused.
#[derive(Clone, Copy, Debug, PartialEq, Eq, Structural)]
pub enum CompactFriError<E> {
    /// The number of row values is another one.
    UpperLength { expected: usize, got: usize },
    /// The row values do not give the claimed value.
    EvalMismatch,
    /// The number of rounds is another one.
    RoundCount,
    /// A round does not continue the claim.
    Sumcheck { round: usize },
    /// The final word is empty.
    EmptyFinalCodeword,
    /// The step before the queries refused.
    Hook(E),
    /// A round has another number of symbols than there are queries.
    SymbolCount { round: usize },
    /// A symbol is not the fold of the round before.
    SymbolMismatch { query: usize, round: usize },
    /// A batched Merkle proof was refused.
    Merkle(MerkleBatchError),
    /// The last fold is not in the final word.
    FinalMismatch { query: usize },
}

/// The first index below `n` at which a condition fails.
pub open spec fn first_bad(n: nat, ok: spec_fn(int) -> bool) -> Option<int>
    decreases n,
{
    if n == 0 {
        None
    } else {
        match first_bad((n - 1) as nat, ok) {
            Some(i) => Some(i),
            None => if ok(n - 1) {
                None
            } else {
                Some(n - 1)
            },
        }
    }
}

/// Once a failure is found, it stays the first.
pub proof fn lemma_first_bad_stays(n: nat, m: nat, ok: spec_fn(int) -> bool)
    requires
        n <= m,
        first_bad(n, ok) is Some,
    ensures
        first_bad(m, ok) == first_bad(n, ok),
    decreases m,
{
    if n < m {
        lemma_first_bad_stays(n, (m - 1) as nat, ok);
    }
}

/// Nothing fails where everything holds.
pub proof fn lemma_none_bad(n: nat, ok: spec_fn(int) -> bool)
    requires
        forall|i: int| 0 <= i < n ==> #[trigger] ok(i),
    ensures
        first_bad(n, ok) is None,
    decreases n,
{
    if n > 0 {
        lemma_none_bad((n - 1) as nat, ok);
        assert(ok(n - 1));
    }
}

/// A step of the verifier between the rounds and the queries.
pub trait VerifierHook<F: TowerField, T: FriChannel<F>> {
    /// Why the step refuses.
    type Error;

    /// When the step can be taken.
    spec fn ready(&self, tau: nat, n_rounds: nat) -> bool;

    /// The verdict of the step.
    spec fn verdict(&self, ctx: FriContext<F>, before: T) -> Result<(), Self::Error>;

    /// The transcript after the step.
    spec fn channel_after(&self, ctx: FriContext<F>, before: T) -> T;

    /// Takes the step.
    fn before_queries(&self, ctx: &CompactFriQueryContext<F>, channel: &mut T) -> (r: Result<
        (),
        Self::Error,
    >)
        requires
            self.ready(ctx.tau as nat, ctx.n_rounds as nat),
            ctx.tensor_batching_point.len() == ctx.tau,
            ctx.fri_roots.len() == ctx.n_rounds,
        ensures
            r == self.verdict(ctx.contents(), *old(channel)),
            *final(channel) == self.channel_after(ctx.contents(), *old(channel)),
    ;
}

impl<F: TowerField, T: FriChannel<F>> VerifierHook<F, T> for NoHook {
    type Error = ();

    open spec fn ready(&self, tau: nat, n_rounds: nat) -> bool {
        true
    }

    open spec fn verdict(&self, ctx: FriContext<F>, before: T) -> Result<(), ()> {
        Ok(())
    }

    open spec fn channel_after(&self, ctx: FriContext<F>, before: T) -> T {
        before
    }

    fn before_queries(&self, ctx: &CompactFriQueryContext<F>, channel: &mut T) -> (r: Result<
        (),
        (),
    >) {
        Ok(())
    }
}

/// The verifier after some rounds; `failed` is the round that was refused.
pub struct FriCheckRun<F, T> {
    pub failed: Option<nat>,
    pub claim: F,
    pub channel: T,
    pub challenges: Seq<F>,
}

/// The verifier after `k` of `n_rounds` rounds.
pub open spec fn fri_check_run<F: TowerField, T: FriChannel<F>>(
    oracles: Seq<Seq<F>>,
    roots: Seq<HashOutput>,
    claim: F,
    channel: T,
    n_rounds: nat,
    k: nat,
) -> FriCheckRun<F, T>
    decreases k,
{
    if k == 0 {
        FriCheckRun { failed: None, claim, channel, challenges: Seq::empty() }
    } else {
        let round = (k - 1) as nat;
        let s = fri_check_run(oracles, roots, claim, channel, n_rounds, round);
        let c0 = oracles[round as int][0];
        let c1 = oracles[round as int][1];
        if s.failed is Some {
            s
        } else if c1 != s.claim {
            FriCheckRun {
                failed: Some(round),
                claim: s.claim,
                channel: s.channel,
                challenges: s.challenges,
            }
        } else {
            let sent = s.channel.absorbed(c0).absorbed(c1).committed(
                roots[round as int],
                round_depth(n_rounds, round),
            );
            let r = sent.challenge();
            FriCheckRun {
                failed: None,
                claim: c0.add(c1.mul(r)),
                channel: sent.squeezed(),
                challenges: s.challenges.push(r),
            }
        }
    }
}

proof fn lemma_fri_check_failed<F: TowerField, T: FriChannel<F>>(
    oracles: Seq<Seq<F>>,
    roots: Seq<HashOutput>,
    claim: F,
    channel: T,
    n_rounds: nat,
    j: nat,
    k: nat,
)
    requires
        j <= k,
        fri_check_run(oracles, roots, claim, channel, n_rounds, j).failed is Some,
    ensures
        fri_check_run(oracles, roots, claim, channel, n_rounds, k) == fri_check_run(
            oracles,
            roots,
            claim,
            channel,
            n_rounds,
            j,
        ),
    decreases k,
{
    if j < k {
        lemma_fri_check_failed(oracles, roots, claim, channel, n_rounds, j, (k - 1) as nat);
    }
}

/// The symbol of a pair that continues the fold of the round before.
pub open spec fn continued<F>(symbols: Seq<(F, F)>, queries: Seq<usize>, round: nat, i: int) -> F {
    if (queries[i] as int / (pow2(round) as int)) % 2 == 1 {
        symbols[i].1
    } else {
        symbols[i].0
    }
}

/// The digests of the queried pairs.
pub open spec fn symbol_leaves<F: TowerField, H: CryptographicHasher<F>>(
    hasher: H,
    symbols: Seq<(F, F)>,
) -> Seq<HashOutput> {
    Seq::new(symbols.len(), |i: int| hasher.pair_digest(symbols[i].0, symbols[i].1))
}

/// One round of the query check: the folds of the symbols, or why they are
/// refused.
pub open spec fn query_round_verdict<
    F: TowerField,
    C: FriCode<F>,
    H: CryptographicHasher<F>,
    E,
>(
    code: C,
    hasher: H,
    symbols: Seq<(F, F)>,
    siblings: Seq<HashOutput>,
    root: HashOutput,
    queries: Seq<usize>,
    r: F,
    n_rounds: nat,
    round: nat,
    folded: Seq<F>,
) -> Result<Seq<F>, CompactFriError<E>> {
    let bad = if round == 0 {
        None
    } else {
        first_bad(
            queries.len(),
            |i: int| folded[i] == continued(symbols, queries, round, i),
        )
    };
    if symbols.len() != queries.len() {
        Err(CompactFriError::SymbolCount { round: round as usize })
    } else if bad is Some {
        Err(CompactFriError::SymbolMismatch { query: bad->0 as usize, round: round as usize })
    } else {
        match batch_verdict(
            hasher,
            root,
            siblings,
            round_depth(n_rounds, round),
            query_pairs(queries, round),
            symbol_leaves(hasher, symbols),
        ) {
            Err(e) => Err(CompactFriError::Merkle(e)),
            Ok(_) => Ok(
                Seq::new(
                    queries.len(),
                    |i: int|
                        code.folded(
                            r,
                            round,
                            query_pair(queries[i], round),
                            symbols[i].0,
                            symbols[i].1,
                        ),
                ),
            ),
        }
    }
}

/// The query check after `k` rounds.
pub open spec fn query_run<F: TowerField, C: FriCode<F>, H: CryptographicHasher<F>, E>(
    code: C,
    hasher: H,
    proof: CompactEvalProof<F>,
    queries: Seq<usize>,
    rs: Seq<F>,
    n_rounds: nat,
    k: nat,
) -> Result<Seq<F>, CompactFriError<E>>
    decreases k,
{
    if k == 0 {
        Ok(Seq::empty())
    } else {
        let round = (k - 1) as nat;
        match query_run::<F, C, H, E>(code, hasher, proof, queries, rs, n_rounds, round) {
            Err(e) => Err(e),
            Ok(folded) => query_round_verdict(
                code,
                hasher,
                proof.fri_queried_symbols[round as int]@,
                proof.fri_merkle_batch[round as int].siblings@,
                proof.fri_roots[round as int],
                queries,
                rs[round as int],
                n_rounds,
                round,
                folded,
            ),
        }
    }
}

/// The verdict of the whole query check.
pub open spec fn query_verdict<F: TowerField, C: FriCode<F>, H: CryptographicHasher<F>, E>(
    code: C,
    hasher: H,
    proof: CompactEvalProof<F>,
    queries: Seq<usize>,
    rs: Seq<F>,
    n_rounds: nat,
) -> Result<(), CompactFriError<E>> {
    match query_run::<F, C, H, E>(code, hasher, proof, queries, rs, n_rounds, n_rounds) {
        Err(e) => Err(e),
        Ok(folded) => {
            let word = proof.final_codeword@;
            let bad = if n_rounds == 0 {
                None
            } else {
                first_bad(
                    queries.len(),
                    |i: int|
                        folded[i] == word[(queries[i] as int / (pow2(n_rounds) as int))
                            % word.len() as int],
                )
            };
            match bad {
                None => Ok(()),
                Some(i) => Err(CompactFriError::FinalMismatch { query: i as usize }),
            }
        },
    }
}

/// A verdict and the transcript that it leaves.
pub struct FriVerdict<T, E> {
    pub result: Result<(), CompactFriError<E>>,
    pub channel: T,
}

/// What the verifier's rounds leave for the queries.
pub open spec fn verifier_context<F: TowerField>(
    proof: CompactEvalProof<F>,
    point: Seq<F>,
    beta: Seq<F>,
) -> FriContext<F> {
    let tau = tau_of(point.len());
    FriContext {
        tau,
        n_rounds: (point.len() - tau) as nat,
        beta,
        claim: dot(proof.upper_partial_evals@, eq_table(beta)),
        h: Seq::empty(),
        roots: proof.fri_roots@,
        final_word: proof.final_codeword@,
    }
}

/// The verdict on an opening of the value `eval` at a point.
pub open spec fn fri_verdict<
    F: TowerField,
    T: FriChannel<F>,
    C: FriCode<F>,
    H: CryptographicHasher<F>,
    K: VerifierHook<F, T>,
>(
    code: C,
    hasher: H,
    hook: K,
    point: Seq<F>,
    eval: F,
    proof: CompactEvalProof<F>,
    channel: T,
    num_queries: nat,
) -> FriVerdict<T, K::Error> {
    let n = point.len();
    let tau = tau_of(n);
    let nr = (n - tau) as nat;
    let left = point.skip(n - tau);
    let upper = proof.upper_partial_evals@;
    let observed = absorb_all(channel, point);
    if upper.len() != pow2(tau) {
        FriVerdict {
            result: Err(
                CompactFriError::UpperLength {
                    expected: pow2(tau) as usize,
                    got: upper.len() as usize,
                },
            ),
            channel: observed,
        }
    } else if dot(upper, eq_table(left)) != eval {
        FriVerdict { result: Err(CompactFriError::EvalMismatch), channel: observed }
    } else {
        let bound = observed.absorbed(eval);
        let beta = challenges(bound, tau);
        let drawn = squeezed_by(bound, tau);
        let claim = dot(upper, eq_table(beta));
        let run = fri_check_run(
            oracle_views(proof.sum_check_oracles@),
            proof.fri_roots@,
            claim,
            drawn,
            nr,
            nr,
        );
        if proof.sum_check_oracles.len() != nr || proof.fri_roots.len() != nr
            || proof.fri_queried_symbols.len() != nr || proof.fri_merkle_batch.len() != nr {
            FriVerdict { result: Err(CompactFriError::RoundCount), channel: drawn }
        } else if run.failed is Some {
            FriVerdict {
                result: Err(CompactFriError::Sumcheck { round: run.failed->0 as usize }),
                channel: run.channel,
            }
        } else if proof.final_codeword.len() == 0 {
            FriVerdict {
                result: Err(CompactFriError::EmptyFinalCodeword),
                channel: run.channel,
            }
        } else {
            let ctx = verifier_context(proof, point, beta);
            let sent = absorb_all(run.channel, proof.final_codeword@);
            let mid = hook.channel_after(ctx, sent);
            match hook.verdict(ctx, sent) {
                Err(e) => FriVerdict { result: Err(CompactFriError::Hook(e)), channel: mid },
                Ok(_) => {
                    let queries = query_indices(mid, nr + 2, num_queries);
                    FriVerdict {
                        result: query_verdict(
                            code,
                            hasher,
                            proof,
                            queries,
                            run.challenges,
                            nr,
                        ),
                        channel: squeezed_by(mid, query_count(nr + 2, num_queries)),
                    }
                },
            }
        }
    }
}

/// One round of the query check.
fn check_query_round<F: TowerField, C: FriCode<F>, H: CryptographicHasher<F>, E>(
    code: &C,
    hasher: &H,
    symbols: &Vec<(F, F)>,
    batch: &BatchedMerkleProof,
    root: &HashOutput,
    queries: &Vec<usize>,
    r: F,
    n_rounds: usize,
    round: usize,
    folded: &Vec<F>,
) -> (out: Result<Vec<F>, CompactFriError<E>>)
    requires
        round < n_rounds <= 120,
        round > 0 ==> folded.len() == queries.len(),
        forall|i: int|
            0 <= i < queries.len() ==> #[trigger] queries[i] < pow2((n_rounds + 2) as nat),
    ensures
        ({
            let want = query_round_verdict::<F, C, H, E>(
                *code,
                *hasher,
                symbols@,
                batch.siblings@,
                *root,
                queries@,
                r,
                n_rounds as nat,
                round as nat,
                folded@,
            );
            match out {
                Ok(next) => want == Ok::<Seq<F>, CompactFriError<E>>(next@) && next.len()
                    == queries.len(),
                Err(e) => want == Err::<Seq<F>, CompactFriError<E>>(e),
            }
        }),
{
    let n: usize = queries.len();
    if symbols.len() != n {
        return Err(CompactFriError::SymbolCount { round });
    }
    let ghost ok = |i: int| folded@[i] == continued(symbols@, queries@, round as nat, i);
    if round > 0 {
        let mut i: usize = 0;
        while i < n
            invariant
                i <= n,
                n == queries.len(),
                n == symbols.len(),
                n == folded.len(),
                ok == (|i: int| folded@[i] == continued(symbols@, queries@, round as nat, i)),
                first_bad(i as nat, ok) is None,
                round > 0,
            decreases n - i,
        {
            let scaled: usize = shift_right(queries[i], round);
            let (s0, s1) = symbols[i];
            let expected = if scaled % 2 == 1 {
                s1
            } else {
                s0
            };
            if !folded[i].equals(expected) {
                proof {
                    assert(first_bad((i + 1) as nat, ok) == Some(i as int));
                    lemma_first_bad_stays((i + 1) as nat, n as nat, ok);
                }
                return Err(CompactFriError::SymbolMismatch { query: i, round });
            }
            i += 1;
        }
    }
    let mut pairs: Vec<usize> = Vec::new();
    let mut leaves: Vec<HashOutput> = Vec::new();
    let mut next: Vec<F> = Vec::new();
    let mut i: usize = 0;
    while i < n
        invariant
            i <= n,
            n == queries.len(),
            n == symbols.len(),
            round < n_rounds,
            forall|i: int|
                0 <= i < queries.len() ==> #[trigger] queries[i] < pow2((n_rounds + 2) as nat),
            pairs.len() == i,
            leaves.len() == i,
            next.len() == i,
            forall|k: int|
                0 <= k < i ==> #[trigger] pairs[k] == query_pairs(queries@, round as nat)[k],
            forall|k: int|
                0 <= k < i ==> #[trigger] leaves[k] == symbol_leaves(*hasher, symbols@)[k],
            forall|k: int|
                0 <= k < i ==> #[trigger] next[k] == code.folded(
                    r,
                    round as nat,
                    query_pair(queries[k], round as nat),
                    symbols[k].0,
                    symbols[k].1,
                ),
        decreases n - i,
    {
        proof {
            assert(queries[i as int] < pow2((n_rounds + 2) as nat));
            lemma_query_pair_bound(queries[i as int], n_rounds as nat, round as nat);
        }
        let pair: usize = shift_right(queries[i], round) / 2;
        let (s0, s1) = symbols[i];
        pairs.push(pair);
        leaves.push(hasher.hash_pair(&s0, &s1));
        next.push(code.fold_symbol(r, round, pair, s0, s1));
        i += 1;
    }
    proof {
        assert(pairs@ =~= query_pairs(queries@, round as nat));
        assert(leaves@ =~= symbol_leaves(*hasher, symbols@));
        assert(next@ =~= Seq::new(
            queries@.len(),
            |i: int|
                code.folded(
                    r,
                    round as nat,
                    query_pair(queries@[i], round as nat),
                    symbols@[i].0,
                    symbols@[i].1,
                ),
        ));
    }
    let depth: usize = n_rounds + LOG_RATE - 1 - round;
    match verify_batched_merkle_proof(
        root,
        batch,
        depth,
        pairs.as_slice(),
        leaves.as_slice(),
        hasher,
    ) {
        Err(e) => Err(CompactFriError::Merkle(e)),
        Ok(_) => Ok(next),
    }
}

proof fn lemma_query_run_error<F: TowerField, C: FriCode<F>, H: CryptographicHasher<F>, E>(
    code: C,
    hasher: H,
    proof: CompactEvalProof<F>,
    queries: Seq<usize>,
    rs: Seq<F>,
    n_rounds: nat,
    j: nat,
    k: nat,
)
    requires
        j <= k,
        query_run::<F, C, H, E>(code, hasher, proof, queries, rs, n_rounds, j) is Err,
    ensures
        query_run::<F, C, H, E>(code, hasher, proof, queries, rs, n_rounds, k) == query_run::<
            F,
            C,
            H,
            E,
        >(code, hasher, proof, queries, rs, n_rounds, j),
    decreases k,
{
    if j < k {
        lemma_query_run_error::<F, C, H, E>(
            code,
            hasher,
            proof,
            queries,
            rs,
            n_rounds,
            j,
            (k - 1) as nat,
        );
    }
}

/// The whole query check.
fn check_queries<F: TowerField, C: FriCode<F>, H: CryptographicHasher<F>, E>(
    code: &C,
    hasher: &H,
    proof: &CompactEvalProof<F>,
    queries: &Vec<usize>,
    rs: &Vec<F>,
    n_rounds: usize,
) -> (out: Result<(), CompactFriError<E>>)
    requires
        n_rounds <= 120,
        rs.len() == n_rounds,
        proof.fri_roots.len() == n_rounds,
        proof.fri_queried_symbols.len() == n_rounds,
        proof.fri_merkle_batch.len() == n_rounds,
        proof.final_codeword.len() > 0,
        forall|i: int|
            0 <= i < queries.len() ==> #[trigger] queries[i] < pow2((n_rounds + 2) as nat),
    ensures
        out == query_verdict::<F, C, H, E>(
            *code,
            *hasher,
            *proof,
            queries@,
            rs@,
            n_rounds as nat,
        ),
{
    let mut folded: Vec<F> = Vec::new();
    let mut round: usize = 0;
    while round < n_rounds
        invariant
            round <= n_rounds <= 120,
            rs.len() == n_rounds,
            proof.fri_roots.len() == n_rounds,
            proof.fri_queried_symbols.len() == n_rounds,
            proof.fri_merkle_batch.len() == n_rounds,
            forall|i: int|
                0 <= i < queries.len() ==> #[trigger] queries[i] < pow2((n_rounds + 2) as nat),
            query_run::<F, C, H, E>(
                *code,
                *hasher,
                *proof,
                queries@,
                rs@,
                n_rounds as nat,
                round as nat,
            ) == Ok::<Seq<F>, CompactFriError<E>>(folded@),
            round > 0 ==> folded.len() == queries.len(),
        decreases n_rounds - round,
    {
        match check_query_round::<F, C, H, E>(
            code,
            hasher,
            &proof.fri_queried_symbols[round],
            &proof.fri_merkle_batch[round],
            &proof.fri_roots[round],
            queries,
            rs[round],
            n_rounds,
            round,
            &folded,
        ) {
            Ok(next) => {
                folded = next;
            },
            Err(e) => {
                proof {
                    lemma_query_run_error::<F, C, H, E>(
                        *code,
                        *hasher,
                        *proof,
                        queries@,
                        rs@,
                        n_rounds as nat,
                        (round + 1) as nat,
                        n_rounds as nat,
                    );
                }
                return Err(e);
            },
        }
        round += 1;
    }
    if n_rounds == 0 {
        return Ok(());
    }
    let len: usize = proof.final_codeword.len();
    let ghost word = proof.final_codeword@;
    let ghost ok = |i: int|
        folded@[i] == word[(queries@[i] as int / (pow2(n_rounds as nat) as int))
            % word.len() as int];
    let mut i: usize = 0;
    while i < queries.len()
        invariant
            i <= queries.len(),
            folded.len() == queries.len(),
            len == proof.final_codeword.len(),
            len > 0,
            n_rounds > 0,
            word == proof.final_codeword@,
            query_run::<F, C, H, E>(
                *code,
                *hasher,
                *proof,
                queries@,
                rs@,
                n_rounds as nat,
                n_rounds as nat,
            ) == Ok::<Seq<F>, CompactFriError<E>>(folded@),
            ok == (|i: int|
                folded@[i] == word[(queries@[i] as int / (pow2(n_rounds as nat) as int))
                    % word.len() as int]),
            first_bad(i as nat, ok) is None,
        decreases queries.len() - i,
    {
        let at: usize = shift_right(queries[i], n_rounds) % len;
        if !folded[i].equals(proof.final_codeword[at]) {
            proof {
                assert(first_bad((i + 1) as nat, ok) == Some(i as int));
                lemma_first_bad_stays((i + 1) as nat, queries@.len(), ok);
            }
            return Err(CompactFriError::FinalMismatch { query: i });
        }
        i += 1;
    }
    Ok(())
}

/// Verifies an opening, taking a step between the rounds and the queries.
pub fn compact_fri_verify_with_query_hook<
    F: TowerField,
    T: FriChannel<F>,
    C: FriCode<F>,
    H: CryptographicHasher<F>,
    K: VerifierHook<F, T>,
>(
    eval_point: &[F],
    eval: F,
    proof: &CompactEvalProof<F>,
    code: &C,
    channel: &mut T,
    hasher: &H,
    num_queries: usize,
    hook: &K,
) -> (out: Result<CompactFriQueryInfo<F>, CompactFriError<K::Error>>)
    requires
        eval_point.len() <= 120,
        pow2((eval_point.len() - tau_of(eval_point.len() as nat) + 2) as nat) <= usize::MAX,
        hook.ready(
            tau_of(eval_point.len() as nat),
            (eval_point.len() - tau_of(eval_point.len() as nat)) as nat,
        ),
    ensures
        ({
            let want = fri_verdict(
                *code,
                *hasher,
                *hook,
                eval_point@,
                eval,
                *proof,
                *old(channel),
                num_queries as nat,
            );
            &&& match out {
                Ok(info) => want.result == Ok::<(), CompactFriError<K::Error>>(()),
                Err(e) => want.result == Err::<(), CompactFriError<K::Error>>(e),
            }
            &&& *final(channel) == want.channel
        }),
        out matches Ok(info) ==> {
            let n = eval_point.len() as nat;
            let nr = (n - tau_of(n)) as nat;
            let bound = absorb_all(*old(channel), eval_point@).absorbed(eval);
            let beta = challenges(bound, tau_of(n));
            let run = fri_check_run(
                oracle_views(proof.sum_check_oracles@),
                proof.fri_roots@,
                dot(proof.upper_partial_evals@, eq_table(beta)),
                squeezed_by(bound, tau_of(n)),
                nr,
                nr,
            );
            let mid = hook.channel_after(
                verifier_context(*proof, eval_point@, beta),
                absorb_all(run.channel, proof.final_codeword@),
            );
            &&& info.tau == tau_of(n)
            &&& info.n_rounds == nr
            &&& info.tensor_batching_point@ == beta
            &&& info.initial_sumcheck_claim == dot(proof.upper_partial_evals@, eq_table(beta))
            &&& info.query_indices@ == query_indices(mid, nr + 2, num_queries as nat)
        },
{
    let n: usize = eval_point.len();
    absorb_slice(channel, eval_point);
    let tau: usize = if n < COMPACT_TAU {
        n
    } else {
        COMPACT_TAU
    };
    let n_rounds: usize = n - tau;
    proof {
        vstd::arithmetic::power2::lemma2_to64();
        if tau < 8 {
            lemma_pow2_strictly_increases(tau as nat, 8);
        }
    }
    let left = subrange(eval_point, n_rounds, n);
    proof {
        assert(left@ =~= eval_point@.skip(n_rounds as int));
    }
    let expected_upper: usize = pow2_usize(tau);
    if proof.upper_partial_evals.len() != expected_upper {
        return Err(
            CompactFriError::UpperLength {
                expected: expected_upper,
                got: proof.upper_partial_evals.len(),
            },
        );
    }
    let left_eq = eq_ind_partial_eval(left.as_slice());
    let derived = dot_value(proof.upper_partial_evals.as_slice(), left_eq.as_slice());
    if !derived.equals(eval) {
        return Err(CompactFriError::EvalMismatch);
    }
    channel.absorb(eval);
    proof {
        lemma_challenges_len(*channel, tau as nat);
    }
    let beta = squeeze_many(channel, tau);
    let batching_eq = eq_ind_partial_eval(beta.as_slice());
    let claim0 = dot_value(proof.upper_partial_evals.as_slice(), batching_eq.as_slice());
    if proof.sum_check_oracles.len() != n_rounds || proof.fri_roots.len() != n_rounds
        || proof.fri_queried_symbols.len() != n_rounds || proof.fri_merkle_batch.len()
        != n_rounds {
        return Err(CompactFriError::RoundCount);
    }
    let ghost drawn = *channel;
    let ghost oracles = oracle_views(proof.sum_check_oracles@);
    let mut claim = claim0;
    let mut rs: Vec<F> = Vec::new();
    let mut round: usize = 0;
    while round < n_rounds
        invariant
            round <= n_rounds <= 120,
            proof.sum_check_oracles.len() == n_rounds,
            proof.fri_roots.len() == n_rounds,
            oracles == oracle_views(proof.sum_check_oracles@),
            ({
                let s = fri_check_run(
                    oracles,
                    proof.fri_roots@,
                    claim0,
                    drawn,
                    n_rounds as nat,
                    round as nat,
                );
                &&& s.failed is None
                &&& s.claim == claim
                &&& s.channel == *channel
                &&& s.challenges == rs@
                &&& rs.len() == round
            }),
            ({
                let want = fri_verdict(
                    *code,
                    *hasher,
                    *hook,
                    eval_point@,
                    eval,
                    *proof,
                    *old(channel),
                    num_queries as nat,
                );
                let run = fri_check_run(
                    oracles,
                    proof.fri_roots@,
                    claim0,
                    drawn,
                    n_rounds as nat,
                    n_rounds as nat,
                );
                run.failed is Some ==> want.result == Err::<(), CompactFriError<K::Error>>(
                    CompactFriError::Sumcheck { round: run.failed->0 as usize },
                ) && want.channel == run.channel
            }),
        decreases n_rounds - round,
    {
        let c0 = proof.sum_check_oracles[round][0];
        let c1 = proof.sum_check_oracles[round][1];
        proof {
            assert(oracles[round as int] == proof.sum_check_oracles[round as int]@);
        }
        if !c1.equals(claim) {
            proof {
                lemma_fri_check_failed(
                    oracles,
                    proof.fri_roots@,
                    claim0,
                    drawn,
                    n_rounds as nat,
                    (round + 1) as nat,
                    n_rounds as nat,
                );
            }
            return Err(CompactFriError::Sumcheck { round });
        }
        channel.absorb(c0);
        channel.absorb(c1);
        let depth: usize = n_rounds + LOG_RATE - 1 - round;
        channel.observe_vector_commitment(&proof.fri_roots[round], depth);
        let r = channel.squeeze();
        rs.push(r);
        claim = c0.plus(c1.times(r));
        round += 1;
    }
    if proof.final_codeword.len() == 0 {
        return Err(CompactFriError::EmptyFinalCodeword);
    }
    absorb_slice(channel, proof.final_codeword.as_slice());
    let context = CompactFriQueryContext {
        tau,
        n_rounds,
        tensor_batching_point: copied(beta.as_slice()),
        initial_sumcheck_claim: claim0,
        source_h_evals: Vec::new(),
        fri_roots: copied(proof.fri_roots.as_slice()),
        final_codeword: copied(proof.final_codeword.as_slice()),
    };
    proof {
        let want_ctx = verifier_context(*proof, eval_point@, beta@);
        assert(context.contents().h =~= want_ctx.h);
        assert(context.contents() == want_ctx);
    }
    match hook.before_queries(&context, channel) {
        Ok(_) => {},
        Err(e) => {
            return Err(CompactFriError::Hook(e));
        },
    }
    let queries = gen_compact_queries(channel, n_rounds + LOG_RATE, num_queries);
    match check_queries::<F, C, H, K::Error>(code, hasher, proof, &queries, &rs, n_rounds) {
        Ok(_) => Ok(
            CompactFriQueryInfo {
                tau,
                n_rounds,
                tensor_batching_point: beta,
                initial_sumcheck_claim: claim0,
                query_indices: queries,
            },
        ),
        Err(e) => Err(e),
    }
}

/// Verifies an opening.
pub fn compact_fri_verify<
    F: TowerField,
    T: FriChannel<F>,
    C: FriCode<F>,
    H: CryptographicHasher<F>,
>(
    eval_point: &[F],
    eval: F,
    proof: &CompactEvalProof<F>,
    code: &C,
    channel: &mut T,
    hasher: &H,
    num_queries: usize,
) -> (out: Result<(), CompactFriError<()>>)
    requires
        eval_point.len() <= 120,
        pow2((eval_point.len() - tau_of(eval_point.len() as nat) + 2) as nat) <= usize::MAX,
    ensures
        ({
            let want = fri_verdict(
                *code,
                *hasher,
                NoHook,
                eval_point@,
                eval,
                *proof,
                *old(channel),
                num_queries as nat,
            );
            out == want.result && *final(channel) == want.channel
        }),
{
    match compact_fri_verify_with_query_hook(
        eval_point,
        eval,
        proof,
        code,
        channel,
        hasher,
        num_queries,
        &NoHook,
    ) {
        Ok(_) => Ok(()),
        Err(e) => Err(e),
    }
}

/// On an honest proof the verifier follows the prover round by round.
proof fn lemma_check_follows<
    F: TowerField,
    T: FriChannel<F>,
    C: FriCode<F>,
    H: CryptographicHasher<F>,
>(code: C, hasher: H, opening: FriOpening<F, T>, n_rounds: nat, k: nat)
    requires
        k <= n_rounds,
        opening.table.len() == pow2(n_rounds),
    ensures
        ({
            let whole = fri_run(code, hasher, opening, n_rounds, n_rounds);
            let s = fri_run(code, hasher, opening, n_rounds, k);
            let v = fri_check_run(
                whole.oracles,
                whole.roots,
                opening.claim,
                opening.channel,
                n_rounds,
                k,
            );
            &&& v.failed is None
            &&& v.claim == s.claim
            &&& v.channel == s.channel
            &&& v.challenges == s.challenges
        }),
    decreases k,
{
    if k > 0 {
        let j = (k - 1) as nat;
        lemma_check_follows(code, hasher, opening, n_rounds, j);
        lemma_fri_run_prefix(code, hasher, opening, n_rounds, j, n_rounds);
        lemma_fri_run_shape(code, hasher, opening, n_rounds, j);
    }
}

/// On an honest proof every round of the query check passes.
proof fn lemma_queries_follow<
    F: TowerField,
    T: FriChannel<F>,
    C: FriCode<F>,
    H: CryptographicHasher<F>,
    E,
>(
    code: C,
    hasher: H,
    evals: Seq<F>,
    point: Seq<F>,
    channel: T,
    queries: Seq<usize>,
    proof: CompactEvalProof<F>,
    k: nat,
)
    requires
        evals.len() == pow2(point.len()),
        is_fri_proof(code, hasher, evals, point, channel, queries, proof),
        k <= point.len() - tau_of(point.len()),
        queries.len() > 0,
        forall|i: int|
            0 <= i < queries.len() ==> #[trigger] queries[i] < pow2(
                (point.len() - tau_of(point.len()) + 2) as nat,
            ),
    ensures
        ({
            let nr = (point.len() - tau_of(point.len())) as nat;
            let run = fri_rounds(code, hasher, evals, point, channel);
            let word = fri_run(
                code,
                hasher,
                fri_opening(evals, point, channel),
                nr,
                k,
            ).word;
            let got = query_run::<F, C, H, E>(
                code,
                hasher,
                proof,
                queries,
                run.challenges,
                nr,
                k,
            );
            &&& got is Ok
            &&& k > 0 ==> got->Ok_0.len() == queries.len() && forall|i: int|
                0 <= i < queries.len() ==> #[trigger] got->Ok_0[i] == word[queries[i] as int / (
                pow2(k) as int)]
        }),
    decreases k,
{
    let nr = (point.len() - tau_of(point.len())) as nat;
    let opening = fri_opening(evals, point, channel);
    let run = fri_rounds(code, hasher, evals, point, channel);
    if k > 0 {
        let j = (k - 1) as nat;
        lemma_queries_follow::<F, T, C, H, E>(
            code,
            hasher,
            evals,
            point,
            channel,
            queries,
            proof,
            j,
        );
        let s = fri_run(code, hasher, opening, nr, j);
        let t = fri_run(code, hasher, opening, nr, k);
        lemma_fri_run_shape(code, hasher, opening, nr, j);
        lemma_fri_run_shape(code, hasher, opening, nr, nr);
        lemma_fri_run_prefix(code, hasher, opening, nr, j, nr);
        let depth = round_depth(nr, j);
        lemma_half_pow2(depth + 1);
        let symbols = proof.fri_queried_symbols[j as int]@;
        let siblings = proof.fri_merkle_batch[j as int].siblings@;
        assert(symbols == query_symbols(s.word, queries, j));
        let leaves = pair_leaves(hasher, s.word);
        let idxs = query_pairs(queries, j);
        let hashes = symbol_leaves(hasher, symbols);
        assert forall|i: int| 0 <= i < queries.len() implies idxs[i] == query_pair(queries[i], j)
            && #[trigger] idxs[i] < pow2(depth) && hashes[i] == leaves[idxs[i] as int] by {
            assert(queries[i] < pow2(nr + 2));
            lemma_query_pair_bound(queries[i], nr, j);
        }
        assert forall|i: int| 0 <= i < idxs.len() implies #[trigger] hashes[i]
            == leaves[idxs[i] as int] by {
            assert(idxs[i] < pow2(depth));
        }
        lemma_batch_complete(hasher, leaves, depth, idxs, hashes);
        assert(proof.fri_roots[j as int] == word_root(hasher, s.word, depth));
        if j > 0 {
            let got = query_run::<F, C, H, E>(
                code,
                hasher,
                proof,
                queries,
                run.challenges,
                nr,
                j,
            )->Ok_0;
            let ok = |i: int| got[i] == continued(symbols, queries, j, i);
            assert forall|i: int| 0 <= i < queries.len() implies #[trigger] ok(i) by {
                let q = queries[i] as int / (pow2(j) as int);
                assert(got[i] == s.word[q]);
                assert(q == 2 * query_pair(queries[i], j) + q % 2);
            }
            lemma_none_bad(queries.len(), ok);
        }
        let next = query_run::<F, C, H, E>(
            code,
            hasher,
            proof,
            queries,
            run.challenges,
            nr,
            k,
        );
        assert(next is Ok);
        assert forall|i: int| 0 <= i < queries.len() implies #[trigger] next->Ok_0[i]
            == t.word[queries[i] as int / (pow2(k) as int)] by {
            assert(queries[i] < pow2(nr + 2));
            lemma_query_pair_bound(queries[i], nr, j);
            lemma_half_pow2(k);
            lemma_pow2_pos(j);
            vstd::arithmetic::div_mod::lemma_div_denominator(
                queries[i] as int,
                pow2(j) as int,
                2,
            );
            assert(pow2(j) * 2 == pow2(k));
            lemma_half_pow2((nr - j + 2) as nat);
        }
    }
}

/// The verifier's transcript follows the prover's through the rounds.
pub proof fn lemma_transcript_follows<
    F: TowerField,
    T: FriChannel<F>,
    C: FriCode<F>,
    H: CryptographicHasher<F>,
>(
    code: C,
    hasher: H,
    evals: Seq<F>,
    point: Seq<F>,
    channel: T,
    queries: Seq<usize>,
    proof: CompactEvalProof<F>,
)
    requires
        evals.len() == pow2(point.len()),
        is_fri_proof(code, hasher, evals, point, channel, queries, proof),
    ensures
        ({
            let tau = tau_of(point.len());
            let nr = (point.len() - tau) as nat;
            let bound = absorb_all(channel, point).absorbed(mle(evals, point));
            let run = fri_check_run(
                oracle_views(proof.sum_check_oracles@),
                proof.fri_roots@,
                dot(proof.upper_partial_evals@, eq_table(challenges(bound, tau))),
                squeezed_by(bound, tau),
                nr,
                nr,
            );
            absorb_all(run.channel, proof.final_codeword@) == prover_bound(
                code,
                hasher,
                evals,
                point,
                channel,
            )
        }),
{
    let tau = tau_of(point.len());
    let nr = (point.len() - tau) as nat;
    let opening = fri_opening(evals, point, channel);
    lemma_opening_eval(evals, point, channel);
    lemma_fri_run_shape(code, hasher, opening, nr, nr);
    lemma_check_follows(code, hasher, opening, nr, nr);
    assert(oracle_views(proof.sum_check_oracles@).len() == nr);
}

/// Completeness: the proof of an opening is accepted for the value of the table
/// at the point, and leaves the verifier's transcript where it leaves the
/// prover's, wherever the step before the queries agrees.
pub proof fn lemma_fri_complete<
    F: TowerField,
    T: FriChannel<F>,
    C: FriCode<F>,
    H: CryptographicHasher<F>,
    K: VerifierHook<F, T>,
>(
    code: C,
    hasher: H,
    hook: K,
    evals: Seq<F>,
    point: Seq<F>,
    channel: T,
    num_queries: nat,
    mid: T,
    proof: CompactEvalProof<F>,
)
    requires
        evals.len() == pow2(point.len()),
        num_queries > 0,
        pow2((point.len() - tau_of(point.len()) + 2) as nat) <= usize::MAX,
        ({
            let nr = (point.len() - tau_of(point.len())) as nat;
            let bound = prover_bound(code, hasher, evals, point, channel);
            let ctx = verifier_context(proof, point, fri_opening(evals, point, channel).beta);
            &&& hook.verdict(ctx, bound) is Ok
            &&& hook.channel_after(ctx, bound) == mid
            &&& is_fri_proof(
                code,
                hasher,
                evals,
                point,
                channel,
                query_indices(mid, nr + 2, num_queries),
                proof,
            )
        }),
    ensures
        ({
            let nr = (point.len() - tau_of(point.len())) as nat;
            let v = fri_verdict(
                code,
                hasher,
                hook,
                point,
                mle(evals, point),
                proof,
                channel,
                num_queries,
            );
            &&& v.result is Ok
            &&& v.channel == squeezed_by(mid, query_count(nr + 2, num_queries))
        }),
{
    let n = point.len();
    let tau = tau_of(n);
    let nr = (n - tau) as nat;
    let opening = fri_opening(evals, point, channel);
    let run = fri_rounds(code, hasher, evals, point, channel);
    lemma_opening_eval(evals, point, channel);
    lemma_pow2_pos(nr);
    lemma_fri_run_shape(code, hasher, opening, nr, nr);
    lemma_check_follows(code, hasher, opening, nr, nr);
    assert(oracle_views(proof.sum_check_oracles@).len() == nr);
    vstd::arithmetic::power2::lemma2_to64();
    let queries = query_indices(mid, nr + 2, num_queries);
    lemma_challenges_len(mid, query_count(nr + 2, num_queries));
    lemma_pow2_pos(nr + 2);
    assert forall|i: int| 0 <= i < queries.len() implies #[trigger] queries[i] < pow2(nr + 2) by {
        let b = challenges(mid, queries.len())[i].bits() as nat;
        vstd::arithmetic::div_mod::lemma_mod_bound(b as int, pow2(nr + 2) as int);
    }
    lemma_queries_follow::<F, T, C, H, K::Error>(
        code,
        hasher,
        evals,
        point,
        channel,
        queries,
        proof,
        nr,
    );
    if nr > 0 {
        let folded = query_run::<F, C, H, K::Error>(
            code,
            hasher,
            proof,
            queries,
            run.challenges,
            nr,
            nr,
        )->Ok_0;
        let word = proof.final_codeword@;
        assert(word.len() == 4);
        let ok = |i: int|
            folded[i] == word[(queries[i] as int / (pow2(nr) as int)) % word.len() as int];
        assert forall|i: int| 0 <= i < queries.len() implies #[trigger] ok(i) by {
            assert(queries[i] < pow2(nr + 2));
            lemma_pow2_adds(nr, 2);
            let q = queries[i] as int;
            let m = pow2(nr) as int;
            vstd::arithmetic::div_mod::lemma_multiply_divide_lt(q, m, 4);
            vstd::arithmetic::div_mod::lemma_div_pos_is_pos(q, m);
        }
        lemma_none_bad(queries.len(), ok);
    }
}

/// Every place of a word can be queried: an index is a place exactly where the
/// challenge that it is drawn from has bits that leave this remainder by the
/// number of places, and there are as many indices as are asked for, up to the
/// number of places.
pub proof fn lemma_queries_drawn<F: TowerField, T: FiatShamir<F>>(
    channel: T,
    log: nat,
    num_queries: nat,
    i: int,
    q: nat,
)
    requires
        pow2(log) <= usize::MAX,
        0 <= i < num_queries,
        i < pow2(log),
        q < pow2(log),
    ensures
        query_indices(channel, log, num_queries).len() <= num_queries,
        query_indices(channel, log, num_queries).len() <= pow2(log),
        i < query_indices(channel, log, num_queries).len(),
        query_indices(channel, log, num_queries)[i] == q <==> (squeezed_by(
            channel,
            i as nat,
        ).challenge().bits() - q) % pow2(log) as int == 0,
{
    let n = query_count(log, num_queries);
    let b = squeezed_by(channel, i as nat).challenge().bits() as int;
    let m = pow2(log) as int;
    lemma_challenge_at(channel, n, i);
    lemma_pow2_pos(log);
    vstd::arithmetic::div_mod::lemma_fundamental_div_mod(b, m);
    vstd::arithmetic::div_mod::lemma_mod_bound(b, m);
    if b % m == q {
        assert(b - q == m * (b / m) + 0);
        vstd::arithmetic::div_mod::lemma_fundamental_div_mod_converse(b - q, m, b / m, 0);
    } else if (b - q) % m == 0 {
        vstd::arithmetic::div_mod::lemma_fundamental_div_mod(b - q, m);
        let k = (b - q) / m;
        assert(b == m * k + q);
        vstd::arithmetic::div_mod::lemma_fundamental_div_mod_converse(b, m, k, q as int);
    }
}

/// Transcripts whose challenges differ by the number of places have different
/// queries.
pub proof fn lemma_queries_differ<F: TowerField, T: FiatShamir<F>>(
    a: T,
    b: T,
    log: nat,
    num_queries: nat,
    i: int,
)
    requires
        pow2(log) <= usize::MAX,
        0 <= i < num_queries,
        i < pow2(log),
        squeezed_by(a, i as nat).challenge().bits() as nat % pow2(log) != squeezed_by(
            b,
            i as nat,
        ).challenge().bits() as nat % pow2(log),
    ensures
        query_indices(a, log, num_queries)[i] != query_indices(b, log, num_queries)[i],
{
    let n = query_count(log, num_queries);
    lemma_challenge_at(a, n, i);
    lemma_challenge_at(b, n, i);
    lemma_pow2_pos(log);
    let (x, y) = (
        squeezed_by(a, i as nat).challenge().bits() as int,
        squeezed_by(b, i as nat).challenge().bits() as int,
    );
    vstd::arithmetic::div_mod::lemma_mod_bound(x, pow2(log) as int);
    vstd::arithmetic::div_mod::lemma_mod_bound(y, pow2(log) as int);
}

/// A query lies in the pair that is opened for it: of the two places of the pair
/// one is the place of the query in the word of the round.
pub proof fn lemma_query_in_pair(q: usize, round: nat)
    ensures
        2 * query_pair(q, round) <= q as int / pow2(round) as int <= 2 * query_pair(q, round) + 1,
{
}

} // verus!
