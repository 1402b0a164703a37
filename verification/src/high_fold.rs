//! Folding words by the highest variables of their tables.
//!
//! Setting the highest variable of a table folds its word in pairs that lie
//! half a coset apart. The layers of such folds are committed by Merkle trees
//! whose leaves are these pairs.
use vstd::prelude::*;
use vstd::arithmetic::power2::{lemma_pow2_adds, lemma_pow2_pos, lemma_pow2_strictly_increases, pow2};
use crate::compact_fri::batched_rows;
use crate::field::{BinaryField, TowerField, lemma_units};
use crate::fri::{FriCode, LOG_RATE, basis_word, high_pair_fold, lemma_log_len, pair_positions};
use crate::hashing::{le_bytes, push_bytes, push_le};
use crate::interleaved_commit::{lemma_log_bound, row_at, source_leaf_positions};
use crate::mle::{eq_at, fold, fold_highest_var, lemma_half_pow2, lemma_mle_sum, log2_usize, mle, pow2_usize};
use crate::poly::pow;
use crate::short_hash::{ShortHash, ShortMerkleTree, short_digest_of, short_digest_value};
use crate::sum::{lemma_sum_ext, sum};
use crate::table::copied;

verus! {

/// The leaf that holds a place of the word of a table of `2^log` values.
pub open spec fn pair_leaf(index: int, log: nat) -> int {
    let half = pow2((log - 1) as nat) as int;
    (index / pow2(log) as int) * half + (index % pow2(log) as int) % half
}

/// Which of the two symbols of its leaf a place is.
pub open spec fn pair_parity(index: int, log: nat) -> int {
    ((index % pow2(log) as int) / (pow2((log - 1) as nat) as int)) % 2
}

/// A leaf holds the place that it belongs to.
pub proof fn lemma_pair_leaf(index: int, log: nat)
    requires
        log > 0,
        0 <= index < pow2(log + 2),
    ensures
        ({
            let leaf = pair_leaf(index, log);
            let (p0, p1) = pair_positions(log, leaf);
            &&& 0 <= leaf < pow2(log + 1)
            &&& leaf <= index
            &&& pair_parity(index, log) == 0 || pair_parity(index, log) == 1
            &&& index == if pair_parity(index, log) == 1 {
                p1
            } else {
                p0
            }
        }),
{
    let half = pow2((log - 1) as nat) as int;
    let len = pow2(log) as int;
    lemma_half_pow2(log);
    lemma_half_pow2(log + 1);
    lemma_half_pow2(log + 2);
    lemma_pow2_pos((log - 1) as nat);
    let coset = index / len;
    let local = index % len;
    vstd::arithmetic::div_mod::lemma_fundamental_div_mod(index, len);
    vstd::arithmetic::div_mod::lemma_mod_bound(index, len);
    let bit = local / half;
    let low = local % half;
    vstd::arithmetic::div_mod::lemma_fundamental_div_mod(local, half);
    vstd::arithmetic::div_mod::lemma_mod_bound(local, half);
    assert(0 <= bit < 2) by (nonlinear_arith)
        requires
            local == half * bit + low,
            0 <= low < half,
            0 <= local < 2 * half,
            half > 0,
    ;
    assert(half * bit == if bit == 1 {
        half
    } else {
        0
    }) by (nonlinear_arith)
        requires
            0 <= bit < 2,
    ;
    assert(0 <= coset < 4 && 0 <= coset * half <= 3 * half && len * coset == coset * (2 * half))
        by (nonlinear_arith)
        requires
            index == len * coset + local,
            0 <= local < len,
            0 <= index < 4 * len,
            len == 2 * half,
            half > 0,
    ;
    assert(coset * half <= len * coset) by (nonlinear_arith)
        requires
            0 <= coset,
            len == 2 * half,
            half > 0,
    ;
    let leaf = pair_leaf(index, log);
    assert(leaf == coset * half + low);
    vstd::arithmetic::div_mod::lemma_fundamental_div_mod_converse(leaf, half, coset, low);
    assert(bit % 2 == bit);
}

/// A table with its `k` highest variables set to the last values of `beta`.
pub open spec fn high_table<F: BinaryField>(t: Seq<F>, beta: Seq<F>, k: nat) -> Seq<F>
    decreases k,
{
    if k == 0 {
        t
    } else {
        fold(high_table(t, beta, (k - 1) as nat), beta[beta.len() - k])
    }
}

/// The length of a folded table.
pub proof fn lemma_high_table_len<F: BinaryField>(t: Seq<F>, beta: Seq<F>, k: nat, n: nat)
    requires
        t.len() == pow2(n),
        k <= n,
    ensures
        high_table(t, beta, k).len() == pow2((n - k) as nat),
    decreases k,
{
    if k > 0 {
        lemma_high_table_len(t, beta, (k - 1) as nat, n);
        lemma_half_pow2((n - k + 1) as nat);
    }
}

/// Folding a table sets the highest coordinates of its value.
pub proof fn lemma_high_table_mle<F: BinaryField>(t: Seq<F>, right: Seq<F>, beta: Seq<F>, k: nat)
    requires
        t.len() == pow2(right.len() + beta.len()),
        k <= beta.len(),
    ensures
        mle(high_table(t, beta, k), right + beta.take(beta.len() - k)) == mle(t, right + beta),
    decreases k,
{
    if k == 0 {
        assert(beta.take(beta.len() as int) =~= beta);
    } else {
        let j = (k - 1) as nat;
        lemma_high_table_mle(t, right, beta, j);
        let p = right + beta.take(beta.len() - j);
        assert(p.last() == beta[beta.len() - k]);
        assert(p.drop_last() =~= right + beta.take(beta.len() - k));
    }
}

/// The values at one place of every block of `len` values.
pub open spec fn stride<F>(t: Seq<F>, len: nat, j: int, rows: nat) -> Seq<F> {
    Seq::new(rows, |row: int| t[row * len + j])
}

/// Folding a table folds every stride of it.
pub proof fn lemma_stride_mle<F: BinaryField>(t: Seq<F>, beta: Seq<F>, n: nat, j: int, k: nat)
    requires
        t.len() == pow2(n + beta.len()),
        0 <= j < pow2(n),
        k <= beta.len(),
    ensures
        mle(
            stride(high_table(t, beta, k), pow2(n), j, pow2((beta.len() - k) as nat)),
            beta.take(beta.len() - k),
        ) == mle(stride(t, pow2(n), j, pow2(beta.len())), beta),
    decreases k,
{
    let len = pow2(n);
    if k == 0 {
        assert(beta.take(beta.len() as int) =~= beta);
    } else {
        let i = (k - 1) as nat;
        lemma_stride_mle(t, beta, n, j, i);
        let before = high_table(t, beta, i);
        let rows = pow2((beta.len() - k) as nat);
        lemma_half_pow2((beta.len() - i) as nat);
        lemma_high_table_len(t, beta, i, n + beta.len());
        lemma_pow2_adds(n, (beta.len() - k) as nat);
        lemma_half_pow2((n + beta.len() - i) as nat);
        let r = beta[beta.len() - k];
        let p = beta.take(beta.len() - i);
        assert(p.last() == r);
        assert(p.drop_last() =~= beta.take(beta.len() - k));
        let s = stride(before, len, j, 2 * rows);
        let u = stride(fold(before, r), len, j, rows);
        assert forall|row: int| 0 <= row < rows implies #[trigger] u[row] == fold(s, r)[row] by {
            assert(0 <= row * len && row * len + j < len * rows && (row + rows) * len + j == row
                * len + j + len * rows) by (nonlinear_arith)
                requires
                    0 <= row < rows,
                    0 <= j < len,
            ;
            assert(before.len() == 2 * (len * rows));
        }
        assert(u =~= fold(s, r));
    }
}

/// The combination of the rows is the table with its highest variables set.
pub proof fn lemma_batched_rows<F: BinaryField>(t: Seq<F>, beta: Seq<F>, n: nat)
    requires
        t.len() == pow2(n + beta.len()),
    ensures
        batched_rows(t, beta, pow2(n)) == high_table(t, beta, beta.len()),
{
    let len = pow2(n);
    let h = high_table(t, beta, beta.len());
    let b = batched_rows(t, beta, len);
    lemma_high_table_len(t, beta, beta.len(), n + beta.len());
    vstd::arithmetic::power2::lemma2_to64();
    assert forall|j: int| 0 <= j < len implies b[j] == h[j] by {
        lemma_stride_mle(t, beta, n, j, beta.len());
        let one = stride(h, len, j, 1);
        assert(beta.take(0).len() == 0);
        assert(one[0] == h[0 * len + j]);
        assert(0 * len + j == j) by (nonlinear_arith);
        let s = stride(t, len, j, pow2(beta.len()));
        lemma_mle_sum(s, beta);
        lemma_sum_ext(
            pow2(beta.len()),
            |i: int| eq_at(beta, i).mul(s[i]),
            |row: int| eq_at(beta, row).mul(t[row * len + j]),
        );
    }
    assert(b =~= h);
}

/// The combination of values by the powers of `gamma`.
pub open spec fn horner<F: BinaryField>(gamma: F, values: Seq<F>) -> F {
    sum(values.len(), |k: int| pow(gamma, k as nat).mul(values[k]))
}

/// The combination of columns by the powers of `gamma`.
pub open spec fn horner_table<F: BinaryField>(gamma: F, cols: Seq<Seq<F>>, len: nat) -> Seq<F> {
    Seq::new(len, |i: int| horner(gamma, row_at(cols, i)))
}

/// Combining words gives the word of the combination.
pub proof fn lemma_encoded_horner<F: TowerField, C: FriCode<F>>(
    code: C,
    gamma: F,
    cols: Seq<Seq<F>>,
    n: nat,
    i: int,
)
    requires
        forall|c: int| 0 <= c < cols.len() ==> (#[trigger] cols[c]).len() == pow2(n),
        0 <= i < pow2(n + 2),
    ensures
        code.encoded(horner_table(gamma, cols, pow2(n)))[i] == horner(
            gamma,
            row_at(Seq::new(cols.len(), |c: int| code.encoded(cols[c])), i),
        ),
    decreases cols.len(),
{
    let len = pow2(n);
    let words = Seq::new(cols.len(), |c: int| code.encoded(cols[c]));
    let t = horner_table(gamma, cols, len);
    if cols.len() == 0 {
        // A zero table is a table added to itself.
        code.encoded_linear(t, t, F::one(), n, i);
        let double = Seq::new(t.len(), |j: int| t[j].add(F::one().mul(t[j])));
        assert forall|j: int| 0 <= j < len implies double[j] == t[j] by {
            lemma_units(t[j]);
            F::add_self(t[j]);
        }
        assert(double =~= t);
        let w = code.encoded(t)[i];
        lemma_units(w);
        F::add_self(w);
    } else {
        let m = (cols.len() - 1) as nat;
        let front = cols.drop_last();
        let k = pow(gamma, m);
        let rest = horner_table(gamma, front, len);
        let last = cols.last();
        assert(last.len() == len);
        assert forall|c: int| 0 <= c < front.len() implies (#[trigger] front[c]).len() == len by {
            assert(front[c] == cols[c]);
        }
        lemma_encoded_horner(code, gamma, front, n, i);
        let both = Seq::new(rest.len(), |j: int| rest[j].add(k.mul(last[j])));
        assert forall|j: int| 0 <= j < len implies both[j] == t[j] by {
            let row = row_at(cols, j);
            let short = row_at(front, j);
            lemma_sum_ext(
                m,
                |c: int| pow(gamma, c as nat).mul(short[c]),
                |c: int| pow(gamma, c as nat).mul(row[c]),
            );
        }
        assert(both =~= t);
        code.encoded_linear(rest, last, k, n, i);
        let short_words = Seq::new(front.len(), |c: int| code.encoded(front[c]));
        let row = row_at(words, i);
        let short = row_at(short_words, i);
        lemma_sum_ext(
            m,
            |c: int| pow(gamma, c as nat).mul(short[c]),
            |c: int| pow(gamma, c as nat).mul(row[c]),
        );
    }
}

/// The first bytes of the message of a leaf.
pub open spec fn high_leaf_tag() -> Seq<u8> {
    seq![
        80u8, 65u8, 82u8, 65u8, 78u8, 79u8, 73u8, 68u8, 47u8, 77u8, 73u8, 88u8, 69u8, 68u8, 45u8,
        83u8, 79u8, 85u8, 82u8, 67u8, 69u8, 45u8, 72u8, 73u8, 71u8, 72u8, 45u8, 70u8, 79u8, 76u8,
        68u8, 45u8, 76u8, 69u8, 65u8, 70u8, 47u8, 49u8, 50u8, 56u8, 47u8, 118u8, 49u8,
    ]
}

/// The message of a leaf of a folded layer.
pub open spec fn high_leaf_message<F: TowerField>(log: nat, leaf: nat, s0: F, s1: F) -> Seq<u8> {
    high_leaf_tag() + le_bytes(log, 8) + le_bytes(leaf, 8) + le_bytes(s0.bits() as nat, 16)
        + le_bytes(s1.bits() as nat, 16)
}

/// The leaves of the tree of a folded layer.
pub open spec fn high_leaves<F: TowerField>(word: Seq<F>, log: nat) -> Seq<ShortHash> {
    Seq::new(
        pow2(log + 1),
        |i: int|
            short_digest_of(
                high_leaf_message(
                    log,
                    i as nat,
                    word[pair_positions(log, i).0],
                    word[pair_positions(log, i).1],
                ),
            ),
    )
}

/// The depth of the tree of a folded layer.
pub fn high_pair_tree_depth(layer_log: usize) -> (r: usize)
    requires
        layer_log < usize::MAX - 1,
    ensures
        r == layer_log + 1,
{
    layer_log + LOG_RATE - 1
}

/// Computes [`pair_leaf`].
pub fn high_pair_leaf_index(code_index: usize, layer_log: usize) -> (r: usize)
    requires
        layer_log > 0,
        code_index < pow2((layer_log + 2) as nat) <= usize::MAX,
    ensures
        r == pair_leaf(code_index as int, layer_log as nat),
        r < pow2((layer_log + 1) as nat),
{
    proof {
        lemma_pair_leaf(code_index as int, layer_log as nat);
        lemma_pow2_strictly_increases(layer_log as nat, (layer_log + 2) as nat);
        lemma_pow2_strictly_increases((layer_log - 1) as nat, (layer_log + 2) as nat);
        lemma_pow2_pos(layer_log as nat);
        lemma_pow2_pos((layer_log - 1) as nat);
        let half = pow2((layer_log - 1) as nat) as int;
        let len = pow2(layer_log as nat) as int;
        vstd::arithmetic::div_mod::lemma_div_pos_is_pos(code_index as int, len);
        vstd::arithmetic::div_mod::lemma_mod_bound(code_index as int % len, half);
        assert((code_index as int / len) * half >= 0) by (nonlinear_arith)
            requires
                code_index as int / len >= 0,
                half > 0,
        ;
    }
    let len: usize = pow2_usize(layer_log);
    let half: usize = pow2_usize(layer_log - 1);
    let local: usize = code_index % len;
    let coset: usize = code_index / len;
    coset * half + local % half
}

/// Computes [`pair_parity`].
pub fn high_pair_parity(code_index: usize, layer_log: usize) -> (r: usize)
    requires
        layer_log > 0,
        pow2(layer_log as nat) <= usize::MAX,
    ensures
        r == pair_parity(code_index as int, layer_log as nat),
{
    proof {
        lemma_pow2_strictly_increases((layer_log - 1) as nat, layer_log as nat);
        lemma_pow2_pos(layer_log as nat);
        lemma_pow2_pos((layer_log - 1) as nat);
    }
    let len: usize = pow2_usize(layer_log);
    let half: usize = pow2_usize(layer_log - 1);
    ((code_index % len) / half) % 2
}

/// The two places of a leaf of a folded layer.
pub fn high_pair_positions(layer_log: usize, leaf_index: usize) -> (r: (usize, usize))
    requires
        layer_log > 0,
        leaf_index < pow2((layer_log + 1) as nat),
        pow2((layer_log + 2) as nat) <= usize::MAX,
    ensures
        (r.0 as int, r.1 as int) == pair_positions(layer_log as nat, leaf_index as int),
        r.0 < r.1 < pow2((layer_log + 2) as nat),
{
    source_leaf_positions(layer_log, leaf_index)
}

/// Computes [`high_pair_fold`].
pub fn tensor_high_fold_pair<F: TowerField>(
    r: F,
    layer_log: usize,
    leaf_index: usize,
    s0: F,
    s1: F,
) -> (v: F)
    requires
        0 < layer_log,
        leaf_index < pow2((layer_log + 1) as nat),
        pow2((layer_log + 1) as nat) <= usize::MAX,
    ensures
        v == high_pair_fold(r, layer_log as nat, leaf_index as int, s0, s1),
{
    proof {
        lemma_log_bound((layer_log + 1) as nat);
        lemma_half_pow2((layer_log + 1) as nat);
        lemma_half_pow2(layer_log as nat);
        lemma_pow2_pos((layer_log - 1) as nat);
        let half = pow2((layer_log - 1) as nat) as int;
        vstd::arithmetic::div_mod::lemma_multiply_divide_lt(leaf_index as int, half, 4);
        vstd::arithmetic::div_mod::lemma_div_pos_is_pos(leaf_index as int, half);
    }
    let half: usize = pow2_usize(layer_log - 1);
    let coset: usize = leaf_index / half;
    let basis = F::from_u128(basis_word(coset + layer_log - 1));
    s1.plus(basis.plus(F::one_value()).plus(r).times(s0))
}

/// The digest of a leaf of a folded layer.
pub fn high_pair_leaf_hash<F: TowerField>(layer_log: usize, leaf_index: usize, s0: F, s1: F) -> (r:
    ShortHash)
    ensures
        r == short_digest_of(high_leaf_message(layer_log as nat, leaf_index as nat, s0, s1)),
{
    let tag: [u8; 43] = [
        80u8, 65u8, 82u8, 65u8, 78u8, 79u8, 73u8, 68u8, 47u8, 77u8, 73u8, 88u8, 69u8, 68u8, 45u8,
        83u8, 79u8, 85u8, 82u8, 67u8, 69u8, 45u8, 72u8, 73u8, 71u8, 72u8, 45u8, 70u8, 79u8, 76u8,
        68u8, 45u8, 76u8, 69u8, 65u8, 70u8, 47u8, 49u8, 50u8, 56u8, 47u8, 118u8, 49u8,
    ];
    let mut m: Vec<u8> = Vec::new();
    push_bytes(&mut m, tag.as_slice());
    push_le(&mut m, layer_log as u128, 8);
    push_le(&mut m, leaf_index as u128, 8);
    push_le(&mut m, s0.to_u128(), 16);
    push_le(&mut m, s1.to_u128(), 16);
    proof {
        assert(tag@ =~= high_leaf_tag());
        assert(m@ =~= high_leaf_message(layer_log as nat, leaf_index as nat, s0, s1));
    }
    short_digest_value(m.as_slice())
}

/// Builds the tree of a folded layer.
pub fn build_high_pair_tree<F: TowerField>(word: &Vec<F>, layer_log: usize) -> (r:
    ShortMerkleTree)
    requires
        layer_log > 0,
        word.len() == pow2((layer_log + 2) as nat),
    ensures
        r.wf(),
        r.leaves() == high_leaves(word@, layer_log as nat),
        r.depth() == layer_log + 1,
{
    proof {
        lemma_log_bound((layer_log + 2) as nat);
        lemma_half_pow2((layer_log + 2) as nat);
    }
    let count: usize = pow2_usize(layer_log + LOG_RATE - 1);
    let ghost leaves = high_leaves(word@, layer_log as nat);
    let mut hashes: Vec<ShortHash> = Vec::new();
    let mut i: usize = 0;
    while i < count
        invariant
            i <= count,
            count == pow2((layer_log + 1) as nat),
            layer_log > 0,
            word.len() == pow2((layer_log + 2) as nat),
            leaves == high_leaves(word@, layer_log as nat),
            hashes.len() == i,
            forall|k: int| 0 <= k < i ==> #[trigger] hashes[k] == leaves[k],
        decreases count - i,
    {
        let (p0, p1) = high_pair_positions(layer_log, i);
        hashes.push(high_pair_leaf_hash(layer_log, i, word[p0], word[p1]));
        i += 1;
    }
    proof {
        assert(hashes@ =~= leaves);
    }
    let tree = ShortMerkleTree::new(hashes);
    proof {
        lemma_log_len(tree.depth());
        lemma_log_len((layer_log + 1) as nat);
    }
    tree
}

/// A folded layer: its word, and the tree over the pairs of the word.
pub struct HighFoldLayer<F> {
    pub log_rows: usize,
    pub code: Vec<F>,
    pub tree: ShortMerkleTree,
}

/// The layers of the folds of a table of `2^n` values.
pub open spec fn layers_of<F: TowerField, C: FriCode<F>>(
    layers: Seq<HighFoldLayer<F>>,
    code: C,
    t: Seq<F>,
    beta: Seq<F>,
    n: nat,
) -> bool {
    forall|k: int|
        0 <= k < layers.len() ==> {
            let layer = #[trigger] layers[k];
            &&& layer.log_rows == n - 1 - k
            &&& layer.code@ == code.encoded(high_table(t, beta, (k + 1) as nat))
            &&& layer.tree.wf()
            &&& layer.tree.leaves() == high_leaves(layer.code@, (n - 1 - k) as nat)
            &&& layer.tree.depth() == n - k
        }
}

/// Builds the folded layers of a table, encoding each folded table.
pub fn build_high_tensor_layers<F: TowerField, C: FriCode<F>>(
    c_evals: &[F],
    beta: &[F],
    code: &C,
) -> (r: (Vec<F>, Vec<HighFoldLayer<F>>))
    requires
        exists|n: nat| #[trigger] pow2(n) == c_evals.len() && beta.len() <= n,
        4 * c_evals.len() <= usize::MAX,
    ensures
        r.0@ == high_table(c_evals@, beta@, beta.len() as nat),
        r.1.len() == if beta.len() == 0 {
            0
        } else {
            beta.len() - 1
        },
        forall|n: nat|
            #[trigger] pow2(n) == c_evals.len() ==> layers_of(r.1@, *code, c_evals@, beta@, n),
{
    let ghost target = choose|n: nat| #[trigger] pow2(n) == c_evals.len() && beta.len() <= n;
    let log_n: usize = log2_usize(c_evals.len());
    let tau: usize = beta.len();
    let mut current = copied(c_evals);
    let mut layers: Vec<HighFoldLayer<F>> = Vec::new();
    proof {
        lemma_log_len(target);
        lemma_log_len(log_n as nat);
        lemma_pow2_adds(log_n as nat, 2);
        vstd::arithmetic::power2::lemma2_to64();
    }
    let mut round: usize = 0;
    while round < tau
        invariant
            round <= tau <= log_n < 64,
            tau == beta.len(),
            c_evals.len() == pow2(log_n as nat),
            pow2((log_n + 2) as nat) == 4 * c_evals.len() <= usize::MAX,
            current@ == high_table(c_evals@, beta@, round as nat),
            layers.len() == if round < tau {
                round as int
            } else if tau == 0 {
                0
            } else {
                tau - 1
            },
            layers_of(layers@, *code, c_evals@, beta@, log_n as nat),
        decreases tau - round,
    {
        let r = beta[tau - 1 - round];
        let ghost before = current@;
        proof {
            lemma_high_table_len(c_evals@, beta@, round as nat, log_n as nat);
            lemma_high_table_len(c_evals@, beta@, (round + 1) as nat, log_n as nat);
            lemma_half_pow2((log_n - round) as nat);
            lemma_pow2_strictly_increases((log_n - round + 1) as nat, (log_n + 2) as nat);
            lemma_pow2_adds((log_n - 1 - round) as nat, 2);
            vstd::arithmetic::power2::lemma2_to64();
        }
        fold_highest_var(&mut current, r);
        let layer_log: usize = log_n - 1 - round;
        if round + 1 < tau {
            proof {
                code.encoded_len(current@, layer_log as nat);
            }
            let word = code.encode(current.as_slice());
            let tree = build_high_pair_tree(&word, layer_log);
            layers.push(HighFoldLayer { log_rows: layer_log, code: word, tree });
        }
        round += 1;
    }
    proof {
        assert forall|n: nat| #[trigger] pow2(n) == c_evals.len() implies layers_of(
            layers@,
            *code,
            c_evals@,
            beta@,
            n,
        ) by {
            lemma_log_len(n);
        }
    }
    (current, layers)
}

/// Builds the folded layers of a table, folding its word pair by pair.
pub fn build_high_tensor_layers_from_source_code<F: TowerField, C: FriCode<F>>(
    c_evals: &[F],
    source_code: &Vec<F>,
    beta: &[F],
    code: &C,
) -> (r: (Vec<F>, Vec<HighFoldLayer<F>>))
    requires
        exists|n: nat| #[trigger] pow2(n) == c_evals.len() && beta.len() <= n,
        4 * c_evals.len() <= usize::MAX,
        source_code@ == code.encoded(c_evals@),
    ensures
        r.0@ == high_table(c_evals@, beta@, beta.len() as nat),
        r.1.len() == if beta.len() == 0 {
            0
        } else {
            beta.len() - 1
        },
        forall|n: nat|
            #[trigger] pow2(n) == c_evals.len() ==> layers_of(r.1@, *code, c_evals@, beta@, n),
{
    let ghost target = choose|n: nat| #[trigger] pow2(n) == c_evals.len() && beta.len() <= n;
    let log_n: usize = log2_usize(c_evals.len());
    let tau: usize = beta.len();
    let mut current = copied(c_evals);
    let mut word = copied(source_code.as_slice());
    let mut layers: Vec<HighFoldLayer<F>> = Vec::new();
    proof {
        lemma_log_len(target);
        lemma_log_len(log_n as nat);
        lemma_pow2_adds(log_n as nat, 2);
        vstd::arithmetic::power2::lemma2_to64();
    }
    let mut round: usize = 0;
    while round < tau
        invariant
            round <= tau <= log_n < 64,
            tau == beta.len(),
            c_evals.len() == pow2(log_n as nat),
            pow2((log_n + 2) as nat) == 4 * c_evals.len() <= usize::MAX,
            current@ == high_table(c_evals@, beta@, round as nat),
            round < tau ==> word@ == code.encoded(current@),
            layers.len() == if round < tau {
                round as int
            } else if tau == 0 {
                0
            } else {
                tau - 1
            },
            layers_of(layers@, *code, c_evals@, beta@, log_n as nat),
        decreases tau - round,
    {
        let r = beta[tau - 1 - round];
        let ghost before = current@;
        proof {
            lemma_high_table_len(c_evals@, beta@, round as nat, log_n as nat);
            lemma_high_table_len(c_evals@, beta@, (round + 1) as nat, log_n as nat);
            lemma_half_pow2((log_n - round) as nat);
            lemma_pow2_strictly_increases((log_n - round + 1) as nat, (log_n + 2) as nat);
            if round > 0 {
                lemma_pow2_strictly_increases((log_n - round + 2) as nat, (log_n + 2) as nat);
            }
            lemma_half_pow2((log_n - round + 2) as nat);
        }
        fold_highest_var(&mut current, r);
        if round + 1 < tau {
            let before_log: usize = log_n - round;
            let layer_log: usize = before_log - 1;
            proof {
                code.encoded_len(before, before_log as nat);
                code.encoded_len(current@, layer_log as nat);
            }
            let out_len: usize = pow2_usize(layer_log + LOG_RATE);
            let mut next: Vec<F> = Vec::new();
            let mut leaf: usize = 0;
            while leaf < out_len
                invariant
                    leaf <= out_len,
                    out_len == pow2((before_log + 1) as nat),
                    0 < before_log < 64,
                    pow2((before_log + 2) as nat) <= usize::MAX,
                    pow2((before_log + 2) as nat) == 2 * pow2((before_log + 1) as nat),
                    before.len() == pow2(before_log as nat),
                    word@ == code.encoded(before),
                    word.len() == pow2((before_log + 2) as nat),
                    current@ == fold(before, r),
                    next.len() == leaf,
                    forall|k: int|
                        0 <= k < leaf ==> #[trigger] next[k] == code.encoded(current@)[k],
                decreases out_len - leaf,
            {
                let (p0, p1) = high_pair_positions(before_log, leaf);
                proof {
                    code.high_fold(before, r, before_log as nat, leaf as int);
                }
                next.push(tensor_high_fold_pair(r, before_log, leaf, word[p0], word[p1]));
                leaf += 1;
            }
            proof {
                assert(next@ =~= code.encoded(current@));
            }
            let tree = build_high_pair_tree(&next, layer_log);
            word = copied(next.as_slice());
            layers.push(HighFoldLayer { log_rows: layer_log, code: next, tree });
        }
        round += 1;
    }
    proof {
        assert forall|n: nat| #[trigger] pow2(n) == c_evals.len() implies layers_of(
            layers@,
            *code,
            c_evals@,
            beta@,
            n,
        ) by {
            lemma_log_len(n);
        }
    }
    (current, layers)
}

} // verus!
