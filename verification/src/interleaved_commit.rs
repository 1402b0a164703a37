//! The commitment to many columns at once.
//!
//! The columns are bound in two ways: digests of segments of the rows, and the
//! root of a Merkle tree over the encoded columns, whose leaves hold for every
//! column the two symbols that one fold of the highest variable needs.
use vstd::prelude::*;
use vstd::arithmetic::power2::{lemma_pow2_adds, lemma_pow2_pos, lemma_pow2_strictly_increases, pow2};
use crate::field::TowerField;
use crate::fri::{FriCode, LOG_RATE, digest_of, digest_value, pair_positions};
use crate::hashing::{HashOutput, elem_bytes, le_bytes, le_value, lemma_concat_parts, lemma_elem_bytes_injective, lemma_elem_bytes_len, push_bytes, push_elems, push_le, read_le_u128};
use crate::merkle::{BatchedMerkleProof, MerkleBatchError, MerkleTree, NodeHasher, NodeSource, batch_siblings, batch_verdict, build_batched_merkle_proof, build_batched_merkle_proof_with_getter, collected, collision_free, keys_of, lemma_batch_binding, node, sorted_keys, verify_batched_merkle_proof};
use crate::mle::{lemma_half_pow2, log2_usize, pow2_usize};
use crate::transcript::FiatShamir;

verus! {

/// The logarithm of the number of row segments that are hashed.
pub const MERKLE_CAP_DEPTH: usize = 5;

/// The number of row segments that are hashed.
pub const CAP_SEGMENTS: usize = 32;

/// The logarithm of the number of leaves of a chunk of a large tree.
pub const SOURCE_MERKLE_CHUNK_LOG: usize = 8;

/// The depth up to which a whole tree is kept.
pub const SOURCE_MERKLE_FULL_TREE_MAX_DEPTH: usize = 18;

/// A digest of the tree over the encoded columns.
pub type SourceHash = HashOutput;

/// The digests that bind the columns: one a segment, then the source root.
#[derive(Clone, Debug, PartialEq, Eq)]
pub struct MerkleCap {
    pub hashes: Vec<HashOutput>,
}

/// The public commitment to the columns.
#[derive(Clone, Debug, PartialEq, Eq)]
pub struct InterleavedCommitment {
    pub cap: MerkleCap,
    pub log_rows: usize,
    pub n_cols: usize,
}

impl InterleavedCommitment {
    /// The logarithm of the number of rows.
    pub fn tree_depth(&self) -> (r: usize)
        ensures
            r == self.log_rows,
    {
        self.log_rows
    }
}

/// The first bytes of the message of a segment.
pub open spec fn cap_tag() -> Seq<u8> {
    seq![
        80u8, 65u8, 82u8, 65u8, 78u8, 79u8, 73u8, 68u8, 47u8, 73u8, 78u8, 84u8, 69u8, 82u8, 76u8,
        69u8, 65u8, 86u8, 69u8, 68u8, 45u8, 67u8, 65u8, 80u8, 47u8, 118u8, 49u8,
    ]
}

/// Appends [`cap_tag`].
fn push_cap_tag(out: &mut Vec<u8>)
    ensures
        final(out)@ == old(out)@ + cap_tag(),
{
    let tag: [u8; 27] = [
        80u8, 65u8, 82u8, 65u8, 78u8, 79u8, 73u8, 68u8, 47u8, 73u8, 78u8, 84u8, 69u8, 82u8, 76u8,
        69u8, 65u8, 86u8, 69u8, 68u8, 45u8, 67u8, 65u8, 80u8, 47u8, 118u8, 49u8,
    ];
    push_bytes(out, tag.as_slice());
    proof {
        assert(tag@ =~= cap_tag());
    }
}

/// The first bytes of the message of an inner node.
pub open spec fn source_node_tag() -> Seq<u8> {
    seq![
        80u8, 65u8, 82u8, 65u8, 78u8, 79u8, 73u8, 68u8, 47u8, 83u8, 79u8, 85u8, 82u8, 67u8, 69u8,
        45u8, 66u8, 73u8, 78u8, 68u8, 73u8, 78u8, 71u8, 45u8, 77u8, 69u8, 82u8, 75u8, 76u8, 69u8,
        45u8, 50u8, 53u8, 54u8, 47u8, 118u8, 50u8,
    ]
}

/// Appends [`source_node_tag`].
fn push_source_node_tag(out: &mut Vec<u8>)
    ensures
        final(out)@ == old(out)@ + source_node_tag(),
{
    let tag: [u8; 37] = [
        80u8, 65u8, 82u8, 65u8, 78u8, 79u8, 73u8, 68u8, 47u8, 83u8, 79u8, 85u8, 82u8, 67u8, 69u8,
        45u8, 66u8, 73u8, 78u8, 68u8, 73u8, 78u8, 71u8, 45u8, 77u8, 69u8, 82u8, 75u8, 76u8, 69u8,
        45u8, 50u8, 53u8, 54u8, 47u8, 118u8, 50u8,
    ];
    push_bytes(out, tag.as_slice());
    proof {
        assert(tag@ =~= source_node_tag());
    }
}

/// The first bytes of the message of a leaf.
pub open spec fn source_leaf_tag() -> Seq<u8> {
    seq![
        80u8, 65u8, 82u8, 65u8, 78u8, 79u8, 73u8, 68u8, 47u8, 73u8, 78u8, 84u8, 69u8, 82u8, 76u8,
        69u8, 65u8, 86u8, 69u8, 68u8, 45u8, 83u8, 79u8, 85u8, 82u8, 67u8, 69u8, 45u8, 72u8, 73u8,
        71u8, 72u8, 45u8, 80u8, 65u8, 73u8, 82u8, 45u8, 76u8, 69u8, 65u8, 70u8, 47u8, 50u8, 53u8,
        54u8, 47u8, 118u8, 50u8,
    ]
}

/// Appends [`source_leaf_tag`].
fn push_source_leaf_tag(out: &mut Vec<u8>)
    ensures
        final(out)@ == old(out)@ + source_leaf_tag(),
{
    let tag: [u8; 49] = [
        80u8, 65u8, 82u8, 65u8, 78u8, 79u8, 73u8, 68u8, 47u8, 73u8, 78u8, 84u8, 69u8, 82u8, 76u8,
        69u8, 65u8, 86u8, 69u8, 68u8, 45u8, 83u8, 79u8, 85u8, 82u8, 67u8, 69u8, 45u8, 72u8, 73u8,
        71u8, 72u8, 45u8, 80u8, 65u8, 73u8, 82u8, 45u8, 76u8, 69u8, 65u8, 70u8, 47u8, 50u8, 53u8,
        54u8, 47u8, 118u8, 50u8,
    ];
    push_bytes(out, tag.as_slice());
    proof {
        assert(tag@ =~= source_leaf_tag());
    }
}

/// The hasher of the inner nodes of the tree over the encoded columns.
#[derive(Clone, Copy, Debug, PartialEq, Eq)]
pub struct SourceHasher;

impl NodeHasher for SourceHasher {
    open spec fn parent(&self, left: HashOutput, right: HashOutput) -> HashOutput {
        digest_of(source_node_tag() + left@ + right@)
    }

    fn compress(&self, left: &HashOutput, right: &HashOutput) -> (r: HashOutput) {
        let mut m: Vec<u8> = Vec::new();
        push_source_node_tag(&mut m);
        push_bytes(&mut m, left.as_slice());
        push_bytes(&mut m, right.as_slice());
        proof {
            assert(m@ =~= source_node_tag() + left@ + right@);
        }
        digest_value(m.as_slice())
    }
}

/// The parent of two nodes of the tree over the encoded columns.
pub fn source_compress(left: &SourceHash, right: &SourceHash) -> (r: SourceHash)
    ensures
        r == SourceHasher.parent(*left, *right),
{
    SourceHasher.compress(left, right)
}

/// The values of all the columns in a row.
pub open spec fn row_at<F>(cols: Seq<Seq<F>>, row: int) -> Seq<F> {
    Seq::new(cols.len(), |c: int| cols[c][row])
}

/// The bytes of `k` rows from `start` on.
pub open spec fn rows_bytes<F: TowerField>(cols: Seq<Seq<F>>, start: int, k: nat) -> Seq<u8>
    decreases k,
{
    if k == 0 {
        Seq::empty()
    } else {
        rows_bytes(cols, start, (k - 1) as nat) + elem_bytes(row_at(cols, start + k - 1))
    }
}

/// The message of a segment of the rows.
pub open spec fn segment_message<F: TowerField>(
    cols: Seq<Seq<F>>,
    log_rows: nat,
    segment: nat,
) -> Seq<u8> {
    let rows = pow2(log_rows) / (CAP_SEGMENTS as nat);
    cap_tag() + le_bytes(segment, 8) + le_bytes(cols.len(), 8) + le_bytes(log_rows, 8)
        + rows_bytes(cols, (segment * rows) as int, rows)
}

/// The message of a leaf.
pub open spec fn source_leaf_message<F: TowerField>(
    log_rows: nat,
    n_cols: nat,
    leaf: nat,
    symbols: Seq<F>,
) -> Seq<u8> {
    source_leaf_tag() + le_bytes(log_rows, 8) + le_bytes(n_cols, 8) + le_bytes(leaf, 8)
        + elem_bytes(symbols)
}

/// The symbols of all the words at two places, word by word.
pub open spec fn pair_symbols<F>(words: Seq<Seq<F>>, places: (int, int)) -> Seq<F> {
    Seq::new(
        2 * words.len(),
        |i: int|
            words[i / 2][if i % 2 == 0 {
                places.0
            } else {
                places.1
            }],
    )
}

/// The leaves of the tree over the encoded columns.
pub open spec fn source_leaves<F: TowerField>(words: Seq<Seq<F>>, log_rows: nat) -> Seq<HashOutput> {
    Seq::new(
        pow2(log_rows + 1),
        |i: int|
            digest_of(
                source_leaf_message(
                    log_rows,
                    words.len(),
                    i as nat,
                    pair_symbols(words, pair_positions(log_rows, i)),
                ),
            ),
    )
}

/// The contents of borrowed columns.
pub open spec fn slice_views<F>(cols: Seq<&[F]>) -> Seq<Seq<F>> {
    Seq::new(cols.len(), |c: int| cols[c]@)
}

/// The contents of owned columns.
pub open spec fn vec_views<F>(cols: Seq<Vec<F>>) -> Seq<Seq<F>> {
    Seq::new(cols.len(), |c: int| cols[c]@)
}

/// Encoded columns: every word has four symbols a row.
pub open spec fn words_wf<F>(words: Seq<Seq<F>>, log_rows: nat) -> bool {
    forall|c: int| 0 <= c < words.len() ==> (#[trigger] words[c]).len() == pow2(log_rows + 2)
}

/// The words of the columns.
pub open spec fn encoded_words<F: TowerField, C: FriCode<F>>(code: C, cols: Seq<Seq<F>>) -> Seq<
    Seq<F>,
> {
    Seq::new(cols.len(), |c: int| code.encoded(cols[c]))
}

/// The number of leaves.
pub fn source_leaf_count(log_rows: usize) -> (r: usize)
    requires
        pow2((log_rows + 1) as nat) <= usize::MAX,
        log_rows < usize::MAX - 1,
    ensures
        r == pow2((log_rows + 1) as nat),
{
    pow2_usize(log_rows + LOG_RATE - 1)
}

/// The depth of the tree over the encoded columns.
pub fn source_tree_depth(log_rows: usize) -> (r: usize)
    requires
        log_rows < usize::MAX - 1,
    ensures
        r == log_rows + 1,
{
    log_rows + LOG_RATE - 1
}

/// The root of the tree over the encoded columns, out of a cap.
pub fn source_root_from_cap(cap: &MerkleCap) -> (r: Option<SourceHash>)
    ensures
        cap.hashes.len() == 0 ==> r is None,
        cap.hashes.len() > 0 ==> r == Some(cap.hashes[cap.hashes.len() - 1]),
{
    let n: usize = cap.hashes.len();
    if n == 0 {
        None
    } else {
        Some(cap.hashes[n - 1])
    }
}

/// The digest of a leaf with the given symbols.
pub fn source_leaf_hash<F: TowerField>(
    log_rows: usize,
    n_cols: usize,
    leaf_index: usize,
    symbols: &[F],
) -> (r: SourceHash)
    requires
        symbols.len() == n_cols * 2,
    ensures
        r == digest_of(
            source_leaf_message(log_rows as nat, n_cols as nat, leaf_index as nat, symbols@),
        ),
{
    let mut m: Vec<u8> = Vec::new();
    push_source_leaf_tag(&mut m);
    push_le(&mut m, log_rows as u128, 8);
    push_le(&mut m, n_cols as u128, 8);
    push_le(&mut m, leaf_index as u128, 8);
    push_elems(&mut m, symbols);
    proof {
        assert(m@ =~= source_leaf_message(
            log_rows as nat,
            n_cols as nat,
            leaf_index as nat,
            symbols@,
        ));
    }
    digest_value(m.as_slice())
}

/// The two places of a leaf stay within a word.
pub proof fn lemma_pair_positions(log: nat, leaf: int)
    requires
        log > 0,
        0 <= leaf < pow2(log + 1),
    ensures
        ({
            let (p0, p1) = pair_positions(log, leaf);
            0 <= p0 < p1 < pow2(log + 2)
        }),
{
    let half = pow2((log - 1) as nat) as int;
    lemma_half_pow2(log);
    lemma_half_pow2(log + 1);
    lemma_half_pow2(log + 2);
    let coset = leaf / half;
    let local = leaf % half;
    vstd::arithmetic::div_mod::lemma_fundamental_div_mod(leaf, half);
    vstd::arithmetic::div_mod::lemma_mod_bound(leaf, half);
    assert(0 <= coset < 4 && 0 <= coset * (2 * half) <= 6 * half) by (nonlinear_arith)
        requires
            leaf == half * coset + local,
            0 <= local < half,
            0 <= leaf < 4 * half,
            half > 0,
    ;
}

/// The two places of a word that a leaf covers.
pub fn source_leaf_positions(log_rows: usize, leaf_index: usize) -> (r: (usize, usize))
    requires
        log_rows > 0,
        leaf_index < pow2((log_rows + 1) as nat),
        pow2((log_rows + 2) as nat) <= usize::MAX,
    ensures
        (r.0 as int, r.1 as int) == pair_positions(log_rows as nat, leaf_index as int),
        r.0 < r.1 < pow2((log_rows + 2) as nat),
{
    proof {
        lemma_pair_positions(log_rows as nat, leaf_index as int);
        lemma_pow2_strictly_increases((log_rows - 1) as nat, (log_rows + 2) as nat);
        lemma_pow2_pos((log_rows - 1) as nat);
        lemma_half_pow2(log_rows as nat);
        let half = pow2((log_rows - 1) as nat) as int;
        vstd::arithmetic::div_mod::lemma_div_pos_is_pos(leaf_index as int, half);
        vstd::arithmetic::div_mod::lemma_mod_bound(leaf_index as int, half);
        assert((leaf_index as int / half) * (2 * half) >= 0) by (nonlinear_arith)
            requires
                leaf_index as int / half >= 0,
                half > 0,
        ;
        lemma_pow2_strictly_increases(log_rows as nat, (log_rows + 2) as nat);
    }
    let half: usize = pow2_usize(log_rows - 1);
    let local: usize = leaf_index % half;
    let coset: usize = leaf_index / half;
    let base: usize = coset * (2 * half) + local;
    (base, base + half)
}

/// The symbols that a leaf covers.
pub(crate) fn leaf_symbols<F: TowerField>(words: &Vec<Vec<F>>, pos0: usize, pos1: usize) -> (s: Vec<F>)
    requires
        forall|c: int|
            0 <= c < words.len() ==> pos0 < (#[trigger] words[c]).len() && pos1 < words[c].len(),
    ensures
        s@ == pair_symbols(vec_views(words@), (pos0 as int, pos1 as int)),
{
    let mut s: Vec<F> = Vec::new();
    let mut c: usize = 0;
    let ghost want = pair_symbols(vec_views(words@), (pos0 as int, pos1 as int));
    while c < words.len()
        invariant
            c <= words.len(),
            forall|c: int|
                0 <= c < words.len() ==> pos0 < (#[trigger] words[c]).len() && pos1
                    < words[c].len(),
            s.len() == 2 * c,
            want == pair_symbols(vec_views(words@), (pos0 as int, pos1 as int)),
            forall|i: int| 0 <= i < 2 * c ==> #[trigger] s[i] == want[i],
        decreases words.len() - c,
    {
        s.push(words[c][pos0]);
        s.push(words[c][pos1]);
        proof {
            assert(want[2 * c as int] == vec_views(words@)[c as int][pos0 as int]);
            assert(want[2 * c as int + 1] == vec_views(words@)[c as int][pos1 as int]);
        }
        c += 1;
    }
    proof {
        assert(s@ =~= want);
    }
    s
}

/// The digest of a leaf of the tree over the encoded columns.
fn source_leaf_hash_from_encoded_cols_at<F: TowerField>(
    encoded_cols: &Vec<Vec<F>>,
    log_rows: usize,
    leaf_index: usize,
) -> (r: SourceHash)
    requires
        log_rows > 0,
        words_wf(vec_views(encoded_cols@), log_rows as nat),
        leaf_index < pow2((log_rows + 1) as nat),
        pow2((log_rows + 2) as nat) <= usize::MAX,
    ensures
        r == source_leaves(vec_views(encoded_cols@), log_rows as nat)[leaf_index as int],
{
    let (pos0, pos1) = source_leaf_positions(log_rows, leaf_index);
    proof {
        assert forall|c: int| 0 <= c < encoded_cols.len() implies pos0 < (
        #[trigger] encoded_cols[c]).len() && pos1 < encoded_cols[c].len() by {
            assert(vec_views(encoded_cols@)[c].len() == pow2((log_rows + 2) as nat));
        }
    }
    let symbols = leaf_symbols(encoded_cols, pos0, pos1);
    source_leaf_hash(log_rows, encoded_cols.len(), leaf_index, symbols.as_slice())
}

/// The digests of `count` leaves from `first` on.
fn build_source_leaf_hashes<F: TowerField>(
    encoded_cols: &Vec<Vec<F>>,
    log_rows: usize,
    first: usize,
    count: usize,
) -> (r: Vec<SourceHash>)
    requires
        log_rows > 0,
        words_wf(vec_views(encoded_cols@), log_rows as nat),
        first + count <= pow2((log_rows + 1) as nat),
        pow2((log_rows + 2) as nat) <= usize::MAX,
    ensures
        r@ == source_leaves(vec_views(encoded_cols@), log_rows as nat).subrange(
            first as int,
            first + count,
        ),
{
    proof {
        lemma_half_pow2((log_rows + 2) as nat);
    }
    let ghost leaves = source_leaves(vec_views(encoded_cols@), log_rows as nat);
    let mut r: Vec<SourceHash> = Vec::new();
    let mut i: usize = 0;
    while i < count
        invariant
            i <= count,
            log_rows > 0,
            words_wf(vec_views(encoded_cols@), log_rows as nat),
            first + count <= pow2((log_rows + 1) as nat),
            pow2((log_rows + 2) as nat) <= usize::MAX,
            pow2((log_rows + 2) as nat) == 2 * pow2((log_rows + 1) as nat),
            leaves == source_leaves(vec_views(encoded_cols@), log_rows as nat),
            r.len() == i,
            forall|k: int| 0 <= k < i ==> #[trigger] r[k] == leaves[first + k],
        decreases count - i,
    {
        r.push(source_leaf_hash_from_encoded_cols_at(encoded_cols, log_rows, first + i));
        i += 1;
    }
    proof {
        assert(r@ =~= leaves.subrange(first as int, first + count));
    }
    r
}

/// A tree over leaves that are given.
#[derive(Clone, Debug, PartialEq, Eq)]
pub struct SourceHashMerkleTree {
    tree: MerkleTree,
}

impl SourceHashMerkleTree {
    /// The leaves.
    pub closed spec fn leaves(&self) -> Seq<HashOutput> {
        self.tree.leaves()
    }

    /// The depth.
    pub closed spec fn depth(&self) -> nat {
        (self.tree.layers.len() - 1) as nat
    }

    /// The invariant: every node is the digest of its children.
    pub closed spec fn wf(&self) -> bool {
        self.tree.layers.len() > 0 && self.tree.of(SourceHasher, self.leaves(), self.depth())
    }

    /// Builds the tree over a power of two of leaves.
    pub fn new(leaf_hashes: Vec<SourceHash>) -> (r: Self)
        requires
            exists|n: nat| #[trigger] pow2(n) == leaf_hashes.len(),
        ensures
            r.wf(),
            r.leaves() == leaf_hashes@,
            pow2(r.depth()) == leaf_hashes.len(),
    {
        let depth: usize = log2_usize(leaf_hashes.len());
        SourceHashMerkleTree { tree: MerkleTree::new(&SourceHasher, leaf_hashes, depth) }
    }

    /// The root.
    pub fn get_root(&self) -> (r: SourceHash)
        requires
            self.wf(),
        ensures
            r == node(SourceHasher, self.leaves(), self.depth(), 0),
    {
        proof {
            let depth = self.depth();
            vstd::arithmetic::power2::lemma2_to64();
            assert(self.tree.layers[depth as int].len() == pow2(0));
            assert(self.tree.layers[depth as int][0] == node(
                SourceHasher,
                self.leaves(),
                depth,
                0,
            ));
        }
        self.tree.get_root()
    }

    /// The node with the given index, at a depth counted from the root.
    pub fn get_node_at_depth(&self, depth: usize, index: usize) -> (r: SourceHash)
        requires
            self.wf(),
            depth <= self.depth(),
            index < pow2(depth as nat),
        ensures
            r == node(
                SourceHasher,
                self.leaves(),
                (self.depth() - depth) as nat,
                index as int,
            ),
    {
        proof {
            let total = self.depth();
            assert(self.tree.layers[total - depth].len() == pow2(depth as nat));
            assert(self.tree.layers[total - depth][index as int] == node(
                SourceHasher,
                self.leaves(),
                (total - depth) as nat,
                index as int,
            ));
        }
        self.tree.get_node_at_depth(depth, index)
    }
}

/// Builds the batched proof of the given leaves of a whole tree.
pub fn build_source_batched_merkle_proof(
    tree: &SourceHashMerkleTree,
    leaf_indices: &[usize],
    depth: usize,
) -> (r: SourceBatchedMerkleProof)
    requires
        tree.wf(),
        tree.depth() == depth,
        forall|k: int|
            0 <= k < leaf_indices.len() ==> #[trigger] leaf_indices[k] < pow2(depth as nat),
    ensures
        r.siblings@ == batch_siblings(
            SourceHasher,
            tree.leaves(),
            keys_of(sorted_keys(leaf_indices@, leaf_indices.len() as nat)),
            0,
            depth as nat,
        ),
{
    build_batched_merkle_proof(&SourceHasher, &tree.tree, leaf_indices, depth)
}

/// The tree over the encoded columns: whole, or only the part above chunks of
/// leaves that are computed again when they are needed.
#[derive(Clone, Debug, PartialEq, Eq)]
pub enum SourceMerkleTree {
    Full(SourceHashMerkleTree),
    Chunked { full_depth: usize, chunk_log: usize, upper_tree: SourceHashMerkleTree },
}

/// The roots of the chunks of `2^chunk_log` leaves.
pub open spec fn chunk_roots(leaves: Seq<HashOutput>, depth: nat, chunk_log: nat) -> Seq<HashOutput> {
    Seq::new(
        pow2((depth - chunk_log) as nat),
        |i: int| node(SourceHasher, leaves, chunk_log, i),
    )
}

/// A node above the chunks is the same node of the whole tree.
pub proof fn lemma_node_above(leaves: Seq<HashOutput>, depth: nat, chunk_log: nat, d: nat, i: int)
    requires
        chunk_log + d <= depth,
        0 <= i < pow2((depth - chunk_log - d) as nat),
    ensures
        node(SourceHasher, chunk_roots(leaves, depth, chunk_log), d, i) == node(
            SourceHasher,
            leaves,
            chunk_log + d,
            i,
        ),
    decreases d,
{
    if d > 0 {
        let e = (d - 1) as nat;
        lemma_half_pow2((depth - chunk_log - e) as nat);
        lemma_node_above(leaves, depth, chunk_log, e, 2 * i);
        lemma_node_above(leaves, depth, chunk_log, e, 2 * i + 1);
    }
}

/// A node of a chunk is the same node of the whole tree.
pub proof fn lemma_node_in_chunk(
    leaves: Seq<HashOutput>,
    chunk: int,
    chunk_log: nat,
    d: nat,
    j: int,
)
    requires
        d <= chunk_log,
        0 <= chunk,
        (chunk + 1) * pow2(chunk_log) <= leaves.len(),
        0 <= j < pow2((chunk_log - d) as nat),
    ensures
        ({
            let first = chunk * pow2(chunk_log);
            node(
                SourceHasher,
                leaves.subrange(first, first + pow2(chunk_log)),
                d,
                j,
            ) == node(SourceHasher, leaves, d, chunk * pow2((chunk_log - d) as nat) + j)
        }),
    decreases d,
{
    let first = chunk * pow2(chunk_log);
    let part = leaves.subrange(first, first + pow2(chunk_log));
    assert((chunk + 1) * pow2(chunk_log) == first + pow2(chunk_log)) by (nonlinear_arith)
        requires
            first == chunk * pow2(chunk_log),
    ;
    assert(first >= 0) by (nonlinear_arith)
        requires
            first == chunk * pow2(chunk_log),
            chunk >= 0,
    ;
    if d > 0 {
        let e = (d - 1) as nat;
        let w = pow2((chunk_log - d) as nat) as int;
        lemma_half_pow2((chunk_log - e) as nat);
        lemma_node_in_chunk(leaves, chunk, chunk_log, e, 2 * j);
        lemma_node_in_chunk(leaves, chunk, chunk_log, e, 2 * j + 1);
        assert(chunk * (2 * w) == 2 * (chunk * w)) by (nonlinear_arith);
        let i = chunk * w + j;
        assert(chunk * pow2((chunk_log - e) as nat) + 2 * j == 2 * i);
    }
}

/// Builds the tree of a chunk of leaves.
fn build_source_chunk_tree<F: TowerField>(
    encoded_cols: &Vec<Vec<F>>,
    log_rows: usize,
    chunk_log: usize,
    chunk_idx: usize,
) -> (r: SourceHashMerkleTree)
    requires
        log_rows > 0,
        words_wf(vec_views(encoded_cols@), log_rows as nat),
        pow2((log_rows + 2) as nat) <= usize::MAX,
        chunk_log <= log_rows + 1,
        chunk_idx < pow2((log_rows + 1 - chunk_log) as nat),
    ensures
        r.wf(),
        r.depth() == chunk_log,
        forall|d: nat, j: int|
            d <= chunk_log && 0 <= j < pow2((chunk_log - d) as nat) ==> #[trigger] node(
                SourceHasher,
                r.leaves(),
                d,
                j,
            ) == node(
                SourceHasher,
                source_leaves(vec_views(encoded_cols@), log_rows as nat),
                d,
                chunk_idx * pow2((chunk_log - d) as nat) + j,
            ),
{
    proof {
        lemma_half_pow2((log_rows + 2) as nat);
        lemma_pow2_adds(chunk_log as nat, (log_rows + 1 - chunk_log) as nat);
        lemma_pow2_pos(chunk_log as nat);
        let (w, c, n) = (
            pow2(chunk_log as nat) as int,
            chunk_idx as int,
            pow2((log_rows + 1 - chunk_log) as nat) as int,
        );
        assert((c + 1) * w <= w * n && c * w + w == (c + 1) * w && c * w >= 0) by (nonlinear_arith)
            requires
                0 <= c < n,
                w > 0,
        ;
        assert(w <= w * n) by (nonlinear_arith)
            requires
                0 <= c < n,
                w > 0,
        ;
    }
    let count: usize = pow2_usize(chunk_log);
    let first: usize = chunk_idx * count;
    let hashes = build_source_leaf_hashes(encoded_cols, log_rows, first, count);
    let ghost leaves = source_leaves(vec_views(encoded_cols@), log_rows as nat);
    let tree = SourceHashMerkleTree::new(hashes);
    proof {
        crate::fri::lemma_log_len(tree.depth());
        crate::fri::lemma_log_len(chunk_log as nat);
        assert forall|d: nat, j: int|
            d <= chunk_log && 0 <= j < pow2((chunk_log - d) as nat) implies #[trigger] node(
            SourceHasher,
            tree.leaves(),
            d,
            j,
        ) == node(
            SourceHasher,
            leaves,
            d,
            chunk_idx * pow2((chunk_log - d) as nat) + j,
        ) by {
            lemma_node_in_chunk(leaves, chunk_idx as int, chunk_log as nat, d, j);
        }
    }
    tree
}

/// The root of a chunk of leaves.
fn build_source_chunk_root<F: TowerField>(
    encoded_cols: &Vec<Vec<F>>,
    log_rows: usize,
    chunk_log: usize,
    chunk_idx: usize,
) -> (r: SourceHash)
    requires
        log_rows > 0,
        words_wf(vec_views(encoded_cols@), log_rows as nat),
        pow2((log_rows + 2) as nat) <= usize::MAX,
        chunk_log <= log_rows + 1,
        chunk_idx < pow2((log_rows + 1 - chunk_log) as nat),
    ensures
        r == node(
            SourceHasher,
            source_leaves(vec_views(encoded_cols@), log_rows as nat),
            chunk_log as nat,
            chunk_idx as int,
        ),
{
    let tree = build_source_chunk_tree(encoded_cols, log_rows, chunk_log, chunk_idx);
    proof {
        vstd::arithmetic::power2::lemma2_to64();
    }
    tree.get_root()
}

impl SourceMerkleTree {
    /// The tree over the given leaves.
    pub open spec fn of(&self, leaves: Seq<HashOutput>, depth: nat) -> bool {
        &&& leaves.len() == pow2(depth)
        &&& match *self {
            SourceMerkleTree::Full(tree) => tree.wf() && tree.leaves() == leaves && tree.depth()
                == depth,
            SourceMerkleTree::Chunked { full_depth, chunk_log, upper_tree } => {
                &&& full_depth == depth
                &&& chunk_log <= full_depth
                &&& upper_tree.wf()
                &&& upper_tree.leaves() == chunk_roots(leaves, depth, chunk_log as nat)
                &&& upper_tree.depth() == depth - chunk_log
            },
        }
    }

    /// Builds the tree over the encoded columns.
    pub fn new<F: TowerField>(encoded_cols: &Vec<Vec<F>>, log_rows: usize) -> (r: Self)
        requires
            log_rows > 0,
            words_wf(vec_views(encoded_cols@), log_rows as nat),
            pow2((log_rows + 2) as nat) <= usize::MAX,
        ensures
            r.of(source_leaves(vec_views(encoded_cols@), log_rows as nat), (log_rows + 1) as nat),
            (r is Full) == (log_rows + 1 <= SOURCE_MERKLE_FULL_TREE_MAX_DEPTH),
    {
        let ghost leaves = source_leaves(vec_views(encoded_cols@), log_rows as nat);
        proof {
            lemma_log_bound((log_rows + 2) as nat);
            lemma_half_pow2((log_rows + 2) as nat);
        }
        let full_depth: usize = source_tree_depth(log_rows);
        if full_depth <= SOURCE_MERKLE_FULL_TREE_MAX_DEPTH {
            let count: usize = source_leaf_count(log_rows);
            let hashes = build_source_leaf_hashes(encoded_cols, log_rows, 0, count);
            proof {
                assert(hashes@ =~= leaves);
            }
            let tree = SourceHashMerkleTree::new(hashes);
            proof {
                crate::fri::lemma_log_len(tree.depth());
                crate::fri::lemma_log_len((log_rows + 1) as nat);
            }
            return SourceMerkleTree::Full(tree);
        }
        let chunk_log: usize = SOURCE_MERKLE_CHUNK_LOG;
        let upper_depth: usize = full_depth - chunk_log;
        proof {
            lemma_pow2_strictly_increases(upper_depth as nat, full_depth as nat);
        }
        let chunk_count: usize = pow2_usize(upper_depth);
        let mut roots: Vec<SourceHash> = Vec::new();
        let mut i: usize = 0;
        while i < chunk_count
            invariant
                i <= chunk_count,
                chunk_count == pow2(upper_depth as nat),
                log_rows > 0,
                words_wf(vec_views(encoded_cols@), log_rows as nat),
                pow2((log_rows + 2) as nat) <= usize::MAX,
                upper_depth == log_rows + 1 - chunk_log,
                chunk_log <= log_rows + 1,
                leaves == source_leaves(vec_views(encoded_cols@), log_rows as nat),
                roots.len() == i,
                forall|k: int|
                    0 <= k < i ==> #[trigger] roots[k] == node(
                        SourceHasher,
                        leaves,
                        chunk_log as nat,
                        k,
                    ),
            decreases chunk_count - i,
        {
            roots.push(build_source_chunk_root(encoded_cols, log_rows, chunk_log, i));
            i += 1;
        }
        proof {
            assert(roots@ =~= chunk_roots(leaves, full_depth as nat, chunk_log as nat));
        }
        let upper_tree = SourceHashMerkleTree::new(roots);
        proof {
            crate::fri::lemma_log_len(upper_tree.depth());
            crate::fri::lemma_log_len(upper_depth as nat);
        }
        SourceMerkleTree::Chunked { full_depth, chunk_log, upper_tree }
    }

    /// The root of the whole tree.
    pub open spec fn root(&self) -> HashOutput {
        match *self {
            SourceMerkleTree::Full(tree) => node(SourceHasher, tree.leaves(), tree.depth(), 0),
            SourceMerkleTree::Chunked { upper_tree, .. } => node(
                SourceHasher,
                upper_tree.leaves(),
                upper_tree.depth(),
                0,
            ),
        }
    }

    /// The invariant of the parts.
    pub open spec fn wf(&self) -> bool {
        match *self {
            SourceMerkleTree::Full(tree) => tree.wf(),
            SourceMerkleTree::Chunked { upper_tree, .. } => upper_tree.wf(),
        }
    }

    /// The root.
    pub fn get_root(&self) -> (r: SourceHash)
        requires
            self.wf(),
        ensures
            r == self.root(),
    {
        match self {
            SourceMerkleTree::Full(tree) => tree.get_root(),
            SourceMerkleTree::Chunked { upper_tree, .. } => upper_tree.get_root(),
        }
    }
}

/// The root of a whole or chunked tree is the root over its leaves.
pub proof fn lemma_source_root(tree: SourceMerkleTree, leaves: Seq<HashOutput>, depth: nat)
    requires
        tree.of(leaves, depth),
    ensures
        tree.wf(),
        tree.root() == node(SourceHasher, leaves, depth, 0),
{
    vstd::arithmetic::power2::lemma2_to64();
    if let SourceMerkleTree::Chunked { full_depth, chunk_log, upper_tree } = tree {
        lemma_node_above(leaves, depth, chunk_log as nat, (depth - chunk_log) as nat, 0);
    }
}

/// A power of two in a machine word has an exponent below 64.
pub proof fn lemma_log_bound(n: nat)
    requires
        pow2(n) <= usize::MAX,
    ensures
        n < 64,
{
    vstd::arithmetic::power2::lemma2_to64();
    if n > 64 {
        lemma_pow2_strictly_increases(64, n);
    }
}

/// The nodes of the tree over encoded columns.
pub struct SourceNodes<'a, F> {
    pub tree: &'a SourceMerkleTree,
    pub encoded_cols: &'a Vec<Vec<F>>,
    pub log_rows: usize,
}

impl<'a, F: TowerField> NodeSource<SourceHasher> for SourceNodes<'a, F> {
    open spec fn all_leaves(&self) -> Seq<HashOutput> {
        source_leaves(vec_views(self.encoded_cols@), self.log_rows as nat)
    }

    open spec fn complete(&self, s: SourceHasher, depth: nat) -> bool {
        &&& self.log_rows > 0
        &&& depth == self.log_rows + 1
        &&& words_wf(vec_views(self.encoded_cols@), self.log_rows as nat)
        &&& pow2((self.log_rows + 2) as nat) <= usize::MAX
        &&& self.tree.of(
            source_leaves(vec_views(self.encoded_cols@), self.log_rows as nat),
            depth,
        )
    }

    fn node_at(&self, hasher: &SourceHasher, depth: usize, at: usize, index: usize) -> (r:
        HashOutput) {
        match self.tree {
            SourceMerkleTree::Full(tree) => tree.get_node_at_depth(at, index),
            SourceMerkleTree::Chunked { full_depth, chunk_log, upper_tree } => {
                let upper_depth: usize = *full_depth - *chunk_log;
                let ghost leaves = source_leaves(
                    vec_views(self.encoded_cols@),
                    self.log_rows as nat,
                );
                if at <= upper_depth {
                    proof {
                        lemma_node_above(
                            leaves,
                            depth as nat,
                            *chunk_log as nat,
                            (upper_depth - at) as nat,
                            index as int,
                        );
                    }
                    return upper_tree.get_node_at_depth(at, index);
                }
                let local_depth: usize = at - upper_depth;
                proof {
                    lemma_half_pow2((self.log_rows + 2) as nat);
                    if local_depth < depth {
                        lemma_pow2_strictly_increases(local_depth as nat, depth as nat);
                    }
                    lemma_pow2_pos(local_depth as nat);
                    lemma_pow2_adds(local_depth as nat, upper_depth as nat);
                    let w = pow2(local_depth as nat) as int;
                    vstd::arithmetic::div_mod::lemma_multiply_divide_lt(
                        index as int,
                        w,
                        pow2(upper_depth as nat) as int,
                    );
                    vstd::arithmetic::div_mod::lemma_fundamental_div_mod(index as int, w);
                    vstd::arithmetic::div_mod::lemma_mod_bound(index as int, w);
                }
                let width: usize = pow2_usize(local_depth);
                let chunk_idx: usize = index / width;
                let local_index: usize = index % width;
                let chunk = build_source_chunk_tree(
                    self.encoded_cols,
                    self.log_rows,
                    *chunk_log,
                    chunk_idx,
                );
                proof {
                    let d = (*chunk_log - local_depth) as nat;
                    assert(d == depth - at);
                    assert(node(SourceHasher, chunk.leaves(), d, local_index as int) == node(
                        SourceHasher,
                        leaves,
                        d,
                        chunk_idx * pow2((*chunk_log - d) as nat) + local_index,
                    ));
                    assert(chunk_idx * pow2(local_depth as nat) == width * chunk_idx)
                        by (nonlinear_arith)
                        requires
                            width == pow2(local_depth as nat),
                    ;
                }
                chunk.get_node_at_depth(local_depth, local_index)
            },
        }
    }
}

/// A batched proof for leaves of the tree over the encoded columns.
pub type SourceBatchedMerkleProof = BatchedMerkleProof;

impl SourceMerkleTree {
    /// Builds the batched proof of the given leaves.
    pub fn build_batched_merkle_proof<F: TowerField>(
        &self,
        encoded_cols: &Vec<Vec<F>>,
        log_rows: usize,
        leaf_indices: &[usize],
    ) -> (r: SourceBatchedMerkleProof)
        requires
            log_rows > 0,
            words_wf(vec_views(encoded_cols@), log_rows as nat),
            pow2((log_rows + 2) as nat) <= usize::MAX,
            self.of(
                source_leaves(vec_views(encoded_cols@), log_rows as nat),
                (log_rows + 1) as nat,
            ),
            forall|k: int|
                0 <= k < leaf_indices.len() ==> #[trigger] leaf_indices[k] < pow2(
                    (log_rows + 1) as nat,
                ),
        ensures
            r.siblings@ == batch_siblings(
                SourceHasher,
                source_leaves(vec_views(encoded_cols@), log_rows as nat),
                keys_of(sorted_keys(leaf_indices@, leaf_indices.len() as nat)),
                0,
                (log_rows + 1) as nat,
            ),
    {
        proof {
            lemma_log_bound((log_rows + 2) as nat);
        }
        match self {
            SourceMerkleTree::Full(tree) => build_source_batched_merkle_proof(
                tree,
                leaf_indices,
                source_tree_depth(log_rows),
            ),
            SourceMerkleTree::Chunked { .. } => {
                let nodes = SourceNodes { tree: self, encoded_cols, log_rows };
                build_batched_merkle_proof_with_getter(
                    &SourceHasher,
                    &nodes,
                    leaf_indices,
                    source_tree_depth(log_rows),
                )
            },
        }
    }
}

/// Verifies a batched proof against the root of the tree over the encoded
/// columns.
pub fn verify_source_batched_merkle_proof(
    root: &SourceHash,
    batch: &SourceBatchedMerkleProof,
    depth: usize,
    leaf_indices: &[usize],
    leaf_hashes: &[SourceHash],
) -> (r: Result<(), MerkleBatchError>)
    ensures
        r == batch_verdict(
            SourceHasher,
            *root,
            batch.siblings@,
            depth as nat,
            leaf_indices@,
            leaf_hashes@,
        ),
{
    verify_batched_merkle_proof(root, batch, depth, leaf_indices, leaf_hashes, &SourceHasher)
}

/// What the prover keeps of a commitment.
pub struct InterleavedProverState<'a, F> {
    pub raw_cols: Vec<&'a [F]>,
    pub log_rows: usize,
    pub n_cols: usize,
    pub encoded_cols: Vec<Vec<F>>,
    pub source_tree: SourceMerkleTree,
}

/// Columns of `2^log_rows` values.
pub open spec fn cols_wf<F>(cols: Seq<Seq<F>>, log_rows: nat) -> bool {
    &&& cols.len() > 0
    &&& forall|c: int| 0 <= c < cols.len() ==> (#[trigger] cols[c]).len() == pow2(log_rows)
}

impl<'a, F: TowerField> InterleavedProverState<'a, F> {
    /// The state of a commitment to the given columns.
    pub open spec fn of<C: FriCode<F>>(&self, code: C, cols: Seq<Seq<F>>) -> bool {
        let words = encoded_words(code, cols);
        &&& cols_wf(cols, self.log_rows as nat)
        &&& self.n_cols == cols.len()
        &&& slice_views(self.raw_cols@) == cols
        &&& vec_views(self.encoded_cols@) == words
        &&& self.log_rows > 0
        &&& self.source_tree.of(
            source_leaves(words, self.log_rows as nat),
            (self.log_rows + 1) as nat,
        )
    }
}

/// The digest of a segment.
fn segment_hash<F: TowerField>(cols: &[&[F]], log_rows: usize, segment: usize) -> (r: HashOutput)
    requires
        cols_wf(slice_views(cols@), log_rows as nat),
        segment < CAP_SEGMENTS,
        pow2(log_rows as nat) <= usize::MAX,
    ensures
        r == digest_of(segment_message(slice_views(cols@), log_rows as nat, segment as nat)),
{
    let ghost views = slice_views(cols@);
    let rows: usize = pow2_usize(log_rows) / CAP_SEGMENTS;
    proof {
        assert(segment * rows + rows <= 32 * rows) by (nonlinear_arith)
            requires
                segment < 32,
                rows >= 0,
        ;
        assert(segment * rows >= 0) by (nonlinear_arith);
    }
    let start: usize = segment * rows;
    let mut m: Vec<u8> = Vec::new();
    push_cap_tag(&mut m);
    push_le(&mut m, segment as u128, 8);
    push_le(&mut m, cols.len() as u128, 8);
    push_le(&mut m, log_rows as u128, 8);
    let ghost head = m@;
    proof {
        assert(head =~= cap_tag() + le_bytes(segment as nat, 8) + le_bytes(views.len(), 8)
            + le_bytes(log_rows as nat, 8));
        assert(m@ =~= head + rows_bytes(views, start as int, 0));
    }
    let mut i: usize = 0;
    while i < rows
        invariant
            i <= rows,
            start + rows <= pow2(log_rows as nat) <= usize::MAX,
            views == slice_views(cols@),
            cols_wf(views, log_rows as nat),
            m@ == head + rows_bytes(views, start as int, i as nat),
        decreases rows - i,
    {
        let ghost before = m@;
        let mut row: Vec<F> = Vec::new();
        let mut c: usize = 0;
        while c < cols.len()
            invariant
                c <= cols.len(),
                i < rows,
                start + rows <= pow2(log_rows as nat) <= usize::MAX,
                views == slice_views(cols@),
                cols_wf(views, log_rows as nat),
                row.len() == c,
                forall|k: int| 0 <= k < c ==> #[trigger] row[k] == views[k][start + i],
            decreases cols.len() - c,
        {
            let col = cols[c];
            proof {
                assert(views[c as int] == col@);
            }
            row.push(col[start + i]);
            c += 1;
        }
        proof {
            assert(row@ =~= row_at(views, start + i));
        }
        push_elems(&mut m, row.as_slice());
        proof {
            assert(m@ =~= head + rows_bytes(views, start as int, (i + 1) as nat));
        }
        i += 1;
    }
    proof {
        assert(m@ =~= segment_message(views, log_rows as nat, segment as nat));
    }
    digest_value(m.as_slice())
}

/// Commits to columns: the digests of their segments, and the root of the tree
/// over their words.
pub fn interleaved_commit<'a, F: TowerField, C: FriCode<F>>(cols: &[&'a [F]], code: &C) -> (r: (
    InterleavedCommitment,
    InterleavedProverState<'a, F>,
))
    requires
        cols.len() > 0,
        exists|n: nat| n > 0 && #[trigger] pow2(n) == cols[0].len(),
        forall|c: int| 0 <= c < cols.len() ==> (#[trigger] cols[c]).len() == cols[0].len(),
        4 * cols[0].len() <= usize::MAX,
    ensures
        r.1.of(*code, slice_views(cols@)),
        r.0.log_rows == r.1.log_rows,
        r.0.n_cols == cols.len(),
        r.0.cap.hashes.len() == CAP_SEGMENTS + 1,
        forall|s: int|
            0 <= s < CAP_SEGMENTS ==> #[trigger] r.0.cap.hashes[s] == digest_of(
                segment_message(slice_views(cols@), r.0.log_rows as nat, s as nat),
            ),
        r.0.cap.hashes[CAP_SEGMENTS as int] == node(
            SourceHasher,
            source_leaves(encoded_words(*code, slice_views(cols@)), r.0.log_rows as nat),
            (r.0.log_rows + 1) as nat,
            0,
        ),
{
    let ghost views = slice_views(cols@);
    let n: usize = cols[0].len();
    let ghost target = choose|n: nat| n > 0 && #[trigger] pow2(n) == cols[0].len();
    let log_rows: usize = log2_usize(n);
    proof {
        crate::fri::lemma_log_len(target);
        crate::fri::lemma_log_len(log_rows as nat);
        lemma_pow2_adds(log_rows as nat, 2);
        vstd::arithmetic::power2::lemma2_to64();
        assert forall|c: int| 0 <= c < views.len() implies (#[trigger] views[c]).len() == pow2(
            log_rows as nat,
        ) by {
            assert(cols[c].len() == cols[0].len());
        }
    }
    let mut hashes: Vec<HashOutput> = Vec::new();
    let mut s: usize = 0;
    while s < CAP_SEGMENTS
        invariant
            s <= CAP_SEGMENTS,
            views == slice_views(cols@),
            cols_wf(views, log_rows as nat),
            pow2(log_rows as nat) <= usize::MAX,
            hashes.len() == s,
            forall|k: int|
                0 <= k < s ==> #[trigger] hashes[k] == digest_of(
                    segment_message(views, log_rows as nat, k as nat),
                ),
        decreases CAP_SEGMENTS - s,
    {
        hashes.push(segment_hash(cols, log_rows, s));
        s += 1;
    }
    let mut encoded_cols: Vec<Vec<F>> = Vec::new();
    let mut raw_cols: Vec<&'a [F]> = Vec::new();
    let mut c: usize = 0;
    while c < cols.len()
        invariant
            c <= cols.len(),
            views == slice_views(cols@),
            cols_wf(views, log_rows as nat),
            4 * n <= usize::MAX,
            n == pow2(log_rows as nat),
            log_rows < 64,
            encoded_cols.len() == c,
            raw_cols@ == cols@.take(c as int),
            forall|k: int| 0 <= k < c ==> (#[trigger] encoded_cols[k])@ == code.encoded(views[k]),
        decreases cols.len() - c,
    {
        let col = cols[c];
        proof {
            assert(views[c as int] == col@);
            assert(pow2(log_rows as nat) == col.len());
        }
        encoded_cols.push(code.encode(col));
        raw_cols.push(col);
        proof {
            assert(raw_cols@ =~= cols@.take(c + 1));
        }
        c += 1;
    }
    let ghost words = encoded_words(*code, views);
    proof {
        assert(raw_cols@ =~= cols@);
        assert(vec_views(encoded_cols@) =~= words);
        assert forall|c: int| 0 <= c < words.len() implies (#[trigger] words[c]).len() == pow2(
            (log_rows + 2) as nat,
        ) by {
            assert(views[c].len() == pow2(log_rows as nat));
            code.encoded_len(views[c], log_rows as nat);
        }
    }
    let source_tree = SourceMerkleTree::new(&encoded_cols, log_rows);
    proof {
        lemma_source_root(
            source_tree,
            source_leaves(words, log_rows as nat),
            (log_rows + 1) as nat,
        );
    }
    let root = source_tree.get_root();
    hashes.push(root);
    let n_cols: usize = cols.len();
    (
        InterleavedCommitment { cap: MerkleCap { hashes }, log_rows, n_cols },
        InterleavedProverState { raw_cols, log_rows, n_cols, encoded_cols, source_tree },
    )
}

/// The transcript after the first `k` digests of a cap, each as the numbers of
/// its two halves.
pub open spec fn cap_absorbed<F: TowerField, T: FiatShamir<F>>(
    channel: T,
    hashes: Seq<HashOutput>,
    k: nat,
) -> T
    decreases k,
{
    if k == 0 {
        channel
    } else {
        let h = hashes[k - 1]@;
        cap_absorbed(channel, hashes, (k - 1) as nat).absorbed(
            F::of_u128(le_value(h.subrange(0, 16)) as u128),
        ).absorbed(F::of_u128(le_value(h.subrange(16, 32)) as u128))
    }
}

/// Absorbs a cap.
pub fn absorb_cap<F: TowerField, T: FiatShamir<F>>(channel: &mut T, cap: &MerkleCap)
    ensures
        *final(channel) == cap_absorbed(*old(channel), cap.hashes@, cap.hashes.len() as nat),
{
    let mut k: usize = 0;
    while k < cap.hashes.len()
        invariant
            k <= cap.hashes.len(),
            *channel == cap_absorbed(*old(channel), cap.hashes@, k as nat),
        decreases cap.hashes.len() - k,
    {
        let low: u128 = read_le_u128(cap.hashes[k].as_slice(), 0);
        let high: u128 = read_le_u128(cap.hashes[k].as_slice(), 16);
        channel.absorb(F::from_u128(low));
        channel.absorb(F::from_u128(high));
        k += 1;
    }
}

/// Rows can be told from their bytes.
proof fn lemma_rows_bytes_injective<F: TowerField>(
    a: Seq<Seq<F>>,
    b: Seq<Seq<F>>,
    start: int,
    k: nat,
)
    requires
        a.len() == b.len(),
        rows_bytes(a, start, k) == rows_bytes(b, start, k),
    ensures
        forall|i: int| start <= i < start + k ==> #[trigger] row_at(a, i) == row_at(b, i),
    decreases k,
{
    if k > 0 {
        let (p, q) = (row_at(a, start + k - 1), row_at(b, start + k - 1));
        lemma_elem_bytes_len(p);
        lemma_elem_bytes_len(q);
        lemma_concat_parts(
            rows_bytes(a, start, (k - 1) as nat),
            elem_bytes(p),
            rows_bytes(b, start, (k - 1) as nat),
            elem_bytes(q),
        );
        lemma_elem_bytes_injective(p, q);
        lemma_rows_bytes_injective(a, b, start, (k - 1) as nat);
        assert forall|i: int| start <= i < start + k implies #[trigger] row_at(a, i) == row_at(
            b,
            i,
        ) by {
        }
    }
}

/// There are as many bytes as the elements of the rows take.
proof fn lemma_rows_bytes_len<F: TowerField>(cols: Seq<Seq<F>>, start: int, k: nat)
    ensures
        rows_bytes(cols, start, k).len() == 16 * cols.len() * k,
    decreases k,
{
    if k > 0 {
        lemma_rows_bytes_len(cols, start, (k - 1) as nat);
        lemma_elem_bytes_len(row_at(cols, start + k - 1));
        assert(16 * cols.len() * k == 16 * cols.len() * (k - 1) + 16 * cols.len())
            by (nonlinear_arith)
            requires
                k > 0,
        ;
    } else {
        assert(16 * cols.len() * 0 == 0) by (nonlinear_arith);
    }
}

/// Binding: with at least one row a segment, two lists of columns whose segments
/// have the same digests are the same, unless two of the messages collide.
pub proof fn lemma_cap_binding<F: TowerField>(a: Seq<Seq<F>>, b: Seq<Seq<F>>, log_rows: nat)
    requires
        log_rows >= MERKLE_CAP_DEPTH,
        a.len() == b.len(),
        cols_wf(a, log_rows),
        cols_wf(b, log_rows),
        forall|s: nat|
            s < CAP_SEGMENTS ==> digest_of(#[trigger] segment_message(a, log_rows, s)) == digest_of(
                segment_message(b, log_rows, s),
            ),
        forall|s: nat|
            s < CAP_SEGMENTS && digest_of(segment_message(a, log_rows, s)) == digest_of(
                segment_message(b, log_rows, s),
            ) ==> #[trigger] segment_message(a, log_rows, s) == segment_message(b, log_rows, s),
    ensures
        a == b,
{
    let n = pow2(log_rows);
    let rows = n / (CAP_SEGMENTS as nat);
    lemma_pow2_adds(5, (log_rows - 5) as nat);
    vstd::arithmetic::power2::lemma2_to64();
    lemma_pow2_pos((log_rows - 5) as nat);
    assert(n == 32 * pow2((log_rows - 5) as nat));
    assert(rows == pow2((log_rows - 5) as nat));
    assert forall|i: int| 0 <= i < n implies #[trigger] row_at(a, i) == row_at(b, i) by {
        let s = (i / (rows as int)) as nat;
        vstd::arithmetic::div_mod::lemma_fundamental_div_mod(i, rows as int);
        vstd::arithmetic::div_mod::lemma_div_pos_is_pos(i, rows as int);
        assert(s < 32) by (nonlinear_arith)
            requires
                i < 32 * rows,
                i == rows * s + i % (rows as int),
                0 <= i % (rows as int),
                rows > 0,
        ;
        assert(segment_message(a, log_rows, s) == segment_message(b, log_rows, s));
        let start = (s * rows) as int;
        assert(rows * s == s * rows) by (nonlinear_arith);
        let head = cap_tag() + le_bytes(s, 8) + le_bytes(a.len(), 8) + le_bytes(log_rows, 8);
        lemma_rows_bytes_len(a, start, rows);
        lemma_rows_bytes_len(b, start, rows);
        lemma_concat_parts(
            head,
            rows_bytes(a, start, rows),
            head,
            rows_bytes(b, start, rows),
        );
        lemma_rows_bytes_injective(a, b, start, rows);
    }
    assert forall|c: int| 0 <= c < a.len() implies a[c] == b[c] by {
        assert(a[c].len() == n && b[c].len() == n);
        assert forall|i: int| 0 <= i < n implies a[c][i] == b[c][i] by {
            assert(row_at(a, i)[c] == row_at(b, i)[c]);
        }
        assert(a[c] =~= b[c]);
    }
    assert(a =~= b);
}

/// Binding: an accepted proof against the root of the tree over the encoded
/// columns opens the symbols of those columns, unless a pair that the verifier
/// hashed collides with the tree, or a leaf's message with that of the tree.
pub proof fn lemma_source_binding<F: TowerField>(
    words: Seq<Seq<F>>,
    log_rows: nat,
    sibs: Seq<SourceHash>,
    idxs: Seq<usize>,
    symbols: Seq<Seq<F>>,
    k: int,
)
    requires
        idxs.len() == symbols.len(),
        forall|k: int| 0 <= k < idxs.len() ==> #[trigger] idxs[k] < pow2(log_rows + 1),
        forall|k: int|
            0 <= k < symbols.len() ==> (#[trigger] symbols[k]).len() == 2 * words.len(),
        ({
            let leaves = source_leaves(words, log_rows);
            let hashes = leaf_digests(log_rows, words.len(), idxs, symbols);
            let depth = log_rows + 1;
            &&& batch_verdict(
                SourceHasher,
                node(SourceHasher, leaves, depth, 0),
                sibs,
                depth,
                idxs,
                hashes,
            ) == Ok::<(), MerkleBatchError>(())
            &&& collision_free(
                SourceHasher,
                leaves,
                collected(idxs, hashes, idxs.len())->Ok_0,
                sibs,
                0,
                depth,
            )
        }),
        0 <= k < idxs.len(),
        ({
            let m = source_leaf_message(log_rows, words.len(), idxs[k] as nat, symbols[k]);
            let want = source_leaf_message(
                log_rows,
                words.len(),
                idxs[k] as nat,
                pair_symbols(words, pair_positions(log_rows, idxs[k] as int)),
            );
            digest_of(m) == digest_of(want) ==> m == want
        }),
    ensures
        symbols[k] == pair_symbols(words, pair_positions(log_rows, idxs[k] as int)),
{
    let leaves = source_leaves(words, log_rows);
    let hashes = leaf_digests(log_rows, words.len(), idxs, symbols);
    lemma_batch_binding(SourceHasher, leaves, log_rows + 1, sibs, idxs, hashes);
    let i = idxs[k] as nat;
    assert(hashes[k] == leaves[i as int]);
    let want = pair_symbols(words, pair_positions(log_rows, i as int));
    let head = source_leaf_tag() + le_bytes(log_rows, 8) + le_bytes(words.len(), 8) + le_bytes(
        i,
        8,
    );
    lemma_elem_bytes_len(symbols[k]);
    lemma_elem_bytes_len(want);
    lemma_concat_parts(head, elem_bytes(symbols[k]), head, elem_bytes(want));
    lemma_elem_bytes_injective(symbols[k], want);
}

/// The digests of leaves with the given symbols.
pub open spec fn leaf_digests<F: TowerField>(
    log_rows: nat,
    n_cols: nat,
    idxs: Seq<usize>,
    symbols: Seq<Seq<F>>,
) -> Seq<SourceHash> {
    Seq::new(
        idxs.len(),
        |k: int|
            digest_of(source_leaf_message(log_rows, n_cols, idxs[k] as nat, symbols[k])),
    )
}

} // verus!
