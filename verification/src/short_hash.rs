//! Digests of 16 bytes, and the trees of the folded layers over them.
use vstd::prelude::*;
use vstd::arithmetic::power2::pow2;
use crate::fri::{digest_of, digest_value};
use crate::hashing::{HashOutput, push_bytes};
use crate::merkle::{BatchedMerkleProof, MerkleBatchError, MerkleTree, NodeHasher, batch_siblings, batch_verdict, build_batched_merkle_proof, keys_of, lemma_batch_complete, missing, node, nodes_at, parents, sorted_keys, verify_batched_merkle_proof};
use crate::mle::log2_usize;

verus! {

/// A digest of 16 bytes.
pub type ShortHash = [u8; 16];

/// The siblings of a batched proof in a tree of short digests.
#[derive(Clone, Debug, PartialEq, Eq)]
pub struct ShortBatchedMerkleProof {
    pub siblings: Vec<ShortHash>,
}

/// A short digest, followed by zeros.
#[verifier::opaque]
pub open spec fn wide(h: ShortHash) -> HashOutput {
    [
        h[0], h[1], h[2], h[3], h[4], h[5], h[6], h[7], h[8], h[9], h[10], h[11], h[12], h[13],
        h[14], h[15], 0u8, 0u8, 0u8, 0u8, 0u8, 0u8, 0u8, 0u8, 0u8, 0u8, 0u8, 0u8, 0u8, 0u8, 0u8,
        0u8,
    ]
}

/// The first half of a digest.
#[verifier::opaque]
pub open spec fn narrow(o: HashOutput) -> ShortHash {
    [
        o[0], o[1], o[2], o[3], o[4], o[5], o[6], o[7], o[8], o[9], o[10], o[11], o[12], o[13],
        o[14], o[15],
    ]
}

/// Computes [`wide`].
pub fn short_hash_to_output(h: &ShortHash) -> (r: HashOutput)
    ensures
        r == wide(*h),
{
    let r: HashOutput = [
        h[0], h[1], h[2], h[3], h[4], h[5], h[6], h[7], h[8], h[9], h[10], h[11], h[12], h[13],
        h[14], h[15], 0u8, 0u8, 0u8, 0u8, 0u8, 0u8, 0u8, 0u8, 0u8, 0u8, 0u8, 0u8, 0u8, 0u8, 0u8,
        0u8,
    ];
    proof {
        reveal(wide);
        assert(r@ =~= wide(*h)@);
        assert(r =~= wide(*h));
    }
    r
}

/// Computes [`narrow`].
pub fn short_hash_of(o: &HashOutput) -> (r: ShortHash)
    ensures
        r == narrow(*o),
{
    let r: ShortHash = [
        o[0], o[1], o[2], o[3], o[4], o[5], o[6], o[7], o[8], o[9], o[10], o[11], o[12], o[13],
        o[14], o[15],
    ];
    proof {
        reveal(narrow);
        assert(r@ =~= narrow(*o)@);
        assert(r =~= narrow(*o));
    }
    r
}

/// Cutting undoes padding.
pub proof fn lemma_narrow_wide(h: ShortHash)
    ensures
        narrow(wide(h)) == h,
{
    reveal(wide);
    reveal(narrow);
    assert(narrow(wide(h))@ =~= h@);
    assert(narrow(wide(h)) =~= h);
}

/// The short digest of a message: the first 16 bytes of its digest.
pub open spec fn short_digest_of(message: Seq<u8>) -> ShortHash {
    narrow(digest_of(message))
}

/// Takes the short digest of a message.
pub fn short_digest_value(message: &[u8]) -> (r: ShortHash)
    ensures
        r == short_digest_of(message@),
{
    short_hash_of(&digest_value(message))
}

/// The first bytes of the message of an inner node.
pub open spec fn short_node_tag() -> Seq<u8> {
    seq![
        80u8, 65u8, 82u8, 65u8, 78u8, 79u8, 73u8, 68u8, 47u8, 83u8, 79u8, 85u8, 82u8, 67u8,
        69u8, 45u8, 66u8, 73u8, 78u8, 68u8, 73u8, 78u8, 71u8, 45u8, 77u8, 69u8, 82u8, 75u8,
        76u8, 69u8, 45u8, 49u8, 50u8, 56u8, 47u8, 118u8, 49u8,
    ]
}

/// The hasher of the inner nodes of a tree of short digests, which stand in it
/// padded.
#[derive(Clone, Copy, Debug, PartialEq, Eq)]
pub struct ShortHasher;

/// The message of an inner node.
pub open spec fn short_node_message(left: ShortHash, right: ShortHash) -> Seq<u8> {
    short_node_tag() + left@ + right@
}

impl NodeHasher for ShortHasher {
    open spec fn parent(&self, left: HashOutput, right: HashOutput) -> HashOutput {
        wide(short_digest_of(short_node_message(narrow(left), narrow(right))))
    }

    fn compress(&self, left: &HashOutput, right: &HashOutput) -> (r: HashOutput) {
        let tag: [u8; 37] = [
            80u8, 65u8, 82u8, 65u8, 78u8, 79u8, 73u8, 68u8, 47u8, 83u8, 79u8, 85u8, 82u8, 67u8,
            69u8, 45u8, 66u8, 73u8, 78u8, 68u8, 73u8, 78u8, 71u8, 45u8, 77u8, 69u8, 82u8, 75u8,
            76u8, 69u8, 45u8, 49u8, 50u8, 56u8, 47u8, 118u8, 49u8,
        ];
        let l = short_hash_of(left);
        let r = short_hash_of(right);
        let mut m: Vec<u8> = Vec::new();
        push_bytes(&mut m, tag.as_slice());
        push_bytes(&mut m, l.as_slice());
        push_bytes(&mut m, r.as_slice());
        proof {
            assert(tag@ =~= short_node_tag());
            assert(m@ =~= short_node_message(narrow(*left), narrow(*right)));
        }
        short_hash_to_output(&short_digest_value(m.as_slice()))
    }
}

/// Short digests, each padded.
pub open spec fn wide_all(hashes: Seq<ShortHash>) -> Seq<HashOutput> {
    Seq::new(hashes.len(), |i: int| wide(hashes[i]))
}

/// Digests, each cut.
pub open spec fn narrow_all(hashes: Seq<HashOutput>) -> Seq<ShortHash> {
    Seq::new(hashes.len(), |i: int| narrow(hashes[i]))
}

/// Computes [`wide_all`].
fn widened(hashes: &[ShortHash]) -> (r: Vec<HashOutput>)
    ensures
        r@ == wide_all(hashes@),
{
    let mut r: Vec<HashOutput> = Vec::new();
    let mut i: usize = 0;
    while i < hashes.len()
        invariant
            i <= hashes.len(),
            r.len() == i,
            forall|k: int| 0 <= k < i ==> #[trigger] r[k] == wide(hashes[k]),
        decreases hashes.len() - i,
    {
        r.push(short_hash_to_output(&hashes[i]));
        i += 1;
    }
    proof {
        assert(r@ =~= wide_all(hashes@));
    }
    r
}

/// The root of the tree over `2^depth` short digests.
pub open spec fn short_root(leaves: Seq<ShortHash>, depth: nat) -> ShortHash {
    narrow(node(ShortHasher, wide_all(leaves), depth, 0))
}

/// The siblings of a batched proof of the given leaves.
pub open spec fn short_siblings(leaves: Seq<ShortHash>, idxs: Seq<usize>, depth: nat) -> Seq<
    ShortHash,
> {
    narrow_all(
        batch_siblings(
            ShortHasher,
            wide_all(leaves),
            keys_of(sorted_keys(idxs, idxs.len())),
            0,
            depth,
        ),
    )
}

/// The verdict on a batched proof.
pub open spec fn short_verdict(
    root: ShortHash,
    siblings: Seq<ShortHash>,
    depth: nat,
    idxs: Seq<usize>,
    hashes: Seq<ShortHash>,
) -> Result<(), MerkleBatchError> {
    batch_verdict(ShortHasher, wide(root), wide_all(siblings), depth, idxs, wide_all(hashes))
}

/// A tree of short digests.
pub struct ShortMerkleTree {
    tree: MerkleTree,
}

impl ShortMerkleTree {
    /// The leaves.
    pub closed spec fn leaves(&self) -> Seq<ShortHash> {
        narrow_all(self.tree.leaves())
    }

    /// The depth.
    pub closed spec fn depth(&self) -> nat {
        (self.tree.layers.len() - 1) as nat
    }

    /// The invariant: every node is the digest of its children.
    pub closed spec fn wf(&self) -> bool {
        &&& self.tree.layers.len() > 0
        &&& self.tree.leaves() == wide_all(self.leaves())
        &&& self.tree.of(ShortHasher, wide_all(self.leaves()), self.depth())
    }

    /// Builds the tree over a power of two of leaves.
    pub fn new(leaf_hashes: Vec<ShortHash>) -> (r: Self)
        requires
            exists|n: nat| #[trigger] pow2(n) == leaf_hashes.len(),
        ensures
            r.wf(),
            r.leaves() == leaf_hashes@,
            pow2(r.depth()) == leaf_hashes.len(),
    {
        let depth: usize = log2_usize(leaf_hashes.len());
        let leaves = widened(leaf_hashes.as_slice());
        let tree = MerkleTree::new(&ShortHasher, leaves, depth);
        proof {
            assert forall|i: int| 0 <= i < leaf_hashes.len() implies narrow_all(
                wide_all(leaf_hashes@),
            )[i] == leaf_hashes[i] by {
                lemma_narrow_wide(leaf_hashes[i]);
            }
            assert(narrow_all(wide_all(leaf_hashes@)) =~= leaf_hashes@);
        }
        ShortMerkleTree { tree }
    }

    /// The root.
    pub fn get_root(&self) -> (r: ShortHash)
        requires
            self.wf(),
        ensures
            r == short_root(self.leaves(), self.depth()),
    {
        proof {
            let depth = self.depth();
            vstd::arithmetic::power2::lemma2_to64();
            assert(self.tree.layers[depth as int].len() == pow2(0));
            assert(self.tree.layers[depth as int][0] == node(
                ShortHasher,
                wide_all(self.leaves()),
                depth,
                0,
            ));
        }
        short_hash_of(&self.tree.get_root())
    }
}

/// Builds the batched proof of the given leaves.
pub fn build_short_batched_merkle_proof(
    tree: &ShortMerkleTree,
    leaf_indices: &[usize],
    depth: usize,
) -> (r: ShortBatchedMerkleProof)
    requires
        tree.wf(),
        tree.depth() == depth,
        forall|k: int|
            0 <= k < leaf_indices.len() ==> #[trigger] leaf_indices[k] < pow2(depth as nat),
    ensures
        r.siblings@ == short_siblings(tree.leaves(), leaf_indices@, depth as nat),
{
    let batch = build_batched_merkle_proof(&ShortHasher, &tree.tree, leaf_indices, depth);
    let mut siblings: Vec<ShortHash> = Vec::new();
    let mut i: usize = 0;
    while i < batch.siblings.len()
        invariant
            i <= batch.siblings.len(),
            siblings.len() == i,
            forall|k: int| 0 <= k < i ==> #[trigger] siblings[k] == narrow(batch.siblings[k]),
        decreases batch.siblings.len() - i,
    {
        siblings.push(short_hash_of(&batch.siblings[i]));
        i += 1;
    }
    proof {
        assert(siblings@ =~= narrow_all(batch.siblings@));
    }
    ShortBatchedMerkleProof { siblings }
}

/// Verifies a batched proof.
pub fn verify_short_batched_merkle_proof(
    root: &ShortHash,
    batch: &ShortBatchedMerkleProof,
    depth: usize,
    leaf_indices: &[usize],
    leaf_hashes: &[ShortHash],
) -> (r: Result<(), MerkleBatchError>)
    ensures
        r == short_verdict(*root, batch.siblings@, depth as nat, leaf_indices@, leaf_hashes@),
{
    let top = short_hash_to_output(root);
    let siblings = widened(batch.siblings.as_slice());
    let hashes = widened(leaf_hashes);
    verify_batched_merkle_proof(
        &top,
        &BatchedMerkleProof { siblings },
        depth,
        leaf_indices,
        hashes.as_slice(),
        &ShortHasher,
    )
}

/// Every node of a tree of short digests is one.
proof fn lemma_node_short(leaves: Seq<ShortHash>, d: nat, i: int)
    requires
        d == 0 ==> 0 <= i < leaves.len(),
    ensures
        wide(narrow(node(ShortHasher, wide_all(leaves), d, i))) == node(
            ShortHasher,
            wide_all(leaves),
            d,
            i,
        ),
{
    if d == 0 {
        lemma_narrow_wide(leaves[i]);
    } else {
        let w = wide_all(leaves);
        let below = (d - 1) as nat;
        lemma_narrow_wide(
            short_digest_of(
                short_node_message(
                    narrow(node(ShortHasher, w, below, 2 * i)),
                    narrow(node(ShortHasher, w, below, 2 * i + 1)),
                ),
            ),
        );
    }
}

/// The siblings that keys lack stay in the layer.
proof fn lemma_missing_small(keys: Seq<usize>, bound: nat)
    requires
        forall|k: int| 0 <= k < keys.len() ==> #[trigger] keys[k] < 2 * bound,
    ensures
        forall|k: int|
            0 <= k < missing(keys).len() ==> 0 <= #[trigger] missing(keys)[k] < 2 * bound,
        forall|k: int| 0 <= k < parents(keys).len() ==> #[trigger] parents(keys)[k] < bound,
    decreases keys.len(),
{
    if keys.len() > 0 {
        let pair = crate::merkle::paired(keys);
        let n = if pair {
            2int
        } else {
            1int
        };
        let rest = keys.skip(n);
        assert forall|k: int| 0 <= k < rest.len() implies #[trigger] rest[k] < 2 * bound by {
            assert(rest[k] == keys[k + n]);
        }
        lemma_missing_small(rest, bound);
        assert(keys[0] < 2 * bound);
        assert forall|k: int| 0 <= k < parents(keys).len() implies #[trigger] parents(keys)[k]
            < bound by {
            if k > 0 {
                assert(parents(keys)[k] == parents(rest)[k - 1]);
            }
        }
        assert forall|k: int| 0 <= k < missing(keys).len() implies 0 <= #[trigger] missing(keys)[k]
            < 2 * bound by {
            if !pair && k > 0 {
                assert(missing(keys)[k] == missing(rest)[k - 1]);
            } else if pair {
                assert(missing(keys)[k] == missing(rest)[k]);
            }
        }
    }
}

/// Every sibling of a batched proof in a tree of short digests is one.
proof fn lemma_siblings_short(leaves: Seq<ShortHash>, keys: Seq<usize>, d: nat, depth: nat, k: int)
    requires
        d <= depth,
        leaves.len() == pow2(depth),
        forall|j: int| 0 <= j < keys.len() ==> #[trigger] keys[j] < pow2((depth - d) as nat),
        0 <= k < batch_siblings(ShortHasher, wide_all(leaves), keys, d, depth).len(),
    ensures
        ({
            let s = batch_siblings(ShortHasher, wide_all(leaves), keys, d, depth)[k];
            wide(narrow(s)) == s
        }),
    decreases depth - d,
{
    if d < depth {
        crate::mle::lemma_half_pow2((depth - d) as nat);
        lemma_missing_small(keys, pow2((depth - d - 1) as nat));
        let here = nodes_at(ShortHasher, wide_all(leaves), d, missing(keys));
        if k < here.len() {
            assert(0 <= missing(keys)[k] < 2 * pow2((depth - d - 1) as nat));
            lemma_node_short(leaves, d, missing(keys)[k]);
        } else {
            lemma_siblings_short(leaves, parents(keys), d + 1, depth, k - here.len());
        }
    }
}

/// Completeness: the proof built for some leaves of a tree is accepted with those
/// leaves against the root.
pub proof fn lemma_short_complete(
    leaves: Seq<ShortHash>,
    depth: nat,
    idxs: Seq<usize>,
    hashes: Seq<ShortHash>,
)
    requires
        leaves.len() == pow2(depth),
        idxs.len() > 0,
        idxs.len() == hashes.len(),
        forall|k: int| 0 <= k < idxs.len() ==> #[trigger] idxs[k] < pow2(depth),
        forall|k: int| 0 <= k < idxs.len() ==> #[trigger] hashes[k] == leaves[idxs[k] as int],
    ensures
        short_verdict(
            short_root(leaves, depth),
            short_siblings(leaves, idxs, depth),
            depth,
            idxs,
            hashes,
        ) == Ok::<(), MerkleBatchError>(()),
{
    let w = wide_all(leaves);
    let keys = keys_of(sorted_keys(idxs, idxs.len()));
    let sibs = batch_siblings(ShortHasher, w, keys, 0, depth);
    lemma_node_short_root(leaves, depth);
    crate::merkle::lemma_sorted_keys_distinct(idxs, idxs.len());
    assert(idxs.take(idxs.len() as int) =~= idxs);
    assert forall|j: int| 0 <= j < keys.len() implies #[trigger] keys[j] < pow2(
        (depth - 0) as nat,
    ) by {
        assert(keys.to_set().contains(keys[j]));
        let q = choose|q: int| 0 <= q < idxs.len() && idxs[q] == keys[j];
        assert(idxs[q] < pow2(depth));
    }
    assert(wide_all(narrow_all(sibs)) =~= sibs) by {
        assert forall|k: int| 0 <= k < sibs.len() implies wide_all(narrow_all(sibs))[k]
            == sibs[k] by {
            lemma_siblings_short(leaves, keys, 0, depth, k);
        }
    }
    lemma_batch_complete(ShortHasher, w, depth, idxs, wide_all(hashes));
}

/// The root of a tree of short digests is one.
proof fn lemma_node_short_root(leaves: Seq<ShortHash>, depth: nat)
    requires
        leaves.len() == pow2(depth),
    ensures
        wide(short_root(leaves, depth)) == node(ShortHasher, wide_all(leaves), depth, 0),
{
    vstd::arithmetic::power2::lemma_pow2_pos(depth);
    lemma_node_short(leaves, depth, 0);
}

} // verus!
