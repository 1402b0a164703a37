//! Merkle trees and proofs for many leaves at once.
//!
//! A batched proof holds, layer by layer from the leaves up and in increasing
//! order within a layer, the siblings that cannot be computed from the queried
//! leaves themselves.
use vstd::prelude::*;
use vstd::arithmetic::power2::pow2;
use crate::hashing::{HashOutput, same_hash};
use crate::mle::lemma_half_pow2;

verus! {

/// The hash of two child nodes.
pub trait NodeHasher {
    /// The parent of two nodes.
    spec fn parent(&self, left: HashOutput, right: HashOutput) -> HashOutput;

    /// Computes [`NodeHasher::parent`].
    fn compress(&self, left: &HashOutput, right: &HashOutput) -> (r: HashOutput)
        ensures
            r == self.parent(*left, *right),
    ;
}

/// The node with index `i` in layer `d`, counted from the leaves.
pub open spec fn node<S: NodeHasher>(s: S, leaves: Seq<HashOutput>, d: nat, i: int) -> HashOutput
    decreases d,
{
    if d == 0 {
        leaves[i]
    } else {
        s.parent(node(s, leaves, (d - 1) as nat, 2 * i), node(s, leaves, (d - 1) as nat, 2 * i + 1))
    }
}

/// A tree, as its layers from the leaves up.
#[derive(Clone, Debug, PartialEq, Eq)]
pub struct MerkleTree {
    pub layers: Vec<Vec<HashOutput>>,
}

impl MerkleTree {
    /// The tree over the given leaves.
    pub open spec fn of<S: NodeHasher>(&self, s: S, leaves: Seq<HashOutput>, depth: nat) -> bool {
        &&& leaves.len() == pow2(depth)
        &&& self.layers.len() == depth + 1
        &&& forall|d: int|
            0 <= d <= depth ==> (#[trigger] self.layers[d]).len() == pow2((depth - d) as nat)
        &&& forall|d: int, i: int|
            0 <= d <= depth && 0 <= i < pow2((depth - d) as nat)
                ==> #[trigger] self.layers[d][i] == node(s, leaves, d as nat, i)
    }

    /// The leaves of a tree.
    pub open spec fn leaves(&self) -> Seq<HashOutput> {
        self.layers[0]@
    }

    /// Builds the tree over `2^depth` leaves.
    pub fn new<S: NodeHasher>(hasher: &S, leaf_hashes: Vec<HashOutput>, depth: usize) -> (r: Self)
        requires
            leaf_hashes.len() == pow2(depth as nat),
        ensures
            r.of(*hasher, leaf_hashes@, depth as nat),
            r.leaves() == leaf_hashes@,
    {
        let ghost leaves = leaf_hashes@;
        let mut layers: Vec<Vec<HashOutput>> = Vec::new();
        layers.push(leaf_hashes);
        let mut d: usize = 0;
        while d < depth
            invariant
                d <= depth,
                leaves.len() == pow2(depth as nat),
                layers.len() == d + 1,
                layers[0]@ == leaves,
                forall|e: int|
                    0 <= e <= d ==> (#[trigger] layers[e]).len() == pow2((depth - e) as nat),
                forall|e: int, i: int|
                    0 <= e <= d && 0 <= i < pow2((depth - e) as nat)
                        ==> #[trigger] layers[e][i] == node(*hasher, leaves, e as nat, i),
            decreases depth - d,
        {
            let ghost last = layers[d as int];
            proof {
                assert(layers[d as int].len() == pow2((depth - d) as nat));
                lemma_half_pow2((depth - d) as nat);
            }
            let half: usize = layers[d].len() / 2;
            let mut next: Vec<HashOutput> = Vec::new();
            let mut i: usize = 0;
            while i < half
                invariant
                    i <= half,
                    d < depth,
                    layers.len() == d + 1,
                    layers[d as int].len() == 2 * half,
                    forall|k: int|
                        0 <= k < 2 * half ==> #[trigger] layers[d as int][k] == node(
                            *hasher,
                            leaves,
                            d as nat,
                            k,
                        ),
                    next.len() == i,
                    forall|k: int|
                        0 <= k < i ==> #[trigger] next[k] == node(
                            *hasher,
                            leaves,
                            (d + 1) as nat,
                            k,
                        ),
                decreases half - i,
            {
                proof {
                    assert(layers[d as int][2 * i as int] == node(
                        *hasher,
                        leaves,
                        d as nat,
                        2 * i as int,
                    ));
                    assert(layers[d as int][2 * i as int + 1] == node(
                        *hasher,
                        leaves,
                        d as nat,
                        2 * i as int + 1,
                    ));
                }
                let h = hasher.compress(&layers[d][2 * i], &layers[d][2 * i + 1]);
                next.push(h);
                i += 1;
            }
            layers.push(next);
            d += 1;
        }
        MerkleTree { layers }
    }

    /// The root.
    pub fn get_root(&self) -> (r: HashOutput)
        requires
            self.layers.len() > 0,
            self.layers[self.layers.len() - 1].len() > 0,
        ensures
            r == self.layers[self.layers.len() - 1][0],
    {
        self.layers[self.layers.len() - 1][0]
    }

    /// The node with the given index, at a depth counted from the root.
    pub fn get_node_at_depth(&self, depth: usize, index: usize) -> (r: HashOutput)
        requires
            depth < self.layers.len(),
            index < self.layers[self.layers.len() - 1 - depth].len(),
        ensures
            r == self.layers[self.layers.len() - 1 - depth][index as int],
    {
        self.layers[self.layers.len() - 1 - depth][index]
    }
}

/// Whether the two first keys are a left and a right child of one parent.
pub open spec fn paired(keys: Seq<usize>) -> bool {
    keys.len() >= 2 && keys[0] % 2 == 0 && keys[1] == keys[0] + 1
}

/// The other child of the parent of `i`.
pub open spec fn sibling(i: usize) -> int {
    if i % 2 == 0 {
        i + 1
    } else {
        i - 1
    }
}

/// The parents of increasing keys.
pub open spec fn parents(keys: Seq<usize>) -> Seq<usize>
    decreases keys.len(),
{
    if keys.len() == 0 {
        Seq::empty()
    } else {
        let rest = if paired(keys) {
            keys.skip(2)
        } else {
            keys.skip(1)
        };
        seq![(keys[0] / 2) as usize] + parents(rest)
    }
}

/// The siblings that are not among increasing keys.
pub open spec fn missing(keys: Seq<usize>) -> Seq<int>
    decreases keys.len(),
{
    if keys.len() == 0 {
        Seq::empty()
    } else if paired(keys) {
        missing(keys.skip(2))
    } else {
        seq![sibling(keys[0])] + missing(keys.skip(1))
    }
}

/// The nodes of a layer at the given indices.
pub open spec fn nodes_at<S: NodeHasher>(
    s: S,
    leaves: Seq<HashOutput>,
    d: nat,
    at: Seq<int>,
) -> Seq<HashOutput> {
    Seq::new(at.len(), |k: int| node(s, leaves, d, at[k]))
}

/// The siblings of a batched proof, from layer `d` on.
pub open spec fn batch_siblings<S: NodeHasher>(
    s: S,
    leaves: Seq<HashOutput>,
    keys: Seq<usize>,
    d: nat,
    depth: nat,
) -> Seq<HashOutput>
    decreases depth - d,
{
    if d >= depth {
        Seq::empty()
    } else {
        nodes_at(s, leaves, d, missing(keys)) + batch_siblings(
            s,
            leaves,
            parents(keys),
            d + 1,
            depth,
        )
    }
}

/// The value of a key.
pub open spec fn find<V>(known: Seq<(usize, V)>, i: usize) -> Option<V>
    decreases known.len(),
{
    if known.len() == 0 {
        None
    } else if known[0].0 == i {
        Some(known[0].1)
    } else {
        find(known.skip(1), i)
    }
}

/// Increasing entries with one more key.
pub open spec fn with_entry<V>(known: Seq<(usize, V)>, i: usize, v: V) -> Seq<(usize, V)>
    decreases known.len(),
{
    if known.len() == 0 || i < known[0].0 {
        seq![(i, v)] + known
    } else if i == known[0].0 {
        known
    } else {
        seq![known[0]] + with_entry(known.skip(1), i, v)
    }
}

/// Keys in increasing order.
pub open spec fn increasing<V>(known: Seq<(usize, V)>) -> bool {
    forall|a: int, b: int| 0 <= a < b < known.len() ==> known[a].0 < known[b].0
}

/// The keys of entries.
pub open spec fn keys_of<V>(known: Seq<(usize, V)>) -> Seq<usize> {
    Seq::new(known.len(), |k: int| known[k].0)
}

proof fn lemma_with_entry<V>(known: Seq<(usize, V)>, i: usize, v: V, p: int)
    requires
        increasing(known),
        0 <= p <= known.len(),
        forall|k: int| 0 <= k < p ==> known[k].0 < i,
        p < known.len() ==> known[p].0 >= i,
    ensures
        p < known.len() && known[p].0 == i ==> with_entry(known, i, v) == known && find(known, i)
            == Some(known[p].1),
        p == known.len() || known[p].0 != i ==> with_entry(known, i, v) == known.take(p).push(
            (i, v),
        ) + known.skip(p) && find(known, i) is None,
    decreases known.len(),
{
    if known.len() == 0 {
        assert(with_entry(known, i, v) =~= known.take(p).push((i, v)) + known.skip(p));
    } else if p == 0 {
        if known[0].0 != i {
            assert(with_entry(known, i, v) =~= known.take(p).push((i, v)) + known.skip(p));
            lemma_absent(known, i);
        }
    } else {
        let rest = known.skip(1);
        assert forall|k: int| 0 <= k < p - 1 implies rest[k].0 < i by {
            assert(rest[k] == known[k + 1]);
        }
        lemma_with_entry(rest, i, v, p - 1);
        if p < known.len() && known[p].0 == i {
            assert(seq![known[0]] + rest =~= known);
        } else {
            assert(seq![known[0]] + (rest.take(p - 1).push((i, v)) + rest.skip(p - 1))
                =~= known.take(p).push((i, v)) + known.skip(p));
        }
    }
}

proof fn lemma_absent<V>(known: Seq<(usize, V)>, i: usize)
    requires
        forall|k: int| 0 <= k < known.len() ==> (#[trigger] known[k]).0 != i,
    ensures
        find(known, i) is None,
    decreases known.len(),
{
    if known.len() > 0 {
        let rest = known.skip(1);
        assert forall|k: int| 0 <= k < rest.len() implies (#[trigger] rest[k]).0 != i by {
            assert(rest[k] == known[k + 1]);
        }
        lemma_absent(rest, i);
    }
}

/// The place of a key among increasing entries: the number of smaller keys.
fn lower_bound<V: Copy>(known: &Vec<(usize, V)>, i: usize) -> (p: usize)
    requires
        increasing(known@),
    ensures
        p <= known.len(),
        forall|k: int| 0 <= k < p ==> known[k].0 < i,
        p < known.len() ==> known[p as int].0 >= i,
{
    let mut p: usize = 0;
    while p < known.len() && known[p].0 < i
        invariant
            p <= known.len(),
            forall|k: int| 0 <= k < p ==> known[k].0 < i,
        decreases known.len() - p,
    {
        p += 1;
    }
    p
}

/// The entries of the queried leaves, in increasing order and each once; the
/// index of the first leaf that is queried with two digests if there is one.
pub open spec fn collected(idxs: Seq<usize>, hashes: Seq<HashOutput>, k: nat) -> Result<
    Seq<(usize, HashOutput)>,
    usize,
>
    decreases k,
{
    if k == 0 {
        Ok(Seq::empty())
    } else {
        match collected(idxs, hashes, (k - 1) as nat) {
            Err(e) => Err(e),
            Ok(known) => {
                let i = idxs[k - 1];
                match find(known, i) {
                    None => Ok(with_entry(known, i, hashes[k - 1])),
                    Some(h) => if h == hashes[k - 1] {
                        Ok(known)
                    } else {
                        Err(i)
                    },
                }
            },
        }
    }
}

/// The queried indices, in increasing order and each once.
pub open spec fn sorted_keys(idxs: Seq<usize>, k: nat) -> Seq<(usize, ())>
    decreases k,
{
    if k == 0 {
        Seq::empty()
    } else {
        with_entry(sorted_keys(idxs, (k - 1) as nat), idxs[k - 1], ())
    }
}

proof fn lemma_with_entry_increasing<V>(known: Seq<(usize, V)>, i: usize, v: V)
    requires
        increasing(known),
    ensures
        increasing(with_entry(known, i, v)),
        forall|k: int|
            0 <= k < with_entry(known, i, v).len() ==> (#[trigger] with_entry(known, i, v)[k]).0
                == i || known.contains(with_entry(known, i, v)[k]),
    decreases known.len(),
{
    let out = with_entry(known, i, v);
    if known.len() == 0 || i < known[0].0 {
        assert forall|k: int| 0 <= k < out.len() implies (#[trigger] out[k]).0 == i
            || known.contains(out[k]) by {
            if k > 0 {
                assert(out[k] == known[k - 1]);
            }
        }
    } else if i == known[0].0 {
    } else {
        let rest = known.skip(1);
        assert(increasing(rest)) by {
            assert forall|a: int, b: int| 0 <= a < b < rest.len() implies rest[a].0 < rest[b].0 by {
                assert(rest[a] == known[a + 1] && rest[b] == known[b + 1]);
            }
        }
        lemma_with_entry_increasing(rest, i, v);
        let more = with_entry(rest, i, v);
        assert forall|k: int| 0 <= k < out.len() implies (#[trigger] out[k]).0 == i
            || known.contains(out[k]) by {
            if k > 0 {
                assert(out[k] == more[k - 1]);
                if out[k].0 != i {
                    let j = choose|j: int| 0 <= j < rest.len() && rest[j] == more[k - 1];
                    assert(known[j + 1] == out[k]);
                }
            } else {
                assert(known[0] == out[0]);
            }
        }
        assert forall|a: int, b: int| 0 <= a < b < out.len() implies out[a].0 < out[b].0 by {
            assert(out[b] == more[b - 1]);
            if a == 0 {
                if out[b].0 != i {
                    let j = choose|j: int| 0 <= j < rest.len() && rest[j] == more[b - 1];
                    assert(rest[j] == known[j + 1]);
                }
            } else {
                assert(out[a] == more[a - 1]);
            }
        }
    }
}

proof fn lemma_sorted_keys_increasing(idxs: Seq<usize>, k: nat)
    requires
        k <= idxs.len(),
    ensures
        increasing(sorted_keys(idxs, k)),
        forall|j: int|
            0 <= j < sorted_keys(idxs, k).len() ==> idxs.take(k as int).contains(
                (#[trigger] sorted_keys(idxs, k)[j]).0,
            ),
    decreases k,
{
    if k > 0 {
        let prev = sorted_keys(idxs, (k - 1) as nat);
        lemma_sorted_keys_increasing(idxs, (k - 1) as nat);
        lemma_with_entry_increasing(prev, idxs[k - 1], ());
        let out = sorted_keys(idxs, k);
        assert forall|j: int| 0 <= j < out.len() implies idxs.take(k as int).contains(
            (#[trigger] out[j]).0,
        ) by {
            if out[j].0 == idxs[k - 1] {
                assert(idxs.take(k as int)[k - 1] == out[j].0);
            } else {
                let m = choose|m: int| 0 <= m < prev.len() && prev[m] == out[j];
                assert(idxs.take(k - 1).contains(prev[m].0));
                let part = idxs.take(k - 1);
                let q = choose|q: int| 0 <= q < part.len() && part[q] == prev[m].0;
                assert(idxs.take(k as int)[q] == out[j].0);
            }
        }
    }
}

/// Sorts the queried indices.
pub(crate) fn sort_indices(idxs: &[usize]) -> (r: Vec<(usize, ())>)
    ensures
        r@ == sorted_keys(idxs@, idxs.len() as nat),
        increasing(r@),
{
    let mut known: Vec<(usize, ())> = Vec::new();
    let mut k: usize = 0;
    while k < idxs.len()
        invariant
            k <= idxs.len(),
            known@ == sorted_keys(idxs@, k as nat),
            increasing(known@),
        decreases idxs.len() - k,
    {
        let i: usize = idxs[k];
        let p: usize = lower_bound(&known, i);
        proof {
            lemma_with_entry(known@, i, (), p as int);
            lemma_with_entry_increasing(known@, i, ());
        }
        if p == known.len() || known[p].0 != i {
            let ghost before = known@;
            known.insert(p, (i, ()));
            proof {
                assert(known@ =~= before.take(p as int).push((i, ())) + before.skip(p as int));
            }
        }
        k += 1;
    }
    known
}

/// The siblings of a batched proof.
#[derive(Clone, Debug, PartialEq, Eq)]
pub struct BatchedMerkleProof {
    pub siblings: Vec<HashOutput>,
}

/// The keys as a sequence without values.
proof fn lemma_keys_skip<V>(known: Seq<(usize, V)>, n: int)
    requires
        0 <= n <= known.len(),
    ensures
        keys_of(known.skip(n)) == keys_of(known).skip(n),
{
    assert(keys_of(known.skip(n)) =~= keys_of(known).skip(n));
}

/// What gives the nodes of a tree one by one.
pub trait NodeSource<S: NodeHasher> {
    /// The leaves of the tree.
    spec fn all_leaves(&self) -> Seq<HashOutput>;

    /// Whether all the nodes of a tree of the given depth can be had.
    spec fn complete(&self, s: S, depth: nat) -> bool;

    /// The node with the given index, at a depth counted from the root.
    fn node_at(&self, hasher: &S, depth: usize, at: usize, index: usize) -> (r: HashOutput)
        requires
            self.complete(*hasher, depth as nat),
            at <= depth,
            index < pow2(at as nat),
        ensures
            r == node(*hasher, self.all_leaves(), (depth - at) as nat, index as int),
    ;
}

impl<S: NodeHasher> NodeSource<S> for MerkleTree {
    open spec fn all_leaves(&self) -> Seq<HashOutput> {
        self.leaves()
    }

    open spec fn complete(&self, s: S, depth: nat) -> bool {
        self.of(s, self.leaves(), depth)
    }

    fn node_at(&self, hasher: &S, depth: usize, at: usize, index: usize) -> (r: HashOutput) {
        proof {
            assert(self.layers[depth - at].len() == pow2(at as nat));
            assert(self.layers[depth - at][index as int] == node(
                *hasher,
                self.leaves(),
                (depth - at) as nat,
                index as int,
            ));
        }
        self.get_node_at_depth(at, index)
    }
}

/// One layer of a batched proof: appends the missing siblings and returns the
/// parents.
fn build_layer<S: NodeHasher, N: NodeSource<S>>(
    hasher: &S,
    nodes: &N,
    keys: &Vec<usize>,
    d: usize,
    depth: usize,
    siblings: &mut Vec<HashOutput>,
) -> (next: Vec<usize>)
    requires
        nodes.complete(*hasher, depth as nat),
        d < depth,
        forall|k: int| 0 <= k < keys.len() ==> #[trigger] keys[k] < pow2((depth - d) as nat),
    ensures
        next@ == parents(keys@),
        final(siblings)@ == old(siblings)@ + nodes_at(
            *hasher,
            nodes.all_leaves(),
            d as nat,
            missing(keys@),
        ),
        forall|k: int| 0 <= k < next.len() ==> #[trigger] next[k] < pow2((depth - d - 1) as nat),
{
    let ghost start = siblings@;
    let ghost leaves = nodes.all_leaves();
    let mut next: Vec<usize> = Vec::new();
    let mut k: usize = 0;
    proof {
        assert(keys@.skip(0) =~= keys@);
        assert(next@ + parents(keys@) =~= parents(keys@));
        lemma_half_pow2((depth - d) as nat);
    }
    while k < keys.len()
        invariant
            k <= keys.len(),
            nodes.complete(*hasher, depth as nat),
            leaves == nodes.all_leaves(),
            d < depth,
            forall|j: int| 0 <= j < keys.len() ==> #[trigger] keys[j] < pow2((depth - d) as nat),
            pow2((depth - d) as nat) == 2 * pow2((depth - d - 1) as nat),
            next@ + parents(keys@.skip(k as int)) == parents(keys@),
            siblings@ + nodes_at(*hasher, leaves, d as nat, missing(keys@.skip(k as int))) == start
                + nodes_at(*hasher, leaves, d as nat, missing(keys@)),
            forall|j: int| 0 <= j < next.len() ==> #[trigger] next[j] < pow2((depth - d - 1) as nat),
        decreases keys.len() - k,
    {
        let ghost rest = keys@.skip(k as int);
        let i: usize = keys[k];
        let ghost before = next@;
        let ghost sib_before = siblings@;
        proof {
            assert(rest[0] == i);
            assert(keys[k as int] < pow2((depth - d) as nat));
        }
        next.push(i / 2);
        if i % 2 == 0 && k + 1 < keys.len() && keys[k + 1] == i + 1 {
            proof {
                assert(rest[1] == keys[k + 1]);
                assert(paired(rest));
                assert(rest.skip(2) =~= keys@.skip(k + 2));
                assert(next@ + parents(rest.skip(2)) =~= before + parents(rest));
            }
            k += 2;
        } else {
            let other: usize = if i % 2 == 0 {
                i + 1
            } else {
                i - 1
            };
            proof {
                if rest.len() >= 2 {
                    assert(rest[1] == keys[k + 1]);
                }
                assert(!paired(rest));
            }
            let h = nodes.node_at(hasher, depth, depth - d, other);
            siblings.push(h);
            proof {
                assert(h == node(*hasher, leaves, d as nat, other as int));
                assert(rest.skip(1) =~= keys@.skip(k + 1));
                assert(next@ + parents(rest.skip(1)) =~= before + parents(rest));
                let more = missing(rest.skip(1));
                assert(missing(rest) =~= seq![sibling(i)] + more);
                assert(siblings@ + nodes_at(*hasher, leaves, d as nat, more) =~= sib_before + nodes_at(
                    *hasher,
                    leaves,
                    d as nat,
                    missing(rest),
                ));
            }
            k += 1;
        }
    }
    proof {
        assert(keys@.skip(keys@.len() as int) =~= Seq::empty());
        assert(next@ + Seq::<usize>::empty() =~= next@);
        assert(nodes_at(*hasher, leaves, d as nat, Seq::empty()) =~= Seq::empty());
        assert(siblings@ + Seq::<HashOutput>::empty() =~= siblings@);
    }
    next
}

/// Builds the batched proof of the given leaves from single nodes.
pub fn build_batched_merkle_proof_with_getter<S: NodeHasher, N: NodeSource<S>>(
    hasher: &S,
    nodes: &N,
    leaf_indices: &[usize],
    depth: usize,
) -> (r: BatchedMerkleProof)
    requires
        nodes.complete(*hasher, depth as nat),
        forall|k: int|
            0 <= k < leaf_indices.len() ==> #[trigger] leaf_indices[k] < pow2(depth as nat),
    ensures
        r.siblings@ == batch_siblings(
            *hasher,
            nodes.all_leaves(),
            keys_of(sorted_keys(leaf_indices@, leaf_indices.len() as nat)),
            0,
            depth as nat,
        ),
{
    let ghost leaves = nodes.all_leaves();
    let entries = sort_indices(leaf_indices);
    let mut keys: Vec<usize> = Vec::new();
    let mut k: usize = 0;
    while k < entries.len()
        invariant
            k <= entries.len(),
            keys.len() == k,
            forall|j: int| 0 <= j < k ==> #[trigger] keys[j] == entries[j].0,
        decreases entries.len() - k,
    {
        keys.push(entries[k].0);
        k += 1;
    }
    let ghost all = keys_of(entries@);
    proof {
        assert(keys@ =~= all);
        lemma_sorted_keys_increasing(leaf_indices@, leaf_indices.len() as nat);
        assert forall|j: int| 0 <= j < keys.len() implies #[trigger] keys[j] < pow2(
            depth as nat,
        ) by {
            let m = leaf_indices@.take(leaf_indices.len() as int);
            assert(m.contains(entries@[j].0));
            let q = choose|q: int| 0 <= q < m.len() && m[q] == entries@[j].0;
            assert(leaf_indices@[q] == keys[j]);
        }
    }
    let mut siblings: Vec<HashOutput> = Vec::new();
    let mut d: usize = 0;
    proof {
        assert(siblings@ + batch_siblings(*hasher, leaves, keys@, 0, depth as nat)
            =~= batch_siblings(*hasher, leaves, all, 0, depth as nat));
    }
    while d < depth
        invariant
            d <= depth,
            nodes.complete(*hasher, depth as nat),
            leaves == nodes.all_leaves(),
            forall|j: int| 0 <= j < keys.len() ==> #[trigger] keys[j] < pow2((depth - d) as nat),
            siblings@ + batch_siblings(*hasher, leaves, keys@, d as nat, depth as nat)
                == batch_siblings(*hasher, leaves, all, 0, depth as nat),
        decreases depth - d,
    {
        let ghost before = siblings@;
        let ghost old_keys = keys@;
        keys = build_layer(hasher, nodes, &keys, d, depth, &mut siblings);
        proof {
            assert(siblings@ + batch_siblings(
                *hasher,
                leaves,
                keys@,
                (d + 1) as nat,
                depth as nat,
            ) =~= before + batch_siblings(*hasher, leaves, old_keys, d as nat, depth as nat));
        }
        d += 1;
    }
    proof {
        assert(siblings@ + Seq::<HashOutput>::empty() =~= siblings@);
    }
    BatchedMerkleProof { siblings }
}

/// Builds the batched proof of the given leaves.
pub fn build_batched_merkle_proof<S: NodeHasher>(
    hasher: &S,
    tree: &MerkleTree,
    leaf_indices: &[usize],
    depth: usize,
) -> (r: BatchedMerkleProof)
    requires
        tree.of(*hasher, tree.leaves(), depth as nat),
        forall|k: int|
            0 <= k < leaf_indices.len() ==> #[trigger] leaf_indices[k] < pow2(depth as nat),
    ensures
        r.siblings@ == batch_siblings(
            *hasher,
            tree.leaves(),
            keys_of(sorted_keys(leaf_indices@, leaf_indices.len() as nat)),
            0,
            depth as nat,
        ),
{
    build_batched_merkle_proof_with_getter(hasher, tree, leaf_indices, depth)
}

/// Why a batched proof was refused.
#[derive(Clone, Copy, Debug, PartialEq, Eq, Structural)]
pub enum MerkleBatchError {
    /// There are not as many leaf digests as leaf indices.
    CountMismatch,
    /// One leaf is given with two digests.
    InconsistentLeaf { index: usize },
    /// The siblings do not suffice for a layer.
    InsufficientSiblings { layer: usize },
    /// No node was computed at the place of the root.
    MissingRoot,
    /// The computed root is another one.
    RootMismatch,
    /// Not all the siblings were used.
    UnusedSiblings { consumed: usize, total: usize },
}

/// One layer of the verifier: the parents of the known nodes, and the siblings
/// that are left.
pub open spec fn climb<S: NodeHasher>(
    s: S,
    known: Seq<(usize, HashOutput)>,
    sibs: Seq<HashOutput>,
) -> Option<(Seq<(usize, HashOutput)>, Seq<HashOutput>)>
    decreases known.len(),
{
    if known.len() == 0 {
        Some((Seq::empty(), sibs))
    } else {
        let (i, h) = known[0];
        if paired(keys_of(known)) {
            match climb(s, known.skip(2), sibs) {
                None => None,
                Some((up, rest)) => Some(
                    (seq![((i / 2) as usize, s.parent(h, known[1].1))] + up, rest),
                ),
            }
        } else if sibs.len() == 0 {
            None
        } else {
            let p = if i % 2 == 0 {
                s.parent(h, sibs[0])
            } else {
                s.parent(sibs[0], h)
            };
            match climb(s, known.skip(1), sibs.skip(1)) {
                None => None,
                Some((up, rest)) => Some((seq![((i / 2) as usize, p)] + up, rest)),
            }
        }
    }
}

/// All the layers from `d` on; on failure, the layer that lacked a sibling.
pub open spec fn ascend<S: NodeHasher>(
    s: S,
    known: Seq<(usize, HashOutput)>,
    sibs: Seq<HashOutput>,
    d: nat,
    depth: nat,
) -> Result<(Seq<(usize, HashOutput)>, Seq<HashOutput>), nat>
    decreases depth - d,
{
    if d >= depth {
        Ok((known, sibs))
    } else {
        match climb(s, known, sibs) {
            None => Err(d),
            Some((up, rest)) => ascend(s, up, rest, d + 1, depth),
        }
    }
}

/// The verdict on a batched proof.
pub open spec fn batch_verdict<S: NodeHasher>(
    s: S,
    root: HashOutput,
    sibs: Seq<HashOutput>,
    depth: nat,
    idxs: Seq<usize>,
    hashes: Seq<HashOutput>,
) -> Result<(), MerkleBatchError> {
    if idxs.len() != hashes.len() {
        Err(MerkleBatchError::CountMismatch)
    } else {
        match collected(idxs, hashes, idxs.len()) {
            Err(index) => Err(MerkleBatchError::InconsistentLeaf { index }),
            Ok(known) => match ascend(s, known, sibs, 0, depth) {
                Err(layer) => Err(
                    MerkleBatchError::InsufficientSiblings { layer: layer as usize },
                ),
                Ok((top, rest)) => match find(top, 0) {
                    None => Err(MerkleBatchError::MissingRoot),
                    Some(h) => if h != root {
                        Err(MerkleBatchError::RootMismatch)
                    } else if rest.len() > 0 {
                        Err(
                            MerkleBatchError::UnusedSiblings {
                                consumed: (sibs.len() - rest.len()) as usize,
                                total: sibs.len() as usize,
                            },
                        )
                    } else {
                        Ok(())
                    },
                },
            },
        }
    }
}

/// Collects the queried leaves.
fn collect_leaves(idxs: &[usize], hashes: &[HashOutput]) -> (r: Result<
    Vec<(usize, HashOutput)>,
    usize,
>)
    requires
        idxs.len() == hashes.len(),
    ensures
        match r {
            Ok(known) => collected(idxs@, hashes@, idxs.len() as nat) == Ok::<
                Seq<(usize, HashOutput)>,
                usize,
            >(known@) && increasing(known@),
            Err(e) => collected(idxs@, hashes@, idxs.len() as nat) == Err::<
                Seq<(usize, HashOutput)>,
                usize,
            >(e),
        },
{
    let mut known: Vec<(usize, HashOutput)> = Vec::new();
    let mut k: usize = 0;
    while k < idxs.len()
        invariant
            k <= idxs.len(),
            idxs.len() == hashes.len(),
            collected(idxs@, hashes@, k as nat) == Ok::<Seq<(usize, HashOutput)>, usize>(known@),
            increasing(known@),
        decreases idxs.len() - k,
    {
        let i: usize = idxs[k];
        let p: usize = lower_bound(&known, i);
        proof {
            lemma_with_entry(known@, i, hashes@[k as int], p as int);
            lemma_with_entry_increasing(known@, i, hashes@[k as int]);
        }
        if p == known.len() || known[p].0 != i {
            let ghost before = known@;
            known.insert(p, (i, hashes[k]));
            proof {
                assert(known@ =~= before.take(p as int).push((i, hashes@[k as int])) + before.skip(
                    p as int,
                ));
            }
        } else if !same_hash(&known[p].1, &hashes[k]) {
            proof {
                lemma_collected_error(idxs@, hashes@, (k + 1) as nat, idxs.len() as nat);
            }
            return Err(i);
        }
        k += 1;
    }
    Ok(known)
}

proof fn lemma_collected_error(idxs: Seq<usize>, hashes: Seq<HashOutput>, k: nat, n: nat)
    requires
        k <= n,
        collected(idxs, hashes, k) is Err,
    ensures
        collected(idxs, hashes, n) == collected(idxs, hashes, k),
    decreases n,
{
    if k < n {
        lemma_collected_error(idxs, hashes, k, (n - 1) as nat);
    }
}

/// One layer of the verifier; returns the parents and the number of siblings
/// used so far.
fn climb_layer<S: NodeHasher>(
    hasher: &S,
    known: &Vec<(usize, HashOutput)>,
    sibs: &[HashOutput],
    cursor: usize,
) -> (r: Option<(Vec<(usize, HashOutput)>, usize)>)
    requires
        cursor <= sibs.len(),
    ensures
        match r {
            None => climb(*hasher, known@, sibs@.skip(cursor as int)) is None,
            Some((up, c)) => c <= sibs.len() && climb(*hasher, known@, sibs@.skip(cursor as int))
                == Some((up@, sibs@.skip(c as int))),
        },
{
    let ghost want = climb(*hasher, known@, sibs@.skip(cursor as int));
    let mut up: Vec<(usize, HashOutput)> = Vec::new();
    let mut c: usize = cursor;
    let mut k: usize = 0;
    proof {
        assert(known@.skip(0) =~= known@);
        if want is Some {
            let (all, rest) = want->0;
            assert(up@ + all =~= all);
        }
    }
    while k < known.len()
        invariant
            k <= known.len(),
            c <= sibs.len(),
            want == climb(*hasher, known@, sibs@.skip(cursor as int)),
            match climb(*hasher, known@.skip(k as int), sibs@.skip(c as int)) {
                None => want is None,
                Some((more, rest)) => want == Some((up@ + more, rest)),
            },
        decreases known.len() - k,
    {
        let ghost left = known@.skip(k as int);
        let ghost rest_sibs = sibs@.skip(c as int);
        let ghost before = up@;
        let (i, h) = known[k];
        proof {
            assert(left[0] == known@[k as int]);
            assert(keys_of(left)[0] == i);
        }
        if i % 2 == 0 && k + 1 < known.len() && known[k + 1].0 == i + 1 {
            let p = hasher.compress(&h, &known[k + 1].1);
            up.push((i / 2, p));
            proof {
                assert(left[1] == known@[k + 1]);
                assert(keys_of(left)[1] == i + 1);
                assert(paired(keys_of(left)));
                assert(left.skip(2) =~= known@.skip(k + 2));
                match climb(*hasher, left.skip(2), rest_sibs) {
                    None => {},
                    Some((more, rest)) => {
                        assert(up@ + more =~= before + (seq![(i / 2, p)] + more));
                    },
                }
            }
            k += 2;
        } else {
            proof {
                if left.len() >= 2 {
                    assert(left[1] == known@[k + 1]);
                    assert(keys_of(left)[1] == known@[k + 1].0);
                }
                assert(!paired(keys_of(left)));
            }
            if c >= sibs.len() {
                proof {
                    assert(rest_sibs.len() == 0);
                    assert(climb(*hasher, left, rest_sibs) is None);
                }
                return None;
            }
            let s = sibs[c];
            let p = if i % 2 == 0 {
                hasher.compress(&h, &s)
            } else {
                hasher.compress(&s, &h)
            };
            up.push((i / 2, p));
            proof {
                assert(rest_sibs[0] == s);
                assert(rest_sibs.skip(1) =~= sibs@.skip(c + 1));
                assert(left.skip(1) =~= known@.skip(k + 1));
                match climb(*hasher, left.skip(1), rest_sibs.skip(1)) {
                    None => {},
                    Some((more, rest)) => {
                        assert(up@ + more =~= before + (seq![(i / 2, p)] + more));
                    },
                }
            }
            c += 1;
            k += 1;
        }
    }
    proof {
        assert(known@.skip(known@.len() as int) =~= Seq::empty());
        assert(up@ + Seq::<(usize, HashOutput)>::empty() =~= up@);
    }
    Some((up, c))
}

/// Looks a key up among entries.
fn lookup(known: &Vec<(usize, HashOutput)>, i: usize) -> (r: Option<HashOutput>)
    ensures
        r == find(known@, i),
{
    let mut k: usize = 0;
    proof {
        assert(known@.skip(0) =~= known@);
    }
    while k < known.len()
        invariant
            k <= known.len(),
            find(known@.skip(k as int), i) == find(known@, i),
        decreases known.len() - k,
    {
        let ghost left = known@.skip(k as int);
        proof {
            assert(left[0] == known@[k as int]);
            assert(left.skip(1) =~= known@.skip(k + 1));
        }
        if known[k].0 == i {
            return Some(known[k].1);
        }
        k += 1;
    }
    None
}

/// Checks a batched proof against a root.
pub fn verify_batched_merkle_proof<S: NodeHasher>(
    root: &HashOutput,
    batch: &BatchedMerkleProof,
    depth: usize,
    leaf_indices: &[usize],
    leaf_hashes: &[HashOutput],
    hasher: &S,
) -> (r: Result<(), MerkleBatchError>)
    ensures
        r == batch_verdict(
            *hasher,
            *root,
            batch.siblings@,
            depth as nat,
            leaf_indices@,
            leaf_hashes@,
        ),
{
    if leaf_indices.len() != leaf_hashes.len() {
        return Err(MerkleBatchError::CountMismatch);
    }
    let mut known = match collect_leaves(leaf_indices, leaf_hashes) {
        Ok(known) => known,
        Err(index) => {
            return Err(MerkleBatchError::InconsistentLeaf { index });
        },
    };
    let sibs = batch.siblings.as_slice();
    let ghost first = known@;
    let mut cursor: usize = 0;
    let mut d: usize = 0;
    proof {
        assert(sibs@.skip(0) =~= sibs@);
    }
    while d < depth
        invariant
            d <= depth,
            cursor <= sibs.len(),
            ascend(*hasher, known@, sibs@.skip(cursor as int), d as nat, depth as nat) == ascend(
                *hasher,
                first,
                sibs@,
                0,
                depth as nat,
            ),
            sibs@ == batch.siblings@,
            leaf_indices.len() == leaf_hashes.len(),
            collected(leaf_indices@, leaf_hashes@, leaf_indices.len() as nat) == Ok::<
                Seq<(usize, HashOutput)>,
                usize,
            >(first),
        decreases depth - d,
    {
        match climb_layer(hasher, &known, sibs, cursor) {
            Some((up, c)) => {
                known = up;
                cursor = c;
            },
            None => {
                return Err(MerkleBatchError::InsufficientSiblings { layer: d });
            },
        }
        d += 1;
    }
    match lookup(&known, 0) {
        None => Err(MerkleBatchError::MissingRoot),
        Some(h) => {
            if !same_hash(&h, root) {
                Err(MerkleBatchError::RootMismatch)
            } else if cursor != sibs.len() {
                Err(MerkleBatchError::UnusedSiblings { consumed: cursor, total: sibs.len() })
            } else {
                Ok(())
            }
        },
    }
}

/// Every entry is a node of the tree.
pub open spec fn entries_hold<S: NodeHasher>(
    s: S,
    leaves: Seq<HashOutput>,
    d: nat,
    known: Seq<(usize, HashOutput)>,
) -> bool {
    forall|k: int|
        0 <= k < known.len() ==> (#[trigger] known[k]).1 == node(s, leaves, d, known[k].0 as int)
}

/// One layer of an honest proof.
proof fn lemma_climb_honest<S: NodeHasher>(
    s: S,
    leaves: Seq<HashOutput>,
    d: nat,
    known: Seq<(usize, HashOutput)>,
    more: Seq<HashOutput>,
)
    requires
        entries_hold(s, leaves, d, known),
    ensures
        ({
            let sibs = nodes_at(s, leaves, d, missing(keys_of(known))) + more;
            match climb(s, known, sibs) {
                None => false,
                Some((up, rest)) => rest == more && entries_hold(s, leaves, d + 1, up) && keys_of(
                    up,
                ) == parents(keys_of(known)),
            }
        }),
    decreases known.len(),
{
    let keys = keys_of(known);
    let sibs = nodes_at(s, leaves, d, missing(keys)) + more;
    if known.len() == 0 {
        assert(sibs =~= more);
        assert(keys_of(Seq::<(usize, HashOutput)>::empty()) =~= Seq::empty());
    } else {
        let (i, h) = known[0];
        assert(h == node(s, leaves, d, i as int));
        if paired(keys) {
            let tail = known.skip(2);
            lemma_keys_skip(known, 2);
            assert forall|k: int| 0 <= k < tail.len() implies (#[trigger] tail[k]).1 == node(
                s,
                leaves,
                d,
                tail[k].0 as int,
            ) by {
                assert(tail[k] == known[k + 2]);
            }
            lemma_climb_honest(s, leaves, d, tail, more);
            let (up, rest) = climb(s, tail, sibs)->0;
            assert(known[1].1 == node(s, leaves, d, known[1].0 as int));
            let p = s.parent(h, known[1].1);
            let out = seq![((i / 2) as usize, p)] + up;
            assert(keys[1] == known[1].0);
            assert(p == node(s, leaves, d + 1, (i / 2) as int)) by {
                assert(2 * (i / 2) as int == i as int);
            }
            assert forall|k: int| 0 <= k < out.len() implies (#[trigger] out[k]).1 == node(
                s,
                leaves,
                d + 1,
                out[k].0 as int,
            ) by {
                if k > 0 {
                    assert(out[k] == up[k - 1]);
                }
            }
            assert(keys_of(out) =~= parents(keys));
        } else {
            let tail = known.skip(1);
            lemma_keys_skip(known, 1);
            assert forall|k: int| 0 <= k < tail.len() implies (#[trigger] tail[k]).1 == node(
                s,
                leaves,
                d,
                tail[k].0 as int,
            ) by {
                assert(tail[k] == known[k + 1]);
            }
            let m = missing(keys.skip(1));
            assert(missing(keys) =~= seq![sibling(i)] + m);
            let sib = node(s, leaves, d, sibling(i));
            assert(sibs.skip(1) =~= nodes_at(s, leaves, d, m) + more);
            assert(sibs[0] == sib);
            lemma_climb_honest(s, leaves, d, tail, more);
            let (up, rest) = climb(s, tail, sibs.skip(1))->0;
            let p = if i % 2 == 0 {
                s.parent(h, sib)
            } else {
                s.parent(sib, h)
            };
            assert(p == node(s, leaves, d + 1, (i / 2) as int)) by {
                if i % 2 == 0 {
                    assert(2 * (i / 2) as int == i as int);
                } else {
                    assert(2 * (i / 2) as int + 1 == i as int);
                }
            }
            let out = seq![((i / 2) as usize, p)] + up;
            assert forall|k: int| 0 <= k < out.len() implies (#[trigger] out[k]).1 == node(
                s,
                leaves,
                d + 1,
                out[k].0 as int,
            ) by {
                if k > 0 {
                    assert(out[k] == up[k - 1]);
                }
            }
            assert(keys_of(out) =~= parents(keys));
        }
    }
}

/// Parents of small keys are smaller, and there is one if there was a key.
proof fn lemma_parents_small(keys: Seq<usize>, bound: nat)
    requires
        forall|k: int| 0 <= k < keys.len() ==> #[trigger] keys[k] < 2 * bound,
    ensures
        forall|k: int| 0 <= k < parents(keys).len() ==> #[trigger] parents(keys)[k] < bound,
        keys.len() > 0 ==> parents(keys).len() > 0,
    decreases keys.len(),
{
    if keys.len() > 0 {
        let rest = if paired(keys) {
            keys.skip(2)
        } else {
            keys.skip(1)
        };
        let n = keys.len() - rest.len();
        assert forall|k: int| 0 <= k < rest.len() implies #[trigger] rest[k] < 2 * bound by {
            assert(rest[k] == keys[k + n]);
        }
        lemma_parents_small(rest, bound);
        assert(keys[0] < 2 * bound);
        let out = parents(keys);
        assert forall|k: int| 0 <= k < out.len() implies #[trigger] out[k] < bound by {
            if k > 0 {
                assert(out[k] == parents(rest)[k - 1]);
            }
        }
    }
}

/// All the layers of an honest proof lead to the root.
proof fn lemma_ascend_honest<S: NodeHasher>(
    s: S,
    leaves: Seq<HashOutput>,
    known: Seq<(usize, HashOutput)>,
    d: nat,
    depth: nat,
)
    requires
        d <= depth,
        known.len() > 0,
        entries_hold(s, leaves, d, known),
        forall|k: int|
            0 <= k < known.len() ==> (#[trigger] known[k]).0 < pow2((depth - d) as nat),
    ensures
        ({
            let sibs = batch_siblings(s, leaves, keys_of(known), d, depth);
            match ascend(s, known, sibs, d, depth) {
                Err(_) => false,
                Ok((top, rest)) => rest.len() == 0 && find(top, 0) == Some(
                    node(s, leaves, depth, 0),
                ),
            }
        }),
    decreases depth - d,
{
    let keys = keys_of(known);
    if d == depth {
        vstd::arithmetic::power2::lemma2_to64();
        assert(known[0].0 < 1);
        assert(known[0].1 == node(s, leaves, d, known[0].0 as int));
    } else {
        let more = batch_siblings(s, leaves, parents(keys), d + 1, depth);
        lemma_climb_honest(s, leaves, d, known, more);
        let sibs = nodes_at(s, leaves, d, missing(keys)) + more;
        let (up, rest) = climb(s, known, sibs)->0;
        lemma_half_pow2((depth - d) as nat);
        assert forall|k: int| 0 <= k < keys.len() implies #[trigger] keys[k] < 2 * pow2(
            (depth - d - 1) as nat,
        ) by {
            assert(known[k].0 < pow2((depth - d) as nat));
        }
        lemma_parents_small(keys, pow2((depth - d - 1) as nat));
        assert(keys_of(up).len() == up.len());
        assert forall|k: int| 0 <= k < up.len() implies (#[trigger] up[k]).0 < pow2(
            (depth - (d + 1)) as nat,
        ) by {
            assert(keys_of(up)[k] == up[k].0);
        }
        lemma_ascend_honest(s, leaves, up, d + 1, depth);
    }
}

/// Consistent digests are collected without error, and the keys are the sorted
/// indices.
proof fn lemma_collected_honest<S: NodeHasher>(
    s: S,
    leaves: Seq<HashOutput>,
    idxs: Seq<usize>,
    hashes: Seq<HashOutput>,
    k: nat,
)
    requires
        k <= idxs.len(),
        idxs.len() == hashes.len(),
        forall|j: int| 0 <= j < idxs.len() ==> #[trigger] hashes[j] == leaves[idxs[j] as int],
    ensures
        match collected(idxs, hashes, k) {
            Err(_) => false,
            Ok(known) => {
                &&& keys_of(known) == keys_of(sorted_keys(idxs, k))
                &&& entries_hold(s, leaves, 0, known)
                &&& increasing(known)
            },
        },
        k > 0 ==> sorted_keys(idxs, k).len() > 0,
    decreases k,
{
    if k == 0 {
        assert(keys_of(Seq::<(usize, HashOutput)>::empty()) =~= keys_of(
            Seq::<(usize, ())>::empty(),
        ));
    } else {
        let j = (k - 1) as nat;
        lemma_collected_honest(s, leaves, idxs, hashes, j);
        lemma_sorted_keys_increasing(idxs, j);
        let known = collected(idxs, hashes, j)->Ok_0;
        let plain = sorted_keys(idxs, j);
        let i = idxs[k - 1];
        let h = hashes[k - 1];
        assert(h == leaves[i as int]);
        lemma_place(known, i);
        let p = place(known, i);
        lemma_with_entry(known, i, h, p);
        lemma_with_entry_increasing(known, i, h);
        assert(known.len() == plain.len()) by {
            assert(keys_of(known).len() == keys_of(plain).len());
        }
        assert forall|m: int| 0 <= m < known.len() implies known[m].0 == plain[m].0 by {
            assert(keys_of(known)[m] == keys_of(plain)[m]);
        }
        lemma_with_entry(plain, i, (), p);
        if p < known.len() && known[p].0 == i {
            assert(known[p].1 == node(s, leaves, 0, known[p].0 as int));
            assert(keys_of(plain) =~= keys_of(known));
        } else {
            let out = known.take(p).push((i, h)) + known.skip(p);
            let flat = plain.take(p).push((i, ())) + plain.skip(p);
            assert(keys_of(out) =~= keys_of(flat)) by {
                assert forall|m: int| 0 <= m < out.len() implies out[m].0 == flat[m].0 by {}
            }
            assert forall|m: int| 0 <= m < out.len() implies (#[trigger] out[m]).1 == node(
                s,
                leaves,
                0,
                out[m].0 as int,
            ) by {
                if m < p {
                    assert(out[m] == known[m]);
                } else if m > p {
                    assert(out[m] == known[m - 1]);
                }
            }
        }
    }
}

/// There is one sorted key for every distinct index.
pub proof fn lemma_sorted_keys_distinct(idxs: Seq<usize>, k: nat)
    requires
        k <= idxs.len(),
    ensures
        increasing(sorted_keys(idxs, k)),
        keys_of(sorted_keys(idxs, k)).to_set() == idxs.take(k as int).to_set(),
        sorted_keys(idxs, k).len() == idxs.take(k as int).to_set().len(),
    decreases k,
{
    let keys = keys_of(sorted_keys(idxs, k));
    let seen = idxs.take(k as int);
    lemma_sorted_keys_increasing(idxs, k);
    if k > 0 {
        let j = (k - 1) as nat;
        lemma_sorted_keys_distinct(idxs, j);
        lemma_sorted_keys_increasing(idxs, j);
        let prev = sorted_keys(idxs, j);
        let before = idxs.take(j as int);
        let i = idxs[k - 1];
        lemma_place(prev, i);
        let p = place(prev, i);
        lemma_with_entry(prev, i, (), p);
        assert forall|x: usize| seen.to_set().contains(x) implies keys.to_set().contains(x) by {
            let q = choose|q: int| 0 <= q < seen.len() && seen[q] == x;
            let out = sorted_keys(idxs, k);
            if q < j {
                assert(before[q] == x);
                assert(before.to_set().contains(x));
                assert(keys_of(prev).to_set().contains(x));
                let m = choose|m: int| 0 <= m < prev.len() && keys_of(prev)[m] == x;
                if p < prev.len() && prev[p].0 == i {
                    assert(keys[m] == x);
                } else if m < p {
                    assert(out[m] == prev[m]);
                    assert(keys[m] == x);
                } else {
                    assert(out[m + 1] == prev[m]);
                    assert(keys[m + 1] == x);
                }
            } else {
                assert(x == i);
                assert(out[p].0 == i);
                assert(keys[p] == i);
            }
        }
    }
    assert forall|x: usize| keys.to_set().contains(x) implies seen.to_set().contains(x) by {
        let q = choose|q: int| 0 <= q < keys.len() && keys[q] == x;
        assert(seen.contains(sorted_keys(idxs, k)[q].0));
    }
    assert(keys.to_set() =~= seen.to_set());
    assert(keys.no_duplicates());
    keys.unique_seq_to_set();
}

/// The number of keys below `i`.
spec fn place<V>(known: Seq<(usize, V)>, i: usize) -> int
    decreases known.len(),
{
    if known.len() == 0 || known[0].0 >= i {
        0
    } else {
        1 + place(known.skip(1), i)
    }
}

proof fn lemma_place<V>(known: Seq<(usize, V)>, i: usize)
    ensures
        0 <= place(known, i) <= known.len(),
        forall|k: int| 0 <= k < place(known, i) ==> known[k].0 < i,
        place(known, i) < known.len() ==> known[place(known, i)].0 >= i,
    decreases known.len(),
{
    if !(known.len() == 0 || known[0].0 >= i) {
        let rest = known.skip(1);
        lemma_place(rest, i);
        let q = place(rest, i);
        assert forall|k: int| 0 <= k < q + 1 implies known[k].0 < i by {
            if k > 0 {
                assert(known[k] == rest[k - 1]);
            }
        }
        if q + 1 < known.len() {
            assert(known[q + 1] == rest[q]);
        }
    }
}

/// Completeness: the proof built for some leaves of a tree is accepted with
/// those leaves' digests against the root.
pub proof fn lemma_batch_complete<S: NodeHasher>(
    s: S,
    leaves: Seq<HashOutput>,
    depth: nat,
    idxs: Seq<usize>,
    hashes: Seq<HashOutput>,
)
    requires
        leaves.len() == pow2(depth),
        idxs.len() > 0,
        idxs.len() == hashes.len(),
        forall|k: int| 0 <= k < idxs.len() ==> #[trigger] idxs[k] < pow2(depth),
        forall|k: int| 0 <= k < idxs.len() ==> #[trigger] hashes[k] == leaves[idxs[k] as int],
    ensures
        batch_verdict(
            s,
            node(s, leaves, depth, 0),
            batch_siblings(s, leaves, keys_of(sorted_keys(idxs, idxs.len())), 0, depth),
            depth,
            idxs,
            hashes,
        ) == Ok::<(), MerkleBatchError>(()),
{
    let n = idxs.len();
    lemma_collected_honest(s, leaves, idxs, hashes, n);
    lemma_sorted_keys_increasing(idxs, n);
    let known = collected(idxs, hashes, n)->Ok_0;
    let plain = sorted_keys(idxs, n);
    assert(keys_of(known).len() == keys_of(plain).len());
    assert forall|k: int| 0 <= k < known.len() implies (#[trigger] known[k]).0 < pow2(
        (depth - 0) as nat,
    ) by {
        assert(keys_of(known)[k] == keys_of(plain)[k]);
        assert(idxs.take(n as int).contains(plain[k].0));
        let part = idxs.take(n as int);
        let q = choose|q: int| 0 <= q < part.len() && part[q] == plain[k].0;
        assert(idxs[q] < pow2(depth));
    }
    lemma_ascend_honest(s, leaves, known, 0, depth);
}

/// The pairs that one layer of the verifier hashes, each with the place of its
/// parent.
pub open spec fn hashed_pairs(known: Seq<(usize, HashOutput)>, sibs: Seq<HashOutput>) -> Seq<
    (int, HashOutput, HashOutput),
>
    decreases known.len(),
{
    if known.len() == 0 {
        Seq::empty()
    } else {
        let (i, h) = known[0];
        if paired(keys_of(known)) {
            seq![((i / 2) as int, h, known[1].1)] + hashed_pairs(known.skip(2), sibs)
        } else if i % 2 == 0 {
            seq![((i / 2) as int, h, sibs[0])] + hashed_pairs(known.skip(1), sibs.skip(1))
        } else {
            seq![((i / 2) as int, sibs[0], h)] + hashed_pairs(known.skip(1), sibs.skip(1))
        }
    }
}

/// Whether no pair that the verifier hashes in layer `d` collides with the two
/// nodes of the tree in its place.
pub open spec fn layer_free<S: NodeHasher>(
    s: S,
    leaves: Seq<HashOutput>,
    d: nat,
    known: Seq<(usize, HashOutput)>,
    sibs: Seq<HashOutput>,
) -> bool {
    forall|m: int|
        0 <= m < hashed_pairs(known, sibs).len() ==> {
            let (i, left, right) = #[trigger] hashed_pairs(known, sibs)[m];
            let (l, r) = (node(s, leaves, d, 2 * i), node(s, leaves, d, 2 * i + 1));
            s.parent(left, right) == s.parent(l, r) ==> left == l && right == r
        }
}

/// Whether the verifier meets no collision with the tree from layer `d` on.
pub open spec fn collision_free<S: NodeHasher>(
    s: S,
    leaves: Seq<HashOutput>,
    known: Seq<(usize, HashOutput)>,
    sibs: Seq<HashOutput>,
    d: nat,
    depth: nat,
) -> bool
    decreases depth - d,
{
    d < depth ==> {
        &&& layer_free(s, leaves, d, known, sibs)
        &&& climb(s, known, sibs) matches Some((up, rest)) ==> collision_free(
            s,
            leaves,
            up,
            rest,
            d + 1,
            depth,
        )
    }
}

/// The parents of the known nodes.
spec fn climbed<S: NodeHasher>(
    s: S,
    known: Seq<(usize, HashOutput)>,
    sibs: Seq<HashOutput>,
) -> Seq<(usize, HashOutput)> {
    match climb(s, known, sibs) {
        None => Seq::empty(),
        Some((up, _)) => up,
    }
}

/// If the parents are nodes of the tree, then so are the children.
proof fn lemma_climb_bound<S: NodeHasher>(
    s: S,
    leaves: Seq<HashOutput>,
    d: nat,
    known: Seq<(usize, HashOutput)>,
    sibs: Seq<HashOutput>,
)
    requires
        climb(s, known, sibs) is Some,
        entries_hold(s, leaves, d + 1, climbed(s, known, sibs)),
        layer_free(s, leaves, d, known, sibs),
    ensures
        entries_hold(s, leaves, d, known),
    decreases known.len(),
{
    if known.len() > 0 {
        let keys = keys_of(known);
        let (i, h) = known[0];
        let out = climbed(s, known, sibs);
        let pairs = hashed_pairs(known, sibs);
        let (size, tail, left_sibs) = if paired(keys) {
            (2int, known.skip(2), sibs)
        } else {
            (1int, known.skip(1), sibs.skip(1))
        };
        let (up, rest) = climb(s, tail, left_sibs)->0;
        let more = hashed_pairs(tail, left_sibs);
        assert(pairs[0].0 == i / 2);
        assert(out[0].1 == node(s, leaves, d + 1, out[0].0 as int));
        assert(out[0].1 == s.parent(pairs[0].1, pairs[0].2));
        let (l, r) = (node(s, leaves, d, 2 * (i / 2)), node(s, leaves, d, 2 * (i / 2) + 1));
        assert(s.parent(l, r) == node(s, leaves, d + 1, (i / 2) as int));
        assert(pairs[0].1 == l && pairs[0].2 == r);
        assert(out =~= seq![out[0]] + up);
        assert(entries_hold(s, leaves, d + 1, up)) by {
            assert forall|k: int| 0 <= k < up.len() implies (#[trigger] up[k]).1 == node(
                s,
                leaves,
                d + 1,
                up[k].0 as int,
            ) by {
                assert(out[k + 1] == up[k]);
            }
        }
        assert(layer_free(s, leaves, d, tail, left_sibs)) by {
            assert forall|m: int| 0 <= m < more.len() implies {
                let (i, left, right) = #[trigger] more[m];
                let (l, r) = (node(s, leaves, d, 2 * i), node(s, leaves, d, 2 * i + 1));
                s.parent(left, right) == s.parent(l, r) ==> left == l && right == r
            } by {
                assert(pairs[m + 1] == more[m]);
            }
        }
        lemma_climb_bound(s, leaves, d, tail, left_sibs);
        assert forall|k: int| 0 <= k < known.len() implies (#[trigger] known[k]).1 == node(
            s,
            leaves,
            d,
            known[k].0 as int,
        ) by {
            if k >= size {
                assert(known[k] == tail[k - size]);
            } else if k == 1 {
                assert(keys[1] == known[1].0);
            } else if i % 2 == 0 {
                assert(2 * (i / 2) == i);
            } else {
                assert(2 * (i / 2) + 1 == i);
            }
        }
    }
}

/// A layer of the verifier keeps the keys in order, below half the bound.
proof fn lemma_climb_keys<S: NodeHasher>(
    s: S,
    known: Seq<(usize, HashOutput)>,
    sibs: Seq<HashOutput>,
    bound: nat,
)
    requires
        increasing(known),
        climb(s, known, sibs) is Some,
        forall|k: int| 0 <= k < known.len() ==> (#[trigger] known[k]).0 < 2 * bound,
    ensures
        increasing(climbed(s, known, sibs)),
        known.len() > 0 ==> climbed(s, known, sibs).len() > 0,
        forall|k: int|
            0 <= k < climbed(s, known, sibs).len() ==> {
                let e = #[trigger] climbed(s, known, sibs)[k];
                e.0 < bound && known[0].0 / 2 <= e.0
            },
    decreases known.len(),
{
    if known.len() > 0 {
        let keys = keys_of(known);
        let out = climbed(s, known, sibs);
        let (size, tail, left_sibs) = if paired(keys) {
            (2int, known.skip(2), sibs)
        } else {
            (1int, known.skip(1), sibs.skip(1))
        };
        let up = climbed(s, tail, left_sibs);
        assert(out =~= seq![out[0]] + up);
        assert(out[0].0 == known[0].0 / 2);
        assert forall|a: int, b: int| 0 <= a < b < tail.len() implies tail[a].0 < tail[b].0 by {
            assert(tail[a] == known[a + size] && tail[b] == known[b + size]);
        }
        assert forall|k: int| 0 <= k < tail.len() implies (#[trigger] tail[k]).0 < 2 * bound by {
            assert(tail[k] == known[k + size]);
        }
        lemma_climb_keys(s, tail, left_sibs, bound);
        if tail.len() > 0 {
            // The next key has another parent.
            assert(tail[0] == known[size]);
            assert(known[0].0 < known[size].0);
            if size == 2 {
                assert(keys[1] == known[1].0 && keys[0] == known[0].0);
                assert(known[1].0 < known[2].0);
            } else if known[0].0 % 2 == 0 {
                assert(keys[0] == known[0].0 && keys[1] == known[1].0);
            }
            assert(known[0].0 / 2 < tail[0].0 / 2);
        } else {
            assert(up.len() == 0);
        }
        assert forall|k: int| 0 <= k < out.len() implies {
            let e = #[trigger] out[k];
            e.0 < bound && known[0].0 / 2 <= e.0
        } by {
            if k > 0 {
                assert(out[k] == up[k - 1]);
            }
        }
        assert forall|a: int, b: int| 0 <= a < b < out.len() implies out[a].0 < out[b].0 by {
            assert(out[b] == up[b - 1]);
            if a > 0 {
                assert(out[a] == up[a - 1]);
            }
        }
    }
}

/// All the layers of a proof that leads to the root of the tree.
proof fn lemma_ascend_bound<S: NodeHasher>(
    s: S,
    leaves: Seq<HashOutput>,
    known: Seq<(usize, HashOutput)>,
    sibs: Seq<HashOutput>,
    d: nat,
    depth: nat,
)
    requires
        d <= depth,
        increasing(known),
        forall|k: int|
            0 <= k < known.len() ==> (#[trigger] known[k]).0 < pow2((depth - d) as nat),
        ascend(s, known, sibs, d, depth) matches Ok((top, rest)) && find(top, 0) == Some(
            node(s, leaves, depth, 0),
        ),
        collision_free(s, leaves, known, sibs, d, depth),
    ensures
        entries_hold(s, leaves, d, known),
    decreases depth - d,
{
    if d == depth {
        vstd::arithmetic::power2::lemma2_to64();
        if known.len() > 0 {
            assert(known[0].0 < 1);
            if known.len() > 1 {
                assert(known[1].0 < 1);
                assert(known[0].0 < known[1].0);
            }
        }
    } else {
        let (up, rest) = climb(s, known, sibs)->0;
        lemma_half_pow2((depth - d) as nat);
        lemma_climb_keys(s, known, sibs, pow2((depth - d - 1) as nat));
        lemma_ascend_bound(s, leaves, up, rest, d + 1, depth);
        lemma_climb_bound(s, leaves, d, known, sibs);
    }
}

/// Every queried digest is among the collected entries.
pub proof fn lemma_collected_all(idxs: Seq<usize>, hashes: Seq<HashOutput>, k: nat)
    requires
        k <= idxs.len(),
        idxs.len() == hashes.len(),
        collected(idxs, hashes, k) is Ok,
    ensures
        increasing(collected(idxs, hashes, k)->Ok_0),
        forall|j: int|
            0 <= j < k ==> collected(idxs, hashes, k)->Ok_0.contains(
                (#[trigger] idxs[j], hashes[j]),
            ),
        forall|m: int|
            0 <= m < collected(idxs, hashes, k)->Ok_0.len() ==> idxs.contains(
                (#[trigger] collected(idxs, hashes, k)->Ok_0[m]).0,
            ),
    decreases k,
{
    if k > 0 {
        let j = (k - 1) as nat;
        lemma_collected_all(idxs, hashes, j);
        let known = collected(idxs, hashes, j)->Ok_0;
        let out = collected(idxs, hashes, k)->Ok_0;
        let i = idxs[k - 1];
        let h = hashes[k - 1];
        lemma_place(known, i);
        let p = place(known, i);
        lemma_with_entry(known, i, h, p);
        lemma_with_entry_increasing(known, i, h);
        if p < known.len() && known[p].0 == i {
            assert(out == known);
            assert(known[p] == (i, h));
            assert(out.contains((i, h)));
        } else {
            assert(out == known.take(p).push((i, h)) + known.skip(p));
            assert(out[p] == (i, h));
            assert forall|q: int| 0 <= q < k implies out.contains(
                (#[trigger] idxs[q], hashes[q]),
            ) by {
                if q < j {
                    let e = (idxs[q], hashes[q]);
                    let m = choose|m: int| 0 <= m < known.len() && known[m] == e;
                    if m < p {
                        assert(out[m] == e);
                    } else {
                        assert(out[m + 1] == e);
                    }
                }
            }
            assert forall|m: int| 0 <= m < out.len() implies idxs.contains(
                (#[trigger] out[m]).0,
            ) by {
                if m < p {
                    assert(out[m] == known[m]);
                } else if m > p {
                    assert(out[m] == known[m - 1]);
                } else {
                    assert(idxs[k - 1] == out[m].0);
                }
            }
        }
    }
}

/// Binding: a batched proof that is accepted against the root of a tree opens
/// the leaves of that tree, unless a pair that the verifier hashed collides with
/// the two nodes of the tree in its place.
pub proof fn lemma_batch_binding<S: NodeHasher>(
    s: S,
    leaves: Seq<HashOutput>,
    depth: nat,
    sibs: Seq<HashOutput>,
    idxs: Seq<usize>,
    hashes: Seq<HashOutput>,
)
    requires
        forall|k: int| 0 <= k < idxs.len() ==> #[trigger] idxs[k] < pow2(depth),
        batch_verdict(s, node(s, leaves, depth, 0), sibs, depth, idxs, hashes) == Ok::<
            (),
            MerkleBatchError,
        >(()),
        collision_free(
            s,
            leaves,
            collected(idxs, hashes, idxs.len())->Ok_0,
            sibs,
            0,
            depth,
        ),
    ensures
        forall|k: int| 0 <= k < idxs.len() ==> #[trigger] hashes[k] == leaves[idxs[k] as int],
{
    let n = idxs.len();
    let known = collected(idxs, hashes, n)->Ok_0;
    lemma_collected_all(idxs, hashes, n);
    assert forall|m: int| 0 <= m < known.len() implies (#[trigger] known[m]).0 < pow2(
        (depth - 0) as nat,
    ) by {
        let q = choose|q: int| 0 <= q < idxs.len() && idxs[q] == known[m].0;
        assert(idxs[q] < pow2(depth));
    }
    lemma_ascend_bound(s, leaves, known, sibs, 0, depth);
    assert forall|k: int| 0 <= k < idxs.len() implies #[trigger] hashes[k]
        == leaves[idxs[k] as int] by {
        let e = (idxs[k], hashes[k]);
        assert(known.contains(e));
        let m = choose|m: int| 0 <= m < known.len() && known[m] == e;
        assert(known[m].1 == node(s, leaves, 0, known[m].0 as int));
    }
}

} // verus!
