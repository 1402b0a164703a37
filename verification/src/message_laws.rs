//! Laws of what is hashed: every part of a message can be told from it, and
//! messages of different uses differ.
use vstd::prelude::*;
use crate::auth_killshot::AUTH_GKR_DOMAIN_TAG;
use crate::auth_killshot_sweep::SWEEP_AUTH_GKR_DOMAIN_TAG;
use crate::auth_pcs::AUTH_PCS_COMMIT_TAG;
use crate::batched_open::BATCHED_OPEN_TAG;
use crate::chain_accumulator_killshot::CHAIN_ACC_LINEAR_RELATION_TAG;
use crate::compact_fri::{COMPACT_TAU, tau_of};
use crate::field::{BinaryField, TowerField, lemma_add_cancel, lemma_add_mul, lemma_mul_eq_zero, lemma_units};
use crate::fri::{Blake3Hasher, CryptographicHasher, digest_of, node_message, pair_message};
use crate::guard_bucket_killshot::{GUARD_BUCKET_LINEAR_RELATION_TAG, pad_after_one, slots_chain_len};
use crate::hashing::{HashOutput, elem_bytes, le_bytes, le_value, lemma_concat_parts, lemma_elem_bytes_injective, lemma_elem_bytes_len, lemma_le_bytes_len, lemma_le_bytes_value, lemma_le_round_trip, lemma_le_value_bound, lemma_pow256_16, pow256};
use crate::high_fold::{high_leaf_message, high_leaf_tag};
use crate::interleaved_commit::{SourceHasher, cap_tag, segment_message, source_leaf_message, source_leaf_tag, source_node_tag};
use crate::merkle::NodeHasher;
use crate::mixed_open::MIXED_OPEN_TAG;
use crate::owner_boundary::OWNER_AUTH_BOUNDARY_DOMAIN_TAG;
use crate::owner_killshot::OWNER_AUTH_GKR_DOMAIN_TAG;
use crate::short_hash::{ShortHash, ShortHasher, narrow, short_digest_of, short_node_message, short_node_tag, wide};
use crate::source_binding::MIXED_SOURCE_BINDING_TAG;
use crate::sponge::{lane_bytes, lanes_of, padding};
use crate::transcript::{ElementTranscript, FiatShamir, element_transcript_key};

verus! {

/// Numbers below the bound can be told from their bytes.
proof fn lemma_number(x: nat, y: nat, count: nat)
    requires
        x < pow256(count),
        y < pow256(count),
        le_bytes(x, count) == le_bytes(y, count),
    ensures
        x == y,
{
    lemma_le_round_trip(x, count);
    lemma_le_round_trip(y, count);
}

/// Eight bytes hold a 64-bit number.
proof fn lemma_pow256_8()
    ensures
        pow256(8) == 0x1_0000_0000_0000_0000,
{
    reveal_with_fuel(pow256, 9);
}

/// Both symbols of a pair can be told from its message, and both children of a
/// node.
pub proof fn lemma_pair_message<F: TowerField>(
    s0: F,
    s1: F,
    t0: F,
    t1: F,
    a: HashOutput,
    b: HashOutput,
    c: HashOutput,
    d: HashOutput,
)
    ensures
        pair_message(s0, s1) == pair_message(t0, t1) ==> s0 == t0 && s1 == t1,
        node_message(a, b) == node_message(c, d) ==> a == c && b == d,
        Blake3Hasher.pair_digest(s0, s1) == digest_of(pair_message(s0, s1)),
        Blake3Hasher.parent(a, b) == digest_of(node_message(a, b)),
{
    if pair_message(s0, s1) == pair_message(t0, t1) {
        lemma_symbols(Seq::empty(), s0, s1, Seq::empty(), t0, t1);
    }
    if node_message(a, b) == node_message(c, d) {
        lemma_concat_parts(a@, b@, c@, d@);
        assert(a =~= c && b =~= d);
    }
}

proof fn lemma_symbols<F: TowerField>(p: Seq<u8>, s0: F, s1: F, q: Seq<u8>, t0: F, t1: F)
    requires
        p + le_bytes(s0.bits() as nat, 16) + le_bytes(s1.bits() as nat, 16) == q + le_bytes(
            t0.bits() as nat,
            16,
        ) + le_bytes(t1.bits() as nat, 16) || (p.len() == 0 && q.len() == 0 && le_bytes(
            s0.bits() as nat,
            16,
        ) + le_bytes(s1.bits() as nat, 16) == le_bytes(t0.bits() as nat, 16) + le_bytes(
            t1.bits() as nat,
            16,
        )),
    ensures
        s0 == t0,
        s1 == t1,
        p == q,
{
    let (x0, x1) = (le_bytes(s0.bits() as nat, 16), le_bytes(s1.bits() as nat, 16));
    let (y0, y1) = (le_bytes(t0.bits() as nat, 16), le_bytes(t1.bits() as nat, 16));
    lemma_le_bytes_len(s0.bits() as nat, 16);
    lemma_le_bytes_len(s1.bits() as nat, 16);
    lemma_le_bytes_len(t0.bits() as nat, 16);
    lemma_le_bytes_len(t1.bits() as nat, 16);
    if p.len() == 0 && q.len() == 0 {
        assert(p + x0 =~= x0);
        assert(q + y0 =~= y0);
        assert(p =~= q);
    }
    lemma_concat_parts(p + x0, x1, q + y0, y1);
    lemma_concat_parts(p, x0, q, y0);
    lemma_pow256_16();
    lemma_number(s0.bits() as nat, t0.bits() as nat, 16);
    lemma_number(s1.bits() as nat, t1.bits() as nat, 16);
    F::of_u128_bits(s0);
    F::of_u128_bits(t0);
    F::of_u128_bits(s1);
    F::of_u128_bits(t1);
}

/// The size, the place and the symbols of a source leaf can be told from its
/// message.
pub proof fn lemma_source_leaf_message<F: TowerField>(
    log: nat,
    n: nat,
    leaf: nat,
    s: Seq<F>,
    log2: nat,
    n2: nat,
    leaf2: nat,
    t: Seq<F>,
)
    requires
        log < 0x1_0000_0000_0000_0000,
        log2 < 0x1_0000_0000_0000_0000,
        n < 0x1_0000_0000_0000_0000,
        n2 < 0x1_0000_0000_0000_0000,
        leaf < 0x1_0000_0000_0000_0000,
        leaf2 < 0x1_0000_0000_0000_0000,
        source_leaf_message(log, n, leaf, s) == source_leaf_message(log2, n2, leaf2, t),
    ensures
        log == log2,
        n == n2,
        leaf == leaf2,
        s == t,
{
    lemma_pow256_8();
    lemma_le_bytes_len(log, 8);
    lemma_le_bytes_len(log2, 8);
    lemma_le_bytes_len(n, 8);
    lemma_le_bytes_len(n2, 8);
    lemma_le_bytes_len(leaf, 8);
    lemma_le_bytes_len(leaf2, 8);
    lemma_elem_bytes_len(s);
    lemma_elem_bytes_len(t);
    let tag = source_leaf_tag();
    let (a, b) = (tag + le_bytes(log, 8), tag + le_bytes(log2, 8));
    let (c, d) = (a + le_bytes(n, 8), b + le_bytes(n2, 8));
    let (e, f) = (c + le_bytes(leaf, 8), d + le_bytes(leaf2, 8));
    assert((e + elem_bytes(s)).len() == (f + elem_bytes(t)).len());
    lemma_concat_parts(e, elem_bytes(s), f, elem_bytes(t));
    lemma_concat_parts(c, le_bytes(leaf, 8), d, le_bytes(leaf2, 8));
    lemma_concat_parts(a, le_bytes(n, 8), b, le_bytes(n2, 8));
    lemma_concat_parts(tag, le_bytes(log, 8), tag, le_bytes(log2, 8));
    lemma_number(log, log2, 8);
    lemma_number(n, n2, 8);
    lemma_number(leaf, leaf2, 8);
    lemma_elem_bytes_injective(s, t);
}

/// The layer, the place and the symbols of a leaf of a folded layer can be told
/// from its message.
pub proof fn lemma_high_leaf_message<F: TowerField>(
    log: nat,
    leaf: nat,
    s0: F,
    s1: F,
    log2: nat,
    leaf2: nat,
    t0: F,
    t1: F,
)
    requires
        log < 0x1_0000_0000_0000_0000,
        log2 < 0x1_0000_0000_0000_0000,
        leaf < 0x1_0000_0000_0000_0000,
        leaf2 < 0x1_0000_0000_0000_0000,
        high_leaf_message(log, leaf, s0, s1) == high_leaf_message(log2, leaf2, t0, t1),
    ensures
        log == log2,
        leaf == leaf2,
        s0 == t0,
        s1 == t1,
{
    lemma_pow256_8();
    lemma_le_bytes_len(log, 8);
    lemma_le_bytes_len(log2, 8);
    lemma_le_bytes_len(leaf, 8);
    lemma_le_bytes_len(leaf2, 8);
    let tag = high_leaf_tag();
    let (a, b) = (tag + le_bytes(log, 8), tag + le_bytes(log2, 8));
    lemma_symbols(a + le_bytes(leaf, 8), s0, s1, b + le_bytes(leaf2, 8), t0, t1);
    lemma_concat_parts(a, le_bytes(leaf, 8), b, le_bytes(leaf2, 8));
    lemma_concat_parts(tag, le_bytes(log, 8), tag, le_bytes(log2, 8));
    lemma_number(log, log2, 8);
    lemma_number(leaf, leaf2, 8);
}

/// Both children of a node of short digests can be told from its message.
pub proof fn lemma_short_node_message(a: ShortHash, b: ShortHash, c: ShortHash, d: ShortHash)
    requires
        short_node_message(a, b) == short_node_message(c, d),
    ensures
        a == c,
        b == d,
{
    let tag = short_node_tag();
    lemma_concat_parts(tag + a@, b@, tag + c@, d@);
    lemma_concat_parts(tag, a@, tag, c@);
    assert(a =~= c && b =~= d);
}

/// A source node is the digest of a message from which both children can be told.
pub proof fn lemma_source_node_message(
    a: HashOutput,
    b: HashOutput,
    c: HashOutput,
    d: HashOutput,
)
    ensures
        exists|m: Seq<u8>, n: Seq<u8>|
            {
                &&& SourceHasher.parent(a, b) == #[trigger] digest_of(m)
                &&& SourceHasher.parent(c, d) == #[trigger] digest_of(n)
                &&& m.len() == source_node_tag().len() + 64
                &&& m == n <==> a == c && b == d
            },
{
    let tag = source_node_tag();
    let (m, n) = (tag + a@ + b@, tag + c@ + d@);
    if m == n {
        lemma_concat_parts(tag + a@, b@, tag + c@, d@);
        lemma_concat_parts(tag, a@, tag, c@);
        assert(a =~= c && b =~= d);
    }
    assert(SourceHasher.parent(a, b) == digest_of(m));
    assert(SourceHasher.parent(c, d) == digest_of(n));
}

/// The number of the segment, the number of the columns and the logarithm of
/// their length can be told from the message of a segment.
pub proof fn lemma_segment_message<F: TowerField>(
    a: Seq<Seq<F>>,
    log: nat,
    s: nat,
    b: Seq<Seq<F>>,
    log2: nat,
    s2: nat,
)
    requires
        log < 0x1_0000_0000_0000_0000,
        log2 < 0x1_0000_0000_0000_0000,
        s < 0x1_0000_0000_0000_0000,
        s2 < 0x1_0000_0000_0000_0000,
        a.len() < 0x1_0000_0000_0000_0000,
        b.len() < 0x1_0000_0000_0000_0000,
        segment_message(a, log, s) == segment_message(b, log2, s2),
    ensures
        s == s2,
        a.len() == b.len(),
        log == log2,
{
    let (x, y) = (segment_message(a, log, s), segment_message(b, log2, s2));
    let (n, n2) = (a.len(), b.len());
    lemma_pow256_8();
    lemma_le_bytes_len(log, 8);
    lemma_le_bytes_len(log2, 8);
    lemma_le_bytes_len(n, 8);
    lemma_le_bytes_len(n2, 8);
    lemma_le_bytes_len(s, 8);
    lemma_le_bytes_len(s2, 8);
    assert(x.subrange(27, 35) =~= le_bytes(s, 8));
    assert(y.subrange(27, 35) =~= le_bytes(s2, 8));
    assert(x.subrange(35, 43) =~= le_bytes(n, 8));
    assert(y.subrange(35, 43) =~= le_bytes(n2, 8));
    assert(x.subrange(43, 51) =~= le_bytes(log, 8));
    assert(y.subrange(43, 51) =~= le_bytes(log2, 8));
    lemma_number(s, s2, 8);
    lemma_number(n, n2, 8);
    lemma_number(log, log2, 8);
}

/// Messages of different uses differ: that of a segment, of a source leaf, of a
/// source node, of a leaf of a folded layer and of a node of short digests. No tag
/// starts another one.
pub proof fn lemma_messages_apart(x: Seq<u8>, y: Seq<u8>)
    ensures
        cap_tag() + x != source_leaf_tag() + y,
        cap_tag() + x != source_node_tag() + y,
        cap_tag() + x != high_leaf_tag() + y,
        cap_tag() + x != short_node_tag() + y,
        source_leaf_tag() + x != source_node_tag() + y,
        source_leaf_tag() + x != high_leaf_tag() + y,
        source_leaf_tag() + x != short_node_tag() + y,
        source_node_tag() + x != high_leaf_tag() + y,
        source_node_tag() + x != short_node_tag() + y,
        high_leaf_tag() + x != short_node_tag() + y,
{
    assert((cap_tag() + x)[9] == 73 && (cap_tag() + x)[21] == 67);
    assert((source_leaf_tag() + x)[9] == 73 && (source_leaf_tag() + y)[21] == 83);
    assert((source_node_tag() + x)[9] == 83 && (source_node_tag() + y)[9] == 83);
    assert((source_node_tag() + x)[31] == 50);
    assert((high_leaf_tag() + x)[9] == 77 && (high_leaf_tag() + y)[9] == 77);
    assert((short_node_tag() + y)[9] == 83 && (short_node_tag() + y)[31] == 49);
}

/// A short digest is the first half of the digest, and padding adds zeros.
pub proof fn lemma_short_halves(m: Seq<u8>, h: ShortHash)
    ensures
        short_digest_of(m)@ == digest_of(m)@.take(16),
        wide(h)@.take(16) == h@,
        forall|i: int| 16 <= i < 32 ==> #[trigger] wide(h)[i] == 0,
{
    reveal(wide);
    reveal(narrow);
    assert(short_digest_of(m)@ =~= digest_of(m)@.take(16));
    assert(wide(h)@.take(16) =~= h@);
}

/// Nodes of short digests are equal only if the messages of their children have
/// equal short digests.
pub proof fn lemma_short_parent(a: ShortHash, b: ShortHash, c: ShortHash, d: ShortHash)
    ensures
        ShortHasher.parent(wide(a), wide(b)) == ShortHasher.parent(wide(c), wide(d))
            <==> short_digest_of(short_node_message(a, b)) == short_digest_of(
            short_node_message(c, d),
        ),
{
    crate::short_hash::lemma_narrow_wide(a);
    crate::short_hash::lemma_narrow_wide(b);
    crate::short_hash::lemma_narrow_wide(c);
    crate::short_hash::lemma_narrow_wide(d);
    crate::short_hash::lemma_narrow_wide(short_digest_of(short_node_message(a, b)));
    crate::short_hash::lemma_narrow_wide(short_digest_of(short_node_message(c, d)));
}

/// Reading a digest as two lanes loses nothing.
pub proof fn lemma_lanes_round_trip<F: TowerField>(d: Seq<u8>)
    requires
        d.len() == 32,
    ensures
        lane_bytes(lanes_of::<F>(d)) == d,
{
    let (a, b) = (d.subrange(0, 16), d.subrange(16, 32));
    lemma_pow256_16();
    lemma_le_value_bound(a);
    lemma_le_value_bound(b);
    F::bits_of_u128(le_value(a) as u128);
    F::bits_of_u128(le_value(b) as u128);
    lemma_le_bytes_value(a);
    lemma_le_bytes_value(b);
    assert(a + b =~= d);
}

/// The transcript of one element tells apart the elements that it absorbs, and
/// what it had absorbed before equal ones.
pub proof fn lemma_element_absorbs<F: TowerField>(
    a: ElementTranscript<F>,
    b: ElementTranscript<F>,
    x: F,
    y: F,
)
    ensures
        a.absorbed(x) == a.absorbed(y) ==> x == y,
        a.absorbed(x) == b.absorbed(x) ==> a == b,
{
    let key = element_transcript_key::<F>();
    let (p, q) = (a.state.mul(key), b.state.mul(key));
    lemma_add_cancel(p.add(x), F::one());
    lemma_add_cancel(p.add(y), F::one());
    lemma_add_cancel(q.add(x), F::one());
    lemma_add_cancel(p, x);
    lemma_add_cancel(p, y);
    lemma_add_cancel(q, x);
    if a.absorbed(x) == b.absorbed(x) {
        F::bits_of_u128(0x9E37_79B9_7F4A_7C15_F39C_C060_5CED_C835);
        F::bits_of_u128(0);
        F::of_u128_units();
        assert(key != F::zero());
        lemma_times_injective(a.state, b.state, key);
    }
}

proof fn lemma_times_injective<F: BinaryField>(a: F, b: F, k: F)
    requires
        k != F::zero(),
        a.mul(k) == b.mul(k),
    ensures
        a == b,
{
    lemma_add_mul(a, b, k);
    F::add_self(a.mul(k));
    lemma_mul_eq_zero(a.add(b), k);
    lemma_add_cancel(a, b);
    lemma_units(a);
}

/// The number of tensor variables is the bound, or all the variables where they
/// are fewer.
pub proof fn lemma_tau(n: nat)
    ensures
        tau_of(n) <= n,
        tau_of(n) <= COMPACT_TAU,
        tau_of(n) == n || tau_of(n) == COMPACT_TAU,
        tau_of(n) <= tau_of(n + 1) <= tau_of(n) + 1,
{
}

/// The tags by which transcripts of different uses start or branch are different.
pub proof fn lemma_tags_apart<F: TowerField>(i: int, j: int)
    requires
        0 <= i < j < use_tags().len(),
    ensures
        F::of_u128(use_tags()[i]) != F::of_u128(use_tags()[j]),
{
    F::bits_of_u128(use_tags()[i]);
    F::bits_of_u128(use_tags()[j]);
}

/// The tags of the uses.
pub open spec fn use_tags() -> Seq<u128> {
    seq![
        AUTH_GKR_DOMAIN_TAG,
        SWEEP_AUTH_GKR_DOMAIN_TAG,
        AUTH_PCS_COMMIT_TAG,
        BATCHED_OPEN_TAG as u128,
        CHAIN_ACC_LINEAR_RELATION_TAG,
        GUARD_BUCKET_LINEAR_RELATION_TAG,
        MIXED_OPEN_TAG as u128,
        OWNER_AUTH_BOUNDARY_DOMAIN_TAG,
        OWNER_AUTH_GKR_DOMAIN_TAG,
        MIXED_SOURCE_BINDING_TAG,
    ]
}

/// The bytes of zero are zeros.
proof fn lemma_zero_bytes(count: nat, i: int)
    requires
        0 <= i < count,
    ensures
        le_bytes(0, count).len() == count,
        le_bytes(0, count)[i] == 0,
    decreases count,
{
    lemma_le_bytes_len(0, count);
    if i > 0 {
        lemma_zero_bytes((count - 1) as nat, i - 1);
    }
}

/// A power of 256 has a single byte, its highest.
proof fn lemma_power_bytes(k: nat, i: int)
    requires
        0 <= i <= k,
    ensures
        le_bytes(pow256(k), k + 1).len() == k + 1,
        le_bytes(pow256(k), k + 1)[i] == if i == k {
            1u8
        } else {
            0u8
        },
    decreases k,
{
    lemma_le_bytes_len(pow256(k), k + 1);
    if k > 0 && i > 0 {
        let x = pow256((k - 1) as nat);
        assert((256 * x) / 256 == x);
        lemma_power_bytes((k - 1) as nat, i - 1);
    }
}

/// A block of padding, written as bytes, starts with 0x80, ends with 0x01, and has
/// zeros in between; so has the element that pads the second half of a block.
pub proof fn lemma_padding_bytes<F: TowerField>(i: int)
    requires
        0 <= i < 32,
    ensures
        lane_bytes(padding::<F>()).len() == 32,
        lane_bytes(padding::<F>())[i] == if i == 0 {
            0x80u8
        } else if i == 31 {
            0x01u8
        } else {
            0u8
        },
        i < 16 ==> elem_bytes(seq![pad_after_one::<F>()])[i] == if i == 0 {
            0x80u8
        } else if i == 15 {
            0x01u8
        } else {
            0u8
        },
{
    let high = 0x0100_0000_0000_0000_0000_0000_0000_0000nat;
    let both = 0x0100_0000_0000_0000_0000_0000_0000_0080nat;
    F::bits_of_u128(0x80);
    F::bits_of_u128(0x0100_0000_0000_0000_0000_0000_0000_0000);
    F::bits_of_u128(0x0100_0000_0000_0000_0000_0000_0000_0080);
    assert(pow256(15) == high && pow256(14) * 256 == high) by {
        reveal_with_fuel(pow256, 16);
    }
    lemma_le_bytes_len(0x80, 16);
    lemma_le_bytes_len(high, 16);
    lemma_le_bytes_len(both, 16);
    let one = seq![pad_after_one::<F>()];
    assert(one.drop_last() =~= Seq::<F>::empty());
    assert(elem_bytes(one.drop_last()) =~= Seq::<u8>::empty());
    assert(elem_bytes(one) =~= le_bytes(both, 16));
    if i < 16 {
        if i > 0 {
            lemma_zero_bytes(15, i - 1);
            lemma_power_bytes(14, i - 1);
        }
    } else {
        lemma_power_bytes(15, i - 16);
    }
}

/// The blocks of a list of slots hold its length, the slots and at least one
/// element of padding, and no block more.
pub proof fn lemma_slots_len(len: nat)
    ensures
        2 * slots_chain_len(len) - 2 <= len + 1 < 2 * slots_chain_len(len),
{
}

} // verus!
