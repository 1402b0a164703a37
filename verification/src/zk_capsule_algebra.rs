//! The algebra of a witness-hiding opening: leaves of two interleaved words,
//! folds from the lowest variable up, the link between the contracted table
//! and the folded one, and the map of queries into both trees.
use vstd::prelude::*;
use vstd::arithmetic::power2::{lemma_pow2_pos, pow2};
use crate::affine_code::{AffineCode, AffineHighPaddingRankCertificate, DOMAIN_LEN, MESSAGE_LEN, ZkAffineCodeError};
use crate::field::{BinaryField, TowerField, lemma_units};
use crate::high_fold::{high_table, lemma_high_table_mle, lemma_stride_mle, stride};
use crate::low_fold::{fold_low, fold_low_all, fold_low_vars, lemma_fold_low_all_mle, lemma_fold_low_len};
use crate::mle::{evaluate_slice, fold, lemma_half_pow2, lemma_line_form, lemma_mle_scale, line, mle};
use crate::table::{copied, subrange};

verus! {

/// The symbols of the bank in a joint leaf.
pub const JOINT_SOURCE_BANK_SYMBOLS: usize = 8;

/// The symbols of the companion in a joint leaf.
pub const JOINT_SOURCE_COMPANION_SYMBOLS: usize = 8;

/// The symbols of a joint leaf.
pub const JOINT_SOURCE_LEAF_SYMBOLS: usize = 16;

/// The number of variables that a source leaf folds.
pub const SOURCE_STANDARD_FOLDS: usize = 3;

/// The number of variables that a mid leaf folds.
pub const MID_STANDARD_FOLDS: usize = 4;

/// The symbols of a mid leaf.
pub const MID_LEAF_SYMBOLS: usize = 16;

/// The number of variables of the state.
pub const OWNER_STATE_POINT_VARS: usize = 9;

/// The number of variables of a bank.
pub const OWNER_BANK_POINT_VARS: usize = 11;

/// The values of the state.
pub const OWNER_STATE_RELATION_LEN: usize = 512;

/// The values of a bank.
pub const OWNER_BANK_RELATION_LEN: usize = 2048;

/// The number of variables that are folded.
pub const PHASE_B_LOW_VARS: usize = 8;

/// The number of variables that are left.
pub const PHASE_B_HIGH_VARS: usize = 3;

/// The values of the contracted table.
pub const UPPER_SYMBOLS: usize = 256;

/// The values that are revealed after the source and mid folds.
pub const TAIL_SYMBOLS: usize = 16;

/// The values that are left after all folds.
pub const FINAL_H_SYMBOLS: usize = 8;

/// The bits of a query.
pub const SOURCE_QUERY_BITS: usize = 13;

/// The number of source leaves.
pub const SOURCE_LEAF_COUNT: usize = 8192;

/// The number of mid leaves.
pub const MID_LEAF_COUNT: usize = 512;

/// The symbols of a mid word.
pub const MID_DOMAIN_LEN: usize = 8192;

/// The depth of a path in the source tree, below its cap.
pub const SOURCE_PATH_DEPTH: usize = 8;

/// The depth of a path in the mid tree, below its cap.
pub const MID_PATH_DEPTH: usize = 8;

/// Why an operation was refused.
#[derive(Clone, Copy, Debug, PartialEq, Eq, Structural)]
pub enum ZkCapsuleAlgebraError {
    SourceLeafOutOfRange,
    MidLeafOutOfRange,
    SourceCodewordLengthMismatch,
    MidCodewordLengthMismatch,
    AffineCode(ZkAffineCodeError),
}

impl From<ZkAffineCodeError> for ZkCapsuleAlgebraError {
    fn from(value: ZkAffineCodeError) -> (r: Self) {
        ZkCapsuleAlgebraError::AffineCode(value)
    }
}

impl vstd::std_specs::convert::FromSpecImpl<ZkAffineCodeError> for ZkCapsuleAlgebraError {
    open spec fn obeys_from_spec() -> bool {
        true
    }

    open spec fn from_spec(value: ZkAffineCodeError) -> Self {
        ZkCapsuleAlgebraError::AffineCode(value)
    }
}

/// The places of a query in both trees. For the bits `s` of the query, the
/// lowest first: the source path is `s[0..8]` and the source cap `s[8..13]`;
/// the query is the place in the mid word, with member bits `s[0..4]`, and the
/// mid leaf `s[4..13]`; the mid path is `s[4..12]` and the mid cap `s[12..13]`.
#[derive(Clone, Copy, Debug, PartialEq, Eq)]
pub struct ZkCapsuleQueryMapping {
    pub source_leaf_index: usize,
    pub source_bits_lsb: [bool; 13],
    pub source_path_index: usize,
    pub source_cap_index: usize,
    pub mid_position: usize,
    pub mid_leaf_index: usize,
    pub mid_member_index: usize,
    pub mid_path_index: usize,
    pub mid_cap_index: usize,
}

/// Bit `k` of a number.
pub open spec fn bit_of(x: nat, k: nat) -> bool {
    (x / pow2(k)) % 2 == 1
}

/// The number with the given bits, the lowest first.
pub open spec fn bits_value(bits: Seq<bool>) -> nat
    decreases bits.len(),
{
    if bits.len() == 0 {
        0
    } else {
        bits_value(bits.drop_last()) + if bits.last() {
            pow2((bits.len() - 1) as nat)
        } else {
            0
        }
    }
}

impl ZkCapsuleQueryMapping {
    /// The mapping of a source leaf.
    pub open spec fn of(&self, leaf: int) -> bool {
        &&& self.source_leaf_index == leaf
        &&& forall|k: int|
            0 <= k < 13 ==> #[trigger] self.source_bits_lsb[k] == bit_of(leaf as nat, k as nat)
        &&& self.source_path_index == leaf % 256
        &&& self.source_cap_index == leaf / 256
        &&& self.mid_position == leaf
        &&& self.mid_leaf_index == leaf / 16
        &&& self.mid_member_index == leaf % 16
        &&& self.mid_path_index == (leaf / 16) % 256
        &&& self.mid_cap_index == leaf / 4096
    }

    /// The source leaf from its path and cap.
    pub fn source_tree_roundtrip(&self) -> (r: usize)
        ensures
            r == (self.source_cap_index << 8usize) | self.source_path_index,
    {
        (self.source_cap_index << SOURCE_PATH_DEPTH) | self.source_path_index
    }

    /// The mid leaf from its path and cap.
    pub fn mid_tree_roundtrip(&self) -> (r: usize)
        ensures
            r == (self.mid_cap_index << 8usize) | self.mid_path_index,
    {
        (self.mid_cap_index << MID_PATH_DEPTH) | self.mid_path_index
    }

    /// The source leaf from the mid leaf and the member.
    pub fn source_from_mid_roundtrip(&self) -> (r: usize)
        ensures
            r == (self.mid_leaf_index << 4usize) | self.mid_member_index,
    {
        (self.mid_leaf_index << MID_STANDARD_FOLDS) | self.mid_member_index
    }
}

/// The parts of a mapped query give the query back.
pub proof fn lemma_mapping_roundtrips(m: ZkCapsuleQueryMapping, leaf: usize)
    requires
        m.of(leaf as int),
        leaf < SOURCE_LEAF_COUNT,
    ensures
        (m.source_cap_index << 8usize) | m.source_path_index == leaf,
        (m.mid_cap_index << 8usize) | m.mid_path_index == m.mid_leaf_index,
        (m.mid_leaf_index << 4usize) | m.mid_member_index == leaf,
        bits_value(m.source_bits_lsb@) == leaf,
{
    let mid = m.mid_leaf_index;
    assert(((leaf / 256) << 8usize) | (leaf % 256) == leaf) by (bit_vector)
        requires
            leaf < 8192,
    ;
    assert(((mid / 256) << 8usize) | (mid % 256) == mid) by (bit_vector)
        requires
            mid < 512,
    ;
    assert(((leaf / 16) << 4usize) | (leaf % 16) == leaf) by (bit_vector)
        requires
            leaf < 8192,
    ;
    let bits = m.source_bits_lsb@;
    assert forall|k: int| 0 <= k < bits.len() implies #[trigger] bits[k] == bit_of(
        leaf as nat,
        k as nat,
    ) by {
        assert(m.source_bits_lsb[k] == bit_of(leaf as nat, k as nat));
    }
    lemma_bits_value(bits, leaf as nat);
    vstd::arithmetic::power2::lemma2_to64();
    vstd::arithmetic::div_mod::lemma_small_mod(leaf as nat, 8192);
}

/// The value of the lowest bits of a number.
pub proof fn lemma_bits_value(bits: Seq<bool>, x: nat)
    requires
        forall|k: int| 0 <= k < bits.len() ==> #[trigger] bits[k] == bit_of(x, k as nat),
    ensures
        bits_value(bits) == x % pow2(bits.len()),
    decreases bits.len(),
{
    let n = bits.len();
    if n == 0 {
        vstd::arithmetic::power2::lemma2_to64();
    } else {
        let m = (n - 1) as nat;
        lemma_bits_value(bits.drop_last(), x);
        lemma_half_pow2(n);
        lemma_pow2_pos(m);
        let p = pow2(m) as int;
        let q = x as int / p;
        vstd::arithmetic::div_mod::lemma_fundamental_div_mod(x as int, p);
        vstd::arithmetic::div_mod::lemma_mod_bound(x as int, p);
        vstd::arithmetic::div_mod::lemma_fundamental_div_mod(q, 2);
        let low = x as int % p;
        let b = q % 2;
        assert(x as int == (q / 2) * (2 * p) + (b * p + low) && 0 <= b * p + low < 2 * p)
            by (nonlinear_arith)
            requires
                x as int == p * q + low,
                q == 2 * (q / 2) + b,
                0 <= b < 2,
                0 <= low < p,
        ;
        vstd::arithmetic::div_mod::lemma_fundamental_div_mod_converse(
            x as int,
            2 * p,
            q / 2,
            b * p + low,
        );
        assert(bits[m as int] == bit_of(x, m));
        assert(b * p == if b == 1 {
            p
        } else {
            0
        }) by (nonlinear_arith)
            requires
                0 <= b < 2,
        ;
    }
}

/// The bits of a query, the lowest first.
pub fn source_query_bits(source_leaf_index: usize) -> (r: Result<[bool; 13], ZkCapsuleAlgebraError>)
    ensures
        r is Ok <==> source_leaf_index < SOURCE_LEAF_COUNT,
        r matches Err(e) ==> e == ZkCapsuleAlgebraError::SourceLeafOutOfRange,
        r matches Ok(bits) ==> forall|k: int|
            0 <= k < 13 ==> #[trigger] bits[k] == bit_of(source_leaf_index as nat, k as nat),
{
    if source_leaf_index >= SOURCE_LEAF_COUNT {
        return Err(ZkCapsuleAlgebraError::SourceLeafOutOfRange);
    }
    let mut bits: [bool; 13] = [false; 13];
    let mut rest: usize = source_leaf_index;
    let mut k: usize = 0;
    proof {
        vstd::arithmetic::power2::lemma2_to64();
    }
    while k < 13
        invariant
            k <= 13,
            rest as nat == source_leaf_index as nat / pow2(k as nat),
            forall|j: int|
                0 <= j < k ==> #[trigger] bits[j] == bit_of(source_leaf_index as nat, j as nat),
        decreases 13 - k,
    {
        bits[k] = rest % 2 == 1;
        proof {
            lemma_half_pow2((k + 1) as nat);
            lemma_pow2_pos(k as nat);
            vstd::arithmetic::div_mod::lemma_div_denominator(
                source_leaf_index as int,
                pow2(k as nat) as int,
                2,
            );
            assert(pow2(k as nat) * 2 == pow2((k + 1) as nat));
        }
        rest = rest / 2;
        k += 1;
    }
    Ok(bits)
}

proof fn lemma_bits_value_bound(bits: Seq<bool>)
    ensures
        bits_value(bits) < pow2(bits.len()),
    decreases bits.len(),
{
    if bits.len() == 0 {
        vstd::arithmetic::power2::lemma2_to64();
    } else {
        lemma_bits_value_bound(bits.drop_last());
        lemma_half_pow2(bits.len());
    }
}

/// The query with the given bits.
pub fn source_leaf_from_query_bits(bits: &[bool; 13]) -> (r: usize)
    ensures
        r == bits_value(bits@),
        r < SOURCE_LEAF_COUNT,
{
    let mut value: usize = 0;
    let mut power: usize = 1;
    let mut k: usize = 0;
    proof {
        vstd::arithmetic::power2::lemma2_to64();
    }
    while k < 13
        invariant
            k <= 13,
            power == pow2(k as nat),
            power <= 8192,
            value == bits_value(bits@.take(k as int)),
            value < power,
        decreases 13 - k,
    {
        proof {
            let part = bits@.take(k + 1);
            assert(part.drop_last() =~= bits@.take(k as int));
            lemma_half_pow2((k + 1) as nat);
            vstd::arithmetic::power2::lemma2_to64();
            if k + 1 < 13 {
                vstd::arithmetic::power2::lemma_pow2_strictly_increases((k + 1) as nat, 13);
            }
        }
        if bits[k] {
            value = value + power;
        }
        power = power * 2;
        k += 1;
    }
    proof {
        assert(bits@.take(13) =~= bits@);
        lemma_bits_value_bound(bits@);
        vstd::arithmetic::power2::lemma2_to64();
    }
    value
}

/// The places of a query in both trees.
pub fn map_source_query_leaf(source_leaf_index: usize) -> (r: Result<
    ZkCapsuleQueryMapping,
    ZkCapsuleAlgebraError,
>)
    ensures
        r is Ok <==> source_leaf_index < SOURCE_LEAF_COUNT,
        r matches Err(e) ==> e == ZkCapsuleAlgebraError::SourceLeafOutOfRange,
        r matches Ok(m) ==> m.of(source_leaf_index as int),
{
    match source_query_bits(source_leaf_index) {
        Err(e) => Err(e),
        Ok(source_bits_lsb) => {
            let mid_leaf_index: usize = source_leaf_index / 16;
            Ok(
                ZkCapsuleQueryMapping {
                    source_leaf_index,
                    source_bits_lsb,
                    source_path_index: source_leaf_index % 256,
                    source_cap_index: source_leaf_index / 256,
                    mid_position: source_leaf_index,
                    mid_leaf_index,
                    mid_member_index: source_leaf_index % 16,
                    mid_path_index: mid_leaf_index % 256,
                    mid_cap_index: mid_leaf_index / 256,
                },
            )
        },
    }
}

/// Every mid leaf is the mid leaf of exactly the sixteen source leaves from
/// sixteen times its index on.
pub proof fn lemma_uniform_density(m: ZkCapsuleQueryMapping, leaf: int, mid: int)
    requires
        m.of(leaf),
        0 <= leaf < SOURCE_LEAF_COUNT,
        0 <= mid < MID_LEAF_COUNT,
    ensures
        m.mid_leaf_index == mid <==> 16 * mid <= leaf < 16 * mid + 16,
        m.mid_leaf_index < MID_LEAF_COUNT,
{
}

/// The eight places of each word that a joint leaf covers.
pub fn joint_source_leaf_positions(source_leaf_index: usize) -> (r: Result<
    [usize; 8],
    ZkCapsuleAlgebraError,
>)
    ensures
        r is Ok <==> source_leaf_index < SOURCE_LEAF_COUNT,
        r matches Err(e) ==> e == ZkCapsuleAlgebraError::SourceLeafOutOfRange,
        r matches Ok(p) ==> forall|k: int|
            0 <= k < 8 ==> #[trigger] p[k] == 8 * source_leaf_index + k,
{
    if source_leaf_index >= SOURCE_LEAF_COUNT {
        return Err(ZkCapsuleAlgebraError::SourceLeafOutOfRange);
    }
    let start: usize = source_leaf_index * 8;
    Ok(
        [
            start,
            start + 1,
            start + 2,
            start + 3,
            start + 4,
            start + 5,
            start + 6,
            start + 7,
        ],
    )
}

/// The places of all the given leaves, leaf by leaf.
pub open spec fn query_positions(leaves: Seq<usize>) -> Seq<usize> {
    Seq::new(8 * leaves.len(), |i: int| (8 * leaves[i / 8] + i % 8) as usize)
}

/// What a code certifies of the places of the given leaves; a leaf out of range
/// is refused. The places of repeated leaves count once.
pub fn certify_source_query_hiding_rank<F: TowerField, C: AffineCode<F>>(
    code: &C,
    source_leaf_indices: &[usize],
) -> (r: Result<AffineHighPaddingRankCertificate, ZkCapsuleAlgebraError>)
    ensures
        r == if exists|k: int|
            0 <= k < source_leaf_indices.len() && #[trigger] source_leaf_indices[k]
                >= SOURCE_LEAF_COUNT {
            Err::<AffineHighPaddingRankCertificate, ZkCapsuleAlgebraError>(
                ZkCapsuleAlgebraError::SourceLeafOutOfRange,
            )
        } else {
            match code.certified(query_positions(source_leaf_indices@)) {
                Ok(c) => Ok(c),
                Err(e) => Err(ZkCapsuleAlgebraError::AffineCode(e)),
            }
        },
        r matches Ok(c) ==> c.distinct_query_count == query_positions(
            source_leaf_indices@,
        ).to_set().len() && c.certified_rank <= c.distinct_query_count,
{
    let ghost want = query_positions(source_leaf_indices@);
    let mut positions: Vec<usize> = Vec::new();
    let mut i: usize = 0;
    while i < source_leaf_indices.len()
        invariant
            i <= source_leaf_indices.len(),
            forall|k: int|
                0 <= k < i ==> #[trigger] source_leaf_indices[k] < SOURCE_LEAF_COUNT,
            want == query_positions(source_leaf_indices@),
            positions.len() == 8 * i,
            forall|k: int| 0 <= k < 8 * i ==> #[trigger] positions[k] == want[k],
        decreases source_leaf_indices.len() - i,
    {
        let part = match joint_source_leaf_positions(source_leaf_indices[i]) {
            Ok(p) => p,
            Err(e) => {
                proof {
                    assert(source_leaf_indices@[i as int] >= SOURCE_LEAF_COUNT);
                }
                return Err(e);
            },
        };
        let ghost before = positions@;
        let mut j: usize = 0;
        while j < 8
            invariant
                j <= 8,
                i < source_leaf_indices.len(),
                source_leaf_indices[i as int] < SOURCE_LEAF_COUNT,
                want == query_positions(source_leaf_indices@),
                forall|k: int|
                    0 <= k < 8 ==> #[trigger] part[k] == 8 * source_leaf_indices[i as int] + k,
                positions.len() == 8 * i + j,
                forall|k: int| 0 <= k < 8 * i + j ==> #[trigger] positions[k] == want[k],
            decreases 8 - j,
        {
            proof {
                let k = 8 * i + j;
                assert(k / 8 == i && k % 8 == j);
                assert(part[j as int] == 8 * source_leaf_indices[i as int] + j);
            }
            positions.push(part[j]);
            j += 1;
        }
        i += 1;
    }
    proof {
        assert(positions@ =~= want);
        code.certified_law(want);
    }
    match code.certify_high_padding_rank(positions.as_slice()) {
        Ok(c) => Ok(c),
        Err(e) => Err(ZkCapsuleAlgebraError::from(e)),
    }
}

/// The symbols of two leaves in turn: bank, companion, bank, ..
pub open spec fn interleaved<F>(bank: Seq<F>, companion: Seq<F>) -> Seq<F> {
    Seq::new(
        2 * bank.len(),
        |i: int|
            if i % 2 == 0 {
                bank[i / 2]
            } else {
                companion[i / 2]
            },
    )
}

/// Interleaves the symbols of a bank leaf and of a companion leaf.
pub fn interleave_joint_source_leaf<F: TowerField>(bank: &[F; 8], companion: &[F; 8]) -> (r: [F; 16])
    ensures
        r@ == interleaved(bank@, companion@),
{
    let r = [
        bank[0],
        companion[0],
        bank[1],
        companion[1],
        bank[2],
        companion[2],
        bank[3],
        companion[3],
        bank[4],
        companion[4],
        bank[5],
        companion[5],
        bank[6],
        companion[6],
        bank[7],
        companion[7],
    ];
    proof {
        assert(r@ =~= interleaved(bank@, companion@));
    }
    r
}

/// Eight neighbouring symbols of a word.
fn eight_of<F: TowerField>(word: &[F], start: usize) -> (r: [F; 8])
    requires
        start + 8 <= word.len(),
    ensures
        r@ == word@.subrange(start as int, start + 8),
{
    let r = [
        word[start],
        word[start + 1],
        word[start + 2],
        word[start + 3],
        word[start + 4],
        word[start + 5],
        word[start + 6],
        word[start + 7],
    ];
    proof {
        assert(r@ =~= word@.subrange(start as int, start + 8));
    }
    r
}

/// A joint leaf of two words.
pub fn build_joint_source_leaf<F: TowerField>(
    bank_codeword: &[F],
    companion_codeword: &[F],
    source_leaf_index: usize,
) -> (r: Result<[F; 16], ZkCapsuleAlgebraError>)
    ensures
        match r {
            Err(e) => if bank_codeword.len() != DOMAIN_LEN || companion_codeword.len()
                != DOMAIN_LEN {
                e == ZkCapsuleAlgebraError::SourceCodewordLengthMismatch
            } else {
                source_leaf_index >= SOURCE_LEAF_COUNT && e
                    == ZkCapsuleAlgebraError::SourceLeafOutOfRange
            },
            Ok(leaf) => {
                let at = 8 * source_leaf_index as int;
                &&& bank_codeword.len() == DOMAIN_LEN && companion_codeword.len() == DOMAIN_LEN
                &&& source_leaf_index < SOURCE_LEAF_COUNT
                &&& leaf@ == interleaved(
                    bank_codeword@.subrange(at, at + 8),
                    companion_codeword@.subrange(at, at + 8),
                )
            },
        },
{
    if bank_codeword.len() != DOMAIN_LEN || companion_codeword.len() != DOMAIN_LEN {
        return Err(ZkCapsuleAlgebraError::SourceCodewordLengthMismatch);
    }
    match joint_source_leaf_positions(source_leaf_index) {
        Err(e) => Err(e),
        Ok(positions) => {
            proof {
                assert(positions[0] == 8 * source_leaf_index + 0int);
            }
            let bank = eight_of(bank_codeword, positions[0]);
            let companion = eight_of(companion_codeword, positions[0]);
            Ok(interleave_joint_source_leaf(&bank, &companion))
        },
    }
}

/// A mid leaf: sixteen neighbouring symbols of the mid word.
pub fn build_mid_leaf<F: TowerField>(mid_codeword: &[F], mid_leaf_index: usize) -> (r: Result<
    [F; 16],
    ZkCapsuleAlgebraError,
>)
    ensures
        match r {
            Err(e) => if mid_codeword.len() != MID_DOMAIN_LEN {
                e == ZkCapsuleAlgebraError::MidCodewordLengthMismatch
            } else {
                mid_leaf_index >= MID_LEAF_COUNT && e == ZkCapsuleAlgebraError::MidLeafOutOfRange
            },
            Ok(leaf) => {
                let at = 16 * mid_leaf_index as int;
                &&& mid_codeword.len() == MID_DOMAIN_LEN
                &&& mid_leaf_index < MID_LEAF_COUNT
                &&& leaf@ == mid_codeword@.subrange(at, at + 16)
            },
        },
{
    if mid_codeword.len() != MID_DOMAIN_LEN {
        return Err(ZkCapsuleAlgebraError::MidCodewordLengthMismatch);
    }
    if mid_leaf_index >= MID_LEAF_COUNT {
        return Err(ZkCapsuleAlgebraError::MidLeafOutOfRange);
    }
    let start: usize = mid_leaf_index * 16;
    let zero = F::zero_value();
    let mut leaf: [F; 16] = [zero; 16];
    let mut k: usize = 0;
    while k < 16
        invariant
            k <= 16,
            start + 16 <= mid_codeword.len(),
            forall|j: int| 0 <= j < k ==> #[trigger] leaf[j] == mid_codeword@[start + j],
        decreases 16 - k,
    {
        leaf[k] = mid_codeword[start + k];
        k += 1;
    }
    proof {
        assert(leaf@ =~= mid_codeword@.subrange(start as int, start + 16));
    }
    Ok(leaf)
}

/// Bank and companion folded by `gamma`: neighbours are paired.
pub fn joint_source_line_fold<F: TowerField>(joint_leaf: &[F; 16], gamma: F) -> (r: [F; 8])
    ensures
        r@ == fold_low(joint_leaf@, gamma),
{
    let zero = F::zero_value();
    let mut out: [F; 8] = [zero; 8];
    let mut k: usize = 0;
    while k < 8
        invariant
            k <= 8,
            forall|j: int|
                0 <= j < k ==> #[trigger] out[j] == line(
                    joint_leaf[2 * j],
                    joint_leaf[2 * j + 1],
                    gamma,
                ),
        decreases 8 - k,
    {
        let bank = joint_leaf[2 * k];
        let companion = joint_leaf[2 * k + 1];
        out[k] = bank.plus(gamma.times(bank.plus(companion)));
        k += 1;
    }
    proof {
        assert(out@ =~= fold_low(joint_leaf@, gamma));
    }
    out
}

/// Folds a contiguous coset of a source word over the three lowest variables.
pub fn source_standard_fold3<F: TowerField, C: AffineCode<F>>(
    code: &C,
    symbols: &[F; 8],
    source_leaf_index: usize,
    challenges: &[F; 3],
) -> (r: Result<F, ZkCapsuleAlgebraError>)
    ensures
        r == if source_leaf_index >= SOURCE_LEAF_COUNT {
            Err::<F, ZkCapsuleAlgebraError>(ZkCapsuleAlgebraError::SourceLeafOutOfRange)
        } else {
            match code.coset_result(symbols@, 0, source_leaf_index as int, challenges@) {
                Ok(v) => Ok(v),
                Err(e) => Err(ZkCapsuleAlgebraError::AffineCode(e)),
            }
        },
{
    if source_leaf_index >= SOURCE_LEAF_COUNT {
        return Err(ZkCapsuleAlgebraError::SourceLeafOutOfRange);
    }
    match code.fold_contiguous_coset(
        symbols.as_slice(),
        0,
        source_leaf_index,
        challenges.as_slice(),
    ) {
        Ok(v) => Ok(v),
        Err(e) => Err(ZkCapsuleAlgebraError::from(e)),
    }
}

/// Folds bank and companion by `gamma`, then the three lowest variables.
pub fn fold_joint_source_leaf<F: TowerField, C: AffineCode<F>>(
    code: &C,
    joint_leaf: &[F; 16],
    gamma: F,
    source_leaf_index: usize,
    challenges: &[F; 3],
) -> (r: Result<F, ZkCapsuleAlgebraError>)
    ensures
        r == if source_leaf_index >= SOURCE_LEAF_COUNT {
            Err::<F, ZkCapsuleAlgebraError>(ZkCapsuleAlgebraError::SourceLeafOutOfRange)
        } else {
            match code.coset_result(
                fold_low(joint_leaf@, gamma),
                0,
                source_leaf_index as int,
                challenges@,
            ) {
                Ok(v) => Ok(v),
                Err(e) => Err(ZkCapsuleAlgebraError::AffineCode(e)),
            }
        },
{
    let masked = joint_source_line_fold(joint_leaf, gamma);
    source_standard_fold3(code, &masked, source_leaf_index, challenges)
}

/// Folds a contiguous coset of a mid word over the next four variables.
pub fn mid_standard_fold4<F: TowerField, C: AffineCode<F>>(
    code: &C,
    symbols: &[F; 16],
    mid_leaf_index: usize,
    challenges: &[F; 4],
) -> (r: Result<F, ZkCapsuleAlgebraError>)
    ensures
        r == if mid_leaf_index >= MID_LEAF_COUNT {
            Err::<F, ZkCapsuleAlgebraError>(ZkCapsuleAlgebraError::MidLeafOutOfRange)
        } else {
            match code.coset_result(symbols@, 3, mid_leaf_index as int, challenges@) {
                Ok(v) => Ok(v),
                Err(e) => Err(ZkCapsuleAlgebraError::AffineCode(e)),
            }
        },
{
    if mid_leaf_index >= MID_LEAF_COUNT {
        return Err(ZkCapsuleAlgebraError::MidLeafOutOfRange);
    }
    match code.fold_contiguous_coset(
        symbols.as_slice(),
        SOURCE_STANDARD_FOLDS,
        mid_leaf_index,
        challenges.as_slice(),
    ) {
        Ok(v) => Ok(v),
        Err(e) => Err(ZkCapsuleAlgebraError::from(e)),
    }
}

/// The word of the revealed tail, after seven folds.
pub fn encode_tail16<F: TowerField, C: AffineCode<F>>(code: &C, tail: &[F; 16]) -> (r: Result<
    Vec<F>,
    ZkCapsuleAlgebraError,
>)
    ensures
        match r {
            Ok(w) => code.word_result(tail@, 7) == Ok::<Seq<F>, ZkAffineCodeError>(w@),
            Err(e) => code.word_result(tail@, 7) matches Err(inner) && e
                == ZkCapsuleAlgebraError::AffineCode(inner),
        },
{
    match code.encode_after_low_folds(tail.as_slice(), SOURCE_STANDARD_FOLDS + MID_STANDARD_FOLDS) {
        Ok(w) => Ok(w),
        Err(e) => Err(ZkCapsuleAlgebraError::from(e)),
    }
}

/// Folds the next variable of the tail: neighbours are paired.
pub fn tail16_local_fold<F: TowerField>(tail: &[F; 16], challenge: F) -> (r: [F; 8])
    ensures
        r@ == fold_low(tail@, challenge),
{
    joint_source_line_fold(tail, challenge)
}

/// The leaf of the folded words: folding a joint leaf of the words of two
/// messages gives the symbol of the word of the folded combination.
pub proof fn lemma_source_fold<F: TowerField, C: AffineCode<F>>(
    code: C,
    bank: Seq<F>,
    companion: Seq<F>,
    gamma: F,
    rs: Seq<F>,
    leaf: int,
)
    requires
        bank.len() == MESSAGE_LEN,
        companion.len() == MESSAGE_LEN,
        rs.len() == 3,
        0 <= leaf < SOURCE_LEAF_COUNT,
    ensures
        ({
            let joint = interleaved(
                code.word(bank, 0).subrange(8 * leaf, 8 * leaf + 8),
                code.word(companion, 0).subrange(8 * leaf, 8 * leaf + 8),
            );
            let mixed = Seq::new(bank.len(), |i: int| line(bank[i], companion[i], gamma));
            code.coset_result(fold_low(joint, gamma), 0, leaf, rs) == Ok::<F, ZkAffineCodeError>(
                code.word(fold_low_all(mixed, rs), 3)[leaf],
            )
        }),
{
    vstd::arithmetic::power2::lemma2_to64();
    let wb = code.word(bank, 0);
    let wc = code.word(companion, 0);
    let sum_message = Seq::new(bank.len(), |i: int| bank[i].add(F::one().mul(companion[i])));
    let mixed = Seq::new(bank.len(), |i: int| line(bank[i], companion[i], gamma));
    let other = Seq::new(bank.len(), |i: int| bank[i].add(gamma.mul(sum_message[i])));
    assert forall|i: int| 0 <= i < bank.len() implies mixed[i] == other[i] by {
        lemma_units(companion[i]);
    }
    assert(mixed =~= other);
    let wm = code.word(mixed, 0);
    code.word_shape(bank, 0);
    code.word_shape(companion, 0);
    code.word_shape(mixed, 0);
    let joint = interleaved(
        wb.subrange(8 * leaf, 8 * leaf + 8),
        wc.subrange(8 * leaf, 8 * leaf + 8),
    );
    let coset = wm.subrange(leaf * pow2(3), leaf * pow2(3) + pow2(3));
    assert forall|k: int| 0 <= k < 8 implies fold_low(joint, gamma)[k] == coset[k] by {
        let i = 8 * leaf + k;
        code.word_linear(bank, companion, F::one(), 0, i);
        code.word_linear(bank, sum_message, gamma, 0, i);
        lemma_units(wc[i]);
        assert(joint[2 * k] == wb[i]);
        assert(joint[2 * k + 1] == wc[i]);
    }
    assert(fold_low(joint, gamma) =~= coset);
    code.coset_law(mixed, 0, rs, leaf);
}

/// Folding a mid leaf gives the symbol of the word of the folded message.
pub proof fn lemma_mid_fold<F: TowerField, C: AffineCode<F>>(
    code: C,
    t: Seq<F>,
    rs: Seq<F>,
    leaf: int,
)
    requires
        t.len() == 256,
        rs.len() == 4,
        0 <= leaf < MID_LEAF_COUNT,
    ensures
        code.coset_result(
            code.word(t, 3).subrange(16 * leaf, 16 * leaf + 16),
            3,
            leaf,
            rs,
        ) == Ok::<F, ZkAffineCodeError>(code.word(fold_low_all(t, rs), 7)[leaf]),
{
    vstd::arithmetic::power2::lemma2_to64();
    code.word_shape(t, 3);
    code.coset_law(t, 3, rs, leaf);
    assert(leaf * pow2(4) == 16 * leaf);
}

/// The bank with its three highest variables set, for every assignment of the
/// eight lowest.
pub fn contract_high3_for_each_low8<F: TowerField>(bank: &[F; 2048], high_point: &[F; 3]) -> (r: [F;
    256])
    ensures
        r@ == high_table(bank@, high_point@, 3),
{
    let zero = F::zero_value();
    let mut out: [F; 256] = [zero; 256];
    let ghost want = high_table(bank@, high_point@, 3);
    proof {
        vstd::arithmetic::power2::lemma2_to64();
        crate::high_fold::lemma_high_table_len(bank@, high_point@, 3, 11);
    }
    let mut low: usize = 0;
    while low < 256
        invariant
            low <= 256,
            want == high_table(bank@, high_point@, 3),
            want.len() == 256,
            forall|j: int| 0 <= j < low ==> #[trigger] out[j] == want[j],
        decreases 256 - low,
    {
        let line_of = [
            bank[low],
            bank[low + 256],
            bank[low + 512],
            bank[low + 768],
            bank[low + 1024],
            bank[low + 1280],
            bank[low + 1536],
            bank[low + 1792],
        ];
        proof {
            vstd::arithmetic::power2::lemma2_to64();
            assert(line_of@ =~= stride(bank@, 256, low as int, 8));
            lemma_stride_mle(bank@, high_point@, 8, low as int, 3);
            let one = stride(want, 256, low as int, 1);
            assert(high_point@.take(0).len() == 0);
            assert(one[0] == want[low as int]);
        }
        let v = evaluate_slice(line_of.as_slice(), high_point.as_slice());
        out[low] = v;
        low += 1;
    }
    proof {
        assert(out@ =~= want);
    }
    out
}

/// The value of the contracted table.
pub fn evaluate_upper_at_low8<F: TowerField>(upper: &[F; 256], low_point: &[F; 8]) -> (r: F)
    ensures
        r == mle(upper@, low_point@),
{
    proof {
        vstd::arithmetic::power2::lemma2_to64();
    }
    evaluate_slice(upper.as_slice(), low_point.as_slice())
}

/// The bank with its eight lowest variables set.
pub fn fold_bank_low8<F: TowerField>(bank: &[F; 2048], beta_low: &[F; 8]) -> (r: [F; 8])
    ensures
        r@ == fold_low_all(bank@, beta_low@),
{
    let mut t = copied(bank.as_slice());
    fold_low_vars(&mut t, beta_low.as_slice());
    proof {
        vstd::arithmetic::power2::lemma2_to64();
        lemma_fold_low_len(bank@, beta_low@, 11);
    }
    let r = eight_of(t.as_slice(), 0);
    proof {
        assert(t@.subrange(0, 8) =~= t@);
    }
    r
}

/// The contracted table and the folded table belong to one bank: at a low
/// point the contracted table has the value of the bank, and at the fold point
/// it has the value of the folded table.
pub proof fn lemma_upper_links<F: BinaryField>(bank: Seq<F>, low: Seq<F>, high: Seq<F>)
    requires
        bank.len() == pow2(low.len() + high.len()),
    ensures
        mle(high_table(bank, high, high.len()), low) == mle(bank, low + high),
        mle(fold_low_all(bank, low), high) == mle(bank, low + high),
{
    lemma_high_table_mle(bank, low, high, high.len());
    assert(low + high.take(0) =~= low);
    lemma_fold_low_all_mle(bank, low, high);
}

/// Folding the tail's next variable completes the eight folds.
pub proof fn lemma_tail_fold<F: BinaryField>(bank: Seq<F>, beta: Seq<F>)
    requires
        beta.len() > 0,
    ensures
        fold_low(fold_low_all(bank, beta.drop_last()), beta.last()) == fold_low_all(bank, beta),
{
}

/// A point of the state followed by two zeros.
pub fn fundamental_slice_alignment_point<F: TowerField>(state_point: &[F; 9]) -> (r: [F; 11])
    ensures
        r@ == state_point@ + seq![F::zero(), F::zero()],
{
    let zero = F::zero_value();
    let mut lifted: [F; 11] = [zero; 11];
    let mut k: usize = 0;
    while k < 9
        invariant
            k <= 9,
            forall|j: int| 0 <= j < k ==> #[trigger] lifted[j] == state_point[j],
            lifted[9] == F::zero(),
            lifted[10] == F::zero(),
        decreases 9 - k,
    {
        lifted[k] = state_point[k];
        k += 1;
    }
    proof {
        assert(lifted@ =~= state_point@ + seq![F::zero(), F::zero()]);
    }
    lifted
}

/// The weight of the assignment of zero to both highest variables.
pub open spec fn high_zero_weight<F: BinaryField>(h0: F, h1: F) -> F {
    F::one().add(h0).mul(F::one().add(h1))
}

/// Computes [`high_zero_weight`].
pub fn eq_high_zero<F: TowerField>(high: &[F; 2]) -> (r: F)
    ensures
        r == high_zero_weight(high[0], high[1]),
{
    let one = F::one_value();
    one.plus(high[0]).times(one.plus(high[1]))
}

/// A table of the state, followed by zeros up to the length of a bank.
pub open spec fn embedded<F: BinaryField>(relation: Seq<F>) -> Seq<F> {
    Seq::new(
        OWNER_BANK_RELATION_LEN as nat,
        |i: int|
            if i < OWNER_STATE_RELATION_LEN {
                relation[i]
            } else {
                F::zero()
            },
    )
}

/// Embeds a table of the state into a bank whose other values are zero.
pub fn fundamental_slice_relation_embedding<F: TowerField>(relation: &[F; 512]) -> (r: [F; 2048])
    ensures
        r@ == embedded(relation@),
{
    let zero = F::zero_value();
    let mut out: [F; 2048] = [zero; 2048];
    let mut k: usize = 0;
    while k < 512
        invariant
            k <= 512,
            forall|j: int| 0 <= j < k ==> #[trigger] out[j] == relation[j],
            forall|j: int| k <= j < 2048 ==> #[trigger] out[j] == F::zero(),
        decreases 512 - k,
    {
        out[k] = relation[k];
        k += 1;
    }
    proof {
        assert(out@ =~= embedded(relation@));
    }
    out
}

/// The value of the embedded table at a point of the bank.
pub fn evaluate_fundamental_slice_embedding<F: TowerField>(
    relation: &[F; 512],
    terminal_point: &[F; 11],
) -> (r: F)
    ensures
        r == mle(relation@, terminal_point@.take(9)).mul(
            high_zero_weight(terminal_point[9], terminal_point[10]),
        ),
        r == mle(embedded(relation@), terminal_point@),
{
    let low = subrange(terminal_point.as_slice(), 0, 9);
    proof {
        assert(low@ =~= terminal_point@.take(9));
        vstd::arithmetic::power2::lemma2_to64();
        lemma_embedding(relation@, terminal_point@);
    }
    let weight = eq_high_zero(&[terminal_point[9], terminal_point[10]]);
    evaluate_slice(relation.as_slice(), low.as_slice()).times(weight)
}

proof fn lemma_zero_half<F: BinaryField>(t: Seq<F>, r: F, n: nat)
    requires
        n > 0,
        t.len() == pow2(n),
        forall|i: int| pow2((n - 1) as nat) <= i < pow2(n) ==> #[trigger] t[i] == F::zero(),
    ensures
        fold(t, r) == Seq::new(
            pow2((n - 1) as nat),
            |i: int| F::one().add(r).mul(t.take(pow2((n - 1) as nat) as int)[i]),
        ),
{
    lemma_half_pow2(n);
    let half = pow2((n - 1) as nat) as int;
    let out = Seq::new(pow2((n - 1) as nat), |i: int| F::one().add(r).mul(t.take(half)[i]));
    assert forall|i: int| 0 <= i < half implies fold(t, r)[i] == out[i] by {
        assert(t[i + half] == F::zero());
        lemma_line_form(t[i], F::zero(), r);
        lemma_units(r);
        F::add_zero(F::one().add(r).mul(t[i]));
    }
    assert(fold(t, r) =~= out);
}

/// The value of the embedded table is the value of the state's table, weighed
/// by the two highest coordinates.
pub proof fn lemma_embedding<F: BinaryField>(relation: Seq<F>, point: Seq<F>)
    requires
        relation.len() == OWNER_STATE_RELATION_LEN,
        point.len() == OWNER_BANK_POINT_VARS,
    ensures
        mle(embedded(relation), point) == mle(relation, point.take(9)).mul(
            high_zero_weight(point[9], point[10]),
        ),
{
    vstd::arithmetic::power2::lemma2_to64();
    let e = embedded(relation);
    let (h0, h1) = (point[9], point[10]);
    let (k0, k1) = (F::one().add(h0), F::one().add(h1));
    let p10 = point.drop_last();
    let p9 = p10.drop_last();
    assert(p9 =~= point.take(9));
    lemma_zero_half(e, h1, 11);
    let lower = e.take(1024);
    lemma_mle_scale(k1, lower, p10);
    assert(fold(e, h1) =~= Seq::new(lower.len(), |i: int| k1.mul(lower[i])));
    lemma_zero_half(lower, h0, 10);
    let first = lower.take(512);
    assert(first =~= relation);
    lemma_mle_scale(k0, first, p9);
    assert(fold(lower, h0) =~= Seq::new(first.len(), |i: int| k0.mul(first[i])));
    let v = mle(relation, p9);
    // k1 (k0 v) == v (k0 k1)
    F::mul_assoc(k1, k0, v);
    F::mul_comm(k1, k0);
    F::mul_comm(k0.mul(k1), v);
}

/// At a point of the state followed by zeros, the embedded table has the value
/// of the state's table.
pub proof fn lemma_alignment<F: BinaryField>(relation: Seq<F>, state_point: Seq<F>)
    requires
        relation.len() == OWNER_STATE_RELATION_LEN,
        state_point.len() == OWNER_STATE_POINT_VARS,
    ensures
        mle(embedded(relation), state_point + seq![F::zero(), F::zero()]) == mle(
            relation,
            state_point,
        ),
{
    let point = state_point + seq![F::zero(), F::zero()];
    lemma_embedding(relation, point);
    assert(point.take(9) =~= state_point);
    F::add_zero(F::one());
    lemma_units(F::one());
    F::mul_one(F::one());
    F::mul_one(mle(relation, state_point));
}

} // verus!
