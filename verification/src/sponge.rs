//! The sponge over the permutation: two lanes of rate, two of capacity.
use vstd::prelude::*;
use crate::field::TowerField;
use crate::hashing::{le_bytes, le_value, push_le, read_le_u128};
use crate::layers::{PermParams, permute, permuted};

verus! {

/// The state that absorbs a first block: the block, then the initial capacity.
pub open spec fn head<F: TowerField>(block: Seq<F>, iv: Seq<F>) -> Seq<F> {
    seq![block[0], block[1], iv[0], iv[1]]
}

/// The state that absorbs a further block into a permuted state.
pub open spec fn chained<F: TowerField>(out: Seq<F>, block: Seq<F>) -> Seq<F> {
    seq![out[0].add(block[0]), out[1].add(block[1]), out[2], out[3]]
}

/// The state of zeros.
pub open spec fn zero_state<F: TowerField>() -> Seq<F> {
    seq![F::zero(), F::zero(), F::zero(), F::zero()]
}

/// The digest of a permuted state.
pub open spec fn digest<F>(out: Seq<F>) -> Seq<F> {
    seq![out[0], out[1]]
}

/// The lower padding lane: its first byte is 0x80.
pub open spec fn pad_low<F: TowerField>() -> F {
    F::of_u128(0x80)
}

/// The upper padding lane: its last byte is 0x01.
pub open spec fn pad_high<F: TowerField>() -> F {
    F::of_u128(0x0100_0000_0000_0000_0000_0000_0000_0000)
}

/// The block that pads a full buffer.
pub open spec fn padding<F: TowerField>() -> Seq<F> {
    seq![pad_low::<F>(), pad_high::<F>()]
}

/// The digest of one block.
pub open spec fn hash1<F: TowerField>(params: PermParams<F>, iv: Seq<F>, a: Seq<F>) -> Seq<F> {
    digest(permuted(params, head(a, iv)))
}

/// The digest of two blocks.
pub open spec fn hash2<F: TowerField>(
    params: PermParams<F>,
    iv: Seq<F>,
    a: Seq<F>,
    b: Seq<F>,
) -> Seq<F> {
    digest(permuted(params, chained(permuted(params, head(a, iv)), b)))
}

/// The digest of three blocks.
pub open spec fn hash3<F: TowerField>(
    params: PermParams<F>,
    iv: Seq<F>,
    a: Seq<F>,
    b: Seq<F>,
    c: Seq<F>,
) -> Seq<F> {
    let first = permuted(params, head(a, iv));
    let second = permuted(params, chained(first, b));
    digest(permuted(params, chained(second, c)))
}

/// Computes [`head`].
pub fn head_state<F: TowerField>(block: &[F; 2], iv: &[F; 2]) -> (r: [F; 4])
    ensures
        r@ == head(block@, iv@),
{
    let r = [block[0], block[1], iv[0], iv[1]];
    proof {
        assert(r@ =~= head(block@, iv@));
    }
    r
}

/// Computes [`chained`].
pub fn chained_state<F: TowerField>(out: &[F; 4], block: &[F; 2]) -> (r: [F; 4])
    ensures
        r@ == chained(out@, block@),
{
    let r = [out[0].plus(block[0]), out[1].plus(block[1]), out[2], out[3]];
    proof {
        assert(r@ =~= chained(out@, block@));
    }
    r
}

/// Computes [`digest`].
pub fn digest_of_state<F: TowerField>(out: &[F; 4]) -> (r: [F; 2])
    ensures
        r@ == digest(out@),
{
    let r = [out[0], out[1]];
    proof {
        assert(r@ =~= digest(out@));
    }
    r
}

/// Computes [`padding`].
pub fn padding_absorb_block<F: TowerField>() -> (r: [F; 2])
    ensures
        r@ == padding::<F>(),
{
    let r = [F::from_u128(0x80), F::from_u128(0x0100_0000_0000_0000_0000_0000_0000_0000)];
    proof {
        assert(r@ =~= padding::<F>());
    }
    r
}

/// The state of one permutation of a sponge, before and after.
#[derive(Clone, Copy, Debug, PartialEq, Eq)]
pub struct SlotState<F> {
    pub state_in: [F; 4],
    pub state_out: [F; 4],
}

impl<F: TowerField> SlotState<F> {
    /// The states of a permutation of `input`.
    pub open spec fn of(&self, params: PermParams<F>, input: Seq<F>) -> bool {
        self.state_in@ == input && self.state_out@ == permuted(params, input)
    }

    /// The digest.
    pub fn digest(&self) -> (r: [F; 2])
        ensures
            r@ == digest(self.state_out@),
    {
        digest_of_state(&self.state_out)
    }

    /// Permutes a state.
    pub fn run(params: &PermParams<F>, state_in: [F; 4]) -> (r: Self)
        ensures
            r.of(*params, state_in@),
            r.state_in == state_in,
    {
        SlotState { state_in, state_out: permute(params, state_in) }
    }
}

/// Whether two pairs are equal.
pub fn same_pair<F: TowerField>(a: &[F; 2], b: &[F; 2]) -> (r: bool)
    ensures
        r == (a@ == b@),
{
    let r = a[0].equals(b[0]) && a[1].equals(b[1]);
    proof {
        if r {
            assert(a@ =~= b@);
        } else {
            assert(a@[0] != b@[0] || a@[1] != b@[1]);
        }
    }
    r
}

/// The two lanes of a 32-byte digest.
pub open spec fn lanes_of<F: TowerField>(d: Seq<u8>) -> Seq<F> {
    seq![
        F::of_u128(le_value(d.subrange(0, 16)) as u128),
        F::of_u128(le_value(d.subrange(16, 32)) as u128),
    ]
}

/// Reads a 32-byte digest as two lanes.
pub fn digest_to_fields<F: TowerField>(d: &[u8; 32]) -> (r: [F; 2])
    ensures
        r@ == lanes_of::<F>(d@),
{
    let low: u128 = read_le_u128(d.as_slice(), 0);
    let high: u128 = read_le_u128(d.as_slice(), 16);
    let r = [F::from_u128(low), F::from_u128(high)];
    proof {
        assert(r@ =~= lanes_of::<F>(d@));
    }
    r
}

/// The 32 bytes of two lanes.
pub open spec fn lane_bytes<F: TowerField>(lanes: Seq<F>) -> Seq<u8> {
    le_bytes(lanes[0].bits() as nat, 16) + le_bytes(lanes[1].bits() as nat, 16)
}

/// Writes two lanes as 32 bytes.
pub fn fields_to_digest<F: TowerField>(lanes: &[F; 2]) -> (r: [u8; 32])
    ensures
        r@ == lane_bytes(lanes@),
{
    let mut m: Vec<u8> = Vec::new();
    push_le(&mut m, lanes[0].to_u128(), 16);
    push_le(&mut m, lanes[1].to_u128(), 16);
    proof {
        crate::hashing::lemma_le_bytes_len(lanes[0].bits() as nat, 16);
        crate::hashing::lemma_le_bytes_len(lanes[1].bits() as nat, 16);
        assert(m@ =~= lane_bytes(lanes@));
    }
    let mut r: [u8; 32] = [0u8; 32];
    let mut i: usize = 0;
    while i < 32
        invariant
            i <= 32,
            m.len() == 32,
            forall|k: int| 0 <= k < i ==> #[trigger] r[k] == m[k],
        decreases 32 - i,
    {
        r[i] = m[i];
        i += 1;
    }
    proof {
        assert(r@ =~= m@);
    }
    r
}

/// Writing two lanes as bytes and reading them back gives the lanes.
pub proof fn lemma_digest_round_trip<F: TowerField>(lanes: Seq<F>)
    requires
        lanes.len() == 2,
    ensures
        lanes_of::<F>(lane_bytes(lanes)) == lanes,
{
    let (a, b) = (lanes[0].bits() as nat, lanes[1].bits() as nat);
    let d = lane_bytes(lanes);
    crate::hashing::lemma_le_bytes_len(a, 16);
    crate::hashing::lemma_le_bytes_len(b, 16);
    assert(d.subrange(0, 16) =~= le_bytes(a, 16));
    assert(d.subrange(16, 32) =~= le_bytes(b, 16));
    crate::hashing::lemma_pow256_16();
    crate::hashing::lemma_le_round_trip(a, 16);
    crate::hashing::lemma_le_round_trip(b, 16);
    F::of_u128_bits(lanes[0]);
    F::of_u128_bits(lanes[1]);
    assert(lanes_of::<F>(d) =~= lanes);
}

} // verus!
