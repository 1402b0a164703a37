//! The proof of the update of a bucket of a reuse guard.
//!
//! A bucket's leaf is the digest of whether it is occupied, of a height, and of
//! the digest of a list of spent slots. The proof covers three sponges: the old
//! leaf, the new leaf, and the new list. The old list stays behind its digest.
//! The list is laid out over the places of a fixed capacity, so the schedule
//! depends on the capacity alone.
use vstd::prelude::*;
use vstd::arithmetic::power2::{lemma_pow2_adds, pow2};
use crate::auth_killshot::absorb_pair;
use crate::auth_unified_v2::AuthKillShotProof;
use crate::block_spine_sweep::{BlockSpineMle, is_slot_vars, lemma_slot_vars, num_vars_for};
use crate::field::TowerField;
use crate::killshot::{TraceReductions, kill_shot_byte_len, kill_shot_size};
use crate::layers::PermParams;
use crate::linear_eval::{LinearEvalClaim, LinearEvalProof, LinearView, linear_hold, linear_value, linear_view, linear_wf};
use crate::linked_killshot::{LinkedRun, LinkedVerdict, is_linked_proof, full_mds, lemma_linked_complete, link_claim, linked_run, linked_verdict, prove_linked, source_terms, verify_linked};
use crate::mle::lemma_half_pow2;
use crate::multi_batch::MultiBatchEvalProof;
use crate::sponge::{pad_high, pad_low, padding, padding_absorb_block, same_pair};
use crate::sponge_chain::{block_link, block_link_claims, block_views, chain_digest, chain_states, evaluate_chain, full_chain_claims, lemma_full_chain_holds, lemma_full_chain_wf, lemma_sponge_chain_holds, lemma_sponge_chain_wf, push_full_chain, push_sponge_chain, sponge_chain_claims};
use crate::trace_mle::{input_views, sin_column, sout_column, state_column};
use crate::transcript::{FiatShamir, absorb_all, lemma_absorb_all_add};

verus! {

/// The tag of the reduction of the links.
pub const GUARD_BUCKET_LINEAR_RELATION_TAG: u128 = 0x5247_4442_5543_4B01;

/// The lanes of a digest.
pub const GUARD_BUCKET_PIN_LANES: usize = 2;

/// The permutations of a leaf.
pub const GUARD_LEAF_CHAIN_SLOTS: usize = 3;

/// The domains of the sponges: the tag of the leaf, and the initial capacities.
#[derive(Clone, Copy, Debug, PartialEq, Eq)]
pub struct GuardDomain<F> {
    pub tag: u64,
    pub leaf_iv: [F; 2],
    pub slots_iv: [F; 2],
}

/// A leaf, and the digest that it is said to have.
#[derive(Clone, Copy, Debug, PartialEq, Eq)]
pub struct GuardLeafHashInputs<F> {
    pub occupied: bool,
    pub absolute_height: u64,
    pub slots_digest: [F; 2],
    pub expected_hash: [F; 2],
}

/// The statement: the two leaves, the new list, and the capacity of the list.
#[derive(Clone, Debug, PartialEq, Eq)]
pub struct GuardBucketUpdateInputs<F> {
    pub old_leaf: GuardLeafHashInputs<F>,
    pub new_leaf: GuardLeafHashInputs<F>,
    pub spent_slots: Vec<u32>,
    pub padded_spent_len: usize,
}

/// The proof.
#[derive(Clone, Debug, PartialEq, Eq)]
pub struct BatchedGuardBucketProofKillShot<F> {
    pub kill_shot: AuthKillShotProof<F>,
    pub chain: LinearEvalProof<F>,
    pub batch: MultiBatchEvalProof<F>,
    pub padded_spent_len: usize,
    pub num_vars: usize,
    pub live_slots: usize,
}

/// The claims that are left.
pub type BatchedGuardBucketReductions<F> = TraceReductions<F>;

impl<F: TowerField> BatchedGuardBucketProofKillShot<F> {
    /// The size in bytes: 16 a field element.
    pub open spec fn size(&self) -> nat {
        kill_shot_size(self.kill_shot) + self.chain.rounds.len() as nat * 48 + 16
            + self.batch.rounds.len() as nat * 48 + self.batch.b_finals.len() as nat * 16
    }

    /// Computes [`BatchedGuardBucketProofKillShot::size`].
    pub fn byte_len(&self) -> (r: usize)
        requires
            self.size() <= usize::MAX,
        ensures
            r == self.size(),
    {
        kill_shot_byte_len(&self.kill_shot) + self.chain.byte_len() + self.batch.byte_len()
    }
}

/// The permutations of a list: its length and its slots, two a block, and the
/// padding.
pub open spec fn slots_chain_len(len: nat) -> nat {
    (len + 1) / 2 + 1
}

/// Computes [`slots_chain_len`].
pub fn guard_slots_chain_len(len: usize) -> (r: usize)
    requires
        len < usize::MAX,
    ensures
        r == slots_chain_len(len as nat),
{
    (len + 1) / 2 + 1
}

/// The permutations of an update.
pub open spec fn update_slots(padded: nat) -> nat {
    2 * GUARD_LEAF_CHAIN_SLOTS as nat + slots_chain_len(padded)
}

/// Computes [`update_slots`].
pub fn guard_update_live_slots(padded_spent_len: usize) -> (r: usize)
    requires
        padded_spent_len < usize::MAX,
    ensures
        r == update_slots(padded_spent_len as nat),
{
    2 * GUARD_LEAF_CHAIN_SLOTS + guard_slots_chain_len(padded_spent_len)
}

/// One, or zero.
pub open spec fn flag(b: bool) -> u128 {
    if b {
        1
    } else {
        0
    }
}

fn flag_bits(b: bool) -> (r: u128)
    ensures
        r == flag(b),
{
    if b {
        1
    } else {
        0
    }
}

/// The blocks of a leaf.
pub open spec fn leaf_block_views<F: TowerField>(leaf: GuardLeafHashInputs<F>) -> Seq<Seq<F>> {
    seq![
        seq![F::of_u128(flag(leaf.occupied)), F::of_u128(leaf.absolute_height as u128)],
        leaf.slots_digest@,
        padding(),
    ]
}

/// The padding after a block's first element.
pub open spec fn pad_after_one<F: TowerField>() -> F {
    F::of_u128(0x0100_0000_0000_0000_0000_0000_0000_0080)
}

/// The element that the sponge of a list absorbs at a position: the length, the
/// slots, the padding, and zeros.
pub open spec fn slots_field<F: TowerField>(spent: Seq<u32>, q: int) -> F {
    let len = spent.len();
    if q == 0 {
        F::of_u128(len as u128)
    } else if q <= len {
        F::of_u128(spent[q - 1] as u128)
    } else if q == len + 1 {
        if q % 2 == 0 {
            pad_low()
        } else {
            pad_after_one()
        }
    } else if q == len + 2 && q % 2 == 1 {
        pad_high()
    } else {
        F::zero()
    }
}

/// The blocks of a list, over the places of a capacity.
pub open spec fn slots_block_views<F: TowerField>(spent: Seq<u32>, padded: nat) -> Seq<Seq<F>> {
    Seq::new(
        slots_chain_len(padded),
        |p: int| seq![slots_field(spent, 2 * p), slots_field(spent, 2 * p + 1)],
    )
}

/// The slots rise.
pub open spec fn rising(spent: Seq<u32>) -> bool {
    forall|i: int| 0 <= i < spent.len() - 1 ==> spent[i] < #[trigger] spent[i + 1]
}

/// Whether a statement is in canonical form: an empty old leaf is all zero, the
/// new one is occupied, and the list is not empty, rises and fits.
pub open spec fn canonical<F: TowerField>(inputs: GuardBucketUpdateInputs<F>) -> bool {
    let old_leaf = inputs.old_leaf;
    &&& old_leaf.occupied || (old_leaf.absolute_height == 0 && old_leaf.slots_digest@ == seq![
        F::zero(),
        F::zero(),
    ])
    &&& inputs.new_leaf.occupied
    &&& inputs.spent_slots.len() > 0
    &&& rising(inputs.spent_slots@)
    &&& inputs.spent_slots.len() <= inputs.padded_spent_len
}

/// Whether a leaf has the digest that it is said to have.
pub open spec fn leaf_holds<F: TowerField>(
    params: PermParams<F>,
    iv: Seq<F>,
    leaf: GuardLeafHashInputs<F>,
) -> bool {
    chain_digest(params, iv, leaf_block_views(leaf), 3) == leaf.expected_hash@
}

/// The number of live blocks of the list.
pub open spec fn live_blocks<F>(inputs: GuardBucketUpdateInputs<F>) -> nat {
    slots_chain_len(inputs.spent_slots.len() as nat)
}

/// Whether a statement is canonical and true.
pub open spec fn update_holds<F: TowerField>(
    params: PermParams<F>,
    domain: GuardDomain<F>,
    inputs: GuardBucketUpdateInputs<F>,
) -> bool {
    &&& canonical(inputs)
    &&& leaf_holds(params, domain.leaf_iv@, inputs.old_leaf)
    &&& leaf_holds(params, domain.leaf_iv@, inputs.new_leaf)
    &&& chain_digest(
        params,
        domain.slots_iv@,
        slots_block_views(inputs.spent_slots@, inputs.padded_spent_len as nat),
        live_blocks(inputs),
    ) == inputs.new_leaf.slots_digest@
}

/// The inputs of all the permutations.
pub open spec fn update_ins<F: TowerField>(
    params: PermParams<F>,
    domain: GuardDomain<F>,
    inputs: GuardBucketUpdateInputs<F>,
) -> Seq<Seq<F>> {
    chain_states(params, domain.leaf_iv@, leaf_block_views(inputs.old_leaf), 3) + chain_states(
        params,
        domain.leaf_iv@,
        leaf_block_views(inputs.new_leaf),
        3,
    ) + chain_states(
        params,
        domain.slots_iv@,
        slots_block_views(inputs.spent_slots@, inputs.padded_spent_len as nat),
        live_blocks(inputs),
    )
}

/// Whether a statement is canonical.
fn inputs_are_canonical<F: TowerField>(inputs: &GuardBucketUpdateInputs<F>) -> (r: bool)
    ensures
        r == canonical(*inputs),
{
    let zero = [F::zero_value(), F::zero_value()];
    proof {
        assert(zero@ =~= seq![F::zero(), F::zero()]);
    }
    if !inputs.old_leaf.occupied && !(inputs.old_leaf.absolute_height == 0 && same_pair(
        &inputs.old_leaf.slots_digest,
        &zero,
    )) {
        return false;
    }
    if !inputs.new_leaf.occupied || inputs.spent_slots.len() == 0 || inputs.spent_slots.len()
        > inputs.padded_spent_len {
        return false;
    }
    let mut i: usize = 1;
    while i < inputs.spent_slots.len()
        invariant
            1 <= i <= inputs.spent_slots.len(),
            forall|k: int|
                0 <= k < i - 1 ==> inputs.spent_slots@[k] < #[trigger] inputs.spent_slots@[k + 1],
        decreases inputs.spent_slots.len() - i,
    {
        if inputs.spent_slots[i - 1] >= inputs.spent_slots[i] {
            proof {
                assert(!(inputs.spent_slots@[i - 1] < inputs.spent_slots@[(i - 1) + 1]));
            }
            return false;
        }
        i += 1;
    }
    true
}

/// The blocks of a leaf.
fn leaf_blocks<F: TowerField>(leaf: &GuardLeafHashInputs<F>) -> (r: [[F; 2]; 3])
    ensures
        block_views(r@) == leaf_block_views(*leaf),
{
    let first = [
        F::from_u128(flag_bits(leaf.occupied)),
        F::from_u128(leaf.absolute_height as u128),
    ];
    let last = padding_absorb_block();
    let r = [first, leaf.slots_digest, last];
    proof {
        let want = leaf_block_views(*leaf);
        assert(first@ =~= want[0]);
        assert(block_views(r@) =~= want);
    }
    r
}

/// The element at a position of the sponge of a list.
fn slots_field_at<F: TowerField>(spent_slots: &[u32], q: usize) -> (r: F)
    requires
        spent_slots.len() < usize::MAX - 2,
    ensures
        r == slots_field::<F>(spent_slots@, q as int),
{
    let len: usize = spent_slots.len();
    if q == 0 {
        F::from_u128(len as u128)
    } else if q <= len {
        F::from_u128(spent_slots[q - 1] as u128)
    } else if q == len + 1 {
        if q % 2 == 0 {
            F::from_u128(0x80)
        } else {
            F::from_u128(0x0100_0000_0000_0000_0000_0000_0000_0080)
        }
    } else if q == len + 2 && q % 2 == 1 {
        F::from_u128(0x0100_0000_0000_0000_0000_0000_0000_0000)
    } else {
        F::zero_value()
    }
}

/// The blocks of a list, over the places of a capacity.
fn slots_blocks_padded<F: TowerField>(spent_slots: &[u32], padded_spent_len: usize) -> (r: Vec<
    [F; 2],
>)
    requires
        spent_slots.len() <= padded_spent_len < usize::MAX - 4,
    ensures
        block_views(r@) == slots_block_views::<F>(spent_slots@, padded_spent_len as nat),
{
    let ghost want = slots_block_views::<F>(spent_slots@, padded_spent_len as nat);
    let count: usize = guard_slots_chain_len(padded_spent_len);
    let mut out: Vec<[F; 2]> = Vec::new();
    let mut p: usize = 0;
    while p < count
        invariant
            p <= count,
            count == slots_chain_len(padded_spent_len as nat),
            spent_slots.len() <= padded_spent_len < usize::MAX - 4,
            want == slots_block_views::<F>(spent_slots@, padded_spent_len as nat),
            out.len() == p,
            forall|k: int| 0 <= k < p ==> (#[trigger] out[k])@ == want[k],
        decreases count - p,
    {
        let block = [slots_field_at(spent_slots, 2 * p), slots_field_at(spent_slots, 2 * p + 1)];
        proof {
            assert(block@ =~= want[p as int]);
        }
        out.push(block);
        p += 1;
    }
    proof {
        assert(block_views(out@) =~= want);
    }
    out
}

/// The inputs of the permutations of a true statement.
fn evaluate_update<F: TowerField>(
    params: &PermParams<F>,
    domain: &GuardDomain<F>,
    inputs: &GuardBucketUpdateInputs<F>,
) -> (r: Option<Vec<[F; 4]>>)
    requires
        inputs.padded_spent_len < usize::MAX - 4,
    ensures
        r is Some <==> update_holds(*params, *domain, *inputs),
        r matches Some(ins) ==> input_views(ins@) == update_ins(*params, *domain, *inputs),
{
    if !inputs_are_canonical(inputs) {
        return None;
    }
    let old_blocks = leaf_blocks(&inputs.old_leaf);
    let old_ins = evaluate_chain(
        params,
        old_blocks.as_slice(),
        GUARD_LEAF_CHAIN_SLOTS,
        &domain.leaf_iv,
        &inputs.old_leaf.expected_hash,
    );
    let mut ins = match old_ins {
        Some(ins) => ins,
        None => {
            return None;
        },
    };
    let ghost first = ins@;
    let new_blocks = leaf_blocks(&inputs.new_leaf);
    let new_ins = evaluate_chain(
        params,
        new_blocks.as_slice(),
        GUARD_LEAF_CHAIN_SLOTS,
        &domain.leaf_iv,
        &inputs.new_leaf.expected_hash,
    );
    let mut new_ins = match new_ins {
        Some(ins) => ins,
        None => {
            return None;
        },
    };
    let ghost second = new_ins@;
    let slots_blocks = slots_blocks_padded(inputs.spent_slots.as_slice(), inputs.padded_spent_len);
    proof {
        assert(block_views(slots_blocks@).len() == slots_blocks.len());
    }
    let slots_ins = evaluate_chain(
        params,
        slots_blocks.as_slice(),
        guard_slots_chain_len(inputs.spent_slots.len()),
        &domain.slots_iv,
        &inputs.new_leaf.slots_digest,
    );
    let mut slots_ins = match slots_ins {
        Some(ins) => ins,
        None => {
            return None;
        },
    };
    let ghost third = slots_ins@;
    ins.append(&mut new_ins);
    ins.append(&mut slots_ins);
    proof {
        assert(ins@ =~= first + second + third);
        assert(input_views(ins@) =~= input_views(first) + input_views(second) + input_views(third));
    }
    Some(ins)
}

/// What the transcript absorbs of a leaf.
pub open spec fn leaf_elems<F: TowerField>(leaf: GuardLeafHashInputs<F>) -> Seq<F> {
    seq![F::of_u128(flag(leaf.occupied)), F::of_u128(leaf.absolute_height as u128)]
        + leaf.slots_digest@ + leaf.expected_hash@
}

/// The slot at a place of the list; zero after the end.
pub open spec fn padded_slot(spent: Seq<u32>, q: int) -> u32 {
    if q < spent.len() {
        spent[q]
    } else {
        0
    }
}

/// What the transcript absorbs of the statement.
pub open spec fn update_elems<F: TowerField>(
    domain: GuardDomain<F>,
    inputs: GuardBucketUpdateInputs<F>,
) -> Seq<F> {
    seq![F::of_u128(domain.tag as u128), F::of_u128(inputs.padded_spent_len as u128)] + leaf_elems(
        inputs.old_leaf,
    ) + leaf_elems(inputs.new_leaf) + seq![F::of_u128(inputs.spent_slots.len() as u128)]
        + Seq::new(
        inputs.padded_spent_len as nat,
        |q: int| F::of_u128(padded_slot(inputs.spent_slots@, q) as u128),
    )
}

fn absorb_public_leaf<F: TowerField, T: FiatShamir<F>>(
    channel: &mut T,
    leaf: &GuardLeafHashInputs<F>,
)
    ensures
        *final(channel) == absorb_all(*old(channel), leaf_elems(*leaf)),
{
    let ghost begin = *channel;
    let first = [
        F::from_u128(flag_bits(leaf.occupied)),
        F::from_u128(leaf.absolute_height as u128),
    ];
    absorb_pair(channel, &first);
    absorb_pair(channel, &leaf.slots_digest);
    absorb_pair(channel, &leaf.expected_hash);
    proof {
        assert(first@ =~= seq![
            F::of_u128(flag(leaf.occupied)),
            F::of_u128(leaf.absolute_height as u128),
        ]);
        lemma_absorb_all_add(begin, first@, leaf.slots_digest@);
        lemma_absorb_all_add(begin, first@ + leaf.slots_digest@, leaf.expected_hash@);
    }
}

/// Absorbs the statement.
fn absorb_public_batch<F: TowerField, T: FiatShamir<F>>(
    channel: &mut T,
    domain: &GuardDomain<F>,
    inputs: &GuardBucketUpdateInputs<F>,
)
    ensures
        *final(channel) == absorb_all(*old(channel), update_elems(*domain, *inputs)),
{
    let ghost begin = *channel;
    let first = [
        F::from_u128(domain.tag as u128),
        F::from_u128(inputs.padded_spent_len as u128),
    ];
    absorb_pair(channel, &first);
    absorb_public_leaf(channel, &inputs.old_leaf);
    absorb_public_leaf(channel, &inputs.new_leaf);
    channel.absorb(F::from_u128(inputs.spent_slots.len() as u128));
    let ghost len = F::of_u128(inputs.spent_slots.len() as u128);
    let ghost second = first@ + leaf_elems(inputs.old_leaf);
    let ghost third = second + leaf_elems(inputs.new_leaf);
    let ghost fourth = third + seq![len];
    let ghost slots = Seq::new(
        inputs.padded_spent_len as nat,
        |q: int| F::of_u128(padded_slot(inputs.spent_slots@, q) as u128),
    );
    proof {
        assert(first@ =~= seq![
            F::of_u128(domain.tag as u128),
            F::of_u128(inputs.padded_spent_len as u128),
        ]);
        lemma_absorb_all_add(begin, first@, leaf_elems(inputs.old_leaf));
        lemma_absorb_all_add(begin, second, leaf_elems(inputs.new_leaf));
        assert(fourth.drop_last() =~= third);
        assert(fourth + slots.take(0) =~= fourth);
    }
    let mut q: usize = 0;
    while q < inputs.padded_spent_len
        invariant
            q <= inputs.padded_spent_len,
            slots == Seq::new(
                inputs.padded_spent_len as nat,
                |q: int| F::of_u128(padded_slot(inputs.spent_slots@, q) as u128),
            ),
            *channel == absorb_all(begin, fourth + slots.take(q as int)),
        decreases inputs.padded_spent_len - q,
    {
        let slot: u32 = if q < inputs.spent_slots.len() {
            inputs.spent_slots[q]
        } else {
            0
        };
        channel.absorb(F::from_u128(slot as u128));
        proof {
            let next = fourth + slots.take(q + 1);
            assert(next.drop_last() =~= fourth + slots.take(q as int));
            assert(next.last() == slots[q as int]);
        }
        q += 1;
    }
    proof {
        assert(slots.take(q as int) =~= slots);
    }
}

/// All the claims: those of the old leaf, of the new leaf, and of the list.
pub open spec fn update_claims<F: TowerField>(
    params: PermParams<F>,
    domain: GuardDomain<F>,
    inputs: GuardBucketUpdateInputs<F>,
    n: nat,
) -> Seq<LinearView<F>> {
    full_chain_claims(
        params,
        domain.leaf_iv@,
        leaf_block_views(inputs.old_leaf),
        0,
        inputs.old_leaf.expected_hash@,
        n,
    ) + full_chain_claims(
        params,
        domain.leaf_iv@,
        leaf_block_views(inputs.new_leaf),
        3,
        inputs.new_leaf.expected_hash@,
        n,
    ) + sponge_chain_claims(
        params,
        domain.slots_iv@,
        slots_block_views(inputs.spent_slots@, inputs.padded_spent_len as nat),
        live_blocks(inputs),
        6,
        inputs.new_leaf.slots_digest@,
        n,
    )
}

/// Builds all the claims.
pub fn guard_update_chain_claims<F: TowerField>(
    params: &PermParams<F>,
    domain: &GuardDomain<F>,
    inputs: &GuardBucketUpdateInputs<F>,
    num_vars: usize,
) -> (claims: Vec<LinearEvalClaim<F>>)
    requires
        inputs.spent_slots.len() <= inputs.padded_spent_len < usize::MAX - 4,
        9 <= num_vars,
        update_slots(inputs.padded_spent_len as nat) * 512 <= pow2(num_vars as nat) <= usize::MAX,
    ensures
        linear_view(claims@) == update_claims(*params, *domain, *inputs, num_vars as nat),
{
    let old_blocks = leaf_blocks(&inputs.old_leaf);
    let new_blocks = leaf_blocks(&inputs.new_leaf);
    let slots_blocks = slots_blocks_padded(inputs.spent_slots.as_slice(), inputs.padded_spent_len);
    proof {
        assert(block_views(slots_blocks@).len() == slots_blocks.len());
    }
    let mut claims: Vec<LinearEvalClaim<F>> = Vec::new();
    push_full_chain(
        &mut claims,
        params,
        &domain.leaf_iv,
        old_blocks.as_slice(),
        0,
        &inputs.old_leaf.expected_hash,
        num_vars,
    );
    push_full_chain(
        &mut claims,
        params,
        &domain.leaf_iv,
        new_blocks.as_slice(),
        GUARD_LEAF_CHAIN_SLOTS,
        &inputs.new_leaf.expected_hash,
        num_vars,
    );
    push_sponge_chain(
        &mut claims,
        params,
        &domain.slots_iv,
        slots_blocks.as_slice(),
        guard_slots_chain_len(inputs.spent_slots.len()),
        2 * GUARD_LEAF_CHAIN_SLOTS,
        &inputs.new_leaf.slots_digest,
        num_vars,
    );
    proof {
        assert(linear_view(claims@) =~= update_claims(*params, *domain, *inputs, num_vars as nat));
    }
    claims
}

proof fn lemma_wf_add<F: TowerField>(a: Seq<LinearView<F>>, b: Seq<LinearView<F>>, n: nat)
    requires
        linear_wf(a, n),
        linear_wf(b, n),
    ensures
        linear_wf(a + b, n),
{
    let all = a + b;
    assert forall|i: int, t: int|
        0 <= i < all.len() && 0 <= t < all[i].terms.len() implies #[trigger] all[i].terms[t].point.len()
        == n by {
        if i < a.len() {
            assert(all[i] == a[i]);
            assert(a[i].terms[t].point.len() == n);
        } else {
            assert(all[i] == b[i - a.len()]);
            assert(b[i - a.len()].terms[t].point.len() == n);
        }
    }
}

proof fn lemma_hold_add<F: TowerField>(a: Seq<LinearView<F>>, b: Seq<LinearView<F>>, column: Seq<F>)
    requires
        linear_hold(a, column),
        linear_hold(b, column),
    ensures
        linear_hold(a + b, column),
{
    let all = a + b;
    assert forall|i: int| 0 <= i < all.len() implies (#[trigger] all[i]).value == linear_value(
        all[i].terms,
        column,
    ) by {
        if i < a.len() {
            assert(all[i] == a[i]);
            assert(a[i].value == linear_value(a[i].terms, column));
        } else {
            assert(all[i] == b[i - a.len()]);
            assert(b[i - a.len()].value == linear_value(b[i - a.len()].terms, column));
        }
    }
}

proof fn lemma_update_claims_wf<F: TowerField>(
    params: PermParams<F>,
    domain: GuardDomain<F>,
    inputs: GuardBucketUpdateInputs<F>,
    n: nat,
)
    ensures
        linear_wf(update_claims(params, domain, inputs, n), n),
{
    let leaf_iv = domain.leaf_iv@;
    let old_views = leaf_block_views(inputs.old_leaf);
    let new_views = leaf_block_views(inputs.new_leaf);
    let slots = slots_block_views(inputs.spent_slots@, inputs.padded_spent_len as nat);
    let live = live_blocks(inputs);
    let old_hash = inputs.old_leaf.expected_hash@;
    let new_hash = inputs.new_leaf.expected_hash@;
    let slots_digest = inputs.new_leaf.slots_digest@;
    lemma_full_chain_wf(params, leaf_iv, old_views, 0, old_hash, n);
    lemma_full_chain_wf(params, leaf_iv, new_views, 3, new_hash, n);
    lemma_sponge_chain_wf(params, domain.slots_iv@, slots, live, 6, slots_digest, n);
    let a = full_chain_claims(params, leaf_iv, old_views, 0, old_hash, n);
    let b = full_chain_claims(params, leaf_iv, new_views, 3, new_hash, n);
    let c = sponge_chain_claims(params, domain.slots_iv@, slots, live, 6, slots_digest, n);
    lemma_wf_add(a, b, n);
    lemma_wf_add(a + b, c, n);
}

/// The claims of a true statement are true of the state column.
pub proof fn lemma_update_claims_hold<F: TowerField>(
    params: PermParams<F>,
    domain: GuardDomain<F>,
    inputs: GuardBucketUpdateInputs<F>,
    n: nat,
)
    requires
        n >= 9,
        update_holds(params, domain, inputs),
        update_slots(inputs.padded_spent_len as nat) * 512 <= pow2(n),
    ensures
        linear_hold(
            update_claims(params, domain, inputs, n),
            state_column(params, update_ins(params, domain, inputs), pow2(n)),
        ),
{
    let leaf_iv = domain.leaf_iv@;
    let old_views = leaf_block_views(inputs.old_leaf);
    let new_views = leaf_block_views(inputs.new_leaf);
    let slots = slots_block_views(inputs.spent_slots@, inputs.padded_spent_len as nat);
    let live = live_blocks(inputs);
    let old_hash = inputs.old_leaf.expected_hash@;
    let new_hash = inputs.new_leaf.expected_hash@;
    let slots_digest = inputs.new_leaf.slots_digest@;
    let ins = update_ins(params, domain, inputs);
    let column = state_column(params, ins, pow2(n));
    lemma_full_chain_holds(params, leaf_iv, old_views, 0, old_hash, ins, n);
    lemma_full_chain_holds(params, leaf_iv, new_views, 3, new_hash, ins, n);
    lemma_sponge_chain_holds(params, domain.slots_iv@, slots, live, 6, slots_digest, ins, n);
    let a = full_chain_claims(params, leaf_iv, old_views, 0, old_hash, n);
    let b = full_chain_claims(params, leaf_iv, new_views, 3, new_hash, n);
    let c = sponge_chain_claims(params, domain.slots_iv@, slots, live, 6, slots_digest, n);
    lemma_hold_add(a, b, column);
    lemma_hold_add(a + b, c, column);
}

/// Two updates of one capacity have claims of the same shape, whatever their
/// lists hold.
pub proof fn lemma_same_shape<F: TowerField>(
    params: PermParams<F>,
    domain: GuardDomain<F>,
    a: GuardBucketUpdateInputs<F>,
    b: GuardBucketUpdateInputs<F>,
    n: nat,
)
    requires
        a.padded_spent_len == b.padded_spent_len,
    ensures
        ({
            let x = update_claims(params, domain, a, n);
            let y = update_claims(params, domain, b, n);
            &&& x.len() == y.len()
            &&& forall|i: int|
                0 <= i < x.len() ==> (#[trigger] x[i]).terms.len() == y[i].terms.len()
        }),
{
    let leaf_iv = domain.leaf_iv@;
    let padded = a.padded_spent_len as nat;
    let slots_a = slots_block_views(a.spent_slots@, padded);
    let slots_b = slots_block_views(b.spent_slots@, padded);
    lemma_shape_links(
        params,
        leaf_iv,
        leaf_block_views(a.old_leaf),
        leaf_block_views(b.old_leaf),
        3,
        3,
        0,
        n,
        3,
    );
    lemma_shape_links(
        params,
        leaf_iv,
        leaf_block_views(a.new_leaf),
        leaf_block_views(b.new_leaf),
        3,
        3,
        3,
        n,
        3,
    );
    lemma_shape_links(
        params,
        domain.slots_iv@,
        slots_a,
        slots_b,
        live_blocks(a),
        live_blocks(b),
        6,
        n,
        slots_a.len(),
    );
    let xa = full_chain_claims(
        params,
        leaf_iv,
        leaf_block_views(a.old_leaf),
        0,
        a.old_leaf.expected_hash@,
        n,
    );
    let ya = full_chain_claims(
        params,
        leaf_iv,
        leaf_block_views(b.old_leaf),
        0,
        b.old_leaf.expected_hash@,
        n,
    );
    let xb = full_chain_claims(
        params,
        leaf_iv,
        leaf_block_views(a.new_leaf),
        3,
        a.new_leaf.expected_hash@,
        n,
    );
    let yb = full_chain_claims(
        params,
        leaf_iv,
        leaf_block_views(b.new_leaf),
        3,
        b.new_leaf.expected_hash@,
        n,
    );
    let xc = sponge_chain_claims(
        params,
        domain.slots_iv@,
        slots_a,
        live_blocks(a),
        6,
        a.new_leaf.slots_digest@,
        n,
    );
    let yc = sponge_chain_claims(
        params,
        domain.slots_iv@,
        slots_b,
        live_blocks(b),
        6,
        b.new_leaf.slots_digest@,
        n,
    );
    let x = update_claims(params, domain, a, n);
    let y = update_claims(params, domain, b, n);
    assert forall|i: int| 0 <= i < x.len() implies (#[trigger] x[i]).terms.len()
        == y[i].terms.len() by {
        if i < xa.len() {
            assert(x[i] == xa[i] && y[i] == ya[i]);
        } else if i < xa.len() + xb.len() {
            assert(x[i] == xb[i - xa.len()] && y[i] == yb[i - xa.len()]);
        } else {
            let k = i - xa.len() - xb.len();
            assert(x[i] == xc[k] && y[i] == yc[k]);
        }
    }
}

/// The claims of two chains of the same number of places.
proof fn lemma_shape_links<F: TowerField>(
    params: PermParams<F>,
    iv: Seq<F>,
    a: Seq<Seq<F>>,
    b: Seq<Seq<F>>,
    live_a: nat,
    live_b: nat,
    offset: int,
    n: nat,
    k: nat,
)
    requires
        k <= a.len(),
        a.len() == b.len(),
    ensures
        ({
            let x = block_link_claims(params, iv, a, live_a, offset, n, k);
            let y = block_link_claims(params, iv, b, live_b, offset, n, k);
            &&& x.len() == y.len() == 4 * k
            &&& forall|i: int|
                0 <= i < x.len() ==> (#[trigger] x[i]).terms.len() == y[i].terms.len()
        }),
    decreases k,
{
    if k > 0 {
        lemma_shape_links(params, iv, a, b, live_a, live_b, offset, n, (k - 1) as nat);
        let fx = block_link_claims(params, iv, a, live_a, offset, n, (k - 1) as nat);
        let fy = block_link_claims(params, iv, b, live_b, offset, n, (k - 1) as nat);
        let x = block_link_claims(params, iv, a, live_a, offset, n, k);
        let y = block_link_claims(params, iv, b, live_b, offset, n, k);
        let link_a = block_link(iv, a, live_a, offset, k - 1);
        let link_b = block_link(iv, b, live_b, offset, k - 1);
        assert forall|i: int| 0 <= i < x.len() implies (#[trigger] x[i]).terms.len()
            == y[i].terms.len() by {
            if i < fx.len() {
                assert(x[i] == fx[i] && y[i] == fy[i]);
            } else {
                let lane = i - fx.len();
                reveal_with_fuel(source_terms, 3);
                assert(x[i] == link_claim(full_mds(params), n, link_a, lane));
                assert(y[i] == link_claim(full_mds(params), n, link_b, lane));
            }
        }
    }
}

/// The number of variables of the trace of an update.
pub open spec fn update_vars_fit(num_vars: nat, padded: nat) -> bool {
    num_vars >= 10 && is_slot_vars((num_vars - 9) as nat, update_slots(padded))
}

/// The proof of a statement.
pub open spec fn is_update_proof<F: TowerField, T: FiatShamir<F>>(
    params: PermParams<F>,
    domain: GuardDomain<F>,
    inputs: GuardBucketUpdateInputs<F>,
    channel: T,
    proof: BatchedGuardBucketProofKillShot<F>,
) -> bool {
    let n = proof.num_vars as nat;
    let ins = update_ins(params, domain, inputs);
    &&& proof.padded_spent_len == inputs.padded_spent_len
    &&& proof.live_slots == update_slots(inputs.padded_spent_len as nat)
    &&& update_vars_fit(n, inputs.padded_spent_len as nat)
    &&& is_linked_proof(
        params,
        proof.live_slots as nat,
        n,
        sin_column(params, ins, pow2(n)),
        sout_column(params, ins, pow2(n)),
        state_column(params, ins, pow2(n)),
        update_claims(params, domain, inputs, n),
        GUARD_BUCKET_LINEAR_RELATION_TAG,
        absorb_all(channel, update_elems(domain, inputs)),
        proof.kill_shot,
        proof.chain,
        proof.batch,
    )
}

/// The prover's run.
pub open spec fn update_run<F: TowerField, T: FiatShamir<F>>(
    params: PermParams<F>,
    domain: GuardDomain<F>,
    inputs: GuardBucketUpdateInputs<F>,
    channel: T,
    proof: BatchedGuardBucketProofKillShot<F>,
) -> LinkedRun<F, T> {
    let n = proof.num_vars as nat;
    let ins = update_ins(params, domain, inputs);
    linked_run(
        params,
        update_slots(inputs.padded_spent_len as nat),
        n,
        sin_column(params, ins, pow2(n)),
        sout_column(params, ins, pow2(n)),
        state_column(params, ins, pow2(n)),
        update_claims(params, domain, inputs, n),
        GUARD_BUCKET_LINEAR_RELATION_TAG,
        absorb_all(channel, update_elems(domain, inputs)),
        proof.kill_shot,
    )
}

/// The cells of an update.
pub proof fn lemma_update_size(num_vars: nat, padded: nat)
    requires
        update_vars_fit(num_vars, padded),
    ensures
        update_slots(padded) * 512 <= pow2(num_vars),
        pow2(num_vars) <= update_slots(padded) * 1024,
{
    let r = (num_vars - 9) as nat;
    lemma_pow2_adds(r, 9);
    vstd::arithmetic::power2::lemma2_to64();
    lemma_half_pow2(r);
}

/// Proves an update.
pub fn prove_batched_guard_bucket_killshot<F: TowerField, T: FiatShamir<F>>(
    params: &PermParams<F>,
    domain: &GuardDomain<F>,
    inputs: &GuardBucketUpdateInputs<F>,
    channel: &mut T,
) -> (out: (BatchedGuardBucketProofKillShot<F>, BatchedGuardBucketReductions<F>))
    requires
        update_holds(*params, *domain, *inputs),
        update_slots(inputs.padded_spent_len as nat) * 1024 <= usize::MAX,
    ensures
        is_update_proof(*params, *domain, *inputs, *old(channel), out.0),
        ({
            let run = update_run(*params, *domain, *inputs, *old(channel), out.0);
            out.1.at_point(run.point, out.0.batch) && *final(channel) == run.channel
        }),
        ({
            let n = out.0.num_vars as nat;
            let ins = update_ins(*params, *domain, *inputs);
            out.1.hold(
                sin_column(*params, ins, pow2(n)),
                sout_column(*params, ins, pow2(n)),
                state_column(*params, ins, pow2(n)),
            )
        }),
{
    let live_slots: usize = guard_update_live_slots(inputs.padded_spent_len);
    let slot_state_ins = evaluate_update(params, domain, inputs).unwrap();
    proof {
        assert(input_views(slot_state_ins@).len() == slot_state_ins.len());
    }
    absorb_public_batch(channel, domain, inputs);
    let mle = BlockSpineMle::build_from_slot_state_ins(params, slot_state_ins.as_slice());
    let n: usize = mle.num_vars;
    proof {
        lemma_update_size(n as nat, inputs.padded_spent_len as nat);
        lemma_update_claims_wf(*params, *domain, *inputs, n as nat);
    }
    let links = guard_update_chain_claims(params, domain, inputs, n);
    let (kill_shot, chain, batch, reductions) = prove_linked(
        params,
        mle.s_in.as_slice(),
        mle.s_out.as_slice(),
        mle.state.as_slice(),
        n,
        live_slots,
        &links,
        GUARD_BUCKET_LINEAR_RELATION_TAG,
        channel,
    );
    let proof_out = BatchedGuardBucketProofKillShot {
        kill_shot,
        chain,
        batch,
        padded_spent_len: inputs.padded_spent_len,
        num_vars: n,
        live_slots,
    };
    (proof_out, reductions)
}

/// Whether a proof has the shape of an update.
pub open spec fn update_shaped<F: TowerField>(
    inputs: GuardBucketUpdateInputs<F>,
    proof: BatchedGuardBucketProofKillShot<F>,
) -> bool {
    let padded = inputs.padded_spent_len as nat;
    &&& canonical(inputs)
    &&& proof.padded_spent_len == padded
    &&& proof.live_slots == update_slots(padded)
    &&& update_vars_fit(proof.num_vars as nat, padded)
}

/// The machine limits of verifying: of a proof about the list the number of
/// permutations can be computed, and of one of the right shape the cells.
pub open spec fn update_limits<F: TowerField>(
    inputs: GuardBucketUpdateInputs<F>,
    proof: BatchedGuardBucketProofKillShot<F>,
) -> bool {
    &&& canonical(inputs) && proof.padded_spent_len == inputs.padded_spent_len
        ==> inputs.padded_spent_len < usize::MAX
    &&& update_shaped(inputs, proof) ==> pow2(proof.num_vars as nat) <= usize::MAX
}

/// The verdict on a proof.
pub open spec fn update_verdict<F: TowerField, T: FiatShamir<F>>(
    params: PermParams<F>,
    domain: GuardDomain<F>,
    inputs: GuardBucketUpdateInputs<F>,
    proof: BatchedGuardBucketProofKillShot<F>,
    channel: T,
) -> LinkedVerdict<F, T> {
    let padded = inputs.padded_spent_len as nat;
    let n = proof.num_vars as nat;
    if !update_shaped(inputs, proof) {
        LinkedVerdict { point: None, channel }
    } else {
        linked_verdict(
            params,
            update_slots(padded),
            n,
            update_claims(params, domain, inputs, n),
            GUARD_BUCKET_LINEAR_RELATION_TAG,
            absorb_all(channel, update_elems(domain, inputs)),
            proof.kill_shot,
            proof.chain,
            proof.batch,
        )
    }
}

/// Verifies a proof.
pub fn verify_batched_guard_bucket_killshot<F: TowerField, T: FiatShamir<F>>(
    params: &PermParams<F>,
    domain: &GuardDomain<F>,
    proof: &BatchedGuardBucketProofKillShot<F>,
    inputs: &GuardBucketUpdateInputs<F>,
    channel: &mut T,
) -> (out: Option<BatchedGuardBucketReductions<F>>)
    requires
        update_limits(*inputs, *proof),
    ensures
        ({
            let want = update_verdict(*params, *domain, *inputs, *proof, *old(channel));
            &&& *final(channel) == want.channel
            &&& match out {
                Some(red) => want.point is Some && red.at_point(want.point->0, proof.batch),
                None => want.point is None,
            }
        }),
{
    if !inputs_are_canonical(inputs) || proof.padded_spent_len != inputs.padded_spent_len
        || proof.live_slots != guard_update_live_slots(inputs.padded_spent_len) {
        return None;
    }
    let expected_num_vars: usize = num_vars_for(proof.live_slots);
    proof {
        let padded = inputs.padded_spent_len as nat;
        assert(update_vars_fit(expected_num_vars as nat, padded));
        if update_vars_fit(proof.num_vars as nat, padded) {
            lemma_slot_vars(
                (proof.num_vars - 9) as nat,
                (expected_num_vars - 9) as nat,
                update_slots(padded),
            );
        }
        lemma_update_size(expected_num_vars as nat, padded);
    }
    if proof.num_vars != expected_num_vars {
        return None;
    }
    absorb_public_batch(channel, domain, inputs);
    let links = guard_update_chain_claims(params, domain, inputs, proof.num_vars);
    verify_linked(
        params,
        &proof.kill_shot,
        &proof.chain,
        &proof.batch,
        proof.num_vars,
        proof.live_slots,
        &links,
        GUARD_BUCKET_LINEAR_RELATION_TAG,
        channel,
    )
}

/// Completeness: the proof of a true statement is accepted, and the verifier
/// arrives at the prover's point and transcript.
pub proof fn lemma_update_complete<F: TowerField, T: FiatShamir<F>>(
    params: PermParams<F>,
    domain: GuardDomain<F>,
    inputs: GuardBucketUpdateInputs<F>,
    proof: BatchedGuardBucketProofKillShot<F>,
    channel: T,
)
    requires
        update_holds(params, domain, inputs),
        is_update_proof(params, domain, inputs, channel, proof),
    ensures
        ({
            let run = update_run(params, domain, inputs, channel, proof);
            let v = update_verdict(params, domain, inputs, proof, channel);
            v.point == Some(run.point) && v.channel == run.channel
        }),
{
    let n = proof.num_vars as nat;
    lemma_update_size(n, inputs.padded_spent_len as nat);
    lemma_update_claims_wf(params, domain, inputs, n);
    lemma_update_claims_hold(params, domain, inputs, n);
    lemma_linked_complete(
        params,
        update_ins(params, domain, inputs),
        n,
        update_claims(params, domain, inputs, n),
        GUARD_BUCKET_LINEAR_RELATION_TAG,
        absorb_all(channel, update_elems(domain, inputs)),
        proof.kill_shot,
        proof.chain,
        proof.batch,
    );
}

/// Whether the claims that are left are true of the columns of a true statement.
pub fn discharge_batched_guard_bucket_reductions_native<F: TowerField>(
    params: &PermParams<F>,
    domain: &GuardDomain<F>,
    inputs: &GuardBucketUpdateInputs<F>,
    reductions: &BatchedGuardBucketReductions<F>,
) -> (r: bool)
    requires
        update_slots(inputs.padded_spent_len as nat) * 1024 <= usize::MAX,
        forall|n: nat| #[trigger]
            update_vars_fit(n, inputs.padded_spent_len as nat) ==> reductions.state.point.len() == n
                && reductions.sin.point.len() == n && reductions.sout.point.len() == n,
    ensures
        r == (update_holds(*params, *domain, *inputs) && {
            let ins = update_ins(*params, *domain, *inputs);
            let cells = pow2(reductions.state.point.len() as nat);
            reductions.hold(
                sin_column(*params, ins, cells),
                sout_column(*params, ins, cells),
                state_column(*params, ins, cells),
            )
        }),
{
    let ins = match evaluate_update(params, domain, inputs) {
        Some(ins) => ins,
        None => {
            return false;
        },
    };
    proof {
        assert(input_views(ins@).len() == ins.len());
    }
    let mle = BlockSpineMle::build_from_slot_state_ins(params, ins.as_slice());
    proof {
        assert(update_vars_fit(mle.num_vars as nat, inputs.padded_spent_len as nat));
    }
    reductions.discharge(mle.s_in.as_slice(), mle.s_out.as_slice(), mle.state.as_slice())
}

/// The blocks of a leaf determine the leaf: its flag, its height and the digest
/// of its list.
pub proof fn lemma_leaf_blocks_injective<F: TowerField>(
    a: GuardLeafHashInputs<F>,
    b: GuardLeafHashInputs<F>,
)
    requires
        leaf_block_views(a) == leaf_block_views(b),
    ensures
        a.occupied == b.occupied,
        a.absolute_height == b.absolute_height,
        a.slots_digest@ == b.slots_digest@,
{
    let (x, y) = (leaf_block_views(a), leaf_block_views(b));
    assert(x[0][0] == y[0][0] && x[0][1] == y[0][1] && x[1] == y[1]);
    F::bits_of_u128(flag(a.occupied));
    F::bits_of_u128(flag(b.occupied));
    F::bits_of_u128(a.absolute_height as u128);
    F::bits_of_u128(b.absolute_height as u128);
}

/// The first block of a leaf holds one or zero, and the bits of the height; the
/// second holds the digest of the list.
pub proof fn lemma_leaf_block_bits<F: TowerField>(leaf: GuardLeafHashInputs<F>)
    ensures
        leaf_block_views(leaf).len() == 3,
        leaf_block_views(leaf)[0].len() == 2,
        leaf_block_views(leaf)[0][0].bits() == if leaf.occupied {
            1u128
        } else {
            0u128
        },
        leaf_block_views(leaf)[0][1].bits() == leaf.absolute_height,
        leaf_block_views(leaf)[1] == leaf.slots_digest@,
{
    F::bits_of_u128(flag(leaf.occupied));
    F::bits_of_u128(leaf.absolute_height as u128);
}

} // verus!
