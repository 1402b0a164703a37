//! The proof of a rolling accumulator over blocks.
//!
//! Every item has a block id and a claim. The accumulator starts at a given
//! digest, and item by item becomes
//! `COMPRESS(accumulator, COMPRESS(block_id, claim))`. The statement names the
//! start, the items and the end; the values in between are witness.
use vstd::prelude::*;
use vstd::arithmetic::power2::{lemma_pow2_adds, pow2};
use crate::auth_killshot::absorb_pair;
use crate::auth_unified_v2::AuthKillShotProof;
use crate::block_spine_sweep::{BlockSpineMle, is_slot_vars, lemma_slot_vars, num_vars_for};
use crate::field::{TowerField, lemma_units};
use crate::killshot::{TraceReductions, kill_shot_byte_len, kill_shot_size};
use crate::layers::{PermParams, permuted};
use crate::linear_eval::{LinearEvalClaim, LinearEvalProof, LinearView, linear_hold, linear_value, linear_view, linear_wf};
use crate::linked_killshot::{Link, LinkView, LinkedRun, LinkedVerdict, full_mds, is_linked_proof, lemma_link_claim, lemma_link_points, lemma_linked_complete, lemma_output_pin, link_claims, link_holds, link_wf, linked_run, linked_verdict, output_pin, prove_linked, push_link, push_output_pins, source_lane, verify_linked};
use crate::mle::lemma_half_pow2;
use crate::multi_batch::MultiBatchEvalProof;
use crate::sponge::{chained, chained_state, digest, digest_of_state, hash2, head, head_state, same_pair, zero_state};
use crate::layers::permute;
use crate::trace_mle::{input_views, sin_column, sout_column, state_column};
use crate::transcript::{FiatShamir, absorb_all, lemma_absorb_all_add};

verus! {

/// The tag of the reduction of the links.
pub const CHAIN_ACC_LINEAR_RELATION_TAG: u128 = 0x4348_4149_4E41_4301;

/// The permutations of an item.
pub const CHAIN_ACC_PERMS_PER_ITEM: usize = 4;

/// The lanes of the accumulator.
pub const CHAIN_ACC_PIN_LANES: usize = 2;

/// The domain of the compressions: its tag, and the initial capacity.
#[derive(Clone, Copy, Debug, PartialEq, Eq)]
pub struct ChainDomain<F> {
    pub tag: u64,
    pub iv: [F; 2],
}

/// A block id and a claim.
#[derive(Clone, Copy, Debug, PartialEq, Eq)]
pub struct ChainAccumulatorItem<F> {
    pub block_id: [F; 2],
    pub chain_claim: [F; 2],
}

/// The statement: where the accumulator starts, the items, and where it ends.
#[derive(Clone, Debug, PartialEq, Eq)]
pub struct ChainAccumulatorBatchInputs<F> {
    pub start_chain_hash: [F; 2],
    pub items: Vec<ChainAccumulatorItem<F>>,
    pub expected_chain_hash: [F; 2],
}

/// The proof.
#[derive(Clone, Debug, PartialEq, Eq)]
pub struct ChainAccumulatorProofKillShot<F> {
    pub kill_shot: AuthKillShotProof<F>,
    pub chain: LinearEvalProof<F>,
    pub batch: MultiBatchEvalProof<F>,
    pub n_items: usize,
    pub num_vars: usize,
    pub live_slots: usize,
}

/// The claims that are left.
pub type ChainAccumulatorReductions<F> = TraceReductions<F>;

impl<F: TowerField> ChainAccumulatorProofKillShot<F> {
    /// The size in bytes: 16 a field element.
    pub open spec fn size(&self) -> nat {
        kill_shot_size(self.kill_shot) + self.chain.rounds.len() as nat * 48 + 16
            + self.batch.rounds.len() as nat * 48 + self.batch.b_finals.len() as nat * 16
    }

    /// Computes [`ChainAccumulatorProofKillShot::size`].
    pub fn byte_len(&self) -> (r: usize)
        requires
            self.size() <= usize::MAX,
        ensures
            r == self.size(),
    {
        kill_shot_byte_len(&self.kill_shot) + self.chain.byte_len() + self.batch.byte_len()
    }
}

/// The inner compression of an item.
pub open spec fn inner_digest<F: TowerField>(
    params: PermParams<F>,
    iv: Seq<F>,
    item: ChainAccumulatorItem<F>,
) -> Seq<F> {
    hash2(params, iv, item.block_id@, item.chain_claim@)
}

/// The accumulator after `k` items.
pub open spec fn accumulator<F: TowerField>(
    params: PermParams<F>,
    iv: Seq<F>,
    start: Seq<F>,
    items: Seq<ChainAccumulatorItem<F>>,
    k: nat,
) -> Seq<F>
    decreases k,
{
    if k == 0 {
        start
    } else {
        hash2(
            params,
            iv,
            accumulator(params, iv, start, items, (k - 1) as nat),
            inner_digest(params, iv, items[k - 1]),
        )
    }
}

/// The input of the permutation with the given index.
pub open spec fn chain_input<F: TowerField>(
    params: PermParams<F>,
    iv: Seq<F>,
    start: Seq<F>,
    items: Seq<ChainAccumulatorItem<F>>,
    k: int,
) -> Seq<F> {
    let item = items[k / 4];
    let inner = head(item.block_id@, iv);
    let outer = head(accumulator(params, iv, start, items, (k / 4) as nat), iv);
    if k % 4 == 0 {
        inner
    } else if k % 4 == 1 {
        chained(permuted(params, inner), item.chain_claim@)
    } else if k % 4 == 2 {
        outer
    } else {
        chained(permuted(params, outer), inner_digest(params, iv, item))
    }
}

/// The inputs of all the permutations, those of missing items zero.
pub open spec fn chain_ins<F: TowerField>(
    params: PermParams<F>,
    iv: Seq<F>,
    inputs: ChainAccumulatorBatchInputs<F>,
    padded: nat,
) -> Seq<Seq<F>> {
    Seq::new(
        4 * padded,
        |k: int|
            if k < 4 * inputs.items.len() {
                chain_input(params, iv, inputs.start_chain_hash@, inputs.items@, k)
            } else {
                zero_state()
            },
    )
}

/// Whether the statement is true, and about at least one item.
pub open spec fn statement_holds<F: TowerField>(
    params: PermParams<F>,
    iv: Seq<F>,
    inputs: ChainAccumulatorBatchInputs<F>,
) -> bool {
    &&& inputs.items.len() > 0
    &&& accumulator(
        params,
        iv,
        inputs.start_chain_hash@,
        inputs.items@,
        inputs.items.len() as nat,
    ) == inputs.expected_chain_hash@
}

/// Runs the accumulator; gives the inputs of the permutations of a true
/// statement.
pub fn evaluate_chain_accumulator<F: TowerField>(
    params: &PermParams<F>,
    domain: &ChainDomain<F>,
    inputs: &ChainAccumulatorBatchInputs<F>,
) -> (r: Option<Vec<[F; 4]>>)
    requires
        inputs.items.len() * 4 <= usize::MAX,
    ensures
        r is Some <==> statement_holds(*params, domain.iv@, *inputs),
        r matches Some(ins) ==> input_views(ins@) == chain_ins(
            *params,
            domain.iv@,
            *inputs,
            inputs.items.len() as nat,
        ),
{
    if inputs.items.len() == 0 {
        return None;
    }
    let ghost iv = domain.iv@;
    let ghost start = inputs.start_chain_hash@;
    let ghost items = inputs.items@;
    let mut hash = inputs.start_chain_hash;
    let mut ins: Vec<[F; 4]> = Vec::new();
    let mut i: usize = 0;
    while i < inputs.items.len()
        invariant
            i <= inputs.items.len(),
            iv == domain.iv@,
            start == inputs.start_chain_hash@,
            items == inputs.items@,
            hash@ == accumulator(*params, iv, start, items, i as nat),
            ins.len() == 4 * i,
            forall|k: int|
                0 <= k < 4 * i ==> (#[trigger] ins[k])@ == chain_input(
                    *params,
                    iv,
                    start,
                    items,
                    k,
                ),
        decreases inputs.items.len() - i,
    {
        let item = inputs.items[i];
        proof {
            let k = 4 * i as int;
            assert(k / 4 == i && k % 4 == 0);
            assert((k + 1) / 4 == i && (k + 1) % 4 == 1);
            assert((k + 2) / 4 == i && (k + 2) % 4 == 2);
            assert((k + 3) / 4 == i && (k + 3) % 4 == 3);
        }
        let inner = head_state(&item.block_id, &domain.iv);
        ins.push(inner);
        let inner = chained_state(&permute(params, inner), &item.chain_claim);
        ins.push(inner);
        let inner_hash = digest_of_state(&permute(params, inner));
        let outer = head_state(&hash, &domain.iv);
        ins.push(outer);
        let outer = chained_state(&permute(params, outer), &inner_hash);
        ins.push(outer);
        hash = digest_of_state(&permute(params, outer));
        i += 1;
    }
    if !same_pair(&hash, &inputs.expected_chain_hash) {
        return None;
    }
    proof {
        assert(input_views(ins@) =~= chain_ins(*params, iv, *inputs, inputs.items.len() as nat));
    }
    Some(ins)
}

/// The elements of the first `k` items, missing ones zero.
pub open spec fn item_elems<F: TowerField>(items: Seq<ChainAccumulatorItem<F>>, k: nat) -> Seq<F>
    decreases k,
{
    if k == 0 {
        Seq::empty()
    } else {
        item_elems(items, (k - 1) as nat) + if k - 1 < items.len() {
            items[k - 1].block_id@ + items[k - 1].chain_claim@
        } else {
            zero_state()
        }
    }
}

/// What the transcript absorbs of the statement; a padded one also names the
/// number of items that it is padded to.
pub open spec fn statement_elems<F: TowerField>(
    domain: ChainDomain<F>,
    inputs: ChainAccumulatorBatchInputs<F>,
    padded: nat,
    pad: bool,
) -> Seq<F> {
    let count = F::of_u128(inputs.items.len() as u128);
    let tag = F::of_u128(domain.tag as u128);
    let first = if pad {
        seq![count, F::of_u128(padded as u128), tag]
    } else {
        seq![count, tag]
    };
    first + inputs.start_chain_hash@ + inputs.expected_chain_hash@ + item_elems(
        inputs.items@,
        padded,
    )
}

/// Absorbs the statement.
fn absorb_statement<F: TowerField, T: FiatShamir<F>>(
    channel: &mut T,
    domain: &ChainDomain<F>,
    inputs: &ChainAccumulatorBatchInputs<F>,
    padded: usize,
    pad: bool,
)
    ensures
        *final(channel) == absorb_all(
            *old(channel),
            statement_elems(*domain, *inputs, padded as nat, pad),
        ),
{
    let ghost begin = *channel;
    let ghost count = F::of_u128(inputs.items.len() as u128);
    let ghost tag = F::of_u128(domain.tag as u128);
    let ghost first = if pad {
        seq![count, F::of_u128(padded as u128), tag]
    } else {
        seq![count, tag]
    };
    channel.absorb(F::from_u128(inputs.items.len() as u128));
    if pad {
        channel.absorb(F::from_u128(padded as u128));
    }
    channel.absorb(F::from_u128(domain.tag as u128));
    proof {
        reveal_with_fuel(absorb_all, 4);
        assert(first.drop_last().push(tag) =~= first);
        if pad {
            assert(first.drop_last() =~= seq![count, F::of_u128(padded as u128)]);
            assert(first.drop_last().drop_last() =~= seq![count]);
            assert(first.drop_last().drop_last().drop_last() =~= Seq::empty());
        } else {
            assert(first.drop_last() =~= seq![count]);
            assert(first.drop_last().drop_last() =~= Seq::empty());
        }
    }
    absorb_pair(channel, &inputs.start_chain_hash);
    absorb_pair(channel, &inputs.expected_chain_hash);
    let ghost second = first + inputs.start_chain_hash@ + inputs.expected_chain_hash@;
    proof {
        lemma_absorb_all_add(begin, first, inputs.start_chain_hash@);
        lemma_absorb_all_add(
            begin,
            first + inputs.start_chain_hash@,
            inputs.expected_chain_hash@,
        );
        assert(second + item_elems(inputs.items@, 0) =~= second);
    }
    let zero = [F::zero_value(), F::zero_value()];
    let mut i: usize = 0;
    while i < padded
        invariant
            i <= padded,
            zero@ =~= seq![F::zero(), F::zero()],
            *channel == absorb_all(begin, second + item_elems(inputs.items@, i as nat)),
        decreases padded - i,
    {
        let ghost before = second + item_elems(inputs.items@, i as nat);
        let (id, claim) = if i < inputs.items.len() {
            (inputs.items[i].block_id, inputs.items[i].chain_claim)
        } else {
            (zero, zero)
        };
        absorb_pair(channel, &id);
        absorb_pair(channel, &claim);
        proof {
            lemma_absorb_all_add(begin, before, id@);
            lemma_absorb_all_add(begin, before + id@, claim@);
            if i >= inputs.items.len() {
                assert(id@ + claim@ =~= zero_state::<F>());
            }
            assert(before + id@ + claim@ =~= second + item_elems(inputs.items@, (i + 1) as nat));
        }
        i += 1;
    }
}

/// The link of the permutation with the given index. Permutations of missing
/// items have links that claim nothing.
pub open spec fn chain_link<F: TowerField>(
    iv: Seq<F>,
    inputs: ChainAccumulatorBatchInputs<F>,
    k: int,
) -> LinkView<F> {
    let live = k / 4 < inputs.items.len();
    let item = inputs.items[k / 4];
    let start = inputs.start_chain_hash@;
    let (sources, consts) = if k % 4 == 0 {
        (Seq::empty(), seq![item.block_id[0], item.block_id[1], iv[0], iv[1]])
    } else if k % 4 == 1 {
        (
            seq![(k - 1, 4nat)],
            seq![item.chain_claim[0], item.chain_claim[1], F::zero(), F::zero()],
        )
    } else if k % 4 == 2 {
        if k < 4 {
            (Seq::empty(), seq![start[0], start[1], iv[0], iv[1]])
        } else {
            (seq![(k - 3, 2nat)], seq![F::zero(), F::zero(), iv[0], iv[1]])
        }
    } else {
        (seq![(k - 1, 4nat), (k - 2, 2nat)], zero_state())
    };
    LinkView {
        slot: k,
        live,
        sources,
        consts: if live {
            consts
        } else {
            zero_state()
        },
    }
}

/// The claims of the links of the permutations from `from` up to `to`.
pub open spec fn chain_link_claims<F: TowerField>(
    params: PermParams<F>,
    iv: Seq<F>,
    inputs: ChainAccumulatorBatchInputs<F>,
    n: nat,
    from: int,
    to: int,
) -> Seq<LinearView<F>>
    decreases to - from,
{
    if to <= from {
        Seq::empty()
    } else {
        chain_link_claims(params, iv, inputs, n, from, to - 1) + link_claims(
            full_mds(params),
            n,
            chain_link(iv, inputs, to - 1),
        )
    }
}

/// All the claims: the links of the items, the end of the accumulator, and the
/// links of the missing items.
pub open spec fn chain_claims<F: TowerField>(
    params: PermParams<F>,
    iv: Seq<F>,
    inputs: ChainAccumulatorBatchInputs<F>,
    n: nat,
    padded: nat,
) -> Seq<LinearView<F>> {
    let live = 4 * inputs.items.len() as int;
    chain_link_claims(params, iv, inputs, n, 0, live) + seq![
        output_pin(n, live - 1, 0, inputs.expected_chain_hash[0]),
        output_pin(n, live - 1, 1, inputs.expected_chain_hash[1]),
    ] + chain_link_claims(params, iv, inputs, n, live, 4 * padded as int)
}

/// Builds the link of a permutation.
fn build_chain_link<F: TowerField>(
    domain: &ChainDomain<F>,
    inputs: &ChainAccumulatorBatchInputs<F>,
    k: usize,
) -> (link: Link<F>)
    requires
        inputs.items.len() > 0,
    ensures
        link.contents() == chain_link(domain.iv@, *inputs, k as int),
{
    let zero = F::zero_value();
    let idx: usize = k / 4;
    let live = idx < inputs.items.len();
    let iv = domain.iv;
    let mut sources: Vec<(usize, usize)> = Vec::new();
    let mut consts = [zero, zero, zero, zero];
    let start = inputs.start_chain_hash;
    if k % 4 == 0 {
        if live {
            let item = inputs.items[idx];
            consts = [item.block_id[0], item.block_id[1], iv[0], iv[1]];
        }
    } else if k % 4 == 1 {
        sources.push((k - 1, 4));
        if live {
            let item = inputs.items[idx];
            consts = [item.chain_claim[0], item.chain_claim[1], zero, zero];
        }
    } else if k % 4 == 2 {
        if k < 4 {
            if live {
                consts = [start[0], start[1], iv[0], iv[1]];
            }
        } else {
            sources.push((k - 3, 2));
            if live {
                consts = [zero, zero, iv[0], iv[1]];
            }
        }
    } else {
        sources.push((k - 1, 4));
        sources.push((k - 2, 2));
    }
    let link = Link { slot: k, live, sources, consts };
    proof {
        let want = chain_link(domain.iv@, *inputs, k as int);
        assert(link.contents().consts =~= want.consts);
        assert(link.contents().sources =~= want.sources);
    }
    link
}

proof fn lemma_chain_link_wf<F: TowerField>(
    iv: Seq<F>,
    inputs: ChainAccumulatorBatchInputs<F>,
    k: int,
    slots: nat,
)
    requires
        0 <= k < slots,
    ensures
        link_wf(chain_link(iv, inputs, k), slots),
{
    let link = chain_link(iv, inputs, k);
    assert forall|s: int| 0 <= s < link.sources.len() implies 0 <= (#[trigger] link.sources[s]).0
        < slots && link.sources[s].1 <= 4 by {}
}

/// Appends the claims of the links of the permutations from `from` up to `to`.
fn push_chain_links<F: TowerField>(
    out: &mut Vec<LinearEvalClaim<F>>,
    params: &PermParams<F>,
    domain: &ChainDomain<F>,
    inputs: &ChainAccumulatorBatchInputs<F>,
    n: usize,
    from: usize,
    to: usize,
)
    requires
        inputs.items.len() > 0,
        from <= to,
        9 <= n,
        pow2(n as nat) <= usize::MAX,
        to * 512 <= pow2(n as nat),
    ensures
        linear_view(final(out)@) == linear_view(old(out)@) + chain_link_claims(
            *params,
            domain.iv@,
            *inputs,
            n as nat,
            from as int,
            to as int,
        ),
{
    let ghost start = linear_view(out@);
    let mut k: usize = from;
    proof {
        assert(start + Seq::<LinearView<F>>::empty() =~= start);
    }
    while k < to
        invariant
            from <= k <= to,
            inputs.items.len() > 0,
            9 <= n,
            pow2(n as nat) <= usize::MAX,
            to * 512 <= pow2(n as nat),
            linear_view(out@) == start + chain_link_claims(
                *params,
                domain.iv@,
                *inputs,
                n as nat,
                from as int,
                k as int,
            ),
        decreases to - k,
    {
        let link = build_chain_link(domain, inputs, k);
        proof {
            lemma_chain_link_wf(domain.iv@, *inputs, k as int, to as nat);
        }
        let ghost before = linear_view(out@);
        push_link(out, params, n, link, Ghost(to as nat));
        proof {
            assert(linear_view(out@) =~= start + chain_link_claims(
                *params,
                domain.iv@,
                *inputs,
                n as nat,
                from as int,
                k + 1,
            ));
        }
        k += 1;
    }
}

/// Builds all the claims.
fn build_chain_claims<F: TowerField>(
    params: &PermParams<F>,
    domain: &ChainDomain<F>,
    inputs: &ChainAccumulatorBatchInputs<F>,
    n: usize,
    padded: usize,
) -> (claims: Vec<LinearEvalClaim<F>>)
    requires
        0 < inputs.items.len() <= padded,
        9 <= n,
        pow2(n as nat) <= usize::MAX,
        4 * padded * 512 <= pow2(n as nat),
    ensures
        linear_view(claims@) == chain_claims(
            *params,
            domain.iv@,
            *inputs,
            n as nat,
            padded as nat,
        ),
{
    let live: usize = inputs.items.len() * 4;
    let mut claims: Vec<LinearEvalClaim<F>> = Vec::new();
    push_chain_links(&mut claims, params, domain, inputs, n, 0, live);
    push_output_pins(&mut claims, n, live - 1, &inputs.expected_chain_hash);
    push_chain_links(&mut claims, params, domain, inputs, n, live, padded * 4);
    proof {
        assert(linear_view(claims@) =~= chain_claims(
            *params,
            domain.iv@,
            *inputs,
            n as nat,
            padded as nat,
        ));
    }
    claims
}

proof fn lemma_chain_links_points<F: TowerField>(
    params: PermParams<F>,
    iv: Seq<F>,
    inputs: ChainAccumulatorBatchInputs<F>,
    n: nat,
    from: int,
    to: int,
)
    ensures
        linear_wf(chain_link_claims(params, iv, inputs, n, from, to), n),
    decreases to - from,
{
    if to > from {
        lemma_chain_links_points(params, iv, inputs, n, from, to - 1);
        let front = chain_link_claims(params, iv, inputs, n, from, to - 1);
        let link = chain_link(iv, inputs, to - 1);
        let part = link_claims(full_mds(params), n, link);
        let all = chain_link_claims(params, iv, inputs, n, from, to);
        assert forall|i: int, t: int|
            0 <= i < all.len() && 0 <= t < all[i].terms.len() implies #[trigger] all[i].terms[t].point.len()
            == n by {
            if i < front.len() {
                assert(all[i] == front[i]);
                assert(front[i].terms[t].point.len() == n);
            } else {
                lemma_link_points(full_mds(params), n, link, i - front.len());
                assert(all[i] == part[i - front.len()]);
            }
        }
    }
}

proof fn lemma_chain_claims_wf<F: TowerField>(
    params: PermParams<F>,
    iv: Seq<F>,
    inputs: ChainAccumulatorBatchInputs<F>,
    n: nat,
    padded: nat,
)
    ensures
        linear_wf(chain_claims(params, iv, inputs, n, padded), n),
{
    let live = 4 * inputs.items.len() as int;
    let a = chain_link_claims(params, iv, inputs, n, 0, live);
    let b = chain_link_claims(params, iv, inputs, n, live, 4 * padded as int);
    let all = chain_claims(params, iv, inputs, n, padded);
    lemma_chain_links_points(params, iv, inputs, n, 0, live);
    lemma_chain_links_points(params, iv, inputs, n, live, 4 * padded as int);
    assert forall|i: int, t: int|
        0 <= i < all.len() && 0 <= t < all[i].terms.len() implies #[trigger] all[i].terms[t].point.len()
        == n by {
        if i < a.len() {
            assert(all[i] == a[i]);
            assert(a[i].terms[t].point.len() == n);
        } else if i < a.len() + 2 {
            crate::mle::lemma_cube_point_len::<F>(
                n,
                crate::trace::cell(live - 1, 66, i - a.len()),
            );
        } else {
            assert(all[i] == b[i - a.len() - 2]);
            assert(b[i - a.len() - 2].terms[t].point.len() == n);
        }
    }
}

/// The inputs of the permutations are made as the links say.
proof fn lemma_chain_link_holds<F: TowerField>(
    params: PermParams<F>,
    iv: Seq<F>,
    inputs: ChainAccumulatorBatchInputs<F>,
    padded: nat,
    k: int,
)
    requires
        0 <= k < 4 * padded,
        inputs.items.len() <= padded,
    ensures
        link_holds(params, chain_ins(params, iv, inputs, padded), chain_link(iv, inputs, k)),
{
    let ins = chain_ins(params, iv, inputs, padded);
    let link = chain_link(iv, inputs, k);
    if link.live {
        let items = inputs.items@;
        let start = inputs.start_chain_hash@;
        let i = k / 4;
        assert(k < 4 * items.len());
        assert(ins[k] == chain_input(params, iv, start, items, k));
        reveal_with_fuel(source_lane, 3);
        assert forall|j: int| 0 <= j < 4 implies #[trigger] ins[link.slot][j]
            == link.consts[j].add(
            source_lane(params, ins, link.sources, j, link.sources.len()),
        ) by {
            let s = source_lane(params, ins, link.sources, j, link.sources.len());
            if k % 4 == 0 || k == 2 {
                lemma_units(link.consts[j]);
            } else if k % 4 == 1 {
                assert((k - 1) / 4 == i && (k - 1) % 4 == 0);
                assert(ins[k - 1] == chain_input(params, iv, start, items, k - 1));
                let out = permuted(params, ins[k - 1]);
                lemma_units(out[j]);
                F::add_comm(out[j], link.consts[j]);
                assert(s == F::zero().add(out[j]));
            } else if k % 4 == 2 {
                assert((k - 3) / 4 == i - 1 && (k - 3) % 4 == 3);
                assert(ins[k - 3] == chain_input(params, iv, start, items, k - 3));
                let out = permuted(params, ins[k - 3]);
                lemma_units(out[j]);
                lemma_units(F::zero());
                lemma_units(link.consts[j]);
                assert(accumulator(params, iv, start, items, i as nat) == digest(out));
            } else {
                assert((k - 1) / 4 == i && (k - 1) % 4 == 2);
                assert((k - 2) / 4 == i && (k - 2) % 4 == 1);
                assert(ins[k - 1] == chain_input(params, iv, start, items, k - 1));
                assert(ins[k - 2] == chain_input(params, iv, start, items, k - 2));
                let outer = permuted(params, ins[k - 1]);
                let inner = permuted(params, ins[k - 2]);
                assert(inner_digest(params, iv, items[i]) == digest(inner));
                lemma_units(outer[j]);
                lemma_units(s);
                assert(source_lane(params, ins, link.sources, j, 1) == F::zero().add(outer[j]));
            }
        }
    }
}

proof fn lemma_chain_links_hold<F: TowerField>(
    params: PermParams<F>,
    iv: Seq<F>,
    inputs: ChainAccumulatorBatchInputs<F>,
    padded: nat,
    n: nat,
    from: int,
    to: int,
)
    requires
        n >= 9,
        inputs.items.len() <= padded,
        0 <= from,
        to <= 4 * padded,
        4 * padded * 512 <= pow2(n),
    ensures
        linear_hold(
            chain_link_claims(params, iv, inputs, n, from, to),
            state_column(params, chain_ins(params, iv, inputs, padded), pow2(n)),
        ),
    decreases to - from,
{
    if to > from {
        lemma_chain_links_hold(params, iv, inputs, padded, n, from, to - 1);
        let ins = chain_ins(params, iv, inputs, padded);
        let column = state_column(params, ins, pow2(n));
        let front = chain_link_claims(params, iv, inputs, n, from, to - 1);
        let link = chain_link(iv, inputs, to - 1);
        let part = link_claims(full_mds(params), n, link);
        let all = chain_link_claims(params, iv, inputs, n, from, to);
        lemma_chain_link_holds(params, iv, inputs, padded, to - 1);
        lemma_chain_link_wf(iv, inputs, to - 1, 4 * padded);
        assert forall|i: int| 0 <= i < all.len() implies (#[trigger] all[i]).value == linear_value(
            all[i].terms,
            column,
        ) by {
            if i < front.len() {
                assert(all[i] == front[i]);
                assert(front[i].value == linear_value(front[i].terms, column));
            } else {
                lemma_link_claim(params, ins, n, link, i - front.len());
                assert(all[i] == part[i - front.len()]);
            }
        }
    }
}

/// The claims of a true statement are true of the state column.
pub proof fn lemma_chain_claims_hold<F: TowerField>(
    params: PermParams<F>,
    iv: Seq<F>,
    inputs: ChainAccumulatorBatchInputs<F>,
    padded: nat,
    n: nat,
)
    requires
        n >= 9,
        statement_holds(params, iv, inputs),
        inputs.items.len() <= padded,
        4 * padded * 512 <= pow2(n),
    ensures
        linear_hold(
            chain_claims(params, iv, inputs, n, padded),
            state_column(params, chain_ins(params, iv, inputs, padded), pow2(n)),
        ),
{
    let ins = chain_ins(params, iv, inputs, padded);
    let column = state_column(params, ins, pow2(n));
    let live = 4 * inputs.items.len() as int;
    let a = chain_link_claims(params, iv, inputs, n, 0, live);
    let b = chain_link_claims(params, iv, inputs, n, live, 4 * padded as int);
    let all = chain_claims(params, iv, inputs, n, padded);
    lemma_chain_links_hold(params, iv, inputs, padded, n, 0, live);
    lemma_chain_links_hold(params, iv, inputs, padded, n, live, 4 * padded as int);
    let k = live - 1;
    assert(k / 4 == inputs.items.len() - 1 && k % 4 == 3);
    assert(ins[k] == chain_input(params, iv, inputs.start_chain_hash@, inputs.items@, k));
    assert(digest(permuted(params, ins[k])) == inputs.expected_chain_hash@);
    lemma_output_pin(params, ins, n, k, 0, inputs.expected_chain_hash@[0]);
    lemma_output_pin(params, ins, n, k, 1, inputs.expected_chain_hash@[1]);
    assert forall|i: int| 0 <= i < all.len() implies (#[trigger] all[i]).value == linear_value(
        all[i].terms,
        column,
    ) by {
        if i < a.len() {
            assert(all[i] == a[i]);
            assert(a[i].value == linear_value(a[i].terms, column));
        } else if i < a.len() + 2 {
            assert(all[i] == output_pin(
                n,
                k,
                i - a.len(),
                inputs.expected_chain_hash@[i - a.len()],
            ));
        } else {
            assert(all[i] == b[i - a.len() - 2]);
            assert(b[i - a.len() - 2].value == linear_value(b[i - a.len() - 2].terms, column));
        }
    }
}

/// The number of variables of the trace of a number of items.
pub open spec fn chain_vars_fit(num_vars: nat, padded: nat) -> bool {
    num_vars >= 10 && is_slot_vars((num_vars - 9) as nat, 4 * padded)
}

/// The proof of a statement.
pub open spec fn is_chain_proof<F: TowerField, T: FiatShamir<F>>(
    params: PermParams<F>,
    domain: ChainDomain<F>,
    inputs: ChainAccumulatorBatchInputs<F>,
    padded: nat,
    pad: bool,
    channel: T,
    proof: ChainAccumulatorProofKillShot<F>,
) -> bool {
    let n = proof.num_vars as nat;
    let ins = chain_ins(params, domain.iv@, inputs, padded);
    &&& proof.n_items == inputs.items.len()
    &&& proof.live_slots == 4 * padded
    &&& chain_vars_fit(n, padded)
    &&& is_linked_proof(
        params,
        4 * padded,
        n,
        sin_column(params, ins, pow2(n)),
        sout_column(params, ins, pow2(n)),
        state_column(params, ins, pow2(n)),
        chain_claims(params, domain.iv@, inputs, n, padded),
        CHAIN_ACC_LINEAR_RELATION_TAG,
        absorb_all(channel, statement_elems(domain, inputs, padded, pad)),
        proof.kill_shot,
        proof.chain,
        proof.batch,
    )
}

/// The prover's run.
pub open spec fn chain_run<F: TowerField, T: FiatShamir<F>>(
    params: PermParams<F>,
    domain: ChainDomain<F>,
    inputs: ChainAccumulatorBatchInputs<F>,
    padded: nat,
    pad: bool,
    channel: T,
    proof: ChainAccumulatorProofKillShot<F>,
) -> LinkedRun<F, T> {
    let n = proof.num_vars as nat;
    let ins = chain_ins(params, domain.iv@, inputs, padded);
    linked_run(
        params,
        4 * padded,
        n,
        sin_column(params, ins, pow2(n)),
        sout_column(params, ins, pow2(n)),
        state_column(params, ins, pow2(n)),
        chain_claims(params, domain.iv@, inputs, n, padded),
        CHAIN_ACC_LINEAR_RELATION_TAG,
        absorb_all(channel, statement_elems(domain, inputs, padded, pad)),
        proof.kill_shot,
    )
}

/// The cells of an accumulator.
pub proof fn lemma_chain_size(num_vars: nat, padded: nat)
    requires
        padded > 0,
        chain_vars_fit(num_vars, padded),
    ensures
        4 * padded * 512 <= pow2(num_vars),
        pow2(num_vars) <= 4 * padded * 1024,
{
    let r = (num_vars - 9) as nat;
    lemma_pow2_adds(r, 9);
    vstd::arithmetic::power2::lemma2_to64();
    lemma_half_pow2(r);
}

/// Appends inputs of zero up to the given number.
fn pad_state_ins<F: TowerField>(ins: &mut Vec<[F; 4]>, count: usize)
    requires
        old(ins).len() <= count,
    ensures
        final(ins).len() == count,
        forall|k: int|
            0 <= k < count ==> (#[trigger] final(ins)[k])@ == if k < old(ins).len() {
                old(ins)[k]@
            } else {
                zero_state()
            },
{
    let zero = F::zero_value();
    let state = [zero, zero, zero, zero];
    proof {
        assert(state@ =~= zero_state::<F>());
    }
    let ghost start = ins@;
    while ins.len() < count
        invariant
            start.len() <= ins.len() <= count,
            state@ == zero_state::<F>(),
            forall|k: int|
                0 <= k < ins.len() ==> (#[trigger] ins[k])@ == if k < start.len() {
                    start[k]@
                } else {
                    zero_state()
                },
        decreases count - ins.len(),
    {
        ins.push(state);
    }
}

/// Proves a statement, with the shape of a padded number of items.
fn prove_chain_accumulator_killshot_with_shape<F: TowerField, T: FiatShamir<F>>(
    params: &PermParams<F>,
    domain: &ChainDomain<F>,
    inputs: &ChainAccumulatorBatchInputs<F>,
    padded_items: usize,
    pad_public_transcript: bool,
    channel: &mut T,
) -> (out: (ChainAccumulatorProofKillShot<F>, ChainAccumulatorReductions<F>))
    requires
        statement_holds(*params, domain.iv@, *inputs),
        inputs.items.len() <= padded_items,
        padded_items * 4096 <= usize::MAX,
    ensures
        is_chain_proof(
            *params,
            *domain,
            *inputs,
            padded_items as nat,
            pad_public_transcript,
            *old(channel),
            out.0,
        ),
        ({
            let run = chain_run(
                *params,
                *domain,
                *inputs,
                padded_items as nat,
                pad_public_transcript,
                *old(channel),
                out.0,
            );
            out.1.at_point(run.point, out.0.batch) && *final(channel) == run.channel
        }),
        ({
            let n = out.0.num_vars as nat;
            let ins = chain_ins(*params, domain.iv@, *inputs, padded_items as nat);
            out.1.hold(
                sin_column(*params, ins, pow2(n)),
                sout_column(*params, ins, pow2(n)),
                state_column(*params, ins, pow2(n)),
            )
        }),
{
    let mut ins = evaluate_chain_accumulator(params, domain, inputs).unwrap();
    let live_slots: usize = padded_items * CHAIN_ACC_PERMS_PER_ITEM;
    let ghost before = input_views(ins@);
    proof {
        assert(ins.len() == before.len());
        assert forall|k: int| 0 <= k < ins.len() implies (#[trigger] ins@[k])@ == before[k] by {}
    }
    pad_state_ins(&mut ins, live_slots);
    let ghost want = chain_ins(*params, domain.iv@, *inputs, padded_items as nat);
    proof {
        assert(input_views(ins@) =~= want) by {
            assert forall|k: int| 0 <= k < want.len() implies input_views(ins@)[k] == want[k] by {
                assert(ins[k]@ == input_views(ins@)[k]);
            }
        }
    }
    absorb_statement(channel, domain, inputs, padded_items, pad_public_transcript);
    let mle = BlockSpineMle::build_from_slot_state_ins(params, ins.as_slice());
    let n: usize = mle.num_vars;
    proof {
        lemma_chain_size(n as nat, padded_items as nat);
        lemma_chain_claims_wf(*params, domain.iv@, *inputs, n as nat, padded_items as nat);
    }
    let links = build_chain_claims(params, domain, inputs, n, padded_items);
    let (kill_shot, chain, batch, reductions) = prove_linked(
        params,
        mle.s_in.as_slice(),
        mle.s_out.as_slice(),
        mle.state.as_slice(),
        n,
        live_slots,
        &links,
        CHAIN_ACC_LINEAR_RELATION_TAG,
        channel,
    );
    let proof_out = ChainAccumulatorProofKillShot {
        kill_shot,
        chain,
        batch,
        n_items: inputs.items.len(),
        num_vars: n,
        live_slots,
    };
    (proof_out, reductions)
}

/// Proves a statement.
pub fn prove_chain_accumulator_killshot<F: TowerField, T: FiatShamir<F>>(
    params: &PermParams<F>,
    domain: &ChainDomain<F>,
    inputs: &ChainAccumulatorBatchInputs<F>,
    channel: &mut T,
) -> (out: (ChainAccumulatorProofKillShot<F>, ChainAccumulatorReductions<F>))
    requires
        statement_holds(*params, domain.iv@, *inputs),
        inputs.items.len() * 4096 <= usize::MAX,
    ensures
        is_chain_proof(
            *params,
            *domain,
            *inputs,
            inputs.items.len() as nat,
            false,
            *old(channel),
            out.0,
        ),
        ({
            let run = chain_run(
                *params,
                *domain,
                *inputs,
                inputs.items.len() as nat,
                false,
                *old(channel),
                out.0,
            );
            out.1.at_point(run.point, out.0.batch) && *final(channel) == run.channel
        }),
{
    prove_chain_accumulator_killshot_with_shape(
        params,
        domain,
        inputs,
        inputs.items.len(),
        false,
        channel,
    )
}

/// Proves a statement as one about a larger number of items.
pub fn prove_chain_accumulator_killshot_padded<F: TowerField, T: FiatShamir<F>>(
    params: &PermParams<F>,
    domain: &ChainDomain<F>,
    inputs: &ChainAccumulatorBatchInputs<F>,
    padded_items: usize,
    channel: &mut T,
) -> (out: (ChainAccumulatorProofKillShot<F>, ChainAccumulatorReductions<F>))
    requires
        statement_holds(*params, domain.iv@, *inputs),
        inputs.items.len() <= padded_items,
        padded_items * 4096 <= usize::MAX,
    ensures
        is_chain_proof(
            *params,
            *domain,
            *inputs,
            padded_items as nat,
            true,
            *old(channel),
            out.0,
        ),
        ({
            let run = chain_run(
                *params,
                *domain,
                *inputs,
                padded_items as nat,
                true,
                *old(channel),
                out.0,
            );
            out.1.at_point(run.point, out.0.batch) && *final(channel) == run.channel
        }),
{
    prove_chain_accumulator_killshot_with_shape(
        params,
        domain,
        inputs,
        padded_items,
        true,
        channel,
    )
}

/// Whether a proof has the shape of a padded number of items.
pub open spec fn chain_shaped<F>(
    inputs: ChainAccumulatorBatchInputs<F>,
    padded: nat,
    proof: ChainAccumulatorProofKillShot<F>,
) -> bool {
    &&& items_fit(inputs, padded, proof)
    &&& proof.live_slots == 4 * padded
    &&& chain_vars_fit(proof.num_vars as nat, padded)
}

/// Whether a proof is about the items, of which there are some, and no more than
/// the padded number.
pub open spec fn items_fit<F>(
    inputs: ChainAccumulatorBatchInputs<F>,
    padded: nat,
    proof: ChainAccumulatorProofKillShot<F>,
) -> bool {
    0 < inputs.items.len() == proof.n_items && inputs.items.len() <= padded
}

/// The machine limits of verifying: of a proof about the items the number of
/// permutations can be computed, and of one of the right shape the cells.
pub open spec fn chain_limits<F>(
    inputs: ChainAccumulatorBatchInputs<F>,
    padded: nat,
    proof: ChainAccumulatorProofKillShot<F>,
) -> bool {
    &&& items_fit(inputs, padded, proof) ==> 4 * padded <= usize::MAX
    &&& chain_shaped(inputs, padded, proof) ==> pow2(proof.num_vars as nat) <= usize::MAX
}

/// The verdict on a proof.
pub open spec fn chain_verdict<F: TowerField, T: FiatShamir<F>>(
    params: PermParams<F>,
    domain: ChainDomain<F>,
    inputs: ChainAccumulatorBatchInputs<F>,
    padded: nat,
    pad: bool,
    proof: ChainAccumulatorProofKillShot<F>,
    channel: T,
) -> LinkedVerdict<F, T> {
    if !chain_shaped(inputs, padded, proof) {
        LinkedVerdict { point: None, channel }
    } else {
        linked_verdict(
            params,
            4 * padded,
            proof.num_vars as nat,
            chain_claims(params, domain.iv@, inputs, proof.num_vars as nat, padded),
            CHAIN_ACC_LINEAR_RELATION_TAG,
            absorb_all(channel, statement_elems(domain, inputs, padded, pad)),
            proof.kill_shot,
            proof.chain,
            proof.batch,
        )
    }
}

/// Verifies a proof with the shape of a padded number of items.
fn verify_chain_accumulator_killshot_with_shape<F: TowerField, T: FiatShamir<F>>(
    params: &PermParams<F>,
    domain: &ChainDomain<F>,
    proof: &ChainAccumulatorProofKillShot<F>,
    inputs: &ChainAccumulatorBatchInputs<F>,
    padded_items: usize,
    pad_public_transcript: bool,
    channel: &mut T,
) -> (out: Option<ChainAccumulatorReductions<F>>)
    requires
        chain_limits(*inputs, padded_items as nat, *proof),
    ensures
        ({
            let want = chain_verdict(
                *params,
                *domain,
                *inputs,
                padded_items as nat,
                pad_public_transcript,
                *proof,
                *old(channel),
            );
            &&& *final(channel) == want.channel
            &&& match out {
                Some(red) => want.point is Some && red.at_point(want.point->0, proof.batch),
                None => want.point is None,
            }
        }),
{
    if inputs.items.len() == 0 || proof.n_items != inputs.items.len() || inputs.items.len()
        > padded_items || proof.live_slots != padded_items * CHAIN_ACC_PERMS_PER_ITEM {
        return None;
    }
    let expected_num_vars: usize = num_vars_for(proof.live_slots);
    proof {
        let padded = padded_items as nat;
        assert(chain_vars_fit(expected_num_vars as nat, padded));
        if chain_vars_fit(proof.num_vars as nat, padded) {
            lemma_slot_vars(
                (proof.num_vars - 9) as nat,
                (expected_num_vars - 9) as nat,
                4 * padded,
            );
        }
        lemma_chain_size(expected_num_vars as nat, padded);
    }
    if proof.num_vars != expected_num_vars {
        return None;
    }
    absorb_statement(channel, domain, inputs, padded_items, pad_public_transcript);
    let links = build_chain_claims(params, domain, inputs, proof.num_vars, padded_items);
    verify_linked(
        params,
        &proof.kill_shot,
        &proof.chain,
        &proof.batch,
        proof.num_vars,
        proof.live_slots,
        &links,
        CHAIN_ACC_LINEAR_RELATION_TAG,
        channel,
    )
}

/// Verifies a proof.
pub fn verify_chain_accumulator_killshot<F: TowerField, T: FiatShamir<F>>(
    params: &PermParams<F>,
    domain: &ChainDomain<F>,
    proof: &ChainAccumulatorProofKillShot<F>,
    inputs: &ChainAccumulatorBatchInputs<F>,
    channel: &mut T,
) -> (out: Option<ChainAccumulatorReductions<F>>)
    requires
        chain_limits(*inputs, inputs.items.len() as nat, *proof),
    ensures
        ({
            let want = chain_verdict(
                *params,
                *domain,
                *inputs,
                inputs.items.len() as nat,
                false,
                *proof,
                *old(channel),
            );
            &&& *final(channel) == want.channel
            &&& match out {
                Some(red) => want.point is Some && red.at_point(want.point->0, proof.batch),
                None => want.point is None,
            }
        }),
{
    verify_chain_accumulator_killshot_with_shape(
        params,
        domain,
        proof,
        inputs,
        inputs.items.len(),
        false,
        channel,
    )
}

/// Verifies a proof about a larger number of items.
pub fn verify_chain_accumulator_killshot_padded<F: TowerField, T: FiatShamir<F>>(
    params: &PermParams<F>,
    domain: &ChainDomain<F>,
    proof: &ChainAccumulatorProofKillShot<F>,
    inputs: &ChainAccumulatorBatchInputs<F>,
    padded_items: usize,
    channel: &mut T,
) -> (out: Option<ChainAccumulatorReductions<F>>)
    requires
        chain_limits(*inputs, padded_items as nat, *proof),
    ensures
        ({
            let want = chain_verdict(
                *params,
                *domain,
                *inputs,
                padded_items as nat,
                true,
                *proof,
                *old(channel),
            );
            &&& *final(channel) == want.channel
            &&& match out {
                Some(red) => want.point is Some && red.at_point(want.point->0, proof.batch),
                None => want.point is None,
            }
        }),
{
    verify_chain_accumulator_killshot_with_shape(
        params,
        domain,
        proof,
        inputs,
        padded_items,
        true,
        channel,
    )
}

/// Completeness: the proof of a true statement is accepted, and the verifier
/// arrives at the prover's point and transcript.
pub proof fn lemma_chain_complete<F: TowerField, T: FiatShamir<F>>(
    params: PermParams<F>,
    domain: ChainDomain<F>,
    inputs: ChainAccumulatorBatchInputs<F>,
    padded: nat,
    pad: bool,
    proof: ChainAccumulatorProofKillShot<F>,
    channel: T,
)
    requires
        statement_holds(params, domain.iv@, inputs),
        inputs.items.len() <= padded,
        is_chain_proof(params, domain, inputs, padded, pad, channel, proof),
    ensures
        ({
            let run = chain_run(params, domain, inputs, padded, pad, channel, proof);
            let v = chain_verdict(params, domain, inputs, padded, pad, proof, channel);
            v.point == Some(run.point) && v.channel == run.channel
        }),
{
    let n = proof.num_vars as nat;
    lemma_chain_size(n, padded);
    lemma_chain_claims_wf(params, domain.iv@, inputs, n, padded);
    lemma_chain_claims_hold(params, domain.iv@, inputs, padded, n);
    lemma_linked_complete(
        params,
        chain_ins(params, domain.iv@, inputs, padded),
        n,
        chain_claims(params, domain.iv@, inputs, n, padded),
        CHAIN_ACC_LINEAR_RELATION_TAG,
        absorb_all(channel, statement_elems(domain, inputs, padded, pad)),
        proof.kill_shot,
        proof.chain,
        proof.batch,
    );
}

/// The padded round trip: the proof of a true statement with the shape of a padded
/// number of items is accepted with that number, and with any other number it is
/// refused before the transcript is touched.
pub proof fn lemma_padded_round_trip<F: TowerField, T: FiatShamir<F>>(
    params: PermParams<F>,
    domain: ChainDomain<F>,
    inputs: ChainAccumulatorBatchInputs<F>,
    padded: nat,
    other: nat,
    proof: ChainAccumulatorProofKillShot<F>,
    channel: T,
)
    requires
        statement_holds(params, domain.iv@, inputs),
        inputs.items.len() <= padded,
        is_chain_proof(params, domain, inputs, padded, true, channel, proof),
    ensures
        ({
            let run = chain_run(params, domain, inputs, padded, true, channel, proof);
            let v = chain_verdict(params, domain, inputs, padded, true, proof, channel);
            v.point == Some(run.point) && v.channel == run.channel
        }),
        other != padded ==> {
            let v = chain_verdict(params, domain, inputs, other, true, proof, channel);
            v.point is None && v.channel == channel
        },
{
    lemma_chain_complete(params, domain, inputs, padded, true, proof, channel);
}

/// Whether the claims that are left are true of the columns of a true statement,
/// padded to a number of items.
pub fn discharge_chain_accumulator_reductions_native_padded<F: TowerField>(
    params: &PermParams<F>,
    domain: &ChainDomain<F>,
    inputs: &ChainAccumulatorBatchInputs<F>,
    reductions: &ChainAccumulatorReductions<F>,
    padded_items: usize,
) -> (r: bool)
    requires
        padded_items * 4096 <= usize::MAX,
        inputs.items.len() * 4 <= usize::MAX,
        forall|n: nat| #[trigger]
            chain_vars_fit(n, padded_items as nat) ==> reductions.state.point.len() == n
                && reductions.sin.point.len() == n && reductions.sout.point.len() == n,
    ensures
        r == (statement_holds(*params, domain.iv@, *inputs) && inputs.items.len() <= padded_items
            && {
            let ins = chain_ins(*params, domain.iv@, *inputs, padded_items as nat);
            let cells = pow2(reductions.state.point.len() as nat);
            reductions.hold(
                sin_column(*params, ins, cells),
                sout_column(*params, ins, cells),
                state_column(*params, ins, cells),
            )
        }),
{
    let mut ins = match evaluate_chain_accumulator(params, domain, inputs) {
        Some(ins) => ins,
        None => {
            return false;
        },
    };
    let live_slots: usize = padded_items * CHAIN_ACC_PERMS_PER_ITEM;
    let ghost before = input_views(ins@);
    proof {
        assert(ins.len() == before.len());
        assert forall|k: int| 0 <= k < ins.len() implies (#[trigger] ins@[k])@ == before[k] by {}
    }
    if ins.len() > live_slots {
        return false;
    }
    pad_state_ins(&mut ins, live_slots);
    proof {
        let want = chain_ins(*params, domain.iv@, *inputs, padded_items as nat);
        assert(input_views(ins@) =~= want) by {
            assert forall|k: int| 0 <= k < want.len() implies input_views(ins@)[k] == want[k] by {
                assert(ins[k]@ == input_views(ins@)[k]);
            }
        }
    }
    let mle = BlockSpineMle::build_from_slot_state_ins(params, ins.as_slice());
    proof {
        assert(chain_vars_fit(mle.num_vars as nat, padded_items as nat));
    }
    reductions.discharge(mle.s_in.as_slice(), mle.s_out.as_slice(), mle.state.as_slice())
}

/// Whether the claims that are left are true of the columns of a true statement.
pub fn discharge_chain_accumulator_reductions_native<F: TowerField>(
    params: &PermParams<F>,
    domain: &ChainDomain<F>,
    inputs: &ChainAccumulatorBatchInputs<F>,
    reductions: &ChainAccumulatorReductions<F>,
) -> (r: bool)
    requires
        inputs.items.len() * 4096 <= usize::MAX,
        forall|n: nat| #[trigger]
            chain_vars_fit(n, inputs.items.len() as nat) ==> reductions.state.point.len() == n
                && reductions.sin.point.len() == n && reductions.sout.point.len() == n,
    ensures
        r == (statement_holds(*params, domain.iv@, *inputs) && {
            let ins = chain_ins(*params, domain.iv@, *inputs, inputs.items.len() as nat);
            let cells = pow2(reductions.state.point.len() as nat);
            reductions.hold(
                sin_column(*params, ins, cells),
                sout_column(*params, ins, cells),
                state_column(*params, ins, cells),
            )
        }),
{
    discharge_chain_accumulator_reductions_native_padded(
        params,
        domain,
        inputs,
        reductions,
        inputs.items.len(),
    )
}

} // verus!
