//! What true links say of the permutations of a trace.
//!
//! A link is a linear claim on the first layer of a permutation. Where the matrix
//! of that layer is not singular, the claim fixes the input of the permutation.
//! So the claims of a chain hold of a trace only if the trace runs the chain, and
//! only if the chain ends in the digest that is claimed.
use vstd::prelude::*;
use vstd::arithmetic::power2::pow2;
use crate::chain_accumulator_killshot::{ChainAccumulatorBatchInputs, ChainAccumulatorItem, ChainAccumulatorProofKillShot, ChainDomain, accumulator, chain_claims, chain_input, chain_link, chain_link_claims, chain_verdict, inner_digest, statement_holds};
use crate::field::{TowerField, lemma_add_cancel, lemma_add_eq_zero, lemma_units};
use crate::guard_bucket_killshot::{BatchedGuardBucketProofKillShot, GuardBucketUpdateInputs, GuardDomain, canonical, leaf_block_views, live_blocks, slots_block_views, update_claims, update_holds, update_slots, update_verdict};
use crate::layers::{PermParams, layer_state, permuted};
use crate::linear_eval::{LinearView, linear_hold, linear_value};
use crate::linked_killshot::{LinkView, full_mds, lemma_cell_value, lemma_output_pin, lemma_source_sum, link_claim, link_claims, link_wf, output_pin, source_lane, source_terms};
use crate::matrix::{dot, kernel, singular};
use crate::mle::mle;
use crate::sponge::{digest, hash2, hash3, padding};
use crate::sponge_chain::{block_link, block_link_claims, boundary_pin, chain_digest, chain_state, full_chain_claims, lemma_boundary_pin, sponge_chain_claims};
use crate::sum::{lemma_sum_add, lemma_sum_ext, lemma_sum_split, sum};
use crate::trace_mle::{sin_column, sout_column, state_column};
use crate::trace_soundness::{lemma_linked_sound, linked_fooled};
use crate::transcript::{FiatShamir, absorb_all};

verus! {

/// The input that a link gives a permutation.
pub open spec fn linked_input<F: TowerField>(
    params: PermParams<F>,
    inputs: Seq<Seq<F>>,
    link: LinkView<F>,
) -> Seq<F> {
    Seq::new(
        4,
        |j: int|
            link.consts[j].add(
                source_lane(params, inputs, link.sources, j, link.sources.len()),
            ),
    )
}

/// The claim of a live link on a lane says that the first layer of the input is
/// that of the input which the link gives.
proof fn lemma_link_lane<F: TowerField>(
    params: PermParams<F>,
    inputs: Seq<Seq<F>>,
    n: nat,
    link: LinkView<F>,
    lane: int,
)
    requires
        n >= 9,
        link_wf(link, inputs.len()),
        inputs.len() * 512 <= pow2(n),
        0 <= lane < 4,
        link.live,
        ({
            let claim = link_claim(full_mds(params), n, link, lane);
            claim.value == linear_value(claim.terms, state_column(params, inputs, pow2(n)))
        }),
    ensures
        dot(params.mds_full[lane]@, inputs[link.slot]) == dot(
            params.mds_full[lane]@,
            linked_input(params, inputs, link),
        ),
{
    let mds = full_mds(params);
    let column = state_column(params, inputs, pow2(n));
    let claim = link_claim(mds, n, link, lane);
    let terms = claim.terms;
    let rest = source_terms(mds, n, link, lane, link.sources.len());
    let f = |t: int| terms[t].coeff.mul(mle(column, terms[t].point));
    lemma_source_sum(params, inputs, n, link, lane, link.sources.len());
    let g = |t: int| rest[t].coeff.mul(mle(column, rest[t].point));
    lemma_sum_split(1, rest.len(), f);
    let tail = |t: int| f(1 + t);
    assert forall|t: int| 0 <= t < rest.len() implies #[trigger] tail(t) == g(t) by {
        assert(terms[1 + t] == rest[t]);
    }
    lemma_sum_ext(rest.len(), tail, g);
    let own = layer_state(params, inputs[link.slot], 0)[lane];
    lemma_cell_value(params, inputs, n, link.slot, 0, lane);
    lemma_units(own);
    assert(sum(1, f) == sum(0, f).add(f(0))) by {
        reveal_with_fuel(sum, 2);
    }
    lemma_units(f(0));
    assert(sum(1, f) == own);
    let input = inputs[link.slot];
    let want = linked_input(params, inputs, link);
    let whole = |j: int| mds(lane, j).mul(want[j]);
    let consts = |j: int| mds(lane, j).mul(link.consts[j]);
    let added = |j: int|
        mds(lane, j).mul(source_lane(params, inputs, link.sources, j, link.sources.len()));
    lemma_sum_add(4, consts, added);
    let both = |j: int| consts(j).add(added(j));
    assert forall|j: int| 0 <= j < 4 implies #[trigger] both(j) == whole(j) by {
        F::mul_add(
            mds(lane, j),
            link.consts[j],
            source_lane(params, inputs, link.sources, j, link.sources.len()),
        );
    }
    lemma_sum_ext(4, both, whole);
    let layer = |j: int| mds(lane, j).mul(input[j]);
    assert(own == sum(4, layer)) by {
        lemma_sum_ext(4, |j: int| params.mds_full[lane][j].mul(input[j]), layer);
    }
    assert(own == dot(params.mds_full[lane]@, input)) by {
        lemma_sum_ext(4, layer, |j: int| params.mds_full[lane]@[j].mul(input[j]));
    }
    lemma_sum_ext(4, whole, |j: int| params.mds_full[lane]@[j].mul(want[j]));
    // c == own + a, and c + a is what the link gives.
    lemma_add_cancel(own, sum(4, added));
}

/// Matrices that are not singular tell columns apart.
proof fn lemma_not_singular<F: TowerField>(m: [[F; 4]; 4], x: Seq<F>, y: Seq<F>)
    requires
        !singular(m),
        x.len() == 4,
        y.len() == 4,
        forall|i: int| 0 <= i < 4 ==> dot(#[trigger] m[i]@, x) == dot(m[i]@, y),
    ensures
        x == y,
{
    let v = Seq::new(4, |j: int| x[j].add(y[j]));
    assert(kernel(m, v)) by {
        assert forall|i: int| 0 <= i < 4 implies #[trigger] dot(m[i]@, v) == F::zero() by {
            let a = |j: int| m[i]@[j].mul(x[j]);
            let b = |j: int| m[i]@[j].mul(y[j]);
            let both = |j: int| a(j).add(b(j));
            lemma_sum_add(4, a, b);
            assert forall|j: int| 0 <= j < 4 implies #[trigger] both(j) == m[i]@[j].mul(v[j]) by {
                F::mul_add(m[i]@[j], x[j], y[j]);
            }
            lemma_sum_ext(4, both, |j: int| m[i]@[j].mul(v[j]));
            assert(dot(m[i]@, x) == dot(m[i]@, y));
            F::add_self(dot(m[i]@, x));
        }
    }
    assert forall|k: int| 0 <= k < 4 implies x[k] == y[k] by {
        if v[k] != F::zero() {
            assert(singular(m));
        }
        lemma_add_eq_zero(x[k], y[k]);
    }
    assert(x =~= y);
}

/// True claims of a live link fix the input of its permutation.
pub proof fn lemma_link_sound<F: TowerField>(
    params: PermParams<F>,
    inputs: Seq<Seq<F>>,
    n: nat,
    link: LinkView<F>,
)
    requires
        !singular(params.mds_full),
        n >= 9,
        link_wf(link, inputs.len()),
        inputs.len() * 512 <= pow2(n),
        link.live,
        inputs[link.slot].len() == 4,
        linear_hold(
            link_claims(full_mds(params), n, link),
            state_column(params, inputs, pow2(n)),
        ),
    ensures
        inputs[link.slot] == linked_input(params, inputs, link),
{
    let claims = link_claims(full_mds(params), n, link);
    let want = linked_input(params, inputs, link);
    assert forall|i: int| 0 <= i < 4 implies dot(
        #[trigger] params.mds_full[i]@,
        inputs[link.slot],
    ) == dot(params.mds_full[i]@, want) by {
        assert(claims[i].value == linear_value(
            claims[i].terms,
            state_column(params, inputs, pow2(n)),
        ));
        lemma_link_lane(params, inputs, n, link, i);
    }
    lemma_not_singular(params.mds_full, inputs[link.slot], want);
}

/// Claims that hold together hold apart.
proof fn lemma_hold_parts<F: TowerField>(
    a: Seq<LinearView<F>>,
    b: Seq<LinearView<F>>,
    column: Seq<F>,
)
    requires
        linear_hold(a + b, column),
    ensures
        linear_hold(a, column),
        linear_hold(b, column),
{
    assert forall|i: int| 0 <= i < a.len() implies (#[trigger] a[i]).value == linear_value(
        a[i].terms,
        column,
    ) by {
        assert((a + b)[i] == a[i]);
    }
    assert forall|i: int| 0 <= i < b.len() implies (#[trigger] b[i]).value == linear_value(
        b[i].terms,
        column,
    ) by {
        assert((a + b)[a.len() + i] == b[i]);
    }
}

/// True links of the first blocks of a chain make the trace run the chain.
proof fn lemma_blocks_sound<F: TowerField>(
    params: PermParams<F>,
    iv: Seq<F>,
    blocks: Seq<Seq<F>>,
    live: nat,
    offset: int,
    inputs: Seq<Seq<F>>,
    n: nat,
    k: nat,
)
    requires
        !singular(params.mds_full),
        n >= 9,
        0 <= offset,
        offset + blocks.len() <= inputs.len(),
        inputs.len() * 512 <= pow2(n),
        forall|s: int| 0 <= s < inputs.len() ==> (#[trigger] inputs[s]).len() == 4,
        k <= live <= blocks.len(),
        linear_hold(
            block_link_claims(params, iv, blocks, live, offset, n, k),
            state_column(params, inputs, pow2(n)),
        ),
    ensures
        forall|p: int|
            0 <= p < k ==> #[trigger] inputs[offset + p] == chain_state(
                params,
                iv,
                blocks,
                p as nat,
            ),
    decreases k,
{
    if k > 0 {
        let front = block_link_claims(params, iv, blocks, live, offset, n, (k - 1) as nat);
        let p = k - 1;
        let link = block_link(iv, blocks, live, offset, p);
        let column = state_column(params, inputs, pow2(n));
        lemma_hold_parts(front, link_claims(full_mds(params), n, link), column);
        lemma_blocks_sound(params, iv, blocks, live, offset, inputs, n, (k - 1) as nat);
        assert(link_wf(link, inputs.len()));
        assert(inputs[offset + p].len() == 4);
        lemma_link_sound(params, inputs, n, link);
        let want = linked_input(params, inputs, link);
        let state = chain_state(params, iv, blocks, p as nat);
        reveal_with_fuel(source_lane, 2);
        if p > 0 {
            assert(inputs[offset + (p - 1)] == chain_state(params, iv, blocks, (p - 1) as nat));
        }
        assert forall|j: int| 0 <= j < 4 implies want[j] == state[j] by {
            let s = source_lane(params, inputs, link.sources, j, link.sources.len());
            if p == 0 {
                lemma_units(link.consts[j]);
            } else {
                let out = permuted(params, inputs[offset + p - 1]);
                assert(s == F::zero().add(out[j]));
                lemma_units(out[j]);
                F::add_comm(out[j], link.consts[j]);
            }
        }
        assert(want =~= state);
    }
}

/// The links of the first blocks are among those of more.
proof fn lemma_block_prefix<F: TowerField>(
    params: PermParams<F>,
    iv: Seq<F>,
    blocks: Seq<Seq<F>>,
    live: nat,
    offset: int,
    n: nat,
    j: nat,
    k: nat,
    column: Seq<F>,
)
    requires
        j <= k,
        linear_hold(block_link_claims(params, iv, blocks, live, offset, n, k), column),
    ensures
        linear_hold(block_link_claims(params, iv, blocks, live, offset, n, j), column),
    decreases k,
{
    if j < k {
        lemma_hold_parts(
            block_link_claims(params, iv, blocks, live, offset, n, (k - 1) as nat),
            link_claims(full_mds(params), n, block_link(iv, blocks, live, offset, k - 1)),
            column,
        );
        lemma_block_prefix(params, iv, blocks, live, offset, n, j, (k - 1) as nat, column);
    }
}

/// Soundness of the claims of a chain: where they hold of a trace, the trace runs
/// the chain, and the chain ends in the expected digest.
pub proof fn lemma_sponge_chain_sound<F: TowerField>(
    params: PermParams<F>,
    iv: Seq<F>,
    blocks: Seq<Seq<F>>,
    live: nat,
    offset: int,
    expected: Seq<F>,
    inputs: Seq<Seq<F>>,
    n: nat,
)
    requires
        !singular(params.mds_full),
        n >= 9,
        0 <= offset,
        offset + blocks.len() <= inputs.len(),
        inputs.len() * 512 <= pow2(n),
        forall|s: int| 0 <= s < inputs.len() ==> (#[trigger] inputs[s]).len() == 4,
        0 < live <= blocks.len(),
        expected.len() == 2,
        linear_hold(
            sponge_chain_claims(params, iv, blocks, live, offset, expected, n),
            state_column(params, inputs, pow2(n)),
        ),
    ensures
        forall|p: int|
            0 <= p < live ==> #[trigger] inputs[offset + p] == chain_state(
                params,
                iv,
                blocks,
                p as nat,
            ),
        chain_digest(params, iv, blocks, live) == expected,
{
    let column = state_column(params, inputs, pow2(n));
    let front = block_link_claims(params, iv, blocks, live, offset, n, blocks.len());
    let ends = seq![
        boundary_pin(n, offset, blocks.len(), live, 0, expected[0]),
        boundary_pin(n, offset, blocks.len(), live, 1, expected[1]),
    ];
    lemma_hold_parts(front, ends, column);
    lemma_block_prefix(params, iv, blocks, live, offset, n, live, blocks.len(), column);
    lemma_blocks_sound(params, iv, blocks, live, offset, inputs, n, live);
    lemma_boundary_pin(params, inputs, n, offset, blocks.len(), live, 0);
    lemma_boundary_pin(params, inputs, n, offset, blocks.len(), live, 1);
    assert(ends[0].value == linear_value(ends[0].terms, column));
    assert(ends[1].value == linear_value(ends[1].terms, column));
    assert(inputs[offset + (live - 1)] == chain_state(params, iv, blocks, (live - 1) as nat));
    assert(chain_digest(params, iv, blocks, live) =~= expected);
}

/// Soundness of the claims of a chain all of whose places are live.
pub proof fn lemma_full_chain_sound<F: TowerField>(
    params: PermParams<F>,
    iv: Seq<F>,
    blocks: Seq<Seq<F>>,
    offset: int,
    expected: Seq<F>,
    inputs: Seq<Seq<F>>,
    n: nat,
)
    requires
        !singular(params.mds_full),
        n >= 9,
        0 <= offset,
        offset + blocks.len() <= inputs.len(),
        inputs.len() * 512 <= pow2(n),
        forall|s: int| 0 <= s < inputs.len() ==> (#[trigger] inputs[s]).len() == 4,
        0 < blocks.len(),
        expected.len() == 2,
        linear_hold(
            full_chain_claims(params, iv, blocks, offset, expected, n),
            state_column(params, inputs, pow2(n)),
        ),
    ensures
        forall|p: int|
            0 <= p < blocks.len() ==> #[trigger] inputs[offset + p] == chain_state(
                params,
                iv,
                blocks,
                p as nat,
            ),
        chain_digest(params, iv, blocks, blocks.len()) == expected,
{
    let column = state_column(params, inputs, pow2(n));
    let live = blocks.len();
    let last = offset + live - 1;
    let front = block_link_claims(params, iv, blocks, live, offset, n, live);
    let ends = seq![output_pin(n, last, 0, expected[0]), output_pin(n, last, 1, expected[1])];
    lemma_hold_parts(front, ends, column);
    lemma_blocks_sound(params, iv, blocks, live, offset, inputs, n, live);
    let out = permuted(params, inputs[last]);
    lemma_output_pin(params, inputs, n, last, 0, out[0]);
    lemma_output_pin(params, inputs, n, last, 1, out[1]);
    assert(ends[0].value == linear_value(ends[0].terms, column));
    assert(ends[1].value == linear_value(ends[1].terms, column));
    assert(inputs[offset + (live - 1)] == chain_state(params, iv, blocks, (live - 1) as nat));
    assert(chain_digest(params, iv, blocks, live) =~= expected);
}

/// Soundness of the claims of an update: where they hold of a trace, both leaves
/// have the digests that they are said to have, and the list has the digest that
/// the new leaf holds.
pub proof fn lemma_update_claims_sound<F: TowerField>(
    params: PermParams<F>,
    domain: GuardDomain<F>,
    inputs: GuardBucketUpdateInputs<F>,
    ins: Seq<Seq<F>>,
    n: nat,
)
    requires
        !singular(params.mds_full),
        n >= 9,
        canonical(inputs),
        ins.len() == update_slots(inputs.padded_spent_len as nat),
        forall|s: int| 0 <= s < ins.len() ==> (#[trigger] ins[s]).len() == 4,
        ins.len() * 512 <= pow2(n),
        linear_hold(
            update_claims(params, domain, inputs, n),
            state_column(params, ins, pow2(n)),
        ),
    ensures
        update_holds(params, domain, inputs),
{
    let leaf_iv = domain.leaf_iv@;
    let old_views = leaf_block_views(inputs.old_leaf);
    let new_views = leaf_block_views(inputs.new_leaf);
    let slots = slots_block_views(inputs.spent_slots@, inputs.padded_spent_len as nat);
    let live = live_blocks(inputs);
    let old_hash = inputs.old_leaf.expected_hash@;
    let new_hash = inputs.new_leaf.expected_hash@;
    let slots_digest = inputs.new_leaf.slots_digest@;
    let column = state_column(params, ins, pow2(n));
    let a = full_chain_claims(params, leaf_iv, old_views, 0, old_hash, n);
    let b = full_chain_claims(params, leaf_iv, new_views, 3, new_hash, n);
    let c = sponge_chain_claims(params, domain.slots_iv@, slots, live, 6, slots_digest, n);
    lemma_hold_parts(a + b, c, column);
    lemma_hold_parts(a, b, column);
    lemma_full_chain_sound(params, leaf_iv, old_views, 0, old_hash, ins, n);
    lemma_full_chain_sound(params, leaf_iv, new_views, 3, new_hash, ins, n);
    lemma_sponge_chain_sound(params, domain.slots_iv@, slots, live, 6, slots_digest, ins, n);
}

/// Soundness of an update: where a proof is accepted and leaves claims that are
/// true of the columns of permutations, the statement is canonical and true, or a
/// challenge fooled the verifier.
pub proof fn lemma_update_sound<F: TowerField, T: FiatShamir<F>>(
    params: PermParams<F>,
    domain: GuardDomain<F>,
    inputs: GuardBucketUpdateInputs<F>,
    ins: Seq<Seq<F>>,
    proof: BatchedGuardBucketProofKillShot<F>,
    channel: T,
)
    requires
        !singular(params.mds_full),
        ins.len() == proof.live_slots,
        forall|s: int| 0 <= s < ins.len() ==> (#[trigger] ins[s]).len() == 4,
        update_verdict(params, domain, inputs, proof, channel).point is Some,
        ({
            let cells = pow2(proof.num_vars as nat);
            let point = update_verdict(params, domain, inputs, proof, channel).point->0;
            &&& proof.batch.b_finals@[0] == mle(state_column(params, ins, cells), point)
            &&& proof.batch.b_finals@[1] == mle(sin_column(params, ins, cells), point)
            &&& proof.batch.b_finals@[2] == mle(sout_column(params, ins, cells), point)
        }),
    ensures
        ({
            let n = proof.num_vars as nat;
            ||| update_holds(params, domain, inputs)
            ||| linked_fooled(
                params,
                proof.live_slots as nat,
                n,
                sin_column(params, ins, pow2(n)),
                sout_column(params, ins, pow2(n)),
                state_column(params, ins, pow2(n)),
                update_claims(params, domain, inputs, n),
                crate::guard_bucket_killshot::GUARD_BUCKET_LINEAR_RELATION_TAG,
                absorb_all(channel, crate::guard_bucket_killshot::update_elems(domain, inputs)),
                proof.kill_shot,
                proof.chain,
                proof.batch,
            )
        }),
{
    let n = proof.num_vars as nat;
    crate::guard_bucket_killshot::lemma_update_size(n, inputs.padded_spent_len as nat);
    let claims = update_claims(params, domain, inputs, n);
    let start = absorb_all(channel, crate::guard_bucket_killshot::update_elems(domain, inputs));
    lemma_linked_sound(
        params,
        proof.live_slots as nat,
        n,
        sin_column(params, ins, pow2(n)),
        sout_column(params, ins, pow2(n)),
        state_column(params, ins, pow2(n)),
        claims,
        crate::guard_bucket_killshot::GUARD_BUCKET_LINEAR_RELATION_TAG,
        start,
        proof.kill_shot,
        proof.chain,
        proof.batch,
    );
    if linear_hold(claims, state_column(params, ins, pow2(n))) {
        lemma_update_claims_sound(params, domain, inputs, ins, n);
    }
}

/// True links of the first permutations of an accumulator make the trace run it.
proof fn lemma_chain_links_sound<F: TowerField>(
    params: PermParams<F>,
    iv: Seq<F>,
    inputs: ChainAccumulatorBatchInputs<F>,
    ins: Seq<Seq<F>>,
    n: nat,
    k: int,
)
    requires
        !singular(params.mds_full),
        n >= 9,
        0 <= k <= 4 * inputs.items.len() <= ins.len(),
        ins.len() * 512 <= pow2(n),
        forall|s: int| 0 <= s < ins.len() ==> (#[trigger] ins[s]).len() == 4,
        linear_hold(
            chain_link_claims(params, iv, inputs, n, 0, k),
            state_column(params, ins, pow2(n)),
        ),
    ensures
        forall|s: int|
            0 <= s < k ==> #[trigger] ins[s] == chain_input(
                params,
                iv,
                inputs.start_chain_hash@,
                inputs.items@,
                s,
            ),
    decreases k,
{
    if k > 0 {
        let s = k - 1;
        let link = chain_link(iv, inputs, s);
        let column = state_column(params, ins, pow2(n));
        let items = inputs.items@;
        let start = inputs.start_chain_hash@;
        let i = s / 4;
        lemma_hold_parts(
            chain_link_claims(params, iv, inputs, n, 0, k - 1),
            link_claims(full_mds(params), n, link),
            column,
        );
        lemma_chain_links_sound(params, iv, inputs, ins, n, k - 1);
        assert(link_wf(link, ins.len()));
        assert(ins[s].len() == 4);
        lemma_link_sound(params, ins, n, link);
        let got = linked_input(params, ins, link);
        let want = chain_input(params, iv, start, items, s);
        reveal_with_fuel(source_lane, 3);
        assert forall|j: int| 0 <= j < 4 implies got[j] == want[j] by {
            let t = source_lane(params, ins, link.sources, j, link.sources.len());
            if s % 4 == 0 || s == 2 {
                lemma_units(link.consts[j]);
            } else if s % 4 == 1 {
                assert((s - 1) / 4 == i && (s - 1) % 4 == 0);
                assert(ins[s - 1] == chain_input(params, iv, start, items, s - 1));
                let out = permuted(params, ins[s - 1]);
                lemma_units(out[j]);
                F::add_comm(out[j], link.consts[j]);
                lemma_units(link.consts[j]);
                assert(t == F::zero().add(out[j]));
            } else if s % 4 == 2 {
                assert((s - 3) / 4 == i - 1 && (s - 3) % 4 == 3);
                assert(ins[s - 3] == chain_input(params, iv, start, items, s - 3));
                let out = permuted(params, ins[s - 3]);
                lemma_units(out[j]);
                lemma_units(F::zero());
                lemma_units(link.consts[j]);
                assert(accumulator(params, iv, start, items, i as nat) == digest(out));
            } else {
                assert((s - 1) / 4 == i && (s - 1) % 4 == 2);
                assert((s - 2) / 4 == i && (s - 2) % 4 == 1);
                assert(ins[s - 1] == chain_input(params, iv, start, items, s - 1));
                assert(ins[s - 2] == chain_input(params, iv, start, items, s - 2));
                let outer = permuted(params, ins[s - 1]);
                let inner = permuted(params, ins[s - 2]);
                assert(inner_digest(params, iv, items[i]) == digest(inner));
                lemma_units(outer[j]);
                lemma_units(t);
                assert(source_lane(params, ins, link.sources, j, 1) == F::zero().add(outer[j]));
            }
        }
        assert(got =~= want);
    }
}

/// Soundness of the claims of an accumulator: where they hold of a trace, the
/// accumulator over the items ends where it is said to end.
pub proof fn lemma_chain_claims_sound<F: TowerField>(
    params: PermParams<F>,
    iv: Seq<F>,
    inputs: ChainAccumulatorBatchInputs<F>,
    ins: Seq<Seq<F>>,
    padded: nat,
    n: nat,
)
    requires
        !singular(params.mds_full),
        n >= 9,
        0 < inputs.items.len() <= padded,
        ins.len() == 4 * padded,
        ins.len() * 512 <= pow2(n),
        forall|s: int| 0 <= s < ins.len() ==> (#[trigger] ins[s]).len() == 4,
        linear_hold(
            chain_claims(params, iv, inputs, n, padded),
            state_column(params, ins, pow2(n)),
        ),
    ensures
        statement_holds(params, iv, inputs),
{
    let column = state_column(params, ins, pow2(n));
    let live = 4 * inputs.items.len() as int;
    let a = chain_link_claims(params, iv, inputs, n, 0, live);
    let ends = seq![
        output_pin(n, live - 1, 0, inputs.expected_chain_hash[0]),
        output_pin(n, live - 1, 1, inputs.expected_chain_hash[1]),
    ];
    let b = chain_link_claims(params, iv, inputs, n, live, 4 * padded as int);
    lemma_hold_parts(a + ends, b, column);
    lemma_hold_parts(a, ends, column);
    lemma_chain_links_sound(params, iv, inputs, ins, n, live);
    let k = live - 1;
    assert(k / 4 == inputs.items.len() - 1 && k % 4 == 3);
    let out = permuted(params, ins[k]);
    lemma_output_pin(params, ins, n, k, 0, out[0]);
    lemma_output_pin(params, ins, n, k, 1, out[1]);
    assert(ends[0].value == linear_value(ends[0].terms, column));
    assert(ends[1].value == linear_value(ends[1].terms, column));
    assert(ins[k] == chain_input(params, iv, inputs.start_chain_hash@, inputs.items@, k));
    assert(digest(out) =~= inputs.expected_chain_hash@);
}

/// Soundness of an accumulator: where a proof is accepted and leaves claims that
/// are true of the columns of permutations, the accumulator ends where it is said
/// to end, or a challenge fooled the verifier.
pub proof fn lemma_chain_sound<F: TowerField, T: FiatShamir<F>>(
    params: PermParams<F>,
    domain: ChainDomain<F>,
    inputs: ChainAccumulatorBatchInputs<F>,
    padded: nat,
    pad: bool,
    ins: Seq<Seq<F>>,
    proof: ChainAccumulatorProofKillShot<F>,
    channel: T,
)
    requires
        !singular(params.mds_full),
        ins.len() == proof.live_slots,
        forall|s: int| 0 <= s < ins.len() ==> (#[trigger] ins[s]).len() == 4,
        chain_verdict(params, domain, inputs, padded, pad, proof, channel).point is Some,
        ({
            let cells = pow2(proof.num_vars as nat);
            let point = chain_verdict(
                params,
                domain,
                inputs,
                padded,
                pad,
                proof,
                channel,
            ).point->0;
            &&& proof.batch.b_finals@[0] == mle(state_column(params, ins, cells), point)
            &&& proof.batch.b_finals@[1] == mle(sin_column(params, ins, cells), point)
            &&& proof.batch.b_finals@[2] == mle(sout_column(params, ins, cells), point)
        }),
    ensures
        inputs.items.len() <= padded,
        proof.n_items == inputs.items.len(),
        ({
            let n = proof.num_vars as nat;
            ||| statement_holds(params, domain.iv@, inputs)
            ||| linked_fooled(
                params,
                proof.live_slots as nat,
                n,
                sin_column(params, ins, pow2(n)),
                sout_column(params, ins, pow2(n)),
                state_column(params, ins, pow2(n)),
                chain_claims(params, domain.iv@, inputs, n, padded),
                crate::chain_accumulator_killshot::CHAIN_ACC_LINEAR_RELATION_TAG,
                absorb_all(
                    channel,
                    crate::chain_accumulator_killshot::statement_elems(domain, inputs, padded, pad),
                ),
                proof.kill_shot,
                proof.chain,
                proof.batch,
            )
        }),
{
    let n = proof.num_vars as nat;
    crate::chain_accumulator_killshot::lemma_chain_size(n, padded);
    let claims = chain_claims(params, domain.iv@, inputs, n, padded);
    let start = absorb_all(
        channel,
        crate::chain_accumulator_killshot::statement_elems(domain, inputs, padded, pad),
    );
    lemma_linked_sound(
        params,
        proof.live_slots as nat,
        n,
        sin_column(params, ins, pow2(n)),
        sout_column(params, ins, pow2(n)),
        state_column(params, ins, pow2(n)),
        claims,
        crate::chain_accumulator_killshot::CHAIN_ACC_LINEAR_RELATION_TAG,
        start,
        proof.kill_shot,
        proof.chain,
        proof.batch,
    );
    if linear_hold(claims, state_column(params, ins, pow2(n))) {
        lemma_chain_claims_sound(params, domain.iv@, inputs, ins, padded, n);
    }
}

/// What an update says, spelled out: both leaves have the digests that they are
/// said to have, of whether they are occupied, of their height and of the digest
/// of their slots; and that of the new leaf is the digest of the list.
pub proof fn lemma_update_says<F: TowerField>(
    params: PermParams<F>,
    domain: GuardDomain<F>,
    inputs: GuardBucketUpdateInputs<F>,
)
    requires
        update_holds(params, domain, inputs),
    ensures
        inputs.old_leaf.expected_hash@ == hash3(
            params,
            domain.leaf_iv@,
            seq![
                if inputs.old_leaf.occupied {
                    F::one()
                } else {
                    F::zero()
                },
                F::of_u128(inputs.old_leaf.absolute_height as u128),
            ],
            inputs.old_leaf.slots_digest@,
            padding(),
        ),
        inputs.new_leaf.expected_hash@ == hash3(
            params,
            domain.leaf_iv@,
            seq![F::one(), F::of_u128(inputs.new_leaf.absolute_height as u128)],
            inputs.new_leaf.slots_digest@,
            padding(),
        ),
        inputs.new_leaf.slots_digest@ == chain_digest(
            params,
            domain.slots_iv@,
            slots_block_views(inputs.spent_slots@, inputs.padded_spent_len as nat),
            (inputs.spent_slots.len() + 1) as nat / 2 + 1,
        ),
{
    F::of_u128_units();
    lemma_three_blocks(params, domain.leaf_iv@, leaf_block_views(inputs.old_leaf));
    lemma_three_blocks(params, domain.leaf_iv@, leaf_block_views(inputs.new_leaf));
}

/// The digest of a chain of three blocks is that of the sponge.
pub proof fn lemma_three_blocks<F: TowerField>(
    params: PermParams<F>,
    iv: Seq<F>,
    blocks: Seq<Seq<F>>,
)
    requires
        blocks.len() == 3,
    ensures
        chain_digest(params, iv, blocks, 3) == hash3(params, iv, blocks[0], blocks[1], blocks[2]),
{
    reveal_with_fuel(chain_state, 4);
}

/// What a chain says, spelled out: there are items, and the accumulator over all
/// of them is the expected one.
pub proof fn lemma_chain_says<F: TowerField>(
    params: PermParams<F>,
    iv: Seq<F>,
    inputs: ChainAccumulatorBatchInputs<F>,
)
    ensures
        statement_holds(params, iv, inputs) <==> inputs.items.len() > 0
            && inputs.expected_chain_hash@ == accumulator(
            params,
            iv,
            inputs.start_chain_hash@,
            inputs.items@,
            inputs.items.len() as nat,
        ),
{
}

/// An accumulator goes on: over some items and then others it is the accumulator
/// over the others that starts from that over the first; over none it is the
/// start; and over one item it is the digest of the start and of the digest of the
/// two parts of the item.
pub proof fn lemma_accumulator_goes_on<F: TowerField>(
    params: PermParams<F>,
    iv: Seq<F>,
    start: Seq<F>,
    a: Seq<ChainAccumulatorItem<F>>,
    b: Seq<ChainAccumulatorItem<F>>,
    item: ChainAccumulatorItem<F>,
    k: nat,
)
    requires
        k <= b.len(),
    ensures
        accumulator(params, iv, start, a + b, a.len() + k) == accumulator(
            params,
            iv,
            accumulator(params, iv, start, a, a.len()),
            b,
            k,
        ),
        accumulator(params, iv, start, Seq::empty(), 0) == start,
        accumulator(params, iv, start, seq![item], 1) == hash2(
            params,
            iv,
            start,
            hash2(params, iv, item.block_id@, item.chain_claim@),
        ),
    decreases k,
{
    reveal_with_fuel(accumulator, 2);
    if k > 0 {
        lemma_accumulator_goes_on(params, iv, start, a, b, item, (k - 1) as nat);
        assert((a + b)[a.len() + k - 1] == b[k - 1]);
    } else {
        lemma_accumulator_prefix(params, iv, start, a, a + b, a.len());
    }
}

proof fn lemma_accumulator_prefix<F: TowerField>(
    params: PermParams<F>,
    iv: Seq<F>,
    start: Seq<F>,
    a: Seq<ChainAccumulatorItem<F>>,
    b: Seq<ChainAccumulatorItem<F>>,
    k: nat,
)
    requires
        k <= a.len() <= b.len(),
        forall|i: int| 0 <= i < a.len() ==> #[trigger] a[i] == b[i],
    ensures
        accumulator(params, iv, start, a, k) == accumulator(params, iv, start, b, k),
    decreases k,
{
    if k > 0 {
        lemma_accumulator_prefix(params, iv, start, a, b, (k - 1) as nat);
        assert(a[k - 1] == b[k - 1]);
    }
}

} // verus!
