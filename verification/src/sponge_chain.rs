//! Sponges that absorb a list of blocks, one permutation a block, and the
//! linear claims that bind them to the state column of a trace.
//!
//! A chain has a fixed number of places. Its first blocks are live; the places
//! after them hold permutations of zero and claims without content, so that the
//! claims of a chain have a shape that does not depend on how many blocks live.
use vstd::prelude::*;
use vstd::arithmetic::power2::pow2;
use crate::field::{BinaryField, TowerField, lemma_units};
use crate::layers::{N_ROUNDS, PermParams, permute, permuted};
use crate::linear_eval::{LinearEvalClaim, LinearEvalTerm, LinearView, linear_hold, linear_value, linear_view, linear_wf, terms_view};
use crate::linked_killshot::{Link, LinkView, build_cell_term, cell_term, full_mds, lemma_cell_value, lemma_link_claim, lemma_link_points, lemma_output_pin, link_claims, link_holds, link_wf, live_coeff, output_pin, push_link, push_output_pins, source_lane};
use crate::mle::{cube_point, lemma_cube_point_len, mle};
use crate::sponge::{chained, chained_state, digest, digest_of_state, head, head_state, same_pair, zero_state};
use crate::sum::lemma_sum_single;
use crate::trace::cell;
use crate::trace_mle::{input_views, state_column};

verus! {

/// The contents of blocks.
pub open spec fn block_views<F>(blocks: Seq<[F; 2]>) -> Seq<Seq<F>> {
    Seq::new(blocks.len(), |p: int| blocks[p]@)
}

/// The state that the permutation of a block is applied to.
pub open spec fn chain_state<F: TowerField>(
    params: PermParams<F>,
    iv: Seq<F>,
    blocks: Seq<Seq<F>>,
    p: nat,
) -> Seq<F>
    decreases p,
{
    if p == 0 {
        head(blocks[0], iv)
    } else {
        chained(permuted(params, chain_state(params, iv, blocks, (p - 1) as nat)), blocks[p as int])
    }
}

/// The digest after a number of blocks.
pub open spec fn chain_digest<F: TowerField>(
    params: PermParams<F>,
    iv: Seq<F>,
    blocks: Seq<Seq<F>>,
    live: nat,
) -> Seq<F> {
    digest(permuted(params, chain_state(params, iv, blocks, (live - 1) as nat)))
}

/// The inputs of the permutations of a chain.
pub open spec fn chain_states<F: TowerField>(
    params: PermParams<F>,
    iv: Seq<F>,
    blocks: Seq<Seq<F>>,
    live: nat,
) -> Seq<Seq<F>> {
    Seq::new(
        blocks.len(),
        |p: int|
            if p < live {
                chain_state(params, iv, blocks, p as nat)
            } else {
                zero_state()
            },
    )
}

/// Runs a chain; gives the inputs of its permutations when it ends in the
/// expected digest.
pub fn evaluate_chain<F: TowerField>(
    params: &PermParams<F>,
    blocks: &[[F; 2]],
    live_blocks: usize,
    iv: &[F; 2],
    expected: &[F; 2],
) -> (r: Option<Vec<[F; 4]>>)
    requires
        0 < live_blocks <= blocks.len(),
    ensures
        r is Some <==> chain_digest(*params, iv@, block_views(blocks@), live_blocks as nat)
            == expected@,
        r matches Some(ins) ==> input_views(ins@) == chain_states(
            *params,
            iv@,
            block_views(blocks@),
            live_blocks as nat,
        ),
{
    let ghost views = block_views(blocks@);
    let zero = F::zero_value();
    let mut ins: Vec<[F; 4]> = Vec::new();
    let first = head_state(&blocks[0], iv);
    ins.push(first);
    let mut state = permute(params, first);
    let mut p: usize = 1;
    while p < live_blocks
        invariant
            1 <= p <= live_blocks <= blocks.len(),
            views == block_views(blocks@),
            ins.len() == p,
            state@ == permuted(*params, chain_state(*params, iv@, views, (p - 1) as nat)),
            forall|k: int|
                0 <= k < p ==> (#[trigger] ins[k])@ == chain_state(*params, iv@, views, k as nat),
        decreases live_blocks - p,
    {
        let next = chained_state(&state, &blocks[p]);
        ins.push(next);
        state = permute(params, next);
        p += 1;
    }
    if !same_pair(&digest_of_state(&state), expected) {
        return None;
    }
    let ghost_state = [zero, zero, zero, zero];
    proof {
        assert(ghost_state@ =~= zero_state::<F>());
    }
    while p < blocks.len()
        invariant
            live_blocks <= p <= blocks.len(),
            ins.len() == p,
            ghost_state@ == zero_state::<F>(),
            forall|k: int|
                0 <= k < p ==> (#[trigger] ins[k])@ == if k < live_blocks {
                    chain_state(*params, iv@, views, k as nat)
                } else {
                    zero_state()
                },
        decreases blocks.len() - p,
    {
        ins.push(ghost_state);
        p += 1;
    }
    proof {
        assert(input_views(ins@) =~= chain_states(*params, iv@, views, live_blocks as nat));
    }
    Some(ins)
}

/// The link of a block of a chain that stands at `offset`.
pub open spec fn block_link<F: TowerField>(
    iv: Seq<F>,
    blocks: Seq<Seq<F>>,
    live: nat,
    offset: int,
    p: int,
) -> LinkView<F> {
    let block = blocks[p];
    LinkView {
        slot: offset + p,
        live: p < live,
        sources: if p == 0 {
            Seq::empty()
        } else {
            seq![(offset + p - 1, 4nat)]
        },
        consts: if p == 0 {
            seq![block[0], block[1], iv[0], iv[1]]
        } else {
            seq![block[0], block[1], F::zero(), F::zero()]
        },
    }
}

/// The claims of the links of the first `k` blocks.
pub open spec fn block_link_claims<F: TowerField>(
    params: PermParams<F>,
    iv: Seq<F>,
    blocks: Seq<Seq<F>>,
    live: nat,
    offset: int,
    n: nat,
    k: nat,
) -> Seq<LinearView<F>>
    decreases k,
{
    if k == 0 {
        Seq::empty()
    } else {
        block_link_claims(params, iv, blocks, live, offset, n, (k - 1) as nat) + link_claims(
            full_mds(params),
            n,
            block_link(iv, blocks, live, offset, k - 1),
        )
    }
}

/// The claim that a lane of the output of the last live place has a value: the
/// places all have a term, and only that of the last live one counts.
pub open spec fn boundary_pin<F: BinaryField>(
    n: nat,
    offset: int,
    places: nat,
    live: nat,
    lane: int,
    value: F,
) -> LinearView<F> {
    LinearView {
        terms: Seq::new(
            places,
            |p: int|
                cell_term(n, offset + p, N_ROUNDS as int, lane, live_coeff(p == live - 1, F::one())),
        ),
        value,
    }
}

/// All the claims of a chain: its links, and the two lanes of its digest.
pub open spec fn sponge_chain_claims<F: TowerField>(
    params: PermParams<F>,
    iv: Seq<F>,
    blocks: Seq<Seq<F>>,
    live: nat,
    offset: int,
    expected: Seq<F>,
    n: nat,
) -> Seq<LinearView<F>> {
    block_link_claims(params, iv, blocks, live, offset, n, blocks.len()) + seq![
        boundary_pin(n, offset, blocks.len(), live, 0, expected[0]),
        boundary_pin(n, offset, blocks.len(), live, 1, expected[1]),
    ]
}

/// Appends the links of a chain.
fn push_block_links<F: TowerField>(
    out: &mut Vec<LinearEvalClaim<F>>,
    params: &PermParams<F>,
    iv: &[F; 2],
    blocks: &[[F; 2]],
    live: usize,
    offset: usize,
    n: usize,
)
    requires
        9 <= n,
        pow2(n as nat) <= usize::MAX,
        (offset + blocks.len()) * 512 <= pow2(n as nat),
    ensures
        linear_view(final(out)@) == linear_view(old(out)@) + block_link_claims(
            *params,
            iv@,
            block_views(blocks@),
            live as nat,
            offset as int,
            n as nat,
            blocks.len() as nat,
        ),
{
    let ghost start = linear_view(out@);
    let ghost views = block_views(blocks@);
    let ghost slots = (offset + blocks.len()) as nat;
    let zero = F::zero_value();
    proof {
        assert(start + Seq::<LinearView<F>>::empty() =~= start);
    }
    let mut p: usize = 0;
    while p < blocks.len()
        invariant
            p <= blocks.len(),
            9 <= n,
            pow2(n as nat) <= usize::MAX,
            slots == offset + blocks.len(),
            slots * 512 <= pow2(n as nat),
            zero == F::zero(),
            views == block_views(blocks@),
            linear_view(out@) == start + block_link_claims(
                *params,
                iv@,
                views,
                live as nat,
                offset as int,
                n as nat,
                p as nat,
            ),
        decreases blocks.len() - p,
    {
        let block = blocks[p];
        let mut sources: Vec<(usize, usize)> = Vec::new();
        let mut consts = [block[0], block[1], iv[0], iv[1]];
        if p > 0 {
            sources.push((offset + p - 1, 4));
            consts = [block[0], block[1], zero, zero];
        }
        let link = Link { slot: offset + p, live: p < live, sources, consts };
        proof {
            let want = block_link(iv@, views, live as nat, offset as int, p as int);
            assert(link.contents().consts =~= want.consts);
            assert(link.contents().sources =~= want.sources);
            lemma_block_link_wf(iv@, views, live as nat, offset as int, p as int, slots);
        }
        push_link(out, params, n, link, Ghost(slots));
        proof {
            assert(linear_view(out@) =~= start + block_link_claims(
                *params,
                iv@,
                views,
                live as nat,
                offset as int,
                n as nat,
                (p + 1) as nat,
            ));
        }
        p += 1;
    }
}

proof fn lemma_block_link_wf<F: TowerField>(
    iv: Seq<F>,
    blocks: Seq<Seq<F>>,
    live: nat,
    offset: int,
    p: int,
    slots: nat,
)
    requires
        0 <= offset,
        0 <= p < blocks.len(),
        offset + blocks.len() <= slots,
    ensures
        link_wf(block_link(iv, blocks, live, offset, p), slots),
{
    let link = block_link(iv, blocks, live, offset, p);
    assert forall|s: int| 0 <= s < link.sources.len() implies 0 <= (#[trigger] link.sources[s]).0
        < slots && link.sources[s].1 <= 4 by {}
}

/// Builds the claim on a lane of the last live output.
fn build_boundary_pin<F: TowerField>(
    n: usize,
    offset: usize,
    places: usize,
    live: usize,
    lane: usize,
    value: F,
) -> (c: LinearEvalClaim<F>)
    requires
        9 <= n,
        pow2(n as nat) <= usize::MAX,
        (offset + places) * 512 <= pow2(n as nat),
        0 < live,
        lane < 4,
    ensures
        terms_view(c.terms@) == boundary_pin(
            n as nat,
            offset as int,
            places as nat,
            live as nat,
            lane as int,
            value,
        ).terms,
        c.value == value,
{
    let ghost want = boundary_pin(
        n as nat,
        offset as int,
        places as nat,
        live as nat,
        lane as int,
        value,
    ).terms;
    let mut terms: Vec<LinearEvalTerm<F>> = Vec::new();
    let mut p: usize = 0;
    while p < places
        invariant
            p <= places,
            9 <= n,
            pow2(n as nat) <= usize::MAX,
            (offset + places) * 512 <= pow2(n as nat),
            0 < live,
            lane < 4,
            want == boundary_pin(
                n as nat,
                offset as int,
                places as nat,
                live as nat,
                lane as int,
                value,
            ).terms,
            terms.len() == p,
            forall|t: int|
                0 <= t < p ==> (#[trigger] terms[t]).point@ == want[t].point && terms[t].coeff
                    == want[t].coeff,
        decreases places - p,
    {
        let coeff = if p == live - 1 {
            F::one_value()
        } else {
            F::zero_value()
        };
        proof {
            assert((offset + p + 1) * 512 <= (offset + places) * 512);
        }
        terms.push(build_cell_term(n, offset + p, N_ROUNDS, lane, coeff));
        p += 1;
    }
    proof {
        assert(terms_view(terms@) =~= want);
    }
    LinearEvalClaim { terms, value }
}

/// Appends the claims of a chain.
pub fn push_sponge_chain<F: TowerField>(
    out: &mut Vec<LinearEvalClaim<F>>,
    params: &PermParams<F>,
    iv: &[F; 2],
    blocks: &[[F; 2]],
    live: usize,
    offset: usize,
    expected: &[F; 2],
    n: usize,
)
    requires
        9 <= n,
        pow2(n as nat) <= usize::MAX,
        (offset + blocks.len()) * 512 <= pow2(n as nat),
        0 < live,
    ensures
        linear_view(final(out)@) == linear_view(old(out)@) + sponge_chain_claims(
            *params,
            iv@,
            block_views(blocks@),
            live as nat,
            offset as int,
            expected@,
            n as nat,
        ),
{
    let ghost start = linear_view(out@);
    push_block_links(out, params, iv, blocks, live, offset, n);
    let ghost middle = linear_view(out@);
    let low = build_boundary_pin(n, offset, blocks.len(), live, 0, expected[0]);
    out.push(low);
    let high = build_boundary_pin(n, offset, blocks.len(), live, 1, expected[1]);
    out.push(high);
    proof {
        assert(linear_view(out@) =~= start + sponge_chain_claims(
            *params,
            iv@,
            block_views(blocks@),
            live as nat,
            offset as int,
            expected@,
            n as nat,
        )) by {
            assert(linear_view(out@) =~= middle + seq![
                boundary_pin(
                    n as nat,
                    offset as int,
                    blocks.len() as nat,
                    live as nat,
                    0,
                    expected@[0],
                ),
                boundary_pin(
                    n as nat,
                    offset as int,
                    blocks.len() as nat,
                    live as nat,
                    1,
                    expected@[1],
                ),
            ]);
        }
    }
}

proof fn lemma_block_link_points<F: TowerField>(
    params: PermParams<F>,
    iv: Seq<F>,
    blocks: Seq<Seq<F>>,
    live: nat,
    offset: int,
    n: nat,
    k: nat,
)
    ensures
        linear_wf(block_link_claims(params, iv, blocks, live, offset, n, k), n),
    decreases k,
{
    if k > 0 {
        lemma_block_link_points(params, iv, blocks, live, offset, n, (k - 1) as nat);
        let front = block_link_claims(params, iv, blocks, live, offset, n, (k - 1) as nat);
        let link = block_link(iv, blocks, live, offset, k - 1);
        let part = link_claims(full_mds(params), n, link);
        let all = block_link_claims(params, iv, blocks, live, offset, n, k);
        assert forall|i: int, t: int|
            0 <= i < all.len() && 0 <= t < all[i].terms.len() implies #[trigger] all[i].terms[t].point.len()
            == n by {
            if i < front.len() {
                assert(all[i] == front[i]);
                assert(front[i].terms[t].point.len() == n);
            } else {
                lemma_link_points(full_mds(params), n, link, i - front.len());
                assert(all[i] == part[i - front.len()]);
            }
        }
    }
}

/// The points of the claims of a chain have `n` coordinates.
pub proof fn lemma_sponge_chain_wf<F: TowerField>(
    params: PermParams<F>,
    iv: Seq<F>,
    blocks: Seq<Seq<F>>,
    live: nat,
    offset: int,
    expected: Seq<F>,
    n: nat,
)
    ensures
        linear_wf(sponge_chain_claims(params, iv, blocks, live, offset, expected, n), n),
{
    let front = block_link_claims(params, iv, blocks, live, offset, n, blocks.len());
    let all = sponge_chain_claims(params, iv, blocks, live, offset, expected, n);
    lemma_block_link_points(params, iv, blocks, live, offset, n, blocks.len());
    assert forall|i: int, t: int|
        0 <= i < all.len() && 0 <= t < all[i].terms.len() implies #[trigger] all[i].terms[t].point.len()
        == n by {
        if i < front.len() {
            assert(all[i] == front[i]);
            assert(front[i].terms[t].point.len() == n);
        } else {
            lemma_cube_point_len::<F>(n, cell(offset + t, N_ROUNDS as int, i - front.len()));
        }
    }
}

/// The permutations of a chain stand in the trace from `offset` on.
pub open spec fn chain_stands<F: TowerField>(
    params: PermParams<F>,
    iv: Seq<F>,
    blocks: Seq<Seq<F>>,
    live: nat,
    offset: int,
    inputs: Seq<Seq<F>>,
) -> bool {
    &&& 0 <= offset
    &&& offset + blocks.len() <= inputs.len()
    &&& forall|p: int|
        0 <= p < blocks.len() ==> #[trigger] inputs[offset + p] == chain_states(
            params,
            iv,
            blocks,
            live,
        )[p]
}

proof fn lemma_block_link_holds<F: TowerField>(
    params: PermParams<F>,
    iv: Seq<F>,
    blocks: Seq<Seq<F>>,
    live: nat,
    offset: int,
    inputs: Seq<Seq<F>>,
    p: int,
)
    requires
        chain_stands(params, iv, blocks, live, offset, inputs),
        0 <= p < blocks.len(),
    ensures
        link_holds(params, inputs, block_link(iv, blocks, live, offset, p)),
{
    let link = block_link(iv, blocks, live, offset, p);
    if link.live {
        reveal_with_fuel(source_lane, 2);
        assert(inputs[offset + p] == chain_state(params, iv, blocks, p as nat));
        if p > 0 {
            assert(inputs[offset + (p - 1)] == chain_state(params, iv, blocks, (p - 1) as nat));
        }
        assert forall|j: int| 0 <= j < 4 implies #[trigger] inputs[link.slot][j]
            == link.consts[j].add(
            source_lane(params, inputs, link.sources, j, link.sources.len()),
        ) by {
            if p == 0 {
                lemma_units(link.consts[j]);
            } else {
                let out = permuted(params, inputs[offset + p - 1]);
                lemma_units(out[j]);
                F::add_comm(out[j], link.consts[j]);
                assert(source_lane(params, inputs, link.sources, j, 1) == F::zero().add(out[j]));
            }
        }
    }
}

proof fn lemma_block_links_hold<F: TowerField>(
    params: PermParams<F>,
    iv: Seq<F>,
    blocks: Seq<Seq<F>>,
    live: nat,
    offset: int,
    inputs: Seq<Seq<F>>,
    n: nat,
    k: nat,
)
    requires
        n >= 9,
        chain_stands(params, iv, blocks, live, offset, inputs),
        k <= blocks.len(),
        inputs.len() * 512 <= pow2(n),
    ensures
        linear_hold(
            block_link_claims(params, iv, blocks, live, offset, n, k),
            state_column(params, inputs, pow2(n)),
        ),
    decreases k,
{
    if k > 0 {
        lemma_block_links_hold(params, iv, blocks, live, offset, inputs, n, (k - 1) as nat);
        let column = state_column(params, inputs, pow2(n));
        let front = block_link_claims(params, iv, blocks, live, offset, n, (k - 1) as nat);
        let link = block_link(iv, blocks, live, offset, k - 1);
        let part = link_claims(full_mds(params), n, link);
        let all = block_link_claims(params, iv, blocks, live, offset, n, k);
        lemma_block_link_holds(params, iv, blocks, live, offset, inputs, k - 1);
        lemma_block_link_wf(iv, blocks, live, offset, k - 1, inputs.len());
        assert forall|i: int| 0 <= i < all.len() implies (#[trigger] all[i]).value == linear_value(
            all[i].terms,
            column,
        ) by {
            if i < front.len() {
                assert(all[i] == front[i]);
                assert(front[i].value == linear_value(front[i].terms, column));
            } else {
                lemma_link_claim(params, inputs, n, link, i - front.len());
                assert(all[i] == part[i - front.len()]);
            }
        }
    }
}

/// The last live place of a chain alone counts in its pin.
pub proof fn lemma_boundary_pin<F: TowerField>(
    params: PermParams<F>,
    inputs: Seq<Seq<F>>,
    n: nat,
    offset: int,
    places: nat,
    live: nat,
    lane: int,
)
    requires
        n >= 9,
        0 <= offset,
        0 < live <= places,
        offset + places <= inputs.len(),
        inputs.len() * 512 <= pow2(n),
        0 <= lane < 4,
    ensures
        ({
            let value = permuted(params, inputs[offset + live - 1])[lane];
            let pin = boundary_pin(n, offset, places, live, lane, value);
            value == linear_value(pin.terms, state_column(params, inputs, pow2(n)))
        }),
{
    let column = state_column(params, inputs, pow2(n));
    let value = permuted(params, inputs[offset + live - 1])[lane];
    let terms = boundary_pin(n, offset, places, live, lane, value).terms;
    let f = |t: int| terms[t].coeff.mul(mle(column, terms[t].point));
    assert forall|t: int| 0 <= t < places && t != live - 1 implies #[trigger] f(t)
        == F::zero() by {
        lemma_units(mle(column, terms[t].point));
    }
    lemma_sum_single(places, live - 1, f);
    lemma_cell_value(params, inputs, n, offset + live - 1, N_ROUNDS as int, lane);
    assert(terms[live - 1].point == cube_point::<F>(
        n,
        cell(offset + live - 1, N_ROUNDS as int, lane),
    ));
    lemma_units(value);
}

/// The claims of a chain are true of a trace that it stands in, when it ends in
/// the expected digest.
pub proof fn lemma_sponge_chain_holds<F: TowerField>(
    params: PermParams<F>,
    iv: Seq<F>,
    blocks: Seq<Seq<F>>,
    live: nat,
    offset: int,
    expected: Seq<F>,
    inputs: Seq<Seq<F>>,
    n: nat,
)
    requires
        n >= 9,
        0 < live <= blocks.len(),
        chain_stands(params, iv, blocks, live, offset, inputs),
        chain_digest(params, iv, blocks, live) == expected,
        inputs.len() * 512 <= pow2(n),
    ensures
        linear_hold(
            sponge_chain_claims(params, iv, blocks, live, offset, expected, n),
            state_column(params, inputs, pow2(n)),
        ),
{
    let column = state_column(params, inputs, pow2(n));
    let front = block_link_claims(params, iv, blocks, live, offset, n, blocks.len());
    let all = sponge_chain_claims(params, iv, blocks, live, offset, expected, n);
    lemma_block_links_hold(params, iv, blocks, live, offset, inputs, n, blocks.len());
    assert(inputs[offset + (live - 1)] == chain_state(params, iv, blocks, (live - 1) as nat));
    lemma_boundary_pin(params, inputs, n, offset, blocks.len(), live, 0);
    lemma_boundary_pin(params, inputs, n, offset, blocks.len(), live, 1);
    assert forall|i: int| 0 <= i < all.len() implies (#[trigger] all[i]).value == linear_value(
        all[i].terms,
        column,
    ) by {
        if i < front.len() {
            assert(all[i] == front[i]);
            assert(front[i].value == linear_value(front[i].terms, column));
        } else if i == front.len() {
            assert(all[i] == boundary_pin(n, offset, blocks.len(), live, 0, expected[0]));
        } else {
            assert(all[i] == boundary_pin(n, offset, blocks.len(), live, 1, expected[1]));
        }
    }
}

/// The claims of a chain all of whose places are live.
pub open spec fn full_chain_claims<F: TowerField>(
    params: PermParams<F>,
    iv: Seq<F>,
    blocks: Seq<Seq<F>>,
    offset: int,
    expected: Seq<F>,
    n: nat,
) -> Seq<LinearView<F>> {
    let last = offset + blocks.len() - 1;
    block_link_claims(params, iv, blocks, blocks.len(), offset, n, blocks.len()) + seq![
        output_pin(n, last, 0, expected[0]),
        output_pin(n, last, 1, expected[1]),
    ]
}

/// Appends the claims of a chain all of whose places are live.
pub fn push_full_chain<F: TowerField>(
    out: &mut Vec<LinearEvalClaim<F>>,
    params: &PermParams<F>,
    iv: &[F; 2],
    blocks: &[[F; 2]],
    offset: usize,
    expected: &[F; 2],
    n: usize,
)
    requires
        9 <= n,
        pow2(n as nat) <= usize::MAX,
        (offset + blocks.len()) * 512 <= pow2(n as nat),
        blocks.len() > 0,
    ensures
        linear_view(final(out)@) == linear_view(old(out)@) + full_chain_claims(
            *params,
            iv@,
            block_views(blocks@),
            offset as int,
            expected@,
            n as nat,
        ),
{
    let ghost start = linear_view(out@);
    push_block_links(out, params, iv, blocks, blocks.len(), offset, n);
    push_output_pins(out, n, offset + blocks.len() - 1, expected);
    proof {
        assert(linear_view(out@) =~= start + full_chain_claims(
            *params,
            iv@,
            block_views(blocks@),
            offset as int,
            expected@,
            n as nat,
        ));
    }
}

/// The points of the claims of a chain have `n` coordinates.
pub proof fn lemma_full_chain_wf<F: TowerField>(
    params: PermParams<F>,
    iv: Seq<F>,
    blocks: Seq<Seq<F>>,
    offset: int,
    expected: Seq<F>,
    n: nat,
)
    ensures
        linear_wf(full_chain_claims(params, iv, blocks, offset, expected, n), n),
{
    let places = blocks.len();
    let front = block_link_claims(params, iv, blocks, places, offset, n, places);
    let all = full_chain_claims(params, iv, blocks, offset, expected, n);
    lemma_block_link_points(params, iv, blocks, places, offset, n, places);
    assert forall|i: int, t: int|
        0 <= i < all.len() && 0 <= t < all[i].terms.len() implies #[trigger] all[i].terms[t].point.len()
        == n by {
        if i < front.len() {
            assert(all[i] == front[i]);
            assert(front[i].terms[t].point.len() == n);
        } else {
            lemma_cube_point_len::<F>(
                n,
                cell(offset + places - 1, N_ROUNDS as int, i - front.len()),
            );
        }
    }
}

/// The claims of a chain are true of a trace that it stands in, when it ends in
/// the expected digest.
pub proof fn lemma_full_chain_holds<F: TowerField>(
    params: PermParams<F>,
    iv: Seq<F>,
    blocks: Seq<Seq<F>>,
    offset: int,
    expected: Seq<F>,
    inputs: Seq<Seq<F>>,
    n: nat,
)
    requires
        n >= 9,
        0 < blocks.len(),
        chain_stands(params, iv, blocks, blocks.len(), offset, inputs),
        chain_digest(params, iv, blocks, blocks.len()) == expected,
        inputs.len() * 512 <= pow2(n),
    ensures
        linear_hold(
            full_chain_claims(params, iv, blocks, offset, expected, n),
            state_column(params, inputs, pow2(n)),
        ),
{
    let column = state_column(params, inputs, pow2(n));
    let places = blocks.len();
    let last = offset + places - 1;
    let front = block_link_claims(params, iv, blocks, places, offset, n, places);
    let all = full_chain_claims(params, iv, blocks, offset, expected, n);
    lemma_block_links_hold(params, iv, blocks, places, offset, inputs, n, places);
    assert(inputs[offset + (places - 1)] == chain_state(params, iv, blocks, (places - 1) as nat));
    lemma_output_pin(params, inputs, n, last, 0, expected[0]);
    lemma_output_pin(params, inputs, n, last, 1, expected[1]);
    assert forall|i: int| 0 <= i < all.len() implies (#[trigger] all[i]).value == linear_value(
        all[i].terms,
        column,
    ) by {
        if i < front.len() {
            assert(all[i] == front[i]);
            assert(front[i].value == linear_value(front[i].terms, column));
        } else if i == front.len() {
            assert(all[i] == output_pin(n, last, 0, expected[0]));
        } else {
            assert(all[i] == output_pin(n, last, 1, expected[1]));
        }
    }
}

} // verus!
