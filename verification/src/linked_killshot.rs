//! The proof of a trace whose permutations are linked.
//!
//! A link says how the input of a permutation is made of constants and of the
//! outputs of earlier ones. Since the first layer is linear, this is a linear
//! claim on the state column. The links are reduced to one more claim on that
//! column, and all three columns are reduced together.
use vstd::prelude::*;
use vstd::arithmetic::power2::pow2;
use crate::auth_unified_v2::AuthKillShotProof;
use crate::batch_eval::{BatchEvalReduction, ClaimView, EvalClaim, batch_messages, claims_wf};
use crate::field::{BinaryField, TowerField, lemma_units};
use crate::interleaved_commit::slice_views;
use crate::killshot::{TraceReductions, build_state_claims, is_pair_proof, lemma_pair_complete, pair_run, pair_verdict, prove_trace_pair, sin_claims, single_claim, sout_claims, state_claims, verify_trace_pair};
use crate::layers::{N_ROUNDS, PermParams, layer_state, permuted};
use crate::linear_eval::{LinearEvalClaim, LinearEvalProof, LinearEvalTerm, LinearView, TermView, lemma_linear_complete, linear_accepts, linear_after, linear_check_run, linear_hold, linear_run, linear_value, linear_view, linear_wf, prove_linear_eval_prebound, terms_view, verify_linear_eval_prebound};
use crate::mle::{boolean_point, cube_point, lemma_cube_point_len, lemma_mle_on_cube, mle};
use crate::multi_batch::{MultiBatchEvalProof, groups_view, lemma_multi_complete, multi_accepts, multi_after, multi_check_run, multi_run, prove_multi_batch_eval, verify_multi_batch_eval};
use crate::sum::{lemma_sum_add, lemma_sum_ext, lemma_sum_split, lemma_sum_zero, sum};
use crate::trace::{cell, lemma_parts_of_cell, pack_index};
use crate::trace_mle::{sin_column, sout_column, state_cell, state_column};
use crate::transcript::FiatShamir;

verus! {

/// The claims on the three columns: both final points and the links on the
/// state, the second final point on the others.
pub open spec fn linked_groups<F>(
    ks: AuthKillShotProof<F>,
    r1: Seq<F>,
    r2: Seq<F>,
    link: ClaimView<F>,
) -> Seq<Seq<ClaimView<F>>> {
    seq![state_claims(ks, r1, r2, seq![link]), sin_claims(ks, r2), sout_claims(ks, r2)]
}

/// The final point and the transcript that is left.
pub struct LinkedRun<F, T> {
    pub point: Seq<F>,
    pub channel: T,
}

/// The prover's run.
pub open spec fn linked_run<F: TowerField, T: FiatShamir<F>>(
    params: PermParams<F>,
    live: nat,
    n: nat,
    s_in: Seq<F>,
    s_out: Seq<F>,
    state: Seq<F>,
    links: Seq<LinearView<F>>,
    tag: u128,
    channel: T,
    ks: AuthKillShotProof<F>,
) -> LinkedRun<F, T> {
    let pair = pair_run(params, live, n, s_in, s_out, state, channel, ks);
    let lin = linear_run(state, links, n, tag, pair.channel);
    let at = lin.challenges.reverse();
    let link = ClaimView { point: at, value: mle(state, at) };
    let multi = multi_run(
        seq![state, s_in, s_out],
        linked_groups(ks, pair.r1, pair.r2, link),
        n,
        lin.channel,
    );
    LinkedRun { point: multi.challenges.reverse(), channel: multi.channel }
}

/// The proof of a linked trace.
pub open spec fn is_linked_proof<F: TowerField, T: FiatShamir<F>>(
    params: PermParams<F>,
    live: nat,
    n: nat,
    s_in: Seq<F>,
    s_out: Seq<F>,
    state: Seq<F>,
    links: Seq<LinearView<F>>,
    tag: u128,
    channel: T,
    ks: AuthKillShotProof<F>,
    chain: LinearEvalProof<F>,
    batch: MultiBatchEvalProof<F>,
) -> bool {
    let pair = pair_run(params, live, n, s_in, s_out, state, channel, ks);
    let lin = linear_run(state, links, n, tag, pair.channel);
    let at = lin.challenges.reverse();
    let link = ClaimView { point: at, value: mle(state, at) };
    let multi = multi_run(
        seq![state, s_in, s_out],
        linked_groups(ks, pair.r1, pair.r2, link),
        n,
        lin.channel,
    );
    let point = multi.challenges.reverse();
    &&& is_pair_proof(params, live, n, s_in, s_out, state, channel, ks)
    &&& batch_messages(chain.rounds@) == lin.messages
    &&& chain.b_final == mle(state, at)
    &&& batch_messages(batch.rounds@) == multi.messages
    &&& batch.b_finals@ == seq![mle(state, point), mle(s_in, point), mle(s_out, point)]
}

impl<F: TowerField> TraceReductions<F> {
    /// The claims at one point, with the values of a proof.
    pub open spec fn at_point(&self, point: Seq<F>, batch: MultiBatchEvalProof<F>) -> bool {
        &&& self.state.point@ == point
        &&& self.sin.point@ == point
        &&& self.sout.point@ == point
        &&& self.state.value == batch.b_finals[0]
        &&& self.sin.value == batch.b_finals[1]
        &&& self.sout.value == batch.b_finals[2]
    }
}

/// The three groups of claims.
fn build_groups<F: TowerField>(
    ks: &AuthKillShotProof<F>,
    r1: &Vec<F>,
    r2: &Vec<F>,
    link: &BatchEvalReduction<F>,
) -> (groups: Vec<Vec<EvalClaim<F>>>)
    ensures
        groups_view(groups@) == linked_groups(
            *ks,
            r1@,
            r2@,
            (ClaimView { point: link.point@, value: link.value }),
        ),
        groups.len() == 3,
{
    let pins = single_claim(&link.point, link.value);
    let mut groups: Vec<Vec<EvalClaim<F>>> = Vec::new();
    groups.push(build_state_claims(ks, r1, r2, &pins));
    groups.push(single_claim(r2, ks.shift.s_in_at_r2));
    groups.push(single_claim(r2, ks.shift.s_out_at_r2));
    proof {
        assert(groups_view(groups@) =~= linked_groups(
            *ks,
            r1@,
            r2@,
            (ClaimView { point: link.point@, value: link.value }),
        ));
    }
    groups
}

proof fn lemma_groups_wf<F: TowerField>(
    ks: AuthKillShotProof<F>,
    r1: Seq<F>,
    r2: Seq<F>,
    link: ClaimView<F>,
    n: nat,
)
    requires
        r1.len() == n,
        r2.len() == n,
        link.point.len() == n,
    ensures
        crate::multi_batch::groups_wf(linked_groups(ks, r1, r2, link), n),
{
    let groups = linked_groups(ks, r1, r2, link);
    assert forall|c: int| 0 <= c < groups.len() implies claims_wf(#[trigger] groups[c], n) by {
        assert forall|i: int| 0 <= i < groups[c].len() implies (#[trigger] groups[c][i]).point.len()
            == n by {
            if c == 0 && i == 2 {
                assert(groups[0][2] == link);
            }
        }
    }
}

/// Proves a linked trace.
pub fn prove_linked<F: TowerField, T: FiatShamir<F>>(
    params: &PermParams<F>,
    s_in: &[F],
    s_out: &[F],
    state: &[F],
    n: usize,
    live: usize,
    links: &Vec<LinearEvalClaim<F>>,
    tag: u128,
    channel: &mut T,
) -> (out: (
    AuthKillShotProof<F>,
    LinearEvalProof<F>,
    MultiBatchEvalProof<F>,
    TraceReductions<F>,
))
    requires
        n >= 9,
        s_in.len() == pow2(n as nat),
        s_out.len() == pow2(n as nat),
        state.len() == pow2(n as nat),
        linear_wf(linear_view(links@), n as nat),
    ensures
        is_linked_proof(
            *params,
            live as nat,
            n as nat,
            s_in@,
            s_out@,
            state@,
            linear_view(links@),
            tag,
            *old(channel),
            out.0,
            out.1,
            out.2,
        ),
        ({
            let run = linked_run(
                *params,
                live as nat,
                n as nat,
                s_in@,
                s_out@,
                state@,
                linear_view(links@),
                tag,
                *old(channel),
                out.0,
            );
            out.3.at_point(run.point, out.2) && *final(channel) == run.channel
        }),
        out.3.hold(s_in@, s_out@, state@),
{
    let (ks, r1, r2) = prove_trace_pair(params, s_in, s_out, state, n, live, channel);
    let (chain, link) = prove_linear_eval_prebound(state, links.as_slice(), tag, n, channel);
    let groups = build_groups(&ks, &r1, &r2, &link);
    proof {
        lemma_groups_wf(
            ks,
            r1@,
            r2@,
            ClaimView { point: link.point@, value: link.value },
            n as nat,
        );
    }
    let columns: [&[F]; 3] = [state, s_in, s_out];
    proof {
        assert(slice_views(columns@) =~= seq![state@, s_in@, s_out@]);
        assert forall|c: int| 0 <= c < columns.len() implies (#[trigger] columns[c]).len() == pow2(
            n as nat,
        ) by {}
    }
    let (batch, reds) = prove_multi_batch_eval(columns.as_slice(), &groups, n, channel);
    proof {
        let cols = seq![state@, s_in@, s_out@];
        assert(reds[0].value == mle(cols[0], reds[0].point@));
        assert(reds[1].value == mle(cols[1], reds[1].point@));
        assert(reds[2].value == mle(cols[2], reds[2].point@));
        assert(batch.b_finals@ =~= seq![
            mle(state@, reds[0].point@),
            mle(s_in@, reds[0].point@),
            mle(s_out@, reds[0].point@),
        ]);
    }
    let reductions = TraceReductions {
        state: copy_reduction(&reds[0]),
        sin: copy_reduction(&reds[1]),
        sout: copy_reduction(&reds[2]),
    };
    (ks, chain, batch, reductions)
}

/// A copy of a reduction.
pub(crate) fn copy_reduction<F: TowerField>(red: &BatchEvalReduction<F>) -> (r: BatchEvalReduction<F>)
    ensures
        r.point@ == red.point@,
        r.value == red.value,
{
    BatchEvalReduction {
        point: crate::table::copied(red.point.as_slice()),
        value: red.value,
    }
}

/// What the verifier decides: the final point on success, and the transcript that is left.
pub struct LinkedVerdict<F, T> {
    pub point: Option<Seq<F>>,
    pub channel: T,
}

/// The verdict on a proof of a linked trace.
pub open spec fn linked_verdict<F: TowerField, T: FiatShamir<F>>(
    params: PermParams<F>,
    live: nat,
    n: nat,
    links: Seq<LinearView<F>>,
    tag: u128,
    channel: T,
    ks: AuthKillShotProof<F>,
    chain: LinearEvalProof<F>,
    batch: MultiBatchEvalProof<F>,
) -> LinkedVerdict<F, T> {
    let pair = pair_verdict(params, live, n, ks, channel);
    if pair.points is None {
        LinkedVerdict { point: None, channel: pair.channel }
    } else {
        let (r1, r2) = pair.points->0;
        let mid = linear_after(chain.rounds@, links, n, tag, pair.channel);
        if !linear_accepts(chain.rounds@, chain.b_final, links, n, tag, pair.channel) {
            LinkedVerdict { point: None, channel: mid }
        } else {
            let at = linear_check_run(
                chain.rounds@,
                links,
                tag,
                pair.channel,
            ).challenges.reverse();
            let groups = linked_groups(
                ks,
                r1,
                r2,
                ClaimView { point: at, value: chain.b_final },
            );
            let end = multi_after(batch.rounds@, batch.b_finals@, groups, n, mid);
            if !multi_accepts(batch.rounds@, batch.b_finals@, groups, n, mid) {
                LinkedVerdict { point: None, channel: end }
            } else {
                LinkedVerdict {
                    point: Some(
                        multi_check_run(batch.rounds@, groups, mid).challenges.reverse(),
                    ),
                    channel: end,
                }
            }
        }
    }
}

/// Verifies a proof of a linked trace; on success returns the claims that are
/// left.
pub fn verify_linked<F: TowerField, T: FiatShamir<F>>(
    params: &PermParams<F>,
    ks: &AuthKillShotProof<F>,
    chain: &LinearEvalProof<F>,
    batch: &MultiBatchEvalProof<F>,
    n: usize,
    live: usize,
    links: &Vec<LinearEvalClaim<F>>,
    tag: u128,
    channel: &mut T,
) -> (out: Option<TraceReductions<F>>)
    requires
        n >= 9,
        pow2(n as nat) <= usize::MAX,
    ensures
        ({
            let want = linked_verdict(
                *params,
                live as nat,
                n as nat,
                linear_view(links@),
                tag,
                *old(channel),
                *ks,
                *chain,
                *batch,
            );
            &&& *final(channel) == want.channel
            &&& match out {
                Some(red) => want.point is Some && red.at_point(want.point->0, *batch),
                None => want.point is None,
            }
        }),
{
    let (r1, r2) = match verify_trace_pair(params, ks, n, live, channel) {
        Some(points) => points,
        None => {
            return None;
        },
    };
    let link = match verify_linear_eval_prebound(chain, links.as_slice(), n, tag, channel) {
        Some(red) => red,
        None => {
            return None;
        },
    };
    let groups = build_groups(ks, &r1, &r2, &link);
    match verify_multi_batch_eval(batch, &groups, n, channel) {
        None => None,
        Some(reds) => {
            proof {
                assert(reds[0].value == batch.b_finals[0]);
                assert(reds[1].value == batch.b_finals[1]);
                assert(reds[2].value == batch.b_finals[2]);
            }
            Some(
                TraceReductions {
                    state: copy_reduction(&reds[0]),
                    sin: copy_reduction(&reds[1]),
                    sout: copy_reduction(&reds[2]),
                },
            )
        },
    }
}

/// Completeness: the proof of the trace of permutations with true links is
/// accepted, and the verifier arrives at the prover's point and transcript.
pub proof fn lemma_linked_complete<F: TowerField, T: FiatShamir<F>>(
    params: PermParams<F>,
    inputs: Seq<Seq<F>>,
    n: nat,
    links: Seq<LinearView<F>>,
    tag: u128,
    channel: T,
    ks: AuthKillShotProof<F>,
    chain: LinearEvalProof<F>,
    batch: MultiBatchEvalProof<F>,
)
    requires
        n >= 9,
        linear_wf(links, n),
        linear_hold(links, state_column(params, inputs, pow2(n))),
        is_linked_proof(
            params,
            inputs.len(),
            n,
            sin_column(params, inputs, pow2(n)),
            sout_column(params, inputs, pow2(n)),
            state_column(params, inputs, pow2(n)),
            links,
            tag,
            channel,
            ks,
            chain,
            batch,
        ),
    ensures
        ({
            let run = linked_run(
                params,
                inputs.len(),
                n,
                sin_column(params, inputs, pow2(n)),
                sout_column(params, inputs, pow2(n)),
                state_column(params, inputs, pow2(n)),
                links,
                tag,
                channel,
                ks,
            );
            let v = linked_verdict(
                params,
                inputs.len(),
                n,
                links,
                tag,
                channel,
                ks,
                chain,
                batch,
            );
            v.point == Some(run.point) && v.channel == run.channel
        }),
{
    let s_in = sin_column(params, inputs, pow2(n));
    let s_out = sout_column(params, inputs, pow2(n));
    let state = state_column(params, inputs, pow2(n));
    lemma_pair_complete(params, inputs, n, ks, channel);
    let pair = pair_run(params, inputs.len(), n, s_in, s_out, state, channel, ks);
    lemma_linear_complete(state, links, n, tag, chain.rounds@, pair.channel);
    let lin = linear_run(state, links, n, tag, pair.channel);
    let at = lin.challenges.reverse();
    let link = ClaimView { point: at, value: mle(state, at) };
    let groups = linked_groups(ks, pair.r1, pair.r2, link);
    let columns = seq![state, s_in, s_out];
    lemma_groups_wf(ks, pair.r1, pair.r2, link, n);
    assert forall|c: int| 0 <= c < groups.len() implies crate::batch_eval::claims_hold(
        #[trigger] groups[c],
        columns[c],
    ) by {
        assert forall|i: int| 0 <= i < groups[c].len() implies (#[trigger] groups[c][i]).value
            == mle(columns[c], groups[c][i].point) by {
            if c == 0 && i == 2 {
                assert(groups[0][2] == link);
            }
        }
    }
    assert forall|c: int| 0 <= c < columns.len() implies (#[trigger] columns[c]).len() == pow2(
        n,
    ) by {}
    let multi = multi_run(columns, groups, n, lin.channel);
    let point = multi.challenges.reverse();
    assert forall|c: int| 0 <= c < groups.len() implies #[trigger] batch.b_finals@[c] == mle(
        columns[c],
        point,
    ) by {}
    lemma_multi_complete(columns, groups, n, batch.rounds@, batch.b_finals@, lin.channel);
}

/// How the input of a permutation is made: constants, plus the lowest lanes of
/// the outputs of other permutations. A link that is not live claims nothing.
pub struct LinkView<F> {
    pub slot: int,
    pub live: bool,
    pub sources: Seq<(int, nat)>,
    pub consts: Seq<F>,
}

/// The term of a cell of the state column.
pub open spec fn cell_term<F: BinaryField>(n: nat, slot: int, round: int, lane: int, coeff: F) -> TermView<
    F,
> {
    TermView { point: cube_point(n, cell(slot, round, lane)), coeff }
}

/// A coefficient of a live link; zero of another.
pub open spec fn live_coeff<F: BinaryField>(live: bool, coeff: F) -> F {
    if live {
        coeff
    } else {
        F::zero()
    }
}

/// The terms of the first `k` sources.
pub open spec fn source_terms<F: TowerField>(
    mds: spec_fn(int, int) -> F,
    n: nat,
    link: LinkView<F>,
    lane: int,
    k: nat,
) -> Seq<TermView<F>>
    decreases k,
{
    if k == 0 {
        Seq::empty()
    } else {
        let (p, count) = link.sources[k - 1];
        source_terms(mds, n, link, lane, (k - 1) as nat) + Seq::new(
            count,
            |j: int|
                cell_term(n, p, N_ROUNDS as int, j, live_coeff(link.live, mds(lane, j))),
        )
    }
}

/// The linear claim of a link on a lane of the first layer.
pub open spec fn link_claim<F: TowerField>(
    mds: spec_fn(int, int) -> F,
    n: nat,
    link: LinkView<F>,
    lane: int,
) -> LinearView<F> {
    LinearView {
        terms: seq![cell_term(n, link.slot, 0, lane, live_coeff(link.live, F::one()))]
            + source_terms(mds, n, link, lane, link.sources.len()),
        value: live_coeff(link.live, sum(4, |j: int| mds(lane, j).mul(link.consts[j]))),
    }
}

/// The four linear claims of a link.
pub open spec fn link_claims<F: TowerField>(
    mds: spec_fn(int, int) -> F,
    n: nat,
    link: LinkView<F>,
) -> Seq<LinearView<F>> {
    Seq::new(4, |lane: int| link_claim(mds, n, link, lane))
}

/// What the first `k` sources add to a lane of the input.
pub open spec fn source_lane<F: TowerField>(
    params: PermParams<F>,
    inputs: Seq<Seq<F>>,
    sources: Seq<(int, nat)>,
    lane: int,
    k: nat,
) -> F
    decreases k,
{
    if k == 0 {
        F::zero()
    } else {
        let (p, count) = sources[k - 1];
        source_lane(params, inputs, sources, lane, (k - 1) as nat).add(
            if lane < count {
                permuted(params, inputs[p])[lane]
            } else {
                F::zero()
            },
        )
    }
}

/// Whether the inputs of the permutations are made as a link says.
pub open spec fn link_holds<F: TowerField>(
    params: PermParams<F>,
    inputs: Seq<Seq<F>>,
    link: LinkView<F>,
) -> bool {
    link.live ==> forall|j: int|
        0 <= j < 4 ==> #[trigger] inputs[link.slot][j] == link.consts[j].add(
            source_lane(params, inputs, link.sources, j, link.sources.len()),
        )
}

/// Whether a link names permutations of the trace.
pub open spec fn link_wf<F>(link: LinkView<F>, slots: nat) -> bool {
    &&& 0 <= link.slot < slots
    &&& link.consts.len() == 4
    &&& forall|s: int|
        0 <= s < link.sources.len() ==> 0 <= (#[trigger] link.sources[s]).0 < slots
            && link.sources[s].1 <= 4
}

/// The first matrix.
pub open spec fn full_mds<F>(params: PermParams<F>) -> spec_fn(int, int) -> F {
    |i: int, j: int| params.mds_full[i][j]
}

/// A cell of the state column is a lane of a layer.
pub proof fn lemma_cell_value<F: TowerField>(
    params: PermParams<F>,
    inputs: Seq<Seq<F>>,
    n: nat,
    slot: int,
    round: int,
    lane: int,
)
    requires
        n >= 9,
        0 <= slot < inputs.len(),
        inputs.len() * 512 <= pow2(n),
        0 <= round <= N_ROUNDS,
        0 <= lane < 4,
    ensures
        mle(
            state_column(params, inputs, pow2(n)),
            cube_point(n, cell(slot, round, lane)),
        ) == layer_state(params, inputs[slot], round as nat)[lane],
{
    let y = cell(slot, round, lane);
    lemma_parts_of_cell(slot, round, lane);
    assert((slot + 1) * 512 <= inputs.len() * 512);
    let column = state_column(params, inputs, pow2(n));
    lemma_mle_on_cube(column, n, y);
    assert(column[y] == state_cell(params, inputs, y));
}

/// The sum of the terms of the sources.
pub proof fn lemma_source_sum<F: TowerField>(
    params: PermParams<F>,
    inputs: Seq<Seq<F>>,
    n: nat,
    link: LinkView<F>,
    lane: int,
    k: nat,
)
    requires
        n >= 9,
        link.live,
        link_wf(link, inputs.len()),
        inputs.len() * 512 <= pow2(n),
        0 <= lane < 4,
        k <= link.sources.len(),
    ensures
        ({
            let terms = source_terms(full_mds(params), n, link, lane, k);
            let mds = full_mds(params);
            linear_value(terms, state_column(params, inputs, pow2(n))) == sum(
                4,
                |j: int| mds(lane, j).mul(source_lane(params, inputs, link.sources, j, k)),
            )
        }),
    decreases k,
{
    let mds = full_mds(params);
    let column = state_column(params, inputs, pow2(n));
    let terms = source_terms(mds, n, link, lane, k);
    let now = |j: int| mds(lane, j).mul(source_lane(params, inputs, link.sources, j, k));
    if k == 0 {
        assert forall|j: int| 0 <= j < 4 implies #[trigger] now(j) == F::zero() by {
            lemma_units(mds(lane, j));
        }
        lemma_sum_zero(4, now);
    } else {
        let i = (k - 1) as nat;
        lemma_source_sum(params, inputs, n, link, lane, i);
        let (p, count) = link.sources[k - 1];
        assert(0 <= link.sources[k - 1].0 < inputs.len());
        let front = source_terms(mds, n, link, lane, i);
        let m = front.len();
        let f = |t: int| terms[t].coeff.mul(mle(column, terms[t].point));
        let g = |t: int| front[t].coeff.mul(mle(column, front[t].point));
        lemma_sum_split(m, count, f);
        assert forall|t: int| 0 <= t < m implies #[trigger] f(t) == g(t) by {
            assert(terms[t] == front[t]);
        }
        lemma_sum_ext(m, f, g);
        // The new source.
        let out = permuted(params, inputs[p]);
        let added = |j: int|
            mds(lane, j).mul(
                if j < count {
                    out[j]
                } else {
                    F::zero()
                },
            );
        let tail = |t: int| f(m + t);
        assert forall|j: int| 0 <= j < count implies #[trigger] tail(j) == added(j) by {
            assert(terms[m + j] == cell_term(n, p, N_ROUNDS as int, j, mds(lane, j)));
            lemma_cell_value(params, inputs, n, p, N_ROUNDS as int, j);
        }
        lemma_sum_ext(count, tail, added);
        lemma_sum_split(count, (4 - count) as nat, added);
        let rest = |j: int| added(count + j);
        assert forall|j: int| 0 <= j < 4 - count implies #[trigger] rest(j) == F::zero() by {
            lemma_units(mds(lane, count + j));
        }
        lemma_sum_zero((4 - count) as nat, rest);
        F::add_zero(sum(count, added));
        // Both together.
        let before = |j: int| mds(lane, j).mul(source_lane(params, inputs, link.sources, j, i));
        lemma_sum_add(4, before, added);
        let both = |j: int| before(j).add(added(j));
        assert forall|j: int| 0 <= j < 4 implies #[trigger] both(j) == now(j) by {
            F::mul_add(
                mds(lane, j),
                source_lane(params, inputs, link.sources, j, i),
                if j < count {
                    out[j]
                } else {
                    F::zero()
                },
            );
        }
        lemma_sum_ext(4, both, now);
    }
}

/// The claim of a link is true of the state column when the inputs are made as
/// the link says.
pub proof fn lemma_link_claim<F: TowerField>(
    params: PermParams<F>,
    inputs: Seq<Seq<F>>,
    n: nat,
    link: LinkView<F>,
    lane: int,
)
    requires
        n >= 9,
        link_wf(link, inputs.len()),
        inputs.len() * 512 <= pow2(n),
        0 <= lane < 4,
        link_holds(params, inputs, link),
    ensures
        ({
            let claim = link_claim(full_mds(params), n, link, lane);
            claim.value == linear_value(claim.terms, state_column(params, inputs, pow2(n)))
        }),
{
    let mds = full_mds(params);
    let column = state_column(params, inputs, pow2(n));
    let claim = link_claim(mds, n, link, lane);
    let terms = claim.terms;
    let rest = source_terms(mds, n, link, lane, link.sources.len());
    let f = |t: int| terms[t].coeff.mul(mle(column, terms[t].point));
    if !link.live {
        lemma_dead_terms(mds, n, link, lane, link.sources.len());
        assert forall|t: int| 0 <= t < terms.len() implies #[trigger] f(t) == F::zero() by {
            if t > 0 {
                assert(rest[t - 1].coeff == F::zero());
                assert(terms[t] == rest[t - 1]);
            }
            lemma_units(mle(column, terms[t].point));
            F::mul_comm(F::zero(), mle(column, terms[t].point));
        }
        lemma_sum_zero(terms.len(), f);
    } else {
        lemma_source_sum(params, inputs, n, link, lane, link.sources.len());
        let g = |t: int| rest[t].coeff.mul(mle(column, rest[t].point));
        lemma_sum_split(1, rest.len(), f);
        let tail = |t: int| f(1 + t);
        assert forall|t: int| 0 <= t < rest.len() implies #[trigger] tail(t) == g(t) by {
            assert(terms[1 + t] == rest[t]);
        }
        lemma_sum_ext(rest.len(), tail, g);
        // The own term is the first layer of the input.
        let own = layer_state(params, inputs[link.slot], 0)[lane];
        lemma_cell_value(params, inputs, n, link.slot, 0, lane);
        lemma_units(own);
        F::mul_comm(F::one(), own);
        assert(sum(1, f) == sum(0, f).add(f(0))) by {
            reveal_with_fuel(sum, 2);
        }
        lemma_units(f(0));
        F::add_comm(F::zero(), f(0));
        F::add_zero(f(0));
        assert(sum(1, f) == own);
        let input = inputs[link.slot];
        let whole = |j: int| mds(lane, j).mul(input[j]);
        let consts = |j: int| mds(lane, j).mul(link.consts[j]);
        let added = |j: int|
            mds(lane, j).mul(
                source_lane(params, inputs, link.sources, j, link.sources.len()),
            );
        lemma_sum_add(4, consts, added);
        let both = |j: int| consts(j).add(added(j));
        assert forall|j: int| 0 <= j < 4 implies #[trigger] both(j) == whole(j) by {
            assert(input[j] == link.consts[j].add(
                source_lane(params, inputs, link.sources, j, link.sources.len()),
            ));
            F::mul_add(
                mds(lane, j),
                link.consts[j],
                source_lane(params, inputs, link.sources, j, link.sources.len()),
            );
        }
        lemma_sum_ext(4, both, whole);
        assert(own == sum(4, whole)) by {
            lemma_sum_ext(
                4,
                |j: int| params.mds_full[lane][j].mul(input[j]),
                whole,
            );
        }
        let c = sum(4, consts);
        let a = sum(4, added);
        // (c + a) + a == c
        F::add_assoc(c, a, a);
        F::add_self(a);
        F::add_zero(c);
    }
}

proof fn lemma_dead_terms<F: TowerField>(
    mds: spec_fn(int, int) -> F,
    n: nat,
    link: LinkView<F>,
    lane: int,
    k: nat,
)
    requires
        !link.live,
        k <= link.sources.len(),
    ensures
        forall|t: int|
            0 <= t < source_terms(mds, n, link, lane, k).len() ==> (#[trigger] source_terms(
                mds,
                n,
                link,
                lane,
                k,
            )[t]).coeff == F::zero(),
    decreases k,
{
    if k > 0 {
        lemma_dead_terms(mds, n, link, lane, (k - 1) as nat);
        let front = source_terms(mds, n, link, lane, (k - 1) as nat);
        let all = source_terms(mds, n, link, lane, k);
        assert forall|t: int| 0 <= t < all.len() implies (#[trigger] all[t]).coeff
            == F::zero() by {
            if t < front.len() {
                assert(all[t] == front[t]);
            }
        }
    }
}

/// The points of a link's claims have `n` coordinates.
pub proof fn lemma_link_points<F: TowerField>(
    mds: spec_fn(int, int) -> F,
    n: nat,
    link: LinkView<F>,
    lane: int,
)
    ensures
        forall|t: int|
            0 <= t < link_claim(mds, n, link, lane).terms.len() ==> (#[trigger] link_claim(
                mds,
                n,
                link,
                lane,
            ).terms[t]).point.len() == n,
{
    let terms = link_claim(mds, n, link, lane).terms;
    let rest = source_terms(mds, n, link, lane, link.sources.len());
    lemma_source_points(mds, n, link, lane, link.sources.len());
    assert forall|t: int| 0 <= t < terms.len() implies (#[trigger] terms[t]).point.len() == n by {
        if t == 0 {
            lemma_cube_point_len::<F>(n, cell(link.slot, 0, lane));
        } else {
            assert(terms[t] == rest[t - 1]);
        }
    }
}

proof fn lemma_source_points<F: TowerField>(
    mds: spec_fn(int, int) -> F,
    n: nat,
    link: LinkView<F>,
    lane: int,
    k: nat,
)
    requires
        k <= link.sources.len(),
    ensures
        forall|t: int|
            0 <= t < source_terms(mds, n, link, lane, k).len() ==> (#[trigger] source_terms(
                mds,
                n,
                link,
                lane,
                k,
            )[t]).point.len() == n,
    decreases k,
{
    if k > 0 {
        lemma_source_points(mds, n, link, lane, (k - 1) as nat);
        let front = source_terms(mds, n, link, lane, (k - 1) as nat);
        let all = source_terms(mds, n, link, lane, k);
        let (p, count) = link.sources[k - 1];
        assert forall|t: int| 0 <= t < all.len() implies (#[trigger] all[t]).point.len() == n by {
            if t < front.len() {
                assert(all[t] == front[t]);
            } else {
                lemma_cube_point_len::<F>(n, cell(p, N_ROUNDS as int, t - front.len()));
            }
        }
    }
}

/// A link, to be laid down as claims.
pub struct Link<F> {
    pub slot: usize,
    pub live: bool,
    pub sources: Vec<(usize, usize)>,
    pub consts: [F; 4],
}

impl<F: TowerField> Link<F> {
    /// The contents.
    pub open spec fn contents(&self) -> LinkView<F> {
        LinkView {
            slot: self.slot as int,
            live: self.live,
            sources: Seq::new(
                self.sources.len() as nat,
                |s: int| (self.sources[s].0 as int, self.sources[s].1 as nat),
            ),
            consts: self.consts@,
        }
    }
}

/// The term of a cell.
pub fn build_cell_term<F: TowerField>(n: usize, slot: usize, round: usize, lane: usize, coeff: F) -> (t:
    LinearEvalTerm<F>)
    requires
        9 <= n,
        pow2(n as nat) <= usize::MAX,
        (slot + 1) * 512 <= pow2(n as nat),
        round < 128,
        lane < 4,
    ensures
        t.point@ == cell_term(n as nat, slot as int, round as int, lane as int, coeff).point,
        t.coeff == coeff,
{
    let at: usize = pack_index(slot, round, lane);
    LinearEvalTerm { point: boolean_point(n, at), coeff }
}

/// The claim of a link on a lane.
fn build_link_claim<F: TowerField>(
    params: &PermParams<F>,
    n: usize,
    link: &Link<F>,
    lane: usize,
    Ghost(slots): Ghost<nat>,
) -> (c: LinearEvalClaim<F>)
    requires
        9 <= n,
        pow2(n as nat) <= usize::MAX,
        slots * 512 <= pow2(n as nat),
        link_wf(link.contents(), slots),
        lane < 4,
    ensures
        terms_view(c.terms@) == link_claim(
            full_mds(*params),
            n as nat,
            link.contents(),
            lane as int,
        ).terms,
        c.value == link_claim(
            full_mds(*params),
            n as nat,
            link.contents(),
            lane as int,
        ).value,
{
    let ghost view = link.contents();
    let ghost mds = full_mds(*params);
    let zero = F::zero_value();
    let mut terms: Vec<LinearEvalTerm<F>> = Vec::new();
    let own = if link.live {
        F::one_value()
    } else {
        zero
    };
    proof {
        assert((link.slot + 1) * 512 <= slots * 512);
    }
    terms.push(build_cell_term(n, link.slot, 0, lane, own));
    let ghost first = seq![
        cell_term(n as nat, view.slot, 0, lane as int, live_coeff(view.live, F::one())),
    ];
    let mut s: usize = 0;
    proof {
        assert(terms_view(terms@) =~= first + source_terms(mds, n as nat, view, lane as int, 0));
    }
    while s < link.sources.len()
        invariant
            s <= link.sources.len(),
            9 <= n,
            pow2(n as nat) <= usize::MAX,
            slots * 512 <= pow2(n as nat),
            view == link.contents(),
            link_wf(view, slots),
            mds == full_mds(*params),
            zero == F::zero(),
            lane < 4,
            terms_view(terms@) == first + source_terms(
                mds,
                n as nat,
                view,
                lane as int,
                s as nat,
            ),
        decreases link.sources.len() - s,
    {
        let (p, count) = link.sources[s];
        let ghost before = first + source_terms(mds, n as nat, view, lane as int, s as nat);
        let ghost part = Seq::new(
            count as nat,
            |j: int|
                cell_term(
                    n as nat,
                    p as int,
                    N_ROUNDS as int,
                    j,
                    live_coeff(view.live, mds(lane as int, j)),
                ),
        );
        proof {
            assert(view.sources[s as int] == (p as int, count as nat));
            assert((p + 1) * 512 <= slots * 512);
            assert(before + part.take(0) =~= before);
        }
        let mut j: usize = 0;
        while j < count
            invariant
                j <= count <= 4,
                9 <= n,
                pow2(n as nat) <= usize::MAX,
                (p + 1) * 512 <= pow2(n as nat),
                view == link.contents(),
                mds == full_mds(*params),
                zero == F::zero(),
                lane < 4,
                part == Seq::new(
                    count as nat,
                    |j: int|
                        cell_term(
                            n as nat,
                            p as int,
                            N_ROUNDS as int,
                            j,
                            live_coeff(view.live, mds(lane as int, j)),
                        ),
                ),
                terms_view(terms@) == before + part.take(j as int),
            decreases count - j,
        {
            let coeff = if link.live {
                params.mds_full[lane][j]
            } else {
                zero
            };
            let ghost old_terms = terms@;
            terms.push(build_cell_term(n, p, N_ROUNDS, j, coeff));
            proof {
                assert(terms_view(terms@) =~= terms_view(old_terms).push(part[j as int]));
                assert(before + part.take(j + 1) =~= (before + part.take(j as int)).push(
                    part[j as int],
                ));
            }
            j += 1;
        }
        proof {
            assert(part.take(count as int) =~= part);
            assert(before + part =~= first + source_terms(
                mds,
                n as nat,
                view,
                lane as int,
                (s + 1) as nat,
            ));
        }
        s += 1;
    }
    let value = if link.live {
        let f = params.mds_full[lane];
        let v = f[0].times(link.consts[0]).plus(f[1].times(link.consts[1])).plus(
            f[2].times(link.consts[2]),
        ).plus(f[3].times(link.consts[3]));
        proof {
            reveal_with_fuel(sum, 5);
            lemma_units(f[0].mul(link.consts[0]));
        }
        v
    } else {
        zero
    };
    LinearEvalClaim { terms, value }
}

/// Appends the four claims of a link.
pub(crate) fn push_link<F: TowerField>(
    out: &mut Vec<LinearEvalClaim<F>>,
    params: &PermParams<F>,
    n: usize,
    link: Link<F>,
    Ghost(slots): Ghost<nat>,
)
    requires
        9 <= n,
        pow2(n as nat) <= usize::MAX,
        slots * 512 <= pow2(n as nat),
        link_wf(link.contents(), slots),
    ensures
        linear_view(final(out)@) == linear_view(old(out)@) + link_claims(
            full_mds(*params),
            n as nat,
            link.contents(),
        ),
{
    let ghost want = link_claims(full_mds(*params), n as nat, link.contents());
    let ghost start = linear_view(out@);
    let mut lane: usize = 0;
    proof {
        assert(start + want.take(0) =~= start);
    }
    while lane < 4
        invariant
            lane <= 4,
            9 <= n,
            pow2(n as nat) <= usize::MAX,
            slots * 512 <= pow2(n as nat),
            link_wf(link.contents(), slots),
            want == link_claims(full_mds(*params), n as nat, link.contents()),
            linear_view(out@) == start + want.take(lane as int),
        decreases 4 - lane,
    {
        let ghost before = out@;
        let c = build_link_claim(params, n, &link, lane, Ghost(slots));
        out.push(c);
        proof {
            assert(linear_view(out@) =~= linear_view(before).push(want[lane as int]));
            assert(start + want.take(lane + 1) =~= (start + want.take(lane as int)).push(
                want[lane as int],
            ));
        }
        lane += 1;
    }
    proof {
        assert(want.take(4) =~= want);
    }
}

/// The claim that a lane of the output of a permutation has a value.
pub open spec fn output_pin<F: BinaryField>(n: nat, slot: int, lane: int, value: F) -> LinearView<F> {
    LinearView {
        terms: seq![cell_term(n, slot, N_ROUNDS as int, lane, F::one())],
        value,
    }
}

/// Appends the claims that the output of a permutation is a digest.
pub fn push_output_pins<F: TowerField>(
    out: &mut Vec<LinearEvalClaim<F>>,
    n: usize,
    slot: usize,
    digest: &[F; 2],
)
    requires
        9 <= n,
        pow2(n as nat) <= usize::MAX,
        (slot + 1) * 512 <= pow2(n as nat),
    ensures
        linear_view(final(out)@) == linear_view(old(out)@) + seq![
            output_pin(n as nat, slot as int, 0, digest[0]),
            output_pin(n as nat, slot as int, 1, digest[1]),
        ],
{
    let ghost start = out@;
    let mut terms: Vec<LinearEvalTerm<F>> = Vec::new();
    terms.push(build_cell_term(n, slot, N_ROUNDS, 0, F::one_value()));
    proof {
        assert(terms_view(terms@) =~= output_pin(n as nat, slot as int, 0, digest[0]).terms);
    }
    out.push(LinearEvalClaim { terms, value: digest[0] });
    let mut terms: Vec<LinearEvalTerm<F>> = Vec::new();
    terms.push(build_cell_term(n, slot, N_ROUNDS, 1, F::one_value()));
    proof {
        assert(terms_view(terms@) =~= output_pin(n as nat, slot as int, 1, digest[1]).terms);
    }
    out.push(LinearEvalClaim { terms, value: digest[1] });
    proof {
        assert(linear_view(out@) =~= linear_view(start) + seq![
            output_pin(n as nat, slot as int, 0, digest[0]),
            output_pin(n as nat, slot as int, 1, digest[1]),
        ]);
    }
}

/// A pin is true of the state column when the output has the value.
pub proof fn lemma_output_pin<F: TowerField>(
    params: PermParams<F>,
    inputs: Seq<Seq<F>>,
    n: nat,
    slot: int,
    lane: int,
    value: F,
)
    requires
        n >= 9,
        0 <= slot < inputs.len(),
        inputs.len() * 512 <= pow2(n),
        0 <= lane < 4,
        value == permuted(params, inputs[slot])[lane],
    ensures
        ({
            let pin = output_pin(n, slot, lane, value);
            &&& pin.value == linear_value(pin.terms, state_column(params, inputs, pow2(n)))
            &&& pin.terms[0].point.len() == n
        }),
{
    let column = state_column(params, inputs, pow2(n));
    let terms = output_pin(n, slot, lane, value).terms;
    let f = |t: int| terms[t].coeff.mul(mle(column, terms[t].point));
    lemma_cell_value(params, inputs, n, slot, N_ROUNDS as int, lane);
    lemma_cube_point_len::<F>(n, cell(slot, N_ROUNDS as int, lane));
    assert(sum(1, f) == sum(0, f).add(f(0))) by {
        reveal_with_fuel(sum, 2);
    }
    F::mul_comm(F::one(), value);
    lemma_units(value);
    F::add_comm(F::zero(), value);
    F::add_zero(value);
}

} // verus!
