//! What the identity of the permutations means.
//!
//! Columns that meet the identity in the cells of the live slots hold, row by row,
//! the states between the rounds of permutations.
use vstd::prelude::*;
use vstd::arithmetic::power2::pow2;
use crate::field::{BinaryField, TowerField, lemma_add_cancel, lemma_add_eq_zero, lemma_units};
use crate::layers::{N_ROUNDS, PermParams, is_active, layer_state, mds_apply, power_out};
use crate::mle::{eq_at, lemma_mle_sum, mle};
use crate::owner_state::{powered_lane, state_identity, state_tables, state_term};
use crate::poly::pow;
use crate::round_poly::{lemma_pow7, pow7};
use crate::shift::lemma_sum_dec;
use crate::soundness::{all_zero, hides, lemma_zero_hidden};
use crate::spine_degree7::sbox_identity;
use crate::sum::{lemma_sum_ext, sum};
use crate::sumcheck::{total, values_at};
use crate::trace::{cell, dec, inc, lane_of, lemma_dec_bound, lemma_dec_inc, lemma_parts_of_cell, lemma_slots, mds_cell, mu_cell, rc_cell, round_of, sigma_at, sigma_cell, slot_of};
use crate::unified::{constant_identity, linear_identity, mixed_lane, unified_identity, unified_tables, unified_term};

verus! {

/// A row of a column: its four lanes at a round of a slot.
pub open spec fn row<F>(column: Seq<F>, slot: int, round: int) -> Seq<F> {
    Seq::new(4, |j: int| column[cell(slot, round, j)])
}

/// The row that follows a row in a permutation: the powers of the active lanes
/// with their constants, and then the linear layer of the round.
pub open spec fn next_row<F: TowerField>(params: PermParams<F>, state: Seq<F>, round: int) -> Seq<
    F,
> {
    mds_apply(|i: int, j: int| params.mds(round, i, j), power_out(params, state, round))
}

/// Whether a cell follows a round of a live slot.
pub open spec fn follows(live: int, y: int) -> bool {
    slot_of(dec(y)) < live && round_of(dec(y)) < N_ROUNDS
}

/// The three parts of the identity are zero where it is zero for all challenges.
proof fn lemma_parts_zero<F: TowerField>(v: Seq<F>)
    requires
        unified_identity(v, F::zero(), F::zero()) == F::zero(),
        unified_identity(v, F::one(), F::zero()) == F::zero(),
        unified_identity(v, F::zero(), F::one()) == F::zero(),
    ensures
        sbox_identity(v[1], v[3], v[4]) == F::zero(),
        constant_identity(v[1], v[3], v[5], v[2]) == F::zero(),
        linear_identity(v, 4) == F::zero(),
{
    let a = sbox_identity(v[1], v[3], v[4]);
    let b = constant_identity(v[1], v[3], v[5], v[2]);
    let c = linear_identity(v, 4);
    lemma_units(a);
    lemma_units(b);
    lemma_units(c);
}

/// The power layer of a cell: an active one holds the seventh power of its state
/// with the constant.
proof fn lemma_power_cell<F: TowerField>(state: F, s_in: F, s_out: F, rc: F)
    requires
        sbox_identity(F::one(), s_in, s_out) == F::zero(),
        constant_identity(F::one(), s_in, state, rc) == F::zero(),
    ensures
        s_in == state.add(rc),
        s_out == pow7(state.add(rc)),
{
    let p = pow7(s_in);
    lemma_units(s_in.add(state).add(rc));
    F::add_assoc(s_in, state, rc);
    lemma_add_eq_zero(s_in, state.add(rc));
    lemma_units(p);
    lemma_units(s_in);
    F::add_assoc(p.add(s_out), s_in, s_in);
    F::add_self(s_in);
    lemma_units(p.add(s_out));
    lemma_add_eq_zero(p, s_out);
}

/// Whether columns meet the identity, for all challenges, in the cells that follow
/// a round of a live slot.
pub open spec fn identity_holds<F: TowerField>(
    params: PermParams<F>,
    live: int,
    rho: Seq<F>,
    s_in: Seq<F>,
    s_out: Seq<F>,
    state: Seq<F>,
) -> bool {
    forall|y: int, beta: F, gamma: F|
        0 <= y < pow2(rho.len()) && follows(live, y) ==> #[trigger] unified_identity(
            values_at(unified_tables(params, live, rho, s_in, s_out, state), y),
            beta,
            gamma,
        ) == F::zero()
}

/// What the identity says of a cell.
proof fn lemma_cell_parts<F: TowerField>(
    params: PermParams<F>,
    live: int,
    rho: Seq<F>,
    s_in: Seq<F>,
    s_out: Seq<F>,
    state: Seq<F>,
    slot: int,
    r: int,
    lane: int,
)
    requires
        rho.len() >= 9,
        s_in.len() == pow2(rho.len()),
        s_out.len() == pow2(rho.len()),
        state.len() == pow2(rho.len()),
        0 <= slot < live,
        live * 512 <= pow2(rho.len()),
        0 <= r < N_ROUNDS,
        0 <= lane < 4,
        identity_holds(params, live, rho, s_in, s_out, state),
    ensures
        ({
            let y = cell(slot, r + 1, lane);
            let x = cell(slot, r, lane);
            let v = values_at(unified_tables(params, live, rho, s_in, s_out, state), y);
            &&& 0 <= y < pow2(rho.len())
            &&& 0 <= x < pow2(rho.len())
            &&& dec(y) == x
            &&& sbox_identity(sigma_at::<F>(r, lane), s_in[x], s_out[x]) == F::zero()
            &&& constant_identity(
                sigma_at::<F>(r, lane),
                s_in[x],
                state[x],
                if is_active(r, lane) {
                    params.rc(r, lane)
                } else {
                    F::zero()
                },
            ) == F::zero()
            &&& linear_identity(v, 4) == F::zero()
            &&& v[6] == state[y]
        }),
{
    let y = cell(slot, r + 1, lane);
    let t = unified_tables(params, live, rho, s_in, s_out, state);
    let v = values_at(t, y);
    assert((slot + 1) * 512 <= live * 512);
    lemma_parts_of_cell(slot, r + 1, lane);
    lemma_parts_of_cell(slot, r, lane);
    lemma_dec_inc(y);
    let x = dec(y);
    assert(x == cell(slot, r, lane));
    assert(v[1] == sigma_cell::<F>(live, x));
    assert(v[2] == rc_cell(params, live, x));
    assert(unified_identity(v, F::zero(), F::zero()) == F::zero());
    assert(unified_identity(v, F::one(), F::zero()) == F::zero());
    assert(unified_identity(v, F::zero(), F::one()) == F::zero());
    lemma_parts_zero(v);
    assert(v[3] == s_in[x] && v[4] == s_out[x] && v[5] == state[x]);
}

/// The lane that enters the linear layer is the power of an active lane, and the
/// state of another.
proof fn lemma_mixed_power<F: TowerField>(
    params: PermParams<F>,
    live: int,
    rho: Seq<F>,
    s_in: Seq<F>,
    s_out: Seq<F>,
    state: Seq<F>,
    slot: int,
    r: int,
    lane: int,
    j: int,
)
    requires
        rho.len() >= 9,
        s_in.len() == pow2(rho.len()),
        s_out.len() == pow2(rho.len()),
        state.len() == pow2(rho.len()),
        0 <= slot < live,
        live * 512 <= pow2(rho.len()),
        0 <= r < N_ROUNDS,
        0 <= lane < 4,
        0 <= j < 4,
        identity_holds(params, live, rho, s_in, s_out, state),
    ensures
        ({
            let y = cell(slot, r + 1, lane);
            let v = values_at(unified_tables(params, live, rho, s_in, s_out, state), y);
            &&& v[7 + j] == params.mds(r, lane, j)
            &&& mixed_lane(v, j) == power_out(params, row(state, slot, r), r)[j]
        }),
{
    let t = unified_tables(params, live, rho, s_in, s_out, state);
    let y = cell(slot, r + 1, lane);
    let v = values_at(t, y);
    lemma_cell_parts(params, live, rho, s_in, s_out, state, slot, r, lane);
    lemma_cell_parts(params, live, rho, s_in, s_out, state, slot, r, j);
    lemma_parts_of_cell(slot, r + 1, lane);
    lemma_parts_of_cell(slot, r + 1, j);
    lemma_parts_of_cell(slot, r, j);
    lemma_parts_of_cell(slot, r, lane);
    let z = y - lane_of(y) + j;
    assert(z == cell(slot, r + 1, j));
    let x = cell(slot, r, j);
    assert(v[7 + j] == mds_cell(params, j, live, y));
    assert(v[11 + j] == sigma_cell::<F>(live, x));
    assert(v[15 + j] == s_out[x]);
    assert(v[19 + j] == state[x]);
    lemma_units(s_out[x]);
    lemma_units(state[x]);
    F::add_self(F::one());
    lemma_units(F::one());
    if is_active(r, j) {
        lemma_power_cell(state[x], s_in[x], s_out[x], params.rc(r, j));
    }
}

/// Columns that meet the identity run permutations: in every live slot each row
/// of the state follows the row before it.
pub proof fn lemma_rows_follow<F: TowerField>(
    params: PermParams<F>,
    live: int,
    rho: Seq<F>,
    s_in: Seq<F>,
    s_out: Seq<F>,
    state: Seq<F>,
    slot: int,
    r: int,
)
    requires
        rho.len() >= 9,
        s_in.len() == pow2(rho.len()),
        s_out.len() == pow2(rho.len()),
        state.len() == pow2(rho.len()),
        0 <= slot < live,
        live * 512 <= pow2(rho.len()),
        0 <= r < N_ROUNDS,
        identity_holds(params, live, rho, s_in, s_out, state),
    ensures
        row(state, slot, r + 1) == next_row(params, row(state, slot, r), r),
{
    let t = unified_tables(params, live, rho, s_in, s_out, state);
    let o = power_out(params, row(state, slot, r), r);
    let next = next_row(params, row(state, slot, r), r);
    assert forall|lane: int| 0 <= lane < 4 implies row(state, slot, r + 1)[lane] == next[lane] by {
        let v = values_at(t, cell(slot, r + 1, lane));
        lemma_cell_parts(params, live, rho, s_in, s_out, state, slot, r, lane);
        lemma_mixed_power(params, live, rho, s_in, s_out, state, slot, r, lane, 0);
        lemma_mixed_power(params, live, rho, s_in, s_out, state, slot, r, lane, 1);
        lemma_mixed_power(params, live, rho, s_in, s_out, state, slot, r, lane, 2);
        lemma_mixed_power(params, live, rho, s_in, s_out, state, slot, r, lane, 3);
        let f = |j: int| params.mds(r, lane, j).mul(o[j]);
        let (a, b, c, d) = (f(0), f(1), f(2), f(3));
        lemma_four_terms(v, a, b, c, d);
        reveal_with_fuel(sum, 5);
        lemma_units(a);
        assert(next[lane] == a.add(b).add(c).add(d)) by {
            let m = |i: int, j: int| params.mds(r, i, j);
            lemma_sum_ext(4, |j: int| m(lane, j).mul(o[j]), f);
        }
    }
    assert(row(state, slot, r + 1) =~= next);
}

/// Where the identity of the linear layer is zero, the state is the sum of the
/// four terms.
proof fn lemma_four_terms<F: TowerField>(v: Seq<F>, a: F, b: F, c: F, d: F)
    requires
        linear_identity(v, 4) == F::zero(),
        v[7].mul(mixed_lane(v, 0)) == a,
        v[8].mul(mixed_lane(v, 1)) == b,
        v[9].mul(mixed_lane(v, 2)) == c,
        v[10].mul(mixed_lane(v, 3)) == d,
    ensures
        v[6] == a.add(b).add(c).add(d),
{
    reveal_with_fuel(linear_identity, 5);
    let s = v[6];
    assert(linear_identity(v, 4) == s.add(a).add(b).add(c).add(d));
    F::add_assoc(s, a, b);
    F::add_assoc(s, a.add(b), c);
    F::add_assoc(s, a.add(b).add(c), d);
    lemma_add_eq_zero(s, a.add(b).add(c).add(d));
}

/// Rows that follow each other, from the first layer of an input on, are the
/// states of the permutation of the input, and the last of them is its output.
pub proof fn lemma_rows_run<F: TowerField>(
    params: PermParams<F>,
    state: Seq<F>,
    slot: int,
    input: Seq<F>,
    r: nat,
)
    requires
        r <= N_ROUNDS,
        row(state, slot, 0) == layer_state(params, input, 0),
        forall|k: int|
            0 <= k < N_ROUNDS ==> #[trigger] row(state, slot, k + 1) == next_row(
                params,
                row(state, slot, k),
                k,
            ),
    ensures
        row(state, slot, r as int) == layer_state(params, input, r),
    decreases r,
{
    if r > 0 {
        let q = (r - 1) as nat;
        lemma_rows_run(params, state, slot, input, q);
        assert(row(state, slot, (q as int) + 1) == next_row(
            params,
            row(state, slot, q as int),
            q as int,
        ));
    }
}

/// The identity over the cells that follow the rounds, as a table over the cells
/// of the rounds.
pub open spec fn identity_table<F: TowerField>(
    params: PermParams<F>,
    live: int,
    rho: Seq<F>,
    s_in: Seq<F>,
    s_out: Seq<F>,
    state: Seq<F>,
    beta: F,
    gamma: F,
) -> Seq<F> {
    let t = unified_tables(params, live, rho, s_in, s_out, state);
    Seq::new(
        pow2(rho.len()),
        |x: int| mu_cell::<F>(live, x).mul(unified_identity(values_at(t, inc(x)), beta, gamma)),
    )
}

/// The sum of the identity is the value at the drawn point of the table of the
/// identity: it is zero only if the identity is zero in every cell that follows a
/// round, or if a coordinate of the point hides that it is not.
pub proof fn lemma_identity_sum<F: TowerField>(
    params: PermParams<F>,
    live: int,
    rho: Seq<F>,
    s_in: Seq<F>,
    s_out: Seq<F>,
    state: Seq<F>,
    beta: F,
    gamma: F,
)
    requires
        rho.len() >= 9,
        total(
            unified_tables(params, live, rho, s_in, s_out, state),
            unified_term(beta, gamma),
            rho.len(),
        ) == F::zero(),
    ensures
        ({
            let t = unified_tables(params, live, rho, s_in, s_out, state);
            let g = identity_table(params, live, rho, s_in, s_out, state, beta, gamma);
            ||| exists|k: nat| #[trigger] hides(g, rho, k)
            ||| forall|y: int|
                0 <= y < pow2(rho.len()) && follows(live, y) ==> unified_identity(
                    #[trigger] values_at(t, y),
                    beta,
                    gamma,
                ) == F::zero()
        }),
{
    let t = unified_tables(params, live, rho, s_in, s_out, state);
    let g = identity_table(params, live, rho, s_in, s_out, state, beta, gamma);
    let cells = pow2(rho.len());
    let f = unified_term(beta, gamma);
    lemma_slots(rho.len());
    let slots = pow2((rho.len() - 9) as nat);
    assert(slots * 512 == cells);
    let w = |x: int| eq_at(rho, x).mul(g[x]);
    let moved = |y: int| w(dec(y));
    let here = |y: int| f(values_at(t, y));
    assert forall|y: int| 0 <= y < cells implies #[trigger] here(y) == moved(y) by {
        lemma_dec_inc(y);
        lemma_dec_bound(y, slots as int);
        let x = dec(y);
        F::mul_assoc(
            eq_at(rho, x),
            mu_cell(live, x),
            unified_identity(values_at(t, y), beta, gamma),
        );
    }
    lemma_sum_ext(cells, here, moved);
    lemma_sum_dec(slots, w);
    lemma_mle_sum(g, rho);
    lemma_sum_ext(cells, w, |i: int| eq_at(rho, i).mul(g[i]));
    assert(mle(g, rho) == F::zero());
    if all_zero(g) {
        assert forall|y: int| 0 <= y < cells && follows(live, y) implies unified_identity(
            #[trigger] values_at(t, y),
            beta,
            gamma,
        ) == F::zero() by {
            lemma_dec_inc(y);
            lemma_dec_bound(y, slots as int);
            assert(g[dec(y)] == F::zero());
            lemma_units(unified_identity(values_at(t, y), beta, gamma));
        }
    } else {
        lemma_zero_hidden(g, rho);
    }
}

/// A column that meets the identity of the owner's trace runs permutations: in
/// every live slot each row follows the row before it.
pub proof fn lemma_state_rows_follow<F: TowerField>(
    params: PermParams<F>,
    live: int,
    rho: Seq<F>,
    state: Seq<F>,
    slot: int,
    r: int,
)
    requires
        rho.len() >= 9,
        state.len() == pow2(rho.len()),
        0 <= slot < live,
        live * 512 <= pow2(rho.len()),
        0 <= r < N_ROUNDS,
        forall|y: int|
            0 <= y < pow2(rho.len()) && follows(live, y) ==> state_identity(
                #[trigger] values_at(state_tables(params, live, rho, state), y),
                4,
            ) == F::zero(),
    ensures
        row(state, slot, r + 1) == next_row(params, row(state, slot, r), r),
{
    let t = state_tables(params, live, rho, state);
    let cells = pow2(rho.len());
    let old_row = row(state, slot, r);
    let o = power_out(params, old_row, r);
    let next = next_row(params, old_row, r);
    lemma_slots(rho.len());
    assert((slot + 1) * 512 <= live * 512);
    assert forall|lane: int| 0 <= lane < 4 implies row(state, slot, r + 1)[lane] == next[lane] by {
        let y = cell(slot, r + 1, lane);
        let v = values_at(t, y);
        lemma_parts_of_cell(slot, r + 1, lane);
        lemma_parts_of_cell(slot, r, lane);
        lemma_dec_inc(y);
        assert(dec(y) == cell(slot, r, lane));
        assert(follows(live, y));
        assert(state_identity(v, 4) == F::zero());
        assert(v[1] == state[y]);
        assert forall|j: int| 0 <= j < 4 implies #[trigger] v[2 + j] == params.mds(r, lane, j)
            && powered_lane(v, j) == o[j] by {
            let z = y - lane_of(y) + j;
            assert(z == cell(slot, r + 1, j));
            lemma_parts_of_cell(slot, r + 1, j);
            lemma_parts_of_cell(slot, r, j);
            lemma_dec_inc(z);
            assert(dec(z) == cell(slot, r, j));
            assert(v[2 + j] == mds_cell(params, j, live, y));
            assert(v[6 + j] == sigma_cell::<F>(live, dec(z)));
            assert(v[10 + j] == rc_cell(params, live, dec(z)));
            let st = v[14 + j];
            assert(st == old_row[j]);
            let p = pow7(st.add(v[10 + j]));
            lemma_units(p);
            lemma_units(st);
            F::add_self(F::one());
            lemma_units(F::one());
        }
        let f = |j: int| params.mds(r, lane, j).mul(o[j]);
        let (a, b, c, d) = (f(0), f(1), f(2), f(3));
        assert(v[2 + 0int] == params.mds(r, lane, 0));
        assert(v[2 + 1int] == params.mds(r, lane, 1));
        assert(v[2 + 2int] == params.mds(r, lane, 2));
        assert(v[2 + 3int] == params.mds(r, lane, 3));
        reveal_with_fuel(sum, 5);
        reveal_with_fuel(state_identity, 5);
        lemma_units(a);
        assert(next[lane] == a.add(b).add(c).add(d)) by {
            let m = |i: int, j: int| params.mds(r, i, j);
            lemma_sum_ext(4, |j: int| m(lane, j).mul(o[j]), f);
        }
        let s = v[1];
        assert(state_identity(v, 4) == s.add(a).add(b).add(c).add(d));
        F::add_assoc(s, a, b);
        F::add_assoc(s, a.add(b), c);
        F::add_assoc(s, a.add(b).add(c), d);
        lemma_add_eq_zero(s, a.add(b).add(c).add(d));
    }
    assert(row(state, slot, r + 1) =~= next);
}

/// The identity of the owner's trace over the cells that follow the rounds, as a
/// table over the cells of the rounds.
pub open spec fn state_identity_table<F: TowerField>(
    params: PermParams<F>,
    live: int,
    rho: Seq<F>,
    state: Seq<F>,
) -> Seq<F> {
    let t = state_tables(params, live, rho, state);
    Seq::new(
        pow2(rho.len()),
        |x: int| mu_cell::<F>(live, x).mul(state_identity(values_at(t, inc(x)), 4)),
    )
}

/// The sum of the identity of the owner's trace is zero only if the identity is
/// zero in every cell that follows a round, or if a coordinate of the drawn point
/// hides that it is not.
pub proof fn lemma_state_identity_sum<F: TowerField>(
    params: PermParams<F>,
    live: int,
    rho: Seq<F>,
    state: Seq<F>,
)
    requires
        rho.len() >= 9,
        total(state_tables(params, live, rho, state), state_term(), rho.len()) == F::zero(),
    ensures
        ({
            let t = state_tables(params, live, rho, state);
            let g = state_identity_table(params, live, rho, state);
            ||| exists|k: nat| #[trigger] hides(g, rho, k)
            ||| forall|y: int|
                0 <= y < pow2(rho.len()) && follows(live, y) ==> state_identity(
                    #[trigger] values_at(t, y),
                    4,
                ) == F::zero()
        }),
{
    let t = state_tables(params, live, rho, state);
    let g = state_identity_table(params, live, rho, state);
    let cells = pow2(rho.len());
    let f = state_term::<F>();
    lemma_slots(rho.len());
    let slots = pow2((rho.len() - 9) as nat);
    assert(slots * 512 == cells);
    let w = |x: int| eq_at(rho, x).mul(g[x]);
    let moved = |y: int| w(dec(y));
    let here = |y: int| f(values_at(t, y));
    assert forall|y: int| 0 <= y < cells implies #[trigger] here(y) == moved(y) by {
        lemma_dec_inc(y);
        lemma_dec_bound(y, slots as int);
        let x = dec(y);
        F::mul_assoc(eq_at(rho, x), mu_cell(live, x), state_identity(values_at(t, y), 4));
    }
    lemma_sum_ext(cells, here, moved);
    lemma_sum_dec(slots, w);
    lemma_mle_sum(g, rho);
    lemma_sum_ext(cells, w, |i: int| eq_at(rho, i).mul(g[i]));
    assert(mle(g, rho) == F::zero());
    if all_zero(g) {
        assert forall|y: int| 0 <= y < cells && follows(live, y) implies state_identity(
            #[trigger] values_at(t, y),
            4,
        ) == F::zero() by {
            lemma_dec_inc(y);
            lemma_dec_bound(y, slots as int);
            assert(g[dec(y)] == F::zero());
            lemma_units(state_identity(values_at(t, y), 4));
        }
    } else {
        lemma_zero_hidden(g, rho);
    }
}

/// The identity of the power layers, where it is zero: an active cell holds the
/// seventh power, a passive one is kept.
pub proof fn lemma_sbox_identity<F: BinaryField>(sin: F, sout: F)
    ensures
        sbox_identity(F::one(), sin, sout) == F::zero() <==> sout == pow(sin, 7),
        sbox_identity(F::zero(), sin, sout) == F::zero() <==> sout == sin,
{
    let p = pow7(sin);
    lemma_pow7(sin);
    lemma_units(p);
    lemma_units(sin);
    // an active cell: p + sout + sin + sin
    lemma_add_cancel(p.add(sout), sin);
    lemma_add_eq_zero(p, sout);
    // a passive one: 0 + sout + sin + 0
    lemma_units(sout);
    lemma_units(sout.add(sin));
    lemma_add_eq_zero(sout, sin);
}

} // verus!
