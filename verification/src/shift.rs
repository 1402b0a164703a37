//! The shift gadget.
//!
//! The unified sumcheck leaves claims on columns that are moved by one round
//! and, some of them, projected to one lane. Each such value is a weighted sum
//! of the column itself, so a combination of the claims is one weighted sum of
//! the three columns, and a sumcheck of degree two reduces it to one value of
//! each.
use vstd::prelude::*;
use vstd::arithmetic::power2::{lemma_pow2_adds, pow2};
use crate::field::{BinaryField, TowerField, lemma_units};
use crate::interpolate::{lemma_interpolate, lemma_small_points, small_points};
use crate::mle::{eq_at, eq_ind, eq_ind_partial_eval, eq_poly, eq_table, evaluate_slice, lemma_half_pow2, lemma_mle_eq_table, lemma_mle_scale, lemma_mle_sum, lemma_mle_add, mle};
use crate::poly::{is_poly, lemma_poly_add, lemma_poly_mul, peval, pow, slice_of};
use crate::round_poly::RoundPolynomial;
use crate::rounds::{Summand, half_sum_of, lemma_half_sum_poly, views};
use crate::sum::{lemma_sum_add, lemma_sum_ext, lemma_sum_scale, lemma_sum_single, lemma_sum_swap, sum};
use crate::sumcheck::{entry_of, fold_tables, half_sum, lemma_column_poly, tables_wf, total, values_at};
use crate::table::subrange;
use crate::tensor::{lemma_eq_at_concat, lemma_mle_outer, lemma_sum_blocks, lemma_sum_rotate, lemma_weights_sum, outer};
use crate::trace::{cell, cell_lane, dec, dec_table, inc, inc_round_index, lane_of, lane_table, lemma_cell_of_parts, lemma_dec_bound, lemma_dec_inc, lemma_parts_of_cell, lemma_slots, round_of, slot_of};

verus! {

/// The weight of the row (slot and round) after that of cell `x`.
pub open spec fn row_weight<F: BinaryField>(r: Seq<F>, x: int) -> F {
    eq_at(r.skip(2), inc(x) / 4)
}

/// The weights of the inputs of the power layers.
pub open spec fn sin_weight<F: BinaryField>(r: Seq<F>, delta: F, x: int) -> F {
    eq_at(r, inc(x))
}

/// The weights of the outputs of the power layers.
pub open spec fn sout_weight<F: BinaryField>(r: Seq<F>, delta: F, x: int) -> F {
    delta.mul(eq_at(r, inc(x))).add(
        pow(delta, (3 + lane_of(x)) as nat).mul(row_weight(r, x)),
    )
}

/// The weights of the states.
pub open spec fn state_weight<F: BinaryField>(r: Seq<F>, delta: F, x: int) -> F {
    pow(delta, 2).mul(eq_at(r, inc(x))).add(
        pow(delta, (7 + lane_of(x)) as nat).mul(row_weight(r, x)),
    )
}

/// The table of the weights of the inputs of the power layers.
pub open spec fn sin_weights<F: BinaryField>(r: Seq<F>, delta: F) -> Seq<F> {
    Seq::new(pow2(r.len()), |x: int| sin_weight(r, delta, x))
}

/// The table of the weights of the outputs of the power layers.
pub open spec fn sout_weights<F: BinaryField>(r: Seq<F>, delta: F) -> Seq<F> {
    Seq::new(pow2(r.len()), |x: int| sout_weight(r, delta, x))
}

/// The table of the weights of the states.
pub open spec fn state_weights<F: BinaryField>(r: Seq<F>, delta: F) -> Seq<F> {
    Seq::new(pow2(r.len()), |x: int| state_weight(r, delta, x))
}

/// The combination of the claims: the three shifted columns, then the lanes of
/// the outputs, then the lanes of the states, by rising powers of `delta`.
pub open spec fn shift_target<F: BinaryField>(
    s_in_dec: F,
    s_out_dec: F,
    state_dec: F,
    s_out_lane: Seq<F>,
    state_lane: Seq<F>,
    delta: F,
) -> F {
    s_in_dec.add(delta.mul(s_out_dec)).add(pow(delta, 2).mul(state_dec)).add(
        sum(4, |j: int| pow(delta, (3 + j) as nat).mul(s_out_lane[j])),
    ).add(sum(4, |j: int| pow(delta, (7 + j) as nat).mul(state_lane[j])))
}

/// The sum over the cells, one round moved, is the sum over the cells.
pub proof fn lemma_sum_dec<F: BinaryField>(slots: nat, g: spec_fn(int) -> F)
    ensures
        sum(slots * 512, |y: int| g(dec(y))) == sum(slots * 512, g),
{
    let moved = |y: int| g(dec(y));
    lemma_sum_blocks(slots, 512, moved);
    lemma_sum_blocks(slots, 512, g);
    let left = |a: int| sum(512, |b: int| moved(a * 512 + b));
    let right = |a: int| sum(512, |b: int| g(a * 512 + b));
    assert forall|a: int| 0 <= a < slots implies #[trigger] left(a) == right(a) by {
        let lm = |b: int| moved(a * 512 + b);
        let lg = |b: int| g(a * 512 + b);
        lemma_sum_blocks(128, 4, lm);
        lemma_sum_blocks(128, 4, lg);
        let rows = |r: int| sum(4, |e: int| lg(r * 4 + e));
        let moved_rows = |r: int| sum(4, |e: int| lm(r * 4 + e));
        let turned = |r: int| rows((r + 128 - 1) % 128);
        assert forall|r: int| 0 <= r < 128 implies #[trigger] moved_rows(r) == turned(r) by {
            let p = (r + 127) % 128;
            let f1 = |e: int| lm(r * 4 + e);
            let f2 = |e: int| lg(p * 4 + e);
            assert forall|e: int| 0 <= e < 4 implies #[trigger] f1(e) == f2(e) by {
                let y = a * 512 + (r * 4 + e);
                assert(y == cell(a, r, e));
                lemma_parts_of_cell(a, r, e);
                assert(dec(y) == a * 512 + (p * 4 + e));
            }
            lemma_sum_ext(4, f1, f2);
        }
        lemma_sum_ext(128, moved_rows, turned);
        lemma_sum_rotate(128, rows);
        lemma_sum_ext(128, turned, |i: int| rows((i + 128nat - 1) % 128nat as int));
    }
    lemma_sum_ext(slots, left, right);
}

/// The value of a shifted column is a weighted sum of the column.
pub proof fn lemma_dec_value<F: BinaryField>(t: Seq<F>, r: Seq<F>)
    requires
        r.len() >= 9,
        t.len() == pow2(r.len()),
    ensures
        mle(dec_table(t), r) == sum(t.len(), |x: int| eq_at(r, inc(x)).mul(t[x])),
{
    let n = r.len();
    lemma_slots(n);
    let slots = pow2((n - 9) as nat);
    lemma_mle_sum(dec_table(t), r);
    let g = |x: int| eq_at(r, inc(x)).mul(t[x]);
    let left = |y: int| eq_at(r, y).mul(dec_table(t)[y]);
    let moved = |y: int| g(dec(y));
    assert forall|y: int| 0 <= y < t.len() implies #[trigger] left(y) == moved(y) by {
        lemma_dec_inc(y);
        lemma_dec_bound(y, slots as int);
    }
    lemma_sum_ext(t.len(), left, moved);
    lemma_sum_dec(slots, g);
}

/// The weight of a cell is that of its lane times that of its row.
proof fn lemma_lane_row<F: BinaryField>(r: Seq<F>, y: int)
    requires
        r.len() >= 9,
        0 <= y < pow2(r.len()),
    ensures
        eq_at(r, y) == eq_at(r.take(2), lane_of(y)).mul(eq_at(r.skip(2), y / 4)),
{
    vstd::arithmetic::power2::lemma2_to64();
    assert(r.take(2) + r.skip(2) =~= r);
    lemma_eq_at_concat(r.take(2), r.skip(2), y);
}

/// The value of a shifted column projected to a lane is a weighted sum of that
/// lane of the column.
pub proof fn lemma_lane_value<F: BinaryField>(t: Seq<F>, r: Seq<F>, j: int)
    requires
        r.len() >= 9,
        t.len() == pow2(r.len()),
        0 <= j < 4,
    ensures
        mle(lane_table(dec_table(t), j), r) == sum(
            t.len(),
            |x: int|
                if lane_of(x) == j {
                    row_weight(r, x).mul(t[x])
                } else {
                    F::zero()
                },
        ),
{
    let n = r.len();
    lemma_slots(n);
    vstd::arithmetic::power2::lemma2_to64();
    let slots = pow2((n - 9) as nat);
    let g = |x: int|
        if lane_of(x) == j {
            row_weight(r, x).mul(t[x])
        } else {
            F::zero()
        };
    let moved = |y: int| g(dec(y));
    lemma_sum_dec(slots, g);
    let lt = lane_table(dec_table(t), j);
    lemma_mle_sum(lt, r);
    let left = |y: int| eq_at(r, y).mul(lt[y]);
    let rows = slots * 128;
    assert(t.len() == rows * 4);
    lemma_sum_blocks(rows, 4, left);
    lemma_sum_blocks(rows, 4, moved);
    let lrow = |a: int| sum(4, |e: int| left(a * 4 + e));
    let mrow = |a: int| sum(4, |e: int| moved(a * 4 + e));
    assert forall|a: int| 0 <= a < rows implies #[trigger] lrow(a) == mrow(a) by {
        let slot = a / 128;
        let round = a % 128;
        let yj = a * 4 + j;
        assert(yj == cell(slot, round, j));
        lemma_parts_of_cell(slot, round, j);
        lemma_dec_inc(yj);
        lemma_dec_bound(yj, slots as int);
        let v = t[dec(yj)];
        let w = eq_at(r.skip(2), a);
        // The sum over the lanes of `left`.
        let fl = |e: int| left(a * 4 + e);
        let p = r.take(2);
        let weights = |e: int| eq_at(p, e);
        let scaled = |e: int| w.mul(v).mul(weights(e));
        assert forall|e: int| 0 <= e < 4 implies #[trigger] fl(e) == scaled(e) by {
            let y = a * 4 + e;
            assert(y == cell(slot, round, e));
            lemma_parts_of_cell(slot, round, e);
            lemma_lane_row(r, y);
            assert(y / 4 == a);
            assert(lt[y] == v);
            F::mul_assoc(eq_at(p, e), w, v);
            F::mul_comm(eq_at(p, e), w.mul(v));
        }
        lemma_sum_ext(4, fl, scaled);
        lemma_sum_scale(4, w.mul(v), weights);
        lemma_weights_sum(p);
        lemma_units(w.mul(v));
        // The sum over the lanes of `moved`.
        let fm = |e: int| moved(a * 4 + e);
        assert forall|e: int| 0 <= e < 4 && e != j implies #[trigger] fm(e) == F::zero() by {
            let y = a * 4 + e;
            assert(y == cell(slot, round, e));
            lemma_parts_of_cell(slot, round, e);
            lemma_dec_inc(y);
        }
        lemma_sum_single(4, j, fm);
        assert(inc(dec(yj)) / 4 == a);
    }
    lemma_sum_ext(rows, lrow, mrow);
}

/// The sum over the columns by their weights.
pub open spec fn weighted_sum<F: BinaryField>(
    s_in: Seq<F>,
    s_out: Seq<F>,
    state: Seq<F>,
    r: Seq<F>,
    delta: F,
) -> F {
    sum(
        pow2(r.len()),
        |x: int|
            sin_weight(r, delta, x).mul(s_in[x]).add(sout_weight(r, delta, x).mul(s_out[x])).add(
                state_weight(r, delta, x).mul(state[x]),
            ),
    )
}

/// The sum of the claims on the lanes of a column, by powers of `delta` from
/// `base` on, is one weighted sum.
pub proof fn lemma_lanes_value<F: BinaryField>(t: Seq<F>, r: Seq<F>, delta: F, base: nat)
    requires
        r.len() >= 9,
        t.len() == pow2(r.len()),
    ensures
        sum(4, |j: int| pow(delta, (base + j) as nat).mul(mle(lane_table(dec_table(t), j), r)))
            == sum(
            t.len(),
            |x: int| pow(delta, (base + lane_of(x)) as nat).mul(row_weight(r, x)).mul(t[x]),
        ),
{
    let n = t.len();
    let c = |j: int, x: int|
        if lane_of(x) == j {
            pow(delta, (base + j) as nat).mul(row_weight(r, x).mul(t[x]))
        } else {
            F::zero()
        };
    let left = |j: int| pow(delta, (base + j) as nat).mul(mle(lane_table(dec_table(t), j), r));
    let by_lane = |j: int| sum(n, |x: int| c(j, x));
    assert forall|j: int| 0 <= j < 4 implies #[trigger] left(j) == by_lane(j) by {
        let d = pow(delta, (base + j) as nat);
        lemma_lane_value(t, r, j);
        let g = |x: int|
            if lane_of(x) == j {
                row_weight(r, x).mul(t[x])
            } else {
                F::zero()
            };
        lemma_sum_scale(n, d, g);
        let h = |x: int| d.mul(g(x));
        let k = |x: int| c(j, x);
        assert forall|x: int| 0 <= x < n implies #[trigger] h(x) == k(x) by {
            lemma_units(d);
        }
        lemma_sum_ext(n, h, k);
    }
    lemma_sum_ext(4, left, by_lane);
    lemma_sum_swap(4, n, c);
    let by_cell = |x: int| sum(4, |j: int| c(j, x));
    let right = |x: int| pow(delta, (base + lane_of(x)) as nat).mul(row_weight(r, x)).mul(t[x]);
    assert forall|x: int| 0 <= x < n implies #[trigger] by_cell(x) == right(x) by {
        let col = |j: int| c(j, x);
        lemma_sum_single(4, lane_of(x), col);
        F::mul_assoc(pow(delta, (base + lane_of(x)) as nat), row_weight(r, x), t[x]);
    }
    lemma_sum_ext(n, by_cell, right);
}

/// True claims combine to the weighted sum of the columns.
pub proof fn lemma_shift_target<F: BinaryField>(
    s_in: Seq<F>,
    s_out: Seq<F>,
    state: Seq<F>,
    s_out_lane: Seq<F>,
    state_lane: Seq<F>,
    r: Seq<F>,
    delta: F,
)
    requires
        r.len() >= 9,
        s_in.len() == pow2(r.len()),
        s_out.len() == pow2(r.len()),
        state.len() == pow2(r.len()),
        forall|j: int|
            0 <= j < 4 ==> #[trigger] s_out_lane[j] == mle(lane_table(dec_table(s_out), j), r),
        forall|j: int|
            0 <= j < 4 ==> #[trigger] state_lane[j] == mle(lane_table(dec_table(state), j), r),
    ensures
        shift_target(
            mle(dec_table(s_in), r),
            mle(dec_table(s_out), r),
            mle(dec_table(state), r),
            s_out_lane,
            state_lane,
            delta,
        ) == weighted_sum(s_in, s_out, state, r, delta),
{
    let n = pow2(r.len());
    let d2 = pow(delta, 2);
    lemma_dec_value(s_in, r);
    lemma_dec_value(s_out, r);
    lemma_dec_value(state, r);
    let fi = |x: int| eq_at(r, inc(x)).mul(s_in[x]);
    let fo = |x: int| eq_at(r, inc(x)).mul(s_out[x]);
    let fs = |x: int| eq_at(r, inc(x)).mul(state[x]);
    lemma_sum_scale(n, delta, fo);
    lemma_sum_scale(n, d2, fs);
    let dfo = |x: int| delta.mul(fo(x));
    let dfs = |x: int| d2.mul(fs(x));
    lemma_lanes_value(s_out, r, delta, 3);
    lemma_lanes_value(state, r, delta, 7);
    let lo = |x: int| pow(delta, (3nat + lane_of(x)) as nat).mul(row_weight(r, x)).mul(s_out[x]);
    let ls = |x: int| pow(delta, (7nat + lane_of(x)) as nat).mul(row_weight(r, x)).mul(state[x]);
    lemma_sum_ext(
        4,
        |j: int| pow(delta, (3 + j) as nat).mul(s_out_lane[j]),
        |j: int| pow(delta, (3nat + j) as nat).mul(mle(lane_table(dec_table(s_out), j), r)),
    );
    lemma_sum_ext(
        4,
        |j: int| pow(delta, (7 + j) as nat).mul(state_lane[j]),
        |j: int| pow(delta, (7nat + j) as nat).mul(mle(lane_table(dec_table(state), j), r)),
    );
    let (a, b, c, d, e) = (sum(n, fi), sum(n, dfo), sum(n, dfs), sum(n, lo), sum(n, ls));
    assert(shift_target(
        mle(dec_table(s_in), r),
        mle(dec_table(s_out), r),
        mle(dec_table(state), r),
        s_out_lane,
        state_lane,
        delta,
    ) == a.add(b).add(c).add(d).add(e));
    // a + b + c + d + e == (a + (b + d)) + (c + e)
    F::add_assoc(a.add(b), c, d);
    F::add_comm(c, d);
    F::add_assoc(a.add(b), d, c);
    F::add_assoc(a, b, d);
    F::add_assoc(a.add(b.add(d)), c, e);
    lemma_sum_add(n, dfo, lo);
    lemma_sum_add(n, dfs, ls);
    let o = |x: int| dfo(x).add(lo(x));
    let s = |x: int| dfs(x).add(ls(x));
    lemma_sum_add(n, fi, o);
    let io = |x: int| fi(x).add(o(x));
    lemma_sum_add(n, io, s);
    let all = |x: int| io(x).add(s(x));
    let want = |x: int|
        sin_weight(r, delta, x).mul(s_in[x]).add(sout_weight(r, delta, x).mul(s_out[x])).add(
            state_weight(r, delta, x).mul(state[x]),
        );
    assert forall|x: int| 0 <= x < n implies #[trigger] all(x) == want(x) by {
        let w = eq_at(r, inc(x));
        crate::field::lemma_add_mul(
            delta.mul(w),
            pow(delta, (3 + lane_of(x)) as nat).mul(row_weight(r, x)),
            s_out[x],
        );
        F::mul_assoc(delta, w, s_out[x]);
        crate::field::lemma_add_mul(
            d2.mul(w),
            pow(delta, (7 + lane_of(x)) as nat).mul(row_weight(r, x)),
            state[x],
        );
        F::mul_assoc(d2, w, state[x]);
    }
    lemma_sum_ext(n, all, want);
}

/// `1, delta, delta^2, ..`.
pub fn powers<F: BinaryField>(delta: F, count: usize) -> (r: Vec<F>)
    ensures
        r.len() == count,
        forall|k: int| 0 <= k < count ==> #[trigger] r[k] == pow(delta, k as nat),
{
    let mut r: Vec<F> = Vec::new();
    let mut p = F::one_value();
    let mut k: usize = 0;
    while k < count
        invariant
            k <= count,
            r.len() == k,
            p == pow(delta, k as nat),
            forall|j: int| 0 <= j < k ==> #[trigger] r[j] == pow(delta, j as nat),
        decreases count - k,
    {
        r.push(p);
        p = p.times(delta);
        k += 1;
    }
    r
}

/// The three tables of weights.
pub struct CombinedWeights<F> {
    pub w_sin: Vec<F>,
    pub w_sout: Vec<F>,
    pub w_state: Vec<F>,
}

/// Builds the tables of weights.
pub fn build_combined_weights<F: TowerField>(r: &[F], delta: F) -> (w: CombinedWeights<F>)
    requires
        r.len() >= 9,
        pow2(r.len() as nat) <= usize::MAX,
    ensures
        w.w_sin@ == sin_weights(r@, delta),
        w.w_sout@ == sout_weights(r@, delta),
        w.w_state@ == state_weights(r@, delta),
{
    let n: usize = r.len();
    let low = subrange(r, 0, 2);
    let high = subrange(r, 2, n);
    proof {
        lemma_slots(n as nat);
        vstd::arithmetic::power2::lemma2_to64();
        lemma_pow2_adds(2, (n - 2) as nat);
        assert(low@ =~= r@.take(2));
        assert(high@ =~= r@.skip(2));
        assert(pow2(n as nat) == 4 * pow2((n - 2) as nat));
    }
    let eq_elem = eq_ind_partial_eval(low.as_slice());
    let eq_row = eq_ind_partial_eval(high.as_slice());
    let d = powers(delta, 11);
    let cells: usize = eq_row.len() * 4;
    let mut w_sin: Vec<F> = Vec::new();
    let mut w_sout: Vec<F> = Vec::new();
    let mut w_state: Vec<F> = Vec::new();
    let mut x: usize = 0;
    while x < cells
        invariant
            x <= cells,
            n == r.len(),
            n >= 9,
            cells == pow2(n as nat),
            cells % 512 == 0,
            cells == 4 * eq_row.len(),
            eq_elem.len() == 4,
            eq_elem@ == eq_table(r@.take(2)),
            eq_row@ == eq_table(r@.skip(2)),
            d.len() == 11,
            forall|k: int| 0 <= k < 11 ==> #[trigger] d[k] == pow(delta, k as nat),
            w_sin.len() == x,
            w_sout.len() == x,
            w_state.len() == x,
            forall|k: int| 0 <= k < x ==> #[trigger] w_sin[k] == sin_weight(r@, delta, k),
            forall|k: int| 0 <= k < x ==> #[trigger] w_sout[k] == sout_weight(r@, delta, k),
            forall|k: int| 0 <= k < x ==> #[trigger] w_state[k] == state_weight(r@, delta, k),
        decreases cells - x,
    {
        let ix: usize = inc_round_index(x);
        let lane: usize = cell_lane(x);
        proof {
            lemma_cell_of_parts(x as int);
            lemma_dec_inc(x as int);
            lemma_dec_bound(x as int, cells as int / 512);
            lemma_lane_row(r@, ix as int);
        }
        let row = eq_row[ix / 4];
        let moved = eq_elem[lane].times(row);
        proof {
            assert(moved == eq_at(r@, ix as int));
            assert(pow(delta, 1) == delta) by {
                reveal_with_fuel(pow, 2);
                lemma_units(delta);
            }
            assert(d[1] == pow(delta, 1));
            assert(d[2] == pow(delta, 2));
            assert(d[3 + lane as int] == pow(delta, (3 + lane) as nat));
            assert(d[7 + lane as int] == pow(delta, (7 + lane) as nat));
        }
        w_sin.push(moved);
        w_sout.push(d[1].times(moved).plus(d[3 + lane].times(row)));
        w_state.push(d[2].times(moved).plus(d[7 + lane].times(row)));
        x += 1;
    }
    proof {
        assert(w_sin@ =~= sin_weights(r@, delta));
        assert(w_sout@ =~= sout_weights(r@, delta));
        assert(w_state@ =~= state_weights(r@, delta));
    }
    CombinedWeights { w_sin, w_sout, w_state }
}

/// The weights at one point.
pub struct WeightsAtPoint<F> {
    pub w_sin: F,
    pub w_sout: F,
    pub w_state: F,
}

/// The weights of the rounds, one round on.
pub open spec fn round_table<F: BinaryField>(p: Seq<F>) -> Seq<F> {
    Seq::new(128, |k: int| eq_at(p, (k + 1) % 128))
}

/// The weights of the rows, one round on.
pub open spec fn row_table<F: BinaryField>(r: Seq<F>) -> Seq<F> {
    Seq::new(pow2((r.len() - 2) as nat), |k: int| row_weight(r, 4 * k))
}

/// The weights of the rows factor into those of the rounds and of the slots.
proof fn lemma_row_table<F: BinaryField>(r: Seq<F>, s: Seq<F>)
    requires
        r.len() >= 9,
        s.len() == r.len(),
    ensures
        mle(row_table(r), s.skip(2)) == mle(
            round_table(r.subrange(2, 9)),
            s.subrange(2, 9),
        ).mul(eq_poly(r.skip(9), s.skip(9))),
{
    let n = r.len();
    let p = r.subrange(2, 9);
    let q = r.skip(9);
    vstd::arithmetic::power2::lemma2_to64();
    lemma_pow2_adds(7, (n - 9) as nat);
    assert(pow2((n - 2) as nat) == 128 * pow2((n - 9) as nat));
    assert(p + q =~= r.skip(2));
    assert(s.subrange(2, 9) + s.skip(9) =~= s.skip(2));
    let low = round_table(p);
    let high = eq_table(q);
    let t = outer(low, high);
    assert forall|k: int| 0 <= k < t.len() implies row_table(r)[k] == t[k] by {
        let x = 4 * k;
        assert(x == cell(k / 128, k % 128, 0));
        lemma_parts_of_cell(k / 128, k % 128, 0);
        let i = inc(x) / 4;
        assert(i == (k / 128) * 128 + (k % 128 + 1) % 128);
        assert(0 <= k / 128 < pow2((n - 9) as nat));
        lemma_eq_at_concat(p, q, i);
        assert(i % 128 == (k % 128 + 1) % 128);
        assert(i / 128 == k / 128);
    }
    assert(row_table(r) =~= t);
    lemma_mle_outer(low, high, s.subrange(2, 9), s.skip(9));
    lemma_mle_eq_table(q, s.skip(9));
}

/// The extension of the weights of the inputs of the power layers.
proof fn lemma_sin_weights<F: BinaryField>(r: Seq<F>, delta: F, s: Seq<F>)
    requires
        r.len() >= 9,
        s.len() == r.len(),
    ensures
        mle(sin_weights(r, delta), s) == eq_poly(r.take(2), s.take(2)).mul(
            mle(row_table(r), s.skip(2)),
        ),
{
    let n = r.len();
    vstd::arithmetic::power2::lemma2_to64();
    lemma_pow2_adds(2, (n - 2) as nat);
    lemma_slots(n);
    let t = outer(eq_table(r.take(2)), row_table(r));
    let w = sin_weights(r, delta);
    assert forall|x: int| 0 <= x < w.len() implies w[x] == t[x] by {
        lemma_inc_row(x);
        lemma_dec_bound(x, w.len() as int / 512);
        lemma_lane_row(r, inc(x));
        lemma_dec_inc(x);
    }
    assert(w =~= t);
    assert(s.take(2) + s.skip(2) =~= s);
    lemma_mle_outer(eq_table(r.take(2)), row_table(r), s.take(2), s.skip(2));
    lemma_mle_eq_table(r.take(2), s.take(2));
}

/// The row of the next cell depends on the row only.
proof fn lemma_inc_row(x: int)
    requires
        0 <= x,
    ensures
        inc(4 * (x / 4)) / 4 == inc(x) / 4,
{
    lemma_cell_of_parts(x);
    let a = x / 4;
    assert(4 * a == cell(slot_of(x), round_of(x), 0));
    lemma_parts_of_cell(slot_of(x), round_of(x), 0);
}

/// The extension of the weights of the lanes.
proof fn lemma_lane_weights<F: BinaryField>(r: Seq<F>, delta: F, base: nat, s: Seq<F>)
    requires
        r.len() >= 9,
        s.len() == r.len(),
    ensures
        mle(
            Seq::new(
                pow2(r.len()),
                |x: int| pow(delta, (base + lane_of(x)) as nat).mul(row_weight(r, x)),
            ),
            s,
        ) == sum(4, |j: int| eq_at(s.take(2), j).mul(pow(delta, (base + j) as nat))).mul(
            mle(row_table(r), s.skip(2)),
        ),
{
    let n = r.len();
    vstd::arithmetic::power2::lemma2_to64();
    lemma_pow2_adds(2, (n - 2) as nat);
    let lanes = Seq::new(4, |j: int| pow(delta, (base + j) as nat));
    let t = outer(lanes, row_table(r));
    let w = Seq::new(
        pow2(n),
        |x: int| pow(delta, (base + lane_of(x)) as nat).mul(row_weight(r, x)),
    );
    assert forall|x: int| 0 <= x < w.len() implies w[x] == t[x] by {
        lemma_inc_row(x);
    }
    assert(w =~= t);
    assert(s.take(2) + s.skip(2) =~= s);
    lemma_mle_outer(lanes, row_table(r), s.take(2), s.skip(2));
    lemma_mle_sum(lanes, s.take(2));
    lemma_sum_ext(
        4,
        |j: int| eq_at(s.take(2), j).mul(lanes[j]),
        |j: int| eq_at(s.take(2), j).mul(pow(delta, (base + j) as nat)),
    );
}

/// The extension of a combination of the two kinds of weights.
proof fn lemma_mixed_weights<F: BinaryField>(r: Seq<F>, delta: F, k: F, base: nat, s: Seq<F>)
    requires
        r.len() >= 9,
        s.len() == r.len(),
    ensures
        mle(
            Seq::new(
                pow2(r.len()),
                |x: int|
                    k.mul(eq_at(r, inc(x))).add(
                        pow(delta, (base + lane_of(x)) as nat).mul(row_weight(r, x)),
                    ),
            ),
            s,
        ) == k.mul(eq_poly(r.take(2), s.take(2)).mul(mle(row_table(r), s.skip(2)))).add(
            sum(4, |j: int| eq_at(s.take(2), j).mul(pow(delta, (base + j) as nat))).mul(
                mle(row_table(r), s.skip(2)),
            ),
        ),
{
    let n = pow2(r.len());
    let a = sin_weights(r, delta);
    let ka = Seq::new(n, |x: int| k.mul(a[x]));
    let b = Seq::new(n, |x: int| pow(delta, (base + lane_of(x)) as nat).mul(row_weight(r, x)));
    let w = Seq::new(
        n,
        |x: int|
            k.mul(eq_at(r, inc(x))).add(
                pow(delta, (base + lane_of(x)) as nat).mul(row_weight(r, x)),
            ),
    );
    assert(w =~= Seq::new(n, |x: int| ka[x].add(b[x])));
    lemma_mle_add(ka, b, s);
    lemma_mle_scale(k, a, s);
    lemma_sin_weights(r, delta, s);
    lemma_lane_weights(r, delta, base, s);
}

/// Evaluates the three weights at a point without their tables.
pub fn combined_weights_at_point<F: TowerField>(r: &[F], delta: F, s: &[F]) -> (w: WeightsAtPoint<F>)
    requires
        r.len() >= 9,
        s.len() == r.len(),
    ensures
        w.w_sin == mle(sin_weights(r@, delta), s@),
        w.w_sout == mle(sout_weights(r@, delta), s@),
        w.w_state == mle(state_weights(r@, delta), s@),
{
    let n: usize = r.len();
    let (r_elem, r_round, r_slot) = (subrange(r, 0, 2), subrange(r, 2, 9), subrange(r, 9, n));
    let (s_elem, s_round, s_slot) = (subrange(s, 0, 2), subrange(s, 2, 9), subrange(s, 9, n));
    proof {
        vstd::arithmetic::power2::lemma2_to64();
        assert(r_elem@ =~= r@.take(2) && s_elem@ =~= s@.take(2));
        assert(r_slot@ =~= r@.skip(9) && s_slot@ =~= s@.skip(9));
    }
    let eq_slot = eq_ind(r_slot.as_slice(), s_slot.as_slice());
    let eq_elem = eq_ind(r_elem.as_slice(), s_elem.as_slice());
    let round_tab = eq_ind_partial_eval(r_round.as_slice());
    let mut tab: Vec<F> = Vec::new();
    let mut k: usize = 0;
    while k < 128
        invariant
            k <= 128,
            round_tab.len() == 128,
            round_tab@ == eq_table(r_round@),
            tab.len() == k,
            forall|j: int| 0 <= j < k ==> #[trigger] tab[j] == eq_at(r_round@, (j + 1) % 128),
        decreases 128 - k,
    {
        tab.push(round_tab[(k + 1) % 128]);
        k += 1;
    }
    let g_round = evaluate_slice(tab.as_slice(), s_round.as_slice());
    proof {
        assert(tab@ =~= round_table(r@.subrange(2, 9)));
        lemma_row_table(r@, s@);
    }
    let row = g_round.times(eq_slot);
    let ind = eq_ind_partial_eval(s_elem.as_slice());
    let d = powers(delta, 11);
    let mut lane_sout = F::zero_value();
    let mut lane_state = F::zero_value();
    let ghost fo = |j: int| eq_at(s@.take(2), j).mul(pow(delta, (3 + j) as nat));
    let ghost fs = |j: int| eq_at(s@.take(2), j).mul(pow(delta, (7 + j) as nat));
    let mut j: usize = 0;
    while j < 4
        invariant
            j <= 4,
            ind.len() == 4,
            ind@ == eq_table(s@.take(2)),
            d.len() == 11,
            forall|k: int| 0 <= k < 11 ==> #[trigger] d[k] == pow(delta, k as nat),
            fo == (|j: int| eq_at(s@.take(2), j).mul(pow(delta, (3 + j) as nat))),
            fs == (|j: int| eq_at(s@.take(2), j).mul(pow(delta, (7 + j) as nat))),
            lane_sout == sum(j as nat, fo),
            lane_state == sum(j as nat, fs),
        decreases 4 - j,
    {
        proof {
            assert(d[3 + j as int] == pow(delta, (3 + j) as nat));
            assert(d[7 + j as int] == pow(delta, (7 + j) as nat));
        }
        lane_sout = lane_sout.plus(ind[j].times(d[3 + j]));
        lane_state = lane_state.plus(ind[j].times(d[7 + j]));
        j += 1;
    }
    let moved = eq_elem.times(row);
    let w = WeightsAtPoint {
        w_sin: moved,
        w_sout: d[1].times(moved).plus(lane_sout.times(row)),
        w_state: d[2].times(moved).plus(lane_state.times(row)),
    };
    proof {
        assert(pow(delta, 1) == delta) by {
            reveal_with_fuel(pow, 2);
            lemma_units(delta);
        }
        lemma_sin_weights(r@, delta, s@);
        lemma_mixed_weights(r@, delta, delta, 3, s@);
        lemma_mixed_weights(r@, delta, pow(delta, 2), 7, s@);
        lemma_sum_ext(
            4,
            fo,
            |j: int| eq_at(s@.take(2), j).mul(pow(delta, (3nat + j) as nat)),
        );
        lemma_sum_ext(
            4,
            fs,
            |j: int| eq_at(s@.take(2), j).mul(pow(delta, (7nat + j) as nat)),
        );
        assert(d[1] == pow(delta, 1) && d[2] == pow(delta, 2));
        let m = pow2(n as nat);
        assert(sout_weights(r@, delta) =~= Seq::new(
            m,
            |x: int|
                delta.mul(eq_at(r@, inc(x))).add(
                    pow(delta, (3nat + lane_of(x)) as nat).mul(row_weight(r@, x)),
                ),
        ));
        assert(state_weights(r@, delta) =~= Seq::new(
            m,
            |x: int|
                pow(delta, 2).mul(eq_at(r@, inc(x))).add(
                    pow(delta, (7nat + lane_of(x)) as nat).mul(row_weight(r@, x)),
                ),
        ));
    }
    w
}

/// Computes [`shift_target`].
pub fn combined_target<F: TowerField>(
    s_in_dec: F,
    s_out_dec: F,
    state_dec: F,
    s_out_lane: &[F; 4],
    state_lane: &[F; 4],
    delta: F,
) -> (r: F)
    ensures
        r == shift_target(s_in_dec, s_out_dec, state_dec, s_out_lane@, state_lane@, delta),
{
    let d = powers(delta, 11);
    proof {
        assert(pow(delta, 1) == delta) by {
            reveal_with_fuel(pow, 2);
            lemma_units(delta);
        }
        assert(d[1] == pow(delta, 1) && d[2] == pow(delta, 2));
    }
    let head = s_in_dec.plus(d[1].times(s_out_dec)).plus(d[2].times(state_dec));
    let mut lane_sout = F::zero_value();
    let mut lane_state = F::zero_value();
    let ghost fo = |j: int| pow(delta, (3 + j) as nat).mul(s_out_lane@[j]);
    let ghost fs = |j: int| pow(delta, (7 + j) as nat).mul(state_lane@[j]);
    let mut j: usize = 0;
    while j < 4
        invariant
            j <= 4,
            d.len() == 11,
            forall|k: int| 0 <= k < 11 ==> #[trigger] d[k] == pow(delta, k as nat),
            fo == (|j: int| pow(delta, (3 + j) as nat).mul(s_out_lane@[j])),
            fs == (|j: int| pow(delta, (7 + j) as nat).mul(state_lane@[j])),
            lane_sout == sum(j as nat, fo),
            lane_state == sum(j as nat, fs),
        decreases 4 - j,
    {
        proof {
            assert(d[3 + j as int] == pow(delta, (3 + j) as nat));
            assert(d[7 + j as int] == pow(delta, (7 + j) as nat));
        }
        lane_sout = lane_sout.plus(d[3 + j].times(s_out_lane[j]));
        lane_state = lane_state.plus(d[7 + j].times(state_lane[j]));
        j += 1;
    }
    head.plus(lane_sout).plus(lane_state)
}

/// The summand of the shift gadget, over the three columns and their weights.
pub struct ShiftTerm;

/// The summand of [`ShiftTerm`].
pub open spec fn shift_term<F: BinaryField>() -> spec_fn(Seq<F>) -> F {
    |v: Seq<F>| v[3].mul(v[0]).add(v[4].mul(v[1])).add(v[5].mul(v[2]))
}

/// The summand has degree two in the folded variable.
proof fn lemma_shift_term_poly<F: TowerField>(t: Seq<Seq<F>>, n: nat, i: int)
    requires
        n > 0,
        t.len() == 6,
        tables_wf(t, n),
        0 <= i < pow2((n - 1) as nat),
    ensures
        is_poly(slice_of(entry_of(t, shift_term::<F>()), i), 3),
{
    let c0 = |x: F| values_at(fold_tables(t, x), i)[0];
    let c1 = |x: F| values_at(fold_tables(t, x), i)[1];
    let c2 = |x: F| values_at(fold_tables(t, x), i)[2];
    let c3 = |x: F| values_at(fold_tables(t, x), i)[3];
    let c4 = |x: F| values_at(fold_tables(t, x), i)[4];
    let c5 = |x: F| values_at(fold_tables(t, x), i)[5];
    lemma_column_poly(t, n, 0, i, c0);
    lemma_column_poly(t, n, 1, i, c1);
    lemma_column_poly(t, n, 2, i, c2);
    lemma_column_poly(t, n, 3, i, c3);
    lemma_column_poly(t, n, 4, i, c4);
    lemma_column_poly(t, n, 5, i, c5);
    let a = |x: F| c3(x).mul(c0(x));
    let b = |x: F| c4(x).mul(c1(x));
    let c = |x: F| c5(x).mul(c2(x));
    lemma_poly_mul(c3, 2, c0, 2, a);
    lemma_poly_mul(c4, 2, c1, 2, b);
    lemma_poly_mul(c5, 2, c2, 2, c);
    let ab = |x: F| a(x).add(b(x));
    lemma_poly_add(a, b, ab, 3);
    lemma_poly_add(ab, c, slice_of(entry_of(t, shift_term::<F>()), i), 3);
}

/// The value of a folded column.
fn folded_value<F: TowerField>(tables: &Vec<Vec<F>>, c: usize, half: usize, i: usize, t: F) -> (v: F)
    requires
        c < tables.len(),
        tables[c as int].len() == 2 * half,
        i < half,
    ensures
        v == values_at(fold_tables(views(tables@), t), i as int)[c as int],
{
    let col = &tables[c];
    col[i].plus(t.times(col[i].plus(col[i + half])))
}

/// The round polynomial of the shift gadget, from its values at 0, 1 and 2.
pub fn compute_shift_round_polynomial_flat<F: TowerField>(tables: &Vec<Vec<F>>) -> (r:
    RoundPolynomial<F>)
    requires
        tables.len() == 6,
        exists|n: nat| n > 0 && #[trigger] tables_wf(views(tables@), n),
    ensures
        r.coeffs.len() == 3,
        forall|x: F|
            #[trigger] peval(r.coeffs@, x) == half_sum(views(tables@), shift_term(), x),
{
    let half: usize = tables[0].len() / 2;
    let ghost t = views(tables@);
    let ghost f = shift_term::<F>();
    proof {
        let n = choose|n: nat| n > 0 && #[trigger] tables_wf(t, n);
        lemma_half_pow2(n);
        assert forall|c: int| 0 <= c < 6 implies #[trigger] tables[c].len() == 2 * half by {
            assert(t[c].len() == pow2(n));
            assert(t[0].len() == pow2(n));
        }
    }
    let mut evals: Vec<F> = Vec::new();
    let mut k: usize = 0;
    while k < 3
        invariant
            k <= 3,
            tables.len() == 6,
            t == views(tables@),
            f == shift_term::<F>(),
            forall|c: int| 0 <= c < 6 ==> #[trigger] tables[c].len() == 2 * half,
            evals.len() == k,
            forall|j: int|
                0 <= j < k ==> #[trigger] evals[j] == half_sum(t, f, F::of_u128(j as u128)),
        decreases 3 - k,
    {
        let x = F::from_u128(k as u128);
        let ghost g = |i: int| f(values_at(fold_tables(t, x), i));
        let mut acc = F::zero_value();
        let mut i: usize = 0;
        while i < half
            invariant
                i <= half,
                tables.len() == 6,
                t == views(tables@),
                f == shift_term::<F>(),
                forall|c: int| 0 <= c < 6 ==> #[trigger] tables[c].len() == 2 * half,
                g == (|i: int| f(values_at(fold_tables(t, x), i))),
                acc == sum(i as nat, g),
            decreases half - i,
        {
            proof {
                assert(tables[0].len() == 2 * half && tables[1].len() == 2 * half
                    && tables[2].len() == 2 * half && tables[3].len() == 2 * half
                    && tables[4].len() == 2 * half && tables[5].len() == 2 * half);
            }
            let sin = folded_value(tables, 0, half, i, x);
            let sout = folded_value(tables, 1, half, i, x);
            let st = folded_value(tables, 2, half, i, x);
            let wsin = folded_value(tables, 3, half, i, x);
            let wsout = folded_value(tables, 4, half, i, x);
            let wst = folded_value(tables, 5, half, i, x);
            acc = acc.plus(wsin.times(sin).plus(wsout.times(sout)).plus(wst.times(st)));
            i += 1;
        }
        proof {
            assert(tables[0].len() == 2 * half);
            assert(t[0].len() / 2 == half);
        }
        evals.push(acc);
        k += 1;
    }
    let p = RoundPolynomial::from_evals(evals.as_slice());
    proof {
        let n = choose|n: nat| n > 0 && #[trigger] tables_wf(t, n);
        let g = half_sum_of(t, f);
        assert forall|i: int| 0 <= i < pow2((n - 1) as nat) implies is_poly(
            #[trigger] slice_of(entry_of(t, f), i),
            3,
        ) by {
            lemma_shift_term_poly(t, n, i);
        }
        lemma_half_sum_poly(f, 3, t, n);
        lemma_small_points::<F>(3);
        let points = small_points::<F>(3);
        assert forall|x: F| #[trigger] peval(p.coeffs@, x) == half_sum(t, f, x) by {
            lemma_interpolate(g, points, evals@, x);
        }
    }
    p
}

impl<F: TowerField> Summand<F> for ShiftTerm {
    open spec fn columns(&self) -> nat {
        6
    }

    open spec fn width(&self) -> nat {
        3
    }

    open spec fn term(&self) -> spec_fn(Seq<F>) -> F {
        shift_term()
    }

    proof fn sizes(&self) {
    }

    proof fn term_poly(&self, t: Seq<Seq<F>>, n: nat, i: int) {
        lemma_shift_term_poly(t, n, i);
    }

    fn round_poly(&self, tables: &Vec<Vec<F>>) -> (p: RoundPolynomial<F>) {
        compute_shift_round_polynomial_flat(tables)
    }
}

/// The columns of the shift gadget.
pub open spec fn shift_tables<F: BinaryField>(
    s_in: Seq<F>,
    s_out: Seq<F>,
    state: Seq<F>,
    r: Seq<F>,
    delta: F,
) -> Seq<Seq<F>> {
    seq![
        s_in,
        s_out,
        state,
        sin_weights(r, delta),
        sout_weights(r, delta),
        state_weights(r, delta),
    ]
}

/// The sum of the shift gadget is the weighted sum of the columns.
pub proof fn lemma_shift_total<F: BinaryField>(
    s_in: Seq<F>,
    s_out: Seq<F>,
    state: Seq<F>,
    r: Seq<F>,
    delta: F,
)
    ensures
        total(shift_tables(s_in, s_out, state, r, delta), shift_term(), r.len()) == weighted_sum(
            s_in,
            s_out,
            state,
            r,
            delta,
        ),
{
    let t = shift_tables(s_in, s_out, state, r, delta);
    let f = shift_term::<F>();
    let n = pow2(r.len());
    lemma_sum_ext(
        n,
        |x: int| f(values_at(t, x)),
        |x: int|
            sin_weight(r, delta, x).mul(s_in[x]).add(sout_weight(r, delta, x).mul(s_out[x])).add(
                state_weight(r, delta, x).mul(state[x]),
            ),
    );
}

} // verus!
