//! The columns of a trace of permutations.
use vstd::prelude::*;
use vstd::arithmetic::power2::pow2;
use crate::field::{TowerField, lemma_add_cancel, lemma_units};
use crate::layers::{N_ROUNDS, PermLayerWitness, PermParams, RoundKind, evaluate_permutation, is_active, is_partial, layer_state, mds_apply, power_in, power_out};
use crate::round_poly::{pow7, zeros};
use crate::spine_degree7::sbox_identity;
use crate::sum::{lemma_sum_ext, lemma_sum_zero, sum};
use crate::sumcheck::{total, values_at};
use crate::trace::{cell, dec, lane_of, lemma_cell_of_parts, lemma_dec_bound, lemma_dec_inc, lemma_parts_of_cell, lemma_slots, mds_cell, round_of, sigma_at, sigma_cell, slot_of};
use crate::unified::{constant_identity, linear_identity, mixed_lane, unified_identity, unified_tables, unified_term};

verus! {

/// The state column: before round `r` of its slot, and after the last round.
pub open spec fn state_cell<F: TowerField>(params: PermParams<F>, inputs: Seq<Seq<F>>, y: int) -> F {
    if slot_of(y) < inputs.len() && round_of(y) <= N_ROUNDS {
        layer_state(params, inputs[slot_of(y)], round_of(y) as nat)[lane_of(y)]
    } else {
        F::zero()
    }
}

/// The column of the inputs of the power layers.
pub open spec fn sin_cell<F: TowerField>(params: PermParams<F>, inputs: Seq<Seq<F>>, y: int) -> F {
    if slot_of(y) < inputs.len() && round_of(y) < N_ROUNDS {
        power_in(
            params,
            layer_state(params, inputs[slot_of(y)], round_of(y) as nat),
            round_of(y),
        )[lane_of(y)]
    } else {
        F::zero()
    }
}

/// The column of the outputs of the power layers.
pub open spec fn sout_cell<F: TowerField>(params: PermParams<F>, inputs: Seq<Seq<F>>, y: int) -> F {
    if slot_of(y) < inputs.len() && round_of(y) < N_ROUNDS {
        power_out(
            params,
            layer_state(params, inputs[slot_of(y)], round_of(y) as nat),
            round_of(y),
        )[lane_of(y)]
    } else {
        F::zero()
    }
}

/// The whole state column.
pub open spec fn state_column<F: TowerField>(
    params: PermParams<F>,
    inputs: Seq<Seq<F>>,
    cells: nat,
) -> Seq<F> {
    Seq::new(cells, |y: int| state_cell(params, inputs, y))
}

/// The whole column of the inputs of the power layers.
pub open spec fn sin_column<F: TowerField>(
    params: PermParams<F>,
    inputs: Seq<Seq<F>>,
    cells: nat,
) -> Seq<F> {
    Seq::new(cells, |y: int| sin_cell(params, inputs, y))
}

/// The whole column of the outputs of the power layers.
pub open spec fn sout_column<F: TowerField>(
    params: PermParams<F>,
    inputs: Seq<Seq<F>>,
    cells: nat,
) -> Seq<F> {
    Seq::new(cells, |y: int| sout_cell(params, inputs, y))
}

/// The whole selector column.
pub open spec fn sigma_column<F: TowerField>(live: int, cells: nat) -> Seq<F> {
    Seq::new(cells, |y: int| sigma_cell::<F>(live, y))
}

/// The inputs of the permutations, as sequences.
pub open spec fn input_views<F>(inputs: Seq<[F; 4]>) -> Seq<Seq<F>> {
    Seq::new(inputs.len(), |s: int| inputs[s]@)
}

/// Writes the first `count` rows of a slot into a column.
pub fn write_rows<F: TowerField>(col: &mut Vec<F>, slot: usize, rows: &Vec<[F; 4]>, count: usize)
    requires
        count <= 128,
        count <= rows.len(),
        (slot + 1) * 512 <= old(col).len(),
    ensures
        final(col).len() == old(col).len(),
        forall|y: int|
            0 <= y < final(col).len() ==> #[trigger] final(col)@[y] == if slot_of(y) == slot
                && round_of(y) < count {
                rows[round_of(y)][lane_of(y)]
            } else {
                old(col)@[y]
            },
{
    let base: usize = slot * 512;
    let mut k: usize = 0;
    while k < 4 * count
        invariant
            k <= 4 * count,
            count <= 128,
            count <= rows.len(),
            base == slot * 512,
            base + 512 <= col.len(),
            col.len() == old(col).len(),
            forall|y: int|
                0 <= y < col.len() ==> #[trigger] col@[y] == if base <= y < base + k {
                    rows[(y - base) / 4][(y - base) % 4]
                } else {
                    old(col)@[y]
                },
        decreases 4 * count - k,
    {
        let v = rows[k / 4][k % 4];
        col.set(base + k, v);
        k += 1;
    }
    proof {
        assert forall|y: int| 0 <= y < col.len() implies #[trigger] col@[y] == if slot_of(y) == slot
            && round_of(y) < count {
            rows[round_of(y)][lane_of(y)]
        } else {
            old(col)@[y]
        } by {
            lemma_cell_of_parts(y);
            if slot_of(y) == slot {
                assert((y - base) / 4 == round_of(y));
                assert((y - base) % 4 == lane_of(y));
            }
        }
    }
}

/// Writes the selectors of a slot into a column, from the kinds of the rounds.
pub fn write_selectors<F: TowerField>(col: &mut Vec<F>, slot: usize, kind: &Vec<RoundKind>)
    requires
        kind.len() == N_ROUNDS,
        (slot + 1) * 512 <= old(col).len(),
    ensures
        final(col).len() == old(col).len(),
        forall|y: int|
            0 <= y < final(col).len() ==> #[trigger] final(col)@[y] == if slot_of(y) == slot
                && round_of(y) < N_ROUNDS {
                if kind[round_of(y)] == RoundKind::Full || lane_of(y) == 0 {
                    F::one()
                } else {
                    F::zero()
                }
            } else {
                old(col)@[y]
            },
{
    let base: usize = slot * 512;
    let mut k: usize = 0;
    while k < 4 * N_ROUNDS
        invariant
            k <= 4 * N_ROUNDS,
            kind.len() == N_ROUNDS,
            base == slot * 512,
            base + 512 <= col.len(),
            col.len() == old(col).len(),
            forall|y: int|
                0 <= y < col.len() ==> #[trigger] col@[y] == if base <= y < base + k {
                    if kind[(y - base) / 4] == RoundKind::Full || (y - base) % 4 == 0 {
                        F::one()
                    } else {
                        F::zero()
                    }
                } else {
                    old(col)@[y]
                },
        decreases 4 * N_ROUNDS - k,
    {
        let active = match kind[k / 4] {
            RoundKind::Full => true,
            RoundKind::Partial => k % 4 == 0,
        };
        let v = if active {
            F::one_value()
        } else {
            F::zero_value()
        };
        col.set(base + k, v);
        k += 1;
    }
    proof {
        assert forall|y: int| 0 <= y < col.len() implies #[trigger] col@[y] == if slot_of(y) == slot
            && round_of(y) < N_ROUNDS {
            if kind[round_of(y)] == RoundKind::Full || lane_of(y) == 0 {
                F::one()
            } else {
                F::zero()
            }
        } else {
            old(col)@[y]
        } by {
            lemma_cell_of_parts(y);
            if slot_of(y) == slot {
                assert((y - base) / 4 == round_of(y));
                assert((y - base) % 4 == lane_of(y));
            }
        }
    }
}

/// The four columns of a trace.
#[derive(Clone, Debug, PartialEq, Eq)]
pub struct TraceColumns<F> {
    pub s_in: Vec<F>,
    pub s_out: Vec<F>,
    pub sigma: Vec<F>,
    pub state: Vec<F>,
}

impl<F: TowerField> TraceColumns<F> {
    /// Every column has `cells` values.
    pub open spec fn wf(&self, cells: nat) -> bool {
        &&& self.s_in.len() == cells
        &&& self.s_out.len() == cells
        &&& self.sigma.len() == cells
        &&& self.state.len() == cells
    }

    /// The columns of the permutations of `inputs`.
    pub open spec fn of(&self, params: PermParams<F>, inputs: Seq<Seq<F>>, cells: nat) -> bool {
        &&& self.s_in@ == sin_column(params, inputs, cells)
        &&& self.s_out@ == sout_column(params, inputs, cells)
        &&& self.sigma@ == sigma_column::<F>(inputs.len() as int, cells)
        &&& self.state@ == state_column(params, inputs, cells)
    }

    /// All the columns zero.
    pub fn zero(cells: usize) -> (r: Self)
        ensures
            r.wf(cells as nat),
            r.s_in@ == Seq::new(cells as nat, |y: int| F::zero()),
            r.s_out@ == Seq::new(cells as nat, |y: int| F::zero()),
            r.sigma@ == Seq::new(cells as nat, |y: int| F::zero()),
            r.state@ == Seq::new(cells as nat, |y: int| F::zero()),
    {
        TraceColumns {
            s_in: zeros(cells),
            s_out: zeros(cells),
            sigma: zeros(cells),
            state: zeros(cells),
        }
    }

    /// Fills the cells of a slot from the witness of its permutation.
    pub fn populate_slot(&mut self, slot: usize, witness: &PermLayerWitness<F>)
        requires
            witness.kind.len() == N_ROUNDS,
            witness.state.len() == N_ROUNDS + 1,
            witness.sin.len() == N_ROUNDS,
            witness.sout.len() == N_ROUNDS,
            (slot + 1) * 512 <= old(self).state.len(),
            old(self).wf(old(self).state.len() as nat),
        ensures
            final(self).wf(old(self).state.len() as nat),
            forall|y: int|
                0 <= y < final(self).state.len() ==> #[trigger] final(self).state@[y] == if slot_of(
                    y,
                ) == slot && round_of(y) <= N_ROUNDS {
                    witness.state[round_of(y)][lane_of(y)]
                } else {
                    old(self).state@[y]
                },
            forall|y: int|
                0 <= y < final(self).s_in.len() ==> #[trigger] final(self).s_in@[y] == if slot_of(y)
                    == slot && round_of(y) < N_ROUNDS {
                    witness.sin[round_of(y)][lane_of(y)]
                } else {
                    old(self).s_in@[y]
                },
            forall|y: int|
                0 <= y < final(self).s_out.len() ==> #[trigger] final(self).s_out@[y] == if slot_of(
                    y,
                ) == slot && round_of(y) < N_ROUNDS {
                    witness.sout[round_of(y)][lane_of(y)]
                } else {
                    old(self).s_out@[y]
                },
            forall|y: int|
                0 <= y < final(self).sigma.len() ==> #[trigger] final(self).sigma@[y] == if slot_of(
                    y,
                ) == slot && round_of(y) < N_ROUNDS {
                    if witness.kind[round_of(y)] == RoundKind::Full || lane_of(y) == 0 {
                        F::one()
                    } else {
                        F::zero()
                    }
                } else {
                    old(self).sigma@[y]
                },
    {
        write_rows(&mut self.s_in, slot, &witness.sin, N_ROUNDS);
        write_rows(&mut self.s_out, slot, &witness.sout, N_ROUNDS);
        write_selectors(&mut self.sigma, slot, &witness.kind);
        write_rows(&mut self.state, slot, &witness.state, N_ROUNDS + 1);
    }
}

/// Runs the permutations of `inputs` and lays them out in columns.
pub fn build_columns<F: TowerField>(
    params: &PermParams<F>,
    inputs: &[[F; 4]],
    cells: usize,
) -> (r: (TraceColumns<F>, Vec<PermLayerWitness<F>>))
    requires
        inputs.len() * 512 <= cells,
    ensures
        r.0.wf(cells as nat),
        r.0.of(*params, input_views(inputs@), cells as nat),
        r.1.len() == inputs.len(),
        forall|s: int| 0 <= s < inputs.len() ==> (#[trigger] r.1[s]).of(*params, inputs[s]@),
{
    let mut cols = TraceColumns::<F>::zero(cells);
    let mut witnesses: Vec<PermLayerWitness<F>> = Vec::new();
    let mut slot: usize = 0;
    proof {
        assert forall|y: int| 0 <= y < cells implies #[trigger] cols.state@[y] == state_cell(
            *params,
            input_views(inputs@).take(0),
            y,
        ) && cols.s_in@[y] == sin_cell(*params, input_views(inputs@).take(0), y) && cols.s_out@[y]
            == sout_cell(*params, input_views(inputs@).take(0), y) && cols.sigma@[y] == sigma_cell::<
            F,
        >(0, y) by {}
    }
    while slot < inputs.len()
        invariant
            slot <= inputs.len(),
            inputs.len() * 512 <= cells,
            cols.wf(cells as nat),
            witnesses.len() == slot,
            forall|s: int| 0 <= s < slot ==> (#[trigger] witnesses[s]).of(*params, inputs[s]@),
            forall|y: int|
                0 <= y < cells ==> #[trigger] cols.state@[y] == state_cell(
                    *params,
                    input_views(inputs@).take(slot as int),
                    y,
                ) && cols.s_in@[y] == sin_cell(
                    *params,
                    input_views(inputs@).take(slot as int),
                    y,
                ) && cols.s_out@[y] == sout_cell(
                    *params,
                    input_views(inputs@).take(slot as int),
                    y,
                ) && cols.sigma@[y] == sigma_cell::<F>(slot as int, y),
        decreases inputs.len() - slot,
    {
        let w = evaluate_permutation(params, inputs[slot]);
        let ghost before = cols;
        cols.populate_slot(slot, &w);
        proof {
            let next = input_views(inputs@).take(slot + 1);
            assert forall|y: int| 0 <= y < cells implies #[trigger] cols.state@[y] == state_cell(
                *params,
                next,
                y,
            ) && cols.s_in@[y] == sin_cell(*params, next, y) && cols.s_out@[y] == sout_cell(
                *params,
                next,
                y,
            ) && cols.sigma@[y] == sigma_cell::<F>(slot + 1, y) by {
                lemma_cell_of_parts(y);
                let r = round_of(y);
                assert(before.state@[y] == state_cell(
                    *params,
                    input_views(inputs@).take(slot as int),
                    y,
                ));
                if slot_of(y) == slot {
                    assert(next[slot as int] == inputs[slot as int]@);
                    if r <= N_ROUNDS {
                        assert(w.state[r]@ == layer_state(*params, inputs[slot as int]@, r as nat));
                    }
                    if r < N_ROUNDS {
                        assert(w.sin[r]@[lane_of(y)] == power_in(
                            *params,
                            layer_state(*params, inputs[slot as int]@, r as nat),
                            r,
                        )[lane_of(y)]);
                        assert(w.sout[r]@[lane_of(y)] == power_out(
                            *params,
                            layer_state(*params, inputs[slot as int]@, r as nat),
                            r,
                        )[lane_of(y)]);
                        assert(w.kind[r] == if is_partial(r) {
                            RoundKind::Partial
                        } else {
                            RoundKind::Full
                        });
                    }
                } else if slot_of(y) < slot {
                    assert(next[slot_of(y)] == input_views(inputs@).take(slot as int)[slot_of(y)]);
                }
            }
        }
        witnesses.push(w);
        slot += 1;
    }
    proof {
        let all = input_views(inputs@);
        assert(all.take(inputs.len() as int) =~= all);
        assert(cols.state@ =~= state_column(*params, all, cells as nat));
        assert(cols.s_in@ =~= sin_column(*params, all, cells as nat)) by {
            assert forall|y: int| 0 <= y < cells implies cols.s_in@[y] == sin_cell(
                *params,
                all,
                y,
            ) by {
                assert(cols.state@[y] == state_cell(*params, all, y));
            }
        }
        assert(cols.s_out@ =~= sout_column(*params, all, cells as nat)) by {
            assert forall|y: int| 0 <= y < cells implies cols.s_out@[y] == sout_cell(
                *params,
                all,
                y,
            ) by {
                assert(cols.state@[y] == state_cell(*params, all, y));
            }
        }
        assert(cols.sigma@ =~= sigma_column::<F>(all.len() as int, cells as nat)) by {
            assert forall|y: int| 0 <= y < cells implies cols.sigma@[y] == sigma_cell::<F>(
                all.len() as int,
                y,
            ) by {
                assert(cols.state@[y] == state_cell(*params, all, y));
            }
        }
    }
    (cols, witnesses)
}

/// The identity of the power layer holds in every cell of a round.
proof fn lemma_power_identity<F: TowerField>(
    params: PermParams<F>,
    state: Seq<F>,
    round: int,
    lane: int,
)
    requires
        0 <= round < N_ROUNDS,
        0 <= lane < 4,
    ensures
        sbox_identity(
            sigma_at::<F>(round, lane),
            power_in(params, state, round)[lane],
            power_out(params, state, round)[lane],
        ) == F::zero(),
        constant_identity(
            sigma_at::<F>(round, lane),
            power_in(params, state, round)[lane],
            state[lane],
            if is_active(round, lane) {
                params.rc(round, lane)
            } else {
                F::zero()
            },
        ) == F::zero(),
{
    let s = power_in(params, state, round)[lane];
    let o = power_out(params, state, round)[lane];
    let p = pow7(s);
    lemma_units(p);
    lemma_units(s);
    F::add_self(p);
    F::add_self(s);
    if is_active(round, lane) {
        let rc = params.rc(round, lane);
        // 1 p + p + s + 1 s
        lemma_units(s);
        assert(sbox_identity(F::one(), s, p) == F::zero());
        // s + state + rc with s == state + rc
        let st = state[lane];
        F::add_comm(st, rc);
        lemma_add_cancel(rc, st);
        F::add_self(rc);
        lemma_units(F::zero());
        lemma_units(F::one());
    } else {
        F::add_self(o);
        lemma_units(F::zero());
        lemma_units(o);
        lemma_units(s.add(state[lane]).add(F::zero()));
    }
}

/// The mixed lane of an honest cell is the output of its power layer.
proof fn lemma_mixed_lane<F: TowerField>(
    params: PermParams<F>,
    state: Seq<F>,
    round: int,
    v: Seq<F>,
    j: int,
)
    requires
        0 <= j < 4,
        0 <= round < N_ROUNDS,
        v[11 + j] == sigma_at::<F>(round, j),
        v[15 + j] == power_out(params, state, round)[j],
        v[19 + j] == state[j],
    ensures
        mixed_lane(v, j) == power_out(params, state, round)[j],
{
    let o = power_out(params, state, round)[j];
    let st = state[j];
    lemma_units(o);
    lemma_units(st);
    F::add_self(F::one());
    lemma_units(F::one());
}

/// The identity of the linear layer holds after an honest round.
proof fn lemma_linear_identity<F: TowerField>(
    params: PermParams<F>,
    state: Seq<F>,
    round: int,
    lane: int,
    v: Seq<F>,
)
    requires
        0 <= round < N_ROUNDS,
        0 <= lane < 4,
        v[6] == mds_apply(
            |i: int, j: int| params.mds(round, i, j),
            power_out(params, state, round),
        )[lane],
        forall|j: int|
            0 <= j < 4 ==> {
                &&& #[trigger] v[7 + j] == params.mds(round, lane, j)
                &&& v[11 + j] == sigma_at::<F>(round, j)
                &&& v[15 + j] == power_out(params, state, round)[j]
                &&& v[19 + j] == state[j]
            },
    ensures
        linear_identity(v, 4) == F::zero(),
{
    let o = power_out(params, state, round);
    assert(v[7 + 0int] == params.mds(round, lane, 0));
    assert(v[7 + 1int] == params.mds(round, lane, 1));
    assert(v[7 + 2int] == params.mds(round, lane, 2));
    assert(v[7 + 3int] == params.mds(round, lane, 3));
    lemma_mixed_lane(params, state, round, v, 0);
    lemma_mixed_lane(params, state, round, v, 1);
    lemma_mixed_lane(params, state, round, v, 2);
    lemma_mixed_lane(params, state, round, v, 3);
    let f = |j: int| params.mds(round, lane, j).mul(o[j]);
    let (a, b, c, d) = (f(0), f(1), f(2), f(3));
    reveal_with_fuel(sum, 5);
    reveal_with_fuel(linear_identity, 5);
    lemma_units(a);
    assert(v[6] == a.add(b).add(c).add(d)) by {
        let m = |i: int, j: int| params.mds(round, i, j);
        lemma_sum_ext(4, |j: int| m(lane, j).mul(o[j]), f);
    }
    // ((((a + b + c + d) + a) + b) + c) + d == 0
    let s = v[6];
    assert(linear_identity(v, 4) == s.add(a).add(b).add(c).add(d));
    F::add_assoc(s, a, b);
    F::add_assoc(s, a.add(b), c);
    F::add_assoc(s, a.add(b).add(c), d);
    F::add_self(s);
}

/// The columns of honest permutations meet the unified identity wherever the
/// mask does not vanish.
proof fn lemma_cell_identity<F: TowerField>(
    params: PermParams<F>,
    inputs: Seq<Seq<F>>,
    rho: Seq<F>,
    y: int,
    beta: F,
    gamma: F,
)
    requires
        rho.len() >= 9,
        0 <= y < pow2(rho.len()),
        slot_of(dec(y)) < inputs.len(),
        round_of(dec(y)) < N_ROUNDS,
    ensures
        ({
            let cells = pow2(rho.len());
            let t = unified_tables(
                params,
                inputs.len() as int,
                rho,
                sin_column(params, inputs, cells),
                sout_column(params, inputs, cells),
                state_column(params, inputs, cells),
            );
            unified_identity(values_at(t, y), beta, gamma) == F::zero()
        }),
{
    let cells = pow2(rho.len());
    let live = inputs.len() as int;
    let t = unified_tables(
        params,
        live,
        rho,
        sin_column(params, inputs, cells),
        sout_column(params, inputs, cells),
        state_column(params, inputs, cells),
    );
    let v = values_at(t, y);
    lemma_slots(rho.len());
    lemma_cell_of_parts(y);
    lemma_dec_inc(y);
    lemma_dec_bound(y, cells as int / 512);
    let x = dec(y);
    let slot = slot_of(x);
    let r = round_of(x);
    let lane = lane_of(x);
    let state = layer_state(params, inputs[slot], r as nat);
    lemma_cell_of_parts(x);
    assert(round_of(y) == r + 1);
    assert(slot_of(y) == slot && lane_of(y) == lane);
    assert(v[1] == sigma_at::<F>(r, lane));
    assert(v[3] == power_in(params, state, r)[lane]);
    assert(v[4] == power_out(params, state, r)[lane]);
    assert(v[5] == state[lane]);
    assert(v[2] == if is_active(r, lane) {
        params.rc(r, lane)
    } else {
        F::zero()
    });
    lemma_power_identity(params, state, r, lane);
    assert(v[6] == layer_state(params, inputs[slot], (r + 1) as nat)[lane]);
    assert forall|j: int| 0 <= j < 4 implies {
        &&& #[trigger] v[7 + j] == params.mds(r, lane, j)
        &&& v[11 + j] == sigma_at::<F>(r, j)
        &&& v[15 + j] == power_out(params, state, r)[j]
        &&& v[19 + j] == state[j]
    } by {
        let z = y - lane_of(y) + j;
        assert(z == cell(slot, r + 1, j));
        lemma_parts_of_cell(slot, r + 1, j);
        lemma_dec_inc(z);
        lemma_dec_bound(z, cells as int / 512);
        assert(v[7 + j] == mds_cell(params, j, live, y));
    }
    lemma_linear_identity(params, state, r, lane, v);
    lemma_units(beta);
    lemma_units(gamma);
    lemma_units(F::zero());
}

/// The unified sum of honest permutations is zero.
pub proof fn lemma_unified_total<F: TowerField>(
    params: PermParams<F>,
    inputs: Seq<Seq<F>>,
    rho: Seq<F>,
    beta: F,
    gamma: F,
)
    requires
        rho.len() >= 9,
    ensures
        ({
            let cells = pow2(rho.len());
            let t = unified_tables(
                params,
                inputs.len() as int,
                rho,
                sin_column(params, inputs, cells),
                sout_column(params, inputs, cells),
                state_column(params, inputs, cells),
            );
            total(t, unified_term(beta, gamma), rho.len()) == F::zero()
        }),
{
    let cells = pow2(rho.len());
    let t = unified_tables(
        params,
        inputs.len() as int,
        rho,
        sin_column(params, inputs, cells),
        sout_column(params, inputs, cells),
        state_column(params, inputs, cells),
    );
    let f = unified_term(beta, gamma);
    let g = |y: int| f(values_at(t, y));
    assert forall|y: int| 0 <= y < cells implies #[trigger] g(y) == F::zero() by {
        let v = values_at(t, y);
        let w = crate::mle::eq_at(rho, dec(y));
        if slot_of(dec(y)) < inputs.len() && round_of(dec(y)) < N_ROUNDS {
            lemma_cell_identity(params, inputs, rho, y, beta, gamma);
            lemma_units(v[0]);
        } else {
            assert(v[0] == w.mul(F::zero()));
            lemma_units(w);
            lemma_units(unified_identity(v, beta, gamma));
        }
    }
    lemma_sum_zero(cells, g);
}

} // verus!
