//! The sumcheck of a trace of permutations over its state column alone.
//!
//! A cell of the state is a linear combination of the lanes one round earlier,
//! each raised to the seventh power where it is active. Summed with the weights
//! of the live cells at a random point, this has degree ten in each variable.
use vstd::prelude::*;
use vstd::arithmetic::power2::pow2;
use crate::compressed_rounds::{CompressedRoundPolynomial, compressed_check_run, compressed_misled, compressed_run, lemma_compressed_complete, lemma_compressed_sound, prove_compressed_rounds, verify_compressed_rounds, wire_messages};
use crate::field::{BinaryField, TowerField, lemma_units};
use crate::layers::{N_ROUNDS, PermParams, is_active, layer_state, mds_apply, power_out};
use crate::mle::{eq_at, evaluate_slice, mle};
use crate::poly::{is_poly, lemma_poly_add, lemma_poly_const, lemma_poly_mul, lemma_poly_pow7, lemma_poly_widen, peval, slice_of};
use crate::round_poly::{RoundPolynomial, lemma_peval_zeros, poly_add_assign, poly_mul, pow7, pow7_poly, pow7_value, zeros};
use crate::rounds::{Summand, views};
use crate::sum::{lemma_sum_ext, lemma_sum_zero, sum};
use crate::sumcheck::{ProverRun, VerifierRun, entry_of, fold_tables, half_sum, lemma_column_poly, tables_wf, total, values_at};
use crate::table::copied;
use crate::trace::{build_u_table, cell, dec, dec_table, lane_of, lane_table, lemma_cell_of_parts, lemma_dec_bound, lemma_dec_inc, lemma_parts_of_cell, lemma_slots, mds_cell, mds_lane_table, permute_by_dec, project_lane, rc_cell, rc_table, round_of, sigma_at, sigma_cell, sigma_table, slot_of, u_table};
use crate::trace_mle::state_column;
use crate::transcript::{FiatShamir, absorb_all, absorb_slice, challenges, lemma_challenges_len, squeeze_many, squeezed_by};
use crate::unified::column_line;
use crate::wiping::wipe_elements;

verus! {

/// The number of columns of the state sumcheck.
pub const STATE_COLUMNS: usize = 18;

/// The degree of a round of the state sumcheck.
pub const OWNER_AUTH_STATE_ROUND_DEGREE: usize = 10;

/// The messages of the state sumcheck, and the claims that it leaves.
#[derive(Clone, Debug, PartialEq, Eq)]
pub struct OwnerAuthUnifiedProof<F> {
    pub round_polys: Vec<CompressedRoundPolynomial<F>>,
    pub state_at_r: F,
    pub state_lane_dec_at_r: [F; 4],
}

/// The claims that the state sumcheck leaves, and their point.
#[derive(Clone, Debug, PartialEq, Eq)]
pub struct OwnerAuthUnifiedReduction<F> {
    pub r_prime: Vec<F>,
    pub state_at_r: F,
    pub state_lane_dec_at_r: [F; 4],
}

/// The summand of the state sumcheck.
pub struct StateTerm;

/// The lane `j` that enters the linear layer.
pub open spec fn powered_lane<F: BinaryField>(v: Seq<F>, j: int) -> F {
    v[6 + j].mul(pow7(v[14 + j].add(v[10 + j]))).add(F::one().add(v[6 + j]).mul(v[14 + j]))
}

/// The state plus the first `k` lanes, by the coefficients of the linear layer.
pub open spec fn state_identity<F: BinaryField>(v: Seq<F>, k: nat) -> F
    decreases k,
{
    if k == 0 {
        v[1]
    } else {
        state_identity(v, (k - 1) as nat).add(v[1 + k as int].mul(powered_lane(v, k - 1)))
    }
}

/// The summand over the values of the columns.
pub open spec fn state_term<F: BinaryField>() -> spec_fn(Seq<F>) -> F {
    |v: Seq<F>| v[0].mul(state_identity(v, 4))
}

/// The columns: the weights, the state, and for each lane the matrix
/// coefficients, and the selectors, constants and states one round earlier.
pub open spec fn state_tables<F: TowerField>(
    params: PermParams<F>,
    live: int,
    rho: Seq<F>,
    state: Seq<F>,
) -> Seq<Seq<F>> {
    let cells = pow2(rho.len());
    let sigma_dec = dec_table(Seq::new(cells, |y: int| sigma_cell::<F>(live, y)));
    let rc_dec = dec_table(Seq::new(cells, |y: int| rc_cell(params, live, y)));
    Seq::new(
        18,
        |c: int|
            if c == 0 {
                u_table(rho, live, cells)
            } else if c == 1 {
                state
            } else if c < 6 {
                Seq::new(cells, |y: int| mds_cell(params, c - 2, live, y))
            } else if c < 10 {
                lane_table(sigma_dec, c - 6)
            } else if c < 14 {
                lane_table(rc_dec, c - 10)
            } else {
                lane_table(dec_table(state), c - 14)
            },
    )
}

/// The polynomial of a lane at one index.
fn lane_poly<F: TowerField>(tables: &Vec<Vec<F>>, half: usize, i: usize, j: usize) -> (p: Vec<F>)
    requires
        tables.len() == 18,
        forall|c: int| 0 <= c < 18 ==> #[trigger] tables[c].len() == 2 * half,
        i < half,
        j < 4,
    ensures
        p.len() == 9,
        forall|x: F|
            #[trigger] peval(p@, x) == powered_lane(
                values_at(fold_tables(views(tables@), x), i as int),
                j as int,
            ),
{
    proof {
        assert(tables[6 + j as int].len() == 2 * half);
        assert(tables[10 + j as int].len() == 2 * half);
        assert(tables[14 + j as int].len() == 2 * half);
    }
    let sg = column_line(tables, 6 + j, half, i);
    let rc = column_line(tables, 10 + j, half, i);
    let st = column_line(tables, 14 + j, half, i);
    let mut sum_line = copied(st.as_slice());
    poly_add_assign(&mut sum_line, rc.as_slice());
    let x7 = pow7_poly(sum_line[0], sum_line[1]);
    let mut one_plus = copied(sg.as_slice());
    let mut one: Vec<F> = Vec::new();
    one.push(F::one_value());
    poly_add_assign(&mut one_plus, one.as_slice());
    let mut p = poly_mul(sg.as_slice(), x7.as_slice());
    let other = poly_mul(one_plus.as_slice(), st.as_slice());
    let ghost first = p@;
    poly_add_assign(&mut p, other.as_slice());
    proof {
        assert forall|x: F| #[trigger] peval(p@, x) == powered_lane(
            values_at(fold_tables(views(tables@), x), i as int),
            j as int,
        ) by {
            let v = values_at(fold_tables(views(tables@), x), i as int);
            assert(peval(one@, x) == F::one()) by {
                reveal_with_fuel(peval, 2);
                assert(one@.drop_first().len() == 0);
                lemma_units(x);
                lemma_units(F::one());
            }
            assert(peval(sg@, x) == v[6 + j]);
            assert(peval(rc@, x) == v[10 + j]);
            assert(peval(st@, x) == v[14 + j]);
            assert(peval(sum_line@, x) == v[14 + j].add(v[10 + j]));
            assert(peval(sum_line@, x) == sum_line[0].add(x.mul(sum_line[1]))) by {
                reveal_with_fuel(peval, 3);
                assert(sum_line@.drop_first()[0] == sum_line@[1]);
                assert(sum_line@.drop_first().drop_first().len() == 0);
                lemma_units(x);
                lemma_units(sum_line[1]);
            }
            assert(peval(x7@, x) == pow7(v[14 + j].add(v[10 + j])));
            assert(peval(one_plus@, x) == peval(sg@, x).add(F::one()));
            F::add_comm(v[6 + j], F::one());
            assert(peval(first, x) == v[6 + j].mul(pow7(v[14 + j].add(v[10 + j]))));
            assert(peval(other@, x) == F::one().add(v[6 + j]).mul(v[14 + j]));
        }
    }
    p
}

/// The polynomial of the summand at one index.
fn state_index_poly<F: TowerField>(tables: &Vec<Vec<F>>, half: usize, i: usize) -> (p: Vec<F>)
    requires
        tables.len() == 18,
        forall|c: int| 0 <= c < 18 ==> #[trigger] tables[c].len() == 2 * half,
        i < half,
    ensures
        p.len() == 11,
        forall|x: F|
            #[trigger] peval(p@, x) == state_term::<F>()(
                values_at(fold_tables(views(tables@), x), i as int),
            ),
{
    let mut q = zeros::<F>(10);
    proof {
        assert(tables[1].len() == 2 * half);
    }
    let main = column_line(tables, 1, half, i);
    poly_add_assign(&mut q, main.as_slice());
    proof {
        assert forall|x: F| #[trigger] peval(q@, x) == state_identity(
            values_at(fold_tables(views(tables@), x), i as int),
            0,
        ) by {
            lemma_peval_zeros::<F>(10, x);
            lemma_units(peval(main@, x));
        }
    }
    let mut j: usize = 0;
    while j < 4
        invariant
            j <= 4,
            tables.len() == 18,
            forall|c: int| 0 <= c < 18 ==> #[trigger] tables[c].len() == 2 * half,
            i < half,
            q.len() == 10,
            forall|x: F|
                #[trigger] peval(q@, x) == state_identity(
                    values_at(fold_tables(views(tables@), x), i as int),
                    j as nat,
                ),
        decreases 4 - j,
    {
        proof {
            assert(tables[2 + j as int].len() == 2 * half);
        }
        let m = column_line(tables, 2 + j, half, i);
        let lane = lane_poly(tables, half, i, j);
        let m_lane = poly_mul(m.as_slice(), lane.as_slice());
        let ghost before = q@;
        poly_add_assign(&mut q, m_lane.as_slice());
        proof {
            assert forall|x: F| #[trigger] peval(q@, x) == state_identity(
                values_at(fold_tables(views(tables@), x), i as int),
                (j + 1) as nat,
            ) by {
                let v = values_at(fold_tables(views(tables@), x), i as int);
                assert(peval(m@, x) == v[2 + j]);
                assert(peval(lane@, x) == powered_lane(v, j as int));
                assert(peval(m_lane@, x) == v[2 + j].mul(powered_lane(v, j as int)));
                assert(peval(before, x) == state_identity(v, j as nat));
            }
        }
        j += 1;
    }
    proof {
        assert(tables[0].len() == 2 * half);
    }
    let u = column_line(tables, 0, half, i);
    let p = poly_mul(u.as_slice(), q.as_slice());
    proof {
        assert forall|x: F| #[trigger] peval(p@, x) == state_term::<F>()(
            values_at(fold_tables(views(tables@), x), i as int),
        ) by {
            let v = values_at(fold_tables(views(tables@), x), i as int);
            assert(peval(u@, x) == v[0]);
            assert(peval(q@, x) == state_identity(v, 4));
        }
    }
    p
}

/// The round polynomial of the state sumcheck, coefficient by coefficient.
pub fn compute_state_round_polynomial<F: TowerField>(tables: &Vec<Vec<F>>) -> (r: RoundPolynomial<
    F,
>)
    requires
        tables.len() == 18,
        exists|n: nat| n > 0 && #[trigger] tables_wf(views(tables@), n),
    ensures
        r.coeffs.len() == 11,
        forall|x: F|
            #[trigger] peval(r.coeffs@, x) == half_sum(views(tables@), state_term(), x),
{
    let half: usize = tables[0].len() / 2;
    let ghost t = views(tables@);
    let ghost f = state_term::<F>();
    proof {
        let n = choose|n: nat| n > 0 && #[trigger] tables_wf(t, n);
        crate::mle::lemma_half_pow2(n);
        assert forall|c: int| 0 <= c < 18 implies #[trigger] tables[c].len() == 2 * half by {
            assert(t[c].len() == pow2(n));
            assert(t[0].len() == pow2(n));
        }
    }
    let mut acc = zeros::<F>(11);
    proof {
        assert forall|x: F| #[trigger] peval(acc@, x) == sum(
            0,
            |i: int| f(values_at(fold_tables(t, x), i)),
        ) by {
            lemma_peval_zeros::<F>(11, x);
        }
    }
    let mut i: usize = 0;
    while i < half
        invariant
            i <= half,
            tables.len() == 18,
            t == views(tables@),
            f == state_term::<F>(),
            forall|c: int| 0 <= c < 18 ==> #[trigger] tables[c].len() == 2 * half,
            acc.len() == 11,
            forall|x: F|
                #[trigger] peval(acc@, x) == sum(
                    i as nat,
                    |i: int| f(values_at(fold_tables(t, x), i)),
                ),
        decreases half - i,
    {
        let p = state_index_poly(tables, half, i);
        let ghost before = acc@;
        poly_add_assign(&mut acc, p.as_slice());
        proof {
            assert forall|x: F| #[trigger] peval(acc@, x) == sum(
                (i + 1) as nat,
                |i: int| f(values_at(fold_tables(t, x), i)),
            ) by {
                assert(peval(before, x) == sum(
                    i as nat,
                    |i: int| f(values_at(fold_tables(t, x), i)),
                ));
                assert(peval(p@, x) == f(values_at(fold_tables(t, x), i as int)));
            }
        }
        i += 1;
    }
    proof {
        assert(tables[0].len() == 2 * half);
        assert forall|x: F| #[trigger] peval(acc@, x) == half_sum(t, f, x) by {
            assert(t[0].len() / 2 == half);
        }
    }
    RoundPolynomial::from_coeffs(acc)
}

/// The identity has degree nine in the folded variable.
proof fn lemma_identity_poly<F: TowerField>(
    t: Seq<Seq<F>>,
    n: nat,
    i: int,
    k: nat,
    g: spec_fn(F) -> F,
)
    requires
        n > 0,
        t.len() == 18,
        tables_wf(t, n),
        0 <= i < pow2((n - 1) as nat),
        k <= 4,
        forall|x: F| #[trigger] g(x) == state_identity(values_at(fold_tables(t, x), i), k),
    ensures
        is_poly(g, 10),
    decreases k,
{
    if k == 0 {
        lemma_column_poly(t, n, 1, i, g);
        lemma_poly_widen(g, 2, 10);
    } else {
        let j = k - 1;
        let prev = |x: F| state_identity(values_at(fold_tables(t, x), i), (k - 1) as nat);
        lemma_identity_poly(t, n, i, (k - 1) as nat, prev);
        let m = |x: F| values_at(fold_tables(t, x), i)[2 + j];
        let sg = |x: F| values_at(fold_tables(t, x), i)[6 + j];
        let rc = |x: F| values_at(fold_tables(t, x), i)[10 + j];
        let st = |x: F| values_at(fold_tables(t, x), i)[14 + j];
        lemma_column_poly(t, n, 2 + j, i, m);
        lemma_column_poly(t, n, 6 + j, i, sg);
        lemma_column_poly(t, n, 10 + j, i, rc);
        lemma_column_poly(t, n, 14 + j, i, st);
        let one = |x: F| F::one();
        lemma_poly_const(F::one(), one);
        lemma_poly_widen(one, 1, 2);
        let osg = |x: F| one(x).add(sg(x));
        lemma_poly_add(one, sg, osg, 2);
        let s = |x: F| st(x).add(rc(x));
        lemma_poly_add(st, rc, s, 2);
        let s7 = |x: F| pow7(s(x));
        lemma_poly_pow7(s, s7);
        let a = |x: F| sg(x).mul(s7(x));
        lemma_poly_mul(sg, 2, s7, 8, a);
        let b = |x: F| osg(x).mul(st(x));
        lemma_poly_mul(osg, 2, st, 2, b);
        lemma_poly_widen(b, 3, 9);
        let pi = |x: F| a(x).add(b(x));
        lemma_poly_add(a, b, pi, 9);
        let mp = |x: F| m(x).mul(pi(x));
        lemma_poly_mul(m, 2, pi, 9, mp);
        lemma_poly_add(prev, mp, g, 10);
    }
}

impl<F: TowerField> Summand<F> for StateTerm {
    open spec fn columns(&self) -> nat {
        18
    }

    open spec fn width(&self) -> nat {
        11
    }

    open spec fn term(&self) -> spec_fn(Seq<F>) -> F {
        state_term()
    }

    proof fn sizes(&self) {
    }

    proof fn term_poly(&self, t: Seq<Seq<F>>, n: nat, i: int) {
        let u = |x: F| values_at(fold_tables(t, x), i)[0];
        lemma_column_poly(t, n, 0, i, u);
        let q = |x: F| state_identity(values_at(fold_tables(t, x), i), 4);
        lemma_identity_poly(t, n, i, 4, q);
        lemma_poly_mul(u, 2, q, 10, slice_of(entry_of(t, state_term::<F>()), i));
    }

    fn round_poly(&self, tables: &Vec<Vec<F>>) -> (p: RoundPolynomial<F>) {
        compute_state_round_polynomial(tables)
    }
}

/// The lane of an honest round is the output of its power layer.
proof fn lemma_powered_lane<F: TowerField>(
    params: PermParams<F>,
    state: Seq<F>,
    round: int,
    v: Seq<F>,
    j: int,
)
    requires
        0 <= j < 4,
        0 <= round < N_ROUNDS,
        v[6 + j] == sigma_at::<F>(round, j),
        v[10 + j] == if is_active(round, j) {
            params.rc(round, j)
        } else {
            F::zero()
        },
        v[14 + j] == state[j],
    ensures
        powered_lane(v, j) == power_out(params, state, round)[j],
{
    let p = pow7(v[14 + j].add(v[10 + j]));
    lemma_units(p);
    lemma_units(state[j]);
    F::add_self(F::one());
    lemma_units(F::one());
}

/// The identity holds after an honest round.
proof fn lemma_state_identity<F: TowerField>(
    params: PermParams<F>,
    state: Seq<F>,
    round: int,
    lane: int,
    v: Seq<F>,
)
    requires
        0 <= round < N_ROUNDS,
        0 <= lane < 4,
        v[1] == mds_apply(
            |i: int, j: int| params.mds(round, i, j),
            power_out(params, state, round),
        )[lane],
        forall|j: int|
            0 <= j < 4 ==> {
                &&& #[trigger] v[2 + j] == params.mds(round, lane, j)
                &&& v[6 + j] == sigma_at::<F>(round, j)
                &&& v[10 + j] == if is_active(round, j) {
                    params.rc(round, j)
                } else {
                    F::zero()
                }
                &&& v[14 + j] == state[j]
            },
    ensures
        state_identity(v, 4) == F::zero(),
{
    let o = power_out(params, state, round);
    assert(v[2 + 0int] == params.mds(round, lane, 0));
    assert(v[2 + 1int] == params.mds(round, lane, 1));
    assert(v[2 + 2int] == params.mds(round, lane, 2));
    assert(v[2 + 3int] == params.mds(round, lane, 3));
    lemma_powered_lane(params, state, round, v, 0);
    lemma_powered_lane(params, state, round, v, 1);
    lemma_powered_lane(params, state, round, v, 2);
    lemma_powered_lane(params, state, round, v, 3);
    let f = |j: int| params.mds(round, lane, j).mul(o[j]);
    let (a, b, c, d) = (f(0), f(1), f(2), f(3));
    reveal_with_fuel(sum, 5);
    reveal_with_fuel(state_identity, 5);
    lemma_units(a);
    assert(v[1] == a.add(b).add(c).add(d)) by {
        let m = |i: int, j: int| params.mds(round, i, j);
        lemma_sum_ext(4, |j: int| m(lane, j).mul(o[j]), f);
    }
    // ((((a + b + c + d) + a) + b) + c) + d == 0
    let s = v[1];
    assert(state_identity(v, 4) == s.add(a).add(b).add(c).add(d));
    F::add_assoc(s, a, b);
    F::add_assoc(s, a.add(b), c);
    F::add_assoc(s, a.add(b).add(c), d);
    F::add_self(s);
}

/// The state column of honest permutations meets the identity wherever the mask
/// does not vanish.
#[verifier::rlimit(60)]
#[verifier::spinoff_prover]
proof fn lemma_cell_holds<F: TowerField>(
    params: PermParams<F>,
    inputs: Seq<Seq<F>>,
    rho: Seq<F>,
    y: int,
)
    requires
        rho.len() >= 9,
        0 <= y < pow2(rho.len()),
        slot_of(dec(y)) < inputs.len(),
        round_of(dec(y)) < N_ROUNDS,
    ensures
        ({
            let cells = pow2(rho.len());
            let t = state_tables(
                params,
                inputs.len() as int,
                rho,
                state_column(params, inputs, cells),
            );
            state_identity(values_at(t, y), 4) == F::zero()
        }),
{
    let cells = pow2(rho.len());
    let live = inputs.len() as int;
    let t = state_tables(params, live, rho, state_column(params, inputs, cells));
    let v = values_at(t, y);
    lemma_slots(rho.len());
    lemma_cell_of_parts(y);
    lemma_dec_inc(y);
    lemma_dec_bound(y, cells as int / 512);
    let x = dec(y);
    let slot = slot_of(x);
    let r = round_of(x);
    let lane = lane_of(x);
    let state = layer_state(params, inputs[slot], r as nat);
    lemma_cell_of_parts(x);
    assert(round_of(y) == r + 1);
    assert(slot_of(y) == slot && lane_of(y) == lane);
    assert(v[1] == layer_state(params, inputs[slot], (r + 1) as nat)[lane]);
    assert forall|j: int| 0 <= j < 4 implies {
        &&& #[trigger] v[2 + j] == params.mds(r, lane, j)
        &&& v[6 + j] == sigma_at::<F>(r, j)
        &&& v[10 + j] == if is_active(r, j) {
            params.rc(r, j)
        } else {
            F::zero()
        }
        &&& v[14 + j] == state[j]
    } by {
        let z = y - lane_of(y) + j;
        assert(z == cell(slot, r + 1, j));
        lemma_parts_of_cell(slot, r + 1, j);
        lemma_dec_inc(z);
        lemma_dec_bound(z, cells as int / 512);
        assert(v[2 + j] == mds_cell(params, j, live, y));
    }
    lemma_state_identity(params, state, r, lane, v);
}

/// The sum of honest permutations is zero.
pub proof fn lemma_state_total<F: TowerField>(
    params: PermParams<F>,
    inputs: Seq<Seq<F>>,
    rho: Seq<F>,
)
    requires
        rho.len() >= 9,
    ensures
        ({
            let cells = pow2(rho.len());
            let t = state_tables(
                params,
                inputs.len() as int,
                rho,
                state_column(params, inputs, cells),
            );
            total(t, state_term(), rho.len()) == F::zero()
        }),
{
    let cells = pow2(rho.len());
    let t = state_tables(params, inputs.len() as int, rho, state_column(params, inputs, cells));
    let f = state_term::<F>();
    let g = |y: int| f(values_at(t, y));
    assert forall|y: int| 0 <= y < cells implies #[trigger] g(y) == F::zero() by {
        let v = values_at(t, y);
        let w = eq_at(rho, dec(y));
        if slot_of(dec(y)) < inputs.len() && round_of(dec(y)) < N_ROUNDS {
            lemma_cell_holds(params, inputs, rho, y);
            lemma_units(v[0]);
        } else {
            assert(v[0] == w.mul(F::zero()));
            lemma_units(w);
            lemma_units(state_identity(v, 4));
        }
    }
    lemma_sum_zero(cells, g);
}

/// The claims in the order in which the transcript absorbs them.
pub open spec fn state_claims_of<F>(proof: OwnerAuthUnifiedProof<F>) -> Seq<F> {
    seq![proof.state_at_r] + proof.state_lane_dec_at_r@
}

/// The random point of the weights.
pub open spec fn state_rho<F: TowerField, T: FiatShamir<F>>(n: nat, channel: T) -> Seq<F> {
    challenges(channel, n)
}

/// The prover's run.
pub open spec fn state_run<F: TowerField, T: FiatShamir<F>>(
    params: PermParams<F>,
    live: nat,
    n: nat,
    state: Seq<F>,
    channel: T,
) -> ProverRun<F, T> {
    compressed_run(
        state_tables(params, live as int, state_rho(n, channel), state),
        state_term(),
        11,
        n,
        squeezed_by(channel, n),
    )
}

/// The verifier's run.
pub open spec fn state_check_run<F: TowerField, T: FiatShamir<F>>(
    polys: Seq<CompressedRoundPolynomial<F>>,
    n: nat,
    channel: T,
) -> VerifierRun<F, T> {
    compressed_check_run(polys, F::zero(), squeezed_by(channel, n))
}

/// Every round has the degree of the state sumcheck.
pub open spec fn state_shape<F>(polys: Seq<CompressedRoundPolynomial<F>>, n: nat) -> bool {
    &&& polys.len() == n
    &&& forall|i: int|
        0 <= i < polys.len() ==> (#[trigger] polys[i]).coeffs_no_linear.len()
            == OWNER_AUTH_STATE_ROUND_DEGREE
}

/// The values of the columns at a point, with the claims in place of the
/// private ones.
pub open spec fn state_values<F: TowerField>(
    params: PermParams<F>,
    live: nat,
    rho: Seq<F>,
    proof: OwnerAuthUnifiedProof<F>,
    point: Seq<F>,
) -> Seq<F> {
    let t = state_tables(params, live as int, rho, Seq::empty());
    Seq::new(
        18,
        |c: int|
            if c == 1 {
                proof.state_at_r
            } else if c < 14 {
                mle(t[c], point)
            } else {
                proof.state_lane_dec_at_r[c - 14]
            },
    )
}

/// Whether the verifier accepts.
pub open spec fn state_accepts<F: TowerField, T: FiatShamir<F>>(
    params: PermParams<F>,
    live: nat,
    n: nat,
    proof: OwnerAuthUnifiedProof<F>,
    channel: T,
) -> bool {
    let run = state_check_run(proof.round_polys@, n, channel);
    &&& state_shape(proof.round_polys@, n)
    &&& run.claim == state_term::<F>()(
        state_values(params, live, state_rho(n, channel), proof, run.challenges.reverse()),
    )
}

/// The transcript after the verifier.
pub open spec fn state_after<F: TowerField, T: FiatShamir<F>>(
    params: PermParams<F>,
    live: nat,
    n: nat,
    proof: OwnerAuthUnifiedProof<F>,
    channel: T,
) -> T {
    let end = state_check_run(proof.round_polys@, n, channel).channel;
    if !state_shape(proof.round_polys@, n) {
        channel
    } else if state_accepts(params, live, n, proof, channel) {
        absorb_all(end, state_claims_of(proof))
    } else {
        end
    }
}

/// The claims are true of a state column.
pub open spec fn state_claims_hold<F: TowerField>(
    proof: OwnerAuthUnifiedProof<F>,
    state: Seq<F>,
    point: Seq<F>,
) -> bool {
    &&& proof.state_at_r == mle(state, point)
    &&& forall|j: int|
        0 <= j < 4 ==> #[trigger] proof.state_lane_dec_at_r[j] == mle(
            lane_table(dec_table(state), j),
            point,
        )
}

/// Pushes the four lanes of a table.
fn push_lanes<F: TowerField>(tables: &mut Vec<Vec<F>>, t: &Vec<F>)
    requires
        t.len() % 4 == 0,
    ensures
        views(final(tables)@) == views(old(tables)@) + seq![
            lane_table(t@, 0),
            lane_table(t@, 1),
            lane_table(t@, 2),
            lane_table(t@, 3),
        ],
{
    tables.push(project_lane(t.as_slice(), 0));
    tables.push(project_lane(t.as_slice(), 1));
    tables.push(project_lane(t.as_slice(), 2));
    tables.push(project_lane(t.as_slice(), 3));
    proof {
        assert(views(tables@) =~= views(old(tables)@) + seq![
            lane_table(t@, 0),
            lane_table(t@, 1),
            lane_table(t@, 2),
            lane_table(t@, 3),
        ]);
    }
}

/// Builds the columns of the state sumcheck.
pub fn build_state_tables<F: TowerField>(
    params: &PermParams<F>,
    state: &[F],
    rho: &[F],
    live: usize,
) -> (r: Vec<Vec<F>>)
    requires
        rho.len() >= 9,
        state.len() == pow2(rho.len() as nat),
    ensures
        r.len() == 18,
        views(r@) == state_tables(*params, live as int, rho@, state@),
{
    let cells: usize = state.len();
    proof {
        lemma_slots(rho.len() as nat);
    }
    let sigma_dec = permute_by_dec(sigma_table::<F>(cells, live).as_slice());
    let rc_dec = permute_by_dec(rc_table(params, cells, live).as_slice());
    let mut state_dec = permute_by_dec(state);
    let mut r: Vec<Vec<F>> = Vec::new();
    r.push(build_u_table(rho, live));
    r.push(copied(state));
    r.push(mds_lane_table(params, 0, cells, live));
    r.push(mds_lane_table(params, 1, cells, live));
    r.push(mds_lane_table(params, 2, cells, live));
    r.push(mds_lane_table(params, 3, cells, live));
    push_lanes(&mut r, &sigma_dec);
    push_lanes(&mut r, &rc_dec);
    push_lanes(&mut r, &state_dec);
    wipe_elements(&mut state_dec);
    proof {
        let t = state_tables(*params, live as int, rho@, state@);
        assert(views(r@).len() == 18);
        assert forall|c: int| 0 <= c < 18 implies views(r@)[c] == t[c] by {}
        assert(views(r@) =~= t);
    }
    r
}

/// The columns of the state sumcheck have one value a cell.
proof fn lemma_state_tables_wf<F: TowerField>(
    params: PermParams<F>,
    live: int,
    rho: Seq<F>,
    state: Seq<F>,
)
    requires
        state.len() == pow2(rho.len()),
    ensures
        tables_wf(state_tables(params, live, rho, state), rho.len()),
{
}

/// Absorbs the claims of a proof.
fn absorb_state_claims<F: TowerField, T: FiatShamir<F>>(
    channel: &mut T,
    proof: &OwnerAuthUnifiedProof<F>,
)
    ensures
        *final(channel) == absorb_all(*old(channel), state_claims_of(*proof)),
{
    let lanes = proof.state_lane_dec_at_r;
    let mut all: Vec<F> = Vec::new();
    all.push(proof.state_at_r);
    all.push(lanes[0]);
    all.push(lanes[1]);
    all.push(lanes[2]);
    all.push(lanes[3]);
    proof {
        assert(all@ =~= state_claims_of(*proof));
    }
    absorb_slice(channel, all.as_slice());
}

/// Runs the prover over a trace of `n` variables and `live` slots; returns the
/// proof and the final point.
pub fn prove_trace_state<F: TowerField, T: FiatShamir<F>>(
    params: &PermParams<F>,
    state: &[F],
    n: usize,
    live: usize,
    channel: &mut T,
) -> (out: (OwnerAuthUnifiedProof<F>, Vec<F>))
    requires
        n >= 9,
        state.len() == pow2(n as nat),
    ensures
        ({
            let run = state_run(*params, live as nat, n as nat, state@, *old(channel));
            &&& wire_messages(out.0.round_polys@) == run.messages
            &&& out.1@ == run.challenges.reverse()
            &&& *final(channel) == absorb_all(run.channel, state_claims_of(out.0))
        }),
        out.1.len() == n,
        state_claims_hold(out.0, state@, out.1@),
        state_shape(out.0.round_polys@, n as nat),
{
    proof {
        lemma_challenges_len(*channel, n as nat);
    }
    let rho = squeeze_many(channel, n);
    let tables = build_state_tables(params, state, rho.as_slice(), live);
    proof {
        lemma_state_tables_wf(*params, live as int, rho@, state@);
    }
    let ghost t = views(tables@);
    let rounds = prove_compressed_rounds(&StateTerm, tables, n, channel);
    let f = &rounds.finals;
    let proof_out = OwnerAuthUnifiedProof {
        round_polys: rounds.polys,
        state_at_r: f[1],
        state_lane_dec_at_r: [f[14], f[15], f[16], f[17]],
    };
    absorb_state_claims(channel, &proof_out);
    proof {
        let p = rounds.point@;
        assert(f[1] == mle(t[1], p));
        assert(f[14] == mle(t[14], p) && f[15] == mle(t[15], p) && f[16] == mle(t[16], p) && f[17]
            == mle(t[17], p));
        assert forall|j: int| 0 <= j < 4 implies #[trigger] proof_out.state_lane_dec_at_r[j] == mle(
            lane_table(dec_table(state@), j),
            p,
        ) by {
            assert(proof_out.state_lane_dec_at_r[j] == f[14 + j]);
            assert(t[14 + j] == lane_table(dec_table(state@), j));
        }
    }
    (proof_out, rounds.point)
}

/// Evaluates the public columns and puts the claims beside them.
fn gather_state_values<F: TowerField>(
    params: &PermParams<F>,
    live: usize,
    rho: &[F],
    proof: &OwnerAuthUnifiedProof<F>,
    point: &[F],
) -> (v: Vec<F>)
    requires
        rho.len() >= 9,
        point.len() == rho.len(),
        pow2(rho.len() as nat) <= usize::MAX,
    ensures
        v.len() == 18,
        v@ == state_values(*params, live as nat, rho@, *proof, point@),
{
    let ghost want = state_values(*params, live as nat, rho@, *proof, point@);
    let u = build_u_table(rho, live);
    let cells: usize = u.len();
    proof {
        lemma_slots(rho.len() as nat);
    }
    let sigma_dec = permute_by_dec(sigma_table::<F>(cells, live).as_slice());
    let rc_dec = permute_by_dec(rc_table(params, cells, live).as_slice());
    let mut v: Vec<F> = Vec::new();
    v.push(evaluate_slice(u.as_slice(), point));
    v.push(proof.state_at_r);
    let mut j: usize = 0;
    while j < 4
        invariant
            j <= 4,
            cells == pow2(rho.len() as nat),
            point.len() == rho.len(),
            want == state_values(*params, live as nat, rho@, *proof, point@),
            v.len() == 2 + j,
            forall|c: int| 0 <= c < 2 + j ==> #[trigger] v[c] == want[c],
        decreases 4 - j,
    {
        let t = mds_lane_table(params, j, cells, live);
        v.push(evaluate_slice(t.as_slice(), point));
        j += 1;
    }
    let mut k: usize = 0;
    while k < 4
        invariant
            k <= 4,
            cells == pow2(rho.len() as nat),
            cells % 4 == 0,
            point.len() == rho.len(),
            want == state_values(*params, live as nat, rho@, *proof, point@),
            sigma_dec@ == dec_table(
                Seq::new(cells as nat, |y: int| sigma_cell::<F>(live as int, y)),
            ),
            v.len() == 6 + k,
            forall|c: int| 0 <= c < 6 + k ==> #[trigger] v[c] == want[c],
        decreases 4 - k,
    {
        let t = project_lane(sigma_dec.as_slice(), k);
        v.push(evaluate_slice(t.as_slice(), point));
        k += 1;
    }
    let mut m: usize = 0;
    while m < 4
        invariant
            m <= 4,
            cells == pow2(rho.len() as nat),
            cells % 4 == 0,
            point.len() == rho.len(),
            want == state_values(*params, live as nat, rho@, *proof, point@),
            rc_dec@ == dec_table(Seq::new(cells as nat, |y: int| rc_cell(*params, live as int, y))),
            v.len() == 10 + m,
            forall|c: int| 0 <= c < 10 + m ==> #[trigger] v[c] == want[c],
        decreases 4 - m,
    {
        let t = project_lane(rc_dec.as_slice(), m);
        v.push(evaluate_slice(t.as_slice(), point));
        m += 1;
    }
    let lanes = proof.state_lane_dec_at_r;
    v.push(lanes[0]);
    v.push(lanes[1]);
    v.push(lanes[2]);
    v.push(lanes[3]);
    proof {
        assert(v@ =~= want);
    }
    v
}

/// Computes the summand.
fn state_term_value<F: TowerField>(v: &Vec<F>) -> (r: F)
    requires
        v.len() == 18,
    ensures
        r == state_term::<F>()(v@),
{
    let mut q = v[1];
    let mut j: usize = 0;
    while j < 4
        invariant
            j <= 4,
            v.len() == 18,
            q == state_identity(v@, j as nat),
        decreases 4 - j,
    {
        let st = v[14 + j];
        let sg = v[6 + j];
        let x7 = pow7_value(st.plus(v[10 + j]));
        let lane = sg.times(x7).plus(F::one_value().plus(sg).times(st));
        q = q.plus(v[2 + j].times(lane));
        j += 1;
    }
    v[0].times(q)
}

/// Checks the number of rounds and the degree of each.
fn check_state_shape<F: TowerField>(polys: &Vec<CompressedRoundPolynomial<F>>, n: usize) -> (r: bool)
    ensures
        r == state_shape(polys@, n as nat),
{
    if polys.len() != n {
        return false;
    }
    let mut i: usize = 0;
    while i < polys.len()
        invariant
            i <= polys.len(),
            forall|k: int|
                0 <= k < i ==> (#[trigger] polys[k]).coeffs_no_linear.len()
                    == OWNER_AUTH_STATE_ROUND_DEGREE,
        decreases polys.len() - i,
    {
        if polys[i].degree() != OWNER_AUTH_STATE_ROUND_DEGREE {
            proof {
                assert(polys@[i as int].coeffs_no_linear.len() != OWNER_AUTH_STATE_ROUND_DEGREE);
            }
            return false;
        }
        i += 1;
    }
    true
}

/// Runs the verifier over `n` variables and `live` slots; on success returns the
/// claims that are left.
pub fn verify_trace_state<F: TowerField, T: FiatShamir<F>>(
    params: &PermParams<F>,
    proof: &OwnerAuthUnifiedProof<F>,
    n: usize,
    live: usize,
    channel: &mut T,
) -> (out: Option<OwnerAuthUnifiedReduction<F>>)
    requires
        n >= 9,
        pow2(n as nat) <= usize::MAX,
    ensures
        out is Some <==> state_accepts(*params, live as nat, n as nat, *proof, *old(channel)),
        out matches Some(red) ==> {
            &&& red.r_prime@ == state_check_run(
                proof.round_polys@,
                n as nat,
                *old(channel),
            ).challenges.reverse()
            &&& red.r_prime.len() == n
            &&& red.state_at_r == proof.state_at_r
            &&& red.state_lane_dec_at_r == proof.state_lane_dec_at_r
        },
        *final(channel) == state_after(*params, live as nat, n as nat, *proof, *old(channel)),
{
    if !check_state_shape(&proof.round_polys, n) {
        return None;
    }
    proof {
        lemma_challenges_len(*channel, n as nat);
    }
    let rho = squeeze_many(channel, n);
    let (expected, r_prime) = verify_compressed_rounds(
        &proof.round_polys,
        F::zero_value(),
        channel,
    );
    let v = gather_state_values(params, live, rho.as_slice(), proof, r_prime.as_slice());
    let want = state_term_value(&v);
    if !expected.equals(want) {
        return None;
    }
    absorb_state_claims(channel, proof);
    Some(
        OwnerAuthUnifiedReduction {
            r_prime,
            state_at_r: proof.state_at_r,
            state_lane_dec_at_r: proof.state_lane_dec_at_r,
        },
    )
}

/// Completeness: the verifier accepts the honest proof of a trace of
/// permutations, at the prover's point and transcript.
pub proof fn lemma_state_complete<F: TowerField, T: FiatShamir<F>>(
    params: PermParams<F>,
    inputs: Seq<Seq<F>>,
    n: nat,
    proof: OwnerAuthUnifiedProof<F>,
    channel: T,
)
    requires
        n >= 9,
        state_shape(proof.round_polys@, n),
        ({
            let state = state_column(params, inputs, pow2(n));
            let run = state_run(params, inputs.len(), n, state, channel);
            &&& wire_messages(proof.round_polys@) == run.messages
            &&& state_claims_hold(proof, state, run.challenges.reverse())
        }),
    ensures
        state_accepts(params, inputs.len(), n, proof, channel),
        ({
            let state = state_column(params, inputs, pow2(n));
            let run = state_run(params, inputs.len(), n, state, channel);
            let check = state_check_run(proof.round_polys@, n, channel);
            check.challenges == run.challenges && check.channel == run.channel
                && run.challenges.len() == n
        }),
{
    let state = state_column(params, inputs, pow2(n));
    let rho = state_rho::<F, T>(n, channel);
    lemma_challenges_len::<F, T>(channel, n);
    let t = state_tables(params, inputs.len() as int, rho, state);
    lemma_state_tables_wf(params, inputs.len() as int, rho, state);
    lemma_state_total(params, inputs, rho);
    lemma_compressed_complete::<F, T, StateTerm>(
        StateTerm,
        t,
        proof.round_polys@,
        n,
        squeezed_by(channel, n),
    );
    let run = state_run(params, inputs.len(), n, state, channel);
    let point = run.challenges.reverse();
    lemma_state_values(params, inputs.len(), rho, proof, state, point);
}

/// True claims stand in for the values of the private columns.
proof fn lemma_state_values<F: TowerField>(
    params: PermParams<F>,
    live: nat,
    rho: Seq<F>,
    proof: OwnerAuthUnifiedProof<F>,
    state: Seq<F>,
    point: Seq<F>,
)
    requires
        state_claims_hold(proof, state, point),
    ensures
        ({
            let t = state_tables(params, live as int, rho, state);
            state_values(params, live, rho, proof, point) == Seq::new(
                t.len(),
                |c: int| mle(t[c], point),
            )
        }),
{
    let t = state_tables(params, live as int, rho, state);
    let values = state_values(params, live, rho, proof, point);
    let want = Seq::new(t.len(), |c: int| mle(t[c], point));
    assert(values =~= want) by {
        let public = state_tables(params, live as int, rho, Seq::empty());
        assert forall|c: int| 0 <= c < 18 implies values[c] == mle(t[c], point) by {
            if c != 1 && c < 14 {
                assert(public[c] == t[c]);
            } else if 14 <= c {
                assert(proof.state_lane_dec_at_r[c - 14] == mle(
                    lane_table(dec_table(state), c - 14),
                    point,
                ));
            }
        }
    }
}

/// Soundness: if a proof is accepted whose claims are true of a column, then the
/// identity of the column sums to zero, or a challenge misled the verifier in
/// some round.
pub proof fn lemma_state_sound<F: TowerField, T: FiatShamir<F>>(
    params: PermParams<F>,
    live: nat,
    n: nat,
    state: Seq<F>,
    proof: OwnerAuthUnifiedProof<F>,
    channel: T,
)
    requires
        state.len() == pow2(n),
        state_accepts(params, live, n, proof, channel),
        state_claims_hold(
            proof,
            state,
            state_check_run(proof.round_polys@, n, channel).challenges.reverse(),
        ),
    ensures
        ({
            let t = state_tables(params, live as int, state_rho(n, channel), state);
            ||| total(t, state_term(), n) == F::zero()
            ||| exists|j: nat|
                j < n && #[trigger] compressed_misled(
                    t,
                    state_term(),
                    proof.round_polys@,
                    F::zero(),
                    squeezed_by(channel, n),
                    j,
                )
        }),
{
    let rho = state_rho::<F, T>(n, channel);
    lemma_challenges_len::<F, T>(channel, n);
    let t = state_tables(params, live as int, rho, state);
    lemma_state_tables_wf(params, live as int, rho, state);
    let point = state_check_run(proof.round_polys@, n, channel).challenges.reverse();
    lemma_state_values(params, live, rho, proof, state, point);
    lemma_compressed_sound(
        t,
        state_term(),
        proof.round_polys@,
        F::zero(),
        squeezed_by(channel, n),
    );
}

} // verus!
