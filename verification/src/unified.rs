//! The unified sumcheck of a trace of permutations.
//!
//! One sumcheck over all the cells proves that every live slot of a trace is a
//! run of the permutation. With all the columns moved one round (so that cell
//! `y` sees the round before it), it sums
//! `U (C1 + beta C1' + gamma C2)`, where `U` weighs the live cells at a random
//! point, `C1` is the identity of the power layer, `C1'` that of the round
//! constants, and `C2` that of the linear layer.
use vstd::prelude::*;
use vstd::arithmetic::power2::pow2;
use crate::field::{BinaryField, TowerField, lemma_units};
use crate::layers::PermParams;
use crate::mle::{line, mle};
use crate::poly::{is_poly, lemma_poly_add, lemma_poly_const, lemma_poly_mul, lemma_poly_pow7, lemma_poly_widen, peval, slice_of};
use crate::round_poly::{RoundPolynomial, lemma_peval_zeros, line_poly, poly_add_assign, poly_mul, poly_scalar_mul, pow7, pow7_poly, zeros};
use crate::rounds::{Summand, views};
use crate::spine_degree7::sbox_identity;
use crate::sum::sum;
use crate::sumcheck::{entry_of, fold_tables, half_sum, lemma_column_poly, tables_wf, values_at};
use crate::table::copied;
use crate::trace::{dec_table, lane_table, mds_cell, rc_cell, sigma_cell, u_table};

verus! {

/// The number of columns of the unified sumcheck.
pub const UNIFIED_COLUMNS: usize = 23;

/// The summand of the unified sumcheck.
pub struct UnifiedTerm<F> {
    pub beta: F,
    pub gamma: F,
}

/// The lane `j` that enters the linear layer: the output of the power where the
/// lane is active, the state where it is not.
pub open spec fn mixed_lane<F: BinaryField>(v: Seq<F>, j: int) -> F {
    v[11 + j].mul(v[15 + j]).add(F::one().add(v[11 + j]).mul(v[19 + j]))
}

/// The identity of the linear layer, over the first `k` lanes.
pub open spec fn linear_identity<F: BinaryField>(v: Seq<F>, k: nat) -> F
    decreases k,
{
    if k == 0 {
        v[6]
    } else {
        linear_identity(v, (k - 1) as nat).add(v[6 + k as int].mul(mixed_lane(v, k - 1)))
    }
}

/// The identity of the round constants.
pub open spec fn constant_identity<F: BinaryField>(sigma: F, sin: F, state: F, rc: F) -> F {
    sigma.mul(sin.add(state).add(rc))
}

/// `C1 + beta C1' + gamma C2` over the values of the columns.
pub open spec fn unified_identity<F: BinaryField>(v: Seq<F>, beta: F, gamma: F) -> F {
    sbox_identity(v[1], v[3], v[4]).add(
        beta.mul(constant_identity(v[1], v[3], v[5], v[2])),
    ).add(gamma.mul(linear_identity(v, 4)))
}

/// The summand over the values of the columns.
pub open spec fn unified_term<F: BinaryField>(beta: F, gamma: F) -> spec_fn(Seq<F>) -> F {
    |v: Seq<F>| v[0].mul(unified_identity(v, beta, gamma))
}

/// The columns: `U`, the schedules and the three columns of the trace one round
/// earlier, the state, and for each lane the matrix coefficients, selectors,
/// outputs and states.
pub open spec fn unified_tables<F: TowerField>(
    params: PermParams<F>,
    live: int,
    rho: Seq<F>,
    s_in: Seq<F>,
    s_out: Seq<F>,
    state: Seq<F>,
) -> Seq<Seq<F>> {
    let cells = pow2(rho.len());
    let sigma_dec = dec_table(Seq::new(cells, |y: int| sigma_cell::<F>(live, y)));
    Seq::new(
        23,
        |c: int|
            if c == 0 {
                u_table(rho, live, cells)
            } else if c == 1 {
                sigma_dec
            } else if c == 2 {
                dec_table(Seq::new(cells, |y: int| rc_cell(params, live, y)))
            } else if c == 3 {
                dec_table(s_in)
            } else if c == 4 {
                dec_table(s_out)
            } else if c == 5 {
                dec_table(state)
            } else if c == 6 {
                state
            } else if c < 11 {
                Seq::new(cells, |y: int| mds_cell(params, c - 7, live, y))
            } else if c < 15 {
                lane_table(sigma_dec, c - 11)
            } else if c < 19 {
                lane_table(dec_table(s_out), c - 15)
            } else {
                lane_table(dec_table(state), c - 19)
            },
    )
}

/// The value of a folded column.
proof fn lemma_folded<F: BinaryField>(t: Seq<Seq<F>>, x: F, i: int, c: int, half: int)
    requires
        0 <= c < t.len(),
        t[c].len() / 2 == half,
        0 <= i < half,
    ensures
        values_at(fold_tables(t, x), i)[c] == line(t[c][i], t[c][i + half], x),
{
}

/// The line of one column at one index.
pub(crate) fn column_line<F: TowerField>(tables: &Vec<Vec<F>>, c: usize, half: usize, i: usize) -> (p: Vec<F>)
    requires
        c < tables.len(),
        tables[c as int].len() == 2 * half,
        i < half,
    ensures
        p.len() == 2,
        p[0] == tables[c as int][i as int],
        p[1] == tables[c as int][i as int].add(tables[c as int][i + half]),
        forall|x: F|
            #[trigger] peval(p@, x) == values_at(fold_tables(views(tables@), x), i as int)[c as int],
{
    let t = &tables[c];
    let p = line_poly(t[i], t[i + half]);
    proof {
        assert forall|x: F| #[trigger] peval(p@, x) == values_at(
            fold_tables(views(tables@), x),
            i as int,
        )[c as int] by {
            lemma_folded(views(tables@), x, i as int, c as int, half as int);
        }
    }
    p
}

/// The polynomial of the linear-layer identity at one index.
fn linear_poly<F: TowerField>(tables: &Vec<Vec<F>>, half: usize, i: usize) -> (p: Vec<F>)
    requires
        tables.len() == 23,
        forall|c: int| 0 <= c < 23 ==> #[trigger] tables[c].len() == 2 * half,
        i < half,
    ensures
        p.len() == 4,
        forall|x: F|
            #[trigger] peval(p@, x) == linear_identity(
                values_at(fold_tables(views(tables@), x), i as int),
                4,
            ),
{
    let mut q2 = zeros::<F>(4);
    let ghost zero = q2@;
    proof {
        assert(tables[6].len() == 2 * half);
    }
    let main = column_line(tables, 6, half, i);
    poly_add_assign(&mut q2, main.as_slice());
    proof {
        assert forall|x: F| #[trigger] peval(q2@, x) == linear_identity(
            values_at(fold_tables(views(tables@), x), i as int),
            0,
        ) by {
            lemma_peval_zeros::<F>(4, x);
            lemma_units(peval(main@, x));
        }
    }
    let mut j: usize = 0;
    while j < 4
        invariant
            j <= 4,
            tables.len() == 23,
            forall|c: int| 0 <= c < 23 ==> #[trigger] tables[c].len() == 2 * half,
            i < half,
            q2.len() == 4,
            forall|x: F|
                #[trigger] peval(q2@, x) == linear_identity(
                    values_at(fold_tables(views(tables@), x), i as int),
                    j as nat,
                ),
        decreases 4 - j,
    {
        proof {
            assert(tables[7 + j as int].len() == 2 * half);
            assert(tables[11 + j as int].len() == 2 * half);
            assert(tables[15 + j as int].len() == 2 * half);
            assert(tables[19 + j as int].len() == 2 * half);
        }
        let m = column_line(tables, 7 + j, half, i);
        let sg = column_line(tables, 11 + j, half, i);
        let so = column_line(tables, 15 + j, half, i);
        let st = column_line(tables, 19 + j, half, i);
        let mut one_plus = copied(sg.as_slice());
        let mut one: Vec<F> = Vec::new();
        one.push(F::one_value());
        poly_add_assign(&mut one_plus, one.as_slice());
        let mut pi = poly_mul(sg.as_slice(), so.as_slice());
        let other = poly_mul(one_plus.as_slice(), st.as_slice());
        let ghost first = pi@;
        poly_add_assign(&mut pi, other.as_slice());
        let m_pi = poly_mul(m.as_slice(), pi.as_slice());
        let ghost before = q2@;
        poly_add_assign(&mut q2, m_pi.as_slice());
        proof {
            assert forall|x: F| #[trigger] peval(q2@, x) == linear_identity(
                values_at(fold_tables(views(tables@), x), i as int),
                (j + 1) as nat,
            ) by {
                let v = values_at(fold_tables(views(tables@), x), i as int);
                assert(peval(one@, x) == F::one()) by {
                    reveal_with_fuel(peval, 2);
                    assert(one@.drop_first().len() == 0);
                    lemma_units(x);
                    lemma_units(F::one());
                }
                assert(peval(sg@, x) == v[11 + j]);
                assert(peval(one_plus@, x) == peval(sg@, x).add(F::one()));
                F::add_comm(v[11 + j], F::one());
                assert(peval(first, x) == v[11 + j].mul(v[15 + j]));
                assert(peval(other@, x) == F::one().add(v[11 + j]).mul(v[19 + j]));
                assert(peval(pi@, x) == mixed_lane(v, j as int));
                assert(peval(m_pi@, x) == v[7 + j].mul(mixed_lane(v, j as int)));
                assert(peval(before, x) == linear_identity(v, j as nat));
            }
        }
        j += 1;
    }
    q2
}

/// The polynomial of the power-layer identity at one index.
fn power_poly<F: TowerField>(tables: &Vec<Vec<F>>, half: usize, i: usize) -> (p: Vec<F>)
    requires
        tables.len() == 23,
        forall|c: int| 0 <= c < 23 ==> #[trigger] tables[c].len() == 2 * half,
        i < half,
    ensures
        p.len() == 9,
        forall|x: F|
            #[trigger] peval(p@, x) == ({
                let v = values_at(fold_tables(views(tables@), x), i as int);
                sbox_identity(v[1], v[3], v[4])
            }),
{
    proof {
        assert(tables[1].len() == 2 * half);
        assert(tables[3].len() == 2 * half);
        assert(tables[4].len() == 2 * half);
    }
    let sg = column_line(tables, 1, half, i);
    let si = column_line(tables, 3, half, i);
    let so = column_line(tables, 4, half, i);
    let si7 = pow7_poly(si[0], si[1]);
    let mut q = poly_mul(sg.as_slice(), si7.as_slice());
    let ghost q0 = q@;
    poly_add_assign(&mut q, so.as_slice());
    let ghost q1 = q@;
    poly_add_assign(&mut q, si.as_slice());
    let ghost q2 = q@;
    let sg_si = poly_mul(sg.as_slice(), si.as_slice());
    poly_add_assign(&mut q, sg_si.as_slice());
    proof {
        assert forall|x: F| #[trigger] peval(q@, x) == ({
            let v = values_at(fold_tables(views(tables@), x), i as int);
            sbox_identity(v[1], v[3], v[4])
        }) by {
            let v = values_at(fold_tables(views(tables@), x), i as int);
            lemma_folded(views(tables@), x, i as int, 3, half as int);
            assert(peval(si7@, x) == pow7(v[3]));
            assert(peval(sg@, x) == v[1]);
            assert(peval(si@, x) == v[3]);
            assert(peval(so@, x) == v[4]);
            assert(peval(q0, x) == v[1].mul(pow7(v[3])));
            assert(peval(q1, x) == peval(q0, x).add(v[4]));
            assert(peval(q2, x) == peval(q1, x).add(v[3]));
            assert(peval(sg_si@, x) == v[1].mul(v[3]));
        }
    }
    q
}

/// The polynomial of the constant identity at one index.
fn constant_poly<F: TowerField>(tables: &Vec<Vec<F>>, half: usize, i: usize) -> (p: Vec<F>)
    requires
        tables.len() == 23,
        forall|c: int| 0 <= c < 23 ==> #[trigger] tables[c].len() == 2 * half,
        i < half,
    ensures
        p.len() == 3,
        forall|x: F|
            #[trigger] peval(p@, x) == ({
                let v = values_at(fold_tables(views(tables@), x), i as int);
                constant_identity(v[1], v[3], v[5], v[2])
            }),
{
    proof {
        assert(tables[1].len() == 2 * half);
        assert(tables[2].len() == 2 * half);
        assert(tables[3].len() == 2 * half);
        assert(tables[5].len() == 2 * half);
    }
    let sg = column_line(tables, 1, half, i);
    let rc = column_line(tables, 2, half, i);
    let st = column_line(tables, 5, half, i);
    let mut inner = column_line(tables, 3, half, i);
    let ghost i0 = inner@;
    poly_add_assign(&mut inner, st.as_slice());
    let ghost i1 = inner@;
    poly_add_assign(&mut inner, rc.as_slice());
    let p = poly_mul(sg.as_slice(), inner.as_slice());
    proof {
        assert forall|x: F| #[trigger] peval(p@, x) == ({
            let v = values_at(fold_tables(views(tables@), x), i as int);
            constant_identity(v[1], v[3], v[5], v[2])
        }) by {
            let v = values_at(fold_tables(views(tables@), x), i as int);
            assert(peval(i0, x) == v[3]);
            assert(peval(st@, x) == v[5]);
            assert(peval(rc@, x) == v[2]);
            assert(peval(i1, x) == v[3].add(v[5]));
            assert(peval(inner@, x) == v[3].add(v[5]).add(v[2]));
            assert(peval(sg@, x) == v[1]);
        }
    }
    p
}

/// The polynomial of the summand at one index.
fn index_poly<F: TowerField>(
    tables: &Vec<Vec<F>>,
    beta: F,
    gamma: F,
    half: usize,
    i: usize,
) -> (p: Vec<F>)
    requires
        tables.len() == 23,
        forall|c: int| 0 <= c < 23 ==> #[trigger] tables[c].len() == 2 * half,
        i < half,
    ensures
        p.len() == 10,
        forall|x: F|
            #[trigger] peval(p@, x) == unified_term(beta, gamma)(
                values_at(fold_tables(views(tables@), x), i as int),
            ),
{
    let mut q = power_poly(tables, half, i);
    let ghost q0 = q@;
    let c1 = constant_poly(tables, half, i);
    let beta_c1 = poly_scalar_mul(c1.as_slice(), beta);
    poly_add_assign(&mut q, beta_c1.as_slice());
    let ghost q1 = q@;
    let c2 = linear_poly(tables, half, i);
    let gamma_c2 = poly_scalar_mul(c2.as_slice(), gamma);
    poly_add_assign(&mut q, gamma_c2.as_slice());
    proof {
        assert(tables[0].len() == 2 * half);
    }
    let u = column_line(tables, 0, half, i);
    let p = poly_mul(u.as_slice(), q.as_slice());
    proof {
        assert forall|x: F| #[trigger] peval(p@, x) == unified_term(beta, gamma)(
            values_at(fold_tables(views(tables@), x), i as int),
        ) by {
            let v = values_at(fold_tables(views(tables@), x), i as int);
            assert(peval(q0, x) == sbox_identity(v[1], v[3], v[4]));
            assert(peval(c1@, x) == constant_identity(v[1], v[3], v[5], v[2]));
            assert(peval(beta_c1@, x) == beta.mul(peval(c1@, x)));
            assert(peval(q1, x) == peval(q0, x).add(peval(beta_c1@, x)));
            assert(peval(c2@, x) == linear_identity(v, 4));
            assert(peval(gamma_c2@, x) == gamma.mul(peval(c2@, x)));
            assert(peval(q@, x) == peval(q1, x).add(peval(gamma_c2@, x)));
            assert(peval(u@, x) == v[0]);
        }
    }
    p
}

/// The round polynomial of the unified sumcheck, coefficient by coefficient.
pub fn compute_round_polynomial_flat<F: TowerField>(
    tables: &Vec<Vec<F>>,
    beta: F,
    gamma: F,
) -> (r: RoundPolynomial<F>)
    requires
        tables.len() == 23,
        exists|n: nat| n > 0 && #[trigger] tables_wf(views(tables@), n),
    ensures
        r.coeffs.len() == 10,
        forall|x: F|
            #[trigger] peval(r.coeffs@, x) == half_sum(
                views(tables@),
                unified_term(beta, gamma),
                x,
            ),
{
    let half: usize = tables[0].len() / 2;
    let ghost t = views(tables@);
    let ghost f = unified_term(beta, gamma);
    proof {
        let n = choose|n: nat| n > 0 && #[trigger] tables_wf(t, n);
        crate::mle::lemma_half_pow2(n);
        assert forall|c: int| 0 <= c < 23 implies #[trigger] tables[c].len() == 2 * half by {
            assert(t[c].len() == pow2(n));
            assert(t[0].len() == pow2(n));
        }
    }
    let mut acc = zeros::<F>(10);
    proof {
        assert forall|x: F| #[trigger] peval(acc@, x) == sum(
            0,
            |i: int| f(values_at(fold_tables(t, x), i)),
        ) by {
            lemma_peval_zeros::<F>(10, x);
        }
    }
    let mut i: usize = 0;
    while i < half
        invariant
            i <= half,
            tables.len() == 23,
            t == views(tables@),
            f == unified_term(beta, gamma),
            forall|c: int| 0 <= c < 23 ==> #[trigger] tables[c].len() == 2 * half,
            acc.len() == 10,
            forall|x: F|
                #[trigger] peval(acc@, x) == sum(
                    i as nat,
                    |i: int| f(values_at(fold_tables(t, x), i)),
                ),
        decreases half - i,
    {
        let p = index_poly(tables, beta, gamma, half, i);
        let ghost before = acc@;
        poly_add_assign(&mut acc, p.as_slice());
        proof {
            assert forall|x: F| #[trigger] peval(acc@, x) == sum(
                (i + 1) as nat,
                |i: int| f(values_at(fold_tables(t, x), i)),
            ) by {
                assert(peval(before, x) == sum(
                    i as nat,
                    |i: int| f(values_at(fold_tables(t, x), i)),
                ));
                assert(peval(p@, x) == f(values_at(fold_tables(t, x), i as int)));
            }
        }
        i += 1;
    }
    proof {
        assert(tables[0].len() == 2 * half);
        assert forall|x: F| #[trigger] peval(acc@, x) == half_sum(t, f, x) by {
            assert(t[0].len() / 2 == half);
        }
    }
    RoundPolynomial::from_coeffs(acc)
}

/// The linear-layer identity has degree three in the folded variable.
proof fn lemma_linear_poly<F: TowerField>(t: Seq<Seq<F>>, n: nat, i: int, k: nat, g: spec_fn(F) -> F)
    requires
        n > 0,
        t.len() == 23,
        tables_wf(t, n),
        0 <= i < pow2((n - 1) as nat),
        k <= 4,
        forall|x: F| #[trigger] g(x) == linear_identity(values_at(fold_tables(t, x), i), k),
    ensures
        is_poly(g, 4),
    decreases k,
{
    if k == 0 {
        lemma_column_poly(t, n, 6, i, g);
        lemma_poly_widen(g, 2, 4);
    } else {
        let j = k - 1;
        let prev = |x: F| linear_identity(values_at(fold_tables(t, x), i), (k - 1) as nat);
        lemma_linear_poly(t, n, i, (k - 1) as nat, prev);
        let m = |x: F| values_at(fold_tables(t, x), i)[7 + j];
        let sg = |x: F| values_at(fold_tables(t, x), i)[11 + j];
        let so = |x: F| values_at(fold_tables(t, x), i)[15 + j];
        let st = |x: F| values_at(fold_tables(t, x), i)[19 + j];
        lemma_column_poly(t, n, 7 + j, i, m);
        lemma_column_poly(t, n, 11 + j, i, sg);
        lemma_column_poly(t, n, 15 + j, i, so);
        lemma_column_poly(t, n, 19 + j, i, st);
        let one = |x: F| F::one();
        lemma_poly_const(F::one(), one);
        lemma_poly_widen(one, 1, 2);
        let osg = |x: F| one(x).add(sg(x));
        lemma_poly_add(one, sg, osg, 2);
        let a = |x: F| sg(x).mul(so(x));
        lemma_poly_mul(sg, 2, so, 2, a);
        let b = |x: F| osg(x).mul(st(x));
        lemma_poly_mul(osg, 2, st, 2, b);
        let pi = |x: F| a(x).add(b(x));
        lemma_poly_add(a, b, pi, 3);
        let mp = |x: F| m(x).mul(pi(x));
        lemma_poly_mul(m, 2, pi, 3, mp);
        lemma_poly_add(prev, mp, g, 4);
    }
}

/// The summand has degree nine in the folded variable.
proof fn lemma_unified_term_poly<F: TowerField>(
    t: Seq<Seq<F>>,
    n: nat,
    i: int,
    beta: F,
    gamma: F,
)
    requires
        n > 0,
        t.len() == 23,
        tables_wf(t, n),
        0 <= i < pow2((n - 1) as nat),
    ensures
        is_poly(slice_of(entry_of(t, unified_term(beta, gamma)), i), 10),
{
    let u = |x: F| values_at(fold_tables(t, x), i)[0];
    let sg = |x: F| values_at(fold_tables(t, x), i)[1];
    let rc = |x: F| values_at(fold_tables(t, x), i)[2];
    let si = |x: F| values_at(fold_tables(t, x), i)[3];
    let so = |x: F| values_at(fold_tables(t, x), i)[4];
    let st = |x: F| values_at(fold_tables(t, x), i)[5];
    lemma_column_poly(t, n, 0, i, u);
    lemma_column_poly(t, n, 1, i, sg);
    lemma_column_poly(t, n, 2, i, rc);
    lemma_column_poly(t, n, 3, i, si);
    lemma_column_poly(t, n, 4, i, so);
    lemma_column_poly(t, n, 5, i, st);
    // C1'
    let s1 = |x: F| si(x).add(st(x));
    lemma_poly_add(si, st, s1, 2);
    let s2 = |x: F| s1(x).add(rc(x));
    lemma_poly_add(s1, rc, s2, 2);
    let cp = |x: F| sg(x).mul(s2(x));
    lemma_poly_mul(sg, 2, s2, 2, cp);
    let bk = |x: F| beta;
    lemma_poly_const(beta, bk);
    let bcp = |x: F| bk(x).mul(cp(x));
    lemma_poly_mul(bk, 1, cp, 3, bcp);
    lemma_poly_widen(bcp, 3, 9);
    // C2
    let c2 = |x: F| linear_identity(values_at(fold_tables(t, x), i), 4);
    lemma_linear_poly(t, n, i, 4, c2);
    let gk = |x: F| gamma;
    lemma_poly_const(gamma, gk);
    let gc2 = |x: F| gk(x).mul(c2(x));
    lemma_poly_mul(gk, 1, c2, 4, gc2);
    lemma_poly_widen(gc2, 4, 9);
    // C1
    let si7 = |x: F| pow7(si(x));
    lemma_poly_pow7(si, si7);
    let a = |x: F| sg(x).mul(si7(x));
    lemma_poly_mul(sg, 2, si7, 8, a);
    let d = |x: F| sg(x).mul(si(x));
    lemma_poly_mul(sg, 2, si, 2, d);
    lemma_poly_widen(d, 3, 9);
    lemma_poly_widen(so, 2, 9);
    lemma_poly_widen(si, 2, 9);
    let b = |x: F| a(x).add(so(x));
    lemma_poly_add(a, so, b, 9);
    let c = |x: F| b(x).add(si(x));
    lemma_poly_add(b, si, c, 9);
    let q0 = |x: F| c(x).add(d(x));
    lemma_poly_add(c, d, q0, 9);
    let q1 = |x: F| q0(x).add(bcp(x));
    lemma_poly_add(q0, bcp, q1, 9);
    let q = |x: F| q1(x).add(gc2(x));
    lemma_poly_add(q1, gc2, q, 9);
    lemma_poly_mul(u, 2, q, 9, slice_of(entry_of(t, unified_term(beta, gamma)), i));
}

impl<F: TowerField> Summand<F> for UnifiedTerm<F> {
    open spec fn columns(&self) -> nat {
        23
    }

    open spec fn width(&self) -> nat {
        10
    }

    open spec fn term(&self) -> spec_fn(Seq<F>) -> F {
        unified_term(self.beta, self.gamma)
    }

    proof fn sizes(&self) {
    }

    proof fn term_poly(&self, t: Seq<Seq<F>>, n: nat, i: int) {
        lemma_unified_term_poly(t, n, i, self.beta, self.gamma);
    }

    fn round_poly(&self, tables: &Vec<Vec<F>>) -> (p: RoundPolynomial<F>) {
        compute_round_polynomial_flat(tables, self.beta, self.gamma)
    }
}

} // verus!
