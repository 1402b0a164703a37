//! Matrices of four rows and columns.
use vstd::prelude::*;
use crate::field::{BinaryField, TowerField, lemma_add_mul, lemma_mul_eq_zero, lemma_units};
use crate::sum::{lemma_sum_add, lemma_sum_ext, lemma_sum_scale, lemma_sum_swap, sum};

verus! {

/// The product of a row and a column.
pub open spec fn dot<F: BinaryField>(row: Seq<F>, v: Seq<F>) -> F {
    sum(4, |j: int| row[j].mul(v[j]))
}

/// A column of a combination of the rows of a matrix.
pub open spec fn combined<F: BinaryField>(coeffs: Seq<F>, m: [[F; 4]; 4], j: int) -> F {
    sum(4, |k: int| coeffs[k].mul(m[k][j]))
}

/// One on the diagonal, zero elsewhere.
pub open spec fn unit_cell<F: BinaryField>(i: int, j: int) -> F {
    if i == j {
        F::one()
    } else {
        F::zero()
    }
}

/// `inv` times `m` is the identity.
pub open spec fn left_inverse<F: BinaryField>(inv: [[F; 4]; 4], m: [[F; 4]; 4]) -> bool {
    forall|i: int, j: int|
        0 <= i < 4 && 0 <= j < 4 ==> #[trigger] combined(inv[i]@, m, j) == unit_cell::<F>(i, j)
}

/// `m` sends the column to zero.
pub open spec fn kernel<F: BinaryField>(m: [[F; 4]; 4], v: Seq<F>) -> bool {
    forall|i: int| 0 <= i < 4 ==> #[trigger] dot(m[i]@, v) == F::zero()
}

/// `m` sends some column other than zero to zero.
pub open spec fn singular<F: BinaryField>(m: [[F; 4]; 4]) -> bool {
    exists|v: Seq<F>, k: int|
        v.len() == 4 && 0 <= k < 4 && #[trigger] v[k] != F::zero() && #[trigger] kernel(m, v)
}

/// A left inverse undoes the matrix.
pub proof fn lemma_left_inverse<F: BinaryField>(inv: [[F; 4]; 4], m: [[F; 4]; 4], v: Seq<F>, i: int)
    requires
        left_inverse(inv, m),
        0 <= i < 4,
    ensures
        sum(4, |k: int| inv[i][k].mul(dot(m[k]@, v))) == v[i],
{
    let row = inv[i]@;
    let cell = |k: int, j: int| row[k].mul(m[k][j]).mul(v[j]);
    let left = |k: int| inv[i][k].mul(dot(m[k]@, v));
    let by_row = |k: int| sum(4, |j: int| cell(k, j));
    assert forall|k: int| 0 <= k < 4 implies #[trigger] left(k) == by_row(k) by {
        let f = |j: int| m[k]@[j].mul(v[j]);
        lemma_sum_scale(4, row[k], f);
        let g = |j: int| row[k].mul(f(j));
        let h = |j: int| cell(k, j);
        assert forall|j: int| 0 <= j < 4 implies #[trigger] g(j) == h(j) by {
            F::mul_assoc(row[k], m[k][j], v[j]);
        }
        lemma_sum_ext(4, g, h);
    }
    lemma_sum_ext(4, left, by_row);
    lemma_sum_swap(4, 4, cell);
    let by_col = |j: int| sum(4, |k: int| cell(k, j));
    let want = |j: int| unit_cell::<F>(i, j).mul(v[j]);
    assert forall|j: int| 0 <= j < 4 implies #[trigger] by_col(j) == want(j) by {
        let f = |k: int| row[k].mul(m[k][j]);
        lemma_sum_scale(4, v[j], f);
        let g = |k: int| v[j].mul(f(k));
        let h = |k: int| cell(k, j);
        assert forall|k: int| 0 <= k < 4 implies #[trigger] g(k) == h(k) by {
            F::mul_comm(v[j], f(k));
        }
        lemma_sum_ext(4, g, h);
        assert(combined(row, m, j) == unit_cell::<F>(i, j));
        F::mul_comm(v[j], combined(row, m, j));
    }
    lemma_sum_ext(4, by_col, want);
    assert forall|j: int| 0 <= j < 4 && j != i implies #[trigger] want(j) == F::zero() by {
        lemma_units(v[j]);
    }
    crate::sum::lemma_sum_single(4, i, want);
    lemma_units(v[i]);
}

/// A matrix with a left inverse is not singular.
pub proof fn lemma_inverse_not_singular<F: BinaryField>(inv: [[F; 4]; 4], m: [[F; 4]; 4])
    requires
        left_inverse(inv, m),
    ensures
        !singular(m),
{
    if singular(m) {
        let (v, k) = choose|v: Seq<F>, k: int|
            v.len() == 4 && 0 <= k < 4 && #[trigger] v[k] != F::zero() && #[trigger] kernel(m, v);
        lemma_left_inverse(inv, m, v, k);
        let f = |j: int| inv[k][j].mul(dot(m[j]@, v));
        assert forall|j: int| 0 <= j < 4 implies #[trigger] f(j) == F::zero() by {
            lemma_units(inv[k][j]);
        }
        crate::sum::lemma_sum_zero(4, f);
    }
}

/// A row times a constant.
fn row_scaled<F: TowerField>(row: [F; 4], s: F) -> (r: [F; 4])
    ensures
        forall|j: int| 0 <= j < 4 ==> #[trigger] r[j] == s.mul(row[j]),
{
    [s.times(row[0]), s.times(row[1]), s.times(row[2]), s.times(row[3])]
}

/// A row plus a multiple of another.
fn row_plus<F: TowerField>(row: [F; 4], s: F, other: [F; 4]) -> (r: [F; 4])
    ensures
        forall|j: int| 0 <= j < 4 ==> #[trigger] r[j] == row[j].add(s.mul(other[j])),
{
    [
        row[0].plus(s.times(other[0])),
        row[1].plus(s.times(other[1])),
        row[2].plus(s.times(other[2])),
        row[3].plus(s.times(other[3])),
    ]
}

proof fn lemma_combined_scaled<F: BinaryField>(
    row: Seq<F>,
    s: F,
    scaled: Seq<F>,
    m: [[F; 4]; 4],
    j: int,
)
    requires
        forall|k: int| 0 <= k < 4 ==> #[trigger] scaled[k] == s.mul(row[k]),
    ensures
        combined(scaled, m, j) == s.mul(combined(row, m, j)),
{
    let f = |k: int| row[k].mul(m[k][j]);
    let g = |k: int| scaled[k].mul(m[k][j]);
    lemma_sum_scale(4, s, f);
    let h = |k: int| s.mul(f(k));
    assert forall|k: int| 0 <= k < 4 implies #[trigger] h(k) == g(k) by {
        assert(scaled[k] == s.mul(row[k]));
        F::mul_assoc(s, row[k], m[k][j]);
    }
    lemma_sum_ext(4, h, g);
}

proof fn lemma_combined_plus<F: BinaryField>(
    row: Seq<F>,
    s: F,
    other: Seq<F>,
    all: Seq<F>,
    m: [[F; 4]; 4],
    j: int,
)
    requires
        forall|k: int| 0 <= k < 4 ==> #[trigger] all[k] == row[k].add(s.mul(other[k])),
    ensures
        combined(all, m, j) == combined(row, m, j).add(s.mul(combined(other, m, j))),
{
    let f = |k: int| row[k].mul(m[k][j]);
    let g = |k: int| other[k].mul(m[k][j]);
    lemma_sum_scale(4, s, g);
    let sg = |k: int| s.mul(g(k));
    lemma_sum_add(4, f, sg);
    let both = |k: int| f(k).add(sg(k));
    let want = |k: int| all[k].mul(m[k][j]);
    assert forall|k: int| 0 <= k < 4 implies #[trigger] both(k) == want(k) by {
        assert(all[k] == row[k].add(s.mul(other[k])));
        lemma_add_mul(row[k], s.mul(other[k]), m[k][j]);
        F::mul_assoc(s, other[k], m[k][j]);
    }
    lemma_sum_ext(4, both, want);
}

proof fn lemma_dot_scaled<F: BinaryField>(row: Seq<F>, s: F, scaled: Seq<F>, v: Seq<F>)
    requires
        forall|k: int| 0 <= k < 4 ==> #[trigger] scaled[k] == s.mul(row[k]),
    ensures
        dot(scaled, v) == s.mul(dot(row, v)),
{
    let f = |k: int| row[k].mul(v[k]);
    let g = |k: int| scaled[k].mul(v[k]);
    lemma_sum_scale(4, s, f);
    let h = |k: int| s.mul(f(k));
    assert forall|k: int| 0 <= k < 4 implies #[trigger] h(k) == g(k) by {
        assert(scaled[k] == s.mul(row[k]));
        F::mul_assoc(s, row[k], v[k]);
    }
    lemma_sum_ext(4, h, g);
}

proof fn lemma_dot_plus<F: BinaryField>(row: Seq<F>, s: F, other: Seq<F>, all: Seq<F>, v: Seq<F>)
    requires
        forall|k: int| 0 <= k < 4 ==> #[trigger] all[k] == row[k].add(s.mul(other[k])),
    ensures
        dot(all, v) == dot(row, v).add(s.mul(dot(other, v))),
{
    let f = |k: int| row[k].mul(v[k]);
    let g = |k: int| other[k].mul(v[k]);
    lemma_sum_scale(4, s, g);
    let sg = |k: int| s.mul(g(k));
    lemma_sum_add(4, f, sg);
    let both = |k: int| f(k).add(sg(k));
    let want = |k: int| all[k].mul(v[k]);
    assert forall|k: int| 0 <= k < 4 implies #[trigger] both(k) == want(k) by {
        assert(all[k] == row[k].add(s.mul(other[k])));
        lemma_add_mul(row[k], s.mul(other[k]), v[k]);
        F::mul_assoc(s, other[k], v[k]);
    }
    lemma_sum_ext(4, both, want);
}

/// The state of an elimination: `a` is `b` times `m`, and has no kernel that
/// `m` has not.
spec fn eliminates<F: BinaryField>(a: [[F; 4]; 4], b: [[F; 4]; 4], m: [[F; 4]; 4]) -> bool {
    &&& forall|i: int, j: int|
        0 <= i < 4 && 0 <= j < 4 ==> #[trigger] a[i][j] == combined(b[i]@, m, j)
    &&& forall|v: Seq<F>| #[trigger] kernel(a, v) && v.len() == 4 ==> kernel(m, v)
}

/// The first `col` columns are those of the identity.
spec fn reduced<F: BinaryField>(a: [[F; 4]; 4], col: int) -> bool {
    forall|i: int, c: int|
        0 <= i < 4 && 0 <= c < col ==> #[trigger] a[i][c] == unit_cell::<F>(i, c)
}

proof fn lemma_start<F: BinaryField>(a: [[F; 4]; 4], b: [[F; 4]; 4], m: [[F; 4]; 4])
    requires
        a == m,
        forall|i: int, j: int| 0 <= i < 4 && 0 <= j < 4 ==> #[trigger] b[i][j] == unit_cell::<F>(i, j),
    ensures
        eliminates(a, b, m),
{
    assert forall|i: int, j: int| 0 <= i < 4 && 0 <= j < 4 implies #[trigger] a[i][j] == combined(
        b[i]@,
        m,
        j,
    ) by {
        let f = |k: int| b[i]@[k].mul(m[k][j]);
        assert forall|k: int| 0 <= k < 4 && k != i implies #[trigger] f(k) == F::zero() by {
            assert(b[i][k] == unit_cell::<F>(i, k));
            lemma_units(m[k][j]);
        }
        crate::sum::lemma_sum_single(4, i, f);
        assert(b[i][i] == unit_cell::<F>(i, i));
        lemma_units(m[i][j]);
    }
}

/// A column without a pivot gives a kernel.
proof fn lemma_no_pivot<F: BinaryField>(
    a: [[F; 4]; 4],
    b: [[F; 4]; 4],
    m: [[F; 4]; 4],
    col: int,
)
    requires
        0 <= col < 4,
        eliminates(a, b, m),
        reduced(a, col),
        forall|i: int| col <= i < 4 ==> #[trigger] a[i][col] == F::zero(),
    ensures
        singular(m),
{
    let x = Seq::new(
        4,
        |j: int|
            if j < col {
                a[j][col]
            } else {
                unit_cell::<F>(j, col)
            },
    );
    assert forall|i: int| 0 <= i < 4 implies #[trigger] dot(a[i]@, x) == F::zero() by {
        let row = a[i]@;
        let f = |j: int| row[j].mul(x[j]);
        assert forall|j: int| 0 <= j < 4 && j != col && j != i implies #[trigger] f(j)
            == F::zero() by {
            if j < col {
                assert(a[i][j] == unit_cell::<F>(i, j));
                lemma_units(x[j]);
            } else {
                lemma_units(row[j]);
            }
        }
        lemma_units(row[col]);
        assert(f(col) == a[i][col]);
        if i < col {
            assert(a[i][i] == unit_cell::<F>(i, i));
            lemma_units(a[i][col]);
            assert(f(i) == a[i][col]);
            lemma_sum_two(i, col, f);
            F::add_self(a[i][col]);
        } else {
            assert(a[i][col] == F::zero());
            if i > col {
                lemma_units(row[i]);
            }
            assert forall|j: int| 0 <= j < 4 implies #[trigger] f(j) == F::zero() by {}
            crate::sum::lemma_sum_zero(4, f);
        }
    }
    assert(kernel(a, x));
    assert(x[col] != F::zero()) by {
        F::one_not_zero();
    }
}

/// A sum of four of which two may be other than zero.
proof fn lemma_sum_two<F: BinaryField>(i: int, k: int, f: spec_fn(int) -> F)
    requires
        0 <= i < k < 4,
        forall|j: int| 0 <= j < 4 && j != i && j != k ==> #[trigger] f(j) == F::zero(),
    ensures
        sum(4, f) == f(i).add(f(k)),
{
    reveal_with_fuel(sum, 5);
    let (a, b, c, d) = (f(0), f(1), f(2), f(3));
    lemma_units(a);
    lemma_units(b);
    lemma_units(c);
    lemma_units(d);
    lemma_units(a.add(b));
    lemma_units(a.add(c));
    lemma_units(b.add(c));
    lemma_units(F::zero());
}

/// Computes a left inverse by elimination; there is none exactly when the matrix
/// is singular.
pub fn mds_full_inverse<F: TowerField>(m: &[[F; 4]; 4]) -> (r: Option<[[F; 4]; 4]>)
    ensures
        r is None <==> singular(*m),
        r matches Some(inv) ==> left_inverse(inv, *m),
{
    let (one, zero) = (F::one_value(), F::zero_value());
    let mut a: [[F; 4]; 4] = *m;
    let mut b: [[F; 4]; 4] = [
        [one, zero, zero, zero],
        [zero, one, zero, zero],
        [zero, zero, one, zero],
        [zero, zero, zero, one],
    ];
    proof {
        lemma_start(a, b, *m);
    }
    let mut col: usize = 0;
    while col < 4
        invariant
            col <= 4,
            zero == F::zero(),
            eliminates(a, b, *m),
            reduced(a, col as int),
        decreases 4 - col,
    {
        let mut pivot: usize = col;
        while pivot < 4 && a[pivot][col].equals(zero)
            invariant
                col <= pivot <= 4,
                col < 4,
                zero == F::zero(),
                forall|i: int| col <= i < pivot ==> #[trigger] a[i][col as int] == F::zero(),
            decreases 4 - pivot,
        {
            pivot += 1;
        }
        if pivot == 4 {
            proof {
                lemma_no_pivot(a, b, *m, col as int);
            }
            return None;
        }
        if pivot != col {
            let ghost (a0, b0) = (a, b);
            let (ra, rb) = (a[col], b[col]);
            let (pa, pb) = (a[pivot], b[pivot]);
            a[col] = pa;
            a[pivot] = ra;
            b[col] = pb;
            b[pivot] = rb;
            proof {
                lemma_swapped(a0, b0, a, b, *m, col as int, pivot as int);
            }
        }
        let inv = a[col][col].invert();
        let ghost (a1, b1) = (a, b);
        let ghost p = a[col as int][col as int];
        let (ra, rb) = (a[col], b[col]);
        a[col] = row_scaled(ra, inv);
        b[col] = row_scaled(rb, inv);
        proof {
            F::mul_inv(p);
            F::mul_comm(p, inv);
            lemma_scaled(a1, b1, a, b, *m, col as int, inv);
        }
        let mut row: usize = 0;
        while row < 4
            invariant
                row <= 4,
                col < 4,
                eliminates(a, b, *m),
                reduced(a, col as int),
                a[col as int][col as int] == F::one(),
                forall|i: int|
                    0 <= i < row && i != col ==> #[trigger] a[i][col as int] == F::zero(),
            decreases 4 - row,
        {
            if row != col {
                let factor = a[row][col];
                let ghost (a2, b2) = (a, b);
                let (ra, rb) = (a[row], b[row]);
                let (ca, cb) = (a[col], b[col]);
                a[row] = row_plus(ra, factor, ca);
                b[row] = row_plus(rb, factor, cb);
                proof {
                    lemma_added(a2, b2, a, b, *m, col as int, row as int, factor);
                }
            }
            row += 1;
        }
        proof {
            assert forall|i: int, c: int| 0 <= i < 4 && 0 <= c < col + 1 implies #[trigger] a[i][c]
                == unit_cell::<F>(i, c) by {}
        }
        col += 1;
    }
    proof {
        assert forall|i: int, j: int| 0 <= i < 4 && 0 <= j < 4 implies #[trigger] combined(
            b[i]@,
            *m,
            j,
        ) == unit_cell::<F>(i, j) by {
            assert(a[i][j] == unit_cell::<F>(i, j));
        }
        lemma_inverse_not_singular(b, *m);
    }
    Some(b)
}

proof fn lemma_swapped<F: BinaryField>(
    a: [[F; 4]; 4],
    b: [[F; 4]; 4],
    a1: [[F; 4]; 4],
    b1: [[F; 4]; 4],
    m: [[F; 4]; 4],
    col: int,
    pivot: int,
)
    requires
        0 <= col < pivot < 4,
        eliminates(a, b, m),
        reduced(a, col),
        a1@ == a@.update(col, a[pivot]).update(pivot, a[col]),
        b1@ == b@.update(col, b[pivot]).update(pivot, b[col]),
    ensures
        eliminates(a1, b1, m),
        reduced(a1, col),
{
    assert forall|i: int, j: int| 0 <= i < 4 && 0 <= j < 4 implies #[trigger] a1[i][j] == combined(
        b1[i]@,
        m,
        j,
    ) by {
        let s = if i == col {
            pivot
        } else if i == pivot {
            col
        } else {
            i
        };
        assert(a[s][j] == combined(b[s]@, m, j));
    }
    assert forall|v: Seq<F>| #[trigger] kernel(a1, v) && v.len() == 4 implies kernel(m, v) by {
        assert forall|i: int| 0 <= i < 4 implies #[trigger] dot(a[i]@, v) == F::zero() by {
            let s = if i == col {
                pivot
            } else if i == pivot {
                col
            } else {
                i
            };
            assert(dot(a1[s]@, v) == F::zero());
        }
        assert(kernel(a, v));
    }
    assert forall|i: int, c: int| 0 <= i < 4 && 0 <= c < col implies #[trigger] a1[i][c]
        == unit_cell::<F>(i, c) by {
        let s = if i == col {
            pivot
        } else if i == pivot {
            col
        } else {
            i
        };
        assert(a[s][c] == unit_cell::<F>(s, c));
    }
}

proof fn lemma_scaled<F: TowerField>(
    a: [[F; 4]; 4],
    b: [[F; 4]; 4],
    a1: [[F; 4]; 4],
    b1: [[F; 4]; 4],
    m: [[F; 4]; 4],
    col: int,
    s: F,
)
    requires
        0 <= col < 4,
        eliminates(a, b, m),
        reduced(a, col),
        s.mul(a[col][col]) == F::one(),
        a1@ == a@.update(col, a1[col]),
        b1@ == b@.update(col, b1[col]),
        forall|j: int| 0 <= j < 4 ==> #[trigger] a1[col][j] == s.mul(a[col][j]),
        forall|j: int| 0 <= j < 4 ==> #[trigger] b1[col][j] == s.mul(b[col][j]),
    ensures
        eliminates(a1, b1, m),
        reduced(a1, col),
        a1[col][col] == F::one(),
{
    assert forall|i: int, j: int| 0 <= i < 4 && 0 <= j < 4 implies #[trigger] a1[i][j] == combined(
        b1[i]@,
        m,
        j,
    ) by {
        assert(a[i][j] == combined(b[i]@, m, j));
        if i == col {
            assert forall|k: int| 0 <= k < 4 implies #[trigger] b1[col]@[k] == s.mul(
                b[col]@[k],
            ) by {
                assert(b1[col][k] == s.mul(b[col][k]));
            }
            lemma_combined_scaled(b[col]@, s, b1[col]@, m, j);
        }
    }
    assert forall|v: Seq<F>| #[trigger] kernel(a1, v) && v.len() == 4 implies kernel(m, v) by {
        assert forall|i: int| 0 <= i < 4 implies #[trigger] dot(a[i]@, v) == F::zero() by {
            assert(dot(a1[i]@, v) == F::zero());
            if i == col {
                assert forall|k: int| 0 <= k < 4 implies #[trigger] a1[col]@[k] == s.mul(
                    a[col]@[k],
                ) by {
                    assert(a1[col][k] == s.mul(a[col][k]));
                }
                lemma_dot_scaled(a[col]@, s, a1[col]@, v);
                lemma_mul_eq_zero(s, dot(a[col]@, v));
                lemma_units(a[col][col]);
                F::one_not_zero();
            }
        }
        assert(kernel(a, v));
    }
    assert forall|i: int, c: int| 0 <= i < 4 && 0 <= c < col implies #[trigger] a1[i][c]
        == unit_cell::<F>(i, c) by {
        assert(a[i][c] == unit_cell::<F>(i, c));
        lemma_units(s);
    }
}

proof fn lemma_added<F: TowerField>(
    a: [[F; 4]; 4],
    b: [[F; 4]; 4],
    a1: [[F; 4]; 4],
    b1: [[F; 4]; 4],
    m: [[F; 4]; 4],
    col: int,
    row: int,
    s: F,
)
    requires
        0 <= col < 4,
        0 <= row < 4,
        row != col,
        eliminates(a, b, m),
        reduced(a, col),
        a[col][col] == F::one(),
        s == a[row][col],
        a1@ == a@.update(row, a1[row]),
        b1@ == b@.update(row, b1[row]),
        forall|j: int| 0 <= j < 4 ==> #[trigger] a1[row][j] == a[row][j].add(s.mul(a[col][j])),
        forall|j: int| 0 <= j < 4 ==> #[trigger] b1[row][j] == b[row][j].add(s.mul(b[col][j])),
    ensures
        eliminates(a1, b1, m),
        reduced(a1, col),
        a1[row][col] == F::zero(),
{
    assert forall|i: int, j: int| 0 <= i < 4 && 0 <= j < 4 implies #[trigger] a1[i][j] == combined(
        b1[i]@,
        m,
        j,
    ) by {
        assert(a[i][j] == combined(b[i]@, m, j));
        if i == row {
            assert(a[col][j] == combined(b[col]@, m, j));
            assert forall|k: int| 0 <= k < 4 implies #[trigger] b1[row]@[k] == b[row]@[k].add(
                s.mul(b[col]@[k]),
            ) by {
                assert(b1[row][k] == b[row][k].add(s.mul(b[col][k])));
            }
            lemma_combined_plus(b[row]@, s, b[col]@, b1[row]@, m, j);
        }
    }
    assert forall|v: Seq<F>| #[trigger] kernel(a1, v) && v.len() == 4 implies kernel(m, v) by {
        assert forall|i: int| 0 <= i < 4 implies #[trigger] dot(a[i]@, v) == F::zero() by {
            assert(dot(a1[i]@, v) == F::zero());
            if i == row {
                assert(dot(a1[col]@, v) == F::zero());
                assert forall|k: int| 0 <= k < 4 implies #[trigger] a1[row]@[k] == a[row]@[k].add(
                    s.mul(a[col]@[k]),
                ) by {
                    assert(a1[row][k] == a[row][k].add(s.mul(a[col][k])));
                }
                lemma_dot_plus(a[row]@, s, a[col]@, a1[row]@, v);
                lemma_units(s);
                lemma_units(dot(a[row]@, v));
            }
        }
        assert(kernel(a, v));
    }
    lemma_units(s);
    F::add_self(s);
    assert forall|i: int, c: int| 0 <= i < 4 && 0 <= c < col implies #[trigger] a1[i][c]
        == unit_cell::<F>(i, c) by {
        assert(a[i][c] == unit_cell::<F>(i, c));
        if i == row {
            assert(a[col][c] == unit_cell::<F>(col, c));
            lemma_units(a[row][c]);
        }
    }
}

} // verus!
