//! The rounds of the permutation, and the witness that they leave.
//!
//! The permutation works on four lanes: an initial linear layer, then 66 rounds
//! of adding a round constant, taking the seventh power, and a linear layer.
//! The four first and the four last rounds are full; in the partial rounds
//! between them only lane 0 has a constant and a power.
use vstd::prelude::*;
use crate::field::{BinaryField, TowerField};
use crate::round_poly::{pow7, pow7_value};
use crate::sum::sum;

verus! {

/// The number of lanes.
pub const STATE_SIZE: usize = 4;

/// The number of rounds.
pub const N_ROUNDS: usize = 66;

/// The number of full rounds.
pub const F_ROUNDS: usize = 8;

/// The number of partial rounds.
pub const P_ROUNDS: usize = 58;

/// Whether a round treats all the lanes or only lane 0.
#[derive(Clone, Copy, Debug, PartialEq, Eq, Structural)]
pub enum RoundKind {
    Full,
    Partial,
}

/// The matrices and the round constants (by lane, then by round) of the
/// permutation.
#[derive(Clone, Debug, PartialEq, Eq)]
pub struct PermParams<F> {
    pub mds_full: [[F; 4]; 4],
    pub mds_partial: [[F; 4]; 4],
    pub round_constants: [[F; 66]; 4],
}

/// Rounds 4 to 61 are partial.
pub open spec fn is_partial(round: int) -> bool {
    F_ROUNDS / 2 <= round < F_ROUNDS / 2 + P_ROUNDS
}

/// Whether a lane goes through the power in a round.
pub open spec fn is_active(round: int, lane: int) -> bool {
    !is_partial(round) || lane == 0
}

/// The kind of a round.
pub fn round_kind(round: usize) -> (r: RoundKind)
    ensures
        r == if is_partial(round as int) {
            RoundKind::Partial
        } else {
            RoundKind::Full
        },
{
    if F_ROUNDS / 2 <= round && round < F_ROUNDS / 2 + P_ROUNDS {
        RoundKind::Partial
    } else {
        RoundKind::Full
    }
}

impl<F: TowerField> PermParams<F> {
    /// The coefficient of the linear layer after a round.
    pub open spec fn mds(&self, round: int, i: int, j: int) -> F {
        if is_partial(round) {
            self.mds_partial[i][j]
        } else {
            self.mds_full[i][j]
        }
    }

    /// The constant of a round and a lane.
    pub open spec fn rc(&self, round: int, lane: int) -> F {
        self.round_constants[lane][round]
    }

    /// Computes [`PermParams::mds`].
    pub fn mds_coeff(&self, round: usize, i: usize, j: usize) -> (r: F)
        requires
            i < 4,
            j < 4,
        ensures
            r == self.mds(round as int, i as int, j as int),
    {
        match round_kind(round) {
            RoundKind::Partial => self.mds_partial[i][j],
            RoundKind::Full => self.mds_full[i][j],
        }
    }
}

/// A linear layer.
pub open spec fn mds_apply<F: BinaryField>(m: spec_fn(int, int) -> F, v: Seq<F>) -> Seq<F> {
    Seq::new(4, |i: int| sum(4, |j: int| m(i, j).mul(v[j])))
}

/// The input of the power layer of a round: the state, with the constants added
/// in the active lanes.
pub open spec fn power_in<F: TowerField>(params: PermParams<F>, state: Seq<F>, round: int) -> Seq<
    F,
> {
    Seq::new(
        4,
        |e: int|
            if is_active(round, e) {
                state[e].add(params.rc(round, e))
            } else {
                state[e]
            },
    )
}

/// The output of the power layer of a round.
pub open spec fn power_out<F: TowerField>(params: PermParams<F>, state: Seq<F>, round: int) -> Seq<
    F,
> {
    Seq::new(
        4,
        |e: int|
            if is_active(round, e) {
                pow7(state[e].add(params.rc(round, e)))
            } else {
                state[e]
            },
    )
}

/// The state before round `r`; after the last round for `r == 66`.
pub open spec fn layer_state<F: TowerField>(params: PermParams<F>, input: Seq<F>, r: nat) -> Seq<F>
    decreases r,
{
    if r == 0 {
        mds_apply(|i: int, j: int| params.mds_full[i][j], input)
    } else {
        let q = (r - 1) as nat;
        mds_apply(
            |i: int, j: int| params.mds(q as int, i, j),
            power_out(params, layer_state(params, input, q), q as int),
        )
    }
}

/// The permutation.
pub open spec fn permuted<F: TowerField>(params: PermParams<F>, input: Seq<F>) -> Seq<F> {
    layer_state(params, input, N_ROUNDS as nat)
}

/// The states between the rounds, and the inputs and outputs of the power
/// layers.
#[derive(Clone, Debug, PartialEq, Eq)]
pub struct PermLayerWitness<F> {
    pub kind: Vec<RoundKind>,
    pub state: Vec<[F; 4]>,
    pub sin: Vec<[F; 4]>,
    pub sout: Vec<[F; 4]>,
}

impl<F: TowerField> PermLayerWitness<F> {
    /// The witness of a permutation of `input`.
    pub open spec fn of(&self, params: PermParams<F>, input: Seq<F>) -> bool {
        &&& self.kind.len() == N_ROUNDS
        &&& self.state.len() == N_ROUNDS + 1
        &&& self.sin.len() == N_ROUNDS
        &&& self.sout.len() == N_ROUNDS
        &&& forall|r: int|
            0 <= r <= N_ROUNDS ==> #[trigger] self.state[r]@ == layer_state(params, input, r as nat)
        &&& forall|r: int|
            0 <= r < N_ROUNDS ==> #[trigger] self.sin[r]@ == power_in(
                params,
                layer_state(params, input, r as nat),
                r,
            )
        &&& forall|r: int|
            0 <= r < N_ROUNDS ==> #[trigger] self.sout[r]@ == power_out(
                params,
                layer_state(params, input, r as nat),
                r,
            )
        &&& forall|r: int|
            0 <= r < N_ROUNDS ==> #[trigger] self.kind[r] == if is_partial(r) {
                RoundKind::Partial
            } else {
                RoundKind::Full
            }
    }

    /// The state after the last round.
    pub fn final_state(&self) -> (r: [F; 4])
        requires
            self.state.len() == N_ROUNDS + 1,
        ensures
            r == self.state[N_ROUNDS as int],
    {
        self.state[N_ROUNDS]
    }
}

/// One row of a linear layer.
fn mds_row<F: TowerField>(row: &[F; 4], v: &[F; 4], Ghost(f): Ghost<spec_fn(int) -> F>) -> (r: F)
    requires
        forall|j: int| 0 <= j < 4 ==> #[trigger] f(j) == row[j].mul(v[j]),
    ensures
        r == sum(4, f),
{
    let r = row[0].times(v[0]).plus(row[1].times(v[1])).plus(row[2].times(v[2])).plus(
        row[3].times(v[3]),
    );
    proof {
        reveal_with_fuel(sum, 5);
        crate::field::lemma_units(row[0].mul(v[0]));
        assert(f(0) == row[0].mul(v[0]));
        assert(f(1) == row[1].mul(v[1]));
        assert(f(2) == row[2].mul(v[2]));
        assert(f(3) == row[3].mul(v[3]));
    }
    r
}

/// Applies a matrix.
pub fn apply_matrix<F: TowerField>(m: &[[F; 4]; 4], v: &[F; 4]) -> (r: [F; 4])
    ensures
        r@ == mds_apply(|i: int, j: int| m[i][j], v@),
{
    let ghost mm = |i: int, j: int| m[i][j];
    let r = [
        mds_row(&m[0], v, Ghost(|j: int| mm(0, j).mul(v@[j]))),
        mds_row(&m[1], v, Ghost(|j: int| mm(1, j).mul(v@[j]))),
        mds_row(&m[2], v, Ghost(|j: int| mm(2, j).mul(v@[j]))),
        mds_row(&m[3], v, Ghost(|j: int| mm(3, j).mul(v@[j]))),
    ];
    proof {
        assert(r@ =~= mds_apply(mm, v@));
    }
    r
}

/// One lane of the power layer.
fn power_lane<F: TowerField>(
    params: &PermParams<F>,
    state: &[F; 4],
    round: usize,
    lane: usize,
) -> (r: (F, F))
    requires
        round < N_ROUNDS,
        lane < 4,
    ensures
        r.0 == power_in(*params, state@, round as int)[lane as int],
        r.1 == power_out(*params, state@, round as int)[lane as int],
{
    let active = match round_kind(round) {
        RoundKind::Full => true,
        RoundKind::Partial => lane == 0,
    };
    if active {
        let s = state[lane].plus(params.round_constants[lane][round]);
        (s, pow7_value(s))
    } else {
        (state[lane], state[lane])
    }
}

/// Runs the permutation and records every layer.
pub fn evaluate_permutation<F: TowerField>(params: &PermParams<F>, state_in: [F; 4]) -> (w:
    PermLayerWitness<F>)
    ensures
        w.of(*params, state_in@),
{
    let mut cur = apply_matrix(&params.mds_full, &state_in);
    let mut kind: Vec<RoundKind> = Vec::new();
    let mut state: Vec<[F; 4]> = Vec::new();
    let mut sin: Vec<[F; 4]> = Vec::new();
    let mut sout: Vec<[F; 4]> = Vec::new();
    state.push(cur);
    let mut r: usize = 0;
    while r < N_ROUNDS
        invariant
            r <= N_ROUNDS,
            kind.len() == r,
            state.len() == r + 1,
            sin.len() == r,
            sout.len() == r,
            cur@ == layer_state(*params, state_in@, r as nat),
            forall|k: int|
                0 <= k <= r ==> #[trigger] state[k]@ == layer_state(
                    *params,
                    state_in@,
                    k as nat,
                ),
            forall|k: int|
                0 <= k < r ==> #[trigger] sin[k]@ == power_in(
                    *params,
                    layer_state(*params, state_in@, k as nat),
                    k,
                ),
            forall|k: int|
                0 <= k < r ==> #[trigger] sout[k]@ == power_out(
                    *params,
                    layer_state(*params, state_in@, k as nat),
                    k,
                ),
            forall|k: int|
                0 <= k < r ==> #[trigger] kind[k] == if is_partial(k) {
                    RoundKind::Partial
                } else {
                    RoundKind::Full
                },
        decreases N_ROUNDS - r,
    {
        let (i0, o0) = power_lane(params, &cur, r, 0);
        let (i1, o1) = power_lane(params, &cur, r, 1);
        let (i2, o2) = power_lane(params, &cur, r, 2);
        let (i3, o3) = power_lane(params, &cur, r, 3);
        let ins = [i0, i1, i2, i3];
        let outs = [o0, o1, o2, o3];
        proof {
            assert(ins@ =~= power_in(*params, cur@, r as int));
            assert(outs@ =~= power_out(*params, cur@, r as int));
        }
        sin.push(ins);
        sout.push(outs);
        kind.push(round_kind(r));
        let ghost before = cur@;
        cur = match round_kind(r) {
            RoundKind::Full => apply_matrix(&params.mds_full, &outs),
            RoundKind::Partial => apply_matrix(&params.mds_partial, &outs),
        };
        proof {
            lemma_mds_ext(
                |i: int, j: int| params.mds_full[i][j],
                |i: int, j: int| params.mds(r as int, i, j),
                outs@,
                !is_partial(r as int),
            );
            lemma_mds_ext(
                |i: int, j: int| params.mds_partial[i][j],
                |i: int, j: int| params.mds(r as int, i, j),
                outs@,
                is_partial(r as int),
            );
            assert(cur@ == layer_state(*params, state_in@, (r + 1) as nat));
        }
        state.push(cur);
        r += 1;
    }
    PermLayerWitness { kind, state, sin, sout }
}

/// Equal matrices give equal layers.
proof fn lemma_mds_ext<F: BinaryField>(
    m: spec_fn(int, int) -> F,
    n: spec_fn(int, int) -> F,
    v: Seq<F>,
    equal: bool,
)
    requires
        equal ==> forall|i: int, j: int|
            0 <= i < 4 && 0 <= j < 4 ==> #[trigger] m(i, j) == n(i, j),
    ensures
        equal ==> mds_apply(m, v) == mds_apply(n, v),
{
    if equal {
        assert forall|i: int| 0 <= i < 4 implies mds_apply(m, v)[i] == mds_apply(n, v)[i] by {
            let f = |j: int| m(i, j).mul(v[j]);
            let g = |j: int| n(i, j).mul(v[j]);
            assert forall|j: int| 0 <= j < 4 implies #[trigger] f(j) == g(j) by {
                assert(m(i, j) == n(i, j));
            }
            crate::sum::lemma_sum_ext(4, f, g);
        }
        assert(mds_apply(m, v) =~= mds_apply(n, v));
    }
}

/// Applies the permutation.
pub fn permute<F: TowerField>(params: &PermParams<F>, state: [F; 4]) -> (r: [F; 4])
    ensures
        r@ == permuted(*params, state@),
{
    let w = evaluate_permutation(params, state);
    w.final_state()
}

} // verus!
