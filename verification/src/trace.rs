//! The cells of a trace of permutations, and its public schedules.
//!
//! A trace has one cell for each slot (a permutation), round (128 of them, of
//! which the permutation uses 66, and one more for its output) and lane. The
//! index of a cell is `slot * 512 + round * 4 + lane`: from the low bits on,
//! two bits of lane, seven of round, and the rest of slot.
use vstd::prelude::*;
use vstd::arithmetic::power2::pow2;
use crate::field::{BinaryField, TowerField};
use crate::layers::{N_ROUNDS, PermParams, RoundKind, is_active, round_kind};
use crate::mle::{eq_at, eq_ind_partial_eval, eq_table, lemma_mle_sum, mle};
use crate::sum::{lemma_sum_ext, sum};

verus! {

/// The number of rounds that a slot has room for.
pub const ROUND_LIMIT: usize = 128;

/// The number of cells of a slot.
pub const SLOT_CELLS: usize = 512;

/// The lane of a cell.
pub open spec fn lane_of(y: int) -> int {
    y % 4
}

/// The round of a cell.
pub open spec fn round_of(y: int) -> int {
    (y / 4) % 128
}

/// The slot of a cell.
pub open spec fn slot_of(y: int) -> int {
    y / 512
}

/// The cell of a slot, a round and a lane.
pub open spec fn cell(slot: int, round: int, lane: int) -> int {
    slot * 512 + round * 4 + lane
}

/// The cell one round earlier, around the end.
pub open spec fn dec(y: int) -> int {
    cell(slot_of(y), (round_of(y) + 127) % 128, lane_of(y))
}

/// The cell one round later, around the end.
pub open spec fn inc(y: int) -> int {
    cell(slot_of(y), (round_of(y) + 1) % 128, lane_of(y))
}

/// A cell is given by its slot, its round and its lane.
pub proof fn lemma_cell_of_parts(y: int)
    requires
        0 <= y,
    ensures
        cell(slot_of(y), round_of(y), lane_of(y)) == y,
        0 <= slot_of(y),
        0 <= round_of(y) < 128,
        0 <= lane_of(y) < 4,
{
}

/// Packing and unpacking are inverse.
pub proof fn lemma_parts_of_cell(slot: int, round: int, lane: int)
    requires
        0 <= slot,
        0 <= round < 128,
        0 <= lane < 4,
    ensures
        slot_of(cell(slot, round, lane)) == slot,
        round_of(cell(slot, round, lane)) == round,
        lane_of(cell(slot, round, lane)) == lane,
        0 <= cell(slot, round, lane) < (slot + 1) * 512,
{
}

/// Going one round back and one round on are inverse, and change nothing but
/// the round.
pub proof fn lemma_dec_inc(y: int)
    requires
        0 <= y,
    ensures
        dec(inc(y)) == y,
        inc(dec(y)) == y,
        slot_of(dec(y)) == slot_of(y),
        lane_of(dec(y)) == lane_of(y),
        round_of(dec(y)) == (round_of(y) + 127) % 128,
        slot_of(inc(y)) == slot_of(y),
        lane_of(inc(y)) == lane_of(y),
        round_of(inc(y)) == (round_of(y) + 1) % 128,
{
    lemma_cell_of_parts(y);
    lemma_parts_of_cell(slot_of(y), (round_of(y) + 127) % 128, lane_of(y));
    lemma_parts_of_cell(slot_of(y), (round_of(y) + 1) % 128, lane_of(y));
}

/// The cells of `slots` slots are closed under [`dec`] and [`inc`].
pub proof fn lemma_dec_bound(y: int, slots: int)
    requires
        0 <= y < slots * 512,
    ensures
        0 <= dec(y) < slots * 512,
        0 <= inc(y) < slots * 512,
{
    lemma_cell_of_parts(y);
    lemma_parts_of_cell(slot_of(y), (round_of(y) + 127) % 128, lane_of(y));
    lemma_parts_of_cell(slot_of(y), (round_of(y) + 1) % 128, lane_of(y));
}

/// The selector of the power layer.
pub open spec fn sigma_at<F: BinaryField>(round: int, lane: int) -> F {
    if round < N_ROUNDS && lane < 4 && is_active(round, lane) {
        F::one()
    } else {
        F::zero()
    }
}

/// The mask of the cells that hold a round of a live slot.
pub open spec fn mu_cell<F: BinaryField>(live: int, y: int) -> F {
    if slot_of(y) < live && round_of(y) < N_ROUNDS {
        F::one()
    } else {
        F::zero()
    }
}

/// The selector of the power layer, in the live slots.
pub open spec fn sigma_cell<F: BinaryField>(live: int, y: int) -> F {
    if slot_of(y) < live {
        sigma_at(round_of(y), lane_of(y))
    } else {
        F::zero()
    }
}

/// The round constants, in the active cells of the live slots.
pub open spec fn rc_cell<F: TowerField>(params: PermParams<F>, live: int, y: int) -> F {
    if slot_of(y) < live && round_of(y) < N_ROUNDS && is_active(round_of(y), lane_of(y)) {
        params.rc(round_of(y), lane_of(y))
    } else {
        F::zero()
    }
}

/// The coefficient with which a lane of the round before enters a cell.
pub open spec fn mds_cell<F: TowerField>(
    params: PermParams<F>,
    lane: int,
    live: int,
    y: int,
) -> F {
    if slot_of(y) < live && round_of(dec(y)) < N_ROUNDS {
        params.mds(round_of(dec(y)), lane_of(y), lane)
    } else {
        F::zero()
    }
}

/// `t` one round earlier.
pub open spec fn dec_table<F>(t: Seq<F>) -> Seq<F> {
    Seq::new(t.len(), |y: int| t[dec(y)])
}

/// `t` with its lane replaced.
pub open spec fn lane_table<F>(t: Seq<F>, lane: int) -> Seq<F> {
    Seq::new(t.len(), |y: int| t[y - lane_of(y) + lane])
}

/// The weights at `rho` of the live cells, one round earlier.
pub open spec fn u_table<F: TowerField>(rho: Seq<F>, live: int, cells: nat) -> Seq<F> {
    Seq::new(cells, |y: int| eq_at(rho, dec(y)).mul(mu_cell(live, dec(y))))
}

/// Computes [`lane_of`].
pub fn cell_lane(y: usize) -> (r: usize)
    ensures
        r == lane_of(y as int),
        r < 4,
{
    y % 4
}

/// Computes [`round_of`].
pub fn cell_round(y: usize) -> (r: usize)
    ensures
        r == round_of(y as int),
        r < 128,
{
    (y / 4) % 128
}

/// Computes [`slot_of`].
pub fn cell_slot(y: usize) -> (r: usize)
    ensures
        r == slot_of(y as int),
{
    y / 512
}

/// Computes [`dec`].
pub fn dec_round_index(y: usize) -> (r: usize)
    ensures
        r == dec(y as int),
{
    let round: usize = cell_round(y);
    let prev: usize = (round + 127) % 128;
    proof {
        lemma_cell_of_parts(y as int);
    }
    if prev > round {
        // Only round 0 moves up, to round 127 of the same slot.
        let base: usize = y - round * 4;
        proof {
            assert(y / 512 * 512 + 511 <= usize::MAX) by {
                vstd::layout::unsigned_int_max_values();
            }
        }
        base + prev * 4
    } else {
        y - 4
    }
}

/// Computes [`inc`].
pub fn inc_round_index(y: usize) -> (r: usize)
    ensures
        r == inc(y as int),
{
    let round: usize = cell_round(y);
    proof {
        lemma_cell_of_parts(y as int);
        assert(y / 512 * 512 + 511 <= usize::MAX) by {
            vstd::layout::unsigned_int_max_values();
        }
    }
    if round == 127 {
        y - 508
    } else {
        y + 4
    }
}

/// Computes [`cell`].
pub fn pack_index(slot: usize, round: usize, lane: usize) -> (r: usize)
    requires
        round < 128,
        lane < 4,
        slot * 512 + 511 <= usize::MAX,
    ensures
        r == cell(slot as int, round as int, lane as int),
{
    slot * 512 + round * 4 + lane
}

/// Computes [`sigma_at`].
pub fn sigma_value<F: TowerField>(round: usize, lane: usize) -> (r: F)
    ensures
        r == sigma_at::<F>(round as int, lane as int),
{
    if round >= N_ROUNDS || lane >= 4 {
        return F::zero_value();
    }
    match round_kind(round) {
        RoundKind::Full => F::one_value(),
        RoundKind::Partial => if lane == 0 {
            F::one_value()
        } else {
            F::zero_value()
        },
    }
}

/// The table of [`mu_cell`].
pub fn mu_table<F: TowerField>(cells: usize, live: usize) -> (r: Vec<F>)
    ensures
        r@ == Seq::new(cells as nat, |y: int| mu_cell::<F>(live as int, y)),
{
    let mut out: Vec<F> = Vec::new();
    let mut y: usize = 0;
    while y < cells
        invariant
            y <= cells,
            out.len() == y,
            forall|k: int| 0 <= k < y ==> #[trigger] out[k] == mu_cell::<F>(live as int, k),
        decreases cells - y,
    {
        if cell_slot(y) < live && cell_round(y) < N_ROUNDS {
            out.push(F::one_value());
        } else {
            out.push(F::zero_value());
        }
        y += 1;
    }
    proof {
        assert(out@ =~= Seq::new(cells as nat, |y: int| mu_cell::<F>(live as int, y)));
    }
    out
}

/// The table of [`sigma_cell`].
pub fn sigma_table<F: TowerField>(cells: usize, live: usize) -> (r: Vec<F>)
    ensures
        r@ == Seq::new(cells as nat, |y: int| sigma_cell::<F>(live as int, y)),
{
    let mut out: Vec<F> = Vec::new();
    let mut y: usize = 0;
    while y < cells
        invariant
            y <= cells,
            out.len() == y,
            forall|k: int| 0 <= k < y ==> #[trigger] out[k] == sigma_cell::<F>(live as int, k),
        decreases cells - y,
    {
        if cell_slot(y) < live {
            out.push(sigma_value(cell_round(y), cell_lane(y)));
        } else {
            out.push(F::zero_value());
        }
        y += 1;
    }
    proof {
        assert(out@ =~= Seq::new(cells as nat, |y: int| sigma_cell::<F>(live as int, y)));
    }
    out
}

/// The table of [`rc_cell`].
pub fn rc_table<F: TowerField>(params: &PermParams<F>, cells: usize, live: usize) -> (r: Vec<F>)
    ensures
        r@ == Seq::new(cells as nat, |y: int| rc_cell(*params, live as int, y)),
{
    let mut out: Vec<F> = Vec::new();
    let mut y: usize = 0;
    while y < cells
        invariant
            y <= cells,
            out.len() == y,
            forall|k: int| 0 <= k < y ==> #[trigger] out[k] == rc_cell(*params, live as int, k),
        decreases cells - y,
    {
        let round: usize = cell_round(y);
        let lane: usize = cell_lane(y);
        let active = match round_kind(round) {
            RoundKind::Full => true,
            RoundKind::Partial => lane == 0,
        };
        if cell_slot(y) < live && round < N_ROUNDS && active {
            out.push(params.round_constants[lane][round]);
        } else {
            out.push(F::zero_value());
        }
        y += 1;
    }
    proof {
        assert(out@ =~= Seq::new(cells as nat, |y: int| rc_cell(*params, live as int, y)));
    }
    out
}

/// The table of [`mds_cell`].
pub fn mds_lane_table<F: TowerField>(
    params: &PermParams<F>,
    lane: usize,
    cells: usize,
    live: usize,
) -> (r: Vec<F>)
    requires
        lane < 4,
    ensures
        r@ == Seq::new(cells as nat, |y: int| mds_cell(*params, lane as int, live as int, y)),
{
    let mut out: Vec<F> = Vec::new();
    let mut y: usize = 0;
    while y < cells
        invariant
            y <= cells,
            lane < 4,
            out.len() == y,
            forall|k: int|
                0 <= k < y ==> #[trigger] out[k] == mds_cell(
                    *params,
                    lane as int,
                    live as int,
                    k,
                ),
        decreases cells - y,
    {
        let dec_round: usize = cell_round(dec_round_index(y));
        if cell_slot(y) < live && dec_round < N_ROUNDS {
            out.push(params.mds_coeff(dec_round, cell_lane(y), lane));
        } else {
            out.push(F::zero_value());
        }
        y += 1;
    }
    proof {
        assert(out@ =~= Seq::new(
            cells as nat,
            |y: int| mds_cell(*params, lane as int, live as int, y),
        ));
    }
    out
}

/// Moves every cell one round: `out[y] = src[dec(y)]`.
pub fn permute_by_dec<F: Copy>(src: &[F]) -> (r: Vec<F>)
    requires
        src.len() % 512 == 0,
    ensures
        r@ == dec_table(src@),
{
    let mut out: Vec<F> = Vec::new();
    let mut y: usize = 0;
    while y < src.len()
        invariant
            y <= src.len(),
            src.len() % 512 == 0,
            out.len() == y,
            forall|k: int| 0 <= k < y ==> #[trigger] out[k] == src@[dec(k)],
        decreases src.len() - y,
    {
        proof {
            lemma_dec_bound(y as int, src.len() as int / 512);
        }
        out.push(src[dec_round_index(y)]);
        y += 1;
    }
    proof {
        assert(out@ =~= dec_table(src@));
    }
    out
}

/// Replaces the lane of every cell: `out[y]` is `src` at the slot and round of
/// `y` and the given lane.
pub fn project_lane<F: Copy>(src: &[F], lane: usize) -> (r: Vec<F>)
    requires
        src.len() % 4 == 0,
        lane < 4,
    ensures
        r@ == lane_table(src@, lane as int),
{
    let mut out: Vec<F> = Vec::new();
    let mut y: usize = 0;
    while y < src.len()
        invariant
            y <= src.len(),
            src.len() % 4 == 0,
            lane < 4,
            out.len() == y,
            forall|k: int| 0 <= k < y ==> #[trigger] out[k] == src@[k - lane_of(k) + lane],
        decreases src.len() - y,
    {
        let base: usize = y - cell_lane(y);
        out.push(src[base + lane]);
        y += 1;
    }
    proof {
        assert(out@ =~= lane_table(src@, lane as int));
    }
    out
}

/// The table of [`u_table`].
pub fn build_u_table<F: TowerField>(rho: &[F], live: usize) -> (r: Vec<F>)
    requires
        rho.len() >= 9,
        pow2(rho.len() as nat) <= usize::MAX,
    ensures
        r@ == u_table(rho@, live as int, pow2(rho.len() as nat)),
{
    let eq_tab = eq_ind_partial_eval(rho);
    let mut out: Vec<F> = Vec::new();
    let cells: usize = eq_tab.len();
    proof {
        lemma_slots(rho.len() as nat);
    }
    let mut y: usize = 0;
    while y < cells
        invariant
            y <= cells,
            cells == eq_tab.len(),
            cells == pow2(rho.len() as nat),
            cells % 512 == 0,
            eq_tab@ == eq_table(rho@),
            out.len() == y,
            forall|k: int|
                0 <= k < y ==> #[trigger] out[k] == eq_at(rho@, dec(k)).mul(
                    mu_cell(live as int, dec(k)),
                ),
        decreases cells - y,
    {
        let x: usize = dec_round_index(y);
        proof {
            lemma_dec_bound(y as int, cells as int / 512);
        }
        let mu = if cell_slot(x) < live && cell_round(x) < N_ROUNDS {
            F::one_value()
        } else {
            F::zero_value()
        };
        out.push(eq_tab[x].times(mu));
        y += 1;
    }
    proof {
        assert(out@ =~= u_table(rho@, live as int, cells as nat));
    }
    out
}

/// A hypercube of at least nine variables consists of whole slots.
pub proof fn lemma_slots(n: nat)
    requires
        n >= 9,
    ensures
        pow2(n) == 512 * pow2((n - 9) as nat),
        pow2(n) % 512 == 0,
        pow2(n) % 4 == 0,
        pow2((n - 9) as nat) > 0,
{
    vstd::arithmetic::power2::lemma2_to64();
    vstd::arithmetic::power2::lemma_pow2_adds(9, (n - 9) as nat);
    vstd::arithmetic::power2::lemma_pow2_pos((n - 9) as nat);
}

/// The inner product of a table with the weights at a point, which is the
/// multilinear extension of the table there.
pub fn inner_product_with_eq_tensor<F: TowerField>(tab: &[F], point: &[F]) -> (v: F)
    requires
        tab.len() == pow2(point.len() as nat),
    ensures
        v == mle(tab@, point@),
{
    let eq_tab = eq_ind_partial_eval(point);
    let ghost f = |i: int| eq_at(point@, i).mul(tab@[i]);
    let mut acc = F::zero_value();
    let mut i: usize = 0;
    while i < tab.len()
        invariant
            i <= tab.len(),
            tab.len() == eq_tab.len(),
            eq_tab@ == eq_table(point@),
            f == (|i: int| eq_at(point@, i).mul(tab@[i])),
            acc == sum(i as nat, f),
        decreases tab.len() - i,
    {
        proof {
            F::mul_comm(tab@[i as int], eq_tab@[i as int]);
        }
        acc = acc.plus(tab[i].times(eq_tab[i]));
        i += 1;
    }
    proof {
        lemma_mle_sum(tab@, point@);
        lemma_sum_ext(tab.len() as nat, f, |i: int| eq_at(point@, i).mul(tab@[i]));
    }
    acc
}

} // verus!
