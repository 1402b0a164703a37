//! Cell indices and public schedules of the sweep spine trace: two bits of lane,
//! seven of round and eight of slot, of which 142 slots are live.
use vstd::prelude::*;
use crate::circuit_sweep::N_SWEEP_SPINE_SLOTS;
use crate::field::TowerField;
use crate::layers::{PermParams, STATE_SIZE};
use crate::mle::mle;
use crate::trace::{build_u_table, cell, cell_lane, cell_round, dec, dec_round_index, dec_table, inc, inc_round_index, inner_product_with_eq_tensor, lane_of, lane_table, lemma_dec_bound, mds_cell, mds_lane_table, mu_cell, mu_table, pack_index, permute_by_dec, project_lane, rc_cell, rc_table, round_of, sigma_cell, sigma_table, slot_of, u_table};

verus! {

/// The variables of the lane.
pub const N_SWEEP_SPINE_ELEM_VARS: usize = 2;

/// The variables of the round.
pub const N_SWEEP_SPINE_ROUND_VARS: usize = 7;

/// The variables of the slot.
pub const N_SWEEP_SPINE_SLOT_VARS: usize = 8;

/// The variables of the trace.
pub const N_SWEEP_SPINE_UNIFIED_VARS: usize = 17;

/// The cells of the trace.
pub const N_SWEEP_SPINE_UNIFIED_CELLS: usize = 131072;

/// The round of a cell.
pub fn sweep_spine_round_of(idx: u32) -> (r: usize)
    ensures
        r == round_of(idx as int),
        r < 128,
{
    cell_round(idx as usize)
}

/// The lane of a cell.
pub fn sweep_spine_elem_of(idx: u32) -> (r: usize)
    ensures
        r == lane_of(idx as int),
        r < STATE_SIZE,
{
    cell_lane(idx as usize)
}

/// The slot of a cell, in its eight bits.
pub fn sweep_spine_slot_of(idx: u32) -> (r: usize)
    ensures
        r == slot_of(idx as int) % 256,
{
    (idx as usize / 512) % 256
}

/// The cell one round earlier, around the end.
pub fn sweep_spine_dec_round_index(idx: u32) -> (r: u32)
    ensures
        r == dec(idx as int),
{
    proof {
        lemma_dec_bound(idx as int, 8388608);
    }
    dec_round_index(idx as usize) as u32
}

/// The cell one round later, around the end.
pub fn sweep_spine_inc_round_index(idx: u32) -> (r: u32)
    ensures
        r == inc(idx as int),
{
    proof {
        lemma_dec_bound(idx as int, 8388608);
    }
    inc_round_index(idx as usize) as u32
}

/// Going one round back and one round on are inverse.
pub proof fn lemma_sweep_spine_rounds(idx: u32)
    ensures
        dec(inc(idx as int)) == idx,
        inc(dec(idx as int)) == idx,
{
    crate::trace::lemma_dec_inc(idx as int);
}

/// The cell of a slot, a round and a lane.
pub fn sweep_spine_pack_index(slot: usize, round: usize, elem: usize) -> (r: u32)
    requires
        slot < 256,
        round < 128,
        elem < STATE_SIZE,
    ensures
        r == cell(slot as int, round as int, elem as int),
{
    pack_index(slot, round, elem) as u32
}

/// The selector of the power layer.
pub fn sweep_spine_sigma_at<F: TowerField>(round: usize, elem: usize) -> (r: F)
    ensures
        r == crate::trace::sigma_at::<F>(round as int, elem as int),
{
    crate::trace::sigma_value(round, elem)
}

/// The coefficient of a matrix in a round.
pub fn sweep_spine_mds_coeff<F: TowerField>(params: &PermParams<F>, round: usize, i: usize, j: usize) -> (r: F)
    requires
        round < crate::layers::N_ROUNDS,
        i < STATE_SIZE,
        j < STATE_SIZE,
    ensures
        r == params.mds(round as int, i as int, j as int),
{
    params.mds_coeff(round, i, j)
}

/// The mask of the live cells in the given number of live slots.
pub fn build_sweep_spine_mu_table_for_live_slots<F: TowerField>(live_slots: usize) -> (r: Vec<F>)
    requires
        live_slots <= 256,
    ensures
        r@ == Seq::new(N_SWEEP_SPINE_UNIFIED_CELLS as nat, |y: int| mu_cell::<F>(live_slots as int, y)),
{
    mu_table(N_SWEEP_SPINE_UNIFIED_CELLS, live_slots)
}

/// The mask of the live cells.
pub fn build_sweep_spine_mu_table<F: TowerField>() -> (r: Vec<F>)
    ensures
        r@ == Seq::new(N_SWEEP_SPINE_UNIFIED_CELLS as nat, |y: int| mu_cell::<F>(N_SWEEP_SPINE_SLOTS as int, y)),
{
    mu_table(N_SWEEP_SPINE_UNIFIED_CELLS, N_SWEEP_SPINE_SLOTS)
}

/// The selector of the power layer in the given number of live slots.
pub fn build_sweep_spine_sigma_table_for_live_slots<F: TowerField>(live_slots: usize) -> (r: Vec<F>)
    requires
        live_slots <= 256,
    ensures
        r@ == Seq::new(N_SWEEP_SPINE_UNIFIED_CELLS as nat, |y: int| sigma_cell::<F>(live_slots as int, y)),
{
    sigma_table(N_SWEEP_SPINE_UNIFIED_CELLS, live_slots)
}

/// The selector of the power layer.
pub fn build_sweep_spine_sigma_table<F: TowerField>() -> (r: Vec<F>)
    ensures
        r@ == Seq::new(N_SWEEP_SPINE_UNIFIED_CELLS as nat, |y: int| sigma_cell::<F>(N_SWEEP_SPINE_SLOTS as int, y)),
{
    sigma_table(N_SWEEP_SPINE_UNIFIED_CELLS, N_SWEEP_SPINE_SLOTS)
}

/// The round constants in the given number of live slots.
pub fn build_sweep_spine_rc_table_for_live_slots<F: TowerField>(params: &PermParams<F>, live_slots: usize) -> (r: Vec<F>)
    requires
        live_slots <= 256,
    ensures
        r@ == Seq::new(N_SWEEP_SPINE_UNIFIED_CELLS as nat, |y: int| rc_cell(*params, live_slots as int, y)),
{
    rc_table(params, N_SWEEP_SPINE_UNIFIED_CELLS, live_slots)
}

/// The round constants.
pub fn build_sweep_spine_rc_table<F: TowerField>(params: &PermParams<F>) -> (r: Vec<F>)
    ensures
        r@ == Seq::new(N_SWEEP_SPINE_UNIFIED_CELLS as nat, |y: int| rc_cell(*params, N_SWEEP_SPINE_SLOTS as int, y)),
{
    rc_table(params, N_SWEEP_SPINE_UNIFIED_CELLS, N_SWEEP_SPINE_SLOTS)
}

/// The matrix coefficients of a lane in the given number of live slots.
pub fn build_sweep_spine_mds_lane_table_for_live_slots<F: TowerField>(params: &PermParams<F>, lane: usize, live_slots: usize) -> (r: Vec<F>)
    requires
        lane < STATE_SIZE,
        live_slots <= 256,
    ensures
        r@ == Seq::new(N_SWEEP_SPINE_UNIFIED_CELLS as nat, |y: int| mds_cell(*params, lane as int, live_slots as int, y)),
{
    mds_lane_table(params, lane, N_SWEEP_SPINE_UNIFIED_CELLS, live_slots)
}

/// The matrix coefficients of a lane.
pub fn build_sweep_spine_mds_lane_table<F: TowerField>(params: &PermParams<F>, lane: usize) -> (r: Vec<F>)
    requires
        lane < STATE_SIZE,
    ensures
        r@ == Seq::new(N_SWEEP_SPINE_UNIFIED_CELLS as nat, |y: int| mds_cell(*params, lane as int, N_SWEEP_SPINE_SLOTS as int, y)),
{
    mds_lane_table(params, lane, N_SWEEP_SPINE_UNIFIED_CELLS, N_SWEEP_SPINE_SLOTS)
}

/// `out[y] = src[dec(y)]`.
pub fn sweep_spine_permute_by_dec<F: Copy>(src: &[F]) -> (r: Vec<F>)
    requires
        src.len() == N_SWEEP_SPINE_UNIFIED_CELLS,
    ensures
        r@ == dec_table(src@),
{
    permute_by_dec(src)
}

/// Replaces the lane of every cell.
pub fn sweep_spine_project_lane<F: Copy>(src: &[F], lane: usize) -> (r: Vec<F>)
    requires
        lane < STATE_SIZE,
        src.len() == N_SWEEP_SPINE_UNIFIED_CELLS,
    ensures
        r@ == lane_table(src@, lane as int),
{
    project_lane(src, lane)
}

/// The matrix coefficients of all lanes.
pub fn sweep_spine_mds_lane_tables<F: TowerField>(params: &PermParams<F>) -> (r: [Vec<F>; 4])
    ensures
        forall|j: int| 0 <= j < 4 ==> (#[trigger] r[j])@ == Seq::new(N_SWEEP_SPINE_UNIFIED_CELLS as nat, |y: int| mds_cell(*params, j, N_SWEEP_SPINE_SLOTS as int, y)),
{
    [
        mds_lane_table(params, 0, N_SWEEP_SPINE_UNIFIED_CELLS, N_SWEEP_SPINE_SLOTS),
        mds_lane_table(params, 1, N_SWEEP_SPINE_UNIFIED_CELLS, N_SWEEP_SPINE_SLOTS),
        mds_lane_table(params, 2, N_SWEEP_SPINE_UNIFIED_CELLS, N_SWEEP_SPINE_SLOTS),
        mds_lane_table(params, 3, N_SWEEP_SPINE_UNIFIED_CELLS, N_SWEEP_SPINE_SLOTS),
    ]
}

/// The selector of the power layer, one round earlier.
pub fn sweep_spine_sigma_dec_table<F: TowerField>() -> (r: Vec<F>)
    ensures
        r@ == dec_table(Seq::new(N_SWEEP_SPINE_UNIFIED_CELLS as nat, |y: int| sigma_cell::<F>(N_SWEEP_SPINE_SLOTS as int, y))),
{
    let t = build_sweep_spine_sigma_table::<F>();
    permute_by_dec(t.as_slice())
}

/// The round constants, one round earlier.
pub fn sweep_spine_rc_dec_table<F: TowerField>(params: &PermParams<F>) -> (r: Vec<F>)
    ensures
        r@ == dec_table(Seq::new(N_SWEEP_SPINE_UNIFIED_CELLS as nat, |y: int| rc_cell(*params, N_SWEEP_SPINE_SLOTS as int, y))),
{
    let t = build_sweep_spine_rc_table(params);
    permute_by_dec(t.as_slice())
}

/// The selector of the power layer, one round earlier, for every lane.
pub fn sweep_spine_sigma_dec_lane_tables<F: TowerField>() -> (r: [Vec<F>; 4])
    ensures
        forall|j: int| 0 <= j < 4 ==> (#[trigger] r[j])@ == lane_table(dec_table(Seq::new(N_SWEEP_SPINE_UNIFIED_CELLS as nat, |y: int| sigma_cell::<F>(N_SWEEP_SPINE_SLOTS as int, y))), j),
{
    let t = sweep_spine_sigma_dec_table::<F>();
    [
        project_lane(t.as_slice(), 0),
        project_lane(t.as_slice(), 1),
        project_lane(t.as_slice(), 2),
        project_lane(t.as_slice(), 3),
    ]
}

/// [`sweep_spine_sigma_dec_table`], as the provers read it.
pub fn sweep_sweep_spine_sigma_dec_table_flat<F: TowerField>() -> (r: Vec<F>)
    ensures
        r@ == dec_table(Seq::new(N_SWEEP_SPINE_UNIFIED_CELLS as nat, |y: int| sigma_cell::<F>(N_SWEEP_SPINE_SLOTS as int, y))),
{
    sweep_spine_sigma_dec_table()
}

/// [`sweep_spine_rc_dec_table`], as the provers read it.
pub fn sweep_sweep_spine_rc_dec_table_flat<F: TowerField>(params: &PermParams<F>) -> (r: Vec<F>)
    ensures
        r@ == dec_table(Seq::new(N_SWEEP_SPINE_UNIFIED_CELLS as nat, |y: int| rc_cell(*params, N_SWEEP_SPINE_SLOTS as int, y))),
{
    sweep_spine_rc_dec_table(params)
}

/// [`sweep_spine_mds_lane_tables`], as the provers read them.
pub fn sweep_sweep_spine_mds_lane_tables_flat<F: TowerField>(params: &PermParams<F>) -> (r: [Vec<F>; 4])
    ensures
        forall|j: int| 0 <= j < 4 ==> (#[trigger] r[j])@ == Seq::new(N_SWEEP_SPINE_UNIFIED_CELLS as nat, |y: int| mds_cell(*params, j, N_SWEEP_SPINE_SLOTS as int, y)),
{
    sweep_spine_mds_lane_tables(params)
}

/// [`sweep_spine_sigma_dec_lane_tables`], as the provers read them.
pub fn sweep_sweep_spine_sigma_dec_lane_tables_flat<F: TowerField>() -> (r: [Vec<F>; 4])
    ensures
        forall|j: int| 0 <= j < 4 ==> (#[trigger] r[j])@ == lane_table(dec_table(Seq::new(N_SWEEP_SPINE_UNIFIED_CELLS as nat, |y: int| sigma_cell::<F>(N_SWEEP_SPINE_SLOTS as int, y))), j),
{
    sweep_spine_sigma_dec_lane_tables()
}

/// The weights at `rho` of the live cells, one round earlier, in the given number
/// of live slots.
pub fn build_sweep_spine_u_table_for_live_slots<F: TowerField>(rho: &[F], live_slots: usize) -> (r: Vec<F>)
    requires
        rho.len() == N_SWEEP_SPINE_UNIFIED_VARS,
        live_slots <= 256,
    ensures
        r@ == u_table(rho@, live_slots as int, N_SWEEP_SPINE_UNIFIED_CELLS as nat),
{
    proof {
        vstd::arithmetic::power2::lemma2_to64();
    }
    build_u_table(rho, live_slots)
}

/// The weights at `rho` of the live cells, one round earlier.
pub fn build_sweep_spine_u_table<F: TowerField>(rho: &[F]) -> (r: Vec<F>)
    requires
        rho.len() == N_SWEEP_SPINE_UNIFIED_VARS,
    ensures
        r@ == u_table(rho@, N_SWEEP_SPINE_SLOTS as int, N_SWEEP_SPINE_UNIFIED_CELLS as nat),
{
    proof {
        vstd::arithmetic::power2::lemma2_to64();
    }
    build_u_table(rho, N_SWEEP_SPINE_SLOTS)
}

/// The value of the mask at a point.
pub fn sweep_spine_mu_evaluate<F: TowerField>(point: &[F]) -> (v: F)
    requires
        point.len() == N_SWEEP_SPINE_UNIFIED_VARS,
    ensures
        v == mle(Seq::new(N_SWEEP_SPINE_UNIFIED_CELLS as nat, |y: int| mu_cell::<F>(N_SWEEP_SPINE_SLOTS as int, y)), point@),
{
    proof {
        vstd::arithmetic::power2::lemma2_to64();
    }
    let tab = build_sweep_spine_mu_table::<F>();
    inner_product_with_eq_tensor(tab.as_slice(), point)
}

/// The value of the selector at a point.
pub fn sweep_spine_sigma_evaluate<F: TowerField>(point: &[F]) -> (v: F)
    requires
        point.len() == N_SWEEP_SPINE_UNIFIED_VARS,
    ensures
        v == mle(Seq::new(N_SWEEP_SPINE_UNIFIED_CELLS as nat, |y: int| sigma_cell::<F>(N_SWEEP_SPINE_SLOTS as int, y)), point@),
{
    proof {
        vstd::arithmetic::power2::lemma2_to64();
    }
    let tab = build_sweep_spine_sigma_table::<F>();
    inner_product_with_eq_tensor(tab.as_slice(), point)
}

/// The value of the round constants at a point.
pub fn sweep_spine_rc_evaluate<F: TowerField>(params: &PermParams<F>, point: &[F]) -> (v: F)
    requires
        point.len() == N_SWEEP_SPINE_UNIFIED_VARS,
    ensures
        v == mle(Seq::new(N_SWEEP_SPINE_UNIFIED_CELLS as nat, |y: int| rc_cell(*params, N_SWEEP_SPINE_SLOTS as int, y)), point@),
{
    proof {
        vstd::arithmetic::power2::lemma2_to64();
    }
    let tab = build_sweep_spine_rc_table(params);
    inner_product_with_eq_tensor(tab.as_slice(), point)
}

} // verus!
