//! Cell indices and public schedules of the Merkle path trace: two bits of lane,
//! seven of round and five of slot. The number of live slots depends on the
//! depth of the path.
use vstd::prelude::*;
use crate::field::TowerField;
use crate::layers::{PermParams, STATE_SIZE};
use crate::trace::{build_u_table, cell, cell_lane, cell_round, dec, dec_round_index, dec_table, inc, inc_round_index, lane_of, lane_table, lemma_dec_bound, mds_cell, mds_lane_table, mu_cell, mu_table, pack_index, permute_by_dec, project_lane, rc_cell, rc_table, round_of, sigma_cell, sigma_table, slot_of, u_table};

verus! {

/// The variables of the lane.
pub const N_MERKLE_ELEM_VARS: usize = 2;

/// The variables of the round.
pub const N_MERKLE_ROUND_VARS: usize = 7;

/// The variables of the slot.
pub const N_MERKLE_SLOT_BITS: usize = 5;

/// The variables of the trace.
pub const N_MERKLE_UNIFIED_VARS: usize = 14;

/// The cells of the trace.
pub const N_MERKLE_UNIFIED_CELLS: usize = 16384;

/// The round of a cell.
pub fn merkle_round_of(idx: u16) -> (r: usize)
    ensures
        r == round_of(idx as int),
        r < 128,
{
    cell_round(idx as usize)
}

/// The lane of a cell.
pub fn merkle_elem_of(idx: u16) -> (r: usize)
    ensures
        r == lane_of(idx as int),
        r < STATE_SIZE,
{
    cell_lane(idx as usize)
}

/// The slot of a cell, in its five bits.
pub fn merkle_slot_of(idx: u16) -> (r: usize)
    ensures
        r == slot_of(idx as int) % 32,
{
    (idx as usize / 512) % 32
}

/// The cell one round earlier, around the end.
pub fn merkle_dec_round_index(idx: u16) -> (r: u16)
    ensures
        r == dec(idx as int),
{
    proof {
        lemma_dec_bound(idx as int, 128);
    }
    dec_round_index(idx as usize) as u16
}

/// The cell one round later, around the end.
pub fn merkle_inc_round_index(idx: u16) -> (r: u16)
    ensures
        r == inc(idx as int),
{
    proof {
        lemma_dec_bound(idx as int, 128);
    }
    inc_round_index(idx as usize) as u16
}

/// Going one round back and one round on are inverse.
pub proof fn lemma_merkle_rounds(idx: u16)
    ensures
        dec(inc(idx as int)) == idx,
        inc(dec(idx as int)) == idx,
{
    crate::trace::lemma_dec_inc(idx as int);
}

/// The cell of a slot, a round and a lane.
pub fn merkle_pack_index(slot: usize, round: usize, elem: usize) -> (r: u16)
    requires
        slot < 32,
        round < 128,
        elem < STATE_SIZE,
    ensures
        r == cell(slot as int, round as int, elem as int),
{
    pack_index(slot, round, elem) as u16
}

/// The mask of the live cells.
pub fn build_merkle_mu_table<F: TowerField>(live_slots: usize) -> (r: Vec<F>)
    requires
        live_slots <= 32,
    ensures
        r@ == Seq::new(N_MERKLE_UNIFIED_CELLS as nat, |y: int| mu_cell::<F>(live_slots as int, y)),
{
    mu_table(N_MERKLE_UNIFIED_CELLS, live_slots)
}

/// The selector of the power layer.
pub fn build_merkle_sigma_table<F: TowerField>(live_slots: usize) -> (r: Vec<F>)
    requires
        live_slots <= 32,
    ensures
        r@ == Seq::new(N_MERKLE_UNIFIED_CELLS as nat, |y: int| sigma_cell::<F>(live_slots as int, y)),
{
    sigma_table(N_MERKLE_UNIFIED_CELLS, live_slots)
}

/// The round constants.
pub fn build_merkle_rc_table<F: TowerField>(params: &PermParams<F>, live_slots: usize) -> (r: Vec<F>)
    requires
        live_slots <= 32,
    ensures
        r@ == Seq::new(N_MERKLE_UNIFIED_CELLS as nat, |y: int| rc_cell(*params, live_slots as int, y)),
{
    rc_table(params, N_MERKLE_UNIFIED_CELLS, live_slots)
}

/// The matrix coefficients of a lane.
pub fn build_merkle_mds_lane_table<F: TowerField>(params: &PermParams<F>, live_slots: usize, lane: usize) -> (r: Vec<F>)
    requires
        lane < STATE_SIZE,
    ensures
        r@ == Seq::new(N_MERKLE_UNIFIED_CELLS as nat, |y: int| mds_cell(*params, lane as int, live_slots as int, y)),
{
    mds_lane_table(params, lane, N_MERKLE_UNIFIED_CELLS, live_slots)
}

/// `out[y] = src[dec(y)]`.
pub fn merkle_permute_by_dec<F: Copy>(src: &[F]) -> (r: Vec<F>)
    requires
        src.len() == N_MERKLE_UNIFIED_CELLS,
    ensures
        r@ == dec_table(src@),
{
    permute_by_dec(src)
}

/// Replaces the lane of every cell.
pub fn merkle_project_lane<F: Copy>(src: &[F], lane: usize) -> (r: Vec<F>)
    requires
        lane < STATE_SIZE,
        src.len() == N_MERKLE_UNIFIED_CELLS,
    ensures
        r@ == lane_table(src@, lane as int),
{
    project_lane(src, lane)
}

/// The weights at `rho` of the live cells, one round earlier.
pub fn build_merkle_u_table<F: TowerField>(rho: &[F], live_slots: usize) -> (r: Vec<F>)
    requires
        rho.len() == N_MERKLE_UNIFIED_VARS,
        live_slots <= 32,
    ensures
        r@ == u_table(rho@, live_slots as int, N_MERKLE_UNIFIED_CELLS as nat),
{
    proof {
        vstd::arithmetic::power2::lemma2_to64();
    }
    build_u_table(rho, live_slots)
}

/// The selector of the power layer, one round earlier.
pub fn build_merkle_sigma_dec_table<F: TowerField>(live_slots: usize) -> (r: Vec<F>)
    requires
        live_slots <= 32,
    ensures
        r@ == dec_table(Seq::new(N_MERKLE_UNIFIED_CELLS as nat, |y: int| sigma_cell::<F>(live_slots as int, y))),
{
    let t = build_merkle_sigma_table::<F>(live_slots);
    permute_by_dec(t.as_slice())
}

/// The round constants, one round earlier.
pub fn build_merkle_rc_dec_table<F: TowerField>(params: &PermParams<F>, live_slots: usize) -> (r: Vec<F>)
    requires
        live_slots <= 32,
    ensures
        r@ == dec_table(Seq::new(N_MERKLE_UNIFIED_CELLS as nat, |y: int| rc_cell(*params, live_slots as int, y))),
{
    let t = build_merkle_rc_table(params, live_slots);
    permute_by_dec(t.as_slice())
}

/// The selector of the power layer, one round earlier, for every lane.
pub fn build_merkle_sigma_dec_lane_tables<F: TowerField>(live_slots: usize) -> (r: [Vec<F>; 4])
    requires
        live_slots <= 32,
    ensures
        forall|j: int| 0 <= j < 4 ==> (#[trigger] r[j])@ == lane_table(dec_table(Seq::new(N_MERKLE_UNIFIED_CELLS as nat, |y: int| sigma_cell::<F>(live_slots as int, y))), j),
{
    let t = build_merkle_sigma_dec_table::<F>(live_slots);
    [
        project_lane(t.as_slice(), 0),
        project_lane(t.as_slice(), 1),
        project_lane(t.as_slice(), 2),
        project_lane(t.as_slice(), 3),
    ]
}

} // verus!
