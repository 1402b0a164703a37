//! The authorization of a transaction by its one owner.
//!
//! The owner's address is the digest of the spend secret, by one permutation.
//! The trace of that permutation is the whole witness; what is public of it is
//! the initial capacity and the address.
use vstd::prelude::*;
use vstd::arithmetic::power2::pow2;
use crate::field::{TowerField, lemma_units};
use crate::layers::{N_ROUNDS, PermLayerWitness, PermParams, RoundKind, layer_state, mds_apply, permuted};
use crate::matrix::{dot, left_inverse, lemma_left_inverse, mds_full_inverse, singular};
use crate::owner_boundary::{ConstraintView, OwnerBoundaryConstraint, OwnerBoundaryTerm, constraint_value, constraint_views, constraints_hold, constraints_wf};
use crate::sponge::{SlotState, digest, head, head_state, same_pair};
use crate::sum::{lemma_sum_ext, sum};
use crate::trace::{cell, cell_lane, cell_round, dec, dec_round_index, lane_of, lemma_parts_of_cell, pack_index, round_of, sigma_at, sigma_value, slot_of};
use crate::trace_mle::{TraceColumns, build_columns, input_views, sigma_column, sin_column, sout_column, state_cell, state_column, write_rows, write_selectors};
use crate::wiping::{wipe_elements, wipe_state, wipe_states};

verus! {

/// The lanes of an address.
pub const OWNER_AUTH_PIN_LANES: usize = 2;

/// The variables of a round.
pub const OWNER_AUTH_ROUND_VARS: usize = 7;

/// The variables of a lane.
pub const OWNER_AUTH_ELEM_VARS: usize = 2;

/// The permutations of the trace.
pub const OWNER_AUTH_LIVE_SLOTS: usize = 1;

/// The variables of a slot.
pub const OWNER_AUTH_SLOT_BITS: usize = 0;

/// The variables of the trace.
pub const OWNER_AUTH_NUM_VARS: usize = OWNER_AUTH_ROUND_VARS + OWNER_AUTH_ELEM_VARS;

/// The slots of the trace.
pub const OWNER_AUTH_PADDED_SLOTS: usize = 1;

/// The geometry of the trace. There is only one.
#[derive(Clone, Copy, Debug, PartialEq, Eq, Structural)]
pub struct OwnerAuthLayout;

impl Default for OwnerAuthLayout {
    fn default() -> (r: Self)
        ensures
            r == OwnerAuthLayout,
    {
        OwnerAuthLayout
    }
}

impl OwnerAuthLayout {
    /// The one geometry.
    pub const FIXED: OwnerAuthLayout = OwnerAuthLayout;

    /// The number of cells.
    pub fn cells(self) -> (r: usize)
        ensures
            r == 512,
            r == pow2(OWNER_AUTH_NUM_VARS as nat),
    {
        proof {
            vstd::arithmetic::power2::lemma2_to64();
        }
        512
    }

    /// The index of a slot, a round and a lane.
    pub fn index(self, slot: usize, round: usize, elem: usize) -> (r: usize)
        requires
            slot < OWNER_AUTH_PADDED_SLOTS,
            round < 128,
            elem < 4,
        ensures
            r == cell(slot as int, round as int, elem as int),
            r < 512,
    {
        pack_index(slot, round, elem)
    }
}

/// What a permutation of the trace is for.
#[derive(Clone, Copy, Debug, PartialEq, Eq, Structural)]
pub enum OwnerAuthSlotRole {
    HAddrPerm,
}

/// One permutation of the trace.
#[derive(Clone, Copy, Debug, PartialEq, Eq)]
pub struct OwnerAuthSlotDescriptor<F> {
    pub id: usize,
    pub role: OwnerAuthSlotRole,
    pub capacity_iv: [F; 2],
    pub is_head: bool,
    pub prev_output_src: Option<usize>,
}

/// The permutations of the trace.
#[derive(Clone, Debug, PartialEq, Eq)]
pub struct OwnerAuthCircuit<F> {
    pub layout: OwnerAuthLayout,
    pub slots: Vec<OwnerAuthSlotDescriptor<F>>,
}

/// The permutation that derives the address.
pub open spec fn address_slot<F>(iv: [F; 2]) -> OwnerAuthSlotDescriptor<F> {
    OwnerAuthSlotDescriptor {
        id: 0,
        role: OwnerAuthSlotRole::HAddrPerm,
        capacity_iv: iv,
        is_head: true,
        prev_output_src: None,
    }
}

impl<F: TowerField> OwnerAuthCircuit<F> {
    /// The circuit of an initial capacity.
    pub open spec fn of(&self, iv: [F; 2]) -> bool {
        self.slots@ == seq![address_slot(iv)]
    }

    /// Builds the circuit.
    pub fn build(address_iv: &[F; 2]) -> (r: Self)
        ensures
            r.of(*address_iv),
            r.layout == OwnerAuthLayout::FIXED,
    {
        let mut slots: Vec<OwnerAuthSlotDescriptor<F>> = Vec::new();
        slots.push(
            OwnerAuthSlotDescriptor {
                id: 0,
                role: OwnerAuthSlotRole::HAddrPerm,
                capacity_iv: *address_iv,
                is_head: true,
                prev_output_src: None,
            },
        );
        proof {
            assert(slots@ =~= seq![address_slot(*address_iv)]);
        }
        OwnerAuthCircuit { layout: OwnerAuthLayout::FIXED, slots }
    }

    /// The slot whose output is the address.
    pub fn haddr_output_slot() -> (r: usize)
        ensures
            r == 0,
    {
        0
    }
}

/// What is public of an authorization.
#[derive(Clone, Copy, Debug, PartialEq, Eq)]
pub struct OwnerAuthPublicInputs<F> {
    pub layout: OwnerAuthLayout,
    pub tx_body_hash: [F; 2],
    pub expected_address: [F; 2],
}

impl<F: TowerField> OwnerAuthPublicInputs<F> {
    /// The statement about a transaction and an address.
    pub fn new(tx_body_hash: [F; 2], expected_address: [F; 2]) -> (r: Self)
        ensures
            r.layout == OwnerAuthLayout::FIXED,
            r.tx_body_hash == tx_body_hash,
            r.expected_address == expected_address,
    {
        OwnerAuthPublicInputs { layout: OwnerAuthLayout::FIXED, tx_body_hash, expected_address }
    }
}

/// An authorization, with its spend secret. The secret is not for printing, so
/// there is no `Debug`.
pub struct OwnerAuthInputs<F> {
    pub layout: OwnerAuthLayout,
    spend_secret: [F; 2],
    pub tx_body_hash: [F; 2],
    pub expected_address: [F; 2],
}

impl<F: TowerField> OwnerAuthInputs<F> {
    /// The spend secret.
    pub closed spec fn secret(&self) -> Seq<F> {
        self.spend_secret@
    }

    /// The public part.
    pub closed spec fn public(&self) -> OwnerAuthPublicInputs<F> {
        OwnerAuthPublicInputs {
            layout: self.layout,
            tx_body_hash: self.tx_body_hash,
            expected_address: self.expected_address,
        }
    }

    /// Overwrites the secret.
    pub fn wipe(&mut self)
        ensures
            final(self).secret() == seq![F::zero(), F::zero()],
            final(self).public() == old(self).public(),
    {
        self.spend_secret[0].wipe();
        self.spend_secret[1].wipe();
        proof {
            assert(self.spend_secret@ =~= seq![F::zero(), F::zero()]);
        }
    }

    /// The secret has two lanes.
    pub proof fn lemma_secret_len(&self)
        ensures
            self.secret().len() == 2,
    {
    }

    /// Leaves the secret out.
    pub fn to_public(&self) -> (r: OwnerAuthPublicInputs<F>)
        ensures
            r == self.public(),
    {
        OwnerAuthPublicInputs {
            layout: self.layout,
            tx_body_hash: self.tx_body_hash,
            expected_address: self.expected_address,
        }
    }

    /// Joins the public part and the secret.
    pub fn from_parts(public: &OwnerAuthPublicInputs<F>, spend_secret: [F; 2]) -> (r: Self)
        ensures
            r.secret() == spend_secret@,
            r.public() == *public,
    {
        OwnerAuthInputs {
            layout: public.layout,
            spend_secret,
            tx_body_hash: public.tx_body_hash,
            expected_address: public.expected_address,
        }
    }
}

/// The permutations of a trace, before and after.
pub type OwnerAuthSlotState<F> = SlotState<F>;

/// The permutations of the trace, and the address that they derive.
pub struct OwnerAuthTraceWitness<F> {
    pub slots: Vec<OwnerAuthSlotState<F>>,
    pub derived_address: [F; 2],
}

impl<F: TowerField> OwnerAuthTraceWitness<F> {
    /// Overwrites the states, which hold the secret.
    pub fn wipe(&mut self)
        ensures
            final(self).derived_address == old(self).derived_address,
            final(self).slots.len() == old(self).slots.len(),
            forall|k: int, j: int|
                0 <= k < final(self).slots.len() && 0 <= j < 4
                    ==> #[trigger] final(self).slots[k].state_in@[j] == F::zero(),
            forall|k: int, j: int|
                0 <= k < final(self).slots.len() && 0 <= j < 4
                    ==> #[trigger] final(self).slots[k].state_out@[j] == F::zero(),
    {
        let n: usize = self.slots.len();
        let mut k: usize = 0;
        while k < n
            invariant
                k <= n == self.slots.len() == old(self).slots.len(),
                self.derived_address == old(self).derived_address,
                forall|i: int, j: int|
                    0 <= i < k && 0 <= j < 4 ==> #[trigger] self.slots[i].state_in@[j]
                        == F::zero(),
                forall|i: int, j: int|
                    0 <= i < k && 0 <= j < 4 ==> #[trigger] self.slots[i].state_out@[j]
                        == F::zero(),
            decreases n - k,
        {
            let slot = &mut self.slots[k];
            wipe_state(&mut slot.state_in);
            wipe_state(&mut slot.state_out);
            k += 1;
        }
    }
}

/// The input of the one permutation.
pub open spec fn owner_input<F: TowerField>(iv: Seq<F>, secret: Seq<F>) -> Seq<F> {
    head(secret, iv)
}

/// The address of a secret.
pub open spec fn owner_address<F: TowerField>(
    params: PermParams<F>,
    iv: Seq<F>,
    secret: Seq<F>,
) -> Seq<F> {
    digest(permuted(params, owner_input(iv, secret)))
}

/// Runs the trace.
pub fn evaluate_owner_auth<F: TowerField>(
    params: &PermParams<F>,
    circuit: &OwnerAuthCircuit<F>,
    inputs: &OwnerAuthInputs<F>,
) -> (w: OwnerAuthTraceWitness<F>)
    requires
        circuit.slots.len() == OWNER_AUTH_LIVE_SLOTS,
    ensures
        w.slots.len() == OWNER_AUTH_LIVE_SLOTS,
        w.slots[0].of(*params, owner_input(circuit.slots[0].capacity_iv@, inputs.secret())),
        w.derived_address@ == owner_address(
            *params,
            circuit.slots[0].capacity_iv@,
            inputs.secret(),
        ),
{
    let mut slots: Vec<OwnerAuthSlotState<F>> = Vec::new();
    let slot = circuit.slots[0];
    let state_in = build_owner_auth_state_in(&slot, inputs);
    slots.push(SlotState::run(params, state_in));
    let derived_address = slots[OwnerAuthCircuit::<F>::haddr_output_slot()].digest();
    OwnerAuthTraceWitness { slots, derived_address }
}

/// The input of a permutation.
fn build_owner_auth_state_in<F: TowerField>(
    slot: &OwnerAuthSlotDescriptor<F>,
    inputs: &OwnerAuthInputs<F>,
) -> (r: [F; 4])
    ensures
        r@ == owner_input(slot.capacity_iv@, inputs.secret()),
{
    match slot.role {
        OwnerAuthSlotRole::HAddrPerm => head_state(&inputs.spend_secret, &slot.capacity_iv),
    }
}

/// The address of a secret.
pub fn compute_owner_auth_boundary<F: TowerField>(
    params: &PermParams<F>,
    circuit: &OwnerAuthCircuit<F>,
    spend_secret: [F; 2],
    tx_body_hash: [F; 2],
) -> (r: [F; 2])
    requires
        circuit.slots.len() == OWNER_AUTH_LIVE_SLOTS,
    ensures
        r@ == owner_address(*params, circuit.slots[0].capacity_iv@, spend_secret@),
{
    let zero = F::zero_value();
    let mut inputs = OwnerAuthInputs {
        layout: circuit.layout,
        spend_secret,
        tx_body_hash,
        expected_address: [zero, zero],
    };
    let mut w = evaluate_owner_auth(params, circuit, &inputs);
    let derived = w.derived_address;
    w.wipe();
    inputs.wipe();
    derived
}

/// The columns of the trace.
pub struct OwnerAuthUnifiedMle<F> {
    pub layout: OwnerAuthLayout,
    pub s_in: Vec<F>,
    pub s_out: Vec<F>,
    pub sigma: Vec<F>,
    pub state: Vec<F>,
}

impl<F: TowerField> OwnerAuthUnifiedMle<F> {
    /// Every column has one value a cell.
    pub open spec fn wf(&self) -> bool {
        &&& self.s_in.len() == 512
        &&& self.s_out.len() == 512
        &&& self.sigma.len() == 512
        &&& self.state.len() == 512
    }

    /// The columns of the permutations of `inputs`.
    pub open spec fn of(&self, params: PermParams<F>, inputs: Seq<Seq<F>>) -> bool {
        &&& self.s_in@ == sin_column(params, inputs, 512)
        &&& self.s_out@ == sout_column(params, inputs, 512)
        &&& self.sigma@ == sigma_column::<F>(inputs.len() as int, 512)
        &&& self.state@ == state_column(params, inputs, 512)
    }

    /// All the columns zero.
    pub fn zero(layout: OwnerAuthLayout) -> (r: Self)
        ensures
            r.wf(),
            forall|y: int| 0 <= y < 512 ==> #[trigger] r.s_in@[y] == F::zero(),
            forall|y: int| 0 <= y < 512 ==> #[trigger] r.s_out@[y] == F::zero(),
            forall|y: int| 0 <= y < 512 ==> #[trigger] r.sigma@[y] == F::zero(),
            forall|y: int| 0 <= y < 512 ==> #[trigger] r.state@[y] == F::zero(),
    {
        let c = TraceColumns::zero(layout.cells());
        OwnerAuthUnifiedMle {
            layout,
            s_in: c.s_in,
            s_out: c.s_out,
            sigma: c.sigma,
            state: c.state,
        }
    }

    /// Overwrites the columns, which hold what the secret can be told from.
    pub fn wipe(&mut self)
        ensures
            final(self).layout == old(self).layout,
            final(self).s_in.len() == old(self).s_in.len(),
            final(self).s_out.len() == old(self).s_out.len(),
            final(self).sigma.len() == old(self).sigma.len(),
            final(self).state.len() == old(self).state.len(),
            forall|y: int|
                0 <= y < final(self).s_in.len() ==> #[trigger] final(self).s_in@[y] == F::zero(),
            forall|y: int|
                0 <= y < final(self).s_out.len() ==> #[trigger] final(self).s_out@[y] == F::zero(),
            forall|y: int|
                0 <= y < final(self).sigma.len() ==> #[trigger] final(self).sigma@[y] == F::zero(),
            forall|y: int|
                0 <= y < final(self).state.len() ==> #[trigger] final(self).state@[y] == F::zero(),
    {
        wipe_elements(&mut self.s_in);
        wipe_elements(&mut self.s_out);
        wipe_elements(&mut self.sigma);
        wipe_elements(&mut self.state);
    }

    /// The index of a slot, a round and a lane.
    pub fn index(&self, slot: usize, round: usize, elem: usize) -> (r: usize)
        requires
            slot < OWNER_AUTH_PADDED_SLOTS,
            round < 128,
            elem < 4,
        ensures
            r == cell(slot as int, round as int, elem as int),
            r < 512,
    {
        self.layout.index(slot, round, elem)
    }

    /// Fills the cells of a slot from the witness of its permutation.
    pub fn populate_slot(&mut self, slot: usize, witness: &PermLayerWitness<F>)
        requires
            slot < OWNER_AUTH_LIVE_SLOTS,
            witness.kind.len() == N_ROUNDS,
            witness.state.len() == N_ROUNDS + 1,
            witness.sin.len() == N_ROUNDS,
            witness.sout.len() == N_ROUNDS,
            old(self).wf(),
        ensures
            final(self).wf(),
            final(self).layout == old(self).layout,
            forall|y: int|
                0 <= y < 512 ==> #[trigger] final(self).state@[y] == if round_of(y) <= N_ROUNDS {
                    witness.state[round_of(y)][lane_of(y)]
                } else {
                    old(self).state@[y]
                },
            forall|y: int|
                0 <= y < 512 ==> #[trigger] final(self).s_in@[y] == if round_of(y) < N_ROUNDS {
                    witness.sin[round_of(y)][lane_of(y)]
                } else {
                    old(self).s_in@[y]
                },
            forall|y: int|
                0 <= y < 512 ==> #[trigger] final(self).s_out@[y] == if round_of(y) < N_ROUNDS {
                    witness.sout[round_of(y)][lane_of(y)]
                } else {
                    old(self).s_out@[y]
                },
            forall|y: int|
                0 <= y < 512 ==> #[trigger] final(self).sigma@[y] == if round_of(y) < N_ROUNDS {
                    if witness.kind[round_of(y)] == RoundKind::Full || lane_of(y) == 0 {
                        F::one()
                    } else {
                        F::zero()
                    }
                } else {
                    old(self).sigma@[y]
                },
    {
        write_rows(&mut self.s_in, slot, &witness.sin, N_ROUNDS);
        write_rows(&mut self.s_out, slot, &witness.sout, N_ROUNDS);
        write_selectors(&mut self.sigma, slot, &witness.kind);
        write_rows(&mut self.state, slot, &witness.state, N_ROUNDS + 1);
    }
}

/// The selector of the power layer.
pub fn owner_auth_sigma_at<F: TowerField>(round: usize, elem: usize) -> (r: F)
    ensures
        r == sigma_at::<F>(round as int, elem as int),
{
    sigma_value(round, elem)
}

/// Runs the permutation of the trace and lays it out in columns.
pub fn build_owner_auth_unified_mle<F: TowerField>(
    params: &PermParams<F>,
    layout: OwnerAuthLayout,
    slot_state_ins: &[[F; 4]],
) -> (r: (OwnerAuthUnifiedMle<F>, Vec<PermLayerWitness<F>>))
    requires
        slot_state_ins.len() == OWNER_AUTH_LIVE_SLOTS,
    ensures
        r.0.wf(),
        r.0.layout == layout,
        r.0.of(*params, input_views(slot_state_ins@)),
        r.1.len() == slot_state_ins.len(),
        forall|s: int|
            0 <= s < slot_state_ins.len() ==> (#[trigger] r.1[s]).of(*params, slot_state_ins[s]@),
{
    let (c, witnesses) = build_columns(params, slot_state_ins, layout.cells());
    let mle = OwnerAuthUnifiedMle {
        layout,
        s_in: c.s_in,
        s_out: c.s_out,
        sigma: c.sigma,
        state: c.state,
    };
    (mle, witnesses)
}

/// The columns of an authorization.
pub fn build_owner_auth_unified_from_inputs<F: TowerField>(
    params: &PermParams<F>,
    circuit: &OwnerAuthCircuit<F>,
    inputs: &OwnerAuthInputs<F>,
) -> (mle: OwnerAuthUnifiedMle<F>)
    requires
        circuit.slots.len() == OWNER_AUTH_LIVE_SLOTS,
    ensures
        mle.wf(),
        mle.layout == circuit.layout,
        mle.of(
            *params,
            seq![owner_input(circuit.slots[0].capacity_iv@, inputs.secret())],
        ),
{
    let mut w = evaluate_owner_auth(params, circuit, inputs);
    let mut state_ins = vec![w.slots[0].state_in];
    proof {
        assert(input_views(state_ins@) =~= seq![
            owner_input(circuit.slots[0].capacity_iv@, inputs.secret()),
        ]);
    }
    let (mle, _witnesses) = build_owner_auth_unified_mle(
        params,
        circuit.layout,
        state_ins.as_slice(),
    );
    wipe_states(&mut state_ins);
    w.wipe();
    mle
}

/// The round of a cell.
pub fn owner_auth_round_of(layout: OwnerAuthLayout, idx: usize) -> (r: usize)
    ensures
        r == round_of(idx as int),
        r < 128,
{
    cell_round(idx)
}

/// The lane of a cell.
pub fn owner_auth_elem_of(idx: usize) -> (r: usize)
    ensures
        r == lane_of(idx as int),
        r < 4,
{
    cell_lane(idx)
}

/// The slot of a cell: there is only one.
pub fn owner_auth_slot_of(layout: OwnerAuthLayout, idx: usize) -> (r: usize)
    ensures
        r == 0,
        idx < 512 ==> r == slot_of(idx as int),
{
    0
}

/// The cell one round earlier, around the end.
pub fn owner_auth_dec_round_index(layout: OwnerAuthLayout, idx: usize) -> (r: usize)
    ensures
        r == dec(idx as int),
{
    dec_round_index(idx)
}

/// The index of a slot, a round and a lane.
pub fn owner_auth_pack_index(
    layout: OwnerAuthLayout,
    slot: usize,
    round: usize,
    elem: usize,
) -> (r: usize)
    requires
        slot < OWNER_AUTH_PADDED_SLOTS,
        round < 128,
        elem < 4,
    ensures
        r == cell(slot as int, round as int, elem as int),
        r < 512,
{
    layout.index(slot, round, elem)
}

/// The cell of the state that a constraint names.
pub fn owner_boundary_state_cell(
    layout: OwnerAuthLayout,
    slot: usize,
    round: usize,
    lane: usize,
) -> (r: usize)
    requires
        slot < OWNER_AUTH_PADDED_SLOTS,
        round < 128,
        lane < 4,
    ensures
        r == cell(slot as int, round as int, lane as int),
        r < 512,
{
    layout.index(slot, round, lane)
}

/// What the owner's authorization fixes: the permutation, the initial capacity
/// of the address, and an inverse of the first matrix.
pub struct OwnerAuthParams<F> {
    pub params: PermParams<F>,
    pub address_iv: [F; 2],
    pub mds_inverse: [[F; 4]; 4],
}

impl<F: TowerField> OwnerAuthParams<F> {
    /// The inverse is one.
    pub open spec fn wf(&self) -> bool {
        left_inverse(self.mds_inverse, self.params.mds_full)
    }

    /// Computes the inverse; there is none exactly when the matrix is singular.
    pub fn new(params: PermParams<F>, address_iv: [F; 2]) -> (r: Option<Self>)
        ensures
            r is None <==> singular(params.mds_full),
            r matches Some(p) ==> p.wf() && p.params == params && p.address_iv == address_iv,
    {
        match mds_full_inverse(&params.mds_full) {
            Some(mds_inverse) => Some(OwnerAuthParams { params, address_iv, mds_inverse }),
            None => None,
        }
    }
}

/// The terms of a lane of the input, as a combination of the first state.
pub open spec fn pre_terms<F: TowerField>(inv: [[F; 4]; 4], pre: int, coeff: F) -> Seq<
    OwnerBoundaryTerm<F>,
> {
    Seq::new(
        4,
        |post: int| OwnerBoundaryTerm { cell: post as usize, coeff: coeff.mul(inv[pre][post]) },
    )
}

/// The constraint that a lane of the input has a value.
pub open spec fn pre_constraint<F: TowerField>(inv: [[F; 4]; 4], pre: int, constant: F) ->
    ConstraintView<F> {
    ConstraintView { terms: pre_terms(inv, pre, F::one()), constant }
}

/// The constraint that a lane of the output has a value.
pub open spec fn output_constraint<F: TowerField>(lane: int, constant: F) -> ConstraintView<F> {
    ConstraintView {
        terms: seq![
            OwnerBoundaryTerm { cell: cell(0, N_ROUNDS as int, lane) as usize, coeff: F::one() },
        ],
        constant,
    }
}

/// The constraints of an authorization: the input has the initial capacity, and
/// the output is the address.
pub open spec fn owner_constraints<F: TowerField>(
    inv: [[F; 4]; 4],
    iv: [F; 2],
    address: [F; 2],
) -> Seq<ConstraintView<F>> {
    seq![
        pre_constraint(inv, 2, iv[0]),
        pre_constraint(inv, 3, iv[1]),
        output_constraint(0, address[0]),
        output_constraint(1, address[1]),
    ]
}

fn owner_boundary_push_pre_lane<F: TowerField>(
    terms: &mut Vec<OwnerBoundaryTerm<F>>,
    p: &OwnerAuthParams<F>,
    layout: OwnerAuthLayout,
    pre_lane: usize,
    coeff: F,
)
    requires
        pre_lane < 4,
    ensures
        final(terms)@ == old(terms)@ + pre_terms(p.mds_inverse, pre_lane as int, coeff),
{
    let ghost start = terms@;
    let ghost want = pre_terms(p.mds_inverse, pre_lane as int, coeff);
    let mut post: usize = 0;
    proof {
        assert(start + want.take(0) =~= start);
    }
    while post < 4
        invariant
            post <= 4,
            pre_lane < 4,
            want == pre_terms(p.mds_inverse, pre_lane as int, coeff),
            terms@ == start + want.take(post as int),
        decreases 4 - post,
    {
        let c = coeff.times(p.mds_inverse[pre_lane][post]);
        terms.push(
            OwnerBoundaryTerm { cell: owner_boundary_state_cell(layout, 0, 0, post), coeff: c },
        );
        proof {
            assert(terms@ =~= start + want.take(post + 1));
        }
        post += 1;
    }
    proof {
        assert(want.take(4) =~= want);
    }
}

fn owner_boundary_push_pre_equals_const<F: TowerField>(
    constraints: &mut Vec<OwnerBoundaryConstraint<F>>,
    p: &OwnerAuthParams<F>,
    layout: OwnerAuthLayout,
    pre_lane: usize,
    constant: F,
)
    requires
        pre_lane < 4,
    ensures
        constraint_views(final(constraints)@) == constraint_views(old(constraints)@).push(
            pre_constraint(p.mds_inverse, pre_lane as int, constant),
        ),
{
    let ghost start = constraint_views(constraints@);
    let mut terms: Vec<OwnerBoundaryTerm<F>> = Vec::new();
    owner_boundary_push_pre_lane(&mut terms, p, layout, pre_lane, F::one_value());
    proof {
        assert(terms@ =~= pre_terms(p.mds_inverse, pre_lane as int, F::one()));
    }
    constraints.push(OwnerBoundaryConstraint { terms, constant });
    proof {
        assert(constraint_views(constraints@) =~= start.push(
            pre_constraint(p.mds_inverse, pre_lane as int, constant),
        ));
    }
}

fn owner_boundary_push_output_equals_const<F: TowerField>(
    constraints: &mut Vec<OwnerBoundaryConstraint<F>>,
    layout: OwnerAuthLayout,
    lane: usize,
    constant: F,
)
    requires
        lane < 4,
    ensures
        constraint_views(final(constraints)@) == constraint_views(old(constraints)@).push(
            output_constraint(lane as int, constant),
        ),
{
    let ghost start = constraint_views(constraints@);
    let mut terms: Vec<OwnerBoundaryTerm<F>> = Vec::new();
    terms.push(
        OwnerBoundaryTerm {
            cell: owner_boundary_state_cell(layout, 0, N_ROUNDS, lane),
            coeff: F::one_value(),
        },
    );
    proof {
        assert(terms@ =~= output_constraint(lane as int, constant).terms);
    }
    constraints.push(OwnerBoundaryConstraint { terms, constant });
    proof {
        assert(constraint_views(constraints@) =~= start.push(
            output_constraint(lane as int, constant),
        ));
    }
}

/// Builds the constraints of an authorization.
pub fn owner_auth_boundary_constraints<F: TowerField>(
    p: &OwnerAuthParams<F>,
    public: &OwnerAuthPublicInputs<F>,
) -> (r: Vec<OwnerBoundaryConstraint<F>>)
    ensures
        constraint_views(r@) == owner_constraints(
            p.mds_inverse,
            p.address_iv,
            public.expected_address,
        ),
        constraints_wf(constraint_views(r@), 512),
{
    let layout = public.layout;
    let mut r: Vec<OwnerBoundaryConstraint<F>> = Vec::new();
    owner_boundary_push_pre_equals_const(&mut r, p, layout, 2, p.address_iv[0]);
    owner_boundary_push_pre_equals_const(&mut r, p, layout, 3, p.address_iv[1]);
    owner_boundary_push_output_equals_const(&mut r, layout, 0, public.expected_address[0]);
    owner_boundary_push_output_equals_const(&mut r, layout, 1, public.expected_address[1]);
    proof {
        let want = owner_constraints(p.mds_inverse, p.address_iv, public.expected_address);
        assert(constraint_views(r@) =~= want);
        lemma_constraints_wf(p.mds_inverse, p.address_iv, public.expected_address);
    }
    r
}

pub proof fn lemma_constraints_wf<F: TowerField>(inv: [[F; 4]; 4], iv: [F; 2], address: [F; 2])
    ensures
        constraints_wf(owner_constraints(inv, iv, address), 512),
{
    let want = owner_constraints(inv, iv, address);
    assert forall|c: int, t: int|
        0 <= c < want.len() && 0 <= t < want[c].terms.len() implies #[trigger] want[c].terms[t].cell
        < 512 by {}
}

/// The first state of the trace, times the inverse, is the input of the
/// permutation: the trace holds the secret.
pub proof fn lemma_first_state<F: TowerField>(
    p: OwnerAuthParams<F>,
    input: Seq<F>,
    pre: int,
)
    requires
        p.wf(),
        input.len() == 4,
        0 <= pre < 4,
    ensures
        ({
            let state = state_column(p.params, seq![input], 512);
            sum(4, |post: int| p.mds_inverse[pre][post].mul(state[cell(0, 0, post)])) == input[pre]
        }),
{
    let inv = p.mds_inverse;
    let m = p.params.mds_full;
    let state = state_column(p.params, seq![input], 512);
    let left = |post: int| inv[pre][post].mul(state[cell(0, 0, post)]);
    let right = |post: int| inv[pre][post].mul(dot(m[post]@, input));
    assert forall|post: int| 0 <= post < 4 implies #[trigger] left(post) == right(post) by {
        lemma_parts_of_cell(0, 0, post);
        let y = cell(0, 0, post);
        assert(state[y] == state_cell(p.params, seq![input], y));
        let full = |i: int, j: int| p.params.mds_full[i][j];
        assert(layer_state(p.params, input, 0) == mds_apply(full, input));
        let f = |j: int| full(post, j).mul(input[j]);
        let g = |j: int| m[post]@[j].mul(input[j]);
        assert forall|j: int| 0 <= j < 4 implies #[trigger] f(j) == g(j) by {}
        lemma_sum_ext(4, f, g);
        assert(state[y] == sum(4, f));
    }
    lemma_sum_ext(4, left, right);
    lemma_left_inverse(inv, m, input, pre);
}

/// The constraints hold of the trace of a secret exactly when the address is
/// that of the secret.
pub proof fn lemma_owner_constraints<F: TowerField>(
    p: OwnerAuthParams<F>,
    secret: Seq<F>,
    address: [F; 2],
)
    requires
        p.wf(),
        secret.len() == 2,
    ensures
        constraints_hold(
            owner_constraints(p.mds_inverse, p.address_iv, address),
            state_column(p.params, seq![owner_input(p.address_iv@, secret)], 512),
        ) <==> address@ == owner_address(p.params, p.address_iv@, secret),
{
    let input = owner_input(p.address_iv@, secret);
    let ins = seq![input];
    let state = state_column(p.params, ins, 512);
    let want = owner_constraints(p.mds_inverse, p.address_iv, address);
    let out = permuted(p.params, input);
    assert forall|c: int| 0 <= c < 2 implies (#[trigger] want[c]).constant == constraint_value(
        want[c].terms,
        state,
    ) by {
        let pre = c + 2;
        let terms = want[c].terms;
        assert(want[c] == pre_constraint(p.mds_inverse, pre, p.address_iv[c]));
        lemma_first_state(p, input, pre);
        let f = |t: int| terms[t].coeff.mul(state[terms[t].cell as int]);
        let g = |post: int| p.mds_inverse[pre][post].mul(state[cell(0, 0, post)]);
        assert forall|t: int| 0 <= t < 4 implies #[trigger] f(t) == g(t) by {
            lemma_units(p.mds_inverse[pre][t]);
        }
        lemma_sum_ext(4, f, g);
    }
    assert forall|lane: int| 0 <= lane < 2 implies #[trigger] constraint_value(
        output_constraint::<F>(lane, address[lane]).terms,
        state,
    ) == out[lane] by {
        let terms = output_constraint::<F>(lane, address[lane]).terms;
        let y = cell(0, N_ROUNDS as int, lane);
        lemma_parts_of_cell(0, N_ROUNDS as int, lane);
        assert(state[y] == state_cell(p.params, ins, y));
        let f = |t: int| terms[t].coeff.mul(state[terms[t].cell as int]);
        assert(sum(1, f) == sum(0, f).add(f(0))) by {
            reveal_with_fuel(sum, 2);
        }
        lemma_units(out[lane]);
    }
    assert(want[2] == output_constraint::<F>(0, address[0]));
    assert(want[3] == output_constraint::<F>(1, address[1]));
    if constraints_hold(want, state) {
        assert(want[2].constant == constraint_value(want[2].terms, state));
        assert(want[3].constant == constraint_value(want[3].terms, state));
        assert(address@ =~= digest(out));
    }
    if address@ == digest(out) {
        assert(address[0] == address@[0] && address[1] == address@[1]);
        assert forall|c: int| 0 <= c < want.len() implies (#[trigger] want[c]).constant
            == constraint_value(want[c].terms, state) by {
            if c >= 2 {
                assert(want[c] == output_constraint::<F>(c - 2, address[c - 2]));
            }
        }
    }
}

/// The canonical statement of a transaction: its body hash, its one owner, and
/// the position of its first live input.
#[derive(Clone, Copy, Debug, PartialEq, Eq)]
pub struct CanonicalOwnerAuth<F> {
    pub tx_body_hash: [F; 2],
    pub input_owner: [F; 2],
    pub first_live_input: usize,
}

/// Why there is no authorization of a transaction; `E` is why the transaction
/// has no canonical statement.
#[derive(Clone, Copy, Debug, PartialEq, Eq)]
pub enum OwnerAuthStatementError<E> {
    Canonical(E),
    LiveInputCountOutOfRange { actual: usize, max: usize },
    SecretMismatch { input_position: usize },
}

impl<E> From<E> for OwnerAuthStatementError<E> {
    fn from(value: E) -> (r: Self) {
        OwnerAuthStatementError::Canonical(value)
    }
}

impl<E> vstd::std_specs::convert::FromSpecImpl<E> for OwnerAuthStatementError<E> {
    open spec fn obeys_from_spec() -> bool {
        true
    }

    open spec fn from_spec(value: E) -> Self {
        OwnerAuthStatementError::Canonical(value)
    }
}

/// The public part of an authorization of a statement. Every statement has one.
pub fn owner_auth_public_from_statement<F: TowerField, E>(
    statement: &CanonicalOwnerAuth<F>,
) -> (r: Result<OwnerAuthPublicInputs<F>, OwnerAuthStatementError<E>>)
    ensures
        r matches Ok(public) && public.tx_body_hash == statement.tx_body_hash
            && public.expected_address == statement.input_owner,
{
    Ok(OwnerAuthPublicInputs::new(statement.tx_body_hash, statement.input_owner))
}

/// The public part of an authorization of a transaction, given its canonical
/// statement or why it has none.
pub fn owner_auth_public_from_body<F: TowerField, E>(
    canonical: Result<CanonicalOwnerAuth<F>, E>,
) -> (r: Result<OwnerAuthPublicInputs<F>, OwnerAuthStatementError<E>>)
    ensures
        match canonical {
            Ok(statement) => r matches Ok(public) && public.tx_body_hash == statement.tx_body_hash
                && public.expected_address == statement.input_owner,
            Err(e) => r == Err::<OwnerAuthPublicInputs<F>, _>(
                OwnerAuthStatementError::Canonical(e),
            ),
        },
{
    match canonical {
        Ok(statement) => owner_auth_public_from_statement(&statement),
        Err(e) => Err(OwnerAuthStatementError::from(e)),
    }
}

/// The authorization of a transaction by a secret, given its canonical statement
/// or why it has none. The secret has to derive the owner of the statement.
pub fn owner_auth_trace_inputs_from_body_and_secret<F: TowerField, E>(
    params: &PermParams<F>,
    circuit: &OwnerAuthCircuit<F>,
    canonical: Result<CanonicalOwnerAuth<F>, E>,
    spend_secret: [F; 2],
) -> (r: Result<OwnerAuthInputs<F>, OwnerAuthStatementError<E>>)
    requires
        circuit.slots.len() == OWNER_AUTH_LIVE_SLOTS,
    ensures
        match canonical {
            Ok(statement) => {
                let derived = owner_address(
                    *params,
                    circuit.slots[0].capacity_iv@,
                    spend_secret@,
                );
                if derived == statement.input_owner@ {
                    r matches Ok(inputs) && inputs.secret() == spend_secret@
                        && inputs.public().tx_body_hash == statement.tx_body_hash
                        && inputs.public().expected_address == statement.input_owner
                } else {
                    r matches Err(OwnerAuthStatementError::SecretMismatch { input_position })
                        && input_position == statement.first_live_input
                }
            },
            Err(e) => r matches Err(OwnerAuthStatementError::Canonical(got)) && got == e,
        },
{
    let statement = match canonical {
        Ok(statement) => statement,
        Err(e) => {
            return Err(OwnerAuthStatementError::from(e));
        },
    };
    let derived = compute_owner_auth_boundary(
        params,
        circuit,
        spend_secret,
        statement.tx_body_hash,
    );
    if !same_pair(&derived, &statement.input_owner) {
        return Err(
            OwnerAuthStatementError::SecretMismatch { input_position: statement.first_live_input },
        );
    }
    match owner_auth_public_from_statement(&statement) {
        Ok(public) => Ok(OwnerAuthInputs::from_parts(&public, spend_secret)),
        Err(e) => Err(e),
    }
}

} // verus!
