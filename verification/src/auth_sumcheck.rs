//! The proof of an authorization, permutation by permutation.
//!
//! Every permutation is proved down to a claim on the outputs of its power layers
//! and three claims on its states. The claims are lifted to one column that holds
//! the states of all the permutations and then their outputs, the addresses and
//! tags are pinned to that column, and all the claims are reduced to one.
use vstd::prelude::*;
use vstd::arithmetic::power2::{lemma_pow2_adds, pow2};
use crate::auth_circuit::{AuthCircuit, AuthInputs, AuthIvs, N_AUTH_INPUTS, N_AUTH_SLOTS};
use crate::auth_killshot::{absorb_public_boundary, auth_pins, auth_state_ins, lemma_auth_pins};
use crate::auth_oracle::{auth_input, derived_address, derived_auth_tag, evaluate_auth};
use crate::batch_eval::{BatchEvalProof, BatchEvalReduction, ClaimView, EvalClaim, batch_accepts, batch_check_run, batch_messages, batch_run, batch_shape, claims_hold, claims_view, claims_wf, lemma_batch_complete, prove_batch_eval, verify_batch_eval};
use crate::field::{BinaryField, TowerField};
use crate::layers::{N_ROUNDS, PermParams};
use crate::mle::{boolean_point, cube_point, evaluate_slice, fold, lemma_cube_point_len, lemma_half_pow2, lemma_line_ends, lemma_mle_on_cube, mle};
use crate::perm_sumcheck::{N_PERM_CELLS, N_PERM_VARS, PermProof, PermStateClaim, is_perm_proof, lemma_perm_complete, perm_run, perm_sout, perm_state, perm_verdict, prove_perm_with_mle, state_claims_view, verify_perm};
use crate::trace::{cell, lemma_parts_of_cell, pack_index};
use crate::trace_mle::{build_columns, input_views, sout_cell, sout_column, state_cell, state_column};
use crate::transcript::{FiatShamir, absorb_all};

verus! {

/// The slots of the column.
pub const N_AUTH_SLOTS_PADDED: usize = 32;

/// The variables of a slot.
pub const N_AUTH_SLOT_VARS: usize = 5;

/// The variable that tells the states from the outputs.
pub const N_AUTH_COL_VARS: usize = 1;

/// The variables of the column.
pub const N_AUTH_BOUNDARY_VARS: usize = N_PERM_VARS + N_AUTH_SLOT_VARS + N_AUTH_COL_VARS;

/// The cells of the column.
pub const N_AUTH_BOUNDARY_CELLS: usize = 32768;

/// The lanes of an address or a tag.
pub const AUTH_PIN_LANES: usize = 2;

/// The proof of an authorization.
#[derive(Clone, Debug, PartialEq, Eq)]
pub struct AuthProof<F> {
    pub slots: Vec<PermProof<F>>,
    pub slot_v0: Vec<F>,
    pub boundary: BatchEvalProof<F>,
}

/// The size of the first `k` proofs.
pub open spec fn slots_size<F: TowerField>(slots: Seq<PermProof<F>>, k: nat) -> nat
    decreases k,
{
    if k == 0 {
        0
    } else {
        slots_size(slots, (k - 1) as nat) + slots[k - 1].size()
    }
}

proof fn lemma_slots_size<F: TowerField>(slots: Seq<PermProof<F>>, j: nat, k: nat)
    requires
        j <= k <= slots.len(),
    ensures
        slots_size(slots, j) <= slots_size(slots, k),
    decreases k,
{
    if j < k {
        lemma_slots_size(slots, j, (k - 1) as nat);
    }
}

impl<F: TowerField> AuthProof<F> {
    /// The size in bytes: 16 a field element.
    pub open spec fn size(&self) -> nat {
        slots_size(self.slots@, self.slots.len() as nat) + self.slot_v0.len() as nat * 16
            + self.boundary.rounds.len() as nat * 48 + 16
    }

    /// Computes [`AuthProof::size`].
    pub fn byte_len(&self) -> (r: usize)
        requires
            self.size() <= usize::MAX,
        ensures
            r == self.size(),
    {
        let mut slots: usize = 0;
        let mut i: usize = 0;
        while i < self.slots.len()
            invariant
                i <= self.slots.len(),
                slots == slots_size(self.slots@, i as nat),
                slots_size(self.slots@, self.slots.len() as nat) <= usize::MAX,
            decreases self.slots.len() - i,
        {
            proof {
                lemma_slots_size(self.slots@, (i + 1) as nat, self.slots.len() as nat);
            }
            slots = slots + self.slots[i].byte_len();
            i += 1;
        }
        slots + self.slot_v0.len() * 16 + self.boundary.byte_len()
    }
}

/// The column of an authorization: the states of its permutations, then the
/// outputs of their power layers.
pub open spec fn boundary_column<F: TowerField>(params: PermParams<F>, ins: Seq<Seq<F>>) -> Seq<F> {
    state_column(params, ins, 16384) + sout_column(params, ins, 16384)
}

/// Builds the column from the inputs of the permutations.
fn build_boundary<F: TowerField>(params: &PermParams<F>, ins: &[[F; 4]]) -> (b: Vec<F>)
    requires
        ins.len() <= N_AUTH_SLOTS_PADDED,
    ensures
        b@ == boundary_column(*params, input_views(ins@)),
        b.len() == N_AUTH_BOUNDARY_CELLS,
{
    let (columns, _witnesses) = build_columns(params, ins, 16384);
    let mut b = columns.state;
    let mut outputs = columns.s_out;
    b.append(&mut outputs);
    proof {
        assert(b@ =~= boundary_column(*params, input_views(ins@)));
    }
    b
}

/// Builds the column from the states of the permutations.
pub fn build_auth_boundary_mle<F: TowerField>(
    params: &PermParams<F>,
    slot_states: &[([F; 4], [F; 4])],
) -> (b: Vec<F>)
    requires
        slot_states.len() == N_AUTH_SLOTS,
    ensures
        b@ == boundary_column(
            *params,
            Seq::new(slot_states.len() as nat, |s: int| slot_states[s].0@),
        ),
        b.len() == N_AUTH_BOUNDARY_CELLS,
{
    let mut ins: Vec<[F; 4]> = Vec::new();
    let mut s: usize = 0;
    while s < slot_states.len()
        invariant
            s <= slot_states.len(),
            ins.len() == s,
            forall|k: int| 0 <= k < s ==> #[trigger] ins[k] == slot_states[k].0,
        decreases slot_states.len() - s,
    {
        ins.push(slot_states[s].0);
        s += 1;
    }
    proof {
        assert(input_views(ins@) =~= Seq::new(
            slot_states.len() as nat,
            |s: int| slot_states[s].0@,
        ));
    }
    build_boundary(params, ins.as_slice())
}

/// A claim on a permutation, lifted to the column: `part` is zero for the states
/// and one for the outputs.
pub open spec fn lifted<F: BinaryField>(s: int, part: int, claim: ClaimView<F>) -> ClaimView<F> {
    ClaimView { point: claim.point + cube_point::<F>(6, 32 * part + s), value: claim.value }
}

/// The claims of a permutation, lifted to the column.
pub open spec fn slot_claims<F: BinaryField>(
    s: int,
    r0: Seq<F>,
    v0: F,
    claims: Seq<ClaimView<F>>,
) -> Seq<ClaimView<F>> {
    seq![lifted(s, 1, ClaimView { point: r0, value: v0 })] + Seq::new(
        claims.len(),
        |c: int| lifted(s, 0, claims[c]),
    )
}

/// A point of the cube after a point picks one of the parts of a table.
proof fn lemma_mle_part<F: BinaryField>(t: Seq<F>, p: Seq<F>, k: nat, i: int)
    requires
        t.len() == pow2(p.len() + k),
        0 <= i < pow2(k),
    ensures
        ({
            let n = pow2(p.len()) as int;
            &&& i * n + n <= t.len()
            &&& mle(t, p + cube_point::<F>(k, i)) == mle(t.subrange(i * n, i * n + n), p)
        }),
    decreases k,
{
    let n = pow2(p.len()) as int;
    let q = cube_point::<F>(k, i);
    if k == 0 {
        vstd::arithmetic::power2::lemma2_to64();
        assert(p + q =~= p);
        assert(i * n == 0) by (nonlinear_arith)
            requires
                i == 0,
        ;
        assert(t.subrange(0, n) =~= t);
    } else {
        let h = pow2((k - 1) as nat) as int;
        lemma_half_pow2(k);
        lemma_half_pow2(p.len() + k);
        lemma_pow2_adds(p.len(), (k - 1) as nat);
        let half = t.len() / 2;
        let (j, b) = if i < h {
            (i, F::zero())
        } else {
            (i - h, F::one())
        };
        let all = p + q;
        assert(all.last() == b);
        assert(all.drop_last() =~= p + cube_point::<F>((k - 1) as nat, j));
        let f = fold(t, b);
        assert(f =~= if i < h {
            t.subrange(0, half as int)
        } else {
            t.subrange(half as int, t.len() as int)
        }) by {
            assert forall|x: int| 0 <= x < half implies f[x] == if i < h {
                t[x]
            } else {
                t[x + half]
            } by {
                lemma_line_ends(t[x], t[x + half]);
            }
        }
        assert(half == h * n) by (nonlinear_arith)
            requires
                half == n * h,
        ;
        lemma_mle_part(f, p, (k - 1) as nat, j);
        assert(j * n + n <= h * n) by (nonlinear_arith)
            requires
                0 <= j < h,
                n >= 0,
        ;
        assert(mle(t, p + q) == mle(f.subrange(j * n, j * n + n), p));
        if i < h {
            assert(f.subrange(j * n, j * n + n) =~= t.subrange(i * n, i * n + n));
        } else {
            assert(i * n == half + j * n) by (nonlinear_arith)
                requires
                    i == j + h,
                    half == h * n,
            ;
            assert(f.subrange(j * n, j * n + n) =~= t.subrange(i * n, i * n + n));
        }
    }
}

/// The part of the column that belongs to a permutation.
proof fn lemma_slot_part<F: TowerField>(params: PermParams<F>, ins: Seq<Seq<F>>, s: int)
    requires
        0 <= s < ins.len(),
        ins.len() <= 32,
    ensures
        ({
            let b = boundary_column(params, ins);
            &&& b.len() == 32768
            &&& b.subrange(s * 512, s * 512 + 512) == perm_state(params, ins[s])
            &&& b.subrange((32 + s) * 512, (32 + s) * 512 + 512) == perm_sout(params, ins[s])
        }),
{
    let b = boundary_column(params, ins);
    let one = seq![ins[s]];
    assert forall|y: int| 0 <= y < 512 implies state_cell(params, ins, s * 512 + y) == state_cell(
        params,
        one,
        y,
    ) && sout_cell(params, ins, s * 512 + y) == sout_cell(params, one, y) by {
        let z = s * 512 + y;
        assert(z / 512 == s);
        assert((z / 4) % 128 == (y / 4) % 128);
        assert(z % 4 == y % 4);
        assert(y / 512 == 0);
    }
    assert(b.subrange(s * 512, s * 512 + 512) =~= perm_state(params, ins[s]));
    assert(b.subrange((32 + s) * 512, (32 + s) * 512 + 512) =~= perm_sout(params, ins[s]));
}

/// A lifted claim is true of the column exactly when the claim is true of its
/// permutation.
pub proof fn lemma_lifted<F: TowerField>(
    params: PermParams<F>,
    ins: Seq<Seq<F>>,
    s: int,
    point: Seq<F>,
    value: F,
)
    requires
        0 <= s < ins.len(),
        ins.len() <= 32,
        point.len() == 9,
    ensures
        ({
            let b = boundary_column(params, ins);
            let claim = ClaimView { point, value };
            &&& lifted(s, 0, claim).point.len() == 15
            &&& lifted(s, 1, claim).point.len() == 15
            &&& mle(b, lifted(s, 0, claim).point) == mle(perm_state(params, ins[s]), point)
            &&& mle(b, lifted(s, 1, claim).point) == mle(perm_sout(params, ins[s]), point)
        }),
{
    vstd::arithmetic::power2::lemma2_to64();
    let b = boundary_column(params, ins);
    lemma_slot_part(params, ins, s);
    lemma_cube_point_len::<F>(6, s);
    lemma_cube_point_len::<F>(6, 32 + s);
    lemma_mle_part(b, point, 6, s);
    lemma_mle_part(b, point, 6, 32 + s);
}

/// Lifts a claim to the column.
fn lift_claim<F: TowerField>(s: usize, part: usize, point: &[F], value: F) -> (r: EvalClaim<F>)
    requires
        s < 32,
        part < 2,
    ensures
        r.point@ == lifted(
            s as int,
            part as int,
            (ClaimView { point: point@, value }),
        ).point,
        r.value == value,
        r.point.len() == point.len() + 6,
{
    proof {
        vstd::arithmetic::power2::lemma2_to64();
    }
    let mut out = crate::table::copied(point);
    let mut bits = boolean_point::<F>(6, 32 * part + s);
    out.append(&mut bits);
    EvalClaim { point: out, value }
}

/// Appends the claims of a permutation.
fn push_slot_claims<F: TowerField>(
    out: &mut Vec<EvalClaim<F>>,
    s: usize,
    r0: &Vec<F>,
    v0: F,
    claims: &Vec<PermStateClaim<F>>,
)
    requires
        s < 32,
    ensures
        claims_view(final(out)@) == claims_view(old(out)@) + slot_claims(
            s as int,
            r0@,
            v0,
            state_claims_view(claims@),
        ),
        final(out).len() == old(out).len() + 1 + claims.len(),
{
    let ghost start = claims_view(out@);
    let ghost want = slot_claims(s as int, r0@, v0, state_claims_view(claims@));
    out.push(lift_claim(s, 1, r0.as_slice(), v0));
    proof {
        assert(claims_view(out@) =~= start + want.take(1));
    }
    let mut c: usize = 0;
    while c < claims.len()
        invariant
            c <= claims.len(),
            s < 32,
            want == slot_claims(s as int, r0@, v0, state_claims_view(claims@)),
            want.len() == claims.len() + 1,
            out.len() == old(out).len() + 1 + c,
            claims_view(out@) == start + want.take(c + 1),
        decreases claims.len() - c,
    {
        let claim = &claims[c];
        let ghost before = claims_view(out@);
        out.push(lift_claim(s, 0, claim.point.as_slice(), claim.value));
        proof {
            assert(claims_view(out@) =~= before.push(want[c + 1]));
            assert(claims_view(out@) =~= start + want.take(c + 2));
        }
        c += 1;
    }
    proof {
        assert(want.take(claims.len() + 1) =~= want);
    }
}

/// The cell of a lane of the output of a permutation.
pub fn auth_boundary_output_cell(slot: usize, lane: usize) -> (r: usize)
    requires
        slot < N_AUTH_SLOTS,
        lane < AUTH_PIN_LANES,
    ensures
        r == cell(slot as int, N_ROUNDS as int, lane as int),
        r < N_AUTH_BOUNDARY_CELLS,
{
    pack_index(slot, N_ROUNDS, lane)
}

/// The point of a cell of the column.
pub fn point_for_auth_boundary_cell<F: TowerField>(at: usize) -> (p: Vec<F>)
    requires
        at < N_AUTH_BOUNDARY_CELLS,
    ensures
        p@ == cube_point::<F>(N_AUTH_BOUNDARY_VARS as nat, at as int),
        p.len() == N_AUTH_BOUNDARY_VARS,
{
    proof {
        vstd::arithmetic::power2::lemma2_to64();
    }
    boolean_point(N_AUTH_BOUNDARY_VARS, at)
}

/// A cell of the column, and the value that it has to have.
#[derive(Clone, Copy, Debug, PartialEq, Eq, Structural)]
pub struct AuthOutputPin<F> {
    pub cell: usize,
    pub value: F,
}

/// The pins of the addresses and of the tags.
#[derive(Clone, Debug, PartialEq, Eq)]
pub struct AuthBoundaryPins<F> {
    pub address: Vec<[AuthOutputPin<F>; 2]>,
    pub auth_tag: Vec<[AuthOutputPin<F>; 2]>,
}

/// The claim of a pin.
pub open spec fn pin_claim<F: BinaryField>(pin: AuthOutputPin<F>) -> ClaimView<F> {
    ClaimView { point: cube_point(N_AUTH_BOUNDARY_VARS as nat, pin.cell as int), value: pin.value }
}

/// The claims of pairs of pins.
pub open spec fn pin_claims<F: BinaryField>(pins: Seq<[AuthOutputPin<F>; 2]>) -> Seq<ClaimView<F>> {
    Seq::new(2 * pins.len(), |j: int| pin_claim(pins[j / 2][j % 2]))
}

/// The two pins of a digest.
fn digest_pins<F: TowerField>(slot: usize, digest: &[F; 2]) -> (r: [AuthOutputPin<F>; 2])
    requires
        slot < N_AUTH_SLOTS,
    ensures
        forall|lane: int|
            0 <= lane < 2 ==> (#[trigger] r[lane]).cell == cell(
                slot as int,
                N_ROUNDS as int,
                lane,
            ) && r[lane].value == digest[lane],
{
    [
        AuthOutputPin { cell: auth_boundary_output_cell(slot, 0), value: digest[0] },
        AuthOutputPin { cell: auth_boundary_output_cell(slot, 1), value: digest[1] },
    ]
}

/// Appends the claims of pairs of pins.
fn push_pin_claims<F: TowerField>(
    out: &mut Vec<EvalClaim<F>>,
    pins: &Vec<[AuthOutputPin<F>; 2]>,
)
    requires
        forall|i: int, lane: int|
            0 <= i < pins.len() && 0 <= lane < 2 ==> (#[trigger] pins[i][lane]).cell
                < N_AUTH_BOUNDARY_CELLS,
    ensures
        claims_view(final(out)@) == claims_view(old(out)@) + pin_claims(pins@),
{
    let ghost start = claims_view(out@);
    let ghost want = pin_claims(pins@);
    let mut i: usize = 0;
    proof {
        assert(start + want.take(0) =~= start);
    }
    while i < pins.len()
        invariant
            i <= pins.len(),
            want == pin_claims(pins@),
            claims_view(out@) == start + want.take(2 * i),
            forall|i: int, lane: int|
                0 <= i < pins.len() && 0 <= lane < 2 ==> (#[trigger] pins[i][lane]).cell
                    < N_AUTH_BOUNDARY_CELLS,
        decreases pins.len() - i,
    {
        let pair = pins[i];
        proof {
            assert(pins[i as int][0].cell < N_AUTH_BOUNDARY_CELLS);
            assert(pins[i as int][1].cell < N_AUTH_BOUNDARY_CELLS);
            assert((2 * i) / 2 == i && (2 * i) % 2 == 0);
            assert((2 * i + 1) / 2 == i && (2 * i + 1) % 2 == 1);
        }
        let (low, high) = (pair[0], pair[1]);
        let ghost before = claims_view(out@);
        out.push(EvalClaim { point: point_for_auth_boundary_cell(low.cell), value: low.value });
        out.push(EvalClaim { point: point_for_auth_boundary_cell(high.cell), value: high.value });
        proof {
            assert(claims_view(out@) =~= before.push(want[2 * i as int]).push(want[2 * i + 1]));
            assert(claims_view(out@) =~= start + want.take(2 * (i + 1)));
        }
        i += 1;
    }
    proof {
        assert(want.take(2 * pins.len() as int) =~= want);
    }
}

impl<F: TowerField> AuthBoundaryPins<F> {
    /// Every pin names a cell of the column.
    pub open spec fn wf(&self) -> bool {
        &&& forall|i: int, lane: int|
            0 <= i < self.address.len() && 0 <= lane < 2 ==> (#[trigger] self.address[i][lane]).cell
                < N_AUTH_BOUNDARY_CELLS
        &&& forall|i: int, lane: int|
            0 <= i < self.auth_tag.len() && 0 <= lane < 2 ==> (
            #[trigger] self.auth_tag[i][lane]).cell < N_AUTH_BOUNDARY_CELLS
    }

    /// The claims of the pins: the addresses, then the tags.
    pub open spec fn claims(&self) -> Seq<ClaimView<F>> {
        pin_claims(self.address@) + pin_claims(self.auth_tag@)
    }

    /// The pins of what is public of an authorization.
    pub fn from_public_inputs(inputs: &AuthInputs<F>) -> (r: Self)
        requires
            inputs.wf(N_AUTH_INPUTS as nat),
        ensures
            r.wf(),
            r.claims() == auth_pins(
                N_AUTH_BOUNDARY_VARS as nat,
                inputs.expected_address@,
                inputs.expected_auth_tag@,
            ),
    {
        let mut address: Vec<[AuthOutputPin<F>; 2]> = Vec::new();
        let mut auth_tag: Vec<[AuthOutputPin<F>; 2]> = Vec::new();
        let mut i: usize = 0;
        while i < N_AUTH_INPUTS
            invariant
                i <= N_AUTH_INPUTS,
                inputs.wf(N_AUTH_INPUTS as nat),
                address.len() == i,
                auth_tag.len() == i,
                forall|k: int, lane: int|
                    0 <= k < i && 0 <= lane < 2 ==> (#[trigger] address[k][lane]).cell == cell(
                        5 * k + 1,
                        N_ROUNDS as int,
                        lane,
                    ) && address[k][lane].value == inputs.expected_address[k][lane],
                forall|k: int, lane: int|
                    0 <= k < i && 0 <= lane < 2 ==> (#[trigger] auth_tag[k][lane]).cell == cell(
                        5 * k + 4,
                        N_ROUNDS as int,
                        lane,
                    ) && auth_tag[k][lane].value == inputs.expected_auth_tag[k][lane],
            decreases N_AUTH_INPUTS - i,
        {
            let addr_slot: usize = AuthCircuit::<F>::haddr_output_slot(i);
            let tag_slot: usize = AuthCircuit::<F>::hauth_output_slot(i);
            address.push(digest_pins(addr_slot, &inputs.expected_address[i]));
            auth_tag.push(digest_pins(tag_slot, &inputs.expected_auth_tag[i]));
            i += 1;
        }
        let r = AuthBoundaryPins { address, auth_tag };
        proof {
            let want = auth_pins(
                N_AUTH_BOUNDARY_VARS as nat,
                inputs.expected_address@,
                inputs.expected_auth_tag@,
            );
            assert forall|j: int| 0 <= j < 16 implies r.claims()[j] == want[j] by {
                if j < 8 {
                    assert(address[j / 2][j % 2].cell == cell(
                        5 * (j / 2) + 1,
                        N_ROUNDS as int,
                        j % 2,
                    ));
                } else {
                    let k = j - 8;
                    assert(auth_tag[k / 2][k % 2].cell == cell(
                        5 * (k / 2) + 4,
                        N_ROUNDS as int,
                        k % 2,
                    ));
                }
            }
            assert(r.claims() =~= want);
        }
        r
    }

    /// Builds the claims of the pins.
    pub fn as_eval_claims(&self) -> (r: Vec<EvalClaim<F>>)
        requires
            self.wf(),
        ensures
            claims_view(r@) == self.claims(),
    {
        let mut r: Vec<EvalClaim<F>> = Vec::new();
        push_pin_claims(&mut r, &self.address);
        push_pin_claims(&mut r, &self.auth_tag);
        proof {
            assert(claims_view(r@) =~= self.claims());
        }
        r
    }
}

/// The states of the permutations of an authorization.
pub fn reconstruct_auth_slot_states<F: TowerField>(
    params: &PermParams<F>,
    ivs: &AuthIvs<F>,
    circuit: &AuthCircuit<F>,
    inputs: &AuthInputs<F>,
) -> (r: Vec<([F; 4], [F; 4])>)
    requires
        circuit.of(*ivs, N_AUTH_INPUTS as nat),
        inputs.wf(N_AUTH_INPUTS as nat),
    ensures
        r.len() == N_AUTH_SLOTS,
        forall|k: int|
            0 <= k < N_AUTH_SLOTS ==> (#[trigger] r[k]).0@ == auth_input(
                *params,
                *ivs,
                inputs.spend_secret@,
                inputs.tx_body_hash@,
                k,
            ) && r[k].1@ == crate::layers::permuted(*params, r[k].0@),
{
    let w = evaluate_auth(params, ivs, circuit, inputs);
    let mut r: Vec<([F; 4], [F; 4])> = Vec::new();
    let mut k: usize = 0;
    while k < w.slots.len()
        invariant
            k <= w.slots.len(),
            w.slots.len() == N_AUTH_SLOTS,
            w.of(*params, *ivs, inputs.spend_secret@, inputs.tx_body_hash@),
            inputs.wf(N_AUTH_INPUTS as nat),
            r.len() == k,
            forall|j: int|
                0 <= j < k ==> (#[trigger] r[j]).0@ == auth_input(
                    *params,
                    *ivs,
                    inputs.spend_secret@,
                    inputs.tx_body_hash@,
                    j,
                ) && r[j].1@ == crate::layers::permuted(*params, r[j].0@),
        decreases w.slots.len() - k,
    {
        proof {
            assert(w.slots[k as int].of(
                *params,
                auth_input(*params, *ivs, inputs.spend_secret@, inputs.tx_body_hash@, k as int),
            ));
        }
        r.push((w.slots[k].state_in, w.slots[k].state_out));
        k += 1;
    }
    r
}

/// The claims of some permutations, and the transcript after them.
pub struct SlotsRun<F, T> {
    pub claims: Seq<ClaimView<F>>,
    pub channel: T,
}

/// The prover's run over the first `k` permutations.
pub open spec fn slots_run<F: TowerField, T: FiatShamir<F>>(
    params: PermParams<F>,
    ins: Seq<Seq<F>>,
    slots: Seq<PermProof<F>>,
    channel: T,
    k: nat,
) -> SlotsRun<F, T>
    decreases k,
{
    if k == 0 {
        SlotsRun { claims: Seq::empty(), channel }
    } else {
        let prev = slots_run(params, ins, slots, channel, (k - 1) as nat);
        let run = perm_run(params, ins[k - 1], prev.channel, slots[k - 1]);
        SlotsRun {
            claims: prev.claims + slot_claims(
                k - 1,
                run.r0,
                slots[k - 1].pair.shift.s_out_at_r2,
                run.claims,
            ),
            channel: run.channel,
        }
    }
}

/// The first `k` proofs are those of their permutations.
pub open spec fn are_slot_proofs<F: TowerField, T: FiatShamir<F>>(
    params: PermParams<F>,
    ins: Seq<Seq<F>>,
    slots: Seq<PermProof<F>>,
    values: Seq<F>,
    channel: T,
    k: nat,
) -> bool {
    forall|s: int|
        0 <= s < k ==> is_perm_proof(
            params,
            ins[s],
            slots_run(params, ins, slots, channel, s as nat).channel,
            #[trigger] slots[s],
        ) && values[s] == slots[s].pair.shift.s_out_at_r2
}

/// The transcript after the public part.
pub open spec fn auth_start<F: TowerField, T: FiatShamir<F>>(
    inputs: AuthInputs<F>,
    channel: T,
) -> T {
    absorb_all(
        channel,
        inputs.tx_body_hash@ + crate::auth_killshot::pair_elems(
            inputs.expected_address@,
            inputs.expected_auth_tag@,
            inputs.expected_address.len() as nat,
        ),
    )
}

/// The pins of an authorization.
pub open spec fn input_pins<F: TowerField>(inputs: AuthInputs<F>) -> Seq<ClaimView<F>> {
    auth_pins(
        N_AUTH_BOUNDARY_VARS as nat,
        inputs.expected_address@,
        inputs.expected_auth_tag@,
    )
}

/// The proof of an authorization whose permutations have the given inputs.
pub open spec fn is_auth_sumcheck<F: TowerField, T: FiatShamir<F>>(
    params: PermParams<F>,
    ins: Seq<Seq<F>>,
    inputs: AuthInputs<F>,
    channel: T,
    proof: AuthProof<F>,
) -> bool {
    let slots = slots_run(params, ins, proof.slots@, auth_start(inputs, channel), ins.len());
    let column = boundary_column(params, ins);
    let run = batch_run(
        column,
        slots.claims + input_pins(inputs),
        N_AUTH_BOUNDARY_VARS as nat,
        slots.channel,
    );
    &&& proof.slots.len() == ins.len()
    &&& proof.slot_v0.len() == ins.len()
    &&& are_slot_proofs(
        params,
        ins,
        proof.slots@,
        proof.slot_v0@,
        auth_start(inputs, channel),
        ins.len(),
    )
    &&& batch_messages(proof.boundary.rounds@) == run.messages
    &&& proof.boundary.b_final == mle(column, run.challenges.reverse())
}

/// Proves the permutations one after the other, and collects their claims.
fn prove_slots<F: TowerField, T: FiatShamir<F>>(
    params: &PermParams<F>,
    ins: &Vec<[F; 4]>,
    channel: &mut T,
) -> (out: (Vec<PermProof<F>>, Vec<F>, Vec<EvalClaim<F>>))
    requires
        ins.len() <= 32,
    ensures
        out.0.len() == ins.len(),
        out.1.len() == ins.len(),
        are_slot_proofs(
            *params,
            input_views(ins@),
            out.0@,
            out.1@,
            *old(channel),
            ins.len() as nat,
        ),
        ({
            let run = slots_run(
                *params,
                input_views(ins@),
                out.0@,
                *old(channel),
                ins.len() as nat,
            );
            claims_view(out.2@) == run.claims && *final(channel) == run.channel
        }),
        claims_wf(claims_view(out.2@), N_AUTH_BOUNDARY_VARS as nat),
        ins.len() > 0 ==> out.2.len() > 0,
{
    let ghost views = input_views(ins@);
    let ghost start = *channel;
    let mut proofs: Vec<PermProof<F>> = Vec::new();
    let mut values: Vec<F> = Vec::new();
    let mut claims: Vec<EvalClaim<F>> = Vec::new();
    proof {
        assert(claims_view(claims@) =~= Seq::empty());
    }
    let mut s: usize = 0;
    while s < ins.len()
        invariant
            s <= ins.len() <= 32,
            views == input_views(ins@),
            start == *old(channel),
            proofs.len() == s,
            values.len() == s,
            are_slot_proofs(*params, views, proofs@, values@, start, s as nat),
            ({
                let run = slots_run(*params, views, proofs@, start, s as nat);
                claims_view(claims@) == run.claims && *channel == run.channel
            }),
            claims_wf(claims_view(claims@), N_AUTH_BOUNDARY_VARS as nat),
            s > 0 ==> claims.len() > 0,
        decreases ins.len() - s,
    {
        let one = [ins[s]];
        proof {
            assert(input_views(one@) =~= seq![views[s as int]]);
        }
        let (columns, _witnesses) = build_columns(params, one.as_slice(), N_PERM_CELLS);
        let ghost before = *channel;
        let ghost old_proofs = proofs@;
        let ghost old_claims = claims_view(claims@);
        let (p, r0, v0, state_claims) = prove_perm_with_mle(
            params,
            &columns,
            channel,
            Ghost(views[s as int]),
        );
        push_slot_claims(&mut claims, s, &r0, v0, &state_claims);
        proofs.push(p);
        values.push(v0);
        proof {
            lemma_slots_prefix(*params, views, old_proofs, proofs@, start, s as nat);
            let extra = slot_claims(s as int, r0@, v0, state_claims_view(state_claims@));
            assert forall|i: int| 0 <= i < claims_view(claims@).len() implies (
            #[trigger] claims_view(claims@)[i]).point.len() == N_AUTH_BOUNDARY_VARS by {
                if i < old_claims.len() {
                    assert(claims_view(claims@)[i] == old_claims[i]);
                } else {
                    let e = i - old_claims.len();
                    assert(claims_view(claims@)[i] == extra[e]);
                    lemma_cube_point_len::<F>(6, s as int);
                    lemma_cube_point_len::<F>(6, 32 + s);
                    if e > 0 {
                        assert(state_claims[e - 1].point.len() == 9);
                    }
                }
            }
            assert forall|k: int| 0 <= k < s + 1 implies is_perm_proof(
                *params,
                views[k],
                slots_run(*params, views, proofs@, start, k as nat).channel,
                #[trigger] proofs@[k],
            ) && values@[k] == proofs@[k].pair.shift.s_out_at_r2 by {
                if k < s {
                    assert(proofs@[k] == old_proofs[k]);
                    lemma_slots_prefix(*params, views, old_proofs, proofs@, start, k as nat);
                }
            }
        }
        s += 1;
    }
    (proofs, values, claims)
}

/// A run looks at no more proofs than it runs over.
proof fn lemma_slots_prefix<F: TowerField, T: FiatShamir<F>>(
    params: PermParams<F>,
    ins: Seq<Seq<F>>,
    a: Seq<PermProof<F>>,
    b: Seq<PermProof<F>>,
    channel: T,
    k: nat,
)
    requires
        k <= a.len(),
        k <= b.len(),
        forall|s: int| 0 <= s < k ==> a[s] == #[trigger] b[s],
    ensures
        slots_run(params, ins, a, channel, k) == slots_run(params, ins, b, channel, k),
    decreases k,
{
    if k > 0 {
        lemma_slots_prefix(params, ins, a, b, channel, (k - 1) as nat);
        assert(a[k - 1] == b[k - 1]);
    }
}

/// Proves an authorization.
pub fn prove_auth<F: TowerField, T: FiatShamir<F>>(
    params: &PermParams<F>,
    ivs: &AuthIvs<F>,
    circuit: &AuthCircuit<F>,
    inputs: &AuthInputs<F>,
    channel: &mut T,
) -> (out: (AuthProof<F>, BatchEvalReduction<F>))
    requires
        circuit.of(*ivs, N_AUTH_INPUTS as nat),
        inputs.wf(N_AUTH_INPUTS as nat),
    ensures
        ({
            let ins = auth_state_ins(*params, *ivs, inputs.spend_secret@, inputs.tx_body_hash@);
            let slots = slots_run(
                *params,
                ins,
                out.0.slots@,
                auth_start(*inputs, *old(channel)),
                ins.len(),
            );
            let column = boundary_column(*params, ins);
            let run = batch_run(
                column,
                slots.claims + input_pins(*inputs),
                N_AUTH_BOUNDARY_VARS as nat,
                slots.channel,
            );
            &&& is_auth_sumcheck(*params, ins, *inputs, *old(channel), out.0)
            &&& out.1.point@ == run.challenges.reverse()
            &&& out.1.value == mle(column, out.1.point@)
            &&& *final(channel) == run.channel
        }),
{
    let ghost begin = *channel;
    let public = inputs.to_public();
    let w = evaluate_auth(params, ivs, circuit, inputs);
    let ins = crate::auth_killshot::slot_inputs(&w.slots);
    let ghost want = auth_state_ins(*params, *ivs, inputs.spend_secret@, inputs.tx_body_hash@);
    proof {
        vstd::arithmetic::power2::lemma2_to64();
        assert(input_views(ins@) =~= want) by {
            assert forall|k: int| 0 <= k < want.len() implies input_views(ins@)[k] == want[k] by {
                assert(w.slots[k].of(
                    *params,
                    auth_input(*params, *ivs, inputs.spend_secret@, inputs.tx_body_hash@, k),
                ));
                assert(ins[k] == w.slots[k].state_in);
            }
        }
    }
    absorb_public_boundary(channel, &public);
    let (slots, slot_v0, mut claims) = prove_slots(params, &ins, channel);
    let ghost front = claims_view(claims@);
    let pins = AuthBoundaryPins::from_public_inputs(inputs);
    let mut pin_list = pins.as_eval_claims();
    let ghost back = claims_view(pin_list@);
    claims.append(&mut pin_list);
    proof {
        assert(claims_view(claims@) =~= front + back);
        lemma_pins_wf(*inputs);
        assert forall|i: int| 0 <= i < claims_view(claims@).len() implies (#[trigger] claims_view(
            claims@,
        )[i]).point.len() == N_AUTH_BOUNDARY_VARS by {
            if i < front.len() {
                assert(claims_view(claims@)[i] == front[i]);
            } else {
                assert(claims_view(claims@)[i] == back[i - front.len()]);
            }
        }
        assert(claims_view(claims@)[0].point.len() == N_AUTH_BOUNDARY_VARS);
    }
    let column = build_boundary(params, ins.as_slice());
    let (boundary, reduction) = prove_batch_eval(column.as_slice(), claims.as_slice(), channel);
    (AuthProof { slots, slot_v0, boundary }, reduction)
}

proof fn lemma_pins_wf<F: TowerField>(inputs: AuthInputs<F>)
    requires
        inputs.wf(N_AUTH_INPUTS as nat),
    ensures
        claims_wf(input_pins(inputs), N_AUTH_BOUNDARY_VARS as nat),
{
    let pins = input_pins(inputs);
    assert forall|j: int| 0 <= j < pins.len() implies (#[trigger] pins[j]).point.len()
        == N_AUTH_BOUNDARY_VARS by {
        let at = if j < 8 {
            cell(5 * (j / 2) + 1, N_ROUNDS as int, j % 2)
        } else {
            cell(5 * ((j - 8) / 2) + 4, N_ROUNDS as int, (j - 8) % 2)
        };
        lemma_cube_point_len::<F>(N_AUTH_BOUNDARY_VARS as nat, at);
    }
}

/// The verdict on some proofs of permutations.
pub struct SlotsVerdict<F, T> {
    pub claims: Option<Seq<ClaimView<F>>>,
    pub channel: T,
}

/// The verdict on the first `k` proofs.
pub open spec fn slots_verdict<F: TowerField, T: FiatShamir<F>>(
    params: PermParams<F>,
    slots: Seq<PermProof<F>>,
    values: Seq<F>,
    channel: T,
    k: nat,
) -> SlotsVerdict<F, T>
    decreases k,
{
    if k == 0 {
        SlotsVerdict { claims: Some(Seq::empty()), channel }
    } else {
        let prev = slots_verdict(params, slots, values, channel, (k - 1) as nat);
        if prev.claims is None {
            prev
        } else {
            let v = perm_verdict(params, values[k - 1], prev.channel, slots[k - 1]);
            SlotsVerdict {
                claims: match v.points {
                    Some((r0, claims)) => Some(
                        prev.claims->0 + slot_claims(k - 1, r0, values[k - 1], claims),
                    ),
                    None => None,
                },
                channel: v.channel,
            }
        }
    }
}

/// The verdict on the proof of an authorization: the final point on success.
pub struct AuthVerdict<F, T> {
    pub point: Option<Seq<F>>,
    pub channel: T,
}

/// The verdict on the proof of an authorization.
pub open spec fn auth_sumcheck_verdict<F: TowerField, T: FiatShamir<F>>(
    params: PermParams<F>,
    circuit_slots: nat,
    inputs: AuthInputs<F>,
    proof: AuthProof<F>,
    channel: T,
) -> AuthVerdict<F, T> {
    if proof.slots.len() != circuit_slots || circuit_slots != N_AUTH_SLOTS || proof.slot_v0.len()
        != N_AUTH_SLOTS {
        AuthVerdict { point: None, channel }
    } else {
        let v = slots_verdict(
            params,
            proof.slots@,
            proof.slot_v0@,
            auth_start(inputs, channel),
            N_AUTH_SLOTS as nat,
        );
        if v.claims is None {
            AuthVerdict { point: None, channel: v.channel }
        } else {
            let n = N_AUTH_BOUNDARY_VARS as nat;
            let claims = v.claims->0 + input_pins(inputs);
            let rounds = proof.boundary.rounds@;
            let run = batch_check_run(rounds, claims, v.channel);
            let end = if batch_shape(rounds, claims, n) {
                run.channel
            } else {
                v.channel
            };
            AuthVerdict {
                point: if batch_accepts(rounds, proof.boundary.b_final, claims, n, v.channel) {
                    Some(run.challenges.reverse())
                } else {
                    None
                },
                channel: end,
            }
        }
    }
}

/// A refused permutation ends the run.
proof fn lemma_slots_refused<F: TowerField, T: FiatShamir<F>>(
    params: PermParams<F>,
    slots: Seq<PermProof<F>>,
    values: Seq<F>,
    channel: T,
    j: nat,
    k: nat,
)
    requires
        j <= k,
        slots_verdict(params, slots, values, channel, j).claims is None,
    ensures
        slots_verdict(params, slots, values, channel, k) == slots_verdict(
            params,
            slots,
            values,
            channel,
            j,
        ),
    decreases k,
{
    if j < k {
        lemma_slots_refused(params, slots, values, channel, j, (k - 1) as nat);
    }
}

/// Verifies the proof of an authorization; on success returns the claim that is
/// left. The secrets are not looked at.
pub fn verify_auth<F: TowerField, T: FiatShamir<F>>(
    params: &PermParams<F>,
    proof: &AuthProof<F>,
    circuit: &AuthCircuit<F>,
    inputs: &AuthInputs<F>,
    channel: &mut T,
) -> (out: Option<BatchEvalReduction<F>>)
    requires
        inputs.wf(N_AUTH_INPUTS as nat),
    ensures
        ({
            let want = auth_sumcheck_verdict(
                *params,
                circuit.slots.len() as nat,
                *inputs,
                *proof,
                *old(channel),
            );
            &&& *final(channel) == want.channel
            &&& match out {
                Some(red) => want.point == Some(red.point@) && red.value
                    == proof.boundary.b_final,
                None => want.point is None,
            }
        }),
{
    if proof.slots.len() != circuit.slots.len() || circuit.slots.len() != N_AUTH_SLOTS
        || proof.slot_v0.len() != N_AUTH_SLOTS {
        return None;
    }
    let public = inputs.to_public();
    absorb_public_boundary(channel, &public);
    let ghost start = *channel;
    let mut claims: Vec<EvalClaim<F>> = Vec::new();
    proof {
        assert(claims_view(claims@) =~= Seq::empty());
    }
    let mut s: usize = 0;
    while s < proof.slots.len()
        invariant
            s <= proof.slots.len(),
            proof.slots.len() == N_AUTH_SLOTS,
            proof.slot_v0.len() == N_AUTH_SLOTS,
            proof.slots.len() == circuit.slots.len(),
            start == auth_start(*inputs, *old(channel)),
            ({
                let v = slots_verdict(
                    *params,
                    proof.slots@,
                    proof.slot_v0@,
                    start,
                    s as nat,
                );
                v.claims == Some(claims_view(claims@)) && v.channel == *channel
            }),
        decreases proof.slots.len() - s,
    {
        let v0 = proof.slot_v0[s];
        match verify_perm(params, &proof.slots[s], v0, channel) {
            Some((r0, state_claims)) => {
                push_slot_claims(&mut claims, s, &r0, v0, &state_claims);
            },
            None => {
                proof {
                    lemma_slots_refused(
                        *params,
                        proof.slots@,
                        proof.slot_v0@,
                        start,
                        (s + 1) as nat,
                        N_AUTH_SLOTS as nat,
                    );
                }
                return None;
            },
        }
        s += 1;
    }
    let pins = AuthBoundaryPins::from_public_inputs(inputs);
    let mut pin_list = pins.as_eval_claims();
    let ghost front = claims_view(claims@);
    let ghost back = claims_view(pin_list@);
    claims.append(&mut pin_list);
    proof {
        assert(claims_view(claims@) =~= front + back);
    }
    verify_batch_eval(&proof.boundary, claims.as_slice(), N_AUTH_BOUNDARY_VARS, channel)
}

/// Whether a claim is true of the column of an authorization.
pub fn discharge_auth_boundary_native<F: TowerField>(
    params: &PermParams<F>,
    ivs: &AuthIvs<F>,
    circuit: &AuthCircuit<F>,
    inputs: &AuthInputs<F>,
    reduction: &BatchEvalReduction<F>,
) -> (r: bool)
    requires
        circuit.of(*ivs, N_AUTH_INPUTS as nat),
        inputs.wf(N_AUTH_INPUTS as nat),
        reduction.point.len() == N_AUTH_BOUNDARY_VARS,
    ensures
        ({
            let ins = auth_state_ins(*params, *ivs, inputs.spend_secret@, inputs.tx_body_hash@);
            r == (mle(boundary_column(*params, ins), reduction.point@) == reduction.value)
        }),
{
    let states = reconstruct_auth_slot_states(params, ivs, circuit, inputs);
    let column = build_auth_boundary_mle(params, states.as_slice());
    proof {
        vstd::arithmetic::power2::lemma2_to64();
        let ins = auth_state_ins(*params, *ivs, inputs.spend_secret@, inputs.tx_body_hash@);
        assert(Seq::new(states.len() as nat, |s: int| states@[s].0@) =~= ins);
    }
    evaluate_slice(column.as_slice(), reduction.point.as_slice()).equals(reduction.value)
}

/// The addresses and tags that secrets derive for a transaction.
pub fn compute_auth_boundary<F: TowerField>(
    params: &PermParams<F>,
    ivs: &AuthIvs<F>,
    circuit: &AuthCircuit<F>,
    spend_secret: &Vec<[F; 2]>,
    tx_body_hash: [F; 2],
) -> (r: (Vec<[F; 2]>, Vec<[F; 2]>))
    requires
        circuit.of(*ivs, N_AUTH_INPUTS as nat),
        spend_secret.len() == N_AUTH_INPUTS,
    ensures
        r.0.len() == N_AUTH_INPUTS,
        r.1.len() == N_AUTH_INPUTS,
        forall|i: int|
            0 <= i < N_AUTH_INPUTS ==> (#[trigger] r.0[i])@ == derived_address(
                *params,
                *ivs,
                spend_secret[i]@,
            ),
        forall|i: int|
            0 <= i < N_AUTH_INPUTS ==> (#[trigger] r.1[i])@ == derived_auth_tag(
                *params,
                *ivs,
                spend_secret[i]@,
                tx_body_hash@,
            ),
{
    crate::auth_oracle::compute_sweep_auth_boundary(
        params,
        ivs,
        circuit,
        spend_secret,
        tx_body_hash,
    )
}

/// The claims of honest proofs are accepted, and true of the column.
proof fn lemma_slots_complete<F: TowerField, T: FiatShamir<F>>(
    params: PermParams<F>,
    ins: Seq<Seq<F>>,
    slots: Seq<PermProof<F>>,
    values: Seq<F>,
    channel: T,
    k: nat,
)
    requires
        k <= ins.len() <= 32,
        slots.len() == ins.len(),
        are_slot_proofs(params, ins, slots, values, channel, ins.len()),
    ensures
        ({
            let run = slots_run(params, ins, slots, channel, k);
            let v = slots_verdict(params, slots, values, channel, k);
            &&& v.claims == Some(run.claims)
            &&& v.channel == run.channel
            &&& claims_wf(run.claims, 15)
            &&& claims_hold(run.claims, boundary_column(params, ins))
            &&& k > 0 ==> run.claims.len() > 0
        }),
    decreases k,
{
    if k > 0 {
        let j = (k - 1) as nat;
        lemma_slots_complete(params, ins, slots, values, channel, j);
        let b = boundary_column(params, ins);
        let s = k - 1;
        let prev = slots_run(params, ins, slots, channel, j);
        assert(is_perm_proof(params, ins[s], prev.channel, slots[s]));
        lemma_perm_complete(params, ins[s], prev.channel, slots[s]);
        let run = perm_run(params, ins[s], prev.channel, slots[s]);
        let extra = slot_claims(s, run.r0, values[s], run.claims);
        let all = prev.claims + extra;
        assert forall|i: int| 0 <= i < all.len() implies (#[trigger] all[i]).point.len() == 15
            && all[i].value == mle(b, all[i].point) by {
            if i < prev.claims.len() {
                assert(all[i] == prev.claims[i]);
            } else {
                let e = i - prev.claims.len();
                assert(all[i] == extra[e]);
                if e == 0 {
                    lemma_lifted(params, ins, s, run.r0, values[s]);
                } else {
                    let c = run.claims[e - 1];
                    lemma_lifted(params, ins, s, c.point, c.value);
                }
            }
        }
    }
}

/// Completeness: when every secret derives its address and its tag, the proof is
/// accepted, and the verifier arrives at the prover's point and transcript.
pub proof fn lemma_auth_sumcheck_complete<F: TowerField, T: FiatShamir<F>>(
    params: PermParams<F>,
    ivs: AuthIvs<F>,
    inputs: AuthInputs<F>,
    proof: AuthProof<F>,
    channel: T,
)
    requires
        inputs.wf(N_AUTH_INPUTS as nat),
        is_auth_sumcheck(
            params,
            auth_state_ins(params, ivs, inputs.spend_secret@, inputs.tx_body_hash@),
            inputs,
            channel,
            proof,
        ),
        forall|i: int|
            0 <= i < N_AUTH_INPUTS ==> (#[trigger] inputs.expected_address@[i])@ == derived_address(
                params,
                ivs,
                inputs.spend_secret@[i]@,
            ) && inputs.expected_auth_tag@[i]@ == derived_auth_tag(
                params,
                ivs,
                inputs.spend_secret@[i]@,
                inputs.tx_body_hash@,
            ),
    ensures
        ({
            let ins = auth_state_ins(params, ivs, inputs.spend_secret@, inputs.tx_body_hash@);
            let slots = slots_run(
                params,
                ins,
                proof.slots@,
                auth_start(inputs, channel),
                ins.len(),
            );
            let run = batch_run(
                boundary_column(params, ins),
                slots.claims + input_pins(inputs),
                N_AUTH_BOUNDARY_VARS as nat,
                slots.channel,
            );
            let v = auth_sumcheck_verdict(params, N_AUTH_SLOTS as nat, inputs, proof, channel);
            v.point == Some(run.challenges.reverse()) && v.channel == run.channel
        }),
{
    vstd::arithmetic::power2::lemma2_to64();
    let n = N_AUTH_BOUNDARY_VARS as nat;
    let ins = auth_state_ins(params, ivs, inputs.spend_secret@, inputs.tx_body_hash@);
    let start = auth_start(inputs, channel);
    let b = boundary_column(params, ins);
    lemma_slots_complete(params, ins, proof.slots@, proof.slot_v0@, start, ins.len());
    let slots = slots_run(params, ins, proof.slots@, start, ins.len());
    let pins = input_pins(inputs);
    let claims = slots.claims + pins;
    lemma_pins_wf(inputs);
    lemma_auth_pins(
        params,
        ivs,
        inputs.spend_secret@,
        inputs.tx_body_hash@,
        inputs.expected_address@,
        inputs.expected_auth_tag@,
        n,
    );
    let wide = state_column(params, ins, pow2(n));
    assert forall|i: int| 0 <= i < claims.len() implies (#[trigger] claims[i]).point.len() == n
        && claims[i].value == mle(b, claims[i].point) by {
        if i < slots.claims.len() {
            assert(claims[i] == slots.claims[i]);
        } else {
            let j = i - slots.claims.len();
            assert(claims[i] == pins[j]);
            let (slot, lane) = if j < 8 {
                (5 * (j / 2) + 1, j % 2)
            } else {
                (5 * ((j - 8) / 2) + 4, (j - 8) % 2)
            };
            let y = cell(slot, N_ROUNDS as int, lane);
            lemma_parts_of_cell(slot, N_ROUNDS as int, lane);
            assert(pins[j].point == cube_point::<F>(n, y));
            assert(pins[j].value == mle(wide, pins[j].point));
            lemma_mle_on_cube(wide, n, y);
            lemma_mle_on_cube(b, n, y);
            assert(wide[y] == b[y]);
        }
    }
    lemma_batch_complete(b, claims, n, proof.boundary.rounds@, slots.channel);
}

} // verus!
