//! The ghost transaction, which fills the places of a block that no user's
//! transaction takes.
//!
//! Its spend secret is public on purpose: it is a constant of the protocol and
//! authorizes the ghost body alone, which spends a slot that no state has.
use vstd::prelude::*;
use crate::column_scheme::ColumnScheme;
use crate::field::TowerField;
use crate::owner_auth::{OWNER_AUTH_NUM_VARS, OwnerAuthCircuit, OwnerAuthInputs, OwnerAuthParams, OwnerAuthPublicInputs, compute_owner_auth_boundary, owner_address};
use crate::owner_killshot::{OWNER_AUTH_GKR_DOMAIN_TAG, OwnerAuthProofKillShot, init_owner_auth_gkr_channel, is_owner_proof, lemma_owner_complete, owner_column, owner_verdict, prove_owner_auth_killshot};
use crate::sponge::{digest_to_fields, lanes_of};
use crate::transcript::FiatShamir;

verus! {

/// The inputs of a transaction.
pub const TX_INPUTS: usize = 8;

/// The outputs of a transaction.
pub const TX_OUTPUTS: usize = 2;

/// An input of a transaction.
#[derive(Clone, Copy, Debug, PartialEq, Eq, Structural)]
pub struct TxInput {
    pub slot_index: u32,
    pub amount: u64,
    pub creation_id: u64,
}

/// An output of a transaction.
#[derive(Clone, Copy, Debug, PartialEq, Eq, Structural)]
pub struct TxOutput<F> {
    pub slot_index: u32,
    pub amount: u64,
    pub owner: [F; 2],
}

/// The body of a transaction.
#[derive(Clone, Copy, Debug, PartialEq, Eq)]
pub struct TxBody<F> {
    pub epoch_anchor: [u8; 32],
    pub fee: u64,
    pub input_owner: [F; 2],
    pub inputs: [TxInput; 8],
    pub outputs: [TxOutput<F>; 2],
    pub validity_bitmap: u16,
    pub is_coinbase: bool,
}

/// The bytes of "PARANOID-GHOST-TX-SPEND-SECRET.0".
pub open spec fn ghost_secret_bytes() -> Seq<u8> {
    seq![
        0x50, 0x41, 0x52, 0x41, 0x4e, 0x4f, 0x49, 0x44, 0x2d, 0x47, 0x48, 0x4f, 0x53, 0x54, 0x2d,
        0x54, 0x58, 0x2d, 0x53, 0x50, 0x45, 0x4e, 0x44, 0x2d, 0x53, 0x45, 0x43, 0x52, 0x45, 0x54,
        0x2e, 0x30,
    ]
}

/// Spelled out, the bytes are those of the text.
pub proof fn lemma_ghost_secret(i: int)
    requires
        0 <= i < 32,
    ensures
        "PARANOID-GHOST-TX-SPEND-SECRET.0"@.len() == ghost_secret_bytes().len(),
        ghost_secret_bytes()[i] as int == "PARANOID-GHOST-TX-SPEND-SECRET.0"@[i] as int,
{
    reveal_strlit("PARANOID-GHOST-TX-SPEND-SECRET.0");
}

/// The spend secret of the ghost owner.
pub fn ghost_spend_secret() -> (r: [u8; 32])
    ensures
        r@ == ghost_secret_bytes(),
{
    let r: [u8; 32] = [
        0x50, 0x41, 0x52, 0x41, 0x4e, 0x4f, 0x49, 0x44, 0x2d, 0x47, 0x48, 0x4f, 0x53, 0x54, 0x2d,
        0x54, 0x58, 0x2d, 0x53, 0x50, 0x45, 0x4e, 0x44, 0x2d, 0x53, 0x45, 0x43, 0x52, 0x45, 0x54,
        0x2e, 0x30,
    ];
    proof {
        assert(r@ =~= ghost_secret_bytes());
    }
    r
}

/// The bit of an output in the bitmap of a body.
pub fn output_bitmap_bit(output: u16) -> (r: u16)
    requires
        output < TX_OUTPUTS,
    ensures
        r == if output == 0 {
            256u16
        } else {
            512u16
        },
{
    if output == 0 {
        256
    } else {
        512
    }
}

/// The address of the ghost owner.
pub open spec fn ghost_owner<F: TowerField>(p: OwnerAuthParams<F>) -> Seq<F> {
    owner_address(p.params, p.address_iv@, lanes_of::<F>(ghost_secret_bytes()))
}

/// Computes [`ghost_owner`].
pub fn ghost_address<F: TowerField>(
    p: &OwnerAuthParams<F>,
    circuit: &OwnerAuthCircuit<F>,
) -> (r: [F; 2])
    requires
        circuit.of(p.address_iv),
    ensures
        r@ == ghost_owner(*p),
{
    let secret = digest_to_fields(&ghost_spend_secret());
    let zero = F::zero_value();
    compute_owner_auth_boundary(&p.params, circuit, secret, [zero, zero])
}

/// The ghost body: one live input of value one and one live output of value one,
/// both of the ghost owner, at different slots, and no fee; the rest is dummy.
pub fn ghost_tx_body<F: TowerField>(
    p: &OwnerAuthParams<F>,
    circuit: &OwnerAuthCircuit<F>,
    dummy_input: TxInput,
    dummy_output: TxOutput<F>,
) -> (body: TxBody<F>)
    requires
        circuit.of(p.address_iv),
    ensures
        body.epoch_anchor@ == Seq::new(32, |i: int| 0u8),
        body.fee == 0,
        !body.is_coinbase,
        body.validity_bitmap == 257,
        body.input_owner@ == ghost_owner(*p),
        body.inputs[0] == (TxInput { slot_index: 0, amount: 1, creation_id: 0 }),
        forall|i: int| 1 <= i < TX_INPUTS ==> #[trigger] body.inputs[i] == dummy_input,
        body.outputs[0].slot_index == 1,
        body.outputs[0].amount == 1,
        body.outputs[0].owner@ == ghost_owner(*p),
        body.outputs[1] == dummy_output,
        body.inputs[0].amount == body.outputs[0].amount + body.fee,
        body.inputs[0].slot_index != body.outputs[0].slot_index,
        body.outputs[0].owner@ == body.input_owner@,
{
    let owner = ghost_address(p, circuit);
    let live = TxInput { slot_index: 0, amount: 1, creation_id: 0 };
    let inputs = [
        live,
        dummy_input,
        dummy_input,
        dummy_input,
        dummy_input,
        dummy_input,
        dummy_input,
        dummy_input,
    ];
    let outputs = [TxOutput { slot_index: 1, amount: 1, owner }, dummy_output];
    let bitmap: u16 = 1 + output_bitmap_bit(0);
    let body = TxBody {
        epoch_anchor: [0u8; 32],
        fee: 0,
        input_owner: owner,
        inputs,
        outputs,
        validity_bitmap: bitmap,
        is_coinbase: false,
    };
    proof {
        assert(body.epoch_anchor@ =~= Seq::new(32, |i: int| 0u8));
    }
    body
}

/// The body hash of the ghost transaction, given the identifier of its body.
pub fn ghost_tx_body_hash<F: TowerField>(txid: &[u8; 32]) -> (r: [F; 2])
    ensures
        r@ == lanes_of::<F>(txid@),
{
    digest_to_fields(txid)
}

/// The proof of the ghost authorization of a body hash, and its statement. The
/// proof is accepted.
pub fn ghost_authorization<
    'b,
    F: TowerField,
    T: FiatShamir<F>,
    S: ColumnScheme<F>,
>(
    p: &OwnerAuthParams<F>,
    circuit: &OwnerAuthCircuit<F>,
    ghost_tx_body_hash: [F; 2],
    scheme: &'b S,
    channel: T,
) -> (out: (OwnerAuthProofKillShot<F, S::Opening>, OwnerAuthPublicInputs<F>))
    requires
        p.wf(),
        circuit.of(p.address_iv),
        scheme.fits(OWNER_AUTH_NUM_VARS as nat, 1),
    ensures
        out.1.tx_body_hash == ghost_tx_body_hash,
        out.1.expected_address@ == ghost_owner(*p),
        ({
            let start = channel.absorbed(F::of_u128(OWNER_AUTH_GKR_DOMAIN_TAG));
            &&& is_owner_proof(
                *p,
                owner_column(*p, lanes_of::<F>(ghost_secret_bytes())),
                out.1,
                scheme,
                start,
                out.0,
            )
            &&& owner_verdict(*p, out.1, scheme, &out.0, start).points is Some
        }),
{
    let owner = ghost_address(p, circuit);
    let secret = digest_to_fields(&ghost_spend_secret());
    let public = OwnerAuthPublicInputs::new(ghost_tx_body_hash, owner);
    let inputs = OwnerAuthInputs::from_parts(&public, secret);
    let mut transcript = channel;
    init_owner_auth_gkr_channel(&mut transcript);
    let ghost start = transcript;
    let (proof_out, _reductions) = prove_owner_auth_killshot(
        p,
        circuit,
        &inputs,
        scheme,
        &mut transcript,
    );
    proof {
        lemma_owner_complete(
            *p,
            inputs.secret(),
            public,
            scheme,
            &proof_out,
            start,
        );
    }
    (proof_out, public)
}

} // verus!
