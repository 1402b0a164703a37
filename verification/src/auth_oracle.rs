//! The execution of an authorization, permutation by permutation.
use vstd::prelude::*;
use crate::auth_circuit::{AuthCircuit, AuthInputs, AuthIvs, AuthSlotDescriptor, AuthSlotRole, SweepAuthCircuit, auth_slot, copied_pairs, zeros_of};
use crate::field::TowerField;
use crate::layers::{PermParams, permuted};
use crate::sponge::{SlotState, chained, chained_state, digest, hash2, hash3, head, head_state, padding, padding_absorb_block};

verus! {

/// The states of one permutation.
pub type AuthSlotState<F> = SlotState<F>;

/// The states of one permutation of a sweep transaction.
pub type SweepAuthSlotState<F> = SlotState<F>;

/// The states of an authorization, and what they derive.
#[derive(Clone, Debug, PartialEq, Eq)]
pub struct AuthWitness<F> {
    pub slots: Vec<SlotState<F>>,
    pub derived_address: Vec<[F; 2]>,
    pub derived_auth_tag: Vec<[F; 2]>,
}

/// The states of the authorization of a sweep transaction.
pub type SweepAuthWitness<F> = AuthWitness<F>;

/// The input of the permutation with the given index.
pub open spec fn auth_input<F: TowerField>(
    params: PermParams<F>,
    ivs: AuthIvs<F>,
    secrets: Seq<[F; 2]>,
    tx_body_hash: Seq<F>,
    k: int,
) -> Seq<F> {
    let secret = secrets[k / 5]@;
    let first = head(secret, ivs.auth_tag@);
    let second = chained(permuted(params, first), tx_body_hash);
    if k % 5 == 0 {
        head(secret, ivs.address@)
    } else if k % 5 == 1 {
        chained(permuted(params, head(secret, ivs.address@)), padding())
    } else if k % 5 == 2 {
        first
    } else if k % 5 == 3 {
        second
    } else {
        chained(permuted(params, second), padding())
    }
}

/// The address that a secret derives.
pub open spec fn derived_address<F: TowerField>(
    params: PermParams<F>,
    ivs: AuthIvs<F>,
    secret: Seq<F>,
) -> Seq<F> {
    hash2(params, ivs.address@, secret, padding())
}

/// The tag that a secret derives for a transaction.
pub open spec fn derived_auth_tag<F: TowerField>(
    params: PermParams<F>,
    ivs: AuthIvs<F>,
    secret: Seq<F>,
    tx_body_hash: Seq<F>,
) -> Seq<F> {
    hash3(params, ivs.auth_tag@, secret, tx_body_hash, padding())
}

impl<F: TowerField> AuthWitness<F> {
    /// The witness of an authorization of `n` inputs.
    pub open spec fn of(
        &self,
        params: PermParams<F>,
        ivs: AuthIvs<F>,
        secrets: Seq<[F; 2]>,
        tx_body_hash: Seq<F>,
    ) -> bool {
        let n = secrets.len();
        &&& self.slots.len() == 5 * n
        &&& forall|k: int|
            0 <= k < 5 * n ==> (#[trigger] self.slots[k]).of(
                params,
                auth_input(params, ivs, secrets, tx_body_hash, k),
            )
        &&& self.derived_address.len() == n
        &&& self.derived_auth_tag.len() == n
        &&& forall|i: int|
            0 <= i < n ==> (#[trigger] self.derived_address[i])@ == derived_address(
                params,
                ivs,
                secrets[i]@,
            )
        &&& forall|i: int|
            0 <= i < n ==> (#[trigger] self.derived_auth_tag[i])@ == derived_auth_tag(
                params,
                ivs,
                secrets[i]@,
                tx_body_hash,
            )
    }
}

/// The input of a permutation.
fn build_state_in<F: TowerField>(
    slot: &AuthSlotDescriptor<F>,
    spend_secret: &Vec<[F; 2]>,
    tx_body_hash: &[F; 2],
    prev: &Vec<SlotState<F>>,
    Ghost(params): Ghost<PermParams<F>>,
    Ghost(ivs): Ghost<AuthIvs<F>>,
) -> (r: [F; 4])
    requires
        *slot == auth_slot(ivs, prev.len() as int),
        prev.len() < 5 * spend_secret.len(),
        spend_secret.len() <= 256,
        forall|k: int|
            0 <= k < prev.len() ==> (#[trigger] prev[k]).of(
                params,
                auth_input(params, ivs, spend_secret@, tx_body_hash@, k),
            ),
    ensures
        r@ == auth_input(params, ivs, spend_secret@, tx_body_hash@, prev.len() as int),
{
    let iv = slot.capacity_iv;
    let ghost k = prev.len() as int;
    let absorb = match slot.role {
        AuthSlotRole::HAddrPermA { input_idx } => {
            return head_state(&spend_secret[input_idx as usize], &iv);
        },
        AuthSlotRole::HAuthPermA { input_idx } => {
            return head_state(&spend_secret[input_idx as usize], &iv);
        },
        AuthSlotRole::HAddrPermB { .. } => padding_absorb_block(),
        AuthSlotRole::HAuthPermB { .. } => *tx_body_hash,
        AuthSlotRole::HAuthPermC { .. } => padding_absorb_block(),
    };
    match slot.prev_output_src {
        Some(src) => {
            proof {
                assert(prev[src as int].of(
                    params,
                    auth_input(params, ivs, spend_secret@, tx_body_hash@, src as int),
                ));
                assert(src as int / 5 == k / 5 && src as int % 5 == k % 5 - 1);
            }
            chained_state(&prev[src].state_out, &absorb)
        },
        None => head_state(&absorb, &iv),
    }
}

/// Runs the permutations of an authorization.
pub fn evaluate_auth<F: TowerField>(
    params: &PermParams<F>,
    ivs: &AuthIvs<F>,
    circuit: &AuthCircuit<F>,
    inputs: &AuthInputs<F>,
) -> (w: AuthWitness<F>)
    requires
        circuit.of(*ivs, inputs.spend_secret.len() as nat),
        inputs.spend_secret.len() <= 256,
    ensures
        w.of(*params, *ivs, inputs.spend_secret@, inputs.tx_body_hash@),
{
    let n: usize = inputs.spend_secret.len();
    let ghost secrets = inputs.spend_secret@;
    let ghost hash = inputs.tx_body_hash@;
    let mut slots: Vec<SlotState<F>> = Vec::new();
    let mut k: usize = 0;
    while k < circuit.slots.len()
        invariant
            k <= circuit.slots.len(),
            circuit.slots.len() == 5 * n,
            n == inputs.spend_secret.len() <= 256,
            circuit.of(*ivs, n as nat),
            secrets == inputs.spend_secret@,
            hash == inputs.tx_body_hash@,
            slots.len() == k,
            forall|j: int|
                0 <= j < k ==> (#[trigger] slots[j]).of(
                    *params,
                    auth_input(*params, *ivs, secrets, hash, j),
                ),
        decreases circuit.slots.len() - k,
    {
        proof {
            assert(circuit.slots[k as int] == auth_slot(*ivs, k as int));
        }
        let state_in = build_state_in(
            &circuit.slots[k],
            &inputs.spend_secret,
            &inputs.tx_body_hash,
            &slots,
            Ghost(*params),
            Ghost(*ivs),
        );
        slots.push(SlotState::run(params, state_in));
        k += 1;
    }
    let mut addresses: Vec<[F; 2]> = Vec::new();
    let mut tags: Vec<[F; 2]> = Vec::new();
    let mut i: usize = 0;
    while i < n
        invariant
            i <= n <= 256,
            slots.len() == 5 * n,
            secrets.len() == n,
            forall|j: int|
                0 <= j < 5 * n ==> (#[trigger] slots[j]).of(
                    *params,
                    auth_input(*params, *ivs, secrets, hash, j),
                ),
            addresses.len() == i,
            tags.len() == i,
            forall|j: int|
                0 <= j < i ==> (#[trigger] addresses[j])@ == derived_address(
                    *params,
                    *ivs,
                    secrets[j]@,
                ),
            forall|j: int|
                0 <= j < i ==> (#[trigger] tags[j])@ == derived_auth_tag(
                    *params,
                    *ivs,
                    secrets[j]@,
                    hash,
                ),
        decreases n - i,
    {
        let a: usize = AuthCircuit::<F>::haddr_output_slot(i);
        let t: usize = AuthCircuit::<F>::hauth_output_slot(i);
        proof {
            assert(slots[a as int].of(*params, auth_input(*params, *ivs, secrets, hash, a as int)));
            assert(slots[t as int].of(*params, auth_input(*params, *ivs, secrets, hash, t as int)));
            assert(a as int / 5 == i && a % 5 == 1);
            assert(t as int / 5 == i && t % 5 == 4);
        }
        addresses.push(slots[a].digest());
        tags.push(slots[t].digest());
        i += 1;
    }
    AuthWitness { slots, derived_address: addresses, derived_auth_tag: tags }
}

/// Runs the permutations of the authorization of a sweep transaction.
pub fn evaluate_sweep_auth<F: TowerField>(
    params: &PermParams<F>,
    ivs: &AuthIvs<F>,
    circuit: &SweepAuthCircuit<F>,
    inputs: &AuthInputs<F>,
) -> (w: SweepAuthWitness<F>)
    requires
        circuit.of(*ivs, inputs.spend_secret.len() as nat),
        inputs.spend_secret.len() <= 256,
    ensures
        w.of(*params, *ivs, inputs.spend_secret@, inputs.tx_body_hash@),
{
    evaluate_auth(params, ivs, circuit, inputs)
}

/// The addresses and tags that secrets derive for a transaction.
pub fn compute_sweep_auth_boundary<F: TowerField>(
    params: &PermParams<F>,
    ivs: &AuthIvs<F>,
    circuit: &SweepAuthCircuit<F>,
    spend_secret: &Vec<[F; 2]>,
    tx_body_hash: [F; 2],
) -> (r: (Vec<[F; 2]>, Vec<[F; 2]>))
    requires
        circuit.of(*ivs, spend_secret.len() as nat),
        spend_secret.len() <= 256,
    ensures
        r.0.len() == spend_secret.len(),
        r.1.len() == spend_secret.len(),
        forall|i: int|
            0 <= i < spend_secret.len() ==> (#[trigger] r.0[i])@ == derived_address(
                *params,
                *ivs,
                spend_secret[i]@,
            ),
        forall|i: int|
            0 <= i < spend_secret.len() ==> (#[trigger] r.1[i])@ == derived_auth_tag(
                *params,
                *ivs,
                spend_secret[i]@,
                tx_body_hash@,
            ),
{
    let n: usize = spend_secret.len();
    let probe = AuthInputs {
        spend_secret: copied_pairs(spend_secret),
        tx_body_hash,
        expected_address: zeros_of(n),
        expected_auth_tag: zeros_of(n),
    };
    let w = evaluate_auth(params, ivs, circuit, &probe);
    (w.derived_address, w.derived_auth_tag)
}

} // verus!
