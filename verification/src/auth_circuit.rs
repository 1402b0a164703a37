//! The permutations of the authorization of every input: two that derive the
//! address from the spend secret, and three that derive the tag that
//! authorizes the transaction.
use vstd::prelude::*;
use crate::field::TowerField;

verus! {

/// The number of inputs of a transaction.
pub const N_AUTH_INPUTS: usize = 4;

/// The number of permutations of an input.
pub const N_SLOTS_PER_INPUT: usize = 5;

/// The number of permutations of a transaction.
pub const N_AUTH_SLOTS: usize = 20;

/// The number of inputs of a sweep transaction.
pub const N_SWEEP_AUTH_INPUTS: usize = 25;

/// The lower padding lane.
pub const AUTH_PAD_0: u128 = 0x80;

/// The upper padding lane.
pub const AUTH_PAD_1: u128 = 0x0100_0000_0000_0000_0000_0000_0000_0000;

/// What a permutation does, and for which input.
#[derive(Clone, Copy, Debug, PartialEq, Eq, Structural)]
pub enum AuthSlotRole {
    /// Absorbs the spend secret into the address sponge.
    HAddrPermA { input_idx: u8 },
    /// Absorbs the padding; its output is the address.
    HAddrPermB { input_idx: u8 },
    /// Absorbs the spend secret into the tag sponge.
    HAuthPermA { input_idx: u8 },
    /// Absorbs the transaction body hash.
    HAuthPermB { input_idx: u8 },
    /// Absorbs the padding; its output is the tag.
    HAuthPermC { input_idx: u8 },
}

impl AuthSlotRole {
    /// The input.
    pub open spec fn input(self) -> u8 {
        match self {
            AuthSlotRole::HAddrPermA { input_idx } => input_idx,
            AuthSlotRole::HAddrPermB { input_idx } => input_idx,
            AuthSlotRole::HAuthPermA { input_idx } => input_idx,
            AuthSlotRole::HAuthPermB { input_idx } => input_idx,
            AuthSlotRole::HAuthPermC { input_idx } => input_idx,
        }
    }

    /// Computes [`AuthSlotRole::input`].
    pub fn input_idx(&self) -> (r: usize)
        ensures
            r == self.input(),
    {
        match *self {
            AuthSlotRole::HAddrPermA { input_idx } => input_idx as usize,
            AuthSlotRole::HAddrPermB { input_idx } => input_idx as usize,
            AuthSlotRole::HAuthPermA { input_idx } => input_idx as usize,
            AuthSlotRole::HAuthPermB { input_idx } => input_idx as usize,
            AuthSlotRole::HAuthPermC { input_idx } => input_idx as usize,
        }
    }
}

/// What a permutation of a sweep transaction does.
pub type SweepAuthSlotRole = AuthSlotRole;

/// The initial capacities of the two sponges.
#[derive(Clone, Copy, Debug, PartialEq, Eq)]
pub struct AuthIvs<F> {
    pub address: [F; 2],
    pub auth_tag: [F; 2],
}

/// One permutation, and where its input comes from.
#[derive(Clone, Copy, Debug, PartialEq, Eq)]
pub struct AuthSlotDescriptor<F> {
    pub id: usize,
    pub role: AuthSlotRole,
    pub capacity_iv: [F; 2],
    pub is_head: bool,
    pub prev_output_src: Option<usize>,
}

/// One permutation of a sweep transaction.
pub type SweepAuthSlotDescriptor<F> = AuthSlotDescriptor<F>;

/// What is public of an authorization.
#[derive(Clone, Debug, PartialEq, Eq)]
pub struct AuthPublicInputs<F> {
    pub tx_body_hash: [F; 2],
    pub expected_address: Vec<[F; 2]>,
    pub expected_auth_tag: Vec<[F; 2]>,
}

/// What is public of the authorization of a sweep transaction.
pub type SweepAuthPublicInputs<F> = AuthPublicInputs<F>;

/// An authorization, with its spend secrets. The secrets are not for printing,
/// so there is no `Debug`.
#[derive(Clone)]
pub struct AuthInputs<F> {
    pub spend_secret: Vec<[F; 2]>,
    pub tx_body_hash: [F; 2],
    pub expected_address: Vec<[F; 2]>,
    pub expected_auth_tag: Vec<[F; 2]>,
}

/// The authorization of a sweep transaction.
pub type SweepAuthInputs<F> = AuthInputs<F>;

/// Pairs of zeros.
pub open spec fn zero_pairs<F: TowerField>(v: Seq<[F; 2]>, n: nat) -> bool {
    &&& v.len() == n
    &&& forall|i: int| 0 <= i < n ==> (#[trigger] v[i])@ == seq![F::zero(), F::zero()]
}

/// A list of zeros.
pub(crate) fn zeros_of<F: TowerField>(n: usize) -> (v: Vec<[F; 2]>)
    ensures
        zero_pairs(v@, n as nat),
{
    let mut v: Vec<[F; 2]> = Vec::new();
    let mut i: usize = 0;
    while i < n
        invariant
            i <= n,
            v.len() == i,
            forall|k: int| 0 <= k < i ==> (#[trigger] v[k])@ == seq![F::zero(), F::zero()],
        decreases n - i,
    {
        let pair = [F::zero_value(), F::zero_value()];
        proof {
            assert(pair@ =~= seq![F::zero(), F::zero()]);
        }
        v.push(pair);
        i += 1;
    }
    v
}

/// A copy of a list of pairs.
pub(crate) fn copied_pairs<F: TowerField>(s: &Vec<[F; 2]>) -> (v: Vec<[F; 2]>)
    ensures
        v@ == s@,
{
    crate::table::copied(s.as_slice())
}

impl<F: TowerField> AuthPublicInputs<F> {
    /// Whether there are entries for `n` inputs.
    pub open spec fn wf(&self, n: nat) -> bool {
        self.expected_address.len() == n && self.expected_auth_tag.len() == n
    }

    /// All zeros, for `n` inputs.
    pub fn zero(n: usize) -> (r: Self)
        ensures
            r.wf(n as nat),
            r.tx_body_hash@ == seq![F::zero(), F::zero()],
            zero_pairs(r.expected_address@, n as nat),
            zero_pairs(r.expected_auth_tag@, n as nat),
    {
        let tx_body_hash = [F::zero_value(), F::zero_value()];
        proof {
            assert(tx_body_hash@ =~= seq![F::zero(), F::zero()]);
        }
        AuthPublicInputs {
            tx_body_hash,
            expected_address: zeros_of(n),
            expected_auth_tag: zeros_of(n),
        }
    }
}

impl<F: TowerField> AuthInputs<F> {
    /// Whether there are entries for `n` inputs.
    pub open spec fn wf(&self, n: nat) -> bool {
        &&& self.spend_secret.len() == n
        &&& self.expected_address.len() == n
        &&& self.expected_auth_tag.len() == n
    }

    /// Leaves the secrets out.
    pub fn to_public(&self) -> (r: AuthPublicInputs<F>)
        ensures
            r.tx_body_hash == self.tx_body_hash,
            r.expected_address@ == self.expected_address@,
            r.expected_auth_tag@ == self.expected_auth_tag@,
    {
        AuthPublicInputs {
            tx_body_hash: self.tx_body_hash,
            expected_address: copied_pairs(&self.expected_address),
            expected_auth_tag: copied_pairs(&self.expected_auth_tag),
        }
    }

    /// All zeros, for `n` inputs.
    pub fn zero(n: usize) -> (r: Self)
        ensures
            r.wf(n as nat),
            r.tx_body_hash@ == seq![F::zero(), F::zero()],
            zero_pairs(r.spend_secret@, n as nat),
            zero_pairs(r.expected_address@, n as nat),
            zero_pairs(r.expected_auth_tag@, n as nat),
    {
        let public = AuthPublicInputs::zero(n);
        AuthInputs::from_parts(&public, zeros_of(n))
    }

    /// Joins the public part and the secrets.
    pub fn from_parts(public: &AuthPublicInputs<F>, spend_secret: Vec<[F; 2]>) -> (r: Self)
        ensures
            r.spend_secret@ == spend_secret@,
            r.tx_body_hash == public.tx_body_hash,
            r.expected_address@ == public.expected_address@,
            r.expected_auth_tag@ == public.expected_auth_tag@,
    {
        AuthInputs {
            spend_secret,
            tx_body_hash: public.tx_body_hash,
            expected_address: copied_pairs(&public.expected_address),
            expected_auth_tag: copied_pairs(&public.expected_auth_tag),
        }
    }
}

/// The permutations in order.
#[derive(Clone, Debug, PartialEq, Eq)]
pub struct AuthCircuit<F> {
    pub slots: Vec<AuthSlotDescriptor<F>>,
}

/// The permutations of a sweep transaction.
pub type SweepAuthCircuit<F> = AuthCircuit<F>;

/// The permutation with the given index.
pub open spec fn auth_slot<F>(ivs: AuthIvs<F>, k: int) -> AuthSlotDescriptor<F> {
    let input_idx = (k / 5) as u8;
    let j = k % 5;
    let role = if j == 0 {
        AuthSlotRole::HAddrPermA { input_idx }
    } else if j == 1 {
        AuthSlotRole::HAddrPermB { input_idx }
    } else if j == 2 {
        AuthSlotRole::HAuthPermA { input_idx }
    } else if j == 3 {
        AuthSlotRole::HAuthPermB { input_idx }
    } else {
        AuthSlotRole::HAuthPermC { input_idx }
    };
    let starts = j == 0 || j == 2;
    AuthSlotDescriptor {
        id: k as usize,
        role,
        capacity_iv: if j < 2 {
            ivs.address
        } else {
            ivs.auth_tag
        },
        is_head: starts,
        prev_output_src: if starts {
            None
        } else {
            Some((k - 1) as usize)
        },
    }
}

impl<F: TowerField> AuthCircuit<F> {
    /// The circuit for `n` inputs.
    pub open spec fn of(&self, ivs: AuthIvs<F>, n: nat) -> bool {
        &&& self.slots.len() == 5 * n
        &&& forall|k: int| 0 <= k < 5 * n ==> #[trigger] self.slots[k] == auth_slot(ivs, k)
    }

    /// Builds the circuit for the inputs of a transaction.
    pub fn build(ivs: &AuthIvs<F>) -> (r: Self)
        ensures
            r.of(*ivs, N_AUTH_INPUTS as nat),
    {
        Self::build_for(ivs, N_AUTH_INPUTS)
    }

    /// Builds the circuit for the inputs of a sweep transaction.
    pub fn build_sweep(ivs: &AuthIvs<F>) -> (r: Self)
        ensures
            r.of(*ivs, N_SWEEP_AUTH_INPUTS as nat),
    {
        Self::build_for(ivs, N_SWEEP_AUTH_INPUTS)
    }

    /// Builds the circuit for the given number of inputs.
    pub fn build_for(ivs: &AuthIvs<F>, n: usize) -> (r: Self)
        requires
            n <= 256,
        ensures
            r.of(*ivs, n as nat),
    {
        let mut slots: Vec<AuthSlotDescriptor<F>> = Vec::new();
        let mut i: usize = 0;
        while i < n
            invariant
                i <= n <= 256,
                slots.len() == 5 * i,
                forall|k: int| 0 <= k < 5 * i ==> #[trigger] slots[k] == auth_slot(*ivs, k),
            decreases n - i,
        {
            let input_idx: u8 = i as u8;
            let base: usize = slots.len();
            proof {
                assert(base % 5 == 0 && base / 5 == i);
                assert((base + 1) % 5 == 1 && (base + 1) / 5 == i);
                assert((base + 2) % 5 == 2 && (base + 2) / 5 == i);
                assert((base + 3) % 5 == 3 && (base + 3) / 5 == i);
                assert((base + 4) % 5 == 4 && (base + 4) / 5 == i);
            }
            slots.push(
                AuthSlotDescriptor {
                    id: base,
                    role: AuthSlotRole::HAddrPermA { input_idx },
                    capacity_iv: ivs.address,
                    is_head: true,
                    prev_output_src: None,
                },
            );
            slots.push(
                AuthSlotDescriptor {
                    id: base + 1,
                    role: AuthSlotRole::HAddrPermB { input_idx },
                    capacity_iv: ivs.address,
                    is_head: false,
                    prev_output_src: Some(base),
                },
            );
            slots.push(
                AuthSlotDescriptor {
                    id: base + 2,
                    role: AuthSlotRole::HAuthPermA { input_idx },
                    capacity_iv: ivs.auth_tag,
                    is_head: true,
                    prev_output_src: None,
                },
            );
            slots.push(
                AuthSlotDescriptor {
                    id: base + 3,
                    role: AuthSlotRole::HAuthPermB { input_idx },
                    capacity_iv: ivs.auth_tag,
                    is_head: false,
                    prev_output_src: Some(base + 2),
                },
            );
            slots.push(
                AuthSlotDescriptor {
                    id: base + 4,
                    role: AuthSlotRole::HAuthPermC { input_idx },
                    capacity_iv: ivs.auth_tag,
                    is_head: false,
                    prev_output_src: Some(base + 3),
                },
            );
            i += 1;
        }
        AuthCircuit { slots }
    }

    /// The permutation whose output is the address of an input.
    pub fn haddr_output_slot(input_idx: usize) -> (r: usize)
        requires
            input_idx < 256,
        ensures
            r == input_idx * 5 + 1,
    {
        input_idx * N_SLOTS_PER_INPUT + 1
    }

    /// The permutation whose output is the tag of an input.
    pub fn hauth_output_slot(input_idx: usize) -> (r: usize)
        requires
            input_idx < 256,
        ensures
            r == input_idx * 5 + 4,
    {
        input_idx * N_SLOTS_PER_INPUT + 4
    }
}

/// The output permutations of an input have the roles that give the address
/// and the tag of that input.
pub proof fn lemma_output_roles<F: TowerField>(circuit: AuthCircuit<F>, ivs: AuthIvs<F>, n: nat, i: int)
    requires
        circuit.of(ivs, n),
        0 <= i < n <= 256,
    ensures
        circuit.slots[i * 5 + 1].role == (AuthSlotRole::HAddrPermB { input_idx: i as u8 }),
        circuit.slots[i * 5 + 4].role == (AuthSlotRole::HAuthPermC { input_idx: i as u8 }),
{
    assert(circuit.slots[i * 5 + 1] == auth_slot(ivs, i * 5 + 1));
    assert(circuit.slots[i * 5 + 4] == auth_slot(ivs, i * 5 + 4));
}

} // verus!
