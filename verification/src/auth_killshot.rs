//! The proof that every input of a transaction is authorized.
//!
//! The transcript absorbs what is public (the body hash, and the address and
//! tag of every input), never the spend secrets. The addresses and tags are
//! pinned to the outputs of their permutations.
use vstd::prelude::*;
use vstd::arithmetic::power2::pow2;
use crate::auth_circuit::{AuthCircuit, AuthInputs, AuthIvs, AuthPublicInputs, N_AUTH_INPUTS};
use crate::auth_mle_v2::{AuthUnifiedMle, N_AUTH_LIVE_SLOTS, N_AUTH_UNIFIED_CELLS, N_AUTH_UNIFIED_VARS, build_auth_unified_mle_v2};
use crate::auth_oracle::{auth_input, derived_address, derived_auth_tag, evaluate_auth};
use crate::batch_eval::{ClaimView, EvalClaim, claims_hold, claims_view, claims_wf};
use crate::field::TowerField;
use crate::killshot::{KillRun, KillVerdict, TraceProofKillShot, TraceReductions, build_output_claim, is_kill_proof, kill_run, kill_verdict, lemma_kill_complete, lemma_output_claim, output_claim, prove_trace_killshot, verify_trace_killshot};
use crate::layers::PermParams;
use crate::mle::mle;
use crate::sponge::SlotState;
use crate::trace_mle::{input_views, sin_column, sout_column, state_column};
use crate::transcript::{FiatShamir, absorb_all, lemma_absorb_all_add};

verus! {

/// The lanes of an address or a tag.
pub const AUTH_PIN_LANES: usize = 2;

/// The first element that an authorization transcript absorbs.
pub const AUTH_GKR_DOMAIN_TAG: u128 = 0xA07D_6B12_0000_0000;

/// The proof of an authorization.
pub type AuthProofKillShot<F> = TraceProofKillShot<F>;

/// The claims that an authorization leaves.
pub type AuthKillShotReductions<F> = TraceReductions<F>;

/// Starts an authorization transcript.
pub fn auth_gkr_channel<F: TowerField, T: FiatShamir<F>>(channel: &mut T)
    ensures
        *final(channel) == old(channel).absorbed(F::of_u128(AUTH_GKR_DOMAIN_TAG)),
{
    channel.absorb(F::from_u128(AUTH_GKR_DOMAIN_TAG));
}

/// The elements of the first `k` addresses and tags.
pub open spec fn pair_elems<F>(addresses: Seq<[F; 2]>, tags: Seq<[F; 2]>, k: nat) -> Seq<F>
    decreases k,
{
    if k == 0 {
        Seq::empty()
    } else {
        pair_elems(addresses, tags, (k - 1) as nat) + addresses[k - 1]@ + tags[k - 1]@
    }
}

/// What the transcript absorbs of the public part.
pub open spec fn boundary_elems<F>(public: AuthPublicInputs<F>) -> Seq<F> {
    public.tx_body_hash@ + pair_elems(
        public.expected_address@,
        public.expected_auth_tag@,
        public.expected_address.len() as nat,
    )
}

/// Absorbs two elements.
pub fn absorb_pair<F: TowerField, T: FiatShamir<F>>(channel: &mut T, pair: &[F; 2])
    ensures
        *final(channel) == absorb_all(*old(channel), pair@),
{
    proof {
        let s = pair@;
        assert(s.drop_last() =~= seq![s[0]]);
        assert(s.drop_last().drop_last() =~= Seq::empty());
        reveal_with_fuel(absorb_all, 3);
    }
    channel.absorb(pair[0]);
    channel.absorb(pair[1]);
}

/// Absorbs the public part.
pub fn absorb_public_boundary<F: TowerField, T: FiatShamir<F>>(
    channel: &mut T,
    inputs: &AuthPublicInputs<F>,
)
    requires
        inputs.expected_auth_tag.len() == inputs.expected_address.len(),
    ensures
        *final(channel) == absorb_all(*old(channel), boundary_elems(*inputs)),
{
    let ghost start = *channel;
    let ghost hash = inputs.tx_body_hash@;
    absorb_pair(channel, &inputs.tx_body_hash);
    let mut i: usize = 0;
    proof {
        assert(hash + Seq::<F>::empty() =~= hash);
    }
    while i < inputs.expected_address.len()
        invariant
            i <= inputs.expected_address.len(),
            inputs.expected_auth_tag.len() == inputs.expected_address.len(),
            hash == inputs.tx_body_hash@,
            *channel == absorb_all(
                start,
                hash + pair_elems(
                    inputs.expected_address@,
                    inputs.expected_auth_tag@,
                    i as nat,
                ),
            ),
        decreases inputs.expected_address.len() - i,
    {
        let ghost before = hash + pair_elems(
            inputs.expected_address@,
            inputs.expected_auth_tag@,
            i as nat,
        );
        let ghost a = inputs.expected_address@[i as int]@;
        let ghost t = inputs.expected_auth_tag@[i as int]@;
        absorb_pair(channel, &inputs.expected_address[i]);
        absorb_pair(channel, &inputs.expected_auth_tag[i]);
        proof {
            lemma_absorb_all_add(start, before, a);
            lemma_absorb_all_add(start, before + a, t);
            assert(before + a + t =~= hash + pair_elems(
                inputs.expected_address@,
                inputs.expected_auth_tag@,
                (i + 1) as nat,
            ));
        }
        i += 1;
    }
}

/// The pins: both lanes of every address, then of every tag.
pub open spec fn auth_pins<F: TowerField>(
    n_vars: nat,
    addresses: Seq<[F; 2]>,
    tags: Seq<[F; 2]>,
) -> Seq<ClaimView<F>> {
    let n = addresses.len();
    Seq::new(
        4 * n,
        |j: int|
            if j < 2 * n {
                output_claim(n_vars, 5 * (j / 2) + 1, j % 2, addresses[j / 2][j % 2])
            } else {
                output_claim(
                    n_vars,
                    5 * ((j - 2 * n) / 2) + 4,
                    (j - 2 * n) % 2,
                    tags[(j - 2 * n) / 2][(j - 2 * n) % 2],
                )
            },
    )
}

/// Builds the pins.
pub fn public_pin_claims<F: TowerField>(inputs: &AuthPublicInputs<F>, n_vars: usize) -> (pins: Vec<
    EvalClaim<F>,
>)
    requires
        inputs.expected_auth_tag.len() == inputs.expected_address.len(),
        inputs.expected_address.len() <= 256,
        9 <= n_vars,
        pow2(n_vars as nat) <= usize::MAX,
        inputs.expected_address.len() * 5 * 512 <= pow2(n_vars as nat),
    ensures
        claims_view(pins@) == auth_pins(
            n_vars as nat,
            inputs.expected_address@,
            inputs.expected_auth_tag@,
        ),
        claims_wf(claims_view(pins@), n_vars as nat),
{
    let n: usize = inputs.expected_address.len();
    let ghost want = auth_pins(n_vars as nat, inputs.expected_address@, inputs.expected_auth_tag@);
    let mut pins: Vec<EvalClaim<F>> = Vec::new();
    let mut j: usize = 0;
    while j < 4 * n
        invariant
            j <= 4 * n,
            n == inputs.expected_address.len(),
            n == inputs.expected_auth_tag.len(),
            n <= 256,
            9 <= n_vars,
            pow2(n_vars as nat) <= usize::MAX,
            n * 5 * 512 <= pow2(n_vars as nat),
            want == auth_pins(
                n_vars as nat,
                inputs.expected_address@,
                inputs.expected_auth_tag@,
            ),
            pins.len() == j,
            forall|k: int|
                0 <= k < j ==> (#[trigger] pins[k]).point@ == want[k].point && pins[k].value
                    == want[k].value && pins[k].point.len() == n_vars,
        decreases 4 * n - j,
    {
        let second = j >= 2 * n;
        let at: usize = if second {
            j - 2 * n
        } else {
            j
        };
        let input: usize = at / 2;
        let lane: usize = at % 2;
        if second {
            let slot: usize = AuthCircuit::<F>::hauth_output_slot(input);
            pins.push(build_output_claim(n_vars, slot, lane, inputs.expected_auth_tag[input][lane]));
        } else {
            let slot: usize = AuthCircuit::<F>::haddr_output_slot(input);
            pins.push(build_output_claim(n_vars, slot, lane, inputs.expected_address[input][lane]));
        }
        j += 1;
    }
    proof {
        assert forall|k: int| 0 <= k < want.len() implies claims_view(pins@)[k] == want[k] by {
            assert(pins[k].point@ == want[k].point);
        }
        assert(claims_view(pins@) =~= want);
        assert forall|k: int| 0 <= k < want.len() implies (#[trigger] claims_view(
            pins@,
        )[k]).point.len() == n_vars by {
            assert(pins[k].point.len() == n_vars);
        }
    }
    pins
}

/// The inputs of all the permutations of an authorization.
pub open spec fn auth_state_ins<F: TowerField>(
    params: PermParams<F>,
    ivs: AuthIvs<F>,
    secrets: Seq<[F; 2]>,
    tx_body_hash: Seq<F>,
) -> Seq<Seq<F>> {
    Seq::new(5 * secrets.len(), |k: int| auth_input(params, ivs, secrets, tx_body_hash, k))
}

/// The inputs of the permutations of an execution.
pub fn slot_inputs<F: TowerField>(slots: &Vec<SlotState<F>>) -> (r: Vec<[F; 4]>)
    ensures
        r.len() == slots.len(),
        forall|k: int| 0 <= k < slots.len() ==> #[trigger] r[k] == slots[k].state_in,
{
    let mut r: Vec<[F; 4]> = Vec::new();
    let mut k: usize = 0;
    while k < slots.len()
        invariant
            k <= slots.len(),
            r.len() == k,
            forall|j: int| 0 <= j < k ==> #[trigger] r[j] == slots[j].state_in,
        decreases slots.len() - k,
    {
        r.push(slots[k].state_in);
        k += 1;
    }
    r
}

/// The columns of an authorization.
pub fn build_auth_unified_from_inputs<F: TowerField>(
    params: &PermParams<F>,
    ivs: &AuthIvs<F>,
    circuit: &AuthCircuit<F>,
    inputs: &AuthInputs<F>,
) -> (mle: AuthUnifiedMle<F>)
    requires
        circuit.of(*ivs, N_AUTH_INPUTS as nat),
        inputs.wf(N_AUTH_INPUTS as nat),
    ensures
        mle.wf(),
        mle.of(
            *params,
            auth_state_ins(*params, *ivs, inputs.spend_secret@, inputs.tx_body_hash@),
        ),
{
    let w = evaluate_auth(params, ivs, circuit, inputs);
    let state_ins = slot_inputs(&w.slots);
    proof {
        let want = auth_state_ins(*params, *ivs, inputs.spend_secret@, inputs.tx_body_hash@);
        assert(input_views(state_ins@) =~= want) by {
            assert forall|k: int| 0 <= k < want.len() implies input_views(state_ins@)[k]
                == want[k] by {
                assert(w.slots[k].of(
                    *params,
                    auth_input(*params, *ivs, inputs.spend_secret@, inputs.tx_body_hash@, k),
                ));
                assert(state_ins[k] == w.slots[k].state_in);
            }
        }
    }
    let (mle, _witnesses) = build_auth_unified_mle_v2(params, state_ins.as_slice());
    mle
}

/// The proof of an authorization.
pub open spec fn is_auth_proof<F: TowerField, T: FiatShamir<F>>(
    params: PermParams<F>,
    ivs: AuthIvs<F>,
    inputs: AuthInputs<F>,
    public: AuthPublicInputs<F>,
    channel: T,
    proof: AuthProofKillShot<F>,
) -> bool {
    let ins = auth_state_ins(params, ivs, inputs.spend_secret@, inputs.tx_body_hash@);
    let cells = N_AUTH_UNIFIED_CELLS as nat;
    is_kill_proof(
        params,
        N_AUTH_LIVE_SLOTS as nat,
        N_AUTH_UNIFIED_VARS as nat,
        sin_column(params, ins, cells),
        sout_column(params, ins, cells),
        state_column(params, ins, cells),
        auth_pins(
            N_AUTH_UNIFIED_VARS as nat,
            public.expected_address@,
            public.expected_auth_tag@,
        ),
        absorb_all(channel, boundary_elems(public)),
        proof,
    )
}

/// The prover's run.
pub open spec fn auth_run<F: TowerField, T: FiatShamir<F>>(
    params: PermParams<F>,
    ivs: AuthIvs<F>,
    inputs: AuthInputs<F>,
    public: AuthPublicInputs<F>,
    channel: T,
    proof: AuthProofKillShot<F>,
) -> KillRun<F, T> {
    let ins = auth_state_ins(params, ivs, inputs.spend_secret@, inputs.tx_body_hash@);
    let cells = N_AUTH_UNIFIED_CELLS as nat;
    kill_run(
        params,
        N_AUTH_LIVE_SLOTS as nat,
        N_AUTH_UNIFIED_VARS as nat,
        sin_column(params, ins, cells),
        sout_column(params, ins, cells),
        state_column(params, ins, cells),
        auth_pins(
            N_AUTH_UNIFIED_VARS as nat,
            public.expected_address@,
            public.expected_auth_tag@,
        ),
        absorb_all(channel, boundary_elems(public)),
        proof,
    )
}

/// The public part of an authorization.
pub open spec fn is_public_part<F>(public: AuthPublicInputs<F>, inputs: AuthInputs<F>) -> bool {
    &&& public.tx_body_hash == inputs.tx_body_hash
    &&& public.expected_address@ == inputs.expected_address@
    &&& public.expected_auth_tag@ == inputs.expected_auth_tag@
}

/// Proves an authorization.
pub fn prove_auth_killshot<F: TowerField, T: FiatShamir<F>>(
    params: &PermParams<F>,
    ivs: &AuthIvs<F>,
    circuit: &AuthCircuit<F>,
    inputs: &AuthInputs<F>,
    channel: &mut T,
) -> (out: (AuthProofKillShot<F>, AuthKillShotReductions<F>))
    requires
        circuit.of(*ivs, N_AUTH_INPUTS as nat),
        inputs.wf(N_AUTH_INPUTS as nat),
    ensures
        forall|public: AuthPublicInputs<F>| #[trigger]
            is_public_part(public, *inputs) ==> {
                let run = auth_run(*params, *ivs, *inputs, public, *old(channel), out.0);
                &&& is_auth_proof(*params, *ivs, *inputs, public, *old(channel), out.0)
                &&& out.1.of(run, out.0)
                &&& *final(channel) == run.channel
            },
        ({
            let ins = auth_state_ins(*params, *ivs, inputs.spend_secret@, inputs.tx_body_hash@);
            let cells = N_AUTH_UNIFIED_CELLS as nat;
            out.1.hold(
                sin_column(*params, ins, cells),
                sout_column(*params, ins, cells),
                state_column(*params, ins, cells),
            )
        }),
{
    let public = inputs.to_public();
    absorb_public_boundary(channel, &public);
    let mle = build_auth_unified_from_inputs(params, ivs, circuit, inputs);
    proof {
        vstd::arithmetic::power2::lemma2_to64();
        assert forall|other: AuthPublicInputs<F>| #[trigger]
            is_public_part(other, *inputs) implies boundary_elems(other) == boundary_elems(
            public,
        ) by {}
    }
    let pins = public_pin_claims(&public, N_AUTH_UNIFIED_VARS);
    prove_trace_killshot(
        params,
        mle.s_in.as_slice(),
        mle.s_out.as_slice(),
        mle.state.as_slice(),
        N_AUTH_UNIFIED_VARS,
        N_AUTH_LIVE_SLOTS,
        &pins,
        channel,
    )
}

/// The verdict on the proof of an authorization.
pub open spec fn auth_verdict<F: TowerField, T: FiatShamir<F>>(
    params: PermParams<F>,
    slots: nat,
    public: AuthPublicInputs<F>,
    proof: AuthProofKillShot<F>,
    channel: T,
) -> KillVerdict<F, T> {
    if slots != N_AUTH_LIVE_SLOTS {
        KillVerdict { run: None, channel }
    } else {
        kill_verdict(
            params,
            N_AUTH_LIVE_SLOTS as nat,
            N_AUTH_UNIFIED_VARS as nat,
            auth_pins(
                N_AUTH_UNIFIED_VARS as nat,
                public.expected_address@,
                public.expected_auth_tag@,
            ),
            proof,
            absorb_all(channel, boundary_elems(public)),
        )
    }
}

/// Verifies the proof of an authorization against its public part.
pub fn verify_auth_killshot<F: TowerField, T: FiatShamir<F>>(
    params: &PermParams<F>,
    proof: &AuthProofKillShot<F>,
    circuit: &AuthCircuit<F>,
    inputs: &AuthPublicInputs<F>,
    channel: &mut T,
) -> (out: Option<AuthKillShotReductions<F>>)
    requires
        inputs.wf(N_AUTH_INPUTS as nat),
    ensures
        ({
            let want = auth_verdict(
                *params,
                circuit.slots.len() as nat,
                *inputs,
                *proof,
                *old(channel),
            );
            &&& *final(channel) == want.channel
            &&& match out {
                Some(red) => want.run is Some && red.of(want.run->0, *proof),
                None => want.run is None,
            }
        }),
{
    if circuit.slots.len() != N_AUTH_LIVE_SLOTS {
        return None;
    }
    absorb_public_boundary(channel, inputs);
    proof {
        vstd::arithmetic::power2::lemma2_to64();
    }
    let pins = public_pin_claims(inputs, N_AUTH_UNIFIED_VARS);
    verify_trace_killshot(params, proof, N_AUTH_UNIFIED_VARS, N_AUTH_LIVE_SLOTS, &pins, channel)
}

/// Whether the claims that are left are true of the columns of an
/// authorization.
pub fn discharge_auth_reductions_native<F: TowerField>(
    params: &PermParams<F>,
    ivs: &AuthIvs<F>,
    circuit: &AuthCircuit<F>,
    inputs: &AuthInputs<F>,
    reductions: &AuthKillShotReductions<F>,
) -> (r: bool)
    requires
        circuit.of(*ivs, N_AUTH_INPUTS as nat),
        inputs.wf(N_AUTH_INPUTS as nat),
        reductions.state.point.len() == N_AUTH_UNIFIED_VARS,
        reductions.sin.point.len() == N_AUTH_UNIFIED_VARS,
        reductions.sout.point.len() == N_AUTH_UNIFIED_VARS,
    ensures
        ({
            let ins = auth_state_ins(*params, *ivs, inputs.spend_secret@, inputs.tx_body_hash@);
            let cells = N_AUTH_UNIFIED_CELLS as nat;
            r == reductions.hold(
                sin_column(*params, ins, cells),
                sout_column(*params, ins, cells),
                state_column(*params, ins, cells),
            )
        }),
{
    let mle = build_auth_unified_from_inputs(params, ivs, circuit, inputs);
    proof {
        vstd::arithmetic::power2::lemma2_to64();
    }
    reductions.discharge(mle.s_in.as_slice(), mle.s_out.as_slice(), mle.state.as_slice())
}

/// The pins are true of the state column exactly when every secret derives its
/// address and its tag.
pub proof fn lemma_auth_pins<F: TowerField>(
    params: PermParams<F>,
    ivs: AuthIvs<F>,
    secrets: Seq<[F; 2]>,
    tx_body_hash: Seq<F>,
    addresses: Seq<[F; 2]>,
    tags: Seq<[F; 2]>,
    n_vars: nat,
)
    requires
        addresses.len() == secrets.len(),
        tags.len() == secrets.len(),
        n_vars >= 9,
        secrets.len() * 5 * 512 <= pow2(n_vars),
    ensures
        claims_wf(auth_pins(n_vars, addresses, tags), n_vars),
        claims_hold(
            auth_pins(n_vars, addresses, tags),
            state_column(
                params,
                auth_state_ins(params, ivs, secrets, tx_body_hash),
                pow2(n_vars),
            ),
        ) <==> forall|i: int|
            0 <= i < secrets.len() ==> (#[trigger] addresses[i])@ == derived_address(
                params,
                ivs,
                secrets[i]@,
            ) && tags[i]@ == derived_auth_tag(params, ivs, secrets[i]@, tx_body_hash),
{
    let n = secrets.len();
    let ins = auth_state_ins(params, ivs, secrets, tx_body_hash);
    let column = state_column(params, ins, pow2(n_vars));
    let pins = auth_pins(n_vars, addresses, tags);
    assert forall|j: int| 0 <= j < 4 * n implies (#[trigger] pins[j]).point.len() == n_vars && mle(
        column,
        pins[j].point,
    ) == (if j < 2 * n {
        derived_address(params, ivs, secrets[j / 2]@)[j % 2]
    } else {
        derived_auth_tag(
            params,
            ivs,
            secrets[(j - 2 * n) / 2]@,
            tx_body_hash,
        )[(j - 2 * n) % 2]
    }) by {
        let at = if j < 2 * n {
            j
        } else {
            j - 2 * n
        };
        let slot = 5 * (at / 2) + if j < 2 * n {
            1int
        } else {
            4int
        };
        assert(slot / 5 == at / 2);
        lemma_output_claim(params, ins, n_vars, slot, at % 2, pins[j].value);
    }
    if claims_hold(pins, column) {
        assert forall|i: int| 0 <= i < n implies (#[trigger] addresses[i])@ == derived_address(
            params,
            ivs,
            secrets[i]@,
        ) && tags[i]@ == derived_auth_tag(params, ivs, secrets[i]@, tx_body_hash) by {
            assert(pins[2 * i].value == mle(column, pins[2 * i].point));
            assert(pins[2 * i + 1].value == mle(column, pins[2 * i + 1].point));
            assert(pins[2 * n + 2 * i].value == mle(column, pins[2 * n + 2 * i].point));
            assert(pins[2 * n + 2 * i + 1].value == mle(column, pins[2 * n + 2 * i + 1].point));
            assert(addresses[i]@ =~= derived_address(params, ivs, secrets[i]@));
            assert(tags[i]@ =~= derived_auth_tag(params, ivs, secrets[i]@, tx_body_hash));
        }
    }
    if forall|i: int|
        0 <= i < n ==> (#[trigger] addresses[i])@ == derived_address(params, ivs, secrets[i]@)
            && tags[i]@ == derived_auth_tag(params, ivs, secrets[i]@, tx_body_hash) {
        assert forall|j: int| 0 <= j < pins.len() implies (#[trigger] pins[j]).value == mle(
            column,
            pins[j].point,
        ) by {
            let at = if j < 2 * n {
                j
            } else {
                j - 2 * n
            };
            assert(addresses[at / 2]@ == derived_address(params, ivs, secrets[at / 2]@));
        }
    }
}

/// Completeness: when every secret derives its address and its tag, the proof is
/// accepted against the public part, and the verifier arrives at the prover's
/// points and transcript.
pub proof fn lemma_auth_complete<F: TowerField, T: FiatShamir<F>>(
    params: PermParams<F>,
    ivs: AuthIvs<F>,
    inputs: AuthInputs<F>,
    public: AuthPublicInputs<F>,
    proof: AuthProofKillShot<F>,
    channel: T,
)
    requires
        inputs.wf(N_AUTH_INPUTS as nat),
        is_public_part(public, inputs),
        is_auth_proof(params, ivs, inputs, public, channel, proof),
        forall|i: int|
            0 <= i < N_AUTH_INPUTS ==> (#[trigger] inputs.expected_address[i])@ == derived_address(
                params,
                ivs,
                inputs.spend_secret[i]@,
            ) && inputs.expected_auth_tag[i]@ == derived_auth_tag(
                params,
                ivs,
                inputs.spend_secret[i]@,
                inputs.tx_body_hash@,
            ),
    ensures
        ({
            let run = auth_run(params, ivs, inputs, public, channel, proof);
            let v = auth_verdict(params, N_AUTH_LIVE_SLOTS as nat, public, proof, channel);
            v.run == Some(run) && v.channel == run.channel
        }),
{
    vstd::arithmetic::power2::lemma2_to64();
    lemma_auth_pins(
        params,
        ivs,
        inputs.spend_secret@,
        inputs.tx_body_hash@,
        public.expected_address@,
        public.expected_auth_tag@,
        N_AUTH_UNIFIED_VARS as nat,
    );
    assert forall|i: int| 0 <= i < 4 implies (#[trigger] public.expected_address@[i])@
        == derived_address(params, ivs, inputs.spend_secret@[i]@) && public.expected_auth_tag@[i]@
        == derived_auth_tag(params, ivs, inputs.spend_secret@[i]@, inputs.tx_body_hash@) by {
        assert(inputs.expected_address[i] == public.expected_address@[i]);
        assert(inputs.expected_auth_tag[i] == public.expected_auth_tag@[i]);
    }
    lemma_kill_complete(
        params,
        auth_state_ins(params, ivs, inputs.spend_secret@, inputs.tx_body_hash@),
        N_AUTH_UNIFIED_VARS as nat,
        auth_pins(
            N_AUTH_UNIFIED_VARS as nat,
            public.expected_address@,
            public.expected_auth_tag@,
        ),
        proof,
        absorb_all(channel, boundary_elems(public)),
    );
}

} // verus!
