//! Sumcheck-based proofs and openings over binary tower fields.
//!
//! The library is generic over the coefficient field ([`field::TowerField`]),
//! over the Fiat-Shamir transcript ([`transcript::FiatShamir`],
//! [`fri::FriChannel`]), over the codes ([`fri::FriCode`],
//! [`affine_code::AffineCode`]), over the hash of tree nodes
//! ([`merkle::NodeHasher`]) and over the schemes that open tables and columns
//! ([`eval_scheme::EvalScheme`], [`column_scheme::ColumnScheme`]), so that every
//! statement holds for each of them that meets the contracts of those traits.
//!
//! * Algebra: [`field`], [`tower`], [`sum`], [`poly`], [`interpolate`], [`mle`],
//!   [`tensor`], [`matrix`].
//! * Sumchecks: [`sumcheck`] and [`soundness`] in general, and in their various
//!   forms [`rounds`], [`compressed_rounds`], [`product_sumcheck`],
//!   [`batch_eval`], [`multi_batch`], [`linear_eval`], [`weighted_state`].
//! * Commitments and openings: [`merkle`], [`short_hash`], [`interleaved_commit`],
//!   [`compact_fri`], [`source_binding`], [`mixed_open`], [`batched_open`],
//!   [`column_scheme`], [`zk_capsule_algebra`]; what an opening shows:
//!   [`opening_soundness`]; their errors in words: [`described`].
//! * Traces of permutations and their proofs: [`layers`], [`sponge`], [`trace`],
//!   [`killshot`] and what stands on them.
//! * Laws across modules: what accepted proofs say of columns and statements
//!   ([`trace_soundness`], [`identity_laws`], [`link_soundness`],
//!   [`statement_soundness`], [`sumcheck_laws`], [`fri_laws`]), what transcripts and
//!   digests keep apart ([`bound_statements`], [`message_laws`],
//!   [`trace_injective`]), what is refused ([`refusal_laws`]), and how long proofs
//!   are ([`size_laws`]).
use vstd::prelude::*;

pub mod affine_code;
pub mod auth_circuit;
pub mod auth_killshot;
pub mod auth_killshot_sweep;
pub mod auth_mle_v2;
pub mod auth_oracle;
pub mod auth_pcs;
pub mod auth_shift_sweep;
pub mod auth_sumcheck;
pub mod auth_unified_v2;
pub mod batch_eval;
pub mod batched_open;
pub mod binding;
pub mod block_spine_sweep;
pub mod bound_statements;
pub mod chain_accumulator_killshot;
pub mod circuit;
pub mod circuit_sweep;
pub mod column_scheme;
pub mod compact_fri;
pub mod compressed_rounds;
pub mod described;
pub mod eval_scheme;
pub mod field;
pub mod fri;
pub mod fri_laws;
pub mod ghost_tx;
pub mod guard_bucket_killshot;
pub mod hashing;
pub mod high_fold;
pub mod identity_laws;
pub mod interleaved_commit;
pub mod interpolate;
pub mod killshot;
pub mod layers;
pub mod linear_eval;
pub mod link_soundness;
pub mod linked_killshot;
pub mod low_fold;
pub mod matrix;
pub mod merkle;
pub mod merkle_circuit;
pub mod merkle_killshot;
pub mod merkle_mle;
pub mod merkle_oracle;
pub mod merkle_shift;
pub mod message_laws;
pub mod mixed_open;
pub mod mle;
pub mod multi_batch;
pub mod opening_soundness;
pub mod oracle;
pub mod oracle_sweep;
pub mod owner_auth;
pub mod owner_boundary;
pub mod owner_killshot;
pub mod owner_shift;
pub mod owner_state;
pub mod perm_sumcheck;
pub mod pinned_killshot;
pub mod poly;
pub mod product_sumcheck;
pub mod refusal_laws;
pub mod round_poly;
pub mod rounds;
pub mod shift;
pub mod short_hash;
pub mod size_laws;
pub mod soundness;
pub mod source_binding;
pub mod spine_degree7;
pub mod spine_killshot;
pub mod spine_mle;
pub mod spine_shift_sweep;
pub mod sponge;
pub mod sponge_chain;
pub mod statement_soundness;
pub mod sum;
pub mod sumcheck;
pub mod sumcheck_laws;
pub mod table;
pub mod tensor;
pub mod tower;
pub mod trace;
pub mod trace_injective;
pub mod trace_mle;
pub mod trace_soundness;
pub mod transcript;
pub mod unified;
pub mod weighted_state;
pub mod wiping;
pub mod zk_capsule_algebra;

verus! {

} // verus!
