# noid_gkr

Sumcheck-based proofs about traces of a permutation, and commitments to columns
with their openings, over binary tower fields. The library is written in Verus:
each function carries a contract, and the contracts are proved.

- `src/` is the library. `field.rs` and `tower.rs` hold the field, `sumcheck.rs`
  the protocol that everything stands on, `soundness.rs` what a verifier can be
  misled about. `compact_fri.rs`, `mixed_open.rs` and `batched_open.rs` open
  committed columns. The `*_killshot.rs` files prove statements about traces:
  transaction bodies, authorizations, Merkle paths, chains, guard buckets.
- `tests/` runs the library on concrete values.
- `app/` holds what surrounds it: types that can be stored and sent, errors that
  print, and a secret that is wiped.

What is not proved is listed where it is trusted: `hashing.rs` names the BLAKE3
digest, and `wiping.rs` overwrites words. How authorizations commit to their
columns is left to a scheme (`column_scheme.rs`), with one scheme at hand. The
permutation's parameters, the initial capacities and the tags of transcripts are
arguments, so that nothing depends on their values.

Each protocol has a law of completeness: the verifier accepts what an honest
prover of a true statement sends, and arrives at the prover's point and
transcript. The sumchecks have laws of soundness: a false claim is accepted only
where a challenge is one of a few values. The commitments have laws of binding,
up to collisions of the hash; `opening_soundness.rs` says what an accepted
opening shows of the committed columns at its queries, and that an opening of
other columns is refused where these differ at one.
