# friendly-pow-rs

A proof-of-work solver for Friendly Captcha puzzles, verified with Verus.

- `src/blake2b_simd.rs`: a Blake2b context for one 128-byte block. The
  compression function F, the mixing function G, the rotation and the
  digest are spec functions; `new`, `reset_for_short_message`, `compress`,
  `finalize` and `hash_value_u32` are proved against them. The unkeyed
  BLAKE2b of RFC 7693 is stated for messages of any length
  (`blake2b_spec`), and a lemma shows that one compressed block of at most
  128 bytes gives it; another shows that G is injective.
- `src/solver.rs`: the `Solver`. Its solve functions are stated by
  `solve_outcome`, a search over nonces parameterised by the hash. The
  variant that uses the blake2 crate names that crate's digest
  (`blake2b_256_digest`); the other two use the library's own context.
  Each solve function also states that a found digest has 32 bytes and
  that an empty result for a puzzle that fits means no nonce in range
  solves, with the last nonce tried left in the buffer. Public lemmas
  state the rest of what a solve call guarantees, that its outcome
  depends on the hash only through 128-byte buffers, and that the
  optimized and SIMD solvers search with RFC 7693 BLAKE2b-256.
- `app/lib.rs`: WebAssembly bindings (wasm-bindgen) and the floating-point
  `difficulty_to_threshold`.
