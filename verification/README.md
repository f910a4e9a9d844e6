# zk_tools

A verified core of a zero-knowledge circuit toolkit over the BLS12-381
scalar field:

- `composer`, `constraint`, `gate`, `witness`, `identities`, `plonkish`:
  a proof-system-neutral circuit composer, its PLONKish backend and the
  gate identities that decide satisfaction.
- `r1cs`, `lowering`: rank-1 constraint systems and the lowering of
  composer rows into them; the two backends accept the same assignments.
- `groth16`: canonical encodings of keys and proofs, FFT domains (the
  transforms are the discrete Fourier transform and undo each other),
  multi-scalar multiplication, the R1CS-to-QAP reduction (for a satisfied
  circuit the quotient has no top term), setup, proving (a key made by
  setup proves every satisfying assignment) and verification.
- `plonk`, `plonkwasm`: error descriptions and the byte transport used by
  WebAssembly frontends.

Field and group arithmetic is carried out by `dusk-curves`; the contracts
speak of field values and of canonical point encodings. `app/` holds the
WebAssembly memory and JSON plumbing.
