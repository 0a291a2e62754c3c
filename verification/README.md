# dynark

Groth16 proofs over BLS12-381 that can be updated when a few entries of the
assignment change ("Dynark"), written in Verus.

- `src/` is the library. Field elements, group elements and target-group
  values are plain values (canonical limbs and encodings); the arithmetic on
  them is done by `ark_ff`, `ark_ec`, `ark_poly` and the BLS12-381 crate
  behind small functions whose contracts name what they return. The rest
  is verified against contracts that say what each function computes: the
  sparse records and caches of the updater, the stepped square-root FFT and
  its scheduling, the R1CS-to-QAP reduction, key generation, proving,
  updating, re-randomising and verifying. Points are also described by
  their exponents with respect to the generators, which turns the group
  algebra into field arithmetic. On that footing the library proves that
  a re-randomised proof passes verification exactly when the original
  does, and that the `A` and `B` elements of an updated proof (semi- and
  fully dynamic) are those of the fresh proof of the updated assignment.
  That the updated `C` element is the fresh one, that honest proofs verify,
  and that the stepped FFTs equal the FFT over the subgroup are checked by
  the tests, not proved.
  - `field`, `group`, `domain`: scalars, points, subgroups of roots of unity.
  - `relations`, `r1cs_to_qap`, `utils`: constraint matrices and the
    quotient polynomial.
  - `fft_handler`: the stepped FFT over scalars, G1 and G2.
  - `dynamic_cache`: sparse records, the reconstruction cache and the
    checkpoints of fully dynamic proving.
  - `groth16`, `generator`, `dynark_generator`, `dynark_prover`: keys and
    proofs.
  - `instance_generator`: random satisfiable instances and updates.
- `tests/` runs the library on concrete circuits.
- `app/` holds what needs outside traits: circuit synthesis with
  `ark_relations`, conversions to and from `ark_ff` values, a timing
  benchmark and the semi-dynamic SNARK interface.
