# kilonova

Indexed holographic folding over the Pallas/Vesta cycle of curves, verified with Verus.

A structure holds several predicates, each a rank-1 constraint system. Instances of any of them are folded into one
running instance by two sum-checks. A step of incrementally verifiable computation runs the verifier of the fold inside
a constraint system over the other curve of the cycle.

## Layout

- `src/math.rs`, `src/field.rs`, `src/mle.rs`, `src/matrix.rs`: sums, residues, prime fields and multilinear extensions.
- `src/engine.rs`: what folding asks of a curve. `src/pasta.rs` is the one place that calls outside crates: the fields,
  the groups, the Pedersen commitments, the Poseidon oracle and the circuit gadgets of `nova-snark`.
- `src/r1cs.rs`, `src/shape.rs`, `src/relation.rs`, `src/relaxed.rs`, `src/transcript.rs`: shapes, instances and
  witnesses, plain, folded and relaxed.
- `src/sumcheck.rs`, `src/combine.rs`, `src/nifs.rs`, `src/completeness.rs`: the proof of a fold, its verifier, and that
  honest proofs are accepted and leave satisfied instances behind.
- `src/cs.rs`, `src/fragment.rs`, `src/gadgets.rs`, `src/points.rs`, `src/oracle.rs`, `src/bignat.rs`,
  `src/evaluation.rs`: constraint systems and what can be computed in them. A gadget says what every satisfying
  assignment gives its result, and whether the values that it assigns satisfy its constraints.
- `src/layout.rs`: the variables and constraints that each gadget adds, without any value. The shape of a step follows
  from it, so that parameters fit the steps that are proved under them.
- `src/instance_circuit.rs`, `src/proof_circuit.rs`, `src/fold_circuit.rs`, `src/holographic.rs`, `src/augmented.rs`,
  `src/single_step.rs`: the verifier of a fold and the step around it in a constraint system.
- `src/span/`: the variant in which an instance carries the coefficients of its index, with public parameters and
  chains of steps.
- `src/nova/`: the step of a relaxed instance by three schemes, with and without a sum-check.
- `app/main.rs`: counts the constraints of such a step for several sizes.
- `tests/`: examples on concrete values.
