# Starkom

PLONK circuits over the BlueSky field, in Verus: constraint expressions, circuits, witnesses, proofs
and their verification.

* `expr`, `ops`, `checked`, `text`, `lexer`, `parser`: constraint expressions, their arithmetic, and
  their textual form. `terms`, `algebra`, `evaluation` and `laws` hold the mathematics of sums of
  monomials, `substitution` and `degrees` the laws about values and degrees, `spacing` the one about
  the tokens of joined texts, and `roundtrip` shows that reading undoes writing.
* `field`: the two prime fields. `primes` and `certificates` show that their orders are prime.
* `cell`, `partition`, `wires`, `witness`, `chip`: witness tables, connections of cells, and reusable
  parts of circuits. `connections` holds the laws about connected cells.
* `builder`, `grouping`, `permutation`, `plonk`: construction and compilation of circuits. `model`
  says what circuits are and what it means to satisfy them; `compilation` holds the laws.
* `checking`: checks of witnesses. `history` says what they mean in terms of the gates that were
  placed and the cells that were connected.
* `poly`, `pcs`: polynomials and polynomial commitments.
* `argument`, `gate_argument`, `permutation_argument`, `proving`, `verifying`: proofs and their
  verification. `provability` shows that satisfied circuits can be proved, `completeness` that proofs
  are accepted, and `soundness` what it takes to prove a circuit that is violated; `positions` shows
  that the permutation argument tells all cells apart. `entry` states these laws of a witness as it is
  handed in.

The arithmetic of the fields, polynomials, hash functions and polynomial commitments comes from other
crates. What is relied on is stated in the contracts of the functions whose names start with
`outside_`, `bluesky_` and `goldilocks_`.
