# plonk_prover

A prover for the PLONK argument over a circuit with a main gate of width four
(with access to `D` of the next row), gates that test for a bit, a
copy-permutation argument and, where the circuit uses tables, a lookup argument.

The library in `src/` is verified with Verus. It does no input or output: it is
a sequence of rounds. Each round names the transforms and the commitments that
it needs, and goes on, by `resume`, with the answers and with the challenges that
a transcript draws. `app/` runs the rounds against a work manager and a
transcript.

| Module | What it holds |
| --- | --- |
| `field`, `bn256` | prime fields, and the scalar field of BN256 on top of `pairing_ce` |
| `polynomial`, `bits`, `domain`, `fft` | vectors of field elements, reversed enumeration, domains, interpolation |
| `gates`, `permutation`, `lookup` | what a row of the circuit is made of |
| `quotient` | the numerator of the quotient, and the division |
| `linearization`, `contributions`, `opening` | the openings, the linearization polynomial and the opening proofs |
| `circuit`, `session` | the circuit, and what is kept from round to round |
| `prover`, `lookup_rounds`, `closing_rounds` | the rounds |
| `laws`, `completeness`, `witness_laws` | what holds across the rounds |
| `honest`, `refusal`, `violations` | when a circuit is proved, and when it is refused |

Contracts speak of the integer `val()` that represents a field element and of
`red`, the residue of an integer. A formula over field elements is one integer
expression under one `red`.
