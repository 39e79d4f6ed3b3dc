//! The gates of a circuit and what they add to the quotient.

use crate::field::{red, Num, PrimeField};
use crate::permutation::row_of;
use crate::polynomial::{all_len, columns};
use vstd::prelude::*;

verus! {

/// The gates that the prover knows.
#[derive(Clone, Copy, Debug, PartialEq, Eq, Structural)]
pub enum GateKind {
    /// The main gate of width 4 with access to `D` of the next row.
    MainGateOfWidth4WithDNext,
    /// A gate that tests that `A` is a bit.
    TestBitGateOnA,
}

/// A gate of a circuit.
#[derive(Clone, Copy, Debug)]
pub struct Gate {
    /// Which gate it is.
    pub kind: GateKind,
    /// The degree of its equation.
    pub degree: usize,
    /// How many terms it adds to the quotient.
    pub num_quotient_terms: usize,
    /// Whether its equation is linearized, rather than its selector.
    pub benefits_from_linearization: bool,
}

/// How many terms the first `k` gates add to the quotient: the power of alpha
/// that the next gate starts with.
pub open spec fn terms_before(gates: Seq<Gate>, k: nat) -> nat
    decreases k,
{
    if k == 0 {
        0
    } else {
        terms_before(gates, (k - 1) as nat) + gates[k - 1].num_quotient_terms as nat
    }
}

/// The equation of the main gate, on the setup values `q` of `A`, `B`, `C`, `D`,
/// the product `A * B` and `D` of the next row, the wires `w`, and the sum
/// `constant` of the public input and the constant selector.
pub open spec fn main_gate(q: Seq<int>, w: Seq<int>, d_next: int, constant: int) -> int {
    constant + q[0] * w[0] + q[1] * w[1] + q[2] * w[2] + q[3] * w[3] + q[4] * w[0] * w[1] + q[5]
        * d_next
}

/// The equation of a gate that tests for a bit.
pub open spec fn bit_gate(a: int) -> int {
    (a - 1) * a
}

/// What the main gate adds to the quotient in each row: its equation, with the
/// public inputs, scaled by the first challenge.
pub fn contribute_into_quotient_for_public_inputs<F: PrimeField>(
    gate: &Gate,
    inputs_and_constants: &Vec<F>,
    wires: &Vec<Vec<F>>,
    d_next: &Vec<F>,
    setup: &Vec<Vec<F>>,
    challenges: &Vec<F>,
) -> (r: Vec<F>)
    requires
        challenges@.len() == gate.num_quotient_terms,
        gate.num_quotient_terms > 0,
        wires@.len() == 4,
        setup@.len() == 6,
        d_next@.len() == inputs_and_constants@.len(),
        all_len(wires@, inputs_and_constants@.len() as int),
        all_len(setup@, inputs_and_constants@.len() as int),
    ensures
        r@.len() == inputs_and_constants@.len(),
        forall|i: int|
            0 <= i < r@.len() ==> (#[trigger] r@[i]).val() == red::<F>(
                main_gate(
                    row_of(columns(setup@), i),
                    row_of(columns(wires@), i),
                    d_next@[i].val(),
                    inputs_and_constants@[i].val(),
                ) * challenges@[0].val(),
            ),
{
    let n = inputs_and_constants.len();
    let challenge = Num::of(&challenges[0]);
    let mut r: Vec<F> = Vec::with_capacity(n);
    let mut i: usize = 0;
    while i < n
        invariant
            i <= n,
            n == inputs_and_constants@.len(),
            r@.len() == i,
            wires@.len() == 4,
            setup@.len() == 6,
            d_next@.len() == n,
            all_len(wires@, n as int),
            all_len(setup@, n as int),
            challenges@.len() > 0,
            challenge.expr() == challenges@[0].val(),
            forall|k: int|
                0 <= k < i ==> (#[trigger] r@[k]).val() == red::<F>(
                    main_gate(
                        row_of(columns(setup@), k),
                        row_of(columns(wires@), k),
                        d_next@[k].val(),
                        inputs_and_constants@[k].val(),
                    ) * challenges@[0].val(),
                ),
        decreases n - i,
    {
        let a = Num::of(&wires[0][i]);
        let b = Num::of(&wires[1][i]);
        let sum = Num::of(&inputs_and_constants[i]).plus(&Num::of(&setup[0][i]).times(&a)).plus(
            &Num::of(&setup[1][i]).times(&b),
        ).plus(&Num::of(&setup[2][i]).times(&Num::of(&wires[2][i]))).plus(
            &Num::of(&setup[3][i]).times(&Num::of(&wires[3][i])),
        ).plus(&Num::of(&setup[4][i]).times(&a).times(&b)).plus(
            &Num::of(&setup[5][i]).times(&Num::of(&d_next[i])),
        );
        r.push(sum.times(&challenge).value());
        i += 1;
    }
    r
}

/// What a gate that tests for a bit adds to the quotient in each row: its
/// equation, scaled by the first challenge.
pub fn test_bit_gate_contribute_into_quotient<F: PrimeField>(
    gate: &Gate,
    a: &Vec<F>,
    challenges: &Vec<F>,
) -> (r: Vec<F>)
    requires
        challenges@.len() == gate.num_quotient_terms,
        gate.num_quotient_terms > 0,
    ensures
        r@.len() == a@.len(),
        forall|i: int|
            0 <= i < r@.len() ==> (#[trigger] r@[i]).val() == red::<F>(
                bit_gate(a@[i].val()) * challenges@[0].val(),
            ),
{
    let n = a.len();
    let one = Num::one();
    let challenge = Num::of(&challenges[0]);
    let mut r: Vec<F> = Vec::with_capacity(n);
    let mut i: usize = 0;
    while i < n
        invariant
            i <= n,
            n == a@.len(),
            r@.len() == i,
            one.expr() == 1,
            challenges@.len() > 0,
            challenge.expr() == challenges@[0].val(),
            forall|k: int|
                0 <= k < i ==> (#[trigger] r@[k]).val() == red::<F>(
                    bit_gate(a@[k].val()) * challenges@[0].val(),
                ),
        decreases n - i,
    {
        let x = Num::of(&a[i]);
        r.push(x.minus(&one).times(&x).times(&challenge).value());
        i += 1;
    }
    r
}

} // verus!
