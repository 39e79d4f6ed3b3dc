//! The numerator of the quotient: what the gates, the copy-permutation argument
//! and the lookup argument require to vanish on the domain.

use crate::bits::{
    bitreverse_enumeration, clone_shifted_assuming_bitreversed, lemma_reversed_bound, reversed,
    shifted_index,
};
use crate::domain::{evaluate_vanishing_polynomial_of_degree_on_domain_size, geometric, Domain};
use crate::errors::SynthesisError;
use crate::fft::{icoset_fft_for_generator, lemma_unique_on_coset};
use crate::field::{
    all_invertible, inv, invertible, lemma_invertible, lemma_red_mul, lemma_red_range,
    lemma_red_small, lemma_val_red, red, vals, Num, PrimeField,
};
use crate::gates::{
    bit_gate, contribute_into_quotient_for_public_inputs, main_gate, terms_before,
    test_bit_gate_contribute_into_quotient, Gate, GateKind,
};
use crate::lookup::{gamma_beta, lookup_denominator};
use crate::permutation::{
    coset_points, coset_row, lemma_all_invertible_congruent, perm_product, permutation_factor, row,
    row_of,
};
use crate::polynomial::{
    all_len, batch_inversion, break_into_multiples, columns, eval, product, slice,
};
use vstd::arithmetic::power::*;
use vstd::arithmetic::power2::*;
use vstd::prelude::*;

verus! {

/// The values at one point of the polynomials of the lookup argument.
pub struct LookupRow {
    /// The grand product.
    pub z: int,
    /// The grand product one step on.
    pub z_next: int,
    /// The sorted column.
    pub s: int,
    /// The sorted column one step on.
    pub s_next: int,
    /// The tables.
    pub t: int,
    /// The tables one step on.
    pub t_next: int,
    /// The table type.
    pub table_type: int,
    /// The lookup selector.
    pub selector: int,
    /// The Lagrange polynomial of the last row.
    pub l_last: int,
}

/// The values at one point of all polynomials that the numerator is made of.
pub struct Row {
    /// The point.
    pub x: int,
    /// The public inputs and the constant selector.
    pub constant: int,
    /// The wires.
    pub wires: Seq<int>,
    /// The last wire one step on.
    pub d_next: int,
    /// The setup polynomials of the main gate but the constant selector.
    pub setup: Seq<int>,
    /// The selectors of the gates, where there is more than one gate.
    pub selectors: Seq<int>,
    /// The copy-permutation grand product.
    pub z: int,
    /// The copy-permutation grand product one step on.
    pub z_next: int,
    /// The permutation polynomials.
    pub permutations: Seq<int>,
    /// The Lagrange polynomial of the first row.
    pub l_0: int,
    /// The lookup argument.
    pub lookup: Option<LookupRow>,
}

/// The challenges of the lookup argument, the value that its grand product ends
/// with, and the last element of the domain.
pub struct LookupWeights {
    /// Combines the columns of a table.
    pub eta: int,
    /// The first challenge of the grand product.
    pub beta: int,
    /// The second challenge of the grand product.
    pub gamma: int,
    /// The value that the grand product ends with.
    pub expected: int,
    /// The last element of the domain.
    pub last_omega: int,
}

/// The challenges that the numerator is made with.
pub struct Weights {
    /// Combines the terms of the numerator.
    pub alpha: int,
    /// The first challenge of the copy-permutation argument.
    pub beta: int,
    /// The second challenge of the copy-permutation argument.
    pub gamma: int,
    /// The shifts that tell the wires apart.
    pub shifts: Seq<int>,
    /// The lookup argument.
    pub lookup: Option<LookupWeights>,
}

/// The terms of the first `k` gates.
pub open spec fn gate_terms(gates: Seq<Gate>, row: Row, alpha: int, k: nat) -> int
    decreases k,
{
    if k == 0 {
        0
    } else if k == 1 {
        let main = main_gate(row.setup, row.wires, row.d_next, row.constant) * pow(alpha, 0);
        if gates.len() > 1 {
            main * row.selectors[0]
        } else {
            main
        }
    } else {
        gate_terms(gates, row, alpha, (k - 1) as nat) + bit_gate(row.wires[0]) * pow(
            alpha,
            terms_before(gates, (k - 1) as nat),
        ) * row.selectors[k - 1]
    }
}

/// The terms of the copy-permutation argument.
pub open spec fn copy_terms<F: PrimeField>(row: Row, w: Weights, a0: int, a1: int) -> int {
    a0 * (row.z * perm_product(row.wires, coset_row::<F>(row.x, w.shifts), w.beta, w.gamma)) - a0
        * (row.z_next * perm_product(row.wires, row.permutations, w.beta, w.gamma)) + a1 * ((row.z
        - 1) * row.l_0)
}

/// The combined entry of the wires and the table type, where the selector asks
/// for a lookup.
pub open spec fn lookup_query(wires: Seq<int>, table_type: int, selector: int, eta: int) -> int {
    (wires[0] + eta * wires[1] + eta * eta * wires[2] + eta * eta * eta * table_type) * selector
}

/// The terms of the lookup argument.
pub open spec fn lookup_terms(
    row: Row,
    l: LookupRow,
    w: LookupWeights,
    a0: int,
    a1: int,
    a2: int,
) -> int {
    (lookup_denominator(l.s, l.s_next, w.beta, w.gamma) * l.z_next - (lookup_query(
        row.wires,
        l.table_type,
        l.selector,
        w.eta,
    ) + w.gamma) * l.z * (w.beta + 1) * lookup_denominator(l.t, l.t_next, w.beta, w.gamma)) * a0 * (
    row.x - w.last_omega) + a1 * ((l.z - 1) * row.l_0) + a2 * ((l.z - w.expected) * l.l_last)
}

/// The terms of the lookup argument, where the circuit has one.
pub open spec fn optional_lookup_terms(row: Row, w: Weights, total: nat) -> int {
    match (row.lookup, w.lookup) {
        (Some(l), Some(lw)) => lookup_terms(
            row,
            l,
            lw,
            pow(w.alpha, total + 2),
            pow(w.alpha, total + 3),
            pow(w.alpha, total + 4),
        ),
        _ => 0,
    }
}

/// The numerator at one point. Each gate has as many powers of alpha as it has
/// terms, the copy-permutation argument the two that follow, and the lookup
/// argument the three after them.
pub open spec fn numerator<F: PrimeField>(gates: Seq<Gate>, row: Row, w: Weights) -> int {
    let total = terms_before(gates, gates.len());
    gate_terms(gates, row, w.alpha, gates.len()) + copy_terms::<F>(
        row,
        w,
        pow(w.alpha, total),
        pow(w.alpha, total + 1),
    ) + optional_lookup_terms(row, w, total)
}

/// The challenges of the lookup argument.
#[derive(Debug)]
pub struct LookupChallenges<F: PrimeField> {
    /// Combines the columns of a table.
    pub eta: F,
    /// The first challenge of the grand product.
    pub beta: F,
    /// The second challenge of the grand product.
    pub gamma: F,
}

/// The challenges of the argument up to the quotient.
#[derive(Debug)]
pub struct Challenges<F: PrimeField> {
    /// Combines the terms of the numerator.
    pub alpha: F,
    /// The first challenge of the copy-permutation argument.
    pub beta: F,
    /// The second challenge of the copy-permutation argument.
    pub gamma: F,
    /// The lookup argument.
    pub lookup: Option<LookupChallenges<F>>,
}

impl<F: PrimeField> Challenges<F> {
    /// The challenges as they weigh the numerator over a domain of `n` elements
    /// that `omega` generates.
    pub open spec fn weights(&self, non_residues: Seq<F>, omega: int, n: nat) -> Weights {
        Weights {
            alpha: self.alpha.val(),
            beta: self.beta.val(),
            gamma: self.gamma.val(),
            shifts: crate::permutation::column_shifts(non_residues),
            lookup: match self.lookup {
                Some(l) => Some(
                    LookupWeights {
                        eta: l.eta.val(),
                        beta: l.beta.val(),
                        gamma: l.gamma.val(),
                        expected: pow(
                            gamma_beta(l.beta.val(), l.gamma.val()),
                            (n - 1) as nat,
                        ),
                        last_omega: pow(omega, (n - 1) as nat),
                    },
                ),
                None => None,
            },
        }
    }
}

/// The values on the coset of the polynomials of the lookup argument.
#[derive(Debug)]
pub struct LookupLdes<F: PrimeField> {
    /// The grand product.
    pub z: Vec<F>,
    /// The sorted column.
    pub s: Vec<F>,
    /// The tables.
    pub t: Vec<F>,
    /// The table type.
    pub table_type: Vec<F>,
    /// The lookup selector.
    pub selector: Vec<F>,
    /// The Lagrange polynomial of the last row.
    pub l_last: Vec<F>,
}

/// The values on the coset of the larger domain, in reversed order, of all
/// polynomials that the numerator is made of.
#[derive(Debug)]
pub struct Ldes<F: PrimeField> {
    /// The public inputs and the constant selector.
    pub inputs_and_constants: Vec<F>,
    /// The wires.
    pub wires: Vec<Vec<F>>,
    /// The setup polynomials of the main gate but the constant selector.
    pub setup: Vec<Vec<F>>,
    /// The selectors of the gates, where there is more than one gate.
    pub selectors: Vec<Vec<F>>,
    /// The Lagrange polynomial of the first row.
    pub l_0: Vec<F>,
    /// The copy-permutation grand product.
    pub copy_z: Vec<F>,
    /// The permutation polynomials.
    pub permutations: Vec<Vec<F>>,
    /// The lookup argument.
    pub lookup: Option<LookupLdes<F>>,
}

impl<F: PrimeField> Ldes<F> {
    /// All columns have `m` entries, and there are as many as the gates need.
    pub open spec fn wf(&self, gates: Seq<Gate>, m: int) -> bool {
        &&& self.inputs_and_constants@.len() == m
        &&& self.l_0@.len() == m
        &&& self.copy_z@.len() == m
        &&& self.wires@.len() == 4
        &&& self.setup@.len() == 6
        &&& self.permutations@.len() == 4
        &&& gates.len() > 1 ==> self.selectors@.len() == gates.len()
        &&& all_len(self.wires@, m)
        &&& all_len(self.setup@, m)
        &&& all_len(self.selectors@, m)
        &&& all_len(self.permutations@, m)
        &&& self.lookup matches Some(l) ==> {
            &&& l.z@.len() == m
            &&& l.s@.len() == m
            &&& l.t@.len() == m
            &&& l.table_type@.len() == m
            &&& l.selector@.len() == m
            &&& l.l_last@.len() == m
        }
    }

    /// The values at position `i`, which belongs to the point `x`; position
    /// `next` belongs to the point one step on.
    pub open spec fn row(&self, i: int, next: int, x: int) -> Row {
        Row {
            x,
            constant: self.inputs_and_constants@[i].val(),
            wires: row_of(columns(self.wires@), i),
            d_next: self.wires@[3]@[next].val(),
            setup: row_of(columns(self.setup@), i),
            selectors: row_of(columns(self.selectors@), i),
            z: self.copy_z@[i].val(),
            z_next: self.copy_z@[next].val(),
            permutations: row_of(columns(self.permutations@), i),
            l_0: self.l_0@[i].val(),
            lookup: match self.lookup {
                Some(l) => Some(
                    LookupRow {
                        z: l.z@[i].val(),
                        z_next: l.z@[next].val(),
                        s: l.s@[i].val(),
                        s_next: l.s@[next].val(),
                        t: l.t@[i].val(),
                        t_next: l.t@[next].val(),
                        table_type: l.table_type@[i].val(),
                        selector: l.selector@[i].val(),
                        l_last: l.l_last@[i].val(),
                    },
                ),
                None => None,
            },
        }
    }
}

/// The point of the coset of the multiplicative generator with natural index
/// `e`.
pub open spec fn coset_point<F: PrimeField>(big_omega: int, e: nat) -> int {
    F::spec_generator() * pow(big_omega, e)
}

/// The values at position `i` of the columns, in reversed order, where `factor`
/// positions of the natural order make one step.
pub open spec fn coset_lde_row<F: PrimeField>(
    ldes: Ldes<F>,
    i: int,
    factor: nat,
    big_omega: int,
    bits: nat,
) -> Row {
    ldes.row(
        i,
        shifted_index(i as nat, factor, bits),
        red::<F>(coset_point::<F>(big_omega, reversed(i as nat, bits))),
    )
}

/// The number of terms before each gate never falls from gate to gate.
pub proof fn lemma_terms_monotonic(gates: Seq<Gate>, j: nat, k: nat)
    requires
        j <= k,
    ensures
        terms_before(gates, j) <= terms_before(gates, k),
    decreases k,
{
    if j < k {
        lemma_terms_monotonic(gates, j, (k - 1) as nat);
    }
}

/// The gates are a main gate and gates that test for a bit, each with a term.
pub open spec fn supported(gates: Seq<Gate>) -> bool {
    &&& gates.len() > 0
    &&& gates[0].kind == GateKind::MainGateOfWidth4WithDNext
    &&& forall|k: int|
        0 < k < gates.len() ==> (#[trigger] gates[k]).kind == GateKind::TestBitGateOnA
    &&& forall|k: int| 0 <= k < gates.len() ==> (#[trigger] gates[k]).num_quotient_terms > 0
}

/// The number of terms of all gates together.
pub fn total_quotient_terms(gates: &Vec<Gate>) -> (r: usize)
    requires
        terms_before(gates@, gates@.len()) <= usize::MAX,
    ensures
        r == terms_before(gates@, gates@.len()),
{
    let mut r: usize = 0;
    let mut k: usize = 0;
    while k < gates.len()
        invariant
            k <= gates@.len(),
            r == terms_before(gates@, k as nat),
            terms_before(gates@, gates@.len()) <= usize::MAX,
        decreases gates@.len() - k,
    {
        proof {
            lemma_terms_monotonic(gates@, (k + 1) as nat, gates@.len());
        }
        r += gates[k].num_quotient_terms;
        k += 1;
    }
    r
}

/// What the gates add to the numerator in each row.
fn gates_contribution<F: PrimeField>(
    gates: &Vec<Gate>,
    ldes: &Ldes<F>,
    d_next: &Vec<F>,
    alpha: &F,
    Ghost(rows): Ghost<Seq<Row>>,
) -> (r: Vec<F>)
    requires
        supported(gates@),
        ldes.wf(gates@, rows.len() as int),
        d_next@.len() == rows.len(),
        terms_before(gates@, gates@.len()) <= usize::MAX,
        forall|i: int|
            0 <= i < rows.len() ==> {
                &&& (#[trigger] rows[i]).constant == ldes.inputs_and_constants@[i].val()
                &&& rows[i].wires == row_of(columns(ldes.wires@), i)
                &&& rows[i].setup == row_of(columns(ldes.setup@), i)
                &&& rows[i].selectors == row_of(columns(ldes.selectors@), i)
                &&& rows[i].d_next == d_next@[i].val()
            },
    ensures
        r@.len() == rows.len(),
        forall|i: int|
            0 <= i < rows.len() ==> (#[trigger] r@[i]).val() == red::<F>(
                gate_terms(gates@, rows[i], alpha.val(), gates@.len()),
            ),
{
    let ghost a = alpha.val();
    let total = total_quotient_terms(gates);
    let powers = geometric(&F::one(), alpha, total);
    let count = gates.len();
    let m = d_next.len();
    let mut start: usize = gates[0].num_quotient_terms;
    proof {
        lemma_terms_monotonic(gates@, 1, gates@.len());
        assert(terms_before(gates@, 1) == terms_before(gates@, 0) + start as nat);
    }
    let for_gate = slice(&powers, 0, start);
    let mut r = contribute_into_quotient_for_public_inputs(
        &gates[0],
        &ldes.inputs_and_constants,
        &ldes.wires,
        d_next,
        &ldes.setup,
        &for_gate,
    );
    proof {
        assert forall|i: int| 0 <= i < m implies (#[trigger] r@[i]).val() == red::<F>(
            main_gate(rows[i].setup, rows[i].wires, rows[i].d_next, rows[i].constant) * pow(a, 0),
        ) by {
            assert(rows[i].constant == ldes.inputs_and_constants@[i].val());
            let g = main_gate(rows[i].setup, rows[i].wires, rows[i].d_next, rows[i].constant);
            assert(for_gate@[0] == powers@[0]);
            assert(1 * pow(a, 0) == pow(a, 0));
            lemma_red_range::<F>(pow(a, 0));
            lemma_red_mul::<F>(g, for_gate@[0].val(), g, pow(a, 0));
        }
    }
    if count > 1 {
        let mut i: usize = 0;
        while i < m
            invariant
                i <= m,
                m == r@.len(),
                m == rows.len(),
                count == gates@.len(),
                count > 1,
                a == alpha.val(),
                ldes.wf(gates@, m as int),
                forall|j: int|
                    0 <= j < m ==> (#[trigger] rows[j]).selectors == row_of(
                        columns(ldes.selectors@),
                        j,
                    ),
                forall|j: int|
                    i <= j < m ==> (#[trigger] r@[j]).val() == red::<F>(
                        main_gate(rows[j].setup, rows[j].wires, rows[j].d_next, rows[j].constant)
                            * pow(a, 0),
                    ),
                forall|j: int|
                    0 <= j < i ==> (#[trigger] r@[j]).val() == red::<F>(
                        gate_terms(gates@, rows[j], a, 1),
                    ),
            decreases m - i,
        {
            let ghost w = rows[i as int];
            assert(ldes.selectors@[0]@.len() == m);
            assert(w.selectors[0] == ldes.selectors@[0]@[i as int].val());
            let scaled = Num::with(
                &r[i],
                Ghost(main_gate(w.setup, w.wires, w.d_next, w.constant) * pow(a, 0)),
            ).times(&Num::of(&ldes.selectors[0][i]));
            r.set(i, scaled.value());
            i += 1;
        }
    }
    let mut k: usize = 1;
    while k < count
        invariant
            1 <= k <= count,
            count == gates@.len(),
            supported(gates@),
            a == alpha.val(),
            m == r@.len(),
            m == rows.len(),
            ldes.wf(gates@, m as int),
            start == terms_before(gates@, k as nat),
            total == terms_before(gates@, gates@.len()),
            powers@.len() == total,
            forall|j: int|
                0 <= j < total ==> (#[trigger] powers@[j]).val() == red::<F>(
                    1 * pow(a, j as nat),
                ),
            forall|j: int|
                0 <= j < m ==> {
                    &&& (#[trigger] rows[j]).selectors == row_of(columns(ldes.selectors@), j)
                    &&& rows[j].wires == row_of(columns(ldes.wires@), j)
                },
            forall|j: int|
                0 <= j < m ==> (#[trigger] r@[j]).val() == red::<F>(
                    gate_terms(gates@, rows[j], a, k as nat),
                ),
        decreases count - k,
    {
        proof {
            lemma_terms_monotonic(gates@, (k + 1) as nat, gates@.len());
            assert(terms_before(gates@, (k + 1) as nat) == start
                + gates@[k as int].num_quotient_terms);
        }
        let end: usize = start + gates[k].num_quotient_terms;
        let for_gate = slice(&powers, start, end);
        let contribution = test_bit_gate_contribute_into_quotient(
            &gates[k],
            &ldes.wires[0],
            &for_gate,
        );
        let ghost p = pow(a, start as nat);
        proof {
            assert(for_gate@[0] == powers@[start as int]);
            assert(1 * p == p);
            lemma_red_range::<F>(p);
            assert(for_gate@[0].val() == red::<F>(p));
        }
        let mut i: usize = 0;
        while i < m
            invariant
                i <= m,
                m == r@.len(),
                m == rows.len(),
                m == contribution@.len(),
                m == ldes.wires@[0]@.len(),
                1 <= k < count,
                count == gates@.len(),
                ldes.wf(gates@, m as int),
                p == pow(a, terms_before(gates@, k as nat)),
                for_gate@.len() > 0,
                for_gate@[0].val() == red::<F>(p),
                red::<F>(red::<F>(p)) == red::<F>(p),
                forall|j: int|
                    0 <= j < m ==> {
                        &&& (#[trigger] rows[j]).selectors == row_of(columns(ldes.selectors@), j)
                        &&& rows[j].wires == row_of(columns(ldes.wires@), j)
                    },
                forall|j: int|
                    0 <= j < m ==> (#[trigger] contribution@[j]).val() == red::<F>(
                        bit_gate(ldes.wires@[0]@[j].val()) * for_gate@[0].val(),
                    ),
                forall|j: int|
                    i <= j < m ==> (#[trigger] r@[j]).val() == red::<F>(
                        gate_terms(gates@, rows[j], a, k as nat),
                    ),
                forall|j: int|
                    0 <= j < i ==> (#[trigger] r@[j]).val() == red::<F>(
                        gate_terms(gates@, rows[j], a, (k + 1) as nat),
                    ),
            decreases m - i,
        {
            let ghost w = rows[i as int];
            let ghost b = bit_gate(w.wires[0]);
            proof {
                assert(w.wires[0] == ldes.wires@[0]@[i as int].val());
                assert(ldes.selectors@[k as int]@.len() == m);
                assert(w.selectors[k as int] == ldes.selectors@[k as int]@[i as int].val());
                lemma_red_mul::<F>(b, for_gate@[0].val(), b, p);
            }
            let term = Num::with(&contribution[i], Ghost(b * p)).times(
                &Num::of(&ldes.selectors[k][i]),
            );
            let sum = Num::with(&r[i], Ghost(gate_terms(gates@, w, a, k as nat))).plus(&term);
            r.set(i, sum.value());
            i += 1;
        }
        start = end;
        k += 1;
    }
    r
}

/// What the copy-permutation argument adds to the numerator in one row.
fn copy_contribution<F: PrimeField>(
    ldes: &Ldes<F>,
    i: usize,
    x: &F,
    z_next: &F,
    shifts: &Vec<F>,
    challenges: &Challenges<F>,
    a0: &Num<F>,
    a1: &Num<F>,
    Ghost(gates): Ghost<Seq<Gate>>,
    Ghost(m): Ghost<int>,
    Ghost(row_i): Ghost<Row>,
    Ghost(w): Ghost<Weights>,
) -> (r: Num<F>)
    requires
        ldes.wf(gates, m),
        i < m,
        shifts@.len() == 4,
        w.shifts == vals(shifts@),
        w.beta == challenges.beta.val(),
        w.gamma == challenges.gamma.val(),
        row_i.x == x.val(),
        row_i.wires == row_of(columns(ldes.wires@), i as int),
        row_i.permutations == row_of(columns(ldes.permutations@), i as int),
        row_i.z == ldes.copy_z@[i as int].val(),
        row_i.l_0 == ldes.l_0@[i as int].val(),
        row_i.z_next == z_next.val(),
    ensures
        r.expr() == copy_terms::<F>(row_i, w, a0.expr(), a1.expr()),
{
    let wires = row(&ldes.wires, i);
    let permutations = row(&ldes.permutations, i);
    let points = coset_points(x, shifts);
    let beta = Num::of(&challenges.beta);
    let gamma = Num::of(&challenges.gamma);
    let z = Num::of(&ldes.copy_z[i]);
    proof {
        assert(vals(wires@).take(4) =~= vals(wires@));
        assert(vals(permutations@).take(4) =~= vals(permutations@));
        assert(vals(points@).take(4) =~= vals(points@));
    }
    let first = z.times(&permutation_factor(&wires, &points, 4, &beta, &gamma));
    let second = Num::of(z_next).times(
        &permutation_factor(&wires, &permutations, 4, &beta, &gamma),
    );
    let third = z.minus(&Num::one()).times(&Num::of(&ldes.l_0[i]));
    a0.times(&first).minus(&a0.times(&second)).plus(&a1.times(&third))
}

/// The columns of the lookup argument one step on.
struct NextLookup<F: PrimeField> {
    z: Vec<F>,
    s: Vec<F>,
    t: Vec<F>,
}

/// What the lookup argument adds to the numerator in one row.
fn lookup_contribution<F: PrimeField>(
    ldes: &Ldes<F>,
    l: &LookupLdes<F>,
    next: &NextLookup<F>,
    i: usize,
    x: &F,
    challenges: &LookupChallenges<F>,
    expected: &Num<F>,
    last_omega: &Num<F>,
    a0: &Num<F>,
    a1: &Num<F>,
    a2: &Num<F>,
    Ghost(gates): Ghost<Seq<Gate>>,
    Ghost(row_i): Ghost<Row>,
    Ghost(w): Ghost<LookupWeights>,
) -> (r: Num<F>)
    requires
        ldes.lookup == Some(*l),
        ldes.wf(gates, ldes.l_0@.len() as int),
        i < ldes.l_0@.len(),
        next.z@.len() == ldes.l_0@.len(),
        next.s@.len() == ldes.l_0@.len(),
        next.t@.len() == ldes.l_0@.len(),
        w.eta == challenges.eta.val(),
        w.beta == challenges.beta.val(),
        w.gamma == challenges.gamma.val(),
        w.expected == expected.expr(),
        w.last_omega == last_omega.expr(),
        row_i.x == x.val(),
        row_i.wires == row_of(columns(ldes.wires@), i as int),
        row_i.l_0 == ldes.l_0@[i as int].val(),
        row_i.lookup == Some(
            (LookupRow {
                z: l.z@[i as int].val(),
                z_next: next.z@[i as int].val(),
                s: l.s@[i as int].val(),
                s_next: next.s@[i as int].val(),
                t: l.t@[i as int].val(),
                t_next: next.t@[i as int].val(),
                table_type: l.table_type@[i as int].val(),
                selector: l.selector@[i as int].val(),
                l_last: l.l_last@[i as int].val(),
            }),
        ),
    ensures
        r.expr() == lookup_terms(row_i, row_i.lookup->0, w, a0.expr(), a1.expr(), a2.expr()),
{
    let one = Num::one();
    let eta = Num::of(&challenges.eta);
    let beta = Num::of(&challenges.beta);
    let gamma = Num::of(&challenges.gamma);
    let beta_plus_one = beta.plus(&one);
    let gb = gamma.times(&beta_plus_one);
    let z = Num::of(&l.z[i]);
    let eta2 = eta.times(&eta);
    let eta3 = eta2.times(&eta);
    proof {
        assert(row_i.wires[0] == ldes.wires@[0]@[i as int].val());
        assert(row_i.wires[1] == ldes.wires@[1]@[i as int].val());
        assert(row_i.wires[2] == ldes.wires@[2]@[i as int].val());
    }
    let f = Num::of(&ldes.wires[0][i]).plus(&eta.times(&Num::of(&ldes.wires[1][i]))).plus(
        &eta2.times(&Num::of(&ldes.wires[2][i])),
    ).plus(&eta3.times(&Num::of(&l.table_type[i]))).times(&Num::of(&l.selector[i]));
    let sorted = Num::of(&l.s[i]).plus(&beta.times(&Num::of(&next.s[i]))).plus(&gb);
    let tables = Num::of(&l.t[i]).plus(&beta.times(&Num::of(&next.t[i]))).plus(&gb);
    let product = sorted.times(&Num::of(&next.z[i])).minus(
        &f.plus(&gamma).times(&z).times(&beta_plus_one).times(&tables),
    );
    let steps = product.times(a0).times(&Num::of(x).minus(last_omega));
    let first = z.minus(&one).times(&Num::of(&ldes.l_0[i]));
    let last = z.minus(expected).times(&Num::of(&l.l_last[i]));
    steps.plus(&a1.times(&first)).plus(&a2.times(&last))
}

/// The larger domain holds the smaller one, each step of which is `factor` of
/// its steps.
pub open spec fn extends<F: PrimeField>(big: Domain<F>, domain: Domain<F>, factor: int) -> bool {
    &&& big.wf()
    &&& domain.wf()
    &&& factor > 0
    &&& big.size == domain.size * factor
    &&& 2 * big.size <= usize::MAX
}

/// The numerator at every point of the coset of the larger domain, in reversed
/// order.
pub fn numerator_on_coset<F: PrimeField>(
    gates: &Vec<Gate>,
    ldes: &Ldes<F>,
    challenges: &Challenges<F>,
    non_residues: &Vec<F>,
    domain: &Domain<F>,
    big: &Domain<F>,
    factor: usize,
) -> (r: Vec<F>)
    requires
        supported(gates@),
        extends(*big, *domain, factor as int),
        ldes.wf(gates@, big.size as int),
        non_residues@.len() == 3,
        terms_before(gates@, gates@.len()) + 4 <= usize::MAX,
        ldes.lookup is Some <==> challenges.lookup is Some,
    ensures
        r@.len() == big.size,
        forall|i: int|
            0 <= i < big.size ==> (#[trigger] r@[i]).val() == red::<F>(
                numerator::<F>(
                    gates@,
                    coset_lde_row(
                        *ldes,
                        i,
                        factor as nat,
                        big.generator.val(),
                        big.power_of_two as nat,
                    ),
                    challenges.weights(
                        non_residues@,
                        domain.generator.val(),
                        domain.size as nat,
                    ),
                ),
            ),
{
    let bits = big.power_of_two;
    let m = big.size as usize;
    let ghost big_omega = big.generator.val();
    let ghost w = challenges.weights(non_residues@, domain.generator.val(), domain.size as nat);
    let ghost rows = Seq::new(
        m as nat,
        |i: int| coset_lde_row(*ldes, i, factor as nat, big_omega, bits as nat),
    );
    proof {
        lemma_pow2_pos(bits as nat);
        lemma_pow2_pos(domain.power_of_two as nat);
        assert(factor <= m) by (nonlinear_arith)
            requires
                m == domain.size * factor,
                domain.size >= 1,
        ;
    }
    let d_next = clone_shifted_assuming_bitreversed(&ldes.wires[3], factor, bits);
    let z_next = clone_shifted_assuming_bitreversed(&ldes.copy_z, factor, bits);
    let natural = geometric(&F::multiplicative_generator(), &big.generator, m);
    let x_poly = bitreverse_enumeration(&natural, bits);
    proof {
        assert forall|i: int| 0 <= i < m implies (#[trigger] x_poly@[i]).val() == rows[i].x by {
            lemma_reversed_bound(i as nat, bits as nat);
        }
    }
    let shifts = crate::permutation::shifts(non_residues);
    let mut r = gates_contribution(gates, ldes, &d_next, &challenges.alpha, Ghost(rows));
    let total = total_quotient_terms(gates);
    let alpha = Num::of(&challenges.alpha);
    let a0 = alpha.power(total as u64);
    let a1 = alpha.power(total as u64 + 1);
    let mut i: usize = 0;
    while i < m
        invariant
            i <= m,
            m == r@.len(),
            m == rows.len(),
            m == x_poly@.len(),
            m == z_next@.len(),
            ldes.wf(gates@, m as int),
            shifts@.len() == 4,
            w.shifts == vals(shifts@),
            w.beta == challenges.beta.val(),
            w.gamma == challenges.gamma.val(),
            w.alpha == challenges.alpha.val(),
            forall|j: int|
                0 <= j < m ==> {
                    &&& (#[trigger] rows[j]).x == x_poly@[j].val()
                    &&& rows[j].wires == row_of(columns(ldes.wires@), j)
                    &&& rows[j].permutations == row_of(columns(ldes.permutations@), j)
                    &&& rows[j].z == ldes.copy_z@[j].val()
                    &&& rows[j].l_0 == ldes.l_0@[j].val()
                    &&& rows[j].z_next == z_next@[j].val()
                },
            forall|j: int|
                i <= j < m ==> (#[trigger] r@[j]).val() == red::<F>(
                    gate_terms(gates@, rows[j], w.alpha, gates@.len()),
                ),
            forall|j: int|
                0 <= j < i ==> (#[trigger] r@[j]).val() == red::<F>(
                    gate_terms(gates@, rows[j], w.alpha, gates@.len()) + copy_terms::<F>(
                        rows[j],
                        w,
                        a0.expr(),
                        a1.expr(),
                    ),
                ),
        decreases m - i,
    {
        let ghost row_i = rows[i as int];
        let term = copy_contribution(
            ldes,
            i,
            &x_poly[i],
            &z_next[i],
            &shifts,
            challenges,
            &a0,
            &a1,
            Ghost(gates@),
            Ghost(m as int),
            Ghost(row_i),
            Ghost(w),
        );
        let sum = Num::with(
            &r[i],
            Ghost(gate_terms(gates@, row_i, w.alpha, gates@.len())),
        ).plus(&term);
        r.set(i, sum.value());
        i += 1;
    }
    match (&ldes.lookup, &challenges.lookup) {
        (Some(l), Some(c)) => {
            let next = NextLookup {
                z: clone_shifted_assuming_bitreversed(&l.z, factor, bits),
                s: clone_shifted_assuming_bitreversed(&l.s, factor, bits),
                t: clone_shifted_assuming_bitreversed(&l.t, factor, bits),
            };
            let b0 = alpha.power(total as u64 + 2);
            let b1 = alpha.power(total as u64 + 3);
            let b2 = alpha.power(total as u64 + 4);
            let gb = Num::of(&c.gamma).times(&Num::of(&c.beta).plus(&Num::one()));
            let expected = gb.power(domain.size - 1);
            let last_omega = Num::of(&domain.generator).power(domain.size - 1);
            let ghost lw = w.lookup->0;
            let mut i: usize = 0;
            while i < m
                invariant
                    i <= m,
                    m == r@.len(),
                    m == rows.len(),
                    m == x_poly@.len(),
                    m == ldes.l_0@.len(),
                    m == next.z@.len(),
                    m == next.s@.len(),
                    m == next.t@.len(),
                    ldes.wf(gates@, m as int),
                    ldes.lookup == Some(*l),
                    w.lookup == Some(lw),
                    lw.eta == c.eta.val(),
                    lw.beta == c.beta.val(),
                    lw.gamma == c.gamma.val(),
                    lw.expected == expected.expr(),
                    lw.last_omega == last_omega.expr(),
                    b0.expr() == pow(w.alpha, (total + 2) as nat),
                    b1.expr() == pow(w.alpha, (total + 3) as nat),
                    b2.expr() == pow(w.alpha, (total + 4) as nat),
                    total == terms_before(gates@, gates@.len()),
                    forall|j: int|
                        0 <= j < m ==> {
                            &&& (#[trigger] rows[j]).x == x_poly@[j].val()
                            &&& rows[j].wires == row_of(columns(ldes.wires@), j)
                            &&& rows[j].l_0 == ldes.l_0@[j].val()
                            &&& rows[j].lookup == Some(
                                (LookupRow {
                                    z: l.z@[j].val(),
                                    z_next: next.z@[j].val(),
                                    s: l.s@[j].val(),
                                    s_next: next.s@[j].val(),
                                    t: l.t@[j].val(),
                                    t_next: next.t@[j].val(),
                                    table_type: l.table_type@[j].val(),
                                    selector: l.selector@[j].val(),
                                    l_last: l.l_last@[j].val(),
                                }),
                            )
                        },
                    forall|j: int|
                        i <= j < m ==> (#[trigger] r@[j]).val() == red::<F>(
                            gate_terms(gates@, rows[j], w.alpha, gates@.len()) + copy_terms::<F>(
                                rows[j],
                                w,
                                a0.expr(),
                                a1.expr(),
                            ),
                        ),
                    forall|j: int|
                        0 <= j < i ==> (#[trigger] r@[j]).val() == red::<F>(
                            gate_terms(gates@, rows[j], w.alpha, gates@.len()) + copy_terms::<F>(
                                rows[j],
                                w,
                                a0.expr(),
                                a1.expr(),
                            ) + optional_lookup_terms(rows[j], w, total as nat),
                        ),
                decreases m - i,
            {
                let ghost row_i = rows[i as int];
                let term = lookup_contribution(
                    ldes,
                    l,
                    &next,
                    i,
                    &x_poly[i],
                    c,
                    &expected,
                    &last_omega,
                    &b0,
                    &b1,
                    &b2,
                    Ghost(gates@),
                    Ghost(row_i),
                    Ghost(lw),
                );
                let sum = Num::with(
                    &r[i],
                    Ghost(
                        gate_terms(gates@, row_i, w.alpha, gates@.len()) + copy_terms::<F>(
                            row_i,
                            w,
                            a0.expr(),
                            a1.expr(),
                        ),
                    ),
                ).plus(&term);
                r.set(i, sum.value());
                i += 1;
            }
            proof {
                assert forall|j: int| 0 <= j < m implies (#[trigger] r@[j]).val() == red::<F>(
                    numerator::<F>(gates@, rows[j], w),
                ) by {}
            }
        },
        _ => {
            proof {
                assert forall|j: int| 0 <= j < m implies (#[trigger] r@[j]).val() == red::<F>(
                    numerator::<F>(gates@, rows[j], w),
                ) by {
                    assert(rows[j].lookup is None);
                }
            }
        },
    }
    r
}

/// The last four coefficients are zero.
pub open spec fn fits_degree<F: PrimeField>(c: Seq<F>) -> bool {
    forall|j: int| c.len() - 4 <= j < c.len() ==> (#[trigger] c[j]).val() == 0
}

/// The polynomial `c`, of as many coefficients as the larger domain has
/// elements, times the polynomial that vanishes on the domain of `n` elements,
/// takes the values `t` on the coset, which are given in reversed order.
pub open spec fn is_quotient<F: PrimeField>(
    c: Seq<F>,
    t: Seq<F>,
    n: nat,
    big_omega: int,
    bits: nat,
) -> bool {
    &&& c.len() == t.len()
    &&& forall|e: int|
        0 <= e < t.len() ==> {
            let x = coset_point::<F>(big_omega, e as nat);
            red::<F>(eval(vals(c), x) * (pow(x, n) - 1)) == t[#[trigger] reversed(
                e as nat,
                bits,
            ) as int].val()
        }
}

/// The values on the coset of the polynomial that vanishes on the domain of `n`
/// elements.
pub open spec fn vanishing_on_coset<F: PrimeField>(big_omega: int, n: nat, m: nat) -> Seq<int> {
    Seq::new(m, |e: int| pow(coset_point::<F>(big_omega, e as nat), n) - 1)
}

/// The quotient of a polynomial, given by its values on the coset in reversed
/// order, by the polynomial that vanishes on the domain, cut into parts of the
/// size of the domain. It fails exactly if the divisor vanishes somewhere on the
/// coset, or if the quotient has too high a degree.
pub fn divide_by_vanishing<F: PrimeField>(
    t: &Vec<F>,
    domain: &Domain<F>,
    big: &Domain<F>,
    factor: usize,
) -> (r: Result<Vec<Vec<F>>, SynthesisError>)
    requires
        extends(*big, *domain, factor as int),
        t@.len() == big.size,
        big.size >= 4,
    ensures
        ({
            let divisible = divisible_on_coset(*domain, *big);
            let quotient = |c: Seq<F>|
                is_quotient(
                    c,
                    t@,
                    domain.size as nat,
                    big.generator.val(),
                    big.power_of_two as nat,
                );
            match r {
                Ok(parts) => {
                    &&& divisible
                    &&& parts@.len() == factor
                    &&& all_len(parts@, domain.size as int)
                    &&& exists|c: Seq<F>| #[trigger]
                        quotient(c) && fits_degree(c) && parts_of(parts@, c, domain.size as int)
                },
                Err(SynthesisError::DivisionByZero) => !divisible,
                Err(SynthesisError::Unsatisfiable) => {
                    &&& divisible
                    &&& exists|c: Seq<F>| #[trigger] quotient(c) && !fits_degree(c)
                },
                Err(_) => false,
            }
        }),
{
    let n = domain.size;
    let m = big.size as usize;
    let bits = big.power_of_two;
    let g = F::multiplicative_generator();
    let ghost w = big.generator.val();
    let ghost quotient = |c: Seq<F>| is_quotient(c, t@, n as nat, w, bits as nat);
    let vanishing = evaluate_vanishing_polynomial_of_degree_on_domain_size(n, &g, big);
    proof {
        let exact = vanishing_on_coset::<F>(w, n as nat, m as nat);
        assert forall|i: int| 0 <= i < m implies red::<F>(#[trigger] vals(vanishing@)[i])
            == red::<F>(exact[i]) by {
            lemma_val_red(vanishing@[i]);
        }
        lemma_all_invertible_congruent::<F>(vals(vanishing@), exact);
        lemma_all_invertible_congruent::<F>(exact, vals(vanishing@));
    }
    let inverses = match batch_inversion(&vanishing) {
        Ok(v) => v,
        Err(e) => {
            return Err(e);
        },
    };
    let natural = bitreverse_enumeration(t, bits);
    let mut values: Vec<F> = Vec::with_capacity(m);
    let mut i: usize = 0;
    while i < m
        invariant
            i <= m,
            m == natural@.len(),
            m == inverses@.len(),
            values@.len() == i,
            forall|k: int|
                0 <= k < i ==> (#[trigger] values@[k]).val() == red::<F>(
                    natural@[k].val() * inverses@[k].val(),
                ),
        decreases m - i,
    {
        values.push(Num::of(&natural[i]).times(&Num::of(&inverses[i])).value());
        i += 1;
    }
    let c = icoset_fft_for_generator(&values, big, &g);
    proof {
        assert forall|e: int| 0 <= e < m implies {
            let x = coset_point::<F>(w, e as nat);
            red::<F>(eval(vals(c@), x) * (pow(x, n as nat) - 1)) == t@[#[trigger] reversed(
                e as nat,
                bits as nat,
            ) as int].val()
        } by {
            let x = coset_point::<F>(w, e as nat);
            let v = pow(x, n as nat) - 1;
            let (a, d) = (natural@[e].val(), inverses@[e].val());
            let y = eval(vals(c@), x);
            assert(values@[e].val() == red::<F>(y));
            assert(values@[e].val() == red::<F>(a * d));
            assert(vanishing@[e].val() == red::<F>(v));
            lemma_red_range::<F>(v);
            lemma_red_mul::<F>(y, v, a * d, vanishing@[e].val());
            assert((a * d) * vanishing@[e].val() == a * (vanishing@[e].val() * d))
                by (nonlinear_arith);
            lemma_red_small::<F>();
            assert(inverses@[e].val() == inv::<F>(vanishing@[e].val()));
            lemma_red_mul::<F>(a, vanishing@[e].val() * d, a, 1);
            lemma_val_red(natural@[e]);
            assert(natural@[e] == t@[reversed(e as nat, bits as nat) as int]);
        }
        assert(quotient(c@));
    }
    let zero = F::zero();
    let mut j: usize = m - 4;
    while j < m
        invariant
            m - 4 <= j <= m,
            m == c@.len(),
            zero.val() == 0,
            quotient(c@),
            m >= 4,
            quotient == (|c: Seq<F>| is_quotient(c, t@, n as nat, w, bits as nat)),
            n == domain.size,
            w == big.generator.val(),
            bits == big.power_of_two,
            divisible_on_coset(*domain, *big),
            forall|k: int| m - 4 <= k < j ==> (#[trigger] c@[k]).val() == 0,
        decreases m - j,
    {
        if !c[j].equals(&zero) {
            proof {
                assert(!fits_degree(c@));
            }
            return Err(SynthesisError::Unsatisfiable);
        }
        j += 1;
    }
    proof {
        lemma_pow2_pos(domain.power_of_two as nat);
        assert(n * factor == factor * n) by (nonlinear_arith);
        assert(n <= n * factor) by (nonlinear_arith)
            requires
                factor > 0,
        ;
        vstd::arithmetic::div_mod::lemma_mod_multiples_basic(factor as int, n as int);
    }
    let parts = break_into_multiples(&c, n as usize);
    proof {
        let k = parts@.len() as int;
        assert(k == factor) by (nonlinear_arith)
            requires
                k * n == n * factor,
                n > 0,
        ;
        assert(quotient(c@) && fits_degree(c@) && parts_of(parts@, c@, n as int));
    }
    Ok(parts)
}

/// The parts are the consecutive pieces of length `n` of the coefficients.
pub open spec fn parts_of<F: PrimeField>(parts: Seq<Vec<F>>, c: Seq<F>, n: int) -> bool {
    &&& c.len() == parts.len() * n
    &&& forall|i: int|
        0 <= i < parts.len() ==> (#[trigger] parts[i])@ == c.subrange(i * n, (i + 1) * n)
}

/// The polynomial `c`, times the polynomial that vanishes on the domain, takes
/// the values of the numerator on every point of the coset.
pub open spec fn is_numerator_quotient<F: PrimeField>(
    c: Seq<F>,
    gates: Seq<Gate>,
    ldes: Ldes<F>,
    w: Weights,
    domain: Domain<F>,
    big: Domain<F>,
    factor: nat,
) -> bool {
    let bits = big.power_of_two as nat;
    let big_omega = big.generator.val();
    &&& c.len() == big.size
    &&& forall|e: int|
        0 <= e < big.size ==> {
            let x = coset_point::<F>(big_omega, e as nat);
            red::<F>(eval(vals(c), x) * (pow(x, domain.size as nat) - 1)) == red::<F>(
                numerator::<F>(
                    gates,
                    coset_lde_row(
                        ldes,
                        #[trigger] reversed(e as nat, bits) as int,
                        factor,
                        big_omega,
                        bits,
                    ),
                    w,
                ),
            )
        }
}

/// The polynomial that vanishes on the domain has no zero on the coset.
pub open spec fn divisible_on_coset<F: PrimeField>(domain: Domain<F>, big: Domain<F>) -> bool {
    all_invertible::<F>(
        vanishing_on_coset::<F>(big.generator.val(), domain.size as nat, big.size as nat),
    )
}

/// The quotient of the numerator is unique, if the polynomial that vanishes on the
/// domain has no zero on the coset.
pub proof fn law_quotient_is_unique<F: PrimeField>(
    c: Seq<F>,
    d: Seq<F>,
    gates: Seq<Gate>,
    ldes: Ldes<F>,
    w: Weights,
    domain: Domain<F>,
    big: Domain<F>,
    factor: nat,
)
    requires
        big.wf(),
        divisible_on_coset(domain, big),
        is_numerator_quotient(c, gates, ldes, w, domain, big, factor),
        is_numerator_quotient(d, gates, ldes, w, domain, big, factor),
    ensures
        vals(c) == vals(d),
{
    let n = domain.size as nat;
    let bits = big.power_of_two as nat;
    let big_omega = big.generator.val();
    let g = F::spec_generator();
    lemma_red_small::<F>();
    assert forall|i: int| 0 <= i < pow2(bits) implies red::<F>(
        eval(vals(c), g * #[trigger] pow(big_omega, i as nat)),
    ) == red::<F>(eval(vals(d), g * pow(big_omega, i as nat))) by {
        let x = coset_point::<F>(big_omega, i as nat);
        let v = pow(x, n) - 1;
        let all = vanishing_on_coset::<F>(big_omega, n, big.size as nat);
        assert(invertible::<F>(all[i]));
        assert(all[i] == v);
        let (a, b, y) = (eval(vals(c), x), eval(vals(d), x), inv::<F>(v));
        let at = reversed(i as nat, bits);
        assert(red::<F>(a * v) == red::<F>(b * v));
        lemma_red_mul::<F>(a * v, y, b * v, y);
        assert((a * v) * y == a * (v * y)) by (nonlinear_arith);
        assert((b * v) * y == b * (v * y)) by (nonlinear_arith);
        lemma_red_mul::<F>(a, v * y, a, 1);
        lemma_red_mul::<F>(b, v * y, b, 1);
    }
    let gi = F::lemma_generator();
    assert(red::<F>(g * gi) == 1) by {
        reveal(red);
    }
    lemma_invertible::<F>(g, gi);
    lemma_unique_on_coset::<F>(vals(c), vals(d), g, big_omega, bits);
    assert forall|j: int| 0 <= j < c.len() implies #[trigger] vals(c)[j] == vals(d)[j] by {
        assert(red::<F>(vals(c)[j]) == red::<F>(vals(d)[j]));
        lemma_val_red(c[j]);
        lemma_val_red(d[j]);
    }
    assert(vals(c) =~= vals(d));
}

/// The quotient of the numerator by the polynomial that vanishes on the domain,
/// cut into parts of the size of the domain. It fails exactly if the divisor
/// vanishes somewhere on the coset, or if the quotient has too high a degree.
pub fn quotient_parts<F: PrimeField>(
    gates: &Vec<Gate>,
    ldes: &Ldes<F>,
    challenges: &Challenges<F>,
    non_residues: &Vec<F>,
    domain: &Domain<F>,
    big: &Domain<F>,
    factor: usize,
) -> (r: Result<Vec<Vec<F>>, SynthesisError>)
    requires
        supported(gates@),
        extends(*big, *domain, factor as int),
        big.size >= 4,
        ldes.wf(gates@, big.size as int),
        non_residues@.len() == 3,
        terms_before(gates@, gates@.len()) + 4 <= usize::MAX,
        ldes.lookup is Some <==> challenges.lookup is Some,
    ensures
        ({
            let w = challenges.weights(
                non_residues@,
                domain.generator.val(),
                domain.size as nat,
            );
            match r {
                Ok(parts) => {
                    &&& divisible_on_coset(*domain, *big)
                    &&& parts@.len() == factor
                    &&& all_len(parts@, domain.size as int)
                    &&& exists|c: Seq<F>|
                        {
                            &&& #[trigger] is_numerator_quotient(
                                c,
                                gates@,
                                *ldes,
                                w,
                                *domain,
                                *big,
                                factor as nat,
                            )
                            &&& fits_degree(c)
                            &&& parts_of(parts@, c, domain.size as int)
                        }
                },
                Err(SynthesisError::DivisionByZero) => !divisible_on_coset(*domain, *big),
                Err(SynthesisError::Unsatisfiable) => {
                    &&& divisible_on_coset(*domain, *big)
                    &&& exists|c: Seq<F>|
                        {
                            &&& #[trigger] is_numerator_quotient(
                                c,
                                gates@,
                                *ldes,
                                w,
                                *domain,
                                *big,
                                factor as nat,
                            )
                            &&& !fits_degree(c)
                        }
                },
                Err(_) => false,
            }
        }),
{
    let t = numerator_on_coset(gates, ldes, challenges, non_residues, domain, big, factor);
    let r = divide_by_vanishing(&t, domain, big, factor);
    proof {
        let bits = big.power_of_two as nat;
        let w = challenges.weights(non_residues@, domain.generator.val(), domain.size as nat);
        assert forall|c: Seq<F>|
            is_quotient(
                c,
                t@,
                domain.size as nat,
                big.generator.val(),
                bits,
            ) implies #[trigger] is_numerator_quotient(
            c,
            gates@,
            *ldes,
            w,
            *domain,
            *big,
            factor as nat,
        ) by {
            assert forall|e: int| 0 <= e < big.size implies {
                let x = coset_point::<F>(big.generator.val(), e as nat);
                red::<F>(eval(vals(c), x) * (pow(x, domain.size as nat) - 1)) == red::<F>(
                    numerator::<F>(
                        gates@,
                        coset_lde_row(
                            *ldes,
                            #[trigger] reversed(e as nat, bits) as int,
                            factor as nat,
                            big.generator.val(),
                            bits,
                        ),
                        w,
                    ),
                )
            } by {
                lemma_reversed_bound(e as nat, bits);
                assert(t@[reversed(e as nat, bits) as int].val() == red::<F>(
                    numerator::<F>(
                        gates@,
                        coset_lde_row(
                            *ldes,
                            reversed(e as nat, bits) as int,
                            factor as nat,
                            big.generator.val(),
                            bits,
                        ),
                        w,
                    ),
                ));
            }
        }
        let quotient = |c: Seq<F>|
            is_quotient(c, t@, domain.size as nat, big.generator.val(), bits);
        if r is Ok {
            let parts = r->Ok_0;
            let c = choose|c: Seq<F>| #[trigger]
                quotient(c) && fits_degree(c) && parts_of(parts@, c, domain.size as int);
            assert(is_numerator_quotient(c, gates@, *ldes, w, *domain, *big, factor as nat));
        } else if r->Err_0 is Unsatisfiable {
            let c = choose|c: Seq<F>| #[trigger] quotient(c) && !fits_degree(c);
            assert(is_numerator_quotient(c, gates@, *ldes, w, *domain, *big, factor as nat));
        }
    }
    r
}

} // verus!
