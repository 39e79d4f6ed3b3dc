//! An honest prover succeeds: if the witness meets the constraints of the circuit
//! and every transform is answered as it was asked for, then neither the round of
//! the quotient nor that of the openings refuses.

use crate::closing_rounds::{weights_of, LdesRequested, Opened};
use crate::completeness::{
    law_satisfied_circuit, law_satisfied_openings, law_satisfied_rows, rows, rows_satisfied,
};
use crate::contributions::{inputs_defined, known_contributions};
use crate::domain::{lemma_generates_order, Domain};
use crate::fft::{lemma_eval_point_congruent, takes};
use crate::field::{
    lemma_red_add, lemma_red_mul, lemma_red_range, lemma_red_small, lemma_val_red, red, vals,
    PrimeField,
};
use crate::gates::{terms_before, Gate};
use crate::laws::{
    congruent, law_lagrange_on_domain, ldes_of, lemma_numerator_congruent,
    lemma_perm_product_congruent, row_at, rows_congruent, value_at,
};
use crate::linearization::{lagranges_defined, opened, GateContributions, ProverPolynomials};
use crate::lookup::{gamma_beta, lookup_denominators, lookup_numerators};
use crate::lookup_rounds::{denominators_of, numerators_of, LookupProduct};
use crate::permutation::{
    column_shifts, copy_denominators, copy_numerators, coset_row, is_grand_product, perm_product,
    row_of,
};
use crate::polynomial::{aggregated, columns, combine, eval, padded_seq, power_terms, represents};
use crate::prover::{CopyProduct, CopyStart};
use crate::quotient::{
    copy_terms, divisible_on_coset, fits_degree, gate_terms, is_numerator_quotient, lookup_query,
    numerator, optional_lookup_terms, parts_of, supported, Ldes, LookupRow, LookupWeights, Row,
    Weights,
};
use crate::session::Job;
use crate::witness_laws::{
    gate_constraint, law_copy_constraints, law_copy_rows, law_gate_rows, law_lookup_rows,
    law_lookup_tables, paired, permuted_cells, placed_cells, zero_pairs,
};
use vstd::arithmetic::power::*;
use vstd::arithmetic::power2::*;
use vstd::prelude::*;

verus! {

/// The columns of the lookup argument. All but the looked up entries have an
/// entry for each element of the domain.
pub struct LookupTrace {
    /// What the rows look up: `f` of `LookupCombined`.
    pub f: Seq<int>,
    /// The combined tables: the column of `Tables`.
    pub t: Seq<int>,
    /// The sorted column: `s_ifft` of `LookupCombined`.
    pub s: Seq<int>,
    /// The grand product: the column `ifft` of `LookupProduct`.
    pub z: Seq<int>,
    /// The table that each row looks up in.
    pub table_type: Seq<int>,
    /// One in each row with a lookup, zero in the others.
    pub selector: Seq<int>,
}

/// The columns that a prover asks to be transformed.
pub struct Trace {
    /// The public inputs, one for each row from the first on.
    pub inputs: Seq<int>,
    /// The wires of all rows but the last of the domain, where they are zero.
    pub wires: Seq<Seq<int>>,
    /// The points that the permutation gives to the cells.
    pub permutations: Seq<Seq<int>>,
    /// The copy-permutation grand product: the column `ifft` of `CopyProduct`.
    pub z: Seq<int>,
    /// The lookup argument.
    pub lookup: Option<LookupTrace>,
}

impl LookupTrace {
    /// The columns fit a domain of `n` elements.
    pub open spec fn wf(&self, n: int) -> bool {
        &&& self.f.len() == n - 1
        &&& self.t.len() == n
        &&& self.s.len() == n
        &&& self.z.len() == n
        &&& self.table_type.len() == n
        &&& self.selector.len() == n
    }
}

impl Trace {
    /// The columns fit a domain of `n` elements.
    pub open spec fn wf(&self, n: int) -> bool {
        &&& self.inputs.len() <= n
        &&& self.wires.len() == 4
        &&& forall|j: int| 0 <= j < 4 ==> (#[trigger] self.wires[j]).len() == n - 1
        &&& self.permutations.len() == 4
        &&& forall|j: int| 0 <= j < 4 ==> (#[trigger] self.permutations[j]).len() == n
        &&& self.z.len() == n
        &&& self.lookup matches Some(l) ==> l.wf(n)
    }

    /// The columns of the wires on a domain of `n` elements.
    pub open spec fn wires_on_domain(&self, n: nat) -> Seq<Seq<int>> {
        Seq::new(self.wires.len(), |j: int| padded_seq(self.wires[j], n))
    }
}

/// Every transform was answered as it was asked for: the polynomials take the
/// entries of the columns on the domain.
pub open spec fn transformed<F: PrimeField>(
    t: Trace,
    p: ProverPolynomials<F>,
    inputs: Seq<F>,
    domain: Domain<F>,
) -> bool {
    let omega = domain.generator.val();
    let n = domain.size as nat;
    &&& takes(inputs, padded_seq(t.inputs, n), omega)
    &&& forall|j: int|
        0 <= j < 4 ==> takes((#[trigger] p.monomials.state@[j])@, t.wires_on_domain(n)[j], omega)
    &&& forall|j: int|
        0 <= j < 4 ==> takes((#[trigger] p.monomials.permutations@[j])@, t.permutations[j], omega)
    &&& takes(p.copy_z@, t.z, omega)
    &&& p.lookup is Some <==> t.lookup is Some
    &&& match (p.lookup, t.lookup) {
        (Some(l), Some(c)) => {
            &&& takes(l.z@, c.z, omega)
            &&& takes(l.s@, c.s, omega)
            &&& takes(l.t@, c.t, omega)
            &&& takes(l.table_type@, c.table_type, omega)
            &&& takes(l.selector@, c.selector, omega)
        },
        _ => true,
    }
}

/// The row after another; the first follows the last.
pub open spec fn row_after(i: int, n: int) -> int {
    if i + 1 < n {
        i + 1
    } else {
        0
    }
}

/// A row of the circuit: the columns, and the values of the setup polynomials.
pub open spec fn trace_row<F: PrimeField>(
    t: Trace,
    p: ProverPolynomials<F>,
    domain: Domain<F>,
    i: int,
) -> Row {
    let n = domain.size as nat;
    let x = pow(domain.generator.val(), i as nat);
    let next = row_after(i, n as int);
    let q = p.monomials.gate_setup@[0]@;
    let selectors = p.monomials.gate_selectors@;
    Row {
        x: red::<F>(x),
        constant: padded_seq(t.inputs, n)[i] + value_at(q[5], x),
        wires: row_of(t.wires_on_domain(n), i),
        d_next: t.wires_on_domain(n)[3][next],
        setup: opened(q, seq![0usize, 1, 2, 3, 4, 6], x),
        selectors: Seq::new(selectors.len(), |k: int| value_at(selectors[k], x)),
        z: t.z[i],
        z_next: t.z[next],
        permutations: row_of(t.permutations, i),
        l_0: if i == 0 {
            1
        } else {
            0
        },
        lookup: match t.lookup {
            Some(l) => Some(
                LookupRow {
                    z: l.z[i],
                    z_next: l.z[next],
                    s: l.s[i],
                    s_next: l.s[next],
                    t: l.t[i],
                    t_next: l.t[next],
                    table_type: l.table_type[i],
                    selector: l.selector[i],
                    l_last: if i + 1 == n {
                        1
                    } else {
                        0
                    },
                },
            ),
            None => None,
        },
    }
}

/// Every row meets what the gates ask.
pub open spec fn gates_met<F: PrimeField>(
    gates: Seq<Gate>,
    t: Trace,
    p: ProverPolynomials<F>,
    domain: Domain<F>,
) -> bool {
    forall|i: int, k: int|
        0 <= i < domain.size && 0 <= k < gates.len() ==> red::<F>(
            #[trigger] gate_constraint(gates, trace_row(t, p, domain, i), k),
        ) == 0
}

/// The permutation leaves the last row of the domain alone.
pub open spec fn last_row_kept<F: PrimeField>(
    t: Trace,
    shifts: Seq<int>,
    domain: Domain<F>,
) -> bool {
    let n = (domain.size - 1) as nat;
    forall|j: int|
        0 <= j < 4 ==> red::<F>((#[trigger] t.permutations[j])[n as int]) == red::<F>(
            pow(domain.generator.val(), n) * shifts[j],
        )
}

/// The permutation only moves points between cells with equal wires, and leaves
/// the last row of the domain alone.
pub open spec fn copies_met<F: PrimeField>(t: Trace, shifts: Seq<int>, domain: Domain<F>) -> bool {
    let omega = domain.generator.val();
    let n = (domain.size - 1) as nat;
    &&& placed_cells::<F>(t.wires, shifts, omega, n).to_multiset() == permuted_cells(
        t.wires,
        t.permutations,
        n,
    ).to_multiset()
    &&& last_row_kept(t, shifts, domain)
}

/// The rows look up what their wires hold, and the sorted column holds the
/// looked up entries among those of the tables: its neighbours, with as many
/// zeros as there are rows, are the looked up entries, each twice, and the
/// neighbours in the tables.
pub open spec fn lookups_met<F: PrimeField>(t: Trace, l: LookupTrace, eta: int) -> bool {
    let n = l.f.len() as int;
    &&& forall|i: int|
        0 <= i < n ==> red::<F>(
            lookup_query(row_of(t.wires, i), l.table_type[i], l.selector[i], eta),
        ) == red::<F>(#[trigger] l.f[i])
    &&& (paired(l.f, l.f) + paired(l.t.take(n), l.t.skip(1))).to_multiset() == (paired(
        l.s.take(n),
        l.s.skip(1),
    ) + zero_pairs(n as nat)).to_multiset()
}

/// The grand products are those of the columns.
pub open spec fn products_made<F: PrimeField>(t: Trace, w: Weights, domain: Domain<F>) -> bool {
    let n = (domain.size - 1) as nat;
    &&& is_grand_product::<F>(
        t.z,
        copy_numerators::<F>(t.wires, w.shifts, domain.generator.val(), n, w.beta, w.gamma),
        copy_denominators(t.wires, t.permutations, n, w.beta, w.gamma),
    )
    &&& match (t.lookup, w.lookup) {
        (Some(l), Some(v)) => is_grand_product::<F>(
            l.z,
            lookup_numerators(l.f, l.t.take(n as int), l.t.skip(1), v.beta, v.gamma),
            lookup_denominators(l.s.take(n as int), l.s.skip(1), v.beta, v.gamma),
        ),
        _ => true,
    }
}

/// The weights of the lookup argument are those of the domain.
pub open spec fn lookup_weights_wf<F: PrimeField>(v: LookupWeights, domain: Domain<F>) -> bool {
    let n = (domain.size - 1) as nat;
    &&& v.expected == pow(gamma_beta(v.beta, v.gamma), n)
    &&& v.last_omega == pow(domain.generator.val(), n)
}

/// The witness meets the constraints of the circuit.
pub open spec fn witness_met<F: PrimeField>(
    gates: Seq<Gate>,
    t: Trace,
    p: ProverPolynomials<F>,
    w: Weights,
    domain: Domain<F>,
) -> bool {
    &&& gates_met(gates, t, p, domain)
    &&& copies_met(t, w.shifts, domain)
    &&& match (t.lookup, w.lookup) {
        (Some(l), Some(v)) => lookups_met::<F>(t, l, v.eta),
        _ => true,
    }
}

/// The value one step on from a row.
proof fn lemma_next_row<F: PrimeField>(c: Seq<F>, column: Seq<int>, domain: Domain<F>, i: int)
    requires
        domain.wf(),
        takes(c, column, domain.generator.val()),
        column.len() == domain.size,
        0 <= i < domain.size,
    ensures
        red::<F>(
            eval(
                vals(c),
                red::<F>(pow(domain.generator.val(), i as nat) * domain.generator.val()),
            ),
        ) == red::<F>(column[row_after(i, domain.size as int)]),
{
    let omega = domain.generator.val();
    let next = row_after(i, domain.size as int);
    let x = pow(omega, i as nat) * omega;
    lemma_pow_adds(omega, i as nat, 1);
    lemma_pow1(omega);
    lemma_red_range::<F>(x);
    lemma_red_small::<F>();
    lemma_generates_order::<F>(omega, domain.power_of_two as nat);
    lemma_pow0(omega);
    assert(red::<F>(x) == red::<F>(pow(omega, next as nat)));
    lemma_eval_point_congruent::<F>(vals(c), red::<F>(x), pow(omega, next as nat));
}

/// The value of a polynomial on a row is the entry of its column.
proof fn lemma_this_row<F: PrimeField>(c: Vec<F>, column: Seq<int>, domain: Domain<F>, i: int)
    requires
        takes(c@, column, domain.generator.val()),
        column.len() == domain.size,
        0 <= i < domain.size,
    ensures
        red::<F>(value_at(c, pow(domain.generator.val(), i as nat))) == red::<F>(column[i]),
{
    let x = pow(domain.generator.val(), i as nat);
    lemma_red_range::<F>(eval(vals(c@), x));
}

/// On each row, the polynomials take the values of the columns.
pub proof fn law_trace_rows<F: PrimeField>(
    gates: Seq<Gate>,
    t: Trace,
    p: ProverPolynomials<F>,
    inputs: Seq<F>,
    domain: Domain<F>,
    i: int,
)
    requires
        domain.wf(),
        t.wf(domain.size as int),
        p.arguments_wf(gates, domain.size as int),
        transformed(t, p, inputs, domain),
        0 <= i < domain.size,
    ensures
        rows_congruent::<F>(
            rows(p, domain, vals(inputs))(pow(domain.generator.val(), i as nat)),
            trace_row(t, p, domain, i),
        ),
{
    let omega = domain.generator.val();
    let n = domain.size as nat;
    let k = domain.power_of_two as nat;
    let x = pow(omega, i as nat);
    let m = p.monomials;
    let q = m.gate_setup@[0]@;
    let a = row_at(p, domain, eval(vals(inputs), x), x);
    let b = trace_row(t, p, domain, i);
    let on_domain = t.wires_on_domain(n);
    // the constants
    let e = eval(vals(q[5]@), x);
    lemma_red_range::<F>(e);
    lemma_red_add::<F>(eval(vals(inputs), x), e, padded_seq(t.inputs, n)[i], red::<F>(e));
    lemma_red_range::<F>(eval(vals(inputs), x) + e);
    // the wires and the permutations
    assert forall|j: int| 0 <= j < 4 implies red::<F>(#[trigger] a.wires[j]) == red::<F>(
        b.wires[j],
    ) by {
        assert(takes(m.state@[j]@, on_domain[j], omega));
        lemma_this_row(m.state@[j], on_domain[j], domain, i);
    }
    assert forall|j: int| 0 <= j < 4 implies red::<F>(#[trigger] a.permutations[j]) == red::<F>(
        b.permutations[j],
    ) by {
        assert(takes(m.permutations@[j]@, t.permutations[j], omega));
        lemma_this_row(m.permutations@[j], t.permutations[j], domain, i);
    }
    assert(takes(m.state@[3]@, on_domain[3], omega));
    lemma_next_row(m.state@[3]@, on_domain[3], domain, i);
    let next = red::<F>(x * omega);
    lemma_red_range::<F>(eval(vals(m.state@[3]@), next));
    // the grand product
    lemma_this_row(p.copy_z, t.z, domain, i);
    lemma_next_row(p.copy_z@, t.z, domain, i);
    lemma_red_range::<F>(eval(vals(p.copy_z@), next));
    law_lagrange_on_domain::<F>(omega, k, 0, i as nat);
    law_lagrange_on_domain::<F>(omega, k, (n - 1) as nat, i as nat);
    lemma_red_small::<F>();
    match (p.lookup, t.lookup) {
        (Some(l), Some(c)) => {
            lemma_this_row(l.z, c.z, domain, i);
            lemma_next_row(l.z@, c.z, domain, i);
            lemma_red_range::<F>(eval(vals(l.z@), next));
            lemma_this_row(l.s, c.s, domain, i);
            lemma_next_row(l.s@, c.s, domain, i);
            lemma_red_range::<F>(eval(vals(l.s@), next));
            lemma_this_row(l.t, c.t, domain, i);
            lemma_next_row(l.t@, c.t, domain, i);
            lemma_red_range::<F>(eval(vals(l.t@), next));
            lemma_this_row(l.table_type, c.table_type, domain, i);
            lemma_this_row(l.selector, c.selector, domain, i);
        },
        _ => {},
    }
    assert(a.setup =~= b.setup);
    assert(a.selectors =~= b.selectors);
    assert(congruent::<F>(a.wires, b.wires));
    assert(congruent::<F>(a.permutations, b.permutations));
}

/// On the last row of the domain, the cells contribute the same with the points of
/// their own places and with those that the permutation gives them.
pub proof fn lemma_last_row_kept<F: PrimeField>(
    t: Trace,
    p: ProverPolynomials<F>,
    w: Weights,
    domain: Domain<F>,
)
    requires
        domain.wf(),
        t.wf(domain.size as int),
        w.shifts.len() == 4,
        last_row_kept(t, w.shifts, domain),
    ensures
        ({
            let row = trace_row(t, p, domain, domain.size - 1);
            red::<F>(
                perm_product(row.wires, coset_row::<F>(row.x, w.shifts), w.beta, w.gamma),
            ) == red::<F>(perm_product(row.wires, row.permutations, w.beta, w.gamma))
        }),
{
    let n = (domain.size - 1) as nat;
    let row = trace_row(t, p, domain, n as int);
    let points = coset_row::<F>(row.x, w.shifts);
    assert forall|j: int| 0 <= j < 4 implies red::<F>(#[trigger] points[j]) == red::<F>(
        row.permutations[j],
    ) by {
        let x = pow(domain.generator.val(), n);
        lemma_red_range::<F>(x);
        lemma_red_mul::<F>(red::<F>(x), w.shifts[j], x, w.shifts[j]);
        lemma_red_range::<F>(red::<F>(x) * w.shifts[j]);
        assert(red::<F>(t.permutations[j][n as int]) == red::<F>(x * w.shifts[j]));
    }
    assert(congruent::<F>(points, row.permutations));
    assert(congruent::<F>(row.wires, row.wires));
    lemma_perm_product_congruent::<F>(
        row.wires,
        points,
        row.wires,
        row.permutations,
        w.beta,
        w.gamma,
    );
}

/// The terms of the copy-permutation argument vanish on every row.
proof fn lemma_copy_row<F: PrimeField>(
    t: Trace,
    p: ProverPolynomials<F>,
    w: Weights,
    domain: Domain<F>,
    i: int,
    a0: int,
    a1: int,
)
    requires
        domain.wf(),
        t.wf(domain.size as int),
        w.shifts.len() == 4,
        copies_met(t, w.shifts, domain),
        products_made(t, w, domain),
        0 <= i < domain.size,
    ensures
        red::<F>(copy_terms::<F>(trace_row(t, p, domain, i), w, a0, a1)) == 0,
{
    let omega = domain.generator.val();
    let size = domain.size as nat;
    let n = (size - 1) as nat;
    let row = trace_row(t, p, domain, i);
    let nums = copy_numerators::<F>(t.wires, w.shifts, omega, n, w.beta, w.gamma);
    let dens = copy_denominators(t.wires, t.permutations, n, w.beta, w.gamma);
    law_copy_constraints::<F>(
        t.z,
        t.wires,
        t.permutations,
        w.shifts,
        omega,
        n,
        w.beta,
        w.gamma,
    );
    lemma_red_small::<F>();
    if i < n {
        assert(row.wires =~= row_of(t.wires, i));
        assert(nums[i] == perm_product(
            row_of(t.wires, i),
            coset_row::<F>(red::<F>(pow(omega, i as nat)), w.shifts),
            w.beta,
            w.gamma,
        ));
        assert(dens[i] == perm_product(
            row_of(t.wires, i),
            row_of(t.permutations, i),
            w.beta,
            w.gamma,
        ));
    } else {
        lemma_last_row_kept(t, p, w, domain);
    }
    law_copy_rows::<F>(t.z, nums, dens, row, w, i, a0, a1);
}

/// The terms of the lookup argument vanish on every row.
proof fn lemma_lookup_row<F: PrimeField>(
    t: Trace,
    l: LookupTrace,
    p: ProverPolynomials<F>,
    w: Weights,
    v: LookupWeights,
    domain: Domain<F>,
    i: int,
    total: nat,
)
    requires
        domain.wf(),
        t.wf(domain.size as int),
        t.lookup == Some(l),
        w.lookup == Some(v),
        lookup_weights_wf(v, domain),
        lookups_met::<F>(t, l, v.eta),
        products_made(t, w, domain),
        0 <= i < domain.size,
    ensures
        red::<F>(optional_lookup_terms(trace_row(t, p, domain, i), w, total)) == 0,
{
    let omega = domain.generator.val();
    let n = domain.size - 1;
    let row = trace_row(t, p, domain, i);
    let (t0, t1, s0, s1) = (l.t.take(n), l.t.skip(1), l.s.take(n), l.s.skip(1));
    law_lookup_tables::<F>(l.z, l.f, t0, t1, s0, s1, v.beta, v.gamma);
    lemma_red_small::<F>();
    lemma_red_range::<F>(pow(omega, i as nat));
    if i < n {
        assert(row.wires =~= row_of(t.wires, i));
        assert(red::<F>(lookup_query(row_of(t.wires, i), l.table_type[i], l.selector[i], v.eta))
            == red::<F>(l.f[i]));
    }
    law_lookup_rows::<F>(
        l.z,
        l.f,
        t0,
        t1,
        s0,
        s1,
        row,
        row.lookup->0,
        v,
        i,
        pow(w.alpha, total + 2),
        pow(w.alpha, total + 3),
        pow(w.alpha, total + 4),
    );
}

/// If the witness meets the constraints of the circuit, and every transform was
/// answered as it was asked for, then the numerator vanishes on every row.
pub proof fn law_honest_rows<F: PrimeField>(
    gates: Seq<Gate>,
    t: Trace,
    p: ProverPolynomials<F>,
    inputs: Seq<F>,
    w: Weights,
    domain: Domain<F>,
)
    requires
        supported(gates),
        domain.wf(),
        t.wf(domain.size as int),
        p.arguments_wf(gates, domain.size as int),
        w.shifts.len() == 4,
        w.lookup matches Some(v) ==> lookup_weights_wf(v, domain),
        transformed(t, p, inputs, domain),
        products_made(t, w, domain),
        witness_met(gates, t, p, w, domain),
    ensures
        rows_satisfied(gates, p, domain, vals(inputs), w),
{
    let omega = domain.generator.val();
    let total = terms_before(gates, gates.len());
    let (a0, a1) = (pow(w.alpha, total), pow(w.alpha, total + 1));
    lemma_red_small::<F>();
    assert forall|i: int| 0 <= i < domain.size implies red::<F>(
        numerator::<F>(
            gates,
            rows(p, domain, vals(inputs))(#[trigger] pow(omega, i as nat)),
            w,
        ),
    ) == 0 by {
        let a = rows(p, domain, vals(inputs))(pow(omega, i as nat));
        let b = trace_row(t, p, domain, i);
        law_trace_rows(gates, t, p, inputs, domain, i);
        lemma_numerator_congruent::<F>(gates, a, b, w);
        law_gate_rows::<F>(gates, b, w.alpha, gates.len());
        lemma_copy_row(t, p, w, domain, i, a0, a1);
        match (t.lookup, w.lookup) {
            (Some(l), Some(v)) => {
                lemma_lookup_row(t, l, p, w, v, domain, i, total);
            },
            _ => {},
        }
        let g = gate_terms(gates, b, w.alpha, gates.len());
        let c = copy_terms::<F>(b, w, a0, a1);
        lemma_red_add::<F>(g, c, 0, 0);
        lemma_red_add::<F>(g + c, optional_lookup_terms(b, w, total), 0, 0);
    }
}

/// The rows look up what their wires hold, if the columns that are combined hold
/// the wires and the table types in the rows with a lookup and zeros in the
/// others.
pub proof fn law_masked_queries<F: PrimeField>(
    masked: Seq<Seq<int>>,
    types: Seq<int>,
    wires: Seq<Seq<int>>,
    selector: Seq<int>,
    eta: int,
    n: nat,
    i: int,
)
    requires
        masked.len() == 3,
        wires.len() == 4,
        0 <= i < n,
        forall|j: int|
            0 <= j < 3 ==> red::<F>((#[trigger] masked[j])[i]) == red::<F>(
                wires[j][i] * selector[i],
            ),
        red::<F>(types[i]) == red::<F>(types[i] * selector[i]),
    ensures
        red::<F>(aggregated::<F>(masked.push(types), eta, n)[i]) == red::<F>(
            lookup_query(row_of(wires, i), types[i], selector[i], eta),
        ),
{
    let cols = masked.push(types);
    let terms = power_terms(cols, eta, 0);
    let s = selector[i];
    let (a, b, c, d) = (wires[0][i], wires[1][i], wires[2][i], types[i]);
    let (p0, p1, p2, p3) = (pow(eta, 0), pow(eta, 1), pow(eta, 2), pow(eta, 3));
    lemma_pow0(eta);
    lemma_pow1(eta);
    lemma_pow_adds(eta, 1, 1);
    lemma_pow_adds(eta, 2, 1);
    assert(terms.drop_last().drop_last().drop_last().drop_last() =~= Seq::empty());
    reveal_with_fuel(combine, 5);
    assert(terms[0] == (p0, cols[0]) && terms[1] == (p1, cols[1]) && terms[2] == (p2, cols[2])
        && terms[3] == (p3, cols[3]));
    assert(combine(terms, i) == 0 + p0 * masked[0][i] + p1 * masked[1][i] + p2 * masked[2][i] + p3
        * types[i]);
    lemma_red_range::<F>(combine(terms, i));
    assert(red::<F>(masked[0][i]) == red::<F>(a * s));
    assert(red::<F>(masked[1][i]) == red::<F>(b * s));
    assert(red::<F>(masked[2][i]) == red::<F>(c * s));
    let (u0, u1, u2, u3) = (
        p0 * masked[0][i],
        p1 * masked[1][i],
        p2 * masked[2][i],
        p3 * types[i],
    );
    let (v0, v1, v2, v3) = (p0 * (a * s), p1 * (b * s), p2 * (c * s), p3 * (d * s));
    lemma_red_mul::<F>(p0, masked[0][i], p0, a * s);
    lemma_red_mul::<F>(p1, masked[1][i], p1, b * s);
    lemma_red_mul::<F>(p2, masked[2][i], p2, c * s);
    lemma_red_mul::<F>(p3, types[i], p3, d * s);
    lemma_red_add::<F>(u0, u1, v0, v1);
    lemma_red_add::<F>(u0 + u1, u2, v0 + v1, v2);
    lemma_red_add::<F>(u0 + u1 + u2, u3, v0 + v1 + v2, v3);
    let row = row_of(wires, i);
    assert(row[0] == a && row[1] == b && row[2] == c);
    assert(lookup_query(row, d, s, eta) == v0 + v1 + v2 + v3) by {
        let (e2, e3) = (eta * eta, eta * eta * eta);
        let (x, y, w) = (eta * b, e2 * c, e3 * d);
        assert((a + x + y + w) * s == a * s + x * s + y * s + w * s) by (nonlinear_arith);
        assert((eta * b) * s == eta * (b * s)) by (nonlinear_arith);
        assert((e2 * c) * s == e2 * (c * s)) by (nonlinear_arith);
        assert((e3 * d) * s == e3 * (d * s)) by (nonlinear_arith);
    }
}

/// The columns are those of the circuit.
pub open spec fn traces<F: PrimeField>(t: Trace, job: Job<F>) -> bool {
    &&& t.wf(job.domain.size as int)
    &&& t.inputs == vals(job.inputs@)
    &&& t.wires == columns(job.state_values@)
}

/// The grand product that the rounds of the copy-permutation argument make is that
/// of the columns of the circuit and of the values of its permutations.
pub proof fn law_copy_product_made<F: PrimeField, G: Copy>(
    start: CopyStart<F, G>,
    next: CopyProduct<F, G>,
    beta: F,
    gamma: F,
    t: Trace,
    w: Weights,
)
    requires
        start.wf(),
        is_grand_product::<F>(
            vals(next.ifft@),
            start.numerators(beta, gamma),
            start.denominators(beta, gamma),
        ),
        traces(t, start.session.job),
        t.permutations == columns(start.permutation_values@),
        t.z == vals(next.ifft@),
        t.lookup is None,
        w.beta == beta.val(),
        w.gamma == gamma.val(),
        w.shifts == column_shifts(start.session.job.non_residues@),
    ensures
        products_made(t, w, start.session.job.domain),
{
}

/// The grand product that the rounds of the lookup argument make is that of the
/// looked up entries, the tables and the sorted column.
pub proof fn law_lookup_product_made<F: PrimeField, G: Copy>(
    next: LookupProduct<F, G>,
    beta: F,
    gamma: F,
    tables: Seq<F>,
    sorted: Seq<F>,
    t: Trace,
    l: LookupTrace,
    w: Weights,
    v: LookupWeights,
)
    requires
        next.wf(),
        is_grand_product::<F>(
            vals(next.ifft@),
            numerators_of(next.lookup, beta, gamma),
            denominators_of(next.lookup, beta, gamma),
        ),
        tables.len() == next.session.job.domain.size,
        next.lookup.values.t@ == tables.subrange(0, next.session.job.n as int),
        next.lookup.values.t_shifted@ == tables.subrange(1, next.session.job.n + 1),
        sorted.len() == next.session.job.domain.size,
        next.lookup.values.s@ == sorted.subrange(0, next.session.job.n as int),
        next.lookup.values.s_shifted@ == sorted.subrange(1, next.session.job.n + 1),
        l.f == vals(next.lookup.values.f@),
        l.t == vals(tables),
        l.s == vals(sorted),
        l.z == vals(next.ifft@),
        t.lookup == Some(l),
        w.lookup == Some(v),
        v.beta == beta.val(),
        v.gamma == gamma.val(),
        products_made(Trace { lookup: None, ..t }, w, next.session.job.domain),
    ensures
        products_made(t, w, next.session.job.domain),
{
    let n = next.session.job.n as int;
    let a = next.lookup.values;
    assert(vals(a.t@) =~= l.t.take(n));
    assert(vals(a.t_shifted@) =~= l.t.skip(1));
    assert(vals(a.s@) =~= l.s.take(n));
    assert(vals(a.s_shifted@) =~= l.s.skip(1));
}

/// If the witness meets the constraints of the circuit, and every transform was
/// answered as it was asked for, then the round of the quotient does not refuse
/// the circuit: the quotient has the right degree. The domain has at least two
/// elements, and the polynomial that vanishes on it has no zero on the coset.
pub proof fn law_honest_quotient<F: PrimeField, G: Copy>(
    round: LdesRequested<F, G>,
    t: Trace,
    inputs: Seq<F>,
    ldes: Ldes<F>,
)
    requires
        round.wf(),
        round.session.job.domain.size >= 2,
        traces(t, round.session.job),
        transformed(t, round.polynomials, inputs, round.session.job.domain),
        products_made(
            t,
            weights_of(round.session, round.challenges),
            round.session.job.domain,
        ),
        witness_met(
            round.session.job.gates@,
            t,
            round.polynomials,
            weights_of(round.session, round.challenges),
            round.session.job.domain,
        ),
        ldes.wf(round.session.job.gates@, round.session.job.big.size as int),
        ldes_of(
            ldes,
            round.polynomials,
            vals(inputs),
            round.session.job.domain,
            round.session.job.big,
        ),
        divisible_on_coset(round.session.job.domain, round.session.job.big),
    ensures
        !round.refuses(ldes),
        forall|c: Seq<F>| #[trigger] round.is_quotient(c, ldes) ==> fits_degree(c),
{
    let job = round.session.job;
    let w = weights_of(round.session, round.challenges);
    law_honest_rows(job.gates@, t, round.polynomials, inputs, w, job.domain);
    assert forall|c: Seq<F>| #[trigger] round.is_quotient(c, ldes) implies fits_degree(c) by {
        law_satisfied_circuit(round, ldes, vals(inputs), c);
    }
}

/// If the witness meets the constraints of the circuit, and every transform was
/// answered as it was asked for, then the round of the openings does not refuse
/// them, wherever the opening point lies: the equation of the quotient holds. The
/// parts of the quotient are those of a polynomial that was computed from values
/// on the coset, and the main gate's selector is the first that is opened.
pub proof fn law_honest_openings<F: PrimeField, G: Copy>(
    round: Opened<F, G>,
    t: Trace,
    inputs: Seq<F>,
    ldes: Ldes<F>,
    quotient: Seq<F>,
    contributions: GateContributions<F>,
)
    requires
        round.wf(),
        round.session.job.domain.size >= 2,
        traces(t, round.session.job),
        transformed(t, round.polynomials, inputs, round.session.job.domain),
        products_made(
            t,
            weights_of(round.session, round.challenges),
            round.session.job.domain,
        ),
        witness_met(
            round.session.job.gates@,
            t,
            round.polynomials,
            weights_of(round.session, round.challenges),
            round.session.job.domain,
        ),
        ldes.wf(round.session.job.gates@, round.session.job.big.size as int),
        ldes_of(
            ldes,
            round.polynomials,
            vals(inputs),
            round.session.job.domain,
            round.session.job.big,
        ),
        divisible_on_coset(round.session.job.domain, round.session.job.big),
        is_numerator_quotient(
            quotient,
            round.session.job.gates@,
            ldes,
            weights_of(round.session, round.challenges),
            round.session.job.domain,
            round.session.job.big,
            4,
        ),
        parts_of(
            round.polynomials.quotient_parts@,
            quotient,
            round.session.job.domain.size as int,
        ),
        known_contributions(
            contributions,
            round.session.job.gates@,
            round.polynomials,
            round.session.job.inputs@,
            round.challenges.alpha.val(),
            round.session.job.domain,
            round.z.val(),
        ),
        round.session.job.gates@.len() > 1 ==> round.session.job.queries.gate_selectors@[0] == 0,
        lagranges_defined(
            round.session.job.domain,
            round.z.val(),
            round.polynomials.lookup is Some,
        ),
        inputs_defined::<F>(
            round.session.job.inputs@.len(),
            round.session.job.domain.generator.val(),
            round.session.job.domain.size as nat,
            round.z.val(),
        ),
    ensures
        !round.refuses(contributions),
{
    let job = round.session.job;
    let p = round.polynomials;
    let w = weights_of(round.session, round.challenges);
    let size = job.domain.size as int;
    let z = round.z.val();
    law_honest_rows(job.gates@, t, p, inputs, w, job.domain);
    law_satisfied_rows(job.gates@, ldes, p, vals(inputs), w, job.domain, job.big, quotient);
    lemma_red_small::<F>();
    assert forall|j: int| 0 <= j < inputs.len() implies red::<F>(
        eval(vals(inputs), #[trigger] pow(job.domain.generator.val(), j as nat)),
    ) == if j < job.inputs@.len() {
        job.inputs@[j].val()
    } else {
        0
    } by {
        if j < job.inputs@.len() {
            lemma_val_red(job.inputs@[j]);
        }
    }
    assert forall|l: Seq<F>, value: F|
        #[trigger] represents(l, round.terms(contributions), size) && value.val() == red::<F>(
            eval(vals(l), z),
        ) implies #[trigger] round.satisfied(contributions, value) by {
        law_satisfied_openings(round, contributions, l, value, inputs, quotient);
    }
}

} // verus!
