//! Openings, the linearization polynomial, and the equation that the openings
//! have to meet.

use crate::circuit::{all_below, selectors_used, widths, Monomials, SortedGateQueries};
use crate::domain::{
    evaluate_l0_at_point, evaluate_lagrange_poly_at_point, evaluate_vanishing_for_size,
    lagrange_at, lagrange_defined, Domain,
};
use crate::errors::SynthesisError;
use crate::field::{red, vals, Num, PrimeField};
use crate::gates::{terms_before, Gate};
use crate::lookup::{gamma_beta, lookup_denominator};
use crate::permutation::{coset_points, coset_row, perm_product, permutation_factor, shifts};
use crate::polynomial::{
    add_assign_scaled, all_len, columns, combine_eval, eval, evaluate_at, lemma_represents_zeros,
    power_terms, represents, zeros,
};
use crate::quotient::{lookup_query, Challenges, LookupWeights, Weights};
use vstd::arithmetic::power::*;
use vstd::arithmetic::power2::*;
use vstd::prelude::*;

verus! {

/// The polynomials of the lookup argument, as coefficients.
#[derive(Debug)]
pub struct LookupPolynomials<F: PrimeField> {
    /// The tables.
    pub t: Vec<F>,
    /// The sorted column.
    pub s: Vec<F>,
    /// The lookup selector.
    pub selector: Vec<F>,
    /// The table type.
    pub table_type: Vec<F>,
    /// The grand product.
    pub z: Vec<F>,
}

/// All polynomials that are opened, as coefficients.
#[derive(Debug)]
pub struct ProverPolynomials<F: PrimeField> {
    /// The polynomials of the circuit.
    pub monomials: Monomials<F>,
    /// The copy-permutation grand product.
    pub copy_z: Vec<F>,
    /// The lookup argument.
    pub lookup: Option<LookupPolynomials<F>>,
    /// The parts of the quotient.
    pub quotient_parts: Vec<Vec<F>>,
}

impl<F: PrimeField> LookupPolynomials<F> {
    /// Every polynomial has `n` coefficients.
    pub open spec fn wf(&self, n: int) -> bool {
        &&& self.t@.len() == n
        &&& self.s@.len() == n
        &&& self.selector@.len() == n
        &&& self.table_type@.len() == n
        &&& self.z@.len() == n
    }
}

impl<F: PrimeField> ProverPolynomials<F> {
    /// Every polynomial but the parts of the quotient has `n` coefficients.
    pub open spec fn arguments_wf(&self, gates: Seq<Gate>, n: int) -> bool {
        &&& self.monomials.wf(gates, n)
        &&& self.copy_z@.len() == n
        &&& self.lookup matches Some(l) ==> l.wf(n)
    }

    /// Every polynomial has `n` coefficients.
    pub open spec fn wf(&self, gates: Seq<Gate>, n: int) -> bool {
        &&& self.arguments_wf(gates, n)
        &&& self.quotient_parts@.len() == 4
        &&& all_len(self.quotient_parts@, n)
    }

    /// The queries name polynomials that are there.
    pub open spec fn answers(&self, gates: Seq<Gate>, queries: SortedGateQueries) -> bool {
        queries.wf(
            gates,
            self.monomials.witness@.len(),
            widths(self.monomials.gate_setup@),
            self.monomials.gate_selectors@.len(),
        )
    }
}

/// The openings of the polynomials of the lookup argument.
#[derive(Debug)]
pub struct LookupQuery<F: PrimeField> {
    /// The sorted column at `z * omega`.
    pub s_at_z_omega: F,
    /// The grand product at `z * omega`.
    pub grand_product_at_z_omega: F,
    /// The tables at `z`.
    pub t_at_z: F,
    /// The tables at `z * omega`.
    pub t_at_z_omega: F,
    /// The lookup selector at `z`.
    pub selector_at_z: F,
    /// The table type at `z`.
    pub table_type_at_z: F,
}

/// The openings of all polynomials but the linearization polynomial.
#[derive(Debug)]
pub struct Openings<F: PrimeField> {
    /// The quotient at `z`.
    pub quotient_at_z: F,
    /// The queried state polynomials at `z`.
    pub state_at_z: Vec<F>,
    /// The queried state polynomials at `z * omega`.
    pub state_at_z_omega: Vec<F>,
    /// The queried witness polynomials at `z`.
    pub witness_at_z: Vec<F>,
    /// The queried witness polynomials at `z * omega`.
    pub witness_at_z_omega: Vec<F>,
    /// The queried setup polynomials at `z`, each with its gate and its index.
    pub gate_setup_at_z: Vec<(usize, usize, F)>,
    /// The queried selectors at `z`.
    pub selectors_at_z: Vec<F>,
    /// All permutation polynomials but the last at `z`.
    pub permutations_at_z: Vec<F>,
    /// The copy-permutation grand product at `z * omega`.
    pub copy_z_at_z_omega: F,
    /// The lookup argument.
    pub lookup: Option<LookupQuery<F>>,
}

/// The values at `at` of the polynomials with the given indices.
pub open spec fn opened<F: PrimeField>(
    polys: Seq<Vec<F>>,
    ids: Seq<usize>,
    at: int,
) -> Seq<int> {
    Seq::new(ids.len(), |i: int| red::<F>(eval(vals(polys[ids[i] as int]@), at)))
}

/// The queried setup polynomials of the first `k` gates, gate by gate.
pub open spec fn flat_ids(ids: Seq<Vec<usize>>, k: nat) -> Seq<(int, int)>
    decreases k,
{
    if k == 0 {
        Seq::empty()
    } else {
        flat_ids(ids, (k - 1) as nat) + Seq::new(
            ids[k - 1]@.len(),
            |i: int| (k - 1, ids[k - 1]@[i] as int),
        )
    }
}

/// The quotient at `z`, put together from its parts.
pub open spec fn quotient_value(parts: Seq<Seq<int>>, z: int, n: nat) -> int {
    combine_eval(power_terms(parts, pow(z, n), 0), z)
}

impl<F: PrimeField> Openings<F> {
    /// Each opening is the value of its polynomial.
    pub open spec fn opens(
        &self,
        p: ProverPolynomials<F>,
        q: SortedGateQueries,
        z: int,
        omega: int,
        n: nat,
    ) -> bool {
        let z_omega = red::<F>(z * omega);
        let m = p.monomials;
        let ids = flat_ids(q.gate_setup_polys@, q.gate_setup_polys@.len());
        &&& self.quotient_at_z.val() == red::<F>(quotient_value(columns(p.quotient_parts@), z, n))
        &&& vals(self.state_at_z@) == opened(m.state@, q.state_polys.at_z@, z)
        &&& vals(self.state_at_z_omega@) == opened(m.state@, q.state_polys.at_z_omega@, z_omega)
        &&& vals(self.witness_at_z@) == opened(m.witness@, q.witness_polys.at_z@, z)
        &&& vals(self.witness_at_z_omega@) == opened(
            m.witness@,
            q.witness_polys.at_z_omega@,
            z_omega,
        )
        &&& self.gate_setup_at_z@.len() == ids.len()
        &&& forall|i: int|
            0 <= i < ids.len() ==> {
                &&& (#[trigger] self.gate_setup_at_z@[i]).0 == ids[i].0
                &&& self.gate_setup_at_z@[i].1 == ids[i].1
                &&& self.gate_setup_at_z@[i].2.val() == red::<F>(
                    eval(vals(m.gate_setup@[ids[i].0]@[ids[i].1]@), z),
                )
            }
        &&& vals(self.selectors_at_z@) == opened(m.gate_selectors@, q.gate_selectors@, z)
        &&& vals(self.permutations_at_z@) == opened(m.permutations@, seq![0usize, 1, 2], z)
        &&& self.copy_z_at_z_omega.val() == red::<F>(eval(vals(p.copy_z@), z_omega))
        &&& self.lookup is Some <==> p.lookup is Some
        &&& match (self.lookup, p.lookup) {
            (Some(o), Some(l)) => {
                &&& o.s_at_z_omega.val() == red::<F>(eval(vals(l.s@), z_omega))
                &&& o.grand_product_at_z_omega.val() == red::<F>(eval(vals(l.z@), z_omega))
                &&& o.t_at_z.val() == red::<F>(eval(vals(l.t@), z))
                &&& o.t_at_z_omega.val() == red::<F>(eval(vals(l.t@), z_omega))
                &&& o.selector_at_z.val() == red::<F>(eval(vals(l.selector@), z))
                &&& o.table_type_at_z.val() == red::<F>(eval(vals(l.table_type@), z))
            },
            _ => true,
        }
    }
}

fn open_list<F: PrimeField>(polys: &Vec<Vec<F>>, ids: &Vec<usize>, at: &F) -> (r: Vec<F>)
    requires
        all_below(ids@, polys@.len()),
    ensures
        vals(r@) == opened(polys@, ids@, at.val()),
{
    let mut r: Vec<F> = Vec::with_capacity(ids.len());
    let mut i: usize = 0;
    while i < ids.len()
        invariant
            i <= ids@.len(),
            r@.len() == i,
            all_below(ids@, polys@.len()),
            forall|j: int|
                0 <= j < i ==> (#[trigger] r@[j]).val() == opened(polys@, ids@, at.val())[j],
        decreases ids@.len() - i,
    {
        assert(ids@[i as int] < polys@.len());
        r.push(evaluate_at(&polys[ids[i]], at));
        i += 1;
    }
    proof {
        assert(vals(r@) =~= opened(polys@, ids@, at.val()));
    }
    r
}

fn open_gate_setup<F: PrimeField>(
    setup: &Vec<Vec<Vec<F>>>,
    ids: &Vec<Vec<usize>>,
    at: &F,
) -> (r: Vec<(usize, usize, F)>)
    requires
        ids@.len() <= setup@.len(),
        forall|g: int|
            0 <= g < ids@.len() ==> all_below((#[trigger] ids@[g])@, widths(setup@)[g]),
    ensures
        r@.len() == flat_ids(ids@, ids@.len()).len(),
        forall|i: int|
            0 <= i < r@.len() ==> {
                let id = flat_ids(ids@, ids@.len())[i];
                &&& (#[trigger] r@[i]).0 == id.0
                &&& r@[i].1 == id.1
                &&& r@[i].2.val() == red::<F>(eval(vals(setup@[id.0]@[id.1]@), at.val()))
            },
{
    let mut r: Vec<(usize, usize, F)> = Vec::new();
    let mut g: usize = 0;
    while g < ids.len()
        invariant
            g <= ids@.len() <= setup@.len(),
            forall|j: int|
                0 <= j < ids@.len() ==> all_below((#[trigger] ids@[j])@, widths(setup@)[j]),
            r@.len() == flat_ids(ids@, g as nat).len(),
            forall|i: int|
                0 <= i < r@.len() ==> {
                    let id = flat_ids(ids@, g as nat)[i];
                    &&& (#[trigger] r@[i]).0 == id.0
                    &&& r@[i].1 == id.1
                    &&& r@[i].2.val() == red::<F>(eval(vals(setup@[id.0]@[id.1]@), at.val()))
                },
        decreases ids@.len() - g,
    {
        let ghost before = flat_ids(ids@, g as nat);
        let ghost after = flat_ids(ids@, (g + 1) as nat);
        let list = &ids[g];
        let mut j: usize = 0;
        while j < list.len()
            invariant
                g < ids@.len() <= setup@.len(),
                list == ids@[g as int],
                j <= list@.len(),
                all_below(list@, widths(setup@)[g as int]),
                after == before + Seq::new(
                    list@.len(),
                    |i: int| (g as int, list@[i] as int),
                ),
                r@.len() == before.len() + j,
                forall|i: int|
                    0 <= i < r@.len() ==> {
                        let id = after[i];
                        &&& (#[trigger] r@[i]).0 == id.0
                        &&& r@[i].1 == id.1
                        &&& r@[i].2.val() == red::<F>(eval(vals(setup@[id.0]@[id.1]@), at.val()))
                    },
            decreases list@.len() - j,
        {
            assert(list@[j as int] < widths(setup@)[g as int]);
            let value = evaluate_at(&setup[g][list[j]], at);
            r.push((g, list[j], value));
            j += 1;
        }
        g += 1;
    }
    r
}

/// Opens all polynomials that the queries ask for.
pub fn open_polynomials<F: PrimeField>(
    p: &ProverPolynomials<F>,
    queries: &SortedGateQueries,
    gates: &Vec<Gate>,
    domain: &Domain<F>,
    z: &F,
) -> (r: Openings<F>)
    requires
        p.wf(gates@, domain.size as int),
        p.answers(gates@, *queries),
    ensures
        r.opens(*p, *queries, z.val(), domain.generator.val(), domain.size as nat),
{
    let at = Num::of(z);
    let z_omega = at.times(&Num::of(&domain.generator)).value();
    let z_in_domain_size = at.power(domain.size);
    let ghost parts = columns(p.quotient_parts@);
    let ghost terms = power_terms(parts, z_in_domain_size.expr(), 0);
    let mut result = Num::zero();
    let mut current = Num::one();
    let mut i: usize = 0;
    proof {
        lemma_pow0(z_in_domain_size.expr());
        assert(terms.take(0) =~= Seq::empty());
    }
    while i < p.quotient_parts.len()
        invariant
            i <= p.quotient_parts@.len(),
            parts == columns(p.quotient_parts@),
            terms == power_terms(parts, z_in_domain_size.expr(), 0),
            current.expr() == pow(z_in_domain_size.expr(), i as nat),
            result.expr() == combine_eval(terms.take(i as int), z.val()),
        decreases p.quotient_parts@.len() - i,
    {
        let subvalue = evaluate_at(&p.quotient_parts[i], z);
        proof {
            assert(terms.take(i + 1).drop_last() =~= terms.take(i as int));
            lemma_pow_adds(z_in_domain_size.expr(), i as nat, 1);
            lemma_pow1(z_in_domain_size.expr());
        }
        result = result.plus(
            &current.times(&Num::with(&subvalue, Ghost(eval(parts[i as int], z.val())))),
        );
        current = current.times(&z_in_domain_size);
        i += 1;
    }
    proof {
        assert(terms.take(i as int) =~= terms);
    }
    let mut first_permutations: Vec<usize> = Vec::new();
    first_permutations.push(0);
    first_permutations.push(1);
    first_permutations.push(2);
    proof {
        assert(first_permutations@ =~= seq![0usize, 1, 2]);
    }
    let m = &p.monomials;
    let lookup = match &p.lookup {
        Some(l) => Some(
            LookupQuery {
                s_at_z_omega: evaluate_at(&l.s, &z_omega),
                grand_product_at_z_omega: evaluate_at(&l.z, &z_omega),
                t_at_z: evaluate_at(&l.t, z),
                t_at_z_omega: evaluate_at(&l.t, &z_omega),
                selector_at_z: evaluate_at(&l.selector, z),
                table_type_at_z: evaluate_at(&l.table_type, z),
            },
        ),
        None => None,
    };
    Openings {
        quotient_at_z: result.value(),
        state_at_z: open_list(&m.state, &queries.state_polys.at_z, z),
        state_at_z_omega: open_list(&m.state, &queries.state_polys.at_z_omega, &z_omega),
        witness_at_z: open_list(&m.witness, &queries.witness_polys.at_z, z),
        witness_at_z_omega: open_list(&m.witness, &queries.witness_polys.at_z_omega, &z_omega),
        gate_setup_at_z: open_gate_setup(&m.gate_setup, &queries.gate_setup_polys, z),
        selectors_at_z: open_list(&m.gate_selectors, &queries.gate_selectors, z),
        permutations_at_z: open_list(&m.permutations, &first_permutations, z),
        copy_z_at_z_omega: evaluate_at(&p.copy_z, &z_omega),
        lookup,
    }
}

/// What a gate other than the main gate answers to the linearization.
#[derive(Debug)]
pub enum GateContribution<F: PrimeField> {
    /// The linearized equation, which the selector's opening scales.
    Linearization(Vec<F>),
    /// The value of the equation, which scales the selector.
    Value(F),
}

/// What the gates answer to the linearization.
#[derive(Debug)]
pub struct GateContributions<F: PrimeField> {
    /// The linearized equation of the main gate.
    pub main: Vec<F>,
    /// What the public inputs add to the equation of the main gate.
    pub inputs_term: F,
    /// The other gates.
    pub others: Vec<GateContribution<F>>,
}

impl<F: PrimeField> GateContributions<F> {
    /// Each gate answers in the form that it announces, with `n` coefficients.
    pub open spec fn wf(&self, gates: Seq<Gate>, n: int) -> bool {
        &&& self.main@.len() == n
        &&& self.others@.len() == gates.len() - 1
        &&& forall|k: int|
            0 <= k < self.others@.len() ==> match #[trigger] self.others@[k] {
                GateContribution::Linearization(p) => {
                    &&& gates[k + 1].benefits_from_linearization
                    &&& p@.len() == n
                },
                GateContribution::Value(_) => !gates[k + 1].benefits_from_linearization,
            }
    }

    /// Whether each gate answers in the form that it announces, with `n`
    /// coefficients.
    pub fn is_wf(&self, gates: &Vec<Gate>, n: usize) -> (r: bool)
        ensures
            r == self.wf(gates@, n as int),
    {
        if gates.len() == 0 || self.main.len() != n || self.others.len() != gates.len() - 1 {
            return false;
        }
        let mut k: usize = 0;
        while k < self.others.len()
            invariant
                k <= self.others@.len(),
                self.others@.len() == gates@.len() - 1,
                forall|j: int|
                    0 <= j < k ==> match #[trigger] self.others@[j] {
                        GateContribution::Linearization(p) => {
                            &&& gates@[j + 1].benefits_from_linearization
                            &&& p@.len() == n
                        },
                        GateContribution::Value(_) => !gates@[j
                            + 1].benefits_from_linearization,
                    },
            decreases self.others@.len() - k,
        {
            let announced = gates[k + 1].benefits_from_linearization;
            let fits = match &self.others[k] {
                GateContribution::Linearization(p) => announced && p.len() == n,
                GateContribution::Value(_) => !announced,
            };
            if !fits {
                return false;
            }
            k += 1;
        }
        true
    }
}

/// The openings of the lookup argument and the Lagrange polynomial of the last
/// row at `z`.
pub struct LookupAtZ {
    /// The sorted column one step on.
    pub s_next: int,
    /// The grand product one step on.
    pub z_next: int,
    /// The tables.
    pub t: int,
    /// The tables one step on.
    pub t_next: int,
    /// The lookup selector.
    pub selector: int,
    /// The table type.
    pub table_type: int,
    /// The Lagrange polynomial of the last row.
    pub l_last: int,
}

/// The values that the linearization is made with.
pub struct AtZ {
    /// The opening point.
    pub z: int,
    /// The wires.
    pub wires: Seq<int>,
    /// All permutation polynomials but the last.
    pub permutations: Seq<int>,
    /// The copy-permutation grand product one step on.
    pub z_next: int,
    /// The opened selectors.
    pub selectors: Seq<int>,
    /// The Lagrange polynomial of the first row.
    pub l_0: int,
    /// The lookup argument.
    pub lookup: Option<LookupAtZ>,
}

/// The last element of the domain.
pub open spec fn last_element<F: PrimeField>(domain: Domain<F>) -> int {
    red::<F>(pow(domain.generator.val(), (domain.size - 1) as nat))
}

/// The values that the openings give for the linearization.
pub open spec fn at_z<F: PrimeField>(
    p: ProverPolynomials<F>,
    o: Openings<F>,
    domain: Domain<F>,
    z: int,
) -> AtZ {
    AtZ {
        z,
        wires: opened(p.monomials.state@, seq![0usize, 1, 2, 3], z),
        permutations: vals(o.permutations_at_z@),
        z_next: o.copy_z_at_z_omega.val(),
        selectors: vals(o.selectors_at_z@),
        l_0: lagrange_at::<F>(1, domain.size as nat, z),
        lookup: match o.lookup {
            Some(l) => Some(
                LookupAtZ {
                    s_next: l.s_at_z_omega.val(),
                    z_next: l.grand_product_at_z_omega.val(),
                    t: l.t_at_z.val(),
                    t_next: l.t_at_z_omega.val(),
                    selector: l.selector_at_z.val(),
                    table_type: l.table_type_at_z.val(),
                    l_last: lagrange_at::<F>(last_element(domain), domain.size as nat, z),
                },
            ),
            None => None,
        },
    }
}

/// The scaled polynomials that the first `k` gates add to the linearization.
pub open spec fn gate_linear_terms<F: PrimeField>(
    gates: Seq<Gate>,
    c: GateContributions<F>,
    opened_selectors: Seq<int>,
    selectors: Seq<Vec<F>>,
    k: nat,
) -> Seq<(int, Seq<int>)>
    decreases k,
{
    if k == 0 {
        Seq::empty()
    } else if k == 1 {
        seq![
            (
                if gates.len() > 1 {
                    opened_selectors[0]
                } else {
                    1
                },
                vals(c.main@),
            ),
        ]
    } else {
        gate_linear_terms(gates, c, opened_selectors, selectors, (k - 1) as nat).push(
            match c.others@[k - 2] {
                GateContribution::Linearization(p) => (
                    opened_selectors[selectors_used(gates, (k - 1) as nat) as int],
                    vals(p@),
                ),
                GateContribution::Value(v) => (v.val(), vals(selectors[k - 1]@)),
            },
        )
    }
}

/// The scaled polynomials that the copy-permutation argument adds to the
/// linearization.
pub open spec fn copy_linear_terms<F: PrimeField>(
    v: AtZ,
    w: Weights,
    a0: int,
    a1: int,
    copy_z: Seq<int>,
    last_permutation: Seq<int>,
) -> Seq<(int, Seq<int>)> {
    seq![
        (
            a0 * perm_product(v.wires, coset_row::<F>(v.z, w.shifts), w.beta, w.gamma),
            copy_z,
        ),
        (
            0 - a0 * w.beta * v.z_next * perm_product(
                v.wires.take(3),
                v.permutations,
                w.beta,
                w.gamma,
            ),
            last_permutation,
        ),
        (v.l_0 * a1, copy_z),
    ]
}

/// The scaled polynomials that the lookup argument adds to the linearization.
pub open spec fn lookup_linear_terms(
    v: AtZ,
    l: LookupAtZ,
    w: LookupWeights,
    a0: int,
    a1: int,
    a2: int,
    s: Seq<int>,
    z: Seq<int>,
) -> Seq<(int, Seq<int>)> {
    let step = v.z - w.last_omega;
    seq![
        (l.z_next * a0 * step, s),
        (
            (0 - lookup_denominator(l.t, l.t_next, w.beta, w.gamma) * (lookup_query(
                v.wires,
                l.table_type,
                l.selector,
                w.eta,
            ) + w.gamma) * (w.beta + 1)) * a0 * step + v.l_0 * a1 + l.l_last * a2,
            z,
        ),
    ]
}

/// All scaled polynomials that the linearization polynomial is the sum of.
pub open spec fn linear_terms<F: PrimeField>(
    gates: Seq<Gate>,
    p: ProverPolynomials<F>,
    c: GateContributions<F>,
    v: AtZ,
    w: Weights,
) -> Seq<(int, Seq<int>)> {
    let total = terms_before(gates, gates.len());
    let from_gates = gate_linear_terms(
        gates,
        c,
        v.selectors,
        p.monomials.gate_selectors@,
        gates.len(),
    );
    let from_copy = copy_linear_terms::<F>(
        v,
        w,
        pow(w.alpha, total),
        pow(w.alpha, total + 1),
        vals(p.copy_z@),
        vals(p.monomials.permutations@[3]@),
    );
    match (p.lookup, v.lookup, w.lookup) {
        (Some(polys), Some(l), Some(lw)) => from_gates + from_copy + lookup_linear_terms(
            v,
            l,
            lw,
            pow(w.alpha, total + 2),
            pow(w.alpha, total + 3),
            pow(w.alpha, total + 4),
            vals(polys.s@),
            vals(polys.z@),
        ),
        _ => from_gates + from_copy,
    }
}

/// What the public inputs add to the numerator beside the linearization.
pub open spec fn inputs_leftover(gates: Seq<Gate>, inputs_term: int, v: AtZ) -> int {
    if gates.len() > 1 {
        inputs_term * v.selectors[0]
    } else {
        inputs_term
    }
}

/// What the copy-permutation argument takes from the numerator beside the
/// linearization.
pub open spec fn copy_leftover(v: AtZ, w: Weights, a0: int, a1: int) -> int {
    a0 * v.z_next * perm_product(v.wires.take(3), v.permutations, w.beta, w.gamma) * (v.wires[3]
        + w.gamma) + v.l_0 * a1
}

/// What the lookup argument adds to the numerator beside the linearization.
pub open spec fn lookup_leftover(
    v: AtZ,
    l: LookupAtZ,
    w: LookupWeights,
    a0: int,
    a1: int,
    a2: int,
) -> int {
    (l.s_next * w.beta + gamma_beta(w.beta, w.gamma)) * l.z_next * a0 * (v.z - w.last_omega)
        - v.l_0 * a1 - l.l_last * w.expected * a2
}

/// The numerator at `z`, put together from the opening of the linearization
/// polynomial and what it leaves out.
pub open spec fn numerator_from_openings(
    gates: Seq<Gate>,
    linearization: int,
    inputs_term: int,
    v: AtZ,
    w: Weights,
) -> int {
    let total = terms_before(gates, gates.len());
    let without_lookup = linearization + inputs_leftover(gates, inputs_term, v) - copy_leftover(
        v,
        w,
        pow(w.alpha, total),
        pow(w.alpha, total + 1),
    );
    match (v.lookup, w.lookup) {
        (Some(l), Some(lw)) => without_lookup + lookup_leftover(
            v,
            l,
            lw,
            pow(w.alpha, total + 2),
            pow(w.alpha, total + 3),
            pow(w.alpha, total + 4),
        ),
        _ => without_lookup,
    }
}

/// Every wire is opened at `z`.
pub open spec fn wires_opened(q: SortedGateQueries) -> bool {
    forall|j: usize| j < 4 ==> #[trigger] q.state_polys.at_z@.contains(j)
}

/// The Lagrange polynomials that the argument needs have values at `z`.
pub open spec fn lagranges_defined<F: PrimeField>(
    domain: Domain<F>,
    z: int,
    with_lookup: bool,
) -> bool {
    &&& lagrange_defined::<F>(1, domain.size as nat, z)
    &&& with_lookup ==> lagrange_defined::<F>(last_element(domain), domain.size as nat, z)
}

pub(crate) fn wire_value<F: PrimeField>(
    ids: &Vec<usize>,
    values: &Vec<F>,
    wire: usize,
    Ghost(state): Ghost<Seq<Vec<F>>>,
    Ghost(z): Ghost<int>,
) -> (r: Option<F>)
    requires
        vals(values@) == opened(state, ids@, z),
    ensures
        r is Some <==> ids@.contains(wire),
        r matches Some(v) ==> v.val() == red::<F>(eval(vals(state[wire as int]@), z)),
{
    assert(vals(values@).len() == ids@.len());
    let mut i: usize = 0;
    while i < ids.len()
        invariant
            i <= ids@.len(),
            values@.len() == ids@.len(),
            vals(values@) == opened(state, ids@, z),
            forall|j: int| 0 <= j < i ==> #[trigger] ids@[j] != wire,
        decreases ids@.len() - i,
    {
        if ids[i] == wire {
            assert(vals(values@)[i as int] == opened(state, ids@, z)[i as int]);
            return Some(values[i]);
        }
        i += 1;
    }
    None
}

/// The openings of the wires at `z`. It fails exactly if one was not opened.
pub(crate) fn wire_values<F: PrimeField>(
    queries: &SortedGateQueries,
    values: &Vec<F>,
    Ghost(state): Ghost<Seq<Vec<F>>>,
    Ghost(z): Ghost<int>,
) -> (r: Result<Vec<F>, SynthesisError>)
    requires
        vals(values@) == opened(state, queries.state_polys.at_z@, z),
    ensures
        match r {
            Ok(w) => {
                &&& wires_opened(*queries)
                &&& w@.len() == 4
                &&& vals(w@) == opened(state, seq![0usize, 1, 2, 3], z)
            },
            Err(e) => {
                &&& e == SynthesisError::AssignmentMissing
                &&& !wires_opened(*queries)
            },
        },
{
    let mut w: Vec<F> = Vec::with_capacity(4);
    let mut j: usize = 0;
    while j < 4
        invariant
            j <= 4,
            w@.len() == j,
            vals(values@) == opened(state, queries.state_polys.at_z@, z),
            forall|k: usize| k < j ==> #[trigger] queries.state_polys.at_z@.contains(k),
            forall|k: int|
                0 <= k < j ==> (#[trigger] w@[k]).val() == red::<F>(eval(vals(state[k]@), z)),
        decreases 4 - j,
    {
        match wire_value(&queries.state_polys.at_z, values, j, Ghost(state), Ghost(z)) {
            Some(v) => {
                w.push(v);
            },
            None => {
                return Err(SynthesisError::AssignmentMissing);
            },
        }
        j += 1;
    }
    proof {
        assert(vals(w@) =~= opened(state, seq![0usize, 1, 2, 3], z));
    }
    Ok(w)
}

/// The values that the equation of the quotient is put together from.
struct Values<F: PrimeField> {
    wires: Vec<F>,
    l_0: F,
    l_last: F,
    a0: Num<F>,
    a1: Num<F>,
    b0: Num<F>,
    b1: Num<F>,
    b2: Num<F>,
    gamma_beta: Num<F>,
    expected: Num<F>,
    step: Num<F>,
}

impl<F: PrimeField> Values<F> {
    spec fn hold(&self, total: nat, v: AtZ, w: Weights) -> bool {
        &&& vals(self.wires@) == v.wires
        &&& self.wires@.len() == 4
        &&& self.l_0.val() == v.l_0
        &&& self.a0.expr() == pow(w.alpha, total)
        &&& self.a1.expr() == pow(w.alpha, total + 1)
        &&& self.b0.expr() == pow(w.alpha, total + 2)
        &&& self.b1.expr() == pow(w.alpha, total + 3)
        &&& self.b2.expr() == pow(w.alpha, total + 4)
        &&& match (v.lookup, w.lookup) {
            (Some(l), Some(lw)) => {
                &&& self.l_last.val() == l.l_last
                &&& self.gamma_beta.expr() == gamma_beta(lw.beta, lw.gamma)
                &&& self.expected.expr() == lw.expected
                &&& self.step.expr() == v.z - lw.last_omega
            },
            _ => true,
        }
    }
}

fn values_at_z<F: PrimeField>(
    p: &ProverPolynomials<F>,
    queries: &SortedGateQueries,
    o: &Openings<F>,
    challenges: &Challenges<F>,
    non_residues: &Vec<F>,
    total: usize,
    domain: &Domain<F>,
    z: &F,
) -> (r: Result<Values<F>, SynthesisError>)
    requires
        domain.wf(),
        o.opens(*p, *queries, z.val(), domain.generator.val(), domain.size as nat),
        o.lookup is Some <==> challenges.lookup is Some,
        total + 4 <= usize::MAX,
    ensures
        match r {
            Ok(values) => {
                &&& wires_opened(*queries)
                &&& lagranges_defined(*domain, z.val(), o.lookup is Some)
                &&& values.hold(
                    total as nat,
                    at_z(*p, *o, *domain, z.val()),
                    challenges.weights(
                        non_residues@,
                        domain.generator.val(),
                        domain.size as nat,
                    ),
                )
            },
            Err(SynthesisError::AssignmentMissing) => !wires_opened(*queries),
            Err(SynthesisError::DivisionByZero) => {
                &&& wires_opened(*queries)
                &&& !lagranges_defined(*domain, z.val(), o.lookup is Some)
            },
            Err(_) => false,
        },
{
    let wires = match wire_values(
        queries,
        &o.state_at_z,
        Ghost(p.monomials.state@),
        Ghost(z.val()),
    ) {
        Ok(w) => w,
        Err(e) => {
            return Err(e);
        },
    };
    proof {
        lemma_pow2_pos(domain.power_of_two as nat);
    }
    let l_0 = match evaluate_l0_at_point(domain.size, z) {
        Ok(v) => v,
        Err(e) => {
            return Err(e);
        },
    };
    let alpha = Num::of(&challenges.alpha);
    let a0 = alpha.power(total as u64);
    let a1 = alpha.power(total as u64 + 1);
    let b0 = alpha.power(total as u64 + 2);
    let b1 = alpha.power(total as u64 + 3);
    let b2 = alpha.power(total as u64 + 4);
    let mut l_last = F::zero();
    let mut gb = Num::zero();
    let mut expected = Num::zero();
    let mut step = Num::zero();
    if let Some(l) = &challenges.lookup {
        l_last = match evaluate_lagrange_poly_at_point(domain.size - 1, domain, z) {
            Ok(v) => v,
            Err(e) => {
                return Err(e);
            },
        };
        gb = Num::of(&l.gamma).times(&Num::of(&l.beta).plus(&Num::one()));
        expected = gb.power(domain.size - 1);
        step = Num::of(z).minus(&Num::of(&domain.generator).power(domain.size - 1));
    }
    Ok(
        Values { wires, l_0, l_last, a0, a1, b0, b1, b2, gamma_beta: gb, expected, step },
    )
}

/// What the arguments of the verification share.
pub open spec fn verifiable<F: PrimeField>(
    gates: Seq<Gate>,
    p: ProverPolynomials<F>,
    queries: SortedGateQueries,
    o: Openings<F>,
    c: GateContributions<F>,
    challenges: Challenges<F>,
    non_residues: Seq<F>,
    domain: Domain<F>,
    z: int,
) -> bool {
    &&& crate::quotient::supported(gates)
    &&& terms_before(gates, gates.len()) + 4 <= usize::MAX
    &&& domain.wf()
    &&& domain.size <= usize::MAX
    &&& p.wf(gates, domain.size as int)
    &&& p.answers(gates, queries)
    &&& o.opens(p, queries, z, domain.generator.val(), domain.size as nat)
    &&& c.wf(gates, domain.size as int)
    &&& challenges.lookup is Some <==> o.lookup is Some
    &&& non_residues.len() == 3
}

/// The number of selector values taken never falls from gate to gate.
pub proof fn lemma_selectors_monotonic(gates: Seq<Gate>, j: nat, k: nat)
    requires
        1 <= j <= k,
    ensures
        selectors_used(gates, j) <= selectors_used(gates, k),
    decreases k,
{
    if j < k {
        lemma_selectors_monotonic(gates, j, (k - 1) as nat);
    }
}

/// What the gates add to the linearization polynomial.
fn linearize_gates<F: PrimeField>(
    gates: &Vec<Gate>,
    p: &ProverPolynomials<F>,
    o: &Openings<F>,
    c: &GateContributions<F>,
    n: usize,
) -> (r: Vec<F>)
    requires
        gates@.len() > 0,
        p.wf(gates@, n as int),
        c.wf(gates@, n as int),
        o.selectors_at_z@.len() == selectors_used(gates@, gates@.len()),
    ensures
        represents(
            r@,
            gate_linear_terms(
                gates@,
                *c,
                vals(o.selectors_at_z@),
                p.monomials.gate_selectors@,
                gates@.len(),
            ),
            n as int,
        ),
{
    let ghost sel = vals(o.selectors_at_z@);
    let ghost polys = p.monomials.gate_selectors@;
    let count = gates.len();
    let available = o.selectors_at_z.len();
    let mut r: Vec<F> = zeros(n);
    let mut used: usize = 0;
    let mut first = Num::one();
    proof {
        lemma_represents_zeros(r@);
        lemma_selectors_monotonic(gates@, 1, gates@.len());
    }
    if count > 1 {
        first = Num::of(&o.selectors_at_z[0]);
        used = 1;
    }
    let ghost none = Seq::<(int, Seq<int>)>::empty();
    add_assign_scaled(&mut r, &c.main, &first, Ghost(none));
    proof {
        assert(none.push((first.expr(), vals(c.main@))) =~= gate_linear_terms(
            gates@,
            *c,
            sel,
            polys,
            1,
        ));
    }
    let mut k: usize = 1;
    while k < count
        invariant
            1 <= k <= count,
            count == gates@.len(),
            p.wf(gates@, n as int),
            c.wf(gates@, n as int),
            sel == vals(o.selectors_at_z@),
            polys == p.monomials.gate_selectors@,
            used == selectors_used(gates@, k as nat),
            available == sel.len(),
            sel.len() == selectors_used(gates@, gates@.len()),
            represents(r@, gate_linear_terms(gates@, *c, sel, polys, k as nat), n as int),
        decreases count - k,
    {
        let ghost before = gate_linear_terms(gates@, *c, sel, polys, k as nat);
        proof {
            lemma_selectors_monotonic(gates@, (k + 1) as nat, gates@.len());
            assert(match c.others@[k - 1] {
                GateContribution::Linearization(q) => q@.len() == n,
                GateContribution::Value(_) => true,
            });
        }
        match &c.others[k - 1] {
            GateContribution::Linearization(q) => {
                let scale = Num::of(&o.selectors_at_z[used]);
                add_assign_scaled(&mut r, q, &scale, Ghost(before));
                used += 1;
            },
            GateContribution::Value(v) => {
                let scale = Num::of(v);
                assert(polys[k as int]@.len() == n);
                add_assign_scaled(
                    &mut r,
                    &p.monomials.gate_selectors[k],
                    &scale,
                    Ghost(before),
                );
            },
        }
        k += 1;
    }
    r
}

/// The product over all wires but the last of `wire + gamma + beta * permutation`.
fn first_permutation_factors<F: PrimeField>(
    values: &Values<F>,
    o: &Openings<F>,
    challenges: &Challenges<F>,
    Ghost(total): Ghost<nat>,
    Ghost(v): Ghost<AtZ>,
    Ghost(w): Ghost<Weights>,
) -> (r: Num<F>)
    requires
        values.hold(total, v, w),
        v.permutations == vals(o.permutations_at_z@),
        v.permutations.len() == 3,
        w.beta == challenges.beta.val(),
        w.gamma == challenges.gamma.val(),
    ensures
        r.expr() == perm_product(v.wires.take(3), v.permutations, w.beta, w.gamma),
{
    proof {
        assert(v.permutations.take(3) =~= v.permutations);
    }
    permutation_factor(
        &values.wires,
        &o.permutations_at_z,
        3,
        &Num::of(&challenges.beta),
        &Num::of(&challenges.gamma),
    )
}

/// The linearization polynomial: the numerator with the openings in place of the
/// polynomials that are opened. It fails exactly if a wire was not opened, or if
/// a Lagrange polynomial has no value at `z`.
pub fn linearize<F: PrimeField>(
    gates: &Vec<Gate>,
    p: &ProverPolynomials<F>,
    queries: &SortedGateQueries,
    o: &Openings<F>,
    c: &GateContributions<F>,
    challenges: &Challenges<F>,
    non_residues: &Vec<F>,
    domain: &Domain<F>,
    z: &F,
) -> (r: Result<Vec<F>, SynthesisError>)
    requires
        verifiable(
            gates@,
            *p,
            *queries,
            *o,
            *c,
            *challenges,
            non_residues@,
            *domain,
            z.val(),
        ),
    ensures
        match r {
            Ok(poly) => {
                &&& wires_opened(*queries)
                &&& lagranges_defined(*domain, z.val(), o.lookup is Some)
                &&& represents(
                    poly@,
                    linear_terms(
                        gates@,
                        *p,
                        *c,
                        at_z(*p, *o, *domain, z.val()),
                        challenges.weights(
                            non_residues@,
                            domain.generator.val(),
                            domain.size as nat,
                        ),
                    ),
                    domain.size as int,
                )
            },
            Err(SynthesisError::AssignmentMissing) => !wires_opened(*queries),
            Err(SynthesisError::DivisionByZero) => {
                &&& wires_opened(*queries)
                &&& !lagranges_defined(*domain, z.val(), o.lookup is Some)
            },
            Err(_) => false,
        },
{
    let n = domain.size as usize;
    let ghost v = at_z(*p, *o, *domain, z.val());
    let ghost w = challenges.weights(non_residues@, domain.generator.val(), domain.size as nat);
    let total = crate::quotient::total_quotient_terms(gates);
    let values = match values_at_z(p, queries, o, challenges, non_residues, total, domain, z) {
        Ok(x) => x,
        Err(e) => {
            return Err(e);
        },
    };
    proof {
        assert(vals(o.selectors_at_z@).len() == queries.gate_selectors@.len());
        assert(vals(o.permutations_at_z@).len() == 3);
    }
    let mut r = linearize_gates(gates, p, o, c, n);
    let ghost from_gates = gate_linear_terms(
        gates@,
        *c,
        v.selectors,
        p.monomials.gate_selectors@,
        gates@.len(),
    );
    let beta = Num::of(&challenges.beta);
    let gamma = Num::of(&challenges.gamma);
    let points = coset_points(z, &shifts(non_residues));
    proof {
        assert(v.wires.take(4) =~= v.wires);
        assert(vals(points@).take(4) =~= vals(points@));
    }
    let f1 = values.a0.times(&permutation_factor(&values.wires, &points, 4, &beta, &gamma));
    let rest = first_permutation_factors(
        &values,
        o,
        challenges,
        Ghost(total as nat),
        Ghost(v),
        Ghost(w),
    );
    let f2 = values.a0.times(&beta).times(&Num::of(&o.copy_z_at_z_omega)).times(
        &rest,
    ).negated();
    let f3 = Num::of(&values.l_0).times(&values.a1);
    let ghost t1 = from_gates.push((f1.expr(), vals(p.copy_z@)));
    let ghost t2 = t1.push((f2.expr(), vals(p.monomials.permutations@[3]@)));
    let ghost t3 = t2.push((f3.expr(), vals(p.copy_z@)));
    assert(p.monomials.permutations@[3]@.len() == n);
    add_assign_scaled(&mut r, &p.copy_z, &f1, Ghost(from_gates));
    add_assign_scaled(&mut r, &p.monomials.permutations[3], &f2, Ghost(t1));
    add_assign_scaled(&mut r, &p.copy_z, &f3, Ghost(t2));
    let ghost from_copy = copy_linear_terms::<F>(
        v,
        w,
        values.a0.expr(),
        values.a1.expr(),
        vals(p.copy_z@),
        vals(p.monomials.permutations@[3]@),
    );
    proof {
        assert(t3 =~= from_gates + from_copy);
    }
    match (&p.lookup, &o.lookup, &challenges.lookup) {
        (Some(polys), Some(l), Some(lc)) => {
            let ghost lv = v.lookup->0;
            let ghost lw = w.lookup->0;
            let lookup_beta = Num::of(&lc.beta);
            let lookup_gamma = Num::of(&lc.gamma);
            let eta = Num::of(&lc.eta);
            let eta2 = eta.times(&eta);
            let eta3 = eta2.times(&eta);
            let g1 = Num::of(&l.grand_product_at_z_omega).times(&values.b0).times(&values.step);
            let tables = Num::of(&l.t_at_z).plus(
                &lookup_beta.times(&Num::of(&l.t_at_z_omega)),
            ).plus(&values.gamma_beta);
            proof {
                assert(v.wires[0] == values.wires@[0].val());
                assert(v.wires[1] == values.wires@[1].val());
                assert(v.wires[2] == values.wires@[2].val());
            }
            let f = Num::of(&values.wires[0]).plus(
                &eta.times(&Num::of(&values.wires[1])),
            ).plus(&eta2.times(&Num::of(&values.wires[2]))).plus(
                &eta3.times(&Num::of(&l.table_type_at_z)),
            ).times(&Num::of(&l.selector_at_z)).plus(&lookup_gamma);
            let product = tables.times(&f).times(&lookup_beta.plus(&Num::one()));
            let g2 = product.negated().times(&values.b0).times(&values.step).plus(
                &Num::of(&values.l_0).times(&values.b1),
            ).plus(&Num::of(&values.l_last).times(&values.b2));
            let ghost t4 = t3.push((g1.expr(), vals(polys.s@)));
            let ghost t5 = t4.push((g2.expr(), vals(polys.z@)));
            add_assign_scaled(&mut r, &polys.s, &g1, Ghost(t3));
            add_assign_scaled(&mut r, &polys.z, &g2, Ghost(t4));
            proof {
                assert(t5 =~= from_gates + from_copy + lookup_linear_terms(
                    v,
                    lv,
                    lw,
                    values.b0.expr(),
                    values.b1.expr(),
                    values.b2.expr(),
                    vals(polys.s@),
                    vals(polys.z@),
                ));
            }
        },
        _ => {},
    }
    Ok(r)
}

/// Whether the opening of the quotient, times the value of the polynomial that
/// vanishes on the domain, is the numerator that the openings give.
pub fn equation_holds<F: PrimeField>(
    gates: &Vec<Gate>,
    p: &ProverPolynomials<F>,
    queries: &SortedGateQueries,
    o: &Openings<F>,
    c: &GateContributions<F>,
    challenges: &Challenges<F>,
    non_residues: &Vec<F>,
    domain: &Domain<F>,
    z: &F,
    linearization_at_z: &F,
) -> (r: Result<bool, SynthesisError>)
    requires
        verifiable(
            gates@,
            *p,
            *queries,
            *o,
            *c,
            *challenges,
            non_residues@,
            *domain,
            z.val(),
        ),
    ensures
        match r {
            Ok(b) => {
                &&& wires_opened(*queries)
                &&& lagranges_defined(*domain, z.val(), o.lookup is Some)
                &&& b == (red::<F>(
                    o.quotient_at_z.val() * (pow(z.val(), domain.size as nat) - 1),
                ) == red::<F>(
                    numerator_from_openings(
                        gates@,
                        linearization_at_z.val(),
                        c.inputs_term.val(),
                        at_z(*p, *o, *domain, z.val()),
                        challenges.weights(
                            non_residues@,
                            domain.generator.val(),
                            domain.size as nat,
                        ),
                    ),
                ))
            },
            Err(SynthesisError::AssignmentMissing) => !wires_opened(*queries),
            Err(SynthesisError::DivisionByZero) => {
                &&& wires_opened(*queries)
                &&& !lagranges_defined(*domain, z.val(), o.lookup is Some)
            },
            Err(_) => false,
        },
{
    let ghost v = at_z(*p, *o, *domain, z.val());
    let ghost w = challenges.weights(non_residues@, domain.generator.val(), domain.size as nat);
    let total = crate::quotient::total_quotient_terms(gates);
    let values = match values_at_z(p, queries, o, challenges, non_residues, total, domain, z) {
        Ok(x) => x,
        Err(e) => {
            return Err(e);
        },
    };
    proof {
        assert(vals(o.selectors_at_z@).len() == queries.gate_selectors@.len());
        assert(vals(o.permutations_at_z@).len() == 3);
        if gates@.len() > 1 {
            lemma_selectors_monotonic(gates@, 1, gates@.len());
        }
    }
    let mut inputs_term = Num::of(&c.inputs_term);
    if gates.len() > 1 {
        inputs_term = inputs_term.times(&Num::of(&o.selectors_at_z[0]));
    }
    let rest = first_permutation_factors(
        &values,
        o,
        challenges,
        Ghost(total as nat),
        Ghost(v),
        Ghost(w),
    );
    proof {
        assert(v.wires[3] == values.wires@[3].val());
    }
    let copy = values.a0.times(&Num::of(&o.copy_z_at_z_omega)).times(&rest).times(
        &Num::of(&values.wires[3]).plus(&Num::of(&challenges.gamma)),
    ).plus(&Num::of(&values.l_0).times(&values.a1));
    let mut rhs = Num::of(linearization_at_z).plus(&inputs_term).minus(&copy);
    match (&o.lookup, &challenges.lookup) {
        (Some(l), Some(lc)) => {
            let sorted = Num::of(&l.s_at_z_omega).times(&Num::of(&lc.beta)).plus(
                &values.gamma_beta,
            );
            let lookup = sorted.times(&Num::of(&l.grand_product_at_z_omega)).times(
                &values.b0,
            ).times(&values.step).minus(&Num::of(&values.l_0).times(&values.b1)).minus(
                &Num::of(&values.l_last).times(&values.expected).times(&values.b2),
            );
            rhs = rhs.plus(&lookup);
        },
        _ => {},
    }
    let vanishing_at_z = evaluate_vanishing_for_size(z, domain.size);
    let lhs = Num::of(&o.quotient_at_z).times(
        &Num::with(&vanishing_at_z, Ghost(pow(z.val(), domain.size as nat) - 1)),
    );
    Ok(lhs.value().equals(&rhs.value()))
}

} // verus!
