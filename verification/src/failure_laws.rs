//! When the operations and the rounds fail, and that they fail then only.

use crate::circuit::{all_below, Assembly, Setup};
use crate::closing_laws::{lemma_used, linearized_before};
use crate::closing_rounds::{LdesRequested, Linearized, Opened, QuotientReady};
use crate::domain::lagrange_defined;
use crate::errors::SynthesisError;
use crate::field::{invertible, lemma_invertible, lemma_red_mul, lemma_red_range, red, PrimeField};
use crate::gates::GateKind;
use crate::linearization::{GateContribution, GateContributions};
use crate::lookup_rounds::LookupProduct;
use crate::operations::without_inverse;
use crate::permutation::row_of;
use crate::polynomial::{all_len, columns};
use crate::prover::{CopyCommitted, CopyProduct, CopyStart, Started};
use crate::quotient::{vanishing_on_coset, Ldes};
use crate::refusal::lemma_four_factors;
use vstd::arithmetic::power::*;
use vstd::arithmetic::power2::*;
use vstd::prelude::*;

verus! {

proof fn lemma_without_inverse<F: PrimeField>(x: int)
    ensures
        invertible::<F>(x) <==> !without_inverse::<F>(x),
{
    if invertible::<F>(x) {
        assert(red::<F>(x * crate::field::inv::<F>(x)) == 1);
    }
    if !without_inverse::<F>(x) {
        let y = choose|y: int| #[trigger] red::<F>(x * y) == 1;
        lemma_invertible::<F>(x, y);
    }
}

proof fn lemma_residue_without_inverse<F: PrimeField>(x: int)
    ensures
        without_inverse::<F>(red::<F>(x)) <==> without_inverse::<F>(x),
{
    lemma_red_range::<F>(x);
    assert forall|y: int| #[trigger] red::<F>(red::<F>(x) * y) == red::<F>(x * y) by {
        lemma_red_mul::<F>(red::<F>(x), y, x, y);
    }
    if without_inverse::<F>(red::<F>(x)) {
        assert forall|y: int| #[trigger] red::<F>(x * y) != 1 by {
            assert(red::<F>(red::<F>(x) * y) != 1);
        }
    }
}

proof fn lemma_lagrange_defined<F: PrimeField>(node: int, n: nat, x: int)
    ensures
        lagrange_defined::<F>(node, n, x) <==> !without_inverse::<F>((x - node) * n),
{
    lemma_without_inverse::<F>(red::<F>((x - node) * n));
    lemma_residue_without_inverse::<F>((x - node) * n);
}

/// What a row divides the copy-permutation grand product by: over the four wires,
/// the product of `wire + gamma + beta * sigma`.
pub open spec fn copy_divisor<F: PrimeField, G: Copy>(
    round: CopyStart<F, G>,
    beta: F,
    gamma: F,
    i: int,
) -> int {
    let w = round.session.job.state_values@;
    let s = round.permutation_values@;
    (w[0]@[i].val() + gamma.val() + beta.val() * s[0]@[i].val()) * (w[1]@[i].val() + gamma.val()
        + beta.val() * s[1]@[i].val()) * (w[2]@[i].val() + gamma.val() + beta.val()
        * s[2]@[i].val()) * (w[3]@[i].val() + gamma.val() + beta.val() * s[3]@[i].val())
}

proof fn lemma_copy_divisor<F: PrimeField, G: Copy>(
    round: CopyStart<F, G>,
    beta: F,
    gamma: F,
    i: int,
)
    requires
        round.wf(),
        0 <= i < round.session.job.n,
    ensures
        round.denominators(beta, gamma).len() == round.session.job.n,
        round.denominators(beta, gamma)[i] == copy_divisor(round, beta, gamma, i),
{
    let w = columns(round.session.job.state_values@);
    let s = columns(round.permutation_values@);
    let n = round.session.job.n as int;
    assert forall|k: int| 0 <= k < 4 implies #[trigger] row_of(w, i)[k]
        == round.session.job.state_values@[k]@[i].val() by {
        assert(round.session.job.state_values@[k]@.len() == n);
    }
    assert forall|k: int| 0 <= k < 4 implies #[trigger] row_of(s, i)[k]
        == round.permutation_values@[k]@[i].val() by {
        assert(round.permutation_values@[k]@.len() == n + 1);
    }
    lemma_four_factors(row_of(w, i), row_of(s, i), beta.val(), gamma.val());
}

/// The copy-permutation grand product fails exactly if some row would divide it by
/// what has no inverse.
pub proof fn law_copy_product_fails<F: PrimeField, G: Copy>(
    round: CopyStart<F, G>,
    beta: F,
    gamma: F,
    r: Result<CopyProduct<F, G>, SynthesisError>,
)
    requires
        round.wf(),
        call_ensures(CopyStart::<F, G>::resume, (round, beta, gamma), r),
    ensures
        r is Err <==> exists|i: int|
            0 <= i < round.session.job.n && without_inverse::<F>(
                #[trigger] copy_divisor(round, beta, gamma, i),
            ),
        r matches Err(e) ==> e == SynthesisError::DivisionByZero,
{
    let dens = round.denominators(beta, gamma);
    assert forall|i: int| 0 <= i < round.session.job.n implies (invertible::<F>(dens[i])
        <==> !without_inverse::<F>(#[trigger] copy_divisor(round, beta, gamma, i))) by {
        lemma_copy_divisor(round, beta, gamma, i);
        lemma_without_inverse::<F>(dens[i]);
    }
    if r is Err {
        assert(dens.len() == round.session.job.n);
        let i = choose|i: int| 0 <= i < dens.len() && !#[trigger] invertible::<F>(dens[i]);
        assert(without_inverse::<F>(copy_divisor(round, beta, gamma, i)));
    } else {
        assert forall|i: int| 0 <= i < round.session.job.n implies !without_inverse::<F>(
            #[trigger] copy_divisor(round, beta, gamma, i),
        ) by {
            assert(dens.len() == round.session.job.n);
            assert(invertible::<F>(dens[i]));
        }
    }
}

/// What a row divides the lookup grand product by.
pub open spec fn lookup_divisor<F: PrimeField, G: Copy>(
    round: CopyCommitted<F, G>,
    beta: F,
    gamma: F,
    i: int,
) -> int {
    let v = round.lookup->0.values;
    v.s@[i].val() + beta.val() * v.s_shifted@[i].val() + gamma.val() * (beta.val() + 1)
}

/// The lookup grand product fails exactly if some row would divide it by what has no
/// inverse.
pub proof fn law_lookup_product_fails<F: PrimeField, G: Copy>(
    round: CopyCommitted<F, G>,
    beta: F,
    gamma: F,
    r: Result<LookupProduct<F, G>, SynthesisError>,
)
    requires
        round.wf(),
        round.lookup is Some,
        call_ensures(CopyCommitted::<F, G>::begin_lookup_product, (round, beta, gamma), r),
    ensures
        r is Err <==> exists|i: int|
            0 <= i < round.session.job.n && without_inverse::<F>(
                #[trigger] lookup_divisor(round, beta, gamma, i),
            ),
        r matches Err(e) ==> e == SynthesisError::DivisionByZero,
{
    let dens = crate::lookup_rounds::denominators_of(round.lookup->0, beta, gamma);
    assert(dens.len() == round.session.job.n);
    assert forall|i: int| 0 <= i < round.session.job.n implies (invertible::<F>(dens[i])
        <==> !without_inverse::<F>(#[trigger] lookup_divisor(round, beta, gamma, i))) by {
        lemma_without_inverse::<F>(dens[i]);
    }
    if r is Err {
        let i = choose|i: int| 0 <= i < dens.len() && !#[trigger] invertible::<F>(dens[i]);
        assert(without_inverse::<F>(lookup_divisor(round, beta, gamma, i)));
    } else {
        assert forall|i: int| 0 <= i < round.session.job.n implies !without_inverse::<F>(
            #[trigger] lookup_divisor(round, beta, gamma, i),
        ) by {
            assert(invertible::<F>(dens[i]));
        }
    }
}

/// A proof is not started exactly if the field has no domain for the circuit.
pub proof fn law_start_fails<F: PrimeField>(
    assembly: Assembly<F>,
    setup: Setup<F>,
    r: Result<Started<F>, SynthesisError>,
)
    requires
        call_ensures(Assembly::<F>::async_create_proof, (assembly, &setup), r),
    ensures
        r is Err <==> assembly.n + 1 > pow2(F::spec_two_adicity()),
        r matches Err(e) ==> e == SynthesisError::PolynomialDegreeTooLarge,
{
}

/// Every wire is among the state polynomials that are opened at `z`.
pub open spec fn each_wire_opened<F: PrimeField, G: Copy>(round: Opened<F, G>) -> bool {
    let ids = round.session.job.queries.state_polys.at_z@;
    ids.contains(0) && ids.contains(1) && ids.contains(2) && ids.contains(3)
}

/// The round of the openings tells first whether a wire was not opened, then whether
/// a Lagrange polynomial that it needs has no value, that is whether the opening
/// point less its element, times the size, has no inverse; it refuses nothing else
/// but openings that miss the equation.
pub proof fn law_openings_fail<F: PrimeField, G: Copy>(
    round: Opened<F, G>,
    c: GateContributions<F>,
    r: Result<Linearized<F, G>, SynthesisError>,
)
    requires
        round.wf(),
        call_ensures(Opened::<F, G>::resume, (round, c), r),
    ensures
        ({
            let size = round.session.job.domain.size as nat;
            let z = round.z.val();
            let last = red::<F>(
                pow(round.session.job.domain.generator.val(), (size - 1) as nat),
            );
            let undefined = without_inverse::<F>((z - 1) * size) || (round.polynomials.lookup
                is Some && without_inverse::<F>((z - last) * size));
            &&& r == Err::<Linearized<F, G>, SynthesisError>(SynthesisError::AssignmentMissing)
                <==> !each_wire_opened(round)
            &&& r == Err::<Linearized<F, G>, SynthesisError>(SynthesisError::DivisionByZero)
                <==> each_wire_opened(round) && undefined
            &&& r is Err && each_wire_opened(round) && !undefined ==> r->Err_0
                == SynthesisError::Unsatisfiable
        }),
{
    let size = round.session.job.domain.size as nat;
    let z = round.z.val();
    let omega = round.session.job.domain.generator.val();
    let ids = round.session.job.queries.state_polys.at_z@;
    lemma_lagrange_defined::<F>(1, size, z);
    lemma_lagrange_defined::<F>(red::<F>(pow(omega, (size - 1) as nat)), size, z);
    assert(crate::linearization::wires_opened(round.session.job.queries) <==> each_wire_opened(
        round,
    )) by {
        if each_wire_opened(round) {
            assert forall|j: usize| j < 4 implies #[trigger] ids.contains(j) by {
                assert(j == 0 || j == 1 || j == 2 || j == 3);
            }
        }
        if crate::linearization::wires_opened(round.session.job.queries) {
            assert(ids.contains(0usize) && ids.contains(1usize) && ids.contains(2usize)
                && ids.contains(3usize));
        }
    }
}

/// The known gates answer, unless a wire or the last wire of the next row was not
/// opened, or the opening point less the element of a row with a public input, times
/// the size, has no inverse.
pub proof fn law_contributions_fail<F: PrimeField, G: Copy>(
    round: Opened<F, G>,
    r: Result<GateContributions<F>, SynthesisError>,
)
    requires
        round.wf(),
        call_ensures(Opened::<F, G>::gate_contributions, (&round,), r),
    ensures
        ({
            let job = round.session.job;
            let z = round.z.val();
            let omega = job.domain.generator.val();
            let opened = each_wire_opened(round) && job.queries.state_polys.at_z_omega@.contains(
                3,
            );
            let undefined = exists|i: int|
                0 <= i < job.inputs@.len() && without_inverse::<F>(
                    (z - red::<F>(#[trigger] pow(omega, i as nat))) * job.domain.size as nat,
                );
            match r {
                Ok(_) => opened && !undefined,
                Err(SynthesisError::AssignmentMissing) => !opened,
                Err(SynthesisError::DivisionByZero) => opened && undefined,
                Err(_) => false,
            }
        }),
{
    let job = round.session.job;
    let z = round.z.val();
    let omega = job.domain.generator.val();
    let size = job.domain.size as nat;
    let ids = job.queries.state_polys.at_z@;
    assert(crate::linearization::wires_opened(job.queries) <==> each_wire_opened(round)) by {
        if each_wire_opened(round) {
            assert forall|j: usize| j < 4 implies #[trigger] ids.contains(j) by {
                assert(j == 0 || j == 1 || j == 2 || j == 3);
            }
        }
        if crate::linearization::wires_opened(job.queries) {
            assert(ids.contains(0usize) && ids.contains(1usize) && ids.contains(2usize)
                && ids.contains(3usize));
        }
    }
    assert forall|i: int| 0 <= i < job.inputs@.len() implies (#[trigger] lagrange_defined::<F>(
        red::<F>(pow(omega, i as nat)),
        size,
        z,
    ) <==> !without_inverse::<F>((z - red::<F>(pow(omega, i as nat))) * size)) by {
        lemma_lagrange_defined::<F>(red::<F>(pow(omega, i as nat)), size, z);
    }
    if crate::contributions::inputs_defined::<F>(job.inputs@.len(), omega, size, z) {
        assert forall|i: int| 0 <= i < job.inputs@.len() implies !without_inverse::<F>(
            (z - red::<F>(#[trigger] pow(omega, i as nat))) * size,
        ) by {
            assert(lagrange_defined::<F>(red::<F>(pow(omega, i as nat)), size, z));
        }
    } else {
        let i = choose|i: int|
            0 <= i < job.inputs@.len() && !#[trigger] lagrange_defined::<F>(
                red::<F>(pow(omega, i as nat)),
                size,
                z,
            );
        assert(without_inverse::<F>((z - red::<F>(pow(omega, i as nat))) * size));
    }
}

/// The round of the quotient fails for a division exactly if `x^n - 1` has no inverse
/// at some point of the coset.
pub proof fn law_division_fails<F: PrimeField, G: Copy>(
    round: LdesRequested<F, G>,
    ldes: Ldes<F>,
    r: Result<QuotientReady<F, G>, SynthesisError>,
)
    requires
        call_ensures(LdesRequested::<F, G>::resume, (round, ldes), r),
    ensures
        r == Err::<QuotientReady<F, G>, SynthesisError>(SynthesisError::DivisionByZero)
            <==> exists|e: int|
            0 <= e < round.session.job.big.size && without_inverse::<F>(
                pow(
                    F::spec_generator() * #[trigger] pow(
                        round.session.job.big.generator.val(),
                        e as nat,
                    ),
                    round.session.job.domain.size as nat,
                ) - 1,
            ),
        r matches Err(e) ==> e == SynthesisError::DivisionByZero || e
            == SynthesisError::Unsatisfiable,
{
    let job = round.session.job;
    let (big, n) = (job.big, job.domain.size as nat);
    let all = vanishing_on_coset::<F>(big.generator.val(), n, big.size as nat);
    assert forall|e: int| 0 <= e < big.size implies (#[trigger] invertible::<F>(all[e])
        <==> !without_inverse::<F>(
        pow(F::spec_generator() * pow(big.generator.val(), e as nat), n) - 1,
    )) by {
        lemma_without_inverse::<F>(all[e]);
    }
    if crate::quotient::divisible_on_coset(job.domain, big) {
        assert forall|e: int| 0 <= e < big.size implies !without_inverse::<F>(
            pow(F::spec_generator() * #[trigger] pow(big.generator.val(), e as nat), n) - 1,
        ) by {
            assert(invertible::<F>(all[e]));
        }
    } else {
        let e = choose|e: int| 0 <= e < all.len() && !#[trigger] invertible::<F>(all[e]);
        assert(without_inverse::<F>(
            pow(F::spec_generator() * pow(big.generator.val(), e as nat), n) - 1,
        ));
    }
}

/// The gates have answered in order exactly if the main gate has a polynomial of the
/// size of the domain and every other gate answers as it announced: with a polynomial
/// of that size if it is linearized, and with a value if not.
pub proof fn law_contributions_in_order<F: PrimeField>(
    c: GateContributions<F>,
    gates: Vec<crate::gates::Gate>,
    n: usize,
    r: bool,
)
    requires
        call_ensures(GateContributions::<F>::is_wf, (&c, &gates, n), r),
    ensures
        r <==> {
            &&& c.main@.len() == n
            &&& c.others@.len() + 1 == gates@.len()
            &&& forall|k: int|
                0 < k < gates@.len() ==> if (#[trigger] gates@[k]).benefits_from_linearization {
                    c.others@[k - 1] matches GateContribution::Linearization(p) && p@.len() == n
                } else {
                    c.others@[k - 1] is Value
                }
        },
{
    if r {
        assert forall|k: int| 0 < k < gates@.len() implies if (
        #[trigger] gates@[k]).benefits_from_linearization {
            c.others@[k - 1] matches GateContribution::Linearization(p) && p@.len() == n
        } else {
            c.others@[k - 1] is Value
        } by {
            let j = k - 1;
            let answer = c.others@[j];
            assert(gates@[j + 1] == gates@[k]);
        }
    }
    if c.main@.len() == n && c.others@.len() + 1 == gates@.len() && forall|k: int|
        0 < k < gates@.len() ==> if (#[trigger] gates@[k]).benefits_from_linearization {
            c.others@[k - 1] matches GateContribution::Linearization(p) && p@.len() == n
        } else {
            c.others@[k - 1] is Value
        } {
        assert forall|j: int| 0 <= j < c.others@.len() implies match #[trigger] c.others@[j] {
            GateContribution::Linearization(p) => {
                &&& gates@[j + 1].benefits_from_linearization
                &&& p@.len() == n
            },
            GateContribution::Value(_) => !gates@[j + 1].benefits_from_linearization,
        } by {
            let gate = gates@[j + 1];
        }
    }
}

/// Every vector of a list has `n` entries.
pub open spec fn each_has<T>(list: Seq<Vec<T>>, n: int) -> bool {
    forall|j: int| 0 <= j < list.len() ==> (#[trigger] list[j])@.len() == n
}

/// Every index of a list is below a bound.
pub open spec fn each_below(ids: Seq<usize>, bound: nat) -> bool {
    forall|j: int| 0 <= j < ids.len() ==> (#[trigger] ids[j]) < bound
}

/// The circuit itself is in order: it has its witness and its number of rows is one
/// less than a power of two that machine and field allow for; the main gate comes first
/// and gates that test for a bit follow; no degree exceeds four.
pub open spec fn circuit_in_order<F: PrimeField>(a: Assembly<F>) -> bool {
    let gates = a.sorted_gates@;
    let largest = pow2(F::spec_two_adicity());
    &&& a.produce_witness && a.is_finalized && a.num_multitables == 0
    &&& exists|k: nat| a.n + 1 == #[trigger] pow2(k)
    &&& 8 * (a.n + 1) <= usize::MAX
    &&& a.n + 1 <= largest ==> 4 * (a.n + 1) <= largest
    &&& a.input_assingments@.len() <= a.n + 1
    &&& a.max_constraint_degree == 3 || a.max_constraint_degree == 4
    &&& gates.len() > 0
    &&& gates[0].benefits_from_linearization
    &&& forall|g: int|
        0 <= g < gates.len() ==> {
            &&& (#[trigger] gates[g]).kind == if g == 0 {
                GateKind::MainGateOfWidth4WithDNext
            } else {
                GateKind::TestBitGateOnA
            }
            &&& gates[g].num_quotient_terms > 0
            &&& gates[g].degree <= 4
        }
    &&& crate::gates::terms_before(gates, gates.len()) + 4 <= usize::MAX
    &&& a.state_values@.len() == 4
    &&& each_has(a.state_values@, a.n as int)
    &&& each_has(a.witness_values@, a.n as int)
    &&& a.non_residues@.len() == 3
    &&& a.produce_setup ==> a.permutations@.len() == 4 && each_has(a.permutations@, a.n + 1)
}

/// The polynomials of the setup that the circuit needs are there, with a coefficient
/// for each element of the domain.
pub open spec fn setup_in_order<F: PrimeField>(a: Assembly<F>, s: Setup<F>) -> bool {
    let size = a.n + 1;
    &&& s.gate_setup_monomials@.len() > 0
    &&& s.gate_setup_monomials@[0]@.len() >= 7
    &&& forall|g: int|
        0 <= g < s.gate_setup_monomials@.len() ==> each_has(
            (#[trigger] s.gate_setup_monomials@[g])@,
            size,
        )
    &&& a.sorted_gates@.len() > 1 ==> s.gate_selectors_monomials@.len() == a.sorted_gates@.len()
    &&& each_has(s.gate_selectors_monomials@, size)
    &&& s.permutation_monomials@.len() == 4
    &&& each_has(s.permutation_monomials@, size)
}

/// The queries name polynomials that are there, and a selector is opened for the main
/// gate, if there are others, and for each other gate that is linearized.
pub open spec fn queries_in_order<F: PrimeField>(a: Assembly<F>, s: Setup<F>) -> bool {
    let q = a.queries;
    let gates = a.sorted_gates@;
    &&& each_below(q.state_polys.at_z@, 4)
    &&& each_below(q.state_polys.at_z_omega@, 4)
    &&& each_below(q.witness_polys.at_z@, a.witness_values@.len())
    &&& each_below(q.witness_polys.at_z_omega@, a.witness_values@.len())
    &&& q.gate_setup_polys@.len() <= s.gate_setup_monomials@.len()
    &&& forall|g: int|
        0 <= g < q.gate_setup_polys@.len() ==> each_below(
            (#[trigger] q.gate_setup_polys@[g])@,
            s.gate_setup_monomials@[g]@.len(),
        )
    &&& each_below(q.gate_selectors@, s.gate_selectors_monomials@.len())
    &&& q.gate_selectors@.len() == if gates.len() > 1 {
        1 + linearized_before(gates, gates.len())
    } else {
        0
    }
}

/// The columns of the lookup argument are there, with a free row before the tables and
/// the sorted rows; without them, the polynomials of the setup.
pub open spec fn lookup_in_order<F: PrimeField>(a: Assembly<F>, s: Setup<F>) -> bool {
    a.lookup matches Some(l) ==> {
        let sorted = l.s_poly_ends@;
        let tables = l.t_poly_ends@;
        &&& sorted.len() == 4
        &&& sorted[0]@.len() < a.n
        &&& each_has(sorted, sorted[0]@.len() as int)
        &&& if a.produce_setup {
            &&& l.selector_values@.len() <= a.n + 1
            &&& l.table_type_values@.len() == a.n
            &&& tables.len() == 4
            &&& tables[0]@.len() < a.n
            &&& each_has(tables, tables[0]@.len() as int)
        } else {
            &&& s.lookup_selector_monomial is Some
            &&& s.lookup_selector_monomial->0@.len() == a.n + 1
            &&& s.lookup_table_type_monomial is Some
            &&& s.lookup_table_type_monomial->0@.len() == a.n + 1
            &&& s.lookup_tables_monomials@.len() == 4
            &&& each_has(s.lookup_tables_monomials@, a.n + 1)
        }
    }
}

/// A circuit can be proved exactly if it, its setup, its queries and its lookup
/// argument are in order.
pub proof fn law_ready<F: PrimeField>(assembly: Assembly<F>, setup: Setup<F>, r: bool)
    requires
        call_ensures(Assembly::<F>::is_ready, (&assembly, &setup), r),
    ensures
        r <==> {
            &&& circuit_in_order(assembly)
            &&& setup_in_order(assembly, setup)
            &&& queries_in_order(assembly, setup)
            &&& lookup_in_order(assembly, setup)
        },
{
    let a = assembly;
    let gates = a.sorted_gates@;
    let n = a.n as int;
    lemma_lists_agree::<F>();
    lemma_circuit_in_order(a);
    assert(setup_in_order(a, setup) <==> setup.wf(gates, n + 1));
    if gates.len() > 1 {
        lemma_used(gates, gates.len());
    }
    let q = a.queries;
    let widths = crate::circuit::widths(setup.gate_setup_monomials@);
    if gates.len() > 0 {
        assert(queries_in_order(a, setup) <==> q.wf(
            gates,
            a.witness_values@.len(),
            widths,
            setup.gate_selectors_monomials@.len(),
        )) by {
            if queries_in_order(a, setup) {
                assert forall|g: int| 0 <= g < q.gate_setup_polys@.len() implies all_below(
                    (#[trigger] q.gate_setup_polys@[g])@,
                    widths[g],
                ) by {
                    assert(each_below(
                        q.gate_setup_polys@[g]@,
                        setup.gate_setup_monomials@[g]@.len(),
                    ));
                }
            } else if q.wf(
                gates,
                a.witness_values@.len(),
                widths,
                setup.gate_selectors_monomials@.len(),
            ) {
                assert forall|g: int| 0 <= g < q.gate_setup_polys@.len() implies each_below(
                    (#[trigger] q.gate_setup_polys@[g])@,
                    setup.gate_setup_monomials@[g]@.len(),
                ) by {
                    assert(all_below(q.gate_setup_polys@[g]@, widths[g]));
                }
            }
        }
    }
    assert(lookup_in_order(a, setup) <==> (a.lookup matches Some(l) ==> if a.produce_setup {
        l.wf(n)
    } else {
        l.sorted_wf(n) && setup.has_lookup(n + 1)
    }));
}

proof fn lemma_lists_agree<F: PrimeField>()
    ensures
        forall|list: Seq<Vec<F>>, n: int| #[trigger] each_has(list, n) == all_len(list, n),
        forall|ids: Seq<usize>, bound: nat| #[trigger]
            each_below(ids, bound) == all_below(ids, bound),
{
}

proof fn lemma_circuit_in_order<F: PrimeField>(a: Assembly<F>)
    ensures
        circuit_in_order(a) <==> {
            let size = a.n + 1;
            &&& a.produce_witness
            &&& a.is_finalized
            &&& exists|k: nat| size == #[trigger] pow2(k)
            &&& 8 * size <= usize::MAX
            &&& size > pow2(F::spec_two_adicity()) || 4 * size <= pow2(F::spec_two_adicity())
            &&& a.input_assingments@.len() <= size
            &&& 2 < a.max_constraint_degree <= 4
            &&& crate::quotient::supported(a.sorted_gates@)
            &&& a.sorted_gates@[0].benefits_from_linearization
            &&& forall|g: int|
                0 <= g < a.sorted_gates@.len() ==> (#[trigger] a.sorted_gates@[g]).degree <= 4
            &&& crate::gates::terms_before(a.sorted_gates@, a.sorted_gates@.len()) + 4
                <= usize::MAX
            &&& a.num_multitables == 0
            &&& a.state_values@.len() == 4
            &&& all_len(a.state_values@, a.n as int)
            &&& all_len(a.witness_values@, a.n as int)
            &&& a.produce_setup ==> a.permutations@.len() == 4 && all_len(a.permutations@, size)
            &&& a.non_residues@.len() == 3
        },
{
    lemma_lists_agree::<F>();
    let gates = a.sorted_gates@;
    if gates.len() > 0 {
        let first = gates[0];
    }
}

} // verus!
