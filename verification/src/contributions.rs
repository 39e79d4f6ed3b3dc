//! What the known gates answer to the linearization.

use crate::circuit::SortedGateQueries;
use crate::domain::{evaluate_lagrange_poly_at_point, lagrange_at, lagrange_defined, Domain};
use crate::errors::SynthesisError;
use crate::field::{red, vals, Num, PrimeField};
use crate::gates::{bit_gate, terms_before, Gate};
use crate::linearization::{
    opened, wire_value, wire_values, wires_opened, GateContribution, GateContributions, Openings,
    ProverPolynomials,
};
use crate::polynomial::{
    add_assign_scaled, all_len, columns, eval, lemma_represents_zeros, represents, zeros,
};
use crate::quotient::{lemma_terms_monotonic, supported};
use vstd::arithmetic::power::*;
use vstd::prelude::*;

verus! {

/// The scaled polynomials that the equation of the main gate is the sum of, once
/// the wires are opened, for the setup polynomials of `A`, `B`, `C`, `D`, the
/// product, the constant and `D` of the next row.
pub open spec fn main_linear_terms(
    wires: Seq<int>,
    d_next: int,
    setup: Seq<Seq<int>>,
    challenge: int,
) -> Seq<(int, Seq<int>)> {
    seq![
        (wires[0] * challenge, setup[0]),
        (wires[1] * challenge, setup[1]),
        (wires[2] * challenge, setup[2]),
        (wires[3] * challenge, setup[3]),
        (wires[0] * wires[1] * challenge, setup[4]),
        (challenge, setup[5]),
        (d_next * challenge, setup[6]),
    ]
}

/// The value at `z` of the polynomial that takes the first `k` public inputs in
/// the first `k` rows and is zero in the others.
pub open spec fn inputs_at<F: PrimeField>(
    inputs: Seq<F>,
    omega: int,
    n: nat,
    z: int,
    k: nat,
) -> int
    decreases k,
{
    if k == 0 {
        0
    } else {
        inputs_at(inputs, omega, n, z, (k - 1) as nat) + lagrange_at::<F>(
            red::<F>(pow(omega, (k - 1) as nat)),
            n,
            z,
        ) * inputs[k - 1].val()
    }
}

/// The Lagrange polynomials of the rows with public inputs have values at `z`.
pub open spec fn inputs_defined<F: PrimeField>(count: nat, omega: int, n: nat, z: int) -> bool {
    forall|i: int|
        0 <= i < count ==> #[trigger] lagrange_defined::<F>(
            red::<F>(pow(omega, i as nat)),
            n,
            z,
        )
}

/// What the known gates answer: the main gate its equation without the public
/// inputs as a polynomial, and the public inputs apart; every other gate the
/// value of the test for a bit.
pub open spec fn known_contributions<F: PrimeField>(
    c: GateContributions<F>,
    gates: Seq<Gate>,
    p: ProverPolynomials<F>,
    inputs: Seq<F>,
    alpha: int,
    domain: Domain<F>,
    z: int,
) -> bool {
    let omega = domain.generator.val();
    let n = domain.size as nat;
    let wires = opened(p.monomials.state@, seq![0usize, 1, 2, 3], z);
    &&& represents(
        c.main@,
        main_linear_terms(
            wires,
            red::<F>(eval(vals(p.monomials.state@[3]@), red::<F>(z * omega))),
            columns(p.monomials.gate_setup@[0]@),
            pow(alpha, 0),
        ),
        n as int,
    )
    &&& c.inputs_term.val() == red::<F>(
        inputs_at(inputs, omega, n, z, inputs.len()) * pow(alpha, 0),
    )
    &&& c.others@.len() == gates.len() - 1
    &&& forall|k: int|
        0 <= k < c.others@.len() ==> {
            &&& (#[trigger] c.others@[k]) matches GateContribution::Value(v)
            &&& v.val() == red::<F>(
                bit_gate(wires[0]) * pow(alpha, terms_before(gates, (k + 1) as nat)),
            )
        }
}

/// What the main gate adds to the equation for its public inputs. It fails
/// exactly if a Lagrange polynomial has no value at `z`.
pub fn add_inputs_into_quotient<F: PrimeField>(
    inputs: &Vec<F>,
    domain: &Domain<F>,
    z: &F,
    challenge: &F,
) -> (r: Result<F, SynthesisError>)
    ensures
        ({
            let omega = domain.generator.val();
            let n = domain.size as nat;
            match r {
                Ok(v) => {
                    &&& inputs_defined::<F>(inputs@.len(), omega, n, z.val())
                    &&& v.val() == red::<F>(
                        inputs_at(inputs@, omega, n, z.val(), inputs@.len()) * challenge.val(),
                    )
                },
                Err(e) => {
                    &&& e == SynthesisError::DivisionByZero
                    &&& !inputs_defined::<F>(inputs@.len(), omega, n, z.val())
                },
            }
        }),
{
    let ghost omega = domain.generator.val();
    let ghost n = domain.size as nat;
    let mut sum = Num::zero();
    let mut i: usize = 0;
    while i < inputs.len()
        invariant
            i <= inputs@.len(),
            omega == domain.generator.val(),
            n == domain.size as nat,
            inputs_defined::<F>(i as nat, omega, n, z.val()),
            sum.expr() == inputs_at(inputs@, omega, n, z.val(), i as nat),
        decreases inputs@.len() - i,
    {
        let lagrange = match evaluate_lagrange_poly_at_point(i as u64, domain, z) {
            Ok(v) => v,
            Err(e) => {
                proof {
                    let j = i as int;
                    assert(!lagrange_defined::<F>(red::<F>(pow(omega, j as nat)), n, z.val()));
                }
                return Err(e);
            },
        };
        sum = sum.plus(&Num::of(&lagrange).times(&Num::of(&inputs[i])));
        i += 1;
    }
    Ok(sum.times(&Num::of(challenge)).value())
}

/// The answers of the known gates. It fails exactly if a wire, or `D` of the next
/// row, was not opened, or if the Lagrange polynomial of a row with a public
/// input has no value at `z`.
pub fn contribute_into_linearization<F: PrimeField>(
    gates: &Vec<Gate>,
    p: &ProverPolynomials<F>,
    queries: &SortedGateQueries,
    o: &Openings<F>,
    inputs: &Vec<F>,
    alpha: &F,
    domain: &Domain<F>,
    z: &F,
) -> (r: Result<GateContributions<F>, SynthesisError>)
    requires
        supported(gates@),
        terms_before(gates@, gates@.len()) <= usize::MAX,
        forall|k: int|
            0 < k < gates@.len() ==> !(#[trigger] gates@[k]).benefits_from_linearization,
        domain.size <= usize::MAX,
        p.wf(gates@, domain.size as int),
        o.opens(*p, *queries, z.val(), domain.generator.val(), domain.size as nat),
    ensures
        ({
            let all_opened = wires_opened(*queries) && queries.state_polys.at_z_omega@.contains(3);
            let defined = inputs_defined::<F>(
                inputs@.len(),
                domain.generator.val(),
                domain.size as nat,
                z.val(),
            );
            match r {
                Ok(c) => {
                    &&& all_opened
                    &&& defined
                    &&& c.wf(gates@, domain.size as int)
                    &&& known_contributions(
                        c,
                        gates@,
                        *p,
                        inputs@,
                        alpha.val(),
                        *domain,
                        z.val(),
                    )
                },
                Err(SynthesisError::AssignmentMissing) => !all_opened,
                Err(SynthesisError::DivisionByZero) => all_opened && !defined,
                Err(_) => false,
            }
        }),
{
    let n = domain.size as usize;
    let ghost z_omega = red::<F>(z.val() * domain.generator.val());
    let wires = match wire_values(
        queries,
        &o.state_at_z,
        Ghost(p.monomials.state@),
        Ghost(z.val()),
    ) {
        Ok(w) => w,
        Err(e) => {
            return Err(e);
        },
    };
    let d_next = match wire_value(
        &queries.state_polys.at_z_omega,
        &o.state_at_z_omega,
        3,
        Ghost(p.monomials.state@),
        Ghost(z_omega),
    ) {
        Some(v) => v,
        None => {
            return Err(SynthesisError::AssignmentMissing);
        },
    };
    let a = Num::of(alpha);
    let challenge = a.power(0);
    let ghost w = vals(wires@);
    let setup = &p.monomials.gate_setup[0];
    let ghost q = columns(setup@);
    assert(all_len(setup@, n as int));
    let (x0, x1, x2, x3) = (
        Num::of(&wires[0]),
        Num::of(&wires[1]),
        Num::of(&wires[2]),
        Num::of(&wires[3]),
    );
    let mut main: Vec<F> = zeros(n);
    let ghost t = main_linear_terms(w, d_next.val(), q, challenge.expr());
    proof {
        lemma_represents_zeros(main@);
        assert(t.take(0) =~= Seq::empty());
        assert(t.take(0).push(t[0]) =~= t.take(1));
        assert(t.take(1).push(t[1]) =~= t.take(2));
        assert(t.take(2).push(t[2]) =~= t.take(3));
        assert(t.take(3).push(t[3]) =~= t.take(4));
        assert(t.take(4).push(t[4]) =~= t.take(5));
        assert(t.take(5).push(t[5]) =~= t.take(6));
        assert(t.take(6).push(t[6]) =~= t);
    }
    add_assign_scaled(&mut main, &setup[0], &x0.times(&challenge), Ghost(t.take(0)));
    add_assign_scaled(&mut main, &setup[1], &x1.times(&challenge), Ghost(t.take(1)));
    add_assign_scaled(&mut main, &setup[2], &x2.times(&challenge), Ghost(t.take(2)));
    add_assign_scaled(&mut main, &setup[3], &x3.times(&challenge), Ghost(t.take(3)));
    add_assign_scaled(&mut main, &setup[4], &x0.times(&x1).times(&challenge), Ghost(t.take(4)));
    add_assign_scaled(&mut main, &setup[5], &challenge, Ghost(t.take(5)));
    add_assign_scaled(
        &mut main,
        &setup[6],
        &Num::of(&d_next).times(&challenge),
        Ghost(t.take(6)),
    );
    let one = F::one();
    let inputs_term = match add_inputs_into_quotient(inputs, domain, z, &one) {
        Ok(v) => v,
        Err(e) => {
            return Err(e);
        },
    };
    proof {
        lemma_pow0(alpha.val());
    }
    let mut others: Vec<GateContribution<F>> = Vec::new();
    let mut start: usize = gates[0].num_quotient_terms;
    let test = x0.minus(&Num::one()).times(&x0);
    let mut k: usize = 1;
    proof {
        lemma_terms_monotonic(gates@, 1, gates@.len());
        assert(terms_before(gates@, 1) == terms_before(gates@, 0) + start as nat);
    }
    while k < gates.len()
        invariant
            1 <= k <= gates@.len(),
            others@.len() == k - 1,
            start == terms_before(gates@, k as nat),
            terms_before(gates@, gates@.len()) <= usize::MAX,
            a.expr() == alpha.val(),
            test.expr() == bit_gate(w[0]),
            forall|j: int|
                0 <= j < others@.len() ==> {
                    &&& (#[trigger] others@[j]) matches GateContribution::Value(v)
                    &&& v.val() == red::<F>(
                        bit_gate(w[0]) * pow(
                            alpha.val(),
                            terms_before(gates@, (j + 1) as nat),
                        ),
                    )
                },
        decreases gates@.len() - k,
    {
        proof {
            lemma_terms_monotonic(gates@, (k + 1) as nat, gates@.len());
        }
        others.push(GateContribution::Value(test.times(&a.power(start as u64)).value()));
        start += gates[k].num_quotient_terms;
        k += 1;
    }
    Ok(GateContributions { main, inputs_term, others })
}

} // verus!
