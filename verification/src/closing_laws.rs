//! The quotient, the linearization polynomial and the equation of a run, written
//! out in terms of the answers, the challenges and the proof.

use crate::bits::{lemma_reversed_bound, lemma_reversed_involutive, reversed, shifted_index};
use crate::circuit::same_polys;
use crate::closing_rounds::weights_of;
use crate::contributions::{known_contributions, main_linear_terms};
use crate::domain::{lagrange_at, Domain};
use crate::errors::SynthesisError;
use crate::field::{lemma_red_add, lemma_red_mul, lemma_red_range, red, vals, PrimeField};
use crate::gates::{terms_before, Gate};
use crate::laws::{law_quotient_from_parts, lemma_combine_eval_concat};
use crate::linearization::{
    at_z, copy_linear_terms, gate_linear_terms, lookup_linear_terms, opened, GateContribution,
    GateContributions,
};
use crate::permutation::{coset_row, perm_product};
use crate::polynomial::{columns, combine_eval, eval, lemma_represents_eval, represents};
use crate::product_laws::law_weights_of_run;
use crate::proof_laws::{joined, lemma_joined};
use crate::quotient::{
    coset_lde_row, coset_point, divide_by_vanishing, fits_degree, is_numerator_quotient,
    is_quotient, numerator_on_coset, parts_of, quotient_parts, supported, Challenges, Ldes,
    LookupRow, Row,
};
use crate::refusal::{constraints, law_numerator_in_alpha, lemma_four_factors};
use crate::run::Run;
use vstd::arithmetic::power::*;
use vstd::arithmetic::power2::*;
use vstd::prelude::*;

verus! {

proof fn lemma_divided<F: PrimeField, G: Copy>(run: Run<F, G>) -> (c: Seq<F>)
    requires
        run.completes(),
    ensures
        run.requested.is_quotient(c, run.ldes),
        fits_degree(c),
        parts_of(run.ready.polynomials.quotient_parts@, c, run.size() as int),
        run.ready.polynomials.quotient_parts@.len() == 4,
        run.requested.session.job == run.started.job,
        run.started.job.gates == run.assembly.sorted_gates,
        supported(run.assembly.sorted_gates@),
        run.started.job.domain.size == run.size(),
        run.started.job.big.size == 4 * run.size(),
        run.started.job.big.wf(),
        run.requested.wf(),
{
    reveal(Run::completes);
    choose|c: Seq<F>|
        {
            &&& #[trigger] run.requested.is_quotient(c, run.ldes)
            &&& fits_degree(c)
            &&& parts_of(run.ready.polynomials.quotient_parts@, c, run.size() as int)
        }
}

/// The values at position `i` of the columns, and at position `next` of those that
/// are read one row on.
pub open spec fn values_at<F: PrimeField>(v: Ldes<F>, i: int, next: int, x: int) -> Row {
    Row {
        x,
        constant: v.inputs_and_constants@[i].val(),
        wires: seq![
            v.wires@[0]@[i].val(),
            v.wires@[1]@[i].val(),
            v.wires@[2]@[i].val(),
            v.wires@[3]@[i].val(),
        ],
        d_next: v.wires@[3]@[next].val(),
        setup: seq![
            v.setup@[0]@[i].val(),
            v.setup@[1]@[i].val(),
            v.setup@[2]@[i].val(),
            v.setup@[3]@[i].val(),
            v.setup@[4]@[i].val(),
            v.setup@[5]@[i].val(),
        ],
        selectors: Seq::new(v.selectors@.len(), |k: int| v.selectors@[k]@[i].val()),
        z: v.copy_z@[i].val(),
        z_next: v.copy_z@[next].val(),
        permutations: seq![
            v.permutations@[0]@[i].val(),
            v.permutations@[1]@[i].val(),
            v.permutations@[2]@[i].val(),
            v.permutations@[3]@[i].val(),
        ],
        l_0: v.l_0@[i].val(),
        lookup: match v.lookup {
            Some(l) => Some(
                LookupRow {
                    z: l.z@[i].val(),
                    z_next: l.z@[next].val(),
                    s: l.s@[i].val(),
                    s_next: l.s@[next].val(),
                    t: l.t@[i].val(),
                    t_next: l.t@[next].val(),
                    table_type: l.table_type@[i].val(),
                    selector: l.selector@[i].val(),
                    l_last: l.l_last@[i].val(),
                },
            ),
            None => None,
        },
    }
}

proof fn lemma_values_at<F: PrimeField>(
    v: Ldes<F>,
    gates: Seq<Gate>,
    m: int,
    i: int,
    next: int,
    x: int,
)
    requires
        v.wf(gates, m),
        0 <= i < m,
    ensures
        v.row(i, next, x) == values_at(v, i, next, x),
{
    let row = v.row(i, next, x);
    assert(v.wires@[0]@.len() == m);
    assert(v.wires@[1]@.len() == m);
    assert(v.wires@[2]@.len() == m);
    assert(v.wires@[3]@.len() == m);
    assert(row.wires =~= seq![
        v.wires@[0]@[i].val(),
        v.wires@[1]@[i].val(),
        v.wires@[2]@[i].val(),
        v.wires@[3]@[i].val(),
    ]);
    assert forall|k: int| 0 <= k < 6 implies #[trigger] row.setup[k] == v.setup@[k]@[i].val() by {
        assert(v.setup@[k]@.len() == m);
    }
    assert(row.setup =~= seq![
        v.setup@[0]@[i].val(),
        v.setup@[1]@[i].val(),
        v.setup@[2]@[i].val(),
        v.setup@[3]@[i].val(),
        v.setup@[4]@[i].val(),
        v.setup@[5]@[i].val(),
    ]);
    assert forall|k: int| 0 <= k < 4 implies #[trigger] row.permutations[k]
        == v.permutations@[k]@[i].val() by {
        assert(v.permutations@[k]@.len() == m);
    }
    assert(row.permutations =~= seq![
        v.permutations@[0]@[i].val(),
        v.permutations@[1]@[i].val(),
        v.permutations@[2]@[i].val(),
        v.permutations@[3]@[i].val(),
    ]);
    assert forall|k: int| 0 <= k < v.selectors@.len() implies #[trigger] row.selectors[k]
        == v.selectors@[k]@[i].val() by {
        assert(v.selectors@[k]@.len() == m);
    }
    assert(row.selectors =~= Seq::new(
        v.selectors@.len(),
        |k: int| v.selectors@[k]@[i].val(),
    ));
}

/// At every point of the coset, in the natural order, the quotient that its parts
/// make, times `x^n - 1`, is what the constraints of the row there add up to with the
/// powers of alpha. The values stand in reversed order; four points on is the next
/// row.
pub proof fn law_quotient_of_run<F: PrimeField, G: Copy>(run: Run<F, G>, e: nat)
    requires
        run.completes(),
        run.ldes.wf(run.assembly.sorted_gates@, 4 * run.size() as int),
        e < 4 * run.size(),
    ensures
        ({
            let big = run.started.job.big;
            let bits = big.power_of_two as nat;
            let x = F::spec_generator() * pow(big.generator.val(), e);
            let i = reversed(e, bits) as int;
            let next = reversed((e + 4) % (4 * run.size()), bits) as int;
            let row = values_at(run.ldes, i, next, red::<F>(x));
            let w = weights_of(run.requested.session, run.requested.challenges);
            red::<F>(
                joined(run.ready.polynomials.quotient_parts@, x, run.size(), x) * (pow(
                    x,
                    run.size(),
                ) - 1),
            ) == red::<F>(
                eval(constraints::<F>(run.assembly.sorted_gates@, row, w), run.alpha.val()),
            )
        }),
{
    let c = lemma_divided(run);
    let job = run.started.job;
    let bits = job.big.power_of_two as nat;
    let big_omega = job.big.generator.val();
    let n = run.size();
    let x = coset_point::<F>(big_omega, e);
    let i = reversed(e, bits) as int;
    let v = run.ldes;
    let parts = run.ready.polynomials.quotient_parts@;
    let w = weights_of(run.requested.session, run.requested.challenges);
    let gates = run.assembly.sorted_gates@;
    lemma_reversed_bound(e, bits);
    lemma_reversed_involutive(e, bits);
    law_quotient_from_parts(parts, c, n, x);
    lemma_joined(parts, x, n, x);
    let row = coset_lde_row(v, i, 4, big_omega, bits);
    let index = e as int;
    assert(is_numerator_quotient(c, gates, v, w, job.domain, job.big, 4));
    assert(reversed(index as nat, bits) as int == i);
    law_numerator_in_alpha::<F>(gates, row, w);
    law_weights_of_run(run);
    assert(shifted_index(i as nat, 4, bits) == reversed((e + 4) % (4 * n), bits));
    lemma_values_at(v, gates, 4 * n as int, i, shifted_index(i as nat, 4, bits), red::<F>(x));
}

/// On every position of the coset stands, in reversed order, what the constraints of
/// the row there add up to with the powers of alpha; the next row is `factor` points
/// of the natural order on.
pub proof fn law_numerator_on_coset<F: PrimeField>(
    gates: Vec<Gate>,
    ldes: Ldes<F>,
    challenges: Challenges<F>,
    non_residues: Vec<F>,
    domain: Domain<F>,
    big: Domain<F>,
    factor: usize,
    r: Vec<F>,
    e: nat,
)
    requires
        supported(gates@),
        big.wf(),
        ldes.wf(gates@, big.size as int),
        e < big.size,
        call_ensures(
            numerator_on_coset::<F>,
            (&gates, &ldes, &challenges, &non_residues, &domain, &big, factor),
            r,
        ),
    ensures
        ({
            let bits = big.power_of_two as nat;
            let x = F::spec_generator() * pow(big.generator.val(), e);
            let i = reversed(e, bits) as int;
            let next = reversed((e + factor as nat) % (big.size as nat), bits) as int;
            let row = values_at(ldes, i, next, red::<F>(x));
            let w = challenges.weights(
                non_residues@,
                domain.generator.val(),
                domain.size as nat,
            );
            &&& r@.len() == big.size
            &&& r@[i].val() == red::<F>(
                eval(constraints::<F>(gates@, row, w), challenges.alpha.val()),
            )
        }),
{
    let bits = big.power_of_two as nat;
    let big_omega = big.generator.val();
    let x = coset_point::<F>(big_omega, e);
    let i = reversed(e, bits) as int;
    let w = challenges.weights(non_residues@, domain.generator.val(), domain.size as nat);
    lemma_reversed_bound(e, bits);
    lemma_reversed_involutive(e, bits);
    let row = coset_lde_row(ldes, i, factor as nat, big_omega, bits);
    assert(r@[i].val() == red::<F>(crate::quotient::numerator::<F>(gates@, row, w)));
    law_numerator_in_alpha::<F>(gates@, row, w);
    lemma_values_at(
        ldes,
        gates@,
        big.size as int,
        i,
        shifted_index(i as nat, factor as nat, bits),
        red::<F>(x),
    );
}

/// A polynomial that is given on the coset in reversed order is the quotient that the
/// four parts make, times `x^n - 1`.
pub proof fn law_divided_by_vanishing<F: PrimeField>(
    t: Vec<F>,
    domain: Domain<F>,
    big: Domain<F>,
    parts: Vec<Vec<F>>,
    e: nat,
)
    requires
        big.wf(),
        t@.len() == big.size,
        e < big.size,
        call_ensures(
            divide_by_vanishing::<F>,
            (&t, &domain, &big, 4usize),
            Ok::<Vec<Vec<F>>, SynthesisError>(parts),
        ),
    ensures
        ({
            let x = F::spec_generator() * pow(big.generator.val(), e);
            let n = domain.size as nat;
            &&& parts@.len() == 4
            &&& red::<F>(joined(parts@, x, n, x) * (pow(x, n) - 1)) == t@[reversed(
                e,
                big.power_of_two as nat,
            ) as int].val()
        }),
{
    let n = domain.size as nat;
    let bits = big.power_of_two as nat;
    let w = big.generator.val();
    let x = coset_point::<F>(w, e);
    let c = choose|c: Seq<F>| #[trigger]
        is_quotient(c, t@, n, w, bits) && fits_degree(c) && parts_of(parts@, c, n as int);
    law_quotient_from_parts(parts@, c, n, x);
    lemma_joined(parts@, x, n, x);
    let index = e as int;
    assert(reversed(index as nat, bits) == reversed(e, bits));
}

/// The parts of the quotient, however many, are those of a polynomial that, times
/// `x^n - 1`, is at every point of the coset what the constraints of the row there add
/// up to; the next row is `factor` points of the natural order on.
pub proof fn law_quotient_parts<F: PrimeField>(
    gates: Vec<Gate>,
    ldes: Ldes<F>,
    challenges: Challenges<F>,
    non_residues: Vec<F>,
    domain: Domain<F>,
    big: Domain<F>,
    factor: usize,
    parts: Vec<Vec<F>>,
    e: nat,
) -> (c: Seq<F>)
    requires
        supported(gates@),
        big.wf(),
        ldes.wf(gates@, big.size as int),
        e < big.size,
        call_ensures(
            quotient_parts::<F>,
            (&gates, &ldes, &challenges, &non_residues, &domain, &big, factor),
            Ok::<Vec<Vec<F>>, SynthesisError>(parts),
        ),
    ensures
        ({
            let bits = big.power_of_two as nat;
            let x = F::spec_generator() * pow(big.generator.val(), e);
            let n = domain.size as nat;
            let i = reversed(e, bits) as int;
            let next = reversed((e + factor as nat) % (big.size as nat), bits) as int;
            let row = values_at(ldes, i, next, red::<F>(x));
            let w = challenges.weights(non_residues@, domain.generator.val(), n);
            &&& parts@.len() == factor
            &&& parts_of(parts@, c, n as int)
            &&& red::<F>(eval(vals(c), x) * (pow(x, n) - 1)) == red::<F>(
                eval(constraints::<F>(gates@, row, w), challenges.alpha.val()),
            )
        }),
{
    let bits = big.power_of_two as nat;
    let big_omega = big.generator.val();
    let n = domain.size as nat;
    let x = coset_point::<F>(big_omega, e);
    let i = reversed(e, bits) as int;
    let w = challenges.weights(non_residues@, domain.generator.val(), n);
    let c = choose|c: Seq<F>|
        {
            &&& #[trigger] is_numerator_quotient(
                c,
                gates@,
                ldes,
                w,
                domain,
                big,
                factor as nat,
            )
            &&& fits_degree(c)
            &&& parts_of(parts@, c, n as int)
        };
    lemma_reversed_bound(e, bits);
    lemma_reversed_involutive(e, bits);
    let row = coset_lde_row(ldes, i, factor as nat, big_omega, bits);
    let index = e as int;
    assert(reversed(index as nat, bits) as int == i);
    law_numerator_in_alpha::<F>(gates@, row, w);
    lemma_values_at(
        ldes,
        gates@,
        big.size as int,
        i,
        shifted_index(i as nat, factor as nat, bits),
        red::<F>(x),
    );
    c
}

proof fn lemma_three_factors(wires: Seq<int>, points: Seq<int>, beta: int, gamma: int)
    requires
        wires.len() == 3,
        points.len() == 3,
    ensures
        perm_product(wires, points, beta, gamma) == (wires[0] + gamma + beta * points[0])
            * (wires[1]
            + gamma + beta * points[1]) * (wires[2] + gamma + beta * points[2]),
{
    reveal_with_fuel(perm_product, 4);
    let (w, p) = (wires, points);
    assert(w.drop_last().drop_last().drop_last() =~= Seq::<int>::empty());
    let f0 = w[0] + gamma + beta * p[0];
    assert(1 * f0 == f0);
}

proof fn lemma_tested<F: PrimeField, G: Copy>(run: Run<F, G>)
    requires
        run.completes(),
    ensures
        run.opened.wf(),
        run.opened.satisfied(run.contributions, run.proof.linearization_poly_opening_at_z),
        represents(
            run.linearized.linearization@,
            run.opened.terms(run.contributions),
            run.size() as int,
        ),
        run.proof.carries(run.combined.session),
        run.combined.session.openings == run.opened.session.openings,
        run.combined.session.job == run.started.job,
        run.opened.session.job == run.started.job,
        run.opened.challenges == run.requested.challenges,
        run.started.job.n == run.assembly.n,
        run.started.job.gates == run.assembly.sorted_gates,
        run.started.job.domain.size == run.size(),
        run.opened.z == run.z,
        run.opened.polynomials.monomials.state == run.state,
        run.opened.polynomials.copy_z == run.polynomial.copy_z,
        run.assembly.sorted_gates@.len() > 0,
        run.lookup is Some <==> run.opened.polynomials.lookup is Some,
        run.lookup matches Some(l) ==> run.opened.polynomials.lookup == Some(
            l.polynomial.lookup,
        ),
        run.lookup is Some <==> run.opened.session.openings->0.lookup is Some,
{
    reveal(Run::completes);
}

/// The equation that the openings of a proof meet: the opening of the quotient
/// times `z^n - 1` is the opening of the linearization polynomial with what the
/// polynomial leaves out. These are the public inputs, under the selector of the main
/// gate where there are several; what the copy-permutation argument takes for the
/// openings of its grand product and of the first three permutation polynomials; and
/// what the lookup argument adds for those of its grand product and of the sorted
/// column.
pub proof fn law_equation_of_run<F: PrimeField, G: Copy>(run: Run<F, G>)
    requires
        run.completes(),
    ensures
        ({
            let made = run.proof;
            let gates = run.assembly.sorted_gates@;
            let (z, alpha) = (run.z.val(), run.alpha.val());
            let (beta, gamma) = (run.beta.val(), run.gamma.val());
            let (size, n) = (run.size(), run.assembly.n as nat);
            let total = terms_before(gates, gates.len());
            let a = red::<F>(eval(vals(run.state@[0]@), z));
            let b = red::<F>(eval(vals(run.state@[1]@), z));
            let c = red::<F>(eval(vals(run.state@[2]@), z));
            let d = red::<F>(eval(vals(run.state@[3]@), z));
            let s = made.copy_permutation_polys_openings_at_z@;
            let l_0 = lagrange_at::<F>(1, size, z);
            let l_n = lagrange_at::<F>(red::<F>(pow(run.omega(), n)), size, z);
            let inputs = run.contributions.inputs_term.val() * if gates.len() > 1 {
                made.gate_selectors_openings_at_z@[0].1.val()
            } else {
                1
            };
            let copies = pow(alpha, total)
                * made.copy_permutation_grand_product_opening_at_z_omega.val() * ((a + gamma + beta
                * s[0].val()) * (b + gamma + beta * s[1].val()) * (c + gamma + beta
                    * s[2].val())) * (
            d + gamma) + l_0 * pow(alpha, total + 1);
            let lookups = match run.lookup {
                Some(l) => {
                    let (u, v) = (l.beta.val(), l.gamma.val());
                    (made.lookup_s_poly_opening_at_z_omega->0.val() * u + v * (u + 1))
                        * made.lookup_grand_product_opening_at_z_omega->0.val() * pow(
                        alpha,
                        total + 2,
                    ) * (z - pow(run.omega(), n)) - l_0 * pow(alpha, total + 3) - l_n * pow(
                        v * (u + 1),
                        n,
                    ) * pow(alpha, total + 4)
                },
                None => 0,
            };
            red::<F>(made.quotient_poly_opening_at_z.val() * (pow(z, size) - 1)) == red::<F>(
                made.linearization_poly_opening_at_z.val() + inputs - copies + lookups,
            )
        }),
{
    lemma_tested(run);
    law_weights_of_run(run);
    let o = run.opened.session.openings->0;
    let p = run.opened.polynomials;
    let job = run.started.job;
    let z = run.z.val();
    let v = at_z(p, o, job.domain, z);
    let w = weights_of(run.opened.session, run.opened.challenges);
    assert(vals(o.permutations_at_z@) == opened(p.monomials.permutations@, seq![0usize, 1, 2], z));
    assert(v.permutations.len() == 3);
    lemma_three_factors(v.wires.take(3), v.permutations, w.beta, w.gamma);
    let i = run.contributions.inputs_term.val();
    assert(i * 1 == i);
    if run.assembly.sorted_gates@.len() > 1 {
        let q = job.queries.gate_selectors@;
        assert(vals(o.selectors_at_z@) == opened(p.monomials.gate_selectors@, q, z));
        assert(vals(o.selectors_at_z@).len() == q.len());
        crate::linearization::lemma_selectors_monotonic(
            job.gates@,
            1,
            job.gates@.len(),
        );
        assert(run.proof.gate_selectors_openings_at_z@[0].1 == o.selectors_at_z@[0]);
    }
}

/// What the gates that test for a bit add to the linearization polynomial at `x`,
/// up to gate `k`.
pub open spec fn bit_parts<F: PrimeField>(
    gates: Seq<Gate>,
    selectors: Seq<Vec<F>>,
    a: int,
    alpha: int,
    x: int,
    k: nat,
) -> int
    decreases k,
{
    if k <= 1 {
        0
    } else {
        bit_parts(gates, selectors, a, alpha, x, (k - 1) as nat) + (a * a - a) * pow(
            alpha,
            terms_before(gates, (k - 1) as nat),
        ) * eval(vals(selectors[k - 1]@), x)
    }
}

proof fn lemma_gate_parts<F: PrimeField>(
    gates: Seq<Gate>,
    c: GateContributions<F>,
    opened_selectors: Seq<int>,
    selectors: Seq<Vec<F>>,
    a: int,
    alpha: int,
    x: int,
    k: nat,
)
    requires
        1 <= k <= gates.len(),
        c.others@.len() == gates.len() - 1,
        forall|j: int|
            0 <= j < c.others@.len() ==> {
                &&& (#[trigger] c.others@[j]) matches GateContribution::Value(v)
                &&& v.val() == red::<F>(
                    crate::gates::bit_gate(a) * pow(alpha, terms_before(gates, (j + 1) as nat)),
                )
            },
    ensures
        red::<F>(combine_eval(gate_linear_terms(gates, c, opened_selectors, selectors, k), x))
            == red::<F>(
            (if gates.len() > 1 {
                opened_selectors[0]
            } else {
                1
            }) * eval(vals(c.main@), x) + bit_parts(gates, selectors, a, alpha, x, k),
        ),
    decreases k,
{
    let terms = gate_linear_terms(gates, c, opened_selectors, selectors, k);
    if k == 1 {
        assert(terms.drop_last() =~= Seq::empty());
        assert(combine_eval(terms.drop_last(), x) == 0);
    } else {
        let before = gate_linear_terms(gates, c, opened_selectors, selectors, (k - 1) as nat);
        lemma_gate_parts(gates, c, opened_selectors, selectors, a, alpha, x, (k - 1) as nat);
        assert(terms.drop_last() =~= before);
        let j = k - 2;
        assert(c.others@[j] is Value);
        let y = c.others@[j]->Value_0;
        let s = eval(vals(selectors[k - 1]@), x);
        let b = (a * a - a) * pow(alpha, terms_before(gates, (k - 1) as nat));
        assert((a - 1) * a == a * a - a) by (nonlinear_arith);
        assert(terms.last() == (y.val(), vals(selectors[k - 1]@)));
        lemma_red_range::<F>(b);
        lemma_red_mul::<F>(y.val(), s, b, s);
        let rest = (if gates.len() > 1 {
            opened_selectors[0]
        } else {
            1
        }) * eval(vals(c.main@), x) + bit_parts(gates, selectors, a, alpha, x, (k - 1) as nat);
        lemma_red_add::<F>(combine_eval(before, x), y.val() * s, rest, b * s);
    }
}

proof fn lemma_main_parts(t: Seq<(int, Seq<int>)>, w: Seq<int>, dn: int, q: Seq<Seq<int>>, x: int)
    requires
        t == main_linear_terms(w, dn, q, 1),
    ensures
        combine_eval(t, x) == w[0] * eval(q[0], x) + w[1] * eval(q[1], x) + w[2] * eval(q[2], x)
            + w[3] * eval(q[3], x) + w[0] * w[1] * eval(q[4], x) + eval(q[5], x) + dn * eval(
            q[6],
            x,
        ),
{
    reveal_with_fuel(combine_eval, 8);
    assert(t.drop_last().len() == 6);
    assert(w[0] * 1 == w[0] && w[1] * 1 == w[1] && w[2] * 1 == w[2] && w[3] * 1 == w[3]);
    assert(w[0] * w[1] * 1 == w[0] * w[1] && dn * 1 == dn);
    assert(combine_eval(t, x) == w[0] * eval(q[0], x) + w[1] * eval(q[1], x) + w[2] * eval(q[2], x)
        + w[3] * eval(q[3], x) + (w[0] * w[1]) * eval(q[4], x) + 1 * eval(q[5], x) + dn * eval(
        q[6],
        x,
    ));
}

proof fn lemma_setup_of<F: PrimeField, G: Copy>(run: Run<F, G>)
    requires
        run.completes(),
    ensures
        run.assembly.ready(&run.setup),
        same_polys(
            run.opened.polynomials.monomials.gate_setup@[0]@,
            run.setup.gate_setup_monomials@[0]@,
        ),
        same_polys(
            run.opened.polynomials.monomials.permutations@,
            run.setup.permutation_monomials@,
        ),
        run.assembly.sorted_gates@.len() > 1 ==> same_polys(
            run.opened.polynomials.monomials.gate_selectors@,
            run.setup.gate_selectors_monomials@,
        ),
        run.started.job.inputs == run.assembly.input_assingments,
        run.opened.challenges.alpha == run.alpha,
{
    reveal(Run::completes);
}

proof fn lemma_same_bit_parts<F: PrimeField>(
    gates: Seq<Gate>,
    s: Seq<Vec<F>>,
    t: Seq<Vec<F>>,
    a: int,
    alpha: int,
    x: int,
    k: nat,
)
    requires
        k > 1 ==> same_polys(s, t) && k <= s.len(),
    ensures
        bit_parts(gates, s, a, alpha, x, k) == bit_parts(gates, t, a, alpha, x, k),
    decreases k,
{
    if k > 1 {
        lemma_same_bit_parts(gates, s, t, a, alpha, x, (k - 1) as nat);
        assert(s[k - 1]@ == t[k - 1]@);
    }
}

/// What the gates add to the linearization polynomial at every `x`: the main gate,
/// under the opening of its selector where there are several, the setup polynomials by
/// the openings of the wires; each gate that tests for a bit its selector by `a * a -
/// a`, scaled by its power of alpha.
pub open spec fn gates_part<F: PrimeField, G: Copy>(run: Run<F, G>, x: int) -> int {
    let gates = run.assembly.sorted_gates@;
    let z = run.z.val();
    let a = red::<F>(eval(vals(run.state@[0]@), z));
    let b = red::<F>(eval(vals(run.state@[1]@), z));
    let c = red::<F>(eval(vals(run.state@[2]@), z));
    let d = red::<F>(eval(vals(run.state@[3]@), z));
    let d_next = red::<F>(eval(vals(run.state@[3]@), red::<F>(z * run.omega())));
    let q = run.setup.gate_setup_monomials@[0]@;
    let main = a * eval(vals(q[0]@), x) + b * eval(vals(q[1]@), x) + c * eval(vals(q[2]@), x) + d
        * eval(vals(q[3]@), x) + a * b * eval(vals(q[4]@), x) + eval(vals(q[5]@), x) + d_next
            * eval(
        vals(q[6]@),
        x,
    );
    (if gates.len() > 1 {
        run.proof.gate_selectors_openings_at_z@[0].1.val()
    } else {
        1
    }) * main + bit_parts(
        gates,
        run.setup.gate_selectors_monomials@,
        a,
        run.alpha.val(),
        x,
        gates.len(),
    )
}

/// What the copy-permutation argument adds to the linearization polynomial at every
/// `x`: its grand product and the last permutation polynomial, each by the openings
/// of the others.
pub open spec fn copy_part<F: PrimeField, G: Copy>(run: Run<F, G>, x: int) -> int {
    let gates = run.assembly.sorted_gates@;
    let (z, alpha) = (run.z.val(), run.alpha.val());
    let (beta, gamma) = (run.beta.val(), run.gamma.val());
    let total = terms_before(gates, gates.len());
    let a = red::<F>(eval(vals(run.state@[0]@), z));
    let b = red::<F>(eval(vals(run.state@[1]@), z));
    let c = red::<F>(eval(vals(run.state@[2]@), z));
    let d = red::<F>(eval(vals(run.state@[3]@), z));
    let k = run.assembly.non_residues@;
    let s = run.proof.copy_permutation_polys_openings_at_z@;
    let product = eval(vals(run.polynomial.copy_z@), x);
    pow(alpha, total) * ((a + gamma + beta * red::<F>(z * 1)) * (b + gamma + beta * red::<F>(
        z * k[0].val(),
    )) * (c + gamma + beta * red::<F>(z * k[1].val())) * (d + gamma + beta * red::<F>(
        z * k[2].val(),
    ))) * product - pow(alpha, total) * beta
        * run.proof.copy_permutation_grand_product_opening_at_z_omega.val() * ((a + gamma + beta
        * s[0].val()) * (b + gamma + beta * s[1].val()) * (c + gamma + beta * s[2].val())) * eval(
        vals(run.setup.permutation_monomials@[3]@),
        x,
    ) + lagrange_at::<F>(1, run.size(), z) * pow(alpha, total + 1) * product
}

/// What the lookup argument adds to the linearization polynomial at every `x`: the
/// sorted column and the grand product, each by the openings of the others.
pub open spec fn lookup_part<F: PrimeField, G: Copy>(run: Run<F, G>, x: int) -> int {
    let gates = run.assembly.sorted_gates@;
    let (z, alpha) = (run.z.val(), run.alpha.val());
    let total = terms_before(gates, gates.len());
    let n = run.assembly.n as nat;
    let a = red::<F>(eval(vals(run.state@[0]@), z));
    let b = red::<F>(eval(vals(run.state@[1]@), z));
    let c = red::<F>(eval(vals(run.state@[2]@), z));
    let o = run.proof;
    match run.lookup {
        Some(l) => {
            let (eta, u, v) = (l.eta.val(), l.beta.val(), l.gamma.val());
            let step = z - pow(run.omega(), n);
            let f = (a + eta * b + eta * eta * c + eta * eta * eta
                * o.lookup_table_type_poly_opening_at_z->0.val())
                * o.lookup_selector_poly_opening_at_z->0.val();
            let t = o.lookup_t_poly_opening_at_z->0.val() + u
                * o.lookup_t_poly_opening_at_z_omega->0.val() + v * (u + 1);
            o.lookup_grand_product_opening_at_z_omega->0.val() * pow(alpha, total + 2) * step
                * eval(vals(l.polynomial.lookup.s@), x) + ((0 - t * (f + v) * (u + 1)) * pow(
                alpha,
                total + 2,
            ) * step + lagrange_at::<F>(1, run.size(), z) * pow(alpha, total + 3)
                + lagrange_at::<F>(red::<F>(pow(run.omega(), n)), run.size(), z) * pow(
                alpha,
                total + 4,
            )) * eval(vals(l.polynomial.lookup.z@), x)
        },
        None => 0,
    }
}

/// With the known gates, the linearization polynomial of a run takes at every `x` the
/// sum of what the gates, the copy-permutation argument and the lookup argument add.
pub proof fn law_linearization_of_run<F: PrimeField, G: Copy>(run: Run<F, G>, x: int)
    requires
        run.completes(),
        run.known_gates(),
    ensures
        red::<F>(eval(vals(run.linearized.linearization@), x)) == red::<F>(
            gates_part(run, x) + copy_part(run, x) + lookup_part(run, x),
        ),
{
    lemma_arguments_part(run, x);
    lemma_gates_part(run, x);
    let o = run.opened.session.openings->0;
    let p = run.opened.polynomials;
    let gates = run.started.job.gates@;
    lemma_red_add::<F>(
        combine_eval(
            gate_linear_terms(
                gates,
                run.contributions,
                vals(o.selectors_at_z@),
                p.monomials.gate_selectors@,
                gates.len(),
            ),
            x,
        ),
        copy_part(run, x) + lookup_part(run, x),
        gates_part(run, x),
        copy_part(run, x) + lookup_part(run, x),
    );
}

/// How many of the gates before gate `k`, the main gate aside, are linearized.
pub open spec fn linearized_before(gates: Seq<Gate>, k: nat) -> nat
    decreases k,
{
    if k <= 1 {
        0
    } else {
        linearized_before(gates, (k - 1) as nat) + if gates[k - 1].benefits_from_linearization {
            1nat
        } else {
            0
        }
    }
}

/// What the gates but the main gate add to the linearization polynomial at `x`, up to
/// gate `k`: one that is linearized its polynomial, by the next opened selector after
/// that of the main gate; another its selector, by its value.
pub open spec fn other_parts<F: PrimeField>(
    gates: Seq<Gate>,
    c: GateContributions<F>,
    opened_selectors: Seq<(usize, F)>,
    selectors: Seq<Vec<F>>,
    x: int,
    k: nat,
) -> int
    decreases k,
{
    if k <= 1 {
        0
    } else {
        let before = other_parts(gates, c, opened_selectors, selectors, x, (k - 1) as nat);
        let at = 1int + linearized_before(gates, (k - 1) as nat);
        match c.others@[k - 2] {
            GateContribution::Linearization(p) => before + opened_selectors[at].1.val() * eval(
                vals(p@),
                x,
            ),
            GateContribution::Value(v) => before + v.val() * eval(vals(selectors[k - 1]@), x),
        }
    }
}

pub(crate) proof fn lemma_used(gates: Seq<Gate>, k: nat)
    requires
        gates.len() > 1,
        k >= 1,
    ensures
        crate::circuit::selectors_used(gates, k) == 1 + linearized_before(gates, k),
    decreases k,
{
    if k > 1 {
        lemma_used(gates, (k - 1) as nat);
    }
}

proof fn lemma_other_parts<F: PrimeField>(
    gates: Seq<Gate>,
    c: GateContributions<F>,
    values: Seq<F>,
    opened_selectors: Seq<(usize, F)>,
    ours: Seq<Vec<F>>,
    theirs: Seq<Vec<F>>,
    n: int,
    x: int,
    k: nat,
)
    requires
        1 <= k <= gates.len(),
        c.wf(gates, n),
        gates.len() > 1 ==> {
            &&& same_polys(ours, theirs)
            &&& ours.len() == gates.len()
            &&& values.len() == crate::circuit::selectors_used(gates, gates.len())
            &&& opened_selectors.len() == values.len()
        },
        forall|j: int| 0 <= j < values.len() ==> #[trigger] opened_selectors[j].1 == values[j],
    ensures
        combine_eval(gate_linear_terms(gates, c, vals(values), ours, k), x) == (if gates.len()
            > 1 {
            opened_selectors[0].1.val()
        } else {
            1
        }) * eval(vals(c.main@), x) + other_parts(gates, c, opened_selectors, theirs, x, k),
    decreases k,
{
    let terms = gate_linear_terms(gates, c, vals(values), ours, k);
    if gates.len() > 1 {
        crate::linearization::lemma_selectors_monotonic(gates, 1, gates.len());
        assert(opened_selectors[0].1 == values[0]);
    }
    if k == 1 {
        assert(terms.drop_last() =~= Seq::empty());
        assert(combine_eval(terms.drop_last(), x) == 0);
    } else {
        lemma_other_parts(
            gates,
            c,
            values,
            opened_selectors,
            ours,
            theirs,
            n,
            x,
            (k - 1) as nat,
        );
        assert(terms.drop_last() =~= gate_linear_terms(
            gates,
            c,
            vals(values),
            ours,
            (k - 1) as nat,
        ));
        lemma_used(gates, (k - 1) as nat);
        let j = k - 2;
        let answer = c.others@[j];
        match answer {
            GateContribution::Linearization(p) => {
                let at = 1int + linearized_before(gates, (k - 1) as nat);
                crate::linearization::lemma_selectors_monotonic(gates, k, gates.len());
                assert(gates[j + 1].benefits_from_linearization);
                assert(at < values.len());
                assert(opened_selectors[at].1 == values[at]);
                assert(terms.last() == (values[at].val(), vals(p@)));
            },
            GateContribution::Value(v) => {
                assert(ours[k - 1]@ == theirs[k - 1]@);
                assert(terms.last() == (v.val(), vals(ours[k - 1]@)));
            },
        }
    }
}

/// Whatever the gates answer, the linearization polynomial of a run takes at every `x`
/// the sum of their answers, of what the copy-permutation argument and of what the
/// lookup argument add.
pub proof fn law_any_gates_of_run<F: PrimeField, G: Copy>(run: Run<F, G>, x: int)
    requires
        run.completes(),
        run.contributions.wf(run.assembly.sorted_gates@, run.size() as int),
    ensures
        ({
            let gates = run.assembly.sorted_gates@;
            let main = (if gates.len() > 1 {
                run.proof.gate_selectors_openings_at_z@[0].1.val()
            } else {
                1
            }) * eval(vals(run.contributions.main@), x);
            let others = other_parts(
                gates,
                run.contributions,
                run.proof.gate_selectors_openings_at_z@,
                run.setup.gate_selectors_monomials@,
                x,
                gates.len(),
            );
            red::<F>(eval(vals(run.linearized.linearization@), x)) == red::<F>(
                main + others + copy_part(run, x) + lookup_part(run, x),
            )
        }),
{
    lemma_tested(run);
    lemma_setup_of(run);
    lemma_arguments_part(run, x);
    let o = run.opened.session.openings->0;
    let p = run.opened.polynomials;
    let job = run.started.job;
    let gates = job.gates@;
    let z = run.z.val();
    let ids = job.queries.gate_selectors@;
    let answers = run.proof.gate_selectors_openings_at_z@;
    assert(vals(o.selectors_at_z@) == opened(p.monomials.gate_selectors@, ids, z));
    assert(vals(o.selectors_at_z@).len() == ids.len());
    assert forall|j: int| 0 <= j < o.selectors_at_z@.len() implies #[trigger] answers[j].1
        == o.selectors_at_z@[j] by {}
    lemma_other_parts(
        gates,
        run.contributions,
        o.selectors_at_z@,
        answers,
        p.monomials.gate_selectors@,
        run.setup.gate_selectors_monomials@,
        run.size() as int,
        x,
        gates.len(),
    );
}

proof fn lemma_arguments_part<F: PrimeField, G: Copy>(run: Run<F, G>, x: int)
    requires
        run.completes(),
    ensures
        ({
            let o = run.opened.session.openings->0;
            let p = run.opened.polynomials;
            let gates = run.started.job.gates@;
            red::<F>(eval(vals(run.linearized.linearization@), x)) == red::<F>(
                combine_eval(
                    gate_linear_terms(
                        gates,
                        run.contributions,
                        vals(o.selectors_at_z@),
                        p.monomials.gate_selectors@,
                        gates.len(),
                    ),
                    x,
                ) + copy_part(run, x) + lookup_part(run, x),
            )
        }),
{
    lemma_tested(run);
    let o = run.opened.session.openings->0;
    let p = run.opened.polynomials;
    let job = run.started.job;
    let gates = job.gates@;
    let v = at_z(p, o, job.domain, run.z.val());
    let w = weights_of(run.opened.session, run.opened.challenges);
    let c = run.contributions;
    let terms = run.opened.terms(c);
    let from_gates = gate_linear_terms(
        gates,
        c,
        v.selectors,
        p.monomials.gate_selectors@,
        gates.len(),
    );
    let total = terms_before(gates, gates.len());
    let from_copy = copy_linear_terms::<F>(
        v,
        w,
        pow(w.alpha, total),
        pow(w.alpha, total + 1),
        vals(p.copy_z@),
        vals(p.monomials.permutations@[3]@),
    );
    lemma_represents_eval(run.linearized.linearization@, terms, run.size() as int, x);
    lemma_combine_eval_concat(from_gates, from_copy, x);
    lemma_copy_part(run, x);
    law_weights_of_run(run);
    match (p.lookup, v.lookup, w.lookup) {
        (Some(polys), Some(l), Some(lw)) => {
            let from_lookup = lookup_linear_terms(
                v,
                l,
                lw,
                pow(w.alpha, total + 2),
                pow(w.alpha, total + 3),
                pow(w.alpha, total + 4),
                vals(polys.s@),
                vals(polys.z@),
            );
            lemma_combine_eval_concat(from_gates + from_copy, from_lookup, x);
            assert(combine_eval(from_lookup, x) == lookup_part(run, x)) by {
                reveal_with_fuel(combine_eval, 3);
            }
        },
        _ => {},
    }
}

proof fn lemma_copy_part<F: PrimeField, G: Copy>(run: Run<F, G>, x: int)
    requires
        run.completes(),
    ensures
        ({
            let o = run.opened.session.openings->0;
            let p = run.opened.polynomials;
            let job = run.started.job;
            let total = terms_before(job.gates@, job.gates@.len());
            let v = at_z(p, o, job.domain, run.z.val());
            let w = weights_of(run.opened.session, run.opened.challenges);
            combine_eval(
                copy_linear_terms::<F>(
                    v,
                    w,
                    pow(w.alpha, total),
                    pow(w.alpha, total + 1),
                    vals(p.copy_z@),
                    vals(p.monomials.permutations@[3]@),
                ),
                x,
            ) == copy_part(run, x)
        }),
{
    lemma_tested(run);
    lemma_setup_of(run);
    law_weights_of_run(run);
    let o = run.opened.session.openings->0;
    let p = run.opened.polynomials;
    let job = run.started.job;
    let z = run.z.val();
    let total = terms_before(job.gates@, job.gates@.len());
    let v = at_z(p, o, job.domain, z);
    let w = weights_of(run.opened.session, run.opened.challenges);
    let t = copy_linear_terms::<F>(
        v,
        w,
        pow(w.alpha, total),
        pow(w.alpha, total + 1),
        vals(p.copy_z@),
        vals(p.monomials.permutations@[3]@),
    );
    assert(p.monomials.permutations@[3]@ == run.setup.permutation_monomials@[3]@);
    assert(vals(o.permutations_at_z@) == opened(p.monomials.permutations@, seq![0usize, 1, 2], z));
    assert(v.permutations.len() == 3);
    lemma_three_factors(v.wires.take(3), v.permutations, w.beta, w.gamma);
    lemma_four_factors(v.wires, coset_row::<F>(v.z, w.shifts), w.beta, w.gamma);
    assert(combine_eval(t, x) == t[0].0 * eval(t[0].1, x) + t[1].0 * eval(t[1].1, x) + t[2].0
        * eval(
        t[2].1,
        x,
    )) by {
        reveal_with_fuel(combine_eval, 4);
    }
    let m = pow(w.alpha, total) * w.beta * v.z_next * perm_product(
        v.wires.take(3),
        v.permutations,
        w.beta,
        w.gamma,
    );
    let e = eval(vals(run.setup.permutation_monomials@[3]@), x);
    assert((0 - m) * e == 0 - m * e) by (nonlinear_arith);
}

proof fn lemma_gates_part<F: PrimeField, G: Copy>(run: Run<F, G>, x: int)
    requires
        run.completes(),
        run.known_gates(),
    ensures
        ({
            let o = run.opened.session.openings->0;
            let p = run.opened.polynomials;
            let job = run.started.job;
            red::<F>(
                combine_eval(
                    gate_linear_terms(
                        job.gates@,
                        run.contributions,
                        vals(o.selectors_at_z@),
                        p.monomials.gate_selectors@,
                        job.gates@.len(),
                    ),
                    x,
                ),
            ) == red::<F>(gates_part(run, x))
        }),
{
    lemma_tested(run);
    lemma_setup_of(run);
    let o = run.opened.session.openings->0;
    let p = run.opened.polynomials;
    let job = run.started.job;
    let gates = job.gates@;
    let (z, omega) = (run.z.val(), run.omega());
    let alpha = run.alpha.val();
    let c = run.contributions;
    let wires = opened(p.monomials.state@, seq![0usize, 1, 2, 3], z);
    let d_next = red::<F>(eval(vals(p.monomials.state@[3]@), red::<F>(z * omega)));
    let q = columns(p.monomials.gate_setup@[0]@);
    assert(known_contributions(c, gates, p, job.inputs@, alpha, job.domain, z));
    lemma_pow0(alpha);
    let t = main_linear_terms(wires, d_next, q, 1);
    lemma_represents_eval(c.main@, t, run.size() as int, x);
    lemma_main_parts(t, wires, d_next, q, x);
    let theirs = run.setup.gate_setup_monomials@[0]@;
    assert forall|k: int| 0 <= k < 7 implies #[trigger] q[k] == vals(theirs[k]@) by {
        assert(p.monomials.gate_setup@[0]@[k]@ == theirs[k]@);
    }
    let sel = vals(o.selectors_at_z@);
    let polys = p.monomials.gate_selectors@;
    let a = wires[0];
    lemma_gate_parts(gates, c, sel, polys, a, alpha, x, gates.len());
    lemma_same_bit_parts(
        gates,
        polys,
        run.setup.gate_selectors_monomials@,
        a,
        alpha,
        x,
        gates.len(),
    );
    let first = if gates.len() > 1 {
        let ids = job.queries.gate_selectors@;
        assert(sel == opened(polys, ids, z));
        assert(sel.len() == ids.len());
        crate::linearization::lemma_selectors_monotonic(gates, 1, gates.len());
        assert(run.proof.gate_selectors_openings_at_z@[0].1 == o.selectors_at_z@[0]);
        sel[0]
    } else {
        1
    };
    let (m, n) = (eval(vals(c.main@), x), combine_eval(t, x));
    let b = bit_parts(gates, polys, a, alpha, x, gates.len());
    lemma_red_mul::<F>(first, m, first, n);
    lemma_red_add::<F>(first * m, b, first * n, b);
}

} // verus!
