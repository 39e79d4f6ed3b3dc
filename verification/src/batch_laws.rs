//! The two opening polynomials of a run prove the openings that its proof holds.

use crate::closing_rounds::Proof;
use crate::field::{lemma_red_add, lemma_red_mul, lemma_red_range, red, vals, PrimeField};
use crate::laws::{law_openings, lemma_combine_eval_concat};
use crate::linearization::flat_ids;
use crate::opening::{
    listed, listed_setup, polys_at_z, polys_at_z_omega, terms_at_z, terms_at_z_omega,
};
use crate::polynomial::{columns, combine_eval, eval, power_terms};
use crate::proof_laws::{
    joined, law_openings_of_run, law_setup_openings_of_run, lemma_joined, lemma_linked,
    lemma_proves, lemma_sources,
};
use crate::run::Run;
use vstd::arithmetic::power::*;
use vstd::prelude::*;

verus! {

/// The sum of values, each times one more power of `v`, from `v^start` on.
pub open spec fn weighted(values: Seq<int>, v: int, start: nat) -> int
    decreases values.len(),
{
    if values.len() == 0 {
        0
    } else {
        weighted(values.drop_last(), v, start) + pow(v, (start + values.len() - 1) as nat)
            * values.last()
    }
}

/// The values of polynomials at a point.
pub open spec fn evals(polys: Seq<Seq<int>>, x: int) -> Seq<int> {
    Seq::new(polys.len(), |i: int| eval(polys[i], x))
}

proof fn lemma_weighted(polys: Seq<Seq<int>>, v: int, start: nat, x: int)
    ensures
        combine_eval(power_terms(polys, v, start), x) == weighted(evals(polys, x), v, start),
    decreases polys.len(),
{
    if polys.len() > 0 {
        let less = polys.drop_last();
        lemma_weighted(less, v, start, x);
        assert(power_terms(polys, v, start).drop_last() =~= power_terms(less, v, start));
        assert(evals(polys, x).drop_last() =~= evals(less, x));
    }
}

proof fn lemma_weighted_congruent<F: PrimeField>(
    a: Seq<int>,
    b: Seq<int>,
    v: int,
    start: nat,
)
    requires
        a.len() == b.len(),
        forall|i: int| 0 <= i < a.len() ==> red::<F>(#[trigger] a[i]) == red::<F>(b[i]),
    ensures
        red::<F>(weighted(a, v, start)) == red::<F>(weighted(b, v, start)),
    decreases a.len(),
{
    if a.len() > 0 {
        let k = a.len() - 1;
        let (a1, b1) = (a.drop_last(), b.drop_last());
        assert forall|i: int| 0 <= i < a1.len() implies red::<F>(#[trigger] a1[i]) == red::<F>(
            b1[i],
        ) by {
            assert(red::<F>(a[i]) == red::<F>(b[i]));
        }
        lemma_weighted_congruent::<F>(a1, b1, v, start);
        let p = pow(v, (start + k) as nat);
        assert(red::<F>(a[k]) == red::<F>(b[k]));
        lemma_red_mul::<F>(p, a[k], p, b[k]);
        lemma_red_add::<F>(weighted(a1, v, start), p * a[k], weighted(b1, v, start), p * b[k]);
    }
}

/// The setup polynomials that the first `k` gates ask for, gate by gate.
pub open spec fn asked_setup<F: PrimeField>(
    setup: Seq<Vec<Vec<F>>>,
    ids: Seq<Vec<usize>>,
    k: nat,
) -> Seq<Seq<int>>
    decreases k,
{
    if k == 0 {
        Seq::empty()
    } else {
        asked_setup(setup, ids, (k - 1) as nat) + Seq::new(
            ids[k - 1]@.len(),
            |i: int| vals(setup[k - 1]@[ids[k - 1]@[i] as int]@),
        )
    }
}

/// The polynomials behind the openings at `z` other than the quotient: the
/// linearization polynomial, the queried wires, witness columns, setup polynomials
/// and selectors, the first three permutations, and the tables, the selector and
/// the table type of the lookup argument.
pub open spec fn behind_at_z<F: PrimeField, G: Copy>(run: Run<F, G>) -> Seq<Seq<int>> {
    let q = run.assembly.queries;
    let (state, witness) = (q.state_polys.at_z@, q.witness_polys.at_z@);
    let (selectors, setup) = (q.gate_selectors@, q.gate_setup_polys@);
    let sigma = run.setup.permutation_monomials@;
    let all = seq![vals(run.linearized.linearization@)] + Seq::new(
        state.len(),
        |i: int| vals(run.state@[state[i] as int]@),
    ) + Seq::new(witness.len(), |i: int| vals(run.witness@[witness[i] as int]@)) + asked_setup(
        run.setup.gate_setup_monomials@,
        setup,
        setup.len(),
    ) + Seq::new(
        selectors.len(),
        |i: int| vals(run.setup.gate_selectors_monomials@[selectors[i] as int]@),
    ) + seq![vals(sigma[0]@), vals(sigma[1]@), vals(sigma[2]@)];
    match run.lookup {
        Some(l) => all + seq![
            vals(l.polynomial.lookup.t@),
            vals(l.polynomial.lookup.selector@),
            vals(l.polynomial.lookup.table_type@),
        ],
        None => all,
    }
}

/// The openings at `z` that a proof holds, other than that of the quotient.
pub open spec fn held_at_z<F: PrimeField, G: Copy>(proof: Proof<F, G>) -> Seq<int> {
    let setup = proof.gate_setup_openings_at_z@;
    let selectors = proof.gate_selectors_openings_at_z@;
    let all = seq![proof.linearization_poly_opening_at_z.val()] + vals(
        proof.state_polys_openings_at_z@,
    ) + vals(proof.witness_polys_openings_at_z@) + Seq::new(
        setup.len(),
        |i: int| setup[i].2.val(),
    ) + Seq::new(selectors.len(), |i: int| selectors[i].1.val()) + vals(
        proof.copy_permutation_polys_openings_at_z@,
    );
    if proof.lookup_t_poly_opening_at_z is Some {
        all + seq![
            (proof.lookup_t_poly_opening_at_z->0).val(),
            (proof.lookup_selector_poly_opening_at_z->0).val(),
            (proof.lookup_table_type_poly_opening_at_z->0).val(),
        ]
    } else {
        all
    }
}

/// The polynomials behind the openings one step on: the copy-permutation grand
/// product, the queried wires and witness columns, and the sorted column, the grand
/// product and the tables of the lookup argument.
pub open spec fn behind_at_z_omega<F: PrimeField, G: Copy>(run: Run<F, G>) -> Seq<Seq<int>> {
    let q = run.assembly.queries;
    let (state, witness) = (q.state_polys.at_z_omega@, q.witness_polys.at_z_omega@);
    let all = seq![vals(run.polynomial.copy_z@)] + Seq::new(
        state.len(),
        |i: int| vals(run.state@[state[i] as int]@),
    ) + Seq::new(witness.len(), |i: int| vals(run.witness@[witness[i] as int]@));
    match run.lookup {
        Some(l) => all + seq![
            vals(l.polynomial.lookup.s@),
            vals(l.polynomial.lookup.z@),
            vals(l.polynomial.lookup.t@),
        ],
        None => all,
    }
}

/// The openings one step on that a proof holds.
pub open spec fn held_at_z_omega<F: PrimeField, G: Copy>(proof: Proof<F, G>) -> Seq<int> {
    let state = proof.state_polys_openings_at_dilations@;
    let witness = proof.witness_polys_openings_at_dilations@;
    let all = seq![proof.copy_permutation_grand_product_opening_at_z_omega.val()] + Seq::new(
        state.len(),
        |i: int| state[i].2.val(),
    ) + Seq::new(witness.len(), |i: int| witness[i].2.val());
    if proof.lookup_s_poly_opening_at_z_omega is Some {
        all + seq![
            (proof.lookup_s_poly_opening_at_z_omega->0).val(),
            (proof.lookup_grand_product_opening_at_z_omega->0).val(),
            (proof.lookup_t_poly_opening_at_z_omega->0).val(),
        ]
    } else {
        all
    }
}

proof fn lemma_asked_setup<F: PrimeField>(
    setup: Seq<Vec<Vec<F>>>,
    ids: Seq<Vec<usize>>,
    k: nat,
)
    ensures
        asked_setup(setup, ids, k) == listed_setup(setup, flat_ids(ids, k)),
    decreases k,
{
    if k > 0 {
        lemma_asked_setup(setup, ids, (k - 1) as nat);
    }
    assert(asked_setup(setup, ids, k) =~= listed_setup(setup, flat_ids(ids, k)));
}

proof fn lemma_same_setup<F: PrimeField>(
    a: Seq<Vec<Vec<F>>>,
    b: Seq<Vec<Vec<F>>>,
    ids: Seq<Vec<usize>>,
    k: nat,
)
    requires
        crate::prover::same_nested(a, b),
        k <= ids.len() <= a.len(),
        forall|g: int|
            0 <= g < ids.len() ==> crate::circuit::all_below(
                (#[trigger] ids[g])@,
                crate::circuit::widths(a)[g],
            ),
    ensures
        asked_setup(a, ids, k) == asked_setup(b, ids, k),
    decreases k,
{
    if k > 0 {
        lemma_same_setup(a, b, ids, (k - 1) as nat);
        let g = k - 1;
        assert(crate::circuit::same_polys(a[g]@, b[g]@));
        assert(crate::circuit::all_below(ids[g]@, crate::circuit::widths(a)[g]));
        assert forall|i: int| 0 <= i < ids[g]@.len() implies vals(a[g]@[ids[g]@[i] as int]@)
            == vals(b[g]@[ids[g]@[i] as int]@) by {
            assert(ids[g]@[i] < a[g]@.len());
            assert(a[g]@[ids[g]@[i] as int]@ == b[g]@[ids[g]@[i] as int]@);
        }
        assert(asked_setup(a, ids, k) =~= asked_setup(b, ids, k));
    }
}

/// The polynomials that are combined are those behind the openings.
proof fn lemma_behind<F: PrimeField, G: Copy>(run: Run<F, G>)
    requires
        run.completes(),
    ensures
        polys_at_z(
            run.opened.polynomials,
            run.assembly.queries,
            vals(run.linearized.linearization@),
        ) == behind_at_z(run),
        polys_at_z_omega(run.opened.polynomials, run.assembly.queries) == behind_at_z_omega(run),
{
    let q = run.assembly.queries;
    let m = run.wires.monomials;
    let p = run.opened.polynomials;
    lemma_linked(run);
    lemma_sources(run);
    let ids = q.gate_setup_polys@;
    lemma_asked_setup(m.gate_setup@, ids, ids.len());
    lemma_same_setup(m.gate_setup@, run.setup.gate_setup_monomials@, ids, ids.len());
    let (state, witness) = (q.state_polys.at_z@, q.witness_polys.at_z@);
    assert(listed(m.state@, state) =~= Seq::new(
        state.len(),
        |i: int| vals(run.state@[state[i] as int]@),
    ));
    assert(listed(m.witness@, witness) =~= Seq::new(
        witness.len(),
        |i: int| vals(run.witness@[witness[i] as int]@),
    ));
    let selectors = q.gate_selectors@;
    assert forall|i: int| 0 <= i < selectors.len() implies vals(
        m.gate_selectors@[#[trigger] selectors[i] as int]@,
    ) == vals(run.setup.gate_selectors_monomials@[selectors[i] as int]@) by {
        assert(selectors[i] < m.gate_selectors@.len());
        assert(m.gate_selectors@[selectors[i] as int]@
            == run.setup.gate_selectors_monomials@[selectors[i] as int]@);
    }
    assert(listed(m.gate_selectors@, selectors) =~= Seq::new(
        selectors.len(),
        |i: int| vals(run.setup.gate_selectors_monomials@[selectors[i] as int]@),
    ));
    let sigma = run.setup.permutation_monomials@;
    assert(m.permutations@[0]@ == sigma[0]@);
    assert(m.permutations@[1]@ == sigma[1]@);
    assert(m.permutations@[2]@ == sigma[2]@);
    assert(listed(m.permutations@, seq![0usize, 1, 2]) =~= seq![
        vals(sigma[0]@),
        vals(sigma[1]@),
        vals(sigma[2]@),
    ]);
    let (state, witness) = (q.state_polys.at_z_omega@, q.witness_polys.at_z_omega@);
    assert(listed(m.state@, state) =~= Seq::new(
        state.len(),
        |i: int| vals(run.state@[state[i] as int]@),
    ));
    assert(listed(m.witness@, witness) =~= Seq::new(
        witness.len(),
        |i: int| vals(run.witness@[witness[i] as int]@),
    ));
}

/// The residues of the values of polynomials at a point.
spec fn residues_at<F: PrimeField>(polys: Seq<Seq<int>>, x: int) -> Seq<int> {
    Seq::new(polys.len(), |i: int| red::<F>(eval(polys[i], x)))
}

proof fn lemma_residues_concat<F: PrimeField>(a: Seq<Seq<int>>, b: Seq<Seq<int>>, x: int)
    ensures
        residues_at::<F>(a + b, x) == residues_at::<F>(a, x) + residues_at::<F>(b, x),
{
    assert(residues_at::<F>(a + b, x) =~= residues_at::<F>(a, x) + residues_at::<F>(b, x));
}

proof fn lemma_held_at_z<F: PrimeField, G: Copy>(run: Run<F, G>)
    requires
        run.completes(),
    ensures
        held_at_z(run.proof) == residues_at::<F>(behind_at_z(run), run.z.val()),
{
    let q = run.assembly.queries;
    let proof = run.proof;
    let z = run.z.val();
    let m = run.wires.monomials;
    let o = run.combined.session.openings->0;
    let ids = q.gate_setup_polys@;
    lemma_linked(run);
    lemma_sources(run);
    law_openings_of_run(run);
    law_setup_openings_of_run(run);
    lemma_asked_setup(m.gate_setup@, ids, ids.len());
    lemma_same_setup(m.gate_setup@, run.setup.gate_setup_monomials@, ids, ids.len());
    let (state, witness, selectors) = (
        q.state_polys.at_z@,
        q.witness_polys.at_z@,
        q.gate_selectors@,
    );
    let sigma = run.setup.permutation_monomials@;
    let p0 = seq![vals(run.linearized.linearization@)];
    let p1 = Seq::new(state.len(), |i: int| vals(run.state@[state[i] as int]@));
    let p2 = Seq::new(witness.len(), |i: int| vals(run.witness@[witness[i] as int]@));
    let p3 = asked_setup(run.setup.gate_setup_monomials@, ids, ids.len());
    let p4 = Seq::new(
        selectors.len(),
        |i: int| vals(run.setup.gate_selectors_monomials@[selectors[i] as int]@),
    );
    let p5 = seq![vals(sigma[0]@), vals(sigma[1]@), vals(sigma[2]@)];
    lemma_residues_concat::<F>(p0, p1, z);
    lemma_residues_concat::<F>(p0 + p1, p2, z);
    lemma_residues_concat::<F>(p0 + p1 + p2, p3, z);
    lemma_residues_concat::<F>(p0 + p1 + p2 + p3, p4, z);
    lemma_residues_concat::<F>(p0 + p1 + p2 + p3 + p4, p5, z);
    assert(seq![proof.linearization_poly_opening_at_z.val()] =~= residues_at::<F>(p0, z));
    assert(vals(proof.state_polys_openings_at_z@) =~= residues_at::<F>(p1, z));
    assert(vals(proof.witness_polys_openings_at_z@) =~= residues_at::<F>(p2, z));
    assert(o.opens(run.opened.polynomials, q, z, run.omega(), run.size()));
    let setup = proof.gate_setup_openings_at_z@;
    assert forall|i: int| 0 <= i < setup.len() implies (#[trigger] setup[i]).2.val() == red::<F>(
        eval(p3[i], z),
    ) by {
        assert(o.gate_setup_at_z@[i].0 == flat_ids(ids, ids.len())[i].0);
    }
    assert(Seq::new(setup.len(), |i: int| setup[i].2.val()) =~= residues_at::<F>(p3, z));
    let opened = proof.gate_selectors_openings_at_z@;
    assert forall|i: int| 0 <= i < opened.len() implies (#[trigger] opened[i]).1.val() == red::<F>(
        eval(p4[i], z),
    ) by {
        assert(opened[i].0 == selectors[i]);
    }
    assert(Seq::new(opened.len(), |i: int| opened[i].1.val()) =~= residues_at::<F>(p4, z));
    let perms = vals(proof.copy_permutation_polys_openings_at_z@);
    assert forall|i: int| 0 <= i < 3 implies #[trigger] perms[i] == red::<F>(eval(p5[i], z)) by {
        assert(proof.copy_permutation_polys_openings_at_z@[i].val() == red::<F>(
            eval(vals(sigma[i]@), z),
        ));
    }
    assert(perms =~= residues_at::<F>(p5, z));
    match run.lookup {
        Some(l) => {
            let p6 = seq![
                vals(l.polynomial.lookup.t@),
                vals(l.polynomial.lookup.selector@),
                vals(l.polynomial.lookup.table_type@),
            ];
            lemma_residues_concat::<F>(p0 + p1 + p2 + p3 + p4 + p5, p6, z);
            assert(seq![
                (proof.lookup_t_poly_opening_at_z->0).val(),
                (proof.lookup_selector_poly_opening_at_z->0).val(),
                (proof.lookup_table_type_poly_opening_at_z->0).val(),
            ] =~= residues_at::<F>(p6, z));
        },
        None => {},
    }
}

proof fn lemma_held_at_z_omega<F: PrimeField, G: Copy>(run: Run<F, G>)
    requires
        run.completes(),
    ensures
        held_at_z_omega(run.proof) == residues_at::<F>(
            behind_at_z_omega(run),
            red::<F>(run.z.val() * run.omega()),
        ),
{
    let q = run.assembly.queries;
    let proof = run.proof;
    let y = red::<F>(run.z.val() * run.omega());
    law_openings_of_run(run);
    let (state, witness) = (q.state_polys.at_z_omega@, q.witness_polys.at_z_omega@);
    let p0 = seq![vals(run.polynomial.copy_z@)];
    let p1 = Seq::new(state.len(), |i: int| vals(run.state@[state[i] as int]@));
    let p2 = Seq::new(witness.len(), |i: int| vals(run.witness@[witness[i] as int]@));
    lemma_residues_concat::<F>(p0, p1, y);
    lemma_residues_concat::<F>(p0 + p1, p2, y);
    assert(seq![proof.copy_permutation_grand_product_opening_at_z_omega.val()]
        =~= residues_at::<F>(p0, y));
    let s = proof.state_polys_openings_at_dilations@;
    let w = proof.witness_polys_openings_at_dilations@;
    assert forall|i: int| 0 <= i < s.len() implies (#[trigger] s[i]).2.val() == red::<F>(
        eval(p1[i], y),
    ) by {
        assert(s[i].1 == state[i]);
    }
    assert forall|i: int| 0 <= i < w.len() implies (#[trigger] w[i]).2.val() == red::<F>(
        eval(p2[i], y),
    ) by {
        assert(w[i].1 == witness[i]);
    }
    assert(Seq::new(s.len(), |i: int| s[i].2.val()) =~= residues_at::<F>(p1, y));
    assert(Seq::new(w.len(), |i: int| w[i].2.val()) =~= residues_at::<F>(p2, y));
    match run.lookup {
        Some(l) => {
            let p3 = seq![
                vals(l.polynomial.lookup.s@),
                vals(l.polynomial.lookup.z@),
                vals(l.polynomial.lookup.t@),
            ];
            lemma_residues_concat::<F>(p0 + p1 + p2, p3, y);
            assert(seq![
                (proof.lookup_s_poly_opening_at_z_omega->0).val(),
                (proof.lookup_grand_product_opening_at_z_omega->0).val(),
                (proof.lookup_t_poly_opening_at_z_omega->0).val(),
            ] =~= residues_at::<F>(p3, y));
        },
        None => {},
    }
}

/// The first opening polynomial proves every opening at `z` that the proof holds:
/// at every point, the polynomial times the distance from `z`, plus the openings of
/// the proof with consecutive powers of `v`, is the same combination of the
/// polynomials behind them, the quotient put together from its parts by powers of
/// `z` to the size of the domain.
pub proof fn law_batch_at_z<F: PrimeField, G: Copy>(run: Run<F, G>, x: int)
    requires
        run.completes(),
    ensures
        ({
            let (z, v) = (run.z.val(), run.v.val());
            red::<F>(
                eval(vals(run.combined.opening.open_at_z@), x) * (x - z)
                    + run.proof.quotient_poly_opening_at_z.val() + weighted(
                    held_at_z(run.proof),
                    v,
                    1,
                ),
            ) == red::<F>(
                joined(run.ready.polynomials.quotient_parts@, z, run.size(), x) + weighted(
                    evals(behind_at_z(run), x),
                    v,
                    1,
                ),
            )
        }),
{
    let (z, v, n) = (run.z.val(), run.v.val(), run.size());
    let p = run.opened.polynomials;
    let lin = vals(run.linearized.linearization@);
    let parts = p.quotient_parts@;
    lemma_linked(run);
    lemma_proves(run);
    law_openings_of_run(run);
    lemma_behind(run);
    lemma_held_at_z(run);
    law_openings(
        run.combined.opening,
        p,
        run.assembly.queries,
        lin,
        z,
        run.omega(),
        n,
        v,
        x,
    );
    let behind = behind_at_z(run);
    let a = power_terms(columns(parts), pow(z, n), 0);
    let b = power_terms(behind, v, 1);
    assert(terms_at_z(p, run.assembly.queries, lin, z, n, v) == a + b);
    lemma_combine_eval_concat(a, b, x);
    lemma_combine_eval_concat(a, b, z);
    lemma_joined(parts, z, n, x);
    lemma_joined(parts, z, n, z);
    lemma_weighted(behind, v, 1, x);
    lemma_weighted(behind, v, 1, z);
    let held = held_at_z(run.proof);
    assert forall|i: int| 0 <= i < held.len() implies red::<F>(#[trigger] held[i]) == red::<F>(
        evals(behind, z)[i],
    ) by {
        lemma_red_range::<F>(eval(behind[i], z));
    }
    lemma_weighted_congruent::<F>(held, evals(behind, z), v, 1);
    let q = run.proof.quotient_poly_opening_at_z.val();
    let f = eval(vals(run.combined.opening.open_at_z@), x) * (x - z);
    lemma_red_range::<F>(joined(parts, z, n, z));
    lemma_red_add::<F>(q, weighted(held, v, 1), joined(parts, z, n, z), weighted(
        evals(behind, z),
        v,
        1,
    ));
    lemma_red_add::<F>(f, q + weighted(held, v, 1), f, combine_eval(a + b, z));
}

/// The second opening polynomial proves every opening one step on that the proof
/// holds, those of the lookup argument included, with the powers of `v` that
/// follow.
pub proof fn law_batch_at_z_omega<F: PrimeField, G: Copy>(run: Run<F, G>, x: int)
    requires
        run.completes(),
    ensures
        ({
            let v = run.v.val();
            let y = red::<F>(run.z.val() * run.omega());
            let start = 1 + held_at_z(run.proof).len();
            red::<F>(
                eval(vals(run.combined.opening.open_at_z_omega@), x) * (x - y) + weighted(
                    held_at_z_omega(run.proof),
                    v,
                    start,
                ),
            ) == red::<F>(weighted(evals(behind_at_z_omega(run), x), v, start))
        }),
{
    let (z, v, n) = (run.z.val(), run.v.val(), run.size());
    let y = red::<F>(z * run.omega());
    let p = run.opened.polynomials;
    let lin = vals(run.linearized.linearization@);
    lemma_linked(run);
    lemma_proves(run);
    lemma_behind(run);
    lemma_held_at_z(run);
    lemma_held_at_z_omega(run);
    law_openings(
        run.combined.opening,
        p,
        run.assembly.queries,
        lin,
        z,
        run.omega(),
        n,
        v,
        x,
    );
    let behind = behind_at_z_omega(run);
    let start = 1 + held_at_z(run.proof).len();
    assert(terms_at_z_omega(p, run.assembly.queries, lin, v) == power_terms(behind, v, start));
    lemma_weighted(behind, v, start, x);
    lemma_weighted(behind, v, start, y);
    let held = held_at_z_omega(run.proof);
    assert forall|i: int| 0 <= i < held.len() implies red::<F>(#[trigger] held[i]) == red::<F>(
        evals(behind, y)[i],
    ) by {
        lemma_red_range::<F>(eval(behind[i], y));
    }
    lemma_weighted_congruent::<F>(held, evals(behind, y), v, start);
    let f = eval(vals(run.combined.opening.open_at_z_omega@), x) * (x - y);
    lemma_red_add::<F>(f, weighted(held, v, start), f, weighted(evals(behind, y), v, start));
}

} // verus!
