//! What a proof holds, in terms of the circuit, the answers and the challenges of
//! the run that made it.

use crate::circuit::{all_below, same_polys, widths};
use crate::closing_rounds::Proof;
use crate::field::{red, vals, PrimeField};
use crate::linearization::{flat_ids, Openings};
use crate::polynomial::{columns, combine_eval, eval, power_terms};
use crate::prover::same_nested;
use crate::run::Run;
use crate::session::{
    opening_values, optional_challenge, optional_challenges, optional_openings, optional_point,
    optional_scalar, points, scalars, script, setup_values, Commitments, Drawn, Session,
    TranscriptItem,
};
use vstd::arithmetic::power::*;
use vstd::prelude::*;

verus! {

/// What every round of a run shares.
pub(crate) proof fn lemma_linked<F: PrimeField, G: Copy>(run: Run<F, G>)
    requires
        run.completes(),
    ensures
        run.started.job == run.combined.session.job,
        run.started.job == run.opened.session.job,
        run.started.job == run.requested.session.job,
        run.started.job == run.copy.session.job,
        run.started.job.domain.size == run.size(),
        run.opened.wf(),
        run.requested.wf(),
        run.copy.wf(),
        run.linearized.wf(),
        run.combined.wf(),
        run.opened.polynomials.monomials == run.wires.monomials,
        run.opened.polynomials.copy_z == run.polynomial.copy_z,
        run.opened.polynomials.quotient_parts == run.ready.polynomials.quotient_parts,
        run.linearized.polynomials == run.opened.polynomials,
        run.requested.polynomials.monomials == run.wires.monomials,
        run.requested.polynomials.copy_z == run.polynomial.copy_z,
        run.requested.polynomials.lookup == run.opened.polynomials.lookup,
        run.lookup is Some <==> run.opened.polynomials.lookup is Some,
        run.lookup matches Some(l) ==> run.opened.polynomials.lookup == Some(l.polynomial.lookup),
        run.combined.session.openings == run.opened.session.openings,
        run.combined.session.linearization_at_z == run.linearized.session.linearization_at_z,
        run.opened.z == run.z,
        run.linearized.z == run.z,
        run.proof.carries(run.combined.session),
{
    reveal(Run::completes);
}

/// What the session of a run holds in the end.
proof fn lemma_session<F: PrimeField, G: Copy>(run: Run<F, G>)
    requires
        run.completes(),
    ensures
        ({
            let c = run.combined.session.commitments;
            let d = run.combined.session.drawn;
            &&& run.combined.session.job.inputs == run.assembly.input_assingments
            &&& c.state == run.state_points
            &&& c.witness == run.witness_points
            &&& c.copy_z == Some(run.copy_point)
            &&& c.quotient_parts == run.part_points
            &&& d.copy == Some((run.beta, run.gamma))
            &&& d.alpha == Some(run.alpha)
            &&& d.z == Some(run.z)
            &&& d.v == Some(run.v)
            &&& match run.lookup {
                Some(l) => {
                    &&& d.eta == Some(l.eta)
                    &&& d.lookup == Some((l.beta, l.gamma))
                    &&& c.lookup_s == Some(l.s_point)
                    &&& c.lookup_z == Some(l.z_point)
                },
                None => d.eta is None && d.lookup is None && c.lookup_s is None && c.lookup_z
                    is None,
            }
        }),
{
    reveal(Run::completes);
}

/// A proof holds the size and the public inputs of the circuit, and the
/// commitments that were made, each in its place.
pub proof fn law_commitments_of_run<F: PrimeField, G: Copy>(run: Run<F, G>)
    requires
        run.completes(),
    ensures
        run.proof.n == run.assembly.n,
        run.proof.inputs@ == run.assembly.input_assingments@,
        run.proof.state_polys_commitments@ == run.state_points@,
        run.proof.witness_polys_commitments@ == run.witness_points@,
        run.proof.copy_permutation_grand_product_commitment == run.copy_point,
        run.proof.lookup_s_poly_commitment == match run.lookup {
            Some(l) => Some(l.s_point),
            None => None,
        },
        run.proof.lookup_grand_product_commitment == match run.lookup {
            Some(l) => Some(l.z_point),
            None => None,
        },
        run.proof.quotient_poly_parts_commitments@ == run.part_points@,
        run.proof.opening_proof_at_z == run.at_z,
        run.proof.opening_proof_at_z_omega == run.at_z_omega,
{
    reveal(Run::completes);
}

/// The openings of a proof in the order in which the transcript takes them.
pub open spec fn openings_in_order<F: PrimeField, G: Copy>(proof: Proof<F, G>) -> Seq<F> {
    let setup = proof.gate_setup_openings_at_z@;
    let selectors = proof.gate_selectors_openings_at_z@;
    let state_next = proof.state_polys_openings_at_dilations@;
    let witness_next = proof.witness_polys_openings_at_dilations@;
    let all = seq![proof.quotient_poly_opening_at_z] + proof.state_polys_openings_at_z@ + Seq::new(
        state_next.len(),
        |i: int| state_next[i].2,
    ) + proof.witness_polys_openings_at_z@ + Seq::new(
        witness_next.len(),
        |i: int| witness_next[i].2,
    ) + Seq::new(setup.len(), |i: int| setup[i].2) + Seq::new(
        selectors.len(),
        |i: int| selectors[i].1,
    ) + proof.copy_permutation_polys_openings_at_z@ + seq![
        proof.copy_permutation_grand_product_opening_at_z_omega,
    ];
    if proof.lookup_s_poly_commitment is Some {
        all + seq![
            proof.lookup_t_poly_opening_at_z->0,
            proof.lookup_selector_poly_opening_at_z->0,
            proof.lookup_table_type_poly_opening_at_z->0,
            proof.lookup_s_poly_opening_at_z_omega->0,
            proof.lookup_grand_product_opening_at_z_omega->0,
            proof.lookup_t_poly_opening_at_z_omega->0,
        ]
    } else {
        all
    }
}

/// Where the parts of the exchange with the transcript start: the challenges of
/// the copy-permutation argument, that of the numerator and the opening point.
pub open spec fn places<F: PrimeField, G: Copy>(run: Run<F, G>) -> (int, int, int) {
    let wires = run.assembly.input_assingments@.len() + run.state_points@.len()
        + run.witness_points@.len();
    let copy = wires + if run.lookup is Some {
        2int
    } else {
        0
    };
    let alpha = copy + 3 + if run.lookup is Some {
        3int
    } else {
        0
    };
    (copy, alpha, alpha + 1 + run.part_points@.len())
}

/// Where a complete exchange has what.
proof fn lemma_script_places<F: PrimeField, G: Copy>(
    inputs: Seq<F>,
    c: Commitments<G>,
    d: Drawn<F>,
    o: Openings<F>,
    linearization: F,
    copy: int,
    alpha: int,
    z: int,
)
    requires
        d.copy is Some,
        c.copy_z is Some,
        d.alpha is Some,
        d.z is Some,
        d.v is Some,
        d.eta is Some <==> d.lookup is Some,
        d.eta is Some <==> c.lookup_s is Some,
        d.eta is Some <==> c.lookup_z is Some,
        copy == inputs.len() + c.state@.len() + c.witness@.len() + if d.eta is Some {
            2int
        } else {
            0
        },
        alpha == copy + 3 + if d.eta is Some {
            3int
        } else {
            0
        },
        z == alpha + 1 + c.quotient_parts@.len(),
    ensures
        ({
            let t = script::<F, G>(inputs, c, d, Some(o), Some(linearization));
            let values = opening_values(o);
            let state_at = inputs.len() as int;
            let witness_at = state_at + c.state@.len();
            &&& forall|i: int|
                0 <= i < inputs.len() ==> t[i] == TranscriptItem::<F, G>::Scalar(
                    #[trigger] inputs[i],
                )
            &&& forall|i: int|
                0 <= i < c.state@.len() ==> t[state_at + i] == TranscriptItem::<F, G>::Point(
                    #[trigger] c.state@[i],
                )
            &&& forall|i: int|
                0 <= i < c.witness@.len() ==> t[witness_at + i] == TranscriptItem::<F, G>::Point(
                    #[trigger] c.witness@[i],
                )
            &&& d.eta is Some ==> {
                &&& t[copy - 2] == TranscriptItem::<F, G>::Challenge(d.eta->0)
                &&& t[copy - 1] == TranscriptItem::<F, G>::Point(c.lookup_s->0)
                &&& t[copy + 3] == TranscriptItem::<F, G>::Challenge((d.lookup->0).0)
                &&& t[copy + 4] == TranscriptItem::<F, G>::Challenge((d.lookup->0).1)
                &&& t[copy + 5] == TranscriptItem::<F, G>::Point(c.lookup_z->0)
            }
            &&& t[copy] == TranscriptItem::<F, G>::Challenge((d.copy->0).0)
            &&& t[copy + 1] == TranscriptItem::<F, G>::Challenge((d.copy->0).1)
            &&& t[copy + 2] == TranscriptItem::<F, G>::Point(c.copy_z->0)
            &&& t[alpha] == TranscriptItem::<F, G>::Challenge(d.alpha->0)
            &&& forall|i: int|
                0 <= i < c.quotient_parts@.len() ==> t[alpha + 1 + i]
                    == TranscriptItem::<F, G>::Point(#[trigger] c.quotient_parts@[i])
            &&& t[z] == TranscriptItem::<F, G>::Challenge(d.z->0)
            &&& forall|i: int|
                0 <= i < values.len() ==> t[z + 1 + i] == TranscriptItem::<F, G>::Scalar(
                    #[trigger] values[i],
                )
            &&& t[z + 1 + values.len()] == TranscriptItem::<F, G>::Scalar(linearization)
            &&& t[z + 2 + values.len()] == TranscriptItem::<F, G>::Challenge(d.v->0)
            &&& t.len() == z + 3 + values.len()
        }),
{
    let t0 = scalars::<F, G>(inputs) + points(c.state@) + points(c.witness@);
    let t1 = t0 + optional_challenge(d.eta) + optional_point(c.lookup_s);
    let t2 = t1 + optional_challenges(d.copy) + optional_point(c.copy_z);
    let t3 = t2 + optional_challenges(d.lookup) + optional_point(c.lookup_z);
    let t4 = t3 + optional_challenge(d.alpha) + points(c.quotient_parts@);
    let t5 = t4 + optional_challenge(d.z) + optional_openings(Some(o));
    let t = t5 + optional_scalar(Some(linearization)) + optional_challenge(d.v);
    assert(t == script::<F, G>(inputs, c, d, Some(o), Some(linearization)));
    assert(t1.len() == copy);
    assert(t3.len() == alpha);
    assert(t4.len() == z);
    assert(t5.len() == z + 1 + opening_values(o).len());
    assert(forall|i: int| 0 <= i < t0.len() ==> t1[i] == #[trigger] t0[i]);
    assert(forall|i: int| 0 <= i < t1.len() ==> t2[i] == #[trigger] t1[i]);
    assert(forall|i: int| 0 <= i < t2.len() ==> t3[i] == #[trigger] t2[i]);
    assert(forall|i: int| 0 <= i < t3.len() ==> t4[i] == #[trigger] t3[i]);
    assert(forall|i: int| 0 <= i < t4.len() ==> t5[i] == #[trigger] t4[i]);
    assert(forall|i: int| 0 <= i < t5.len() ==> t[i] == #[trigger] t5[i]);
    let witness_at = inputs.len() + c.state@.len();
    assert forall|i: int| 0 <= i < inputs.len() implies t[i] == TranscriptItem::<F, G>::Scalar(
        #[trigger] inputs[i],
    ) by {
        assert(t0[i] == TranscriptItem::<F, G>::Scalar(inputs[i]));
    }
    assert forall|i: int| 0 <= i < c.state@.len() implies t[inputs.len() + i]
        == TranscriptItem::<F, G>::Point(#[trigger] c.state@[i]) by {
        assert(t0[inputs.len() + i] == TranscriptItem::<F, G>::Point(c.state@[i]));
    }
    assert forall|i: int| 0 <= i < c.witness@.len() implies t[witness_at + i]
        == TranscriptItem::<F, G>::Point(#[trigger] c.witness@[i]) by {
        assert(t0[witness_at + i] == TranscriptItem::<F, G>::Point(c.witness@[i]));
    }
    if d.eta is Some {
        assert(t1[copy - 2] == TranscriptItem::<F, G>::Challenge(d.eta->0));
        assert(t1[copy - 1] == TranscriptItem::<F, G>::Point(c.lookup_s->0));
        assert(t3[copy + 3] == TranscriptItem::<F, G>::Challenge((d.lookup->0).0));
        assert(t3[copy + 4] == TranscriptItem::<F, G>::Challenge((d.lookup->0).1));
        assert(t3[copy + 5] == TranscriptItem::<F, G>::Point(c.lookup_z->0));
    }
    assert(t2[copy] == TranscriptItem::<F, G>::Challenge((d.copy->0).0));
    assert(t2[copy + 1] == TranscriptItem::<F, G>::Challenge((d.copy->0).1));
    assert(t2[copy + 2] == TranscriptItem::<F, G>::Point(c.copy_z->0));
    assert(t4[alpha] == TranscriptItem::<F, G>::Challenge(d.alpha->0));
    assert forall|i: int| 0 <= i < c.quotient_parts@.len() implies t[alpha + 1 + i]
        == TranscriptItem::<F, G>::Point(#[trigger] c.quotient_parts@[i]) by {
        assert(t4[alpha + 1 + i] == TranscriptItem::<F, G>::Point(c.quotient_parts@[i]));
    }
    assert(t5[z] == TranscriptItem::<F, G>::Challenge(d.z->0));
    let values = opening_values(o);
    assert forall|i: int| 0 <= i < values.len() implies t[z + 1 + i]
        == TranscriptItem::<F, G>::Scalar(#[trigger] values[i]) by {
        assert(t5[z + 1 + i] == TranscriptItem::<F, G>::Scalar(values[i]));
    }
}

/// The exchange with the transcript holds every public input, every commitment and
/// every opening, one after the other, and each challenge after all that came
/// before it: the inputs, the commitments to the wires, with a lookup its
/// challenge and the commitment to the sorted column, the challenges and the
/// commitment of the copy-permutation argument and of the lookup argument, alpha,
/// the commitments to the parts of the quotient, the opening point, the openings
/// and the last challenge.
pub proof fn law_exchange_of_run<F: PrimeField, G: Copy>(run: Run<F, G>)
    requires
        run.completes(),
    ensures
        ({
            let t = run.combined.session.transcript@;
            let inputs = run.assembly.input_assingments@;
            let (copy, alpha, z) = places(run);
            let values = openings_in_order(run.proof);
            let state_at = inputs.len() as int;
            let witness_at = state_at + run.state_points@.len();
            &&& forall|i: int|
                0 <= i < inputs.len() ==> t[i] == TranscriptItem::<F, G>::Scalar(
                    #[trigger] inputs[i],
                )
            &&& forall|i: int|
                0 <= i < run.state_points@.len() ==> t[state_at + i]
                    == TranscriptItem::<F, G>::Point(#[trigger] run.state_points@[i])
            &&& forall|i: int|
                0 <= i < run.witness_points@.len() ==> t[witness_at + i]
                    == TranscriptItem::<F, G>::Point(#[trigger] run.witness_points@[i])
            &&& match run.lookup {
                Some(l) => {
                    &&& t[copy - 2] == TranscriptItem::<F, G>::Challenge(l.eta)
                    &&& t[copy - 1] == TranscriptItem::<F, G>::Point(l.s_point)
                    &&& t[copy + 3] == TranscriptItem::<F, G>::Challenge(l.beta)
                    &&& t[copy + 4] == TranscriptItem::<F, G>::Challenge(l.gamma)
                    &&& t[copy + 5] == TranscriptItem::<F, G>::Point(l.z_point)
                },
                None => true,
            }
            &&& t[copy] == TranscriptItem::<F, G>::Challenge(run.beta)
            &&& t[copy + 1] == TranscriptItem::<F, G>::Challenge(run.gamma)
            &&& t[copy + 2] == TranscriptItem::<F, G>::Point(run.copy_point)
            &&& t[alpha] == TranscriptItem::<F, G>::Challenge(run.alpha)
            &&& forall|i: int|
                0 <= i < run.part_points@.len() ==> t[alpha + 1 + i]
                    == TranscriptItem::<F, G>::Point(#[trigger] run.part_points@[i])
            &&& t[z] == TranscriptItem::<F, G>::Challenge(run.z)
            &&& forall|i: int|
                0 <= i < values.len() ==> t[z + 1 + i] == TranscriptItem::<F, G>::Scalar(
                    #[trigger] values[i],
                )
            &&& t[z + 1 + values.len()] == TranscriptItem::<F, G>::Scalar(
                run.proof.linearization_poly_opening_at_z,
            )
            &&& t[z + 2 + values.len()] == TranscriptItem::<F, G>::Challenge(run.v)
            &&& t.len() == z + 3 + values.len()
        }),
{
    let s = run.combined.session;
    let o = s.openings->0;
    let (copy, alpha, z) = places(run);
    lemma_linked(run);
    lemma_session(run);
    lemma_openings_in_order(run);
    lemma_script_places(
        s.job.inputs@,
        s.commitments,
        s.drawn,
        o,
        run.proof.linearization_poly_opening_at_z,
        copy,
        alpha,
        z,
    );
}

/// The transcript takes the openings that the proof holds.
proof fn lemma_openings_in_order<F: PrimeField, G: Copy>(run: Run<F, G>)
    requires
        run.completes(),
    ensures
        openings_in_order(run.proof) == opening_values(run.combined.session.openings->0),
{
    let o = run.combined.session.openings->0;
    let proof = run.proof;
    lemma_linked(run);
    lemma_session(run);
    assert(Seq::new(
        proof.state_polys_openings_at_dilations@.len(),
        |i: int| proof.state_polys_openings_at_dilations@[i].2,
    ) =~= o.state_at_z_omega@);
    assert(Seq::new(
        proof.witness_polys_openings_at_dilations@.len(),
        |i: int| proof.witness_polys_openings_at_dilations@[i].2,
    ) =~= o.witness_at_z_omega@);
    assert(Seq::new(
        proof.gate_setup_openings_at_z@.len(),
        |i: int| proof.gate_setup_openings_at_z@[i].2,
    ) =~= setup_values(o.gate_setup_at_z@));
    assert(Seq::new(
        proof.gate_selectors_openings_at_z@.len(),
        |i: int| proof.gate_selectors_openings_at_z@[i].1,
    ) =~= o.selectors_at_z@);
    assert(openings_in_order(proof) =~= opening_values(o));
}

/// Each challenge is drawn from a transcript that has taken all that comes before
/// it in the exchange, and nothing else.
pub proof fn law_challenges_of_run<F: PrimeField, G: Copy>(run: Run<F, G>)
    requires
        run.completes(),
    ensures
        ({
            let t = run.combined.session.transcript@;
            let (copy, alpha, z) = places(run);
            let values = openings_in_order(run.proof);
            &&& run.committed.session.transcript@ == t.take(
                if run.lookup is Some {
                    copy - 2
                } else {
                    copy
                },
            )
            &&& run.copy.session.transcript@ == t.take(copy)
            &&& run.copied.session.transcript@ == t.take(copy + 3)
            &&& run.products.session.transcript@ == t.take(alpha)
            &&& run.quotient.session.transcript@ == t.take(z)
            &&& run.linearized.session.transcript@ == t.take(z + 2 + values.len())
        }),
{
    let (copy, alpha, z) = places(run);
    lemma_linked(run);
    lemma_session(run);
    lemma_openings_in_order(run);
    lemma_prefixes(run);
    lemma_session_prefixes(run.combined.session);
}

/// The pieces of an exchange.
spec fn pieces<F: PrimeField, G: Copy>(s: Session<F, G>) -> (
    Seq<TranscriptItem<F, G>>,
    Seq<TranscriptItem<F, G>>,
    Seq<TranscriptItem<F, G>>,
    Seq<TranscriptItem<F, G>>,
    Seq<TranscriptItem<F, G>>,
    Seq<TranscriptItem<F, G>>,
) {
    let (c, d) = (s.commitments, s.drawn);
    let t0 = scalars::<F, G>(s.job.inputs@) + points(c.state@) + points(c.witness@);
    let t1 = t0 + optional_challenge(d.eta) + optional_point(c.lookup_s);
    let t2 = t1 + optional_challenges(d.copy) + optional_point(c.copy_z);
    let t3 = t2 + optional_challenges(d.lookup) + optional_point(c.lookup_z);
    let t4 = t3 + optional_challenge(d.alpha) + points(c.quotient_parts@);
    let t6 = t4 + optional_challenge(d.z) + optional_openings(s.openings) + optional_scalar(
        s.linearization_at_z,
    );
    (t0, t1, t2, t3, t4, t6)
}

/// Each piece is the start of the exchange.
proof fn lemma_session_prefixes<F: PrimeField, G: Copy>(s: Session<F, G>)
    requires
        s.transcript@ == pieces(s).5 + optional_challenge(s.drawn.v),
    ensures
        s.transcript@.take(pieces(s).0.len() as int) == pieces(s).0,
        s.transcript@.take(pieces(s).1.len() as int) == pieces(s).1,
        s.transcript@.take(pieces(s).2.len() as int) == pieces(s).2,
        s.transcript@.take(pieces(s).3.len() as int) == pieces(s).3,
        s.transcript@.take(pieces(s).4.len() as int) == pieces(s).4,
        s.transcript@.take(pieces(s).5.len() as int) == pieces(s).5,
{
    let t = s.transcript@;
    let (c, d) = (s.commitments, s.drawn);
    let (t0, t1, t2, t3, t4, t6) = pieces(s);
    assert(t.take(t.len() as int) =~= t);
    lemma_shorter_prefix(t6, optional_challenge(d.v), t);
    let t5 = t4 + optional_challenge(d.z) + optional_openings(s.openings);
    lemma_shorter_prefix(t5, optional_scalar(s.linearization_at_z), t);
    lemma_shorter_prefix(t4 + optional_challenge(d.z), optional_openings(s.openings), t);
    lemma_shorter_prefix(t4, optional_challenge(d.z), t);
    lemma_shorter_prefix(t3 + optional_challenge(d.alpha), points(c.quotient_parts@), t);
    lemma_shorter_prefix(t3, optional_challenge(d.alpha), t);
    lemma_shorter_prefix(t2 + optional_challenges(d.lookup), optional_point(c.lookup_z), t);
    lemma_shorter_prefix(t2, optional_challenges(d.lookup), t);
    lemma_shorter_prefix(t1 + optional_challenges(d.copy), optional_point(c.copy_z), t);
    lemma_shorter_prefix(t1, optional_challenges(d.copy), t);
    lemma_shorter_prefix(t0 + optional_challenge(d.eta), optional_point(c.lookup_s), t);
    lemma_shorter_prefix(t0, optional_challenge(d.eta), t);
}

/// What starts with two lists one after the other starts with the first.
proof fn lemma_shorter_prefix<A>(a: Seq<A>, b: Seq<A>, t: Seq<A>)
    requires
        (a + b).len() <= t.len(),
        t.take((a + b).len() as int) == a + b,
    ensures
        t.take(a.len() as int) == a,
{
    assert forall|i: int| 0 <= i < a.len() implies t[i] == a[i] by {
        assert(t.take((a + b).len() as int)[i] == t[i]);
        assert((a + b)[i] == a[i]);
    }
    assert(t.take(a.len() as int) =~= a);
}

proof fn lemma_prefixes<F: PrimeField, G: Copy>(run: Run<F, G>)
    requires
        run.completes(),
    ensures
        ({
            let s = run.combined.session;
            let (t0, t1, t2, t3, t4, t6) = pieces(s);
            &&& run.committed.session.transcript@ == t0
            &&& run.copy.session.transcript@ == t1
            &&& run.copied.session.transcript@ == t2
            &&& run.products.session.transcript@ == t3
            &&& run.quotient.session.transcript@ == t4
            &&& run.linearized.session.transcript@ == t6
            &&& s.transcript@ == t6 + optional_challenge(s.drawn.v)
        }),
{
    reveal(Run::completes);
}

/// How many setup polynomials are asked for before gate `g`.
pub open spec fn asked_before(ids: Seq<Vec<usize>>, g: nat) -> nat
    decreases g,
{
    if g == 0 {
        0
    } else {
        asked_before(ids, (g - 1) as nat) + ids[g - 1]@.len()
    }
}

pub(crate) proof fn lemma_asked<F: PrimeField>(ids: Seq<Vec<usize>>, k: nat, g: int, i: int)
    requires
        0 <= g < k,
        0 <= i < ids[g]@.len(),
    ensures
        asked_before(ids, g as nat) + i < flat_ids(ids, k).len(),
        flat_ids(ids, k)[asked_before(ids, g as nat) + i] == (g, ids[g]@[i] as int),
    decreases k,
{
    lemma_asked_len(ids, (k - 1) as nat);
    lemma_asked_len(ids, k);
    if g < k - 1 {
        lemma_asked::<F>(ids, (k - 1) as nat, g, i);
    }
}

pub(crate) proof fn lemma_asked_len(ids: Seq<Vec<usize>>, k: nat)
    ensures
        flat_ids(ids, k).len() == asked_before(ids, k),
    decreases k,
{
    if k > 0 {
        lemma_asked_len(ids, (k - 1) as nat);
    }
}

/// The value at `x` of the quotient, put together from its four parts at `z`.
pub open spec fn joined<F: PrimeField>(parts: Seq<Vec<F>>, z: int, n: nat, x: int) -> int {
    let w = pow(z, n);
    eval(vals(parts[0]@), x) + w * eval(vals(parts[1]@), x) + w * w * eval(vals(parts[2]@), x)
        + w * w
        * w * eval(vals(parts[3]@), x)
}

pub(crate) proof fn lemma_joined<F: PrimeField>(parts: Seq<Vec<F>>, z: int, n: nat, x: int)
    requires
        parts.len() == 4,
    ensures
        combine_eval(power_terms(columns(parts), pow(z, n), 0), x) == joined(parts, z, n, x),
{
    let w = pow(z, n);
    let t = power_terms(columns(parts), w, 0);
    lemma_pow0(w);
    lemma_pow1(w);
    lemma_pow_adds(w, 1, 1);
    lemma_pow_adds(w, 2, 1);
    let (a, b, c, d) = (
        eval(vals(parts[0]@), x),
        eval(vals(parts[1]@), x),
        eval(vals(parts[2]@), x),
        eval(vals(parts[3]@), x),
    );
    assert(t[0] == (pow(w, 0), vals(parts[0]@)));
    assert(t[1] == (pow(w, 1), vals(parts[1]@)));
    assert(t[2] == (pow(w, 2), vals(parts[2]@)));
    assert(t[3] == (pow(w, 3), vals(parts[3]@)));
    assert(t.drop_last().drop_last().drop_last().drop_last() =~= Seq::empty());
    reveal_with_fuel(combine_eval, 5);
    assert(combine_eval(t, x) == 0 + pow(w, 0) * a + pow(w, 1) * b + pow(w, 2) * c + pow(w, 3) * d);
    assert(1 * a == a);
}

/// Every opening of a proof is the value of its polynomial: the quotient from its
/// parts, the queried wires and witness columns at `z` and one step on, the queried
/// selectors, the first three permutations, the grand product one step on, and the
/// lookup argument.
pub proof fn law_openings_of_run<F: PrimeField, G: Copy>(run: Run<F, G>)
    requires
        run.completes(),
    ensures
        ({
            let proof = run.proof;
            let q = run.assembly.queries;
            let z = run.z.val();
            let z_omega = red::<F>(z * run.omega());
            let parts = run.ready.polynomials.quotient_parts@;
            &&& parts.len() == 4
            &&& proof.quotient_poly_opening_at_z.val() == red::<F>(
                joined(parts, z, run.size(), z),
            )
            &&& proof.linearization_poly_opening_at_z.val() == red::<F>(
                eval(vals(run.linearized.linearization@), z),
            )
            &&& proof.state_polys_openings_at_z@.len() == q.state_polys.at_z@.len()
            &&& forall|i: int|
                0 <= i < q.state_polys.at_z@.len() ==> (
                #[trigger] proof.state_polys_openings_at_z@[i]).val() == red::<F>(
                    eval(vals(run.state@[q.state_polys.at_z@[i] as int]@), z),
                )
            &&& proof.state_polys_openings_at_dilations@.len() == q.state_polys.at_z_omega@.len()
            &&& forall|i: int|
                0 <= i < q.state_polys.at_z_omega@.len() ==> {
                    let (steps, id, value) =
                        #[trigger] proof.state_polys_openings_at_dilations@[i];
                    &&& steps == 1
                    &&& id == q.state_polys.at_z_omega@[i]
                    &&& value.val() == red::<F>(eval(vals(run.state@[id as int]@), z_omega))
                }
            &&& proof.witness_polys_openings_at_z@.len() == q.witness_polys.at_z@.len()
            &&& forall|i: int|
                0 <= i < q.witness_polys.at_z@.len() ==> (
                #[trigger] proof.witness_polys_openings_at_z@[i]).val() == red::<F>(
                    eval(vals(run.witness@[q.witness_polys.at_z@[i] as int]@), z),
                )
            &&& proof.witness_polys_openings_at_dilations@.len()
                == q.witness_polys.at_z_omega@.len()
            &&& forall|i: int|
                0 <= i < q.witness_polys.at_z_omega@.len() ==> {
                    let (steps, id, value) =
                        #[trigger] proof.witness_polys_openings_at_dilations@[i];
                    &&& steps == 1
                    &&& id == q.witness_polys.at_z_omega@[i]
                    &&& value.val() == red::<F>(eval(vals(run.witness@[id as int]@), z_omega))
                }
            &&& proof.gate_selectors_openings_at_z@.len() == q.gate_selectors@.len()
            &&& forall|i: int|
                0 <= i < q.gate_selectors@.len() ==> {
                    let (id, value) = #[trigger] proof.gate_selectors_openings_at_z@[i];
                    &&& id == q.gate_selectors@[i]
                    &&& value.val() == red::<F>(
                        eval(vals(run.setup.gate_selectors_monomials@[id as int]@), z),
                    )
                }
            &&& proof.copy_permutation_polys_openings_at_z@.len() == 3
            &&& forall|i: int|
                0 <= i < 3 ==> (#[trigger] proof.copy_permutation_polys_openings_at_z@[i]).val()
                    == red::<F>(eval(vals(run.setup.permutation_monomials@[i]@), z))
            &&& proof.copy_permutation_grand_product_opening_at_z_omega.val() == red::<F>(
                eval(vals(run.polynomial.copy_z@), z_omega),
            )
        }),
        ({
            let proof = run.proof;
            let z = run.z.val();
            let z_omega = red::<F>(z * run.omega());
            match run.lookup {
                Some(l) => {
                    let p = l.polynomial.lookup;
                    &&& proof.lookup_s_poly_opening_at_z_omega matches Some(x) && x.val() == red::<
                        F,
                    >(eval(vals(p.s@), z_omega))
                    &&& proof.lookup_grand_product_opening_at_z_omega matches Some(x) && x.val()
                        == red::<F>(eval(vals(p.z@), z_omega))
                    &&& proof.lookup_t_poly_opening_at_z matches Some(x) && x.val() == red::<F>(
                        eval(vals(p.t@), z),
                    )
                    &&& proof.lookup_t_poly_opening_at_z_omega matches Some(x) && x.val() == red::<
                        F,
                    >(eval(vals(p.t@), z_omega))
                    &&& proof.lookup_selector_poly_opening_at_z matches Some(x) && x.val() == red::<
                        F,
                    >(eval(vals(p.selector@), z))
                    &&& proof.lookup_table_type_poly_opening_at_z matches Some(x) && x.val()
                        == red::<F>(eval(vals(p.table_type@), z))
                },
                None => {
                    &&& proof.lookup_s_poly_opening_at_z_omega is None
                    &&& proof.lookup_grand_product_opening_at_z_omega is None
                    &&& proof.lookup_t_poly_opening_at_z is None
                    &&& proof.lookup_t_poly_opening_at_z_omega is None
                    &&& proof.lookup_selector_poly_opening_at_z is None
                    &&& proof.lookup_table_type_poly_opening_at_z is None
                },
            }
        }),
{
    let proof = run.proof;
    let o = run.combined.session.openings->0;
    let q = run.assembly.queries;
    let z = run.z.val();
    let n = run.size();
    let z_omega = red::<F>(z * run.omega());
    let m = run.wires.monomials;
    lemma_linked(run);
    lemma_sources(run);
    let p = run.opened.polynomials;
    assert(o.opens(p, q, z, run.omega(), n));
    assert(vals(o.state_at_z@).len() == q.state_polys.at_z@.len());
    assert(vals(o.witness_at_z@).len() == q.witness_polys.at_z@.len());
    assert(vals(o.permutations_at_z@).len() == 3);
    lemma_joined(p.quotient_parts@, z, n, z);
    assert forall|i: int| 0 <= i < q.state_polys.at_z@.len() implies (
    #[trigger] proof.state_polys_openings_at_z@[i]).val() == red::<F>(
        eval(vals(run.state@[q.state_polys.at_z@[i] as int]@), z),
    ) by {
        assert(vals(o.state_at_z@)[i] == o.state_at_z@[i].val());
    }
    assert forall|i: int| 0 <= i < q.state_polys.at_z_omega@.len() implies {
        let (steps, id, value) = #[trigger] proof.state_polys_openings_at_dilations@[i];
        &&& steps == 1
        &&& id == q.state_polys.at_z_omega@[i]
        &&& value.val() == red::<F>(eval(vals(run.state@[id as int]@), z_omega))
    } by {
        assert(vals(o.state_at_z_omega@)[i] == o.state_at_z_omega@[i].val());
    }
    assert forall|i: int| 0 <= i < q.witness_polys.at_z@.len() implies (
    #[trigger] proof.witness_polys_openings_at_z@[i]).val() == red::<F>(
        eval(vals(run.witness@[q.witness_polys.at_z@[i] as int]@), z),
    ) by {
        assert(vals(o.witness_at_z@)[i] == o.witness_at_z@[i].val());
    }
    assert forall|i: int| 0 <= i < q.witness_polys.at_z_omega@.len() implies {
        let (steps, id, value) = #[trigger] proof.witness_polys_openings_at_dilations@[i];
        &&& steps == 1
        &&& id == q.witness_polys.at_z_omega@[i]
        &&& value.val() == red::<F>(eval(vals(run.witness@[id as int]@), z_omega))
    } by {
        assert(vals(o.witness_at_z_omega@)[i] == o.witness_at_z_omega@[i].val());
    }
    assert forall|i: int| 0 <= i < q.gate_selectors@.len() implies {
        let (id, value) = #[trigger] proof.gate_selectors_openings_at_z@[i];
        &&& id == q.gate_selectors@[i]
        &&& value.val() == red::<F>(
            eval(vals(run.setup.gate_selectors_monomials@[id as int]@), z),
        )
    } by {
        assert(vals(o.selectors_at_z@)[i] == o.selectors_at_z@[i].val());
    }
    assert forall|i: int| 0 <= i < 3 implies (
    #[trigger] proof.copy_permutation_polys_openings_at_z@[i]).val() == red::<F>(
        eval(vals(run.setup.permutation_monomials@[i]@), z),
    ) by {
        assert(vals(o.permutations_at_z@)[i] == o.permutations_at_z@[i].val());
        assert(m.permutations@[i]@ == run.setup.permutation_monomials@[i]@);
    }
}

/// The opening of the setup polynomial that gate `g` asks for as number `i`.
pub open spec fn setup_opening<F: PrimeField, G: Copy>(
    proof: Proof<F, G>,
    ids: Seq<Vec<usize>>,
    g: int,
    i: int,
) -> (usize, usize, F) {
    proof.gate_setup_openings_at_z@[asked_before(ids, g as nat) + i]
}

/// The queried setup polynomials are opened gate by gate, each with its gate, its
/// index and its value.
pub proof fn law_setup_openings_of_run<F: PrimeField, G: Copy>(run: Run<F, G>)
    requires
        run.completes(),
    ensures
        ({
            let ids = run.assembly.queries.gate_setup_polys@;
            &&& run.proof.gate_setup_openings_at_z@.len() == asked_before(ids, ids.len())
            &&& forall|g: int, i: int|
                0 <= g < ids.len() && 0 <= i < ids[g]@.len() ==> {
                    let r = #[trigger] setup_opening(run.proof, ids, g, i);
                    &&& r.0 == g
                    &&& r.1 == ids[g]@[i]
                    &&& r.2.val() == red::<F>(
                        eval(
                            vals(run.setup.gate_setup_monomials@[g]@[ids[g]@[i] as int]@),
                            run.z.val(),
                        ),
                    )
                }
        }),
{
    let proof = run.proof;
    let o = run.combined.session.openings->0;
    let ids = run.assembly.queries.gate_setup_polys@;
    let z = run.z.val();
    let m = run.wires.monomials;
    lemma_linked(run);
    lemma_sources(run);
    assert(o.opens(run.opened.polynomials, run.assembly.queries, z, run.omega(), run.size()));
    lemma_asked_len(ids, ids.len());
    assert forall|g: int, i: int| 0 <= g < ids.len() && 0 <= i < ids[g]@.len() implies {
        let r = #[trigger] setup_opening(run.proof, ids, g, i);
        &&& r.0 == g
        &&& r.1 == ids[g]@[i]
        &&& r.2.val() == red::<F>(
            eval(vals(run.setup.gate_setup_monomials@[g]@[ids[g]@[i] as int]@), z),
        )
    } by {
        lemma_asked::<F>(ids, ids.len(), g, i);
        let at = asked_before(ids, g as nat) + i;
        assert(o.gate_setup_at_z@[at].0 == g);
        assert(same_polys(m.gate_setup@[g]@, run.setup.gate_setup_monomials@[g]@));
        assert(all_below(ids[g]@, widths(m.gate_setup@)[g]));
        assert(ids[g]@[i] < m.gate_setup@[g]@.len());
        assert(m.gate_setup@[g]@[ids[g]@[i] as int]@
            == run.setup.gate_setup_monomials@[g]@[ids[g]@[i] as int]@);
    }
}

/// Where the polynomials of a run come from.
pub(crate) proof fn lemma_sources<F: PrimeField, G: Copy>(run: Run<F, G>)
    requires
        run.completes(),
    ensures
        run.started.job.queries == run.assembly.queries,
        run.started.job.gates == run.assembly.sorted_gates,
        run.wires.monomials.state == run.state,
        run.wires.monomials.witness == run.witness,
        same_nested(run.wires.monomials.gate_setup@, run.setup.gate_setup_monomials@),
        same_polys(run.wires.monomials.permutations@, run.setup.permutation_monomials@),
        run.assembly.sorted_gates@.len() > 1 ==> same_polys(
            run.wires.monomials.gate_selectors@,
            run.setup.gate_selectors_monomials@,
        ),
        run.assembly.sorted_gates@.len() <= 1 ==> run.wires.monomials.gate_selectors@.len() == 0,
{
    reveal(Run::completes);
}

/// The opening polynomials of a run, as the last round promises them.
pub(crate) proof fn lemma_proves<F: PrimeField, G: Copy>(run: Run<F, G>)
    requires
        run.completes(),
    ensures
        run.combined.opening.prove(
            run.opened.polynomials,
            run.assembly.queries,
            vals(run.linearized.linearization@),
            run.z.val(),
            run.omega(),
            run.size(),
            run.v.val(),
        ),
{
    reveal(Run::completes);
}

} // verus!
