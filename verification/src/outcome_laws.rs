//! How the rounds of the quotient and of the openings end, for a witness that meets
//! the constraints of its circuit and for one that does not.

use crate::closing_rounds::{weights_of, LdesRequested, Linearized, Opened, QuotientReady};
use crate::contributions::{inputs_defined, known_contributions};
use crate::errors::SynthesisError;
use crate::field::{red, vals, PrimeField};
use crate::honest::{
    law_honest_openings, law_honest_quotient, products_made, traces, transformed, witness_met,
    Trace,
};
use crate::laws::ldes_of;
use crate::linearization::{lagranges_defined, wires_opened, GateContributions};
use crate::polynomial::{eval, represents};
use crate::quotient::{divisible_on_coset, is_numerator_quotient, parts_of, Ldes};
use crate::refusal::{
    divides_at, is_remainder, law_refused_openings, law_refused_quotient, leftover,
};
use vstd::arithmetic::power::*;
use vstd::prelude::*;

verus! {

/// If the witness meets the constraints of the circuit, and every transform was
/// answered as it was asked for, then the round of the quotient goes on.
pub proof fn law_honest_quotient_made<F: PrimeField, G: Copy>(
    round: LdesRequested<F, G>,
    t: Trace,
    inputs: Seq<F>,
    ldes: Ldes<F>,
    outcome: Result<QuotientReady<F, G>, SynthesisError>,
)
    requires
        round.wf(),
        round.session.job.domain.size >= 2,
        traces(t, round.session.job),
        transformed(t, round.polynomials, inputs, round.session.job.domain),
        products_made(
            t,
            weights_of(round.session, round.challenges),
            round.session.job.domain,
        ),
        witness_met(
            round.session.job.gates@,
            t,
            round.polynomials,
            weights_of(round.session, round.challenges),
            round.session.job.domain,
        ),
        ldes.wf(round.session.job.gates@, round.session.job.big.size as int),
        ldes_of(
            ldes,
            round.polynomials,
            vals(inputs),
            round.session.job.domain,
            round.session.job.big,
        ),
        divisible_on_coset(round.session.job.domain, round.session.job.big),
        call_ensures(LdesRequested::<F, G>::resume, (round, ldes), outcome),
    ensures
        outcome is Ok,
{
    law_honest_quotient(round, t, inputs, ldes);
}

/// If the witness meets the constraints of the circuit, every transform was answered
/// as it was asked for, and every wire is opened, then the round of the openings goes
/// on.
pub proof fn law_honest_openings_accepted<F: PrimeField, G: Copy>(
    round: Opened<F, G>,
    t: Trace,
    inputs: Seq<F>,
    ldes: Ldes<F>,
    quotient: Seq<F>,
    contributions: GateContributions<F>,
    outcome: Result<Linearized<F, G>, SynthesisError>,
)
    requires
        round.wf(),
        round.session.job.domain.size >= 2,
        traces(t, round.session.job),
        transformed(t, round.polynomials, inputs, round.session.job.domain),
        products_made(
            t,
            weights_of(round.session, round.challenges),
            round.session.job.domain,
        ),
        witness_met(
            round.session.job.gates@,
            t,
            round.polynomials,
            weights_of(round.session, round.challenges),
            round.session.job.domain,
        ),
        ldes.wf(round.session.job.gates@, round.session.job.big.size as int),
        ldes_of(
            ldes,
            round.polynomials,
            vals(inputs),
            round.session.job.domain,
            round.session.job.big,
        ),
        divisible_on_coset(round.session.job.domain, round.session.job.big),
        is_numerator_quotient(
            quotient,
            round.session.job.gates@,
            ldes,
            weights_of(round.session, round.challenges),
            round.session.job.domain,
            round.session.job.big,
            4,
        ),
        parts_of(
            round.polynomials.quotient_parts@,
            quotient,
            round.session.job.domain.size as int,
        ),
        known_contributions(
            contributions,
            round.session.job.gates@,
            round.polynomials,
            round.session.job.inputs@,
            round.challenges.alpha.val(),
            round.session.job.domain,
            round.z.val(),
        ),
        round.session.job.gates@.len() > 1 ==> round.session.job.queries.gate_selectors@[0] == 0,
        lagranges_defined(
            round.session.job.domain,
            round.z.val(),
            round.polynomials.lookup is Some,
        ),
        inputs_defined::<F>(
            round.session.job.inputs@.len(),
            round.session.job.domain.generator.val(),
            round.session.job.domain.size as nat,
            round.z.val(),
        ),
        wires_opened(round.session.job.queries),
        call_ensures(Opened::<F, G>::resume, (round, contributions), outcome),
    ensures
        outcome is Ok,
{
    law_honest_openings(round, t, inputs, ldes, quotient, contributions);
}

/// The round of the quotient refuses a circuit exactly if the polynomial that takes
/// the values of the numerator on the rows has a coefficient other than zero among
/// those that the last four of the quotient are made from; else it goes on.
pub proof fn law_bad_quotient_refused<F: PrimeField, G: Copy>(
    round: LdesRequested<F, G>,
    ldes: Ldes<F>,
    inputs: Seq<int>,
    c: Seq<F>,
    r: Seq<int>,
    outcome: Result<QuotientReady<F, G>, SynthesisError>,
)
    requires
        round.wf(),
        round.session.job.domain.size >= 2,
        inputs.len() == round.session.job.domain.size,
        ldes.wf(round.session.job.gates@, round.session.job.big.size as int),
        ldes_of(
            ldes,
            round.polynomials,
            inputs,
            round.session.job.domain,
            round.session.job.big,
        ),
        divisible_on_coset(round.session.job.domain, round.session.job.big),
        round.is_quotient(c, ldes),
        is_remainder(
            r,
            round.session.job.gates@,
            round.polynomials,
            round.session.job.domain,
            inputs,
            weights_of(round.session, round.challenges),
        ),
        call_ensures(LdesRequested::<F, G>::resume, (round, ldes), outcome),
    ensures
        ({
            let remains = exists|j: int|
                4 * r.len() - 4 <= j < 4 * r.len() && red::<F>(#[trigger] leftover(r, j)) != 0;
            &&& remains ==> outcome == Err::<QuotientReady<F, G>, SynthesisError>(
                SynthesisError::Unsatisfiable,
            )
            &&& !remains ==> outcome is Ok
        }),
{
    law_refused_quotient(round, ldes, inputs, c, r);
}

/// Where the quotient, times the polynomial that vanishes on the domain, is not the
/// numerator at the opening point, the round of the openings refuses them.
pub proof fn law_bad_openings_refused<F: PrimeField, G: Copy>(
    round: Opened<F, G>,
    contributions: GateContributions<F>,
    linearization: Seq<F>,
    value: F,
    inputs: Seq<F>,
    quotient: Seq<F>,
    outcome: Result<Linearized<F, G>, SynthesisError>,
)
    requires
        round.wf(),
        known_contributions(
            contributions,
            round.session.job.gates@,
            round.polynomials,
            round.session.job.inputs@,
            round.challenges.alpha.val(),
            round.session.job.domain,
            round.z.val(),
        ),
        round.session.job.gates@.len() > 1 ==> round.session.job.queries.gate_selectors@[0] == 0,
        lagranges_defined(
            round.session.job.domain,
            round.z.val(),
            round.polynomials.lookup is Some,
        ),
        inputs_defined::<F>(
            round.session.job.inputs@.len(),
            round.session.job.domain.generator.val(),
            round.session.job.domain.size as nat,
            round.z.val(),
        ),
        represents(
            linearization,
            round.terms(contributions),
            round.session.job.domain.size as int,
        ),
        value.val() == red::<F>(eval(vals(linearization), round.z.val())),
        inputs.len() == round.session.job.domain.size,
        forall|j: int|
            0 <= j < inputs.len() ==> red::<F>(
                eval(
                    vals(inputs),
                    #[trigger] pow(round.session.job.domain.generator.val(), j as nat),
                ),
            ) == if j < round.session.job.inputs@.len() {
                round.session.job.inputs@[j].val()
            } else {
                0
            },
        parts_of(
            round.polynomials.quotient_parts@,
            quotient,
            round.session.job.domain.size as int,
        ),
        !divides_at(
            quotient,
            round.session.job.gates@,
            round.polynomials,
            vals(inputs),
            weights_of(round.session, round.challenges),
            round.session.job.domain,
            round.z.val(),
        ),
        wires_opened(round.session.job.queries),
        call_ensures(Opened::<F, G>::resume, (round, contributions), outcome),
    ensures
        outcome == Err::<Linearized<F, G>, SynthesisError>(SynthesisError::Unsatisfiable),
{
    law_refused_openings(round, contributions, linearization, value, inputs, quotient);
}

} // verus!
