//! The rounds of the quotient and of the openings.

use crate::circuit::LDE_FACTOR;
use crate::contributions::{contribute_into_linearization, inputs_defined, known_contributions};
use crate::domain::{calculate_lagrange_poly, lagrange_poly};
use crate::errors::SynthesisError;
use crate::field::{red, vals, Num, PrimeField};
use crate::linearization::{
    at_z, equation_holds, lagranges_defined, linear_terms, linearize, numerator_from_openings,
    open_polynomials, wires_opened, GateContributions, ProverPolynomials,
};
use crate::lookup_rounds::ProductsCommitted;
use crate::opening::{combine_openings, OpeningPolynomials};
use crate::polynomial::{
    add_assign_scaled, all_len, borrowed_columns, copied, eval, evaluate_at,
    lemma_represents_eval, lemma_represents_self, padded, padded_seq, represents,
};
use crate::prover::round_wf;
use crate::quotient::{
    divisible_on_coset, fits_degree, is_numerator_quotient, law_quotient_is_unique, parts_of,
    quotient_parts, Challenges, Ldes, LookupChallenges, Weights,
};
use crate::session::{Commitments, Drawn, Progress, Session};
use vstd::arithmetic::power::*;
use vstd::arithmetic::power2::*;
use vstd::prelude::*;

verus! {

/// The challenge of the numerator is drawn. The public inputs, `ifft`, wait for
/// their transform.
#[derive(Debug)]
pub struct QuotientStart<F: PrimeField, G: Copy> {
    /// What is kept from step to step.
    pub session: Session<F, G>,
    /// The polynomials of the argument.
    pub polynomials: ProverPolynomials<F>,
    /// The challenges of the numerator.
    pub challenges: Challenges<F>,
    /// The public inputs on the domain, to be transformed into coefficients.
    pub ifft: Vec<F>,
}

/// The challenges of the numerator are those that were drawn.
pub open spec fn challenges_drawn<F: PrimeField>(c: Challenges<F>, d: Drawn<F>) -> bool {
    &&& d.alpha == Some(c.alpha)
    &&& d.copy == Some((c.beta, c.gamma))
    &&& c.lookup is Some <==> d.lookup is Some
    &&& c.lookup matches Some(l) ==> {
        &&& d.eta == Some(l.eta)
        &&& d.lookup == Some((l.beta, l.gamma))
    }
}

/// The rounds of the numerator are in order.
pub open spec fn numerator_wf<F: PrimeField, G: Copy>(
    session: Session<F, G>,
    p: ProverPolynomials<F>,
    c: Challenges<F>,
    progress: Progress,
) -> bool {
    let job = session.job;
    &&& round_wf(session, p.monomials, progress, p.lookup is Some)
    &&& p.arguments_wf(job.gates@, job.domain.size as int)
    &&& challenges_drawn(c, session.drawn)
}

/// The challenges as they weigh the numerator.
pub open spec fn weights_of<F: PrimeField, G: Copy>(
    session: Session<F, G>,
    c: Challenges<F>,
) -> Weights {
    let job = session.job;
    c.weights(job.non_residues@, job.domain.generator.val(), job.domain.size as nat)
}

impl<F: PrimeField, G: Copy> ProductsCommitted<F, G> {
    /// Goes on with the challenge of the numerator.
    pub fn resume(self, alpha: F) -> (r: QuotientStart<F, G>)
        requires
            self.wf(),
        ensures
            r.wf(),
            r.session.job == self.session.job,
            r.session.commitments == self.session.commitments,
            r.session.drawn == (Drawn { alpha: Some(alpha), ..self.session.drawn }),
            r.polynomials == self.polynomials,
            vals(r.ifft@) == padded_seq(
                vals(self.session.job.inputs@),
                self.session.job.domain.size as nat,
            ),
    {
        let mut session = self.session;
        let ghost with_lookup = self.polynomials.lookup is Some;
        session.draw_alpha(alpha, Ghost(with_lookup));
        let (beta, gamma) = session.drawn.copy.unwrap();
        let lookup = match (session.drawn.eta, session.drawn.lookup) {
            (Some(eta), Some((b, g))) => Some(LookupChallenges { eta, beta: b, gamma: g }),
            _ => None,
        };
        let challenges = Challenges { alpha, beta, gamma, lookup };
        let ifft = padded(&session.job.inputs, session.job.domain.size as usize);
        QuotientStart { session, polynomials: self.polynomials, challenges, ifft }
    }
}

impl<F: PrimeField, G: Copy> QuotientStart<F, G> {
    /// The round is in order.
    pub open spec fn wf(&self) -> bool {
        &&& numerator_wf(self.session, self.polynomials, self.challenges, Progress::Alpha)
        &&& self.ifft@.len() == self.session.job.domain.size
    }

    /// Goes on with the coefficients of the public inputs, in their natural
    /// order.
    pub fn resume(self, inputs: Vec<F>) -> (r: LdesRequested<F, G>)
        requires
            self.wf(),
            inputs@.len() == self.session.job.domain.size,
        ensures
            r.wf(),
            r.session == self.session,
            r.polynomials == self.polynomials,
            r.challenges == self.challenges,
            represents(
                r.inputs_and_constants@,
                seq![
                    (1int, vals(inputs@)),
                    (1int, vals(self.polynomials.monomials.gate_setup@[0]@[5]@)),
                ],
                self.session.job.domain.size as int,
            ),
    {
        let domain = &self.session.job.domain;
        let constants = &self.polynomials.monomials.gate_setup[0][5];
        let mut inputs_and_constants = copied(&inputs);
        let ghost first = seq![(1int, vals(inputs@))];
        proof {
            lemma_represents_self(inputs@);
            lemma_pow2_pos(domain.power_of_two as nat);
            assert(all_len(
                self.polynomials.monomials.gate_setup@[0]@,
                domain.size as int,
            ));
        }
        add_assign_scaled(&mut inputs_and_constants, constants, &Num::one(), Ghost(first));
        proof {
            assert(first.push((1int, vals(constants@))) =~= seq![
                (1int, vals(inputs@)),
                (1int, vals(constants@)),
            ]);
        }
        let l_0 = calculate_lagrange_poly(domain, 0);
        let l_last = calculate_lagrange_poly(domain, domain.size - 1);
        LdesRequested {
            session: self.session,
            polynomials: self.polynomials,
            challenges: self.challenges,
            inputs_and_constants,
            l_0,
            l_last,
        }
    }
}

/// All polynomials of the numerator wait for their values on the coset.
#[derive(Debug)]
pub struct LdesRequested<F: PrimeField, G: Copy> {
    /// What is kept from step to step.
    pub session: Session<F, G>,
    /// The polynomials of the argument.
    pub polynomials: ProverPolynomials<F>,
    /// The challenges of the numerator.
    pub challenges: Challenges<F>,
    /// The public inputs and the constant selector, as coefficients.
    pub inputs_and_constants: Vec<F>,
    /// The Lagrange polynomial of the first row, as coefficients.
    pub l_0: Vec<F>,
    /// The Lagrange polynomial of the last row, as coefficients.
    pub l_last: Vec<F>,
}

/// The polynomials whose values on the coset the numerator is made of.
#[derive(Debug)]
pub struct LdeRequests<'a, F: PrimeField> {
    /// By how much the larger domain extends the domain of the circuit.
    pub factor: usize,
    /// The factor of the coset.
    pub coset: F,
    /// The public inputs and the constant selector.
    pub inputs_and_constants: &'a Vec<F>,
    /// The wires.
    pub wires: &'a Vec<Vec<F>>,
    /// The setup polynomials of the main gate but the constant selector.
    pub setup: Vec<&'a Vec<F>>,
    /// The selectors of the gates, where there is more than one gate.
    pub selectors: &'a Vec<Vec<F>>,
    /// The Lagrange polynomial of the first row.
    pub l_0: &'a Vec<F>,
    /// The copy-permutation grand product.
    pub copy_z: &'a Vec<F>,
    /// The permutation polynomials.
    pub permutations: &'a Vec<Vec<F>>,
    /// The grand product, the sorted column, the tables, the table type and the
    /// selector of the lookup argument, and the Lagrange polynomial of the last
    /// row.
    pub lookup: Option<(&'a Vec<F>, &'a Vec<F>, &'a Vec<F>, &'a Vec<F>, &'a Vec<F>, &'a Vec<F>)>,
}

impl<F: PrimeField, G: Copy> LdesRequested<F, G> {
    /// The round is in order.
    pub open spec fn wf(&self) -> bool {
        let domain = self.session.job.domain;
        let n = domain.size as nat;
        &&& numerator_wf(self.session, self.polynomials, self.challenges, Progress::Alpha)
        &&& self.inputs_and_constants@.len() == n
        &&& vals(self.l_0@) == lagrange_poly::<F>(domain.generator.val(), n, 0)
        &&& vals(self.l_last@) == lagrange_poly::<F>(
            domain.generator.val(),
            n,
            (n - 1) as nat,
        )
    }

    /// What has to be evaluated on the coset of the larger domain, in reversed
    /// order.
    pub fn requests(&self) -> (r: LdeRequests<'_, F>)
        requires
            self.wf(),
        ensures
            ({
                let p = self.polynomials;
                let q = p.monomials.gate_setup@[0]@;
                &&& r.factor == 4
                &&& r.coset.val() == F::spec_generator()
                &&& r.inputs_and_constants@ == self.inputs_and_constants@
                &&& r.wires@ == p.monomials.state@
                &&& borrowed_columns(r.setup@) == seq![
                    vals(q[0]@),
                    vals(q[1]@),
                    vals(q[2]@),
                    vals(q[3]@),
                    vals(q[4]@),
                    vals(q[6]@),
                ]
                &&& r.selectors@ == p.monomials.gate_selectors@
                &&& r.l_0@ == self.l_0@
                &&& r.copy_z@ == p.copy_z@
                &&& r.permutations@ == p.monomials.permutations@
                &&& r.lookup is Some <==> p.lookup is Some
                &&& match (r.lookup, p.lookup) {
                    (Some((z, s, t, table_type, selector, l_last)), Some(l)) => {
                        &&& z@ == l.z@
                        &&& s@ == l.s@
                        &&& t@ == l.t@
                        &&& table_type@ == l.table_type@
                        &&& selector@ == l.selector@
                        &&& l_last@ == self.l_last@
                    },
                    _ => true,
                }
            }),
    {
        let p = &self.polynomials;
        let q = &p.monomials.gate_setup[0];
        let mut setup: Vec<&Vec<F>> = Vec::new();
        setup.push(&q[0]);
        setup.push(&q[1]);
        setup.push(&q[2]);
        setup.push(&q[3]);
        setup.push(&q[4]);
        setup.push(&q[6]);
        proof {
            assert(borrowed_columns(setup@) =~= seq![
                vals(q@[0]@),
                vals(q@[1]@),
                vals(q@[2]@),
                vals(q@[3]@),
                vals(q@[4]@),
                vals(q@[6]@),
            ]);
        }
        LdeRequests {
            factor: LDE_FACTOR,
            coset: F::multiplicative_generator(),
            inputs_and_constants: &self.inputs_and_constants,
            wires: &p.monomials.state,
            setup,
            selectors: &p.monomials.gate_selectors,
            l_0: &self.l_0,
            copy_z: &p.copy_z,
            permutations: &p.monomials.permutations,
            lookup: match &p.lookup {
                Some(l) => Some((&l.z, &l.s, &l.t, &l.table_type, &l.selector, &self.l_last)),
                None => None,
            },
        }
    }

    /// The polynomial is the quotient of the numerator.
    pub open spec fn is_quotient(&self, c: Seq<F>, ldes: Ldes<F>) -> bool {
        let job = self.session.job;
        is_numerator_quotient(
            c,
            job.gates@,
            ldes,
            weights_of(self.session, self.challenges),
            job.domain,
            job.big,
            4,
        )
    }

    /// The circuit is refused: the quotient has too high a degree.
    pub open spec fn refuses(&self, ldes: Ldes<F>) -> bool {
        exists|c: Seq<F>| #[trigger] self.is_quotient(c, ldes) && !fits_degree(c)
    }

    /// Goes on with the values on the coset, in reversed order. It fails exactly
    /// if the polynomial that vanishes on the domain has a zero on the coset, or
    /// if the quotient has too high a degree.
    pub fn resume(self, ldes: Ldes<F>) -> (r: Result<QuotientReady<F, G>, SynthesisError>)
        requires
            self.wf(),
            ldes.wf(self.session.job.gates@, self.session.job.big.size as int),
            ldes.lookup is Some <==> self.polynomials.lookup is Some,
        ensures
            match r {
                Ok(next) => {
                    &&& divisible_on_coset(self.session.job.domain, self.session.job.big)
                    &&& !self.refuses(ldes)
                    &&& next.wf()
                    &&& next.session == self.session
                    &&& next.challenges == self.challenges
                    &&& next.polynomials.monomials == self.polynomials.monomials
                    &&& next.polynomials.copy_z == self.polynomials.copy_z
                    &&& next.polynomials.lookup == self.polynomials.lookup
                    &&& exists|c: Seq<F>|
                        {
                            &&& #[trigger] self.is_quotient(c, ldes)
                            &&& fits_degree(c)
                            &&& parts_of(
                                next.polynomials.quotient_parts@,
                                c,
                                self.session.job.domain.size as int,
                            )
                        }
                },
                Err(SynthesisError::DivisionByZero) => !divisible_on_coset(
                    self.session.job.domain,
                    self.session.job.big,
                ),
                Err(SynthesisError::Unsatisfiable) => {
                    &&& divisible_on_coset(self.session.job.domain, self.session.job.big)
                    &&& self.refuses(ldes)
                },
                Err(_) => false,
            },
    {
        let job = &self.session.job;
        proof {
            lemma_pow2_pos(job.domain.power_of_two as nat);
        }
        let made = quotient_parts(
            &job.gates,
            &ldes,
            &self.challenges,
            &job.non_residues,
            &job.domain,
            &job.big,
            LDE_FACTOR,
        );
        let ghost w = weights_of(self.session, self.challenges);
        match made {
            Ok(parts) => {
                proof {
                    let c = choose|c: Seq<F>|
                        {
                            &&& #[trigger] is_numerator_quotient(
                                c,
                                job.gates@,
                                ldes,
                                w,
                                job.domain,
                                job.big,
                                4,
                            )
                            &&& fits_degree(c)
                            &&& parts_of(parts@, c, job.domain.size as int)
                        };
                    assert(self.is_quotient(c, ldes));
                    assert forall|d: Seq<F>| #[trigger] self.is_quotient(d, ldes) implies
                        fits_degree(d) by {
                        law_quotient_is_unique(
                            c,
                            d,
                            job.gates@,
                            ldes,
                            w,
                            job.domain,
                            job.big,
                            4,
                        );
                        assert forall|j: int| d.len() - 4 <= j < d.len() implies (
                        #[trigger] d[j]).val() == 0 by {
                            assert(vals(c)[j] == vals(d)[j]);
                            assert(c[j].val() == 0);
                        }
                    }
                }
                let p = self.polynomials;
                Ok(
                    QuotientReady {
                        session: self.session,
                        polynomials: ProverPolynomials {
                            monomials: p.monomials,
                            copy_z: p.copy_z,
                            lookup: p.lookup,
                            quotient_parts: parts,
                        },
                        challenges: self.challenges,
                    },
                )
            },
            Err(e) => {
                proof {
                    if e == SynthesisError::Unsatisfiable {
                        let c = choose|c: Seq<F>|
                            {
                                &&& #[trigger] is_numerator_quotient(
                                    c,
                                    job.gates@,
                                    ldes,
                                    w,
                                    job.domain,
                                    job.big,
                                    4,
                                )
                                &&& !fits_degree(c)
                            };
                        assert(self.is_quotient(c, ldes));
                    }
                }
                Err(e)
            },
        }
    }
}

/// The parts of the quotient, `polynomials.quotient_parts`, wait for their
/// commitments.
#[derive(Debug)]
pub struct QuotientReady<F: PrimeField, G: Copy> {
    /// What is kept from step to step.
    pub session: Session<F, G>,
    /// The polynomials of the argument.
    pub polynomials: ProverPolynomials<F>,
    /// The challenges of the numerator.
    pub challenges: Challenges<F>,
}

/// The rounds of the openings are in order.
pub open spec fn opening_wf<F: PrimeField, G: Copy>(
    session: Session<F, G>,
    p: ProverPolynomials<F>,
    c: Challenges<F>,
    progress: Progress,
) -> bool {
    &&& numerator_wf(session, p, c, progress)
    &&& p.wf(session.job.gates@, session.job.domain.size as int)
}

impl<F: PrimeField, G: Copy> QuotientReady<F, G> {
    /// The round is in order.
    pub open spec fn wf(&self) -> bool {
        opening_wf(self.session, self.polynomials, self.challenges, Progress::Alpha)
    }

    /// Goes on with the commitments to the parts of the quotient.
    pub fn resume(self, parts: Vec<G>) -> (r: QuotientCommitted<F, G>)
        requires
            self.wf(),
            parts@.len() == 4,
        ensures
            r.wf(),
            r.session.job == self.session.job,
            r.session.drawn == self.session.drawn,
            r.session.commitments == (Commitments {
                quotient_parts: parts,
                ..self.session.commitments
            }),
            r.polynomials == self.polynomials,
            r.challenges == self.challenges,
    {
        let mut session = self.session;
        session.commit_quotient(parts, Ghost(self.polynomials.lookup is Some));
        QuotientCommitted {
            session,
            polynomials: self.polynomials,
            challenges: self.challenges,
        }
    }
}

/// The quotient is committed to. The opening point is drawn next.
#[derive(Debug)]
pub struct QuotientCommitted<F: PrimeField, G: Copy> {
    /// What is kept from step to step.
    pub session: Session<F, G>,
    /// The polynomials of the argument.
    pub polynomials: ProverPolynomials<F>,
    /// The challenges of the numerator.
    pub challenges: Challenges<F>,
}

impl<F: PrimeField, G: Copy> QuotientCommitted<F, G> {
    /// The round is in order.
    pub open spec fn wf(&self) -> bool {
        opening_wf(self.session, self.polynomials, self.challenges, Progress::Quotient)
    }

    /// Goes on with the opening point.
    pub fn resume(self, z: F) -> (r: Opened<F, G>)
        requires
            self.wf(),
        ensures
            r.wf(),
            r.session.job == self.session.job,
            r.session.commitments == self.session.commitments,
            r.session.drawn == (Drawn { z: Some(z), ..self.session.drawn }),
            r.polynomials == self.polynomials,
            r.challenges == self.challenges,
            r.z == z,
    {
        let job = &self.session.job;
        let openings = open_polynomials(
            &self.polynomials,
            &job.queries,
            &job.gates,
            &job.domain,
            &z,
        );
        let mut session = self.session;
        session.commit_openings(z, openings, Ghost(self.polynomials.lookup is Some));
        Opened { session, polynomials: self.polynomials, challenges: self.challenges, z }
    }
}

/// The polynomials are opened. The gates are asked for their part in the
/// linearization.
#[derive(Debug)]
pub struct Opened<F: PrimeField, G: Copy> {
    /// What is kept from step to step.
    pub session: Session<F, G>,
    /// The polynomials of the argument.
    pub polynomials: ProverPolynomials<F>,
    /// The challenges of the numerator.
    pub challenges: Challenges<F>,
    /// The opening point.
    pub z: F,
}

impl<F: PrimeField, G: Copy> Opened<F, G> {
    /// The round is in order, and the openings are the values of the
    /// polynomials.
    pub open spec fn wf(&self) -> bool {
        let job = self.session.job;
        &&& opening_wf(self.session, self.polynomials, self.challenges, Progress::Opened)
        &&& self.session.drawn.z == Some(self.z)
        &&& self.session.openings matches Some(o) && o.opens(
            self.polynomials,
            job.queries,
            self.z.val(),
            job.domain.generator.val(),
            job.domain.size as nat,
        )
    }

    /// What the known gates answer, where the main gate alone is linearized. It
    /// fails exactly if a wire, or `D` of the next row, was not opened, or if
    /// the Lagrange polynomial of a row with a public input has no value at the
    /// opening point.
    pub fn gate_contributions(&self) -> (r: Result<GateContributions<F>, SynthesisError>)
        requires
            self.wf(),
            forall|k: int|
                0 < k < self.session.job.gates@.len() ==> !(
                #[trigger] self.session.job.gates@[k]).benefits_from_linearization,
        ensures
            ({
                let job = self.session.job;
                let all_opened = wires_opened(job.queries)
                    && job.queries.state_polys.at_z_omega@.contains(3);
                let defined = inputs_defined::<F>(
                    job.inputs@.len(),
                    job.domain.generator.val(),
                    job.domain.size as nat,
                    self.z.val(),
                );
                match r {
                    Ok(c) => {
                        &&& all_opened
                        &&& defined
                        &&& c.wf(job.gates@, job.domain.size as int)
                        &&& known_contributions(
                            c,
                            job.gates@,
                            self.polynomials,
                            job.inputs@,
                            self.challenges.alpha.val(),
                            job.domain,
                            self.z.val(),
                        )
                    },
                    Err(SynthesisError::AssignmentMissing) => !all_opened,
                    Err(SynthesisError::DivisionByZero) => all_opened && !defined,
                    Err(_) => false,
                }
            }),
    {
        let job = &self.session.job;
        match &self.session.openings {
            Some(o) => contribute_into_linearization(
                &job.gates,
                &self.polynomials,
                &job.queries,
                o,
                &job.inputs,
                &self.challenges.alpha,
                &job.domain,
                &self.z,
            ),
            None => Err(SynthesisError::AssignmentMissing),
        }
    }

    /// The linearization polynomial is the sum of these scaled polynomials.
    pub open spec fn terms(&self, c: GateContributions<F>) -> Seq<(int, Seq<int>)> {
        let job = self.session.job;
        linear_terms(
            job.gates@,
            self.polynomials,
            c,
            at_z(self.polynomials, self.session.openings->0, job.domain, self.z.val()),
            weights_of(self.session, self.challenges),
        )
    }

    /// The openings meet the equation of the quotient.
    pub open spec fn satisfied(&self, c: GateContributions<F>, linearization_at_z: F) -> bool {
        let job = self.session.job;
        let o = self.session.openings->0;
        red::<F>(
            o.quotient_at_z.val() * (pow(self.z.val(), job.domain.size as nat) - 1),
        ) == red::<F>(
            numerator_from_openings(
                job.gates@,
                linearization_at_z.val(),
                c.inputs_term.val(),
                at_z(self.polynomials, o, job.domain, self.z.val()),
                weights_of(self.session, self.challenges),
            ),
        )
    }

    /// The openings are refused: some linearization polynomial makes them miss the
    /// equation of the quotient.
    pub open spec fn refuses(&self, c: GateContributions<F>) -> bool {
        exists|l: Seq<F>, value: F|
            {
                &&& #[trigger] represents(l, self.terms(c), self.session.job.domain.size as int)
                &&& value.val() == red::<F>(eval(vals(l), self.z.val()))
                &&& !(#[trigger] self.satisfied(c, value))
            }
    }

    /// Goes on with what the gates answer. It fails exactly if a wire was not
    /// opened, if a Lagrange polynomial has no value at the opening point, or if
    /// the openings do not meet the equation of the quotient.
    pub fn resume(
        self,
        c: GateContributions<F>,
    ) -> (r: Result<Linearized<F, G>, SynthesisError>)
        requires
            self.wf(),
            c.wf(self.session.job.gates@, self.session.job.domain.size as int),
        ensures
            ({
                let job = self.session.job;
                let z = self.z.val();
                let size = job.domain.size as int;
                let defined = lagranges_defined(
                    job.domain,
                    z,
                    self.polynomials.lookup is Some,
                );
                match r {
                    Ok(next) => {
                        &&& wires_opened(job.queries)
                        &&& defined
                        &&& !self.refuses(c)
                        &&& next.wf()
                        &&& next.session.job == self.session.job
                        &&& next.session.commitments == self.session.commitments
                        &&& next.session.drawn == self.session.drawn
                        &&& next.session.openings == self.session.openings
                        &&& next.polynomials == self.polynomials
                        &&& next.challenges == self.challenges
                        &&& next.z == self.z
                        &&& represents(next.linearization@, self.terms(c), size)
                        &&& self.satisfied(c, next.session.linearization_at_z->0)
                    },
                    Err(SynthesisError::AssignmentMissing) => !wires_opened(job.queries),
                    Err(SynthesisError::DivisionByZero) => wires_opened(job.queries) && !defined,
                    Err(SynthesisError::Unsatisfiable) => {
                        &&& wires_opened(job.queries)
                        &&& defined
                        &&& self.refuses(c)
                    },
                    Err(_) => false,
                }
            }),
    {
        let job = &self.session.job;
        let p = &self.polynomials;
        let z = self.z;
        let o = match &self.session.openings {
            Some(o) => o,
            None => {
                return Err(SynthesisError::AssignmentMissing);
            },
        };
        let linearization = match linearize(
            &job.gates,
            p,
            &job.queries,
            o,
            &c,
            &self.challenges,
            &job.non_residues,
            &job.domain,
            &z,
        ) {
            Ok(l) => l,
            Err(e) => {
                return Err(e);
            },
        };
        let value = evaluate_at(&linearization, &z);
        let holds = match equation_holds(
            &job.gates,
            p,
            &job.queries,
            o,
            &c,
            &self.challenges,
            &job.non_residues,
            &job.domain,
            &z,
            &value,
        ) {
            Ok(b) => b,
            Err(e) => {
                return Err(e);
            },
        };
        proof {
            assert(represents(linearization@, self.terms(c), job.domain.size as int));
            assert(holds == self.satisfied(c, value));
            let terms = self.terms(c);
            let n = job.domain.size as int;
            lemma_represents_eval(linearization@, terms, n, z.val());
            assert forall|l: Seq<F>, v: F|
                #[trigger] represents(l, terms, n) && v.val() == red::<F>(
                    eval(vals(l), z.val()),
                ) implies #[trigger] self.satisfied(c, v) == holds by {
                lemma_represents_eval(l, terms, n, z.val());
                assert(v.val() == value.val());
            }
        }
        if !holds {
            return Err(SynthesisError::Unsatisfiable);
        }
        let mut session = self.session;
        session.commit_linearization(value, Ghost(self.polynomials.lookup is Some));
        Ok(
            Linearized {
                session,
                polynomials: self.polynomials,
                challenges: self.challenges,
                z,
                linearization,
            },
        )
    }
}

/// The openings meet the equation. The last challenge is drawn next.
#[derive(Debug)]
pub struct Linearized<F: PrimeField, G: Copy> {
    /// What is kept from step to step.
    pub session: Session<F, G>,
    /// The polynomials of the argument.
    pub polynomials: ProverPolynomials<F>,
    /// The challenges of the numerator.
    pub challenges: Challenges<F>,
    /// The opening point.
    pub z: F,
    /// The linearization polynomial.
    pub linearization: Vec<F>,
}

impl<F: PrimeField, G: Copy> Linearized<F, G> {
    /// The round is in order, and the opening of the linearization polynomial is
    /// its value.
    pub open spec fn wf(&self) -> bool {
        let job = self.session.job;
        &&& opening_wf(self.session, self.polynomials, self.challenges, Progress::Linearized)
        &&& self.session.drawn.z == Some(self.z)
        &&& self.session.openings matches Some(o) && o.opens(
            self.polynomials,
            job.queries,
            self.z.val(),
            job.domain.generator.val(),
            job.domain.size as nat,
        )
        &&& self.linearization@.len() == job.domain.size
        &&& self.session.linearization_at_z matches Some(l) && l.val() == red::<F>(
            eval(vals(self.linearization@), self.z.val()),
        )
    }

    /// Goes on with the last challenge.
    pub fn resume(self, v: F) -> (r: OpeningsCombined<F, G>)
        requires
            self.wf(),
        ensures
            r.wf(),
            r.session.job == self.session.job,
            r.session.commitments == self.session.commitments,
            r.session.drawn == (Drawn { v: Some(v), ..self.session.drawn }),
            r.session.openings == self.session.openings,
            r.session.linearization_at_z == self.session.linearization_at_z,
            r.opening.prove(
                self.polynomials,
                self.session.job.queries,
                vals(self.linearization@),
                self.z.val(),
                self.session.job.domain.generator.val(),
                self.session.job.domain.size as nat,
                v.val(),
            ),
    {
        let job = &self.session.job;
        let opening = combine_openings(
            &self.polynomials,
            &job.queries,
            &job.gates,
            &self.linearization,
            &job.domain,
            &self.z,
            &v,
        );
        let mut session = self.session;
        session.draw_v(v, Ghost(self.polynomials.lookup is Some));
        proof {
            let o = self.session.openings->0;
            let q = self.session.job.queries;
            assert(vals(o.state_at_z_omega@).len() == q.state_polys.at_z_omega@.len());
            assert(vals(o.witness_at_z_omega@).len() == q.witness_polys.at_z_omega@.len());
            assert(vals(o.selectors_at_z@).len() == q.gate_selectors@.len());
        }
        OpeningsCombined { session, opening }
    }
}

/// The polynomials `opening.open_at_z` and `opening.open_at_z_omega` wait for
/// their commitments.
#[derive(Debug)]
pub struct OpeningsCombined<F: PrimeField, G: Copy> {
    /// What is kept from step to step.
    pub session: Session<F, G>,
    /// The polynomials that prove the openings.
    pub opening: OpeningPolynomials<F>,
}

/// A proof.
#[derive(Debug)]
pub struct Proof<F: PrimeField, G: Copy> {
    /// The number of rows of the circuit.
    pub n: usize,
    /// The public inputs.
    pub inputs: Vec<F>,
    /// Commitments to the state polynomials.
    pub state_polys_commitments: Vec<G>,
    /// Commitments to the witness polynomials.
    pub witness_polys_commitments: Vec<G>,
    /// Commitment to the copy-permutation grand product.
    pub copy_permutation_grand_product_commitment: G,
    /// Commitment to the sorted column of the lookup argument.
    pub lookup_s_poly_commitment: Option<G>,
    /// Commitment to the lookup grand product.
    pub lookup_grand_product_commitment: Option<G>,
    /// Commitments to the parts of the quotient.
    pub quotient_poly_parts_commitments: Vec<G>,
    /// Openings of state polynomials at `z`.
    pub state_polys_openings_at_z: Vec<F>,
    /// Openings of state polynomials further on: the number of steps, the index
    /// of the polynomial and the value.
    pub state_polys_openings_at_dilations: Vec<(usize, usize, F)>,
    /// Openings of witness polynomials at `z`.
    pub witness_polys_openings_at_z: Vec<F>,
    /// Openings of witness polynomials further on: the number of steps, the
    /// index of the polynomial and the value.
    pub witness_polys_openings_at_dilations: Vec<(usize, usize, F)>,
    /// Openings of setup polynomials at `z`: the index of a gate, the index of
    /// the polynomial and the value.
    pub gate_setup_openings_at_z: Vec<(usize, usize, F)>,
    /// Openings of selectors at `z`: the index of a gate and the value.
    pub gate_selectors_openings_at_z: Vec<(usize, F)>,
    /// Openings of all permutation polynomials but the last at `z`.
    pub copy_permutation_polys_openings_at_z: Vec<F>,
    /// Opening of the copy-permutation grand product at `z * omega`.
    pub copy_permutation_grand_product_opening_at_z_omega: F,
    /// Opening of the sorted column at `z * omega`.
    pub lookup_s_poly_opening_at_z_omega: Option<F>,
    /// Opening of the lookup grand product at `z * omega`.
    pub lookup_grand_product_opening_at_z_omega: Option<F>,
    /// Opening of the tables at `z`.
    pub lookup_t_poly_opening_at_z: Option<F>,
    /// Opening of the tables at `z * omega`.
    pub lookup_t_poly_opening_at_z_omega: Option<F>,
    /// Opening of the lookup selector at `z`.
    pub lookup_selector_poly_opening_at_z: Option<F>,
    /// Opening of the table type at `z`.
    pub lookup_table_type_poly_opening_at_z: Option<F>,
    /// Opening of the quotient at `z`.
    pub quotient_poly_opening_at_z: F,
    /// Opening of the linearization polynomial at `z`.
    pub linearization_poly_opening_at_z: F,
    /// Commitment that proves the openings at `z`.
    pub opening_proof_at_z: G,
    /// Commitment that proves the openings at `z * omega`.
    pub opening_proof_at_z_omega: G,
}

/// Values with their indices, one step on.
pub open spec fn dilated<F>(ids: Seq<usize>, values: Seq<F>) -> Seq<(usize, usize, F)> {
    Seq::new(ids.len(), |i: int| (1usize, ids[i], values[i]))
}

/// Values with their indices.
pub open spec fn indexed<F>(ids: Seq<usize>, values: Seq<F>) -> Seq<(usize, F)> {
    Seq::new(ids.len(), |i: int| (ids[i], values[i]))
}

impl<F: PrimeField, G: Copy> Proof<F, G> {
    /// The proof holds the commitments and the openings of a session.
    pub open spec fn carries(&self, session: Session<F, G>) -> bool {
        let c = session.commitments;
        let q = session.job.queries;
        let o = session.openings->0;
        &&& self.n == session.job.n
        &&& self.inputs == session.job.inputs
        &&& self.state_polys_commitments == c.state
        &&& self.witness_polys_commitments == c.witness
        &&& c.copy_z == Some(self.copy_permutation_grand_product_commitment)
        &&& self.lookup_s_poly_commitment == c.lookup_s
        &&& self.lookup_grand_product_commitment == c.lookup_z
        &&& self.quotient_poly_parts_commitments == c.quotient_parts
        &&& self.state_polys_openings_at_z == o.state_at_z
        &&& self.state_polys_openings_at_dilations@ == dilated(
            q.state_polys.at_z_omega@,
            o.state_at_z_omega@,
        )
        &&& self.witness_polys_openings_at_z == o.witness_at_z
        &&& self.witness_polys_openings_at_dilations@ == dilated(
            q.witness_polys.at_z_omega@,
            o.witness_at_z_omega@,
        )
        &&& self.gate_setup_openings_at_z == o.gate_setup_at_z
        &&& self.gate_selectors_openings_at_z@ == indexed(q.gate_selectors@, o.selectors_at_z@)
        &&& self.copy_permutation_polys_openings_at_z == o.permutations_at_z
        &&& self.copy_permutation_grand_product_opening_at_z_omega == o.copy_z_at_z_omega
        &&& match o.lookup {
            Some(l) => {
                &&& self.lookup_s_poly_opening_at_z_omega == Some(l.s_at_z_omega)
                &&& self.lookup_grand_product_opening_at_z_omega == Some(
                    l.grand_product_at_z_omega,
                )
                &&& self.lookup_t_poly_opening_at_z == Some(l.t_at_z)
                &&& self.lookup_t_poly_opening_at_z_omega == Some(l.t_at_z_omega)
                &&& self.lookup_selector_poly_opening_at_z == Some(l.selector_at_z)
                &&& self.lookup_table_type_poly_opening_at_z == Some(l.table_type_at_z)
            },
            None => {
                &&& self.lookup_s_poly_opening_at_z_omega is None
                &&& self.lookup_grand_product_opening_at_z_omega is None
                &&& self.lookup_t_poly_opening_at_z is None
                &&& self.lookup_t_poly_opening_at_z_omega is None
                &&& self.lookup_selector_poly_opening_at_z is None
                &&& self.lookup_table_type_poly_opening_at_z is None
            },
        }
        &&& self.quotient_poly_opening_at_z == o.quotient_at_z
        &&& session.linearization_at_z == Some(self.linearization_poly_opening_at_z)
    }
}

fn dilate<F: PrimeField>(ids: &Vec<usize>, values: &Vec<F>) -> (r: Vec<(usize, usize, F)>)
    requires
        ids@.len() == values@.len(),
    ensures
        r@ == dilated(ids@, values@),
{
    let mut r: Vec<(usize, usize, F)> = Vec::with_capacity(ids.len());
    let mut i: usize = 0;
    while i < ids.len()
        invariant
            i <= ids@.len(),
            ids@.len() == values@.len(),
            r@.len() == i,
            forall|j: int| 0 <= j < i ==> #[trigger] r@[j] == (1usize, ids@[j], values@[j]),
        decreases ids@.len() - i,
    {
        r.push((1, ids[i], values[i]));
        i += 1;
    }
    proof {
        assert(r@ =~= dilated(ids@, values@));
    }
    r
}

fn index<F: PrimeField>(ids: &Vec<usize>, values: &Vec<F>) -> (r: Vec<(usize, F)>)
    requires
        ids@.len() == values@.len(),
    ensures
        r@ == indexed(ids@, values@),
{
    let mut r: Vec<(usize, F)> = Vec::with_capacity(ids.len());
    let mut i: usize = 0;
    while i < ids.len()
        invariant
            i <= ids@.len(),
            ids@.len() == values@.len(),
            r@.len() == i,
            forall|j: int| 0 <= j < i ==> #[trigger] r@[j] == (ids@[j], values@[j]),
        decreases ids@.len() - i,
    {
        r.push((ids[i], values[i]));
        i += 1;
    }
    proof {
        assert(r@ =~= indexed(ids@, values@));
    }
    r
}

impl<F: PrimeField, G: Copy> OpeningsCombined<F, G> {
    /// The round is in order.
    pub open spec fn wf(&self) -> bool {
        let q = self.session.job.queries;
        &&& self.session.wf(Progress::Done, self.session.drawn.eta is Some)
        &&& self.session.openings matches Some(o) && {
            &&& o.state_at_z_omega@.len() == q.state_polys.at_z_omega@.len()
            &&& o.witness_at_z_omega@.len() == q.witness_polys.at_z_omega@.len()
            &&& o.selectors_at_z@.len() == q.gate_selectors@.len()
        }
    }

    /// Ends with the commitments to the two polynomials that prove the openings.
    pub fn finish(self, opening_at_z: G, opening_at_z_omega: G) -> (r: Proof<F, G>)
        requires
            self.wf(),
        ensures
            r.carries(self.session),
            r.opening_proof_at_z == opening_at_z,
            r.opening_proof_at_z_omega == opening_at_z_omega,
    {
        let job = self.session.job;
        let c = self.session.commitments;
        let o = self.session.openings.unwrap();
        let state_dilated = dilate(&job.queries.state_polys.at_z_omega, &o.state_at_z_omega);
        let witness_dilated = dilate(
            &job.queries.witness_polys.at_z_omega,
            &o.witness_at_z_omega,
        );
        let selectors = index(&job.queries.gate_selectors, &o.selectors_at_z);
        let (mut s, mut grand_product, mut t, mut t_next, mut selector, mut table_type) = (
            None,
            None,
            None,
            None,
            None,
            None,
        );
        if let Some(l) = &o.lookup {
            s = Some(l.s_at_z_omega);
            grand_product = Some(l.grand_product_at_z_omega);
            t = Some(l.t_at_z);
            t_next = Some(l.t_at_z_omega);
            selector = Some(l.selector_at_z);
            table_type = Some(l.table_type_at_z);
        }
        Proof {
            n: job.n,
            inputs: job.inputs,
            state_polys_commitments: c.state,
            witness_polys_commitments: c.witness,
            copy_permutation_grand_product_commitment: c.copy_z.unwrap(),
            lookup_s_poly_commitment: c.lookup_s,
            lookup_grand_product_commitment: c.lookup_z,
            quotient_poly_parts_commitments: c.quotient_parts,
            state_polys_openings_at_z: o.state_at_z,
            state_polys_openings_at_dilations: state_dilated,
            witness_polys_openings_at_z: o.witness_at_z,
            witness_polys_openings_at_dilations: witness_dilated,
            gate_setup_openings_at_z: o.gate_setup_at_z,
            gate_selectors_openings_at_z: selectors,
            copy_permutation_polys_openings_at_z: o.permutations_at_z,
            copy_permutation_grand_product_opening_at_z_omega: o.copy_z_at_z_omega,
            lookup_s_poly_opening_at_z_omega: s,
            lookup_grand_product_opening_at_z_omega: grand_product,
            lookup_t_poly_opening_at_z: t,
            lookup_t_poly_opening_at_z_omega: t_next,
            lookup_selector_poly_opening_at_z: selector,
            lookup_table_type_poly_opening_at_z: table_type,
            quotient_poly_opening_at_z: o.quotient_at_z,
            linearization_poly_opening_at_z: self.session.linearization_at_z.unwrap(),
            opening_proof_at_z: opening_at_z,
            opening_proof_at_z_omega: opening_at_z_omega,
        }
    }
}

} // verus!
