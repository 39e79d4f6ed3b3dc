//! The rounds of the lookup argument.

use crate::bits::bitreverse_enumeration;
use crate::circuit::Monomials;
use crate::errors::SynthesisError;
use crate::fft::takes;
use crate::field::{all_invertible, red, vals, PrimeField};
use crate::linearization::{LookupPolynomials, ProverPolynomials};
use crate::lookup::{
    column_on_domain, expected_last_value, gamma_beta, lookup_denominators, lookup_grand_product,
    lookup_numerators, place_on_domain,
};
use crate::permutation::is_grand_product;
use crate::polynomial::{
    aggregate, aggregated, all_len, columns, copied, padded, padded_seq, slice,
};
use crate::prover::{
    is_bitreversed, lemma_reordered, permutation_values_wf, round_wf, takes_reversed, CopyCommitted,
    CopyStart, LookupPrepared, LookupSource, LookupValues, WiresCommitted,
};
use crate::session::{Commitments, Drawn, Progress, Session};
use vstd::arithmetic::power::*;
use vstd::prelude::*;

verus! {

/// The transforms that the table type and the lookup selector need.
#[derive(Debug)]
pub enum LookupTransforms<F: PrimeField> {
    /// Columns on the domain, to be transformed into coefficients.
    Inverse(Vec<F>, Vec<F>),
    /// Polynomials, whose values on the domain have to be computed.
    Forward(Vec<F>, Vec<F>),
}

/// The challenge that combines the columns of a table is drawn. The table type
/// and the lookup selector wait for their transforms.
#[derive(Debug)]
pub struct LookupStart<F: PrimeField, G: Copy> {
    /// What is kept from step to step.
    pub session: Session<F, G>,
    /// The polynomials of the circuit.
    pub monomials: Monomials<F>,
    /// The values of the permutation polynomials.
    pub permutation_values: Vec<Vec<F>>,
    /// The lookup argument.
    pub lookup: LookupSource<F>,
    /// The challenge.
    pub eta: F,
}

impl<F: PrimeField, G: Copy> WiresCommitted<F, G> {
    /// Goes on with the challenge that combines the columns of a table.
    pub fn begin_lookup(self, eta: F) -> (r: LookupStart<F, G>)
        requires
            self.wf(),
            self.lookup is Some,
        ensures
            r.wf(),
            r.session.job == self.session.job,
            r.session.commitments == self.session.commitments,
            r.monomials == self.monomials,
            r.permutation_values == self.permutation_values,
            Some(r.lookup) == self.lookup,
            r.eta == eta,
    {
        let mut session = self.session;
        let source = self.lookup;
        session.draw_eta(eta);
        LookupStart {
            session,
            monomials: self.monomials,
            permutation_values: self.permutation_values,
            lookup: source.unwrap(),
            eta,
        }
    }
}

impl<F: PrimeField, G: Copy> LookupStart<F, G> {
    /// The round is in order.
    pub open spec fn wf(&self) -> bool {
        let job = self.session.job;
        &&& round_wf(self.session, self.monomials, Progress::Eta, true)
        &&& permutation_values_wf(self.permutation_values@, job)
        &&& self.lookup.wf(job.n as int)
        &&& self.session.drawn.eta == Some(self.eta)
    }

    /// What has to be transformed: the table type and the lookup selector, as
    /// columns if the circuit kept its setup, else as polynomials.
    pub fn transforms(&self) -> (r: LookupTransforms<F>)
        requires
            self.wf(),
        ensures
            match self.lookup {
                LookupSource::Columns(c) => {
                    &&& r matches LookupTransforms::Inverse(table_type, selector)
                    &&& vals(table_type@) == padded_seq(
                        vals(c.table_type_values@),
                        self.session.job.domain.size as nat,
                    )
                    &&& vals(selector@) == padded_seq(
                        vals(c.selector_values@),
                        self.session.job.domain.size as nat,
                    )
                },
                LookupSource::FromSetup(s) => {
                    &&& r matches LookupTransforms::Forward(table_type, selector)
                    &&& table_type@ == s.table_type@
                    &&& selector@ == s.selector@
                },
            },
    {
        match &self.lookup {
            LookupSource::Columns(c) => LookupTransforms::Inverse(
                padded(&c.table_type_values, self.session.job.domain.size as usize),
                padded(&c.selector_values, self.session.job.domain.size as usize),
            ),
            LookupSource::FromSetup(s) => LookupTransforms::Forward(
                copied(&s.table_type),
                copied(&s.selector),
            ),
        }
    }

    /// What the rows look up: the masked columns and the table type, combined.
    pub open spec fn queried(
        &self,
        table_type: Seq<F>,
        masked_entries: Seq<Vec<F>>,
    ) -> Seq<int> {
        let n = self.session.job.n as nat;
        let types = match self.lookup {
            LookupSource::Columns(c) => vals(c.table_type_values@),
            LookupSource::FromSetup(_) => vals(table_type).take(n as int),
        };
        aggregated::<F>(columns(masked_entries).push(types), self.eta.val(), n)
    }

    /// The sorted rows, combined and placed on the domain.
    pub open spec fn sorted(&self) -> Seq<int> {
        let ends = match self.lookup {
            LookupSource::Columns(c) => c.s_poly_ends@,
            LookupSource::FromSetup(s) => s.s_poly_ends@,
        };
        column_on_domain(
            aggregated::<F>(columns(ends), self.eta.val(), ends[0]@.len()),
            self.session.job.domain.size as nat,
        )
    }

    /// Goes on with what the transforms answer, in the natural order of the
    /// coefficients or of the rows, and with the three columns of the rows that
    /// look something up.
    pub fn resume(
        self,
        table_type: Vec<F>,
        selector: Vec<F>,
        masked_entries: Vec<Vec<F>>,
    ) -> (r: LookupCombined<F, G>)
        requires
            self.wf(),
            table_type@.len() == self.session.job.domain.size,
            selector@.len() == self.session.job.domain.size,
            masked_entries@.len() == 3,
            all_len(masked_entries@, self.session.job.n as int),
        ensures
            r.wf(),
            r.session == self.session,
            r.monomials == self.monomials,
            r.permutation_values == self.permutation_values,
            r.eta == self.eta,
            vals(r.f@) == self.queried(table_type@, masked_entries@),
            vals(r.s_ifft@) == self.sorted(),
            match self.lookup {
                LookupSource::Columns(c) => {
                    &&& r.table_type == table_type
                    &&& r.selector == selector
                    &&& r.tables matches Tables::Values(t)
                    &&& vals(t@) == column_on_domain(
                        aggregated::<F>(
                            columns(c.t_poly_ends@),
                            self.eta.val(),
                            c.t_poly_ends@[0]@.len(),
                        ),
                        self.session.job.domain.size as nat,
                    )
                },
                LookupSource::FromSetup(s) => {
                    &&& r.table_type == s.table_type
                    &&& r.selector == s.selector
                    &&& r.tables matches Tables::Polynomial(t)
                    &&& vals(t@) == aggregated::<F>(
                        columns(s.tables@),
                        self.eta.val(),
                        self.session.job.domain.size as nat,
                    )
                },
            },
    {
        let n = self.session.job.n;
        let size = self.session.job.domain.size as usize;
        let eta = self.eta;
        let mut entries = masked_entries;
        let ghost masked = columns(entries@);
        match self.lookup {
            LookupSource::Columns(c) => {
                entries.push(c.table_type_values);
                proof {
                    assert(columns(entries@) =~= masked.push(vals(c.table_type_values@)));
                }
                let f = aggregate(&entries, &eta);
                let t = place_on_domain(&aggregate(&c.t_poly_ends, &eta), size);
                let s = place_on_domain(&aggregate(&c.s_poly_ends, &eta), size);
                LookupCombined {
                    session: self.session,
                    monomials: self.monomials,
                    permutation_values: self.permutation_values,
                    eta,
                    f,
                    selector,
                    table_type,
                    tables: Tables::Values(t),
                    s_ifft: s,
                }
            },
            LookupSource::FromSetup(u) => {
                let types = slice(&table_type, 0, n);
                proof {
                    assert(vals(types@) =~= vals(table_type@).take(n as int));
                }
                entries.push(types);
                proof {
                    assert(columns(entries@) =~= masked.push(vals(table_type@).take(n as int)));
                }
                let f = aggregate(&entries, &eta);
                let t = aggregate(&u.tables, &eta);
                let s = place_on_domain(&aggregate(&u.s_poly_ends, &eta), size);
                LookupCombined {
                    session: self.session,
                    monomials: self.monomials,
                    permutation_values: self.permutation_values,
                    eta,
                    f,
                    selector: u.selector,
                    table_type: u.table_type,
                    tables: Tables::Polynomial(t),
                    s_ifft: s,
                }
            },
        }
    }
}

/// The combined tables.
#[derive(Debug)]
pub enum Tables<F: PrimeField> {
    /// As a column on the domain.
    Values(Vec<F>),
    /// As coefficients, whose values on the domain have to be computed.
    Polynomial(Vec<F>),
}

/// The columns are combined. The sorted column, `s_ifft`, waits for its
/// transform, and so do the tables.
#[derive(Debug)]
pub struct LookupCombined<F: PrimeField, G: Copy> {
    /// What is kept from step to step.
    pub session: Session<F, G>,
    /// The polynomials of the circuit.
    pub monomials: Monomials<F>,
    /// The values of the permutation polynomials.
    pub permutation_values: Vec<Vec<F>>,
    /// The challenge that combines the columns.
    pub eta: F,
    /// What the rows look up.
    pub f: Vec<F>,
    /// The lookup selector, as coefficients.
    pub selector: Vec<F>,
    /// The table type, as coefficients.
    pub table_type: Vec<F>,
    /// The tables.
    pub tables: Tables<F>,
    /// The sorted column on the domain, to be transformed into coefficients.
    pub s_ifft: Vec<F>,
}

impl<F: PrimeField, G: Copy> LookupCombined<F, G> {
    /// The round is in order.
    pub open spec fn wf(&self) -> bool {
        let job = self.session.job;
        let size = job.domain.size;
        &&& round_wf(self.session, self.monomials, Progress::Eta, true)
        &&& permutation_values_wf(self.permutation_values@, job)
        &&& self.session.drawn.eta == Some(self.eta)
        &&& self.f@.len() == job.n
        &&& self.selector@.len() == size
        &&& self.table_type@.len() == size
        &&& self.s_ifft@.len() == size
        &&& match self.tables {
            Tables::Values(t) => t@.len() == size,
            Tables::Polynomial(t) => t@.len() == size,
        }
    }

    /// What has to be transformed for the tables: their column, to be transformed
    /// into coefficients, or else their polynomial, whose values are to be
    /// computed. The first component says whether it is a column.
    pub fn table_transform(&self) -> (r: (bool, &Vec<F>))
        ensures
            match self.tables {
                Tables::Values(t) => r.0 && r.1@ == t@,
                Tables::Polynomial(t) => !r.0 && r.1@ == t@,
            },
    {
        match &self.tables {
            Tables::Values(t) => (true, t),
            Tables::Polynomial(t) => (false, t),
        }
    }

    /// Goes on with what the transforms of the tables and of the sorted column
    /// answer: coefficients enumerated by reversed indices, which are kept in their
    /// natural order, and for the polynomial of the tables its values on the domain
    /// in the natural order.
    pub fn resume(self, tables: Vec<F>, sorted: Vec<F>) -> (r: LookupSorted<F, G>)
        requires
            self.wf(),
            tables@.len() == self.session.job.domain.size,
            sorted@.len() == self.session.job.domain.size,
        ensures
            r.wf(),
            r.session == self.session,
            r.monomials == self.monomials,
            r.permutation_values == self.permutation_values,
            ({
                let n = self.session.job.n as int;
                let bits = self.session.job.domain.power_of_two as nat;
                let l = r.lookup;
                &&& l.values.f == self.f
                &&& l.values.s@ == self.s_ifft@.subrange(0, n)
                &&& l.values.s_shifted@ == self.s_ifft@.subrange(1, n + 1)
                &&& is_bitreversed(l.s@, sorted@, bits)
                &&& takes_reversed(
                    sorted@,
                    vals(self.s_ifft@),
                    self.session.job.domain,
                ) ==> takes(
                    l.s@,
                    vals(self.s_ifft@),
                    self.session.job.domain.generator.val(),
                )
                &&& l.selector == self.selector
                &&& l.table_type == self.table_type
                &&& match self.tables {
                    Tables::Values(t) => {
                        &&& l.values.t@ == t@.subrange(0, n)
                        &&& l.values.t_shifted@ == t@.subrange(1, n + 1)
                        &&& is_bitreversed(l.t@, tables@, bits)
                        &&& takes_reversed(
                            tables@,
                            vals(t@),
                            self.session.job.domain,
                        ) ==> takes(
                            l.t@,
                            vals(t@),
                            self.session.job.domain.generator.val(),
                        )
                    },
                    Tables::Polynomial(t) => {
                        &&& l.values.t@ == tables@.subrange(0, n)
                        &&& l.values.t_shifted@ == tables@.subrange(1, n + 1)
                        &&& l.t == t
                    },
                }
            }),
    {
        let n = self.session.job.n;
        let bits = self.session.job.domain.power_of_two;
        let s = bitreverse_enumeration(&sorted, bits);
        let (t_values, t) = match self.tables {
            Tables::Values(v) => (v, bitreverse_enumeration(&tables, bits)),
            Tables::Polynomial(p) => (tables, p),
        };
        proof {
            lemma_reordered(s@, sorted@, bits as nat);
            if self.tables is Values {
                lemma_reordered(t@, tables@, bits as nat);
            }
        }
        let values = LookupValues {
            f: self.f,
            t: slice(&t_values, 0, n),
            t_shifted: slice(&t_values, 1, n + 1),
            s: slice(&self.s_ifft, 0, n),
            s_shifted: slice(&self.s_ifft, 1, n + 1),
        };
        LookupSorted {
            session: self.session,
            monomials: self.monomials,
            permutation_values: self.permutation_values,
            lookup: LookupPrepared {
                values,
                t,
                s,
                selector: self.selector,
                table_type: self.table_type,
            },
        }
    }
}

/// The sorted column, `lookup.s`, waits for its commitment.
#[derive(Debug)]
pub struct LookupSorted<F: PrimeField, G: Copy> {
    /// What is kept from step to step.
    pub session: Session<F, G>,
    /// The polynomials of the circuit.
    pub monomials: Monomials<F>,
    /// The values of the permutation polynomials.
    pub permutation_values: Vec<Vec<F>>,
    /// The lookup argument.
    pub lookup: LookupPrepared<F>,
}

impl<F: PrimeField, G: Copy> LookupSorted<F, G> {
    /// The round is in order.
    pub open spec fn wf(&self) -> bool {
        let job = self.session.job;
        &&& round_wf(self.session, self.monomials, Progress::Eta, true)
        &&& permutation_values_wf(self.permutation_values@, job)
        &&& self.lookup.wf(job.n as int)
    }

    /// Goes on with the commitment.
    pub fn resume(self, commitment: G) -> (r: CopyStart<F, G>)
        requires
            self.wf(),
        ensures
            r.wf(),
            r.session.job == self.session.job,
            r.session.drawn == self.session.drawn,
            r.session.commitments == (Commitments {
                lookup_s: Some(commitment),
                ..self.session.commitments
            }),
            r.monomials == self.monomials,
            r.permutation_values == self.permutation_values,
            r.lookup == Some(self.lookup),
    {
        let mut session = self.session;
        session.commit_sorted(commitment);
        CopyStart {
            session,
            monomials: self.monomials,
            permutation_values: self.permutation_values,
            lookup: Some(self.lookup),
        }
    }
}

/// The lookup grand product, `ifft`, waits for its transform.
#[derive(Debug)]
pub struct LookupProduct<F: PrimeField, G: Copy> {
    /// What is kept from step to step.
    pub session: Session<F, G>,
    /// The polynomials of the circuit.
    pub monomials: Monomials<F>,
    /// The lookup argument.
    pub lookup: LookupPrepared<F>,
    /// The copy-permutation grand product, as coefficients.
    pub copy_z: Vec<F>,
    /// The values of the grand product, to be transformed into coefficients.
    pub ifft: Vec<F>,
}

/// What each row multiplies the lookup grand product by.
pub open spec fn numerators_of<F: PrimeField>(l: LookupPrepared<F>, beta: F, gamma: F) -> Seq<int> {
    lookup_numerators(
        vals(l.values.f@),
        vals(l.values.t@),
        vals(l.values.t_shifted@),
        beta.val(),
        gamma.val(),
    )
}

/// What each row divides the lookup grand product by.
pub open spec fn denominators_of<F: PrimeField>(
    l: LookupPrepared<F>,
    beta: F,
    gamma: F,
) -> Seq<int> {
    lookup_denominators(
        vals(l.values.s@),
        vals(l.values.s_shifted@),
        beta.val(),
        gamma.val(),
    )
}

impl<F: PrimeField, G: Copy> CopyCommitted<F, G> {
    /// Goes on with the challenges of the lookup grand product. It fails exactly
    /// if a denominator has no inverse.
    pub fn begin_lookup_product(
        self,
        beta: F,
        gamma: F,
    ) -> (r: Result<LookupProduct<F, G>, SynthesisError>)
        requires
            self.wf(),
            self.lookup is Some,
        ensures
            ({
                let l = self.lookup->0;
                let dens = denominators_of(l, beta, gamma);
                match r {
                    Ok(next) => {
                        &&& all_invertible::<F>(dens)
                        &&& next.wf()
                        &&& next.session.job == self.session.job
                        &&& next.session.commitments == self.session.commitments
                        &&& next.session.drawn == (Drawn {
                            lookup: Some((beta, gamma)),
                            ..self.session.drawn
                        })
                        &&& next.monomials == self.monomials
                        &&& next.lookup == l
                        &&& next.copy_z == self.copy_z
                        &&& is_grand_product::<F>(
                            vals(next.ifft@),
                            numerators_of(l, beta, gamma),
                            dens,
                        )
                    },
                    Err(e) => {
                        &&& e == SynthesisError::DivisionByZero
                        &&& !all_invertible::<F>(dens)
                    },
                }
            }),
    {
        let mut session = self.session;
        let lookup = self.lookup.unwrap();
        let z = match lookup_grand_product(
            &lookup.values.f,
            &lookup.values.t,
            &lookup.values.t_shifted,
            &lookup.values.s,
            &lookup.values.s_shifted,
            &beta,
            &gamma,
        ) {
            Ok(z) => z,
            Err(e) => {
                return Err(e);
            },
        };
        session.draw_lookup(beta, gamma);
        Ok(
            LookupProduct {
                session,
                monomials: self.monomials,
                lookup,
                copy_z: self.copy_z,
                ifft: z,
            },
        )
    }

    /// Goes on without a lookup argument.
    pub fn skip_lookup_product(self) -> (r: ProductsCommitted<F, G>)
        requires
            self.wf(),
            self.lookup is None,
        ensures
            r.wf(),
            r.session == self.session,
            r.polynomials.monomials == self.monomials,
            r.polynomials.copy_z == self.copy_z,
            r.polynomials.lookup is None,
    {
        ProductsCommitted {
            session: self.session,
            polynomials: ProverPolynomials {
                monomials: self.monomials,
                copy_z: self.copy_z,
                lookup: None,
                quotient_parts: Vec::new(),
            },
        }
    }
}

impl<F: PrimeField, G: Copy> LookupProduct<F, G> {
    /// The round is in order.
    pub open spec fn wf(&self) -> bool {
        let job = self.session.job;
        &&& round_wf(self.session, self.monomials, Progress::Lookup, true)
        &&& self.lookup.wf(job.n as int)
        &&& self.copy_z@.len() == job.domain.size
        &&& self.ifft@.len() == job.domain.size
    }

    /// The grand product ends with the power of `gamma * (beta + 1)` that the
    /// number of rows asks for: every looked up entry is in a table.
    pub open spec fn complete(&self) -> bool {
        let (beta, gamma) = self.session.drawn.lookup->0;
        self.ifft@.last().val() == red::<F>(
            pow(gamma_beta(beta.val(), gamma.val()), self.session.job.n as nat),
        )
    }

    /// Whether the grand product ends as it must.
    pub fn is_complete(&self) -> (r: bool)
        requires
            self.wf(),
        ensures
            r == self.complete(),
    {
        match self.session.drawn.lookup {
            Some((beta, gamma)) => {
                let n = self.session.job.n;
                let expected = expected_last_value(&beta, &gamma, n as u64);
                self.ifft[n].equals(&expected)
            },
            None => false,
        }
    }

    /// Goes on with what the transform answers: the coefficients, enumerated by
    /// reversed indices. They are kept in their natural order.
    pub fn resume(self, coefficients: Vec<F>) -> (r: LookupPolynomial<F, G>)
        requires
            self.wf(),
            self.complete(),
            coefficients@.len() == self.session.job.domain.size,
        ensures
            r.wf(),
            r.session == self.session,
            r.monomials == self.monomials,
            r.copy_z == self.copy_z,
            r.lookup == (LookupPolynomials {
                t: self.lookup.t,
                s: self.lookup.s,
                selector: self.lookup.selector,
                table_type: self.lookup.table_type,
                z: r.lookup.z,
            }),
            is_bitreversed(
                r.lookup.z@,
                coefficients@,
                self.session.job.domain.power_of_two as nat,
            ),
            takes_reversed(coefficients@, vals(self.ifft@), self.session.job.domain) ==> takes(
                r.lookup.z@,
                vals(self.ifft@),
                self.session.job.domain.generator.val(),
            ),
    {
        let z = bitreverse_enumeration(&coefficients, self.session.job.domain.power_of_two);
        proof {
            lemma_reordered(z@, coefficients@, self.session.job.domain.power_of_two as nat);
        }
        LookupPolynomial {
            session: self.session,
            monomials: self.monomials,
            copy_z: self.copy_z,
            lookup: LookupPolynomials {
                t: self.lookup.t,
                s: self.lookup.s,
                selector: self.lookup.selector,
                table_type: self.lookup.table_type,
                z,
            },
        }
    }
}

/// The lookup grand product, `lookup.z`, waits for its commitment.
#[derive(Debug)]
pub struct LookupPolynomial<F: PrimeField, G: Copy> {
    /// What is kept from step to step.
    pub session: Session<F, G>,
    /// The polynomials of the circuit.
    pub monomials: Monomials<F>,
    /// The copy-permutation grand product, as coefficients.
    pub copy_z: Vec<F>,
    /// The lookup argument.
    pub lookup: LookupPolynomials<F>,
}

impl<F: PrimeField, G: Copy> LookupPolynomial<F, G> {
    /// The round is in order.
    pub open spec fn wf(&self) -> bool {
        let job = self.session.job;
        &&& round_wf(self.session, self.monomials, Progress::Lookup, true)
        &&& self.lookup.wf(job.domain.size as int)
        &&& self.copy_z@.len() == job.domain.size
    }

    /// Goes on with the commitment.
    pub fn resume(self, commitment: G) -> (r: ProductsCommitted<F, G>)
        requires
            self.wf(),
        ensures
            r.wf(),
            r.session.job == self.session.job,
            r.session.drawn == self.session.drawn,
            r.session.commitments == (Commitments {
                lookup_z: Some(commitment),
                ..self.session.commitments
            }),
            r.polynomials.monomials == self.monomials,
            r.polynomials.copy_z == self.copy_z,
            r.polynomials.lookup == Some(self.lookup),
    {
        let mut session = self.session;
        session.commit_lookup(commitment);
        ProductsCommitted {
            session,
            polynomials: ProverPolynomials {
                monomials: self.monomials,
                copy_z: self.copy_z,
                lookup: Some(self.lookup),
                quotient_parts: Vec::new(),
            },
        }
    }
}

/// The grand products are committed to. The challenge of the numerator is drawn
/// next.
#[derive(Debug)]
pub struct ProductsCommitted<F: PrimeField, G: Copy> {
    /// What is kept from step to step.
    pub session: Session<F, G>,
    /// The polynomials of the argument.
    pub polynomials: ProverPolynomials<F>,
}

impl<F: PrimeField, G: Copy> ProductsCommitted<F, G> {
    /// The round is in order.
    pub open spec fn wf(&self) -> bool {
        let job = self.session.job;
        let p = self.polynomials;
        &&& round_wf(self.session, p.monomials, Progress::Products, p.lookup is Some)
        &&& p.arguments_wf(job.gates@, job.domain.size as int)
    }
}

} // verus!
