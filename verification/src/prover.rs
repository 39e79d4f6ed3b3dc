//! The rounds of the prover, from the circuit to the quotient.
//!
//! Each round names the transforms and commitments that it needs, and goes on
//! with what a service answers and what a transcript draws. A round that asks
//! the transcript for a challenge has its `transcript` list all that precedes
//! the challenge.
//!
//! For the two grand products, the column of the tables and the sorted column, a
//! transform answers with the coefficients enumerated by reversed indices. For
//! all other columns it answers with the coefficients in their natural order, and
//! for polynomials with their values on the domain in its natural order.

use crate::bits::{bitreverse_enumeration, reversed};
use crate::circuit::{
    copied_all, same_polys, widths, LDE_FACTOR, Assembly, LookupColumns, Monomials, Setup,
};
use crate::domain::Domain;
use crate::errors::SynthesisError;
use crate::fft::takes;
use crate::field::{all_invertible, vals, PrimeField};
use crate::permutation::{
    column_shifts, copy_denominators, copy_numerators, copy_permutation_grand_product,
    is_grand_product,
};
use crate::polynomial::{all_len, borrowed_columns, columns, copied, padded, padded_seq};
use crate::session::{Job, Progress, Session};
use vstd::arithmetic::power2::*;
use vstd::prelude::*;

verus! {

/// The polynomials of the lookup argument that a setup holds, and the sorted
/// rows.
#[derive(Debug)]
pub struct LookupFromSetup<F: PrimeField> {
    /// The lookup selector, as coefficients.
    pub selector: Vec<F>,
    /// The table type, as coefficients.
    pub table_type: Vec<F>,
    /// The columns of the tables, as coefficients.
    pub tables: Vec<Vec<F>>,
    /// The rows of all tables and all lookups, sorted, column by column.
    pub s_poly_ends: Vec<Vec<F>>,
}

/// Where the lookup argument takes its columns from.
#[derive(Debug)]
pub enum LookupSource<F: PrimeField> {
    /// From the circuit, which kept its setup.
    Columns(LookupColumns<F>),
    /// From the setup.
    FromSetup(LookupFromSetup<F>),
}

impl<F: PrimeField> LookupSource<F> {
    /// The columns fit a circuit of `n` rows.
    pub open spec fn wf(&self, n: int) -> bool {
        match *self {
            LookupSource::Columns(c) => c.wf(n),
            LookupSource::FromSetup(s) => {
                &&& s.selector@.len() == n + 1
                &&& s.table_type@.len() == n + 1
                &&& s.tables@.len() == 4
                &&& all_len(s.tables@, n + 1)
                &&& s.s_poly_ends@.len() == 4
                &&& s.s_poly_ends@[0]@.len() < n
                &&& all_len(s.s_poly_ends@, s.s_poly_ends@[0]@.len() as int)
            },
        }
    }
}

/// The circuit is at hand; its columns wait for their transforms.
#[derive(Debug)]
pub struct Started<F: PrimeField> {
    /// What stays the same.
    pub job: Job<F>,
    /// For each gate, its setup polynomials.
    pub gate_setup: Vec<Vec<Vec<F>>>,
    /// The selectors, where there is more than one gate.
    pub gate_selectors: Vec<Vec<F>>,
    /// The permutation polynomials, as coefficients.
    pub permutations: Vec<Vec<F>>,
    /// The values of the permutation polynomials, where the circuit kept them.
    pub permutation_values: Option<Vec<Vec<F>>>,
    /// The lookup argument.
    pub lookup: Option<LookupSource<F>>,
    /// The state columns on the domain, to be transformed into coefficients.
    pub state_ifft: Vec<Vec<F>>,
    /// The witness columns on the domain, to be transformed into coefficients.
    pub witness_ifft: Vec<Vec<F>>,
}

/// Two lists of lists hold the same vectors.
pub open spec fn same_nested<F: PrimeField>(a: Seq<Vec<Vec<F>>>, b: Seq<Vec<Vec<F>>>) -> bool {
    &&& a.len() == b.len()
    &&& forall|g: int| 0 <= g < a.len() ==> same_polys((#[trigger] a[g])@, b[g]@)
}

/// Each column of a list, with zeros after it up to length `n`.
pub open spec fn are_padded<F: PrimeField>(a: Seq<Vec<F>>, b: Seq<Vec<F>>, n: nat) -> bool {
    &&& a.len() == b.len()
    &&& forall|j: int|
        0 <= j < a.len() ==> vals((#[trigger] a[j])@) == padded_seq(vals(b[j]@), n)
    &&& all_len(a, n as int)
}

/// The lookup argument takes its columns from the circuit if it kept its setup,
/// and from the setup otherwise.
pub open spec fn source_of<F: PrimeField>(
    source: Option<LookupSource<F>>,
    a: Assembly<F>,
    setup: Setup<F>,
) -> bool {
    match (a.lookup, source) {
        (None, None) => true,
        (Some(l), Some(LookupSource::Columns(c))) => a.produce_setup && c == l,
        (Some(l), Some(LookupSource::FromSetup(s))) => {
            &&& !a.produce_setup
            &&& setup.lookup_selector_monomial matches Some(p) && s.selector@ == p@
            &&& setup.lookup_table_type_monomial matches Some(p) && s.table_type@ == p@
            &&& same_polys(s.tables@, setup.lookup_tables_monomials@)
            &&& s.s_poly_ends == l.s_poly_ends
        },
        _ => false,
    }
}

impl<F: PrimeField> Started<F> {
    /// The polynomials fit the domain and the queries.
    pub open spec fn wf(&self) -> bool {
        let n = self.job.domain.size as int;
        &&& self.job.wf()
        &&& self.gate_setup@.len() > 0
        &&& self.gate_setup@[0]@.len() >= 7
        &&& crate::circuit::all_nested_len(self.gate_setup@, n)
        &&& self.job.gates@.len() > 1 ==> self.gate_selectors@.len() == self.job.gates@.len()
        &&& all_len(self.gate_selectors@, n)
        &&& self.permutations@.len() == 4
        &&& all_len(self.permutations@, n)
        &&& self.permutation_values matches Some(v) ==> v@.len() == 4 && all_len(v@, n)
        &&& self.lookup matches Some(l) ==> l.wf(self.job.n as int)
        &&& self.state_ifft@.len() == 4
        &&& self.job.queries.wf(
            self.job.gates@,
            self.witness_ifft@.len(),
            widths(self.gate_setup@),
            self.gate_selectors@.len(),
        )
    }

    /// The round holds what the circuit and its setup hold.
    pub open spec fn starts(&self, a: Assembly<F>, setup: Setup<F>) -> bool {
        let n = (a.n + 1) as nat;
        &&& self.job.n == a.n
        &&& self.job.inputs == a.input_assingments
        &&& self.job.gates == a.sorted_gates
        &&& self.job.queries == a.queries
        &&& self.job.state_values == a.state_values
        &&& self.job.non_residues == a.non_residues
        &&& same_nested(self.gate_setup@, setup.gate_setup_monomials@)
        &&& if a.sorted_gates@.len() > 1 {
            same_polys(self.gate_selectors@, setup.gate_selectors_monomials@)
        } else {
            self.gate_selectors@.len() == 0
        }
        &&& same_polys(self.permutations@, setup.permutation_monomials@)
        &&& self.permutation_values == if a.produce_setup {
            Some(a.permutations)
        } else {
            None
        }
        &&& source_of(self.lookup, a, setup)
        &&& are_padded(self.state_ifft@, a.state_values@, n)
        &&& are_padded(self.witness_ifft@, a.witness_values@, n)
    }
}

/// A domain of at least `2^k` but less than `2^(k + 1)` elements has `2^k`.
proof fn lemma_exact_domain<F: PrimeField>(domain: Domain<F>, size: nat, k: nat)
    requires
        domain.wf(),
        size == pow2(k),
        size <= domain.size,
        domain.power_of_two > 0 ==> domain.size < 2 * size,
    ensures
        domain.power_of_two == k,
        domain.size == size,
{
    let j = domain.power_of_two as nat;
    lemma_pow2_unfold(k + 1);
    if j < k {
        lemma_pow2_strictly_increases(j, k);
    } else if j > k {
        if j > k + 1 {
            lemma_pow2_strictly_increases(k + 1, j);
        }
    }
}

fn padded_all<F: PrimeField>(polys: &Vec<Vec<F>>, from: usize, n: usize) -> (r: Vec<Vec<F>>)
    requires
        all_len(polys@, from as int),
        from <= n,
    ensures
        are_padded(r@, polys@, n as nat),
{
    let mut r: Vec<Vec<F>> = Vec::with_capacity(polys.len());
    let mut i: usize = 0;
    while i < polys.len()
        invariant
            i <= polys@.len(),
            r@.len() == i,
            all_len(polys@, from as int),
            from <= n,
            forall|j: int|
                0 <= j < i ==> vals((#[trigger] r@[j])@) == padded_seq(vals(polys@[j]@), n as nat),
            all_len(r@, n as int),
        decreases polys@.len() - i,
    {
        assert(polys@[i as int]@.len() == from);
        r.push(padded(&polys[i], n));
        i += 1;
    }
    r
}

fn copied_nested<F: PrimeField>(polys: &Vec<Vec<Vec<F>>>) -> (r: Vec<Vec<Vec<F>>>)
    ensures
        same_nested(r@, polys@),
{
    let mut r: Vec<Vec<Vec<F>>> = Vec::with_capacity(polys.len());
    let mut i: usize = 0;
    while i < polys.len()
        invariant
            i <= polys@.len(),
            r@.len() == i,
            forall|g: int| 0 <= g < i ==> same_polys((#[trigger] r@[g])@, polys@[g]@),
        decreases polys@.len() - i,
    {
        r.push(copied_all(&polys[i]));
        i += 1;
    }
    r
}

impl<F: PrimeField> Assembly<F> {
    /// Starts to prove the circuit. It fails exactly if the field has no domain
    /// for the circuit.
    pub fn async_create_proof(self, setup: &Setup<F>) -> (r: Result<Started<F>, SynthesisError>)
        requires
            self.ready(setup),
        ensures
            match r {
                Ok(started) => {
                    &&& self.n + 1 <= pow2(F::spec_two_adicity())
                    &&& started.wf()
                    &&& started.starts(self, *setup)
                },
                Err(e) => {
                    &&& e == SynthesisError::PolynomialDegreeTooLarge
                    &&& self.n + 1 > pow2(F::spec_two_adicity())
                },
            },
    {
        let size: usize = self.n + 1;
        let domain = match Domain::new_for_size(size as u64) {
            Ok(d) => d,
            Err(e) => {
                return Err(e);
            },
        };
        let big = match Domain::new_for_size((LDE_FACTOR * size) as u64) {
            Ok(d) => d,
            Err(e) => {
                return Err(e);
            },
        };
        proof {
            let k = choose|k: nat| size == #[trigger] pow2(k);
            lemma2_to64();
            lemma_pow2_adds(k, 2);
            lemma_exact_domain(domain, size as nat, k);
            lemma_exact_domain(big, 4 * size as nat, k + 2);
        }
        let gate_setup = copied_nested(&setup.gate_setup_monomials);
        let gate_selectors = if self.sorted_gates.len() > 1 {
            copied_all(&setup.gate_selectors_monomials)
        } else {
            Vec::new()
        };
        let permutations = copied_all(&setup.permutation_monomials);
        let state_ifft = padded_all(&self.state_values, self.n, size);
        let witness_ifft = padded_all(&self.witness_values, self.n, size);
        let lookup = match self.lookup {
            Some(l) => {
                if self.produce_setup {
                    Some(LookupSource::Columns(l))
                } else {
                    match (&setup.lookup_selector_monomial, &setup.lookup_table_type_monomial) {
                        (Some(selector), Some(table_type)) => Some(
                            LookupSource::FromSetup(
                                LookupFromSetup {
                                    selector: copied(selector),
                                    table_type: copied(table_type),
                                    tables: copied_all(&setup.lookup_tables_monomials),
                                    s_poly_ends: l.s_poly_ends,
                                },
                            ),
                        ),
                        _ => None,
                    }
                }
            },
            None => None,
        };
        let permutation_values = if self.produce_setup {
            Some(self.permutations)
        } else {
            None
        };
        proof {
            assert(widths(gate_setup@) =~= widths(setup.gate_setup_monomials@));
        }
        Ok(
            Started {
                job: Job {
                    n: self.n,
                    inputs: self.input_assingments,
                    gates: self.sorted_gates,
                    queries: self.queries,
                    state_values: self.state_values,
                    non_residues: self.non_residues,
                    domain,
                    big,
                },
                gate_setup,
                gate_selectors,
                permutations,
                permutation_values,
                lookup,
                state_ifft,
                witness_ifft,
            },
        )
    }
}

/// The polynomials of the circuit fit its domain and its queries, and the
/// exchange with the transcript has come as far as `progress`.
pub open spec fn round_wf<F: PrimeField, G: Copy>(
    session: Session<F, G>,
    monomials: Monomials<F>,
    progress: Progress,
    with_lookup: bool,
) -> bool {
    let job = session.job;
    &&& session.wf(progress, with_lookup)
    &&& monomials.wf(job.gates@, job.domain.size as int)
    &&& job.queries.wf(
        job.gates@,
        monomials.witness@.len(),
        widths(monomials.gate_setup@),
        monomials.gate_selectors@.len(),
    )
}

/// There is a column of values on the domain for each permutation polynomial.
pub open spec fn permutation_values_wf<F: PrimeField>(v: Seq<Vec<F>>, job: Job<F>) -> bool {
    &&& v.len() == 4
    &&& all_len(v, job.domain.size as int)
}

/// The columns are transformed; the wires wait for their commitments.
#[derive(Debug)]
pub struct WiresReady<F: PrimeField, G: Copy> {
    /// What is kept from step to step.
    pub session: Session<F, G>,
    /// The polynomials of the circuit.
    pub monomials: Monomials<F>,
    /// The values of the permutation polynomials.
    pub permutation_values: Vec<Vec<F>>,
    /// The lookup argument.
    pub lookup: Option<LookupSource<F>>,
}

fn borrow_all<'a, F: PrimeField>(polys: &'a Vec<Vec<F>>) -> (r: Vec<&'a Vec<F>>)
    ensures
        borrowed_columns(r@) == columns(polys@),
{
    let mut r: Vec<&'a Vec<F>> = Vec::with_capacity(polys.len());
    let mut i: usize = 0;
    while i < polys.len()
        invariant
            i <= polys@.len(),
            r@.len() == i,
            forall|j: int| 0 <= j < i ==> #[trigger] r@[j] == polys@[j],
        decreases polys@.len() - i,
    {
        r.push(&polys[i]);
        i += 1;
    }
    proof {
        assert(borrowed_columns(r@) =~= columns(polys@));
    }
    r
}

impl<F: PrimeField> Started<F> {
    /// The permutation polynomials whose values on the domain have to be
    /// computed: all of them, unless the circuit kept the values.
    pub fn fft_requests(&self) -> (r: Vec<&Vec<F>>)
        ensures
            borrowed_columns(r@) == if self.permutation_values is Some {
                Seq::empty()
            } else {
                columns(self.permutations@)
            },
    {
        match &self.permutation_values {
            Some(_) => {
                let r: Vec<&Vec<F>> = Vec::new();
                proof {
                    assert(borrowed_columns(r@) =~= Seq::empty());
                }
                r
            },
            None => borrow_all(&self.permutations),
        }
    }

    /// Goes on with the values of the permutation polynomials, where they were
    /// requested, and with the coefficients of the state and witness columns, both
    /// in their natural order.
    pub fn resume<G: Copy>(
        self,
        permutation_values: Vec<Vec<F>>,
        state: Vec<Vec<F>>,
        witness: Vec<Vec<F>>,
    ) -> (r: WiresReady<F, G>)
        requires
            self.wf(),
            self.permutation_values is None ==> permutation_values_wf(
                permutation_values@,
                self.job,
            ),
            state@.len() == 4,
            all_len(state@, self.job.domain.size as int),
            witness@.len() == self.witness_ifft@.len(),
            all_len(witness@, self.job.domain.size as int),
        ensures
            r.wf(),
            r.session.job == self.job,
            r.monomials == (Monomials {
                state,
                witness,
                gate_setup: self.gate_setup,
                gate_selectors: self.gate_selectors,
                permutations: self.permutations,
            }),
            r.permutation_values == match self.permutation_values {
                Some(v) => v,
                None => permutation_values,
            },
            r.lookup == self.lookup,
    {
        let values = match self.permutation_values {
            Some(v) => v,
            None => permutation_values,
        };
        let monomials = Monomials {
            state,
            witness,
            gate_setup: self.gate_setup,
            gate_selectors: self.gate_selectors,
            permutations: self.permutations,
        };
        let session = Session::new(self.job, Ghost(self.lookup is Some));
        WiresReady { session, monomials, permutation_values: values, lookup: self.lookup }
    }
}

impl<F: PrimeField, G: Copy> WiresReady<F, G> {
    /// The round is in order.
    pub open spec fn wf(&self) -> bool {
        let job = self.session.job;
        &&& round_wf(self.session, self.monomials, Progress::Inputs, self.lookup is Some)
        &&& permutation_values_wf(self.permutation_values@, job)
        &&& self.lookup matches Some(l) ==> l.wf(job.n as int)
    }

    /// The state polynomials, which are committed to.
    pub fn state_requests(&self) -> (r: Vec<&Vec<F>>)
        ensures
            borrowed_columns(r@) == columns(self.monomials.state@),
    {
        borrow_all(&self.monomials.state)
    }

    /// The witness polynomials, which are committed to.
    pub fn witness_requests(&self) -> (r: Vec<&Vec<F>>)
        ensures
            borrowed_columns(r@) == columns(self.monomials.witness@),
    {
        borrow_all(&self.monomials.witness)
    }

    /// Goes on with the commitments to the wires.
    pub fn resume(self, state: Vec<G>, witness: Vec<G>) -> (r: WiresCommitted<F, G>)
        requires
            self.wf(),
            state@.len() == 4,
            witness@.len() == self.monomials.witness@.len(),
        ensures
            r.wf(),
            r.session.job == self.session.job,
            r.session.commitments.state == state,
            r.session.commitments.witness == witness,
            r.monomials == self.monomials,
            r.permutation_values == self.permutation_values,
            r.lookup == self.lookup,
    {
        let mut session = self.session;
        session.commit_wires(state, witness, Ghost(self.lookup is Some));
        WiresCommitted {
            session,
            monomials: self.monomials,
            permutation_values: self.permutation_values,
            lookup: self.lookup,
        }
    }
}

/// The wires are committed to. With a lookup argument, its first challenge is
/// drawn next.
#[derive(Debug)]
pub struct WiresCommitted<F: PrimeField, G: Copy> {
    /// What is kept from step to step.
    pub session: Session<F, G>,
    /// The polynomials of the circuit.
    pub monomials: Monomials<F>,
    /// The values of the permutation polynomials.
    pub permutation_values: Vec<Vec<F>>,
    /// The lookup argument.
    pub lookup: Option<LookupSource<F>>,
}

impl<F: PrimeField, G: Copy> WiresCommitted<F, G> {
    /// The round is in order.
    pub open spec fn wf(&self) -> bool {
        let job = self.session.job;
        &&& round_wf(self.session, self.monomials, Progress::Wires, self.lookup is Some)
        &&& permutation_values_wf(self.permutation_values@, job)
        &&& self.lookup matches Some(l) ==> l.wf(job.n as int)
    }

    /// Goes on without a lookup argument.
    pub fn skip_lookup(self) -> (r: CopyStart<F, G>)
        requires
            self.wf(),
            self.lookup is None,
        ensures
            r.wf(),
            r.session == self.session,
            r.monomials == self.monomials,
            r.permutation_values == self.permutation_values,
            r.lookup is None,
    {
        CopyStart {
            session: self.session,
            monomials: self.monomials,
            permutation_values: self.permutation_values,
            lookup: None,
        }
    }
}

/// The columns of the lookup argument without the last row of the domain.
#[derive(Debug)]
pub struct LookupValues<F: PrimeField> {
    /// What the rows look up.
    pub f: Vec<F>,
    /// The tables.
    pub t: Vec<F>,
    /// The tables one step on.
    pub t_shifted: Vec<F>,
    /// The sorted column.
    pub s: Vec<F>,
    /// The sorted column one step on.
    pub s_shifted: Vec<F>,
}

/// The lookup argument, ready for its grand product.
#[derive(Debug)]
pub struct LookupPrepared<F: PrimeField> {
    /// The columns.
    pub values: LookupValues<F>,
    /// The tables, as coefficients.
    pub t: Vec<F>,
    /// The sorted column, as coefficients.
    pub s: Vec<F>,
    /// The lookup selector, as coefficients.
    pub selector: Vec<F>,
    /// The table type, as coefficients.
    pub table_type: Vec<F>,
}

impl<F: PrimeField> LookupPrepared<F> {
    /// The columns have `n` entries, and the polynomials one coefficient more.
    pub open spec fn wf(&self, n: int) -> bool {
        &&& self.values.f@.len() == n
        &&& self.values.t@.len() == n
        &&& self.values.t_shifted@.len() == n
        &&& self.values.s@.len() == n
        &&& self.values.s_shifted@.len() == n
        &&& self.t@.len() == n + 1
        &&& self.s@.len() == n + 1
        &&& self.selector@.len() == n + 1
        &&& self.table_type@.len() == n + 1
    }
}

/// The challenges of the copy-permutation argument are drawn next.
#[derive(Debug)]
pub struct CopyStart<F: PrimeField, G: Copy> {
    /// What is kept from step to step.
    pub session: Session<F, G>,
    /// The polynomials of the circuit.
    pub monomials: Monomials<F>,
    /// The values of the permutation polynomials.
    pub permutation_values: Vec<Vec<F>>,
    /// The lookup argument.
    pub lookup: Option<LookupPrepared<F>>,
}

impl<F: PrimeField, G: Copy> CopyStart<F, G> {
    /// The round is in order.
    pub open spec fn wf(&self) -> bool {
        let job = self.session.job;
        &&& self.lookup matches Some(l) ==> l.wf(job.n as int)
        &&& round_wf(self.session, self.monomials, Progress::Sorted, self.lookup is Some)
        &&& permutation_values_wf(self.permutation_values@, job)
    }

    /// What each row multiplies the grand product by.
    pub open spec fn numerators(&self, beta: F, gamma: F) -> Seq<int> {
        let job = self.session.job;
        copy_numerators::<F>(
            columns(job.state_values@),
            column_shifts(job.non_residues@),
            job.domain.generator.val(),
            job.n as nat,
            beta.val(),
            gamma.val(),
        )
    }

    /// What each row divides the grand product by.
    pub open spec fn denominators(&self, beta: F, gamma: F) -> Seq<int> {
        let job = self.session.job;
        copy_denominators(
            columns(job.state_values@),
            columns(self.permutation_values@),
            job.n as nat,
            beta.val(),
            gamma.val(),
        )
    }

    /// Goes on with the challenges. It fails exactly if a denominator has no
    /// inverse.
    pub fn resume(self, beta: F, gamma: F) -> (r: Result<CopyProduct<F, G>, SynthesisError>)
        requires
            self.wf(),
        ensures
            match r {
                Ok(next) => {
                    &&& all_invertible::<F>(self.denominators(beta, gamma))
                    &&& next.wf()
                    &&& next.session.job == self.session.job
                    &&& next.session.commitments == self.session.commitments
                    &&& next.session.drawn.eta == self.session.drawn.eta
                    &&& next.session.drawn.copy == Some((beta, gamma))
                    &&& next.monomials == self.monomials
                    &&& next.lookup == self.lookup
                    &&& is_grand_product::<F>(
                        vals(next.ifft@),
                        self.numerators(beta, gamma),
                        self.denominators(beta, gamma),
                    )
                },
                Err(e) => {
                    &&& e == SynthesisError::DivisionByZero
                    &&& !all_invertible::<F>(self.denominators(beta, gamma))
                },
            },
    {
        let z = match copy_permutation_grand_product(
            &self.session.job.state_values,
            &self.permutation_values,
            &self.session.job.non_residues,
            &self.session.job.domain,
            &beta,
            &gamma,
        ) {
            Ok(z) => z,
            Err(e) => {
                return Err(e);
            },
        };
        let mut session = self.session;
        session.draw_copy(beta, gamma, Ghost(self.lookup is Some));
        Ok(CopyProduct { session, monomials: self.monomials, lookup: self.lookup, ifft: z })
    }
}

/// The copy-permutation grand product waits for its transform.
#[derive(Debug)]
pub struct CopyProduct<F: PrimeField, G: Copy> {
    /// What is kept from step to step.
    pub session: Session<F, G>,
    /// The polynomials of the circuit.
    pub monomials: Monomials<F>,
    /// The lookup argument.
    pub lookup: Option<LookupPrepared<F>>,
    /// The values of the grand product, to be transformed into coefficients.
    pub ifft: Vec<F>,
}

/// The vector holds the entries of another by reversed indices.
pub open spec fn is_bitreversed<F: PrimeField>(a: Seq<F>, b: Seq<F>, bits: nat) -> bool {
    &&& a.len() == b.len()
    &&& forall|i: int|
        0 <= i < b.len() ==> #[trigger] a[i] == b[reversed(i as nat, bits) as int]
}

/// The entries of a vector by reversed indices.
pub open spec fn reordered<F: PrimeField>(b: Seq<F>, bits: nat) -> Seq<F> {
    Seq::new(b.len(), |i: int| b[reversed(i as nat, bits) as int])
}

/// What a transform answers for a column is, by reversed indices, its
/// coefficients.
pub open spec fn takes_reversed<F: PrimeField>(
    answer: Seq<F>,
    column: Seq<int>,
    domain: Domain<F>,
) -> bool {
    takes(
        reordered(answer, domain.power_of_two as nat),
        column,
        domain.generator.val(),
    )
}

/// A vector by reversed indices is the vector of coefficients, if the answer of
/// the transform is in reversed order.
pub(crate) proof fn lemma_reordered<F: PrimeField>(a: Seq<F>, b: Seq<F>, bits: nat)
    requires
        is_bitreversed(a, b, bits),
    ensures
        a == reordered(b, bits),
{
    assert(a =~= reordered(b, bits));
}

impl<F: PrimeField, G: Copy> CopyProduct<F, G> {
    /// The round is in order.
    pub open spec fn wf(&self) -> bool {
        let job = self.session.job;
        &&& round_wf(self.session, self.monomials, Progress::Copy, self.lookup is Some)
        &&& self.lookup matches Some(l) ==> l.wf(job.n as int)
        &&& self.ifft@.len() == job.domain.size
    }

    /// Goes on with what the transform answers: the coefficients, enumerated by
    /// reversed indices. They are kept in their natural order.
    pub fn resume(self, coefficients: Vec<F>) -> (r: CopyPolynomial<F, G>)
        requires
            self.wf(),
            coefficients@.len() == self.session.job.domain.size,
        ensures
            r.wf(),
            r.session == self.session,
            r.monomials == self.monomials,
            r.lookup == self.lookup,
            is_bitreversed(
                r.copy_z@,
                coefficients@,
                self.session.job.domain.power_of_two as nat,
            ),
            takes_reversed(coefficients@, vals(self.ifft@), self.session.job.domain) ==> takes(
                r.copy_z@,
                vals(self.ifft@),
                self.session.job.domain.generator.val(),
            ),
    {
        let copy_z = bitreverse_enumeration(&coefficients, self.session.job.domain.power_of_two);
        proof {
            lemma_reordered(
                copy_z@,
                coefficients@,
                self.session.job.domain.power_of_two as nat,
            );
        }
        CopyPolynomial {
            session: self.session,
            monomials: self.monomials,
            lookup: self.lookup,
            copy_z,
        }
    }
}

/// The copy-permutation grand product, `copy_z`, waits for its commitment.
#[derive(Debug)]
pub struct CopyPolynomial<F: PrimeField, G: Copy> {
    /// What is kept from step to step.
    pub session: Session<F, G>,
    /// The polynomials of the circuit.
    pub monomials: Monomials<F>,
    /// The lookup argument.
    pub lookup: Option<LookupPrepared<F>>,
    /// The grand product, as coefficients.
    pub copy_z: Vec<F>,
}

impl<F: PrimeField, G: Copy> CopyPolynomial<F, G> {
    /// The round is in order.
    pub open spec fn wf(&self) -> bool {
        let job = self.session.job;
        &&& round_wf(self.session, self.monomials, Progress::Copy, self.lookup is Some)
        &&& self.lookup matches Some(l) ==> l.wf(job.n as int)
        &&& self.copy_z@.len() == job.domain.size
    }

    /// Goes on with the commitment.
    pub fn resume(self, commitment: G) -> (r: CopyCommitted<F, G>)
        requires
            self.wf(),
        ensures
            r.wf(),
            r.session.job == self.session.job,
            r.session.drawn == self.session.drawn,
            r.session.commitments == (crate::session::Commitments {
                copy_z: Some(commitment),
                ..self.session.commitments
            }),
            r.monomials == self.monomials,
            r.lookup == self.lookup,
            r.copy_z == self.copy_z,
    {
        let mut session = self.session;
        session.commit_copy(commitment, Ghost(self.lookup is Some));
        CopyCommitted {
            session,
            monomials: self.monomials,
            lookup: self.lookup,
            copy_z: self.copy_z,
        }
    }
}

/// The copy-permutation grand product is committed to. With a lookup argument,
/// the challenges of its grand product are drawn next.
#[derive(Debug)]
pub struct CopyCommitted<F: PrimeField, G: Copy> {
    /// What is kept from step to step.
    pub session: Session<F, G>,
    /// The polynomials of the circuit.
    pub monomials: Monomials<F>,
    /// The lookup argument.
    pub lookup: Option<LookupPrepared<F>>,
    /// The grand product, as coefficients.
    pub copy_z: Vec<F>,
}

impl<F: PrimeField, G: Copy> CopyCommitted<F, G> {
    /// The round is in order.
    pub open spec fn wf(&self) -> bool {
        let job = self.session.job;
        &&& round_wf(self.session, self.monomials, Progress::CopyProduct, self.lookup is Some)
        &&& self.lookup matches Some(l) ==> l.wf(job.n as int)
        &&& self.copy_z@.len() == job.domain.size
    }
}

} // verus!
