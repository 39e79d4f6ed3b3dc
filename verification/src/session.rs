//! What the prover keeps from step to step, and the transcript.

use crate::circuit::SortedGateQueries;
use crate::domain::Domain;
use crate::field::PrimeField;
use crate::gates::{terms_before, Gate};
use crate::linearization::{LookupQuery, Openings};
use crate::polynomial::all_len;
use crate::quotient::supported;
use vstd::prelude::*;

verus! {

/// An exchange with the transcript.
#[derive(Debug)]
pub enum TranscriptItem<F: PrimeField, G: Copy> {
    /// A field element that is committed to.
    Scalar(F),
    /// A point that is committed to, by its coordinates.
    Point(G),
    /// A challenge that is drawn.
    Challenge(F),
}

/// What stays the same throughout a proof.
#[derive(Debug)]
pub struct Job<F: PrimeField> {
    /// The number of rows of the circuit.
    pub n: usize,
    /// The public inputs.
    pub inputs: Vec<F>,
    /// The gates.
    pub gates: Vec<Gate>,
    /// Which polynomials have to be opened.
    pub queries: SortedGateQueries,
    /// The values of the state columns.
    pub state_values: Vec<Vec<F>>,
    /// What tells the state columns apart, for every column but the first.
    pub non_residues: Vec<F>,
    /// The domain of the circuit.
    pub domain: Domain<F>,
    /// The domain on whose coset the quotient is computed.
    pub big: Domain<F>,
}

impl<F: PrimeField> Job<F> {
    /// The domains fit the circuit.
    pub open spec fn wf(&self) -> bool {
        &&& self.domain.wf()
        &&& self.big.wf()
        &&& self.big.power_of_two == self.domain.power_of_two + 2
        &&& self.domain.size == self.n + 1
        &&& self.big.size == 4 * self.domain.size
        &&& 2 * self.big.size <= usize::MAX
        &&& self.inputs@.len() <= self.domain.size
        &&& supported(self.gates@)
        &&& terms_before(self.gates@, self.gates@.len()) + 4 <= usize::MAX
        &&& self.state_values@.len() == 4
        &&& all_len(self.state_values@, self.n as int)
        &&& self.non_residues@.len() == 3
    }
}

/// The commitments made so far.
#[derive(Debug)]
pub struct Commitments<G: Copy> {
    /// To the state polynomials.
    pub state: Vec<G>,
    /// To the witness polynomials.
    pub witness: Vec<G>,
    /// To the sorted column of the lookup argument.
    pub lookup_s: Option<G>,
    /// To the copy-permutation grand product.
    pub copy_z: Option<G>,
    /// To the lookup grand product.
    pub lookup_z: Option<G>,
    /// To the parts of the quotient.
    pub quotient_parts: Vec<G>,
}

/// The challenges drawn so far.
#[derive(Debug)]
pub struct Drawn<F: PrimeField> {
    /// Combines the columns of a table.
    pub eta: Option<F>,
    /// The challenges of the copy-permutation argument.
    pub copy: Option<(F, F)>,
    /// The challenges of the lookup grand product.
    pub lookup: Option<(F, F)>,
    /// Combines the terms of the numerator.
    pub alpha: Option<F>,
    /// The opening point.
    pub z: Option<F>,
    /// Combines the openings.
    pub v: Option<F>,
}

/// Commits to field elements in order.
pub open spec fn scalars<F: PrimeField, G: Copy>(s: Seq<F>) -> Seq<TranscriptItem<F, G>> {
    Seq::new(s.len(), |i: int| TranscriptItem::Scalar(s[i]))
}

/// Commits to points in order.
pub open spec fn points<F: PrimeField, G: Copy>(s: Seq<G>) -> Seq<TranscriptItem<F, G>> {
    Seq::new(s.len(), |i: int| TranscriptItem::Point(s[i]))
}

/// Commits to a point, if there is one.
pub open spec fn optional_point<F: PrimeField, G: Copy>(
    p: Option<G>,
) -> Seq<TranscriptItem<F, G>> {
    match p {
        Some(x) => seq![TranscriptItem::Point(x)],
        None => Seq::empty(),
    }
}

/// Draws a challenge, if it was drawn.
pub open spec fn optional_challenge<F: PrimeField, G: Copy>(
    c: Option<F>,
) -> Seq<TranscriptItem<F, G>> {
    match c {
        Some(x) => seq![TranscriptItem::Challenge(x)],
        None => Seq::empty(),
    }
}

/// Draws two challenges, if they were drawn.
pub open spec fn optional_challenges<F: PrimeField, G: Copy>(
    c: Option<(F, F)>,
) -> Seq<TranscriptItem<F, G>> {
    match c {
        Some((x, y)) => seq![TranscriptItem::Challenge(x), TranscriptItem::Challenge(y)],
        None => Seq::empty(),
    }
}

/// The openings of the lookup argument in the order of the transcript: first at
/// `z`, then at `z * omega`.
pub open spec fn lookup_values<F: PrimeField>(l: Option<LookupQuery<F>>) -> Seq<F> {
    match l {
        Some(q) => seq![
            q.t_at_z,
            q.selector_at_z,
            q.table_type_at_z,
            q.s_at_z_omega,
            q.grand_product_at_z_omega,
            q.t_at_z_omega,
        ],
        None => Seq::empty(),
    }
}

/// The values of openings with indices.
pub open spec fn setup_values<F: PrimeField>(s: Seq<(usize, usize, F)>) -> Seq<F> {
    Seq::new(s.len(), |i: int| s[i].2)
}

/// The openings in the order of the transcript.
pub open spec fn opening_values<F: PrimeField>(o: Openings<F>) -> Seq<F> {
    seq![o.quotient_at_z] + o.state_at_z@ + o.state_at_z_omega@ + o.witness_at_z@
        + o.witness_at_z_omega@ + setup_values(o.gate_setup_at_z@) + o.selectors_at_z@
        + o.permutations_at_z@ + seq![o.copy_z_at_z_omega] + lookup_values(o.lookup)
}

/// Commits to the openings, if there are any.
pub open spec fn optional_openings<F: PrimeField, G: Copy>(
    o: Option<Openings<F>>,
) -> Seq<TranscriptItem<F, G>> {
    match o {
        Some(x) => scalars(opening_values(x)),
        None => Seq::empty(),
    }
}

/// Commits to a field element, if there is one.
pub open spec fn optional_scalar<F: PrimeField, G: Copy>(
    s: Option<F>,
) -> Seq<TranscriptItem<F, G>> {
    match s {
        Some(x) => seq![TranscriptItem::Scalar(x)],
        None => Seq::empty(),
    }
}

/// The whole exchange with the transcript: every challenge is drawn after all
/// that was committed to before it.
pub open spec fn script<F: PrimeField, G: Copy>(
    inputs: Seq<F>,
    c: Commitments<G>,
    d: Drawn<F>,
    o: Option<Openings<F>>,
    linearization_at_z: Option<F>,
) -> Seq<TranscriptItem<F, G>> {
    scalars(inputs) + points(c.state@) + points(c.witness@) + optional_challenge(d.eta)
        + optional_point(c.lookup_s) + optional_challenges(d.copy) + optional_point(c.copy_z)
        + optional_challenges(d.lookup) + optional_point(c.lookup_z) + optional_challenge(d.alpha)
        + points(c.quotient_parts@) + optional_challenge(d.z) + optional_openings(o)
        + optional_scalar(linearization_at_z) + optional_challenge(d.v)
}

/// How far the exchange with the transcript has come.
pub enum Progress {
    /// The public inputs are committed to.
    Inputs,
    /// The wires are committed to.
    Wires,
    /// The first challenge of the lookup argument is drawn.
    Eta,
    /// The sorted column is committed to, or there is no lookup.
    Sorted,
    /// The challenges of the copy-permutation argument are drawn.
    Copy,
    /// The copy-permutation grand product is committed to.
    CopyProduct,
    /// The challenges of the lookup grand product are drawn.
    Lookup,
    /// The lookup grand product is committed to, or there is no lookup.
    Products,
    /// The challenge of the numerator is drawn.
    Alpha,
    /// The quotient is committed to.
    Quotient,
    /// The opening point is drawn, and the openings are committed to.
    Opened,
    /// The opening of the linearization polynomial is committed to.
    Linearized,
    /// The last challenge is drawn.
    Done,
}

impl Progress {
    /// The number of the step.
    pub open spec fn step(self) -> int {
        match self {
            Progress::Inputs => 0,
            Progress::Wires => 1,
            Progress::Eta => 2,
            Progress::Sorted => 3,
            Progress::Copy => 4,
            Progress::CopyProduct => 5,
            Progress::Lookup => 6,
            Progress::Products => 7,
            Progress::Alpha => 8,
            Progress::Quotient => 9,
            Progress::Opened => 10,
            Progress::Linearized => 11,
            Progress::Done => 12,
        }
    }
}

/// What the prover keeps from step to step.
#[derive(Debug)]
pub struct Session<F: PrimeField, G: Copy> {
    /// What stays the same.
    pub job: Job<F>,
    /// The commitments made so far.
    pub commitments: Commitments<G>,
    /// The challenges drawn so far.
    pub drawn: Drawn<F>,
    /// The openings, once they are made.
    pub openings: Option<Openings<F>>,
    /// The opening of the linearization polynomial, once it is made.
    pub linearization_at_z: Option<F>,
    /// The exchange with the transcript so far.
    pub transcript: Vec<TranscriptItem<F, G>>,
}

impl<F: PrimeField, G: Copy> Session<F, G> {
    /// The exchange with the transcript is the one that the commitments, the
    /// challenges and the openings ask for, and has come as far as `progress`.
    pub open spec fn wf(&self, progress: Progress, with_lookup: bool) -> bool {
        let k = progress.step();
        let (c, d) = (self.commitments, self.drawn);
        &&& self.job.wf()
        &&& self.transcript@ == script(
            self.job.inputs@,
            c,
            d,
            self.openings,
            self.linearization_at_z,
        )
        &&& k < 1 ==> c.state@.len() == 0 && c.witness@.len() == 0
        &&& d.eta is Some <==> with_lookup && k >= 2
        &&& c.lookup_s is Some <==> with_lookup && k >= 3
        &&& d.copy is Some <==> k >= 4
        &&& c.copy_z is Some <==> k >= 5
        &&& d.lookup is Some <==> with_lookup && k >= 6
        &&& c.lookup_z is Some <==> with_lookup && k >= 7
        &&& d.alpha is Some <==> k >= 8
        &&& k < 9 ==> c.quotient_parts@.len() == 0
        &&& d.z is Some <==> k >= 10
        &&& self.openings is Some <==> k >= 10
        &&& self.linearization_at_z is Some <==> k >= 11
        &&& d.v is Some <==> k >= 12
    }

    /// The session of a job whose public inputs are committed to.
    pub(crate) fn new(job: Job<F>, with_lookup: Ghost<bool>) -> (r: Self)
        requires
            job.wf(),
        ensures
            r.wf(Progress::Inputs, with_lookup@),
            r.job == job,
    {
        let mut transcript: Vec<TranscriptItem<F, G>> = Vec::new();
        push_scalars(&mut transcript, &job.inputs);
        let commitments = Commitments {
            state: Vec::new(),
            witness: Vec::new(),
            lookup_s: None,
            copy_z: None,
            lookup_z: None,
            quotient_parts: Vec::new(),
        };
        let drawn = Drawn { eta: None, copy: None, lookup: None, alpha: None, z: None, v: None };
        proof {
            assert(transcript@ =~= script(job.inputs@, commitments, drawn, None, None));
        }
        Session {
            job,
            commitments,
            drawn,
            openings: None,
            linearization_at_z: None,
            transcript,
        }
    }

    /// Commits to the wires.
    pub(crate) fn commit_wires(&mut self, state: Vec<G>, witness: Vec<G>, with_lookup: Ghost<bool>)
        requires
            old(self).wf(Progress::Inputs, with_lookup@),
        ensures
            final(self).wf(Progress::Wires, with_lookup@),
            final(self).job == old(self).job,
            final(self).drawn == old(self).drawn,
            final(self).openings == old(self).openings,
            final(self).linearization_at_z == old(self).linearization_at_z,
            final(self).commitments == (Commitments {
                state, witness,
                ..old(self).commitments
            }),
    {
        push_points(&mut self.transcript, &state);
        push_points(&mut self.transcript, &witness);
        self.commitments.state = state;
        self.commitments.witness = witness;
        proof {
            assert(self.transcript@ =~= script(
                self.job.inputs@,
                self.commitments,
                self.drawn,
                self.openings,
                self.linearization_at_z,
            ));
        }
    }

    /// Draws the first challenge of the lookup argument.
    pub(crate) fn draw_eta(&mut self, eta: F)
        requires
            old(self).wf(Progress::Wires, true),
        ensures
            final(self).wf(Progress::Eta, true),
            final(self).job == old(self).job,
            final(self).commitments == old(self).commitments,
            final(self).openings == old(self).openings,
            final(self).linearization_at_z == old(self).linearization_at_z,
            final(self).drawn == (Drawn {
                eta: Some(eta),
                ..old(self).drawn
            }),
    {
        self.transcript.push(TranscriptItem::Challenge(eta));
        self.drawn.eta = Some(eta);
        proof {
            assert(self.transcript@ =~= script(
                self.job.inputs@,
                self.commitments,
                self.drawn,
                self.openings,
                self.linearization_at_z,
            ));
        }
    }

    /// Commits to the sorted column.
    pub(crate) fn commit_sorted(&mut self, point: G)
        requires
            old(self).wf(Progress::Eta, true),
        ensures
            final(self).wf(Progress::Sorted, true),
            final(self).job == old(self).job,
            final(self).drawn == old(self).drawn,
            final(self).openings == old(self).openings,
            final(self).linearization_at_z == old(self).linearization_at_z,
            final(self).commitments == (Commitments {
                lookup_s: Some(point),
                ..old(self).commitments
            }),
    {
        self.transcript.push(TranscriptItem::Point(point));
        self.commitments.lookup_s = Some(point);
        proof {
            assert(self.transcript@ =~= script(
                self.job.inputs@,
                self.commitments,
                self.drawn,
                self.openings,
                self.linearization_at_z,
            ));
        }
    }

    /// Draws the challenges of the copy-permutation argument.
    pub(crate) fn draw_copy(&mut self, beta: F, gamma: F, with_lookup: Ghost<bool>)
        requires
            old(self).wf(Progress::Sorted, with_lookup@),
        ensures
            final(self).wf(Progress::Copy, with_lookup@),
            final(self).job == old(self).job,
            final(self).commitments == old(self).commitments,
            final(self).openings == old(self).openings,
            final(self).linearization_at_z == old(self).linearization_at_z,
            final(self).drawn == (Drawn {
                copy: Some((beta, gamma)),
                ..old(self).drawn
            }),
    {
        self.transcript.push(TranscriptItem::Challenge(beta));
        self.transcript.push(TranscriptItem::Challenge(gamma));
        self.drawn.copy = Some((beta, gamma));
        proof {
            assert(self.transcript@ =~= script(
                self.job.inputs@,
                self.commitments,
                self.drawn,
                self.openings,
                self.linearization_at_z,
            ));
        }
    }

    /// Commits to the copy-permutation grand product.
    pub(crate) fn commit_copy(&mut self, point: G, with_lookup: Ghost<bool>)
        requires
            old(self).wf(Progress::Copy, with_lookup@),
        ensures
            final(self).wf(Progress::CopyProduct, with_lookup@),
            final(self).job == old(self).job,
            final(self).drawn == old(self).drawn,
            final(self).openings == old(self).openings,
            final(self).linearization_at_z == old(self).linearization_at_z,
            final(self).commitments == (Commitments {
                copy_z: Some(point),
                ..old(self).commitments
            }),
    {
        self.transcript.push(TranscriptItem::Point(point));
        self.commitments.copy_z = Some(point);
        proof {
            assert(self.transcript@ =~= script(
                self.job.inputs@,
                self.commitments,
                self.drawn,
                self.openings,
                self.linearization_at_z,
            ));
        }
    }

    /// Draws the challenges of the lookup grand product.
    pub(crate) fn draw_lookup(&mut self, beta: F, gamma: F)
        requires
            old(self).wf(Progress::CopyProduct, true),
        ensures
            final(self).wf(Progress::Lookup, true),
            final(self).job == old(self).job,
            final(self).commitments == old(self).commitments,
            final(self).openings == old(self).openings,
            final(self).linearization_at_z == old(self).linearization_at_z,
            final(self).drawn == (Drawn {
                lookup: Some((beta, gamma)),
                ..old(self).drawn
            }),
    {
        self.transcript.push(TranscriptItem::Challenge(beta));
        self.transcript.push(TranscriptItem::Challenge(gamma));
        self.drawn.lookup = Some((beta, gamma));
        proof {
            assert(self.transcript@ =~= script(
                self.job.inputs@,
                self.commitments,
                self.drawn,
                self.openings,
                self.linearization_at_z,
            ));
        }
    }

    /// Commits to the lookup grand product.
    pub(crate) fn commit_lookup(&mut self, point: G)
        requires
            old(self).wf(Progress::Lookup, true),
        ensures
            final(self).wf(Progress::Products, true),
            final(self).job == old(self).job,
            final(self).drawn == old(self).drawn,
            final(self).openings == old(self).openings,
            final(self).linearization_at_z == old(self).linearization_at_z,
            final(self).commitments == (Commitments {
                lookup_z: Some(point),
                ..old(self).commitments
            }),
    {
        self.transcript.push(TranscriptItem::Point(point));
        self.commitments.lookup_z = Some(point);
        proof {
            assert(self.transcript@ =~= script(
                self.job.inputs@,
                self.commitments,
                self.drawn,
                self.openings,
                self.linearization_at_z,
            ));
        }
    }

    /// Draws the challenge of the numerator.
    pub(crate) fn draw_alpha(&mut self, alpha: F, with_lookup: Ghost<bool>)
        requires
            old(self).wf(Progress::Products, with_lookup@),
        ensures
            final(self).wf(Progress::Alpha, with_lookup@),
            final(self).job == old(self).job,
            final(self).commitments == old(self).commitments,
            final(self).openings == old(self).openings,
            final(self).linearization_at_z == old(self).linearization_at_z,
            final(self).drawn == (Drawn {
                alpha: Some(alpha),
                ..old(self).drawn
            }),
    {
        self.transcript.push(TranscriptItem::Challenge(alpha));
        self.drawn.alpha = Some(alpha);
        proof {
            assert(self.transcript@ =~= script(
                self.job.inputs@,
                self.commitments,
                self.drawn,
                self.openings,
                self.linearization_at_z,
            ));
        }
    }

    /// Commits to the parts of the quotient.
    pub(crate) fn commit_quotient(&mut self, parts: Vec<G>, with_lookup: Ghost<bool>)
        requires
            old(self).wf(Progress::Alpha, with_lookup@),
        ensures
            final(self).wf(Progress::Quotient, with_lookup@),
            final(self).job == old(self).job,
            final(self).drawn == old(self).drawn,
            final(self).openings == old(self).openings,
            final(self).linearization_at_z == old(self).linearization_at_z,
            final(self).commitments == (Commitments {
                quotient_parts: parts,
                ..old(self).commitments
            }),
    {
        push_points(&mut self.transcript, &parts);
        self.commitments.quotient_parts = parts;
        proof {
            assert(self.transcript@ =~= script(
                self.job.inputs@,
                self.commitments,
                self.drawn,
                self.openings,
                self.linearization_at_z,
            ));
        }
    }

    /// Draws the opening point and commits to the openings there.
    pub(crate) fn commit_openings(&mut self, z: F, openings: Openings<F>, with_lookup: Ghost<bool>)
        requires
            old(self).wf(Progress::Quotient, with_lookup@),
        ensures
            final(self).wf(Progress::Opened, with_lookup@),
            final(self).job == old(self).job,
            final(self).commitments == old(self).commitments,
            final(self).linearization_at_z == old(self).linearization_at_z,
            final(self).drawn == (Drawn {
                z: Some(z),
                ..old(self).drawn
            }),
            final(self).openings == Some(openings),
    {
        self.transcript.push(TranscriptItem::Challenge(z));
        push_openings(&mut self.transcript, &openings);
        self.drawn.z = Some(z);
        self.openings = Some(openings);
        proof {
            assert(self.transcript@ =~= script(
                self.job.inputs@,
                self.commitments,
                self.drawn,
                self.openings,
                self.linearization_at_z,
            ));
        }
    }

    /// Commits to the opening of the linearization polynomial.
    pub(crate) fn commit_linearization(&mut self, value: F, with_lookup: Ghost<bool>)
        requires
            old(self).wf(Progress::Opened, with_lookup@),
        ensures
            final(self).wf(Progress::Linearized, with_lookup@),
            final(self).job == old(self).job,
            final(self).commitments == old(self).commitments,
            final(self).drawn == old(self).drawn,
            final(self).openings == old(self).openings,
            final(self).linearization_at_z == Some(value),
    {
        self.transcript.push(TranscriptItem::Scalar(value));
        self.linearization_at_z = Some(value);
        proof {
            assert(self.transcript@ =~= script(
                self.job.inputs@,
                self.commitments,
                self.drawn,
                self.openings,
                self.linearization_at_z,
            ));
        }
    }

    /// Draws the last challenge.
    pub(crate) fn draw_v(&mut self, v: F, with_lookup: Ghost<bool>)
        requires
            old(self).wf(Progress::Linearized, with_lookup@),
        ensures
            final(self).wf(Progress::Done, with_lookup@),
            final(self).job == old(self).job,
            final(self).commitments == old(self).commitments,
            final(self).openings == old(self).openings,
            final(self).linearization_at_z == old(self).linearization_at_z,
            final(self).drawn == (Drawn {
                v: Some(v),
                ..old(self).drawn
            }),
    {
        self.transcript.push(TranscriptItem::Challenge(v));
        self.drawn.v = Some(v);
        proof {
            assert(self.transcript@ =~= script(
                self.job.inputs@,
                self.commitments,
                self.drawn,
                self.openings,
                self.linearization_at_z,
            ));
        }
    }
}

/// Commits to field elements in order.
pub(crate) fn push_scalars<F: PrimeField, G: Copy>(
    transcript: &mut Vec<TranscriptItem<F, G>>,
    values: &Vec<F>,
)
    ensures
        final(transcript)@ == old(transcript)@ + scalars::<F, G>(values@),
{
    let ghost before = transcript@;
    let mut i: usize = 0;
    while i < values.len()
        invariant
            i <= values@.len(),
            transcript@ == before + scalars::<F, G>(values@.take(i as int)),
        decreases values@.len() - i,
    {
        transcript.push(TranscriptItem::Scalar(values[i]));
        i += 1;
        proof {
            assert(transcript@ =~= before + scalars::<F, G>(values@.take(i as int)));
        }
    }
    proof {
        assert(values@.take(i as int) =~= values@);
    }
}

/// Commits to points in order.
pub(crate) fn push_points<F: PrimeField, G: Copy>(
    transcript: &mut Vec<TranscriptItem<F, G>>,
    values: &Vec<G>,
)
    ensures
        final(transcript)@ == old(transcript)@ + points::<F, G>(values@),
{
    let ghost before = transcript@;
    let mut i: usize = 0;
    while i < values.len()
        invariant
            i <= values@.len(),
            transcript@ == before + points::<F, G>(values@.take(i as int)),
        decreases values@.len() - i,
    {
        transcript.push(TranscriptItem::Point(values[i]));
        i += 1;
        proof {
            assert(transcript@ =~= before + points::<F, G>(values@.take(i as int)));
        }
    }
    proof {
        assert(values@.take(i as int) =~= values@);
    }
}

/// Commits to the openings in the order of the transcript.
pub(crate) fn push_openings<F: PrimeField, G: Copy>(
    transcript: &mut Vec<TranscriptItem<F, G>>,
    o: &Openings<F>,
)
    ensures
        final(transcript)@ == old(transcript)@ + scalars::<F, G>(opening_values(*o)),
{
    let ghost before = transcript@;
    transcript.push(TranscriptItem::Scalar(o.quotient_at_z));
    push_scalars(transcript, &o.state_at_z);
    push_scalars(transcript, &o.state_at_z_omega);
    push_scalars(transcript, &o.witness_at_z);
    push_scalars(transcript, &o.witness_at_z_omega);
    let mut setup: Vec<F> = Vec::new();
    let mut i: usize = 0;
    while i < o.gate_setup_at_z.len()
        invariant
            i <= o.gate_setup_at_z@.len(),
            setup@ == setup_values(o.gate_setup_at_z@.take(i as int)),
        decreases o.gate_setup_at_z@.len() - i,
    {
        setup.push(o.gate_setup_at_z[i].2);
        i += 1;
        proof {
            assert(setup@ =~= setup_values(o.gate_setup_at_z@.take(i as int)));
        }
    }
    proof {
        assert(o.gate_setup_at_z@.take(i as int) =~= o.gate_setup_at_z@);
    }
    push_scalars(transcript, &setup);
    push_scalars(transcript, &o.selectors_at_z);
    push_scalars(transcript, &o.permutations_at_z);
    transcript.push(TranscriptItem::Scalar(o.copy_z_at_z_omega));
    let ghost so_far = transcript@;
    if let Some(q) = &o.lookup {
        transcript.push(TranscriptItem::Scalar(q.t_at_z));
        transcript.push(TranscriptItem::Scalar(q.selector_at_z));
        transcript.push(TranscriptItem::Scalar(q.table_type_at_z));
        transcript.push(TranscriptItem::Scalar(q.s_at_z_omega));
        transcript.push(TranscriptItem::Scalar(q.grand_product_at_z_omega));
        transcript.push(TranscriptItem::Scalar(q.t_at_z_omega));
    }
    proof {
        assert(transcript@ =~= so_far + scalars::<F, G>(lookup_values(o.lookup)));
        assert(so_far =~= before + scalars::<F, G>(
            seq![o.quotient_at_z] + o.state_at_z@ + o.state_at_z_omega@ + o.witness_at_z@
                + o.witness_at_z_omega@ + setup_values(o.gate_setup_at_z@) + o.selectors_at_z@
                + o.permutations_at_z@ + seq![o.copy_z_at_z_omega],
        ));
        assert(transcript@ =~= before + scalars::<F, G>(opening_values(*o)));
    }
}

} // verus!
