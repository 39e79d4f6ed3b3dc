use plonk_prover::bits::bitreverse;
use plonk_prover::bn256::Bn256Fr;
use plonk_prover::circuit::{Assembly, Dilated, LookupColumns, Setup, SortedGateQueries};
use plonk_prover::closing_rounds::Proof;
use plonk_prover::domain::Domain;
use plonk_prover::errors::SynthesisError;
use plonk_prover::field::PrimeField;
use plonk_prover::gates::{Gate, GateKind};
use plonk_prover::linearization::{GateContribution, GateContributions};
use plonk_prover::lookup::{expected_last_value, lookup_grand_product};
use plonk_prover::lookup_rounds::LookupTransforms;
use plonk_prover::permutation::copy_permutation_grand_product;
use plonk_prover::quotient::{Ldes, LookupLdes};
use plonk_prover::session::TranscriptItem;

type F = Bn256Fr;
type G = [u64; 4];

const ROWS: usize = 7;
const SIZE: usize = 8;
const LOG: u32 = 3;

fn fr(x: u64) -> F {
    F::from_u64(x)
}

fn eval(poly: &Vec<F>, x: &F) -> F {
    let mut r = fr(0);
    for c in poly.iter().rev() {
        r = r.times(x).plus(c);
    }
    r
}

fn omega(size: usize) -> F {
    Domain::<F>::new_for_size(size as u64).unwrap().generator
}

fn fft(poly: &Vec<F>) -> Vec<F> {
    let w = omega(poly.len());
    (0..poly.len()).map(|i| eval(poly, &w.power(i as u64))).collect()
}

fn ifft(values: &Vec<F>) -> Vec<F> {
    let n = values.len();
    let w = omega(n).inverse().unwrap();
    let scale = fr(n as u64).inverse().unwrap();
    (0..n).map(|i| eval(values, &w.power(i as u64)).times(&scale)).collect()
}

fn reversed_ifft(values: &Vec<F>) -> Vec<F> {
    let natural = ifft(values);
    (0..natural.len()).map(|i| natural[bitreverse(i, LOG)]).collect()
}

fn coset_lde(poly: &Vec<F>, factor: usize) -> Vec<F> {
    let m = poly.len() * factor;
    let w = omega(m);
    let g = F::multiplicative_generator();
    (0..m).map(|i| eval(poly, &g.times(&w.power(bitreverse(i, LOG + 2) as u64)))).collect()
}

fn tau() -> F {
    fr(1_000_003)
}

fn commit(poly: &Vec<F>) -> G {
    eval(poly, &tau()).into_limbs()
}

fn point(g: &G) -> F {
    F::from_limbs(*g).unwrap()
}

fn ldes_of(polys: &Vec<Vec<F>>, factor: usize) -> Vec<Vec<F>> {
    polys.iter().map(|p| coset_lde(p, factor)).collect()
}

struct Outcome {
    proof: Proof<F, G>,
    transcript: Vec<TranscriptItem<F, G>>,
    openings_hold: bool,
}

enum Gates {
    Known,
    Given(fn(GateContributions<F>) -> GateContributions<F>),
}

fn prove(
    assembly: Assembly<F>,
    setup: &Setup<F>,
    masked_entries: Vec<Vec<F>>,
    gates: Gates,
) -> Result<Outcome, SynthesisError> {
    prove_at(assembly, setup, masked_entries, gates, fr(333444555), &mut false)
}

/// Proves a circuit with the given opening point, and tells whether the round of
/// the quotient let it pass.
fn prove_at(
    assembly: Assembly<F>,
    setup: &Setup<F>,
    masked_entries: Vec<Vec<F>>,
    gates: Gates,
    z: F,
    has_quotient: &mut bool,
) -> Result<Outcome, SynthesisError> {
    assert!(assembly.is_ready(setup));
    let has_lookup = assembly.lookup.is_some();
    let started = assembly.async_create_proof(setup)?;
    let permutation_values = started.fft_requests().iter().map(|p| fft(p)).collect();
    let state = started.state_ifft.iter().map(|p| ifft(p)).collect();
    let witness = started.witness_ifft.iter().map(|p| ifft(p)).collect();
    let wires = started.resume::<G>(permutation_values, state, witness);
    let state = wires.state_requests().iter().map(|p| commit(p)).collect();
    let witness = wires.witness_requests().iter().map(|p| commit(p)).collect();
    let committed = wires.resume(state, witness);
    let copy = if has_lookup {
        let lookup = committed.begin_lookup(fr(987));
        let (table_type, selector) = match lookup.transforms() {
            LookupTransforms::Inverse(t, s) => (ifft(&t), ifft(&s)),
            LookupTransforms::Forward(t, s) => (fft(&t), fft(&s)),
        };
        let combined = lookup.resume(table_type, selector, masked_entries);
        let tables = match combined.table_transform() {
            (true, p) => reversed_ifft(p),
            (false, p) => fft(p),
        };
        let sorted = reversed_ifft(&combined.s_ifft);
        let sorted = combined.resume(tables, sorted);
        let commitment = commit(&sorted.lookup.s);
        sorted.resume(commitment)
    } else {
        committed.skip_lookup()
    };
    let product = copy.resume(fr(123), fr(456))?;
    let coefficients = reversed_ifft(&product.ifft);
    let polynomial = product.resume(coefficients);
    let commitment = commit(&polynomial.copy_z);
    let committed = polynomial.resume(commitment);
    let products = if has_lookup {
        let product = committed.begin_lookup_product(fr(789), fr(1230))?;
        assert!(product.is_complete());
        let coefficients = reversed_ifft(&product.ifft);
        let polynomial = product.resume(coefficients);
        let commitment = commit(&polynomial.lookup.z);
        polynomial.resume(commitment)
    } else {
        committed.skip_lookup_product()
    };
    let start = products.resume(fr(1234567890));
    let inputs = ifft(&start.ifft);
    let requested = start.resume(inputs);
    let ldes = {
        let r = requested.requests();
        assert_eq!(r.factor, 4);
        assert!(r.coset.equals(&fr(7)));
        Ldes {
            inputs_and_constants: coset_lde(r.inputs_and_constants, r.factor),
            wires: ldes_of(r.wires, r.factor),
            setup: r.setup.iter().map(|p| coset_lde(p, r.factor)).collect(),
            selectors: ldes_of(r.selectors, r.factor),
            l_0: coset_lde(r.l_0, r.factor),
            copy_z: coset_lde(r.copy_z, r.factor),
            permutations: ldes_of(r.permutations, r.factor),
            lookup: r.lookup.map(|(z, s, t, table_type, selector, l_last)| LookupLdes {
                z: coset_lde(z, r.factor),
                s: coset_lde(s, r.factor),
                t: coset_lde(t, r.factor),
                table_type: coset_lde(table_type, r.factor),
                selector: coset_lde(selector, r.factor),
                l_last: coset_lde(l_last, r.factor),
            }),
        }
    };
    let ready = requested.resume(ldes)?;
    *has_quotient = true;
    let parts = ready.polynomials.quotient_parts.iter().map(|p| commit(p)).collect();
    let committed = ready.resume(parts);
    let opened = committed.resume(z);
    let contributions = opened.gate_contributions()?;
    let contributions = match gates {
        Gates::Known => contributions,
        Gates::Given(change) => change(contributions),
    };
    assert!(contributions.is_wf(&opened.session.job.gates, SIZE));
    assert!(!contributions.is_wf(&opened.session.job.gates, SIZE + 1));
    let linearized = opened.resume(contributions)?;
    let z = linearized.z;
    let combined = linearized.resume(fr(42));

    let z_omega = z.times(&omega(SIZE));
    let o = &combined.opening;
    let at_z = eval(&o.open_at_z, &tau())
        .times(&tau().minus(&z))
        .plus(&eval(&o.opened_at_z, &z))
        .equals(&eval(&o.opened_at_z, &tau()));
    let at_z_omega = eval(&o.open_at_z_omega, &tau())
        .times(&tau().minus(&z_omega))
        .plus(&eval(&o.opened_at_z_omega, &z_omega))
        .equals(&eval(&o.opened_at_z_omega, &tau()));
    let (a, b) = (commit(&o.open_at_z), commit(&o.open_at_z_omega));
    let mut combined = combined;
    let transcript = std::mem::take(&mut combined.session.transcript);
    let proof = combined.finish(a, b);
    Ok(Outcome { proof, transcript, openings_hold: at_z && at_z_omega })
}

fn non_residues() -> Vec<F> {
    vec![fr(5), fr(7), fr(10)]
}

fn identity_permutation() -> Vec<Vec<F>> {
    let w = omega(SIZE);
    let shifts = [fr(1), fr(5), fr(7), fr(10)];
    shifts.iter().map(|k| (0..SIZE).map(|i| k.times(&w.power(i as u64))).collect()).collect()
}

fn main_gate() -> Gate {
    Gate {
        kind: GateKind::MainGateOfWidth4WithDNext,
        degree: 4,
        num_quotient_terms: 1,
        benefits_from_linearization: true,
    }
}

fn bit_gate() -> Gate {
    Gate {
        kind: GateKind::TestBitGateOnA,
        degree: 3,
        num_quotient_terms: 1,
        benefits_from_linearization: false,
    }
}

/// Row 0 takes the public input 5, row 1 multiplies 5 by 6, row 2 adds 2 and 3
/// into `D` of row 3, row 4 tests a bit and row 5 looks up (1, 2, 3).
fn wires() -> Vec<Vec<F>> {
    let mut w = vec![vec![fr(0); ROWS]; 4];
    w[0][0] = fr(5);
    w[0][1] = fr(5);
    w[1][1] = fr(6);
    w[2][1] = fr(30);
    w[0][2] = fr(2);
    w[1][2] = fr(3);
    w[3][3] = fr(5);
    w[0][4] = fr(1);
    w[0][5] = fr(1);
    w[1][5] = fr(2);
    w[2][5] = fr(3);
    w
}

fn main_setup() -> Vec<Vec<F>> {
    let minus_one = fr(1).negated();
    let mut q = vec![vec![fr(0); SIZE]; 7];
    q[0][0] = minus_one;
    q[4][1] = fr(1);
    q[2][1] = minus_one;
    q[0][2] = fr(1);
    q[1][2] = fr(1);
    q[6][2] = minus_one;
    q.iter().map(|p| ifft(p)).collect()
}

fn permutations() -> Vec<Vec<F>> {
    let mut p = identity_permutation();
    // `A` of row 0, `A` of row 1 and `D` of row 3 hold the same value.
    let (x, y, z) = (p[0][0], p[0][1], p[3][3]);
    p[0][0] = y;
    p[0][1] = z;
    p[3][3] = x;
    p
}

fn assembly() -> Assembly<F> {
    Assembly {
        n: ROWS,
        is_finalized: true,
        produce_witness: true,
        produce_setup: true,
        input_assingments: vec![fr(5)],
        max_constraint_degree: 4,
        sorted_gates: vec![main_gate()],
        num_multitables: 0,
        queries: SortedGateQueries {
            state_polys: Dilated { at_z: vec![0, 1, 2, 3], at_z_omega: vec![3] },
            witness_polys: Dilated { at_z: vec![], at_z_omega: vec![] },
            gate_setup_polys: vec![vec![]],
            gate_selectors: vec![],
        },
        state_values: wires(),
        witness_values: vec![],
        permutations: permutations(),
        non_residues: non_residues(),
        lookup: None,
    }
}

fn setup() -> Setup<F> {
    Setup {
        gate_setup_monomials: vec![main_setup()],
        gate_selectors_monomials: vec![],
        permutation_monomials: permutations().iter().map(|p| ifft(p)).collect(),
        lookup_selector_monomial: None,
        lookup_tables_monomials: vec![],
        lookup_table_type_monomial: None,
    }
}

fn with_bit_gate() -> (Assembly<F>, Setup<F>) {
    let mut a = assembly();
    a.sorted_gates = vec![main_gate(), bit_gate()];
    a.queries.gate_selectors = vec![0];
    a.queries.gate_setup_polys = vec![vec![], vec![]];
    let mut s = setup();
    s.gate_setup_monomials.push(vec![]);
    let mut main_rows = vec![fr(1); SIZE];
    let mut bit_rows = vec![fr(0); SIZE];
    main_rows[4] = fr(0);
    bit_rows[4] = fr(1);
    s.gate_selectors_monomials = vec![ifft(&main_rows), ifft(&bit_rows)];
    (a, s)
}

fn table() -> Vec<Vec<F>> {
    vec![
        vec![fr(1), fr(4)],
        vec![fr(2), fr(5)],
        vec![fr(3), fr(6)],
        vec![fr(9), fr(9)],
    ]
}

fn on_domain(column: &Vec<F>) -> Vec<F> {
    let mut r = vec![fr(0); SIZE];
    let start = ROWS - column.len();
    for (i, x) in column.iter().enumerate() {
        r[start + i] = *x;
    }
    r
}

fn lookup_columns() -> LookupColumns<F> {
    let mut selector = vec![fr(0); ROWS];
    selector[5] = fr(1);
    let mut table_type = vec![fr(0); ROWS];
    table_type[5] = fr(9);
    LookupColumns {
        selector_values: selector,
        table_type_values: table_type,
        t_poly_ends: table(),
        s_poly_ends: table().iter().map(|c| vec![c[0], c[0], c[1]]).collect(),
    }
}

fn with_lookup() -> (Assembly<F>, Setup<F>, Vec<Vec<F>>) {
    let mut a = assembly();
    a.produce_setup = false;
    a.lookup = Some(lookup_columns());
    let mut s = setup();
    let mut selector = lookup_columns().selector_values;
    selector.push(fr(0));
    let mut table_type = lookup_columns().table_type_values;
    table_type.push(fr(0));
    s.lookup_selector_monomial = Some(ifft(&selector));
    s.lookup_table_type_monomial = Some(ifft(&table_type));
    s.lookup_tables_monomials = table().iter().map(|c| ifft(&on_domain(c))).collect();
    let masked = wires()[0..3]
        .iter()
        .map(|c| (0..ROWS).map(|i| if i == 5 { c[i] } else { fr(0) }).collect())
        .collect();
    (a, s, masked)
}

fn challenge_positions(transcript: &Vec<TranscriptItem<F, G>>) -> Vec<usize> {
    let mut r = vec![];
    for (i, item) in transcript.iter().enumerate() {
        if let TranscriptItem::Challenge(_) = item {
            r.push(i);
        }
    }
    r
}

#[test]
fn a_satisfied_circuit_is_proved() {
    let outcome = prove(assembly(), &setup(), vec![], Gates::Known).unwrap();
    assert!(outcome.openings_hold);
    let proof = outcome.proof;
    assert_eq!(proof.n, ROWS);
    assert_eq!(proof.inputs.len(), 1);
    assert!(proof.inputs[0].equals(&fr(5)));
    assert_eq!(proof.state_polys_commitments.len(), 4);
    assert_eq!(proof.witness_polys_commitments.len(), 0);
    assert_eq!(proof.quotient_poly_parts_commitments.len(), 4);
    assert!(proof.lookup_s_poly_commitment.is_none());
    assert_eq!(proof.state_polys_openings_at_dilations.len(), 1);
    assert_eq!(proof.state_polys_openings_at_dilations[0].0, 1);
    assert_eq!(proof.state_polys_openings_at_dilations[0].1, 3);
    assert_eq!(proof.copy_permutation_polys_openings_at_z.len(), 3);
    // the wires are opened as their values at the opening point
    let a = ifft(&{
        let mut v = wires()[0].clone();
        v.push(fr(0));
        v
    });
    let z = fr(333444555);
    assert!(proof.state_polys_openings_at_z[0].equals(&eval(&a, &z)));
    assert_eq!(proof.state_polys_commitments[0], commit(&a));
}

#[test]
fn the_challenge_order_follows_the_commitments() {
    let outcome = prove(assembly(), &setup(), vec![], Gates::Known).unwrap();
    // one input and four wires, then beta and gamma; the grand product, then
    // alpha; four parts, then z; eleven openings, then v
    assert_eq!(challenge_positions(&outcome.transcript), vec![5, 6, 8, 13, 25]);
    match (&outcome.transcript[0], &outcome.transcript[7], &outcome.transcript[24]) {
        (TranscriptItem::Scalar(x), TranscriptItem::Point(p), TranscriptItem::Scalar(l)) => {
            assert!(x.equals(&fr(5)));
            assert_eq!(*p, outcome.proof.copy_permutation_grand_product_commitment);
            assert!(l.equals(&outcome.proof.linearization_poly_opening_at_z));
        }
        _ => panic!("the transcript is out of order"),
    }
}

#[test]
fn the_values_of_the_permutations_come_from_the_setup() {
    let mut a = assembly();
    a.produce_setup = false;
    a.permutations = vec![];
    let outcome = prove(a, &setup(), vec![], Gates::Known).unwrap();
    let kept = prove(assembly(), &setup(), vec![], Gates::Known).unwrap();
    assert_eq!(
        outcome.proof.copy_permutation_grand_product_commitment,
        kept.proof.copy_permutation_grand_product_commitment
    );
    assert_eq!(outcome.proof.opening_proof_at_z, kept.proof.opening_proof_at_z);
}

#[test]
fn the_opening_proofs_check_against_the_commitments() {
    let proof = prove(assembly(), &setup(), vec![], Gates::Known).unwrap().proof;
    let z = fr(333444555);
    let z_omega = z.times(&omega(SIZE));
    let v = fr(42);
    // at z * omega: the grand product and `D`
    let perms: Vec<Vec<F>> = permutations().iter().map(|p| ifft(p)).collect();
    let count_at_z = 1 + 4 + 3;
    let first = v.power(count_at_z + 1);
    let second = v.power(count_at_z + 2);
    let committed = point(&proof.copy_permutation_grand_product_commitment)
        .times(&first)
        .plus(&point(&proof.state_polys_commitments[3]).times(&second));
    let opened = proof
        .copy_permutation_grand_product_opening_at_z_omega
        .times(&first)
        .plus(&proof.state_polys_openings_at_dilations[0].2.times(&second));
    let lhs = point(&proof.opening_proof_at_z_omega).times(&tau().minus(&z_omega)).plus(&opened);
    assert!(lhs.equals(&committed));
    for i in 0..3 {
        assert!(proof.copy_permutation_polys_openings_at_z[i].equals(&eval(&perms[i], &z)));
    }
}

#[test]
fn an_unsatisfied_gate_is_refused() {
    let mut a = assembly();
    a.state_values[2][1] = fr(31);
    let r = prove(a, &setup(), vec![], Gates::Known);
    assert_eq!(r.err(), Some(SynthesisError::Unsatisfiable));
}

#[test]
fn a_wrong_public_input_is_refused() {
    let mut a = assembly();
    a.input_assingments[0] = fr(6);
    let r = prove(a, &setup(), vec![], Gates::Known);
    assert_eq!(r.err(), Some(SynthesisError::Unsatisfiable));
}

#[test]
fn a_violated_copy_constraint_is_refused() {
    let mut a = assembly();
    a.state_values[0][1] = fr(3);
    a.state_values[1][1] = fr(10);
    let r = prove(a, &setup(), vec![], Gates::Known);
    assert_eq!(r.err(), Some(SynthesisError::Unsatisfiable));
}

#[test]
fn openings_that_miss_the_equation_are_refused() {
    fn change(c: GateContributions<F>) -> GateContributions<F> {
        let mut c = c;
        c.inputs_term = c.inputs_term.plus(&fr(1));
        c
    }
    let r = prove(assembly(), &setup(), vec![], Gates::Given(change));
    assert_eq!(r.err(), Some(SynthesisError::Unsatisfiable));
}

#[test]
fn a_wire_that_is_not_opened_is_missing() {
    let mut a = assembly();
    a.queries.state_polys.at_z = vec![0, 1, 3];
    let r = prove(a, &setup(), vec![], Gates::Known);
    assert_eq!(r.err(), Some(SynthesisError::AssignmentMissing));
}

#[test]
fn the_next_d_that_is_not_opened_is_missing() {
    let mut a = assembly();
    a.queries.state_polys.at_z_omega = vec![];
    let r = prove(a, &setup(), vec![], Gates::Known);
    assert_eq!(r.err(), Some(SynthesisError::AssignmentMissing));
}

#[test]
fn a_zero_denominator_stops_the_grand_product() {
    let mut a = assembly();
    // wire + gamma + beta * permutation is zero
    a.state_values[1][0] =
        fr(0).minus(&fr(456)).minus(&fr(123).times(&permutations()[1][0]));
    let r = prove(a, &setup(), vec![], Gates::Known);
    assert_eq!(r.err(), Some(SynthesisError::DivisionByZero));
}

#[test]
fn a_second_gate_is_proved() {
    let (a, s) = with_bit_gate();
    let outcome = prove(a, &s, vec![], Gates::Known).unwrap();
    assert!(outcome.openings_hold);
    assert_eq!(outcome.proof.gate_selectors_openings_at_z.len(), 1);
    assert_eq!(outcome.proof.gate_selectors_openings_at_z[0].0, 0);
    let z = fr(333444555);
    let selector = eval(&s.gate_selectors_monomials[0], &z);
    assert!(outcome.proof.gate_selectors_openings_at_z[0].1.equals(&selector));
}

#[test]
fn a_wire_that_is_no_bit_is_refused() {
    let (mut a, s) = with_bit_gate();
    a.state_values[0][4] = fr(2);
    let r = prove(a, &s, vec![], Gates::Known);
    assert_eq!(r.err(), Some(SynthesisError::Unsatisfiable));
}

#[test]
fn the_bit_gate_answers_with_its_value() {
    fn change(c: GateContributions<F>) -> GateContributions<F> {
        assert_eq!(c.others.len(), 1);
        match &c.others[0] {
            GateContribution::Value(v) => {
                let a = {
                    let mut v = wires()[0].clone();
                    v.push(fr(0));
                    eval(&ifft(&v), &fr(333444555))
                };
                let expected = a.minus(&fr(1)).times(&a).times(&fr(1234567890));
                assert!(v.equals(&expected));
            }
            GateContribution::Linearization(_) => panic!("the bit gate is not linearized"),
        }
        c
    }
    let (a, s) = with_bit_gate();
    assert!(prove(a, &s, vec![], Gates::Given(change)).is_ok());
}

#[test]
fn a_lookup_is_proved() {
    let (a, s, masked) = with_lookup();
    let outcome = prove(a, &s, masked, Gates::Known).unwrap();
    assert!(outcome.openings_hold);
    let proof = outcome.proof;
    assert!(proof.lookup_s_poly_commitment.is_some());
    assert!(proof.lookup_grand_product_commitment.is_some());
    let z = fr(333444555);
    let selector = eval(s.lookup_selector_monomial.as_ref().unwrap(), &z);
    assert!(proof.lookup_selector_poly_opening_at_z.unwrap().equals(&selector));
    let table_type = eval(s.lookup_table_type_monomial.as_ref().unwrap(), &z);
    assert!(proof.lookup_table_type_poly_opening_at_z.unwrap().equals(&table_type));
    // eta, two and two challenges of the grand products, alpha, z and v
    assert_eq!(challenge_positions(&outcome.transcript), vec![5, 7, 8, 10, 11, 13, 18, 36]);
}

#[test]
fn the_lookup_columns_are_combined_from_the_circuit() {
    let (mut a, s, masked) = with_lookup();
    a.produce_setup = true;
    assert!(a.is_ready(&s));
    let started = a.async_create_proof(&s).unwrap();
    assert_eq!(started.fft_requests().len(), 0);
    let state = started.state_ifft.iter().map(|p| ifft(p)).collect();
    let wires = started.resume::<G>(vec![], state, vec![]);
    let committed = wires.resume(vec![[0; 4]; 4], vec![]);
    let eta = fr(987);
    let lookup = committed.begin_lookup(eta);
    let (table_type, selector) = match lookup.transforms() {
        LookupTransforms::Inverse(t, s) => (t, s),
        LookupTransforms::Forward(_, _) => panic!("the circuit kept its columns"),
    };
    assert_eq!(table_type.len(), SIZE);
    assert_eq!(selector.len(), SIZE);
    assert!(selector[5].equals(&fr(1)));
    assert!(selector[7].equals(&fr(0)));
    let combined = lookup.resume(ifft(&table_type), ifft(&selector), masked);
    let entry = |c: [u64; 4]| {
        fr(c[0])
            .plus(&eta.times(&fr(c[1])))
            .plus(&eta.power(2).times(&fr(c[2])))
            .plus(&eta.power(3).times(&fr(c[3])))
    };
    assert!(combined.f[5].equals(&entry([1, 2, 3, 9])));
    assert!(combined.f[4].equals(&fr(0)));
    assert_eq!(combined.selector.len(), SIZE);
    assert!(combined.selector[1].equals(&ifft(&selector)[1]));
    let (inverse, p) = combined.table_transform();
    assert!(inverse);
    assert_eq!(p.len(), SIZE);
    assert!(p[0].equals(&fr(0)));
    assert!(p[5].equals(&entry([1, 2, 3, 9])));
    assert!(p[6].equals(&entry([4, 5, 6, 9])));
    assert!(p[7].equals(&fr(0)));
    let reply: Vec<F> = (0..SIZE).map(|i| fr(i as u64)).collect();
    let reply_s: Vec<F> = (0..SIZE).map(|i| fr(10 + i as u64)).collect();
    let sorted = combined.resume(reply, reply_s);
    let l = &sorted.lookup;
    assert!(l.values.t[5].equals(&entry([1, 2, 3, 9])));
    assert!(l.values.t[6].equals(&entry([4, 5, 6, 9])));
    assert!(l.values.t_shifted[4].equals(&entry([1, 2, 3, 9])));
    assert!(l.values.t_shifted[6].equals(&fr(0)));
    assert!(l.values.s[4].equals(&entry([1, 2, 3, 9])));
    assert!(l.values.s[5].equals(&entry([1, 2, 3, 9])));
    assert!(l.values.s_shifted[5].equals(&entry([4, 5, 6, 9])));
    assert!(l.t[1].equals(&fr(4)));
    assert!(l.s[3].equals(&fr(16)));
}

#[test]
fn an_entry_outside_the_tables_leaves_the_grand_product_open() {
    let (a, s, mut masked) = with_lookup();
    masked[2][5] = fr(8);
    let started = a.async_create_proof(&s).unwrap();
    let values = started.fft_requests().iter().map(|p| fft(p)).collect();
    let state = started.state_ifft.iter().map(|p| ifft(p)).collect();
    let wires = started.resume::<G>(values, state, vec![]);
    let committed = wires.resume(vec![[0; 4]; 4], vec![]);
    let lookup = committed.begin_lookup(fr(987));
    let (t, sel) = match lookup.transforms() {
        LookupTransforms::Forward(t, s) => (fft(&t), fft(&s)),
        LookupTransforms::Inverse(_, _) => panic!("the columns come from the setup"),
    };
    let combined = lookup.resume(t, sel, masked);
    let tables = fft(combined.table_transform().1);
    let sorted = reversed_ifft(&combined.s_ifft);
    let copy = combined.resume(tables, sorted).resume([0; 4]);
    let product = copy.resume(fr(123), fr(456)).unwrap();
    let coefficients = reversed_ifft(&product.ifft);
    let committed = product.resume(coefficients).resume([0; 4]);
    let product = committed.begin_lookup_product(fr(789), fr(1230)).unwrap();
    assert!(product.ifft[0].equals(&fr(1)));
    assert!(!product.is_complete());
}

#[test]
fn a_lookup_is_proved_from_the_columns_of_the_circuit() {
    let (mut a, s, masked) = with_lookup();
    a.produce_setup = true;
    let outcome = prove(a, &s, masked, Gates::Known).unwrap();
    assert!(outcome.openings_hold);
    // the tables are the combined columns, interpolated
    let eta = fr(987);
    let mut column = vec![fr(0); SIZE];
    for row in 0..2 {
        for (k, c) in table().iter().enumerate() {
            column[5 + row] = column[5 + row].plus(&eta.power(k as u64).times(&c[row]));
        }
    }
    let t = ifft(&column);
    let z = fr(333444555);
    let z_omega = z.times(&omega(SIZE));
    let proof = outcome.proof;
    assert!(proof.lookup_t_poly_opening_at_z.unwrap().equals(&eval(&t, &z)));
    assert!(proof.lookup_t_poly_opening_at_z_omega.unwrap().equals(&eval(&t, &z_omega)));
    // the proof is the same as from the setup
    let (a, s, masked) = with_lookup();
    let from_setup = prove(a, &s, masked, Gates::Known).unwrap().proof;
    assert_eq!(proof.opening_proof_at_z, from_setup.opening_proof_at_z);
    assert_eq!(proof.opening_proof_at_z_omega, from_setup.opening_proof_at_z_omega);
    assert_eq!(proof.lookup_s_poly_commitment, from_setup.lookup_s_poly_commitment);
}

#[test]
fn a_lookup_from_the_setup_needs_only_the_sorted_rows_of_the_circuit() {
    let (mut a, s, masked) = with_lookup();
    let l = a.lookup.as_mut().unwrap();
    l.selector_values = vec![];
    l.table_type_values = vec![];
    l.t_poly_ends = vec![];
    let proof = prove(a, &s, masked, Gates::Known).unwrap().proof;
    let (a, s, masked) = with_lookup();
    let whole = prove(a, &s, masked, Gates::Known).unwrap().proof;
    assert_eq!(proof.opening_proof_at_z, whole.opening_proof_at_z);
}

#[test]
fn witness_commitments_are_to_the_witness_polynomials() {
    let mut a = assembly();
    a.witness_values = vec![vec![fr(77); ROWS]];
    a.queries.witness_polys.at_z = vec![0];
    let outcome = prove(a, &setup(), vec![], Gates::Known).unwrap();
    let proof = outcome.proof;
    assert!(outcome.openings_hold);
    let mut column = vec![fr(77); ROWS];
    column.push(fr(0));
    let poly = ifft(&column);
    assert_eq!(proof.witness_polys_commitments, vec![commit(&poly)]);
    assert_ne!(proof.witness_polys_commitments[0], proof.state_polys_commitments[0]);
    let expected = eval(&poly, &fr(333444555));
    assert!(proof.witness_polys_openings_at_z[0].equals(&expected));
}

#[test]
fn there_may_be_more_witness_columns_than_wires() {
    let mut a = assembly();
    a.witness_values = (0..6).map(|i| vec![fr(i); ROWS]).collect();
    let proof = prove(a, &setup(), vec![], Gates::Known).unwrap().proof;
    assert_eq!(proof.witness_polys_commitments.len(), 6);
    for i in 0..6 {
        let mut column = vec![fr(i as u64); ROWS];
        column.push(fr(0));
        assert_eq!(proof.witness_polys_commitments[i], commit(&ifft(&column)));
    }
}

#[test]
fn a_failing_row_is_refused_by_its_quotient() {
    let mut a = assembly();
    a.state_values[2][1] = fr(31);
    let mut has_quotient = false;
    let z = fr(333444555);
    let r = prove_at(a, &setup(), vec![], Gates::Known, z, &mut has_quotient);
    assert_eq!(r.err(), Some(SynthesisError::Unsatisfiable));
    assert!(!has_quotient);
}

/// The equation of the main gate is one on every row, so that the polynomial with
/// its values has a single coefficient.
#[test]
fn rows_that_fail_alike_are_refused_by_the_openings() {
    for z in [333444555, 2, 3, 1_000_000_007] {
        let mut a = assembly();
        a.input_assingments = vec![fr(1); SIZE];
        a.input_assingments[0] = fr(6);
        let mut has_quotient = false;
        let r = prove_at(a, &setup(), vec![], Gates::Known, fr(z), &mut has_quotient);
        assert_eq!(r.err(), Some(SynthesisError::Unsatisfiable));
        assert!(has_quotient);
    }
}

/// Whether the copy-permutation grand product ends with one.
fn copies_close(wires: &Vec<Vec<F>>, beta: F, gamma: F) -> bool {
    let domain = Domain::<F>::new_for_size(SIZE as u64).unwrap();
    let z = copy_permutation_grand_product(
        wires,
        &permutations(),
        &non_residues(),
        &domain,
        &beta,
        &gamma,
    )
    .unwrap();
    z[ROWS].equals(&fr(1))
}

#[test]
fn a_broken_copy_leaves_the_grand_product_open() {
    let mut broken = wires();
    broken[3][3] = fr(4);
    for beta in 1..6 {
        for gamma in 1..6 {
            let (b, g) = (fr(1000 + beta), fr(2000 + gamma));
            assert!(copies_close(&wires(), b, g));
            assert!(!copies_close(&broken, b, g));
        }
    }
}

/// Whether the lookup grand product ends as it must, if row 5 looks up an entry
/// and the sorted column holds the entry 40 twice.
fn lookups_close(entry: u64, beta: F, gamma: F) -> bool {
    let mut f = vec![fr(0); ROWS];
    f[5] = fr(entry);
    let t = on_domain(&vec![fr(40), fr(50)]);
    let s = on_domain(&vec![fr(40), fr(40), fr(50)]);
    let z = lookup_grand_product(
        &f,
        &t[..ROWS].to_vec(),
        &t[1..].to_vec(),
        &s[..ROWS].to_vec(),
        &s[1..].to_vec(),
        &beta,
        &gamma,
    )
    .unwrap();
    z[ROWS].equals(&expected_last_value(&beta, &gamma, ROWS as u64))
}

#[test]
fn an_entry_outside_the_tables_shows_for_many_challenges() {
    for beta in 1..6 {
        for gamma in 1..6 {
            let (b, g) = (fr(1000 + beta), fr(2000 + gamma));
            assert!(lookups_close(40, b, g));
            assert!(!lookups_close(50, b, g));
            assert!(!lookups_close(45, b, g));
        }
    }
}

#[test]
fn a_circuit_that_is_not_finalized_is_not_ready() {
    let mut a = assembly();
    a.is_finalized = false;
    assert!(!a.is_ready(&setup()));
    let mut a = assembly();
    a.num_multitables = 1;
    assert!(!a.is_ready(&setup()));
    let mut a = assembly();
    a.n = 6;
    assert!(!a.is_ready(&setup()));
    let mut a = assembly();
    a.sorted_gates[0].degree = 5;
    assert!(!a.is_ready(&setup()));
    let mut a = assembly();
    a.produce_witness = false;
    assert!(!a.is_ready(&setup()));
    let (mut a, s, _) = with_lookup();
    assert!(a.is_ready(&s));
    a.lookup.as_mut().unwrap().t_poly_ends.pop();
    assert!(a.is_ready(&s));
    a.produce_setup = true;
    assert!(!a.is_ready(&s));
    let (mut a, s, _) = with_lookup();
    a.lookup.as_mut().unwrap().s_poly_ends.pop();
    assert!(!a.is_ready(&s));
    let (a, _, _) = with_lookup();
    assert!(!a.is_ready(&setup()));
}
