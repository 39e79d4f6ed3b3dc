//! What the rounds of a run ask for, in terms of the circuit, its setup and the
//! answers.

use crate::closing_rounds::{LdeRequests, LdesRequested};
use crate::domain::{generates, lagrange_poly};
use crate::field::{red, vals, PrimeField};
use crate::laws::law_lagrange_on_domain;
use crate::polynomial::{borrowed_columns, columns, combine, eval};
use crate::proof_laws::lemma_linked;
use crate::prover::{Started, WiresReady};
use crate::run::Run;
use vstd::arithmetic::power::*;
use vstd::arithmetic::power2::*;
use vstd::prelude::*;

verus! {

proof fn lemma_started<F: PrimeField, G: Copy>(run: Run<F, G>)
    requires
        run.completes(),
    ensures
        run.assembly.ready(&run.setup),
        run.started.wf(),
        run.started.starts(run.assembly, run.setup),
        run.started.job.domain.size == run.size(),
        run.started.job.big.size == 4 * run.size(),
        run.wires.monomials.state == run.state,
        run.wires.monomials.witness == run.witness,
        run.wires.monomials.gate_setup == run.started.gate_setup,
        run.wires.monomials.gate_selectors == run.started.gate_selectors,
        run.wires.monomials.permutations == run.started.permutations,
        vals(run.start.ifft@) == crate::polynomial::padded_seq(
            vals(run.assembly.input_assingments@),
            run.size(),
        ),
{
    reveal(Run::completes);
}

/// The columns that have to be transformed first are those of the circuit, with a
/// zero in the last row of the domain.
pub proof fn law_columns_of_run<F: PrimeField, G: Copy>(run: Run<F, G>, j: int, i: int)
    requires
        run.completes(),
        0 <= i <= run.assembly.n,
    ensures
        ({
            let n = run.assembly.n as int;
            let (state, witness) = (run.assembly.state_values@, run.assembly.witness_values@);
            &&& run.started.state_ifft@.len() == state.len()
            &&& run.started.witness_ifft@.len() == witness.len()
            &&& 0 <= j < state.len() ==> {
                let column = run.started.state_ifft@[j]@;
                &&& column.len() == n + 1
                &&& column[i].val() == if i < n {
                    state[j]@[i].val()
                } else {
                    0
                }
            }
            &&& 0 <= j < witness.len() ==> {
                let column = run.started.witness_ifft@[j]@;
                &&& column.len() == n + 1
                &&& column[i].val() == if i < n {
                    witness[j]@[i].val()
                } else {
                    0
                }
            }
        }),
{
    lemma_started(run);
    let n = run.assembly.n as int;
    let (state, witness) = (run.assembly.state_values@, run.assembly.witness_values@);
    if 0 <= j < state.len() {
        let column = run.started.state_ifft@[j]@;
        assert(state[j]@.len() == n);
        assert(vals(column)[i] == column[i].val());
    }
    if 0 <= j < witness.len() {
        let column = run.started.witness_ifft@[j]@;
        assert(witness[j]@.len() == n);
        assert(vals(column)[i] == column[i].val());
    }
}

/// The public inputs that have to be transformed stand in the first rows of the
/// domain, and zeros in the others.
pub proof fn law_inputs_of_run<F: PrimeField, G: Copy>(run: Run<F, G>, i: int)
    requires
        run.completes(),
        0 <= i <= run.assembly.n,
    ensures
        run.start.ifft@.len() == run.size(),
        run.start.ifft@[i].val() == if i < run.assembly.input_assingments@.len() {
            run.assembly.input_assingments@[i].val()
        } else {
            0
        },
{
    lemma_started(run);
    assert(vals(run.start.ifft@).len() == run.size());
    assert(vals(run.start.ifft@)[i] == run.start.ifft@[i].val());
}

/// The permutation polynomials of the setup have to be evaluated on the domain,
/// unless the circuit kept their values.
pub proof fn law_permutation_requests_of_run<F: PrimeField, G: Copy>(
    run: Run<F, G>,
    requests: Vec<&Vec<F>>,
    j: int,
)
    requires
        run.completes(),
        call_ensures(Started::<F>::fft_requests, (&run.started,), requests),
    ensures
        requests@.len() == if run.assembly.produce_setup {
            0
        } else {
            run.setup.permutation_monomials@.len()
        },
        0 <= j < requests@.len() ==> vals(requests@[j]@) == vals(
            run.setup.permutation_monomials@[j]@,
        ),
{
    lemma_started(run);
    let asked = borrowed_columns(requests@);
    assert(asked.len() == requests@.len());
    if 0 <= j < requests@.len() {
        assert(asked[j] == columns(run.started.permutations@)[j]);
        assert(run.started.permutations@[j]@ == run.setup.permutation_monomials@[j]@);
    }
}

/// The state polynomials that are committed to are those that were answered, in
/// their order.
pub proof fn law_state_requests_of_run<F: PrimeField, G: Copy>(
    run: Run<F, G>,
    requests: Vec<&Vec<F>>,
    j: int,
)
    requires
        run.completes(),
        call_ensures(WiresReady::<F, G>::state_requests, (&run.wires,), requests),
    ensures
        requests@.len() == run.state@.len(),
        0 <= j < requests@.len() ==> vals(requests@[j]@) == vals(run.state@[j]@),
{
    lemma_started(run);
    let asked = borrowed_columns(requests@);
    assert(asked.len() == requests@.len());
    if 0 <= j < requests@.len() {
        assert(asked[j] == columns(run.state@)[j]);
    }
}

/// The witness polynomials that are committed to are those that were answered, in
/// their order.
pub proof fn law_witness_requests_of_run<F: PrimeField, G: Copy>(
    run: Run<F, G>,
    requests: Vec<&Vec<F>>,
    j: int,
)
    requires
        run.completes(),
        call_ensures(WiresReady::<F, G>::witness_requests, (&run.wires,), requests),
    ensures
        requests@.len() == run.witness@.len(),
        0 <= j < requests@.len() ==> vals(requests@[j]@) == vals(run.witness@[j]@),
{
    lemma_started(run);
    let asked = borrowed_columns(requests@);
    assert(asked.len() == requests@.len());
    if 0 <= j < requests@.len() {
        assert(asked[j] == columns(run.witness@)[j]);
    }
}

/// What has to be evaluated on the coset of the multiplicative generator, over a
/// domain four times as large: the wires and the grand product that were answered,
/// and the polynomials of the setup, each in its place.
pub proof fn law_lde_requests_of_run<F: PrimeField, G: Copy>(
    run: Run<F, G>,
    requests: LdeRequests<F>,
    j: int,
)
    requires
        run.completes(),
        call_ensures(LdesRequested::<F, G>::requests, (&run.requested,), requests),
    ensures
        requests.factor == 4,
        requests.coset.val() == F::spec_generator(),
        run.started.job.big.size == 4 * run.size(),
        requests.wires@ == run.state@,
        requests.copy_z@ == run.polynomial.copy_z@,
        requests.permutations@.len() == 4,
        0 <= j < 4 ==> requests.permutations@[j]@ == run.setup.permutation_monomials@[j]@,
        requests.setup@.len() == 6,
        0 <= j < 6 ==> vals(requests.setup@[j]@) == vals(
            run.setup.gate_setup_monomials@[0]@[if j < 5 {
                j
            } else {
                6
            }]@,
        ),
        run.assembly.sorted_gates@.len() > 1 ==> {
            &&& requests.selectors@.len() == run.setup.gate_selectors_monomials@.len()
            &&& 0 <= j < requests.selectors@.len() ==> requests.selectors@[j]@
                == run.setup.gate_selectors_monomials@[j]@
        },
        match (requests.lookup, run.lookup) {
            (Some((z, s, t, table_type, selector, _)), Some(l)) => {
                let p = l.polynomial.lookup;
                &&& z@ == p.z@
                &&& s@ == p.s@
                &&& t@ == p.t@
                &&& table_type@ == p.table_type@
                &&& selector@ == p.selector@
            },
            (None, None) => true,
            _ => false,
        },
{
    lemma_started(run);
    lemma_linked(run);
    let asked = borrowed_columns(requests.setup@);
    let q = run.wires.monomials.gate_setup@[0]@;
    assert(asked.len() == requests.setup@.len());
    if 0 <= j < 6 {
        let k = if j < 5 {
            j
        } else {
            6
        };
        assert(asked[j] == vals(q[k]@));
        assert(crate::circuit::same_polys(q, run.setup.gate_setup_monomials@[0]@));
        assert(q[k]@ == run.setup.gate_setup_monomials@[0]@[k]@);
    }
    if 0 <= j < 4 {
        assert(run.started.permutations@[j]@ == run.setup.permutation_monomials@[j]@);
    }
    if run.assembly.sorted_gates@.len() > 1 && 0 <= j < requests.selectors@.len() {
        assert(run.started.gate_selectors@[j]@ == run.setup.gate_selectors_monomials@[j]@);
    }
}

/// With the wires goes the sum of the public inputs and of the constant selector,
/// which is the setup polynomial after that of the product.
pub proof fn law_constants_of_run<F: PrimeField, G: Copy>(
    run: Run<F, G>,
    requests: LdeRequests<F>,
    i: int,
)
    requires
        run.completes(),
        call_ensures(LdesRequested::<F, G>::requests, (&run.requested,), requests),
        run.inputs@.len() == run.size(),
        0 <= i <= run.assembly.n,
    ensures
        requests.inputs_and_constants@.len() == run.size(),
        requests.inputs_and_constants@[i].val() == red::<F>(
            run.inputs@[i].val() + run.setup.gate_setup_monomials@[0]@[5]@[i].val(),
        ),
{
    lemma_started(run);
    lemma_linked(run);
    lemma_inputs_and_constants(run);
    let q = run.wires.monomials.gate_setup@[0]@;
    assert(crate::circuit::same_polys(q, run.setup.gate_setup_monomials@[0]@));
    assert(q[5]@ == run.setup.gate_setup_monomials@[0]@[5]@);
    let terms = seq![(1int, vals(run.inputs@)), (1int, vals(q[5]@))];
    assert(run.requested.inputs_and_constants@[i].val() == red::<F>(combine(terms, i)));
    let first = seq![(1int, vals(run.inputs@))];
    assert(terms.drop_last() =~= first);
    assert(first.drop_last() =~= Seq::<(int, Seq<int>)>::empty());
    assert(combine(first.drop_last(), i) == 0);
    assert(combine(first, i) == 1 * vals(run.inputs@)[i]);
    assert(combine(terms, i) == combine(first, i) + 1 * vals(q[5]@)[i]);
    assert(crate::polynomial::all_len(q, run.size() as int));
    assert(q[5]@.len() == run.size());
}

proof fn lemma_inputs_and_constants<F: PrimeField, G: Copy>(run: Run<F, G>)
    requires
        run.completes(),
    ensures
        crate::polynomial::represents(
            run.requested.inputs_and_constants@,
            seq![
                (1int, vals(run.inputs@)),
                (1int, vals(run.wires.monomials.gate_setup@[0]@[5]@)),
            ],
            run.size() as int,
        ),
{
    reveal(Run::completes);
}

/// With the grand products go the polynomials that are one in the first and in the
/// last row of the domain and zero in the others.
pub proof fn law_lagrange_requests_of_run<F: PrimeField, G: Copy>(
    run: Run<F, G>,
    requests: LdeRequests<F>,
    i: int,
)
    requires
        run.completes(),
        call_ensures(LdesRequested::<F, G>::requests, (&run.requested,), requests),
        0 <= i <= run.assembly.n,
    ensures
        red::<F>(eval(vals(requests.l_0@), pow(run.omega(), i as nat))) == if i == 0 {
            1int
        } else {
            0
        },
        requests.lookup matches Some((_, _, _, _, _, l_last)) ==> red::<F>(
            eval(vals(l_last@), pow(run.omega(), i as nat)),
        ) == if i == run.assembly.n {
            1int
        } else {
            0
        },
{
    lemma_started(run);
    lemma_linked(run);
    let k = run.started.job.domain.power_of_two as nat;
    let n = run.assembly.n as nat;
    assert(run.started.job.domain.wf());
    assert(generates::<F>(run.omega(), k));
    law_lagrange_on_domain::<F>(run.omega(), k, 0, i as nat);
    law_lagrange_on_domain::<F>(run.omega(), k, n, i as nat);
    assert(vals(run.requested.l_0@) == lagrange_poly::<F>(run.omega(), pow2(k), 0));
    assert(vals(run.requested.l_last@) == lagrange_poly::<F>(run.omega(), pow2(k), n));
}

} // verus!
