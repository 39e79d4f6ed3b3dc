//! The challenges and the copy-permutation grand product of a run, written out.

use crate::closing_rounds::weights_of;
use crate::field::{red, vals, PrimeField};
use crate::permutation::{column_shifts, coset_row, perm_product, row_of};
use crate::polynomial::columns;
use crate::proof_laws::lemma_linked;
use crate::quotient::LookupWeights;
use crate::refusal::lemma_four_factors;
use crate::run::Run;
use vstd::arithmetic::power::*;
use vstd::prelude::*;

verus! {

/// The numerator is weighed with the challenges that were drawn for it, and with
/// the shifts of the circuit: one for the first column and its non-residues for the
/// others. The lookup grand product ends with `(gamma * (beta + 1))^n`, and its
/// last row is the last of the domain.
pub proof fn law_weights_of_run<F: PrimeField, G: Copy>(run: Run<F, G>)
    requires
        run.completes(),
    ensures
        ({
            let w = weights_of(run.requested.session, run.requested.challenges);
            let k = run.assembly.non_residues@;
            let n = run.assembly.n as nat;
            &&& weights_of(run.opened.session, run.opened.challenges) == w
            &&& w.alpha == run.alpha.val()
            &&& w.beta == run.beta.val()
            &&& w.gamma == run.gamma.val()
            &&& w.shifts == seq![1int, k[0].val(), k[1].val(), k[2].val()]
            &&& match run.lookup {
                Some(l) => w.lookup == Some(
                    LookupWeights {
                        eta: l.eta.val(),
                        beta: l.beta.val(),
                        gamma: l.gamma.val(),
                        expected: pow(l.gamma.val() * (l.beta.val() + 1), n),
                        last_omega: pow(run.omega(), n),
                    },
                ),
                None => w.lookup is None,
            }
        }),
{
    lemma_linked(run);
    lemma_challenges(run);
    let k = run.assembly.non_residues@;
    assert(column_shifts(k) =~= seq![1int, k[0].val(), k[1].val(), k[2].val()]);
}

proof fn lemma_challenges<F: PrimeField, G: Copy>(run: Run<F, G>)
    requires
        run.completes(),
    ensures
        run.opened.challenges == run.requested.challenges,
        run.started.job.non_residues == run.assembly.non_residues,
        run.assembly.non_residues@.len() == 3,
        run.requested.challenges.alpha == run.alpha,
        run.requested.challenges.beta == run.beta,
        run.requested.challenges.gamma == run.gamma,
        run.lookup is Some <==> run.requested.challenges.lookup is Some,
        run.lookup matches Some(l) ==> {
            let c = run.requested.challenges.lookup->0;
            c.eta == l.eta && c.beta == l.beta && c.gamma == l.gamma
        },
{
    reveal(Run::completes);
}

/// The copy-permutation grand product that is asked for starts from one, and each
/// entry follows from the one before: times the factors `wire + beta * sigma +
/// gamma` it is the one before times `wire + beta * shift * x + gamma`. The points
/// `sigma` are those that the circuit kept, or the answers for the permutation
/// polynomials.
pub proof fn law_copy_product_of_run<F: PrimeField, G: Copy>(run: Run<F, G>, i: int)
    requires
        run.completes(),
        0 <= i < run.assembly.n,
    ensures
        ({
            let z = run.product.ifft@;
            let w = run.assembly.state_values@;
            let k = run.assembly.non_residues@;
            let s = if run.assembly.produce_setup {
                run.assembly.permutations@
            } else {
                run.permutation_values@
            };
            let x = red::<F>(pow(run.omega(), i as nat));
            let (beta, gamma) = (run.beta.val(), run.gamma.val());
            let (a, b, c, d) = (w[0]@[i].val(), w[1]@[i].val(), w[2]@[i].val(), w[3]@[i].val());
            &&& z.len() == run.size()
            &&& z[0].val() == 1
            &&& red::<F>(
                z[i + 1].val() * ((a + gamma + beta * s[0]@[i].val()) * (b + gamma + beta
                    * s[1]@[i].val()) * (c + gamma + beta * s[2]@[i].val()) * (d + gamma + beta
                    * s[3]@[i].val())),
            ) == red::<F>(
                z[i].val() * ((a + gamma + beta * red::<F>(x * 1)) * (b + gamma + beta * red::<F>(
                    x * k[0].val(),
                )) * (c + gamma + beta * red::<F>(x * k[1].val())) * (d + gamma + beta * red::<F>(
                    x * k[2].val(),
                ))),
            )
        }),
{
    lemma_copy_contract(run);
    let job = run.copy.session.job;
    let (beta, gamma) = (run.beta.val(), run.gamma.val());
    let w = columns(job.state_values@);
    let s = columns(run.copy.permutation_values@);
    let shifts = column_shifts(job.non_residues@);
    let x = red::<F>(pow(run.omega(), i as nat));
    lemma_four_factors(row_of(w, i), coset_row::<F>(x, shifts), beta, gamma);
    lemma_four_factors(row_of(w, i), row_of(s, i), beta, gamma);
    let z = vals(run.product.ifft@);
    let nums = run.copy.numerators(run.beta, run.gamma);
    let dens = run.copy.denominators(run.beta, run.gamma);
    assert(nums[i] == perm_product(row_of(w, i), coset_row::<F>(x, shifts), beta, gamma));
    assert(dens[i] == perm_product(row_of(w, i), row_of(s, i), beta, gamma));
    assert(red::<F>(z[i + 1] * dens[i]) == red::<F>(z[i] * nums[i]));
}

proof fn lemma_copy_contract<F: PrimeField, G: Copy>(run: Run<F, G>)
    requires
        run.completes(),
    ensures
        run.copy.session.job == run.started.job,
        run.copy.session.job.n == run.assembly.n,
        run.copy.session.job.state_values == run.assembly.state_values,
        run.copy.session.job.non_residues == run.assembly.non_residues,
        run.assembly.non_residues@.len() == 3,
        run.assembly.state_values@.len() == 4,
        run.copy.permutation_values@.len() == 4,
        run.product.ifft@.len() == run.size(),
        run.copy.permutation_values == if run.assembly.produce_setup {
            run.assembly.permutations
        } else {
            run.permutation_values
        },
        crate::polynomial::all_len(run.assembly.state_values@, run.assembly.n as int),
        crate::polynomial::all_len(run.copy.permutation_values@, run.size() as int),
        crate::permutation::is_grand_product::<F>(
            vals(run.product.ifft@),
            run.copy.numerators(run.beta, run.gamma),
            run.copy.denominators(run.beta, run.gamma),
        ),
{
    reveal(Run::completes);
}

/// The copy-permutation grand product, as coefficients, is what was answered for
/// its column, enumerated by reversed indices.
pub proof fn law_copy_polynomial_of_run<F: PrimeField, G: Copy>(run: Run<F, G>)
    requires
        run.completes(),
    ensures
        run.polynomial.copy_z@.len() == run.coefficients@.len(),
        forall|i: int|
            0 <= i < run.coefficients@.len() ==> #[trigger] run.polynomial.copy_z@[i]
                == run.coefficients@[crate::bits::reversed(
                i as nat,
                run.started.job.domain.power_of_two as nat,
            ) as int],
{
    reveal(Run::completes);
}

} // verus!
