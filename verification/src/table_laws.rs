//! The lookup argument of a run, written out row by row in terms of the circuit,
//! its setup and the answers.

use crate::bits::reversed;
use crate::field::{red, vals, PrimeField};
use crate::lookup_rounds::{LookupStart, LookupTransforms, Tables};
use crate::polynomial::{columns, combine, power_terms};
use crate::prover::LookupSource;
use crate::run::{LookupRun, Run};
use vstd::arithmetic::power::*;
use vstd::prelude::*;

verus! {

/// Four columns in row `k`, combined with the powers of `eta` from the zeroth on.
pub open spec fn entry<F: PrimeField>(cols: Seq<Vec<F>>, eta: int, k: int) -> int {
    cols[0]@[k].val() + eta * cols[1]@[k].val() + eta * eta * cols[2]@[k].val() + eta * eta * eta
        * cols[3]@[k].val()
}

proof fn lemma_four_terms(cols: Seq<Seq<int>>, eta: int, k: int)
    requires
        cols.len() == 4,
    ensures
        combine(power_terms(cols, eta, 0), k) == cols[0][k] + eta * cols[1][k] + eta * eta
            * cols[2][k] + eta * eta * eta * cols[3][k],
{
    let t = power_terms(cols, eta, 0);
    reveal_with_fuel(combine, 5);
    lemma_pow0(eta);
    lemma_pow1(eta);
    lemma_pow_adds(eta, 1, 1);
    lemma_pow_adds(eta, 2, 1);
    assert(t.drop_last().drop_last().drop_last().drop_last() =~= Seq::empty());
    assert(t[0] == (1int, cols[0]));
    assert(t[1] == (eta, cols[1]));
    assert(t[2] == (eta * eta, cols[2]));
    assert(t[3] == (eta * eta * eta, cols[3]));
}

proof fn lemma_entry<F: PrimeField>(cols: Seq<Vec<F>>, eta: int, k: int)
    requires
        cols.len() == 4,
        0 <= k < cols[0]@.len(),
        crate::polynomial::all_len(cols, cols[0]@.len() as int),
    ensures
        combine(power_terms(columns(cols), eta, 0), k) == entry(cols, eta, k),
{
    lemma_four_terms(columns(cols), eta, k);
    assert(cols[1]@.len() == cols[0]@.len());
    assert(cols[2]@.len() == cols[0]@.len());
    assert(cols[3]@.len() == cols[0]@.len());
}

/// What a row looks up is its three masked columns and its table type, combined
/// with the powers of `eta`. The table types are those of the circuit if it kept
/// its setup, else the answer for the polynomial of the setup.
pub proof fn law_queries_of_run<F: PrimeField, G: Copy>(
    run: Run<F, G>,
    l: LookupRun<F, G>,
    i: int,
)
    requires
        run.completes(),
        run.lookup == Some(l),
        l.masked@.len() == 3,
        crate::polynomial::all_len(l.masked@, run.assembly.n as int),
        l.table_type@.len() == run.size(),
        0 <= i < run.assembly.n,
    ensures
        ({
            let eta = l.eta.val();
            let m = l.masked@;
            let types = if run.assembly.produce_setup {
                run.assembly.lookup->0.table_type_values@
            } else {
                l.table_type@
            };
            l.combined.f@[i].val() == red::<F>(
                m[0]@[i].val() + eta * m[1]@[i].val() + eta * eta * m[2]@[i].val() + eta * eta
                    * eta * types[i].val(),
            )
        }),
{
    lemma_lookup_start(run, l);
    let n = run.assembly.n as int;
    let types = if run.assembly.produce_setup {
        vals(run.assembly.lookup->0.table_type_values@)
    } else {
        vals(l.table_type@).take(n)
    };
    let cols = columns(l.masked@).push(types);
    let f = vals(l.combined.f@);
    lemma_lookup_combined(run, l);
    lemma_four_terms(cols, l.eta.val(), i);
    assert(f[i] == red::<F>(combine(power_terms(cols, l.eta.val(), 0), i)));
    assert(l.masked@[0]@.len() == n);
    assert(l.masked@[1]@.len() == n);
    assert(l.masked@[2]@.len() == n);
}

proof fn lemma_lookup_start<F: PrimeField, G: Copy>(run: Run<F, G>, l: LookupRun<F, G>)
    requires
        run.completes(),
        run.lookup == Some(l),
    ensures
        l.start.wf(),
        l.start.eta == l.eta,
        l.start.session.job == run.started.job,
        run.started.job.n == run.assembly.n,
        run.started.job.domain.size == run.size(),
        run.assembly.lookup is Some,
        l.start.lookup.wf(run.assembly.n as int),
        match l.start.lookup {
            LookupSource::Columns(c) => run.assembly.produce_setup && c == run.assembly.lookup->0,
            LookupSource::FromSetup(s) => {
                &&& !run.assembly.produce_setup
                &&& run.setup.lookup_selector_monomial matches Some(p) && s.selector@ == p@
                &&& run.setup.lookup_table_type_monomial matches Some(p) && s.table_type@ == p@
                &&& crate::circuit::same_polys(s.tables@, run.setup.lookup_tables_monomials@)
                &&& s.s_poly_ends == run.assembly.lookup->0.s_poly_ends
            },
        },
{
    reveal(Run::completes);
}

proof fn lemma_lookup_combined<F: PrimeField, G: Copy>(run: Run<F, G>, l: LookupRun<F, G>)
    requires
        run.completes(),
        run.lookup == Some(l),
    ensures
        l.combined.wf(),
        l.combined.session == l.start.session,
        vals(l.combined.f@) == l.start.queried(l.table_type@, l.masked@),
        vals(l.combined.s_ifft@) == l.start.sorted(),
        call_ensures(
            LookupStart::<F, G>::resume,
            (l.start, l.table_type, l.selector, l.masked),
            l.combined,
        ),
{
    reveal(Run::completes);
}

/// The column that is sorted on the domain: the sorted rows of the circuit,
/// combined, up to the row before the last, zeros before them and zero in the last
/// row.
pub proof fn law_sorted_of_run<F: PrimeField, G: Copy>(
    run: Run<F, G>,
    l: LookupRun<F, G>,
    i: int,
)
    requires
        run.completes(),
        run.lookup == Some(l),
        0 <= i <= run.assembly.n,
    ensures
        ({
            let ends = run.assembly.lookup->0.s_poly_ends@;
            let before = run.assembly.n - ends[0]@.len();
            l.combined.s_ifft@[i].val() == if before <= i < run.assembly.n {
                red::<F>(entry(ends, l.eta.val(), i - before))
            } else {
                0
            }
        }),
{
    lemma_lookup_start(run, l);
    lemma_lookup_combined(run, l);
    let ends = run.assembly.lookup->0.s_poly_ends@;
    let before = run.assembly.n - ends[0]@.len();
    if before <= i < run.assembly.n {
        lemma_entry(ends, l.eta.val(), i - before);
    }
    assert(vals(l.combined.s_ifft@)[i] == l.start.sorted()[i]);
}

/// The tables of the lookup argument. If the circuit kept its setup they are a
/// column on the domain: the rows of all tables, combined, up to the row before the
/// last, zeros before them and zero in the last row. Else they are the polynomials
/// of the setup, combined.
pub proof fn law_tables_of_run<F: PrimeField, G: Copy>(
    run: Run<F, G>,
    l: LookupRun<F, G>,
    i: int,
)
    requires
        run.completes(),
        run.lookup == Some(l),
        0 <= i <= run.assembly.n,
    ensures
        match l.combined.tables {
            Tables::Values(t) => {
                let ends = run.assembly.lookup->0.t_poly_ends@;
                let before = run.assembly.n - ends[0]@.len();
                &&& run.assembly.produce_setup
                &&& t@.len() == run.size()
                &&& t@[i].val() == if before <= i < run.assembly.n {
                    red::<F>(entry(ends, l.eta.val(), i - before))
                } else {
                    0
                }
            },
            Tables::Polynomial(t) => {
                &&& !run.assembly.produce_setup
                &&& t@.len() == run.size()
                &&& t@[i].val() == red::<F>(
                    entry(run.setup.lookup_tables_monomials@, l.eta.val(), i),
                )
            },
        },
{
    lemma_lookup_start(run, l);
    lemma_lookup_combined(run, l);
    match l.start.lookup {
        LookupSource::Columns(c) => {
            let ends = c.t_poly_ends@;
            let before = run.assembly.n - ends[0]@.len();
            if before <= i < run.assembly.n {
                lemma_entry(ends, l.eta.val(), i - before);
            }
            let t = l.combined.tables->Values_0;
            assert(vals(t@)[i] == t@[i].val());
        },
        LookupSource::FromSetup(s) => {
            let t = l.combined.tables->Polynomial_0;
            let polys = run.setup.lookup_tables_monomials@;
            lemma_entry(s.tables@, l.eta.val(), i);
            assert(s.tables@[0]@ == polys[0]@);
            assert(s.tables@[1]@ == polys[1]@);
            assert(s.tables@[2]@ == polys[2]@);
            assert(s.tables@[3]@ == polys[3]@);
            assert(vals(t@)[i] == t@[i].val());
        },
    }
}

/// The polynomials of the lookup argument. The sorted column and the grand product
/// are what was answered for them, enumerated by reversed indices, and so are the
/// tables if the circuit kept its setup; the table type and the selector are then
/// what was answered. Else the tables are the combined polynomials, and the table
/// type and the selector those of the setup.
pub proof fn law_lookup_polynomials_of_run<F: PrimeField, G: Copy>(
    run: Run<F, G>,
    l: LookupRun<F, G>,
    i: int,
)
    requires
        run.completes(),
        run.lookup == Some(l),
        0 <= i <= run.assembly.n,
        l.sorted@.len() == run.size(),
        l.tables@.len() == run.size(),
        l.coefficients@.len() == run.size(),
    ensures
        ({
            let p = l.polynomial.lookup;
            let bits = run.started.job.domain.power_of_two as nat;
            let at = reversed(i as nat, bits) as int;
            &&& p.s@[i] == l.sorted@[at]
            &&& p.z@[i] == l.coefficients@[at]
            &&& if run.assembly.produce_setup {
                &&& p.t@[i] == l.tables@[at]
                &&& p.table_type@ == l.table_type@
                &&& p.selector@ == l.selector@
            } else {
                &&& l.combined.tables matches Tables::Polynomial(t) && p.t@ == t@
                &&& p.table_type@ == run.setup.lookup_table_type_monomial->0@
                &&& p.selector@ == run.setup.lookup_selector_monomial->0@
            }
        }),
{
    lemma_lookup_start(run, l);
    lemma_lookup_combined(run, l);
    lemma_lookup_prepared(run, l);
}

proof fn lemma_lookup_prepared<F: PrimeField, G: Copy>(run: Run<F, G>, l: LookupRun<F, G>)
    requires
        run.completes(),
        run.lookup == Some(l),
    ensures
        ({
            let n = run.assembly.n as int;
            let bits = run.started.job.domain.power_of_two as nat;
            let c = l.combined;
            let d = l.prepared.lookup;
            let p = l.polynomial.lookup;
            &&& l.product.lookup == d
            &&& d.wf(n)
            &&& d.values.f == c.f
            &&& d.values.s@ == c.s_ifft@.subrange(0, n)
            &&& d.values.s_shifted@ == c.s_ifft@.subrange(1, n + 1)
            &&& d.selector == c.selector
            &&& d.table_type == c.table_type
            &&& crate::prover::is_bitreversed(d.s@, l.sorted@, bits)
            &&& match c.tables {
                Tables::Values(t) => {
                    &&& d.values.t@ == t@.subrange(0, n)
                    &&& d.values.t_shifted@ == t@.subrange(1, n + 1)
                    &&& crate::prover::is_bitreversed(d.t@, l.tables@, bits)
                },
                Tables::Polynomial(t) => {
                    &&& d.values.t@ == l.tables@.subrange(0, n)
                    &&& d.values.t_shifted@ == l.tables@.subrange(1, n + 1)
                    &&& d.t == t
                },
            }
            &&& p.t == d.t
            &&& p.s == d.s
            &&& p.selector == d.selector
            &&& p.table_type == d.table_type
            &&& crate::prover::is_bitreversed(p.z@, l.coefficients@, bits)
        }),
{
    reveal(Run::completes);
}

/// The lookup grand product that is asked for starts from one, and each entry
/// follows from the one before: times `s + beta * s(next) + gamma * (beta + 1)` it
/// is the one before times `(f + gamma) * (beta + 1)` and `t + beta * t(next) + gamma
/// * (beta + 1)`.
pub proof fn law_lookup_product_of_run<F: PrimeField, G: Copy>(
    run: Run<F, G>,
    l: LookupRun<F, G>,
    i: int,
)
    requires
        run.completes(),
        run.lookup == Some(l),
        l.tables@.len() == run.size(),
        0 <= i < run.assembly.n,
    ensures
        ({
            let z = l.product.ifft@;
            let f = l.combined.f@[i].val();
            let s = l.combined.s_ifft@;
            let t = match l.combined.tables {
                Tables::Values(t) => t@,
                Tables::Polynomial(_) => l.tables@,
            };
            let (beta, gamma) = (l.beta.val(), l.gamma.val());
            &&& z.len() == run.size()
            &&& z[0].val() == 1
            &&& red::<F>(
                z[i + 1].val() * (s[i].val() + beta * s[i + 1].val() + gamma * (beta + 1)),
            ) == red::<F>(
                z[i].val() * ((t[i].val() + beta * t[i + 1].val() + gamma * (beta + 1)) * ((f
                    + gamma) * (beta + 1))),
            )
        }),
{
    lemma_lookup_start(run, l);
    lemma_lookup_combined(run, l);
    lemma_lookup_prepared(run, l);
    lemma_lookup_made(run, l);
    let d = l.product.lookup;
    let (beta, gamma) = (l.beta.val(), l.gamma.val());
    let z = vals(l.product.ifft@);
    let nums = crate::lookup_rounds::numerators_of(d, l.beta, l.gamma);
    let dens = crate::lookup_rounds::denominators_of(d, l.beta, l.gamma);
    let t = match l.combined.tables {
        Tables::Values(t) => t@,
        Tables::Polynomial(_) => l.tables@,
    };
    assert(t.len() == run.size());
    let s = l.combined.s_ifft@;
    assert(d.values.s@[i] == s[i]);
    assert(d.values.s_shifted@[i] == s[i + 1]);
    assert(d.values.t@[i] == t[i]);
    assert(d.values.t_shifted@[i] == t[i + 1]);
    assert(dens[i] == s[i].val() + beta * s[i + 1].val() + gamma * (beta + 1));
    assert(nums[i] == (t[i].val() + beta * t[i + 1].val() + gamma * (beta + 1)) * ((
    l.combined.f@[i].val() + gamma) * (beta + 1)));
    assert(red::<F>(z[i + 1] * dens[i]) == red::<F>(z[i] * nums[i]));
}

proof fn lemma_lookup_made<F: PrimeField, G: Copy>(run: Run<F, G>, l: LookupRun<F, G>)
    requires
        run.completes(),
        run.lookup == Some(l),
    ensures
        l.product.wf(),
        l.product.session.job == run.started.job,
        l.product.session.drawn.lookup == Some((l.beta, l.gamma)),
        crate::permutation::is_grand_product::<F>(
            vals(l.product.ifft@),
            crate::lookup_rounds::numerators_of(l.product.lookup, l.beta, l.gamma),
            crate::lookup_rounds::denominators_of(l.product.lookup, l.beta, l.gamma),
        ),
{
    reveal(Run::completes);
}

/// The test of a lookup grand product says whether it ends with
/// `(gamma * (beta + 1))^n`.
pub proof fn law_completeness_of_run<F: PrimeField, G: Copy>(
    run: Run<F, G>,
    l: LookupRun<F, G>,
    complete: bool,
)
    requires
        run.completes(),
        run.lookup == Some(l),
        call_ensures(
            crate::lookup_rounds::LookupProduct::<F, G>::is_complete,
            (&l.product,),
            complete,
        ),
    ensures
        complete <==> l.product.ifft@[run.assembly.n as int].val() == red::<F>(
            pow(l.gamma.val() * (l.beta.val() + 1), run.assembly.n as nat),
        ),
{
    lemma_lookup_start(run, l);
    lemma_lookup_made(run, l);
}

/// The table type and the selector that have to be transformed: the columns of the
/// circuit with zeros after them if it kept its setup, else the polynomials of the
/// setup.
pub proof fn law_lookup_transforms_of_run<F: PrimeField, G: Copy>(
    run: Run<F, G>,
    l: LookupRun<F, G>,
    transforms: LookupTransforms<F>,
    i: int,
)
    requires
        run.completes(),
        run.lookup == Some(l),
        call_ensures(LookupStart::<F, G>::transforms, (&l.start,), transforms),
        0 <= i <= run.assembly.n,
    ensures
        match transforms {
            LookupTransforms::Inverse(table_type, selector) => {
                let c = run.assembly.lookup->0;
                let (types, selects) = (c.table_type_values@, c.selector_values@);
                &&& run.assembly.produce_setup
                &&& table_type@.len() == run.size()
                &&& selector@.len() == run.size()
                &&& table_type@[i].val() == if i < types.len() {
                    types[i].val()
                } else {
                    0
                }
                &&& selector@[i].val() == if i < selects.len() {
                    selects[i].val()
                } else {
                    0
                }
            },
            LookupTransforms::Forward(table_type, selector) => {
                &&& !run.assembly.produce_setup
                &&& table_type@ == run.setup.lookup_table_type_monomial->0@
                &&& selector@ == run.setup.lookup_selector_monomial->0@
            },
        },
{
    lemma_lookup_start(run, l);
    match transforms {
        LookupTransforms::Inverse(table_type, selector) => {
            assert(vals(table_type@).len() == run.size());
            assert(vals(selector@).len() == run.size());
            assert(vals(table_type@)[i] == table_type@[i].val());
            assert(vals(selector@)[i] == selector@[i].val());
        },
        LookupTransforms::Forward(_, _) => {},
    }
}

/// What has to be transformed for the tables is the combined column or the combined
/// polynomial, and the first component tells them apart.
pub proof fn law_table_transform_of_run<F: PrimeField, G: Copy>(
    run: Run<F, G>,
    l: LookupRun<F, G>,
    transform: (bool, &Vec<F>),
)
    requires
        run.completes(),
        run.lookup == Some(l),
        call_ensures(
            crate::lookup_rounds::LookupCombined::<F, G>::table_transform,
            (&l.combined,),
            transform,
        ),
    ensures
        transform.0 == run.assembly.produce_setup,
        match l.combined.tables {
            Tables::Values(t) => transform.1@ == t@,
            Tables::Polynomial(t) => transform.1@ == t@,
        },
{
    lemma_lookup_start(run, l);
    lemma_lookup_combined(run, l);
}

} // verus!
