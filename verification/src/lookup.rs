//! The columns of the lookup argument and its grand product.

use crate::errors::SynthesisError;
use crate::field::{all_invertible, red, vals, Num, PrimeField};
use crate::permutation::{grand_product_of_ratios, is_grand_product};
use crate::polynomial::zeros;
use vstd::arithmetic::power::*;
use vstd::prelude::*;

verus! {

/// The column over a domain of size `n` whose entries `v` end just before the
/// last row: zeros stand before them, and one zero after them.
pub open spec fn column_on_domain(v: Seq<int>, n: nat) -> Seq<int> {
    Seq::new(
        n,
        |i: int|
            if n - 1 - v.len() <= i < n - 1 {
                v[i - (n - 1 - v.len())]
            } else {
                0
            },
    )
}

/// The column over a domain of size `n` whose entries end just before the last
/// row.
pub fn place_on_domain<F: PrimeField>(v: &Vec<F>, n: usize) -> (r: Vec<F>)
    requires
        v@.len() < n,
    ensures
        vals(r@) == column_on_domain(vals(v@), n as nat),
        r@.len() == n,
{
    let start: usize = n - 1 - v.len();
    let mut r: Vec<F> = zeros(n);
    let mut i: usize = 0;
    while i < v.len()
        invariant
            i <= v@.len(),
            start + v@.len() < n,
            r@.len() == n,
            forall|k: int| start <= k < start + i ==> #[trigger] r@[k] == v@[k - start],
            forall|k: int|
                0 <= k < n && !(start <= k < start + i) ==> (#[trigger] r@[k]).val() == 0,
        decreases v@.len() - i,
    {
        r.set(start + i, v[i]);
        i += 1;
    }
    proof {
        assert(vals(r@) =~= column_on_domain(vals(v@), n as nat));
    }
    r
}

/// `gamma * (beta + 1)`.
pub open spec fn gamma_beta(beta: int, gamma: int) -> int {
    gamma * (beta + 1)
}

/// What a row multiplies the lookup grand product by.
pub open spec fn lookup_numerator(
    f: int,
    t: int,
    t_next: int,
    beta: int,
    gamma: int,
) -> int {
    (t + beta * t_next + gamma_beta(beta, gamma)) * ((f + gamma) * (beta + 1))
}

/// What a row divides the lookup grand product by.
pub open spec fn lookup_denominator(s: int, s_next: int, beta: int, gamma: int) -> int {
    s + beta * s_next + gamma_beta(beta, gamma)
}

/// What the rows multiply the lookup grand product by.
pub open spec fn lookup_numerators(
    f: Seq<int>,
    t: Seq<int>,
    t_next: Seq<int>,
    beta: int,
    gamma: int,
) -> Seq<int> {
    Seq::new(f.len(), |i: int| lookup_numerator(f[i], t[i], t_next[i], beta, gamma))
}

/// What the rows divide the lookup grand product by.
pub open spec fn lookup_denominators(
    s: Seq<int>,
    s_next: Seq<int>,
    beta: int,
    gamma: int,
) -> Seq<int> {
    Seq::new(s.len(), |i: int| lookup_denominator(s[i], s_next[i], beta, gamma))
}

/// The values of the lookup grand product on the domain. It fails exactly if a
/// denominator has no inverse.
pub fn lookup_grand_product<F: PrimeField>(
    f: &Vec<F>,
    t: &Vec<F>,
    t_shifted: &Vec<F>,
    s: &Vec<F>,
    s_shifted: &Vec<F>,
    beta: &F,
    gamma: &F,
) -> (r: Result<Vec<F>, SynthesisError>)
    requires
        f@.len() < usize::MAX,
        t@.len() == f@.len(),
        t_shifted@.len() == f@.len(),
        s@.len() == f@.len(),
        s_shifted@.len() == f@.len(),
    ensures
        ({
            let nums = lookup_numerators(
                vals(f@),
                vals(t@),
                vals(t_shifted@),
                beta.val(),
                gamma.val(),
            );
            let dens = lookup_denominators(vals(s@), vals(s_shifted@), beta.val(), gamma.val());
            match r {
                Ok(z) => {
                    &&& all_invertible::<F>(dens)
                    &&& is_grand_product::<F>(vals(z@), nums, dens)
                },
                Err(e) => {
                    &&& e == SynthesisError::DivisionByZero
                    &&& !all_invertible::<F>(dens)
                },
            }
        }),
{
    let ghost nums = lookup_numerators(
        vals(f@),
        vals(t@),
        vals(t_shifted@),
        beta.val(),
        gamma.val(),
    );
    let ghost dens = lookup_denominators(vals(s@), vals(s_shifted@), beta.val(), gamma.val());
    let n = f.len();
    let b = Num::of(beta);
    let g = Num::of(gamma);
    let beta_plus_one = b.plus(&Num::one());
    let gb = g.times(&beta_plus_one);
    let mut numerators: Vec<F> = Vec::with_capacity(n);
    let mut denominators: Vec<F> = Vec::with_capacity(n);
    let mut i: usize = 0;
    while i < n
        invariant
            i <= n,
            n == f@.len(),
            n == t@.len(),
            n == t_shifted@.len(),
            n == s@.len(),
            n == s_shifted@.len(),
            b.expr() == beta.val(),
            g.expr() == gamma.val(),
            beta_plus_one.expr() == beta.val() + 1,
            gb.expr() == gamma_beta(beta.val(), gamma.val()),
            numerators@.len() == i,
            denominators@.len() == i,
            nums == lookup_numerators(
                vals(f@),
                vals(t@),
                vals(t_shifted@),
                beta.val(),
                gamma.val(),
            ),
            dens == lookup_denominators(vals(s@), vals(s_shifted@), beta.val(), gamma.val()),
            forall|j: int|
                0 <= j < i ==> (#[trigger] numerators@[j]).val() == red::<F>(nums[j]),
            forall|j: int|
                0 <= j < i ==> (#[trigger] denominators@[j]).val() == red::<F>(dens[j]),
        decreases n - i,
    {
        let from_tables = Num::of(&t[i]).plus(&b.times(&Num::of(&t_shifted[i]))).plus(&gb);
        let from_rows = Num::of(&f[i]).plus(&g).times(&beta_plus_one);
        let sorted = Num::of(&s[i]).plus(&b.times(&Num::of(&s_shifted[i]))).plus(&gb);
        numerators.push(from_tables.times(&from_rows).value());
        denominators.push(sorted.value());
        i += 1;
    }
    grand_product_of_ratios(&numerators, &denominators, Ghost(nums), Ghost(dens))
}

/// The value that the lookup grand product must end with, `n` rows on.
pub fn expected_last_value<F: PrimeField>(beta: &F, gamma: &F, n: u64) -> (r: F)
    ensures
        r.val() == red::<F>(pow(gamma_beta(beta.val(), gamma.val()), n as nat)),
{
    Num::of(gamma).times(&Num::of(beta).plus(&Num::one())).power(n).value()
}

} // verus!
