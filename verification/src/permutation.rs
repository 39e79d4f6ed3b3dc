//! Grand products, and the copy-permutation argument.

use crate::domain::{materialize_domain_elements_with_natural_enumeration, Domain};
use crate::errors::SynthesisError;
use crate::field::{
    all_invertible, inv, invertible, lemma_invertible_congruent, lemma_red_mul, lemma_red_range,
    lemma_red_small, lemma_val_red, red, vals, Num, PrimeField,
};
use crate::polynomial::{
    all_len, batch_inversion, calculate_shifted_grand_product, columns, product,
};
use vstd::arithmetic::power::*;
use vstd::prelude::*;

verus! {

/// The entries of a list of columns in one row.
pub open spec fn row_of(cols: Seq<Seq<int>>, i: int) -> Seq<int> {
    Seq::new(cols.len(), |j: int| cols[j][i])
}

/// The point `x` in each of the cosets that tell the columns apart.
pub open spec fn coset_row<F: PrimeField>(x: int, shifts: Seq<int>) -> Seq<int> {
    Seq::new(shifts.len(), |j: int| red::<F>(x * shifts[j]))
}

/// The product over all columns of `wire + gamma + beta * point`.
pub open spec fn perm_product(wires: Seq<int>, points: Seq<int>, beta: int, gamma: int) -> int
    decreases wires.len(),
{
    if wires.len() == 0 {
        1
    } else {
        perm_product(wires.drop_last(), points.drop_last(), beta, gamma) * (wires.last() + gamma
            + beta * points.last())
    }
}

/// The entries `z` start from one, and each follows from the one before by the
/// ratio of a numerator to an invertible denominator.
pub open spec fn is_grand_product<F: PrimeField>(
    z: Seq<int>,
    numerators: Seq<int>,
    denominators: Seq<int>,
) -> bool {
    &&& z.len() == numerators.len() + 1
    &&& z.len() == denominators.len() + 1
    &&& z[0] == 1
    &&& forall|i: int|
        0 <= i < numerators.len() ==> {
            &&& red::<F>(#[trigger] z[i + 1] * denominators[i]) == red::<F>(z[i] * numerators[i])
            &&& invertible::<F>(denominators[i])
        }
}

/// Congruent numbers are invertible together.
pub proof fn lemma_all_invertible_congruent<F: PrimeField>(a: Seq<int>, b: Seq<int>)
    requires
        a.len() == b.len(),
        forall|i: int| 0 <= i < a.len() ==> red::<F>(#[trigger] a[i]) == red::<F>(b[i]),
    ensures
        all_invertible::<F>(a) ==> all_invertible::<F>(b),
{
    if all_invertible::<F>(a) {
        assert forall|i: int| 0 <= i < b.len() implies #[trigger] invertible::<F>(b[i]) by {
            assert(invertible::<F>(a[i]));
            lemma_invertible_congruent::<F>(a[i], b[i]);
        }
    }
}

/// The running product of the ratios of numerators to denominators, starting
/// from one. It fails exactly if a denominator has no inverse.
pub(crate) fn grand_product_of_ratios<F: PrimeField>(
    numerators: &Vec<F>,
    denominators: &Vec<F>,
    Ghost(nums): Ghost<Seq<int>>,
    Ghost(dens): Ghost<Seq<int>>,
) -> (r: Result<Vec<F>, SynthesisError>)
    requires
        numerators@.len() == denominators@.len(),
        numerators@.len() < usize::MAX,
        nums.len() == numerators@.len(),
        dens.len() == numerators@.len(),
        forall|i: int|
            0 <= i < nums.len() ==> (#[trigger] numerators@[i]).val() == red::<F>(nums[i]),
        forall|i: int|
            0 <= i < dens.len() ==> (#[trigger] denominators@[i]).val() == red::<F>(dens[i]),
    ensures
        match r {
            Ok(z) => {
                &&& all_invertible::<F>(dens)
                &&& is_grand_product::<F>(vals(z@), nums, dens)
            },
            Err(e) => {
                &&& e == SynthesisError::DivisionByZero
                &&& !all_invertible::<F>(dens)
            },
        },
{
    let n = numerators.len();
    proof {
        assert forall|i: int| 0 <= i < n implies red::<F>(#[trigger] vals(denominators@)[i])
            == red::<F>(dens[i]) by {
            lemma_val_red(denominators@[i]);
        }
    }
    let inverses = match batch_inversion(denominators) {
        Ok(w) => w,
        Err(e) => {
            proof {
                lemma_all_invertible_congruent::<F>(dens, vals(denominators@));
            }
            return Err(e);
        },
    };
    let mut ratios: Vec<F> = Vec::with_capacity(n);
    let mut i: usize = 0;
    while i < n
        invariant
            i <= n,
            n == numerators@.len(),
            n == inverses@.len(),
            ratios@.len() == i,
            forall|k: int|
                0 <= k < i ==> (#[trigger] ratios@[k]).val() == red::<F>(
                    numerators@[k].val() * inverses@[k].val(),
                ),
        decreases n - i,
    {
        ratios.push(Num::of(&numerators[i]).times(&Num::of(&inverses[i])).value());
        i += 1;
    }
    let z = calculate_shifted_grand_product(&ratios);
    proof {
        lemma_all_invertible_congruent::<F>(vals(denominators@), dens);
        let s = vals(ratios@);
        let zs = vals(z@);
        assert(s.take(0) =~= Seq::<int>::empty());
        lemma_red_small::<F>();
        assert(zs[0] == 1);
        assert forall|i: int| 0 <= i < n implies {
            &&& red::<F>(#[trigger] zs[i + 1] * dens[i]) == red::<F>(zs[i] * nums[i])
            &&& invertible::<F>(dens[i])
        } by {
            let p = product(s.take(i));
            let (a, d, v) = (nums[i], dens[i], inverses@[i].val());
            assert(s.take(i + 1).drop_last() =~= s.take(i));
            assert(product(s.take(i + 1)) == p * s[i]);
            assert(z@[i + 1].val() == red::<F>(p * s[i]));
            assert(z@[i].val() == red::<F>(p));
            assert(denominators@[i].val() == red::<F>(d));
            assert(numerators@[i].val() == red::<F>(a));
            assert(ratios@[i].val() == red::<F>(numerators@[i].val() * v));
            lemma_red_range::<F>(p);
            lemma_red_range::<F>(p * s[i]);
            lemma_red_range::<F>(a);
            lemma_red_range::<F>(d);
            lemma_red_range::<F>(red::<F>(a) * v);
            // d * v is one
            assert(red::<F>(denominators@[i].val() * v) == 1) by {
                assert(inverses@[i].val() == inv::<F>(denominators@[i].val()));
            }
            lemma_red_mul::<F>(red::<F>(d), v, d, v);
            // the ratio
            lemma_red_mul::<F>(red::<F>(a), v, a, v);
            lemma_red_mul::<F>(p, s[i], p, a * v);
            lemma_red_mul::<F>(zs[i + 1], d, p * (a * v), d);
            assert((p * (a * v)) * d == (p * a) * (d * v)) by (nonlinear_arith);
            lemma_red_mul::<F>(p * a, d * v, p * a, 1);
            lemma_red_mul::<F>(zs[i], a, p, a);
        }
        assert(zs.len() == n + 1);
        assert(is_grand_product::<F>(zs, nums, dens));
    }
    Ok(z)
}

/// One row of a list of columns.
pub(crate) fn row<F: PrimeField>(polys: &Vec<Vec<F>>, i: usize) -> (r: Vec<F>)
    requires
        forall|j: int| 0 <= j < polys@.len() ==> i < (#[trigger] polys@[j])@.len(),
    ensures
        vals(r@) == row_of(columns(polys@), i as int),
        r@.len() == polys@.len(),
{
    let mut r: Vec<F> = Vec::with_capacity(polys.len());
    let mut j: usize = 0;
    while j < polys.len()
        invariant
            j <= polys@.len(),
            r@.len() == j,
            forall|k: int| 0 <= k < polys@.len() ==> i < (#[trigger] polys@[k])@.len(),
            forall|k: int| 0 <= k < j ==> #[trigger] r@[k] == polys@[k]@[i as int],
        decreases polys@.len() - j,
    {
        r.push(polys[j][i]);
        j += 1;
    }
    proof {
        assert(vals(r@) =~= row_of(columns(polys@), i as int));
    }
    r
}

/// A point in each of the cosets that tell the columns apart.
pub(crate) fn coset_points<F: PrimeField>(x: &F, shifts: &Vec<F>) -> (r: Vec<F>)
    ensures
        vals(r@) == coset_row::<F>(x.val(), vals(shifts@)),
        r@.len() == shifts@.len(),
{
    let mut r: Vec<F> = Vec::with_capacity(shifts.len());
    let point = Num::of(x);
    let mut j: usize = 0;
    while j < shifts.len()
        invariant
            j <= shifts@.len(),
            r@.len() == j,
            point.expr() == x.val(),
            forall|k: int|
                0 <= k < j ==> (#[trigger] r@[k]).val() == red::<F>(x.val() * shifts@[k].val()),
        decreases shifts@.len() - j,
    {
        r.push(point.times(&Num::of(&shifts[j])).value());
        j += 1;
    }
    proof {
        assert(vals(r@) =~= coset_row::<F>(x.val(), vals(shifts@)));
    }
    r
}

/// The product over the first `count` columns of `wire + gamma + beta * point`.
pub(crate) fn permutation_factor<F: PrimeField>(
    wires: &Vec<F>,
    points: &Vec<F>,
    count: usize,
    beta: &Num<F>,
    gamma: &Num<F>,
) -> (r: Num<F>)
    requires
        count <= wires@.len(),
        count <= points@.len(),
    ensures
        r.expr() == perm_product(
            vals(wires@).take(count as int),
            vals(points@).take(count as int),
            beta.expr(),
            gamma.expr(),
        ),
{
    let mut r = Num::one();
    let ghost (w, p) = (vals(wires@), vals(points@));
    let mut j: usize = 0;
    while j < count
        invariant
            j <= count,
            count <= wires@.len(),
            count <= points@.len(),
            w == vals(wires@),
            p == vals(points@),
            r.expr() == perm_product(
                w.take(j as int),
                p.take(j as int),
                beta.expr(),
                gamma.expr(),
            ),
        decreases count - j,
    {
        let t = Num::of(&wires[j]).plus(gamma).plus(&beta.times(&Num::of(&points[j])));
        proof {
            assert(w.take(j + 1).drop_last() =~= w.take(j as int));
            assert(p.take(j + 1).drop_last() =~= p.take(j as int));
        }
        r = r.times(&t);
        j += 1;
    }
    r
}

/// The shifts of all columns: one, and a non-residue for each further column.
pub open spec fn column_shifts<F: PrimeField>(non_residues: Seq<F>) -> Seq<int> {
    seq![1int] + vals(non_residues)
}

/// The shifts of all columns.
pub(crate) fn shifts<F: PrimeField>(non_residues: &Vec<F>) -> (r: Vec<F>)
    ensures
        vals(r@) == column_shifts(non_residues@),
        r@.len() == non_residues@.len() + 1,
{
    let mut r: Vec<F> = Vec::new();
    r.push(F::one());
    let mut i: usize = 0;
    while i < non_residues.len()
        invariant
            i <= non_residues@.len(),
            r@.len() == i + 1,
            r@[0].val() == 1,
            forall|k: int| 0 < k <= i ==> #[trigger] r@[k] == non_residues@[k - 1],
        decreases non_residues@.len() - i,
    {
        r.push(non_residues[i]);
        i += 1;
    }
    proof {
        assert(vals(r@) =~= column_shifts(non_residues@));
    }
    r
}

/// What each row multiplies the copy-permutation grand product by.
pub open spec fn copy_numerators<F: PrimeField>(
    wires: Seq<Seq<int>>,
    shifts: Seq<int>,
    omega: int,
    n: nat,
    beta: int,
    gamma: int,
) -> Seq<int> {
    Seq::new(
        n,
        |i: int|
            perm_product(
                row_of(wires, i),
                coset_row::<F>(red::<F>(pow(omega, i as nat)), shifts),
                beta,
                gamma,
            ),
    )
}

/// What each row divides the copy-permutation grand product by.
pub open spec fn copy_denominators(
    wires: Seq<Seq<int>>,
    permutations: Seq<Seq<int>>,
    n: nat,
    beta: int,
    gamma: int,
) -> Seq<int> {
    Seq::new(n, |i: int| perm_product(row_of(wires, i), row_of(permutations, i), beta, gamma))
}

/// The values of the copy-permutation grand product on the domain.
pub fn copy_permutation_grand_product<F: PrimeField>(
    wires: &Vec<Vec<F>>,
    permutations: &Vec<Vec<F>>,
    non_residues: &Vec<F>,
    domain: &Domain<F>,
    beta: &F,
    gamma: &F,
) -> (r: Result<Vec<F>, SynthesisError>)
    requires
        domain.wf(),
        0 < domain.size < usize::MAX,
        all_len(wires@, domain.size - 1),
        all_len(permutations@, domain.size as int),
        wires@.len() == permutations@.len(),
        wires@.len() == non_residues@.len() + 1,
    ensures
        ({
            let n = (domain.size - 1) as nat;
            let nums = copy_numerators::<F>(
                columns(wires@),
                column_shifts(non_residues@),
                domain.generator.val(),
                n,
                beta.val(),
                gamma.val(),
            );
            let dens = copy_denominators(
                columns(wires@),
                columns(permutations@),
                n,
                beta.val(),
                gamma.val(),
            );
            match r {
                Ok(z) => {
                    &&& all_invertible::<F>(dens)
                    &&& is_grand_product::<F>(vals(z@), nums, dens)
                },
                Err(e) => {
                    &&& e == SynthesisError::DivisionByZero
                    &&& !all_invertible::<F>(dens)
                },
            }
        }),
{
    let n = domain.size as usize - 1;
    let ghost nums = copy_numerators::<F>(
        columns(wires@),
        column_shifts(non_residues@),
        domain.generator.val(),
        n as nat,
        beta.val(),
        gamma.val(),
    );
    let ghost dens = copy_denominators(
        columns(wires@),
        columns(permutations@),
        n as nat,
        beta.val(),
        gamma.val(),
    );
    let width = wires.len();
    let elements = materialize_domain_elements_with_natural_enumeration(domain);
    let k = shifts(non_residues);
    let b = Num::of(beta);
    let g = Num::of(gamma);
    let mut numerators: Vec<F> = Vec::with_capacity(n);
    let mut denominators: Vec<F> = Vec::with_capacity(n);
    let mut i: usize = 0;
    while i < n
        invariant
            i <= n,
            n == domain.size - 1,
            width == wires@.len(),
            width == permutations@.len(),
            width == k@.len(),
            vals(k@) == column_shifts(non_residues@),
            all_len(wires@, n as int),
            all_len(permutations@, n + 1),
            elements@.len() == n + 1,
            b.expr() == beta.val(),
            g.expr() == gamma.val(),
            numerators@.len() == i,
            denominators@.len() == i,
            nums == copy_numerators::<F>(
                columns(wires@),
                column_shifts(non_residues@),
                domain.generator.val(),
                n as nat,
                beta.val(),
                gamma.val(),
            ),
            dens == copy_denominators(
                columns(wires@),
                columns(permutations@),
                n as nat,
                beta.val(),
                gamma.val(),
            ),
            forall|j: int|
                0 <= j < domain.size ==> (#[trigger] elements@[j]).val() == red::<F>(
                    pow(domain.generator.val(), j as nat),
                ),
            forall|j: int|
                0 <= j < i ==> (#[trigger] numerators@[j]).val() == red::<F>(nums[j]),
            forall|j: int|
                0 <= j < i ==> (#[trigger] denominators@[j]).val() == red::<F>(dens[j]),
        decreases n - i,
    {
        let w = row(wires, i);
        let p = row(permutations, i);
        let x = coset_points(&elements[i], &k);
        proof {
            assert(vals(w@).take(width as int) =~= vals(w@));
            assert(vals(p@).take(width as int) =~= vals(p@));
            assert(vals(x@).take(width as int) =~= vals(x@));
        }
        numerators.push(permutation_factor(&w, &x, width, &b, &g).value());
        denominators.push(permutation_factor(&w, &p, width, &b, &g).value());
        i += 1;
    }
    grand_product_of_ratios(&numerators, &denominators, Ghost(nums), Ghost(dens))
}

} // verus!
