//! A violated copy constraint, or a lookup outside the tables, leaves its grand
//! product open for all but few challenges.

use crate::completeness::{lemma_padded, rows, rows_satisfied};
use crate::domain::Domain;
use crate::field::{
    inv, invertible, is_field, lemma_cancel, lemma_invertible, lemma_red_add, lemma_red_mul,
    lemma_red_range, lemma_red_small, lemma_red_sub, red, vals, PrimeField,
};
use crate::gates::{terms_before, Gate};
use crate::honest::{
    last_row_kept, law_trace_rows, lemma_last_row_kept, products_made, trace_row, transformed,
    Trace,
};
use crate::laws::{law_grand_product_ends, lemma_eval_concat, lemma_numerator_congruent};
use crate::linearization::ProverPolynomials;
use crate::lookup::{gamma_beta, lookup_denominators, lookup_numerators};
use crate::lookup_rounds::{denominators_of, numerators_of, LookupProduct};
use crate::permutation::{
    copy_denominators, copy_numerators, coset_row, is_grand_product, perm_product,
};
use crate::polynomial::{
    eval, lemma_eval_add_scaled, lemma_eval_congruent, lemma_eval_zero, padded_seq, product,
};
use crate::quotient::{numerator, supported, Weights};
use crate::refusal::{
    apart, argument_constraints, constraints, gate_constraints, law_failing_constraint,
    law_few_zeros,
};
use crate::witness_laws::{
    cell_product, lemma_cells_concat, lemma_cells_remove, lemma_denominators_product,
    lemma_lookup_numerators_product, lemma_numerators_product, lemma_pairs_product,
    lemma_row_cells, lemma_zero_pairs, paired, permuted_cells, placed_cells, row_cells, zero_pairs,
};
use vstd::arithmetic::power::*;
use vstd::multiset::*;
use vstd::prelude::*;
use vstd::seq_lib::*;
use vstd::set_lib::*;

verus! {

/// The cells, modulo the characteristic.
pub open spec fn residues<F: PrimeField>(cells: Seq<(int, int)>) -> Seq<(int, int)> {
    Seq::new(cells.len(), |i: int| (red::<F>(cells[i].0), red::<F>(cells[i].1)))
}

/// What each cell adds to `gamma`, modulo the characteristic.
spec fn values<F: PrimeField>(cells: Seq<(int, int)>, beta: int) -> Seq<int> {
    Seq::new(cells.len(), |i: int| red::<F>(cells[i].0 + beta * cells[i].1))
}

/// Two lists that are the same without an entry that they share are the same.
proof fn lemma_restored<A>(s: Seq<A>, t: Seq<A>, i: int, j: int)
    requires
        0 <= i < s.len(),
        0 <= j < t.len(),
        s[i] == t[j],
        s.remove(i).to_multiset() == t.remove(j).to_multiset(),
    ensures
        s.to_multiset() == t.to_multiset(),
{
    broadcast use group_multiset_axioms;

    let x = s[i];
    to_multiset_remove(s, i);
    to_multiset_remove(t, j);
    to_multiset_contains(s, x);
    to_multiset_contains(t, x);
    assert(s.contains(x) && t.contains(x));
    let (a, b) = (s.to_multiset(), t.to_multiset());
    assert(a.remove(x).insert(x) =~= a);
    assert(b.remove(x).insert(x) =~= b);
}

/// The points but one are still apart.
proof fn lemma_apart_remove<F: PrimeField>(points: Seq<int>, k: int)
    requires
        apart::<F>(points),
        0 <= k < points.len(),
    ensures
        apart::<F>(points.remove(k)),
{
    let rest = points.remove(k);
    assert forall|i: int, j: int| 0 <= i < j < rest.len() implies invertible::<F>(
        #[trigger] rest[i] - #[trigger] rest[j],
    ) by {
        let i1 = if i < k {
            i
        } else {
            i + 1
        };
        let j1 = if j < k {
            j
        } else {
            j + 1
        };
        assert(invertible::<F>(points[i1] - points[j1]));
    }
}

/// Of points that are apart, at most one is congruent to a given number.
proof fn lemma_apart_differ<F: PrimeField>(points: Seq<int>, i: int, j: int)
    requires
        apart::<F>(points),
        0 <= i < points.len(),
        0 <= j < points.len(),
        i != j,
    ensures
        red::<F>(points[i]) != red::<F>(points[j]),
{
    lemma_red_small::<F>();
    if red::<F>(points[i]) == red::<F>(points[j]) {
        let (a, b) = if i < j {
            (points[i], points[j])
        } else {
            (points[j], points[i])
        };
        assert(invertible::<F>(a - b));
        lemma_red_sub::<F>(a, b, b, b);
        let y = inv::<F>(a - b);
        lemma_red_mul::<F>(a - b, y, 0, y);
        assert(0 * y == 0);
    }
}

/// The product over cells is a polynomial in `gamma`.
proof fn lemma_cell_coefficients(cells: Seq<(int, int)>, beta: int) -> (c: Seq<int>)
    ensures
        c.len() == cells.len() + 1,
        forall|x: int| #[trigger] eval(c, x) == cell_product(cells, beta, x),
    decreases cells.len(),
{
    if cells.len() == 0 {
        let c = seq![1int];
        assert forall|x: int| #[trigger] eval(c, x) == cell_product(cells, beta, x) by {
            assert(c.skip(1) =~= Seq::<int>::empty());
            assert(eval(c.skip(1), x) == 0);
            assert(x * 0 == 0);
        }
        c
    } else {
        let before = lemma_cell_coefficients(cells.drop_last(), beta);
        let v = cells.last().0 + beta * cells.last().1;
        let m = before.len() + 1;
        let wide = padded_seq(before, m);
        let shifted = seq![0int] + before;
        let c = Seq::new(m, |k: int| shifted[k] + v * wide[k]);
        assert forall|x: int| #[trigger] eval(c, x) == cell_product(cells, beta, x) by {
            lemma_eval_add_scaled(shifted, v, wide, c, x);
            lemma_padded(before, m, x);
            lemma_eval_concat(seq![0int], before, x);
            lemma_eval_zero(seq![0int], x);
            lemma_pow1(x);
            let e = eval(before, x);
            assert(e == cell_product(cells.drop_last(), beta, x));
            assert(x * e + v * e == e * (v + x)) by (nonlinear_arith);
        }
        c
    }
}

/// Some factor of a product that is zero is zero.
proof fn lemma_zero_cell<F: PrimeField>(cells: Seq<(int, int)>, beta: int, x: int) -> (j: int)
    requires
        is_field::<F>(),
        red::<F>(cell_product(cells, beta, x)) == 0,
    ensures
        0 <= j < cells.len(),
        red::<F>(cells[j].0 + x + beta * cells[j].1) == 0,
    decreases cells.len(),
{
    lemma_red_small::<F>();
    let k = cells.len() - 1;
    let f = cells[k].0 + x + beta * cells[k].1;
    if red::<F>(f) == 0 {
        k
    } else {
        let p = cell_product(cells.drop_last(), beta, x);
        assert(invertible::<F>(f));
        assert(0 * f == 0);
        lemma_cancel::<F>(p, 0, f);
        lemma_zero_cell::<F>(cells.drop_last(), beta, x)
    }
}

/// Products over cells that agree for more values of `gamma` than there are cells
/// agree for every value.
proof fn lemma_products_agree<F: PrimeField>(
    a: Seq<(int, int)>,
    b: Seq<(int, int)>,
    beta: int,
    gammas: Seq<int>,
    x: int,
)
    requires
        a.len() == b.len(),
        gammas.len() > a.len(),
        apart::<F>(gammas),
        forall|k: int|
            0 <= k < gammas.len() ==> red::<F>(cell_product(a, beta, #[trigger] gammas[k]))
                == red::<F>(cell_product(b, beta, gammas[k])),
    ensures
        red::<F>(cell_product(a, beta, x)) == red::<F>(cell_product(b, beta, x)),
{
    let (c, d) = (lemma_cell_coefficients(a, beta), lemma_cell_coefficients(b, beta));
    let diff = Seq::new(c.len(), |k: int| c[k] + (-1) * d[k]);
    let zero = Seq::new(c.len(), |k: int| 0int);
    lemma_red_small::<F>();
    assert forall|k: int| 0 <= k < gammas.len() implies red::<F>(eval(diff, #[trigger] gammas[k]))
        == 0 by {
        let y = gammas[k];
        lemma_eval_add_scaled(c, -1, d, diff, y);
        lemma_red_sub::<F>(eval(c, y), eval(d, y), eval(d, y), eval(d, y));
    }
    law_few_zeros::<F>(diff, gammas);
    lemma_eval_congruent::<F>(diff, zero, x);
    lemma_eval_zero(zero, x);
    lemma_eval_add_scaled(c, -1, d, diff, x);
    lemma_red_add::<F>(eval(c, x) - eval(d, x), eval(d, x), 0, eval(d, x));
}

/// Products over cells that agree for more values of `gamma` than there are cells
/// have the same factors.
proof fn lemma_values_determined<F: PrimeField>(
    a: Seq<(int, int)>,
    b: Seq<(int, int)>,
    beta: int,
    gammas: Seq<int>,
)
    requires
        is_field::<F>(),
        a.len() == b.len(),
        gammas.len() > a.len(),
        apart::<F>(gammas),
        forall|k: int|
            0 <= k < gammas.len() ==> red::<F>(cell_product(a, beta, #[trigger] gammas[k]))
                == red::<F>(cell_product(b, beta, gammas[k])),
    ensures
        values::<F>(a, beta).to_multiset() == values::<F>(b, beta).to_multiset(),
    decreases a.len(),
{
    lemma_red_small::<F>();
    if a.len() == 0 {
        assert(values::<F>(a, beta) =~= values::<F>(b, beta));
    } else {
        let i = a.len() - 1;
        let va = a[i].0 + beta * a[i].1;
        // the product over the others vanishes where the last factor does
        lemma_products_agree::<F>(a, b, beta, gammas, -va);
        lemma_cells_remove(a, i, beta, -va);
        let p = cell_product(a.remove(i), beta, -va);
        assert(p * 0 == 0);
        let j = lemma_zero_cell::<F>(b, beta, -va);
        let vb = b[j].0 + beta * b[j].1;
        lemma_red_add::<F>(vb - va, va, 0, va);
        assert(red::<F>(va) == red::<F>(vb));
        // leave out the point where it does
        let k0 = if exists|k: int|
            0 <= k < gammas.len() && red::<F>(#[trigger] gammas[k] + va) == 0 {
            choose|k: int| 0 <= k < gammas.len() && red::<F>(#[trigger] gammas[k] + va) == 0
        } else {
            0
        };
        let rest = gammas.remove(k0);
        lemma_apart_remove::<F>(gammas, k0);
        let (a1, b1) = (a.remove(i), b.remove(j));
        assert forall|k: int| 0 <= k < rest.len() implies red::<F>(
            cell_product(a1, beta, #[trigger] rest[k]),
        ) == red::<F>(cell_product(b1, beta, rest[k])) by {
            let y = rest[k];
            let k1 = if k < k0 {
                k
            } else {
                k + 1
            };
            assert(gammas[k1] == y);
            if red::<F>(gammas[k1] + va) == 0 {
                assert(red::<F>(gammas[k0] + va) == 0);
                lemma_red_sub::<F>(gammas[k1] + va, va, gammas[k0] + va, va);
                lemma_apart_differ::<F>(gammas, k1, k0);
            }
            assert(invertible::<F>(y + va));
            lemma_cells_remove(a, i, beta, y);
            lemma_cells_remove(b, j, beta, y);
            let (pa, pb) = (cell_product(a1, beta, y), cell_product(b1, beta, y));
            lemma_red_add::<F>(y, va, y, vb);
            lemma_red_mul::<F>(pb, y + va, pb, y + vb);
            lemma_cancel::<F>(pa, pb, y + va);
        }
        lemma_values_determined::<F>(a1, b1, beta, rest);
        let (s, t) = (values::<F>(a, beta), values::<F>(b, beta));
        assert(s.remove(i) =~= values::<F>(a1, beta));
        assert(t.remove(j) =~= values::<F>(b1, beta));
        lemma_restored(s, t, i, j);
    }
}

/// Of more numbers than there are to choose from, two are the same.
proof fn lemma_two_alike(s: Seq<int>, m: nat) -> (r: (int, int))
    requires
        s.len() > m,
        forall|i: int| 0 <= i < s.len() ==> 0 <= #[trigger] s[i] < m,
    ensures
        0 <= r.0 < r.1 < s.len(),
        s[r.0] == s[r.1],
{
    if s.no_duplicates() {
        s.unique_seq_to_set();
        lemma_int_range(0, m as int);
        assert(s.to_set().subset_of(set_int_range(0, m as int)));
        lemma_len_subset(s.to_set(), set_int_range(0, m as int));
    }
    let (i, j) = choose|i: int, j: int|
        0 <= i < s.len() && 0 <= j < s.len() && i != j && #[trigger] s[i] == #[trigger] s[j];
    if i < j {
        (i, j)
    } else {
        (j, i)
    }
}

/// Cells whose sums `wire + beta * point` agree for more values of `beta` than
/// there are cells are the same.
proof fn lemma_cells_determined<F: PrimeField>(
    a: Seq<(int, int)>,
    b: Seq<(int, int)>,
    betas: Seq<int>,
)
    requires
        a.len() == b.len(),
        betas.len() > a.len(),
        apart::<F>(betas),
        forall|k: int|
            0 <= k < betas.len() ==> values::<F>(a, #[trigger] betas[k]).to_multiset()
                == values::<F>(b, betas[k]).to_multiset(),
    ensures
        residues::<F>(a).to_multiset() == residues::<F>(b).to_multiset(),
    decreases a.len(),
{
    if a.len() == 0 {
        assert(residues::<F>(a) =~= residues::<F>(b));
    } else {
        let i = a.len() - 1;
        let (w, p) = a[i];
        let hit = |k: int, j: int|
            0 <= j < b.len() && values::<F>(b, betas[k])[j] == values::<F>(a, betas[k])[i];
        let found = Seq::new(betas.len(), |k: int| choose|j: int| #[trigger] hit(k, j));
        assert forall|k: int| 0 <= k < betas.len() implies hit(k, #[trigger] found[k]) by {
            let (s, t) = (values::<F>(a, betas[k]), values::<F>(b, betas[k]));
            to_multiset_contains(s, s[i]);
            to_multiset_contains(t, s[i]);
            assert(s.contains(s[i]));
            assert(t.contains(s[i]));
            let j = choose|j: int| 0 <= j < t.len() && t[j] == s[i];
            assert(hit(k, j));
        }
        assert forall|k: int| 0 <= k < found.len() implies 0 <= #[trigger] found[k] < b.len() by {
            assert(hit(k, found[k]));
        }
        let (k1, k2) = lemma_two_alike(found, b.len());
        let j = found[k1];
        assert(hit(k1, found[k1]) && hit(k2, found[k2]));
        let (v, q) = b[j];
        let (x, y) = (betas[k1], betas[k2]);
        // the points, and so the wires, are congruent
        assert(red::<F>(v + x * q) == red::<F>(w + x * p));
        assert(red::<F>(v + y * q) == red::<F>(w + y * p));
        lemma_red_sub::<F>(v + x * q, v + y * q, w + x * p, w + y * p);
        assert((v + x * q) - (v + y * q) == q * (x - y)) by (nonlinear_arith);
        assert((w + x * p) - (w + y * p) == p * (x - y)) by (nonlinear_arith);
        assert(invertible::<F>(betas[k1] - betas[k2]));
        lemma_cancel::<F>(q, p, x - y);
        lemma_red_mul::<F>(x, q, x, p);
        lemma_red_sub::<F>(v + x * q, x * q, w + x * p, x * p);
        assert(red::<F>(v) == red::<F>(w) && red::<F>(q) == red::<F>(p));
        let (a1, b1) = (a.remove(i), b.remove(j));
        assert forall|k: int| 0 <= k < betas.len() implies values::<F>(
            a1,
            #[trigger] betas[k],
        ).to_multiset() == values::<F>(b1, betas[k]).to_multiset() by {
            let z = betas[k];
            let (s, t) = (values::<F>(a, z), values::<F>(b, z));
            lemma_red_mul::<F>(z, q, z, p);
            lemma_red_add::<F>(v, z * q, w, z * p);
            assert(s[i] == t[j]);
            to_multiset_remove(s, i);
            to_multiset_remove(t, j);
            assert(s.remove(i) =~= values::<F>(a1, z));
            assert(t.remove(j) =~= values::<F>(b1, z));
        }
        lemma_cells_determined::<F>(a1, b1, betas);
        let (s, t) = (residues::<F>(a), residues::<F>(b));
        assert(s.remove(i) =~= residues::<F>(a1));
        assert(t.remove(j) =~= residues::<F>(b1));
        lemma_restored(s, t, i, j);
    }
}

/// The products over two lists of cells that differ modulo the characteristic
/// differ for all but few challenges: of any values of `beta` and of `gamma` that
/// are apart, more of each than there are cells, there is a pair that tells them
/// apart.
pub proof fn law_cells_differ<F: PrimeField>(
    a: Seq<(int, int)>,
    b: Seq<(int, int)>,
    betas: Seq<int>,
    gammas: Seq<int>,
)
    requires
        is_field::<F>(),
        a.len() == b.len(),
        residues::<F>(a).to_multiset() != residues::<F>(b).to_multiset(),
        betas.len() > a.len(),
        gammas.len() > a.len(),
        apart::<F>(betas),
        apart::<F>(gammas),
    ensures
        exists|i: int, j: int|
            0 <= i < betas.len() && 0 <= j < gammas.len() && red::<F>(
                cell_product(a, #[trigger] betas[i], #[trigger] gammas[j]),
            ) != red::<F>(cell_product(b, betas[i], gammas[j])),
{
    if forall|i: int, j: int|
        0 <= i < betas.len() && 0 <= j < gammas.len() ==> red::<F>(
            cell_product(a, #[trigger] betas[i], #[trigger] gammas[j]),
        ) == red::<F>(cell_product(b, betas[i], gammas[j])) {
        assert forall|i: int| 0 <= i < betas.len() implies values::<F>(
            a,
            #[trigger] betas[i],
        ).to_multiset() == values::<F>(b, betas[i]).to_multiset() by {
            lemma_values_determined::<F>(a, b, betas[i], gammas);
        }
        lemma_cells_determined::<F>(a, b, betas);
    }
}

proof fn lemma_cells_len<F: PrimeField>(
    wires: Seq<Seq<int>>,
    permutations: Seq<Seq<int>>,
    shifts: Seq<int>,
    omega: int,
    n: nat,
)
    ensures
        placed_cells::<F>(wires, shifts, omega, n).len() == wires.len() * n,
        permuted_cells(wires, permutations, n).len() == wires.len() * n,
    decreases n,
{
    let k = wires.len();
    if n > 0 {
        lemma_cells_len::<F>(wires, permutations, shifts, omega, (n - 1) as nat);
        assert(k * n == k * ((n - 1) as nat) + k) by (nonlinear_arith)
            requires
                n > 0,
        ;
    } else {
        assert(k * 0 == 0);
    }
}

/// The permutation moves a point to a cell with another wire: modulo the
/// characteristic, the cells of the first `n` rows are not the same with the
/// points of their own places and with those that the permutation gives them.
pub open spec fn copies_violated<F: PrimeField>(
    wires: Seq<Seq<int>>,
    permutations: Seq<Seq<int>>,
    shifts: Seq<int>,
    omega: int,
    n: nat,
) -> bool {
    residues::<F>(placed_cells::<F>(wires, shifts, omega, n)).to_multiset() != residues::<F>(
        permuted_cells(wires, permutations, n),
    ).to_multiset()
}

/// A witness that violates the copy constraints makes numerators and denominators
/// of the grand product multiply up to different values for all but few
/// challenges: of any values of `beta` and of `gamma` that are apart, one more of
/// each than there are cells, there is a pair for which they do.
pub proof fn law_violated_copies<F: PrimeField>(
    wires: Seq<Seq<int>>,
    permutations: Seq<Seq<int>>,
    shifts: Seq<int>,
    omega: int,
    n: nat,
    betas: Seq<int>,
    gammas: Seq<int>,
)
    requires
        is_field::<F>(),
        wires.len() == shifts.len(),
        wires.len() == permutations.len(),
        copies_violated::<F>(wires, permutations, shifts, omega, n),
        betas.len() == wires.len() * n + 1,
        gammas.len() == wires.len() * n + 1,
        apart::<F>(betas),
        apart::<F>(gammas),
    ensures
        exists|i: int, j: int|
            0 <= i < betas.len() && 0 <= j < gammas.len() && red::<F>(
                product(
                    copy_numerators::<F>(
                        wires,
                        shifts,
                        omega,
                        n,
                        #[trigger] betas[i],
                        #[trigger] gammas[j],
                    ),
                ),
            ) != red::<F>(
                product(copy_denominators(wires, permutations, n, betas[i], gammas[j])),
            ),
{
    let a = placed_cells::<F>(wires, shifts, omega, n);
    let b = permuted_cells(wires, permutations, n);
    lemma_cells_len::<F>(wires, permutations, shifts, omega, n);
    law_cells_differ::<F>(a, b, betas, gammas);
    let (i, j) = choose|i: int, j: int|
        0 <= i < betas.len() && 0 <= j < gammas.len() && red::<F>(
            cell_product(a, #[trigger] betas[i], #[trigger] gammas[j]),
        ) != red::<F>(cell_product(b, betas[i], gammas[j]));
    let (beta, gamma) = (betas[i], gammas[j]);
    lemma_numerators_product::<F>(wires, shifts, omega, n, beta, gamma);
    lemma_denominators_product(wires, permutations, n, beta, gamma);
}

/// A grand product whose numerators and denominators multiply up to different
/// values does not end with one.
pub proof fn law_open_product<F: PrimeField>(
    z: Seq<int>,
    numerators: Seq<int>,
    denominators: Seq<int>,
)
    requires
        is_grand_product::<F>(z, numerators, denominators),
        red::<F>(product(numerators)) != red::<F>(product(denominators)),
    ensures
        red::<F>(z.last()) != 1,
{
    law_grand_product_ends::<F>(z, numerators, denominators);
    lemma_red_small::<F>();
    if red::<F>(z.last()) == 1 {
        let d = product(denominators);
        lemma_red_mul::<F>(z.last(), d, 1, d);
        assert(1 * d == d);
    }
}

/// The cells of the last row of the domain, whose wires are zero and which is not
/// permuted.
pub open spec fn last_cells<F: PrimeField>(
    shifts: Seq<int>,
    omega: int,
    n: nat,
) -> Seq<(int, int)> {
    row_cells(zero_wires(shifts.len()), coset_row::<F>(red::<F>(pow(omega, n)), shifts))
}

/// Wires that are zero.
pub open spec fn zero_wires(count: nat) -> Seq<int> {
    Seq::new(count, |j: int| 0int)
}

/// The challenges show that copy constraints are violated: numerators and
/// denominators of the grand product multiply up to different values, also when
/// both are multiplied by what the last row of the domain contributes.
pub open spec fn copies_exposed<F: PrimeField>(
    wires: Seq<Seq<int>>,
    permutations: Seq<Seq<int>>,
    shifts: Seq<int>,
    omega: int,
    n: nat,
    beta: int,
    gamma: int,
) -> bool {
    let last = perm_product(
        zero_wires(shifts.len()),
        coset_row::<F>(red::<F>(pow(omega, n)), shifts),
        beta,
        gamma,
    );
    red::<F>(
        product(copy_numerators::<F>(wires, shifts, omega, n, beta, gamma)) * last,
    ) != red::<F>(product(copy_denominators(wires, permutations, n, beta, gamma)) * last)
}

/// All but few challenges show that copy constraints are violated: of any values
/// of `beta` and of `gamma` that are apart, one more of each than there are cells
/// in all rows of the domain, there is a pair that does.
pub proof fn law_copies_exposed<F: PrimeField>(
    wires: Seq<Seq<int>>,
    permutations: Seq<Seq<int>>,
    shifts: Seq<int>,
    omega: int,
    n: nat,
    betas: Seq<int>,
    gammas: Seq<int>,
)
    requires
        is_field::<F>(),
        wires.len() == shifts.len(),
        wires.len() == permutations.len(),
        copies_violated::<F>(wires, permutations, shifts, omega, n),
        betas.len() == wires.len() * (n + 1) + 1,
        gammas.len() == wires.len() * (n + 1) + 1,
        apart::<F>(betas),
        apart::<F>(gammas),
    ensures
        exists|i: int, j: int|
            0 <= i < betas.len() && 0 <= j < gammas.len() && copies_exposed::<F>(
                wires,
                permutations,
                shifts,
                omega,
                n,
                #[trigger] betas[i],
                #[trigger] gammas[j],
            ),
{
    broadcast use group_multiset_axioms;

    let placed = placed_cells::<F>(wires, shifts, omega, n);
    let permuted = permuted_cells(wires, permutations, n);
    let last = last_cells::<F>(shifts, omega, n);
    let (a, b) = (placed + last, permuted + last);
    let k = wires.len();
    lemma_cells_len::<F>(wires, permutations, shifts, omega, n);
    assert(k * (n + 1) == k * n + k) by (nonlinear_arith);
    // the last row does not make up for the difference
    assert(residues::<F>(a).to_multiset() != residues::<F>(b).to_multiset()) by {
        let (s, t, r) = (residues::<F>(placed), residues::<F>(permuted), residues::<F>(last));
        assert(residues::<F>(a) =~= s + r);
        assert(residues::<F>(b) =~= t + r);
        lemma_multiset_commutative(s, r);
        lemma_multiset_commutative(t, r);
        if (s + r).to_multiset() == (t + r).to_multiset() {
            let (ms, mt, mr) = (s.to_multiset(), t.to_multiset(), r.to_multiset());
            assert forall|x: (int, int)| ms.count(x) == mt.count(x) by {
                assert(ms.add(mr).count(x) == mt.add(mr).count(x));
            }
            assert(ms =~= mt);
        }
    }
    law_cells_differ::<F>(a, b, betas, gammas);
    let (i, j) = choose|i: int, j: int|
        0 <= i < betas.len() && 0 <= j < gammas.len() && red::<F>(
            cell_product(a, #[trigger] betas[i], #[trigger] gammas[j]),
        ) != red::<F>(cell_product(b, betas[i], gammas[j]));
    let (beta, gamma) = (betas[i], gammas[j]);
    lemma_numerators_product::<F>(wires, shifts, omega, n, beta, gamma);
    lemma_denominators_product(wires, permutations, n, beta, gamma);
    lemma_cells_concat(placed, last, beta, gamma);
    lemma_cells_concat(permuted, last, beta, gamma);
    lemma_row_cells(
        zero_wires(shifts.len()),
        coset_row::<F>(red::<F>(pow(omega, n)), shifts),
        beta,
        gamma,
    );
    assert(copies_exposed::<F>(wires, permutations, shifts, omega, n, betas[i], gammas[j]));
}

/// What the last row of the domain asks of the grand product is not met, if the
/// challenges show that copy constraints are violated and the row is not permuted.
proof fn lemma_last_row_fails<F: PrimeField>(
    t: Trace,
    p: ProverPolynomials<F>,
    w: Weights,
    domain: Domain<F>,
)
    requires
        domain.wf(),
        t.wf(domain.size as int),
        w.shifts.len() == 4,
        products_made(t, w, domain),
        last_row_kept(t, w.shifts, domain),
        copies_exposed::<F>(
            t.wires,
            t.permutations,
            w.shifts,
            domain.generator.val(),
            (domain.size - 1) as nat,
            w.beta,
            w.gamma,
        ),
    ensures
        red::<F>(
            argument_constraints::<F>(trace_row(t, p, domain, domain.size - 1), w)[0],
        ) != 0,
{
    let omega = domain.generator.val();
    let n = (domain.size - 1) as nat;
    let row = trace_row(t, p, domain, n as int);
    let nums = copy_numerators::<F>(t.wires, w.shifts, omega, n, w.beta, w.gamma);
    let dens = copy_denominators(t.wires, t.permutations, n, w.beta, w.gamma);
    let points = coset_row::<F>(row.x, w.shifts);
    assert(row.wires =~= zero_wires(4));
    let a = perm_product(row.wires, points, w.beta, w.gamma);
    let b = perm_product(row.wires, row.permutations, w.beta, w.gamma);
    lemma_last_row_kept(t, p, w, domain);
    law_grand_product_ends::<F>(t.z, nums, dens);
    lemma_red_small::<F>();
    let (z, num, den) = (t.z.last(), product(nums), product(dens));
    assert(row.z == z && row.z_next == 1);
    assert(argument_constraints::<F>(row, w)[0] == z * a - 1 * b);
    if red::<F>(z * a - 1 * b) == 0 {
        lemma_red_add::<F>(z * a - b, b, 0, a);
        assert(red::<F>(z * a) == red::<F>(a));
        lemma_red_mul::<F>(z * a, den, a, den);
        lemma_red_mul::<F>(z * den, a, num, a);
        assert((z * a) * den == (z * den) * a) by (nonlinear_arith);
        assert(a * den == den * a) by (nonlinear_arith);
    }
}

/// A violated copy constraint makes the numerator miss zero on a row: where the
/// challenges of the grand product show the violation, and the last row of the
/// domain is not permuted, then of any values of alpha that are apart, five more
/// than the gates have terms, there is one for which the rows are not satisfied.
pub proof fn law_exposed_copies_fail<F: PrimeField>(
    gates: Seq<Gate>,
    t: Trace,
    p: ProverPolynomials<F>,
    inputs: Seq<F>,
    w: Weights,
    domain: Domain<F>,
    alphas: Seq<int>,
)
    requires
        supported(gates),
        domain.wf(),
        t.wf(domain.size as int),
        p.arguments_wf(gates, domain.size as int),
        w.shifts.len() == 4,
        transformed(t, p, inputs, domain),
        products_made(t, w, domain),
        last_row_kept(t, w.shifts, domain),
        copies_exposed::<F>(
            t.wires,
            t.permutations,
            w.shifts,
            domain.generator.val(),
            (domain.size - 1) as nat,
            w.beta,
            w.gamma,
        ),
        alphas.len() == terms_before(gates, gates.len()) + 5,
        apart::<F>(alphas),
    ensures
        exists|k: int|
            0 <= k < alphas.len() && !rows_satisfied(
                gates,
                p,
                domain,
                vals(inputs),
                (Weights { alpha: #[trigger] alphas[k], ..w }),
            ),
{
    let n = domain.size - 1;
    let omega = domain.generator.val();
    let row = trace_row(t, p, domain, n);
    let own = gate_constraints(gates, row, gates.len());
    lemma_last_row_fails(t, p, w, domain);
    let e = own.len() as int;
    assert(constraints::<F>(gates, row, w)[e] == argument_constraints::<F>(row, w)[0]);
    law_failing_constraint::<F>(gates, row, w, e, alphas);
    let k = choose|k: int|
        0 <= k < alphas.len() && red::<F>(
            numerator::<F>(gates, row, Weights { alpha: #[trigger] alphas[k], ..w }),
        ) != 0;
    let v = Weights { alpha: alphas[k], ..w };
    let x = pow(omega, n as nat);
    law_trace_rows(gates, t, p, inputs, domain, n);
    lemma_numerator_congruent::<F>(gates, rows(p, domain, vals(inputs))(x), row, v);
    assert(!rows_satisfied(gates, p, domain, vals(inputs), v));
}

/// Every cell in its own place is a wire of some row with the point of the place.
proof fn lemma_placed_origin<F: PrimeField>(
    wires: Seq<Seq<int>>,
    shifts: Seq<int>,
    omega: int,
    n: nat,
    at: int,
) -> (r: (int, int))
    requires
        wires.len() == shifts.len(),
        0 <= at < placed_cells::<F>(wires, shifts, omega, n).len(),
    ensures
        0 <= r.0 < n,
        0 <= r.1 < wires.len(),
        placed_cells::<F>(wires, shifts, omega, n)[at] == (
            wires[r.1][r.0],
            red::<F>(red::<F>(pow(omega, r.0 as nat)) * shifts[r.1]),
        ),
    decreases n,
{
    let before = placed_cells::<F>(wires, shifts, omega, (n - 1) as nat);
    if at < before.len() {
        lemma_placed_origin::<F>(wires, shifts, omega, (n - 1) as nat, at)
    } else {
        (n - 1, at - before.len())
    }
}

/// Every wire stands among the permuted cells, with the point that it is given.
proof fn lemma_permuted_place(
    wires: Seq<Seq<int>>,
    permutations: Seq<Seq<int>>,
    n: nat,
    row: int,
    column: int,
) -> (at: int)
    requires
        wires.len() == permutations.len(),
        0 <= row < n,
        0 <= column < wires.len(),
    ensures
        0 <= at < permuted_cells(wires, permutations, n).len(),
        permuted_cells(wires, permutations, n)[at] == (
            wires[column][row],
            permutations[column][row],
        ),
    decreases n,
{
    let before = permuted_cells(wires, permutations, (n - 1) as nat);
    if row < n - 1 {
        lemma_permuted_place(wires, permutations, (n - 1) as nat, row, column)
    } else {
        before.len() + column
    }
}

/// Copy constraints are violated, if the permutation gives a cell the point of
/// another cell with another wire, and no third cell has that point.
pub proof fn law_broken_copy<F: PrimeField>(
    wires: Seq<Seq<int>>,
    permutations: Seq<Seq<int>>,
    shifts: Seq<int>,
    omega: int,
    n: nat,
    row: int,
    column: int,
    other_row: int,
    other_column: int,
)
    requires
        wires.len() == shifts.len(),
        wires.len() == permutations.len(),
        0 <= row < n,
        0 <= column < wires.len(),
        0 <= other_row < n,
        0 <= other_column < wires.len(),
        red::<F>(permutations[column][row]) == red::<F>(
            pow(omega, other_row as nat) * shifts[other_column],
        ),
        red::<F>(wires[column][row]) != red::<F>(wires[other_column][other_row]),
        forall|i: int, j: int|
            0 <= i < n && 0 <= j < wires.len() && red::<F>(
                #[trigger] pow(omega, i as nat) * #[trigger] shifts[j],
            ) == red::<F>(pow(omega, other_row as nat) * shifts[other_column]) ==> i == other_row
                && j == other_column,
    ensures
        copies_violated::<F>(wires, permutations, shifts, omega, n),
{
    let a = placed_cells::<F>(wires, shifts, omega, n);
    let b = permuted_cells(wires, permutations, n);
    let (s, t) = (residues::<F>(a), residues::<F>(b));
    let at = lemma_permuted_place(wires, permutations, n, row, column);
    if s.to_multiset() == t.to_multiset() {
        let x = t[at];
        to_multiset_contains(t, x);
        to_multiset_contains(s, x);
        assert(t.contains(x));
        assert(s.contains(x));
        let k = choose|k: int| 0 <= k < s.len() && s[k] == x;
        let (i, j) = lemma_placed_origin::<F>(wires, shifts, omega, n, k);
        let y = pow(omega, i as nat);
        lemma_red_range::<F>(y);
        lemma_red_mul::<F>(red::<F>(y), shifts[j], y, shifts[j]);
        lemma_red_range::<F>(red::<F>(y) * shifts[j]);
        assert(red::<F>(pow(omega, i as nat) * shifts[j]) == x.1);
    }
}

/// The lookups do not respect the tables: modulo the characteristic, the looked up
/// entries, each twice, and the neighbours in the tables are not the neighbours in
/// the sorted column with as many zeros as there are rows.
pub open spec fn lookups_violated<F: PrimeField>(f: Seq<int>, t: Seq<int>, s: Seq<int>) -> bool {
    let n = f.len() as int;
    residues::<F>(paired(f, f) + paired(t.take(n), t.skip(1))).to_multiset() != residues::<F>(
        paired(s.take(n), s.skip(1)) + zero_pairs(f.len()),
    ).to_multiset()
}

/// From an entry on, the sorted column stays at a value that no table has.
proof fn lemma_sorted_stays<F: PrimeField>(
    f: Seq<int>,
    t: Seq<int>,
    s: Seq<int>,
    v: int,
    from: int,
    to: int,
)
    requires
        t.len() == f.len() + 1,
        s.len() == f.len() + 1,
        !lookups_violated::<F>(f, t, s),
        forall|j: int| 0 <= j < t.len() ==> red::<F>(#[trigger] t[j]) != v,
        0 <= from <= to < s.len(),
        red::<F>(s[from]) == v,
    ensures
        red::<F>(s[to]) == v,
    decreases to - from,
{
    if from < to {
        let n = f.len() as int;
        let (t0, t1, s0, s1) = (t.take(n), t.skip(1), s.take(n), s.skip(1));
        let left = residues::<F>(paired(f, f) + paired(t0, t1));
        let right = residues::<F>(paired(s0, s1) + zero_pairs(f.len()));
        let x = right[from];
        assert(x == (red::<F>(s[from]), red::<F>(s[from + 1])));
        to_multiset_contains(right, x);
        to_multiset_contains(left, x);
        assert(right.contains(x));
        assert(left.contains(x));
        let k = choose|k: int| 0 <= k < left.len() && left[k] == x;
        if k >= n {
            assert(left[k] == (red::<F>(t[k - n]), red::<F>(t[k - n + 1])));
        } else {
            assert(left[k] == (red::<F>(f[k]), red::<F>(f[k])));
        }
        lemma_sorted_stays::<F>(f, t, s, v, from + 1, to);
    }
}

/// The lookups do not respect the tables, if a row looks up an entry other than
/// zero that no table has, and the sorted column ends with a zero.
pub proof fn law_entry_outside<F: PrimeField>(f: Seq<int>, t: Seq<int>, s: Seq<int>, i: int)
    requires
        t.len() == f.len() + 1,
        s.len() == f.len() + 1,
        0 <= i < f.len(),
        red::<F>(f[i]) != 0,
        forall|j: int| 0 <= j < t.len() ==> red::<F>(#[trigger] t[j]) != red::<F>(f[i]),
        red::<F>(s.last()) == 0,
    ensures
        lookups_violated::<F>(f, t, s),
{
    if !lookups_violated::<F>(f, t, s) {
        let n = f.len() as int;
        let v = red::<F>(f[i]);
        let (t0, t1, s0, s1) = (t.take(n), t.skip(1), s.take(n), s.skip(1));
        let left = residues::<F>(paired(f, f) + paired(t0, t1));
        let right = residues::<F>(paired(s0, s1) + zero_pairs(f.len()));
        let x = left[i];
        lemma_red_small::<F>();
        assert(x == (v, v));
        to_multiset_contains(left, x);
        to_multiset_contains(right, x);
        assert(left.contains(x));
        assert(right.contains(x));
        let k = choose|k: int| 0 <= k < right.len() && right[k] == x;
        if k >= n {
            assert(right[k] == (red::<F>(0), red::<F>(0)));
        } else {
            assert(right[k] == (red::<F>(s[k]), red::<F>(s[k + 1])));
            lemma_sorted_stays::<F>(f, t, s, v, k, n);
        }
    }
}

/// The challenges show that the lookups do not respect the tables: the numerators
/// of the grand product do not multiply up to the denominators and the value that
/// it must end with.
pub open spec fn lookups_exposed<F: PrimeField>(
    f: Seq<int>,
    t: Seq<int>,
    s: Seq<int>,
    beta: int,
    gamma: int,
) -> bool {
    let n = f.len() as int;
    red::<F>(
        product(lookup_numerators(f, t.take(n), t.skip(1), beta, gamma)),
    ) != red::<F>(
        product(lookup_denominators(s.take(n), s.skip(1), beta, gamma)) * pow(
            gamma_beta(beta, gamma),
            f.len(),
        ),
    )
}

/// All but few challenges show that the lookups do not respect the tables: of any
/// values of `beta` and of `gamma` that are apart, twice as many as there are rows
/// and two more of `beta`, one more of `gamma`, there is a pair that does.
pub proof fn law_lookups_exposed<F: PrimeField>(
    f: Seq<int>,
    t: Seq<int>,
    s: Seq<int>,
    betas: Seq<int>,
    gammas: Seq<int>,
)
    requires
        is_field::<F>(),
        t.len() == f.len() + 1,
        s.len() == f.len() + 1,
        lookups_violated::<F>(f, t, s),
        betas.len() == 2 * f.len() + 2,
        gammas.len() == 2 * f.len() + 1,
        apart::<F>(betas),
        apart::<F>(gammas),
    ensures
        exists|i: int, j: int|
            0 <= i < betas.len() && 0 <= j < gammas.len() && lookups_exposed::<F>(
                f,
                t,
                s,
                #[trigger] betas[i],
                #[trigger] gammas[j],
            ),
{
    let n = f.len() as int;
    let (t0, t1, s0, s1) = (t.take(n), t.skip(1), s.take(n), s.skip(1));
    let a = paired(f, f) + paired(t0, t1);
    let b = paired(s0, s1) + zero_pairs(f.len());
    lemma_red_small::<F>();
    if forall|i: int, j: int|
        0 <= i < betas.len() && 0 <= j < gammas.len() ==> !lookups_exposed::<F>(
            f,
            t,
            s,
            #[trigger] betas[i],
            #[trigger] gammas[j],
        ) {
        // leave out the value of beta for which gamma makes no difference
        let k0 = if exists|k: int|
            0 <= k < betas.len() && red::<F>(#[trigger] betas[k] + 1) == 0 {
            choose|k: int| 0 <= k < betas.len() && red::<F>(#[trigger] betas[k] + 1) == 0
        } else {
            0
        };
        let rest = betas.remove(k0);
        lemma_apart_remove::<F>(betas, k0);
        assert forall|k: int| 0 <= k < rest.len() implies values::<F>(
            a,
            #[trigger] rest[k],
        ).to_multiset() == values::<F>(b, rest[k]).to_multiset() by {
            let k1 = if k < k0 {
                k
            } else {
                k + 1
            };
            let beta = betas[k1];
            assert(rest[k] == beta);
            if red::<F>(betas[k1] + 1) == 0 {
                assert(red::<F>(betas[k0] + 1) == 0);
                lemma_red_sub::<F>(betas[k1] + 1, 1, betas[k0] + 1, 1);
                lemma_apart_differ::<F>(betas, k1, k0);
            }
            let v = beta + 1;
            assert(invertible::<F>(v));
            let scaled = Seq::new(gammas.len(), |j: int| gamma_beta(beta, gammas[j]));
            assert forall|i: int, j: int| 0 <= i < j < scaled.len() implies invertible::<F>(
                #[trigger] scaled[i] - #[trigger] scaled[j],
            ) by {
                let d = gammas[i] - gammas[j];
                assert(invertible::<F>(gammas[i] - gammas[j]));
                let (x, y) = (inv::<F>(d), inv::<F>(v));
                assert(scaled[i] - scaled[j] == d * v) by (nonlinear_arith)
                    requires
                        scaled[i] == gammas[i] * v,
                        scaled[j] == gammas[j] * v,
                        d == gammas[i] - gammas[j],
                ;
                lemma_red_mul::<F>(d * x, v * y, 1, 1);
                assert((d * x) * (v * y) == (d * v) * (x * y)) by (nonlinear_arith);
                lemma_invertible::<F>(d * v, x * y);
            }
            assert forall|j: int| 0 <= j < scaled.len() implies red::<F>(
                cell_product(a, beta, #[trigger] scaled[j]),
            ) == red::<F>(cell_product(b, beta, scaled[j])) by {
                let gamma = gammas[j];
                let g = gamma_beta(beta, gamma);
                let dens = lookup_denominators(s0, s1, beta, gamma);
                lemma_lookup_numerators_product(f, t0, t1, beta, gamma);
                lemma_pairs_product(s0, s1, beta, g, dens);
                lemma_zero_pairs(f.len(), beta, g);
                lemma_cells_concat(paired(s0, s1), zero_pairs(f.len()), beta, g);
                assert(!lookups_exposed::<F>(f, t, s, betas[k1], gammas[j]));
            }
            lemma_values_determined::<F>(a, b, beta, scaled);
        }
        lemma_cells_determined::<F>(a, b, rest);
    }
}

/// A grand product of the lookup argument does not end as it must, where the
/// challenges show that the lookups do not respect the tables: its round is not
/// complete.
pub proof fn law_exposed_lookups_incomplete<F: PrimeField, G: Copy>(
    next: LookupProduct<F, G>,
    beta: F,
    gamma: F,
    tables: Seq<F>,
    sorted: Seq<F>,
)
    requires
        next.wf(),
        next.session.drawn.lookup == Some((beta, gamma)),
        is_grand_product::<F>(
            vals(next.ifft@),
            numerators_of(next.lookup, beta, gamma),
            denominators_of(next.lookup, beta, gamma),
        ),
        tables.len() == next.session.job.domain.size,
        next.lookup.values.t@ == tables.subrange(0, next.session.job.n as int),
        next.lookup.values.t_shifted@ == tables.subrange(1, next.session.job.n + 1),
        sorted.len() == next.session.job.domain.size,
        next.lookup.values.s@ == sorted.subrange(0, next.session.job.n as int),
        next.lookup.values.s_shifted@ == sorted.subrange(1, next.session.job.n + 1),
        lookups_exposed::<F>(
            vals(next.lookup.values.f@),
            vals(tables),
            vals(sorted),
            beta.val(),
            gamma.val(),
        ),
    ensures
        !next.complete(),
{
    let n = next.session.job.n as int;
    let l = next.lookup.values;
    let nums = numerators_of(next.lookup, beta, gamma);
    let dens = denominators_of(next.lookup, beta, gamma);
    assert(vals(l.t@) =~= vals(tables).take(n));
    assert(vals(l.t_shifted@) =~= vals(tables).skip(1));
    assert(vals(l.s@) =~= vals(sorted).take(n));
    assert(vals(l.s_shifted@) =~= vals(sorted).skip(1));
    law_grand_product_ends::<F>(vals(next.ifft@), nums, dens);
    if next.complete() {
        let (z, e) = (next.ifft@.last().val(), pow(gamma_beta(beta.val(), gamma.val()), n as nat));
        let d = product(dens);
        lemma_red_range::<F>(e);
        lemma_red_mul::<F>(z, d, e, d);
        assert(e * d == d * e) by (nonlinear_arith);
    }
}

} // verus!
