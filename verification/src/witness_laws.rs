//! A witness that respects the copy constraints and the tables makes the terms of
//! the two grand products vanish.

use crate::field::{
    inv, invertible, lemma_red_add, lemma_red_mul, lemma_red_small, lemma_red_sub, red,
    PrimeField,
};
use crate::gates::{bit_gate, main_gate, terms_before, Gate};
use crate::laws::{law_grand_product_ends, lemma_denominator_congruent};
use crate::lookup::{gamma_beta, lookup_denominator, lookup_denominators, lookup_numerators};
use crate::permutation::{
    copy_denominators, copy_numerators, coset_row, is_grand_product, perm_product, row_of,
};
use crate::polynomial::{lemma_product_invertible, product};
use crate::quotient::{
    copy_terms, gate_terms, lookup_query, lookup_terms, LookupRow, LookupWeights, Row, Weights,
};
use vstd::arithmetic::power::*;
use vstd::prelude::*;
use vstd::seq_lib::*;

verus! {

/// The product over cells of `wire + gamma + beta * point`.
pub open spec fn cell_product(cells: Seq<(int, int)>, beta: int, gamma: int) -> int
    decreases cells.len(),
{
    if cells.len() == 0 {
        1
    } else {
        cell_product(cells.drop_last(), beta, gamma) * (cells.last().0 + gamma + beta
            * cells.last().1)
    }
}

/// The wires of a row with their points.
pub open spec fn row_cells(wires: Seq<int>, points: Seq<int>) -> Seq<(int, int)> {
    Seq::new(wires.len(), |j: int| (wires[j], points[j]))
}

/// The cells of the first `n` rows, each with the point of its own place.
pub open spec fn placed_cells<F: PrimeField>(
    wires: Seq<Seq<int>>,
    shifts: Seq<int>,
    omega: int,
    n: nat,
) -> Seq<(int, int)>
    decreases n,
{
    if n == 0 {
        Seq::empty()
    } else {
        let i = n - 1;
        placed_cells::<F>(wires, shifts, omega, i as nat) + row_cells(
            row_of(wires, i),
            coset_row::<F>(red::<F>(pow(omega, i as nat)), shifts),
        )
    }
}

/// The cells of the first `n` rows, each with the point that the permutation
/// gives it.
pub open spec fn permuted_cells(
    wires: Seq<Seq<int>>,
    permutations: Seq<Seq<int>>,
    n: nat,
) -> Seq<(int, int)>
    decreases n,
{
    if n == 0 {
        Seq::empty()
    } else {
        let i = n - 1;
        permuted_cells(wires, permutations, i as nat) + row_cells(
            row_of(wires, i),
            row_of(permutations, i),
        )
    }
}

/// The product over two lists of cells is the product of their products.
pub proof fn lemma_cells_concat(a: Seq<(int, int)>, b: Seq<(int, int)>, beta: int, gamma: int)
    ensures
        cell_product(a + b, beta, gamma) == cell_product(a, beta, gamma) * cell_product(
            b,
            beta,
            gamma,
        ),
    decreases b.len(),
{
    let p = cell_product(a, beta, gamma);
    if b.len() == 0 {
        assert(a + b =~= a);
        assert(p * 1 == p);
    } else {
        assert((a + b).drop_last() =~= a + b.drop_last());
        assert((a + b).last() == b.last());
        lemma_cells_concat(a, b.drop_last(), beta, gamma);
        let q = cell_product(b.drop_last(), beta, gamma);
        let f = b.last().0 + gamma + beta * b.last().1;
        assert((p * q) * f == p * (q * f)) by (nonlinear_arith);
    }
}

/// The product over the cells of a row.
pub proof fn lemma_row_cells(wires: Seq<int>, points: Seq<int>, beta: int, gamma: int)
    requires
        wires.len() == points.len(),
    ensures
        cell_product(row_cells(wires, points), beta, gamma) == perm_product(
            wires,
            points,
            beta,
            gamma,
        ),
    decreases wires.len(),
{
    if wires.len() > 0 {
        assert(row_cells(wires, points).drop_last() =~= row_cells(
            wires.drop_last(),
            points.drop_last(),
        ));
        lemma_row_cells(wires.drop_last(), points.drop_last(), beta, gamma);
    }
}

/// One cell contributes one factor.
pub proof fn lemma_cells_remove(cells: Seq<(int, int)>, i: int, beta: int, gamma: int)
    requires
        0 <= i < cells.len(),
    ensures
        cell_product(cells, beta, gamma) == cell_product(cells.remove(i), beta, gamma) * (
        cells[i].0 + gamma + beta * cells[i].1),
{
    let (a, x, b) = (cells.take(i), seq![cells[i]], cells.skip(i + 1));
    let f = cells[i].0 + gamma + beta * cells[i].1;
    assert(cells =~= (a + x) + b);
    assert(cells.remove(i) =~= a + b);
    lemma_cells_concat(a + x, b, beta, gamma);
    lemma_cells_concat(a, x, beta, gamma);
    lemma_cells_concat(a, b, beta, gamma);
    assert(x.drop_last() =~= Seq::empty());
    assert(cell_product(x.drop_last(), beta, gamma) == 1);
    assert(cell_product(x, beta, gamma) == 1 * f);
    let (p, q) = (cell_product(a, beta, gamma), cell_product(b, beta, gamma));
    assert((p * f) * q == (p * q) * f) by (nonlinear_arith);
}

/// The product does not depend on the order of the cells.
proof fn lemma_cells_reordered(
    a: Seq<(int, int)>,
    b: Seq<(int, int)>,
    beta: int,
    gamma: int,
)
    requires
        a.to_multiset() == b.to_multiset(),
    ensures
        cell_product(a, beta, gamma) == cell_product(b, beta, gamma),
    decreases a.len(),
{
    to_multiset_len(a);
    to_multiset_len(b);
    if a.len() > 0 {
        let k = a.len() - 1;
        let x = a[k];
        to_multiset_contains(a, x);
        to_multiset_contains(b, x);
        assert(b.contains(x));
        let i = choose|i: int| 0 <= i < b.len() && b[i] == x;
        lemma_cells_remove(a, k, beta, gamma);
        lemma_cells_remove(b, i, beta, gamma);
        to_multiset_remove(a, k);
        to_multiset_remove(b, i);
        lemma_cells_reordered(a.remove(k), b.remove(i), beta, gamma);
    }
}

/// The numerators multiply up to the product over the cells in their own places.
pub proof fn lemma_numerators_product<F: PrimeField>(
    wires: Seq<Seq<int>>,
    shifts: Seq<int>,
    omega: int,
    n: nat,
    beta: int,
    gamma: int,
)
    requires
        wires.len() == shifts.len(),
    ensures
        product(copy_numerators::<F>(wires, shifts, omega, n, beta, gamma)) == cell_product(
            placed_cells::<F>(wires, shifts, omega, n),
            beta,
            gamma,
        ),
    decreases n,
{
    let s = copy_numerators::<F>(wires, shifts, omega, n, beta, gamma);
    if n > 0 {
        let i = n - 1;
        let fewer = copy_numerators::<F>(wires, shifts, omega, i as nat, beta, gamma);
        assert(s.drop_last() =~= fewer);
        lemma_numerators_product::<F>(wires, shifts, omega, i as nat, beta, gamma);
        let points = coset_row::<F>(red::<F>(pow(omega, i as nat)), shifts);
        lemma_row_cells(row_of(wires, i), points, beta, gamma);
        lemma_cells_concat(
            placed_cells::<F>(wires, shifts, omega, i as nat),
            row_cells(row_of(wires, i), points),
            beta,
            gamma,
        );
    }
}

/// The denominators multiply up to the product over the permuted cells.
pub proof fn lemma_denominators_product(
    wires: Seq<Seq<int>>,
    permutations: Seq<Seq<int>>,
    n: nat,
    beta: int,
    gamma: int,
)
    requires
        wires.len() == permutations.len(),
    ensures
        product(copy_denominators(wires, permutations, n, beta, gamma)) == cell_product(
            permuted_cells(wires, permutations, n),
            beta,
            gamma,
        ),
    decreases n,
{
    let s = copy_denominators(wires, permutations, n, beta, gamma);
    if n > 0 {
        let i = n - 1;
        let fewer = copy_denominators(wires, permutations, i as nat, beta, gamma);
        assert(s.drop_last() =~= fewer);
        lemma_denominators_product(wires, permutations, i as nat, beta, gamma);
        lemma_row_cells(row_of(wires, i), row_of(permutations, i), beta, gamma);
        lemma_cells_concat(
            permuted_cells(wires, permutations, i as nat),
            row_cells(row_of(wires, i), row_of(permutations, i)),
            beta,
            gamma,
        );
    }
}

/// A witness that respects the copy constraints closes the grand product: if the
/// permutation only moves points between cells with equal wires, then the grand
/// product ends with one.
pub proof fn law_copy_constraints<F: PrimeField>(
    z: Seq<int>,
    wires: Seq<Seq<int>>,
    permutations: Seq<Seq<int>>,
    shifts: Seq<int>,
    omega: int,
    n: nat,
    beta: int,
    gamma: int,
)
    requires
        wires.len() == shifts.len(),
        wires.len() == permutations.len(),
        is_grand_product::<F>(
            z,
            copy_numerators::<F>(wires, shifts, omega, n, beta, gamma),
            copy_denominators(wires, permutations, n, beta, gamma),
        ),
        placed_cells::<F>(wires, shifts, omega, n).to_multiset() == permuted_cells(
            wires,
            permutations,
            n,
        ).to_multiset(),
    ensures
        red::<F>(z.last()) == 1,
{
    let nums = copy_numerators::<F>(wires, shifts, omega, n, beta, gamma);
    let dens = copy_denominators(wires, permutations, n, beta, gamma);
    law_grand_product_ends::<F>(z, nums, dens);
    lemma_numerators_product::<F>(wires, shifts, omega, n, beta, gamma);
    lemma_denominators_product(wires, permutations, n, beta, gamma);
    lemma_cells_reordered(
        placed_cells::<F>(wires, shifts, omega, n),
        permuted_cells(wires, permutations, n),
        beta,
        gamma,
    );
    assert forall|i: int| 0 <= i < dens.len() implies #[trigger] invertible::<F>(dens[i]) by {
        assert(red::<F>(z[i + 1] * dens[i]) == red::<F>(z[i] * nums[i]));
    }
    lemma_product_invertible::<F>(dens);
    lemma_red_small::<F>();
    let p = product(dens);
    let (x, y) = (z.last(), inv::<F>(p));
    assert(red::<F>(x * p) == red::<F>(p));
    lemma_red_mul::<F>(x * p, y, p, y);
    assert((x * p) * y == x * (p * y)) by (nonlinear_arith);
    lemma_red_mul::<F>(x, p * y, x, 1);
}

/// The terms of the copy-permutation argument vanish on every row, if the grand
/// product ends with one and the last row of the domain is not permuted.
pub proof fn law_copy_rows<F: PrimeField>(
    z: Seq<int>,
    numerators: Seq<int>,
    denominators: Seq<int>,
    row: Row,
    w: Weights,
    i: int,
    a0: int,
    a1: int,
)
    requires
        is_grand_product::<F>(z, numerators, denominators),
        red::<F>(z.last()) == 1,
        0 <= i < z.len(),
        red::<F>(row.z) == red::<F>(z[i]),
        red::<F>(row.z_next) == red::<F>(
            if i + 1 < z.len() {
                z[i + 1]
            } else {
                z[0]
            },
        ),
        red::<F>(row.l_0) == if i == 0 {
            1int
        } else {
            0
        },
        ({
            let p = perm_product(row.wires, coset_row::<F>(row.x, w.shifts), w.beta, w.gamma);
            let q = perm_product(row.wires, row.permutations, w.beta, w.gamma);
            if i + 1 < z.len() {
                &&& red::<F>(p) == red::<F>(numerators[i])
                &&& red::<F>(q) == red::<F>(denominators[i])
            } else {
                red::<F>(p) == red::<F>(q)
            }
        }),
    ensures
        red::<F>(copy_terms::<F>(row, w, a0, a1)) == 0,
{
    let p = perm_product(row.wires, coset_row::<F>(row.x, w.shifts), w.beta, w.gamma);
    let q = perm_product(row.wires, row.permutations, w.beta, w.gamma);
    let (u, v) = (row.z * p, row.z_next * q);
    lemma_red_small::<F>();
    if i + 1 < z.len() {
        lemma_red_mul::<F>(row.z, p, z[i], numerators[i]);
        lemma_red_mul::<F>(row.z_next, q, z[i + 1], denominators[i]);
        assert(red::<F>(z[i + 1] * denominators[i]) == red::<F>(z[i] * numerators[i]));
    } else {
        lemma_red_mul::<F>(row.z, p, 1, q);
        lemma_red_mul::<F>(row.z_next, q, 1, q);
    }
    assert(red::<F>(u) == red::<F>(v));
    lemma_red_mul::<F>(a0, u, a0, v);
    lemma_red_sub::<F>(a0 * u, a0 * v, a0 * v, a0 * v);
    // the first entry is one
    let t = (row.z - 1) * row.l_0;
    lemma_red_sub::<F>(row.z, 1, z[i], 1);
    if i == 0 {
        lemma_red_mul::<F>(row.z - 1, row.l_0, 0, row.l_0);
        assert(0 * row.l_0 == 0);
    } else {
        lemma_red_mul::<F>(row.z - 1, row.l_0, row.z - 1, 0);
        assert((row.z - 1) * 0 == 0);
    }
    lemma_red_mul::<F>(a1, t, a1, 0);
    assert(a1 * 0 == 0);
    lemma_red_add::<F>(a0 * u - a0 * v, a1 * t, 0, 0);
}

/// The terms of the lookup argument vanish on every row, if its grand product
/// ends with the expected value.
pub proof fn law_lookup_rows<F: PrimeField>(
    z: Seq<int>,
    f: Seq<int>,
    t: Seq<int>,
    t_next: Seq<int>,
    s: Seq<int>,
    s_next: Seq<int>,
    row: Row,
    l: LookupRow,
    w: LookupWeights,
    i: int,
    a0: int,
    a1: int,
    a2: int,
)
    requires
        t.len() == f.len(),
        t_next.len() == f.len(),
        s.len() == f.len(),
        s_next.len() == f.len(),
        is_grand_product::<F>(
            z,
            lookup_numerators(f, t, t_next, w.beta, w.gamma),
            lookup_denominators(s, s_next, w.beta, w.gamma),
        ),
        red::<F>(z.last()) == red::<F>(w.expected),
        0 <= i < z.len(),
        red::<F>(l.z) == red::<F>(z[i]),
        red::<F>(row.l_0) == if i == 0 {
            1int
        } else {
            0
        },
        red::<F>(l.l_last) == if i + 1 == z.len() {
            1int
        } else {
            0
        },
        if i + 1 < z.len() {
            &&& red::<F>(l.z_next) == red::<F>(z[i + 1])
            &&& red::<F>(lookup_query(row.wires, l.table_type, l.selector, w.eta)) == red::<F>(
                f[i],
            )
            &&& red::<F>(l.t) == red::<F>(t[i])
            &&& red::<F>(l.t_next) == red::<F>(t_next[i])
            &&& red::<F>(l.s) == red::<F>(s[i])
            &&& red::<F>(l.s_next) == red::<F>(s_next[i])
        } else {
            red::<F>(row.x) == red::<F>(w.last_omega)
        },
    ensures
        red::<F>(lookup_terms(row, l, w, a0, a1, a2)) == 0,
{
    let (b, g) = (w.beta, w.gamma);
    let query = lookup_query(row.wires, l.table_type, l.selector, w.eta);
    let ds = lookup_denominator(l.s, l.s_next, b, g);
    let dt = lookup_denominator(l.t, l.t_next, b, g);
    let left = ds * l.z_next;
    let right = (query + g) * l.z * (b + 1) * dt;
    let diff = left - right;
    let step = row.x - w.last_omega;
    lemma_red_small::<F>();
    if i + 1 < z.len() {
        lemma_denominator_congruent::<F>(l.s, l.s_next, s[i], s_next[i], b, g);
        lemma_denominator_congruent::<F>(l.t, l.t_next, t[i], t_next[i], b, g);
        let (es, et) = (
            lookup_denominator(s[i], s_next[i], b, g),
            lookup_denominator(t[i], t_next[i], b, g),
        );
        lemma_red_mul::<F>(ds, l.z_next, es, z[i + 1]);
        lemma_red_add::<F>(query, g, f[i], g);
        lemma_red_mul::<F>(query + g, l.z, f[i] + g, z[i]);
        lemma_red_mul::<F>((query + g) * l.z, b + 1, (f[i] + g) * z[i], b + 1);
        lemma_red_mul::<F>(
            (query + g) * l.z * (b + 1),
            dt,
            (f[i] + g) * z[i] * (b + 1),
            et,
        );
        let num = lookup_numerators(f, t, t_next, b, g)[i];
        assert(red::<F>(z[i + 1] * lookup_denominators(s, s_next, b, g)[i]) == red::<F>(
            z[i] * num,
        ));
        let (x, y, v) = (f[i] + g, z[i], b + 1);
        assert(x * y * v * et == y * (et * (x * v))) by (nonlinear_arith);
        assert(es * z[i + 1] == z[i + 1] * es) by (nonlinear_arith);
        lemma_red_sub::<F>(left, right, left, left);
        lemma_red_mul::<F>(diff, a0, 0, a0);
        assert(0 * a0 == 0);
        lemma_red_mul::<F>(diff * a0, step, 0, step);
        assert(0 * step == 0);
    } else {
        lemma_red_sub::<F>(row.x, w.last_omega, w.last_omega, w.last_omega);
        lemma_red_mul::<F>(diff * a0, step, diff * a0, 0);
        assert((diff * a0) * 0 == 0);
    }
    assert(red::<F>(diff * a0 * step) == 0);
    // the ends
    let first = (l.z - 1) * row.l_0;
    let last = (l.z - w.expected) * l.l_last;
    lemma_red_sub::<F>(l.z, 1, z[i], 1);
    if i == 0 {
        lemma_red_mul::<F>(l.z - 1, row.l_0, 0, row.l_0);
        assert(0 * row.l_0 == 0);
    } else {
        lemma_red_mul::<F>(l.z - 1, row.l_0, l.z - 1, 0);
        assert((l.z - 1) * 0 == 0);
    }
    if i + 1 == z.len() {
        lemma_red_sub::<F>(l.z, w.expected, w.expected, w.expected);
        lemma_red_mul::<F>(l.z - w.expected, l.l_last, 0, l.l_last);
        assert(0 * l.l_last == 0);
    } else {
        lemma_red_mul::<F>(l.z - w.expected, l.l_last, l.z - w.expected, 0);
        assert((l.z - w.expected) * 0 == 0);
    }
    lemma_red_mul::<F>(a1, first, a1, 0);
    lemma_red_mul::<F>(a2, last, a2, 0);
    assert(a1 * 0 == 0 && a2 * 0 == 0);
    lemma_red_add::<F>(diff * a0 * step, a1 * first, 0, 0);
    lemma_red_add::<F>(diff * a0 * step + a1 * first, a2 * last, 0, 0);
}

/// What gate `k` asks of a row: that this is zero.
pub open spec fn gate_constraint(gates: Seq<Gate>, row: Row, k: int) -> int {
    let (q, w) = (row.setup, row.wires);
    if k > 0 {
        ((w[0] - 1) * w[0]) * row.selectors[k]
    } else {
        let main = row.constant + q[0] * w[0] + q[1] * w[1] + q[2] * w[2] + q[3] * w[3] + q[4]
            * w[0]
            * w[1] + q[5] * row.d_next;
        if gates.len() > 1 {
            main * row.selectors[0]
        } else {
            main
        }
    }
}

/// The terms of the gates vanish on a row that meets what each gate asks.
pub proof fn law_gate_rows<F: PrimeField>(gates: Seq<Gate>, row: Row, alpha: int, k: nat)
    requires
        k <= gates.len(),
        forall|j: int|
            0 <= j < k ==> red::<F>(#[trigger] gate_constraint(gates, row, j)) == 0,
    ensures
        red::<F>(gate_terms(gates, row, alpha, k)) == 0,
    decreases k,
{
    lemma_red_small::<F>();
    if k == 1 {
        assert(red::<F>(gate_constraint(gates, row, 0)) == 0);
        lemma_pow0(alpha);
        let main = main_gate(row.setup, row.wires, row.d_next, row.constant);
        assert(main * 1 == main);
    } else if k > 1 {
        law_gate_rows::<F>(gates, row, alpha, (k - 1) as nat);
        let c = gate_constraint(gates, row, k - 1);
        assert(red::<F>(c) == 0);
        let a = pow(alpha, terms_before(gates, (k - 1) as nat));
        let (b, s) = (bit_gate(row.wires[0]), row.selectors[k - 1]);
        assert((b * a) * s == (b * s) * a) by (nonlinear_arith);
        lemma_red_mul::<F>(c, a, 0, a);
        assert(0 * a == 0);
        lemma_red_add::<F>(gate_terms(gates, row, alpha, (k - 1) as nat), c * a, 0, 0);
    }
}

/// The entries of a column, each with the entry of another in the same row.
pub open spec fn paired(a: Seq<int>, b: Seq<int>) -> Seq<(int, int)> {
    Seq::new(a.len(), |i: int| (a[i], b[i]))
}

/// Rows of zeros.
pub open spec fn zero_pairs(n: nat) -> Seq<(int, int)> {
    Seq::new(n, |i: int| (0int, 0int))
}

/// The product over pairs of `a + g + beta * b` is the product of the factors.
pub proof fn lemma_pairs_product(a: Seq<int>, b: Seq<int>, beta: int, g: int, f: Seq<int>)
    requires
        a.len() == b.len(),
        f.len() == a.len(),
        forall|i: int| 0 <= i < f.len() ==> #[trigger] f[i] == a[i] + g + beta * b[i],
    ensures
        cell_product(paired(a, b), beta, g) == product(f),
    decreases a.len(),
{
    if a.len() > 0 {
        lemma_pairs_product(a.drop_last(), b.drop_last(), beta, g, f.drop_last());
        assert(paired(a, b).drop_last() =~= paired(a.drop_last(), b.drop_last()));
        assert(f[f.len() - 1] == a[a.len() - 1] + g + beta * b[a.len() - 1]);
    }
}

/// Rows of zeros contribute a power.
pub proof fn lemma_zero_pairs(n: nat, beta: int, g: int)
    ensures
        cell_product(zero_pairs(n), beta, g) == pow(g, n),
    decreases n,
{
    reveal(pow);
    if n > 0 {
        lemma_zero_pairs((n - 1) as nat, beta, g);
        assert(zero_pairs(n).drop_last() =~= zero_pairs((n - 1) as nat));
        assert(beta * 0 == 0);
        let p = pow(g, (n - 1) as nat);
        assert(p * g == g * p) by (nonlinear_arith);
    }
}

/// The numerators of the lookup argument multiply up to the product over the
/// looked up entries, each twice, and the neighbours in the tables.
pub proof fn lemma_lookup_numerators_product(
    f: Seq<int>,
    t: Seq<int>,
    t_next: Seq<int>,
    beta: int,
    gamma: int,
)
    requires
        t.len() == f.len(),
        t_next.len() == f.len(),
    ensures
        product(lookup_numerators(f, t, t_next, beta, gamma)) == cell_product(
            paired(f, f) + paired(t, t_next),
            beta,
            gamma_beta(beta, gamma),
        ),
    decreases f.len(),
{
    let g = gamma_beta(beta, gamma);
    lemma_cells_concat(paired(f, f), paired(t, t_next), beta, g);
    if f.len() > 0 {
        let (f1, t1, u1) = (f.drop_last(), t.drop_last(), t_next.drop_last());
        let all = lookup_numerators(f, t, t_next, beta, gamma);
        lemma_lookup_numerators_product(f1, t1, u1, beta, gamma);
        lemma_cells_concat(paired(f1, f1), paired(t1, u1), beta, g);
        assert(all.drop_last() =~= lookup_numerators(f1, t1, u1, beta, gamma));
        assert(paired(f, f).drop_last() =~= paired(f1, f1));
        assert(paired(t, t_next).drop_last() =~= paired(t1, u1));
        let (x, a, b) = (f.last(), t.last(), t_next.last());
        let (p, q) = (cell_product(paired(f1, f1), beta, g), cell_product(paired(t1, u1), beta, g));
        let (u, v) = (x + g + beta * x, a + g + beta * b);
        assert(u == (x + gamma) * (beta + 1)) by (nonlinear_arith)
            requires
                u == x + g + beta * x,
                g == gamma * (beta + 1),
        ;
        assert((p * q) * (v * u) == (p * u) * (q * v)) by (nonlinear_arith);
        assert(all.last() == (a + beta * b + g) * ((x + gamma) * (beta + 1)));
    }
}

/// A witness that respects the tables closes the lookup grand product: if the
/// neighbours in the sorted column, with as many zeros as there are rows, are the
/// looked up entries, each twice, and the neighbours in the tables, then the
/// grand product ends with the power of `gamma * (beta + 1)` that the number of
/// rows asks for.
pub proof fn law_lookup_tables<F: PrimeField>(
    z: Seq<int>,
    f: Seq<int>,
    t: Seq<int>,
    t_next: Seq<int>,
    s: Seq<int>,
    s_next: Seq<int>,
    beta: int,
    gamma: int,
)
    requires
        t.len() == f.len(),
        t_next.len() == f.len(),
        s.len() == f.len(),
        s_next.len() == f.len(),
        is_grand_product::<F>(
            z,
            lookup_numerators(f, t, t_next, beta, gamma),
            lookup_denominators(s, s_next, beta, gamma),
        ),
        (paired(f, f) + paired(t, t_next)).to_multiset() == (paired(s, s_next) + zero_pairs(
            f.len(),
        )).to_multiset(),
    ensures
        red::<F>(z.last()) == red::<F>(pow(gamma_beta(beta, gamma), f.len())),
{
    let g = gamma_beta(beta, gamma);
    let nums = lookup_numerators(f, t, t_next, beta, gamma);
    let dens = lookup_denominators(s, s_next, beta, gamma);
    law_grand_product_ends::<F>(z, nums, dens);
    lemma_lookup_numerators_product(f, t, t_next, beta, gamma);
    lemma_pairs_product(s, s_next, beta, g, dens);
    lemma_zero_pairs(f.len(), beta, g);
    lemma_cells_concat(paired(s, s_next), zero_pairs(f.len()), beta, g);
    lemma_cells_reordered(
        paired(f, f) + paired(t, t_next),
        paired(s, s_next) + zero_pairs(f.len()),
        beta,
        g,
    );
    assert forall|i: int| 0 <= i < dens.len() implies #[trigger] invertible::<F>(dens[i]) by {
        assert(red::<F>(z[i + 1] * dens[i]) == red::<F>(z[i] * nums[i]));
    }
    lemma_product_invertible::<F>(dens);
    lemma_red_small::<F>();
    let p = product(dens);
    let (x, y, e) = (z.last(), inv::<F>(p), pow(g, f.len()));
    assert(red::<F>(x * p) == red::<F>(p * e));
    lemma_red_mul::<F>(x * p, y, p * e, y);
    assert((x * p) * y == x * (p * y)) by (nonlinear_arith);
    assert((p * e) * y == e * (p * y)) by (nonlinear_arith);
    lemma_red_mul::<F>(x, p * y, x, 1);
    lemma_red_mul::<F>(e, p * y, e, 1);
}

} // verus!
