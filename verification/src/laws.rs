//! What holds across the steps of the argument.

use crate::bits::{lemma_reversed_bound, lemma_reversed_involutive, reversed, shifted_index};
use crate::circuit::SortedGateQueries;
use crate::closing_rounds::{weights_of, Opened, OpeningsCombined, Proof};
use crate::contributions::{inputs_at, known_contributions, main_linear_terms};
use crate::domain::{
    domain_generator, generates, lagrange_at, lagrange_defined, lagrange_poly,
    lemma_domain_generators, lemma_generates_cyclic, lemma_generates_order, Domain,
};
use crate::fft::{lemma_eval_point_congruent, lemma_half};
use crate::field::{
    inv, invertible, lemma_inv_unique, lemma_red_add, lemma_red_mul, lemma_red_pow,
    lemma_red_range, lemma_red_small, lemma_red_sub, lemma_val_red, red, vals, PrimeField,
};
use crate::gates::{bit_gate, main_gate, terms_before, Gate};
use crate::linearization::{
    at_z, copy_leftover, copy_linear_terms, gate_linear_terms, linear_terms, lookup_leftover,
    lookup_linear_terms, numerator_from_openings, opened, quotient_value, AtZ, GateContribution,
    GateContributions, Openings, ProverPolynomials,
};
use crate::lookup::{gamma_beta, lookup_denominator};
use crate::opening::{is_division, terms_at_z, terms_at_z_omega, OpeningPolynomials};
use crate::permutation::{coset_row, is_grand_product, perm_product};
use crate::polynomial::{
    columns, combine_eval, eval, lemma_eval_congruent, lemma_represents_eval, power_terms, product,
    represents,
};
use crate::quotient::{
    copy_terms, coset_lde_row, coset_point, gate_terms, is_numerator_quotient, lookup_query,
    lookup_terms, numerator, optional_lookup_terms, parts_of, supported, Ldes, LookupRow,
    LookupWeights, Row, Weights,
};
use crate::session::{
    lookup_values, optional_challenge, optional_challenges, optional_point, points, scalars,
    setup_values, Drawn, TranscriptItem,
};
use vstd::arithmetic::power::*;
use vstd::arithmetic::power2::*;
use vstd::prelude::*;

verus! {

/// The quotients of Horner's scheme.
pub open spec fn horner(f: Seq<int>, a: int) -> Seq<int> {
    Seq::new(f.len(), |k: int| eval(f.skip(k + 1), a))
}

/// A polynomial is its quotient by `X - a`, times `X - a`, plus its value at `a`.
pub proof fn lemma_horner(f: Seq<int>, a: int, x: int)
    ensures
        eval(horner(f, a), x) * (x - a) + eval(f, a) == eval(f, x),
    decreases f.len(),
{
    if f.len() == 0 {
        assert(0 * (x - a) == 0);
    } else {
        let g = f.skip(1);
        lemma_horner(g, a, x);
        assert(horner(f, a).skip(1) =~= horner(g, a)) by {
            assert forall|k: int| 0 <= k < g.len() implies #[trigger] horner(f, a).skip(1)[k]
                == horner(g, a)[k] by {
                assert(f.skip(k + 2) =~= g.skip(k + 1));
            }
        }
        let (e, q) = (eval(g, a), eval(horner(g, a), x));
        assert(f.skip(1) =~= g);
        assert(horner(f, a)[0] == e);
        assert((e + x * q) * (x - a) + (f[0] + a * e) == f[0] + x * (q * (x - a) + e))
            by (nonlinear_arith);
    }
}

/// The opening polynomials witness the openings: a polynomial is its quotient by
/// `X - at`, times `X - at`, plus its value at `at`.
pub proof fn law_division<F: PrimeField>(q: Seq<F>, f: Seq<F>, at: int, x: int)
    requires
        is_division(q, f, at),
    ensures
        red::<F>(eval(vals(q), x) * (x - at) + eval(vals(f), at)) == red::<F>(eval(vals(f), x)),
{
    let h = horner(vals(f), at);
    assert forall|k: int| 0 <= k < h.len() implies red::<F>(#[trigger] vals(q)[k]) == red::<F>(
        h[k],
    ) by {
        assert(q[k].val() == red::<F>(h[k]));
        lemma_red_range::<F>(h[k]);
    }
    lemma_eval_congruent::<F>(vals(q), h, x);
    lemma_horner(vals(f), at, x);
    lemma_red_mul::<F>(eval(vals(q), x), x - at, eval(h, x), x - at);
    lemma_red_add::<F>(
        eval(vals(q), x) * (x - at),
        eval(vals(f), at),
        eval(h, x) * (x - at),
        eval(vals(f), at),
    );
}

/// The value of a polynomial that is written in two pieces.
pub proof fn lemma_eval_concat(a: Seq<int>, b: Seq<int>, x: int)
    ensures
        eval(a + b, x) == eval(a, x) + pow(x, a.len()) * eval(b, x),
    decreases a.len(),
{
    if a.len() == 0 {
        lemma_pow0(x);
        assert(a + b =~= b);
        assert(1 * eval(b, x) == eval(b, x));
    } else {
        let a1 = a.skip(1);
        lemma_eval_concat(a1, b, x);
        assert((a + b).skip(1) =~= a1 + b);
        lemma_pow_adds(x, 1, a1.len());
        lemma_pow1(x);
        let (e, p, g) = (eval(a1, x), pow(x, a1.len()), eval(b, x));
        assert(a[0] + x * (e + p * g) == (a[0] + x * e) + (x * p) * g) by (nonlinear_arith);
    }
}

/// The parts of the quotient, each scaled by the power of `x` that it starts
/// with, make up the quotient.
pub proof fn law_quotient_from_parts<F: PrimeField>(
    parts: Seq<Vec<F>>,
    c: Seq<F>,
    n: nat,
    x: int,
)
    requires
        parts_of(parts, c, n as int),
    ensures
        quotient_value(columns(parts), x, n) == eval(vals(c), x),
    decreases parts.len(),
{
    let y = pow(x, n);
    let terms = power_terms(columns(parts), y, 0);
    if parts.len() == 0 {
        assert(0 * n == 0);
        assert(vals(c) =~= Seq::<int>::empty());
    } else {
        let k = (parts.len() - 1) as int;
        assert((k + 1) * n == k * n + n) by (nonlinear_arith);
        assert(k * n >= 0) by (nonlinear_arith)
            requires
                k >= 0,
                n >= 0,
        ;
        let (head, tail) = (c.subrange(0, k * n), c.subrange(k * n, (k + 1) * n));
        let fewer = parts.drop_last();
        assert forall|i: int| 0 <= i < fewer.len() implies (#[trigger] fewer[i])@ == head.subrange(
            i * n,
            (i + 1) * n,
        ) by {
            assert(parts[i]@ == c.subrange(i * n, (i + 1) * n));
            assert(0 <= i * n && i * n <= (i + 1) * n && (i + 1) * n <= k * n) by (nonlinear_arith)
                requires
                    0 <= i,
                    i + 1 <= k,
                    n >= 0,
            ;
            assert(c.subrange(i * n, (i + 1) * n) =~= head.subrange(i * n, (i + 1) * n));
        }
        law_quotient_from_parts(fewer, head, n, x);
        assert(terms.drop_last() =~= power_terms(columns(fewer), y, 0));
        assert(vals(c) =~= vals(head) + vals(tail));
        lemma_eval_concat(vals(head), vals(tail), x);
        lemma_pow_multiplies(x, n, k as nat);
        assert(n * k == k * n) by (nonlinear_arith);
        assert(parts[k]@ == tail);
        assert(terms.last() == (pow(y, k as nat), vals(tail)));
    }
}

/// A grand product ends with the product of all numerators over the product of
/// all denominators.
pub proof fn law_grand_product_ends<F: PrimeField>(
    z: Seq<int>,
    numerators: Seq<int>,
    denominators: Seq<int>,
)
    requires
        is_grand_product::<F>(z, numerators, denominators),
    ensures
        red::<F>(z.last() * product(denominators)) == red::<F>(product(numerators)),
    decreases numerators.len(),
{
    let n = numerators.len() as int;
    if n > 0 {
        let (z1, a1, d1) = (z.drop_last(), numerators.drop_last(), denominators.drop_last());
        assert forall|i: int| 0 <= i < a1.len() implies {
            &&& red::<F>(#[trigger] z1[i + 1] * d1[i]) == red::<F>(z1[i] * a1[i])
            &&& invertible::<F>(d1[i])
        } by {
            assert(red::<F>(z[i + 1] * denominators[i]) == red::<F>(z[i] * numerators[i]));
        }
        law_grand_product_ends::<F>(z1, a1, d1);
        let (d, a) = (denominators[n - 1], numerators[n - 1]);
        let (pd, pa) = (product(d1), product(a1));
        let (x, y) = (z[n], z[n - 1]);
        assert(red::<F>(z[(n - 1) + 1] * d) == red::<F>(y * a));
        assert(z1.last() == y);
        lemma_red_mul::<F>(x * d, pd, y * a, pd);
        lemma_red_mul::<F>(y * pd, a, pa, a);
        assert(x * (pd * d) == (x * d) * pd) by (nonlinear_arith);
        assert((y * a) * pd == (y * pd) * a) by (nonlinear_arith);
    } else {
        assert(product(denominators) == 1 && product(numerators) == 1);
    }
}

/// The order of a domain has an inverse.
proof fn lemma_size_invertible<F: PrimeField>(k: nat)
    ensures
        invertible::<F>(pow2(k) as int),
{
    let h = lemma_half::<F>();
    let n = pow2(k) as int;
    let p = pow(h, k);
    lemma_red_small::<F>();
    lemma_pow2(k);
    lemma_pow_distributes(2, h, k);
    lemma_red_pow::<F>(2 * h, 1, k);
    lemma1_pow(k);
    lemma_red_range::<F>(p);
    lemma_red_mul::<F>(n, red::<F>(p), n, p);
    lemma_inv_unique::<F>(n, red::<F>(p));
}

/// A polynomial with coefficients `s * r^j` is `s` times a geometric sum.
proof fn lemma_eval_geometric(c: Seq<int>, s: int, r: int, x: int)
    requires
        forall|j: int| 0 <= j < c.len() ==> #[trigger] c[j] == s * pow(r, j as nat),
    ensures
        eval(c, x) * (r * x - 1) == s * (pow(r * x, c.len()) - 1),
    decreases c.len(),
{
    let n = c.len();
    if n == 0 {
        lemma_pow0(r * x);
        assert(0 * (r * x - 1) == 0 && s * (1 - 1) == 0) by (nonlinear_arith);
    } else {
        let d = c.drop_last();
        let e = (n - 1) as nat;
        lemma_eval_geometric(d, s, r, x);
        assert(c =~= d + seq![c.last()]);
        lemma_eval_concat(d, seq![c.last()], x);
        assert(seq![c.last()].skip(1) =~= Seq::<int>::empty());
        assert(eval(seq![c.last()].skip(1), x) == 0);
        assert(eval(seq![c.last()], x) == c.last() + x * 0);
        assert(c[n - 1] == s * pow(r, e));
        lemma_pow_distributes(r, x, e);
        lemma_pow_adds(r * x, e, 1);
        lemma_pow1(r * x);
        let (pr, px, y) = (pow(r, e), pow(x, e), r * x);
        let p = pow(y, e);
        let ed = eval(d, x);
        assert(px * (s * pr) == s * p) by (nonlinear_arith)
            requires
                p == pr * px,
        ;
        assert((ed + s * p) * (y - 1) == s * (p * y - 1)) by (nonlinear_arith)
            requires
                ed * (y - 1) == s * (p - 1),
        ;
    }
}

/// The quotient form of a Lagrange polynomial has the value of the polynomial
/// itself, wherever it is defined.
pub proof fn law_lagrange_forms_agree<F: PrimeField>(omega: int, k: nat, i: nat, x: int)
    requires
        generates::<F>(omega, k),
        i < pow2(k),
        lagrange_defined::<F>(red::<F>(pow(omega, i)), pow2(k), x),
    ensures
        red::<F>(eval(lagrange_poly::<F>(omega, pow2(k), i), x)) == lagrange_at::<F>(
            red::<F>(pow(omega, i)),
            pow2(k),
            x,
        ),
{
    let n = pow2(k);
    let node = red::<F>(pow(omega, i));
    let r = red::<F>(pow(omega, (n - i) as nat));
    let s = inv::<F>(n as int);
    let c = lagrange_poly::<F>(omega, n, i);
    let d = Seq::new(n, |j: int| s * pow(r, j as nat));
    lemma_red_small::<F>();
    assert forall|j: int| 0 <= j < n implies red::<F>(#[trigger] c[j]) == red::<F>(d[j]) by {
        lemma_red_range::<F>(d[j]);
    }
    lemma_eval_congruent::<F>(c, d, x);
    lemma_eval_geometric(d, s, r, x);
    let v = eval(d, x);
    let y = r * x;
    // r is the inverse of the node
    lemma_red_range::<F>(pow(omega, i));
    lemma_red_range::<F>(pow(omega, (n - i) as nat));
    lemma_red_mul::<F>(r, node, pow(omega, (n - i) as nat), pow(omega, i));
    lemma_pow_adds(omega, (n - i) as nat, i);
    lemma_generates_order::<F>(omega, k);
    assert(red::<F>(r * node) == 1);
    // x - node is node * (r * x - 1)
    assert(node * (y - 1) == x * (r * node) - node) by (nonlinear_arith)
        requires
            y == r * x,
    ;
    lemma_red_mul::<F>(x, r * node, x, 1);
    lemma_red_sub::<F>(x * (r * node), node, x, node);
    assert(red::<F>(node * (y - 1)) == red::<F>(x - node));
    // r to the order is one
    lemma_red_pow::<F>(r, pow(omega, (n - i) as nat), n);
    lemma_pow_multiplies(omega, (n - i) as nat, n);
    lemma_pow_multiplies(omega, n, (n - i) as nat);
    assert((n - i) as nat * n == n * (n - i) as nat) by (nonlinear_arith);
    lemma_red_pow::<F>(pow(omega, n), 1, (n - i) as nat);
    lemma1_pow((n - i) as nat);
    assert(red::<F>(pow(r, n)) == 1);
    lemma_pow_distributes(r, x, n);
    lemma_red_mul::<F>(pow(r, n), pow(x, n), 1, pow(x, n));
    lemma_red_sub::<F>(pow(y, n), 1, pow(x, n), 1);
    // cleared of denominators
    let big = (x - node) * n;
    lemma_size_invertible::<F>(k);
    lemma_red_mul::<F>(v * n, x - node, v * n, node * (y - 1));
    assert(v * big == (v * n) * (x - node)) by (nonlinear_arith)
        requires
            big == (x - node) * n,
    ;
    assert((v * n) * (node * (y - 1)) == (n * node) * (v * (y - 1))) by (nonlinear_arith);
    assert((n * node) * (s * (pow(y, n) - 1)) == (n * s) * (node * (pow(y, n) - 1)))
        by (nonlinear_arith);
    lemma_red_mul::<F>(node, pow(y, n) - 1, node, pow(x, n) - 1);
    lemma_red_mul::<F>(n * s, node * (pow(y, n) - 1), 1, node * (pow(x, n) - 1));
    let a = node * (pow(x, n) - 1);
    assert(red::<F>(v * big) == red::<F>(a));
    // divided by the denominator
    let j = inv::<F>(red::<F>(big));
    lemma_red_range::<F>(big);
    lemma_red_mul::<F>(big, j, red::<F>(big), j);
    lemma_red_mul::<F>(v, big * j, v, 1);
    assert(v * (big * j) == (v * big) * j) by (nonlinear_arith);
    lemma_red_mul::<F>(v * big, j, a, j);
}

/// The entries of two sequences are congruent.
pub open spec fn congruent<F: PrimeField>(a: Seq<int>, b: Seq<int>) -> bool {
    &&& a.len() == b.len()
    &&& forall|j: int| 0 <= j < a.len() ==> red::<F>(#[trigger] a[j]) == red::<F>(b[j])
}

/// The entries of two rows of the lookup argument are congruent.
pub open spec fn lookup_rows_congruent<F: PrimeField>(a: LookupRow, b: LookupRow) -> bool {
    &&& red::<F>(a.z) == red::<F>(b.z)
    &&& red::<F>(a.z_next) == red::<F>(b.z_next)
    &&& red::<F>(a.s) == red::<F>(b.s)
    &&& red::<F>(a.s_next) == red::<F>(b.s_next)
    &&& red::<F>(a.t) == red::<F>(b.t)
    &&& red::<F>(a.t_next) == red::<F>(b.t_next)
    &&& red::<F>(a.table_type) == red::<F>(b.table_type)
    &&& red::<F>(a.selector) == red::<F>(b.selector)
    &&& red::<F>(a.l_last) == red::<F>(b.l_last)
}

/// The entries of two rows are congruent.
pub open spec fn rows_congruent<F: PrimeField>(a: Row, b: Row) -> bool {
    &&& red::<F>(a.x) == red::<F>(b.x)
    &&& red::<F>(a.constant) == red::<F>(b.constant)
    &&& congruent::<F>(a.wires, b.wires)
    &&& red::<F>(a.d_next) == red::<F>(b.d_next)
    &&& congruent::<F>(a.setup, b.setup)
    &&& congruent::<F>(a.selectors, b.selectors)
    &&& red::<F>(a.z) == red::<F>(b.z)
    &&& red::<F>(a.z_next) == red::<F>(b.z_next)
    &&& congruent::<F>(a.permutations, b.permutations)
    &&& red::<F>(a.l_0) == red::<F>(b.l_0)
    &&& a.lookup is Some <==> b.lookup is Some
    &&& match (a.lookup, b.lookup) {
        (Some(l), Some(m)) => lookup_rows_congruent::<F>(l, m),
        _ => true,
    }
}

/// A row has the columns that the circuit's gates need.
pub open spec fn row_shaped(gates: Seq<Gate>, row: Row) -> bool {
    &&& row.wires.len() == 4
    &&& row.setup.len() == 6
    &&& row.permutations.len() == 4
    &&& gates.len() > 1 ==> row.selectors.len() == gates.len()
}

/// Congruent wires and points give congruent products.
pub proof fn lemma_perm_product_congruent<F: PrimeField>(
    w1: Seq<int>,
    p1: Seq<int>,
    w2: Seq<int>,
    p2: Seq<int>,
    beta: int,
    gamma: int,
)
    requires
        congruent::<F>(w1, w2),
        congruent::<F>(p1, p2),
        w1.len() == p1.len(),
    ensures
        red::<F>(perm_product(w1, p1, beta, gamma)) == red::<F>(
            perm_product(w2, p2, beta, gamma),
        ),
    decreases w1.len(),
{
    if w1.len() > 0 {
        let k = w1.len() - 1;
        let (v1, q1, v2, q2) = (w1.drop_last(), p1.drop_last(), w2.drop_last(), p2.drop_last());
        assert forall|j: int| 0 <= j < v1.len() implies red::<F>(#[trigger] v1[j]) == red::<F>(
            v2[j],
        ) by {
            assert(red::<F>(w1[j]) == red::<F>(w2[j]));
        }
        assert forall|j: int| 0 <= j < q1.len() implies red::<F>(#[trigger] q1[j]) == red::<F>(
            q2[j],
        ) by {
            assert(red::<F>(p1[j]) == red::<F>(p2[j]));
        }
        lemma_perm_product_congruent::<F>(v1, q1, v2, q2, beta, gamma);
        assert(red::<F>(w1[k]) == red::<F>(w2[k]));
        assert(red::<F>(p1[k]) == red::<F>(p2[k]));
        lemma_red_mul::<F>(beta, p1[k], beta, p2[k]);
        lemma_red_add::<F>(w1[k], gamma, w2[k], gamma);
        lemma_red_add::<F>(w1[k] + gamma, beta * p1[k], w2[k] + gamma, beta * p2[k]);
        lemma_red_mul::<F>(
            perm_product(v1, q1, beta, gamma),
            w1[k] + gamma + beta * p1[k],
            perm_product(v2, q2, beta, gamma),
            w2[k] + gamma + beta * p2[k],
        );
    }
}

proof fn lemma_main_gate_congruent<F: PrimeField>(a: Row, b: Row)
    requires
        rows_congruent::<F>(a, b),
        a.wires.len() == 4,
        a.setup.len() == 6,
    ensures
        red::<F>(main_gate(a.setup, a.wires, a.d_next, a.constant)) == red::<F>(
            main_gate(b.setup, b.wires, b.d_next, b.constant),
        ),
{
    let (q, w, r, v) = (a.setup, a.wires, b.setup, b.wires);
    assert forall|j: int| 0 <= j < 6 implies red::<F>(#[trigger] q[j]) == red::<F>(r[j]) by {}
    assert forall|j: int| 0 <= j < 4 implies red::<F>(#[trigger] w[j]) == red::<F>(v[j]) by {}
    lemma_red_mul::<F>(q[0], w[0], r[0], v[0]);
    lemma_red_mul::<F>(q[1], w[1], r[1], v[1]);
    lemma_red_mul::<F>(q[2], w[2], r[2], v[2]);
    lemma_red_mul::<F>(q[3], w[3], r[3], v[3]);
    lemma_red_mul::<F>(q[4], w[0], r[4], v[0]);
    lemma_red_mul::<F>(q[4] * w[0], w[1], r[4] * v[0], v[1]);
    lemma_red_mul::<F>(q[5], a.d_next, r[5], b.d_next);
    let (s0, t0) = (a.constant + q[0] * w[0], b.constant + r[0] * v[0]);
    lemma_red_add::<F>(a.constant, q[0] * w[0], b.constant, r[0] * v[0]);
    let (s1, t1) = (s0 + q[1] * w[1], t0 + r[1] * v[1]);
    lemma_red_add::<F>(s0, q[1] * w[1], t0, r[1] * v[1]);
    let (s2, t2) = (s1 + q[2] * w[2], t1 + r[2] * v[2]);
    lemma_red_add::<F>(s1, q[2] * w[2], t1, r[2] * v[2]);
    let (s3, t3) = (s2 + q[3] * w[3], t2 + r[3] * v[3]);
    lemma_red_add::<F>(s2, q[3] * w[3], t2, r[3] * v[3]);
    let (s4, t4) = (s3 + q[4] * w[0] * w[1], t3 + r[4] * v[0] * v[1]);
    lemma_red_add::<F>(s3, q[4] * w[0] * w[1], t3, r[4] * v[0] * v[1]);
    lemma_red_add::<F>(s4, q[5] * a.d_next, t4, r[5] * b.d_next);
}

proof fn lemma_gate_terms_congruent<F: PrimeField>(
    gates: Seq<Gate>,
    a: Row,
    b: Row,
    alpha: int,
    k: nat,
)
    requires
        rows_congruent::<F>(a, b),
        row_shaped(gates, a),
        k <= gates.len(),
    ensures
        red::<F>(gate_terms(gates, a, alpha, k)) == red::<F>(gate_terms(gates, b, alpha, k)),
    decreases k,
{
    if k == 1 {
        lemma_main_gate_congruent::<F>(a, b);
        let g = main_gate(a.setup, a.wires, a.d_next, a.constant);
        let h = main_gate(b.setup, b.wires, b.d_next, b.constant);
        let p = pow(alpha, 0);
        lemma_red_mul::<F>(g, p, h, p);
        if gates.len() > 1 {
            assert(red::<F>(a.selectors[0]) == red::<F>(b.selectors[0]));
            lemma_red_mul::<F>(g * p, a.selectors[0], h * p, b.selectors[0]);
        }
    } else if k > 1 {
        lemma_gate_terms_congruent::<F>(gates, a, b, alpha, (k - 1) as nat);
        let (x, y) = (a.wires[0], b.wires[0]);
        let p = pow(alpha, terms_before(gates, (k - 1) as nat));
        let (s, t) = (a.selectors[k - 1], b.selectors[k - 1]);
        assert(red::<F>(x) == red::<F>(y));
        assert(red::<F>(s) == red::<F>(t));
        lemma_red_sub::<F>(x, 1, y, 1);
        lemma_red_mul::<F>(x - 1, x, y - 1, y);
        lemma_red_mul::<F>(bit_gate(x), p, bit_gate(y), p);
        lemma_red_mul::<F>(bit_gate(x) * p, s, bit_gate(y) * p, t);
        lemma_red_add::<F>(
            gate_terms(gates, a, alpha, (k - 1) as nat),
            bit_gate(x) * p * s,
            gate_terms(gates, b, alpha, (k - 1) as nat),
            bit_gate(y) * p * t,
        );
    }
}

proof fn lemma_copy_terms_congruent<F: PrimeField>(
    a: Row,
    b: Row,
    w: Weights,
    a0: int,
    a1: int,
)
    requires
        rows_congruent::<F>(a, b),
        a.wires.len() == w.shifts.len(),
        a.permutations.len() == a.wires.len(),
    ensures
        red::<F>(copy_terms::<F>(a, w, a0, a1)) == red::<F>(copy_terms::<F>(b, w, a0, a1)),
{
    let (ca, cb) = (coset_row::<F>(a.x, w.shifts), coset_row::<F>(b.x, w.shifts));
    assert forall|j: int| 0 <= j < ca.len() implies red::<F>(#[trigger] ca[j]) == red::<F>(
        cb[j],
    ) by {
        lemma_red_mul::<F>(a.x, w.shifts[j], b.x, w.shifts[j]);
    }
    lemma_perm_product_congruent::<F>(a.wires, ca, b.wires, cb, w.beta, w.gamma);
    lemma_perm_product_congruent::<F>(
        a.wires,
        a.permutations,
        b.wires,
        b.permutations,
        w.beta,
        w.gamma,
    );
    let (p, q) = (
        perm_product(a.wires, ca, w.beta, w.gamma),
        perm_product(b.wires, cb, w.beta, w.gamma),
    );
    let (r, t) = (
        perm_product(a.wires, a.permutations, w.beta, w.gamma),
        perm_product(b.wires, b.permutations, w.beta, w.gamma),
    );
    lemma_red_mul::<F>(a.z, p, b.z, q);
    lemma_red_mul::<F>(a0, a.z * p, a0, b.z * q);
    lemma_red_mul::<F>(a.z_next, r, b.z_next, t);
    lemma_red_mul::<F>(a0, a.z_next * r, a0, b.z_next * t);
    lemma_red_sub::<F>(a.z, 1, b.z, 1);
    lemma_red_mul::<F>(a.z - 1, a.l_0, b.z - 1, b.l_0);
    lemma_red_mul::<F>(a1, (a.z - 1) * a.l_0, a1, (b.z - 1) * b.l_0);
    lemma_red_sub::<F>(a0 * (a.z * p), a0 * (a.z_next * r), a0 * (b.z * q), a0 * (b.z_next * t));
    lemma_red_add::<F>(
        a0 * (a.z * p) - a0 * (a.z_next * r),
        a1 * ((a.z - 1) * a.l_0),
        a0 * (b.z * q) - a0 * (b.z_next * t),
        a1 * ((b.z - 1) * b.l_0),
    );
}

/// Congruent columns give congruent denominators.
pub proof fn lemma_denominator_congruent<F: PrimeField>(
    s1: int,
    n1: int,
    s2: int,
    n2: int,
    beta: int,
    gamma: int,
)
    requires
        red::<F>(s1) == red::<F>(s2),
        red::<F>(n1) == red::<F>(n2),
    ensures
        red::<F>(lookup_denominator(s1, n1, beta, gamma)) == red::<F>(
            lookup_denominator(s2, n2, beta, gamma),
        ),
{
    let g = gamma_beta(beta, gamma);
    lemma_red_mul::<F>(beta, n1, beta, n2);
    lemma_red_add::<F>(s1, beta * n1, s2, beta * n2);
    lemma_red_add::<F>(s1 + beta * n1, g, s2 + beta * n2, g);
}

proof fn lemma_query_congruent<F: PrimeField>(
    w1: Seq<int>,
    w2: Seq<int>,
    t1: int,
    t2: int,
    s1: int,
    s2: int,
    eta: int,
)
    requires
        congruent::<F>(w1, w2),
        w1.len() == 4,
        red::<F>(t1) == red::<F>(t2),
        red::<F>(s1) == red::<F>(s2),
    ensures
        red::<F>(lookup_query(w1, t1, s1, eta)) == red::<F>(lookup_query(w2, t2, s2, eta)),
{
    assert forall|j: int| 0 <= j < 4 implies red::<F>(#[trigger] w1[j]) == red::<F>(w2[j]) by {}
    let (e2, e3) = (eta * eta, eta * eta * eta);
    lemma_red_mul::<F>(eta, w1[1], eta, w2[1]);
    lemma_red_mul::<F>(e2, w1[2], e2, w2[2]);
    lemma_red_mul::<F>(e3, t1, e3, t2);
    lemma_red_add::<F>(w1[0], eta * w1[1], w2[0], eta * w2[1]);
    let (a, b) = (w1[0] + eta * w1[1], w2[0] + eta * w2[1]);
    lemma_red_add::<F>(a, e2 * w1[2], b, e2 * w2[2]);
    let (c, d) = (a + e2 * w1[2], b + e2 * w2[2]);
    lemma_red_add::<F>(c, e3 * t1, d, e3 * t2);
    lemma_red_mul::<F>(c + e3 * t1, s1, d + e3 * t2, s2);
}

proof fn lemma_lookup_terms_congruent<F: PrimeField>(
    a: Row,
    b: Row,
    l: LookupRow,
    m: LookupRow,
    w: LookupWeights,
    a0: int,
    a1: int,
    a2: int,
)
    requires
        rows_congruent::<F>(a, b),
        lookup_rows_congruent::<F>(l, m),
        a.wires.len() == 4,
    ensures
        red::<F>(lookup_terms(a, l, w, a0, a1, a2)) == red::<F>(
            lookup_terms(b, m, w, a0, a1, a2),
        ),
{
    lemma_denominator_congruent::<F>(l.s, l.s_next, m.s, m.s_next, w.beta, w.gamma);
    lemma_denominator_congruent::<F>(l.t, l.t_next, m.t, m.t_next, w.beta, w.gamma);
    lemma_query_congruent::<F>(
        a.wires,
        b.wires,
        l.table_type,
        m.table_type,
        l.selector,
        m.selector,
        w.eta,
    );
    let (s1, s2) = (
        lookup_denominator(l.s, l.s_next, w.beta, w.gamma),
        lookup_denominator(m.s, m.s_next, w.beta, w.gamma),
    );
    let (t1, t2) = (
        lookup_denominator(l.t, l.t_next, w.beta, w.gamma),
        lookup_denominator(m.t, m.t_next, w.beta, w.gamma),
    );
    let (f1, f2) = (
        lookup_query(a.wires, l.table_type, l.selector, w.eta),
        lookup_query(b.wires, m.table_type, m.selector, w.eta),
    );
    let bp = w.beta + 1;
    lemma_red_mul::<F>(s1, l.z_next, s2, m.z_next);
    lemma_red_add::<F>(f1, w.gamma, f2, w.gamma);
    let (g1, g2) = (f1 + w.gamma, f2 + w.gamma);
    lemma_red_mul::<F>(g1, l.z, g2, m.z);
    lemma_red_mul::<F>(g1 * l.z, bp, g2 * m.z, bp);
    lemma_red_mul::<F>(g1 * l.z * bp, t1, g2 * m.z * bp, t2);
    let (d1, d2) = (s1 * l.z_next - g1 * l.z * bp * t1, s2 * m.z_next - g2 * m.z * bp * t2);
    lemma_red_sub::<F>(s1 * l.z_next, g1 * l.z * bp * t1, s2 * m.z_next, g2 * m.z * bp * t2);
    lemma_red_mul::<F>(d1, a0, d2, a0);
    lemma_red_sub::<F>(a.x, w.last_omega, b.x, w.last_omega);
    let (x1, x2) = (a.x - w.last_omega, b.x - w.last_omega);
    lemma_red_mul::<F>(d1 * a0, x1, d2 * a0, x2);
    lemma_red_sub::<F>(l.z, 1, m.z, 1);
    lemma_red_mul::<F>(l.z - 1, a.l_0, m.z - 1, b.l_0);
    lemma_red_mul::<F>(a1, (l.z - 1) * a.l_0, a1, (m.z - 1) * b.l_0);
    lemma_red_sub::<F>(l.z, w.expected, m.z, w.expected);
    lemma_red_mul::<F>(l.z - w.expected, l.l_last, m.z - w.expected, m.l_last);
    lemma_red_mul::<F>(
        a2,
        (l.z - w.expected) * l.l_last,
        a2,
        (m.z - w.expected) * m.l_last,
    );
    lemma_red_add::<F>(
        d1 * a0 * x1,
        a1 * ((l.z - 1) * a.l_0),
        d2 * a0 * x2,
        a1 * ((m.z - 1) * b.l_0),
    );
    lemma_red_add::<F>(
        d1 * a0 * x1 + a1 * ((l.z - 1) * a.l_0),
        a2 * ((l.z - w.expected) * l.l_last),
        d2 * a0 * x2 + a1 * ((m.z - 1) * b.l_0),
        a2 * ((m.z - w.expected) * m.l_last),
    );
}

/// The numerator depends on the residues of its row alone.
pub proof fn lemma_numerator_congruent<F: PrimeField>(
    gates: Seq<Gate>,
    a: Row,
    b: Row,
    w: Weights,
)
    requires
        rows_congruent::<F>(a, b),
        row_shaped(gates, a),
        w.shifts.len() == 4,
    ensures
        red::<F>(numerator::<F>(gates, a, w)) == red::<F>(numerator::<F>(gates, b, w)),
{
    let total = terms_before(gates, gates.len());
    let (a0, a1) = (pow(w.alpha, total), pow(w.alpha, total + 1));
    lemma_gate_terms_congruent::<F>(gates, a, b, w.alpha, gates.len());
    lemma_copy_terms_congruent::<F>(a, b, w, a0, a1);
    let (g1, g2) = (
        gate_terms(gates, a, w.alpha, gates.len()),
        gate_terms(gates, b, w.alpha, gates.len()),
    );
    let (c1, c2) = (copy_terms::<F>(a, w, a0, a1), copy_terms::<F>(b, w, a0, a1));
    lemma_red_add::<F>(g1, c1, g2, c2);
    match (a.lookup, b.lookup, w.lookup) {
        (Some(l), Some(m), Some(lw)) => {
            lemma_lookup_terms_congruent::<F>(
                a,
                b,
                l,
                m,
                lw,
                pow(w.alpha, total + 2),
                pow(w.alpha, total + 3),
                pow(w.alpha, total + 4),
            );
        },
        _ => {},
    }
    lemma_red_add::<F>(
        g1 + c1,
        optional_lookup_terms(a, w, total),
        g2 + c2,
        optional_lookup_terms(b, w, total),
    );
}

/// The residue of the value of a polynomial.
pub open spec fn value_at<F: PrimeField>(poly: Vec<F>, x: int) -> int {
    red::<F>(eval(vals(poly@), x))
}

/// The values at `x`, and one step on, of all polynomials that the numerator is
/// made of; the public inputs have the value `inputs` there.
pub open spec fn row_at<F: PrimeField>(
    p: ProverPolynomials<F>,
    domain: Domain<F>,
    inputs: int,
    x: int,
) -> Row {
    let m = p.monomials;
    let q = m.gate_setup@[0]@;
    let omega = domain.generator.val();
    let n = domain.size as nat;
    let next = red::<F>(x * omega);
    Row {
        x: red::<F>(x),
        constant: red::<F>(inputs + eval(vals(q[5]@), x)),
        wires: opened(m.state@, seq![0usize, 1, 2, 3], x),
        d_next: value_at(m.state@[3], next),
        setup: opened(q, seq![0usize, 1, 2, 3, 4, 6], x),
        selectors: Seq::new(m.gate_selectors@.len(), |k: int| value_at(m.gate_selectors@[k], x)),
        z: value_at(p.copy_z, x),
        z_next: value_at(p.copy_z, next),
        permutations: opened(m.permutations@, seq![0usize, 1, 2, 3], x),
        l_0: red::<F>(eval(lagrange_poly::<F>(omega, n, 0), x)),
        lookup: match p.lookup {
            Some(l) => Some(
                LookupRow {
                    z: value_at(l.z, x),
                    z_next: value_at(l.z, next),
                    s: value_at(l.s, x),
                    s_next: value_at(l.s, next),
                    t: value_at(l.t, x),
                    t_next: value_at(l.t, next),
                    table_type: value_at(l.table_type, x),
                    selector: value_at(l.selector, x),
                    l_last: red::<F>(eval(lagrange_poly::<F>(omega, n, (n - 1) as nat), x)),
                },
            ),
            None => None,
        },
    }
}

/// Sums add up.
pub proof fn lemma_combine_eval_concat(
    a: Seq<(int, Seq<int>)>,
    b: Seq<(int, Seq<int>)>,
    x: int,
)
    ensures
        combine_eval(a + b, x) == combine_eval(a, x) + combine_eval(b, x),
    decreases b.len(),
{
    if b.len() == 0 {
        assert(a + b =~= a);
    } else {
        assert((a + b).drop_last() =~= a + b.drop_last());
        assert((a + b).last() == b.last());
        lemma_combine_eval_concat(a, b.drop_last(), x);
    }
}

/// The row at `z` with the values of the polynomials that stay in the
/// linearization polynomial left unreduced.
spec fn half_open_row<F: PrimeField>(
    p: ProverPolynomials<F>,
    v: AtZ,
    d_next: int,
    inputs: int,
) -> Row {
    let m = p.monomials;
    let q = columns(m.gate_setup@[0]@);
    let z = v.z;
    Row {
        x: z,
        constant: inputs + eval(q[5], z),
        wires: v.wires,
        d_next,
        setup: seq![
            eval(q[0], z),
            eval(q[1], z),
            eval(q[2], z),
            eval(q[3], z),
            eval(q[4], z),
            eval(q[6], z),
        ],
        selectors: Seq::new(
            m.gate_selectors@.len(),
            |k: int|
                if k == 0 {
                    v.selectors[0]
                } else {
                    eval(vals(m.gate_selectors@[k]@), z)
                },
        ),
        z: eval(vals(p.copy_z@), z),
        z_next: v.z_next,
        permutations: v.permutations.push(eval(vals(m.permutations@[3]@), z)),
        l_0: v.l_0,
        lookup: match (p.lookup, v.lookup) {
            (Some(l), Some(o)) => Some(
                LookupRow {
                    z: eval(vals(l.z@), z),
                    z_next: o.z_next,
                    s: eval(vals(l.s@), z),
                    s_next: o.s_next,
                    t: o.t,
                    t_next: o.t_next,
                    table_type: o.table_type,
                    selector: o.selector,
                    l_last: o.l_last,
                },
            ),
            _ => None,
        },
    }
}

proof fn lemma_three(t: Seq<(int, Seq<int>)>, x: int)
    requires
        t.len() == 3,
    ensures
        combine_eval(t, x) == t[0].0 * eval(t[0].1, x) + t[1].0 * eval(t[1].1, x) + t[2].0 * eval(
            t[2].1,
            x,
        ),
{
    reveal_with_fuel(combine_eval, 4);
}

proof fn lemma_copy_identity(
    a0: int,
    a1: int,
    beta: int,
    gamma: int,
    p1: int,
    p2: int,
    w3: int,
    q3: int,
    z: int,
    zn: int,
    l0: int,
)
    ensures
        (a0 * p1) * z + (0 - a0 * beta * zn * p2) * q3 + (l0 * a1) * z - (a0 * zn * p2 * (w3
            + gamma) + l0 * a1) == a0 * (z * p1) - a0 * (zn * (p2 * (w3 + gamma + beta * q3)))
            + a1 * ((z - 1) * l0),
{
    let k = a0 * zn * p2;
    assert((a0 * p1) * z == a0 * (z * p1)) by (nonlinear_arith);
    assert((0 - a0 * beta * zn * p2) * q3 == -(k * (beta * q3))) by (nonlinear_arith)
        requires
            k == a0 * zn * p2,
    ;
    assert(a0 * (zn * (p2 * (w3 + gamma + beta * q3))) == k * (w3 + gamma) + k * (beta * q3))
        by (nonlinear_arith)
        requires
            k == a0 * zn * p2,
    ;
    assert((l0 * a1) * z - l0 * a1 == a1 * ((z - 1) * l0)) by (nonlinear_arith);
}

proof fn lemma_lookup_identity(
    a0: int,
    a1: int,
    a2: int,
    step: int,
    t: int,
    q: int,
    b: int,
    beta: int,
    gb: int,
    s: int,
    sn: int,
    z: int,
    zn: int,
    l0: int,
    ll: int,
    ex: int,
)
    ensures
        (zn * a0 * step) * s + ((0 - t * q * b) * a0 * step + l0 * a1 + ll * a2) * z + ((sn * beta
            + gb) * zn * a0 * step - l0 * a1 - ll * ex * a2) == ((s + beta * sn + gb) * zn - q * z
            * b * t) * a0 * step + a1 * ((z - 1) * l0) + a2 * ((z - ex) * ll),
{
    let k = a0 * step;
    let c = t * q * b;
    assert((zn * a0 * step) * s == (s * zn) * k) by (nonlinear_arith)
        requires
            k == a0 * step,
    ;
    assert(((0 - c) * a0 * step + l0 * a1 + ll * a2) * z == -((c * z) * k) + (l0 * a1) * z + (ll
        * a2) * z) by (nonlinear_arith)
        requires
            k == a0 * step,
    ;
    assert((sn * beta + gb) * zn * a0 * step == ((beta * sn + gb) * zn) * k) by (nonlinear_arith)
        requires
            k == a0 * step,
    ;
    assert(q * z * b * t == c * z) by (nonlinear_arith)
        requires
            c == t * q * b,
    ;
    let d = beta * sn + gb;
    assert(((s + d) * zn - c * z) * a0 * step == (s * zn) * k + (d * zn) * k - (c * z) * k)
        by (nonlinear_arith)
        requires
            k == a0 * step,
    ;
    assert((l0 * a1) * z - l0 * a1 == a1 * ((z - 1) * l0)) by (nonlinear_arith);
    assert((ll * a2) * z - ll * ex * a2 == a2 * ((z - ex) * ll)) by (nonlinear_arith);
}

/// The equation of the main gate from its opened and its linearized part.
proof fn lemma_main_identity(
    t: Seq<(int, Seq<int>)>,
    w: Seq<int>,
    dn: int,
    q: Seq<Seq<int>>,
    c: int,
    z: int,
    inputs: int,
)
    requires
        t == main_linear_terms(w, dn, q, c),
    ensures
        combine_eval(t, z) + inputs * c == main_gate(
            seq![
                eval(q[0], z),
                eval(q[1], z),
                eval(q[2], z),
                eval(q[3], z),
                eval(q[4], z),
                eval(q[6], z),
            ],
            w,
            dn,
            inputs + eval(q[5], z),
        ) * c,
{
    reveal_with_fuel(combine_eval, 8);
    let (e0, e1, e2, e3, e4, e5, e6) = (
        eval(q[0], z),
        eval(q[1], z),
        eval(q[2], z),
        eval(q[3], z),
        eval(q[4], z),
        eval(q[5], z),
        eval(q[6], z),
    );
    let (w0, w1, w2, w3) = (w[0], w[1], w[2], w[3]);
    assert(t.drop_last().len() == 6);
    assert(combine_eval(t, z) == (w0 * c) * e0 + (w1 * c) * e1 + (w2 * c) * e2 + (w3 * c) * e3 + (w0
        * w1 * c) * e4 + c * e5 + (dn * c) * e6);
    assert((w0 * c) * e0 == (e0 * w0) * c) by (nonlinear_arith);
    assert((w1 * c) * e1 == (e1 * w1) * c) by (nonlinear_arith);
    assert((w2 * c) * e2 == (e2 * w2) * c) by (nonlinear_arith);
    assert((w3 * c) * e3 == (e3 * w3) * c) by (nonlinear_arith);
    assert((w0 * w1 * c) * e4 == (e4 * w0 * w1) * c) by (nonlinear_arith);
    assert(c * e5 == e5 * c) by (nonlinear_arith);
    assert((dn * c) * e6 == (e6 * dn) * c) by (nonlinear_arith);
    let (x0, x1, x2, x3, x4, x6) = (e0 * w0, e1 * w1, e2 * w2, e3 * w3, e4 * w0 * w1, e6 * dn);
    assert((inputs + e5 + x0 + x1 + x2 + x3 + x4 + x6) * c == inputs * c + e5 * c + x0 * c + x1 * c
        + x2 * c + x3 * c + x4 * c + x6 * c) by (nonlinear_arith);
}

/// What the gates leave in the linearization polynomial, with the public inputs,
/// is what they add to the numerator.
proof fn lemma_gates_linearized<F: PrimeField>(
    gates: Seq<Gate>,
    p: ProverPolynomials<F>,
    c: GateContributions<F>,
    inputs: Seq<F>,
    alpha: int,
    domain: Domain<F>,
    v: AtZ,
    k: nat,
)
    requires
        1 <= k <= gates.len(),
        domain.wf(),
        p.monomials.wf(gates, domain.size as int),
        v.wires == opened(p.monomials.state@, seq![0usize, 1, 2, 3], v.z),
        known_contributions(c, gates, p, inputs, alpha, domain, v.z),
    ensures
        ({
            let omega = domain.generator.val();
            let n = domain.size as nat;
            let row = half_open_row(
                p,
                v,
                value_at(p.monomials.state@[3], red::<F>(v.z * omega)),
                inputs_at(inputs, omega, n, v.z, inputs.len()),
            );
            red::<F>(
                combine_eval(
                    gate_linear_terms(gates, c, v.selectors, p.monomials.gate_selectors@, k),
                    v.z,
                ) + crate::linearization::inputs_leftover(gates, c.inputs_term.val(), v),
            ) == red::<F>(gate_terms(gates, row, alpha, k))
        }),
    decreases k,
{
    let omega = domain.generator.val();
    let n = domain.size as nat;
    let z = v.z;
    let d_next = value_at(p.monomials.state@[3], red::<F>(z * omega));
    let ins = inputs_at(inputs, omega, n, z, inputs.len());
    let row = half_open_row(p, v, d_next, ins);
    let polys = p.monomials.gate_selectors@;
    let left = crate::linearization::inputs_leftover(gates, c.inputs_term.val(), v);
    let terms = gate_linear_terms(gates, c, v.selectors, polys, k);
    let q = columns(p.monomials.gate_setup@[0]@);
    if k == 1 {
        let ch = pow(alpha, 0);
        let t = main_linear_terms(v.wires, d_next, q, ch);
        let e = eval(vals(c.main@), z);
        let i = c.inputs_term.val();
        lemma_represents_eval(c.main@, t, n as int, z);
        lemma_main_identity(t, v.wires, d_next, q, ch, z, ins);
        lemma_red_range::<F>(ins * ch);
        lemma_red_add::<F>(e, i, combine_eval(t, z), ins * ch);
        let g = main_gate(row.setup, row.wires, row.d_next, row.constant);
        assert(red::<F>(e + i) == red::<F>(g * ch));
        assert(terms.drop_last() =~= Seq::empty());
        assert(combine_eval(terms.drop_last(), z) == 0);
        if gates.len() > 1 {
            let s = v.selectors[0];
            assert(combine_eval(terms, z) == s * e);
            lemma_red_mul::<F>(e + i, s, g * ch, s);
            assert((e + i) * s == s * e + i * s) by (nonlinear_arith);
        } else {
            assert(combine_eval(terms, z) == 1 * e);
        }
    } else {
        lemma_gates_linearized(gates, p, c, inputs, alpha, domain, v, (k - 1) as nat);
        let before = gate_linear_terms(gates, c, v.selectors, polys, (k - 1) as nat);
        let sel = eval(vals(polys[k - 1]@), z);
        let x = bit_gate(v.wires[0]) * pow(alpha, terms_before(gates, (k - 1) as nat));
        assert(terms.drop_last() =~= before);
        let j = k - 2;
        assert(c.others@[j] matches GateContribution::Value(y) && y.val() == red::<F>(x));
        let y = c.others@[j]->Value_0;
        assert(terms.last() == (y.val(), vals(polys[k - 1]@)));
        lemma_red_range::<F>(x);
        lemma_red_mul::<F>(y.val(), sel, x, sel);
        let (b, g) = (
            combine_eval(before, z) + left,
            gate_terms(gates, row, alpha, (k - 1) as nat),
        );
        lemma_red_add::<F>(b, y.val() * sel, g, x * sel);
    }
}

/// The row with unreduced values is congruent to the row at `z`.
proof fn lemma_half_open_row<F: PrimeField>(
    gates: Seq<Gate>,
    p: ProverPolynomials<F>,
    q: SortedGateQueries,
    o: Openings<F>,
    domain: Domain<F>,
    inputs: int,
    z: int,
)
    requires
        domain.wf(),
        p.monomials.wf(gates, domain.size as int),
        o.opens(p, q, z, domain.generator.val(), domain.size as nat),
        gates.len() > 1 ==> q.gate_selectors@.len() > 0 && q.gate_selectors@[0] == 0,
        crate::linearization::lagranges_defined(domain, z, p.lookup is Some),
    ensures
        ({
            let v = at_z(p, o, domain, z);
            let d_next = value_at(p.monomials.state@[3], red::<F>(z * domain.generator.val()));
            let a = half_open_row(p, v, d_next, inputs);
            let b = row_at(p, domain, inputs, z);
            &&& gates.len() > 1 ==> rows_congruent::<F>(a, b)
            &&& rows_congruent::<F>(Row { selectors: b.selectors, ..a }, b)
            &&& row_shaped(gates, a)
        }),
{
    let v = at_z(p, o, domain, z);
    let m = p.monomials;
    let omega = domain.generator.val();
    let n = domain.size as nat;
    let next = red::<F>(z * omega);
    let d_next = value_at(m.state@[3], next);
    let a = half_open_row(p, v, d_next, inputs);
    let b = row_at(p, domain, inputs, z);
    let setup = m.gate_setup@[0]@;
    let cols = columns(setup);
    lemma_red_range::<F>(z);
    lemma_red_range::<F>(inputs + eval(vals(setup[5]@), z));
    assert(a.constant == inputs + eval(vals(setup[5]@), z));
    assert forall|j: int| 0 <= j < 6 implies red::<F>(#[trigger] a.setup[j]) == red::<F>(
        b.setup[j],
    ) by {
        let id = seq![0usize, 1, 2, 3, 4, 6][j] as int;
        lemma_red_range::<F>(eval(vals(setup[id]@), z));
        assert(a.setup[j] == eval(cols[id], z));
    }
    assert(vals(o.permutations_at_z@) == opened(m.permutations@, seq![0usize, 1, 2], z));
    assert(a.permutations.len() == 4);
    assert forall|j: int| 0 <= j < 4 implies red::<F>(#[trigger] a.permutations[j]) == red::<F>(
        b.permutations[j],
    ) by {
        lemma_red_range::<F>(eval(vals(m.permutations@[j]@), z));
        if j < 3 {
            assert(a.permutations[j] == vals(o.permutations_at_z@)[j]);
        }
    }
    lemma_red_range::<F>(eval(vals(p.copy_z@), z));
    // the Lagrange polynomials
    lemma_pow2_pos(domain.power_of_two as nat);
    lemma_pow0(omega);
    lemma_red_small::<F>();
    law_lagrange_forms_agree::<F>(omega, domain.power_of_two as nat, 0, z);
    lemma_red_range::<F>(eval(lagrange_poly::<F>(omega, n, 0), z));
    if gates.len() > 1 {
        assert forall|k: int| 0 <= k < a.selectors.len() implies red::<F>(#[trigger] a.selectors[k])
            == red::<F>(b.selectors[k]) by {
            lemma_red_range::<F>(eval(vals(m.gate_selectors@[k]@), z));
            if k == 0 {
                assert(vals(o.selectors_at_z@)[0] == opened(
                    m.gate_selectors@,
                    q.gate_selectors@,
                    z,
                )[0]);
            }
        }
    }
    if let Some(l) = p.lookup {
        law_lagrange_forms_agree::<F>(omega, domain.power_of_two as nat, (n - 1) as nat, z);
        lemma_red_range::<F>(eval(vals(l.z@), z));
        lemma_red_range::<F>(eval(vals(l.s@), z));
    }
}

/// The opening of the linearization polynomial and what it leaves out give the
/// numerator at `z`. So the equation that the prover tests says that the opening
/// of the quotient, times the value of the polynomial that vanishes on the
/// domain, is the numerator at `z`. Where there are several gates, the first
/// opened selector is that of the main gate.
pub proof fn law_linearization<F: PrimeField>(
    gates: Seq<Gate>,
    p: ProverPolynomials<F>,
    q: SortedGateQueries,
    o: Openings<F>,
    c: GateContributions<F>,
    inputs: Seq<F>,
    w: Weights,
    domain: Domain<F>,
    z: int,
    linearization: Seq<F>,
)
    requires
        supported(gates),
        domain.wf(),
        p.wf(gates, domain.size as int),
        o.opens(p, q, z, domain.generator.val(), domain.size as nat),
        gates.len() > 1 ==> q.gate_selectors@.len() > 0 && q.gate_selectors@[0] == 0,
        crate::linearization::lagranges_defined(domain, z, p.lookup is Some),
        known_contributions(c, gates, p, inputs, w.alpha, domain, z),
        w.shifts.len() == 4,
        w.lookup is Some <==> p.lookup is Some,
        represents(
            linearization,
            linear_terms(gates, p, c, at_z(p, o, domain, z), w),
            domain.size as int,
        ),
    ensures
        ({
            let omega = domain.generator.val();
            let n = domain.size as nat;
            red::<F>(
                numerator_from_openings(
                    gates,
                    red::<F>(eval(vals(linearization), z)),
                    c.inputs_term.val(),
                    at_z(p, o, domain, z),
                    w,
                ),
            ) == red::<F>(
                numerator::<F>(
                    gates,
                    row_at(p, domain, inputs_at(inputs, omega, n, z, inputs.len()), z),
                    w,
                ),
            )
        }),
{
    let omega = domain.generator.val();
    let n = domain.size as nat;
    let v = at_z(p, o, domain, z);
    let m = p.monomials;
    let ins = inputs_at(inputs, omega, n, z, inputs.len());
    let d_next = value_at(m.state@[3], red::<F>(z * omega));
    let a = half_open_row(p, v, d_next, ins);
    let b = row_at(p, domain, ins, z);
    let total = terms_before(gates, gates.len());
    let (a0, a1) = (pow(w.alpha, total), pow(w.alpha, total + 1));
    let all = linear_terms(gates, p, c, v, w);
    let from_gates = gate_linear_terms(gates, c, v.selectors, m.gate_selectors@, gates.len());
    let from_copy = copy_linear_terms::<F>(
        v,
        w,
        a0,
        a1,
        vals(p.copy_z@),
        vals(m.permutations@[3]@),
    );
    let left_in = crate::linearization::inputs_leftover(gates, c.inputs_term.val(), v);
    let left_copy = copy_leftover(v, w, a0, a1);
    let lin = eval(vals(linearization), z);
    lemma_represents_eval(linearization, all, n as int, z);
    lemma_combine_eval_concat(from_gates, from_copy, z);
    lemma_gates_linearized(gates, p, c, inputs, w.alpha, domain, v, gates.len());
    lemma_half_open_row(gates, p, q, o, domain, ins, z);
    // the copy-permutation argument
    lemma_three(from_copy, z);
    assert(vals(o.permutations_at_z@).len() == 3);
    assert(a.wires.drop_last() =~= v.wires.take(3));
    assert(a.permutations.drop_last() =~= v.permutations);
    lemma_copy_identity(
        a0,
        a1,
        w.beta,
        w.gamma,
        perm_product(v.wires, coset_row::<F>(v.z, w.shifts), w.beta, w.gamma),
        perm_product(v.wires.take(3), v.permutations, w.beta, w.gamma),
        v.wires[3],
        a.permutations[3],
        a.z,
        v.z_next,
        v.l_0,
    );
    let e_gates = combine_eval(from_gates, z);
    let e_copy = combine_eval(from_copy, z);
    assert(e_copy - left_copy == copy_terms::<F>(a, w, a0, a1));
    // the lookup argument
    let (e_lookup, left_lookup) = match (p.lookup, v.lookup, w.lookup) {
        (Some(polys), Some(l), Some(lw)) => {
            let (b0, b1, b2) = (
                pow(w.alpha, total + 2),
                pow(w.alpha, total + 3),
                pow(w.alpha, total + 4),
            );
            let t = lookup_linear_terms(v, l, lw, b0, b1, b2, vals(polys.s@), vals(polys.z@));
            let row = a.lookup->0;
            lemma_combine_eval_concat(from_gates + from_copy, t, z);
            assert(combine_eval(t, z) == t[0].0 * eval(t[0].1, z) + t[1].0 * eval(t[1].1, z)) by {
                reveal_with_fuel(combine_eval, 3);
            }
            lemma_lookup_identity(
                b0,
                b1,
                b2,
                v.z - lw.last_omega,
                lookup_denominator(l.t, l.t_next, lw.beta, lw.gamma),
                lookup_query(v.wires, l.table_type, l.selector, lw.eta) + lw.gamma,
                lw.beta + 1,
                lw.beta,
                gamma_beta(lw.beta, lw.gamma),
                row.s,
                l.s_next,
                row.z,
                l.z_next,
                v.l_0,
                l.l_last,
                lw.expected,
            );
            (combine_eval(t, z), lookup_leftover(v, l, lw, b0, b1, b2))
        },
        _ => (0, 0),
    };
    assert(combine_eval(all, z) == e_gates + e_copy + e_lookup);
    assert(e_lookup + left_lookup == optional_lookup_terms(a, w, total));
    // put together
    let rest = left_in - left_copy + left_lookup;
    lemma_red_range::<F>(lin);
    lemma_red_add::<F>(red::<F>(lin), rest, combine_eval(all, z), rest);
    lemma_red_add::<F>(
        e_gates + left_in,
        copy_terms::<F>(a, w, a0, a1) + optional_lookup_terms(a, w, total),
        gate_terms(gates, a, w.alpha, gates.len()),
        copy_terms::<F>(a, w, a0, a1) + optional_lookup_terms(a, w, total),
    );
    assert(red::<F>(red::<F>(lin) + rest) == red::<F>(numerator::<F>(gates, a, w)));
    if gates.len() > 1 {
        lemma_numerator_congruent::<F>(gates, a, b, w);
    } else {
        let a2 = Row { selectors: b.selectors, ..a };
        assert(gate_terms(gates, a2, w.alpha, 1) == gate_terms(gates, a, w.alpha, 1));
        assert(gates.len() == 1);
        assert(numerator::<F>(gates, a2, w) == numerator::<F>(gates, a, w));
        lemma_numerator_congruent::<F>(gates, a2, b, w);
    }
}

/// The values of a polynomial on the coset of the larger domain, in reversed
/// order.
pub open spec fn is_coset_lde<F: PrimeField>(
    values: Seq<F>,
    poly: Seq<int>,
    big_omega: int,
    bits: nat,
) -> bool {
    &&& values.len() == pow2(bits)
    &&& forall|i: int|
        0 <= i < values.len() ==> (#[trigger] values[i]).val() == red::<F>(
            eval(poly, coset_point::<F>(big_omega, reversed(i as nat, bits))),
        )
}

/// Each column of a list holds the values of a polynomial of another on the
/// coset.
pub open spec fn are_coset_ldes<F: PrimeField>(
    values: Seq<Vec<F>>,
    polys: Seq<Vec<F>>,
    big_omega: int,
    bits: nat,
) -> bool {
    &&& values.len() == polys.len()
    &&& forall|j: int|
        0 <= j < values.len() ==> is_coset_lde(
            (#[trigger] values[j])@,
            vals(polys[j]@),
            big_omega,
            bits,
        )
}

/// The setup polynomials of the main gate but the constant selector.
pub open spec fn main_setup<F: PrimeField>(p: ProverPolynomials<F>) -> Seq<Vec<F>> {
    let q = p.monomials.gate_setup@[0]@;
    seq![q[0], q[1], q[2], q[3], q[4], q[6]]
}

/// The columns hold the values on the coset of the polynomials of the argument,
/// of the public inputs with the constant selector, and of the Lagrange
/// polynomials.
pub open spec fn ldes_of<F: PrimeField>(
    ldes: Ldes<F>,
    p: ProverPolynomials<F>,
    inputs: Seq<int>,
    domain: Domain<F>,
    big: Domain<F>,
) -> bool {
    let w = big.generator.val();
    let bits = big.power_of_two as nat;
    let omega = domain.generator.val();
    let n = domain.size as nat;
    let m = p.monomials;
    &&& ldes.inputs_and_constants@.len() == pow2(bits)
    &&& forall|i: int|
        0 <= i < ldes.inputs_and_constants@.len() ==> {
            let x = coset_point::<F>(w, reversed(i as nat, bits));
            (#[trigger] ldes.inputs_and_constants@[i]).val() == red::<F>(
                eval(inputs, x) + eval(vals(m.gate_setup@[0]@[5]@), x),
            )
        }
    &&& are_coset_ldes(ldes.wires@, m.state@, w, bits)
    &&& are_coset_ldes(ldes.setup@, main_setup(p), w, bits)
    &&& are_coset_ldes(ldes.selectors@, m.gate_selectors@, w, bits)
    &&& are_coset_ldes(ldes.permutations@, m.permutations@, w, bits)
    &&& is_coset_lde(ldes.l_0@, lagrange_poly::<F>(omega, n, 0), w, bits)
    &&& is_coset_lde(ldes.copy_z@, vals(p.copy_z@), w, bits)
    &&& ldes.lookup is Some <==> p.lookup is Some
    &&& match (ldes.lookup, p.lookup) {
        (Some(l), Some(q)) => {
            &&& is_coset_lde(l.z@, vals(q.z@), w, bits)
            &&& is_coset_lde(l.s@, vals(q.s@), w, bits)
            &&& is_coset_lde(l.t@, vals(q.t@), w, bits)
            &&& is_coset_lde(l.table_type@, vals(q.table_type@), w, bits)
            &&& is_coset_lde(l.selector@, vals(q.selector@), w, bits)
            &&& is_coset_lde(
                l.l_last@,
                lagrange_poly::<F>(omega, n, (n - 1) as nat),
                w,
                bits,
            )
        },
        _ => true,
    }
}

/// Rotating a column by `2^j` places of the natural order gives the values of
/// the polynomial one step of the smaller domain on.
pub proof fn law_rotation_is_next<F: PrimeField>(
    values: Seq<F>,
    poly: Seq<int>,
    k: nat,
    j: nat,
    i: int,
)
    requires
        k + j <= F::spec_two_adicity(),
        generates::<F>(domain_generator::<F>(k + j), k + j),
        is_coset_lde(values, poly, domain_generator::<F>(k + j), k + j),
        0 <= i < pow2(k + j),
    ensures
        ({
            let bits = k + j;
            let x = coset_point::<F>(domain_generator::<F>(bits), reversed(i as nat, bits));
            let next = shifted_index(i as nat, pow2(j), bits);
            &&& 0 <= next < values.len()
            &&& values[next].val() == red::<F>(
                eval(poly, red::<F>(x * domain_generator::<F>(k))),
            )
        }),
{
    let bits = k + j;
    let w = domain_generator::<F>(bits);
    let m = pow2(bits);
    let e = reversed(i as nat, bits);
    let s = e + pow2(j);
    let r = s % m;
    let next = shifted_index(i as nat, pow2(j), bits);
    let x = coset_point::<F>(w, e);
    let g = F::spec_generator();
    lemma_pow2_pos(bits);
    lemma_reversed_bound(i as nat, bits);
    lemma_reversed_bound(r, bits);
    lemma_reversed_involutive(r, bits);
    assert(values[next].val() == red::<F>(eval(poly, coset_point::<F>(w, r))));
    // the exponent is reduced by a multiple of the order
    vstd::arithmetic::div_mod::lemma_fundamental_div_mod(s as int, m as int);
    let quotient = (s / m) as nat;
    assert(s == r + quotient * m) by (nonlinear_arith)
        requires
            s == m * quotient + r,
    ;
    lemma_generates_cyclic::<F>(w, bits, r, quotient);
    lemma_pow_adds(w, e, pow2(j));
    lemma_domain_generators::<F>(k, j);
    let omega = domain_generator::<F>(k);
    lemma_red_range::<F>(pow(F::spec_root_of_unity(), pow2((F::spec_two_adicity() - k) as nat)));
    lemma_red_mul::<F>(pow(w, e), pow(w, pow2(j)), pow(w, e), omega);
    lemma_red_mul::<F>(g, pow(w, r), g, pow(w, e) * omega);
    assert(g * (pow(w, e) * omega) == x * omega) by (nonlinear_arith)
        requires
            x == g * pow(w, e),
    ;
    lemma_red_range::<F>(x * omega);
    lemma_eval_point_congruent::<F>(poly, coset_point::<F>(w, r), red::<F>(x * omega));
}

/// The columns hold the row of the polynomials at each point of the coset.
pub proof fn law_coset_rows<F: PrimeField>(
    gates: Seq<Gate>,
    ldes: Ldes<F>,
    p: ProverPolynomials<F>,
    inputs: Seq<int>,
    domain: Domain<F>,
    big: Domain<F>,
    i: int,
)
    requires
        domain.wf(),
        big.wf(),
        big.power_of_two == domain.power_of_two + 2,
        p.arguments_wf(gates, domain.size as int),
        ldes.wf(gates, big.size as int),
        ldes_of(ldes, p, inputs, domain, big),
        0 <= i < big.size,
    ensures
        ({
            let x = coset_point::<F>(
                big.generator.val(),
                reversed(i as nat, big.power_of_two as nat),
            );
            rows_congruent::<F>(
                coset_lde_row(ldes, i, 4, big.generator.val(), big.power_of_two as nat),
                row_at(p, domain, eval(inputs, x), x),
            )
        }),
{
    let w = big.generator.val();
    let bits = big.power_of_two as nat;
    let k = domain.power_of_two as nat;
    let x = coset_point::<F>(w, reversed(i as nat, bits));
    let a = coset_lde_row(ldes, i, 4, w, bits);
    let b = row_at(p, domain, eval(inputs, x), x);
    let m = p.monomials;
    let setup = m.gate_setup@[0]@;
    lemma2_to64();
    assert(bits == k + 2);
    assert(pow2(2) == 4);
    lemma_red_range::<F>(x);
    assert(ldes.inputs_and_constants@[i].val() == b.constant);
    assert forall|j: int| 0 <= j < 4 implies #[trigger] a.wires[j] == b.wires[j] by {
        assert(is_coset_lde(ldes.wires@[j]@, vals(m.state@[j]@), w, bits));
        assert(ldes.wires@[j]@[i].val() == value_at(m.state@[j], x));
    }
    assert(is_coset_lde(ldes.wires@[3]@, vals(m.state@[3]@), w, bits));
    law_rotation_is_next(ldes.wires@[3]@, vals(m.state@[3]@), k, 2, i);
    assert forall|j: int| 0 <= j < 6 implies #[trigger] a.setup[j] == b.setup[j] by {
        let poly = main_setup(p)[j];
        assert(is_coset_lde(ldes.setup@[j]@, vals(poly@), w, bits));
        assert(ldes.setup@[j]@[i].val() == value_at(poly, x));
    }
    assert forall|j: int| 0 <= j < a.selectors.len() implies #[trigger] a.selectors[j]
        == b.selectors[j] by {
        let poly = m.gate_selectors@[j];
        assert(is_coset_lde(ldes.selectors@[j]@, vals(poly@), w, bits));
        assert(ldes.selectors@[j]@[i].val() == value_at(poly, x));
    }
    assert forall|j: int| 0 <= j < 4 implies #[trigger] a.permutations[j] == b.permutations[j] by {
        let poly = m.permutations@[j];
        assert(is_coset_lde(ldes.permutations@[j]@, vals(poly@), w, bits));
        assert(ldes.permutations@[j]@[i].val() == value_at(poly, x));
    }
    law_rotation_is_next(ldes.copy_z@, vals(p.copy_z@), k, 2, i);
    assert(ldes.copy_z@[i].val() == value_at(p.copy_z, x));
    assert(ldes.l_0@[i].val() == b.l_0);
    match (ldes.lookup, p.lookup) {
        (Some(l), Some(q)) => {
            law_rotation_is_next(l.z@, vals(q.z@), k, 2, i);
            law_rotation_is_next(l.s@, vals(q.s@), k, 2, i);
            law_rotation_is_next(l.t@, vals(q.t@), k, 2, i);
            assert(l.z@[i].val() == value_at(q.z, x));
            assert(l.s@[i].val() == value_at(q.s, x));
            assert(l.t@[i].val() == value_at(q.t, x));
            assert(l.table_type@[i].val() == value_at(q.table_type, x));
            assert(l.selector@[i].val() == value_at(q.selector, x));
            assert(l.l_last@[i].val() == b.lookup->0.l_last);
        },
        _ => {},
    }
}

/// On every point of the coset, the quotient times the polynomial that vanishes
/// on the domain is the numerator of the polynomials there.
pub proof fn law_quotient<F: PrimeField>(
    gates: Seq<Gate>,
    ldes: Ldes<F>,
    p: ProverPolynomials<F>,
    inputs: Seq<int>,
    w: Weights,
    domain: Domain<F>,
    big: Domain<F>,
    c: Seq<F>,
    e: nat,
)
    requires
        supported(gates),
        domain.wf(),
        big.wf(),
        big.power_of_two == domain.power_of_two + 2,
        p.arguments_wf(gates, domain.size as int),
        ldes.wf(gates, big.size as int),
        ldes_of(ldes, p, inputs, domain, big),
        w.shifts.len() == 4,
        is_numerator_quotient(c, gates, ldes, w, domain, big, 4),
        e < big.size,
    ensures
        ({
            let x = coset_point::<F>(big.generator.val(), e);
            red::<F>(eval(vals(c), x) * (pow(x, domain.size as nat) - 1)) == red::<F>(
                numerator::<F>(gates, row_at(p, domain, eval(inputs, x), x), w),
            )
        }),
{
    let bits = big.power_of_two as nat;
    let big_omega = big.generator.val();
    let x = coset_point::<F>(big_omega, e);
    let i = reversed(e, bits) as int;
    lemma_reversed_bound(e, bits);
    lemma_reversed_involutive(e, bits);
    law_coset_rows(gates, ldes, p, inputs, domain, big, i);
    let j = e as int;
    assert(reversed(j as nat, bits) as int == i);
    lemma_numerator_congruent::<F>(
        gates,
        coset_lde_row(ldes, i, 4, big_omega, bits),
        row_at(p, domain, eval(inputs, x), x),
        w,
    );
}

/// A power of a generator that is not one has a power that is minus one.
proof fn lemma_reaches_minus_one<F: PrimeField>(w: int, k: nat, m: nat) -> (t: nat)
    requires
        generates::<F>(w, k),
        0 < m < pow2(k),
    ensures
        red::<F>(pow(w, m * t)) == red::<F>(-1),
    decreases k,
{
    lemma2_to64();
    if k == 0 {
        assert(false);
        0
    } else {
        let half = pow2((k - 1) as nat);
        lemma_pow2_unfold(k);
        if m % 2 == 1 {
            let j = m / 2;
            lemma_pow_multiplies(w, half, m);
            assert(half * m == m * half) by (nonlinear_arith);
            lemma_red_pow::<F>(pow(w, half), -1, m);
            // minus one to an odd power
            lemma_pow_multiplies(-1, 2, j);
            lemma_pow_adds(-1, 2 * j, 1);
            lemma_pow1(-1);
            lemma_pow_adds(-1, 1, 1);
            lemma1_pow(j);
            assert(m == 2 * j + 1);
            half
        } else {
            let v = w * w;
            let j = m / 2;
            lemma_red_small::<F>();
            assert(generates::<F>(v, (k - 1) as nat)) by {
                if k == 1 {
                    assert(false);
                } else {
                    let q = pow2((k - 2) as nat);
                    lemma_pow2_unfold((k - 1) as nat);
                    lemma_pow_distributes(w, w, q);
                    lemma_pow_adds(w, q, q);
                }
            }
            let t = lemma_reaches_minus_one::<F>(v, (k - 1) as nat, j);
            lemma_pow_distributes(w, w, j * t);
            lemma_pow_adds(w, j * t, j * t);
            assert(j * t + j * t == m * t) by (nonlinear_arith)
                requires
                    m == 2 * j,
            ;
            t
        }
    }
}

/// A Lagrange polynomial is one at its own element and zero at the others.
pub proof fn law_lagrange_on_domain<F: PrimeField>(omega: int, k: nat, i: nat, j: nat)
    requires
        generates::<F>(omega, k),
        i < pow2(k),
        j < pow2(k),
    ensures
        red::<F>(eval(lagrange_poly::<F>(omega, pow2(k), i), pow(omega, j))) == if i == j {
            1int
        } else {
            0
        },
{
    let n = pow2(k);
    let x = pow(omega, j);
    let r = red::<F>(pow(omega, (n - i) as nat));
    let s = inv::<F>(n as int);
    let c = lagrange_poly::<F>(omega, n, i);
    let d = Seq::new(n, |e: int| s * pow(r, e as nat));
    let y = r * x;
    let v = eval(d, x);
    lemma_red_small::<F>();
    assert forall|e: int| 0 <= e < n implies red::<F>(#[trigger] c[e]) == red::<F>(d[e]) by {
        lemma_red_range::<F>(d[e]);
    }
    lemma_eval_congruent::<F>(c, d, x);
    lemma_size_invertible::<F>(k);
    lemma_generates_order::<F>(omega, k);
    lemma_red_range::<F>(pow(omega, (n - i) as nat));
    lemma_red_mul::<F>(r, x, pow(omega, (n - i) as nat), x);
    lemma_pow_adds(omega, (n - i) as nat, j);
    let m = ((n - i) + j) as nat;
    assert(red::<F>(y) == red::<F>(pow(omega, m)));
    if i == j {
        // every term of the sum is one
        let ones = Seq::new(n, |e: int| s);
        assert(red::<F>(y) == 1);
        let scaled = Seq::new(n, |e: int| s * pow(y, e as nat));
        lemma_eval_rescaled(d, scaled, s, r, x, 0);
        assert forall|e: int| 0 <= e < n implies red::<F>(#[trigger] scaled[e]) == red::<F>(
            ones[e],
        ) by {
            lemma_red_pow::<F>(y, 1, e as nat);
            lemma1_pow(e as nat);
            lemma_red_mul::<F>(s, pow(y, e as nat), s, 1);
        }
        lemma_eval_congruent::<F>(scaled, ones, 1);
        lemma_eval_constant(ones, s);
        lemma_pow0(x);
        assert(1 * eval(scaled, 1) == eval(scaled, 1));
        assert(n * s == s * n) by (nonlinear_arith);
    } else {
        lemma_eval_geometric(d, s, r, x);
        // y to the order is one
        lemma_red_pow::<F>(y, pow(omega, m), n);
        lemma_pow_multiplies(omega, m, n);
        lemma_pow_multiplies(omega, n, m);
        assert(m * n == n * m) by (nonlinear_arith);
        lemma_red_pow::<F>(pow(omega, n), 1, m);
        lemma1_pow(m);
        lemma_red_sub::<F>(pow(y, n), 1, 1, 1);
        lemma_red_mul::<F>(s, pow(y, n) - 1, s, 0);
        assert(s * 0 == 0);
        assert(red::<F>(v * (y - 1)) == 0);
        // so y times the sum is the sum
        assert(v * y == v * (y - 1) + v) by (nonlinear_arith);
        lemma_red_add::<F>(v * (y - 1), v, 0, v);
        assert(red::<F>(v * y) == red::<F>(v));
        // some power of y is minus one
        let m0 = if j > i {
            (j - i) as nat
        } else {
            m
        };
        let t = lemma_reaches_minus_one::<F>(omega, k, m0);
        lemma_pow_multiplies(omega, m0, t);
        if j > i {
            lemma_generates_cyclic::<F>(omega, k, m0, 1);
            assert(m == m0 + 1 * n);
        }
        lemma_red_pow::<F>(y, pow(omega, m0), t);
        assert(red::<F>(pow(y, t)) == red::<F>(-1));
        lemma_fixed_by_powers::<F>(v, y, t);
        lemma_red_mul::<F>(v, pow(y, t), v, -1);
        assert(red::<F>(-v) == red::<F>(v));
        // twice the sum is zero
        let h = lemma_half::<F>();
        lemma_red_add::<F>(v, v, v, -v);
        lemma_red_mul::<F>(v + v, h, 0, h);
        assert((v + v) * h == v * (2 * h)) by (nonlinear_arith);
        assert(0 * h == 0);
        lemma_red_mul::<F>(v, 2 * h, v, 1);
    }
}

proof fn lemma_eval_rescaled(d: Seq<int>, e: Seq<int>, s: int, r: int, x: int, start: nat)
    requires
        d.len() == e.len(),
        forall|i: int| 0 <= i < d.len() ==> #[trigger] d[i] == s * pow(r, (start + i) as nat),
        forall|i: int|
            0 <= i < d.len() ==> #[trigger] e[i] == s * pow(r * x, (start + i) as nat),
    ensures
        pow(x, start) * eval(d, x) == eval(e, 1),
    decreases d.len(),
{
    if d.len() == 0 {
        assert(pow(x, start) * 0 == 0);
    } else {
        let (d1, e1) = (d.skip(1), e.skip(1));
        assert forall|i: int| 0 <= i < d1.len() implies #[trigger] d1[i] == s * pow(
            r,
            (start + 1 + i) as nat,
        ) by {
            assert(d[i + 1] == s * pow(r, (start + (i + 1)) as nat));
        }
        assert forall|i: int| 0 <= i < e1.len() implies #[trigger] e1[i] == s * pow(
            r * x,
            (start + 1 + i) as nat,
        ) by {
            assert(e[i + 1] == s * pow(r * x, (start + (i + 1)) as nat));
        }
        lemma_eval_rescaled(d1, e1, s, r, x, start + 1);
        lemma_pow_distributes(r, x, start);
        lemma_pow_adds(x, start, 1);
        lemma_pow1(x);
        assert(d[0] == s * pow(r, (start + 0) as nat));
        assert(e[0] == s * pow(r * x, (start + 0) as nat));
        let (px, pr, f) = (pow(x, start), pow(r, start), eval(d1, x));
        assert(px * (s * pr + x * f) == s * (pr * px) + (px * x) * f) by (nonlinear_arith);
        assert(1 * eval(e1, 1) == eval(e1, 1));
    }
}

proof fn lemma_eval_constant(c: Seq<int>, s: int)
    requires
        forall|e: int| 0 <= e < c.len() ==> #[trigger] c[e] == s,
    ensures
        eval(c, 1) == s * c.len(),
    decreases c.len(),
{
    if c.len() > 0 {
        let c1 = c.skip(1);
        assert forall|e: int| 0 <= e < c1.len() implies #[trigger] c1[e] == s by {
            assert(c[e + 1] == s);
        }
        lemma_eval_constant(c1, s);
        let n = c1.len() as int;
        assert(s + 1 * (s * n) == s * (n + 1)) by (nonlinear_arith);
    } else {
        assert(s * 0 == 0);
    }
}

proof fn lemma_fixed_by_powers<F: PrimeField>(v: int, y: int, t: nat)
    requires
        red::<F>(v * y) == red::<F>(v),
    ensures
        red::<F>(v * pow(y, t)) == red::<F>(v),
    decreases t,
{
    lemma_pow0(y);
    if t == 0 {
        assert(v * 1 == v);
    } else {
        lemma_fixed_by_powers::<F>(v, y, (t - 1) as nat);
        let p = pow(y, (t - 1) as nat);
        lemma_pow_adds(y, 1, (t - 1) as nat);
        lemma_pow1(y);
        lemma_red_mul::<F>(v * y, p, v, p);
        assert(v * (y * p) == (v * y) * p) by (nonlinear_arith);
    }
}

/// The sum of the Lagrange polynomials of the first `k` rows, scaled by the
/// public inputs.
spec fn inputs_terms<F: PrimeField>(
    inputs: Seq<F>,
    omega: int,
    n: nat,
    k: nat,
) -> Seq<(int, Seq<int>)> {
    Seq::new(k, |i: int| (inputs[i].val(), lagrange_poly::<F>(omega, n, i as nat)))
}

proof fn lemma_inputs_terms_on_domain<F: PrimeField>(
    inputs: Seq<F>,
    omega: int,
    k: nat,
    count: nat,
    j: nat,
)
    requires
        generates::<F>(omega, k),
        count <= inputs.len() <= pow2(k),
        j < pow2(k),
    ensures
        red::<F>(
            combine_eval(inputs_terms(inputs, omega, pow2(k), count), pow(omega, j)),
        ) == if j < count {
            inputs[j as int].val()
        } else {
            0
        },
    decreases count,
{
    let n = pow2(k);
    let x = pow(omega, j);
    let terms = inputs_terms(inputs, omega, n, count);
    lemma_red_small::<F>();
    if count > 0 {
        let last = (count - 1) as nat;
        let fewer = inputs_terms(inputs, omega, n, last);
        assert(terms.drop_last() =~= fewer);
        lemma_inputs_terms_on_domain(inputs, omega, k, last, j);
        law_lagrange_on_domain::<F>(omega, k, last, j);
        let a = inputs[last as int].val();
        let l = eval(lagrange_poly::<F>(omega, n, last), x);
        let unit: int = if last == j {
            1
        } else {
            0
        };
        lemma_red_mul::<F>(a, l, a, unit);
        let before: int = if j < last {
            inputs[j as int].val()
        } else {
            0
        };
        if j < last {
            lemma_val_red(inputs[j as int]);
        }
        lemma_red_add::<F>(combine_eval(fewer, x), a * l, before, a * unit);
        lemma_val_red(inputs[last as int]);
        assert(a * 1 == a && a * 0 == 0);
    }
}

proof fn lemma_inputs_terms_at<F: PrimeField>(
    inputs: Seq<F>,
    omega: int,
    k: nat,
    count: nat,
    z: int,
)
    requires
        generates::<F>(omega, k),
        count <= inputs.len() <= pow2(k),
        crate::contributions::inputs_defined::<F>(count, omega, pow2(k), z),
    ensures
        red::<F>(combine_eval(inputs_terms(inputs, omega, pow2(k), count), z)) == red::<F>(
            inputs_at(inputs, omega, pow2(k), z, count),
        ),
    decreases count,
{
    let n = pow2(k);
    let terms = inputs_terms(inputs, omega, n, count);
    if count > 0 {
        let last = (count - 1) as nat;
        let fewer = inputs_terms(inputs, omega, n, last);
        assert(terms.drop_last() =~= fewer);
        lemma_inputs_terms_at(inputs, omega, k, last, z);
        let i = last as int;
        assert(lagrange_defined::<F>(red::<F>(pow(omega, i as nat)), n, z));
        law_lagrange_forms_agree::<F>(omega, k, last, z);
        let a = inputs[i].val();
        let l = eval(lagrange_poly::<F>(omega, n, last), z);
        let q = lagrange_at::<F>(red::<F>(pow(omega, last)), n, z);
        lemma_red_range::<F>(l);
        lemma_red_mul::<F>(a, l, a, q);
        assert(a * q == q * a) by (nonlinear_arith);
        lemma_red_add::<F>(
            combine_eval(fewer, z),
            a * l,
            inputs_at(inputs, omega, n, z, last),
            q * a,
        );
    }
}

/// What the main gate adds for its public inputs is the value of the polynomial
/// that takes the public inputs in the first rows and is zero in the others.
pub proof fn law_public_inputs<F: PrimeField>(
    inputs: Seq<F>,
    poly: Seq<F>,
    omega: int,
    k: nat,
    z: int,
)
    requires
        generates::<F>(omega, k),
        inputs.len() <= pow2(k),
        poly.len() == pow2(k),
        forall|j: int|
            0 <= j < pow2(k) ==> red::<F>(eval(vals(poly), #[trigger] pow(omega, j as nat)))
                == if j < inputs.len() {
                inputs[j].val()
            } else {
                0
            },
        crate::contributions::inputs_defined::<F>(inputs.len(), omega, pow2(k), z),
    ensures
        red::<F>(inputs_at(inputs, omega, pow2(k), z, inputs.len())) == red::<F>(
            eval(vals(poly), z),
        ),
{
    let n = pow2(k);
    let terms = inputs_terms(inputs, omega, n, inputs.len());
    let c = Seq::new(n, |e: int| crate::polynomial::combine(terms, e));
    crate::polynomial::lemma_combine_eval(terms, c, z);
    assert forall|j: int| 0 <= j < n implies red::<F>(eval(c, #[trigger] pow(omega, j as nat)))
        == red::<F>(eval(vals(poly), pow(omega, j as nat))) by {
        crate::polynomial::lemma_combine_eval(terms, c, pow(omega, j as nat));
        lemma_inputs_terms_on_domain(inputs, omega, k, inputs.len(), j as nat);
    }
    crate::fft::lemma_unique_on_domain::<F>(c, vals(poly), omega, k);
    lemma_eval_congruent::<F>(c, vals(poly), z);
    lemma_inputs_terms_at(inputs, omega, k, inputs.len(), z);
}

/// The openings that a round tests meet its equation exactly if the quotient at
/// the opening point, times the value of the polynomial that vanishes on the
/// domain, is the numerator of the polynomials there. The polynomial `inputs`
/// takes the public inputs in the first rows and is zero in the others. Where
/// there are several gates, the first opened selector is that of the main gate.
pub proof fn law_equation<F: PrimeField, G: Copy>(
    round: Opened<F, G>,
    c: GateContributions<F>,
    linearization: Seq<F>,
    value: F,
    inputs: Seq<F>,
)
    requires
        round.wf(),
        known_contributions(
            c,
            round.session.job.gates@,
            round.polynomials,
            round.session.job.inputs@,
            round.challenges.alpha.val(),
            round.session.job.domain,
            round.z.val(),
        ),
        round.session.job.gates@.len() > 1 ==> round.session.job.queries.gate_selectors@[0] == 0,
        crate::linearization::lagranges_defined(
            round.session.job.domain,
            round.z.val(),
            round.polynomials.lookup is Some,
        ),
        crate::contributions::inputs_defined::<F>(
            round.session.job.inputs@.len(),
            round.session.job.domain.generator.val(),
            round.session.job.domain.size as nat,
            round.z.val(),
        ),
        represents(
            linearization,
            round.terms(c),
            round.session.job.domain.size as int,
        ),
        value.val() == red::<F>(eval(vals(linearization), round.z.val())),
        inputs.len() == round.session.job.domain.size,
        forall|j: int|
            0 <= j < inputs.len() ==> red::<F>(
                eval(
                    vals(inputs),
                    #[trigger] pow(round.session.job.domain.generator.val(), j as nat),
                ),
            ) == if j < round.session.job.inputs@.len() {
                round.session.job.inputs@[j].val()
            } else {
                0
            },
    ensures
        ({
            let job = round.session.job;
            let p = round.polynomials;
            let n = job.domain.size as nat;
            let z = round.z.val();
            round.satisfied(c, value) <==> red::<F>(
                quotient_value(columns(p.quotient_parts@), z, n) * (pow(z, n) - 1),
            ) == red::<F>(
                numerator::<F>(
                    job.gates@,
                    row_at(p, job.domain, eval(vals(inputs), z), z),
                    weights_of(round.session, round.challenges),
                ),
            )
        }),
{
    let job = round.session.job;
    let p = round.polynomials;
    let o = round.session.openings->0;
    let n = job.domain.size as nat;
    let omega = job.domain.generator.val();
    let z = round.z.val();
    let w = weights_of(round.session, round.challenges);
    crate::linearization::lemma_selectors_monotonic(job.gates@, 1, job.gates@.len());
    law_linearization(
        job.gates@,
        p,
        job.queries,
        o,
        c,
        job.inputs@,
        w,
        job.domain,
        z,
        linearization,
    );
    law_public_inputs(job.inputs@, inputs, omega, job.domain.power_of_two as nat, z);
    let (a, b) = (inputs_at(job.inputs@, omega, n, z, job.inputs@.len()), eval(vals(inputs), z));
    let q = eval(vals(p.monomials.gate_setup@[0]@[5]@), z);
    lemma_red_add::<F>(a, q, b, q);
    assert(row_at(p, job.domain, a, z) == row_at(p, job.domain, b, z));
    let v = quotient_value(columns(p.quotient_parts@), z, n);
    lemma_red_range::<F>(v);
    lemma_red_mul::<F>(o.quotient_at_z.val(), pow(z, n) - 1, v, pow(z, n) - 1);
}

/// The two polynomials that end a proof witness all openings: at every point,
/// each times the distance from the point that it opens at, plus the combined
/// openings, is the combined polynomials.
pub proof fn law_openings<F: PrimeField>(
    opening: OpeningPolynomials<F>,
    p: ProverPolynomials<F>,
    q: SortedGateQueries,
    linearization: Seq<int>,
    z: int,
    omega: int,
    n: nat,
    v: int,
    x: int,
)
    requires
        opening.prove(p, q, linearization, z, omega, n, v),
    ensures
        ({
            let t = terms_at_z(p, q, linearization, z, n, v);
            red::<F>(eval(vals(opening.open_at_z@), x) * (x - z) + combine_eval(t, z)) == red::<F>(
                combine_eval(t, x),
            )
        }),
        ({
            let t = terms_at_z_omega(p, q, linearization, v);
            let y = red::<F>(z * omega);
            red::<F>(eval(vals(opening.open_at_z_omega@), x) * (x - y) + combine_eval(t, y))
                == red::<F>(combine_eval(t, x))
        }),
{
    let t = terms_at_z(p, q, linearization, z, n, v);
    let u = terms_at_z_omega(p, q, linearization, v);
    let y = red::<F>(z * omega);
    let (f, g) = (opening.opened_at_z@, opening.opened_at_z_omega@);
    lemma_represents_eval(f, t, n as int, z);
    lemma_represents_eval(f, t, n as int, x);
    law_division(opening.open_at_z@, f, z, x);
    let a = eval(vals(opening.open_at_z@), x) * (x - z);
    lemma_red_add::<F>(a, eval(vals(f), z), a, combine_eval(t, z));
    lemma_represents_eval(g, u, n as int, y);
    lemma_represents_eval(g, u, n as int, x);
    law_division(opening.open_at_z_omega@, g, y, x);
    let b = eval(vals(opening.open_at_z_omega@), x) * (x - y);
    lemma_red_add::<F>(b, eval(vals(g), y), b, combine_eval(u, y));
}

/// The values of openings with the number of steps and their indices.
pub open spec fn third<F>(s: Seq<(usize, usize, F)>) -> Seq<F> {
    Seq::new(s.len(), |i: int| s[i].2)
}

/// The values of openings with their indices.
pub open spec fn second<F>(s: Seq<(usize, F)>) -> Seq<F> {
    Seq::new(s.len(), |i: int| s[i].1)
}

/// An optional value.
pub open spec fn optional<F>(x: Option<F>) -> Seq<F> {
    match x {
        Some(v) => seq![v],
        None => Seq::empty(),
    }
}

/// The exchange with the transcript that a proof and the challenges ask for.
pub open spec fn proof_script<F: PrimeField, G: Copy>(
    proof: Proof<F, G>,
    d: Drawn<F>,
) -> Seq<TranscriptItem<F, G>> {
    scalars(proof.inputs@) + points(proof.state_polys_commitments@) + points(
        proof.witness_polys_commitments@,
    ) + optional_challenge(d.eta) + optional_point(proof.lookup_s_poly_commitment)
        + optional_challenges(d.copy) + seq![
        TranscriptItem::Point(proof.copy_permutation_grand_product_commitment),
    ] + optional_challenges(d.lookup) + optional_point(proof.lookup_grand_product_commitment)
        + optional_challenge(d.alpha) + points(proof.quotient_poly_parts_commitments@)
        + optional_challenge(d.z) + scalars(
        seq![proof.quotient_poly_opening_at_z] + proof.state_polys_openings_at_z@ + third(
            proof.state_polys_openings_at_dilations@,
        ) + proof.witness_polys_openings_at_z@ + third(proof.witness_polys_openings_at_dilations@)
            + third(proof.gate_setup_openings_at_z@) + second(proof.gate_selectors_openings_at_z@)
            + proof.copy_permutation_polys_openings_at_z@ + seq![
            proof.copy_permutation_grand_product_opening_at_z_omega,
        ] + (optional(proof.lookup_t_poly_opening_at_z) + optional(
            proof.lookup_selector_poly_opening_at_z,
        ) + optional(proof.lookup_table_type_poly_opening_at_z) + optional(
            proof.lookup_s_poly_opening_at_z_omega,
        ) + optional(proof.lookup_grand_product_opening_at_z_omega) + optional(
            proof.lookup_t_poly_opening_at_z_omega,
        )),
    ) + seq![TranscriptItem::Scalar(proof.linearization_poly_opening_at_z)] + optional_challenge(
        d.v,
    )
}

/// Whoever holds a proof can repeat the exchange with the transcript: all that
/// was committed to stands in the proof, and comes before the challenges that
/// depend on it.
pub proof fn law_transcript<F: PrimeField, G: Copy>(
    round: OpeningsCombined<F, G>,
    proof: Proof<F, G>,
)
    requires
        round.wf(),
        proof.carries(round.session),
    ensures
        round.session.transcript@ == proof_script(proof, round.session.drawn),
{
    let o = round.session.openings->0;
    let q = round.session.job.queries;
    assert(third(proof.state_polys_openings_at_dilations@) =~= o.state_at_z_omega@);
    assert(third(proof.witness_polys_openings_at_dilations@) =~= o.witness_at_z_omega@);
    assert(third(proof.gate_setup_openings_at_z@) =~= setup_values(o.gate_setup_at_z@));
    assert(second(proof.gate_selectors_openings_at_z@) =~= o.selectors_at_z@);
    assert(optional(proof.lookup_t_poly_opening_at_z) + optional(
        proof.lookup_selector_poly_opening_at_z,
    ) + optional(proof.lookup_table_type_poly_opening_at_z) + optional(
        proof.lookup_s_poly_opening_at_z_omega,
    ) + optional(proof.lookup_grand_product_opening_at_z_omega) + optional(
        proof.lookup_t_poly_opening_at_z_omega,
    ) =~= lookup_values(o.lookup));
}

} // verus!
