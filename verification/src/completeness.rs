//! A circuit whose rows meet their constraints has a quotient of the right
//! degree.

use crate::closing_rounds::{weights_of, LdesRequested, Opened};
use crate::contributions::{inputs_defined, known_contributions};
use crate::domain::{generates, lagrange_poly, lemma_generates_order, Domain};
use crate::fft::lemma_unique_on_domain;
use crate::field::{
    inv, invertible, lemma_invertible, lemma_red_add, lemma_red_mul, lemma_red_pow,
    lemma_red_range, lemma_red_small, lemma_red_sub, lemma_val_red, red, vals, PrimeField,
};
use crate::gates::{bit_gate, main_gate, terms_before, Gate};
use crate::laws::{
    law_equation, law_quotient, law_quotient_from_parts, ldes_of, lemma_eval_concat, row_at,
};
use crate::linearization::{lagranges_defined, GateContributions, ProverPolynomials};
use crate::lookup::{gamma_beta, lookup_denominator};
use crate::permutation::{coset_row, perm_product};
use crate::polynomial::{
    eval, lemma_eval_add_scaled, lemma_eval_congruent, lemma_eval_zero, padded_seq, represents,
};
use crate::quotient::{
    copy_terms, coset_point, divisible_on_coset, fits_degree, gate_terms, is_numerator_quotient,
    lookup_terms, numerator, optional_lookup_terms, parts_of, supported, vanishing_on_coset, Ldes,
    LookupWeights, Row, Weights,
};
use vstd::arithmetic::power::*;
use vstd::arithmetic::power2::*;
use vstd::prelude::*;

verus! {

/// The coefficients `c` are those of the function `f`, modulo the
/// characteristic.
pub open spec fn computes<F: PrimeField>(c: Seq<int>, f: spec_fn(int) -> int) -> bool {
    forall|x: int| red::<F>(#[trigger] eval(c, x)) == red::<F>(f(x))
}

/// The function is a polynomial with at most `d` coefficients, modulo the
/// characteristic.
pub open spec fn is_polynomial<F: PrimeField>(f: spec_fn(int) -> int, d: nat) -> bool {
    exists|c: Seq<int>| c.len() <= d && #[trigger] computes::<F>(c, f)
}

pub proof fn lemma_padded(c: Seq<int>, n: nat, x: int)
    requires
        c.len() <= n,
    ensures
        eval(padded_seq(c, n), x) == eval(c, x),
{
    let z = Seq::new((n - c.len()) as nat, |i: int| 0int);
    assert(padded_seq(c, n) =~= c + z);
    lemma_eval_concat(c, z, x);
    lemma_eval_zero(z, x);
    assert(pow(x, c.len()) * 0 == 0);
}

/// A vector is a polynomial.
proof fn lemma_coefficients<F: PrimeField>(c: Seq<int>, f: spec_fn(int) -> int, d: nat)
    requires
        c.len() <= d,
        forall|x: int| red::<F>(eval(c, x)) == red::<F>(#[trigger] f(x)),
    ensures
        is_polynomial::<F>(f, d),
{
    assert(computes::<F>(c, f));
}

/// A constant is a polynomial.
proof fn lemma_constant<F: PrimeField>(s: int, d: nat)
    requires
        d >= 1,
    ensures
        is_polynomial::<F>(|x: int| s, d),
{
    let c = seq![s];
    let f = |x: int| s;
    assert forall|x: int| red::<F>(#[trigger] eval(c, x)) == red::<F>(f(x)) by {
        assert(c.skip(1) =~= Seq::<int>::empty());
        assert(eval(c.skip(1), x) == 0);
        assert(x * 0 == 0);
    }
    assert(computes::<F>(c, f));
}

/// The sum of a polynomial and a multiple of another.
proof fn lemma_sum<F: PrimeField>(
    f: spec_fn(int) -> int,
    s: int,
    g: spec_fn(int) -> int,
    h: spec_fn(int) -> int,
    d: nat,
)
    requires
        is_polynomial::<F>(f, d),
        is_polynomial::<F>(g, d),
        forall|x: int| red::<F>(#[trigger] h(x)) == red::<F>(f(x) + s * g(x)),
    ensures
        is_polynomial::<F>(h, d),
{
    let a = choose|c: Seq<int>| c.len() <= d && #[trigger] computes::<F>(c, f);
    let b = choose|c: Seq<int>| c.len() <= d && #[trigger] computes::<F>(c, g);
    let (a1, b1) = (padded_seq(a, d), padded_seq(b, d));
    let c = Seq::new(d, |i: int| a1[i] + s * b1[i]);
    assert forall|x: int| red::<F>(#[trigger] eval(c, x)) == red::<F>(h(x)) by {
        lemma_eval_add_scaled(a1, s, b1, c, x);
        lemma_padded(a, d, x);
        lemma_padded(b, d, x);
        assert(red::<F>(eval(a, x)) == red::<F>(f(x)));
        assert(red::<F>(eval(b, x)) == red::<F>(g(x)));
        lemma_red_mul::<F>(s, eval(b, x), s, g(x));
        lemma_red_add::<F>(eval(a, x), s * eval(b, x), f(x), s * g(x));
        assert(red::<F>(h(x)) == red::<F>(f(x) + s * g(x)));
    }
    assert(computes::<F>(c, h));
}

/// The product of two polynomials, by its coefficients.
spec fn multiplied(a: Seq<int>, b: Seq<int>) -> Seq<int>
    decreases a.len(),
{
    if a.len() == 0 {
        Seq::empty()
    } else {
        let rest = seq![0int] + multiplied(a.skip(1), b);
        let n = (a.len() + b.len()) as nat;
        Seq::new(n, |i: int| padded_seq(rest, n)[i] + a[0] * padded_seq(b, n)[i])
    }
}

proof fn lemma_multiplied(a: Seq<int>, b: Seq<int>, x: int)
    ensures
        a.len() > 0 ==> multiplied(a, b).len() == a.len() + b.len(),
        eval(multiplied(a, b), x) == eval(a, x) * eval(b, x),
    decreases a.len(),
{
    if a.len() == 0 {
        assert(0 * eval(b, x) == 0);
    } else {
        let m = multiplied(a.skip(1), b);
        let rest = seq![0int] + m;
        let n = (a.len() + b.len()) as nat;
        lemma_multiplied(a.skip(1), b, x);
        let (p, q) = (padded_seq(rest, n), padded_seq(b, n));
        lemma_eval_add_scaled(p, a[0], q, multiplied(a, b), x);
        lemma_padded(rest, n, x);
        lemma_padded(b, n, x);
        assert(rest.skip(1) =~= m);
        let (e, f) = (eval(a.skip(1), x), eval(b, x));
        assert(0 + x * (e * f) + a[0] * f == (a[0] + x * e) * f) by (nonlinear_arith);
    }
}

/// The last coefficient of a product as `multiplied` writes it is zero.
proof fn lemma_multiplied_last(a: Seq<int>, b: Seq<int>)
    requires
        a.len() > 0,
        b.len() > 0,
    ensures
        multiplied(a, b).last() == 0,
    decreases a.len(),
{
    let m = multiplied(a.skip(1), b);
    let rest = seq![0int] + m;
    let n = (a.len() + b.len()) as nat;
    lemma_multiplied(a, b, 0);
    assert(a[0] * 0 == 0);
    if a.len() > 1 {
        lemma_multiplied(a.skip(1), b, 0);
        lemma_multiplied_last(a.skip(1), b);
    }
}

/// The product of two polynomials.
proof fn lemma_product<F: PrimeField>(
    f: spec_fn(int) -> int,
    g: spec_fn(int) -> int,
    h: spec_fn(int) -> int,
    d: nat,
    e: nat,
)
    requires
        d >= 1,
        e >= 1,
        is_polynomial::<F>(f, d),
        is_polynomial::<F>(g, e),
        forall|x: int| red::<F>(#[trigger] h(x)) == red::<F>(f(x) * g(x)),
    ensures
        is_polynomial::<F>(h, (d + e - 1) as nat),
{
    let a0 = choose|c: Seq<int>| c.len() <= d && #[trigger] computes::<F>(c, f);
    let b0 = choose|c: Seq<int>| c.len() <= e && #[trigger] computes::<F>(c, g);
    let (a, b) = (padded_seq(a0, d), padded_seq(b0, e));
    let m = multiplied(a, b);
    let c = m.drop_last();
    lemma_multiplied(a, b, 0);
    lemma_multiplied_last(a, b);
    assert forall|x: int| red::<F>(#[trigger] eval(c, x)) == red::<F>(h(x)) by {
        lemma_multiplied(a, b, x);
        assert(m =~= padded_seq(c, m.len()));
        lemma_padded(c, m.len(), x);
        lemma_padded(a0, d, x);
        lemma_padded(b0, e, x);
        assert(red::<F>(eval(a0, x)) == red::<F>(f(x)));
        assert(red::<F>(eval(b0, x)) == red::<F>(g(x)));
        lemma_red_mul::<F>(eval(a0, x), eval(b0, x), f(x), g(x));
        assert(red::<F>(h(x)) == red::<F>(f(x) * g(x)));
    }
    assert(computes::<F>(c, h));
}

/// More coefficients may be allowed.
proof fn lemma_wider<F: PrimeField>(f: spec_fn(int) -> int, d: nat, e: nat)
    requires
        is_polynomial::<F>(f, d),
        d <= e,
    ensures
        is_polynomial::<F>(f, e),
{
    let c = choose|c: Seq<int>| c.len() <= d && #[trigger] computes::<F>(c, f);
    assert(c.len() <= e && computes::<F>(c, f));
}

/// The argument is a polynomial.
proof fn lemma_argument<F: PrimeField>(d: nat)
    requires
        d >= 2,
    ensures
        is_polynomial::<F>(|x: int| x, d),
{
    let c = seq![0int, 1int];
    let f = |x: int| x;
    assert forall|x: int| red::<F>(#[trigger] eval(c, x)) == red::<F>(f(x)) by {
        let c1 = c.skip(1);
        assert(c1 =~= seq![1int]);
        assert(c1.skip(1) =~= Seq::<int>::empty());
        assert(eval(c1.skip(1), x) == 0);
        assert(eval(c1, x) == 1 + x * 0);
        assert(0 + x * 1 == x);
    }
    assert(computes::<F>(c, f));
}

/// The residue of the value of a polynomial is a polynomial.
proof fn lemma_value<F: PrimeField>(poly: Seq<int>, f: spec_fn(int) -> int, d: nat)
    requires
        poly.len() <= d,
        forall|x: int| #[trigger] f(x) == red::<F>(eval(poly, x)),
    ensures
        is_polynomial::<F>(f, d),
{
    assert forall|x: int| red::<F>(eval(poly, x)) == red::<F>(#[trigger] f(x)) by {
        lemma_red_range::<F>(eval(poly, x));
    }
    lemma_coefficients::<F>(poly, f, d);
}

/// The value one step on is a polynomial.
proof fn lemma_next_value<F: PrimeField>(
    poly: Seq<int>,
    omega: int,
    f: spec_fn(int) -> int,
    d: nat,
)
    requires
        poly.len() <= d,
        forall|x: int| #[trigger] f(x) == red::<F>(eval(poly, red::<F>(x * omega))),
    ensures
        is_polynomial::<F>(f, d),
{
    let c = Seq::new(poly.len(), |j: int| pow(omega, j as nat) * poly[j]);
    assert forall|x: int| red::<F>(eval(c, x)) == red::<F>(#[trigger] f(x)) by {
        crate::fft::lemma_eval_scaled(poly, c, omega, x, 0);
        lemma_pow0(omega);
        assert(1 * eval(poly, omega * x) == eval(poly, omega * x));
        assert(omega * x == x * omega) by (nonlinear_arith);
        lemma_red_range::<F>(x * omega);
        crate::fft::lemma_eval_point_congruent::<F>(poly, red::<F>(x * omega), x * omega);
        lemma_red_range::<F>(eval(poly, red::<F>(x * omega)));
    }
    lemma_coefficients::<F>(c, f, d);
}

/// A polynomial as a multiple of `X^n - 1` and a remainder of `n` coefficients.
pub proof fn lemma_remainder(c: Seq<int>, n: nat) -> (r: (Seq<int>, Seq<int>))
    requires
        n >= 1,
    ensures
        r.1.len() <= n,
        c.len() <= n ==> r.0.len() == 0,
        c.len() > n ==> r.0.len() <= c.len() - n,
        forall|x: int|
            #[trigger] eval(c, x) == eval(r.0, x) * (pow(x, n) - 1) + eval(r.1, x),
    decreases c.len(),
{
    if c.len() <= n {
        let q = Seq::<int>::empty();
        assert forall|x: int| #[trigger] eval(c, x) == eval(q, x) * (pow(x, n) - 1) + eval(
            c,
            x,
        ) by {
            assert(0 * (pow(x, n) - 1) == 0);
        }
        (q, c)
    } else {
        let (low, high) = (c.take(n as int), c.skip(n as int));
        let m = if high.len() > n {
            high.len()
        } else {
            n
        };
        let folded = Seq::new(m, |i: int| padded_seq(low, m)[i] + 1 * padded_seq(high, m)[i]);
        let (q, r) = lemma_remainder(folded, n);
        let k = high.len();
        let sum = Seq::new(k, |i: int| high[i] + 1 * padded_seq(q, k)[i]);
        assert(q.len() <= k);
        assert forall|x: int| #[trigger] eval(c, x) == eval(sum, x) * (pow(x, n) - 1) + eval(
            r,
            x,
        ) by {
            assert(c =~= low + high);
            lemma_eval_concat(low, high, x);
            lemma_eval_add_scaled(padded_seq(low, m), 1, padded_seq(high, m), folded, x);
            lemma_padded(low, m, x);
            lemma_padded(high, m, x);
            lemma_eval_add_scaled(high, 1, padded_seq(q, k), sum, x);
            lemma_padded(q, k, x);
            assert(eval(folded, x) == eval(q, x) * (pow(x, n) - 1) + eval(r, x));
            let (p, h, e) = (pow(x, n), eval(high, x), eval(q, x));
            assert(1 * h == h && 1 * e == e);
            assert((h + e) * (p - 1) == h * p - h + e * (p - 1)) by (nonlinear_arith);
            assert(p * h == h * p) by (nonlinear_arith);
        }
        (sum, r)
    }
}

/// A polynomial that vanishes on a domain is a multiple of the polynomial of
/// smallest degree that does.
pub proof fn law_vanishing_divides<F: PrimeField>(
    c: Seq<int>,
    omega: int,
    k: nat,
) -> (q: Seq<int>)
    requires
        generates::<F>(omega, k),
        forall|i: int|
            0 <= i < pow2(k) ==> red::<F>(eval(c, #[trigger] pow(omega, i as nat))) == 0,
    ensures
        c.len() > pow2(k) ==> q.len() <= c.len() - pow2(k),
        c.len() <= pow2(k) ==> q.len() == 0,
        forall|x: int|
            red::<F>(#[trigger] eval(c, x)) == red::<F>(eval(q, x) * (pow(x, pow2(k)) - 1)),
{
    let n = pow2(k);
    lemma_pow2_pos(k);
    lemma_red_small::<F>();
    let (q, r) = lemma_remainder(c, n);
    let rem = padded_seq(r, n);
    let zero = Seq::new(n, |i: int| 0int);
    assert forall|i: int| 0 <= i < pow2(k) implies red::<F>(
        eval(rem, #[trigger] pow(omega, i as nat)),
    ) == red::<F>(eval(zero, pow(omega, i as nat))) by {
        let x = pow(omega, i as nat);
        lemma_padded(r, n, x);
        lemma_eval_zero(zero, x);
        // the divisor vanishes there
        lemma_generates_order::<F>(omega, k);
        lemma_pow_multiplies(omega, i as nat, n);
        lemma_pow_multiplies(omega, n, i as nat);
        assert(i as nat * n == n * i as nat) by (nonlinear_arith);
        lemma_red_pow::<F>(pow(omega, n), 1, i as nat);
        lemma1_pow(i as nat);
        lemma_red_sub::<F>(pow(x, n), 1, 1, 1);
        let e = eval(q, x);
        lemma_red_mul::<F>(e, pow(x, n) - 1, e, 0);
        assert(e * 0 == 0);
        assert(eval(c, x) == e * (pow(x, n) - 1) + eval(r, x));
        lemma_red_add::<F>(e * (pow(x, n) - 1), eval(r, x), 0, eval(r, x));
    }
    lemma_unique_on_domain::<F>(rem, zero, omega, k);
    assert forall|x: int| red::<F>(#[trigger] eval(c, x)) == red::<F>(
        eval(q, x) * (pow(x, n) - 1),
    ) by {
        lemma_padded(r, n, x);
        lemma_eval_congruent::<F>(rem, zero, x);
        lemma_eval_zero(zero, x);
        let a = eval(q, x) * (pow(x, n) - 1);
        lemma_red_add::<F>(a, eval(r, x), a, 0);
    }
    q
}

/// A sum of a polynomial and a multiple of a product of two others.
proof fn lemma_add_product<F: PrimeField>(
    f: spec_fn(int) -> int,
    s: int,
    g1: spec_fn(int) -> int,
    g2: spec_fn(int) -> int,
    h: spec_fn(int) -> int,
    d: nat,
    e1: nat,
    e2: nat,
)
    requires
        is_polynomial::<F>(f, d),
        is_polynomial::<F>(g1, e1),
        is_polynomial::<F>(g2, e2),
        e1 >= 1,
        e2 >= 1,
        e1 + e2 - 1 <= d,
        forall|x: int| red::<F>(#[trigger] h(x)) == red::<F>(f(x) + s * (g1(x) * g2(x))),
    ensures
        is_polynomial::<F>(h, d),
{
    let g = |x: int| g1(x) * g2(x);
    lemma_product::<F>(g1, g2, g, e1, e2);
    lemma_wider::<F>(g, (e1 + e2 - 1) as nat, d);
    lemma_sum::<F>(f, s, g, h, d);
}

/// A polynomial plus a constant.
proof fn lemma_add_constant<F: PrimeField>(
    f: spec_fn(int) -> int,
    s: int,
    h: spec_fn(int) -> int,
    d: nat,
)
    requires
        is_polynomial::<F>(f, d),
        d >= 1,
        forall|x: int| red::<F>(#[trigger] h(x)) == red::<F>(f(x) + s),
    ensures
        is_polynomial::<F>(h, d),
{
    let g = |x: int| s;
    lemma_constant::<F>(s, d);
    assert forall|x: int| red::<F>(#[trigger] h(x)) == red::<F>(f(x) + 1 * g(x)) by {
        assert(1 * g(x) == s);
    }
    lemma_sum::<F>(f, 1, g, h, d);
}

/// A product of `wire + gamma + beta * point` over the first `j` columns.
proof fn lemma_perm_product_polynomial<F: PrimeField>(
    wires: spec_fn(int) -> Seq<int>,
    points: spec_fn(int) -> Seq<int>,
    beta: int,
    gamma: int,
    n: nat,
    j: nat,
)
    requires
        n >= 1,
        forall|x: int| (#[trigger] wires(x)).len() >= j,
        forall|x: int| (#[trigger] points(x)).len() >= j,
        forall|i: int| 0 <= i < j ==> is_polynomial::<F>(#[trigger] entry(wires, i), n),
        forall|i: int| 0 <= i < j ==> is_polynomial::<F>(#[trigger] entry(points, i), n),
    ensures
        is_polynomial::<F>(
            |x: int|
                perm_product(
                    wires(x).take(j as int),
                    points(x).take(j as int),
                    beta,
                    gamma,
                ),
            (j * (n - 1) + 1) as nat,
        ),
    decreases j,
{
    let h = |x: int|
        perm_product(wires(x).take(j as int), points(x).take(j as int), beta, gamma);
    if j == 0 {
        lemma_constant::<F>(1, 1);
        let one = |x: int| 1int;
        assert forall|x: int| #[trigger] h(x) == one(x) by {}
        let c = choose|c: Seq<int>| c.len() <= 1 && #[trigger] computes::<F>(c, one);
        assert forall|x: int| red::<F>(eval(c, x)) == red::<F>(#[trigger] h(x)) by {
            assert(red::<F>(eval(c, x)) == red::<F>(one(x)));
        }
        assert(0 * (n - 1) + 1 == 1);
        lemma_coefficients::<F>(c, h, 1);
    } else {
        let k = (j - 1) as nat;
        lemma_perm_product_polynomial::<F>(wires, points, beta, gamma, n, k);
        let f = |x: int|
            perm_product(wires(x).take(k as int), points(x).take(k as int), beta, gamma);
        let (a, b) = (entry(wires, k as int), entry(points, k as int));
        let t = |x: int| a(x) + beta * b(x);
        let g = |x: int| a(x) + gamma + beta * b(x);
        lemma_sum::<F>(a, beta, b, t, n);
        lemma_add_constant::<F>(t, gamma, g, n);
        assert forall|x: int| red::<F>(#[trigger] h(x)) == red::<F>(f(x) * g(x)) by {
            let (w, p) = (wires(x), points(x));
            assert(w.take(j as int).drop_last() =~= w.take(k as int));
            assert(p.take(j as int).drop_last() =~= p.take(k as int));
        }
        let d = (k * (n - 1) + 1) as nat;
        assert(k * (n - 1) >= 0) by (nonlinear_arith)
            requires
                k >= 0,
                n >= 1,
        ;
        lemma_product::<F>(f, g, h, d, n);
        assert(d + n - 1 == j * (n - 1) + 1) by (nonlinear_arith)
            requires
                d == k * (n - 1) + 1,
                j == k + 1,
        ;
    }
}

/// One entry of a function that gives sequences.
pub open spec fn entry(f: spec_fn(int) -> Seq<int>, i: int) -> spec_fn(int) -> int {
    |x: int| f(x)[i]
}

/// The rows of an argument, as a function of the point.
pub open spec fn rows<F: PrimeField>(
    p: ProverPolynomials<F>,
    domain: Domain<F>,
    inputs: Seq<int>,
) -> spec_fn(int) -> Row {
    |x: int| row_at(p, domain, eval(inputs, x), x)
}

/// The polynomials that rows are made of.
spec fn shaped<F: PrimeField>(
    gates: Seq<Gate>,
    p: ProverPolynomials<F>,
    domain: Domain<F>,
    inputs: Seq<int>,
) -> bool {
    &&& domain.wf()
    &&& domain.size >= 2
    &&& p.arguments_wf(gates, domain.size as int)
    &&& inputs.len() == domain.size
}

proof fn lemma_wires_polynomial<F: PrimeField>(
    gates: Seq<Gate>,
    p: ProverPolynomials<F>,
    domain: Domain<F>,
    inputs: Seq<int>,
    i: int,
)
    requires
        shaped(gates, p, domain, inputs),
        0 <= i < 4,
    ensures
        is_polynomial::<F>(
            entry(|x: int| rows(p, domain, inputs)(x).wires, i),
            domain.size as nat,
        ),
        is_polynomial::<F>(
            entry(|x: int| rows(p, domain, inputs)(x).permutations, i),
            domain.size as nat,
        ),
{
    let n = domain.size as nat;
    let row = rows(p, domain, inputs);
    let ids = seq![0usize, 1, 2, 3];
    let a = entry(|x: int| row(x).wires, i);
    let b = entry(|x: int| row(x).permutations, i);
    let (s, t) = (p.monomials.state@[i], p.monomials.permutations@[i]);
    assert(s@.len() == n && t@.len() == n);
    assert(ids[i] == i);
    lemma_value::<F>(vals(s@), a, n);
    lemma_value::<F>(vals(t@), b, n);
}

proof fn lemma_main_gate_polynomial<F: PrimeField>(
    gates: Seq<Gate>,
    p: ProverPolynomials<F>,
    domain: Domain<F>,
    inputs: Seq<int>,
)
    requires
        shaped(gates, p, domain, inputs),
    ensures
        is_polynomial::<F>(
            |x: int|
                {
                    let r = rows(p, domain, inputs)(x);
                    main_gate(r.setup, r.wires, r.d_next, r.constant)
                },
            (3 * domain.size - 2) as nat,
        ),
{
    let n = domain.size as nat;
    let d = (3 * n - 2) as nat;
    let row = rows(p, domain, inputs);
    let m = p.monomials;
    let q = m.gate_setup@[0]@;
    let omega = domain.generator.val();
    let ids = seq![0usize, 1, 2, 3, 4, 6];
    lemma_wires_polynomial(gates, p, domain, inputs, 0);
    lemma_wires_polynomial(gates, p, domain, inputs, 1);
    lemma_wires_polynomial(gates, p, domain, inputs, 2);
    lemma_wires_polynomial(gates, p, domain, inputs, 3);
    let ws = |x: int| row(x).wires;
    let (w0, w1, w2, w3) = (entry(ws, 0), entry(ws, 1), entry(ws, 2), entry(ws, 3));
    let qs = |x: int| row(x).setup;
    let (q0, q1, q2, q3, q4, q5) = (
        entry(qs, 0),
        entry(qs, 1),
        entry(qs, 2),
        entry(qs, 3),
        entry(qs, 4),
        entry(qs, 5),
    );
    assert(crate::polynomial::all_len(q, n as int));
    lemma_value::<F>(vals(q[0]@), q0, n);
    lemma_value::<F>(vals(q[1]@), q1, n);
    lemma_value::<F>(vals(q[2]@), q2, n);
    lemma_value::<F>(vals(q[3]@), q3, n);
    lemma_value::<F>(vals(q[4]@), q4, n);
    lemma_value::<F>(vals(q[6]@), q5, n);
    let dn = |x: int| row(x).d_next;
    lemma_next_value::<F>(vals(m.state@[3]@), omega, dn, n);
    // the public inputs and the constants
    let (u, v) = (|x: int| eval(inputs, x), |x: int| eval(vals(q[5]@), x));
    let c = |x: int| row(x).constant;
    lemma_coefficients::<F>(inputs, u, n);
    lemma_coefficients::<F>(vals(q[5]@), v, n);
    assert forall|x: int| red::<F>(#[trigger] c(x)) == red::<F>(u(x) + 1 * v(x)) by {
        lemma_red_range::<F>(u(x) + v(x));
        assert(1 * v(x) == v(x));
    }
    lemma_sum::<F>(u, 1, v, c, n);
    lemma_wider::<F>(c, n, d);
    // the sum
    let h0 = |x: int| c(x) + q0(x) * w0(x);
    let h1 = |x: int| h0(x) + q1(x) * w1(x);
    let h2 = |x: int| h1(x) + q2(x) * w2(x);
    let h3 = |x: int| h2(x) + q3(x) * w3(x);
    let ab = |x: int| q4(x) * w0(x);
    let h4 = |x: int| h3(x) + q4(x) * w0(x) * w1(x);
    let h5 = |x: int| h4(x) + q5(x) * dn(x);
    lemma_add_product::<F>(c, 1, q0, w0, h0, d, n, n);
    lemma_add_product::<F>(h0, 1, q1, w1, h1, d, n, n);
    lemma_add_product::<F>(h1, 1, q2, w2, h2, d, n, n);
    lemma_add_product::<F>(h2, 1, q3, w3, h3, d, n, n);
    lemma_product::<F>(q4, w0, ab, n, n);
    lemma_add_product::<F>(h3, 1, ab, w1, h4, d, (2 * n - 1) as nat, n);
    lemma_add_product::<F>(h4, 1, q5, dn, h5, d, n, n);
    let goal = |x: int|
        {
            let r = row(x);
            main_gate(r.setup, r.wires, r.d_next, r.constant)
        };
    lemma_same::<F>(h5, goal, d);
}

/// Functions with the same values are polynomials together.
proof fn lemma_same<F: PrimeField>(f: spec_fn(int) -> int, g: spec_fn(int) -> int, d: nat)
    requires
        is_polynomial::<F>(f, d),
        forall|x: int| #[trigger] g(x) == f(x),
    ensures
        is_polynomial::<F>(g, d),
{
    let c = choose|c: Seq<int>| c.len() <= d && #[trigger] computes::<F>(c, f);
    assert forall|x: int| red::<F>(eval(c, x)) == red::<F>(#[trigger] g(x)) by {
        assert(red::<F>(eval(c, x)) == red::<F>(f(x)));
    }
    lemma_coefficients::<F>(c, g, d);
}

proof fn lemma_gate_terms_polynomial<F: PrimeField>(
    gates: Seq<Gate>,
    p: ProverPolynomials<F>,
    domain: Domain<F>,
    inputs: Seq<int>,
    alpha: int,
    k: nat,
)
    requires
        shaped(gates, p, domain, inputs),
        1 <= k <= gates.len(),
    ensures
        is_polynomial::<F>(
            |x: int| gate_terms(gates, rows(p, domain, inputs)(x), alpha, k),
            (4 * domain.size - 3) as nat,
        ),
    decreases k,
{
    let n = domain.size as nat;
    let d = (4 * n - 3) as nat;
    let row = rows(p, domain, inputs);
    let sel = p.monomials.gate_selectors@;
    let zero = |x: int| 0int;
    lemma_constant::<F>(0, d);
    let goal = |x: int| gate_terms(gates, row(x), alpha, k);
    if k == 1 {
        lemma_main_gate_polynomial(gates, p, domain, inputs);
        let g = |x: int|
            {
                let r = row(x);
                main_gate(r.setup, r.wires, r.d_next, r.constant)
            };
        let a = pow(alpha, 0);
        if gates.len() > 1 {
            let s = |x: int| row(x).selectors[0];
            assert(sel[0]@.len() == n);
            lemma_value::<F>(vals(sel[0]@), s, n);
            assert forall|x: int| red::<F>(#[trigger] goal(x)) == red::<F>(
                zero(x) + a * (g(x) * s(x)),
            ) by {
                let (y, t) = (g(x), s(x));
                assert(y * a * t == a * (y * t)) by (nonlinear_arith);
            }
            lemma_add_product::<F>(zero, a, g, s, goal, d, (3 * n - 2) as nat, n);
        } else {
            lemma_wider::<F>(g, (3 * n - 2) as nat, d);
            assert forall|x: int| red::<F>(#[trigger] goal(x)) == red::<F>(zero(x) + a * g(x)) by {
                let y = g(x);
                assert(y * a == a * y) by (nonlinear_arith);
            }
            lemma_sum::<F>(zero, a, g, goal, d);
        }
    } else {
        lemma_gate_terms_polynomial(gates, p, domain, inputs, alpha, (k - 1) as nat);
        lemma_wires_polynomial(gates, p, domain, inputs, 0);
        let f = |x: int| gate_terms(gates, row(x), alpha, (k - 1) as nat);
        let w = entry(|x: int| row(x).wires, 0);
        let v = |x: int| w(x) - 1;
        let b = |x: int| bit_gate(row(x).wires[0]);
        let s = |x: int| row(x).selectors[k - 1];
        let a = pow(alpha, terms_before(gates, (k - 1) as nat));
        assert(sel[k - 1]@.len() == n);
        lemma_value::<F>(vals(sel[k - 1]@), s, n);
        lemma_add_constant::<F>(w, -1, v, n);
        lemma_product::<F>(v, w, b, n, n);
        assert forall|x: int| red::<F>(#[trigger] goal(x)) == red::<F>(
            f(x) + a * (b(x) * s(x)),
        ) by {
            let (y, t) = (b(x), s(x));
            assert(y * a * t == a * (y * t)) by (nonlinear_arith);
        }
        lemma_add_product::<F>(f, a, b, s, goal, d, (2 * n - 1) as nat, n);
    }
}

proof fn lemma_copy_terms_polynomial<F: PrimeField>(
    gates: Seq<Gate>,
    p: ProverPolynomials<F>,
    domain: Domain<F>,
    inputs: Seq<int>,
    w: Weights,
    a0: int,
    a1: int,
)
    requires
        shaped(gates, p, domain, inputs),
        w.shifts.len() == 4,
    ensures
        is_polynomial::<F>(
            |x: int| copy_terms::<F>(rows(p, domain, inputs)(x), w, a0, a1),
            (5 * domain.size - 4) as nat,
        ),
{
    let n = domain.size as nat;
    let d = (5 * n - 4) as nat;
    let row = rows(p, domain, inputs);
    let omega = domain.generator.val();
    let wires = |x: int| row(x).wires;
    let perms = |x: int| row(x).permutations;
    let points = |x: int| coset_row::<F>(row(x).x, w.shifts);
    let id = |x: int| x;
    let zero = |x: int| 0int;
    lemma_constant::<F>(0, d);
    lemma_constant::<F>(0, n);
    lemma_argument::<F>(n);
    assert forall|i: int| 0 <= i < 4 implies is_polynomial::<F>(#[trigger] entry(wires, i), n) by {
        lemma_wires_polynomial(gates, p, domain, inputs, i);
    }
    assert forall|i: int| 0 <= i < 4 implies is_polynomial::<F>(#[trigger] entry(perms, i), n) by {
        lemma_wires_polynomial(gates, p, domain, inputs, i);
    }
    assert forall|i: int| 0 <= i < 4 implies is_polynomial::<F>(#[trigger] entry(points, i), n) by {
        let s = w.shifts[i];
        let f = entry(points, i);
        assert forall|x: int| red::<F>(#[trigger] f(x)) == red::<F>(zero(x) + s * id(x)) by {
            let y = red::<F>(x);
            lemma_red_range::<F>(x);
            lemma_red_range::<F>(y * s);
            lemma_red_mul::<F>(y, s, x, s);
            assert(x * s == s * x) by (nonlinear_arith);
        }
        lemma_sum::<F>(zero, s, id, f, n);
    }
    lemma_perm_product_polynomial::<F>(wires, points, w.beta, w.gamma, n, 4);
    lemma_perm_product_polynomial::<F>(wires, perms, w.beta, w.gamma, n, 4);
    let e = (4 * (n - 1) + 1) as nat;
    let g1 = |x: int| perm_product(row(x).wires, points(x), w.beta, w.gamma);
    let g2 = |x: int| perm_product(row(x).wires, row(x).permutations, w.beta, w.gamma);
    let f1 = |x: int| perm_product(wires(x).take(4), points(x).take(4), w.beta, w.gamma);
    let f2 = |x: int| perm_product(wires(x).take(4), perms(x).take(4), w.beta, w.gamma);
    assert forall|x: int| #[trigger] g1(x) == f1(x) by {
        assert(wires(x).take(4) =~= row(x).wires);
        assert(points(x).take(4) =~= points(x));
    }
    assert forall|x: int| #[trigger] g2(x) == f2(x) by {
        assert(wires(x).take(4) =~= row(x).wires);
        assert(perms(x).take(4) =~= row(x).permutations);
    }
    lemma_same::<F>(f1, g1, e);
    lemma_same::<F>(f2, g2, e);
    let z = |x: int| row(x).z;
    let zn = |x: int| row(x).z_next;
    let l = |x: int| row(x).l_0;
    let zm = |x: int| z(x) - 1;
    lemma_value::<F>(vals(p.copy_z@), z, n);
    lemma_next_value::<F>(vals(p.copy_z@), omega, zn, n);
    lemma_value::<F>(lagrange_poly::<F>(omega, n, 0), l, n);
    lemma_add_constant::<F>(z, -1, zm, n);
    let h1 = |x: int| a0 * (z(x) * g1(x));
    let h2 = |x: int| h1(x) - a0 * (zn(x) * g2(x));
    let h3 = |x: int| h2(x) + a1 * (zm(x) * l(x));
    lemma_add_product::<F>(zero, a0, z, g1, h1, d, n, e);
    assert forall|x: int| red::<F>(#[trigger] h2(x)) == red::<F>(
        h1(x) + (-a0) * (zn(x) * g2(x)),
    ) by {
        let y = zn(x) * g2(x);
        assert((-a0) * y == -(a0 * y)) by (nonlinear_arith);
    }
    lemma_add_product::<F>(h1, -a0, zn, g2, h2, d, n, e);
    lemma_add_product::<F>(h2, a1, zm, l, h3, d, n, n);
    lemma_same::<F>(h3, |x: int| copy_terms::<F>(row(x), w, a0, a1), d);
}

proof fn lemma_lookup_terms_polynomial<F: PrimeField>(
    gates: Seq<Gate>,
    p: ProverPolynomials<F>,
    domain: Domain<F>,
    inputs: Seq<int>,
    w: LookupWeights,
    a0: int,
    a1: int,
    a2: int,
)
    requires
        shaped(gates, p, domain, inputs),
        p.lookup is Some,
    ensures
        is_polynomial::<F>(
            |x: int|
                {
                    let r = rows(p, domain, inputs)(x);
                    lookup_terms(r, r.lookup->0, w, a0, a1, a2)
                },
            (5 * domain.size - 4) as nat,
        ),
{
    let n = domain.size as nat;
    let d = (5 * n - 4) as nat;
    let row = rows(p, domain, inputs);
    let q = p.lookup->0;
    let omega = domain.generator.val();
    let gb = gamma_beta(w.beta, w.gamma);
    let zero = |x: int| 0int;
    lemma_constant::<F>(0, d);
    let z = |x: int| row(x).lookup->0.z;
    let zn = |x: int| row(x).lookup->0.z_next;
    let s = |x: int| row(x).lookup->0.s;
    let sn = |x: int| row(x).lookup->0.s_next;
    let t = |x: int| row(x).lookup->0.t;
    let tn = |x: int| row(x).lookup->0.t_next;
    let tt = |x: int| row(x).lookup->0.table_type;
    let sel = |x: int| row(x).lookup->0.selector;
    let ll = |x: int| row(x).lookup->0.l_last;
    let l0 = |x: int| row(x).l_0;
    lemma_value::<F>(vals(q.z@), z, n);
    lemma_next_value::<F>(vals(q.z@), omega, zn, n);
    lemma_value::<F>(vals(q.s@), s, n);
    lemma_next_value::<F>(vals(q.s@), omega, sn, n);
    lemma_value::<F>(vals(q.t@), t, n);
    lemma_next_value::<F>(vals(q.t@), omega, tn, n);
    lemma_value::<F>(vals(q.table_type@), tt, n);
    lemma_value::<F>(vals(q.selector@), sel, n);
    lemma_value::<F>(lagrange_poly::<F>(omega, n, (n - 1) as nat), ll, n);
    lemma_value::<F>(lagrange_poly::<F>(omega, n, 0), l0, n);
    // the sorted column and the tables
    let s1 = |x: int| s(x) + w.beta * sn(x);
    let ds = |x: int| lookup_denominator(s(x), sn(x), w.beta, w.gamma);
    lemma_sum::<F>(s, w.beta, sn, s1, n);
    lemma_add_constant::<F>(s1, gb, ds, n);
    let t1 = |x: int| t(x) + w.beta * tn(x);
    let dt = |x: int| lookup_denominator(t(x), tn(x), w.beta, w.gamma);
    lemma_sum::<F>(t, w.beta, tn, t1, n);
    lemma_add_constant::<F>(t1, gb, dt, n);
    // the query
    lemma_wires_polynomial(gates, p, domain, inputs, 0);
    lemma_wires_polynomial(gates, p, domain, inputs, 1);
    lemma_wires_polynomial(gates, p, domain, inputs, 2);
    let ws = |x: int| row(x).wires;
    let (w0, w1, w2) = (entry(ws, 0), entry(ws, 1), entry(ws, 2));
    let (e2, e3) = (w.eta * w.eta, w.eta * w.eta * w.eta);
    let u1 = |x: int| w0(x) + w.eta * w1(x);
    let u2 = |x: int| u1(x) + e2 * w2(x);
    let u3 = |x: int| u2(x) + e3 * tt(x);
    let f = |x: int| u3(x) * sel(x);
    let fg = |x: int| f(x) + w.gamma;
    lemma_sum::<F>(w0, w.eta, w1, u1, n);
    lemma_sum::<F>(u1, e2, w2, u2, n);
    lemma_sum::<F>(u2, e3, tt, u3, n);
    let d2 = (2 * n - 1) as nat;
    let d3 = (3 * n - 2) as nat;
    let d4 = (4 * n - 3) as nat;
    lemma_product::<F>(u3, sel, f, n, n);
    lemma_add_constant::<F>(f, w.gamma, fg, d2);
    // the step
    let bp = w.beta + 1;
    let fz = |x: int| fg(x) * z(x);
    let right = |x: int| fz(x) * dt(x);
    let left = |x: int| ds(x) * zn(x);
    lemma_product::<F>(fg, z, fz, d2, n);
    lemma_product::<F>(fz, dt, right, d3, n);
    lemma_product::<F>(ds, zn, left, n, n);
    lemma_wider::<F>(left, d2, d4);
    let diff = |x: int| left(x) - fg(x) * z(x) * bp * dt(x);
    assert forall|x: int| red::<F>(#[trigger] diff(x)) == red::<F>(
        left(x) + (-bp) * right(x),
    ) by {
        let (y, v) = (fg(x) * z(x), dt(x));
        assert(y * bp * v == -((-bp) * (y * v))) by (nonlinear_arith);
    }
    lemma_sum::<F>(left, -bp, right, diff, d4);
    let id = |x: int| x;
    lemma_argument::<F>(2);
    let xm = |x: int| row(x).x - w.last_omega;
    assert forall|x: int| red::<F>(#[trigger] xm(x)) == red::<F>(id(x) + (-w.last_omega)) by {
        lemma_red_range::<F>(x);
        lemma_red_sub::<F>(red::<F>(x), w.last_omega, x, w.last_omega);
    }
    lemma_add_constant::<F>(id, -w.last_omega, xm, 2);
    let h1 = |x: int| diff(x) * a0 * xm(x);
    assert forall|x: int| red::<F>(#[trigger] h1(x)) == red::<F>(
        zero(x) + a0 * (diff(x) * xm(x)),
    ) by {
        let (y, v) = (diff(x), xm(x));
        assert(y * a0 * v == a0 * (y * v)) by (nonlinear_arith);
    }
    lemma_add_product::<F>(zero, a0, diff, xm, h1, d, d4, 2);
    // the ends
    let zm = |x: int| z(x) - 1;
    let ze = |x: int| z(x) - w.expected;
    lemma_add_constant::<F>(z, -1, zm, n);
    lemma_add_constant::<F>(z, -w.expected, ze, n);
    let h2 = |x: int| h1(x) + a1 * (zm(x) * l0(x));
    let h3 = |x: int| h2(x) + a2 * (ze(x) * ll(x));
    lemma_add_product::<F>(h1, a1, zm, l0, h2, d, n, n);
    lemma_add_product::<F>(h2, a2, ze, ll, h3, d, n, n);
    lemma_same::<F>(
        h3,
        |x: int|
            {
                let r = row(x);
                lookup_terms(r, r.lookup->0, w, a0, a1, a2)
            },
        d,
    );
}

/// The numerator is a polynomial of less than five times the size of the domain.
pub proof fn law_numerator_degree<F: PrimeField>(
    gates: Seq<Gate>,
    p: ProverPolynomials<F>,
    domain: Domain<F>,
    inputs: Seq<int>,
    w: Weights,
)
    requires
        supported(gates),
        domain.wf(),
        domain.size >= 2,
        p.arguments_wf(gates, domain.size as int),
        inputs.len() == domain.size,
        w.shifts.len() == 4,
    ensures
        is_polynomial::<F>(
            |x: int| numerator::<F>(gates, rows(p, domain, inputs)(x), w),
            (5 * domain.size - 4) as nat,
        ),
{
    let n = domain.size as nat;
    let d = (5 * n - 4) as nat;
    let row = rows(p, domain, inputs);
    let total = terms_before(gates, gates.len());
    let (a0, a1) = (pow(w.alpha, total), pow(w.alpha, total + 1));
    lemma_gate_terms_polynomial(gates, p, domain, inputs, w.alpha, gates.len());
    lemma_copy_terms_polynomial(gates, p, domain, inputs, w, a0, a1);
    let g = |x: int| gate_terms(gates, row(x), w.alpha, gates.len());
    let c = |x: int| copy_terms::<F>(row(x), w, a0, a1);
    let l = |x: int| optional_lookup_terms(row(x), w, total);
    lemma_wider::<F>(g, (4 * n - 3) as nat, d);
    match (p.lookup, w.lookup) {
        (Some(_), Some(lw)) => {
            let (b0, b1, b2) = (
                pow(w.alpha, total + 2),
                pow(w.alpha, total + 3),
                pow(w.alpha, total + 4),
            );
            lemma_lookup_terms_polynomial(gates, p, domain, inputs, lw, b0, b1, b2);
            let f = |x: int|
                {
                    let r = row(x);
                    lookup_terms(r, r.lookup->0, lw, b0, b1, b2)
                };
            lemma_same::<F>(f, l, d);
        },
        _ => {
            lemma_constant::<F>(0, d);
            let zero = |x: int| 0int;
            lemma_same::<F>(zero, l, d);
        },
    }
    let h1 = |x: int| g(x) + 1 * c(x);
    let h2 = |x: int| h1(x) + 1 * l(x);
    lemma_sum::<F>(g, 1, c, h1, d);
    lemma_sum::<F>(h1, 1, l, h2, d);
    let goal = |x: int| numerator::<F>(gates, row(x), w);
    assert forall|x: int| #[trigger] goal(x) == h2(x) by {
        assert(1 * c(x) == c(x) && 1 * l(x) == l(x));
    }
    lemma_same::<F>(h2, goal, d);
}

/// The numerator vanishes on every row of the domain.
pub open spec fn rows_satisfied<F: PrimeField>(
    gates: Seq<Gate>,
    p: ProverPolynomials<F>,
    domain: Domain<F>,
    inputs: Seq<int>,
    w: Weights,
) -> bool {
    forall|i: int|
        0 <= i < domain.size ==> red::<F>(
            numerator::<F>(
                gates,
                rows(p, domain, inputs)(#[trigger] pow(domain.generator.val(), i as nat)),
                w,
            ),
        ) == 0
}

/// If the numerator vanishes on every row of a domain of at least two elements,
/// then its quotient has the right degree, and is its quotient at every point,
/// not only on the coset that it was computed on.
pub proof fn law_satisfied_rows<F: PrimeField>(
    gates: Seq<Gate>,
    ldes: Ldes<F>,
    p: ProverPolynomials<F>,
    inputs: Seq<int>,
    w: Weights,
    domain: Domain<F>,
    big: Domain<F>,
    c: Seq<F>,
)
    requires
        supported(gates),
        domain.wf(),
        domain.size >= 2,
        big.wf(),
        big.power_of_two == domain.power_of_two + 2,
        p.arguments_wf(gates, domain.size as int),
        inputs.len() == domain.size,
        ldes.wf(gates, big.size as int),
        ldes_of(ldes, p, inputs, domain, big),
        w.shifts.len() == 4,
        is_numerator_quotient(c, gates, ldes, w, domain, big, 4),
        divisible_on_coset(domain, big),
        rows_satisfied(gates, p, domain, inputs, w),
    ensures
        fits_degree(c),
        forall|x: int|
            red::<F>(#[trigger] eval(vals(c), x) * (pow(x, domain.size as nat) - 1)) == red::<F>(
                numerator::<F>(gates, row_at(p, domain, eval(inputs, x), x), w),
            ),
{
    let n = domain.size as nat;
    let k = domain.power_of_two as nat;
    let bits = big.power_of_two as nat;
    let m = pow2(bits);
    let omega = domain.generator.val();
    let big_omega = big.generator.val();
    let g = F::spec_generator();
    let f = |x: int| numerator::<F>(gates, rows(p, domain, inputs)(x), w);
    lemma2_to64();
    lemma_pow2_adds(k, 2);
    lemma_red_small::<F>();
    law_numerator_degree(gates, p, domain, inputs, w);
    let d = (5 * n - 4) as nat;
    let num = choose|c: Seq<int>| c.len() <= d && #[trigger] computes::<F>(c, f);
    assert forall|i: int| 0 <= i < pow2(k) implies red::<F>(
        eval(num, #[trigger] pow(omega, i as nat)),
    ) == 0 by {
        assert(red::<F>(eval(num, pow(omega, i as nat))) == red::<F>(f(pow(omega, i as nat))));
    }
    let q0 = law_vanishing_divides::<F>(num, omega, k);
    let q = padded_seq(q0, m);
    // the two agree on the coset
    assert forall|i: int| 0 <= i < pow2(bits) implies red::<F>(
        eval(vals(c), g * #[trigger] pow(big_omega, i as nat)),
    ) == red::<F>(eval(q, g * pow(big_omega, i as nat))) by {
        let e = i as nat;
        let x = coset_point::<F>(big_omega, e);
        law_quotient(gates, ldes, p, inputs, w, domain, big, c, e);
        lemma_padded(q0, m, x);
        let v = pow(x, n) - 1;
        let all = vanishing_on_coset::<F>(big_omega, n, big.size as nat);
        assert(invertible::<F>(all[i]));
        assert(all[i] == v);
        assert(red::<F>(eval(num, x)) == red::<F>(f(x)));
        let (a, b, y) = (eval(vals(c), x), eval(q0, x), inv::<F>(v));
        assert(red::<F>(a * v) == red::<F>(b * v));
        lemma_red_mul::<F>(a * v, y, b * v, y);
        assert((a * v) * y == a * (v * y)) by (nonlinear_arith);
        assert((b * v) * y == b * (v * y)) by (nonlinear_arith);
        lemma_red_mul::<F>(a, v * y, a, 1);
        lemma_red_mul::<F>(b, v * y, b, 1);
    }
    let gi = F::lemma_generator();
    assert(red::<F>(g * gi) == 1) by {
        reveal(red);
    }
    lemma_invertible::<F>(g, gi);
    crate::fft::lemma_unique_on_coset::<F>(vals(c), q, g, big_omega, bits);
    assert forall|j: int| c.len() - 4 <= j < c.len() implies (#[trigger] c[j]).val() == 0 by {
        assert(red::<F>(vals(c)[j]) == red::<F>(q[j]));
        lemma_val_red(c[j]);
    }
    assert forall|x: int|
        red::<F>(#[trigger] eval(vals(c), x) * (pow(x, n) - 1)) == red::<F>(
            numerator::<F>(gates, row_at(p, domain, eval(inputs, x), x), w),
        ) by {
        lemma_eval_congruent::<F>(vals(c), q, x);
        lemma_padded(q0, m, x);
        lemma_red_mul::<F>(eval(vals(c), x), pow(x, n) - 1, eval(q0, x), pow(x, n) - 1);
        assert(red::<F>(eval(num, x)) == red::<F>(f(x)));
    }
}

/// A circuit whose rows meet their constraints is not refused when its quotient
/// is computed.
pub proof fn law_satisfied_circuit<F: PrimeField, G: Copy>(
    round: LdesRequested<F, G>,
    ldes: Ldes<F>,
    inputs: Seq<int>,
    c: Seq<F>,
)
    requires
        round.wf(),
        round.session.job.domain.size >= 2,
        inputs.len() == round.session.job.domain.size,
        ldes.wf(round.session.job.gates@, round.session.job.big.size as int),
        ldes_of(
            ldes,
            round.polynomials,
            inputs,
            round.session.job.domain,
            round.session.job.big,
        ),
        divisible_on_coset(round.session.job.domain, round.session.job.big),
        rows_satisfied(
            round.session.job.gates@,
            round.polynomials,
            round.session.job.domain,
            inputs,
            weights_of(round.session, round.challenges),
        ),
        round.is_quotient(c, ldes),
    ensures
        fits_degree(c),
{
    let job = round.session.job;
    law_satisfied_rows(
        job.gates@,
        ldes,
        round.polynomials,
        inputs,
        weights_of(round.session, round.challenges),
        job.domain,
        job.big,
        c,
    );
}

/// If the quotient is the quotient of the numerator at the opening point too,
/// then the openings meet the equation that the prover tests. The polynomial
/// `inputs` takes the public inputs in the first rows and is zero in the others.
pub proof fn law_satisfied_openings<F: PrimeField, G: Copy>(
    round: Opened<F, G>,
    contributions: GateContributions<F>,
    linearization: Seq<F>,
    value: F,
    inputs: Seq<F>,
    quotient: Seq<F>,
)
    requires
        round.wf(),
        known_contributions(
            contributions,
            round.session.job.gates@,
            round.polynomials,
            round.session.job.inputs@,
            round.challenges.alpha.val(),
            round.session.job.domain,
            round.z.val(),
        ),
        round.session.job.gates@.len() > 1 ==> round.session.job.queries.gate_selectors@[0] == 0,
        lagranges_defined(
            round.session.job.domain,
            round.z.val(),
            round.polynomials.lookup is Some,
        ),
        inputs_defined::<F>(
            round.session.job.inputs@.len(),
            round.session.job.domain.generator.val(),
            round.session.job.domain.size as nat,
            round.z.val(),
        ),
        represents(
            linearization,
            round.terms(contributions),
            round.session.job.domain.size as int,
        ),
        value.val() == red::<F>(eval(vals(linearization), round.z.val())),
        inputs.len() == round.session.job.domain.size,
        forall|j: int|
            0 <= j < inputs.len() ==> red::<F>(
                eval(
                    vals(inputs),
                    #[trigger] pow(round.session.job.domain.generator.val(), j as nat),
                ),
            ) == if j < round.session.job.inputs@.len() {
                round.session.job.inputs@[j].val()
            } else {
                0
            },
        parts_of(
            round.polynomials.quotient_parts@,
            quotient,
            round.session.job.domain.size as int,
        ),
        red::<F>(
            eval(vals(quotient), round.z.val()) * (pow(
                round.z.val(),
                round.session.job.domain.size as nat,
            ) - 1),
        ) == red::<F>(
            numerator::<F>(
                round.session.job.gates@,
                row_at(
                    round.polynomials,
                    round.session.job.domain,
                    eval(vals(inputs), round.z.val()),
                    round.z.val(),
                ),
                weights_of(round.session, round.challenges),
            ),
        ),
    ensures
        round.satisfied(contributions, value),
{
    law_equation(round, contributions, linearization, value, inputs);
    law_quotient_from_parts(
        round.polynomials.quotient_parts@,
        quotient,
        round.session.job.domain.size as nat,
        round.z.val(),
    );
}

} // verus!
