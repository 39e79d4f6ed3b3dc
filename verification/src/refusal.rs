//! What becomes of a circuit with a row that does not meet its constraints.

use crate::closing_rounds::{weights_of, LdesRequested, Opened};
use crate::completeness::{
    computes, law_numerator_degree, lemma_padded, lemma_remainder, rows, rows_satisfied,
};
use crate::contributions::{inputs_defined, known_contributions};
use crate::domain::{lemma_generates_order, Domain};
use crate::fft::{lemma_unique_on_coset, lemma_unique_on_domain};
use crate::field::{
    all_invertible, inv, invertible, lemma_invertible, lemma_invertible_congruent, lemma_red_add,
    lemma_red_mul, lemma_red_pow, lemma_red_small, lemma_red_sub, lemma_val_red, red, vals,
    PrimeField,
};
use crate::gates::{bit_gate, main_gate, terms_before, Gate};
use crate::laws::{
    horner, law_equation, law_quotient, law_quotient_from_parts, ldes_of, lemma_eval_concat,
    lemma_horner, row_at,
};
use crate::linearization::{lagranges_defined, GateContributions, ProverPolynomials};
use crate::lookup::lookup_denominator;
use crate::permutation::{coset_row, perm_product};
use crate::polynomial::{
    eval, lemma_eval_add_scaled, lemma_eval_congruent, lemma_eval_zero, lemma_product_invertible,
    padded_seq, product, represents,
};
use crate::quotient::{
    coset_point, divisible_on_coset, fits_degree, gate_terms, is_numerator_quotient,
    law_quotient_is_unique, lookup_query, lookup_terms, numerator, parts_of, supported,
    vanishing_on_coset, Ldes, Row, Weights,
};
use crate::witness_laws::gate_constraint;
use vstd::arithmetic::power::*;
use vstd::arithmetic::power2::*;
use vstd::prelude::*;

verus! {

/// Four copies of a polynomial, one after the other.
spec fn fourfold(r: Seq<int>) -> Seq<int> {
    r + (r + (r + r))
}

proof fn lemma_fourfold(r: Seq<int>, x: int)
    ensures
        fourfold(r).len() == 4 * r.len(),
        forall|j: int| 0 <= j < 4 * r.len() ==> #[trigger] fourfold(r)[j] == r[j % r.len() as int],
        eval(fourfold(r), x) * (pow(x, r.len()) - 1) == eval(r, x) * (pow(x, 4 * r.len()) - 1),
{
    let n = r.len();
    let (p, e) = (pow(x, n), eval(r, x));
    lemma_eval_concat(r, r, x);
    lemma_eval_concat(r, r + r, x);
    lemma_eval_concat(r, r + (r + r), x);
    lemma_pow_adds(x, n, n);
    lemma_pow_adds(x, n + n, n + n);
    let f = e + p * (e + p * (e + p * e));
    assert(f * (p - 1) == e * ((p * p) * (p * p) - 1)) by (nonlinear_arith)
        requires
            f == e + p * (e + p * (e + p * e)),
    ;
    assert forall|j: int| 0 <= j < 4 * n implies #[trigger] fourfold(r)[j] == r[j % n as int] by {
        let q = j / n as int;
        vstd::arithmetic::div_mod::lemma_fundamental_div_mod(j, n as int);
        assert(0 <= q < 4) by (nonlinear_arith)
            requires
                j == n * q + j % n as int,
                0 <= j % (n as int) < n,
                0 <= j < 4 * n,
        ;
        assert(n * 0 == 0 && n * 1 == n && n * 2 == n + n && n * 3 == n + n + n);
    }
}

/// The power that every point of the coset has, if the exponent is the order of
/// the larger domain.
pub open spec fn coset_power<F: PrimeField>(n: nat) -> int {
    pow(F::spec_generator(), 4 * n)
}

/// The larger domain extends the domain by a factor of four.
spec fn extended<F: PrimeField>(domain: Domain<F>, big: Domain<F>) -> bool {
    &&& domain.wf()
    &&& big.wf()
    &&& big.power_of_two == domain.power_of_two + 2
}

proof fn lemma_coset_power<F: PrimeField>(domain: Domain<F>, big: Domain<F>, e: nat)
    requires
        extended(domain, big),
    ensures
        big.size == 4 * domain.size,
        red::<F>(pow(coset_point::<F>(big.generator.val(), e), big.size as nat)) == red::<F>(
            coset_power::<F>(domain.size as nat),
        ),
{
    let (g, w, m) = (F::spec_generator(), big.generator.val(), big.size as nat);
    lemma2_to64();
    lemma_pow2_adds(domain.power_of_two as nat, 2);
    lemma_red_small::<F>();
    lemma_pow_distributes(g, pow(w, e), m);
    lemma_pow_multiplies(w, e, m);
    lemma_pow_multiplies(w, m, e);
    assert(e * m == m * e) by (nonlinear_arith);
    lemma_generates_order::<F>(w, big.power_of_two as nat);
    lemma_red_pow::<F>(pow(w, m), 1, e);
    lemma1_pow(e);
    lemma_red_mul::<F>(pow(g, m), pow(w, m * e), pow(g, m), 1);
}

/// If the polynomial that vanishes on the domain has no zero on the coset, then
/// the power that the points of the coset share is not one.
proof fn lemma_coset_power_invertible<F: PrimeField>(domain: Domain<F>, big: Domain<F>)
    requires
        extended(domain, big),
        divisible_on_coset(domain, big),
    ensures
        invertible::<F>(coset_power::<F>(domain.size as nat) - 1),
{
    let n = domain.size as nat;
    let k = domain.power_of_two as nat;
    let (g, w) = (F::spec_generator(), big.generator.val());
    let all = vanishing_on_coset::<F>(w, n, big.size as nat);
    let (y, t) = (pow(g, n), pow(w, n));
    lemma2_to64();
    lemma_pow2_adds(k, 2);
    lemma_pow2_adds(k, 1);
    lemma_pow2_pos(k);
    lemma_red_small::<F>();
    // t * t is minus one
    lemma_pow_adds(w, n, n);
    assert(red::<F>(t * t) == red::<F>(-1));
    assert forall|e: nat| e < 4 implies #[trigger] all[e as int] == y * pow(t, e) - 1 by {
        lemma_pow_distributes(g, pow(w, e), n);
        lemma_pow_multiplies(w, e, n);
        lemma_pow_multiplies(w, n, e);
        assert(e * n == n * e) by (nonlinear_arith);
    }
    lemma_pow0(t);
    lemma_pow1(t);
    lemma_pow_adds(t, 1, 1);
    lemma_pow_adds(t, 2, 1);
    assert(all[0nat as int] == y - 1);
    assert(all[1nat as int] == y * t - 1);
    assert(all[2nat as int] == y * (t * t) - 1);
    assert(all[3nat as int] == y * ((t * t) * t) - 1);
    let four = seq![all[0], all[1], all[2], all[3]];
    assert(invertible::<F>(all[0]) && invertible::<F>(all[1]) && invertible::<F>(all[2])
        && invertible::<F>(all[3]));
    assert(all_invertible::<F>(four));
    lemma_product_invertible::<F>(four);
    assert(four.drop_last() =~= seq![all[0], all[1], all[2]]);
    assert(four.drop_last().drop_last() =~= seq![all[0], all[1]]);
    assert(four.drop_last().drop_last().drop_last() =~= seq![all[0]]);
    assert(seq![all[0]].drop_last() =~= Seq::<int>::empty());
    assert(product(Seq::<int>::empty()) == 1);
    assert(product(seq![all[0]]) == 1 * all[0]);
    assert(product(seq![all[0], all[1]]) == all[0] * all[1]);
    assert(product(seq![all[0], all[1], all[2]]) == all[0] * all[1] * all[2]);
    assert(product(four) == all[0] * all[1] * all[2] * all[3]);
    // the product of the four is one minus the power
    lemma_red_mul::<F>(y, t * t, y, -1);
    lemma_red_sub::<F>(y * (t * t), 1, y * (-1), 1);
    assert(y * ((t * t) * t) == (y * (t * t)) * t) by (nonlinear_arith);
    lemma_red_mul::<F>(y * (t * t), t, y * (-1), t);
    lemma_red_sub::<F>(y * (t * t) * t, 1, (y * (-1)) * t, 1);
    let (b0, b1, b2, b3) = (y - 1, y * t - 1, y * (-1) - 1, (y * (-1)) * t - 1);
    lemma_red_mul::<F>(b0 * b1, all[2], b0 * b1, b2);
    lemma_red_mul::<F>(b0 * b1 * all[2], all[3], b0 * b1 * b2, b3);
    let s = y * y;
    assert((y - 1) * (y * (-1) - 1) == 1 - y * y) by (nonlinear_arith);
    let u = y * t;
    assert((y * (-1)) * t == -u) by (nonlinear_arith)
        requires
            u == y * t,
    ;
    assert((u - 1) * (-u - 1) == 1 - u * u) by (nonlinear_arith);
    assert(u * u == s * (t * t)) by (nonlinear_arith)
        requires
            u == y * t,
            s == y * y,
    ;
    assert(b0 * b1 * b2 * b3 == (b0 * b2) * (b1 * b3)) by (nonlinear_arith);
    lemma_red_mul::<F>(s, t * t, s, -1);
    lemma_red_sub::<F>(1, s * (t * t), 1, s * (-1));
    lemma_red_mul::<F>(1 - s, 1 - s * (t * t), 1 - s, 1 - s * (-1));
    assert((1 - s) * (1 - s * (-1)) == 1 - s * s) by (nonlinear_arith);
    lemma_pow_adds(g, n, n);
    lemma_pow_adds(g, n + n, n + n);
    let power = coset_power::<F>(n);
    assert(power == s * s);
    lemma_invertible_congruent::<F>(product(four), 1 - power);
    let v = inv::<F>(1 - power);
    assert((power - 1) * (-v) == (1 - power) * v) by (nonlinear_arith);
    lemma_invertible::<F>(power - 1, -v);
}


/// The coefficients `r`, as many as the domain has elements, are those of the
/// polynomial that takes the values of the numerator on the rows.
pub open spec fn is_remainder<F: PrimeField>(
    r: Seq<int>,
    gates: Seq<Gate>,
    p: ProverPolynomials<F>,
    domain: Domain<F>,
    inputs: Seq<int>,
    w: Weights,
) -> bool {
    &&& r.len() == domain.size
    &&& forall|i: int|
        0 <= i < domain.size ==> red::<F>(
            eval(r, #[trigger] pow(domain.generator.val(), i as nat)),
        ) == red::<F>(
            numerator::<F>(
                gates,
                rows(p, domain, inputs)(pow(domain.generator.val(), i as nat)),
                w,
            ),
        )
}

/// The polynomial that vanishes on a domain is zero on its elements.
proof fn lemma_vanishes<F: PrimeField>(domain: Domain<F>, i: nat)
    requires
        domain.wf(),
    ensures
        red::<F>(pow(pow(domain.generator.val(), i), domain.size as nat) - 1) == 0,
{
    let (omega, n) = (domain.generator.val(), domain.size as nat);
    lemma_red_small::<F>();
    lemma_generates_order::<F>(omega, domain.power_of_two as nat);
    lemma_pow_multiplies(omega, i, n);
    lemma_pow_multiplies(omega, n, i);
    assert(i * n == n * i) by (nonlinear_arith);
    lemma_red_pow::<F>(pow(omega, n), 1, i);
    lemma1_pow(i);
    lemma_red_sub::<F>(pow(pow(omega, i), n), 1, 1, 1);
}

/// The coefficient of the polynomial `r` that coefficient `j` of the quotient is
/// made from, where the numerator has none.
pub open spec fn leftover(r: Seq<int>, j: int) -> int {
    r[j % r.len() as int]
}

/// The quotient that is computed on the coset, and how far it is from a quotient
/// of the numerator: with the polynomial `r` that takes the values of the
/// numerator on the rows, and the power `g` that all points of the coset share,
/// `g - 1` times the last four coefficients are coefficients of `r`, and `g - 1`
/// times what the quotient, times the polynomial that vanishes on the rows,
/// differs from the numerator by is `r * (X^4n - g)`, at every point.
pub proof fn law_remainder<F: PrimeField>(
    gates: Seq<Gate>,
    ldes: Ldes<F>,
    p: ProverPolynomials<F>,
    inputs: Seq<int>,
    w: Weights,
    domain: Domain<F>,
    big: Domain<F>,
    c: Seq<F>,
    r: Seq<int>,
)
    requires
        supported(gates),
        domain.wf(),
        domain.size >= 2,
        big.wf(),
        big.power_of_two == domain.power_of_two + 2,
        p.arguments_wf(gates, domain.size as int),
        inputs.len() == domain.size,
        ldes.wf(gates, big.size as int),
        ldes_of(ldes, p, inputs, domain, big),
        w.shifts.len() == 4,
        is_numerator_quotient(c, gates, ldes, w, domain, big, 4),
        divisible_on_coset(domain, big),
        is_remainder(r, gates, p, domain, inputs, w),
    ensures
        c.len() == 4 * domain.size,
        forall|j: int|
            c.len() - 4 <= j < c.len() ==> red::<F>(
                (coset_power::<F>(domain.size as nat) - 1) * (#[trigger] c[j]).val(),
            ) == red::<F>(leftover(r, j)),
        forall|x: int|
            red::<F>(
                (coset_power::<F>(domain.size as nat) - 1) * (#[trigger] eval(vals(c), x) * (pow(
                    x,
                    domain.size as nat,
                ) - 1) - numerator::<F>(gates, row_at(p, domain, eval(inputs, x), x), w)),
            ) == red::<F>(
                eval(r, x) * (pow(x, 4 * domain.size as nat) - coset_power::<F>(
                    domain.size as nat,
                )),
            ),
{
    let n = domain.size as nat;
    let k = domain.power_of_two as nat;
    let bits = big.power_of_two as nat;
    let m = pow2(bits);
    let omega = domain.generator.val();
    let big_omega = big.generator.val();
    let g = F::spec_generator();
    let power = coset_power::<F>(n);
    let f = |x: int| numerator::<F>(gates, rows(p, domain, inputs)(x), w);
    lemma2_to64();
    lemma_pow2_adds(k, 2);
    lemma_red_small::<F>();
    law_numerator_degree(gates, p, domain, inputs, w);
    let d = (5 * n - 4) as nat;
    let num = choose|c: Seq<int>| c.len() <= d && #[trigger] computes::<F>(c, f);
    let (q0, r0) = lemma_remainder(num, n);
    let rem = padded_seq(r0, n);
    assert forall|i: int| 0 <= i < pow2(k) implies red::<F>(
        eval(rem, #[trigger] pow(omega, i as nat)),
    ) == red::<F>(eval(r, pow(omega, i as nat))) by {
        let x = pow(omega, i as nat);
        lemma_padded(r0, n, x);
        lemma_vanishes(domain, i as nat);
        let e = eval(q0, x);
        lemma_red_mul::<F>(e, pow(x, n) - 1, e, 0);
        assert(e * 0 == 0);
        lemma_red_add::<F>(e * (pow(x, n) - 1), eval(r0, x), 0, eval(r0, x));
        assert(red::<F>(eval(num, x)) == red::<F>(f(x)));
    }
    lemma_unique_on_domain::<F>(rem, r, omega, k);
    // the numerator is a multiple of the vanishing polynomial and the remainder
    assert forall|x: int| red::<F>(#[trigger] f(x)) == red::<F>(
        eval(q0, x) * (pow(x, n) - 1) + eval(r, x),
    ) by {
        lemma_padded(r0, n, x);
        lemma_eval_congruent::<F>(rem, r, x);
        let a = eval(q0, x) * (pow(x, n) - 1);
        lemma_red_add::<F>(a, eval(r0, x), a, eval(r, x));
        assert(red::<F>(eval(num, x)) == red::<F>(f(x)));
    }
    let q = padded_seq(q0, m);
    let four = fourfold(r);
    lemma_fourfold(r, 0);
    let h = Seq::new(m, |j: int| four[j] + (power - 1) * q[j]);
    let scaled = Seq::new(m, |j: int| 0 + (power - 1) * vals(c)[j]);
    let zero = Seq::new(m, |j: int| 0int);
    // times the vanishing polynomial, at every point
    assert forall|x: int| #[trigger] eval(h, x) * (pow(x, n) - 1) == eval(r, x) * (pow(x, 4 * n)
        - 1) + (power - 1) * (eval(q0, x) * (pow(x, n) - 1)) by {
        lemma_fourfold(r, x);
        lemma_eval_add_scaled(four, power - 1, q, h, x);
        lemma_padded(q0, m, x);
        let (a, b, v, s) = (eval(four, x), eval(q0, x), pow(x, n) - 1, power - 1);
        assert((a + s * b) * v == a * v + s * (b * v)) by (nonlinear_arith);
    }
    assert forall|x: int| #[trigger] eval(scaled, x) == (power - 1) * eval(vals(c), x) by {
        lemma_eval_add_scaled(zero, power - 1, vals(c), scaled, x);
        lemma_eval_zero(zero, x);
    }
    // the two agree on the coset
    assert forall|i: int| 0 <= i < pow2(bits) implies red::<F>(
        eval(scaled, g * #[trigger] pow(big_omega, i as nat)),
    ) == red::<F>(eval(h, g * pow(big_omega, i as nat))) by {
        let e = i as nat;
        let x = coset_point::<F>(big_omega, e);
        law_quotient(gates, ldes, p, inputs, w, domain, big, c, e);
        lemma_coset_power(domain, big, e);
        let v = pow(x, n) - 1;
        let all = vanishing_on_coset::<F>(big_omega, n, big.size as nat);
        assert(invertible::<F>(all[i]));
        assert(all[i] == v);
        let (a, b, s, y) = (eval(vals(c), x), eval(h, x), power - 1, inv::<F>(v));
        let (t, u) = (eval(r, x), eval(q0, x) * v);
        assert(red::<F>(f(x)) == red::<F>(u + t));
        lemma_red_mul::<F>(s, a * v, s, u + t);
        lemma_red_sub::<F>(pow(x, 4 * n), 1, power, 1);
        lemma_red_mul::<F>(t, pow(x, 4 * n) - 1, t, s);
        lemma_red_add::<F>(t * (pow(x, 4 * n) - 1), s * u, t * s, s * u);
        assert(s * (u + t) == t * s + s * u) by (nonlinear_arith);
        assert(red::<F>(s * (a * v)) == red::<F>(b * v));
        lemma_red_mul::<F>(s * (a * v), y, b * v, y);
        assert((s * (a * v)) * y == (s * a) * (v * y)) by (nonlinear_arith);
        assert((b * v) * y == b * (v * y)) by (nonlinear_arith);
        lemma_red_mul::<F>(s * a, v * y, s * a, 1);
        lemma_red_mul::<F>(b, v * y, b, 1);
    }
    let gi = F::lemma_generator();
    assert(red::<F>(g * gi) == 1) by {
        reveal(red);
    }
    lemma_invertible::<F>(g, gi);
    lemma_unique_on_coset::<F>(scaled, h, g, big_omega, bits);
    assert forall|j: int| c.len() - 4 <= j < c.len() implies red::<F>(
        (power - 1) * (#[trigger] c[j]).val(),
    ) == red::<F>(leftover(r, j)) by {
        assert(red::<F>(scaled[j]) == red::<F>(h[j]));
        assert(q[j] == 0);
        assert((power - 1) * 0 == 0);
        assert(four[j] == r[j % r.len() as int]);
    }
    assert forall|x: int|
        red::<F>(
            (power - 1) * (#[trigger] eval(vals(c), x) * (pow(x, n) - 1) - numerator::<F>(
                gates,
                row_at(p, domain, eval(inputs, x), x),
                w,
            )),
        ) == red::<F>(eval(r, x) * (pow(x, 4 * n) - power)) by {
        lemma_eval_congruent::<F>(scaled, h, x);
        let (a, b, s, v) = (eval(vals(c), x), eval(h, x), power - 1, pow(x, n) - 1);
        let (t, u, o) = (eval(r, x), eval(q0, x) * v, pow(x, 4 * n));
        assert(eval(scaled, x) == s * a);
        lemma_red_mul::<F>(s * a, v, b, v);
        assert(b * v == t * (o - 1) + s * u);
        let fx = f(x);
        assert(fx == numerator::<F>(gates, row_at(p, domain, eval(inputs, x), x), w));
        assert(red::<F>(fx) == red::<F>(u + t));
        lemma_red_mul::<F>(s, fx, s, u + t);
        lemma_red_sub::<F>((s * a) * v, s * fx, b * v, s * (u + t));
        assert((s * a) * v - s * fx == s * (a * v - fx)) by (nonlinear_arith);
        assert(t * (o - 1) + s * u - s * (u + t) == t * (o - power)) by (nonlinear_arith)
            requires
                s == power - 1,
        ;
    }
}

/// The round of the quotient, which looks at the last four coefficients of the
/// quotient `c`, refuses a circuit exactly if the polynomial `r` that takes the
/// values of the numerator on the rows has a coefficient other than zero among
/// those that they are made from: on a domain of four elements or more, among its
/// last four.
pub proof fn law_refused_quotient<F: PrimeField, G: Copy>(
    round: LdesRequested<F, G>,
    ldes: Ldes<F>,
    inputs: Seq<int>,
    c: Seq<F>,
    r: Seq<int>,
)
    requires
        round.wf(),
        round.session.job.domain.size >= 2,
        inputs.len() == round.session.job.domain.size,
        ldes.wf(round.session.job.gates@, round.session.job.big.size as int),
        ldes_of(
            ldes,
            round.polynomials,
            inputs,
            round.session.job.domain,
            round.session.job.big,
        ),
        divisible_on_coset(round.session.job.domain, round.session.job.big),
        round.is_quotient(c, ldes),
        is_remainder(
            r,
            round.session.job.gates@,
            round.polynomials,
            round.session.job.domain,
            inputs,
            weights_of(round.session, round.challenges),
        ),
    ensures
        round.refuses(ldes) <==> exists|j: int|
            4 * r.len() - 4 <= j < 4 * r.len() && red::<F>(#[trigger] leftover(r, j)) != 0,
{
    let job = round.session.job;
    let n = job.domain.size as int;
    let s = coset_power::<F>(n as nat) - 1;
    law_remainder(
        job.gates@,
        ldes,
        round.polynomials,
        inputs,
        weights_of(round.session, round.challenges),
        job.domain,
        job.big,
        c,
        r,
    );
    lemma_red_small::<F>();
    lemma_coset_power_invertible(job.domain, job.big);
    assert forall|j: int| c.len() - 4 <= j < c.len() implies ((#[trigger] c[j]).val() == 0) == (
    red::<F>(leftover(r, j)) == 0) by {
        let (a, y) = (c[j].val(), inv::<F>(s));
        assert(red::<F>(s * a) == red::<F>(leftover(r, j)));
        lemma_val_red(c[j]);
        if a == 0 {
            assert(s * 0 == 0);
        }
        if red::<F>(leftover(r, j)) == 0 {
            lemma_red_mul::<F>(s * a, y, 0, y);
            assert((s * a) * y == a * (s * y)) by (nonlinear_arith);
            assert(0 * y == 0);
            lemma_red_mul::<F>(a, s * y, a, 1);
        }
    }
    if exists|j: int|
        4 * r.len() - 4 <= j < 4 * r.len() && red::<F>(#[trigger] leftover(r, j)) != 0 {
        let j = choose|j: int|
            4 * r.len() - 4 <= j < 4 * r.len() && red::<F>(#[trigger] leftover(r, j)) != 0;
        assert(c[j].val() != 0);
        assert(round.is_quotient(c, ldes) && !fits_degree(c));
    }
    if round.refuses(ldes) {
        let d = choose|d: Seq<F>| #[trigger] round.is_quotient(d, ldes) && !fits_degree(d);
        law_quotient_is_unique(
            c,
            d,
            job.gates@,
            ldes,
            weights_of(round.session, round.challenges),
            job.domain,
            job.big,
            4,
        );
        let j = choose|j: int| d.len() - 4 <= j < d.len() && (#[trigger] d[j]).val() != 0;
        assert(vals(c)[j] == vals(d)[j]);
        assert(c[j].val() != 0);
        assert(red::<F>(leftover(r, j)) != 0);
    }
}

/// There is a polynomial of as many coefficients as the domain has elements that
/// takes the values of the numerator on the rows.
pub proof fn law_remainder_exists<F: PrimeField>(
    gates: Seq<Gate>,
    p: ProverPolynomials<F>,
    domain: Domain<F>,
    inputs: Seq<int>,
    w: Weights,
) -> (r: Seq<int>)
    requires
        supported(gates),
        domain.wf(),
        domain.size >= 2,
        p.arguments_wf(gates, domain.size as int),
        inputs.len() == domain.size,
        w.shifts.len() == 4,
    ensures
        is_remainder(r, gates, p, domain, inputs, w),
{
    let n = domain.size as nat;
    let omega = domain.generator.val();
    let f = |x: int| numerator::<F>(gates, rows(p, domain, inputs)(x), w);
    law_numerator_degree(gates, p, domain, inputs, w);
    let num = choose|c: Seq<int>|
        c.len() <= (5 * n - 4) as nat && #[trigger] computes::<F>(c, f);
    let (q, r0) = lemma_remainder(num, n);
    let r = padded_seq(r0, n);
    assert forall|i: int| 0 <= i < n implies red::<F>(eval(r, #[trigger] pow(omega, i as nat)))
        == red::<F>(f(pow(omega, i as nat))) by {
        let x = pow(omega, i as nat);
        lemma_padded(r0, n, x);
        lemma_vanishes(domain, i as nat);
        lemma_red_small::<F>();
        let e = eval(q, x);
        lemma_red_mul::<F>(e, pow(x, n) - 1, e, 0);
        assert(e * 0 == 0);
        lemma_red_add::<F>(e * (pow(x, n) - 1), eval(r0, x), 0, eval(r0, x));
        assert(red::<F>(eval(num, x)) == red::<F>(f(x)));
    }
    r
}

/// The differences of any two of the numbers have inverses: modulo a prime, the
/// numbers are incongruent.
pub open spec fn apart<F: PrimeField>(points: Seq<int>) -> bool {
    forall|i: int, j: int|
        0 <= i < j < points.len() ==> invertible::<F>(#[trigger] points[i] - #[trigger] points[j])
}

/// A polynomial that vanishes at as many points as it has coefficients is zero.
pub proof fn law_few_zeros<F: PrimeField>(c: Seq<int>, points: Seq<int>)
    requires
        c.len() <= points.len(),
        apart::<F>(points),
        forall|i: int|
            0 <= i < points.len() ==> red::<F>(eval(c, #[trigger] points[i])) == 0,
    ensures
        forall|j: int| 0 <= j < c.len() ==> red::<F>(#[trigger] c[j]) == 0,
    decreases c.len(),
{
    if c.len() > 0 {
        let n = c.len();
        let a = points.last();
        let rest = points.drop_last();
        // the quotient by X - a, without its last coefficient, which is zero
        let q = Seq::new((n - 1) as nat, |k: int| eval(c.skip(k + 1), a));
        let h = horner(c, a);
        lemma_red_small::<F>();
        assert(red::<F>(eval(c, points[points.len() - 1])) == 0);
        assert(c.skip(n as int) =~= Seq::<int>::empty());
        let last = Seq::new(1, |k: int| 0int);
        assert(h =~= q + last);
        assert forall|i: int| 0 <= i < rest.len() implies red::<F>(eval(q, #[trigger] rest[i]))
            == 0 by {
            let x = points[i];
            lemma_horner(c, a, x);
            lemma_eval_concat(q, last, x);
            lemma_eval_zero(last, x);
            assert(pow(x, q.len()) * 0 == 0);
            let (e, v) = (eval(q, x), x - a);
            assert(red::<F>(eval(c, x)) == 0);
            lemma_red_sub::<F>(eval(c, x), eval(c, a), 0, 0);
            assert(red::<F>(e * v) == 0);
            assert(points[i] - points[points.len() - 1] == v);
            let y = inv::<F>(v);
            lemma_red_mul::<F>(e * v, y, 0, y);
            assert((e * v) * y == e * (v * y)) by (nonlinear_arith);
            assert(0 * y == 0);
            lemma_red_mul::<F>(e, v * y, e, 1);
        }
        assert(apart::<F>(rest)) by {
            assert forall|i: int, j: int| 0 <= i < j < rest.len() implies invertible::<F>(
                #[trigger] rest[i] - #[trigger] rest[j],
            ) by {
                assert(invertible::<F>(points[i] - points[j]));
            }
        }
        law_few_zeros::<F>(q, rest);
        assert forall|j: int| 0 <= j < n implies red::<F>(#[trigger] c[j]) == 0 by {
            // the value of the tail from j on is c[j] and a times that of the next
            let (t, t1) = (c.skip(j), c.skip(j + 1));
            assert(t.skip(1) =~= t1);
            assert(eval(t, a) == c[j] + a * eval(t1, a));
            assert(red::<F>(eval(t, a)) == 0) by {
                if j == 0 {
                    assert(t =~= c);
                } else {
                    assert(red::<F>(q[j - 1]) == 0);
                }
            }
            assert(red::<F>(eval(t1, a)) == 0) by {
                if j + 1 < n {
                    assert(red::<F>(q[j]) == 0);
                } else {
                    assert(t1 =~= Seq::<int>::empty());
                }
            }
            lemma_red_mul::<F>(a, eval(t1, a), a, 0);
            assert(a * 0 == 0);
            lemma_red_sub::<F>(eval(t, a), a * eval(t1, a), 0, 0);
        }
    }
}

/// At a point, the polynomial `c`, times the polynomial that vanishes on the
/// domain, is the numerator.
pub open spec fn divides_at<F: PrimeField>(
    c: Seq<F>,
    gates: Seq<Gate>,
    p: ProverPolynomials<F>,
    inputs: Seq<int>,
    w: Weights,
    domain: Domain<F>,
    x: int,
) -> bool {
    red::<F>(eval(vals(c), x) * (pow(x, domain.size as nat) - 1)) == red::<F>(
        numerator::<F>(gates, row_at(p, domain, eval(inputs, x), x), w),
    )
}

/// If the numerator is not zero on some row, then the quotient gives it away at
/// all but few points: of any points that are apart, five times as many as the
/// domain has elements, there is one at which the quotient, times the polynomial
/// that vanishes on the domain, is not the numerator.
pub proof fn law_failing_row<F: PrimeField>(
    gates: Seq<Gate>,
    ldes: Ldes<F>,
    p: ProverPolynomials<F>,
    inputs: Seq<int>,
    w: Weights,
    domain: Domain<F>,
    big: Domain<F>,
    c: Seq<F>,
    points: Seq<int>,
)
    requires
        supported(gates),
        domain.wf(),
        domain.size >= 2,
        big.wf(),
        big.power_of_two == domain.power_of_two + 2,
        p.arguments_wf(gates, domain.size as int),
        inputs.len() == domain.size,
        ldes.wf(gates, big.size as int),
        ldes_of(ldes, p, inputs, domain, big),
        w.shifts.len() == 4,
        is_numerator_quotient(c, gates, ldes, w, domain, big, 4),
        divisible_on_coset(domain, big),
        !rows_satisfied(gates, p, domain, inputs, w),
        points.len() == 5 * domain.size,
        apart::<F>(points),
    ensures
        exists|i: int|
            0 <= i < points.len() && !divides_at(
                c,
                gates,
                p,
                inputs,
                w,
                domain,
                #[trigger] points[i],
            ),
{
    let n = domain.size as nat;
    let omega = domain.generator.val();
    let power = coset_power::<F>(n);
    let r = law_remainder_exists(gates, p, domain, inputs, w);
    law_remainder(gates, ldes, p, inputs, w, domain, big, c, r);
    lemma_red_small::<F>();
    if forall|i: int|
        0 <= i < points.len() ==> divides_at(
            c,
            gates,
            p,
            inputs,
            w,
            domain,
            #[trigger] points[i],
        ) {
        // r * (X^4n - power) vanishes at all of them
        let low = Seq::new(n, |j: int| 0 + (-power) * r[j]);
        let zero = Seq::new(n, |j: int| 0int);
        let middle = Seq::new(3 * n, |j: int| 0int);
        let all = low + (middle + r);
        assert forall|i: int| 0 <= i < points.len() implies red::<F>(
            eval(all, #[trigger] points[i]),
        ) == 0 by {
            let x = points[i];
            lemma_eval_concat(low, middle + r, x);
            lemma_eval_concat(middle, r, x);
            lemma_eval_zero(middle, x);
            lemma_eval_zero(zero, x);
            lemma_eval_add_scaled(zero, -power, r, low, x);
            lemma_pow_adds(x, n, 3 * n);
            let (e, a, b) = (eval(r, x), pow(x, n), pow(x, 3 * n));
            assert((-power) * e + a * (b * e) == e * ((a * b) - power)) by (nonlinear_arith);
            assert(eval(all, x) == e * (pow(x, 4 * n) - power));
            let v = eval(vals(c), x) * (pow(x, n) - 1);
            let num = numerator::<F>(gates, row_at(p, domain, eval(inputs, x), x), w);
            assert(divides_at(c, gates, p, inputs, w, domain, points[i]));
            lemma_red_sub::<F>(v, num, num, num);
            lemma_red_mul::<F>(power - 1, v - num, power - 1, 0);
            assert((power - 1) * 0 == 0);
        }
        law_few_zeros::<F>(all, points);
        assert forall|j: int| 0 <= j < n implies red::<F>(#[trigger] r[j]) == red::<F>(
            zero[j],
        ) by {
            assert(all[4 * n + j] == r[j]);
        }
        assert forall|i: int| 0 <= i < n implies red::<F>(
            numerator::<F>(
                gates,
                rows(p, domain, inputs)(#[trigger] pow(omega, i as nat)),
                w,
            ),
        ) == 0 by {
            let x = pow(omega, i as nat);
            lemma_eval_congruent::<F>(r, zero, x);
            lemma_eval_zero(zero, x);
            assert(red::<F>(eval(r, x)) == red::<F>(
                numerator::<F>(gates, rows(p, domain, inputs)(x), w),
            ));
        }
        assert(rows_satisfied(gates, p, domain, inputs, w));
    }
}

/// Where the quotient, times the polynomial that vanishes on the domain, is not
/// the numerator at the opening point, the openings are refused, whatever the
/// linearization polynomial. The polynomial `inputs` takes the public inputs in
/// the first rows and is zero in the others.
pub proof fn law_refused_openings<F: PrimeField, G: Copy>(
    round: Opened<F, G>,
    contributions: GateContributions<F>,
    linearization: Seq<F>,
    value: F,
    inputs: Seq<F>,
    quotient: Seq<F>,
)
    requires
        round.wf(),
        known_contributions(
            contributions,
            round.session.job.gates@,
            round.polynomials,
            round.session.job.inputs@,
            round.challenges.alpha.val(),
            round.session.job.domain,
            round.z.val(),
        ),
        round.session.job.gates@.len() > 1 ==> round.session.job.queries.gate_selectors@[0] == 0,
        lagranges_defined(
            round.session.job.domain,
            round.z.val(),
            round.polynomials.lookup is Some,
        ),
        inputs_defined::<F>(
            round.session.job.inputs@.len(),
            round.session.job.domain.generator.val(),
            round.session.job.domain.size as nat,
            round.z.val(),
        ),
        represents(
            linearization,
            round.terms(contributions),
            round.session.job.domain.size as int,
        ),
        value.val() == red::<F>(eval(vals(linearization), round.z.val())),
        inputs.len() == round.session.job.domain.size,
        forall|j: int|
            0 <= j < inputs.len() ==> red::<F>(
                eval(
                    vals(inputs),
                    #[trigger] pow(round.session.job.domain.generator.val(), j as nat),
                ),
            ) == if j < round.session.job.inputs@.len() {
                round.session.job.inputs@[j].val()
            } else {
                0
            },
        parts_of(
            round.polynomials.quotient_parts@,
            quotient,
            round.session.job.domain.size as int,
        ),
        !divides_at(
            quotient,
            round.session.job.gates@,
            round.polynomials,
            vals(inputs),
            weights_of(round.session, round.challenges),
            round.session.job.domain,
            round.z.val(),
        ),
    ensures
        !round.satisfied(contributions, value),
        round.refuses(contributions),
{
    law_equation(round, contributions, linearization, value, inputs);
    law_quotient_from_parts(
        round.polynomials.quotient_parts@,
        quotient,
        round.session.job.domain.size as nat,
        round.z.val(),
    );
}

/// What the gates ask of a row, by the power of alpha that scales it.
pub open spec fn gate_constraints(gates: Seq<Gate>, row: Row, k: nat) -> Seq<int>
    decreases k,
{
    if k == 0 {
        Seq::empty()
    } else {
        gate_constraints(gates, row, (k - 1) as nat) + Seq::new(
            gates[k - 1].num_quotient_terms as nat,
            |i: int|
                if i == 0 {
                    gate_constraint(gates, row, k - 1)
                } else {
                    0
                },
        )
    }
}

/// What the two arguments ask of a row: a step and the start of the
/// copy-permutation grand product, and a step, the start and the end of that of
/// the lookup argument.
pub open spec fn argument_constraints<F: PrimeField>(row: Row, w: Weights) -> Seq<int> {
    let copy = seq![
        row.z * perm_product(row.wires, coset_row::<F>(row.x, w.shifts), w.beta, w.gamma)
            - row.z_next * perm_product(row.wires, row.permutations, w.beta, w.gamma),
        (row.z - 1) * row.l_0,
    ];
    match (row.lookup, w.lookup) {
        (Some(l), Some(v)) => copy + seq![
            lookup_terms(row, l, v, 1, 0, 0),
            (l.z - 1) * row.l_0,
            (l.z - v.expected) * l.l_last,
        ],
        _ => copy,
    }
}

/// All that is asked of a row: that these are zero. The entries are the
/// coefficients of the numerator as a polynomial in alpha.
pub open spec fn constraints<F: PrimeField>(gates: Seq<Gate>, row: Row, w: Weights) -> Seq<int> {
    gate_constraints(gates, row, gates.len()) + argument_constraints::<F>(row, w)
}

proof fn lemma_gate_constraints(gates: Seq<Gate>, row: Row, alpha: int, k: nat)
    requires
        supported(gates),
        k <= gates.len(),
    ensures
        gate_constraints(gates, row, k).len() == terms_before(gates, k),
        eval(gate_constraints(gates, row, k), alpha) == gate_terms(gates, row, alpha, k),
    decreases k,
{
    if k > 0 {
        let before = gate_constraints(gates, row, (k - 1) as nat);
        let terms = gates[k - 1].num_quotient_terms as nat;
        let c = gate_constraint(gates, row, k - 1);
        let own = Seq::new(
            terms,
            |i: int|
                if i == 0 {
                    gate_constraint(gates, row, k - 1)
                } else {
                    0
                },
        );
        lemma_gate_constraints(gates, row, alpha, (k - 1) as nat);
        lemma_eval_concat(before, own, alpha);
        lemma_eval_zero(own.skip(1), alpha);
        assert(alpha * 0 == 0);
        assert(eval(own, alpha) == c);
        let a = pow(alpha, before.len());
        if k == 1 {
            lemma_pow0(alpha);
            assert(1 * c == c);
            let main = main_gate(row.setup, row.wires, row.d_next, row.constant);
            assert(main * 1 == main);
        } else {
            let (b, s) = (bit_gate(row.wires[0]), row.selectors[k - 1]);
            assert((b * a) * s == a * (b * s)) by (nonlinear_arith);
        }
    }
}

/// The numerator on a row is a polynomial in alpha whose coefficients are what is
/// asked of the row.
pub proof fn law_numerator_in_alpha<F: PrimeField>(gates: Seq<Gate>, row: Row, w: Weights)
    requires
        supported(gates),
    ensures
        constraints::<F>(gates, row, w).len() <= terms_before(gates, gates.len()) + 5,
        eval(constraints::<F>(gates, row, w), w.alpha) == numerator::<F>(gates, row, w),
{
    let alpha = w.alpha;
    let total = terms_before(gates, gates.len());
    let own = gate_constraints(gates, row, gates.len());
    let rest = argument_constraints::<F>(row, w);
    lemma_gate_constraints(gates, row, alpha, gates.len());
    lemma_eval_concat(own, rest, alpha);
    lemma_pow1(alpha);
    lemma_pow_adds(alpha, total, 1);
    lemma_pow_adds(alpha, total + 1, 1);
    lemma_pow_adds(alpha, total + 2, 1);
    lemma_pow_adds(alpha, total + 3, 1);
    let a = pow(alpha, total);
    let (u, v) = (
        row.z * perm_product(row.wires, coset_row::<F>(row.x, w.shifts), w.beta, w.gamma),
        row.z_next * perm_product(row.wires, row.permutations, w.beta, w.gamma),
    );
    let b = (row.z - 1) * row.l_0;
    reveal_with_fuel(eval, 6);
    match (row.lookup, w.lookup) {
        (Some(l), Some(lw)) => {
            let (c, d) = ((l.z - 1) * row.l_0, (l.z - lw.expected) * l.l_last);
            let diff = lookup_denominator(l.s, l.s_next, lw.beta, lw.gamma) * l.z_next - (
            lookup_query(row.wires, l.table_type, l.selector, lw.eta) + lw.gamma) * l.z * (lw.beta
                + 1) * lookup_denominator(l.t, l.t_next, lw.beta, lw.gamma);
            let step = row.x - lw.last_omega;
            assert(diff * 1 == diff && 0 * c == 0 && 0 * d == 0);
            let e = diff * step;
            let a2 = pow(alpha, total + 2);
            assert(diff * a2 * step == a2 * e) by (nonlinear_arith)
                requires
                    e == diff * step,
            ;
            assert(rest =~= seq![u - v, b, e, c, d]);
            lemma_five(rest, alpha);
            let (a1, a3) = (a * alpha, a2 * alpha);
            let a4 = a3 * alpha;
            assert(a * (u - v) == a * u - a * v) by (nonlinear_arith);
            lemma_shared(a, alpha, u - v, b, e, c, d);
            assert(numerator::<F>(gates, row, w) == gate_terms(gates, row, alpha, gates.len()) + (a
                * u - a * v + a1 * b) + (diff * a2 * step + a3 * c + a4 * d));
        },
        _ => {
            assert(rest =~= seq![u - v, b]);
            assert(rest.skip(1) =~= seq![b]);
            assert(rest.skip(1).skip(1) =~= Seq::<int>::empty());
            assert(alpha * 0 == 0);
            assert(eval(rest, alpha) == (u - v) + alpha * b);
            assert(a * ((u - v) + alpha * b) == a * u - a * v + (a * alpha) * b)
                by (nonlinear_arith);
        },
    }
}

proof fn lemma_five(s: Seq<int>, x: int)
    requires
        s.len() == 5,
    ensures
        eval(s, x) == s[0] + x * (s[1] + x * (s[2] + x * (s[3] + x * s[4]))),
{
    reveal_with_fuel(eval, 6);
    assert(s.skip(1).skip(1) =~= s.skip(2));
    assert(s.skip(2).skip(1) =~= s.skip(3));
    assert(s.skip(3).skip(1) =~= s.skip(4));
    assert(s.skip(4).skip(1) =~= Seq::<int>::empty());
    assert(x * 0 == 0);
}

proof fn lemma_shared(a: int, x: int, p: int, q: int, r: int, s: int, t: int)
    ensures
        a * (p + x * (q + x * (r + x * (s + x * t)))) == a * p + (a * x) * q + ((a * x) * x) * r
            + (((a * x) * x) * x) * s + ((((a * x) * x) * x) * x) * t,
{
    let f4 = s + x * t;
    let f3 = r + x * f4;
    let f2 = q + x * f3;
    let (a1, a2, a3) = (a * x, (a * x) * x, ((a * x) * x) * x);
    assert(a * (p + x * f2) == a * p + (a * x) * f2) by (nonlinear_arith);
    assert(a1 * (q + x * f3) == a1 * q + (a1 * x) * f3) by (nonlinear_arith);
    assert(a2 * (r + x * f4) == a2 * r + (a2 * x) * f4) by (nonlinear_arith);
    assert(a3 * (s + x * t) == a3 * s + (a3 * x) * t) by (nonlinear_arith);
}

/// If a row does not meet something that is asked of it, then all but few values
/// of alpha show it: of any values that are apart, five more than the gates have
/// terms, there is one for which the numerator is not zero on the row.
pub proof fn law_failing_constraint<F: PrimeField>(
    gates: Seq<Gate>,
    row: Row,
    w: Weights,
    e: int,
    alphas: Seq<int>,
)
    requires
        supported(gates),
        0 <= e < constraints::<F>(gates, row, w).len(),
        red::<F>(constraints::<F>(gates, row, w)[e]) != 0,
        alphas.len() == terms_before(gates, gates.len()) + 5,
        apart::<F>(alphas),
    ensures
        exists|i: int|
            0 <= i < alphas.len() && red::<F>(
                numerator::<F>(gates, row, Weights { alpha: #[trigger] alphas[i], ..w }),
            ) != 0,
{
    let all = constraints::<F>(gates, row, w);
    law_numerator_in_alpha::<F>(gates, row, w);
    if forall|i: int|
        0 <= i < alphas.len() ==> red::<F>(
            numerator::<F>(gates, row, Weights { alpha: #[trigger] alphas[i], ..w }),
        ) == 0 {
        assert forall|i: int| 0 <= i < alphas.len() implies red::<F>(
            eval(all, #[trigger] alphas[i]),
        ) == 0 by {
            let v = Weights { alpha: alphas[i], ..w };
            law_numerator_in_alpha::<F>(gates, row, v);
            assert(constraints::<F>(gates, row, v) =~= all);
        }
        law_few_zeros::<F>(all, alphas);
    }
}

/// A product over four columns, factor by factor.
pub proof fn lemma_four_factors(wires: Seq<int>, points: Seq<int>, beta: int, gamma: int)
    requires
        wires.len() == 4,
        points.len() == 4,
    ensures
        perm_product(wires, points, beta, gamma) == (wires[0] + gamma + beta * points[0])
            * (wires[1]
            + gamma + beta * points[1]) * (wires[2] + gamma + beta * points[2]) * (wires[3] + gamma
            + beta * points[3]),
{
    reveal_with_fuel(perm_product, 5);
    let (w, p) = (wires, points);
    assert(w.drop_last().drop_last().drop_last().drop_last() =~= Seq::<int>::empty());
    let f0 = w[0] + gamma + beta * p[0];
    assert(1 * f0 == f0);
}

/// What is asked of a row, written out. The main gate asks that
/// `A*q_a + B*q_b + C*q_c + D*q_d + A*B*q_m + D(next)*q_n` and the constant and the
/// public input cancel; a gate that tests for a bit, that `A` is zero or one; the
/// copy-permutation argument, that its grand product goes on by the factors
/// `wire + beta * shift * x + gamma` over `wire + beta * sigma + gamma` and starts
/// from one; the lookup argument, that its grand product goes on by
/// `(1 + beta) * (gamma + f) * (gamma * (1 + beta) + t + beta * t(next))` over
/// `gamma * (1 + beta) + s + beta * s(next)`, but for the last row, starts from one
/// and ends as expected.
pub proof fn law_what_a_row_asks<F: PrimeField>(gates: Seq<Gate>, row: Row, w: Weights)
    requires
        supported(gates),
        row.wires.len() == 4,
        row.permutations.len() == 4,
        w.shifts.len() == 4,
    ensures
        ({
            let (a, b, c, d) = (row.wires[0], row.wires[1], row.wires[2], row.wires[3]);
            let (q, k, s) = (row.setup, w.shifts, row.permutations);
            let main = q[0] * a + q[1] * b + q[2] * c + q[3] * d + q[4] * (a * b) + q[5]
                * row.d_next
                + row.constant;
            let own = terms_before(gates, gates.len()) as int;
            let all = constraints::<F>(gates, row, w);
            &&& all[0] == if gates.len() > 1 {
                main * row.selectors[0]
            } else {
                main
            }
            &&& forall|g: int|
                0 < g < gates.len() ==> #[trigger] all[terms_before(gates, g as nat) as int]
                    == (a * a - a) * row.selectors[g]
            &&& all[own] == row.z * ((a + w.beta * red::<F>(row.x * k[0]) + w.gamma) * (b + w.beta
                * red::<F>(row.x * k[1]) + w.gamma) * (c + w.beta * red::<F>(row.x * k[2])
                + w.gamma) * (d + w.beta * red::<F>(row.x * k[3]) + w.gamma)) - row.z_next * ((a
                + w.beta * s[0] + w.gamma) * (b + w.beta * s[1] + w.gamma) * (c + w.beta * s[2]
                + w.gamma) * (d + w.beta * s[3] + w.gamma))
            &&& all[own + 1] == (row.z - 1) * row.l_0
            &&& match (row.lookup, w.lookup) {
                (Some(l), Some(v)) => {
                    let f = (a + v.eta * b + v.eta * v.eta * c + v.eta * v.eta * v.eta
                        * l.table_type) * l.selector;
                    let gb = v.gamma * (1 + v.beta);
                    &&& all[own + 2] == (l.z_next * (gb + l.s + v.beta * l.s_next) - l.z * ((1
                        + v.beta) * (v.gamma + f) * (gb + l.t + v.beta * l.t_next))) * (row.x
                        - v.last_omega)
                    &&& all[own + 3] == (l.z - 1) * row.l_0
                    &&& all[own + 4] == (l.z - v.expected) * l.l_last
                    &&& all.len() == own + 5
                },
                _ => all.len() == own + 2,
            }
        }),
{
    let (a, b) = (row.wires[0], row.wires[1]);
    let own = terms_before(gates, gates.len());
    let first = gate_constraints(gates, row, gates.len());
    lemma_gate_constraints(gates, row, w.alpha, gates.len());
    assert forall|g: int| 0 <= g < gates.len() implies first[#[trigger] terms_before(
        gates,
        g as nat,
    ) as int] == gate_constraint(gates, row, g) && terms_before(gates, g as nat) < own by {
        lemma_constraint_place(gates, row, gates.len(), g);
    }
    assert(row.setup[4] * a * b == row.setup[4] * (a * b)) by (nonlinear_arith);
    assert((a - 1) * a == a * a - a) by (nonlinear_arith);
    assert(terms_before(gates, 0) == 0);
    lemma_constraint_place(gates, row, gates.len(), 0);
    lemma_four_factors(row.wires, coset_row::<F>(row.x, w.shifts), w.beta, w.gamma);
    lemma_four_factors(row.wires, row.permutations, w.beta, w.gamma);
    match (row.lookup, w.lookup) {
        (Some(l), Some(v)) => {
            let f = lookup_query(row.wires, l.table_type, l.selector, v.eta);
            let (ds, dt) = (
                lookup_denominator(l.s, l.s_next, v.beta, v.gamma),
                lookup_denominator(l.t, l.t_next, v.beta, v.gamma),
            );
            let (zn, z, h, m) = (l.z_next, l.z, f + v.gamma, v.beta + 1);
            assert(ds * zn - h * z * m * dt == zn * ds - z * (m * h * dt)) by (nonlinear_arith);
            let diff = ds * zn - h * z * m * dt;
            assert(diff * 1 == diff);
            assert(0 * ((l.z - 1) * row.l_0) == 0 && 0 * ((l.z - v.expected) * l.l_last) == 0);
        },
        _ => {},
    }
}

/// Where the constraint of a gate stands.
proof fn lemma_constraint_place(gates: Seq<Gate>, row: Row, k: nat, g: int)
    requires
        supported(gates),
        k <= gates.len(),
        0 <= g < k,
    ensures
        terms_before(gates, g as nat) < terms_before(gates, k),
        gate_constraints(gates, row, k)[terms_before(gates, g as nat) as int] == gate_constraint(
            gates,
            row,
            g,
        ),
    decreases k,
{
    lemma_gate_constraints(gates, row, 0, (k - 1) as nat);
    assert(gates[k - 1].num_quotient_terms > 0);
    if g < k - 1 {
        lemma_constraint_place(gates, row, (k - 1) as nat, g);
    }
}

} // verus!
