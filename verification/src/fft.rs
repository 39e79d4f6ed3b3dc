//! Interpolation over a domain and over its cosets.

use crate::domain::{generates, half, lemma_generates_order, Domain};
use crate::field::{
    inv, invertible, lemma_red_add, lemma_red_mul, lemma_red_pow, lemma_red_range, lemma_red_small,
    lemma_red_sub, lemma_val_red, red, vals, Num, PrimeField,
};
use crate::polynomial::{eval, zeros};
use vstd::arithmetic::power::*;
use vstd::arithmetic::power2::*;
use vstd::prelude::*;

verus! {

/// The polynomial with coefficients `c` takes the values `t` on the points
/// `factor * w^i`.
pub open spec fn interpolates<F: PrimeField>(c: Seq<F>, t: Seq<F>, factor: int, w: int) -> bool {
    &&& c.len() == t.len()
    &&& forall|i: int|
        0 <= i < t.len() ==> (#[trigger] t[i]).val() == red::<F>(
            eval(vals(c), factor * pow(w, i as nat)),
        )
}

/// The polynomial with coefficients `c` takes the entries of a column, modulo the
/// characteristic, on the powers of `w`: the coefficients are the transform of
/// the column, in their natural order.
pub open spec fn takes<F: PrimeField>(c: Seq<F>, column: Seq<int>, w: int) -> bool {
    &&& c.len() == column.len()
    &&& forall|i: int|
        0 <= i < column.len() ==> red::<F>(eval(vals(c), #[trigger] pow(w, i as nat))) == red::<F>(
            column[i],
        )
}

/// Congruent points give congruent values.
pub proof fn lemma_eval_point_congruent<F: PrimeField>(c: Seq<int>, x: int, y: int)
    requires
        red::<F>(x) == red::<F>(y),
    ensures
        red::<F>(eval(c, x)) == red::<F>(eval(c, y)),
    decreases c.len(),
{
    if c.len() > 0 {
        lemma_eval_point_congruent::<F>(c.skip(1), x, y);
        lemma_red_mul::<F>(x, eval(c.skip(1), x), y, eval(c.skip(1), y));
        lemma_red_add::<F>(c[0], x * eval(c.skip(1), x), c[0], y * eval(c.skip(1), y));
    }
}

/// A polynomial is made of the one with its even coefficients and the one with
/// its odd coefficients.
proof fn lemma_eval_halves(c: Seq<int>, e: Seq<int>, o: Seq<int>, x: int)
    requires
        e.len() == o.len(),
        c.len() == 2 * e.len(),
        forall|i: int| 0 <= i < e.len() ==> c[2 * i] == #[trigger] e[i],
        forall|i: int| 0 <= i < e.len() ==> c[2 * i + 1] == #[trigger] o[i],
    ensures
        eval(c, x) == eval(e, x * x) + x * eval(o, x * x),
    decreases e.len(),
{
    if e.len() > 0 {
        let (c2, e2, o2) = (c.skip(2), e.skip(1), o.skip(1));
        assert forall|i: int| 0 <= i < e2.len() implies c2[2 * i] == #[trigger] e2[i] by {
            assert(c[2 * (i + 1)] == e[i + 1]);
        }
        assert forall|i: int| 0 <= i < e2.len() implies c2[2 * i + 1] == #[trigger] o2[i] by {
            assert(c[2 * (i + 1) + 1] == o[i + 1]);
        }
        lemma_eval_halves(c2, e2, o2, x);
        assert(c.skip(1).skip(1) =~= c2);
        assert(c[2 * 0int] == e[0] && c[2 * 0int + 1] == o[0]);
        assert(eval(c.skip(1), x) == c[1] + x * eval(c2, x));
        let (ev, ov) = (eval(e2, x * x), eval(o2, x * x));
        assert(e[0] + x * (o[0] + x * (ev + x * ov)) == e[0] + (x * x) * ev + x * (o[0] + (x * x)
            * ov)) by (nonlinear_arith);
    } else {
        assert(x * 0 == 0);
    }
}

/// The two values that a butterfly takes apart come together again.
proof fn lemma_butterfly<F: PrimeField>(a: int, b: int, h: int, w: int, v: int)
    requires
        red::<F>(2 * h) == 1,
        red::<F>(w * v) == 1,
    ensures
        red::<F>((a + b) * h + w * ((a - b) * h * v)) == red::<F>(a),
        red::<F>((a + b) * h - w * ((a - b) * h * v)) == red::<F>(b),
{
    lemma_red_small::<F>();
    let d = (a - b) * h;
    let s = (a + b) * h;
    assert(w * (d * v) == d * (w * v)) by (nonlinear_arith);
    lemma_red_mul::<F>(d, w * v, d, 1);
    lemma_red_add::<F>(s, d * (w * v), s, d);
    lemma_red_sub::<F>(s, d * (w * v), s, d);
    assert(s + d == a * (2 * h)) by (nonlinear_arith)
        requires
            s == (a + b) * h,
            d == (a - b) * h,
    ;
    assert(s - d == b * (2 * h)) by (nonlinear_arith)
        requires
            s == (a + b) * h,
            d == (a - b) * h,
    ;
    lemma_red_mul::<F>(a, 2 * h, a, 1);
    lemma_red_mul::<F>(b, 2 * h, b, 1);
}

/// The square of a generator generates the subgroup of half the order.
proof fn lemma_generates_square<F: PrimeField>(w: int, k: nat)
    requires
        k > 0,
        generates::<F>(w, k),
    ensures
        generates::<F>(red::<F>(w * w), (k - 1) as nat),
{
    lemma_red_range::<F>(w * w);
    lemma2_to64();
    if k == 1 {
        lemma_generates_order::<F>(w, k);
        lemma_pow_adds(w, 1, 1);
        lemma_pow1(w);
    } else {
        let q = pow2((k - 2) as nat);
        lemma_red_pow::<F>(red::<F>(w * w), w * w, q);
        lemma_pow_distributes(w, w, q);
        lemma_pow_adds(w, q, q);
        lemma_pow2_unfold((k - 1) as nat);
    }
}

/// What holds of the two halves of an interpolation holds of the whole.
proof fn lemma_join<F: PrimeField>(
    t: Seq<F>,
    even: Seq<F>,
    odd: Seq<F>,
    e: Seq<F>,
    o: Seq<F>,
    c: Seq<F>,
    w: int,
    v: int,
    h: int,
    k: nat,
)
    requires
        k > 0,
        t.len() == pow2(k),
        c.len() == t.len(),
        2 * e.len() == t.len(),
        generates::<F>(w, k),
        red::<F>(2 * h) == 1,
        red::<F>(w * v) == 1,
        interpolates(e, even, 1, red::<F>(w * w)),
        interpolates(o, odd, 1, red::<F>(w * w)),
        odd.len() == even.len(),
        forall|i: int|
            0 <= i < even.len() ==> (#[trigger] even[i]).val() == red::<F>(
                (t[i].val() + t[i + even.len()].val()) * h,
            ),
        forall|i: int|
            0 <= i < odd.len() ==> (#[trigger] odd[i]).val() == red::<F>(
                (t[i].val() - t[i + odd.len()].val()) * h * pow(v, i as nat),
            ),
        forall|i: int| 0 <= i < e.len() ==> c[2 * i] == #[trigger] e[i],
        forall|i: int| 0 <= i < o.len() ==> c[2 * i + 1] == #[trigger] o[i],
    ensures
        interpolates(c, t, 1, w),
{
    let n = even.len() as int;
    lemma_pow2_unfold(k);
    lemma_red_small::<F>();
    assert forall|j: int| 0 <= j < t.len() implies (#[trigger] t[j]).val() == red::<F>(
        eval(vals(c), 1 * pow(w, j as nat)),
    ) by {
        let i = if j < n {
            j
        } else {
            j - n
        };
        let wi = pow(w, i as nat);
        let vi = pow(v, i as nat);
        let x = pow(w, j as nat);
        let (a, b) = (t[i].val(), t[i + n].val());
        let (ev, ov) = (eval(vals(e), x * x), eval(vals(o), x * x));
        assert forall|m: int| 0 <= m < e.len() implies vals(c)[2 * m] == #[trigger] vals(e)[m] by {
            assert(c[2 * m] == e[m]);
        }
        assert forall|m: int| 0 <= m < e.len() implies vals(c)[2 * m + 1] == #[trigger] vals(
            o,
        )[m] by {
            assert(c[2 * m + 1] == o[m]);
        }
        lemma_eval_halves(vals(c), vals(e), vals(o), x);
        // the inverse powers stay inverse
        lemma_pow_distributes(w, v, i as nat);
        lemma_red_pow::<F>(w * v, 1, i as nat);
        lemma1_pow(i as nat);
        lemma_butterfly::<F>(a, b, h, wi, vi);
        // the square of the point
        let sq = 1 * pow(red::<F>(w * w), i as nat);
        lemma_red_range::<F>(w * w);
        lemma_red_pow::<F>(red::<F>(w * w), w * w, i as nat);
        lemma_pow_distributes(w, w, i as nat);
        assert(red::<F>(sq) == red::<F>(wi * wi));
        assert(even[i].val() == red::<F>(eval(vals(e), sq)));
        assert(odd[i].val() == red::<F>(eval(vals(o), sq)));
        if j < n {
            lemma_eval_point_congruent::<F>(vals(e), sq, x * x);
            lemma_eval_point_congruent::<F>(vals(o), sq, x * x);
            lemma_red_mul::<F>(x, ov, wi, (a - b) * h * vi);
            lemma_red_add::<F>(ev, x * ov, (a + b) * h, wi * ((a - b) * h * vi));
        } else {
            lemma_pow_adds(w, i as nat, n as nat);
            lemma_red_mul::<F>(wi, pow(w, n as nat), wi, -1);
            assert(red::<F>(x) == red::<F>(-wi));
            lemma_red_mul::<F>(x, x, -wi, -wi);
            assert((-wi) * (-wi) == wi * wi) by (nonlinear_arith);
            lemma_eval_point_congruent::<F>(vals(e), sq, x * x);
            lemma_eval_point_congruent::<F>(vals(o), sq, x * x);
            let d = (a - b) * h * vi;
            lemma_red_mul::<F>(x, ov, -wi, d);
            assert((-wi) * d == -(wi * d)) by (nonlinear_arith);
            lemma_red_add::<F>(ev, x * ov, (a + b) * h, -(wi * d));
        }
        lemma_val_red(t[j]);
    }
}

/// The coefficients of the polynomial with the given values on the powers of
/// `w`, where `w` generates a subgroup with as many elements and `v` is its
/// inverse.
fn interpolate<F: PrimeField>(
    values: &Vec<F>,
    w: &F,
    v: &F,
    h: &F,
    Ghost(k): Ghost<nat>,
) -> (r: Vec<F>)
    requires
        values@.len() == pow2(k),
        generates::<F>(w.val(), k),
        red::<F>(2 * h.val()) == 1,
        red::<F>(w.val() * v.val()) == 1,
    ensures
        interpolates(r@, values@, 1, w.val()),
    decreases k,
{
    let n = values.len();
    if n == 1 {
        let mut r: Vec<F> = Vec::with_capacity(1);
        r.push(values[0]);
        proof {
            lemma_pow0(w.val());
            lemma_val_red(values@[0]);
            let x = 1 * pow(w.val(), 0);
            assert(vals(r@).skip(1) =~= Seq::<int>::empty());
            assert(eval(vals(r@).skip(1), x) == 0);
            assert(eval(vals(r@), x) == values@[0].val() + x * 0);
        }
        return r;
    }
    proof {
        if k == 0 {
            lemma2_to64();
        }
        lemma_pow2_unfold(k);
        lemma_generates_square::<F>(w.val(), k);
    }
    let middle: usize = n / 2;
    let mut even: Vec<F> = Vec::with_capacity(middle);
    let mut odd: Vec<F> = Vec::with_capacity(middle);
    let factor = Num::of(h);
    let ratio = Num::of(v);
    let mut power = Num::one();
    let mut i: usize = 0;
    proof {
        lemma_pow0(v.val());
    }
    while i < middle
        invariant
            i <= middle,
            n == 2 * middle,
            values@.len() == n,
            even@.len() == i,
            odd@.len() == i,
            factor.expr() == h.val(),
            ratio.expr() == v.val(),
            power.expr() == pow(v.val(), i as nat),
            forall|j: int|
                0 <= j < i ==> (#[trigger] even@[j]).val() == red::<F>(
                    (values@[j].val() + values@[j + middle].val()) * h.val(),
                ),
            forall|j: int|
                0 <= j < i ==> (#[trigger] odd@[j]).val() == red::<F>(
                    (values@[j].val() - values@[j + middle].val()) * h.val() * pow(
                        v.val(),
                        j as nat,
                    ),
                ),
        decreases middle - i,
    {
        let a = Num::of(&values[i]);
        let b = Num::of(&values[i + middle]);
        even.push(a.plus(&b).times(&factor).value());
        odd.push(a.minus(&b).times(&factor).times(&power).value());
        proof {
            lemma_pow_adds(v.val(), i as nat, 1);
            lemma_pow1(v.val());
        }
        power = power.times(&ratio);
        i += 1;
    }
    let w2 = Num::of(w).times(&Num::of(w)).value();
    let v2 = Num::of(v).times(&Num::of(v)).value();
    proof {
        let (a, b) = (w.val(), v.val());
        lemma_red_range::<F>(a * a);
        lemma_red_range::<F>(b * b);
        lemma_red_mul::<F>(w2.val(), v2.val(), a * a, b * b);
        assert((a * a) * (b * b) == (a * b) * (a * b)) by (nonlinear_arith);
        lemma_red_small::<F>();
        lemma_red_mul::<F>(a * b, a * b, 1, 1);
    }
    let e = interpolate(&even, &w2, &v2, h, Ghost((k - 1) as nat));
    let o = interpolate(&odd, &w2, &v2, h, Ghost((k - 1) as nat));
    let mut r: Vec<F> = zeros(n);
    let mut j: usize = 0;
    while j < middle
        invariant
            j <= middle,
            n == 2 * middle,
            r@.len() == n,
            e@.len() == middle,
            o@.len() == middle,
            forall|m: int| 0 <= m < j ==> r@[2 * m] == #[trigger] e@[m],
            forall|m: int| 0 <= m < j ==> r@[2 * m + 1] == #[trigger] o@[m],
        decreases middle - j,
    {
        r.set(2 * j, e[j]);
        r.set(2 * j + 1, o[j]);
        j += 1;
    }
    proof {
        lemma_join(
            values@,
            even@,
            odd@,
            e@,
            o@,
            r@,
            w.val(),
            v.val(),
            h.val(),
            k,
        );
    }
    r
}

/// Stretching the argument of a polynomial stretches its coefficients.
proof fn lemma_eval_stretched<F: PrimeField>(
    r: Seq<int>,
    c: Seq<int>,
    f: int,
    x: int,
    e: nat,
)
    requires
        r.len() == c.len(),
        forall|j: int|
            0 <= j < c.len() ==> red::<F>(pow(f, (e + j) as nat) * #[trigger] r[j]) == red::<F>(
                c[j],
            ),
    ensures
        red::<F>(pow(f, e) * eval(r, f * x)) == red::<F>(eval(c, x)),
    decreases c.len(),
{
    let p = pow(f, e);
    if c.len() == 0 {
        assert(p * 0 == 0);
    } else {
        let (r1, c1) = (r.skip(1), c.skip(1));
        assert forall|j: int| 0 <= j < c1.len() implies red::<F>(
            pow(f, (e + 1 + j) as nat) * #[trigger] r1[j],
        ) == red::<F>(c1[j]) by {
            assert(red::<F>(pow(f, (e + (j + 1)) as nat) * r[j + 1]) == red::<F>(c[j + 1]));
        }
        lemma_eval_stretched::<F>(r1, c1, f, x, e + 1);
        let (er, ec) = (eval(r1, f * x), eval(c1, x));
        lemma_pow_adds(f, e, 1);
        lemma_pow1(f);
        assert(red::<F>(pow(f, (e + 0) as nat) * r[0]) == red::<F>(c[0]));
        lemma_red_mul::<F>(x, pow(f, e + 1) * er, x, ec);
        lemma_red_add::<F>(p * r[0], x * (pow(f, e + 1) * er), c[0], x * ec);
        assert(p * (r[0] + (f * x) * er) == p * r[0] + x * ((p * f) * er)) by (nonlinear_arith);
    }
}

/// The coefficients of the polynomial with the given values on the coset of
/// `factor`.
pub fn icoset_fft_for_generator<F: PrimeField>(
    values: &Vec<F>,
    domain: &Domain<F>,
    factor: &F,
) -> (r: Vec<F>)
    requires
        domain.wf(),
        values@.len() == domain.size,
        factor.val() != 0,
    ensures
        interpolates(r@, values@, factor.val(), domain.generator.val()),
{
    let ghost f = factor.val();
    let ghost w = domain.generator.val();
    proof {
        lemma_pow2_pos(domain.power_of_two as nat);
    }
    let inverse = Num::of(&domain.generator).power(domain.size - 1).value();
    proof {
        let n = domain.size as nat;
        lemma_generates_order::<F>(w, domain.power_of_two as nat);
        lemma_pow_adds(w, 1, (n - 1) as nat);
        lemma_pow1(w);
        lemma_red_range::<F>(pow(w, (n - 1) as nat));
        lemma_red_mul::<F>(w, inverse.val(), w, pow(w, (n - 1) as nat));
    }
    let h = half::<F>();
    let c = interpolate(
        values,
        &domain.generator,
        &inverse,
        &h,
        Ghost(domain.power_of_two as nat),
    );
    let g = match factor.inverse() {
        Some(i) => i,
        None => F::zero(),
    };
    proof {
        assert(red::<F>(f * g.val()) == 1) by {
            reveal(red);
        }
    }
    let ratio = Num::of(&g);
    let mut power = Num::one();
    let mut r: Vec<F> = Vec::with_capacity(c.len());
    let mut i: usize = 0;
    proof {
        lemma_pow0(g.val());
        lemma_pow0(f);
        lemma_red_small::<F>();
    }
    while i < c.len()
        invariant
            i <= c@.len(),
            r@.len() == i,
            ratio.expr() == g.val(),
            red::<F>(f * g.val()) == 1,
            power.expr() == pow(g.val(), i as nat),
            forall|j: int|
                0 <= j < i ==> red::<F>(pow(f, (0 + j) as nat) * (#[trigger] r@[j]).val())
                    == red::<F>(c@[j].val()),
        decreases c@.len() - i,
    {
        let scaled = Num::of(&c[i]).times(&power).value();
        proof {
            let e = i as nat;
            let (fi, gi, x) = (pow(f, e), pow(g.val(), e), c@[i as int].val());
            lemma_red_small::<F>();
            lemma_pow_distributes(f, g.val(), e);
            lemma_red_pow::<F>(f * g.val(), 1, e);
            lemma1_pow(e);
            lemma_red_range::<F>(x * gi);
            lemma_red_mul::<F>(fi, scaled.val(), fi, x * gi);
            assert(fi * (x * gi) == x * (fi * gi)) by (nonlinear_arith);
            lemma_red_mul::<F>(x, fi * gi, x, 1);
            lemma_pow_adds(g.val(), e, 1);
            lemma_pow1(g.val());
        }
        r.push(scaled);
        power = power.times(&ratio);
        i += 1;
    }
    proof {
        assert forall|i: int| 0 <= i < values@.len() implies (#[trigger] values@[i]).val()
            == red::<F>(eval(vals(r@), f * pow(w, i as nat))) by {
            let x = pow(w, i as nat);
            assert forall|j: int| 0 <= j < vals(c@).len() implies red::<F>(
                pow(f, (0 + j) as nat) * #[trigger] vals(r@)[j],
            ) == red::<F>(vals(c@)[j]) by {
                assert(red::<F>(pow(f, (0 + j) as nat) * r@[j].val()) == red::<F>(c@[j].val()));
            }
            lemma_eval_stretched::<F>(vals(r@), vals(c@), f, x, 0);
            lemma_pow0(f);
            assert(1 * x == x);
        }
    }
    r
}

/// A number whose double is one.
pub proof fn lemma_half<F: PrimeField>() -> (h: int)
    ensures
        red::<F>(2 * h) == 1,
{
    F::lemma_modulus();
    let m = F::modulus();
    let h = (m + 1) / 2;
    lemma_red_small::<F>();
    assert(2 * h == 1 + m);
    reveal(red);
    vstd::arithmetic::div_mod::lemma_mod_add_multiples_vanish(1, m);
    h
}

/// Sums and differences of congruent pairs determine the pairs.
proof fn lemma_pair<F: PrimeField>(
    e1: int,
    o1: int,
    e2: int,
    o2: int,
    h: int,
    x: int,
    y: int,
)
    requires
        red::<F>(2 * h) == 1,
        red::<F>(x * y) == 1,
        red::<F>(e1 + x * o1) == red::<F>(e2 + x * o2),
        red::<F>(e1 - x * o1) == red::<F>(e2 - x * o2),
    ensures
        red::<F>(e1) == red::<F>(e2),
        red::<F>(o1) == red::<F>(o2),
{
    let (s1, d1) = (e1 + x * o1, e1 - x * o1);
    let (s2, d2) = (e2 + x * o2, e2 - x * o2);
    lemma_red_small::<F>();
    lemma_red_add::<F>(s1, d1, s2, d2);
    lemma_red_sub::<F>(s1, d1, s2, d2);
    lemma_red_mul::<F>(s1 + d1, h, s2 + d2, h);
    assert((s1 + d1) * h == e1 * (2 * h)) by (nonlinear_arith)
        requires
            s1 + d1 == 2 * e1,
    ;
    assert((s2 + d2) * h == e2 * (2 * h)) by (nonlinear_arith)
        requires
            s2 + d2 == 2 * e2,
    ;
    lemma_red_mul::<F>(e1, 2 * h, e1, 1);
    lemma_red_mul::<F>(e2, 2 * h, e2, 1);
    lemma_red_mul::<F>(s1 - d1, h * y, s2 - d2, h * y);
    assert((s1 - d1) * (h * y) == o1 * ((2 * h) * (x * y))) by (nonlinear_arith)
        requires
            s1 - d1 == 2 * (x * o1),
    ;
    assert((s2 - d2) * (h * y) == o2 * ((2 * h) * (x * y))) by (nonlinear_arith)
        requires
            s2 - d2 == 2 * (x * o2),
    ;
    lemma_red_mul::<F>(2 * h, x * y, 1, 1);
    lemma_red_mul::<F>(o1, (2 * h) * (x * y), o1, 1);
    lemma_red_mul::<F>(o2, (2 * h) * (x * y), o2, 1);
}

/// Polynomials with congruent values on a whole domain have congruent
/// coefficients.
pub proof fn lemma_unique_on_domain<F: PrimeField>(c: Seq<int>, d: Seq<int>, w: int, k: nat)
    requires
        c.len() == pow2(k),
        d.len() == pow2(k),
        generates::<F>(w, k),
        forall|i: int|
            0 <= i < pow2(k) ==> red::<F>(eval(c, #[trigger] pow(w, i as nat))) == red::<F>(
                eval(d, pow(w, i as nat)),
            ),
    ensures
        forall|j: int| 0 <= j < pow2(k) ==> red::<F>(#[trigger] c[j]) == red::<F>(d[j]),
    decreases k,
{
    lemma2_to64();
    if k == 0 {
        lemma_pow0(w);
        let i = 0int;
        assert(red::<F>(eval(c, pow(w, i as nat))) == red::<F>(eval(d, pow(w, i as nat))));
        assert(c.skip(1) =~= Seq::<int>::empty() && d.skip(1) =~= Seq::<int>::empty());
        assert(eval(c.skip(1), 1) == 0 && eval(d.skip(1), 1) == 0);
        assert(eval(c, 1) == c[0] && eval(d, 1) == d[0]);
    } else {
        lemma_pow2_unfold(k);
        lemma_pow2_pos((k - 1) as nat);
        let n = pow2((k - 1) as nat);
        let h = lemma_half::<F>();
        let (ce, co) = (Seq::new(n, |i: int| c[2 * i]), Seq::new(n, |i: int| c[2 * i + 1]));
        let (de, dd) = (Seq::new(n, |i: int| d[2 * i]), Seq::new(n, |i: int| d[2 * i + 1]));
        let w2 = red::<F>(w * w);
        let v = pow(w, (2 * n - 1) as nat);
        lemma_red_small::<F>();
        lemma_generates_square::<F>(w, k);
        lemma_generates_order::<F>(w, k);
        lemma_pow_adds(w, 1, (2 * n - 1) as nat);
        lemma_pow1(w);
        assert(red::<F>(w * v) == 1);
        assert forall|i: int| 0 <= i < n implies {
            &&& red::<F>(eval(ce, #[trigger] pow(w2, i as nat))) == red::<F>(
                eval(de, pow(w2, i as nat)),
            )
            &&& red::<F>(eval(co, pow(w2, i as nat))) == red::<F>(eval(dd, pow(w2, i as nat)))
        } by {
            let x = pow(w, i as nat);
            let y = pow(v, i as nat);
            let u = pow(w, (i + n) as nat);
            let s = pow(w2, i as nat);
            lemma_red_range::<F>(w * w);
            lemma_red_pow::<F>(w2, w * w, i as nat);
            lemma_pow_distributes(w, w, i as nat);
            lemma_pow_distributes(w, v, i as nat);
            lemma_red_pow::<F>(w * v, 1, i as nat);
            lemma1_pow(i as nat);
            // the point on the other side
            lemma_pow_adds(w, i as nat, n);
            lemma_red_mul::<F>(x, pow(w, n), x, -1);
            assert(red::<F>(u) == red::<F>(-x));
            lemma_red_mul::<F>(u, u, -x, -x);
            assert((-x) * (-x) == x * x) by (nonlinear_arith);
            assert(red::<F>(s) == red::<F>(x * x) && red::<F>(s) == red::<F>(u * u));
            lemma_split_values::<F>(c, ce, co, x, x, s);
            lemma_split_values::<F>(d, de, dd, x, x, s);
            lemma_split_values::<F>(c, ce, co, u, -x, s);
            lemma_split_values::<F>(d, de, dd, u, -x, s);
            assert(red::<F>(eval(c, x)) == red::<F>(eval(d, x)));
            let i2 = i + n;
            assert(red::<F>(eval(c, pow(w, i2 as nat))) == red::<F>(eval(d, pow(w, i2 as nat))));
            assert((-x) * eval(co, s) == -(x * eval(co, s))) by (nonlinear_arith);
            assert((-x) * eval(dd, s) == -(x * eval(dd, s))) by (nonlinear_arith);
            lemma_pair::<F>(eval(ce, s), eval(co, s), eval(de, s), eval(dd, s), h, x, y);
        }
        lemma_unique_on_domain::<F>(ce, de, w2, (k - 1) as nat);
        lemma_unique_on_domain::<F>(co, dd, w2, (k - 1) as nat);
        assert forall|j: int| 0 <= j < pow2(k) implies red::<F>(#[trigger] c[j]) == red::<F>(
            d[j],
        ) by {
            let i = j / 2;
            if j % 2 == 0 {
                assert(j == 2 * i);
                assert(red::<F>(ce[i]) == red::<F>(de[i]));
            } else {
                assert(j == 2 * i + 1);
                assert(red::<F>(co[i]) == red::<F>(dd[i]));
            }
        }
    }
}

/// The value at `u` from the values of the two halves at a congruent square.
proof fn lemma_split_values<F: PrimeField>(
    c: Seq<int>,
    e: Seq<int>,
    o: Seq<int>,
    u: int,
    x: int,
    s: int,
)
    requires
        e.len() == o.len(),
        c.len() == 2 * e.len(),
        forall|i: int| 0 <= i < e.len() ==> c[2 * i] == #[trigger] e[i],
        forall|i: int| 0 <= i < e.len() ==> c[2 * i + 1] == #[trigger] o[i],
        red::<F>(u) == red::<F>(x),
        red::<F>(s) == red::<F>(u * u),
    ensures
        red::<F>(eval(c, u)) == red::<F>(eval(e, s) + x * eval(o, s)),
{
    lemma_eval_halves(c, e, o, u);
    lemma_eval_point_congruent::<F>(e, s, u * u);
    lemma_eval_point_congruent::<F>(o, s, u * u);
    lemma_red_mul::<F>(u, eval(o, u * u), x, eval(o, s));
    lemma_red_add::<F>(eval(e, u * u), u * eval(o, u * u), eval(e, s), x * eval(o, s));
}

/// Scaling the coefficients by powers is stretching the argument.
pub proof fn lemma_eval_scaled(c: Seq<int>, r: Seq<int>, f: int, x: int, e: nat)
    requires
        r.len() == c.len(),
        forall|j: int| 0 <= j < c.len() ==> #[trigger] r[j] == pow(f, (e + j) as nat) * c[j],
    ensures
        eval(r, x) == pow(f, e) * eval(c, f * x),
    decreases c.len(),
{
    let p = pow(f, e);
    if c.len() == 0 {
        assert(p * 0 == 0);
    } else {
        let (r1, c1) = (r.skip(1), c.skip(1));
        assert forall|j: int| 0 <= j < c1.len() implies #[trigger] r1[j] == pow(
            f,
            (e + 1 + j) as nat,
        ) * c1[j] by {
            assert(r[j + 1] == pow(f, (e + (j + 1)) as nat) * c[j + 1]);
        }
        lemma_eval_scaled(c1, r1, f, x, e + 1);
        lemma_pow_adds(f, e, 1);
        lemma_pow1(f);
        assert(r[0] == pow(f, (e + 0) as nat) * c[0]);
        let ec = eval(c1, f * x);
        assert(p * c[0] + x * ((p * f) * ec) == p * (c[0] + (f * x) * ec)) by (nonlinear_arith);
    }
}

/// Polynomials with congruent values on a whole coset of an invertible factor
/// have congruent coefficients.
pub proof fn lemma_unique_on_coset<F: PrimeField>(
    c: Seq<int>,
    d: Seq<int>,
    factor: int,
    w: int,
    k: nat,
)
    requires
        c.len() == pow2(k),
        d.len() == pow2(k),
        generates::<F>(w, k),
        invertible::<F>(factor),
        forall|i: int|
            0 <= i < pow2(k) ==> red::<F>(eval(c, factor * #[trigger] pow(w, i as nat)))
                == red::<F>(eval(d, factor * pow(w, i as nat))),
    ensures
        forall|j: int| 0 <= j < pow2(k) ==> red::<F>(#[trigger] c[j]) == red::<F>(d[j]),
{
    let n = pow2(k);
    let c2 = Seq::new(n, |j: int| pow(factor, j as nat) * c[j]);
    let d2 = Seq::new(n, |j: int| pow(factor, j as nat) * d[j]);
    lemma_pow0(factor);
    assert forall|i: int| 0 <= i < pow2(k) implies red::<F>(
        eval(c2, #[trigger] pow(w, i as nat)),
    ) == red::<F>(eval(d2, pow(w, i as nat))) by {
        let x = pow(w, i as nat);
        lemma_eval_scaled(c, c2, factor, x, 0);
        lemma_eval_scaled(d, d2, factor, x, 0);
        assert(1 * eval(c, factor * x) == eval(c, factor * x));
        assert(1 * eval(d, factor * x) == eval(d, factor * x));
    }
    lemma_unique_on_domain::<F>(c2, d2, w, k);
    assert forall|j: int| 0 <= j < n implies red::<F>(#[trigger] c[j]) == red::<F>(d[j]) by {
        let g = inv::<F>(factor);
        let e = j as nat;
        let (fj, gj) = (pow(factor, e), pow(g, e));
        let (x, y) = (c[j], d[j]);
        assert(red::<F>(c2[j]) == red::<F>(d2[j]));
        lemma_red_small::<F>();
        lemma_pow_distributes(factor, g, e);
        lemma_red_pow::<F>(factor * g, 1, e);
        lemma1_pow(e);
        lemma_red_mul::<F>(gj, fj * x, gj, fj * y);
        assert(gj * (fj * x) == x * (fj * gj)) by (nonlinear_arith);
        assert(gj * (fj * y) == y * (fj * gj)) by (nonlinear_arith);
        lemma_red_mul::<F>(x, fj * gj, x, 1);
        lemma_red_mul::<F>(y, fj * gj, y, 1);
    }
}

/// The polynomial with given values on a coset is unique: two polynomials, of as
/// many coefficients as the domain has elements, that interpolate the same
/// values on the coset of an invertible factor have the same coefficients.
pub proof fn law_interpolation_is_unique<F: PrimeField>(
    c: Seq<F>,
    d: Seq<F>,
    t: Seq<F>,
    factor: int,
    w: int,
    k: nat,
)
    requires
        generates::<F>(w, k),
        t.len() == pow2(k),
        invertible::<F>(factor),
        interpolates(c, t, factor, w),
        interpolates(d, t, factor, w),
    ensures
        vals(c) == vals(d),
{
    assert forall|i: int| 0 <= i < pow2(k) implies red::<F>(
        eval(vals(c), factor * #[trigger] pow(w, i as nat)),
    ) == red::<F>(eval(vals(d), factor * pow(w, i as nat))) by {
        assert(t[i].val() == red::<F>(eval(vals(c), factor * pow(w, i as nat))));
        assert(t[i].val() == red::<F>(eval(vals(d), factor * pow(w, i as nat))));
    }
    lemma_unique_on_coset::<F>(vals(c), vals(d), factor, w, k);
    assert forall|j: int| 0 <= j < pow2(k) implies #[trigger] vals(c)[j] == vals(d)[j] by {
        assert(red::<F>(vals(c)[j]) == red::<F>(vals(d)[j]));
        lemma_val_red(c[j]);
        lemma_val_red(d[j]);
    }
    assert(vals(c) =~= vals(d));
}

} // verus!
