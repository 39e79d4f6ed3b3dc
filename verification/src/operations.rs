//! What single operations do, in terms of what goes in and what comes out.

use crate::bits::{
    bitreverse, bitreverse_enumeration, clone_shifted_assuming_bitreversed, lemma_reversed_bound,
    lemma_reversed_involutive, reversed,
};
use crate::contributions::add_inputs_into_quotient;
use crate::domain::{
    calculate_lagrange_poly, evaluate_l0_at_point, evaluate_lagrange_poly_at_point,
    evaluate_vanishing_for_size, evaluate_vanishing_polynomial_of_degree_on_domain_size, geometric,
    inverse_size, lemma_domain_generators, lemma_generates_order,
    materialize_domain_elements_with_natural_enumeration, Domain,
};
use crate::errors::SynthesisError;
use crate::fft::icoset_fft_for_generator;
use crate::field::{
    inv, invertible, lemma_invertible, lemma_red_mul, lemma_red_range, lemma_red_small,
    lemma_red_sub, lemma_val_red, red, vals, PrimeField,
};
use crate::gates::{
    contribute_into_quotient_for_public_inputs, test_bit_gate_contribute_into_quotient, Gate,
};
use crate::laws::{law_lagrange_on_domain, law_public_inputs};
use crate::lookup::{expected_last_value, place_on_domain};
use crate::permutation::row_of;
use crate::polynomial::{
    aggregate, batch_inversion, break_into_multiples, calculate_shifted_grand_product, columns,
    combine, divide_single, eval, evaluate_at, padded, power_terms, product, slice,
};
use crate::quotient::total_quotient_terms;
use vstd::arithmetic::div_mod::*;
use vstd::arithmetic::power::*;
use vstd::arithmetic::power2::*;
use vstd::prelude::*;

verus! {

/// A padded vector keeps its entries, and zeros follow them.
pub proof fn law_padded<F: PrimeField>(v: Vec<F>, n: usize, r: Vec<F>, i: int)
    requires
        call_ensures(padded::<F>, (&v, n), r),
        0 <= i < n,
    ensures
        r@.len() == n,
        r@[i].val() == if i < v@.len() {
            v@[i].val()
        } else {
            0
        },
{
    assert(vals(r@)[i] == r@[i].val());
}

/// A column that is placed on the domain ends in the row before the last; zeros
/// stand in all other rows.
pub proof fn law_placed<F: PrimeField>(v: Vec<F>, n: usize, r: Vec<F>, i: int)
    requires
        call_ensures(place_on_domain::<F>, (&v, n), r),
        v@.len() < n,
        0 <= i < n,
    ensures
        r@.len() == n,
        i < v@.len() ==> r@[n - 2 - i].val() == v@[v@.len() - 1 - i].val(),
        i < n - 1 - v@.len() ==> r@[i].val() == 0,
        r@[n - 1].val() == 0,
{
    if i < v@.len() {
        assert(vals(r@)[n - 2 - i] == r@[n - 2 - i].val());
    }
    assert(vals(r@)[i] == r@[i].val());
    assert(vals(r@)[n - 1] == r@[n - 1].val());
}

/// A slice holds the entries from its first position on.
pub proof fn law_sliced<F: PrimeField>(v: Vec<F>, from: usize, to: usize, r: Vec<F>, i: int)
    requires
        call_ensures(slice::<F>, (&v, from, to), r),
        from <= to <= v@.len(),
        0 <= i < to - from,
    ensures
        r@.len() == to - from,
        r@[i] == v@[from + i],
{
}

/// A vector that is cut into parts is its parts, one after the other.
pub proof fn law_cut<F: PrimeField>(v: Vec<F>, n: usize, r: Vec<Vec<F>>, k: int, i: int)
    requires
        call_ensures(break_into_multiples::<F>, (&v, n), r),
        n > 0,
        0 <= k < r@.len(),
        0 <= i < n,
    ensures
        r@.len() * n == v@.len(),
        r@[k]@.len() == n,
        v@[k * n + i] == r@[k]@[i],
{
    assert(r@[k]@ == v@.subrange(k * n, (k + 1) * n));
    assert((k + 1) * n == k * n + n) by (nonlinear_arith);
    assert((k + 1) * n <= r@.len() * n) by (nonlinear_arith)
        requires
            k < r@.len(),
    ;
    assert(0 <= k * n) by (nonlinear_arith)
        requires
            k >= 0,
    ;
}

/// The value of a polynomial is its constant term plus the point times the value of
/// the polynomial without it.
pub proof fn law_evaluated<F: PrimeField>(c: Vec<F>, tail: Vec<F>, at: F, r: F, s: F)
    requires
        call_ensures(evaluate_at::<F>, (&c, &at), r),
        call_ensures(evaluate_at::<F>, (&tail, &at), s),
    ensures
        c@.len() == 0 ==> r.val() == 0,
        c@.len() > 0 && tail@ == c@.skip(1) ==> r.val() == red::<F>(
            c@[0].val() + at.val() * s.val(),
        ),
{
    lemma_red_small::<F>();
    if c@.len() > 0 && tail@ == c@.skip(1) {
        let (x, e) = (at.val(), eval(vals(tail@), at.val()));
        assert(vals(c@).skip(1) =~= vals(tail@));
        lemma_red_range::<F>(e);
        lemma_red_mul::<F>(x, s.val(), x, e);
        crate::field::lemma_red_add::<F>(c@[0].val(), x * s.val(), c@[0].val(), x * e);
    }
}

/// The quotient of a polynomial by `X - at` times `X - at`, and the value at `at`,
/// are the polynomial again, coefficient by coefficient.
pub proof fn law_divided<F: PrimeField>(c: Vec<F>, at: F, q: Vec<F>, rest: F, k: int)
    requires
        call_ensures(divide_single::<F>, (&c, &at), q),
        call_ensures(evaluate_at::<F>, (&c, &at), rest),
        0 < k < c@.len(),
    ensures
        q@.len() == c@.len(),
        q@.last().val() == 0,
        c@[k].val() == red::<F>(q@[k - 1].val() - at.val() * q@[k].val()),
        c@[0].val() == red::<F>(rest.val() - at.val() * q@[0].val()),
{
    let v = vals(c@);
    let x = at.val();
    lemma_red_small::<F>();
    assert(v.skip(c@.len() as int) =~= Seq::<int>::empty());
    assert(q@[c@.len() - 1].val() == red::<F>(eval(v.skip(c@.len() as int), x)));
    lemma_division_step::<F>(v, x, k, q@[k - 1].val(), q@[k].val());
    assert(v.skip(0) =~= v);
    lemma_division_step::<F>(v, x, 0, rest.val(), q@[0].val());
    lemma_val_red(c@[k]);
    lemma_val_red(c@[0]);
}

proof fn lemma_division_step<F: PrimeField>(v: Seq<int>, x: int, k: int, a: int, b: int)
    requires
        0 <= k < v.len(),
        a == red::<F>(eval(v.skip(k), x)),
        b == red::<F>(eval(v.skip(k + 1), x)),
    ensures
        red::<F>(v[k]) == red::<F>(a - x * b),
{
    let (e, f) = (eval(v.skip(k), x), eval(v.skip(k + 1), x));
    assert(v.skip(k).skip(1) =~= v.skip(k + 1));
    assert(e == v[k] + x * f);
    lemma_red_range::<F>(e);
    lemma_red_range::<F>(f);
    lemma_red_mul::<F>(x, b, x, f);
    lemma_red_sub::<F>(a, x * b, e, x * f);
}

/// The shifted grand product starts from one, and each entry follows from the one
/// before by an entry of the vector.
pub proof fn law_shifted_product<F: PrimeField>(v: Vec<F>, r: Vec<F>, i: int)
    requires
        call_ensures(calculate_shifted_grand_product::<F>, (&v,), r),
        0 <= i < v@.len(),
    ensures
        r@.len() == v@.len() + 1,
        r@[0].val() == 1,
        r@[i + 1].val() == red::<F>(r@[i].val() * v@[i].val()),
{
    let s = vals(v@);
    lemma_red_small::<F>();
    assert(s.take(0) =~= Seq::<int>::empty());
    assert(r@[0].val() == red::<F>(product(s.take(0))));
    let p = product(s.take(i));
    assert(s.take(i + 1).drop_last() =~= s.take(i));
    assert(r@[i].val() == red::<F>(p));
    assert(r@[i + 1].val() == red::<F>(product(s.take(i + 1))));
    lemma_red_range::<F>(p);
    lemma_red_mul::<F>(r@[i].val(), s[i], p, s[i]);
}

/// No number times this one is one.
pub open spec fn without_inverse<F: PrimeField>(x: int) -> bool {
    forall|y: int| #[trigger] red::<F>(x * y) != 1
}

/// Each entry times its inverse is one. The inversion fails exactly if some entry
/// has no inverse.
pub proof fn law_inverted<F: PrimeField>(v: Vec<F>, r: Result<Vec<F>, SynthesisError>, i: int)
    requires
        call_ensures(batch_inversion::<F>, (&v,), r),
        0 <= i < v@.len(),
    ensures
        match r {
            Ok(w) => w@.len() == v@.len() && red::<F>(v@[i].val() * w@[i].val()) == 1,
            Err(e) => e == SynthesisError::DivisionByZero && exists|k: int|
                0 <= k < v@.len() && #[trigger] without_inverse::<F>(v@[k].val()),
        },
{
    if r is Err {
        let k = choose|k: int| 0 <= k < vals(v@).len() && !#[trigger] invertible::<F>(vals(v@)[k]);
        assert forall|y: int| #[trigger] red::<F>(v@[k].val() * y) != 1 by {
            if red::<F>(v@[k].val() * y) == 1 {
                lemma_invertible::<F>(v@[k].val(), y);
            }
        }
        assert(without_inverse::<F>(v@[k].val()));
    }
}

/// The first term of a geometric sequence is given, and each follows from the one
/// before by the ratio.
pub proof fn law_geometric<F: PrimeField>(first: F, ratio: F, n: usize, r: Vec<F>, i: int)
    requires
        call_ensures(geometric::<F>, (&first, &ratio, n), r),
        0 <= i < n - 1,
    ensures
        r@.len() == n,
        r@[0].val() == first.val(),
        r@[i + 1].val() == red::<F>(r@[i].val() * ratio.val()),
{
    let (a, b) = (first.val(), ratio.val());
    lemma_geometric_step::<F>(a, b, i as nat);
    assert(r@[0].val() == red::<F>(a * pow(b, 0)));
    lemma_pow0(b);
    lemma_val_red(first);
}

proof fn lemma_geometric_step<F: PrimeField>(a: int, b: int, i: nat)
    ensures
        red::<F>(a * pow(b, i + 1)) == red::<F>(red::<F>(a * pow(b, i)) * b),
{
    let p = pow(b, i);
    lemma_pow_adds(b, i, 1);
    lemma_pow1(b);
    assert(a * (p * b) == (a * p) * b) by (nonlinear_arith);
    lemma_red_range::<F>(a * p);
    lemma_red_mul::<F>(red::<F>(a * p), b, a * p, b);
}

/// The elements of a domain start from one, each is the one before times the
/// generator, and the last times the generator is one again.
pub proof fn law_domain_elements<F: PrimeField>(domain: Domain<F>, r: Vec<F>, i: int)
    requires
        domain.wf(),
        call_ensures(materialize_domain_elements_with_natural_enumeration::<F>, (&domain,), r),
        0 <= i < domain.size,
    ensures
        r@.len() == domain.size,
        r@[0].val() == 1,
        red::<F>(r@[i].val() * domain.generator.val()) == if i + 1 < domain.size {
            r@[i + 1].val()
        } else {
            1
        },
{
    let w = domain.generator.val();
    lemma_red_small::<F>();
    lemma_pow0(w);
    assert(r@[0].val() == red::<F>(pow(w, 0)));
    lemma_geometric_step::<F>(1, w, i as nat);
    assert(1 * pow(w, i as nat) == pow(w, i as nat));
    assert(1 * pow(w, (i + 1) as nat) == pow(w, (i + 1) as nat));
    lemma_generates_order::<F>(w, domain.power_of_two as nat);
    assert(r@[i].val() == red::<F>(pow(w, i as nat)));
    if i + 1 < domain.size {
        assert(r@[i + 1].val() == red::<F>(pow(w, (i + 1) as nat)));
    }
}

/// The value of the polynomial that vanishes on the domain of size `n` is one less
/// than the power of the point.
pub proof fn law_vanishing<F: PrimeField>(point: F, n: u64, r: F)
    requires
        call_ensures(evaluate_vanishing_for_size::<F>, (&point, n), r),
    ensures
        red::<F>(r.val() + 1) == red::<F>(pow(point.val(), n as nat)),
        r.val() == 0 <==> red::<F>(pow(point.val(), n as nat)) == 1,
{
    let p = pow(point.val(), n as nat);
    lemma_red_small::<F>();
    lemma_red_range::<F>(p - 1);
    crate::field::lemma_red_add::<F>(r.val(), 1, p - 1, 1);
    if red::<F>(p) == 1 {
        lemma_red_sub::<F>(p, 1, 1, 1);
    }
}

proof fn lemma_lagrange_relation<F: PrimeField>(node: int, n: nat, x: int)
    requires
        crate::domain::lagrange_defined::<F>(node, n, x),
    ensures
        red::<F>(crate::domain::lagrange_at::<F>(node, n, x) * ((x - node) * n)) == red::<F>(
            node * (pow(x, n) - 1),
        ),
{
    let d = (x - node) * n;
    let a = node * (pow(x, n) - 1);
    let y = inv::<F>(red::<F>(d));
    lemma_red_range::<F>(d);
    lemma_red_range::<F>(a * y);
    lemma_red_mul::<F>(red::<F>(a * y), d, a * y, d);
    lemma_red_mul::<F>(d, y, red::<F>(d), y);
    assert((a * y) * d == a * (d * y)) by (nonlinear_arith);
    lemma_red_small::<F>();
    lemma_red_mul::<F>(a, d * y, a, 1);
}

proof fn lemma_lagrange_undefined<F: PrimeField>(node: int, n: nat, x: int, y: int)
    requires
        !crate::domain::lagrange_defined::<F>(node, n, x),
    ensures
        red::<F>(((x - node) * n) * y) != 1,
{
    let d = (x - node) * n;
    lemma_red_range::<F>(d);
    lemma_red_mul::<F>(red::<F>(d), y, d, y);
    if red::<F>(d * y) == 1 {
        lemma_invertible::<F>(red::<F>(d), y);
    }
}

/// The value at a point `x` of the Lagrange polynomial of the first element times
/// `(x - 1) * n` is `x^n - 1`. There is no value exactly if that factor has no
/// inverse.
pub proof fn law_l0<F: PrimeField>(n: u64, point: F, r: Result<F, SynthesisError>, y: int)
    requires
        call_ensures(evaluate_l0_at_point::<F>, (n, &point), r),
    ensures
        ({
            let x = point.val();
            match r {
                Ok(v) => red::<F>(v.val() * ((x - 1) * n)) == red::<F>(pow(x, n as nat) - 1),
                Err(e) => e == SynthesisError::DivisionByZero && red::<F>(((x - 1) * n) * y) != 1,
            }
        }),
{
    match r {
        Ok(_) => {
            lemma_lagrange_relation::<F>(1, n as nat, point.val());
        },
        Err(_) => {
            lemma_lagrange_undefined::<F>(1, n as nat, point.val(), y);
        },
    }
}

/// The value at a point `x` of the Lagrange polynomial of the element with index
/// `i`, `e`, times `(x - e) * n` is `e * (x^n - 1)`. There is no value exactly if that
/// factor has no inverse.
pub proof fn law_lagrange<F: PrimeField>(
    i: u64,
    domain: Domain<F>,
    point: F,
    r: Result<F, SynthesisError>,
    y: int,
)
    requires
        call_ensures(evaluate_lagrange_poly_at_point::<F>, (i, &domain, &point), r),
    ensures
        ({
            let x = point.val();
            let n = domain.size as nat;
            let e = red::<F>(pow(domain.generator.val(), i as nat));
            match r {
                Ok(v) => red::<F>(v.val() * ((x - e) * n)) == red::<F>(e * (pow(x, n) - 1)),
                Err(e2) => e2 == SynthesisError::DivisionByZero && red::<F>(((x - e) * n) * y)
                    != 1,
            }
        }),
{
    let e = red::<F>(pow(domain.generator.val(), i as nat));
    match r {
        Ok(_) => {
            lemma_lagrange_relation::<F>(e, domain.size as nat, point.val());
        },
        Err(_) => {
            lemma_lagrange_undefined::<F>(e, domain.size as nat, point.val(), y);
        },
    }
}

/// The Lagrange polynomial of an element of a domain is one there, and zero at the
/// other elements. Its coefficients are scaled by the inverse of the size.
pub proof fn law_lagrange_coefficients<F: PrimeField>(
    domain: Domain<F>,
    i: u64,
    r: Vec<F>,
    size_inverse: F,
    j: nat,
)
    requires
        domain.wf(),
        i < domain.size,
        j < domain.size,
        call_ensures(calculate_lagrange_poly::<F>, (&domain, i), r),
        call_ensures(inverse_size::<F>, (&domain,), size_inverse),
    ensures
        r@.len() == domain.size,
        red::<F>(eval(vals(r@), pow(domain.generator.val(), j))) == if i == j {
            1int
        } else {
            0
        },
        red::<F>(size_inverse.val() * domain.size) == 1,
        r@[0].val() == size_inverse.val(),
{
    let w = domain.generator.val();
    law_lagrange_on_domain::<F>(w, domain.power_of_two as nat, i as nat, j);
    assert(vals(r@)[0] == r@[0].val());
    lemma_pow0(red::<F>(pow(w, (domain.size - i) as nat)));
    assert(domain.size * size_inverse.val() == size_inverse.val() * domain.size)
        by (nonlinear_arith);
    lemma_val_red(size_inverse);
}

/// On a coset, one more than the vanishing polynomial starts from the power of the
/// factor, and each value follows from the one before by the power of the generator.
pub proof fn law_vanishing_on_coset<F: PrimeField>(
    n: u64,
    factor: F,
    domain: Domain<F>,
    r: Vec<F>,
    i: int,
)
    requires
        call_ensures(
            evaluate_vanishing_polynomial_of_degree_on_domain_size::<F>,
            (n, &factor, &domain),
            r,
        ),
        0 <= i < domain.size - 1,
    ensures
        r@.len() == domain.size,
        red::<F>(r@[0].val() + 1) == red::<F>(pow(factor.val(), n as nat)),
        red::<F>(r@[i + 1].val() + 1) == red::<F>(
            (r@[i].val() + 1) * pow(domain.generator.val(), n as nat),
        ),
{
    let (f, w) = (factor.val(), domain.generator.val());
    let p = pow(w, i as nat);
    let m = n as nat;
    lemma_pow0(w);
    assert(f * 1 == f);
    assert(r@[0].val() == red::<F>(pow(f * pow(w, 0), m) - 1));
    lemma_one_more::<F>(pow(f, m));
    lemma_pow_adds(w, i as nat, 1);
    lemma_pow1(w);
    assert(f * (p * w) == (f * p) * w) by (nonlinear_arith);
    lemma_pow_distributes(f * p, w, m);
    assert(r@[i].val() == red::<F>(pow(f * p, m) - 1));
    assert(r@[i + 1].val() == red::<F>(pow(f * pow(w, (i + 1) as nat), m) - 1));
    lemma_one_more::<F>(pow(f * p, m));
    lemma_one_more::<F>(pow(f * p, m) * pow(w, m));
    lemma_red_mul::<F>(r@[i].val() + 1, pow(w, m), pow(f * p, m), pow(w, m));
}

proof fn lemma_one_more<F: PrimeField>(a: int)
    ensures
        red::<F>(red::<F>(a - 1) + 1) == red::<F>(a),
{
    lemma_red_range::<F>(a - 1);
    crate::field::lemma_red_add::<F>(red::<F>(a - 1), 1, a - 1, 1);
}

/// A domain has the smallest power of two of elements that is not below the size
/// asked for. The power of its generator by the size is one, and by half the size
/// minus one. There is no domain exactly if the size exceeds the largest power of
/// two that the field has one for.
pub proof fn law_new_domain<F: PrimeField>(size: u64, r: Result<Domain<F>, SynthesisError>)
    requires
        call_ensures(Domain::<F>::new_for_size, (size,), r),
    ensures
        match r {
            Ok(d) => {
                let half = pow2((d.power_of_two - 1) as nat);
                &&& size <= pow2(F::spec_two_adicity())
                &&& d.size == pow2(d.power_of_two as nat)
                &&& size <= d.size
                &&& red::<F>(pow(d.generator.val(), d.size as nat)) == 1
                &&& d.power_of_two > 0 ==> {
                    &&& half < size
                    &&& red::<F>(pow(d.generator.val(), half)) == red::<F>(-1)
                }
            },
            Err(e) => {
                &&& e == SynthesisError::PolynomialDegreeTooLarge
                &&& size > pow2(F::spec_two_adicity())
            },
        },
{
    if let Ok(d) = r {
        lemma_generates_order::<F>(d.generator.val(), d.power_of_two as nat);
        if d.power_of_two > 0 {
            lemma_pow2_unfold(d.power_of_two as nat);
        }
    }
}

/// A smaller domain is generated by a power of the generator of a larger one.
pub proof fn law_domains_nest<F: PrimeField>(
    size: u64,
    larger: u64,
    d: Domain<F>,
    e: Domain<F>,
)
    requires
        call_ensures(Domain::<F>::new_for_size, (size,), Ok::<Domain<F>, SynthesisError>(d)),
        call_ensures(Domain::<F>::new_for_size, (larger,), Ok::<Domain<F>, SynthesisError>(e)),
        d.power_of_two <= e.power_of_two,
    ensures
        d.generator.val() == red::<F>(
            pow(e.generator.val(), pow2((e.power_of_two - d.power_of_two) as nat)),
        ),
{
    let (k, j) = (d.power_of_two as nat, (e.power_of_two - d.power_of_two) as nat);
    lemma_domain_generators::<F>(k, j);
}

/// The bit of place `j` of an index is the bit of place `bits - 1 - j` of the
/// reversed index.
pub proof fn law_reversed_bits(index: nat, bits: nat, j: nat)
    requires
        j < bits,
    ensures
        reversed(index, bits) / pow2((bits - 1 - j) as nat) % 2 == index / pow2(j) % 2,
    decreases bits,
{
    let b = (bits - 1) as nat;
    let low = reversed(index / 2, b);
    let bit = index % 2;
    lemma_reversed_bound(index / 2, b);
    lemma_pow2_pos(b);
    lemma2_to64();
    if j == 0 {
        lemma_fundamental_div_mod_converse(
            (bit * pow2(b) + low) as int,
            pow2(b) as int,
            bit as int,
            low as int,
        );
    } else {
        let k = (bits - 1 - j) as nat;
        law_reversed_bits(index / 2, b, (j - 1) as nat);
        lemma_pow2_unfold(j);
        lemma_pow2_pos((j - 1) as nat);
        lemma_div_denominator(index as int, 2, pow2((j - 1) as nat) as int);
        lemma_pow2_adds(j, k);
        lemma_pow2_pos(k);
        let p = pow2(k) as int;
        let h = (bit * pow2((j - 1) as nat)) as int;
        assert(bit * pow2(b) == (2 * h) * p) by (nonlinear_arith)
            requires
                h == bit * pow2((j - 1) as nat),
                pow2(b) == pow2(j) * p,
                pow2(j) == 2 * pow2((j - 1) as nat),
        ;
        lemma_hoist_over_denominator(low as int, 2 * h, pow2(k));
        assert((bit * pow2(b) + low) as int / p == low as int / p + 2 * h);
        lemma_mod_multiples_vanish(h, low as int / p, 2);
    }
}

/// Reversing an index twice gives it back.
pub proof fn law_reversed_twice(index: usize, bits: u32, once: usize, twice: usize)
    requires
        index < pow2(bits as nat),
        call_ensures(bitreverse, (index, bits), once),
        call_ensures(bitreverse, (once, bits), twice),
    ensures
        once < pow2(bits as nat),
        twice == index,
{
    lemma_reversed_involutive(index as nat, bits as nat);
}

/// A vector enumerated by reversed indices holds at each index the entry of the
/// reversed index.
pub proof fn law_enumerated<F: PrimeField>(
    v: Vec<F>,
    bits: u32,
    r: Vec<F>,
    index: usize,
    other: usize,
)
    requires
        call_ensures(bitreverse_enumeration::<F>, (&v, bits), r),
        call_ensures(bitreverse, (index, bits), other),
        index < v@.len(),
    ensures
        r@.len() == v@.len(),
        r@[index as int] == v@[other as int],
{
}

/// Rotating a vector in reversed order moves every entry of the natural order back
/// by that many places, cyclically.
pub proof fn law_rotated<F: PrimeField>(v: Vec<F>, by: usize, bits: u32, r: Vec<F>, i: nat)
    requires
        v@.len() == pow2(bits as nat),
        call_ensures(clone_shifted_assuming_bitreversed::<F>, (&v, by, bits), r),
        i < v@.len(),
    ensures
        r@.len() == v@.len(),
        r@[reversed(i, bits as nat) as int] == v@[reversed(
            (i + by as nat) % v@.len(),
            bits as nat,
        ) as int],
{
    lemma_reversed_bound(i, bits as nat);
    lemma_reversed_involutive(i, bits as nat);
    let at = reversed(i, bits as nat);
    assert(r@[at as int] == v@[crate::bits::shifted_index(at, by as nat, bits as nat)]);
}

/// The value that a lookup grand product must end with is `gamma * (beta + 1)` for
/// one row, and that much more with every further row.
pub proof fn law_expected<F: PrimeField>(beta: F, gamma: F, n: u64, r: F, next: F)
    requires
        n < u64::MAX,
        call_ensures(expected_last_value::<F>, (&beta, &gamma, n), r),
        call_ensures(expected_last_value::<F>, (&beta, &gamma, (n + 1) as u64), next),
    ensures
        n == 0 ==> r.val() == 1,
        next.val() == red::<F>(r.val() * (gamma.val() * (beta.val() + 1))),
{
    let g = gamma.val() * (beta.val() + 1);
    lemma_red_small::<F>();
    lemma_pow0(g);
    lemma_geometric_step::<F>(1, g, n as nat);
    assert(1 * pow(g, n as nat) == pow(g, n as nat));
    assert(1 * pow(g, (n + 1) as nat) == pow(g, (n + 1) as nat));
}

/// The main gate adds in each row its equation, scaled by its challenge: the public
/// input and the constant, the wires by their setup values, the product of the first
/// two, and the last wire of the next row.
pub proof fn law_main_gate_adds<F: PrimeField>(
    gate: Gate,
    constants: Vec<F>,
    w: Vec<Vec<F>>,
    d_next: Vec<F>,
    q: Vec<Vec<F>>,
    challenges: Vec<F>,
    r: Vec<F>,
    i: int,
)
    requires
        call_ensures(
            contribute_into_quotient_for_public_inputs::<F>,
            (&gate, &constants, &w, &d_next, &q, &challenges),
            r,
        ),
        w@.len() == 4,
        q@.len() == 6,
        crate::polynomial::all_len(w@, constants@.len() as int),
        crate::polynomial::all_len(q@, constants@.len() as int),
        0 <= i < constants@.len(),
    ensures
        r@.len() == constants@.len(),
        ({
            let (a, b) = (w@[0]@[i].val(), w@[1]@[i].val());
            let (c, d) = (w@[2]@[i].val(), w@[3]@[i].val());
            r@[i].val() == red::<F>(
                (constants@[i].val() + q@[0]@[i].val() * a + q@[1]@[i].val() * b + q@[2]@[i].val()
                    * c + q@[3]@[i].val() * d + q@[4]@[i].val() * a * b + q@[5]@[i].val()
                    * d_next@[i].val()) * challenges@[0].val(),
            )
        }),
{
    let n = constants@.len();
    let rw = row_of(columns(w@), i);
    let rq = row_of(columns(q@), i);
    assert forall|k: int| 0 <= k < 4 implies #[trigger] rw[k] == w@[k]@[i].val() by {
        assert(w@[k]@.len() == n);
    }
    assert forall|k: int| 0 <= k < 6 implies #[trigger] rq[k] == q@[k]@[i].val() by {
        assert(q@[k]@.len() == n);
    }
}

/// A gate that tests for a bit adds in each row what is zero exactly for a bit,
/// `a * a - a`, scaled by its challenge.
pub proof fn law_bit_gate_adds<F: PrimeField>(
    gate: Gate,
    a: Vec<F>,
    challenges: Vec<F>,
    r: Vec<F>,
    i: int,
)
    requires
        call_ensures(test_bit_gate_contribute_into_quotient::<F>, (&gate, &a, &challenges), r),
        0 <= i < a@.len(),
    ensures
        r@.len() == a@.len(),
        r@[i].val() == red::<F>(
            (a@[i].val() * a@[i].val() - a@[i].val()) * challenges@[0].val(),
        ),
{
    let x = a@[i].val();
    assert((x - 1) * x == x * x - x) by (nonlinear_arith);
}

/// The number of terms of no gate is zero, and one more gate adds its own.
pub proof fn law_total_terms(gates: Vec<Gate>, more: Vec<Gate>, gate: Gate, r: usize, s: usize)
    requires
        call_ensures(total_quotient_terms, (&gates,), r),
        call_ensures(total_quotient_terms, (&more,), s),
        more@ == gates@.push(gate),
    ensures
        gates@.len() == 0 ==> r == 0,
        s == r + gate.num_quotient_terms,
{
    lemma_same_terms(gates@, more@, gates@.len());
}

proof fn lemma_same_terms(a: Seq<Gate>, b: Seq<Gate>, k: nat)
    requires
        k <= a.len(),
        k <= b.len(),
        forall|i: int| 0 <= i < k ==> #[trigger] a[i] == b[i],
    ensures
        crate::gates::terms_before(a, k) == crate::gates::terms_before(b, k),
    decreases k,
{
    if k > 0 {
        lemma_same_terms(a, b, (k - 1) as nat);
    }
}

/// One column combined with the powers of `eta` is the column itself, and a further
/// column adds its entries by the next power.
pub proof fn law_aggregated<F: PrimeField>(
    columns_: Vec<Vec<F>>,
    more: Vec<Vec<F>>,
    column: Vec<F>,
    eta: F,
    r: Vec<F>,
    s: Vec<F>,
    i: int,
)
    requires
        columns_@.len() > 0,
        crate::polynomial::all_len(columns_@, column@.len() as int),
        more@ == columns_@.push(column),
        call_ensures(aggregate::<F>, (&columns_, &eta), r),
        call_ensures(aggregate::<F>, (&more, &eta), s),
        0 <= i < column@.len(),
    ensures
        r@.len() == column@.len(),
        s@.len() == column@.len(),
        columns_@.len() == 1 ==> r@[i].val() == columns_@[0]@[i].val(),
        s@[i].val() == red::<F>(
            r@[i].val() + pow(eta.val(), columns_@.len()) * column@[i].val(),
        ),
{
    let (a, b) = (columns(columns_@), columns(more@));
    let e = eta.val();
    let (t, u) = (power_terms(a, e, 0), power_terms(b, e, 0));
    assert(columns_@[0]@.len() == column@.len());
    assert(more@[0]@.len() == column@.len());
    assert(vals(r@).len() == column@.len());
    assert(vals(s@).len() == column@.len());
    assert(vals(r@)[i] == red::<F>(combine(t, i)));
    assert(vals(s@)[i] == red::<F>(combine(u, i)));
    assert(u.drop_last() =~= t);
    assert(u.last() == (pow(e, a.len()), vals(column@)));
    let m = pow(e, a.len()) * column@[i].val();
    lemma_red_range::<F>(combine(t, i));
    crate::field::lemma_red_add::<F>(r@[i].val(), m, combine(t, i), m);
    if columns_@.len() == 1 {
        lemma_pow0(e);
        assert(t.drop_last() =~= Seq::<(int, Seq<int>)>::empty());
        assert(combine(t.drop_last(), i) == 0);
        assert(t.last() == (1int, vals(columns_@[0]@)));
        lemma_val_red(columns_@[0]@[i]);
    }
}

/// What the main gate adds for its public inputs is the value at `z` of the polynomial
/// that takes the public inputs in the first rows and is zero in the others, scaled by
/// the challenge.
pub proof fn law_inputs_added<F: PrimeField>(
    inputs: Vec<F>,
    poly: Seq<F>,
    domain: Domain<F>,
    z: F,
    challenge: F,
    r: F,
)
    requires
        domain.wf(),
        inputs@.len() <= domain.size,
        poly.len() == domain.size,
        forall|j: int|
            0 <= j < domain.size ==> red::<F>(
                eval(vals(poly), #[trigger] pow(domain.generator.val(), j as nat)),
            ) == if j < inputs@.len() {
                inputs@[j].val()
            } else {
                0
            },
        call_ensures(
            add_inputs_into_quotient::<F>,
            (&inputs, &domain, &z, &challenge),
            Ok::<F, SynthesisError>(r),
        ),
    ensures
        r.val() == red::<F>(eval(vals(poly), z.val()) * challenge.val()),
{
    let omega = domain.generator.val();
    let k = domain.power_of_two as nat;
    law_public_inputs(inputs@, poly, omega, k, z.val());
    let c = challenge.val();
    lemma_red_mul::<F>(
        crate::contributions::inputs_at(inputs@, omega, pow2(k), z.val(), inputs@.len()),
        c,
        eval(vals(poly), z.val()),
        c,
    );
}

/// The inverse transform on a coset gives a polynomial that takes the values there,
/// in the natural order of the coset.
pub proof fn law_interpolated<F: PrimeField>(
    values: Vec<F>,
    domain: Domain<F>,
    factor: F,
    c: Vec<F>,
    i: int,
)
    requires
        call_ensures(icoset_fft_for_generator::<F>, (&values, &domain, &factor), c),
        0 <= i < values@.len(),
    ensures
        c@.len() == values@.len(),
        values@[i].val() == red::<F>(
            eval(vals(c@), factor.val() * pow(domain.generator.val(), i as nat)),
        ),
{
}

} // verus!
