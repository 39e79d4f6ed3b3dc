//! Multiplicative subgroups of power-of-two order, their cosets and their
//! Lagrange polynomials.

use crate::errors::SynthesisError;
use crate::field::{
    inv, invertible, lemma_inv_unique, lemma_red_mul, lemma_red_pow, lemma_red_range,
    lemma_red_small, lemma_val_red, red, vals, Num, PrimeField,
};
use vstd::arithmetic::power::*;
use vstd::arithmetic::power2::*;
use vstd::prelude::*;

verus! {

/// The generator of the subgroup of order `2^k`, a power of the root of unity.
pub open spec fn domain_generator<F: PrimeField>(k: nat) -> int {
    red::<F>(pow(F::spec_root_of_unity(), pow2((F::spec_two_adicity() - k) as nat)))
}

/// The element `w` generates a subgroup of order `2^k`: its power to half that
/// order is minus one.
pub open spec fn generates<F: PrimeField>(w: int, k: nat) -> bool {
    if k == 0 {
        red::<F>(w) == 1
    } else {
        red::<F>(pow(w, pow2((k - 1) as nat))) == red::<F>(-1)
    }
}

/// A subgroup of order `2^power_of_two`.
#[derive(Debug)]
pub struct Domain<F: PrimeField> {
    /// The order of the subgroup.
    pub size: u64,
    /// The binary logarithm of the order.
    pub power_of_two: u32,
    /// An element that generates the subgroup.
    pub generator: F,
}

/// A generator raised to the order of its subgroup is one.
pub proof fn lemma_generates_order<F: PrimeField>(w: int, k: nat)
    requires
        generates::<F>(w, k),
    ensures
        red::<F>(pow(w, pow2(k))) == 1,
{
    lemma2_to64();
    if k == 0 {
        lemma_pow1(w);
    } else {
        let half = pow2((k - 1) as nat);
        lemma_pow2_unfold(k);
        lemma_pow_adds(w, half, half);
        lemma_red_mul::<F>(pow(w, half), pow(w, half), -1, -1);
        lemma_red_small::<F>();
    }
}

/// Any exponent may be reduced by the order of the subgroup.
pub proof fn lemma_generates_cyclic<F: PrimeField>(w: int, k: nat, e: nat, q: nat)
    requires
        generates::<F>(w, k),
    ensures
        red::<F>(pow(w, e + q * pow2(k))) == red::<F>(pow(w, e)),
{
    let n = pow2(k);
    lemma_generates_order::<F>(w, k);
    lemma_pow_adds(w, e, q * n);
    lemma_pow_multiplies(w, n, q);
    assert(n * q == q * n) by (nonlinear_arith);
    lemma_red_small::<F>();
    lemma_red_pow::<F>(pow(w, n), 1, q);
    lemma1_pow(q);
    lemma_red_mul::<F>(pow(w, e), pow(w, q * n), pow(w, e), 1);
}

/// The generators of the domains are powers of each other.
pub proof fn lemma_domain_generators<F: PrimeField>(k: nat, j: nat)
    requires
        k + j <= F::spec_two_adicity(),
    ensures
        red::<F>(pow(domain_generator::<F>(k + j), pow2(j))) == domain_generator::<F>(k),
{
    let s = F::spec_two_adicity();
    let root = F::spec_root_of_unity();
    let e = pow2((s - (k + j)) as nat);
    lemma_red_range::<F>(pow(root, e));
    lemma_red_pow::<F>(domain_generator::<F>(k + j), pow(root, e), pow2(j));
    lemma_pow_multiplies(root, e, pow2(j));
    lemma_pow2_adds((s - (k + j)) as nat, j);
    assert((s - (k + j)) as nat + j == (s - k) as nat);
}

proof fn lemma_root_generates<F: PrimeField>(k: nat)
    requires
        0 < F::spec_two_adicity(),
        k <= F::spec_two_adicity(),
        red::<F>(pow(F::spec_root_of_unity(), pow2((F::spec_two_adicity() - 1) as nat)))
            == red::<F>(-1),
    ensures
        generates::<F>(domain_generator::<F>(k), k),
{
    let s = F::spec_two_adicity();
    let root = F::spec_root_of_unity();
    let e = pow2((s - k) as nat);
    lemma_red_range::<F>(pow(root, e));
    if k == 0 {
        assert(generates::<F>(root, s));
        lemma_generates_order::<F>(root, s);
    } else {
        let half = pow2((k - 1) as nat);
        lemma_red_pow::<F>(domain_generator::<F>(k), pow(root, e), half);
        lemma_pow_multiplies(root, e, half);
        lemma_pow2_adds((s - k) as nat, (k - 1) as nat);
        assert((s - k) as nat + (k - 1) as nat == (s - 1) as nat);
    }
}

impl<F: PrimeField> Domain<F> {
    /// The fields describe one subgroup of the field.
    pub open spec fn wf(&self) -> bool {
        &&& self.power_of_two <= F::spec_two_adicity()
        &&& self.size == pow2(self.power_of_two as nat)
        &&& self.generator.val() == domain_generator::<F>(self.power_of_two as nat)
        &&& generates::<F>(self.generator.val(), self.power_of_two as nat)
    }

    /// The smallest domain with at least `size` elements. There is none exactly
    /// if `size` exceeds the largest power of two that divides the order of the
    /// multiplicative group.
    pub fn new_for_size(size: u64) -> (r: Result<Self, SynthesisError>)
        requires
            size <= 0x8000_0000_0000_0000,
        ensures
            match r {
                Ok(domain) => {
                    &&& domain.wf()
                    &&& size <= domain.size
                    &&& domain.power_of_two > 0 ==> domain.size < 2 * size
                },
                Err(e) => {
                    &&& e == SynthesisError::PolynomialDegreeTooLarge
                    &&& size > pow2(F::spec_two_adicity())
                },
            },
            r is Ok <==> size <= pow2(F::spec_two_adicity()),
    {
        let s = F::two_adicity();
        let mut power_of_two: u32 = 0;
        let mut n: u64 = 1;
        proof {
            lemma2_to64();
            lemma2_to64_rest();
        }
        while n < size
            invariant
                n == pow2(power_of_two as nat),
                power_of_two <= s,
                s == F::spec_two_adicity(),
                size <= 0x8000_0000_0000_0000,
                power_of_two > 0 ==> n < 2 * size,
            decreases s - power_of_two,
        {
            if power_of_two == s {
                return Err(SynthesisError::PolynomialDegreeTooLarge);
            }
            proof {
                lemma_pow2_unfold((power_of_two + 1) as nat);
            }
            n = 2 * n;
            power_of_two += 1;
        }
        let root = Num::of(&F::root_of_unity());
        let ghost r0 = F::spec_root_of_unity();
        let mut generator = root;
        let mut squarings: u32 = s - power_of_two;
        proof {
            lemma_pow1(r0);
        }
        let ghost total = (s - power_of_two) as nat;
        while squarings > 0
            invariant
                squarings <= total,
                generator.expr() == pow(r0, pow2((total - squarings) as nat)),
            decreases squarings,
        {
            let ghost e = pow2((total - squarings) as nat);
            proof {
                lemma_pow2_unfold((total - squarings + 1) as nat);
                lemma_pow_adds(r0, e, e);
            }
            generator = generator.times(&generator);
            squarings -= 1;
        }
        proof {
            assert(red::<F>(pow(r0, pow2((s - 1) as nat))) == red::<F>(-1)) by {
                reveal(red);
                F::lemma_modulus();
                let m = F::modulus();
                vstd::arithmetic::div_mod::lemma_mod_add_multiples_vanish(-1, m);
                vstd::arithmetic::div_mod::lemma_small_mod((m - 1) as nat, m as nat);
            }
            lemma_root_generates::<F>(power_of_two as nat);
            if power_of_two < s {
                lemma_pow2_strictly_increases(power_of_two as nat, s as nat);
            }
        }
        Ok(Domain { size: n, power_of_two, generator: generator.value() })
    }
}

/// The first `n` terms of a geometric sequence.
pub fn geometric<F: PrimeField>(first: &F, ratio: &F, n: usize) -> (r: Vec<F>)
    ensures
        r@.len() == n,
        forall|i: int|
            0 <= i < n ==> (#[trigger] r@[i]).val() == red::<F>(
                first.val() * pow(ratio.val(), i as nat),
            ),
{
    let mut r: Vec<F> = Vec::with_capacity(n);
    let mut current = Num::of(first);
    let q = Num::of(ratio);
    let mut i: usize = 0;
    proof {
        lemma_pow0(ratio.val());
        assert(first.val() * 1 == first.val());
    }
    while i < n
        invariant
            i <= n,
            r@.len() == i,
            q.expr() == ratio.val(),
            current.expr() == first.val() * pow(ratio.val(), i as nat),
            forall|k: int|
                0 <= k < i ==> (#[trigger] r@[k]).val() == red::<F>(
                    first.val() * pow(ratio.val(), k as nat),
                ),
        decreases n - i,
    {
        r.push(current.value());
        proof {
            let (a, b, p) = (first.val(), ratio.val(), pow(ratio.val(), i as nat));
            lemma_pow_adds(b, i as nat, 1);
            lemma_pow1(b);
            assert((a * p) * b == a * (p * b)) by (nonlinear_arith);
        }
        current = current.times(&q);
        i += 1;
    }
    r
}

/// The elements of a domain, the powers of its generator in order.
pub fn materialize_domain_elements_with_natural_enumeration<F: PrimeField>(
    domain: &Domain<F>,
) -> (r: Vec<F>)
    requires
        domain.wf(),
        domain.size <= usize::MAX,
    ensures
        r@.len() == domain.size,
        forall|i: int|
            0 <= i < domain.size ==> (#[trigger] r@[i]).val() == red::<F>(
                pow(domain.generator.val(), i as nat),
            ),
{
    geometric(&F::one(), &domain.generator, domain.size as usize)
}

/// The value at `point` of the polynomial that vanishes on the domain of size
/// `n`.
pub fn evaluate_vanishing_for_size<F: PrimeField>(point: &F, n: u64) -> (r: F)
    ensures
        r.val() == red::<F>(pow(point.val(), n as nat) - 1),
{
    Num::of(point).power(n).minus(&Num::one()).value()
}

/// The value at `x` of the Lagrange polynomial of `node` over the domain of size
/// `n` that the node belongs to.
pub open spec fn lagrange_at<F: PrimeField>(node: int, n: nat, x: int) -> int {
    red::<F>(node * (pow(x, n) - 1) * inv::<F>(red::<F>((x - node) * n)))
}

/// A Lagrange polynomial can be evaluated at `x` by its quotient form.
pub open spec fn lagrange_defined<F: PrimeField>(node: int, n: nat, x: int) -> bool {
    invertible::<F>(red::<F>((x - node) * n))
}

fn lagrange_quotient<F: PrimeField>(node: &F, n: u64, point: &F) -> (r: Result<F, SynthesisError>)
    ensures
        match r {
            Ok(v) => {
                &&& lagrange_defined::<F>(node.val(), n as nat, point.val())
                &&& v.val() == lagrange_at::<F>(node.val(), n as nat, point.val())
            },
            Err(e) => {
                &&& e == SynthesisError::DivisionByZero
                &&& !lagrange_defined::<F>(node.val(), n as nat, point.val())
            },
        },
{
    let ghost d = (point.val() - node.val()) * n;
    let size = F::from_u64(n);
    let den = Num::of(point).minus(&Num::of(node)).times(
        &Num::with(
            &size,
            Ghost(
                {
                    reveal(red);
                    n as int
                },
            ),
        ),
    ).value();
    let num = Num::of(node).times(&Num::of(point).power(n).minus(&Num::one()));
    match den.inverse() {
        Some(i) => {
            proof {
                lemma_red_range::<F>(d);
                lemma_val_red(i);
                assert(red::<F>(den.val() * i.val()) == 1) by {
                    reveal(red);
                }
                lemma_inv_unique::<F>(den.val(), i.val());
            }
            Ok(num.times(&Num::of(&i)).value())
        },
        None => {
            proof {
                lemma_red_small::<F>();
                assert(0 * inv::<F>(0) == 0);
            }
            Err(SynthesisError::DivisionByZero)
        },
    }
}

/// The value at `point` of the Lagrange polynomial of one over the domain of
/// size `n`. It fails exactly if the quotient form has no value there.
pub fn evaluate_l0_at_point<F: PrimeField>(n: u64, point: &F) -> (r: Result<F, SynthesisError>)
    ensures
        match r {
            Ok(v) => {
                &&& lagrange_defined::<F>(1, n as nat, point.val())
                &&& v.val() == lagrange_at::<F>(1, n as nat, point.val())
            },
            Err(e) => {
                &&& e == SynthesisError::DivisionByZero
                &&& !lagrange_defined::<F>(1, n as nat, point.val())
            },
        },
{
    lagrange_quotient(&F::one(), n, point)
}

/// The value at `point` of the Lagrange polynomial of the element with index
/// `poly_number`. It fails exactly if the quotient form has no value there.
pub fn evaluate_lagrange_poly_at_point<F: PrimeField>(
    poly_number: u64,
    domain: &Domain<F>,
    point: &F,
) -> (r: Result<F, SynthesisError>)
    ensures
        ({
            let node = red::<F>(pow(domain.generator.val(), poly_number as nat));
            match r {
                Ok(v) => {
                    &&& lagrange_defined::<F>(node, domain.size as nat, point.val())
                    &&& v.val() == lagrange_at::<F>(node, domain.size as nat, point.val())
                },
                Err(e) => {
                    &&& e == SynthesisError::DivisionByZero
                    &&& !lagrange_defined::<F>(node, domain.size as nat, point.val())
                },
            }
        }),
{
    let node = Num::of(&domain.generator).power(poly_number).value();
    lagrange_quotient(&node, domain.size, point)
}

/// The inverse of two.
pub(crate) fn half<F: PrimeField>() -> (r: F)
    ensures
        red::<F>(2 * r.val()) == 1,
{
    let two: F = Num::one().plus(&Num::one()).value();
    proof {
        F::lemma_modulus();
        reveal(red);
        vstd::arithmetic::div_mod::lemma_small_mod(2, F::modulus() as nat);
    }
    match two.inverse() {
        Some(i) => i,
        None => F::zero(),
    }
}

/// The inverse of the order of a domain.
pub fn inverse_size<F: PrimeField>(domain: &Domain<F>) -> (r: F)
    requires
        domain.wf(),
    ensures
        red::<F>(domain.size * r.val()) == 1,
        r.val() == inv::<F>(domain.size as int),
{
    let h = half::<F>();
    let k = domain.power_of_two;
    let r = Num::of(&h).power(k as u64).value();
    proof {
        let n = pow2(k as nat) as int;
        let p = pow(h.val(), k as nat);
        lemma_pow2(k as nat);
        lemma_pow_distributes(2, h.val(), k as nat);
        lemma_red_small::<F>();
        lemma_red_pow::<F>(2 * h.val(), 1, k as nat);
        lemma1_pow(k as nat);
        lemma_red_range::<F>(p);
        lemma_red_mul::<F>(n, r.val(), n, p);
        lemma_val_red(r);
        lemma_inv_unique::<F>(n, r.val());
    }
    r
}

/// The coefficients of the Lagrange polynomial of the element with index `i` of
/// a domain of `n` elements: its inverse powers over the order of the domain.
pub open spec fn lagrange_poly<F: PrimeField>(omega: int, n: nat, i: nat) -> Seq<int> {
    Seq::new(
        n,
        |j: int|
            red::<F>(
                inv::<F>(n as int) * pow(red::<F>(pow(omega, (n - i) as nat)), j as nat),
            ),
    )
}

/// The coefficients of the Lagrange polynomial of the element with index
/// `poly_number`.
pub fn calculate_lagrange_poly<F: PrimeField>(domain: &Domain<F>, poly_number: u64) -> (r: Vec<F>)
    requires
        domain.wf(),
        domain.size <= usize::MAX,
        poly_number < domain.size,
    ensures
        r@.len() == domain.size,
        vals(r@) == lagrange_poly::<F>(
            domain.generator.val(),
            domain.size as nat,
            poly_number as nat,
        ),
{
    let ratio = Num::of(&domain.generator).power(domain.size - poly_number).value();
    let r = geometric(&inverse_size(domain), &ratio, domain.size as usize);
    proof {
        assert(vals(r@) =~= lagrange_poly::<F>(
            domain.generator.val(),
            domain.size as nat,
            poly_number as nat,
        ));
    }
    r
}

/// The values on the coset of `factor` of the polynomial that vanishes on the
/// domain of size `n`, in the natural order of the coset.
pub fn evaluate_vanishing_polynomial_of_degree_on_domain_size<F: PrimeField>(
    n: u64,
    factor: &F,
    domain: &Domain<F>,
) -> (r: Vec<F>)
    requires
        domain.wf(),
        domain.size <= usize::MAX,
    ensures
        r@.len() == domain.size,
        forall|i: int|
            0 <= i < domain.size ==> (#[trigger] r@[i]).val() == red::<F>(
                pow(factor.val() * pow(domain.generator.val(), i as nat), n as nat) - 1,
            ),
{
    let ghost f = factor.val();
    let ghost w = domain.generator.val();
    let size = domain.size as usize;
    let step = Num::of(&domain.generator).power(n);
    let mut current = Num::of(factor).power(n);
    let one = Num::one();
    let mut r: Vec<F> = Vec::with_capacity(size);
    let mut i: usize = 0;
    proof {
        lemma_pow0(w);
        assert(f * 1 == f);
    }
    while i < size
        invariant
            i <= size,
            r@.len() == i,
            one.expr() == 1,
            step.expr() == pow(w, n as nat),
            current.expr() == pow(f * pow(w, i as nat), n as nat),
            forall|k: int|
                0 <= k < i ==> (#[trigger] r@[k]).val() == red::<F>(
                    pow(f * pow(w, k as nat), n as nat) - 1,
                ),
        decreases size - i,
    {
        r.push(current.minus(&one).value());
        proof {
            let p = pow(w, i as nat);
            lemma_pow_adds(w, i as nat, 1);
            lemma_pow1(w);
            assert(f * (p * w) == (f * p) * w) by (nonlinear_arith);
            lemma_pow_distributes(f * p, w, n as nat);
        }
        current = current.times(&step);
        i += 1;
    }
    r
}

} // verus!
