//! Prime field elements and the arithmetic of residues.
//!
//! Specifications speak of the integer `val()` that represents an element, and
//! of `red`, which brings an integer expression back into the field. A formula
//! over field elements is then written as one integer expression under one
//! `red`.

use vstd::arithmetic::div_mod::*;
use vstd::arithmetic::mul::*;
use vstd::arithmetic::power::*;
use vstd::arithmetic::power2::*;
use vstd::prelude::*;

verus! {

/// An element of a prime field.
pub trait PrimeField: Copy + Sized {
    /// The characteristic of the field.
    spec fn modulus() -> int;

    /// The representative of the element in `0 .. modulus()`.
    spec fn val(self) -> int;

    /// The exponent `s` for which `modulus() - 1` is `2^s` times an odd number.
    spec fn spec_two_adicity() -> nat;

    /// The representative of the multiplicative generator.
    spec fn spec_generator() -> int;

    /// The representative of the root of unity of order `2^s`.
    spec fn spec_root_of_unity() -> int;

    /// The characteristic is odd.
    proof fn lemma_modulus()
        ensures
            Self::modulus() > 2,
            Self::modulus() % 2 == 1,
    ;

    /// Representatives are reduced.
    proof fn lemma_range(x: Self)
        ensures
            0 <= x.val() < Self::modulus(),
    ;

    /// The multiplicative generator has an inverse.
    proof fn lemma_generator() -> (y: int)
        ensures
            (Self::spec_generator() * y) % Self::modulus() == 1,
    ;

    /// The additive identity.
    fn zero() -> (r: Self)
        ensures
            r.val() == 0,
    ;

    /// The multiplicative identity.
    fn one() -> (r: Self)
        ensures
            r.val() == 1,
    ;

    /// The element congruent to an unsigned integer.
    fn from_u64(x: u64) -> (r: Self)
        ensures
            r.val() == (x as int) % Self::modulus(),
    ;

    /// Equality of elements.
    fn equals(&self, other: &Self) -> (r: bool)
        ensures
            r == (self.val() == other.val()),
    ;

    /// The sum of two elements.
    fn plus(&self, other: &Self) -> (r: Self)
        ensures
            r.val() == (self.val() + other.val()) % Self::modulus(),
    ;

    /// The difference of two elements.
    fn minus(&self, other: &Self) -> (r: Self)
        ensures
            r.val() == (self.val() - other.val()) % Self::modulus(),
    ;

    /// The product of two elements.
    fn times(&self, other: &Self) -> (r: Self)
        ensures
            r.val() == (self.val() * other.val()) % Self::modulus(),
    ;

    /// The additive inverse.
    fn negated(&self) -> (r: Self)
        ensures
            r.val() == (-self.val()) % Self::modulus(),
    ;

    /// The multiplicative inverse, which every element but zero has.
    fn inverse(&self) -> (r: Option<Self>)
        ensures
            r is None <==> self.val() == 0,
            r matches Some(i) ==> (self.val() * i.val()) % Self::modulus() == 1,
    ;

    /// A power of the element.
    fn power(&self, exponent: u64) -> (r: Self)
        ensures
            r.val() == pow(self.val(), exponent as nat) % Self::modulus(),
    ;

    /// The exponent of two in `modulus() - 1`.
    fn two_adicity() -> (r: u32)
        ensures
            r == Self::spec_two_adicity(),
            0 < r,
    ;

    /// A generator of the multiplicative group.
    fn multiplicative_generator() -> (r: Self)
        ensures
            r.val() == Self::spec_generator(),
            r.val() != 0,
    ;

    /// An element of multiplicative order `2^s`: raised to half that order it
    /// is minus one.
    fn root_of_unity() -> (r: Self)
        ensures
            r.val() == Self::spec_root_of_unity(),
            pow(r.val(), pow2((Self::spec_two_adicity() - 1) as nat)) % Self::modulus()
                == Self::modulus() - 1,
    ;
}

/// The residue of an integer.
#[verifier::opaque]
pub open spec fn red<F: PrimeField>(x: int) -> int {
    x % F::modulus()
}

/// The representatives of a sequence of elements.
pub open spec fn vals<F: PrimeField>(s: Seq<F>) -> Seq<int> {
    Seq::new(s.len(), |i: int| s[i].val())
}

/// The inverse of a residue, where it has one.
pub open spec fn inv<F: PrimeField>(x: int) -> int {
    choose|y: int| 0 <= y < F::modulus() && #[trigger] red::<F>(x * y) == 1
}

/// The residue of an integer has an inverse.
pub open spec fn invertible<F: PrimeField>(x: int) -> bool {
    red::<F>(x * inv::<F>(x)) == 1
}

/// The residues of all integers of a sequence have inverses.
pub open spec fn all_invertible<F: PrimeField>(s: Seq<int>) -> bool {
    forall|i: int| 0 <= i < s.len() ==> #[trigger] invertible::<F>(s[i])
}

/// Every residue but zero has an inverse, as it has modulo a prime.
pub open spec fn is_field<F: PrimeField>() -> bool {
    forall|x: int| red::<F>(x) != 0 ==> #[trigger] invertible::<F>(x)
}

/// A product with an invertible factor determines the other factor.
pub proof fn lemma_cancel<F: PrimeField>(a: int, b: int, v: int)
    requires
        invertible::<F>(v),
        red::<F>(a * v) == red::<F>(b * v),
    ensures
        red::<F>(a) == red::<F>(b),
{
    let y = inv::<F>(v);
    lemma_red_small::<F>();
    lemma_red_mul::<F>(a * v, y, b * v, y);
    assert((a * v) * y == a * (v * y)) by (nonlinear_arith);
    assert((b * v) * y == b * (v * y)) by (nonlinear_arith);
    lemma_red_mul::<F>(a, v * y, a, 1);
    lemma_red_mul::<F>(b, v * y, b, 1);
}

/// A number with an inverse is invertible.
pub proof fn lemma_invertible<F: PrimeField>(x: int, y: int)
    requires
        red::<F>(x * y) == 1,
    ensures
        invertible::<F>(x),
{
    lemma_red_range::<F>(y);
    lemma_red_mul::<F>(x, red::<F>(y), x, y);
    lemma_inv_unique::<F>(x, red::<F>(y));
}

/// Congruent numbers have the same inverse.
pub proof fn lemma_invertible_congruent<F: PrimeField>(a: int, b: int)
    requires
        red::<F>(a) == red::<F>(b),
        invertible::<F>(a),
    ensures
        invertible::<F>(b),
        inv::<F>(a) == inv::<F>(b),
{
    let y = inv::<F>(a);
    lemma_red_mul::<F>(a, y, b, y);
    lemma_invertible::<F>(b, y);
    assert(0 <= y < F::modulus()) by {
        lemma_red_range::<F>(y);
        lemma_red_mul::<F>(a, red::<F>(y), a, y);
        lemma_inv_unique::<F>(a, red::<F>(y));
    }
    lemma_inv_unique::<F>(b, y);
}

/// A representative is its own residue.
pub broadcast proof fn lemma_val_red<F: PrimeField>(x: F)
    ensures
        red::<F>(#[trigger] x.val()) == x.val(),
        0 <= x.val() < F::modulus(),
{
    F::lemma_range(x);
    reveal(red);
    lemma_small_mod(x.val() as nat, F::modulus() as nat);
}

/// Residues lie between zero and the characteristic.
pub proof fn lemma_red_range<F: PrimeField>(x: int)
    ensures
        0 <= red::<F>(x) < F::modulus(),
        red::<F>(red::<F>(x)) == red::<F>(x),
{
    F::lemma_modulus();
    reveal(red);
    lemma_mod_bound(x, F::modulus());
    lemma_mod_twice(x, F::modulus());
}

/// Zero and one are residues.
pub proof fn lemma_red_small<F: PrimeField>()
    ensures
        red::<F>(0) == 0,
        red::<F>(1) == 1,
{
    F::lemma_modulus();
    reveal(red);
    lemma_small_mod(0, F::modulus() as nat);
    lemma_small_mod(1, F::modulus() as nat);
}

/// Congruent summands give congruent sums.
pub proof fn lemma_red_add<F: PrimeField>(a: int, b: int, x: int, y: int)
    requires
        red::<F>(a) == red::<F>(x),
        red::<F>(b) == red::<F>(y),
    ensures
        red::<F>(a + b) == red::<F>(x + y),
{
    F::lemma_modulus();
    reveal(red);
    lemma_add_mod_noop(a, b, F::modulus());
    lemma_add_mod_noop(x, y, F::modulus());
}

/// Congruent terms give congruent differences.
pub proof fn lemma_red_sub<F: PrimeField>(a: int, b: int, x: int, y: int)
    requires
        red::<F>(a) == red::<F>(x),
        red::<F>(b) == red::<F>(y),
    ensures
        red::<F>(a - b) == red::<F>(x - y),
{
    F::lemma_modulus();
    reveal(red);
    lemma_sub_mod_noop(a, b, F::modulus());
    lemma_sub_mod_noop(x, y, F::modulus());
}

/// Congruent factors give congruent products.
pub proof fn lemma_red_mul<F: PrimeField>(a: int, b: int, x: int, y: int)
    requires
        red::<F>(a) == red::<F>(x),
        red::<F>(b) == red::<F>(y),
    ensures
        red::<F>(a * b) == red::<F>(x * y),
{
    F::lemma_modulus();
    reveal(red);
    lemma_mul_mod_noop(a, b, F::modulus());
    lemma_mul_mod_noop(x, y, F::modulus());
}

/// Congruent bases give congruent powers.
pub proof fn lemma_red_pow<F: PrimeField>(a: int, x: int, e: nat)
    requires
        red::<F>(a) == red::<F>(x),
    ensures
        red::<F>(pow(a, e)) == red::<F>(pow(x, e)),
{
    F::lemma_modulus();
    reveal(red);
    lemma_pow_mod_noop(a, e, F::modulus());
    lemma_pow_mod_noop(x, e, F::modulus());
}

/// The inverse of a residue is unique.
pub proof fn lemma_inv_unique<F: PrimeField>(x: int, y: int)
    requires
        red::<F>(x * y) == 1,
        0 <= y < F::modulus(),
    ensures
        inv::<F>(x) == y,
{
    let w = inv::<F>(x);
    assert(0 <= w < F::modulus() && red::<F>(x * w) == 1);
    F::lemma_modulus();
    lemma_red_small::<F>();
    // y == y * (x * w) == w * (x * y) == w
    lemma_red_mul::<F>(y, x * w, y, 1);
    lemma_red_mul::<F>(w, x * y, w, 1);
    assert(y * (x * w) == w * (x * y)) by (nonlinear_arith);
    reveal(red);
    lemma_small_mod(y as nat, F::modulus() as nat);
    lemma_small_mod(w as nat, F::modulus() as nat);
}

/// An element together with the integer expression that it is the residue of.
///
/// Arithmetic on `Num` follows the expression, so that the result of a formula
/// is known to be the residue of the same formula over the integers.
pub struct Num<F: PrimeField> {
    value: F,
    expr: Ghost<int>,
}

impl<F: PrimeField> Copy for Num<F> {

}

impl<F: PrimeField> Clone for Num<F> {
    fn clone(&self) -> (r: Self)
        ensures
            r == *self,
    {
        *self
    }
}

impl<F: PrimeField> Num<F> {
    #[verifier::type_invariant]
    spec fn holds(self) -> bool {
        self.value.val() == red::<F>(self.expr@)
    }

    /// The expression that the element is the residue of.
    pub closed spec fn expr(self) -> int {
        self.expr@
    }

    /// An element as the residue of its representative.
    pub fn of(value: &F) -> (r: Self)
        ensures
            r.expr() == value.val(),
    {
        proof {
            lemma_val_red(*value);
        }
        Num { value: *value, expr: Ghost(value.val()) }
    }

    /// An element as the residue of a given integer.
    pub(crate) fn with(value: &F, Ghost(expr): Ghost<int>) -> (r: Self)
        requires
            value.val() == red::<F>(expr),
        ensures
            r.expr() == expr,
    {
        Num { value: *value, expr: Ghost(expr) }
    }

    /// The residue of zero.
    pub fn zero() -> (r: Self)
        ensures
            r.expr() == 0,
    {
        Num::of(&F::zero())
    }

    /// The residue of one.
    pub fn one() -> (r: Self)
        ensures
            r.expr() == 1,
    {
        Num::of(&F::one())
    }

    /// The element.
    pub fn value(&self) -> (r: F)
        ensures
            r.val() == red::<F>(self.expr()),
    {
        proof {
            use_type_invariant(self);
        }
        self.value
    }

    /// The sum.
    pub fn plus(&self, other: &Self) -> (r: Self)
        ensures
            r.expr() == self.expr() + other.expr(),
    {
        let value = self.value.plus(&other.value);
        proof {
            use_type_invariant(self);
            use_type_invariant(other);
            let (x, y) = (self.expr@, other.expr@);
            lemma_red_range::<F>(x);
            lemma_red_range::<F>(y);
            lemma_red_add::<F>(red::<F>(x), red::<F>(y), x, y);
            reveal(red);
        }
        Num { value, expr: Ghost(self.expr@ + other.expr@) }
    }

    /// The difference.
    pub fn minus(&self, other: &Self) -> (r: Self)
        ensures
            r.expr() == self.expr() - other.expr(),
    {
        let value = self.value.minus(&other.value);
        proof {
            use_type_invariant(self);
            use_type_invariant(other);
            let (x, y) = (self.expr@, other.expr@);
            lemma_red_range::<F>(x);
            lemma_red_range::<F>(y);
            lemma_red_sub::<F>(red::<F>(x), red::<F>(y), x, y);
            reveal(red);
        }
        Num { value, expr: Ghost(self.expr@ - other.expr@) }
    }

    /// The additive inverse.
    pub fn negated(&self) -> (r: Self)
        ensures
            r.expr() == -self.expr(),
    {
        let value = self.value.negated();
        proof {
            use_type_invariant(self);
            let x = self.expr@;
            lemma_red_range::<F>(x);
            lemma_red_sub::<F>(0, red::<F>(x), 0, x);
            reveal(red);
        }
        Num { value, expr: Ghost(-self.expr@) }
    }

    /// The product.
    pub fn times(&self, other: &Self) -> (r: Self)
        ensures
            r.expr() == self.expr() * other.expr(),
    {
        let value = self.value.times(&other.value);
        proof {
            use_type_invariant(self);
            use_type_invariant(other);
            let (x, y) = (self.expr@, other.expr@);
            lemma_red_range::<F>(x);
            lemma_red_range::<F>(y);
            lemma_red_mul::<F>(red::<F>(x), red::<F>(y), x, y);
            reveal(red);
        }
        Num { value, expr: Ghost(self.expr@ * other.expr@) }
    }

    /// A power.
    pub fn power(&self, exponent: u64) -> (r: Self)
        ensures
            r.expr() == pow(self.expr(), exponent as nat),
    {
        let value = self.value.power(exponent);
        proof {
            use_type_invariant(self);
            let x = self.expr@;
            lemma_red_range::<F>(x);
            lemma_red_pow::<F>(red::<F>(x), x, exponent as nat);
            reveal(red);
        }
        Num { value, expr: Ghost(pow(self.expr@, exponent as nat)) }
    }
}

} // verus!
