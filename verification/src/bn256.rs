//! The scalar field of the curve BN256, whose arithmetic the `pairing_ce` crate
//! provides.

use crate::field::PrimeField;
use pairing_ce::bn256::{Fr, FrRepr};
use pairing_ce::ff::{Field as OutsideField, PrimeField as OutsidePrimeField};
use vstd::arithmetic::div_mod::*;
use vstd::arithmetic::power::*;
use vstd::arithmetic::power2::*;
use vstd::prelude::*;

verus! {

/// The order of the groups of BN256.
pub open spec fn bn256_modulus() -> int {
    21888242871839275222246405745257275088548364400416034343698204186575808495617int
}

/// The integer that four limbs write, the least significant first.
pub open spec fn limbs_value(l: [u64; 4]) -> int {
    l[0] + 0x1_0000_0000_0000_0000int * l[1] + 0x1_0000_0000_0000_0000_0000_0000_0000_0000int * l[2]
        + 0x1_0000_0000_0000_0000_0000_0000_0000_0000_0000_0000_0000_0000int * l[3]
}

/// Calls `Fr::from_repr`, which rejects exactly the integers that are not below
/// the modulus, and says whether it accepted the limbs.
#[verifier::external_body]
fn fr_accepts(l: &[u64; 4]) -> (r: bool)
    ensures
        r == (limbs_value(*l) < bn256_modulus()),
{
    Fr::from_repr(FrRepr(*l)).is_ok()
}

/// Calls `Field::add_assign` of `Fr`: addition modulo the modulus.
#[verifier::external_body]
fn fr_add_assign(a: &[u64; 4], b: &[u64; 4]) -> (r: [u64; 4])
    requires
        limbs_value(*a) < bn256_modulus(),
        limbs_value(*b) < bn256_modulus(),
    ensures
        limbs_value(r) == (limbs_value(*a) + limbs_value(*b)) % bn256_modulus(),
{
    let mut x = Fr::from_repr(FrRepr(*a)).unwrap();
    x.add_assign(&Fr::from_repr(FrRepr(*b)).unwrap());
    x.into_repr().0
}

/// Calls `Field::sub_assign` of `Fr`: subtraction modulo the modulus.
#[verifier::external_body]
fn fr_sub_assign(a: &[u64; 4], b: &[u64; 4]) -> (r: [u64; 4])
    requires
        limbs_value(*a) < bn256_modulus(),
        limbs_value(*b) < bn256_modulus(),
    ensures
        limbs_value(r) == (limbs_value(*a) - limbs_value(*b)) % bn256_modulus(),
{
    let mut x = Fr::from_repr(FrRepr(*a)).unwrap();
    x.sub_assign(&Fr::from_repr(FrRepr(*b)).unwrap());
    x.into_repr().0
}

/// Calls `Field::mul_assign` of `Fr`: multiplication modulo the modulus.
#[verifier::external_body]
fn fr_mul_assign(a: &[u64; 4], b: &[u64; 4]) -> (r: [u64; 4])
    requires
        limbs_value(*a) < bn256_modulus(),
        limbs_value(*b) < bn256_modulus(),
    ensures
        limbs_value(r) == (limbs_value(*a) * limbs_value(*b)) % bn256_modulus(),
{
    let mut x = Fr::from_repr(FrRepr(*a)).unwrap();
    x.mul_assign(&Fr::from_repr(FrRepr(*b)).unwrap());
    x.into_repr().0
}

/// Calls `Field::negate` of `Fr`: the additive inverse modulo the modulus.
#[verifier::external_body]
fn fr_negate(a: &[u64; 4]) -> (r: [u64; 4])
    requires
        limbs_value(*a) < bn256_modulus(),
    ensures
        limbs_value(r) == (-limbs_value(*a)) % bn256_modulus(),
{
    let mut x = Fr::from_repr(FrRepr(*a)).unwrap();
    x.negate();
    x.into_repr().0
}

/// Calls `Field::inverse` of `Fr`, which fails on zero alone and otherwise
/// returns the multiplicative inverse modulo the modulus.
#[verifier::external_body]
fn fr_inverse(a: &[u64; 4]) -> (r: Option<[u64; 4]>)
    requires
        limbs_value(*a) < bn256_modulus(),
    ensures
        r is None <==> limbs_value(*a) == 0,
        r matches Some(i) ==> {
            &&& limbs_value(i) < bn256_modulus()
            &&& (limbs_value(*a) * limbs_value(i)) % bn256_modulus() == 1
        },
{
    Fr::from_repr(FrRepr(*a)).unwrap().inverse().map(|x| x.into_repr().0)
}

/// Calls `Field::pow` of `Fr` with an exponent of one limb: exponentiation
/// modulo the modulus.
#[verifier::external_body]
fn fr_pow(a: &[u64; 4], exponent: u64) -> (r: [u64; 4])
    requires
        limbs_value(*a) < bn256_modulus(),
    ensures
        limbs_value(r) == pow(limbs_value(*a), exponent as nat) % bn256_modulus(),
{
    Fr::from_repr(FrRepr(*a)).unwrap().pow([exponent]).into_repr().0
}

/// Calls `PrimeField::multiplicative_generator` of `Fr`, which is seven.
#[verifier::external_body]
fn fr_multiplicative_generator() -> (r: [u64; 4])
    ensures
        limbs_value(r) == 7,
{
    Fr::multiplicative_generator().into_repr().0
}

/// Calls `PrimeField::root_of_unity` of `Fr`: the generator raised to the odd
/// part of the order of the multiplicative group. That order is `2^28` times
/// the odd part, and the generator's order is the whole of it, so the `2^27`-th
/// power of the result is minus one.
#[verifier::external_body]
fn fr_root_of_unity() -> (r: [u64; 4])
    ensures
        limbs_value(r) == pow(7, ((bn256_modulus() - 1) / 0x1000_0000) as nat) % bn256_modulus(),
        pow(limbs_value(r), pow2(27)) % bn256_modulus() == bn256_modulus() - 1,
{
    Fr::root_of_unity().into_repr().0
}

/// Limbs write equal integers only if they are equal.
proof fn lemma_limbs_injective(a: [u64; 4], b: [u64; 4])
    ensures
        limbs_value(a) == limbs_value(b) <==> (a[0] == b[0] && a[1] == b[1] && a[2] == b[2] && a[3]
            == b[3]),
{
}

/// The limbs of an element are those that it was made from.
pub proof fn law_limbs(limbs: [u64; 4], x: Bn256Fr, r: [u64; 4], i: int)
    requires
        call_ensures(Bn256Fr::from_limbs, (limbs,), Some(x)),
        call_ensures(Bn256Fr::into_limbs, (&x,), r),
        0 <= i < 4,
    ensures
        r[i] == limbs[i],
{
    lemma_limbs_injective(limbs, r);
}

/// An element of the scalar field of BN256.
#[derive(Clone, Copy, Debug)]
pub struct Bn256Fr {
    limbs: [u64; 4],
}

impl Bn256Fr {
    /// The limbs write an integer below the modulus.
    #[verifier::type_invariant]
    spec fn is_reduced(self) -> bool {
        limbs_value(self.limbs) < bn256_modulus()
    }

    /// The element that four limbs write, the least significant first, where
    /// they write an integer below the modulus.
    pub fn from_limbs(limbs: [u64; 4]) -> (r: Option<Bn256Fr>)
        ensures
            r is Some <==> limbs_value(limbs) < bn256_modulus(),
            r matches Some(x) ==> x.val() == limbs_value(limbs),
    {
        if fr_accepts(&limbs) {
            proof {
                lemma_small_mod(limbs_value(limbs) as nat, bn256_modulus() as nat);
            }
            Some(Bn256Fr { limbs })
        } else {
            None
        }
    }

    /// The limbs of the representative, the least significant first.
    pub fn into_limbs(&self) -> (r: [u64; 4])
        ensures
            limbs_value(r) == self.val(),
    {
        proof {
            use_type_invariant(self);
            lemma_small_mod(limbs_value(self.limbs) as nat, bn256_modulus() as nat);
        }
        self.limbs
    }
}

impl PrimeField for Bn256Fr {
    open spec fn modulus() -> int {
        bn256_modulus()
    }

    closed spec fn val(self) -> int {
        limbs_value(self.limbs) % bn256_modulus()
    }

    open spec fn spec_two_adicity() -> nat {
        28
    }

    open spec fn spec_generator() -> int {
        7
    }

    open spec fn spec_root_of_unity() -> int {
        pow(7, ((bn256_modulus() - 1) / 0x1000_0000) as nat) % bn256_modulus()
    }

    proof fn lemma_modulus() {
    }

    proof fn lemma_range(x: Self) {
    }

    proof fn lemma_generator() -> (y: int) {
        3126891838834182174606629392179610726935480628630862049099743455225115499374int
    }

    fn zero() -> (r: Self) {
        Bn256Fr { limbs: [0, 0, 0, 0] }
    }

    fn one() -> (r: Self) {
        Bn256Fr { limbs: [1, 0, 0, 0] }
    }

    fn from_u64(x: u64) -> (r: Self) {
        Bn256Fr { limbs: [x, 0, 0, 0] }
    }

    fn equals(&self, other: &Self) -> (r: bool) {
        let a = self.into_limbs();
        let b = other.into_limbs();
        proof {
            lemma_limbs_injective(a, b);
        }
        a[0] == b[0] && a[1] == b[1] && a[2] == b[2] && a[3] == b[3]
    }

    fn plus(&self, other: &Self) -> (r: Self) {
        let a = self.into_limbs();
        let b = other.into_limbs();
        Bn256Fr { limbs: fr_add_assign(&a, &b) }
    }

    fn minus(&self, other: &Self) -> (r: Self) {
        let a = self.into_limbs();
        let b = other.into_limbs();
        Bn256Fr { limbs: fr_sub_assign(&a, &b) }
    }

    fn times(&self, other: &Self) -> (r: Self) {
        let a = self.into_limbs();
        let b = other.into_limbs();
        proof {
            lemma_mod_bound(self.val() * other.val(), bn256_modulus());
        }
        Bn256Fr { limbs: fr_mul_assign(&a, &b) }
    }

    fn negated(&self) -> (r: Self) {
        let a = self.into_limbs();
        Bn256Fr { limbs: fr_negate(&a) }
    }

    fn inverse(&self) -> (r: Option<Self>) {
        let a = self.into_limbs();
        match fr_inverse(&a) {
            Some(i) => {
                proof {
                    lemma_small_mod(limbs_value(i) as nat, bn256_modulus() as nat);
                }
                Some(Bn256Fr { limbs: i })
            },
            None => None,
        }
    }

    fn power(&self, exponent: u64) -> (r: Self) {
        let a = self.into_limbs();
        proof {
            lemma_mod_bound(pow(self.val(), exponent as nat), bn256_modulus());
        }
        Bn256Fr { limbs: fr_pow(&a, exponent) }
    }

    fn two_adicity() -> (r: u32) {
        28
    }

    fn multiplicative_generator() -> (r: Self) {
        Bn256Fr { limbs: fr_multiplicative_generator() }
    }

    fn root_of_unity() -> (r: Self) {
        let limbs = fr_root_of_unity();
        proof {
            lemma_mod_bound(
                pow(7, ((bn256_modulus() - 1) / 0x1000_0000) as nat),
                bn256_modulus(),
            );
            lemma_small_mod(limbs_value(limbs) as nat, bn256_modulus() as nat);
        }
        Bn256Fr { limbs }
    }
}

} // verus!
