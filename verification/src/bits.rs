//! Reversal of the bits of an index, and vectors enumerated in that order.

use crate::field::PrimeField;
use vstd::arithmetic::power2::*;
use vstd::prelude::*;

verus! {

/// The lowest `bits` bits of `i` in reverse order.
pub open spec fn reversed(i: nat, bits: nat) -> nat
    decreases bits,
{
    if bits == 0 {
        0
    } else {
        (i % 2) * pow2((bits - 1) as nat) + reversed(i / 2, (bits - 1) as nat)
    }
}

/// A reversed index has no more bits.
pub proof fn lemma_reversed_bound(i: nat, bits: nat)
    ensures
        reversed(i, bits) < pow2(bits),
    decreases bits,
{
    if bits == 0 {
        lemma2_to64();
    } else {
        lemma_reversed_bound(i / 2, (bits - 1) as nat);
        lemma_pow2_unfold(bits);
        let half = pow2((bits - 1) as nat);
        assert((i % 2) * half <= half) by (nonlinear_arith)
            requires
                i % 2 <= 1,
                half >= 0,
        ;
    }
}

/// The highest bit becomes the lowest.
proof fn lemma_reversed_top(top: nat, low: nat, bits: nat)
    requires
        bits > 0,
        top <= 1,
        low < pow2((bits - 1) as nat),
    ensures
        reversed(top * pow2((bits - 1) as nat) + low, bits) == top + 2 * reversed(
            low,
            (bits - 1) as nat,
        ),
    decreases bits,
{
    let b = (bits - 1) as nat;
    lemma2_to64();
    if bits == 1 {
        assert(low == 0);
        assert(top * pow2(b) == top) by (nonlinear_arith)
            requires
                pow2(b) == 1,
        ;
        assert(reversed(top / 2, 0) == 0);
        assert((top % 2) * pow2(0) == top) by (nonlinear_arith)
            requires
                top <= 1,
                pow2(0) == 1,
        ;
    } else {
        let c = (b - 1) as nat;
        lemma_pow2_unfold(b);
        let i = top * pow2(b) + low;
        let t = top * pow2(c);
        assert(top * pow2(b) == 2 * t) by (nonlinear_arith)
            requires
                pow2(b) == 2 * pow2(c),
                t == top * pow2(c),
        ;
        assert(i % 2 == low % 2);
        assert(i / 2 == t + low / 2);
        lemma_reversed_top(top, low / 2, b);
        let m = low % 2;
        assert(m * pow2(b) == 2 * (m * pow2(c))) by (nonlinear_arith)
            requires
                pow2(b) == 2 * pow2(c),
        ;
    }
}

/// Reversal undoes itself.
pub proof fn lemma_reversed_involutive(i: nat, bits: nat)
    requires
        i < pow2(bits),
    ensures
        reversed(reversed(i, bits), bits) == i,
    decreases bits,
{
    lemma2_to64();
    if bits > 0 {
        let b = (bits - 1) as nat;
        lemma_pow2_unfold(bits);
        lemma_reversed_bound(i / 2, b);
        lemma_reversed_top(i % 2, reversed(i / 2, b), bits);
        lemma_reversed_involutive(i / 2, b);
    }
}

/// The lowest `bits` bits of an index in reverse order.
pub fn bitreverse(index: usize, bits: u32) -> (r: usize)
    requires
        index < pow2(bits as nat) <= usize::MAX,
    ensures
        r == reversed(index as nat, bits as nat),
        r < pow2(bits as nat),
{
    let mut r: usize = 0;
    let mut n: usize = index;
    let mut left: u32 = bits;
    proof {
        lemma_reversed_bound(index as nat, bits as nat);
    }
    while left > 0
        invariant
            left <= bits,
            reversed(index as nat, bits as nat) == r * pow2(left as nat) + reversed(
                n as nat,
                left as nat,
            ),
            reversed(index as nat, bits as nat) < pow2(bits as nat) <= usize::MAX,
        decreases left,
    {
        proof {
            lemma_pow2_unfold(left as nat);
            lemma_pow2_pos((left - 1) as nat);
            let half = pow2((left - 1) as nat);
            let bit = (n % 2) as nat;
            assert(r * (2 * half) + bit * half == (2 * r + bit) * half) by (nonlinear_arith);
            assert((2 * r + bit) * half >= 2 * r + bit) by (nonlinear_arith)
                requires
                    half >= 1,
            ;
        }
        r = 2 * r + n % 2;
        n = n / 2;
        left -= 1;
    }
    proof {
        lemma2_to64();
        assert(r * pow2(0) == r) by (nonlinear_arith)
            requires
                pow2(0) == 1,
        ;
    }
    r
}

/// The vector enumerated by reversed indices.
pub fn bitreverse_enumeration<F: PrimeField>(v: &Vec<F>, bits: u32) -> (r: Vec<F>)
    requires
        v@.len() == pow2(bits as nat),
    ensures
        r@.len() == v@.len(),
        forall|i: int|
            0 <= i < v@.len() ==> #[trigger] r@[i] == v@[reversed(i as nat, bits as nat) as int],
{
    let mut r: Vec<F> = Vec::with_capacity(v.len());
    let mut i: usize = 0;
    while i < v.len()
        invariant
            i <= v@.len(),
            r@.len() == i,
            v@.len() == pow2(bits as nat),
            forall|k: int|
                0 <= k < i ==> #[trigger] r@[k] == v@[reversed(k as nat, bits as nat) as int],
        decreases v@.len() - i,
    {
        let j = bitreverse(i, bits);
        r.push(v[j]);
        i += 1;
    }
    r
}

/// Position `i` of a vector in reversed order holds what stands `by` places
/// further on in natural order, counted cyclically.
pub open spec fn shifted_index(i: nat, by: nat, bits: nat) -> int {
    reversed((reversed(i, bits) + by) % pow2(bits), bits) as int
}

/// A vector in reversed order, rotated by `by` places of the natural order.
pub fn clone_shifted_assuming_bitreversed<F: PrimeField>(
    v: &Vec<F>,
    by: usize,
    bits: u32,
) -> (r: Vec<F>)
    requires
        v@.len() == pow2(bits as nat),
        by <= v@.len(),
        2 * v@.len() <= usize::MAX,
    ensures
        r@.len() == v@.len(),
        forall|i: int|
            0 <= i < v@.len() ==> #[trigger] r@[i] == v@[shifted_index(
                i as nat,
                by as nat,
                bits as nat,
            )],
{
    let n = v.len();
    let mut r: Vec<F> = Vec::with_capacity(n);
    let mut i: usize = 0;
    while i < n
        invariant
            i <= n,
            n == v@.len(),
            by <= n,
            2 * n <= usize::MAX,
            r@.len() == i,
            v@.len() == pow2(bits as nat),
            forall|k: int|
                0 <= k < i ==> #[trigger] r@[k] == v@[shifted_index(
                    k as nat,
                    by as nat,
                    bits as nat,
                )],
        decreases n - i,
    {
        let j = bitreverse(i, bits);
        let target = bitreverse((j + by) % n, bits);
        r.push(v[target]);
        i += 1;
    }
    r
}

} // verus!
