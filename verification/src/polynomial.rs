//! Vectors of field elements, read as coefficients of a polynomial (the constant
//! term first) or as its values.

use crate::errors::SynthesisError;
use crate::field::{
    all_invertible, inv, invertible, lemma_inv_unique, lemma_invertible, lemma_red_add,
    lemma_red_mul, lemma_red_range, lemma_red_small, lemma_val_red, red, vals, Num, PrimeField,
};
use vstd::arithmetic::power::*;
use vstd::prelude::*;

verus! {

/// The value at `x` of the polynomial with coefficients `c`.
pub open spec fn eval(c: Seq<int>, x: int) -> int
    decreases c.len(),
{
    if c.len() == 0 {
        0
    } else {
        c[0] + x * eval(c.skip(1), x)
    }
}

/// The product of a sequence of integers.
pub open spec fn product(s: Seq<int>) -> int
    decreases s.len(),
{
    if s.len() == 0 {
        1
    } else {
        product(s.drop_last()) * s.last()
    }
}

/// The entry at position `k` of the sum of the scaled vectors `terms`.
pub open spec fn combine(terms: Seq<(int, Seq<int>)>, k: int) -> int
    decreases terms.len(),
{
    if terms.len() == 0 {
        0
    } else {
        combine(terms.drop_last(), k) + terms.last().0 * terms.last().1[k]
    }
}

/// The value at `x` of the sum of the scaled polynomials `terms`.
pub open spec fn combine_eval(terms: Seq<(int, Seq<int>)>, x: int) -> int
    decreases terms.len(),
{
    if terms.len() == 0 {
        0
    } else {
        combine_eval(terms.drop_last(), x) + terms.last().0 * eval(terms.last().1, x)
    }
}

/// The vector `v` holds the residues of the sum of the scaled vectors `terms`,
/// all of length `n`.
pub open spec fn represents<F: PrimeField>(v: Seq<F>, terms: Seq<(int, Seq<int>)>, n: int) -> bool {
    &&& v.len() == n
    &&& forall|m: int| 0 <= m < terms.len() ==> (#[trigger] terms[m]).1.len() == n
    &&& forall|k: int| 0 <= k < n ==> (#[trigger] v[k]).val() == red::<F>(combine(terms, k))
}

/// Every vector of the list has length `n`.
pub open spec fn all_len<F>(polys: Seq<Vec<F>>, n: int) -> bool {
    forall|j: int| 0 <= j < polys.len() ==> (#[trigger] polys[j])@.len() == n
}

/// The representatives of a list of columns.
pub open spec fn columns<F: PrimeField>(polys: Seq<Vec<F>>) -> Seq<Seq<int>> {
    Seq::new(polys.len(), |j: int| vals(polys[j]@))
}

/// A copy of a vector.
pub fn copied<F: PrimeField>(v: &Vec<F>) -> (r: Vec<F>)
    ensures
        r@ == v@,
{
    let mut r: Vec<F> = Vec::with_capacity(v.len());
    let mut i: usize = 0;
    while i < v.len()
        invariant
            i <= v@.len(),
            r@ == v@.take(i as int),
        decreases v@.len() - i,
    {
        r.push(v[i]);
        i += 1;
    }
    assert(v@.take(i as int) == v@);
    r
}

/// A vector of zeros.
pub fn zeros<F: PrimeField>(n: usize) -> (r: Vec<F>)
    ensures
        r@.len() == n,
        forall|k: int| 0 <= k < n ==> (#[trigger] r@[k]).val() == 0,
{
    let mut r: Vec<F> = Vec::with_capacity(n);
    let mut i: usize = 0;
    while i < n
        invariant
            i <= n,
            r@.len() == i,
            forall|k: int| 0 <= k < i ==> (#[trigger] r@[k]).val() == 0,
        decreases n - i,
    {
        r.push(F::zero());
        i += 1;
    }
    r
}

/// The value of a polynomial at a point.
pub fn evaluate_at<F: PrimeField>(coeffs: &Vec<F>, at: &F) -> (r: F)
    ensures
        r.val() == red::<F>(eval(vals(coeffs@), at.val())),
{
    let ghost c = vals(coeffs@);
    let x = Num::of(at);
    let mut acc = Num::zero();
    let mut i: usize = coeffs.len();
    proof {
        assert(c.skip(i as int) =~= Seq::<int>::empty());
    }
    while i > 0
        invariant
            i <= coeffs@.len(),
            c == vals(coeffs@),
            x.expr() == at.val(),
            acc.expr() == eval(c.skip(i as int), at.val()),
        decreases i,
    {
        i -= 1;
        proof {
            assert(c.skip(i as int).skip(1) =~= c.skip(i + 1));
        }
        acc = Num::of(&coeffs[i]).plus(&x.times(&acc));
    }
    proof {
        assert(c.skip(0) =~= c);
    }
    acc.value()
}

/// Adds `scalar` times `source` to a vector that represents `terms`.
pub(crate) fn add_assign_scaled<F: PrimeField>(
    target: &mut Vec<F>,
    source: &Vec<F>,
    scalar: &Num<F>,
    Ghost(terms): Ghost<Seq<(int, Seq<int>)>>,
)
    requires
        represents(old(target)@, terms, source@.len() as int),
    ensures
        represents(
            final(target)@,
            terms.push((scalar.expr(), vals(source@))),
            source@.len() as int,
        ),
{
    let ghost more = terms.push((scalar.expr(), vals(source@)));
    let ghost before = target@;
    let mut i: usize = 0;
    while i < source.len()
        invariant
            i <= source@.len(),
            target@.len() == source@.len(),
            represents(before, terms, source@.len() as int),
            more == terms.push((scalar.expr(), vals(source@))),
            forall|k: int| i <= k < source@.len() ==> target@[k] == before[k],
            forall|k: int|
                0 <= k < i ==> (#[trigger] target@[k]).val() == red::<F>(combine(more, k)),
        decreases source@.len() - i,
    {
        proof {
            assert(more.drop_last() =~= terms);
            assert(before[i as int].val() == red::<F>(combine(terms, i as int)));
        }
        let sum = Num::with(&target[i], Ghost(combine(terms, i as int))).plus(
            &scalar.times(&Num::of(&source[i])),
        );
        target.set(i, sum.value());
        i += 1;
    }
    proof {
        assert forall|m: int| 0 <= m < more.len() implies (#[trigger] more[m]).1.len()
            == source@.len() by {
            if m < terms.len() {
                assert(more[m] == terms[m]);
            }
        }
    }
}

/// The value of a sum of scaled polynomials is the sum of their scaled values.
pub proof fn lemma_represents_eval<F: PrimeField>(
    v: Seq<F>,
    terms: Seq<(int, Seq<int>)>,
    n: int,
    x: int,
)
    requires
        represents(v, terms, n),
    ensures
        red::<F>(eval(vals(v), x)) == red::<F>(combine_eval(terms, x)),
{
    let c = Seq::new(n as nat, |k: int| combine(terms, k));
    assert(forall|k: int| 0 <= k < n ==> red::<F>(#[trigger] vals(v)[k]) == red::<F>(c[k])) by {
        assert forall|k: int| 0 <= k < n implies red::<F>(#[trigger] vals(v)[k]) == red::<F>(
            c[k],
        ) by {
            lemma_val_red(v[k]);
        }
    }
    lemma_eval_congruent::<F>(vals(v), c, x);
    lemma_combine_eval(terms, c, x);
}

/// Polynomials with congruent coefficients have congruent values.
pub proof fn lemma_eval_congruent<F: PrimeField>(a: Seq<int>, b: Seq<int>, x: int)
    requires
        a.len() == b.len(),
        forall|k: int| 0 <= k < a.len() ==> red::<F>(#[trigger] a[k]) == red::<F>(b[k]),
    ensures
        red::<F>(eval(a, x)) == red::<F>(eval(b, x)),
    decreases a.len(),
{
    if a.len() > 0 {
        assert forall|k: int| 0 <= k < a.skip(1).len() implies red::<F>(#[trigger] a.skip(1)[k])
            == red::<F>(b.skip(1)[k]) by {
            assert(red::<F>(a[k + 1]) == red::<F>(b[k + 1]));
        }
        lemma_eval_congruent::<F>(a.skip(1), b.skip(1), x);
        lemma_red_mul::<F>(x, eval(a.skip(1), x), x, eval(b.skip(1), x));
        assert(red::<F>(a[0]) == red::<F>(b[0]));
        lemma_red_add::<F>(a[0], x * eval(a.skip(1), x), b[0], x * eval(b.skip(1), x));
    }
}

/// Evaluation is linear in the coefficients.
pub proof fn lemma_eval_add_scaled(a: Seq<int>, s: int, b: Seq<int>, c: Seq<int>, x: int)
    requires
        a.len() == c.len(),
        b.len() == c.len(),
        forall|k: int| 0 <= k < c.len() ==> #[trigger] c[k] == a[k] + s * b[k],
    ensures
        eval(c, x) == eval(a, x) + s * eval(b, x),
    decreases c.len(),
{
    if c.len() > 0 {
        assert forall|k: int| 0 <= k < c.skip(1).len() implies #[trigger] c.skip(1)[k] == a.skip(
            1,
        )[k] + s * b.skip(1)[k] by {
            assert(c[k + 1] == a[k + 1] + s * b[k + 1]);
        }
        lemma_eval_add_scaled(a.skip(1), s, b.skip(1), c.skip(1), x);
        let ea = eval(a.skip(1), x);
        let eb = eval(b.skip(1), x);
        assert(c[0] == a[0] + s * b[0]);
        assert(a[0] + s * b[0] + x * (ea + s * eb) == a[0] + x * ea + s * (b[0] + x * eb))
            by (nonlinear_arith);
    }
}

/// The zero polynomial has the value zero.
pub proof fn lemma_eval_zero(c: Seq<int>, x: int)
    requires
        forall|k: int| 0 <= k < c.len() ==> #[trigger] c[k] == 0,
    ensures
        eval(c, x) == 0,
    decreases c.len(),
{
    if c.len() > 0 {
        assert forall|k: int| 0 <= k < c.skip(1).len() implies #[trigger] c.skip(1)[k] == 0 by {
            assert(c[k + 1] == 0);
        }
        lemma_eval_zero(c.skip(1), x);
    }
}

/// The value of a sum of scaled polynomials is the sum of their scaled values.
pub proof fn lemma_combine_eval(terms: Seq<(int, Seq<int>)>, c: Seq<int>, x: int)
    requires
        forall|m: int| 0 <= m < terms.len() ==> (#[trigger] terms[m]).1.len() == c.len(),
        forall|k: int| 0 <= k < c.len() ==> #[trigger] c[k] == combine(terms, k),
    ensures
        eval(c, x) == combine_eval(terms, x),
    decreases terms.len(),
{
    if terms.len() == 0 {
        lemma_eval_zero(c, x);
    } else {
        let less = terms.drop_last();
        let d = Seq::new(c.len(), |k: int| combine(less, k));
        lemma_combine_eval(less, d, x);
        lemma_eval_add_scaled(d, terms.last().0, terms.last().1, c, x);
    }
}

/// A vector represents itself.
pub proof fn lemma_represents_self<F: PrimeField>(v: Seq<F>)
    ensures
        represents(v, seq![(1int, vals(v))], v.len() as int),
{
    let terms = seq![(1int, vals(v))];
    assert(terms.drop_last() =~= Seq::<(int, Seq<int>)>::empty());
    assert forall|k: int| 0 <= k < v.len() implies (#[trigger] v[k]).val() == red::<F>(
        combine(terms, k),
    ) by {
        lemma_val_red(v[k]);
        assert(combine(terms.drop_last(), k) == 0);
        assert(combine(terms, k) == 1 * vals(v)[k]);
    }
}

/// A vector of zeros represents the empty sum.
pub proof fn lemma_represents_zeros<F: PrimeField>(v: Seq<F>)
    requires
        forall|k: int| 0 <= k < v.len() ==> (#[trigger] v[k]).val() == 0,
    ensures
        represents(v, Seq::<(int, Seq<int>)>::empty(), v.len() as int),
{
    lemma_red_small::<F>();
}

/// The entries before position `i`, multiplied together, for every `i` up to the
/// length: the first is one.
pub fn calculate_shifted_grand_product<F: PrimeField>(v: &Vec<F>) -> (r: Vec<F>)
    requires
        v@.len() < usize::MAX,
    ensures
        r@.len() == v@.len() + 1,
        forall|i: int|
            0 <= i <= v@.len() ==> (#[trigger] r@[i]).val() == red::<F>(
                product(vals(v@).take(i)),
            ),
{
    let ghost s = vals(v@);
    let mut r: Vec<F> = Vec::with_capacity(v.len() + 1);
    let mut acc = Num::one();
    proof {
        assert(s.take(0) =~= Seq::<int>::empty());
    }
    r.push(acc.value());
    let mut i: usize = 0;
    while i < v.len()
        invariant
            i <= v@.len(),
            s == vals(v@),
            r@.len() == i + 1,
            acc.expr() == product(s.take(i as int)),
            forall|k: int|
                0 <= k <= i ==> (#[trigger] r@[k]).val() == red::<F>(product(s.take(k))),
        decreases v@.len() - i,
    {
        proof {
            assert(s.take(i + 1).drop_last() =~= s.take(i as int));
        }
        acc = acc.times(&Num::of(&v[i]));
        r.push(acc.value());
        i += 1;
    }
    r
}

proof fn lemma_inverse_step<F: PrimeField>(acc: int, prefix: int, x: int)
    requires
        red::<F>(acc * (prefix * x)) == 1,
    ensures
        red::<F>((acc * prefix) * x) == 1,
        red::<F>((acc * x) * prefix) == 1,
{
    assert((acc * prefix) * x == acc * (prefix * x)) by (nonlinear_arith);
    assert((acc * x) * prefix == acc * (prefix * x)) by (nonlinear_arith);
}

/// The product of invertible numbers is invertible.
pub proof fn lemma_product_invertible<F: PrimeField>(s: Seq<int>)
    requires
        all_invertible::<F>(s),
    ensures
        invertible::<F>(product(s)),
    decreases s.len(),
{
    lemma_red_small::<F>();
    if s.len() == 0 {
        lemma_invertible::<F>(1, 1);
    } else {
        let t = s.drop_last();
        assert forall|i: int| 0 <= i < t.len() implies #[trigger] invertible::<F>(t[i]) by {
            assert(invertible::<F>(s[i]));
        }
        lemma_product_invertible::<F>(t);
        let k = s.len() - 1;
        assert(invertible::<F>(s[k]));
        let (a, b) = (product(t), s.last());
        let (x, y) = (inv::<F>(a), inv::<F>(b));
        lemma_red_mul::<F>(a * x, b * y, 1, 1);
        assert((a * b) * (x * y) == (a * x) * (b * y)) by (nonlinear_arith);
        lemma_invertible::<F>(a * b, x * y);
    }
}

/// The multiplicative inverses of all entries, for one inversion. It fails
/// exactly if an entry has none.
pub fn batch_inversion<F: PrimeField>(v: &Vec<F>) -> (r: Result<Vec<F>, SynthesisError>)
    requires
        v@.len() < usize::MAX,
    ensures
        match r {
            Ok(w) => {
                &&& all_invertible::<F>(vals(v@))
                &&& w@.len() == v@.len()
                &&& forall|i: int|
                    0 <= i < v@.len() ==> {
                        &&& (#[trigger] w@[i]).val() == inv::<F>(v@[i].val())
                        &&& red::<F>(v@[i].val() * w@[i].val()) == 1
                    }
            },
            Err(e) => {
                &&& e == SynthesisError::DivisionByZero
                &&& !all_invertible::<F>(vals(v@))
            },
        },
{
    let ghost s = vals(v@);
    let n = v.len();
    let prefixes = calculate_shifted_grand_product(v);
    proof {
        assert(s.take(n as int) =~= s);
    }
    let mut acc = match prefixes[n].inverse() {
        Some(i) => i,
        None => {
            proof {
                if all_invertible::<F>(s) {
                    lemma_product_invertible::<F>(s);
                    let total = product(s);
                    lemma_red_small::<F>();
                    lemma_red_mul::<F>(total, inv::<F>(total), 0, inv::<F>(total));
                    assert(0 * inv::<F>(total) == 0);
                }
            }
            return Err(SynthesisError::DivisionByZero);
        },
    };
    proof {
        let total = product(s);
        lemma_val_red(acc);
        lemma_red_range::<F>(total);
        lemma_red_mul::<F>(red::<F>(total), acc.val(), total, acc.val());
        assert(red::<F>(prefixes@[n as int].val() * acc.val()) == 1) by {
            reveal(red);
        }
        assert(acc.val() * total == total * acc.val()) by (nonlinear_arith);
    }
    let mut w: Vec<F> = zeros(n);
    let mut i: usize = n;
    while i > 0
        invariant
            i <= n,
            n == v@.len(),
            n == w@.len(),
            s == vals(v@),
            prefixes@.len() == n + 1,
            red::<F>(acc.val() * product(s.take(i as int))) == 1,
            forall|k: int|
                0 <= k <= n ==> (#[trigger] prefixes@[k]).val() == red::<F>(product(s.take(k))),
            forall|k: int|
                i <= k < n ==> {
                    &&& (#[trigger] w@[k]).val() == inv::<F>(v@[k].val())
                    &&& red::<F>(v@[k].val() * w@[k].val()) == 1
                },
        decreases i,
    {
        let ghost a = acc.val();
        let ghost x = v@[i - 1].val();
        let ghost prefix = product(s.take(i - 1));
        proof {
            assert(s.take(i as int).drop_last() =~= s.take(i - 1));
            lemma_inverse_step::<F>(a, prefix, x);
        }
        i -= 1;
        let rest = Num::of(&acc);
        let inverse = rest.times(&Num::with(&prefixes[i], Ghost(prefix))).value();
        proof {
            lemma_val_red(inverse);
            lemma_red_mul::<F>(inverse.val(), x, a * prefix, x);
            assert(x * inverse.val() == inverse.val() * x) by (nonlinear_arith);
            lemma_inv_unique::<F>(x, inverse.val());
        }
        w.set(i, inverse);
        acc = rest.times(&Num::of(&v[i])).value();
        proof {
            lemma_val_red(acc);
            lemma_red_mul::<F>(acc.val(), prefix, a * x, prefix);
        }
    }
    proof {
        assert forall|k: int| 0 <= k < s.len() implies #[trigger] invertible::<F>(s[k]) by {
            assert(red::<F>(v@[k].val() * w@[k].val()) == 1);
            lemma_invertible::<F>(s[k], w@[k].val());
        }
    }
    Ok(w)
}

/// The quotient of a polynomial by `X - at`, with a leading zero that keeps the
/// length.
pub fn divide_single<F: PrimeField>(poly: &Vec<F>, at: &F) -> (r: Vec<F>)
    ensures
        r@.len() == poly@.len(),
        forall|k: int|
            0 <= k < poly@.len() ==> (#[trigger] r@[k]).val() == red::<F>(
                eval(vals(poly@).skip(k + 1), at.val()),
            ),
{
    let ghost c = vals(poly@);
    let ghost z = at.val();
    let n = poly.len();
    let mut r: Vec<F> = zeros(n);
    let x = Num::of(at);
    let mut acc = Num::zero();
    let mut i: usize = n;
    proof {
        assert(c.skip(n as int) =~= Seq::<int>::empty());
    }
    while i > 0
        invariant
            i <= n,
            n == poly@.len(),
            n == r@.len(),
            c == vals(poly@),
            z == at.val(),
            x.expr() == z,
            acc.expr() == eval(c.skip(i as int), z),
            forall|k: int|
                i <= k < n ==> (#[trigger] r@[k]).val() == red::<F>(eval(c.skip(k + 1), z)),
        decreases i,
    {
        i -= 1;
        r.set(i, acc.value());
        proof {
            assert(c.skip(i as int).skip(1) =~= c.skip(i + 1));
        }
        acc = Num::of(&poly[i]).plus(&x.times(&acc));
    }
    r
}

/// The vectors of a list, scaled by consecutive powers of `v`, the first of which
/// is `v^start`.
pub open spec fn power_terms(polys: Seq<Seq<int>>, v: int, start: nat) -> Seq<(int, Seq<int>)> {
    Seq::new(polys.len(), |i: int| (pow(v, (start + i) as nat), polys[i]))
}

/// The representatives of a list of borrowed columns.
pub open spec fn borrowed_columns<F: PrimeField>(polys: Seq<&Vec<F>>) -> Seq<Seq<int>> {
    Seq::new(polys.len(), |j: int| vals(polys[j]@))
}

/// Adds the vectors of a list, scaled by consecutive powers of `v`, to a vector
/// that represents `terms`. It returns the power that is next in turn.
pub(crate) fn add_assign_powers<F: PrimeField>(
    target: &mut Vec<F>,
    polys: &Vec<&Vec<F>>,
    power: &Num<F>,
    v: &Num<F>,
    Ghost(start): Ghost<nat>,
    Ghost(terms): Ghost<Seq<(int, Seq<int>)>>,
) -> (r: Num<F>)
    requires
        represents(old(target)@, terms, old(target)@.len() as int),
        forall|j: int|
            0 <= j < polys@.len() ==> (#[trigger] polys@[j])@.len() == old(target)@.len(),
        power.expr() == pow(v.expr(), start),
    ensures
        represents(
            final(target)@,
            terms + power_terms(borrowed_columns(polys@), v.expr(), start),
            old(target)@.len() as int,
        ),
        r.expr() == pow(v.expr(), start + polys@.len()),
{
    let ghost n = target@.len() as int;
    let ghost all = power_terms(borrowed_columns(polys@), v.expr(), start);
    let mut r = *power;
    let mut i: usize = 0;
    proof {
        assert(terms + all.take(0) =~= terms);
    }
    while i < polys.len()
        invariant
            i <= polys@.len(),
            forall|j: int| 0 <= j < polys@.len() ==> (#[trigger] polys@[j])@.len() == n,
            all == power_terms(borrowed_columns(polys@), v.expr(), start),
            represents(target@, terms + all.take(i as int), n),
            r.expr() == pow(v.expr(), start + i as nat),
        decreases polys@.len() - i,
    {
        let ghost before = terms + all.take(i as int);
        proof {
            assert(polys@[i as int]@.len() == n);
            assert(before.push((r.expr(), vals(polys@[i as int]@))) =~= terms + all.take(i + 1));
            lemma_pow_adds(v.expr(), start + i as nat, 1);
            lemma_pow1(v.expr());
        }
        add_assign_scaled(target, polys[i], &r, Ghost(before));
        r = r.times(v);
        i += 1;
    }
    proof {
        assert(terms + all.take(i as int) =~= terms + all);
    }
    r
}

/// The columns of a list, `n` entries each, combined with consecutive powers of
/// `eta` from the zeroth on.
pub open spec fn aggregated<F: PrimeField>(cols: Seq<Seq<int>>, eta: int, n: nat) -> Seq<int> {
    Seq::new(n, |k: int| red::<F>(combine(power_terms(cols, eta, 0), k)))
}

/// The columns of a list, combined with consecutive powers of `eta` from the
/// zeroth on.
pub fn aggregate<F: PrimeField>(polys: &Vec<Vec<F>>, eta: &F) -> (r: Vec<F>)
    requires
        polys@.len() > 0,
        all_len(polys@, polys@[0]@.len() as int),
    ensures
        represents(
            r@,
            power_terms(columns(polys@), eta.val(), 0),
            polys@[0]@.len() as int,
        ),
        vals(r@) == aggregated::<F>(columns(polys@), eta.val(), polys@[0]@.len()),
{
    let mut r: Vec<F> = zeros(polys[0].len());
    let mut list: Vec<&Vec<F>> = Vec::new();
    let mut i: usize = 0;
    while i < polys.len()
        invariant
            i <= polys@.len(),
            list@.len() == i,
            forall|j: int| 0 <= j < i ==> #[trigger] list@[j] == polys@[j],
        decreases polys@.len() - i,
    {
        list.push(&polys[i]);
        i += 1;
    }
    proof {
        assert(borrowed_columns(list@) =~= columns(polys@));
        lemma_represents_zeros(r@);
        lemma_pow0(eta.val());
    }
    let ghost none = Seq::<(int, Seq<int>)>::empty();
    let _ = add_assign_powers(
        &mut r,
        &list,
        &Num::one(),
        &Num::of(eta),
        Ghost(0),
        Ghost(none),
    );
    proof {
        let all = power_terms(columns(polys@), eta.val(), 0);
        assert(none + all =~= all);
        assert(vals(r@) =~= aggregated::<F>(columns(polys@), eta.val(), polys@[0]@.len()));
    }
    r
}

/// A sequence with zeros after it, up to length `n`.
pub open spec fn padded_seq(v: Seq<int>, n: nat) -> Seq<int> {
    Seq::new(
        n,
        |i: int|
            if i < v.len() {
                v[i]
            } else {
                0
            },
    )
}

/// A vector with zeros after it, up to length `n`.
pub fn padded<F: PrimeField>(v: &Vec<F>, n: usize) -> (r: Vec<F>)
    requires
        v@.len() <= n,
    ensures
        vals(r@) == padded_seq(vals(v@), n as nat),
        r@.len() == n,
{
    let mut r = copied(v);
    while r.len() < n
        invariant
            v@.len() <= r@.len() <= n,
            forall|k: int| 0 <= k < v@.len() ==> #[trigger] r@[k] == v@[k],
            forall|k: int| v@.len() <= k < r@.len() ==> (#[trigger] r@[k]).val() == 0,
        decreases n - r@.len(),
    {
        r.push(F::zero());
    }
    proof {
        assert(vals(r@) =~= padded_seq(vals(v@), n as nat));
    }
    r
}

/// A part of a vector.
pub fn slice<F: PrimeField>(v: &Vec<F>, from: usize, to: usize) -> (r: Vec<F>)
    requires
        from <= to <= v@.len(),
    ensures
        r@ == v@.subrange(from as int, to as int),
{
    let mut r: Vec<F> = Vec::with_capacity(to - from);
    let mut i: usize = from;
    while i < to
        invariant
            from <= i <= to <= v@.len(),
            r@ == v@.subrange(from as int, i as int),
        decreases to - i,
    {
        r.push(v[i]);
        i += 1;
    }
    r
}

/// The parts of length `n` that a vector is cut into.
pub fn break_into_multiples<F: PrimeField>(v: &Vec<F>, n: usize) -> (r: Vec<Vec<F>>)
    requires
        n > 0,
        v@.len() % n as nat == 0,
    ensures
        r@.len() * n == v@.len(),
        forall|i: int|
            0 <= i < r@.len() ==> (#[trigger] r@[i])@ == v@.subrange(i * n, (i + 1) * n),
        all_len(r@, n as int),
{
    let mut r: Vec<Vec<F>> = Vec::new();
    let mut at: usize = 0;
    proof {
        assert(0 * n == 0);
    }
    while at < v.len()
        invariant
            n > 0,
            v@.len() % n as nat == 0,
            at == r@.len() * n,
            at <= v@.len(),
            forall|i: int|
                0 <= i < r@.len() ==> (#[trigger] r@[i])@ == v@.subrange(i * n, (i + 1) * n),
            all_len(r@, n as int),
        decreases v@.len() - at,
    {
        proof {
            let k = r@.len() as int;
            let q = v@.len() as int / n as int;
            vstd::arithmetic::div_mod::lemma_fundamental_div_mod(v@.len() as int, n as int);
            assert(k < q) by (nonlinear_arith)
                requires
                    k * n < n * q,
                    n > 0,
            ;
            assert((k + 1) * n <= n * q) by (nonlinear_arith)
                requires
                    k < q,
                    n > 0,
            ;
            assert((k + 1) * n == k * n + n) by (nonlinear_arith);
        }
        r.push(slice(v, at, at + n));
        at += n;
    }
    r
}

} // verus!
