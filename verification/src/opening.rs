//! The two polynomials that prove all openings at once.

use crate::circuit::{all_below, widths, SortedGateQueries};
use crate::domain::Domain;
use crate::field::{red, vals, Num, PrimeField};
use crate::gates::Gate;
use crate::linearization::{flat_ids, ProverPolynomials};
use crate::polynomial::{
    add_assign_powers, all_len, borrowed_columns, columns, divide_single, eval,
    lemma_represents_zeros, power_terms, represents, zeros,
};
use vstd::arithmetic::power::*;
use vstd::prelude::*;

verus! {

/// The polynomials with the given indices.
pub open spec fn listed<F: PrimeField>(polys: Seq<Vec<F>>, ids: Seq<usize>) -> Seq<Seq<int>> {
    Seq::new(ids.len(), |i: int| vals(polys[ids[i] as int]@))
}

/// The setup polynomials with the given gates and indices.
pub open spec fn listed_setup<F: PrimeField>(
    setup: Seq<Vec<Vec<F>>>,
    ids: Seq<(int, int)>,
) -> Seq<Seq<int>> {
    Seq::new(ids.len(), |i: int| vals(setup[ids[i].0]@[ids[i].1]@))
}

/// The polynomials that are opened at `z`, after the quotient, in the order of
/// their powers of the challenge.
pub open spec fn polys_at_z<F: PrimeField>(
    p: ProverPolynomials<F>,
    q: SortedGateQueries,
    linearization: Seq<int>,
) -> Seq<Seq<int>> {
    let m = p.monomials;
    let without_lookup = seq![linearization] + listed(m.state@, q.state_polys.at_z@) + listed(
        m.witness@,
        q.witness_polys.at_z@,
    ) + listed_setup(m.gate_setup@, flat_ids(q.gate_setup_polys@, q.gate_setup_polys@.len()))
        + listed(m.gate_selectors@, q.gate_selectors@) + listed(
        m.permutations@,
        seq![0usize, 1, 2],
    );
    match p.lookup {
        Some(l) => without_lookup + seq![vals(l.t@), vals(l.selector@), vals(l.table_type@)],
        None => without_lookup,
    }
}

/// The polynomials that are opened at `z * omega`, in the order of their powers
/// of the challenge.
pub open spec fn polys_at_z_omega<F: PrimeField>(
    p: ProverPolynomials<F>,
    q: SortedGateQueries,
) -> Seq<Seq<int>> {
    let m = p.monomials;
    let without_lookup = seq![vals(p.copy_z@)] + listed(m.state@, q.state_polys.at_z_omega@)
        + listed(m.witness@, q.witness_polys.at_z_omega@);
    match p.lookup {
        Some(l) => without_lookup + seq![vals(l.s@), vals(l.z@), vals(l.t@)],
        None => without_lookup,
    }
}

/// The sum that is opened at `z`: the quotient, put together from its parts, and
/// the other polynomials with consecutive powers of `v`.
pub open spec fn terms_at_z<F: PrimeField>(
    p: ProverPolynomials<F>,
    q: SortedGateQueries,
    linearization: Seq<int>,
    z: int,
    n: nat,
    v: int,
) -> Seq<(int, Seq<int>)> {
    power_terms(columns(p.quotient_parts@), pow(z, n), 0) + power_terms(
        polys_at_z(p, q, linearization),
        v,
        1,
    )
}

/// The sum that is opened at `z * omega`, with the powers of `v` that follow.
pub open spec fn terms_at_z_omega<F: PrimeField>(
    p: ProverPolynomials<F>,
    q: SortedGateQueries,
    linearization: Seq<int>,
    v: int,
) -> Seq<(int, Seq<int>)> {
    power_terms(polys_at_z_omega(p, q), v, 1 + polys_at_z(p, q, linearization).len())
}

/// The vector `q` holds the coefficients of the quotient of `f` by `X - at`.
pub open spec fn is_division<F: PrimeField>(q: Seq<F>, f: Seq<F>, at: int) -> bool {
    &&& q.len() == f.len()
    &&& forall|k: int|
        0 <= k < f.len() ==> (#[trigger] q[k]).val() == red::<F>(eval(vals(f).skip(k + 1), at))
}

fn push_listed<'a, F: PrimeField>(
    list: &mut Vec<&'a Vec<F>>,
    polys: &'a Vec<Vec<F>>,
    ids: &Vec<usize>,
    Ghost(n): Ghost<int>,
)
    requires
        all_below(ids@, polys@.len()),
        all_len(polys@, n),
        forall|j: int| 0 <= j < old(list)@.len() ==> (#[trigger] old(list)@[j])@.len() == n,
    ensures
        borrowed_columns(final(list)@) == borrowed_columns(old(list)@) + listed(polys@, ids@),
        forall|j: int| 0 <= j < final(list)@.len() ==> (#[trigger] final(list)@[j])@.len() == n,
{
    let ghost before = list@;
    let mut i: usize = 0;
    while i < ids.len()
        invariant
            i <= ids@.len(),
            all_below(ids@, polys@.len()),
            all_len(polys@, n),
            list@.len() == before.len() + i,
            forall|j: int| 0 <= j < before.len() ==> #[trigger] list@[j] == before[j],
            forall|j: int| 0 <= j < list@.len() ==> (#[trigger] list@[j])@.len() == n,
            forall|j: int|
                before.len() <= j < list@.len() ==> #[trigger] list@[j] == polys@[ids@[j
                    - before.len()] as int],
        decreases ids@.len() - i,
    {
        assert(ids@[i as int] < polys@.len());
        list.push(&polys[ids[i]]);
        i += 1;
    }
    proof {
        assert(borrowed_columns(list@) =~= borrowed_columns(before) + listed(polys@, ids@));
    }
}

fn push_listed_setup<'a, F: PrimeField>(
    list: &mut Vec<&'a Vec<F>>,
    setup: &'a Vec<Vec<Vec<F>>>,
    ids: &Vec<Vec<usize>>,
    Ghost(n): Ghost<int>,
)
    requires
        ids@.len() <= setup@.len(),
        forall|g: int|
            0 <= g < ids@.len() ==> all_below((#[trigger] ids@[g])@, widths(setup@)[g]),
        crate::circuit::all_nested_len(setup@, n),
        forall|j: int| 0 <= j < old(list)@.len() ==> (#[trigger] old(list)@[j])@.len() == n,
    ensures
        borrowed_columns(final(list)@) == borrowed_columns(old(list)@) + listed_setup(
            setup@,
            flat_ids(ids@, ids@.len()),
        ),
        forall|j: int| 0 <= j < final(list)@.len() ==> (#[trigger] final(list)@[j])@.len() == n,
{
    let ghost before = borrowed_columns(list@);
    let mut g: usize = 0;
    proof {
        assert(before + listed_setup(setup@, flat_ids(ids@, 0)) =~= before);
    }
    while g < ids.len()
        invariant
            g <= ids@.len() <= setup@.len(),
            forall|j: int|
                0 <= j < ids@.len() ==> all_below((#[trigger] ids@[j])@, widths(setup@)[j]),
            crate::circuit::all_nested_len(setup@, n),
            forall|j: int| 0 <= j < list@.len() ==> (#[trigger] list@[j])@.len() == n,
            borrowed_columns(list@) == before + listed_setup(setup@, flat_ids(ids@, g as nat)),
        decreases ids@.len() - g,
    {
        let ghost so_far = borrowed_columns(list@);
        proof {
            assert(all_below(ids@[g as int]@, widths(setup@)[g as int]));
            assert(all_len(setup@[g as int]@, n));
        }
        push_listed(list, &setup[g], &ids[g], Ghost(n));
        proof {
            assert(so_far + listed(setup@[g as int]@, ids@[g as int]@) =~= before + listed_setup(
                setup@,
                flat_ids(ids@, (g + 1) as nat),
            ));
        }
        g += 1;
    }
}

fn push_one<'a, F: PrimeField>(
    list: &mut Vec<&'a Vec<F>>,
    poly: &'a Vec<F>,
    Ghost(n): Ghost<int>,
)
    requires
        poly@.len() == n,
        forall|j: int| 0 <= j < old(list)@.len() ==> (#[trigger] old(list)@[j])@.len() == n,
    ensures
        borrowed_columns(final(list)@) == borrowed_columns(old(list)@).push(vals(poly@)),
        forall|j: int| 0 <= j < final(list)@.len() ==> (#[trigger] final(list)@[j])@.len() == n,
{
    let ghost before = list@;
    list.push(poly);
    proof {
        assert(borrowed_columns(list@) =~= borrowed_columns(before).push(vals(poly@)));
    }
}

/// The polynomials that prove the openings at `z` and at `z * omega`.
#[derive(Debug)]
pub struct OpeningPolynomials<F: PrimeField> {
    /// What is opened at `z`.
    pub opened_at_z: Vec<F>,
    /// What is opened at `z * omega`.
    pub opened_at_z_omega: Vec<F>,
    /// The quotient of the first by `X - z`.
    pub open_at_z: Vec<F>,
    /// The quotient of the second by `X - z * omega`.
    pub open_at_z_omega: Vec<F>,
}

impl<F: PrimeField> OpeningPolynomials<F> {
    /// The polynomials prove the openings that the challenge `v` combines.
    pub open spec fn prove(
        &self,
        p: ProverPolynomials<F>,
        q: SortedGateQueries,
        linearization: Seq<int>,
        z: int,
        omega: int,
        n: nat,
        v: int,
    ) -> bool {
        &&& represents(
            self.opened_at_z@,
            terms_at_z(p, q, linearization, z, n, v),
            n as int,
        )
        &&& represents(
            self.opened_at_z_omega@,
            terms_at_z_omega(p, q, linearization, v),
            n as int,
        )
        &&& is_division(self.open_at_z@, self.opened_at_z@, z)
        &&& is_division(self.open_at_z_omega@, self.opened_at_z_omega@, red::<F>(z * omega))
    }
}

/// Combines the opened polynomials with consecutive powers of `v`, and divides
/// each of the two sums by the point that it is opened at.
pub fn combine_openings<F: PrimeField>(
    p: &ProverPolynomials<F>,
    queries: &SortedGateQueries,
    gates: &Vec<Gate>,
    linearization: &Vec<F>,
    domain: &Domain<F>,
    z: &F,
    v: &F,
) -> (r: OpeningPolynomials<F>)
    requires
        domain.size <= usize::MAX,
        p.wf(gates@, domain.size as int),
        p.answers(gates@, *queries),
        linearization@.len() == domain.size,
    ensures
        r.prove(
            *p,
            *queries,
            vals(linearization@),
            z.val(),
            domain.generator.val(),
            domain.size as nat,
            v.val(),
        ),
{
    let n = domain.size as usize;
    let m = &p.monomials;
    let ghost lin = vals(linearization@);
    let challenge = Num::of(v);
    let z_in_domain_size = Num::of(z).power(domain.size);
    let mut first_permutations: Vec<usize> = Vec::new();
    first_permutations.push(0);
    first_permutations.push(1);
    first_permutations.push(2);
    proof {
        assert(first_permutations@ =~= seq![0usize, 1, 2]);
    }

    let mut parts: Vec<&Vec<F>> = Vec::new();
    let mut i: usize = 0;
    while i < p.quotient_parts.len()
        invariant
            i <= p.quotient_parts@.len(),
            parts@.len() == i,
            forall|j: int| 0 <= j < i ==> #[trigger] parts@[j] == p.quotient_parts@[j],
        decreases p.quotient_parts@.len() - i,
    {
        parts.push(&p.quotient_parts[i]);
        i += 1;
    }
    proof {
        assert(borrowed_columns(parts@) =~= columns(p.quotient_parts@));
    }

    let mut at_z: Vec<&Vec<F>> = Vec::new();
    push_one(&mut at_z, linearization, Ghost(n as int));
    proof {
        assert(borrowed_columns(at_z@) =~= seq![lin]);
    }
    push_listed(&mut at_z, &m.state, &queries.state_polys.at_z, Ghost(n as int));
    push_listed(&mut at_z, &m.witness, &queries.witness_polys.at_z, Ghost(n as int));
    push_listed_setup(&mut at_z, &m.gate_setup, &queries.gate_setup_polys, Ghost(n as int));
    push_listed(&mut at_z, &m.gate_selectors, &queries.gate_selectors, Ghost(n as int));
    push_listed(&mut at_z, &m.permutations, &first_permutations, Ghost(n as int));
    let ghost so_far = borrowed_columns(at_z@);
    if let Some(l) = &p.lookup {
        push_one(&mut at_z, &l.t, Ghost(n as int));
        push_one(&mut at_z, &l.selector, Ghost(n as int));
        push_one(&mut at_z, &l.table_type, Ghost(n as int));
        proof {
            assert(borrowed_columns(at_z@) =~= so_far + seq![
                vals(l.t@),
                vals(l.selector@),
                vals(l.table_type@),
            ]);
        }
    }
    proof {
        assert(borrowed_columns(at_z@) == polys_at_z(*p, *queries, lin));
    }

    let mut at_z_omega: Vec<&Vec<F>> = Vec::new();
    push_one(&mut at_z_omega, &p.copy_z, Ghost(n as int));
    proof {
        assert(borrowed_columns(at_z_omega@) =~= seq![vals(p.copy_z@)]);
    }
    push_listed(&mut at_z_omega, &m.state, &queries.state_polys.at_z_omega, Ghost(n as int));
    push_listed(&mut at_z_omega, &m.witness, &queries.witness_polys.at_z_omega, Ghost(n as int));
    let ghost so_far = borrowed_columns(at_z_omega@);
    if let Some(l) = &p.lookup {
        push_one(&mut at_z_omega, &l.s, Ghost(n as int));
        push_one(&mut at_z_omega, &l.z, Ghost(n as int));
        push_one(&mut at_z_omega, &l.t, Ghost(n as int));
        proof {
            assert(borrowed_columns(at_z_omega@) =~= so_far + seq![
                vals(l.s@),
                vals(l.z@),
                vals(l.t@),
            ]);
        }
    }
    proof {
        assert(borrowed_columns(at_z_omega@) == polys_at_z_omega(*p, *queries));
    }

    let ghost none = Seq::<(int, Seq<int>)>::empty();
    let mut first: Vec<F> = zeros(n);
    let mut second: Vec<F> = zeros(n);
    proof {
        lemma_represents_zeros(first@);
        lemma_represents_zeros(second@);
        lemma_pow0(z_in_domain_size.expr());
        lemma_pow1(challenge.expr());
    }
    let _ = add_assign_powers(
        &mut first,
        &parts,
        &Num::one(),
        &z_in_domain_size,
        Ghost(0),
        Ghost(none),
    );
    let ghost from_parts = power_terms(
        columns(p.quotient_parts@),
        z_in_domain_size.expr(),
        0,
    );
    proof {
        assert(none + from_parts =~= from_parts);
    }
    let next = add_assign_powers(
        &mut first,
        &at_z,
        &challenge,
        &challenge,
        Ghost(1),
        Ghost(from_parts),
    );
    let ghost start = (1 + polys_at_z(*p, *queries, lin).len()) as nat;
    proof {
        assert(borrowed_columns(at_z@).len() == at_z@.len());
    }
    let _ = add_assign_powers(
        &mut second,
        &at_z_omega,
        &next,
        &challenge,
        Ghost(start),
        Ghost(none),
    );
    proof {
        let all = power_terms(polys_at_z_omega(*p, *queries), v.val(), start);
        assert(none + all =~= all);
    }
    let z_by_omega = Num::of(z).times(&Num::of(&domain.generator)).value();
    let open_at_z = divide_single(&first, z);
    let open_at_z_omega = divide_single(&second, &z_by_omega);
    OpeningPolynomials {
        opened_at_z: first,
        opened_at_z_omega: second,
        open_at_z,
        open_at_z_omega,
    }
}

} // verus!
