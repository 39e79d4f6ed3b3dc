//! A synthesized circuit, its setup, and the polynomials that a proof is made
//! from.

use crate::domain::Domain;
use crate::field::PrimeField;
use crate::gates::{terms_before, Gate, GateKind};
use crate::polynomial::{all_len, copied};
use crate::quotient::supported;
use vstd::arithmetic::power2::*;
use vstd::prelude::*;

verus! {

/// Indices of polynomials that are opened at the opening point, and of those that
/// are opened one step on.
#[derive(Debug)]
pub struct Dilated {
    /// Opened at `z`.
    pub at_z: Vec<usize>,
    /// Opened at `z * omega`.
    pub at_z_omega: Vec<usize>,
}

/// Which polynomials have to be opened. Gate setup polynomials are opened at `z`
/// alone.
#[derive(Debug)]
pub struct SortedGateQueries {
    /// Indices of state polynomials.
    pub state_polys: Dilated,
    /// Indices of witness polynomials.
    pub witness_polys: Dilated,
    /// For each gate, indices of its setup polynomials.
    pub gate_setup_polys: Vec<Vec<usize>>,
    /// Indices of the gates whose selectors are opened.
    pub gate_selectors: Vec<usize>,
}

/// The columns of the lookup argument, where the circuit uses tables.
#[derive(Debug)]
pub struct LookupColumns<F: PrimeField> {
    /// One in each row with a lookup, zero in the others.
    pub selector_values: Vec<F>,
    /// The table that each row looks up in.
    pub table_type_values: Vec<F>,
    /// The rows of all tables, column by column.
    pub t_poly_ends: Vec<Vec<F>>,
    /// The rows of all tables and all lookups, sorted, column by column.
    pub s_poly_ends: Vec<Vec<F>>,
}

/// A synthesized circuit with its witness.
#[derive(Debug)]
pub struct Assembly<F: PrimeField> {
    /// The number of rows.
    pub n: usize,
    /// Whether rows were added up to one less than a power of two.
    pub is_finalized: bool,
    /// Whether the witness was kept.
    pub produce_witness: bool,
    /// Whether the setup was kept.
    pub produce_setup: bool,
    /// The public inputs.
    pub input_assingments: Vec<F>,
    /// The highest degree of a gate's equation.
    pub max_constraint_degree: usize,
    /// The gates, the main gate first.
    pub sorted_gates: Vec<Gate>,
    /// The number of tables that span several rows.
    pub num_multitables: usize,
    /// Which polynomials have to be opened.
    pub queries: SortedGateQueries,
    /// The values of the state columns.
    pub state_values: Vec<Vec<F>>,
    /// The values of the witness columns.
    pub witness_values: Vec<Vec<F>>,
    /// The values of the permutation polynomials, where the setup was kept.
    pub permutations: Vec<Vec<F>>,
    /// What tells the state columns apart, for every column but the first.
    pub non_residues: Vec<F>,
    /// The lookup argument, where the circuit uses tables.
    pub lookup: Option<LookupColumns<F>>,
}

/// The polynomials of a circuit that do not depend on the witness, as
/// coefficients.
#[derive(Debug)]
pub struct Setup<F: PrimeField> {
    /// For each gate, its setup polynomials.
    pub gate_setup_monomials: Vec<Vec<Vec<F>>>,
    /// For each gate, its selector, where there is more than one gate.
    pub gate_selectors_monomials: Vec<Vec<F>>,
    /// The permutation polynomials.
    pub permutation_monomials: Vec<Vec<F>>,
    /// The lookup selector.
    pub lookup_selector_monomial: Option<Vec<F>>,
    /// The columns of the tables.
    pub lookup_tables_monomials: Vec<Vec<F>>,
    /// The table type of each row.
    pub lookup_table_type_monomial: Option<Vec<F>>,
}

/// All indices are below a bound.
pub open spec fn all_below(ids: Seq<usize>, bound: nat) -> bool {
    forall|i: int| 0 <= i < ids.len() ==> (#[trigger] ids[i]) < bound
}

/// How many selector values the first `k` gates take: one for the main gate if
/// there are others, and one for each further gate that is linearized.
pub open spec fn selectors_used(gates: Seq<Gate>, k: nat) -> nat
    decreases k,
{
    if k == 0 {
        0
    } else if k == 1 {
        if gates.len() > 1 {
            1
        } else {
            0
        }
    } else {
        selectors_used(gates, (k - 1) as nat) + if gates[k - 1].benefits_from_linearization {
            1nat
        } else {
            0
        }
    }
}

impl SortedGateQueries {
    /// The indices name polynomials that exist, and as many selectors are opened
    /// as the linearization takes.
    pub open spec fn wf(
        &self,
        gates: Seq<Gate>,
        witness_width: nat,
        setup_widths: Seq<nat>,
        selectors: nat,
    ) -> bool {
        &&& all_below(self.state_polys.at_z@, 4)
        &&& all_below(self.state_polys.at_z_omega@, 4)
        &&& all_below(self.witness_polys.at_z@, witness_width)
        &&& all_below(self.witness_polys.at_z_omega@, witness_width)
        &&& self.gate_setup_polys@.len() <= setup_widths.len()
        &&& forall|g: int|
            0 <= g < self.gate_setup_polys@.len() ==> all_below(
                (#[trigger] self.gate_setup_polys@[g])@,
                setup_widths[g],
            )
        &&& all_below(self.gate_selectors@, selectors)
        &&& self.gate_selectors@.len() == selectors_used(gates, gates.len())
    }
}

/// The number of setup polynomials of each gate.
pub open spec fn widths<F: PrimeField>(setup: Seq<Vec<Vec<F>>>) -> Seq<nat> {
    Seq::new(setup.len(), |g: int| setup[g]@.len())
}

/// Every gate's polynomials have length `n`.
pub open spec fn all_nested_len<F: PrimeField>(setup: Seq<Vec<Vec<F>>>, n: int) -> bool {
    forall|g: int| 0 <= g < setup.len() ==> all_len((#[trigger] setup[g])@, n)
}

impl<F: PrimeField> LookupColumns<F> {
    /// The sorted rows fit into `n` rows, with a free row before them.
    pub open spec fn sorted_wf(&self, n: int) -> bool {
        &&& self.s_poly_ends@.len() == 4
        &&& self.s_poly_ends@[0]@.len() < n
        &&& all_len(self.s_poly_ends@, self.s_poly_ends@[0]@.len() as int)
    }

    /// All columns fit into `n` rows, with a free row before the tables and the
    /// sorted rows.
    pub open spec fn wf(&self, n: int) -> bool {
        &&& self.sorted_wf(n)
        &&& self.selector_values@.len() <= n + 1
        &&& self.table_type_values@.len() == n
        &&& self.t_poly_ends@.len() == 4
        &&& self.t_poly_ends@[0]@.len() < n
        &&& all_len(self.t_poly_ends@, self.t_poly_ends@[0]@.len() as int)
    }
}

impl<F: PrimeField> Setup<F> {
    /// The polynomials that a circuit with these gates needs are there, with `n`
    /// coefficients each.
    pub open spec fn wf(&self, gates: Seq<Gate>, n: int) -> bool {
        &&& self.gate_setup_monomials@.len() > 0
        &&& self.gate_setup_monomials@[0]@.len() >= 7
        &&& all_nested_len(self.gate_setup_monomials@, n)
        &&& gates.len() > 1 ==> self.gate_selectors_monomials@.len() == gates.len()
        &&& all_len(self.gate_selectors_monomials@, n)
        &&& self.permutation_monomials@.len() == 4
        &&& all_len(self.permutation_monomials@, n)
    }

    /// The polynomials of the lookup argument are there, with `n` coefficients
    /// each.
    pub open spec fn has_lookup(&self, n: int) -> bool {
        &&& self.lookup_selector_monomial matches Some(p) && p@.len() == n
        &&& self.lookup_table_type_monomial matches Some(p) && p@.len() == n
        &&& self.lookup_tables_monomials@.len() == 4
        &&& all_len(self.lookup_tables_monomials@, n)
    }
}

/// The factor by which the larger domain extends the domain of the circuit.
pub const LDE_FACTOR: usize = 4;

impl<F: PrimeField> Assembly<F> {
    /// The circuit and its setup can be handed to the prover.
    pub open spec fn ready(&self, setup: &Setup<F>) -> bool {
        let size = self.n + 1;
        &&& self.produce_witness
        &&& self.is_finalized
        &&& exists|k: nat| size == #[trigger] pow2(k)
        &&& 8 * size <= usize::MAX
        &&& size > pow2(F::spec_two_adicity()) || 4 * size <= pow2(F::spec_two_adicity())
        &&& self.input_assingments@.len() <= size
        &&& 2 < self.max_constraint_degree <= 4
        &&& supported(self.sorted_gates@)
        &&& self.sorted_gates@[0].benefits_from_linearization
        &&& forall|g: int|
            0 <= g < self.sorted_gates@.len() ==> (#[trigger] self.sorted_gates@[g]).degree <= 4
        &&& terms_before(self.sorted_gates@, self.sorted_gates@.len()) + 4 <= usize::MAX
        &&& self.num_multitables == 0
        &&& setup.wf(self.sorted_gates@, size)
        &&& self.queries.wf(
            self.sorted_gates@,
            self.witness_values@.len(),
            widths(setup.gate_setup_monomials@),
            setup.gate_selectors_monomials@.len(),
        )
        &&& self.state_values@.len() == 4
        &&& all_len(self.state_values@, self.n as int)
        &&& all_len(self.witness_values@, self.n as int)
        &&& self.produce_setup ==> self.permutations@.len() == 4 && all_len(
            self.permutations@,
            size,
        )
        &&& self.non_residues@.len() == 3
        &&& self.lookup matches Some(l) ==> if self.produce_setup {
            l.wf(self.n as int)
        } else {
            l.sorted_wf(self.n as int) && setup.has_lookup(size)
        }
    }

    /// Whether the circuit and its setup can be handed to the prover.
    pub fn is_ready(&self, setup: &Setup<F>) -> (r: bool)
        ensures
            r == self.ready(setup),
    {
        if self.n >= usize::MAX / 8 {
            return false;
        }
        let size: usize = self.n + 1;
        if !is_power_of_two(size) {
            return false;
        }
        if !self.produce_witness || !self.is_finalized || self.num_multitables != 0 {
            return false;
        }
        let fits = match (
            Domain::<F>::new_for_size(size as u64),
            Domain::<F>::new_for_size(4 * size as u64),
        ) {
            (Err(_), _) => true,
            (_, Ok(_)) => true,
            _ => false,
        };
        if !fits || self.input_assingments.len() > size || self.max_constraint_degree <= 2
            || self.max_constraint_degree > 4 {
            return false;
        }
        if !gates_are_supported(&self.sorted_gates) {
            return false;
        }
        let selectors = count_selectors(&self.sorted_gates);
        if !setup_is_wf(setup, &self.sorted_gates, size) {
            return false;
        }
        if !queries_are_wf(&self.queries, self.witness_values.len(), setup, selectors) {
            return false;
        }
        if self.state_values.len() != 4 || !have_len(&self.state_values, self.n)
            || !have_len(&self.witness_values, self.n) {
            return false;
        }
        if self.produce_setup && (self.permutations.len() != 4 || !have_len(
            &self.permutations,
            size,
        )) {
            return false;
        }
        if self.non_residues.len() != 3 {
            return false;
        }
        match &self.lookup {
            Some(l) => {
                if self.produce_setup {
                    lookup_is_wf(l, self.n)
                } else {
                    sorted_is_wf(l, self.n) && setup_has_lookup(setup, size)
                }
            },
            None => true,
        }
    }
}

fn is_power_of_two(x: usize) -> (r: bool)
    requires
        0 < x <= usize::MAX / 2,
    ensures
        r <==> exists|k: nat| x == #[trigger] pow2(k),
{
    let mut p: usize = 1;
    let ghost mut k: nat = 0;
    proof {
        lemma2_to64();
    }
    while p < x
        invariant
            p == pow2(k),
            x <= usize::MAX / 2,
            forall|j: nat| j < k ==> x != #[trigger] pow2(j),
        decreases 2 * x - p,
    {
        proof {
            lemma_pow2_pos(k);
            lemma_pow2_unfold(k + 1);
            k = k + 1;
        }
        p = 2 * p;
    }
    proof {
        assert forall|j: nat| p != x implies x != #[trigger] pow2(j) by {
            if j > k {
                lemma_pow2_strictly_increases(k, j);
            }
        }
    }
    p == x
}

fn have_len<F: PrimeField>(polys: &Vec<Vec<F>>, n: usize) -> (r: bool)
    ensures
        r == all_len(polys@, n as int),
{
    let mut i: usize = 0;
    while i < polys.len()
        invariant
            i <= polys@.len(),
            forall|j: int| 0 <= j < i ==> (#[trigger] polys@[j])@.len() == n,
        decreases polys@.len() - i,
    {
        if polys[i].len() != n {
            return false;
        }
        i += 1;
    }
    true
}

fn are_below(ids: &Vec<usize>, bound: usize) -> (r: bool)
    ensures
        r == all_below(ids@, bound as nat),
{
    let mut i: usize = 0;
    while i < ids.len()
        invariant
            i <= ids@.len(),
            forall|j: int| 0 <= j < i ==> (#[trigger] ids@[j]) < bound,
        decreases ids@.len() - i,
    {
        if ids[i] >= bound {
            return false;
        }
        i += 1;
    }
    true
}

fn gates_are_supported(gates: &Vec<Gate>) -> (r: bool)
    ensures
        r == (supported(gates@) && gates@[0].benefits_from_linearization && (forall|g: int|
            0 <= g < gates@.len() ==> (#[trigger] gates@[g]).degree <= 4) && terms_before(
            gates@,
            gates@.len(),
        ) + 4 <= usize::MAX),
{
    if gates.len() == 0 {
        return false;
    }
    if gates[0].kind != GateKind::MainGateOfWidth4WithDNext
        || !gates[0].benefits_from_linearization {
        return false;
    }
    let mut total: usize = 4;
    let mut k: usize = 0;
    while k < gates.len()
        invariant
            k <= gates@.len(),
            total == terms_before(gates@, k as nat) + 4,
            forall|j: int|
                0 < j < k ==> (#[trigger] gates@[j]).kind == GateKind::TestBitGateOnA,
            forall|j: int|
                0 <= j < k ==> (#[trigger] gates@[j]).num_quotient_terms > 0 && gates@[j].degree
                    <= 4,
        decreases gates@.len() - k,
    {
        if k > 0 && gates[k].kind != GateKind::TestBitGateOnA {
            return false;
        }
        if gates[k].num_quotient_terms == 0 || gates[k].degree > 4 {
            return false;
        }
        if gates[k].num_quotient_terms > usize::MAX - total {
            proof {
                crate::quotient::lemma_terms_monotonic(
                    gates@,
                    (k + 1) as nat,
                    gates@.len(),
                );
            }
            return false;
        }
        total = total + gates[k].num_quotient_terms;
        k += 1;
    }
    true
}

fn count_selectors(gates: &Vec<Gate>) -> (r: usize)
    ensures
        r == selectors_used(gates@, gates@.len()),
{
    if gates.len() == 0 {
        return 0;
    }
    let mut c: usize = if gates.len() > 1 {
        1
    } else {
        0
    };
    let mut k: usize = 1;
    while k < gates.len()
        invariant
            1 <= k <= gates@.len(),
            c == selectors_used(gates@, k as nat),
            c <= k,
        decreases gates@.len() - k,
    {
        if gates[k].benefits_from_linearization {
            c += 1;
        }
        k += 1;
    }
    c
}

fn setup_is_wf<F: PrimeField>(setup: &Setup<F>, gates: &Vec<Gate>, n: usize) -> (r: bool)
    ensures
        r == setup.wf(gates@, n as int),
{
    if setup.gate_setup_monomials.len() == 0 {
        return false;
    }
    let mut g: usize = 0;
    while g < setup.gate_setup_monomials.len()
        invariant
            g <= setup.gate_setup_monomials@.len(),
            forall|j: int|
                0 <= j < g ==> all_len((#[trigger] setup.gate_setup_monomials@[j])@, n as int),
        decreases setup.gate_setup_monomials@.len() - g,
    {
        if !have_len(&setup.gate_setup_monomials[g], n) {
            return false;
        }
        g += 1;
    }
    if gates.len() > 1 && setup.gate_selectors_monomials.len() != gates.len() {
        return false;
    }
    setup.gate_setup_monomials[0].len() >= 7 && have_len(&setup.gate_selectors_monomials, n)
        && setup.permutation_monomials.len() == 4 && have_len(&setup.permutation_monomials, n)
}

fn setup_has_lookup<F: PrimeField>(setup: &Setup<F>, n: usize) -> (r: bool)
    ensures
        r == setup.has_lookup(n as int),
{
    match (&setup.lookup_selector_monomial, &setup.lookup_table_type_monomial) {
        (Some(s), Some(t)) => s.len() == n && t.len() == n && setup.lookup_tables_monomials.len()
            == 4 && have_len(&setup.lookup_tables_monomials, n),
        _ => false,
    }
}

fn sorted_is_wf<F: PrimeField>(l: &LookupColumns<F>, n: usize) -> (r: bool)
    ensures
        r == l.sorted_wf(n as int),
{
    if l.s_poly_ends.len() != 4 {
        return false;
    }
    let s = l.s_poly_ends[0].len();
    s < n && have_len(&l.s_poly_ends, s)
}

fn lookup_is_wf<F: PrimeField>(l: &LookupColumns<F>, n: usize) -> (r: bool)
    requires
        n < usize::MAX,
    ensures
        r == l.wf(n as int),
{
    if !sorted_is_wf(l, n) || l.t_poly_ends.len() != 4 {
        return false;
    }
    let t = l.t_poly_ends[0].len();
    l.selector_values.len() <= n + 1 && l.table_type_values.len() == n && t < n && have_len(
        &l.t_poly_ends,
        t,
    )
}

fn queries_are_wf<F: PrimeField>(
    queries: &SortedGateQueries,
    witness_width: usize,
    setup: &Setup<F>,
    selectors: usize,
) -> (r: bool)
    ensures
        r == ({
            let widths = widths(setup.gate_setup_monomials@);
            &&& all_below(queries.state_polys.at_z@, 4)
            &&& all_below(queries.state_polys.at_z_omega@, 4)
            &&& all_below(queries.witness_polys.at_z@, witness_width as nat)
            &&& all_below(queries.witness_polys.at_z_omega@, witness_width as nat)
            &&& queries.gate_setup_polys@.len() <= widths.len()
            &&& forall|g: int|
                0 <= g < queries.gate_setup_polys@.len() ==> all_below(
                    (#[trigger] queries.gate_setup_polys@[g])@,
                    widths[g],
                )
            &&& all_below(
                queries.gate_selectors@,
                setup.gate_selectors_monomials@.len(),
            )
            &&& queries.gate_selectors@.len() == selectors
        }),
{
    if queries.gate_setup_polys.len() > setup.gate_setup_monomials.len() {
        return false;
    }
    let mut g: usize = 0;
    while g < queries.gate_setup_polys.len()
        invariant
            g <= queries.gate_setup_polys@.len() <= setup.gate_setup_monomials@.len(),
            forall|j: int|
                0 <= j < g ==> all_below(
                    (#[trigger] queries.gate_setup_polys@[j])@,
                    widths(setup.gate_setup_monomials@)[j],
                ),
        decreases queries.gate_setup_polys@.len() - g,
    {
        if !are_below(&queries.gate_setup_polys[g], setup.gate_setup_monomials[g].len()) {
            return false;
        }
        g += 1;
    }
    are_below(&queries.state_polys.at_z, 4) && are_below(&queries.state_polys.at_z_omega, 4)
        && are_below(&queries.witness_polys.at_z, witness_width) && are_below(
        &queries.witness_polys.at_z_omega,
        witness_width,
    ) && are_below(&queries.gate_selectors, setup.gate_selectors_monomials.len())
        && queries.gate_selectors.len() == selectors
}

/// The polynomials of the circuit, as coefficients.
#[derive(Debug)]
pub struct Monomials<F: PrimeField> {
    /// The state columns.
    pub state: Vec<Vec<F>>,
    /// The witness columns.
    pub witness: Vec<Vec<F>>,
    /// For each gate, its setup polynomials.
    pub gate_setup: Vec<Vec<Vec<F>>>,
    /// For each gate, its selector, where there is more than one gate.
    pub gate_selectors: Vec<Vec<F>>,
    /// The permutation polynomials.
    pub permutations: Vec<Vec<F>>,
}

impl<F: PrimeField> Monomials<F> {
    /// The polynomials that a circuit with these gates needs are there, with `n`
    /// coefficients each.
    pub open spec fn wf(&self, gates: Seq<Gate>, n: int) -> bool {
        &&& self.state@.len() == 4
        &&& all_len(self.state@, n)
        &&& all_len(self.witness@, n)
        &&& self.gate_setup@.len() > 0
        &&& self.gate_setup@[0]@.len() >= 7
        &&& all_nested_len(self.gate_setup@, n)
        &&& gates.len() > 1 ==> self.gate_selectors@.len() == gates.len()
        &&& all_len(self.gate_selectors@, n)
        &&& self.permutations@.len() == 4
        &&& all_len(self.permutations@, n)
    }
}

/// Two lists hold the same vectors.
pub open spec fn same_polys<F: PrimeField>(a: Seq<Vec<F>>, b: Seq<Vec<F>>) -> bool {
    &&& a.len() == b.len()
    &&& forall|i: int| 0 <= i < a.len() ==> (#[trigger] a[i])@ == b[i]@
}

/// A copy of a list of vectors.
pub(crate) fn copied_all<F: PrimeField>(polys: &Vec<Vec<F>>) -> (r: Vec<Vec<F>>)
    ensures
        same_polys(r@, polys@),
{
    let mut r: Vec<Vec<F>> = Vec::with_capacity(polys.len());
    let mut i: usize = 0;
    while i < polys.len()
        invariant
            i <= polys@.len(),
            r@.len() == i,
            forall|j: int| 0 <= j < i ==> (#[trigger] r@[j])@ == polys@[j]@,
        decreases polys@.len() - i,
    {
        r.push(copied(&polys[i]));
        i += 1;
    }
    r
}

} // verus!
