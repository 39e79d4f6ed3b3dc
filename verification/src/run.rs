//! A whole run of the rounds, from a circuit to a proof: each round is what the
//! call before it returned.

use crate::circuit::{Assembly, Setup};
use crate::closing_rounds::{
    LdesRequested, Linearized, Opened, OpeningsCombined, Proof, QuotientCommitted, QuotientReady,
    QuotientStart,
};
use crate::errors::SynthesisError;
use crate::field::PrimeField;
use crate::linearization::GateContributions;
use crate::lookup_rounds::{
    LookupCombined, LookupPolynomial, LookupProduct, LookupSorted, LookupStart, ProductsCommitted,
};
use crate::prover::{
    CopyCommitted, CopyPolynomial, CopyProduct, CopyStart, Started, WiresCommitted, WiresReady,
};
use crate::quotient::Ldes;
use vstd::prelude::*;

verus! {

/// The rounds of the lookup argument, with what they were answered.
pub struct LookupRun<F: PrimeField, G: Copy> {
    /// Combines the columns of a table.
    pub eta: F,
    /// The round that asks for the table type and the selector.
    pub start: LookupStart<F, G>,
    /// The answer for the table type.
    pub table_type: Vec<F>,
    /// The answer for the selector.
    pub selector: Vec<F>,
    /// The columns of the rows that look something up.
    pub masked: Vec<Vec<F>>,
    /// The round that asks for the tables and the sorted column.
    pub combined: LookupCombined<F, G>,
    /// The answer for the tables.
    pub tables: Vec<F>,
    /// The answer for the sorted column.
    pub sorted: Vec<F>,
    /// The round that asks for a commitment to the sorted column.
    pub prepared: LookupSorted<F, G>,
    /// That commitment.
    pub s_point: G,
    /// The first challenge of the grand product.
    pub beta: F,
    /// The second challenge of the grand product.
    pub gamma: F,
    /// The round that asks for the grand product.
    pub product: LookupProduct<F, G>,
    /// The answer for the grand product.
    pub coefficients: Vec<F>,
    /// The round that asks for a commitment to it.
    pub polynomial: LookupPolynomial<F, G>,
    /// That commitment.
    pub z_point: G,
}

/// All rounds, with what they were answered and what the transcript drew.
pub struct Run<F: PrimeField, G: Copy> {
    /// The circuit.
    pub assembly: Assembly<F>,
    /// Its setup.
    pub setup: Setup<F>,
    /// The round that asks for the columns.
    pub started: Started<F>,
    /// The answers for the permutation polynomials.
    pub permutation_values: Vec<Vec<F>>,
    /// The answers for the state columns.
    pub state: Vec<Vec<F>>,
    /// The answers for the witness columns.
    pub witness: Vec<Vec<F>>,
    /// The round that asks for commitments to the wires.
    pub wires: WiresReady<F, G>,
    /// The commitments to the state polynomials.
    pub state_points: Vec<G>,
    /// The commitments to the witness polynomials.
    pub witness_points: Vec<G>,
    /// The round after them.
    pub committed: WiresCommitted<F, G>,
    /// The lookup argument.
    pub lookup: Option<LookupRun<F, G>>,
    /// The round before the challenges of the copy-permutation argument.
    pub copy: CopyStart<F, G>,
    /// The first of them.
    pub beta: F,
    /// The second of them.
    pub gamma: F,
    /// The round that asks for the grand product.
    pub product: CopyProduct<F, G>,
    /// The answer for the grand product.
    pub coefficients: Vec<F>,
    /// The round that asks for a commitment to it.
    pub polynomial: CopyPolynomial<F, G>,
    /// That commitment.
    pub copy_point: G,
    /// The round after it.
    pub copied: CopyCommitted<F, G>,
    /// The round before the challenge of the numerator.
    pub products: ProductsCommitted<F, G>,
    /// That challenge.
    pub alpha: F,
    /// The round that asks for the public inputs.
    pub start: QuotientStart<F, G>,
    /// The answer for the public inputs.
    pub inputs: Vec<F>,
    /// The round that asks for the values on the coset.
    pub requested: LdesRequested<F, G>,
    /// Those values.
    pub ldes: Ldes<F>,
    /// The round that asks for commitments to the parts of the quotient.
    pub ready: QuotientReady<F, G>,
    /// Those commitments.
    pub part_points: Vec<G>,
    /// The round before the opening point.
    pub quotient: QuotientCommitted<F, G>,
    /// The opening point.
    pub z: F,
    /// The round that asks the gates for their part.
    pub opened: Opened<F, G>,
    /// What they answer.
    pub contributions: GateContributions<F>,
    /// The round before the last challenge.
    pub linearized: Linearized<F, G>,
    /// The last challenge.
    pub v: F,
    /// The round that asks for commitments to the opening polynomials.
    pub combined: OpeningsCombined<F, G>,
    /// The commitment to the first.
    pub at_z: G,
    /// The commitment to the second.
    pub at_z_omega: G,
    /// The proof.
    pub proof: Proof<F, G>,
}

impl<F: PrimeField, G: Copy> LookupRun<F, G> {
    /// The first rounds of the lookup argument lead from one round to another.
    pub open spec fn sorts(self, from: WiresCommitted<F, G>, to: CopyStart<F, G>) -> bool {
        &&& call_ensures(WiresCommitted::<F, G>::begin_lookup, (from, self.eta), self.start)
        &&& call_ensures(
            LookupStart::<F, G>::resume,
            (self.start, self.table_type, self.selector, self.masked),
            self.combined,
        )
        &&& call_ensures(
            LookupCombined::<F, G>::resume,
            (self.combined, self.tables, self.sorted),
            self.prepared,
        )
        &&& call_ensures(LookupSorted::<F, G>::resume, (self.prepared, self.s_point), to)
    }

    /// The last rounds of the lookup argument lead from one round to another.
    pub open spec fn multiplies(
        self,
        from: CopyCommitted<F, G>,
        to: ProductsCommitted<F, G>,
    ) -> bool {
        &&& call_ensures(
            CopyCommitted::<F, G>::begin_lookup_product,
            (from, self.beta, self.gamma),
            Ok::<LookupProduct<F, G>, SynthesisError>(self.product),
        )
        &&& call_ensures(
            LookupProduct::<F, G>::resume,
            (self.product, self.coefficients),
            self.polynomial,
        )
        &&& call_ensures(LookupPolynomial::<F, G>::resume, (self.polynomial, self.z_point), to)
    }
}

impl<F: PrimeField, G: Copy> Run<F, G> {
    /// The rounds up to the grand products.
    pub open spec fn begins(self) -> bool {
        &&& self.assembly.ready(&self.setup)
        &&& call_ensures(
            Assembly::<F>::async_create_proof,
            (self.assembly, &self.setup),
            Ok::<Started<F>, SynthesisError>(self.started),
        )
        &&& call_ensures(
            Started::<F>::resume::<G>,
            (self.started, self.permutation_values, self.state, self.witness),
            self.wires,
        )
        &&& call_ensures(
            WiresReady::<F, G>::resume,
            (self.wires, self.state_points, self.witness_points),
            self.committed,
        )
        &&& self.lookup is Some <==> self.committed.lookup is Some
        &&& match self.lookup {
            Some(l) => l.sorts(self.committed, self.copy),
            None => call_ensures(
                WiresCommitted::<F, G>::skip_lookup,
                (self.committed,),
                self.copy,
            ),
        }
    }

    /// The rounds of the grand products.
    pub open spec fn multiplies(self) -> bool {
        &&& call_ensures(
            CopyStart::<F, G>::resume,
            (self.copy, self.beta, self.gamma),
            Ok::<CopyProduct<F, G>, SynthesisError>(self.product),
        )
        &&& call_ensures(
            CopyProduct::<F, G>::resume,
            (self.product, self.coefficients),
            self.polynomial,
        )
        &&& call_ensures(
            CopyPolynomial::<F, G>::resume,
            (self.polynomial, self.copy_point),
            self.copied,
        )
        &&& match self.lookup {
            Some(l) => l.multiplies(self.copied, self.products),
            None => call_ensures(
                CopyCommitted::<F, G>::skip_lookup_product,
                (self.copied,),
                self.products,
            ),
        }
    }

    /// The rounds of the quotient.
    pub open spec fn divides(self) -> bool {
        &&& call_ensures(ProductsCommitted::<F, G>::resume, (self.products, self.alpha), self.start)
        &&& call_ensures(
            QuotientStart::<F, G>::resume,
            (self.start, self.inputs),
            self.requested,
        )
        &&& call_ensures(
            LdesRequested::<F, G>::resume,
            (self.requested, self.ldes),
            Ok::<QuotientReady<F, G>, SynthesisError>(self.ready),
        )
        &&& call_ensures(
            QuotientReady::<F, G>::resume,
            (self.ready, self.part_points),
            self.quotient,
        )
    }

    /// The rounds of the openings.
    pub open spec fn opens(self) -> bool {
        &&& call_ensures(QuotientCommitted::<F, G>::resume, (self.quotient, self.z), self.opened)
        &&& call_ensures(
            Opened::<F, G>::resume,
            (self.opened, self.contributions),
            Ok::<Linearized<F, G>, SynthesisError>(self.linearized),
        )
        &&& call_ensures(Linearized::<F, G>::resume, (self.linearized, self.v), self.combined)
        &&& call_ensures(
            OpeningsCombined::<F, G>::finish,
            (self.combined, self.at_z, self.at_z_omega),
            self.proof,
        )
    }

    /// Every round is what the call before it returned, up to the proof.
    #[verifier::opaque]
    pub open spec fn completes(self) -> bool {
        &&& self.begins()
        &&& self.multiplies()
        &&& self.divides()
        &&& self.opens()
    }

    /// The gates answered as the known gates do.
    pub open spec fn known_gates(self) -> bool {
        call_ensures(
            Opened::<F, G>::gate_contributions,
            (&self.opened,),
            Ok::<GateContributions<F>, SynthesisError>(self.contributions),
        )
    }

    /// The generator of the domain of the circuit.
    pub open spec fn omega(self) -> int {
        self.started.job.domain.generator.val()
    }

    /// The number of elements of the domain of the circuit.
    pub open spec fn size(self) -> nat {
        (self.assembly.n + 1) as nat
    }
}

} // verus!
