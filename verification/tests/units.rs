use plonk_prover::bits::{bitreverse, bitreverse_enumeration, clone_shifted_assuming_bitreversed};
use plonk_prover::bn256::Bn256Fr;
use plonk_prover::contributions::add_inputs_into_quotient;
use plonk_prover::domain::{
    calculate_lagrange_poly, evaluate_l0_at_point, evaluate_lagrange_poly_at_point,
    evaluate_vanishing_for_size, evaluate_vanishing_polynomial_of_degree_on_domain_size, geometric,
    inverse_size, materialize_domain_elements_with_natural_enumeration, Domain,
};
use plonk_prover::errors::SynthesisError;
use plonk_prover::fft::icoset_fft_for_generator;
use plonk_prover::field::PrimeField;
use plonk_prover::gates::{
    contribute_into_quotient_for_public_inputs, test_bit_gate_contribute_into_quotient, Gate,
    GateKind,
};
use plonk_prover::lookup::{expected_last_value, lookup_grand_product, place_on_domain};
use plonk_prover::permutation::copy_permutation_grand_product;
use plonk_prover::polynomial::{
    aggregate, batch_inversion, break_into_multiples, calculate_shifted_grand_product, copied,
    divide_single, evaluate_at, padded, slice, zeros,
};
use plonk_prover::quotient::{divide_by_vanishing, total_quotient_terms};

type F = Bn256Fr;

fn fr(x: u64) -> F {
    F::from_u64(x)
}

fn frs(v: &[u64]) -> Vec<F> {
    v.iter().map(|x| fr(*x)).collect()
}

fn same(a: &Vec<F>, b: &Vec<F>) -> bool {
    a.len() == b.len() && a.iter().zip(b.iter()).all(|(x, y)| x.equals(y))
}

fn gate(kind: GateKind, terms: usize) -> Gate {
    Gate { kind, degree: 4, num_quotient_terms: terms, benefits_from_linearization: true }
}

#[test]
fn field_arithmetic_is_modular() {
    let minus_one = fr(1).negated();
    assert!(minus_one.plus(&fr(1)).equals(&fr(0)));
    assert!(fr(3).minus(&fr(5)).equals(&fr(2).negated()));
    assert!(fr(6).times(&fr(7)).equals(&fr(42)));
    assert!(minus_one.times(&minus_one).equals(&fr(1)));
    assert!(fr(3).power(5).equals(&fr(243)));
    let third = fr(3).inverse().unwrap();
    assert!(third.times(&fr(3)).equals(&fr(1)));
    assert!(fr(0).inverse().is_none());
    assert_eq!(
        minus_one.into_limbs(),
        [0x43e1f593f0000000, 0x2833e84879b97091, 0xb85045b68181585d, 0x30644e72e131a029]
    );
}

#[test]
fn limbs_must_write_a_reduced_integer() {
    let modulus = [0x43e1f593f0000001, 0x2833e84879b97091, 0xb85045b68181585d, 0x30644e72e131a029];
    assert!(F::from_limbs(modulus).is_none());
    let mut below = modulus;
    below[0] -= 1;
    assert!(F::from_limbs(below).unwrap().equals(&fr(1).negated()));
    assert_eq!(F::from_limbs([9, 8, 7, 6]).unwrap().into_limbs(), [9, 8, 7, 6]);
}

#[test]
fn the_root_of_unity_has_its_order() {
    assert_eq!(F::two_adicity(), 28);
    assert!(F::multiplicative_generator().equals(&fr(7)));
    assert!(F::root_of_unity().power(1 << 27).equals(&fr(1).negated()));
    // seven to the odd part of the order of the multiplicative group
    let order = fr(1).negated().into_limbs();
    let mut power = fr(1);
    for i in (0..256).rev() {
        power = power.times(&power);
        let bit = i + 28;
        if bit < 256 && (order[bit / 64] >> (bit % 64)) & 1 == 1 {
            power = power.times(&fr(7));
        }
    }
    assert!(F::root_of_unity().equals(&power));
}

#[test]
fn reversal_undoes_itself() {
    assert_eq!(bitreverse(0b00110, 5), 0b01100);
    assert_eq!(bitreverse(1, 5), 16);
    for i in 0..32 {
        assert_eq!(bitreverse(bitreverse(i, 5), 5), i);
    }
    let v = frs(&[0, 1, 2, 3, 4, 5, 6, 7]);
    let r = bitreverse_enumeration(&v, 3);
    assert!(same(&r, &frs(&[0, 4, 2, 6, 1, 5, 3, 7])));
    assert!(same(&bitreverse_enumeration(&r, 3), &v));
}

#[test]
fn a_reversed_column_is_rotated_in_natural_order() {
    let reversed = frs(&[0, 4, 2, 6, 1, 5, 3, 7]);
    let r = clone_shifted_assuming_bitreversed(&reversed, 2, 3);
    assert!(same(&bitreverse_enumeration(&r, 3), &frs(&[2, 3, 4, 5, 6, 7, 0, 1])));
}

#[test]
fn domains_are_powers_of_two() {
    let d = Domain::<F>::new_for_size(5).unwrap();
    assert_eq!(d.size, 8);
    assert_eq!(d.power_of_two, 3);
    assert!(d.generator.power(4).equals(&fr(1).negated()));
    assert!(Domain::<F>::new_for_size(1 << 28).is_ok());
    assert_eq!(
        Domain::<F>::new_for_size((1 << 28) + 1).err(),
        Some(SynthesisError::PolynomialDegreeTooLarge)
    );
    let elements = materialize_domain_elements_with_natural_enumeration(&d);
    assert_eq!(elements.len(), 8);
    assert!(elements[0].equals(&fr(1)));
    assert!(elements[3].equals(&d.generator.power(3)));
    assert!(inverse_size(&d).times(&fr(8)).equals(&fr(1)));
    // the generator of the larger domain, squared, generates the smaller one
    let e = Domain::<F>::new_for_size(16).unwrap();
    assert!(e.generator.power(2).equals(&d.generator));
}

#[test]
fn lagrange_forms_agree() {
    let d = Domain::<F>::new_for_size(8).unwrap();
    let x = fr(12345);
    for i in 0..8 {
        let poly = calculate_lagrange_poly(&d, i);
        let value = evaluate_lagrange_poly_at_point(i, &d, &x).unwrap();
        assert!(evaluate_at(&poly, &x).equals(&value));
        for j in 0..8 {
            let expected = if i == j { fr(1) } else { fr(0) };
            assert!(evaluate_at(&poly, &d.generator.power(j)).equals(&expected));
        }
    }
    let l0 = evaluate_l0_at_point(8, &x).unwrap();
    assert!(l0.equals(&evaluate_lagrange_poly_at_point(0, &d, &x).unwrap()));
    // (x^8 - 1) / (8 * (x - 1)) at 2 is 255 / 8
    let at_two = evaluate_l0_at_point(8, &fr(2)).unwrap();
    assert!(at_two.times(&fr(8)).equals(&fr(255)));
    assert_eq!(evaluate_l0_at_point(8, &fr(1)).err(), Some(SynthesisError::DivisionByZero));
    let node = d.generator.power(3);
    assert_eq!(
        evaluate_lagrange_poly_at_point(3, &d, &node).err(),
        Some(SynthesisError::DivisionByZero)
    );
}

#[test]
fn public_inputs_are_interpolated() {
    let d = Domain::<F>::new_for_size(4).unwrap();
    let x = fr(77);
    let inputs = frs(&[5, 9]);
    let mut poly = zeros::<F>(4);
    for (i, input) in inputs.iter().enumerate() {
        let l = calculate_lagrange_poly(&d, i as u64);
        for k in 0..4 {
            poly[k] = poly[k].plus(&l[k].times(input));
        }
    }
    let r = add_inputs_into_quotient(&inputs, &d, &x, &fr(3)).unwrap();
    assert!(r.equals(&evaluate_at(&poly, &x).times(&fr(3))));
    let none = add_inputs_into_quotient(&vec![], &d, &x, &fr(3)).unwrap();
    assert!(none.equals(&fr(0)));
    let at_node = add_inputs_into_quotient(&inputs, &d, &d.generator, &fr(3));
    assert_eq!(at_node.err(), Some(SynthesisError::DivisionByZero));
}

#[test]
fn vanishing_values_are_exact() {
    assert!(evaluate_vanishing_for_size(&fr(3), 4).equals(&fr(80)));
    let d = Domain::<F>::new_for_size(8).unwrap();
    let v = evaluate_vanishing_polynomial_of_degree_on_domain_size(2, &fr(7), &d);
    for i in 0..8 {
        let x = fr(7).times(&d.generator.power(i));
        assert!(v[i as usize].equals(&x.times(&x).minus(&fr(1))));
    }
    let g = geometric(&fr(3), &fr(2), 5);
    assert!(same(&g, &frs(&[3, 6, 12, 24, 48])));
}

#[test]
fn interpolation_on_a_coset_recovers_the_polynomial() {
    let d = Domain::<F>::new_for_size(8).unwrap();
    let poly = frs(&[3, 1, 4, 1, 5, 9, 2, 6]);
    let values: Vec<F> =
        (0..8).map(|i| evaluate_at(&poly, &fr(7).times(&d.generator.power(i)))).collect();
    assert!(same(&icoset_fft_for_generator(&values, &d, &fr(7)), &poly));
    let one = Domain::<F>::new_for_size(1).unwrap();
    assert!(same(&icoset_fft_for_generator(&frs(&[5]), &one, &fr(7)), &frs(&[5])));
}

#[test]
fn vectors_are_cut_padded_and_copied() {
    let v = frs(&[1, 2, 3, 4, 5, 6]);
    assert!(same(&copied(&v), &v));
    assert!(same(&slice(&v, 2, 4), &frs(&[3, 4])));
    assert!(same(&padded(&slice(&v, 0, 2), 4), &frs(&[1, 2, 0, 0])));
    let parts = break_into_multiples(&v, 2);
    assert_eq!(parts.len(), 3);
    assert!(same(&parts[2], &frs(&[5, 6])));
    // the parts make up the whole
    let x = fr(11);
    let mut whole = fr(0);
    for (i, part) in parts.iter().enumerate() {
        whole = whole.plus(&evaluate_at(part, &x).times(&x.power(2 * i as u64)));
    }
    assert!(whole.equals(&evaluate_at(&v, &x)));
}

#[test]
fn a_polynomial_is_evaluated() {
    assert!(evaluate_at(&frs(&[1, 2, 3]), &fr(10)).equals(&fr(321)));
    assert!(evaluate_at(&vec![], &fr(10)).equals(&fr(0)));
}

#[test]
fn columns_are_aggregated_by_powers() {
    let r = aggregate(&vec![frs(&[1, 2]), frs(&[3, 4]), frs(&[5, 6])], &fr(10));
    assert!(same(&r, &frs(&[531, 642])));
}

#[test]
fn a_batch_is_inverted() {
    let v = frs(&[2, 5, 9]);
    let w = batch_inversion(&v).unwrap();
    for i in 0..3 {
        assert!(v[i].times(&w[i]).equals(&fr(1)));
    }
    assert_eq!(batch_inversion(&frs(&[2, 0])).err(), Some(SynthesisError::DivisionByZero));
    assert!(batch_inversion::<F>(&vec![]).unwrap().is_empty());
}

#[test]
fn a_grand_product_starts_from_one() {
    let r = calculate_shifted_grand_product(&frs(&[2, 3, 5]));
    assert!(same(&r, &frs(&[1, 2, 6, 30])));
}

#[test]
fn division_leaves_the_value() {
    let f = frs(&[6, 5, 4, 3]);
    let a = fr(2);
    let q = divide_single(&f, &a);
    // 3x^3 + 4x^2 + 5x + 6 is (3x^2 + 10x + 25) (x - 2) + 56
    assert!(same(&q, &frs(&[25, 10, 3, 0])));
    let x = fr(1000);
    let lhs = evaluate_at(&q, &x).times(&x.minus(&a)).plus(&fr(56));
    assert!(lhs.equals(&evaluate_at(&f, &x)));
}

#[test]
fn a_permuted_column_ends_its_grand_product_with_one() {
    let d = Domain::<F>::new_for_size(4).unwrap();
    let shifts = [fr(1), fr(5)];
    let wires = vec![frs(&[8, 9, 0]), frs(&[9, 0, 0])];
    let mut permutations: Vec<Vec<F>> = shifts
        .iter()
        .map(|k| (0..4).map(|i| k.times(&d.generator.power(i))).collect())
        .collect();
    let (x, y) = (permutations[0][1], permutations[1][0]);
    permutations[0][1] = y;
    permutations[1][0] = x;
    let (beta, gamma) = (fr(123), fr(456));
    let z = copy_permutation_grand_product(
        &wires,
        &permutations,
        &vec![fr(5)],
        &d,
        &beta,
        &gamma,
    )
    .unwrap();
    assert_eq!(z.len(), 4);
    assert!(z[0].equals(&fr(1)));
    assert!(z[3].equals(&fr(1)));
    // the first step, cleared of its denominator
    let num = fr(8).plus(&gamma).plus(&beta).times(
        &fr(9).plus(&gamma).plus(&beta.times(&fr(5))),
    );
    let den = fr(8).plus(&gamma).plus(&beta.times(&permutations[0][0])).times(
        &fr(9).plus(&gamma).plus(&beta.times(&permutations[1][0])),
    );
    assert!(z[1].times(&den).equals(&num));
}

#[test]
fn a_column_is_placed_before_the_last_row() {
    assert!(same(&place_on_domain(&frs(&[7, 8]), 6), &frs(&[0, 0, 0, 7, 8, 0])));
    assert!(same(&place_on_domain::<F>(&vec![], 2), &frs(&[0, 0])));
}

#[test]
fn a_lookup_grand_product_ends_as_expected() {
    let (beta, gamma) = (fr(789), fr(1230));
    let t = frs(&[0, 0, 0, 3, 4]);
    let t_shifted = frs(&[0, 0, 3, 4, 0]);
    let s = frs(&[0, 0, 3, 4, 4]);
    let s_shifted = frs(&[0, 3, 4, 4, 0]);
    let f = frs(&[0, 4, 0, 0, 0]);
    let z = lookup_grand_product(&f, &t, &t_shifted, &s, &s_shifted, &beta, &gamma).unwrap();
    assert_eq!(z.len(), 6);
    assert!(z[0].equals(&fr(1)));
    let expected = expected_last_value(&beta, &gamma, 5);
    assert!(expected.equals(&fr(1230 * 790).power(5)));
    assert!(z[5].equals(&expected));
    let wrong = frs(&[0, 5, 0, 0, 0]);
    let z = lookup_grand_product(&wrong, &t, &t_shifted, &s, &s_shifted, &beta, &gamma).unwrap();
    assert!(!z[5].equals(&expected));
    let zero = lookup_grand_product(&f, &t, &t_shifted, &s, &s_shifted, &beta, &fr(0));
    assert_eq!(zero.err(), Some(SynthesisError::DivisionByZero));
}

#[test]
fn gates_contribute_their_equations() {
    let main = gate(GateKind::MainGateOfWidth4WithDNext, 1);
    let wires = vec![frs(&[2]), frs(&[3]), frs(&[5]), frs(&[7])];
    let setup = vec![frs(&[10]), frs(&[20]), frs(&[30]), frs(&[40]), frs(&[50]), frs(&[60])];
    let r = contribute_into_quotient_for_public_inputs(
        &main,
        &frs(&[1]),
        &wires,
        &frs(&[11]),
        &setup,
        &frs(&[2]),
    );
    // (1 + 20 + 60 + 150 + 280 + 300 + 660) * 2
    assert!(same(&r, &frs(&[2942])));
    let bit = gate(GateKind::TestBitGateOnA, 1);
    let r = test_bit_gate_contribute_into_quotient(&bit, &frs(&[0, 1, 5]), &frs(&[3]));
    assert!(same(&r, &frs(&[0, 0, 60])));
    assert_eq!(total_quotient_terms(&vec![main, gate(GateKind::TestBitGateOnA, 4)]), 5);
}

#[test]
fn a_remainder_makes_the_quotient_too_large() {
    let domain = Domain::<F>::new_for_size(2).unwrap();
    let big = Domain::<F>::new_for_size(8).unwrap();
    let on_coset = |poly: &Vec<F>| -> Vec<F> {
        (0..8)
            .map(|i| {
                let x = fr(7).times(&big.generator.power(bitreverse(i, 3) as u64));
                evaluate_at(poly, &x)
            })
            .collect()
    };
    // (x^2 - 1) (x + 2)
    let minus_one = fr(1).negated();
    let divisible = vec![fr(2).negated(), minus_one, fr(2), fr(1)];
    let parts = divide_by_vanishing(&on_coset(&divisible), &domain, &big, 4).unwrap();
    assert_eq!(parts.len(), 4);
    assert!(same(&parts[0], &frs(&[2, 1])));
    assert!(same(&parts[1], &frs(&[0, 0])));
    let indivisible = vec![fr(3), minus_one, fr(2), fr(1)];
    let r = divide_by_vanishing(&on_coset(&indivisible), &domain, &big, 4);
    assert_eq!(r.err(), Some(SynthesisError::Unsatisfiable));
}
