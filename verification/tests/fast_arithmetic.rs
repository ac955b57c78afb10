use mini_stark::field::Felt;
use mini_stark::number_theory_transform::{
    fast_coset_divide, fast_coset_evaluate, fast_multiply,
};
use mini_stark::polynomial::Polynomial;
use mini_stark::prover::ProvingError;

fn poly(coefficients: &[u64]) -> Polynomial {
    Polynomial::new(coefficients.iter().map(|c| Felt::new(*c)).collect())
}

/// A polynomial of the given degree with coefficients that follow no
/// pattern.
fn sample(degree: usize, seed: u64) -> Polynomial {
    let mut state = seed;
    let mut coefficients = Vec::new();
    for _ in 0..=degree {
        state = state.wrapping_mul(6364136223846793005).wrapping_add(1442695040888963407);
        coefficients.push(Felt::new(state >> 3));
    }
    if coefficients[degree].is_zero() {
        coefficients[degree] = Felt::one();
    }
    Polynomial::new(coefficients)
}

/// Whether two polynomials have the same coefficients, trailing zeros
/// aside.
fn same(a: &Polynomial, b: &Polynomial) -> bool {
    let n = a.coefficients.len().max(b.coefficients.len());
    (0..n).all(|k| {
        let x = a.coefficients.get(k).copied().unwrap_or(Felt::zero());
        let y = b.coefficients.get(k).copied().unwrap_or(Felt::zero());
        x == y
    })
}

#[test]
fn fast_multiply_below_threshold_is_schoolbook() {
    let a = sample(3, 1);
    let b = sample(4, 2);
    let product = fast_multiply(&a, &b).unwrap();
    assert!(same(&product, &a.mul(&b)));
    assert_eq!(product.coefficients.len(), 8);
}

#[test]
fn fast_multiply_above_threshold_is_schoolbook() {
    for (da, db) in [(4usize, 5usize), (9, 3), (10, 13), (20, 17), (33, 30)] {
        let a = sample(da, 3 + da as u64);
        let b = sample(db, 5 + db as u64);
        let product = fast_multiply(&a, &b).unwrap();
        assert!(same(&product, &a.mul(&b)));
        assert_eq!(product.coefficients.len(), (da + db).next_power_of_two());
    }
}

#[test]
fn fast_multiply_small_exact_value() {
    // (1 + 2x)(3 + x) = 3 + 7x + 2x^2
    let product = fast_multiply(&poly(&[1, 2]), &poly(&[3, 1])).unwrap();
    assert_eq!(product.coefficients, poly(&[3, 7, 2]).coefficients);
}

#[test]
fn fast_multiply_by_zero_is_empty() {
    let a = sample(12, 9);
    assert!(fast_multiply(&a, &poly(&[0, 0])).unwrap().coefficients.is_empty());
    assert!(fast_multiply(&poly(&[]), &a).unwrap().coefficients.is_empty());
}

#[test]
fn fast_multiply_ignores_trailing_zeros() {
    let a = sample(9, 11);
    let b = sample(6, 12);
    let mut padded = a.coefficients.clone();
    padded.extend(vec![Felt::zero(); 40]);
    let product = fast_multiply(&Polynomial::new(padded), &b).unwrap();
    assert!(same(&product, &a.mul(&b)));
}

#[test]
fn fast_multiply_wraps_when_degrees_add_to_a_power_of_two() {
    // x^4 * x^4 = x^8 over a transform of length 8: the leading
    // coefficient comes back as the constant term
    let x4 = poly(&[0, 0, 0, 0, 1]);
    let product = fast_multiply(&x4, &x4).unwrap();
    assert_eq!(product.coefficients, poly(&[1, 0, 0, 0, 0, 0, 0, 0]).coefficients);
}

#[test]
fn fast_multiply_rejects_an_operand_longer_than_the_transform() {
    let a = sample(8, 4);
    let b = poly(&[5]);
    assert_eq!(fast_multiply(&a, &b).map(|p| p.coefficients), Err(ProvingError::InvalidInput));
}

#[test]
fn coset_evaluate_gives_the_values_on_the_coset() {
    let p = sample(5, 21);
    let offset = Felt::generator();
    let values = fast_coset_evaluate(&p, offset, 8).unwrap();
    let omega = Felt::get_root_of_unity(3).unwrap();
    assert_eq!(values.len(), 8);
    for i in 0..8u64 {
        assert_eq!(values[i as usize], p.evaluate(offset.mul(omega.pow(i))));
    }
}

#[test]
fn coset_evaluate_rejects_an_order_that_is_no_power_of_two() {
    let p = sample(3, 2);
    assert_eq!(fast_coset_evaluate(&p, Felt::generator(), 6), Err(ProvingError::InvalidInput));
}

#[test]
fn coset_divide_recovers_the_quotient_below_threshold() {
    let q = sample(3, 31);
    let b = sample(2, 32);
    let a = q.mul(&b);
    let root = Felt::get_root_of_unity(4).unwrap();
    let result = fast_coset_divide(&a, &b, Felt::generator(), root, 16).unwrap();
    assert!(same(&result, &q));
}

#[test]
fn coset_divide_recovers_the_quotient_above_threshold() {
    for (dq, db) in [(6usize, 5usize), (12, 1), (3, 20), (31, 9)] {
        let q = sample(dq, 41 + dq as u64);
        let b = sample(db, 43 + db as u64);
        let a = q.mul(&b);
        let root = Felt::get_root_of_unity(7).unwrap();
        let result = fast_coset_divide(&a, &b, Felt::generator(), root, 128).unwrap();
        assert!(same(&result, &q));
    }
}

#[test]
fn coset_divide_rejects_bad_arguments() {
    let q = sample(9, 1);
    let b = sample(3, 2);
    let a = q.mul(&b);
    let root = Felt::get_root_of_unity(5).unwrap();
    let g = Felt::generator();
    // a root of smaller order than stated
    let small = Felt::get_root_of_unity(4).unwrap();
    assert_eq!(
        fast_coset_divide(&a, &b, g, small, 32).map(|p| p.coefficients),
        Err(ProvingError::InvalidInput)
    );
    // the zero divisor
    assert_eq!(
        fast_coset_divide(&a, &poly(&[0]), g, root, 32).map(|p| p.coefficients),
        Err(ProvingError::InvalidInput)
    );
    // a divisor of larger degree
    assert_eq!(
        fast_coset_divide(&b, &a, g, root, 32).map(|p| p.coefficients),
        Err(ProvingError::InvalidInput)
    );
    // an order that does not exceed the degree
    let root8 = Felt::get_root_of_unity(3).unwrap();
    assert_eq!(
        fast_coset_divide(&a, &b, g, root8, 8).map(|p| p.coefficients),
        Err(ProvingError::InvalidInput)
    );
    // the quotient of zero is zero
    assert!(fast_coset_divide(&poly(&[]), &b, g, root, 32).unwrap().coefficients.is_empty());
}

#[test]
fn coset_divide_reports_a_divisor_that_vanishes_on_the_coset() {
    // the divisor X - 1 vanishes at the first point of the coset by 1
    let b = poly(&[18446744069414584320, 1]);
    let q = sample(9, 77);
    let a = q.mul(&b);
    let root = Felt::get_root_of_unity(4).unwrap();
    assert_eq!(
        fast_coset_divide(&a, &b, Felt::one(), root, 16).map(|p| p.coefficients),
        Err(ProvingError::DivisionByZero)
    );
    // and so does every divisor under the offset zero
    assert_eq!(
        fast_coset_divide(&a, &sample(2, 5), Felt::zero(), root, 16).map(|p| p.coefficients),
        Err(ProvingError::DivisionByZero)
    );
}
