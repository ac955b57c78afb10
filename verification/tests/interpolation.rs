use mini_stark::field::Felt;
use mini_stark::number_theory_transform::{fast_evaluate_domain, fast_interpolate, fast_zerofier};
use mini_stark::polynomial::Polynomial;
use mini_stark::prover::ProvingError;

const P: u64 = 18446744069414584321;

fn points(n: u64, seed: u64) -> Vec<Felt> {
    // distinct: consecutive powers of the generator, from an offset on
    (0..n).map(|i| Felt::generator().pow(seed + i)).collect()
}

fn values(n: u64, seed: u64) -> Vec<Felt> {
    let mut state = seed;
    (0..n)
        .map(|_| {
            state = state.wrapping_mul(6364136223846793005).wrapping_add(1442695040888963407);
            Felt::new(state >> 2)
        })
        .collect()
}

#[test]
fn zerofier_of_empty_domain_is_constant_zero() {
    let z = fast_zerofier(&[]).unwrap();
    assert_eq!(z.coefficients, vec![Felt::zero()]);
}

#[test]
fn zerofier_of_one_point_is_linear() {
    let z = fast_zerofier(&[Felt::new(5)]).unwrap();
    assert_eq!(z.coefficients, vec![Felt::new(P - 5), Felt::one()]);
}

#[test]
fn zerofier_of_two_points_exact_value() {
    // (X - 2)(X - 3) = 6 - 5X + X^2
    let z = fast_zerofier(&[Felt::new(2), Felt::new(3)]).unwrap();
    assert_eq!(z.coefficients, vec![Felt::new(6), Felt::new(P - 5), Felt::one()]);
}

#[test]
fn zerofier_vanishes_on_its_domain_only() {
    for n in [1u64, 2, 3, 5, 7, 9, 10, 11, 12, 13, 14, 18, 19, 20, 25] {
        let domain = points(n, 100);
        let z = fast_zerofier(&domain).unwrap();
        for d in &domain {
            assert_eq!(z.evaluate(*d), Felt::zero());
        }
        // points outside the domain
        for x in points(4, 1000) {
            assert_ne!(z.evaluate(x), Felt::zero());
        }
        assert_eq!(z.degree(), Some(n as usize));
        assert_eq!(z.coefficients[n as usize], Felt::one());
    }
}

#[test]
fn zerofier_of_eight_points_wraps() {
    // the two halves have degree 4 each: the product is computed over a
    // transform of length 8 and loses its leading term
    let domain = points(8, 3);
    let z = fast_zerofier(&domain).unwrap();
    assert_eq!(z.coefficients.len(), 8);
}

#[test]
fn evaluate_domain_gives_the_values() {
    let polynomial = Polynomial::new(values(12, 7));
    for n in [0u64, 1, 2, 3, 6, 7, 11, 13] {
        let domain = points(n, 50);
        let out = fast_evaluate_domain(&polynomial, &domain).unwrap();
        assert_eq!(out.len(), n as usize);
        for i in 0..n as usize {
            assert_eq!(out[i], polynomial.evaluate(domain[i]));
        }
    }
}

#[test]
fn interpolate_degenerate_domains() {
    assert!(fast_interpolate(&[], &[]).unwrap().coefficients.is_empty());
    let constant = fast_interpolate(&[Felt::new(9)], &[Felt::new(4)]).unwrap();
    assert_eq!(constant.coefficients, vec![Felt::new(4)]);
}

#[test]
fn interpolate_two_points_exact_value() {
    // through (1, 3) and (2, 5): 1 + 2X
    let p = fast_interpolate(&[Felt::new(1), Felt::new(2)], &[Felt::new(3), Felt::new(5)]).unwrap();
    assert_eq!(p.evaluate(Felt::new(1)), Felt::new(3));
    assert_eq!(p.evaluate(Felt::new(2)), Felt::new(5));
    assert_eq!(p.evaluate(Felt::new(0)), Felt::new(1));
    assert_eq!(p.evaluate(Felt::new(10)), Felt::new(21));
}

#[test]
fn interpolate_round_trip() {
    for n in [1u64, 2, 3, 4, 5, 6, 7, 8, 10, 11, 12] {
        let domain = points(n, 20);
        let targets = values(n, n);
        let p = fast_interpolate(&domain, &targets).unwrap();
        for i in 0..n as usize {
            assert_eq!(p.evaluate(domain[i]), targets[i]);
        }
    }
}

#[test]
fn interpolate_rejects_lists_of_different_lengths() {
    let domain = points(3, 1);
    let targets = values(2, 1);
    assert_eq!(
        fast_interpolate(&domain, &targets).map(|p| p.coefficients),
        Err(ProvingError::InvalidInput)
    );
}

#[test]
fn interpolate_reports_a_repeated_point() {
    let domain = vec![Felt::new(1), Felt::new(2), Felt::new(1), Felt::new(3)];
    let targets = values(4, 1);
    assert_eq!(
        fast_interpolate(&domain, &targets).map(|p| p.coefficients),
        Err(ProvingError::DivisionByZero)
    );
}

#[test]
fn interpolate_over_nine_points_wraps() {
    // the interpolant of the first four points has degree 3 and the
    // zerofier of the other five degree 5: their product is computed over
    // a transform of length 8 and loses its leading term
    let domain = points(9, 20);
    let targets = values(9, 9);
    let p = fast_interpolate(&domain, &targets).unwrap();
    assert_eq!(p.coefficients.len(), 8);
}
