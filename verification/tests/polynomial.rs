use mini_stark::field::Felt;
use mini_stark::multivariate::MultivariatePolynomial;
use mini_stark::number_theory_transform::fast_evaluate_symbolic;
use mini_stark::polynomial::{copy_elements, zeros, Polynomial};
use mini_stark::prover::ProvingError;

const P: u64 = 18446744069414584321;

fn poly(coefficients: &[u64]) -> Polynomial {
    Polynomial::new(coefficients.iter().map(|c| Felt::new(*c)).collect())
}

fn felts(values: &[u64]) -> Vec<Felt> {
    values.iter().map(|c| Felt::new(*c)).collect()
}

#[test]
fn degree_of_polynomials() {
    assert_eq!(poly(&[]).degree(), None);
    assert_eq!(poly(&[0, 0, 0]).degree(), None);
    assert_eq!(poly(&[5]).degree(), Some(0));
    assert_eq!(poly(&[0, 1, 0, 0]).degree(), Some(1));
    assert_eq!(poly(&[1, 2, 3]).degree(), Some(2));
    assert!(poly(&[0, 0]).is_zero());
    assert!(!poly(&[0, 1]).is_zero());
}

#[test]
fn evaluate_exact_values() {
    // 1 + 2X + 3X^2 at 5: 1 + 10 + 75
    assert_eq!(poly(&[1, 2, 3]).evaluate(Felt::new(5)), Felt::new(86));
    assert_eq!(poly(&[]).evaluate(Felt::new(5)), Felt::zero());
    assert_eq!(poly(&[9]).evaluate(Felt::new(5)), Felt::new(9));
    // X at -1
    assert_eq!(poly(&[0, 1]).evaluate(Felt::new(P - 1)), Felt::new(P - 1));
}

#[test]
fn scale_multiplies_coefficient_by_power() {
    // P(2X) for 1 + X + X^2 + X^3
    assert_eq!(poly(&[1, 1, 1, 1]).scale(Felt::new(2)).coefficients, felts(&[1, 2, 4, 8]));
    let p = poly(&[3, 0, 7, 11]);
    let s = Felt::new(12345);
    let x = Felt::new(678);
    assert_eq!(p.scale(s).evaluate(x), p.evaluate(s.mul(x)));
}

#[test]
fn sum_and_difference() {
    let a = poly(&[1, 2]);
    let b = poly(&[5, 6, 7]);
    assert_eq!(a.add(&b).coefficients, felts(&[6, 8, 7]));
    assert_eq!(b.sub(&a).coefficients, felts(&[4, 4, 7]));
    assert_eq!(a.sub(&b).coefficients, felts(&[P - 4, P - 4, P - 7]));
}

#[test]
fn product_by_convolution() {
    // (1 + X)(1 - X) = 1 - X^2
    assert_eq!(poly(&[1, 1]).mul(&poly(&[1, P - 1])).coefficients, felts(&[1, 0, P - 1]));
    // trailing zeros are carried through
    assert_eq!(poly(&[1, 1, 0]).mul(&poly(&[2])).coefficients, felts(&[2, 2, 0]));
    assert!(poly(&[1, 1]).mul(&poly(&[0])).coefficients.is_empty());
}

#[test]
fn division_with_remainder() {
    // X^3 + 2X + 5 = (X + 1)(X^2 - X + 3) + 2
    let a = poly(&[5, 2, 0, 1]);
    let b = poly(&[1, 1]);
    let (q, r) = a.divide(&b).unwrap();
    assert_eq!(q.coefficients, felts(&[3, P - 1, 1]));
    assert_eq!(r.coefficients, felts(&[2]));
    // a divisor of larger degree: the quotient is empty
    let (q, r) = b.divide(&a).unwrap();
    assert!(q.coefficients.is_empty());
    assert_eq!(r.coefficients, felts(&[1, 1, 0]));
    // division by zero
    assert!(a.divide(&poly(&[0, 0])).is_none());
    // a divisor that is not monic
    let b = poly(&[4, 3]);
    let (q, r) = a.divide(&b).unwrap();
    assert_eq!(q.mul(&b).add(&r).coefficients[..4], a.coefficients[..]);
}

#[test]
fn copies_and_zeros() {
    let values = felts(&[1, 2, 3]);
    assert_eq!(copy_elements(&values), values);
    assert_eq!(zeros(3), felts(&[0, 0, 0]));
    let p = poly(&[1, 2, 3]);
    assert_eq!(p.clone().coefficients, p.coefficients);
}

#[test]
fn multivariate_evaluate_exact_value() {
    // 3 x0^2 x1 + 5 x1 + 7 at (2, 10): 120 + 50 + 7
    let m = MultivariatePolynomial::new(
        vec![vec![2, 1], vec![0, 1], vec![]],
        felts(&[3, 5, 7]),
    );
    assert_eq!(m.term_count(), 3);
    assert_eq!(m.evaluate(&felts(&[2, 10])), Ok(Felt::new(177)));
    // more values than variables are no fault
    assert_eq!(m.evaluate(&felts(&[2, 10, 99])), Ok(Felt::new(177)));
    // a variable without a value is
    assert_eq!(m.evaluate(&felts(&[2])), Err(ProvingError::InvalidInput));
}

#[test]
fn symbolic_degree_bound_exact_values() {
    // 3 x0^2 x1 + 5 x1 + 7 with bounds (4, 10): max(2 * 4 + 10, 10, 0)
    let m = MultivariatePolynomial::new(
        vec![vec![2, 1], vec![0, 1], vec![]],
        felts(&[3, 5, 7]),
    );
    assert_eq!(m.symbolic_degree_bound(&[4, 10]), 18);
    // a term with coefficient zero does not count
    let m = MultivariatePolynomial::new(vec![vec![9, 9], vec![1, 0]], felts(&[0, 1]));
    assert_eq!(m.symbolic_degree_bound(&[4, 10]), 4);
    // no term at all
    let m = MultivariatePolynomial::new(vec![], vec![]);
    assert_eq!(m.symbolic_degree_bound(&[4, 10]), 0);
    // the bound is capped at the largest machine word
    let m = MultivariatePolynomial::new(vec![vec![u64::MAX, 2]], felts(&[1]));
    assert_eq!(m.symbolic_degree_bound(&[usize::MAX, 3]), usize::MAX);
}

#[test]
fn symbolic_evaluation_substitutes_polynomials() {
    // 3 x0^2 x1 + 5 x1 + 7 with x0 = 1 + X and x1 = X
    let m = MultivariatePolynomial::new(
        vec![vec![2, 1], vec![0, 1], vec![]],
        felts(&[3, 5, 7]),
    );
    let point = vec![poly(&[1, 1]), poly(&[0, 1])];
    let root = Felt::get_root_of_unity(3).unwrap();
    let value = fast_evaluate_symbolic(&m, &point, root, 8).unwrap();
    // 3 (1 + X)^2 X + 5 X + 7 = 7 + 8 X + 6 X^2 + 3 X^3
    assert_eq!(value.coefficients[..4], felts(&[7, 8, 6, 3])[..]);
    for x in [0u64, 1, 2, 12345] {
        let x = Felt::new(x);
        let expected = m.evaluate(&[point[0].evaluate(x), point[1].evaluate(x)]).unwrap();
        assert_eq!(value.evaluate(x), expected);
    }
    // a variable without a polynomial
    assert_eq!(
        fast_evaluate_symbolic(&m, &point[..1], root, 8).map(|p| p.coefficients),
        Err(ProvingError::InvalidInput)
    );
}

#[test]
fn variable_count_is_the_longest_term() {
    let m = MultivariatePolynomial::new(
        vec![vec![2, 1], vec![0, 1, 4], vec![]],
        felts(&[3, 5, 7]),
    );
    assert_eq!(m.variable_count(), 3);
    assert_eq!(MultivariatePolynomial::new(vec![], vec![]).variable_count(), 0);
    // a list of exponents without a coefficient is no term
    let m = MultivariatePolynomial::new(vec![vec![1], vec![1, 1, 1, 1]], felts(&[3]));
    assert_eq!(m.variable_count(), 1);
}
