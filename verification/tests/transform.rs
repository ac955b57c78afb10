use mini_stark::field::Felt;
use mini_stark::number_theory_transform::{
    inverse_number_theory_transform, ntt, number_theory_transform,
};
use mini_stark::prover::ProvingError;

#[test]
fn test_number_theory_transform() {
    let primitive_root = Felt::get_root_of_unity(1).unwrap();

    println!(
        "{}, {}, {}, {}",
        primitive_root.value(),
        primitive_root.pow(2).value(),
        primitive_root.pow(3).value(),
        primitive_root.pow(4).value()
    );

    println!(
        "{:?}",
        number_theory_transform(&[Felt::zero(), Felt::one()])
    );
}

#[test]
fn transform_of_two_values() {
    let out = number_theory_transform(&[Felt::zero(), Felt::one()]).unwrap();
    assert_eq!(out, vec![Felt::one(), Felt::new(18446744069414584320)]);
}

#[test]
fn round_trip_of_eight_values() {
    let values: Vec<Felt> = (0u64..8).map(|i| Felt::new(i * i + 3)).collect();
    let there = number_theory_transform(&values).unwrap();
    let back = inverse_number_theory_transform(&there).unwrap();
    assert_eq!(back, values);
}

#[test]
fn transform_rejects_length_three() {
    let values = vec![Felt::one(), Felt::one(), Felt::one()];
    assert_eq!(number_theory_transform(&values), Err(ProvingError::InvalidInput));
    assert_eq!(ntt(Felt::one(), &values), Err(ProvingError::InvalidInput));
}

#[test]
fn ntt_returns_short_lists_unchanged() {
    // whatever the root
    assert_eq!(ntt(Felt::new(5), &[]), Ok(vec![]));
    assert_eq!(ntt(Felt::new(5), &[Felt::new(9)]), Ok(vec![Felt::new(9)]));
    assert_eq!(number_theory_transform(&[Felt::new(9)]), Ok(vec![Felt::new(9)]));
    assert_eq!(inverse_number_theory_transform(&[Felt::new(9)]), Ok(vec![Felt::new(9)]));
}

#[test]
fn transforms_reject_the_empty_list() {
    assert_eq!(number_theory_transform(&[]), Err(ProvingError::InvalidInput));
    assert_eq!(inverse_number_theory_transform(&[]), Err(ProvingError::InvalidInput));
}

#[test]
fn ntt_evaluates_at_the_powers_of_the_root() {
    // 1 + 2X + 3X^2 + 4X^3 at 1, w, w^2, w^3
    let values: Vec<Felt> = [1u64, 2, 3, 4].iter().map(|v| Felt::new(*v)).collect();
    let root = Felt::get_root_of_unity(2).unwrap();
    let out = ntt(root, &values).unwrap();
    for i in 0..4u64 {
        let x = root.pow(i);
        let expected = values
            .iter()
            .rev()
            .fold(Felt::zero(), |acc, c| acc.mul(x).add(*c));
        assert_eq!(out[i as usize], expected);
    }
    assert_eq!(out[0], Felt::new(10));
    assert_eq!(out, number_theory_transform(&values).unwrap());
}

#[test]
fn ntt_rejects_roots_that_are_not_primitive() {
    let values: Vec<Felt> = [1u64, 2, 3, 4].iter().map(|v| Felt::new(*v)).collect();
    // a root of order 2 for four values
    let square_root = Felt::get_root_of_unity(1).unwrap();
    assert_eq!(ntt(square_root, &values), Err(ProvingError::InvalidInput));
    // a root of order 8 for four values
    let eighth_root = Felt::get_root_of_unity(3).unwrap();
    assert_eq!(ntt(eighth_root, &values), Err(ProvingError::InvalidInput));
    // one
    assert_eq!(ntt(Felt::one(), &values), Err(ProvingError::InvalidInput));
    // the inverse of the fixed root is as good a root
    let inverse = Felt::get_root_of_unity(2).unwrap().inverse().unwrap();
    assert!(ntt(inverse, &values).is_ok());
}

#[test]
fn round_trip_of_many_lengths() {
    for k in 0..10u32 {
        let n = 1u64 << k;
        let values: Vec<Felt> = (0..n).map(|i| Felt::new(i.wrapping_mul(0x9E3779B97F4A7C15))).collect();
        let there = number_theory_transform(&values).unwrap();
        assert_eq!(inverse_number_theory_transform(&there).unwrap(), values);
        let back = inverse_number_theory_transform(&values).unwrap();
        assert_eq!(number_theory_transform(&back).unwrap(), values);
    }
}
