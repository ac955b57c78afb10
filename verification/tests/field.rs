use mini_stark::field::{batch_inverse, invert_all, Felt, GENERATOR, MODULUS, TWO_ADICITY, TWO_ADIC_ROOT};
use mini_stark::prover::ProvingError;

#[test]
fn new_reduces_modulo_the_modulus() {
    assert_eq!(MODULUS, 18446744069414584321);
    assert_eq!(Felt::new(MODULUS).value(), 0);
    assert_eq!(Felt::new(MODULUS + 5).value(), 5);
    assert_eq!(Felt::new(u64::MAX).value(), 4294967294);
    assert_eq!(Felt::new(7).value(), 7);
}

#[test]
fn addition_wraps_at_the_modulus() {
    let a = Felt::new(MODULUS - 1);
    assert_eq!(a.add(Felt::new(1)), Felt::zero());
    assert_eq!(a.add(a), Felt::new(MODULUS - 2));
    assert_eq!(Felt::new(3).add(Felt::new(4)), Felt::new(7));
}

#[test]
fn subtraction_and_negation() {
    assert_eq!(Felt::new(3).sub(Felt::new(5)), Felt::new(MODULUS - 2));
    assert_eq!(Felt::new(5).sub(Felt::new(3)), Felt::new(2));
    assert_eq!(Felt::new(5).neg(), Felt::new(MODULUS - 5));
    assert_eq!(Felt::zero().neg(), Felt::zero());
}

#[test]
fn multiplication_exact_values() {
    // 2^32 * 2^32 = 2^64 = 2^32 - 1 modulo 2^64 - 2^32 + 1
    let x = Felt::new(1 << 32);
    assert_eq!(x.mul(x), Felt::new((1 << 32) - 1));
    assert_eq!(x.square(), Felt::new((1 << 32) - 1));
    // (-1) * (-1) = 1
    let minus_one = Felt::new(MODULUS - 1);
    assert_eq!(minus_one.mul(minus_one), Felt::one());
    assert_eq!(Felt::new(6).mul(Felt::new(7)), Felt::new(42));
}

#[test]
fn powers_exact_values() {
    assert_eq!(Felt::new(2).pow(10), Felt::new(1024));
    assert_eq!(Felt::new(2).pow(64), Felt::new((1 << 32) - 1));
    assert_eq!(Felt::new(5).pow(0), Felt::one());
    assert_eq!(Felt::zero().pow(0), Felt::one());
    assert_eq!(Felt::zero().pow(3), Felt::zero());
    // Fermat: a^(p - 1) = 1
    assert_eq!(Felt::new(123456789).pow(MODULUS - 1), Felt::one());
}

#[test]
fn inverse_is_the_inverse() {
    assert_eq!(Felt::zero().inverse(), None);
    assert_eq!(Felt::one().inverse(), Some(Felt::one()));
    // 2 * (p + 1) / 2 = 1
    assert_eq!(Felt::new(2).inverse(), Some(Felt::new(9223372034707292161)));
    for v in [2u64, 3, 7, 1 << 32, MODULUS - 1, 1234567890123456789] {
        let x = Felt::new(v);
        let y = x.inverse().unwrap();
        assert_eq!(x.mul(y), Felt::one());
        assert_eq!(y, x.pow(MODULUS - 2));
    }
}

#[test]
fn generator_is_seven() {
    assert_eq!(GENERATOR, 7);
    assert_eq!(Felt::generator(), Felt::new(7));
    // the generator is no square: its (p - 1) / 2-th power is -1
    assert_eq!(Felt::generator().pow((MODULUS - 1) / 2), Felt::new(MODULUS - 1));
}

#[test]
fn roots_of_unity_have_their_order() {
    assert_eq!(TWO_ADICITY, 32);
    assert_eq!(Felt::get_root_of_unity(32), Some(Felt::new(TWO_ADIC_ROOT)));
    assert_eq!(Felt::new(TWO_ADIC_ROOT), Felt::generator().pow((1 << 32) - 1));
    assert_eq!(Felt::get_root_of_unity(0), Some(Felt::one()));
    assert_eq!(Felt::get_root_of_unity(1), Some(Felt::new(MODULUS - 1)));
    assert_eq!(Felt::get_root_of_unity(33), None);
    for k in 1..=32u32 {
        let w = Felt::get_root_of_unity(k).unwrap();
        assert_eq!(w.pow(1 << k), Felt::one());
        assert_eq!(w.pow(1 << (k - 1)), Felt::new(MODULUS - 1));
    }
}

#[test]
fn equality_of_elements() {
    assert!(Felt::new(5).equals(&Felt::new(MODULUS + 5)));
    assert!(!Felt::new(5).equals(&Felt::new(6)));
    assert!(Felt::new(MODULUS).is_zero());
    assert!(!Felt::one().is_zero());
}

#[test]
fn batch_inverse_inverts_slot_by_slot() {
    let values: Vec<Felt> =
        [3u64, 0, 5, 1, 0, MODULUS - 1, 1 << 40].iter().map(|v| Felt::new(*v)).collect();
    let inverses = batch_inverse(&values);
    assert_eq!(inverses.len(), values.len());
    for (value, inverse) in values.iter().zip(inverses.iter()) {
        assert_eq!(*inverse, value.inverse());
    }
    assert_eq!(inverses[1], None);
    assert_eq!(inverses[3], Some(Felt::one()));
    assert!(batch_inverse(&[]).is_empty());
    assert_eq!(batch_inverse(&[Felt::zero()]), vec![None]);
}

#[test]
fn invert_all_rejects_a_zero() {
    let values: Vec<Felt> = [3u64, 4, 5].iter().map(|v| Felt::new(*v)).collect();
    let inverses = invert_all(&values).unwrap();
    for (value, inverse) in values.iter().zip(inverses.iter()) {
        assert_eq!(value.mul(*inverse), Felt::one());
    }
    let with_zero: Vec<Felt> = [3u64, 0, 5].iter().map(|v| Felt::new(*v)).collect();
    assert_eq!(invert_all(&with_zero), Err(ProvingError::DivisionByZero));
}
