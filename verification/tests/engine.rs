// The digit algebra and the stream combinators, exercised directly.

use padic::discrete::{
    digit_inverse, is_prime_u8, AddGroupU8, BorrowingSub, CarryingAdd, Invertible, One,
    OverflowingMul, Value, Zero,
};
use padic::padic::{PadicAccessor, PadicError};
use padic::padic_lang::build_literal;
use padic::padic_primitive::{FinitePadicInteger, RepeatingPadicInteger};

#[test]
fn digit_constructors_respect_the_base() {
    assert!(AddGroupU8::new(7, 6).is_some());
    assert!(AddGroupU8::new(7, 7).is_none());
    assert!(AddGroupU8::new(0, 0).is_none());
    assert!(AddGroupU8::new_vec(7, vec![0, 3, 6]).is_some());
    assert!(AddGroupU8::new_vec(7, vec![0, 9]).is_none());
}

#[test]
fn digit_zero_and_one() {
    let z = <AddGroupU8 as Zero>::zero(7);
    assert!(z.is_zero());
    assert!(!z.is_one());
    let o = <AddGroupU8 as One>::one(7);
    assert!(o.is_one());
    assert!(!o.is_zero());
    let f = <AddGroupU8 as Value>::from_bool(7, true);
    assert!(f.is_one());
}

#[test]
fn digit_add_carry_wraps_on_the_base() {
    let a = AddGroupU8::new(7, 5).unwrap();
    let b = AddGroupU8::new(7, 4).unwrap();
    let (sum, carry) = a.add_carry(b);
    assert!(carry);
    assert!(sum == AddGroupU8::new(7, 2).unwrap());
    let c = AddGroupU8::new(7, 1).unwrap();
    let (sum2, carry2) = a.add_carry(c);
    assert!(!carry2);
    assert!(sum2 == AddGroupU8::new(7, 6).unwrap());
}

#[test]
fn digit_sub_borrow_wraps_on_the_base() {
    let a = AddGroupU8::new(7, 2).unwrap();
    let b = AddGroupU8::new(7, 5).unwrap();
    let (diff, borrow) = a.sub_borrow(b);
    assert!(borrow);
    assert!(diff == AddGroupU8::new(7, 4).unwrap());
    let (diff2, borrow2) = b.sub_borrow(a);
    assert!(!borrow2);
    assert!(diff2 == AddGroupU8::new(7, 3).unwrap());
}

#[test]
fn digit_mul_overflow_splits_into_two_digits() {
    let a = AddGroupU8::new(7, 5).unwrap();
    let b = AddGroupU8::new(7, 6).unwrap();
    let (lo, hi) = a.mul_overflow(b);
    // 30 = 4 * 7 + 2
    assert!(lo == AddGroupU8::new(7, 2).unwrap());
    assert!(hi == AddGroupU8::new(7, 4).unwrap());
}

#[test]
fn primality_and_inverses() {
    assert!(is_prime_u8(2));
    assert!(is_prime_u8(7));
    assert!(!is_prime_u8(0));
    assert!(!is_prime_u8(1));
    assert!(!is_prime_u8(6));
    assert!(<AddGroupU8 as Invertible>::is_invertible(7));
    assert!(!<AddGroupU8 as Invertible>::is_invertible(9));
    let three = AddGroupU8::new(7, 3).unwrap();
    let inv = three.inverse().unwrap();
    assert!(inv == AddGroupU8::new(7, 5).unwrap());
    assert_eq!(digit_inverse(7, 0), None);
    assert_eq!(digit_inverse(7, 2), Some(4));
}

#[test]
fn finite_literal_digits_and_scale() {
    let mut f = FinitePadicInteger::new_with_digits(7, vec![3, 2, 1]).unwrap();
    assert_eq!(f.get_scale(), 0);
    assert_eq!(f.get_digit(0), 3);
    assert_eq!(f.get_digit(1), 2);
    assert_eq!(f.get_digit(2), 1);
    assert_eq!(f.get_digit(3), 0);
    assert_eq!(f.get_digit(-1), 0);
    assert!(matches!(
        FinitePadicInteger::new_with_digits(7, vec![7]),
        Err(PadicError::DigitOutOfRange)
    ));
    assert!(matches!(FinitePadicInteger::new(0), Err(PadicError::TooSmallBase)));
}

#[test]
fn repeating_literal_digits() {
    let mut r = RepeatingPadicInteger::new_with_digits(7, vec![2, 1]).unwrap();
    assert_eq!(r.get_scale(), 0);
    assert_eq!(r.get_digit(0), 2);
    assert_eq!(r.get_digit(1), 1);
    assert_eq!(r.get_digit(2), 2);
    assert_eq!(r.get_digit(7), 1);
    assert_eq!(r.get_digit(-2), 0);
}

#[test]
fn literal_builder_plain_and_pure_repeat() {
    // no repetition: the reversed digits as a finite literal
    let mut built = build_literal(7, vec![1, 2, 3], 0, None).unwrap();
    let mut plain = FinitePadicInteger::new_with_digits(7, vec![3, 2, 1]).unwrap().to_dyn();
    for i in 0..6i64 {
        assert_eq!(built.get_digit(i), plain.get_digit(i));
    }
    // every digit repeating: the pure repeating literal
    let mut built2 = build_literal(7, vec![1, 2], 2, None).unwrap();
    let mut pure = RepeatingPadicInteger::new_with_digits(7, vec![2, 1]).unwrap().to_dyn();
    for i in 0..8i64 {
        assert_eq!(built2.get_digit(i), pure.get_digit(i));
    }
}

#[test]
fn literal_builder_mixed_repeat() {
    // "_123": the repeating one beyond the finite tail 23
    let mut built = build_literal(7, vec![1, 2, 3], 1, None).unwrap();
    assert_eq!(built.get_digit(0), 3);
    assert_eq!(built.get_digit(1), 2);
    for i in 2..8i64 {
        assert_eq!(built.get_digit(i), 1);
    }
}

#[test]
fn literal_builder_rejects_bad_input() {
    assert!(matches!(
        build_literal(7, vec![1, 9], 0, None),
        Err(PadicError::DigitOutOfRange)
    ));
    assert!(matches!(
        build_literal(7, vec![1, 2], 3, None),
        Err(PadicError::RepeatTooLong)
    ));
    assert!(matches!(build_literal(0, vec![], 0, None), Err(PadicError::TooSmallBase)));
}

#[test]
fn mismatched_bases_are_rejected() {
    let a = FinitePadicInteger::new_with_digits(3, vec![1]).unwrap().to_dyn();
    let b = FinitePadicInteger::new_with_digits(5, vec![1]).unwrap().to_dyn();
    assert!(matches!(a.add(b), Err(PadicError::MismatchedBase)));
    let a = FinitePadicInteger::new_with_digits(3, vec![1]).unwrap().to_dyn();
    let b = FinitePadicInteger::new_with_digits(5, vec![1]).unwrap().to_dyn();
    assert!(matches!(a.sub(b), Err(PadicError::MismatchedBase)));
    let a = FinitePadicInteger::new_with_digits(3, vec![1]).unwrap().to_dyn();
    let b = FinitePadicInteger::new_with_digits(5, vec![1]).unwrap().to_dyn();
    assert!(matches!(a.mul(b), Err(PadicError::MismatchedBase)));
    let a = FinitePadicInteger::new_with_digits(3, vec![1]).unwrap().to_dyn();
    let b = FinitePadicInteger::new_with_digits(5, vec![1]).unwrap().to_dyn();
    assert!(matches!(a.div(b), Err(PadicError::MismatchedBase)));
}

#[test]
fn division_requires_a_prime_base() {
    let a = FinitePadicInteger::new_with_digits(4, vec![1]).unwrap().to_dyn();
    let b = FinitePadicInteger::new_with_digits(4, vec![3]).unwrap().to_dyn();
    assert!(matches!(a.div(b), Err(PadicError::NotInvertible)));
}

#[test]
fn division_by_the_zero_stream_is_reported() {
    let a = FinitePadicInteger::new_with_digits(3, vec![1]).unwrap().to_dyn();
    let b = FinitePadicInteger::new_with_digits(3, vec![0]).unwrap().to_dyn();
    assert!(matches!(a.div(b), Err(PadicError::DivisionByZero)));
}

#[test]
fn division_by_a_shifted_unit_moves_the_scale() {
    // dividing by p itself: scale moves to minus one
    let a = FinitePadicInteger::new_with_digits(3, vec![1, 1]).unwrap().to_dyn();
    let b = FinitePadicInteger::new_with_digits(3, vec![0, 1]).unwrap().to_dyn();
    let mut q = a.div(b).unwrap();
    assert_eq!(q.get_scale(), -1);
    assert_eq!(q.get_digit(-1), 1);
    assert_eq!(q.get_digit(0), 1);
    assert_eq!(q.get_digit(1), 0);
}

#[test]
fn addition_normalizes_leading_zeros() {
    // 1 + (p - 1) = p: the units digit cancels and the scale moves up
    let a = FinitePadicInteger::new_with_digits(7, vec![1]).unwrap().to_dyn();
    let b = FinitePadicInteger::new_with_digits(7, vec![6]).unwrap().to_dyn();
    let mut s = a.add(b).unwrap();
    assert_eq!(s.get_scale(), 1);
    assert_eq!(s.get_digit(0), 0);
    assert_eq!(s.get_digit(1), 1);
}

#[test]
fn repeated_queries_are_stable_and_cached() {
    let a = RepeatingPadicInteger::new_with_digits(7, vec![3]).unwrap().to_dyn();
    let b = FinitePadicInteger::new_with_digits(7, vec![4, 1]).unwrap().to_dyn();
    let mut s = a.add(b).unwrap();
    let first = s.get_digit(5);
    let again = s.get_digit(5);
    assert_eq!(first, again);
    let low = s.get_digit(0);
    assert_eq!(low, s.get_digit(0));
}
