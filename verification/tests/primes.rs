use num_bigint::BigInt;
use num_iter::range_inclusive;
use num_traits::{One, Zero};
use protohackers::integers::Integer;
use protohackers::primes::{answer, deserialise_big_int, is_prime, validate_request, Answer, Parsed, Request};

fn integer(text: &str) -> Integer {
    match deserialise_big_int(text) {
        Parsed::Whole(n) => n,
        other => panic!("{text} is no integer: {other:?}"),
    }
}

fn request(method: &str, number: Option<Integer>) -> Request {
    Request {
        method: method.to_owned(),
        number,
    }
}

#[test]
fn small_primes_are_found() {
    let primes: Vec<u32> = (0..60).filter(|n| is_prime(integer(&n.to_string()))).collect();
    assert_eq!(
        primes,
        vec![2, 3, 5, 7, 11, 13, 17, 19, 23, 29, 31, 37, 41, 43, 47, 53, 59]
    );
}

#[test]
fn primes_are_those_of_trial_division() {
    for n in -3..300i64 {
        let big = BigInt::from(n);
        let divided = range_inclusive(BigInt::from(2), &big - BigInt::one())
            .any(|candidate| (&big % candidate).is_zero());
        assert_eq!(
            is_prime(integer(&n.to_string())),
            big > BigInt::one() && !divided,
            "{n}"
        );
    }
}

#[test]
fn squares_of_primes_are_not_prime() {
    for n in [4, 9, 25, 49, 961, 10201] {
        assert!(!is_prime(integer(&n.to_string())));
    }
}

#[test]
fn negative_numbers_are_not_prime() {
    assert!(!is_prime(integer("-7")));
    assert!(!is_prime(integer("-0")));
    assert!(!is_prime(integer("0")));
    assert!(!is_prime(integer("1")));
}

#[test]
fn numbers_may_be_beyond_machine_words() {
    assert!(is_prime(integer("4294967291")));
    assert!(is_prime(integer("4294967311")));
    assert!(!is_prime(integer("340282366920938463463374607431768211456")));
    assert!(!is_prime(integer("1000000000000000000000000000000000000000000000000000005")));
}

#[test]
fn integers_have_a_sign_and_a_magnitude() {
    assert_eq!(integer("0"), Integer { negative: false, magnitude: vec![] });
    assert_eq!(integer("-0"), Integer { negative: false, magnitude: vec![] });
    assert_eq!(integer("-5"), Integer { negative: true, magnitude: vec![5] });
    assert_eq!(integer("007"), Integer { negative: false, magnitude: vec![7] });
    assert_eq!(integer("4294967296"), Integer { negative: false, magnitude: vec![0, 1] });
    assert_eq!(
        integer("-18446744073709551617"),
        Integer { negative: true, magnitude: vec![1, 0, 1] }
    );
}

#[test]
fn zeros_behind_the_point_make_no_other_number() {
    assert_eq!(integer("7.0"), integer("7"));
    assert_eq!(integer("-7.000000000000000000000000000000"), integer("-7"));
}

#[test]
fn other_numbers_are_broken() {
    for text in ["7.5", "7.", "0.1", "-1.01", "3.99999999999999999999", "5.00000000001"] {
        assert_eq!(deserialise_big_int(text), Parsed::Broken, "{text}");
    }
}

#[test]
fn other_texts_are_unreadable() {
    for text in ["", "-", ".", ".5", "1e5", "1E+5", "+1", "1.5e3", " 1", "1\n", "1.0.0", "--1"] {
        assert_eq!(deserialise_big_int(text), Parsed::Unreadable, "{text:?}");
    }
}

#[test]
fn only_one_method_is_known() {
    assert!(validate_request(Some(request("isPrime", None))).is_some());
    assert!(validate_request(Some(request("isprime", None))).is_none());
    assert!(validate_request(Some(request("", None))).is_none());
    assert!(validate_request(None).is_none());
}

#[test]
fn requests_are_answered() {
    assert_eq!(answer(Some(request("isPrime", Some(integer("7"))))), Answer::Prime(true));
    assert_eq!(answer(Some(request("isPrime", Some(integer("8"))))), Answer::Prime(false));
    assert_eq!(answer(Some(request("isPrime", None))), Answer::Prime(false));
    assert_eq!(answer(Some(request("isOdd", Some(integer("7"))))), Answer::Malformed);
    assert_eq!(answer(None), Answer::Malformed);
}
