use biguint::BigUint;
use biguint::ParseError;

#[test]
fn validate2() {
    let bigint = BigUint::from_hex_string("abcde1234abfa".to_string()).unwrap();
    let _ = bigint;
}

#[test]
fn assert_equality() {
    let hex_strings = vec![
        "abcde1234abfa",
        "86e961e7511699fb856888b52ee3f3858ff9fe5c2fa576a210fbb25d556",
        "d68b84131cb92d63a1d58dc18fb1661c5fb14bb183b7e3d29fefc6b34aa6",
    ];

    for i in hex_strings {
        let big_num = BigUint::from_hex_string(i.to_string().clone()).unwrap();
        assert_eq!(i, big_num.to_hex_string());
    }
}

#[test]
fn assert_addition() {
    let first = BigUint::from_hex_string(
        "86e961e7511699fb856888b52ee3f3858ff9fe5c2fa576a210fbb25d556".to_string(),
    )
    .unwrap();
    let second = BigUint::from_hex_string(
        "d68b84131cb92d63a1d58dc18fb1661c5fb14bb183b7e3d29fefc6b34aa6".to_string(),
    )
    .unwrap();

    assert_eq!(
        first.add(second).to_hex_string(),
        "defa1a3191ca97035a2c164ce29fa554b8b0eb9746b23b3cc0ff81d91ffc"
    )
}

#[test]
fn assert_multiplication() {
    let first = BigUint::from_hex_string(
        "86e961e7511699fb856888b52ee3f3858ff9fe5c2fa576a210fbb25d556".to_string(),
    )
    .unwrap();
    let second = BigUint::from_hex_string(
        "d68b84131cb92d63a1d58dc18fb1661c5fb14bb183b7e3d29fefc6b34aa6".to_string(),
    )
    .unwrap();

    assert_eq!(
        first.multiply(second).to_hex_string(),
        "71109e29ef5293411df1d9d6170aefbd32189914b0e5ceda8a6e9d3baf30492d5d793498d9003cf39f7fb006d5e04f37d2436fb1f7db00af95531c4"
    )
}

#[test]
fn rejects_non_hex_text() {
    let r = BigUint::from_hex_string("ololo".to_string());
    assert!(r.is_err());
    assert_eq!(r.unwrap_err(), ParseError::InvalidFormat);
}

#[test]
fn rejects_leading_zero() {
    let r = BigUint::from_hex_string("0abcde123456f".to_string());
    assert!(r.is_err());
    assert_eq!(r.unwrap_err(), ParseError::InvalidFormat);
}

#[test]
fn rejects_empty_string() {
    assert!(BigUint::from_hex_string(String::new()).is_err());
}

#[test]
fn rejects_lone_zero() {
    assert!(BigUint::from_hex_string("0".to_string()).is_err());
}

#[test]
fn error_message_text() {
    let e = BigUint::from_hex_string("zz".to_string()).unwrap_err();
    assert_eq!(e.message(), "String is not a valid hexadecimal number");
}

#[test]
fn parses_uppercase_to_lowercase() {
    let n = BigUint::from_hex_string("ABCDE1234ABFA".to_string()).unwrap();
    assert_eq!(n.to_hex_string(), "abcde1234abfa");
}

#[test]
fn round_trip_single_digit() {
    let n = BigUint::from_hex_string("7".to_string()).unwrap();
    assert_eq!(n.to_hex_string(), "7");
}

#[test]
fn round_trip_eight_digit_boundary() {
    for s in ["ffffffff", "100000000", "1ffffffff", "10000000000000001"] {
        let n = BigUint::from_hex_string(s.to_string()).unwrap();
        assert_eq!(n.to_hex_string(), s);
    }
}

#[test]
fn round_trip_inner_zero_padding() {
    let n = BigUint::from_hex_string("100000001".to_string()).unwrap();
    assert_eq!(n.to_hex_string(), "100000001");
}

#[test]
fn addition_small_values() {
    let a = BigUint::from_hex_string("2".to_string()).unwrap();
    let b = BigUint::from_hex_string("3".to_string()).unwrap();
    assert_eq!(a.add(b).to_hex_string(), "5");
}

#[test]
fn addition_carry_chain() {
    let a = BigUint::from_hex_string("ffffffff".to_string()).unwrap();
    let b = BigUint::from_hex_string("1".to_string()).unwrap();
    assert_eq!(a.add(b).to_hex_string(), "100000000");
}

#[test]
fn addition_long_carry_chain() {
    let a = BigUint::from_hex_string("ffffffffffffffffffffffff".to_string()).unwrap();
    let b = BigUint::from_hex_string("1".to_string()).unwrap();
    assert_eq!(a.add(b).to_hex_string(), "1000000000000000000000000");
}

#[test]
fn addition_commutes_on_sample() {
    let x = "86e961e7511699fb856888b52ee3f3858ff9fe5c2fa576a210fbb25d556";
    let y = "d68b84131cb92d63a1d58dc18fb1661c5fb14bb183b7e3d29fefc6b34aa6";
    let r1 = BigUint::from_hex_string(x.to_string())
        .unwrap()
        .add(BigUint::from_hex_string(y.to_string()).unwrap());
    let r2 = BigUint::from_hex_string(y.to_string())
        .unwrap()
        .add(BigUint::from_hex_string(x.to_string()).unwrap());
    assert_eq!(r1.to_hex_string(), r2.to_hex_string());
}

#[test]
fn multiplication_small_values() {
    let a = BigUint::from_hex_string("a".to_string()).unwrap();
    let b = BigUint::from_hex_string("b".to_string()).unwrap();
    assert_eq!(a.multiply(b).to_hex_string(), "6e");
}

#[test]
fn multiplication_full_limbs() {
    let a = BigUint::from_hex_string("ffffffff".to_string()).unwrap();
    let b = BigUint::from_hex_string("ffffffff".to_string()).unwrap();
    assert_eq!(a.multiply(b).to_hex_string(), "fffffffe00000001");
}

#[test]
fn multiplication_by_one() {
    let a = BigUint::from_hex_string("abcde1234abfa".to_string()).unwrap();
    let one = BigUint::from_hex_string("1".to_string()).unwrap();
    assert_eq!(a.multiply(one).to_hex_string(), "abcde1234abfa");
}

#[test]
fn multiplication_commutes_on_sample() {
    let x = "ffffffffffffffff";
    let y = "abcde1234abfa";
    let r1 = BigUint::from_hex_string(x.to_string())
        .unwrap()
        .multiply(BigUint::from_hex_string(y.to_string()).unwrap());
    let r2 = BigUint::from_hex_string(y.to_string())
        .unwrap()
        .multiply(BigUint::from_hex_string(x.to_string()).unwrap());
    assert_eq!(r1.to_hex_string(), r2.to_hex_string());
}

#[test]
fn multiplication_trims_leading_zero_limb() {
    // 2 * 3 allocates two limbs; the canonical result must not keep the
    // superfluous high zero limb, so the text stays one digit.
    let a = BigUint::from_hex_string("2".to_string()).unwrap();
    let b = BigUint::from_hex_string("3".to_string()).unwrap();
    assert_eq!(a.multiply(b).to_hex_string(), "6");
}
