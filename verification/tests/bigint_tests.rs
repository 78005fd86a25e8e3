use bigmul::random::random_bigint;
use bigmul::BigInt;

#[test]
fn parse_zero_renders_zero() {
    assert!(BigInt::from_str("0").to_string() == "0");
}

#[test]
fn parse_empty_is_zero() {
    assert!(BigInt::from_str("").to_string() == "0");
}

#[test]
fn parse_non_digits_is_zero() {
    assert!(BigInt::from_str("abc").to_string() == "0");
}

#[test]
fn parse_strips_leading_zero_limbs() {
    let a = BigInt::from_str("000000000123456789");
    let b = BigInt::from_str("123456789");
    assert!(a == b);
    assert!(a.to_string() == "123456789");
}

#[test]
fn round_trip_canonical() {
    let s = "123456789012345678901234567890";
    assert!(BigInt::from_str(s).to_string() == s);
    let t = "1000000000000000000000000000000000001";
    assert!(BigInt::from_str(t).to_string() == t);
    assert!(BigInt::from_str("7").to_string() == "7");
}

#[test]
fn add_carry_new_limb() {
    let a = BigInt::from_str("999999999");
    let b = BigInt::from_str("1");
    assert!(a.add(&b).to_string() == "1000000000");
}

#[test]
fn sub_borrow_across_limb() {
    let a = BigInt::from_str("1000000000");
    let b = BigInt::from_str("1");
    assert!(a.sub(&b).to_string() == "999999999");
}

#[test]
fn add_zero_identity() {
    let a = BigInt::from_str("98765432109876543210");
    let zero = BigInt::new();
    assert!(a.add(&zero) == a);
}

#[test]
fn add_commutes() {
    let a = BigInt::from_str("123456789123456789123456789");
    let b = BigInt::from_str("999999999999");
    assert!(a.add(&b) == b.add(&a));
}

#[test]
fn mul_one_identity() {
    let a = BigInt::from_str("314159265358979323846264338327950288419716939937510");
    let one = BigInt::from_str("1");
    assert!(a.mul_direct(&one) == a);
    assert!(a.mul_dc(&one) == a);
    assert!(a.mul_karatsuba(&one) == a);
}

#[test]
fn mul_zero_annihilates() {
    let a = BigInt::from_str("271828182845904523536028747135266249775724709369995");
    let zero = BigInt::new();
    assert!(a.mul_direct(&zero).to_string() == "0");
    assert!(a.mul_dc(&zero).to_string() == "0");
    assert!(a.mul_karatsuba(&zero).to_string() == "0");
}

#[test]
fn square_large_constant_agrees() {
    let x = BigInt::from_str("999999999000000001");
    let p1 = x.mul_direct(&x);
    let p2 = x.mul_dc(&x);
    let p3 = x.mul_karatsuba(&x);
    assert!(p1 == p2);
    assert!(p1 == p3);
    let expected = "999999998000000002999999998000000001";
    assert!(p1.to_string() == expected);
    assert!(p2.to_string() == expected);
    assert!(p3.to_string() == expected);
}

#[test]
fn shift_equals_multiply_by_base_power() {
    let a = BigInt::from_str("123456789123456789");
    let b1 = BigInt::from_str("1000000000");
    assert!(a.shift_left(1) == a.mul_direct(&b1));
    let mut p3 = String::from("1");
    p3.push_str(&"0".repeat(27));
    let b3 = BigInt::from_str(&p3);
    assert!(a.shift_left(3) == a.mul_karatsuba(&b3));
    assert!(a.shift_left(3) == a.mul_dc(&b3));
    assert!(a.shift_left(0) == a);
}

#[test]
fn shift_zero_stays_zero() {
    let zero = BigInt::new();
    assert!(zero.shift_left(7).to_string() == "0");
    assert!(zero.shift_left(7) == zero);
}

#[test]
fn boundary_at_threshold() {
    // 288 digits = exactly 32 limbs (the base-case threshold); 289 and 297
    // digits give 33 limbs, one above it.
    let s32 = "123456789".repeat(32);
    let mut s33a = String::from("5");
    s33a.push_str(&s32);
    let s33b = "987654321".repeat(33);
    for s in [s32.as_str(), s33a.as_str(), s33b.as_str()] {
        let a = BigInt::from_str(s);
        let b = BigInt::from_str(s);
        let p1 = a.mul_direct(&b);
        let p2 = a.mul_dc(&b);
        let p3 = a.mul_karatsuba(&b);
        assert!(p1 == p2);
        assert!(p1 == p3);
    }
}

#[test]
fn asymmetric_operands_agree() {
    let a = BigInt::from_str(&"123456789".repeat(40));
    let b = BigInt::from_str("42");
    let p1 = a.mul_direct(&b);
    let p2 = a.mul_dc(&b);
    let p3 = a.mul_karatsuba(&b);
    assert!(p1 == p2);
    assert!(p1 == p3);
    assert!(b.mul_karatsuba(&a) == p3);
}

#[test]
fn random_cross_check() {
    let a = random_bigint(5000);
    let b = random_bigint(5000);
    let p1 = a.mul_direct(&b);
    let p2 = a.mul_dc(&b);
    let p3 = a.mul_karatsuba(&b);
    assert!(p1 == p2);
    assert!(p1 == p3);
    assert!(p1.to_string() == p2.to_string());
}

#[test]
fn random_digit_count() {
    let a = random_bigint(10);
    let s = a.to_string();
    assert!(s.len() == 10);
    assert!(!s.starts_with('0'));
    let z = random_bigint(0);
    assert!(z.to_string() == "0");
    let one_digit = random_bigint(1);
    assert!(one_digit.to_string().len() == 1);
    assert!(one_digit.to_string() != "0");
}

#[test]
fn eq_by_value() {
    assert!(BigInt::from_str("123") == BigInt::from_str("123"));
    assert!(!(BigInt::from_str("123") == BigInt::from_str("124")));
    assert!(!(BigInt::from_str("123") == BigInt::from_str("1230")));
}
