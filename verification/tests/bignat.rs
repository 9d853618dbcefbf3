use amortize::bignat::BigNat;

#[test]
fn addition_carries_across_limbs() {
    let a = BigNat::from_u64(0xFFFF_FFFF);
    let b = BigNat::from_u64(1);
    let sum = a.add(&b);
    assert!(sum.eq_nat(&BigNat::from_u64(0x1_0000_0000)));
}

#[test]
fn addition_overflows_u64_range() {
    let a = BigNat::from_u64(u64::MAX);
    let b = BigNat::from_u64(1);
    let sum = a.add(&b);
    // 2^64 == 2^32 * 2^32
    let expected = BigNat::from_u64(0x1_0000_0000).mul(&BigNat::from_u64(0x1_0000_0000));
    assert!(sum.eq_nat(&expected));
}

#[test]
fn subtraction_borrows() {
    let a = BigNat::from_u64(0x1_0000_0000);
    let b = BigNat::from_u64(1);
    let d = a.sub(&b);
    assert!(d.eq_nat(&BigNat::from_u64(0xFFFF_FFFF)));
}

#[test]
fn multiplication_matches_u64() {
    let a = BigNat::from_u64(123_456_789);
    let b = BigNat::from_u64(987_654_321);
    let p = a.mul(&b);
    assert!(p.eq_nat(&BigNat::from_u64(123_456_789u64 * 987_654_321u64)));
}

#[test]
fn multiplication_and_subtraction_round_trip() {
    // (x * y - y) / structure: x*y - (x-1)*y == y on wide values
    let x = BigNat::from_u64(u64::MAX);
    let y = BigNat::from_u64(0xDEAD_BEEF_CAFE);
    let xy = x.mul(&y);
    let x1y = x.sub(&BigNat::from_u64(1)).mul(&y);
    assert!(xy.sub(&x1y).eq_nat(&y));
}

#[test]
fn ordering_ignores_trailing_zero_limbs() {
    let a = BigNat::from_u64(7);
    let b = BigNat::from_u64(7).add(&BigNat::zero());
    assert!(!a.lt(&b));
    assert!(!b.lt(&a));
    assert!(a.eq_nat(&b));
    assert!(a.lt(&BigNat::from_u64(8)));
    assert!(!BigNat::from_u64(8).lt(&a));
}

#[test]
fn zero_detection() {
    assert!(BigNat::zero().is_zero());
    assert!(BigNat::from_u64(0).is_zero());
    assert!(!BigNat::from_u64(1).is_zero());
    let x = BigNat::from_u64(5);
    assert!(x.sub(&BigNat::from_u64(5)).is_zero());
}
