use xensieve::gcd;
use xensieve::lcm;
use xensieve::meziriac;
use xensieve::try_gcd;

#[test]
fn main_test_gcd_a() {
    assert_eq!(gcd(14, 15), 1);
}

#[test]
fn main_test_gcd_b() {
    assert_eq!(gcd(12, 8), 4);
}

#[test]
fn main_test_gcd_c() {
    let a = 2 * 3 * 5 * 11 * 17;
    let b = 3 * 7 * 11 * 13 * 19;
    assert_eq!(gcd(a, b), 3 * 11);
}

#[test]
fn test_lcm_a() {
    assert_eq!(lcm(12, 8), 24);
}

#[test]
fn test_lcm_b() {
    assert_eq!(lcm(3, 4), 12);
}

#[test]
fn util_test_gcd_a() {
    assert_eq!(try_gcd(14, 15, 0).unwrap(), 1);
}

#[test]
fn util_test_gcd_b() {
    assert_eq!(try_gcd(12, 8, 0).unwrap(), 4);
}

#[test]
fn util_test_gcd_c() {
    let a = 2 * 3 * 5 * 11 * 17;
    let b = 3 * 7 * 11 * 13 * 19;
    assert_eq!(try_gcd(a, b, 0).unwrap(), 3 * 11);
}

#[test]
fn util_test_gcd_d() {
    assert_eq!(try_gcd(12, 0, 0).is_err(), true);
}

#[test]
fn util_test_gcd_e() {
    assert_eq!(try_gcd(0, 3, 0).is_err(), true);
}

#[test]
fn test_meziriac_a() {
    assert_eq!(meziriac(1, 1).unwrap(), 1);
    assert_eq!(meziriac(10, 1).unwrap(), 1);
    assert_eq!(meziriac(10, 10).unwrap(), 0);
    assert_eq!(meziriac(12, 12).unwrap(), 0);
    assert_eq!(meziriac(3, 11).unwrap(), 4);
    assert_eq!(meziriac(20, 9).unwrap(), 5);
    assert_eq!(meziriac(101, 13).unwrap(), 4);
}
