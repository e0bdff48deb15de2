//! Unit tests for the byte-string utilities.

use llvm_sandboxer::bytes::{contains_sub, eq_bytes, parse_dec, starts_with, u64_to_dec};

fn n(s: &str) -> Vec<u8> {
    s.as_bytes().to_vec()
}

#[test]
fn test_contains_sub() {
    assert!(contains_sub(&n("call void @utx1(ptr)"), &n("utx1")));
    assert!(!contains_sub(&n("call void @utx1(ptr)"), &n("utx0")));
    assert!(contains_sub(&n("abc"), &n("")));
    assert!(!contains_sub(&n("ab"), &n("abc")));
    assert!(contains_sub(&n("aab"), &n("ab")));
}

#[test]
fn test_eq_and_prefix() {
    assert!(eq_bytes(&n("stack_0"), &n("stack_0")));
    assert!(!eq_bytes(&n("stack_0"), &n("stack_1")));
    assert!(starts_with(&n("stack_12"), &n("stack_")));
    assert!(!starts_with(&n("stack"), &n("stack_")));
    assert!(starts_with(&n("anything"), &n("")));
}

#[test]
fn test_u64_to_dec() {
    assert_eq!(u64_to_dec(0), n("0"));
    assert_eq!(u64_to_dec(7), n("7"));
    assert_eq!(u64_to_dec(10), n("10"));
    assert_eq!(u64_to_dec(90210), n("90210"));
    assert_eq!(u64_to_dec(u64::MAX), n("18446744073709551615"));
}

#[test]
fn test_parse_dec() {
    assert_eq!(parse_dec(&n("0")), Some(0));
    assert_eq!(parse_dec(&n("32")), Some(32));
    assert_eq!(parse_dec(&n("007")), Some(7));
    assert_eq!(parse_dec(&n("18446744073709551615")), Some(u64::MAX));
    assert_eq!(parse_dec(&n("18446744073709551616")), None);
    assert_eq!(parse_dec(&n("")), None);
    assert_eq!(parse_dec(&n("-3")), None);
    assert_eq!(parse_dec(&n("1x")), None);
}
