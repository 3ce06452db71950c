use bencode_rs::order::{compare_bytes, key_ordering, KeyOrder};
use bencode_rs::Integer;
use std::cmp::Ordering;

#[test]
fn integer_from_i64_and_back() {
    for n in [0, 1, -1, 42, -42, i64::MAX, i64::MIN, i64::MAX - 1, i64::MIN + 1] {
        assert_eq!(Integer::from_i64(n).to_i64(), Some(n));
    }
}

#[test]
fn integer_to_decimal_is_minimal() {
    assert_eq!(Integer::from_i64(0).to_decimal(), b"0".to_vec());
    assert_eq!(Integer::from_i64(5).to_decimal(), b"5".to_vec());
    assert_eq!(Integer::from_i64(-5).to_decimal(), b"-5".to_vec());
    assert_eq!(Integer::from_i64(100).to_decimal(), b"100".to_vec());
    assert_eq!(Integer::from_i64(i64::MIN).to_decimal(), b"-9223372036854775808".to_vec());
}

#[test]
fn integer_parse_accepts_canonical_text_only() {
    assert_eq!(Integer::parse(b"0"), Some(Integer::from_i64(0)));
    assert_eq!(Integer::parse(b"12"), Some(Integer::from_i64(12)));
    assert_eq!(Integer::parse(b"-12"), Some(Integer::from_i64(-12)));
    assert_eq!(Integer::parse(b""), None);
    assert_eq!(Integer::parse(b"-"), None);
    assert_eq!(Integer::parse(b"-0"), None);
    assert_eq!(Integer::parse(b"00"), None);
    assert_eq!(Integer::parse(b"012"), None);
    assert_eq!(Integer::parse(b"+1"), None);
    assert_eq!(Integer::parse(b"1a"), None);
    assert_eq!(Integer::parse(b"--1"), None);
    assert_eq!(Integer::parse(b" 1"), None);
}

#[test]
fn integer_parse_keeps_every_digit() {
    for text in [
        "9223372036854775807",
        "9223372036854775808",
        "-9223372036854775808",
        "-9223372036854775809",
        "18446744073709551615",
        "18446744073709551616",
        "99999999999999999999999999999999999999999999999999",
        "-10000000000000000000000000000000000000000000000000",
    ] {
        let n = Integer::parse(text.as_bytes()).unwrap();
        assert_eq!(n.to_decimal(), text.as_bytes().to_vec());
    }
}

#[test]
fn integer_to_i64_is_none_outside_the_range() {
    assert_eq!(Integer::parse(b"9223372036854775807").unwrap().to_i64(), Some(i64::MAX));
    assert_eq!(Integer::parse(b"9223372036854775808").unwrap().to_i64(), None);
    assert_eq!(Integer::parse(b"-9223372036854775808").unwrap().to_i64(), Some(i64::MIN));
    assert_eq!(Integer::parse(b"-9223372036854775809").unwrap().to_i64(), None);
    assert_eq!(Integer::parse(b"18446744073709551615").unwrap().to_i64(), None);
    assert_eq!(Integer::parse(b"123456789012345678901234567890").unwrap().to_i64(), None);
}

#[test]
fn integers_are_equal_when_they_denote_the_same_number() {
    assert_eq!(Integer::parse(b"77").unwrap(), Integer::from_i64(77));
    assert_eq!(Integer::parse(b"-9223372036854775808").unwrap(), Integer::from_i64(i64::MIN));
    assert_ne!(Integer::parse(b"77").unwrap(), Integer::from_i64(-77));
    assert_eq!(
        Integer::parse(b"123456789012345678901234567890").unwrap(),
        Integer::parse(b"123456789012345678901234567890").unwrap()
    );
    assert_ne!(
        Integer::parse(b"123456789012345678901234567890").unwrap(),
        Integer::parse(b"-123456789012345678901234567890").unwrap()
    );
}

#[test]
fn integer_clone_is_equal() {
    let small = Integer::from_i64(-3);
    let large = Integer::parse(b"340282366920938463463374607431768211456").unwrap();
    assert_eq!(small.clone(), small);
    assert_eq!(large.clone(), large);
}

#[test]
fn byte_strings_compare_lexicographically() {
    assert_eq!(compare_bytes(b"", b""), KeyOrder::Equal);
    assert_eq!(compare_bytes(b"", b"a"), KeyOrder::Less);
    assert_eq!(compare_bytes(b"a", b""), KeyOrder::Greater);
    assert_eq!(compare_bytes(b"a", b"a"), KeyOrder::Equal);
    assert_eq!(compare_bytes(b"a", b"b"), KeyOrder::Less);
    assert_eq!(compare_bytes(b"b", b"a"), KeyOrder::Greater);
    assert_eq!(compare_bytes(b"a", b"aa"), KeyOrder::Less);
    assert_eq!(compare_bytes(b"ab", b"b"), KeyOrder::Less);
    assert_eq!(compare_bytes(b"B", b"a"), KeyOrder::Less);
    assert_eq!(compare_bytes(&[0x7f], &[0x80]), KeyOrder::Less);
    assert_eq!(compare_bytes(&[0xff], &[0x00, 0x00]), KeyOrder::Greater);
}

#[test]
fn key_ordering_agrees_with_the_order_of_slices() {
    let samples: [&[u8]; 8] = [b"", b"a", b"aa", b"ab", b"b", b"B", &[0xff], &[0x00]];
    for a in samples {
        for b in samples {
            assert_eq!(key_ordering(a, b), a.cmp(b));
        }
    }
    assert_eq!(key_ordering(b"a", b"b"), Ordering::Less);
}
