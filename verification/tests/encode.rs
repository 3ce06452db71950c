use bencode_rs::decimal::write_int;
use bencode_rs::encode::{encode_any, encode_dict, encode_int, encode_str};
use bencode_rs::{bdecode, bencode, EncodeError, Integer, Value};

fn number(n: i64) -> Value {
    Value::Integer(Integer::from_i64(n))
}

fn text(s: &str) -> Value {
    Value::ByteString(s.as_bytes().to_vec())
}

fn entry(key: &str, value: Value) -> (Vec<u8>, Value) {
    (key.as_bytes().to_vec(), value)
}

#[test]
fn zero_encodes_as_i0e() {
    assert_eq!(bencode(&number(0)), Ok(b"i0e".to_vec()));
}

#[test]
fn integers_encode_with_minimal_digits() {
    assert_eq!(bencode(&number(7)), Ok(b"i7e".to_vec()));
    assert_eq!(bencode(&number(10)), Ok(b"i10e".to_vec()));
    assert_eq!(bencode(&number(-1)), Ok(b"i-1e".to_vec()));
    assert_eq!(bencode(&number(1234567890)), Ok(b"i1234567890e".to_vec()));
    assert_eq!(bencode(&number(i64::MAX)), Ok(b"i9223372036854775807e".to_vec()));
    assert_eq!(bencode(&number(i64::MIN)), Ok(b"i-9223372036854775808e".to_vec()));
}

#[test]
fn large_integers_encode_without_truncation() {
    let digits = "123456789012345678901234567890123456789012345678901234567890";
    let n = Integer::parse(digits.as_bytes()).unwrap();
    assert_eq!(bencode(&Value::Integer(n)), Ok(format!("i{}e", digits).into_bytes()));
    let negative = format!("-{}", digits);
    let n = Integer::parse(negative.as_bytes()).unwrap();
    assert_eq!(bencode(&Value::Integer(n)), Ok(format!("i{}e", negative).into_bytes()));
}

#[test]
fn byte_strings_encode_with_their_length() {
    assert_eq!(bencode(&text("")), Ok(b"0:".to_vec()));
    assert_eq!(bencode(&text("spam")), Ok(b"4:spam".to_vec()));
    assert_eq!(bencode(&text("0123456789")), Ok(b"10:0123456789".to_vec()));
    assert_eq!(
        bencode(&Value::ByteString(vec![0, 255, b':', b'e'])),
        Ok(vec![b'4', b':', 0, 255, b':', b'e'])
    );
}

#[test]
fn long_byte_string_encodes_with_its_length() {
    let long = vec![b'x'; 100_000];
    let mut expected = b"100000:".to_vec();
    expected.extend_from_slice(&long);
    assert_eq!(bencode(&Value::ByteString(long)), Ok(expected));
}

#[test]
fn lists_encode_their_items_in_order() {
    assert_eq!(bencode(&Value::List(vec![])), Ok(b"le".to_vec()));
    assert_eq!(
        bencode(&Value::List(vec![text("spam"), text("eggs")])),
        Ok(b"l4:spam4:eggse".to_vec())
    );
    assert_eq!(
        bencode(&Value::List(vec![number(3), number(1), number(2)])),
        Ok(b"li3ei1ei2ee".to_vec())
    );
    assert_eq!(
        bencode(&Value::List(vec![Value::List(vec![]), Value::Dictionary(vec![])])),
        Ok(b"lledee".to_vec())
    );
}

#[test]
fn dictionaries_encode_with_ascending_keys() {
    assert_eq!(bencode(&Value::Dictionary(vec![])), Ok(b"de".to_vec()));
    let sorted = Value::Dictionary(vec![entry("cow", text("moo")), entry("spam", text("eggs"))]);
    let unsorted = Value::Dictionary(vec![entry("spam", text("eggs")), entry("cow", text("moo"))]);
    assert_eq!(bencode(&sorted), Ok(b"d3:cow3:moo4:spam4:eggse".to_vec()));
    assert_eq!(bencode(&unsorted), Ok(b"d3:cow3:moo4:spam4:eggse".to_vec()));
}

#[test]
fn dictionary_keys_are_ordered_as_bytes_not_as_text() {
    let value = Value::Dictionary(vec![
        entry("b", number(1)),
        entry("aa", number(2)),
        entry("a", number(3)),
        entry("B", number(4)),
        entry("", number(5)),
        (vec![0xff], number(6)),
        (vec![0x80], number(7)),
    ]);
    let mut expected = b"d0:i5e1:Bi4e1:ai3e2:aai2e1:bi1e1:".to_vec();
    expected.push(0x80);
    expected.extend_from_slice(b"i7e1:");
    expected.push(0xff);
    expected.extend_from_slice(b"i6ee");
    assert_eq!(bencode(&value), Ok(expected));
}

#[test]
fn dictionary_with_many_entries_encodes_sorted() {
    let mut entries = Vec::new();
    for i in (0..50).rev() {
        entries.push(entry(&format!("key{:02}", i), number(i)));
    }
    let mut expected = b"d".to_vec();
    for i in 0..50 {
        expected.extend_from_slice(format!("5:key{:02}i{}e", i, i).as_bytes());
    }
    expected.push(b'e');
    assert_eq!(bencode(&Value::Dictionary(entries)), Ok(expected));
}

#[test]
fn every_order_of_the_entries_gives_the_same_bytes() {
    let keys = ["a", "b", "c"];
    let orders = [[0, 1, 2], [0, 2, 1], [1, 0, 2], [1, 2, 0], [2, 0, 1], [2, 1, 0]];
    for order in orders {
        let entries = order.iter().map(|&i| entry(keys[i], number(i as i64))).collect();
        assert_eq!(bencode(&Value::Dictionary(entries)), Ok(b"d1:ai0e1:bi1e1:ci2ee".to_vec()));
    }
}

#[test]
fn dictionary_with_equal_keys_is_rejected() {
    let value = Value::Dictionary(vec![entry("a", number(1)), entry("a", number(2))]);
    assert_eq!(bencode(&value), Err(EncodeError::DuplicateKey));
    let apart = Value::Dictionary(vec![
        entry("a", number(1)),
        entry("b", number(2)),
        entry("c", number(2)),
        entry("a", number(1)),
    ]);
    assert_eq!(bencode(&apart), Err(EncodeError::DuplicateKey));
}

#[test]
fn equal_keys_deep_inside_are_rejected() {
    let inner = Value::Dictionary(vec![entry("k", number(1)), entry("k", number(1))]);
    let outer = Value::Dictionary(vec![entry("x", Value::List(vec![inner]))]);
    let value = Value::List(vec![number(1), outer]);
    assert_eq!(bencode(&value), Err(EncodeError::DuplicateKey));
}

#[test]
fn encoding_what_was_decoded_gives_the_input_back() {
    let inputs: [&[u8]; 12] = [
        b"i0e",
        b"i-17e",
        b"i123456789012345678901234567890123456789012345e",
        b"i-123456789012345678901234567890123456789012345e",
        b"0:",
        b"4:spam",
        b"le",
        b"de",
        b"l4:spam4:eggse",
        b"d3:cow3:moo4:spam4:eggse",
        b"d8:announce14:http://tracker4:infod6:lengthi1048576e4:name8:file.bin12:piece lengthi262144e6:pieces20:aaaaaaaaaaaaaaaaaaaaee",
        b"lld1:ad1:bleeeeli1ei2eli3eeee",
    ];
    for input in inputs {
        let value = bdecode(input).unwrap();
        assert_eq!(bencode(&value), Ok(input.to_vec()));
    }
}

#[test]
fn decoding_what_was_encoded_gives_the_sorted_value() {
    let unsorted = Value::Dictionary(vec![
        entry("z", Value::List(vec![number(1), text("x")])),
        entry("a", Value::Dictionary(vec![entry("q", number(-5)), entry("p", text(""))])),
    ]);
    let sorted = Value::Dictionary(vec![
        entry("a", Value::Dictionary(vec![entry("p", text("")), entry("q", number(-5))])),
        entry("z", Value::List(vec![number(1), text("x")])),
    ]);
    let bytes = bencode(&unsorted).unwrap();
    assert_eq!(bytes, b"d1:ad1:p0:1:qi-5ee1:zli1e1:xee".to_vec());
    assert_eq!(bdecode(&bytes), Ok(sorted));
}

#[test]
fn encode_error_has_a_message() {
    assert_eq!(EncodeError::DuplicateKey.message(), "duplicated keys");
    assert_eq!(EncodeError::Cycle.message(), "circular reference found");
    assert_eq!(EncodeError::UnsupportedType.message(), "unsupported type");
}

#[test]
fn write_int_appends_decimal_text() {
    let mut buf = b"x".to_vec();
    write_int(&mut buf, 0);
    write_int(&mut buf, -1);
    write_int(&mut buf, 1000);
    assert_eq!(buf, b"x0-11000".to_vec());
    let mut buf = Vec::new();
    write_int(&mut buf, i128::MAX);
    assert_eq!(buf, b"170141183460469231731687303715884105727".to_vec());
    let mut buf = Vec::new();
    write_int(&mut buf, i128::MIN);
    assert_eq!(buf, b"-170141183460469231731687303715884105728".to_vec());
    let mut buf = Vec::new();
    write_int(&mut buf, u64::MAX as i128);
    assert_eq!(buf, b"18446744073709551615".to_vec());
}

#[test]
fn encode_str_appends_length_colon_bytes() {
    let mut buf = b"l".to_vec();
    encode_str(b"abc", &mut buf);
    encode_str(b"", &mut buf);
    assert_eq!(buf, b"l3:abc0:".to_vec());
}

#[test]
fn encode_int_appends_an_integer() {
    let mut buf = b"l".to_vec();
    encode_int(&mut buf, &Integer::from_i64(-12));
    assert_eq!(buf, b"li-12e".to_vec());
}

#[test]
fn encode_any_appends_to_what_is_there() {
    let mut buf = b"head".to_vec();
    assert_eq!(encode_any(&mut buf, &Value::List(vec![number(1)])), Ok(()));
    assert_eq!(buf, b"headli1ee".to_vec());
}

#[test]
fn encode_dict_appends_sorted_entries() {
    let mut buf = Vec::new();
    let entries = vec![entry("b", number(2)), entry("a", number(1))];
    assert_eq!(encode_dict(&mut buf, &entries), Ok(()));
    assert_eq!(buf, b"d1:ai1e1:bi2ee".to_vec());
}

#[test]
fn copy_of_a_value_is_equal_to_it() {
    let value = Value::Dictionary(vec![
        entry("list", Value::List(vec![number(1), text("two"), Value::List(vec![])])),
        entry("big", Value::Integer(Integer::parse(b"-123456789012345678901234567890").unwrap())),
        entry("", Value::Dictionary(vec![])),
    ]);
    let copy = value.clone();
    assert_eq!(copy, value);
    assert_eq!(bencode(&copy), bencode(&value));
}

#[test]
fn deeply_nested_lists_decode_and_encode() {
    let depth = 500;
    let mut input = vec![b'l'; depth];
    input.extend(vec![b'e'; depth]);
    let value = bdecode(&input).unwrap();
    assert_eq!(bencode(&value), Ok(input));
}
