use bencode_rs::{bdecode, DecodeError, DecodeErrorKind, Integer, Value};

fn integer(n: i64) -> Value {
    Value::Integer(Integer::from_i64(n))
}

fn byte_string(text: &[u8]) -> Value {
    Value::ByteString(text.to_vec())
}

fn fails(input: &[u8], kind: DecodeErrorKind, offset: usize) {
    assert_eq!(bdecode(input), Err(DecodeError { kind, offset }));
}

#[test]
fn zero_decodes_to_zero() {
    assert_eq!(bdecode(b"i0e"), Ok(integer(0)));
}

#[test]
fn positive_and_negative_integers_decode() {
    assert_eq!(bdecode(b"i42e"), Ok(integer(42)));
    assert_eq!(bdecode(b"i-42e"), Ok(integer(-42)));
    assert_eq!(bdecode(b"i9223372036854775807e"), Ok(integer(i64::MAX)));
    assert_eq!(bdecode(b"i-9223372036854775808e"), Ok(integer(i64::MIN)));
}

#[test]
fn negative_zero_is_rejected() {
    fails(b"i-0e", DecodeErrorKind::NegativeZero, 1);
    fails(b"i-01e", DecodeErrorKind::NegativeZero, 1);
}

#[test]
fn integer_with_leading_zero_is_rejected() {
    fails(b"i01e", DecodeErrorKind::IntegerLeadingZero, 1);
    fails(b"i00e", DecodeErrorKind::IntegerLeadingZero, 1);
}

#[test]
fn integer_without_digits_is_rejected() {
    fails(b"ie", DecodeErrorKind::EmptyInteger, 0);
    fails(b"i-e", DecodeErrorKind::EmptyInteger, 0);
    fails(b"li1eiee", DecodeErrorKind::EmptyInteger, 4);
}

#[test]
fn integer_without_end_is_rejected() {
    fails(b"i12", DecodeErrorKind::UnterminatedInteger, 0);
    fails(b"i", DecodeErrorKind::UnterminatedInteger, 0);
    fails(b"li12", DecodeErrorKind::UnterminatedInteger, 1);
}

#[test]
fn integer_with_a_non_digit_is_rejected() {
    fails(b"i1x2e", DecodeErrorKind::InvalidIntegerDigit, 2);
    fails(b"i+1e", DecodeErrorKind::InvalidIntegerDigit, 1);
    fails(b"i--1e", DecodeErrorKind::InvalidIntegerDigit, 2);
    fails(b"i1 e", DecodeErrorKind::InvalidIntegerDigit, 2);
}

#[test]
fn integer_of_forty_digits_decodes_without_loss() {
    let text = b"i1234567890123456789012345678901234567890e";
    let value = bdecode(text).unwrap();
    match &value {
        Value::Integer(n) => {
            assert_eq!(n.to_decimal(), b"1234567890123456789012345678901234567890".to_vec());
            assert_eq!(n.to_i64(), None);
        }
        other => panic!("not an integer: {:?}", other),
    }
    let negative = bdecode(b"i-1234567890123456789012345678901234567890e").unwrap();
    match &negative {
        Value::Integer(n) => {
            assert_eq!(n.to_decimal(), b"-1234567890123456789012345678901234567890".to_vec());
        }
        other => panic!("not an integer: {:?}", other),
    }
    assert_ne!(value, negative);
}

#[test]
fn integers_around_the_word_size_decode() {
    for text in [
        "9223372036854775808",
        "18446744073709551615",
        "18446744073709551616",
        "-9223372036854775809",
        "-18446744073709551615",
        "-18446744073709551616",
        "340282366920938463463374607431768211456",
    ] {
        let input = format!("i{}e", text);
        match bdecode(input.as_bytes()).unwrap() {
            Value::Integer(n) => assert_eq!(n.to_decimal(), text.as_bytes().to_vec()),
            other => panic!("not an integer: {:?}", other),
        }
    }
}

#[test]
fn empty_byte_string_decodes() {
    assert_eq!(bdecode(b"0:"), Ok(byte_string(b"")));
}

#[test]
fn byte_strings_decode_verbatim() {
    assert_eq!(bdecode(b"4:spam"), Ok(byte_string(b"spam")));
    assert_eq!(bdecode(b"3:\x00\xff:"), Ok(byte_string(b"\x00\xff:")));
    assert_eq!(bdecode(b"10:0123456789"), Ok(byte_string(b"0123456789")));
    assert_eq!(bdecode(b"2:ie"), Ok(byte_string(b"ie")));
}

#[test]
fn byte_string_longer_than_the_input_is_rejected() {
    fails(b"3:ab", DecodeErrorKind::LengthOverrun, 0);
    fails(b"1:", DecodeErrorKind::LengthOverrun, 0);
    fails(b"l1:a5:abcd", DecodeErrorKind::LengthOverrun, 4);
}

#[test]
fn byte_string_length_beyond_the_machine_word_is_rejected() {
    fails(b"99999999999999999999999999:a", DecodeErrorKind::LengthOverrun, 0);
    fails(b"18446744073709551616:a", DecodeErrorKind::LengthOverrun, 0);
    fails(b"18446744073709551615:a", DecodeErrorKind::LengthOverrun, 0);
}

#[test]
fn byte_string_length_with_leading_zero_is_rejected() {
    fails(b"03:abc", DecodeErrorKind::LengthLeadingZero, 0);
    fails(b"00:", DecodeErrorKind::LengthLeadingZero, 0);
}

#[test]
fn byte_string_without_separator_is_rejected() {
    fails(b"12", DecodeErrorKind::MissingSeparator, 0);
    fails(b"3abc", DecodeErrorKind::MissingSeparator, 0);
    fails(b"l4spame", DecodeErrorKind::MissingSeparator, 1);
}

#[test]
fn byte_string_length_with_a_non_digit_is_rejected() {
    fails(b"1x:a", DecodeErrorKind::InvalidLengthDigit, 1);
    fails(b"1-1:a", DecodeErrorKind::InvalidLengthDigit, 1);
}

#[test]
fn empty_list_decodes() {
    assert_eq!(bdecode(b"le"), Ok(Value::List(vec![])));
}

#[test]
fn list_of_two_byte_strings_decodes() {
    assert_eq!(
        bdecode(b"l4:spam4:eggse"),
        Ok(Value::List(vec![byte_string(b"spam"), byte_string(b"eggs")]))
    );
}

#[test]
fn list_keeps_the_order_of_its_items() {
    assert_eq!(
        bdecode(b"li3ei1ei2ee"),
        Ok(Value::List(vec![integer(3), integer(1), integer(2)]))
    );
}

#[test]
fn nested_values_decode() {
    assert_eq!(
        bdecode(b"ll1:aeli1eed1:kleee"),
        Ok(Value::List(vec![
            Value::List(vec![byte_string(b"a")]),
            Value::List(vec![integer(1)]),
            Value::Dictionary(vec![(b"k".to_vec(), Value::List(vec![]))]),
        ]))
    );
}

#[test]
fn list_without_end_is_rejected() {
    fails(b"l", DecodeErrorKind::UnterminatedList, 1);
    fails(b"li1e", DecodeErrorKind::UnterminatedList, 4);
    fails(b"lli1ee", DecodeErrorKind::UnterminatedList, 6);
}

#[test]
fn empty_dictionary_decodes() {
    assert_eq!(bdecode(b"de"), Ok(Value::Dictionary(vec![])));
}

#[test]
fn dictionary_decodes_to_its_entries_in_order() {
    assert_eq!(
        bdecode(b"d3:cow3:moo4:spam4:eggse"),
        Ok(Value::Dictionary(vec![
            (b"cow".to_vec(), byte_string(b"moo")),
            (b"spam".to_vec(), byte_string(b"eggs")),
        ]))
    );
}

#[test]
fn dictionary_with_empty_key_decodes() {
    assert_eq!(
        bdecode(b"d0:i1e1:ai2ee"),
        Ok(Value::Dictionary(vec![(b"".to_vec(), integer(1)), (b"a".to_vec(), integer(2))]))
    );
}

#[test]
fn dictionary_with_descending_keys_is_rejected() {
    fails(b"d1:bi1e1:ai2ee", DecodeErrorKind::UnsortedKeys, 13);
    fails(b"d2:aai1e1:ai2ee", DecodeErrorKind::UnsortedKeys, 14);
    fails(b"d1:ai1e1:ci2e1:bi3ee", DecodeErrorKind::UnsortedKeys, 19);
}

#[test]
fn dictionary_with_a_repeated_key_is_rejected() {
    fails(b"d1:ai1e1:ai2ee", DecodeErrorKind::DuplicateKey, 13);
    fails(b"d0:i1e0:i2ee", DecodeErrorKind::DuplicateKey, 11);
}

#[test]
fn dictionary_keys_are_ordered_as_bytes() {
    assert!(bdecode(b"d1:Ai1e1:ai2ee").is_ok());
    fails(b"d1:ai1e1:Ai2ee", DecodeErrorKind::UnsortedKeys, 13);
    assert!(bdecode(b"d1:ai1e2:aai2e1:bi3ee").is_ok());
    assert!(bdecode(b"d1:\x7fi1e1:\x80i2ee").is_ok());
}

#[test]
fn inner_dictionary_with_descending_keys_is_rejected() {
    fails(b"d1:ad1:bi1e1:ai2eee", DecodeErrorKind::UnsortedKeys, 17);
    fails(b"ld1:bi1e1:ai2eee", DecodeErrorKind::UnsortedKeys, 14);
}

#[test]
fn dictionary_key_must_be_a_byte_string() {
    fails(b"di1ei2ee", DecodeErrorKind::MissingSeparator, 1);
    fails(b"d:i1ee", DecodeErrorKind::InvalidLengthDigit, 1);
    fails(b"dle1:ae", DecodeErrorKind::InvalidLengthDigit, 1);
    fails(b"d-1:ai1ee", DecodeErrorKind::InvalidLengthDigit, 1);
}

#[test]
fn dictionary_without_end_is_rejected() {
    fails(b"d", DecodeErrorKind::UnterminatedDictionary, 1);
    fails(b"d1:ai1e", DecodeErrorKind::UnterminatedDictionary, 7);
}

#[test]
fn dictionary_key_without_value_is_rejected() {
    fails(b"d1:a", DecodeErrorKind::UnexpectedEnd, 4);
    fails(b"d1:ae", DecodeErrorKind::InvalidLeadByte, 4);
}

#[test]
fn a_bad_value_is_reported_before_a_bad_key_order() {
    fails(b"d1:bi1e1:ai02ee", DecodeErrorKind::IntegerLeadingZero, 11);
}

#[test]
fn empty_input_is_rejected() {
    fails(b"", DecodeErrorKind::EmptyInput, 0);
}

#[test]
fn unknown_lead_byte_is_rejected() {
    fails(b"x", DecodeErrorKind::InvalidLeadByte, 0);
    fails(b"e", DecodeErrorKind::InvalidLeadByte, 0);
    fails(b":", DecodeErrorKind::InvalidLeadByte, 0);
    fails(b"-1:a", DecodeErrorKind::InvalidLeadByte, 0);
    fails(b"lxe", DecodeErrorKind::InvalidLeadByte, 1);
}

#[test]
fn two_top_level_values_are_rejected() {
    fails(b"i1ei2e", DecodeErrorKind::TrailingData, 3);
}

#[test]
fn bytes_behind_the_value_are_rejected() {
    fails(b"i1e\n", DecodeErrorKind::TrailingData, 3);
    fails(b"i1e ", DecodeErrorKind::TrailingData, 3);
    fails(b"0:x", DecodeErrorKind::TrailingData, 2);
    fails(b"lee", DecodeErrorKind::TrailingData, 2);
    fails(b"dee", DecodeErrorKind::TrailingData, 2);
    fails(b"4:spamm", DecodeErrorKind::TrailingData, 6);
}

#[test]
fn decode_error_reports_message_and_offset() {
    let err = bdecode(b"li1ei-0ee").unwrap_err();
    assert_eq!(err.kind, DecodeErrorKind::NegativeZero);
    assert_eq!(err.offset(), 5);
    assert_eq!(err.message(), "invalid int, '-0' found");
    assert_eq!(DecodeErrorKind::EmptyInput.message(), "empty bytes");
    assert_eq!(
        DecodeErrorKind::TrailingData.message(),
        "invalid bencode data, bytes follow the top level value"
    );
}

#[test]
fn every_kind_of_decode_error_has_its_own_message() {
    let kinds = [
        DecodeErrorKind::EmptyInput,
        DecodeErrorKind::UnexpectedEnd,
        DecodeErrorKind::InvalidLeadByte,
        DecodeErrorKind::UnterminatedInteger,
        DecodeErrorKind::EmptyInteger,
        DecodeErrorKind::NegativeZero,
        DecodeErrorKind::IntegerLeadingZero,
        DecodeErrorKind::InvalidIntegerDigit,
        DecodeErrorKind::MissingSeparator,
        DecodeErrorKind::LengthLeadingZero,
        DecodeErrorKind::InvalidLengthDigit,
        DecodeErrorKind::LengthOverrun,
        DecodeErrorKind::UnterminatedList,
        DecodeErrorKind::UnterminatedDictionary,
        DecodeErrorKind::UnsortedKeys,
        DecodeErrorKind::DuplicateKey,
        DecodeErrorKind::TrailingData,
    ];
    for (i, a) in kinds.iter().enumerate() {
        assert!(!a.message().is_empty());
        for b in kinds.iter().skip(i + 1) {
            assert_ne!(a.message(), b.message());
        }
    }
}
