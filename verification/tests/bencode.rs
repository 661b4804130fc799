use oxidant::bencode::{BCObject, Cursor, DecodeError, ParseContext};

#[test]
fn test_bencode_integer_parse() {
    let s = "i623e";
    assert_eq!(
        BCObject::Integer(623),
        BCObject::parse_integer(&mut Cursor::new(s)).unwrap()
    );
}

#[test]
fn test_bencode_integer_negative_parse() {
    let s = "i-2131e";
    assert_eq!(
        BCObject::Integer(-2131),
        BCObject::parse_integer(&mut Cursor::new(s)).unwrap()
    );
}

#[test]
fn test_bencode_integer_zero() {
    let s = "i0e";
    assert_eq!(
        BCObject::Integer(0),
        BCObject::parse_integer(&mut Cursor::new(s)).unwrap()
    );
}

#[test]
fn test_bencode_integer_no_premature_end() {
    let bad = "i324";
    assert!(BCObject::parse_integer(&mut Cursor::new(bad)).is_err());
}

#[test]
fn test_bencode_integer_no_missing_leading_character() {
    let bad = "812";
    assert!(BCObject::parse_integer(&mut Cursor::new(bad)).is_err());
}

#[test]
fn test_bencode_integer_no_negative_zero() {
    let bad = "i-0e";
    assert!(BCObject::parse_integer(&mut Cursor::new(bad)).is_err());
}

#[test]
fn test_bencode_integer_no_leading_zero() {
    let bad = "i0123e";
    assert!(BCObject::parse_integer(&mut Cursor::new(bad)).is_err());
}

#[test]
fn test_bencode_integer_no_negative_leading_zero() {
    let bad = "i-0123e";
    assert!(BCObject::parse_integer(&mut Cursor::new(bad)).is_err());
}

#[test]
fn test_bencode_string_parse() {
    let s = "11:hello world";
    assert_eq!(
        BCObject::String("hello world".to_string()),
        BCObject::parse_string(&mut Cursor::new(s)).unwrap()
    );
}

#[test]
fn test_bencode_string_no_premature_end() {
    let bad = "11:hello w";
    assert!(BCObject::parse_string(&mut Cursor::new(bad)).is_err());
}

#[test]
fn test_bencode_string_no_missing_leading_len() {
    let bad = ":hello";
    assert!(BCObject::parse_string(&mut Cursor::new(bad)).is_err());
}

#[test]
fn test_bencode_string_no_missing_leading_delimiter() {
    let bad = "hello";
    assert!(BCObject::parse_string(&mut Cursor::new(bad)).is_err());
}

#[test]
fn test_bencode_list_parse() {
    let s = "li123ei456ei789ee";
    let v = vec![
        BCObject::Integer(123),
        BCObject::Integer(456),
        BCObject::Integer(789),
    ];
    assert_eq!(
        BCObject::List(v),
        BCObject::parse_list(&mut Cursor::new(s)).unwrap()
    );
}

#[test]
fn test_bencode_list_nested() {
    let s = "li123ei456ei789el4:12344:5678ee";
    let v = vec![
        BCObject::Integer(123),
        BCObject::Integer(456),
        BCObject::Integer(789),
        BCObject::List(vec![
            BCObject::String("1234".to_string()),
            BCObject::String("5678".to_string()),
        ]),
    ];
    assert_eq!(
        BCObject::List(v),
        BCObject::parse_list(&mut Cursor::new(s)).unwrap()
    );
}

#[test]
fn test_bencode_list_no_premature_end() {
    let bad = "li123ei456ei789e";
    assert!(BCObject::parse_list(&mut Cursor::new(bad)).is_err());
}

#[test]
fn test_bencode_list_no_missing_leading_character() {
    let bad = "i123ei456ei789e";
    assert!(BCObject::parse_list(&mut Cursor::new(bad)).is_err());
}

#[test]
fn test_bencode_dictionary_parse() {
    let s = "d5:hello5:world5:valuei123ee";
    let m = vec![
        ("hello".to_string(), BCObject::String("world".to_string())),
        ("value".to_string(), BCObject::Integer(123)),
    ];
    assert_eq!(
        BCObject::Dictionary(m),
        BCObject::parse_dictionary(&mut Cursor::new(s)).unwrap()
    );
}

#[test]
fn test_bencode_dictionary_nested() {
    let s = "d5:hellod4:name5:worldee";
    let inner = vec![("name".to_string(), BCObject::String("world".to_string()))];
    let m = vec![("hello".to_string(), BCObject::Dictionary(inner))];
    assert_eq!(
        BCObject::Dictionary(m),
        BCObject::parse_dictionary(&mut Cursor::new(s)).unwrap()
    );
}

#[test]
fn test_bencode_dictionary_no_premature_end() {
    let bad = "d5:hello5:world5:valuei123e";
    assert!(BCObject::parse_dictionary(&mut Cursor::new(bad)).is_err());
}

#[test]
fn test_bencode_dictionary_no_missing_leading_character() {
    let bad = "5:hello5:world5:valuei123e";
    assert!(BCObject::parse_dictionary(&mut Cursor::new(bad)).is_err());
}

#[test]
fn test_blob_integer() {
    assert_eq!(BCObject::parse_blob("i623e").unwrap(), BCObject::Integer(623));
}

#[test]
fn test_blob_string() {
    assert_eq!(
        BCObject::parse_blob("11:hello world").unwrap(),
        BCObject::String("hello world".to_string())
    );
}

#[test]
fn test_blob_list_order_kept() {
    let got = BCObject::parse_blob("li123ei456ei789ee").unwrap();
    let want = BCObject::List(vec![
        BCObject::Integer(123),
        BCObject::Integer(456),
        BCObject::Integer(789),
    ]);
    assert_eq!(want, got);
}

#[test]
fn test_blob_dictionary() {
    let got = BCObject::parse_blob("d5:hello5:world5:valuei123ee").unwrap();
    let want = BCObject::Dictionary(vec![
        ("hello".to_string(), BCObject::String("world".to_string())),
        ("value".to_string(), BCObject::Integer(123)),
    ]);
    assert_eq!(want, got);
}

#[test]
fn test_blob_empty_input() {
    assert_eq!(
        BCObject::parse_blob(""),
        Err(DecodeError::UnexpectedEnd(ParseContext::Dispatch, 0))
    );
}

#[test]
fn test_blob_unrecognized_tag() {
    assert_eq!(
        BCObject::parse_blob("x5:hello"),
        Err(DecodeError::UnrecognizedTag('x'))
    );
}

#[test]
fn test_blob_malformed_integer_digits() {
    assert_eq!(
        BCObject::parse_blob("i12a3e"),
        Err(DecodeError::MalformedInteger)
    );
}

#[test]
fn test_blob_integer_bounds() {
    assert_eq!(
        BCObject::parse_blob("i9223372036854775807e").unwrap(),
        BCObject::Integer(i64::MAX)
    );
    assert_eq!(
        BCObject::parse_blob("i-9223372036854775808e").unwrap(),
        BCObject::Integer(i64::MIN)
    );
    assert_eq!(
        BCObject::parse_blob("i9223372036854775808e"),
        Err(DecodeError::MalformedInteger)
    );
}

#[test]
fn test_blob_plus_signed_integer() {
    assert_eq!(BCObject::parse_blob("i+5e").unwrap(), BCObject::Integer(5));
}

#[test]
fn test_string_negative_length_rejected() {
    assert_eq!(
        BCObject::parse_string(&mut Cursor::new("-1:a")),
        Err(DecodeError::MalformedLength)
    );
}

#[test]
fn test_string_length_overflow_rejected() {
    assert_eq!(
        BCObject::parse_string(&mut Cursor::new("99999999999999999999:x")),
        Err(DecodeError::MalformedLength)
    );
}

#[test]
fn test_string_owed_count() {
    assert_eq!(
        BCObject::parse_string(&mut Cursor::new("11:hello w")),
        Err(DecodeError::UnexpectedEnd(ParseContext::Text, 4))
    );
}

#[test]
fn test_string_leading_zero_length() {
    assert_eq!(
        BCObject::parse_blob("05:hello").unwrap(),
        BCObject::String("hello".to_string())
    );
}

#[test]
fn test_dictionary_non_string_key() {
    assert_eq!(
        BCObject::parse_blob("di1ei2ee"),
        Err(DecodeError::NonStringKey)
    );
}

#[test]
fn test_dictionary_duplicate_key_last_wins() {
    let got = BCObject::parse_blob("d1:ai1e1:ai2ee").unwrap();
    let want = BCObject::Dictionary(vec![("a".to_string(), BCObject::Integer(2))]);
    assert_eq!(want, got);
}

#[test]
fn test_dictionary_keys_sorted_regardless_of_input_order() {
    let got = BCObject::parse_blob("d1:b1:y1:a1:xe").unwrap();
    let want = BCObject::Dictionary(vec![
        ("a".to_string(), BCObject::String("x".to_string())),
        ("b".to_string(), BCObject::String("y".to_string())),
    ]);
    assert_eq!(want, got);
}

#[test]
fn test_empty_containers() {
    assert_eq!(BCObject::parse_blob("le").unwrap(), BCObject::List(vec![]));
    assert_eq!(
        BCObject::parse_blob("de").unwrap(),
        BCObject::Dictionary(vec![])
    );
    assert_eq!(
        BCObject::parse_blob("0:").unwrap(),
        BCObject::String(String::new())
    );
}

#[test]
fn test_blob_trailing_text_ignored() {
    assert_eq!(BCObject::parse_blob("i3eXYZ").unwrap(), BCObject::Integer(3));
}

#[test]
fn test_truncated_encodings_fail() {
    assert_eq!(
        BCObject::parse_blob("i623"),
        Err(DecodeError::UnexpectedEnd(ParseContext::Integer, 0))
    );
    assert_eq!(
        BCObject::parse_blob("5:hell"),
        Err(DecodeError::UnexpectedEnd(ParseContext::Text, 1))
    );
    assert_eq!(
        BCObject::parse_blob("li1e"),
        Err(DecodeError::UnexpectedEnd(ParseContext::List, 0))
    );
    assert_eq!(
        BCObject::parse_blob("d1:ai1e"),
        Err(DecodeError::UnexpectedEnd(ParseContext::Dictionary, 0))
    );
}
