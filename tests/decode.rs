use bencode_torrent::decode::{decode, decode_bencoded_value, BencodeError};
use bencode_torrent::encode::encode;
use bencode_torrent::Value;

fn bytes(s: &str) -> Value {
    Value::Bytes(s.as_bytes().to_vec())
}

fn format_error(msg: &str) -> BencodeError {
    BencodeError::DataFormat(msg.to_string())
}

#[test]
fn valid_bencoded_string() {
    let res = decode_bencoded_value("7:testing".as_bytes());
    assert!(res.is_ok());
    assert_eq!(res.unwrap().0, bytes("testing"));
}

#[test]
fn invalid_no_length_delimiter() {
    let res = decode_bencoded_value("7testing".as_bytes());
    assert!(res.is_err());
    assert_eq!(
        res,
        Err(format_error("missing length `:` delimiter for bencoded string value."))
    );
}

#[test]
fn invalid_length_value() {
    let res = decode_bencoded_value("7a:testing".as_bytes());
    assert!(res.is_err());
    assert_eq!(
        res,
        Err(format_error("invalid length value `7a` provided for bencoded string value."))
    );
}

#[test]
fn invalid_length_greater_than_input() {
    let res = decode_bencoded_value("7:test".as_bytes());
    assert!(res.is_err());
    assert_eq!(
        res,
        Err(BencodeError::DataFormat(format!(
            "provided string value's length `{}` exceeds remaining input length `{}`.",
            7, 4
        )))
    );
}

#[test]
fn valid_bencoded_int() {
    let res = decode_bencoded_value("i-53e".as_bytes());
    assert!(res.is_ok());
    assert_eq!(res.unwrap().0, Value::Int(-53));
}

#[test]
fn invalid_bencoded_int_value() {
    let res = decode_bencoded_value("i-53ae".as_bytes());
    assert!(res.is_err());
    assert_eq!(
        res,
        Err(format_error(
            "expected valid `i64` value when parsing bencoded data to integer value, received `-53a`."
        ))
    );
}

#[test]
fn invalid_int_no_delimiter() {
    let res = decode_bencoded_value("i-53".as_bytes());
    assert!(res.is_err());
    assert_eq!(
        res,
        Err(format_error("missing ending `e` delimiter for bencoded integer value."))
    );
}

#[test]
fn valid_with_string_and_int_values() {
    let res = decode_bencoded_value("l7:testingi-53e4:teste".as_bytes());
    assert!(res.is_ok());
    assert_eq!(
        res.unwrap().0,
        Value::List(vec![bytes("testing"), Value::Int(-53), bytes("test")])
    );
}

#[test]
fn valid_with_nested_list() {
    let res = decode_bencoded_value("ll7:testingi-53ee4:teste".as_bytes());
    assert!(res.is_ok());
    assert_eq!(
        res.unwrap().0,
        Value::List(vec![
            Value::List(vec![bytes("testing"), Value::Int(-53)]),
            bytes("test")
        ])
    );
}

#[test]
fn invalid_missing_delimiter() {
    let res = decode_bencoded_value("l7:testingi-53e4:test".as_bytes());
    assert!(res.is_err());
    assert_eq!(
        res,
        Err(format_error("missing ending `e` delimiter for bencoded list."))
    );
}

#[test]
fn valid_key_values() {
    let res = decode_bencoded_value("d7:testingi-53e4:test7:testing9:list-testlee".as_bytes());
    let expected = Value::Dict(vec![
        (b"list-test".to_vec(), Value::List(vec![])),
        (b"test".to_vec(), bytes("testing")),
        (b"testing".to_vec(), Value::Int(-53)),
    ]);
    assert!(res.is_ok());
    assert_eq!(res.unwrap().0, expected);
}

#[test]
fn valid_with_nested_obj() {
    let res = decode_bencoded_value("d7:testingd4:testi-53eee".as_bytes());
    let inner = Value::Dict(vec![(b"test".to_vec(), Value::Int(-53))]);
    let expected = Value::Dict(vec![(b"testing".to_vec(), inner)]);
    assert!(res.is_ok());
    assert_eq!(res.unwrap().0, expected);
}

#[test]
fn decode_invalid_missing_delimiter() {
    let res = decode_bencoded_value("d7:testingi-53e".as_bytes());
    assert!(res.is_err());
    assert_eq!(
        res,
        Err(format_error("missing ending `e` delimiter for bencoded dictionary."))
    );
}

#[test]
fn remainder_is_returned() {
    let (v, rest) = decode_bencoded_value("4:spami7e".as_bytes()).unwrap();
    assert_eq!(v, bytes("spam"));
    assert_eq!(rest, "i7e".as_bytes());
    assert_eq!(decode("4:spami7e".as_bytes()).unwrap().1, 6);
}

#[test]
fn empty_input_is_unexpected_end() {
    assert_eq!(decode_bencoded_value(b""), Err(BencodeError::UnexpectedEnd));
}

#[test]
fn unknown_type_byte() {
    assert_eq!(decode_bencoded_value(b"x1e"), Err(BencodeError::UnknownValue(b'x')));
}

#[test]
fn negative_zero_is_rejected() {
    assert_eq!(
        decode_bencoded_value(b"i-0e"),
        Err(format_error(
            "invalid bencoded value `-0` found when parsing to integer value, expects valid `i64` value."
        ))
    );
}

#[test]
fn leading_zero_and_plus_sign_are_rejected() {
    assert!(matches!(decode_bencoded_value(b"i03e"), Err(BencodeError::DataFormat(_))));
    assert!(matches!(decode_bencoded_value(b"i+3e"), Err(BencodeError::DataFormat(_))));
    assert!(matches!(decode_bencoded_value(b"ie"), Err(BencodeError::DataFormat(_))));
    assert!(matches!(decode_bencoded_value(b"i-e"), Err(BencodeError::DataFormat(_))));
    assert_eq!(decode_bencoded_value(b"i0e").unwrap().0, Value::Int(0));
}

#[test]
fn integer_limits() {
    assert_eq!(
        decode_bencoded_value(b"i9223372036854775807e").unwrap().0,
        Value::Int(i64::MAX)
    );
    assert_eq!(
        decode_bencoded_value(b"i-9223372036854775808e").unwrap().0,
        Value::Int(i64::MIN)
    );
    assert!(matches!(
        decode_bencoded_value(b"i9223372036854775808e"),
        Err(BencodeError::DataFormat(_))
    ));
    assert!(matches!(
        decode_bencoded_value(b"i-9223372036854775809e"),
        Err(BencodeError::DataFormat(_))
    ));
}

#[test]
fn keys_come_out_ascending() {
    let (v, _) = decode_bencoded_value(b"d3:fooi1e3:bari2ee").unwrap();
    assert_eq!(
        v,
        Value::Dict(vec![(b"bar".to_vec(), Value::Int(2)), (b"foo".to_vec(), Value::Int(1))])
    );
    assert_eq!(encode(&v), b"d3:bari2e3:fooi1ee".to_vec());
}

#[test]
fn duplicate_key_last_wins() {
    let (v, _) = decode_bencoded_value(b"d1:ai1e1:ai2ee").unwrap();
    assert_eq!(v, Value::Dict(vec![(b"a".to_vec(), Value::Int(2))]));
}

#[test]
fn non_string_key_is_rejected() {
    assert_eq!(
        decode_bencoded_value(b"di1ei2ee"),
        Err(format_error(
            "bencoded dictionary must contain valid `string` data type for `key` value, received `i1e`."
        ))
    );
    assert_eq!(
        decode_bencoded_value(b"dl1:\xffei2ee"),
        Err(format_error(
            "bencoded dictionary must contain valid `string` data type for `key` value."
        ))
    );
}

#[test]
fn key_without_value_is_malformed() {
    assert_eq!(
        decode_bencoded_value(b"d1:a"),
        Err(format_error("missing value for key in bencoded dictionary."))
    );
}

#[test]
fn malformed_integer_messages_name_the_token() {
    assert_eq!(
        decode_bencoded_value(b"i9223372036854775808e"),
        Err(format_error(
            "expected valid `i64` value when parsing bencoded data to integer value, received `9223372036854775808`."
        ))
    );
    assert_eq!(
        decode_bencoded_value(b"i03e"),
        Err(format_error(
            "expected valid `i64` value when parsing bencoded data to integer value, received `03`."
        ))
    );
    assert_eq!(
        decode_bencoded_value(b"i\xffe"),
        Err(format_error("Invalid UTF-8 sequence in bencoded integer value."))
    );
}

#[test]
fn unterminated_collection_messages() {
    assert_eq!(
        decode_bencoded_value(b"li1e"),
        Err(format_error("missing ending `e` delimiter for bencoded list."))
    );
    assert_eq!(
        decode_bencoded_value(b"d1:ai1e"),
        Err(format_error("missing ending `e` delimiter for bencoded dictionary."))
    );
}

#[test]
fn length_too_large_for_64_bits_names_the_token() {
    assert_eq!(
        decode_bencoded_value(b"99999999999999999999:x"),
        Err(format_error(
            "invalid length value `99999999999999999999` provided for bencoded string value."
        ))
    );
}

#[test]
fn truncated_collections_fail() {
    for input in ["l", "li1e", "d", "d1:ai1e", "d1:a", "ll1:xe"] {
        assert!(
            matches!(decode_bencoded_value(input.as_bytes()), Err(BencodeError::DataFormat(_))),
            "{input}"
        );
    }
}

#[test]
fn short_byte_string_reports_both_lengths() {
    assert_eq!(
        decode_bencoded_value(b"10:abc"),
        Err(BencodeError::DataFormat(
            "provided string value's length `10` exceeds remaining input length `3`.".to_string()
        ))
    );
}

#[test]
fn non_utf8_bytes_are_kept() {
    let (v, rest) = decode_bencoded_value(&[b'2', b':', 0xff, 0xfe]).unwrap();
    assert_eq!(v, Value::Bytes(vec![0xff, 0xfe]));
    assert!(rest.is_empty());
}

#[test]
fn canonical_bytes_round_trip() {
    let inputs: [&[u8]; 5] = [
        b"i-53e",
        b"0:",
        b"l7:testingi-53e4:teste",
        b"d4:listl1:a1:be3:numi42e3:strd1:xi0eee",
        b"le",
    ];
    for input in inputs {
        let (v, rest) = decode_bencoded_value(input).unwrap();
        assert!(rest.is_empty());
        assert_eq!(encode(&v), input.to_vec());
    }
}

#[test]
fn encode_writes_each_kind() {
    assert_eq!(encode(&Value::Int(-1234567890)), b"i-1234567890e".to_vec());
    assert_eq!(encode(&Value::Int(0)), b"i0e".to_vec());
    assert_eq!(encode(&bytes("spam")), b"4:spam".to_vec());
    let v = Value::List(vec![Value::Int(3), Value::Dict(vec![(b"k".to_vec(), bytes(""))])]);
    assert_eq!(encode(&v), b"li3ed1:k0:ee".to_vec());
    let (back, _) = decode_bencoded_value(&encode(&v)).unwrap();
    assert_eq!(back, v);
}

#[test]
fn every_proper_prefix_is_malformed() {
    let inputs: [&[u8]; 3] = [
        b"l7:testingi-53e4:teste",
        b"d4:listl1:a1:be3:numi42e3:strd1:xi0eee",
        b"ld1:ki-7ee0:e",
    ];
    for input in inputs {
        for cut in 1..input.len() {
            assert!(
                matches!(decode_bencoded_value(&input[..cut]), Err(BencodeError::DataFormat(_))),
                "cut at {cut}"
            );
        }
    }
}

#[test]
fn key_order_does_not_matter() {
    let (a, _) = decode_bencoded_value(b"d1:ci3e1:ai1e1:bi2ee").unwrap();
    let (b, _) = decode_bencoded_value(b"d1:ai1e1:bi2e1:ci3ee").unwrap();
    assert_eq!(a, b);
    assert_eq!(encode(&a), b"d1:ai1e1:bi2e1:ci3ee".to_vec());
}
