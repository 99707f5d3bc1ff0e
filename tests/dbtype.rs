use db_engine::dbtype::{deserialize_value, serialize_values, Type};
use db_engine::error::DbError;
use std::cmp::Ordering;

#[test]
fn dbtype_serialization_deserialization() {
    let test_cases = vec![
        Type::I8(42),
        Type::U8(100),
        Type::Boolean(true),
        Type::Boolean(false),
        Type::I16(1000),
        Type::U16(2000),
        Type::I32(100_000),
        Type::U32(200_000),
        Type::I64(1_000_000),
        Type::U64(2_000_000),
        Type::I128(10_000_000),
        Type::U128(20_000_000),
        Type::Varchar(5, String::from("Hello")),
        Type::Varchar(0, String::new()),
    ];

    for value in test_cases {
        let serialized = value.serialize();
        let deserialized = Type::deserialize(&serialized, &value).unwrap();
        assert_eq!(deserialized, value);
    }
}

#[test]
fn deserialize_errors() {
    let value = Type::I32(42);
    let serialized = value.serialize();
    assert!(Type::deserialize(&serialized[..2], &value).is_err());

    // Varchar with wrong length
    let varchar = Type::Varchar(5, String::from("Hello"));
    let short_data = b"Hi";
    assert!(Type::deserialize(short_data, &varchar).is_err());
}

#[test]
fn integers_are_little_endian_twos_complement() {
    assert_eq!(Type::I8(-1).serialize(), vec![0xff]);
    assert_eq!(Type::I16(-2).serialize(), vec![0xfe, 0xff]);
    assert_eq!(Type::U32(0x0102_0304).serialize(), vec![4, 3, 2, 1]);
    assert_eq!(Type::I64(-256).serialize(), vec![0, 0xff, 0xff, 0xff, 0xff, 0xff, 0xff, 0xff]);
    assert_eq!(Type::U16(258).serialize(), vec![2, 1]);
    assert_eq!(Type::Boolean(true).serialize(), vec![1]);
    assert_eq!(Type::U128(1).serialize().len(), 16);
}

#[test]
fn extreme_integers_round_trip() {
    let cases = vec![
        Type::I8(i8::MIN),
        Type::I8(i8::MAX),
        Type::I16(i16::MIN),
        Type::I32(i32::MIN),
        Type::I64(i64::MIN),
        Type::I128(i128::MIN),
        Type::I128(i128::MAX),
        Type::U64(u64::MAX),
        Type::U128(u128::MAX),
    ];
    for value in cases {
        let back = Type::deserialize(&value.serialize(), &value).unwrap();
        assert_eq!(back, value);
    }
}

#[test]
fn sizes_match_encodings() {
    assert_eq!(Type::I8(0).size(), 1);
    assert_eq!(Type::I16(0).size(), 2);
    assert_eq!(Type::I32(0).size(), 4);
    assert_eq!(Type::I64(0).size(), 8);
    assert_eq!(Type::I128(0).size(), 16);
    assert_eq!(Type::Varchar(10, String::from("a")).size(), 10);
    assert_eq!(Type::Varchar(10, String::from("a")).serialize(), vec![b'a', 0, 0, 0, 0, 0, 0, 0, 0, 0]);
}

#[test]
fn varchar_is_padded_and_truncated() {
    let short = Type::Varchar(6, String::from("ab"));
    let bytes = short.serialize();
    assert_eq!(bytes, vec![b'a', b'b', 0, 0, 0, 0]);
    assert_eq!(Type::deserialize(&bytes, &short).unwrap(), short);
    let long = Type::Varchar(3, String::from("abcdef"));
    assert_eq!(long.serialize(), b"abc".to_vec());
    let back = Type::deserialize(&long.serialize(), &long).unwrap();
    assert_eq!(back, Type::Varchar(3, String::from("abc")));
}

#[test]
fn varchar_with_invalid_utf8_is_corrupted() {
    let shape = Type::Varchar(2, String::new());
    assert_eq!(Type::deserialize(&[0xff, 0xfe], &shape), Err(DbError::CorruptedData));
    let ok = Type::deserialize("é".as_bytes(), &shape).unwrap();
    assert_eq!(ok, Type::Varchar(2, String::from("é")));
}

#[test]
fn truncated_buffer_error() {
    assert_eq!(Type::deserialize(&[1, 2, 3], &Type::U32(0)), Err(DbError::TruncatedBuffer));
    assert_eq!(Type::deserialize(&[], &Type::Boolean(false)), Err(DbError::TruncatedBuffer));
}

#[test]
fn record_round_trip() {
    let record = vec![Type::U32(7), Type::Varchar(10, String::from("seven")), Type::Boolean(true)];
    let bytes = serialize_values(&record);
    assert_eq!(bytes.len(), 15);
    let back = deserialize_value(&bytes, &record).unwrap();
    assert_eq!(back, record);
    assert_eq!(deserialize_value(&bytes[..14], &record), Err(DbError::TruncatedBuffer));
}

#[test]
fn value_order_and_equality() {
    assert_eq!(Type::I8(5).cmp(&Type::U8(0)), Ordering::Less);
    assert_eq!(Type::U8(3).cmp(&Type::U8(2)), Ordering::Greater);
    assert_eq!(Type::I32(-3).cmp(&Type::I32(2)), Ordering::Less);
    assert_eq!(
        Type::Varchar(3, String::from("b")).cmp(&Type::Varchar(4, String::from("a"))),
        Ordering::Less
    );
    assert_eq!(
        Type::Varchar(4, String::from("ab")).cmp(&Type::Varchar(4, String::from("aa"))),
        Ordering::Greater
    );
    assert_eq!(Type::Boolean(true).cmp(&Type::Boolean(true)), Ordering::Equal);
    assert_ne!(Type::U8(1), Type::U16(1));
    assert_ne!(Type::Varchar(3, String::from("a")), Type::Varchar(4, String::from("a")));
}

#[test]
fn type_ids() {
    assert_eq!(Type::I8(0).type_id(), 1);
    assert_eq!(Type::Varchar(1, String::new()).type_id(), 11);
    assert_eq!(Type::Boolean(true).type_id(), 12);
    assert_eq!(Type::from_type_id(9), Some(Type::U64(0)));
    assert_eq!(Type::from_type_id(11), Some(Type::Varchar(255, String::new())));
    assert_eq!(Type::from_type_id(13), None);
}
