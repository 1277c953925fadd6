use sqlite_clone::btree::Record;
use sqlite_clone::datatypes::{DataType, Value};
use std::cmp::Ordering;

#[test]
fn record_round_trip_fixed_columns() {
    let rec = Record::new(
        vec![
            DataType::Null(0),
            DataType::Int8(1),
            DataType::Int16(2),
            DataType::Int24(3),
            DataType::Int32(4),
            DataType::Int48(6),
            DataType::Int64(8),
            DataType::Float(8),
            DataType::Integer0(0),
            DataType::Integer1(0),
        ],
        vec![
            Value::Null,
            Value::Int8(-7),
            Value::Int16(300),
            Value::Int24(-70000),
            Value::Int32(1 << 30),
            Value::Int48(-(1i64 << 40)),
            Value::Int64(i64::MIN),
            Value::Float((2.5f64).to_bits()),
            Value::Integer0,
            Value::Integer1,
        ],
    );
    let bytes = rec.serialize();
    let back = Record::deserialize(&bytes).unwrap();
    assert_eq!(back.col_types.len(), 10);
    assert_eq!(back.values.len(), 10);
    for i in 0..10 {
        assert!(back.values[i] == rec.values[i] || (i == 0 && matches!(back.values[0], Value::Null)));
    }
    assert!(matches!(back.values[1], Value::Int8(-7)));
    assert!(matches!(back.values[3], Value::Int24(-70000)));
    assert!(matches!(back.values[6], Value::Int64(i64::MIN)));
    match back.values[7] {
        Value::Float(bits) => assert_eq!(bits, (2.5f64).to_bits()),
        _ => panic!("wrong class"),
    }
}

#[test]
fn record_round_trip_text_and_blob() {
    let rec = Record::new(
        vec![DataType::String(5), DataType::Blob(3), DataType::Int8(1)],
        vec![
            Value::String("hello".to_string()),
            Value::Blob(vec![1, 2, 3]),
            Value::Int8(9),
        ],
    );
    let bytes = rec.serialize();
    let back = Record::deserialize(&bytes).unwrap();
    assert!(back.values[0] == Value::String("hello".to_string()));
    assert!(back.values[1] == Value::Blob(vec![1, 2, 3]));
    assert!(back.values[2] == Value::Int8(9));
}

#[test]
fn record_deserialize_exact_bytes() {
    // header size 3 (varint 0x03), serial types [1, 1], body [5, 250-256]
    let bytes = [0x03, 0x01, 0x01, 0x05, 0xfa];
    let rec = Record::deserialize(&bytes).unwrap();
    assert_eq!(rec.col_types.len(), 2);
    assert!(rec.values[0] == Value::Int8(5));
    assert!(rec.values[1] == Value::Int8(-6));
}

#[test]
fn record_deserialize_reserved_type_fails() {
    // header declares serial type 10, which is reserved
    let bytes = [0x02, 0x0a];
    assert_eq!(
        Record::deserialize(&bytes).unwrap_err(),
        sqlite_clone::Error::InvalidSerialType
    );
}

#[test]
fn record_deserialize_truncated_body_fails() {
    // one 2-byte integer column declared, but only one body byte present
    let bytes = [0x02, 0x02, 0x01];
    assert_eq!(
        Record::deserialize(&bytes).unwrap_err(),
        sqlite_clone::Error::MalformedPage
    );
}

#[test]
fn record_compare_is_prefix_asymmetric() {
    let short = Record::new(
        vec![DataType::String(1)],
        vec![Value::String("b".to_string())],
    );
    let long = Record::new(
        vec![DataType::String(1), DataType::Int8(1)],
        vec![Value::String("b".to_string()), Value::Int8(2)],
    );
    // the left record's column count decides: short matches long's prefix
    assert!(short == long);
    // but the longer record does not equal the shorter one
    assert!(long != short);
    assert_eq!(long.partial_cmp(&short), Some(Ordering::Greater));
    assert_eq!(short.partial_cmp(&long), Some(Ordering::Equal));
}

#[test]
fn record_compare_orders_by_first_difference() {
    let a = Record::new(
        vec![DataType::Int8(1), DataType::Int8(1)],
        vec![Value::Int8(1), Value::Int8(9)],
    );
    let b = Record::new(
        vec![DataType::Int8(1), DataType::Int8(1)],
        vec![Value::Int8(1), Value::Int8(3)],
    );
    assert_eq!(a.partial_cmp(&b), Some(Ordering::Greater));
    assert_eq!(b.partial_cmp(&a), Some(Ordering::Less));
    assert_eq!(a.partial_cmp(&a), Some(Ordering::Equal));
}
