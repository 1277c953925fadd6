use sqlite_clone::datatypes::{DataType, Value, VarInt};
use sqlite_clone::Error;

#[test]
fn value_order() {
    let val_null = Value::Null;
    let val_int8_1 = Value::Int8(1);
    let val_int8_2 = Value::Int8(2);
    let val_int16_1 = Value::Int16(1);
    let val_int16_2 = Value::Int16(2);
    let val_int24_1 = Value::Int24(1);
    let val_int24_2 = Value::Int24(2);
    let val_int32_1 = Value::Int32(1);
    let val_int32_2 = Value::Int32(2);
    let val_int48_1 = Value::Int48(1);
    let val_int48_2 = Value::Int48(2);
    let val_int64_1 = Value::Int64(1);
    let val_int64_2 = Value::Int64(2);
    let val_float_1 = Value::Float((1.0f64).to_bits());
    let val_float_2 = Value::Float((2.0f64).to_bits());
    let val_float_nan = Value::Float(f64::NAN.to_bits());
    let val_int0 = Value::Integer0;
    let val_int1 = Value::Integer1;
    let val_string_a = Value::String("a".to_string());
    let val_string_b = Value::String("b".to_string());
    let val_blob_1 = Value::Blob(vec![0x01]);
    let val_blob_2 = Value::Blob(vec![0x02]);

    // NULLs always sorted first
    assert!(val_null < val_int8_1);
    assert!(val_null < val_int16_1);
    assert!(val_null < val_int16_1);
    assert!(val_null < val_int24_1);
    assert!(val_null < val_int32_1);
    assert!(val_null < val_int48_1);
    assert!(val_null < val_int64_1);
    assert!(val_null < val_float_1);
    assert!(val_null < val_float_nan);
    assert!(val_null < val_int0);
    assert!(val_null < val_int1);
    assert!(val_null < val_string_a);
    assert!(val_null < val_blob_1);

    assert!(val_int8_1 < val_int8_2);
    assert!(val_int8_1 == val_int16_1);
    assert!(val_int8_1 < val_int16_2);
    assert!(val_int8_1 == val_int24_1);
    assert!(val_int8_1 < val_int24_2);
    assert!(val_int8_1 == val_int32_1);
    assert!(val_int8_1 < val_int32_2);
    assert!(val_int8_1 == val_int48_1);
    assert!(val_int8_1 < val_int48_2);
    assert!(val_int8_1 == val_int64_1);
    assert!(val_int8_1 < val_int64_2);
    assert!(val_int8_1 == val_float_1);
    assert!(val_int8_1 < val_float_2);
    assert!(val_int8_1 != val_float_nan);
    assert!(val_int8_1 > val_int0);
    assert!(val_int8_1 == val_int1);
    assert!(val_int8_1 < val_string_a);
    assert!(val_int8_1 < val_blob_1);

    assert!(val_int16_1 < val_int16_2);
    assert!(val_int24_1 < val_int24_2);
    assert!(val_int32_1 < val_int32_2);
    assert!(val_int48_1 < val_int48_2);
    assert!(val_int64_1 < val_int64_2);

    assert!(val_float_1 < val_float_2);
    assert!(val_float_1 != val_float_nan);
    assert!(val_float_2 != val_float_nan);

    assert!(val_int0 < val_int1);

    assert!(val_string_a < val_string_b);
    assert!(val_string_a < val_blob_1);
    assert!(val_string_a < val_blob_2);

    assert!(val_blob_1 < val_blob_2);
}

#[test]
fn ordering_null_int_string_blob() {
    // NULL < Int8(1) < String("a") < Blob([0x01])
    let null = Value::Null;
    let one = Value::Int8(1);
    let a = Value::String("a".to_string());
    let blob = Value::Blob(vec![0x01]);
    assert!(null < one);
    assert!(one < a);
    assert!(a < blob);
    assert!(null < a);
    assert!(null < blob);
    assert!(one < blob);
}

#[test]
fn equality_across_numeric_classes() {
    // Int8(1) == Int16(1) == Integer1 == Float(1.0); NaN equals nothing
    assert!(Value::Int8(1) == Value::Int16(1));
    assert!(Value::Int16(1) == Value::Integer1);
    assert!(Value::Integer1 == Value::Float((1.0f64).to_bits()));
    assert!(Value::Int8(1) == Value::Float((1.0f64).to_bits()));
    let nan = Value::Float(f64::NAN.to_bits());
    let nan2 = Value::Float(f64::NAN.to_bits());
    assert!(nan != nan2);
}

#[test]
fn float_integer_comparisons_widen() {
    // a large odd integer rounds to the nearest double when compared
    let f = Value::Float(((1i64 << 53) as f64).to_bits());
    let just_above = Value::Int64((1i64 << 53) + 1);
    // (2^53 + 1) as f64 rounds down to 2^53, so the comparison ties
    assert!(f == just_above);
    assert!(Value::Float((2.5f64).to_bits()) > Value::Int8(2));
    assert!(Value::Float((2.5f64).to_bits()) < Value::Int8(3));
    assert!(Value::Float((-0.0f64).to_bits()) == Value::Integer0);
    assert!(Value::Float((-3.5f64).to_bits()) < Value::Int32(-3));
}

#[test]
fn value_new_decodes_by_class() {
    assert!(Value::new(&DataType::Null(0), &[]) == Value::Null);
    assert!(Value::new(&DataType::Int8(1), &[0xff]) == Value::Int8(-1));
    assert!(Value::new(&DataType::Int16(2), &[0x01, 0x02]) == Value::Int16(0x0102));
    assert!(Value::new(&DataType::Int24(3), &[0xff, 0xff, 0xfe]) == Value::Int24(-2));
    assert!(Value::new(&DataType::Int32(4), &[0, 0, 0, 7]) == Value::Int32(7));
    assert!(
        Value::new(&DataType::Int48(6), &[0xff, 0xff, 0xff, 0xff, 0xff, 0xff])
            == Value::Int48(-1)
    );
    assert!(
        Value::new(&DataType::Int64(8), &[0, 0, 0, 0, 0, 0, 1, 0]) == Value::Int64(256)
    );
    let pi_bytes = std::f64::consts::PI.to_be_bytes();
    match Value::new(&DataType::Float(8), &pi_bytes) {
        Value::Float(bits) => assert_eq!(bits, std::f64::consts::PI.to_bits()),
        _ => panic!("wrong class"),
    }
    // the text decoder really decodes: the value compares as text, and
    // the characters came through UTF-8
    let v = Value::new(&DataType::String(2), b"hi");
    match &v {
        Value::String(s) => assert_eq!(s.as_str(), "hi"),
        _ => panic!("wrong class"),
    }
    let w = Value::new(&DataType::Blob(2), &[9, 8]);
    assert!(w == Value::Blob(vec![9, 8]));
}

#[test]
fn get_int_val_across_classes() {
    assert_eq!(Value::Int8(-5).get_int_val(), Some(-5));
    assert_eq!(Value::Int48(1 << 40).get_int_val(), Some(1 << 40));
    assert_eq!(Value::Integer0.get_int_val(), Some(0));
    assert_eq!(Value::Integer1.get_int_val(), Some(1));
    assert_eq!(Value::Null.get_int_val(), None);
    assert_eq!(Value::Float((3.0f64).to_bits()).get_int_val(), None);
    assert_eq!(Value::String("3".to_string()).get_int_val(), None);
}

#[test]
fn serial_type_mapping() {
    assert!(matches!(DataType::from_varint(VarInt(0)), Ok(DataType::Null(0))));
    assert!(matches!(DataType::from_varint(VarInt(1)), Ok(DataType::Int8(1))));
    assert!(matches!(DataType::from_varint(VarInt(5)), Ok(DataType::Int48(6))));
    assert!(matches!(DataType::from_varint(VarInt(7)), Ok(DataType::Float(8))));
    assert!(matches!(DataType::from_varint(VarInt(8)), Ok(DataType::Integer0(0))));
    assert!(matches!(DataType::from_varint(VarInt(9)), Ok(DataType::Integer1(0))));
    // reserved and negative serial types are invalid
    assert_eq!(DataType::from_varint(VarInt(10)).unwrap_err(), Error::InvalidSerialType);
    assert_eq!(DataType::from_varint(VarInt(11)).unwrap_err(), Error::InvalidSerialType);
    assert_eq!(DataType::from_varint(VarInt(-3)).unwrap_err(), Error::InvalidSerialType);
    // even codes from 12 are blobs, odd from 13 are text
    assert!(matches!(DataType::from_varint(VarInt(18)), Ok(DataType::Blob(3))));
    assert!(matches!(DataType::from_varint(VarInt(19)), Ok(DataType::String(3))));
    // sizes follow the class
    assert_eq!(DataType::Int48(6).get_size(), Some(6));
    assert_eq!(DataType::Internal.get_size(), None);
}
