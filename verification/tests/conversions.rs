use logdata::value::DataValue;

#[test]
fn boolean_conversion() {
    assert_eq!(DataValue::from(true), DataValue::Bool(true));
    assert_eq!(DataValue::from(false), DataValue::Bool(false));
}

#[test]
fn unsigned_conversions_widen_to_int() {
    assert_eq!(DataValue::from(7u8), DataValue::Int(7));
    assert_eq!(DataValue::from(7u16), DataValue::Int(7));
    assert_eq!(DataValue::from(7u32), DataValue::Int(7));
    assert_eq!(DataValue::from(7u64), DataValue::Int(7));
    assert_eq!(DataValue::from(7usize), DataValue::Int(7));
    assert_eq!(DataValue::from(u8::MAX), DataValue::Int(255));
    assert_eq!(DataValue::from(u64::MAX), DataValue::Int(u64::MAX));
}

#[test]
fn signed_conversions_widen_to_signed_int() {
    assert_eq!(DataValue::from(-7i8), DataValue::SignedInt(-7));
    assert_eq!(DataValue::from(-7i16), DataValue::SignedInt(-7));
    assert_eq!(DataValue::from(-7i32), DataValue::SignedInt(-7));
    assert_eq!(DataValue::from(-7i64), DataValue::SignedInt(-7));
    assert_eq!(DataValue::from(-7isize), DataValue::SignedInt(-7));
    assert_eq!(DataValue::from(i64::MIN), DataValue::SignedInt(i64::MIN));
    assert_eq!(DataValue::from(i8::MIN), DataValue::SignedInt(-128));
}

#[test]
fn variant_follows_static_type_not_magnitude() {
    // a non-negative signed-typed value still becomes SignedInt, and a
    // small unsigned-typed value still becomes Int
    assert_eq!(DataValue::from(3i32), DataValue::SignedInt(3));
    assert_eq!(DataValue::from(3u32), DataValue::Int(3));
    assert_ne!(DataValue::from(3i32), DataValue::from(3u32));
}

#[test]
fn text_conversions() {
    assert_eq!(
        DataValue::from("abc".to_string()),
        DataValue::String("abc".to_string())
    );
    assert_eq!(
        DataValue::from_text("abc"),
        DataValue::String("abc".to_string())
    );
}

#[test]
fn float_bits_recovered_exactly() {
    let v = DataValue::Float((2.5f64).to_bits());
    match v {
        DataValue::Float(bits) => assert_eq!(f64::from_bits(bits), 2.5f64),
        _ => panic!("wrong variant"),
    }
    // a 32-bit float widens to a 64-bit double before conversion
    let w = DataValue::Float((1.5f32 as f64).to_bits());
    assert_eq!(w, DataValue::Float((1.5f64).to_bits()));
}

#[test]
fn list_conversion_preserves_order() {
    let v = DataValue::from(vec![DataValue::from(1u64), DataValue::from(2u64)]);
    assert_eq!(
        v,
        DataValue::List(vec![DataValue::Int(1), DataValue::Int(2)])
    );
    assert_ne!(
        v,
        DataValue::List(vec![DataValue::Int(2), DataValue::Int(1)])
    );
}

#[test]
fn dict_conversion_last_write_wins() {
    let v = DataValue::dict_from_pairs(vec![
        ("a".to_string(), DataValue::from(1u64)),
        ("b".to_string(), DataValue::from(2u64)),
        ("a".to_string(), DataValue::from(3u64)),
    ]);
    let expected = DataValue::dict_from_pairs(vec![
        ("b".to_string(), DataValue::Int(2)),
        ("a".to_string(), DataValue::Int(3)),
    ]);
    assert_eq!(v, expected);
}

#[test]
fn deep_equality_ignores_dict_order_at_depth() {
    let a = DataValue::from(vec![DataValue::dict_from_pairs(vec![
        ("x".to_string(), DataValue::from(1u64)),
        ("y".to_string(), DataValue::from(2u64)),
    ])]);
    let b = DataValue::from(vec![DataValue::dict_from_pairs(vec![
        ("y".to_string(), DataValue::from(2u64)),
        ("x".to_string(), DataValue::from(1u64)),
    ])]);
    assert!(a.deep_eq(&b));
    assert_eq!(a, b);
}
