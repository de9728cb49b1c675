use logdata::record::LogData;
use logdata::value::DataValue;

#[test]
fn test_from_tuple() {
    let data: LogData = LogData::from_pairs(vec![
        ("bool".to_string(), DataValue::from(true)),
        ("int".to_string(), DataValue::from(1u64)),
        ("float".to_string(), DataValue::Float((2.0f64).to_bits())),
        ("string".to_string(), DataValue::from("three".to_string())),
        (
            "vec_int".to_string(),
            DataValue::from(vec![DataValue::from(4u64), DataValue::from(5u64)]),
        ),
        (
            "vec_string".to_string(),
            DataValue::from(vec![
                DataValue::from("six".to_string()),
                DataValue::from("seven".to_string()),
            ]),
        ),
        (
            "hashmap_int".to_string(),
            DataValue::dict_from_pairs(vec![
                ("eight".to_string(), DataValue::from(8u64)),
                ("nine".to_string(), DataValue::from(9u64)),
            ]),
        ),
    ]);
    // the same mapping, hand-built in a different entry order: record
    // equality is key-for-key and value-for-value, order-independent
    let expected = LogData::from_pairs(vec![
        (
            "hashmap_int".to_string(),
            DataValue::dict_from_pairs(vec![
                ("nine".to_string(), DataValue::Int(9)),
                ("eight".to_string(), DataValue::Int(8)),
            ]),
        ),
        (
            "vec_string".to_string(),
            DataValue::List(vec![
                DataValue::String("six".to_string()),
                DataValue::String("seven".to_string()),
            ]),
        ),
        (
            "vec_int".to_string(),
            DataValue::List(vec![DataValue::Int(4), DataValue::Int(5)]),
        ),
        ("string".to_string(), DataValue::String("three".to_string())),
        ("float".to_string(), DataValue::Float((2.0f64).to_bits())),
        ("int".to_string(), DataValue::Int(1)),
        ("bool".to_string(), DataValue::Bool(true)),
    ]);
    assert_eq!(data, expected);
}

#[test]
fn from_pairs_every_arity() {
    // one record per arity from 1 up to the generator's old ceiling
    let mut keys: Vec<String> = Vec::new();
    for k in 1u64..=16u64 {
        keys.push(format!("key{}", k));
        let mut pairs: Vec<(String, DataValue)> = Vec::new();
        let mut reversed: Vec<(String, DataValue)> = Vec::new();
        for (i, key) in keys.iter().enumerate() {
            pairs.push((key.clone(), DataValue::from(i as u64)));
        }
        for (i, key) in keys.iter().enumerate().rev() {
            reversed.push((key.clone(), DataValue::from(i as u64)));
        }
        let record = LogData::from_pairs(pairs);
        assert_eq!(record.len(), k as usize);
        let reordered = LogData::from_pairs(reversed);
        assert_eq!(record, reordered);
    }
}

#[test]
fn collision_last_pair_wins() {
    let data = LogData::from_pairs(vec![
        ("k".to_string(), DataValue::from(1i64)),
        ("k".to_string(), DataValue::from(2i64)),
    ]);
    let expected = LogData::from_pairs(vec![("k".to_string(), DataValue::SignedInt(2))]);
    assert_eq!(data, expected);
    assert_eq!(data.len(), 1);
}
