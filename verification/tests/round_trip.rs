use logdata::encode::JsonPiece;
use logdata::record::LogData;
use logdata::value::DataValue;

fn render_pieces(pieces: &[JsonPiece]) -> String {
    let mut s = String::new();
    for p in pieces {
        match p {
            JsonPiece::Text(t) => s.push_str(t),
            JsonPiece::Float(bits) => {
                s.push_str(&serde_json::to_string(&f64::from_bits(*bits)).unwrap())
            }
        }
    }
    s
}

fn reread_value(v: &serde_json::Value) -> DataValue {
    match v {
        serde_json::Value::Bool(b) => DataValue::Bool(*b),
        serde_json::Value::Number(n) => {
            if let Some(u) = n.as_u64() {
                DataValue::Int(u)
            } else if let Some(i) = n.as_i64() {
                DataValue::SignedInt(i)
            } else {
                DataValue::Float(n.as_f64().unwrap().to_bits())
            }
        }
        serde_json::Value::String(s) => DataValue::String(s.clone()),
        serde_json::Value::Array(items) => {
            DataValue::List(items.iter().map(reread_value).collect())
        }
        serde_json::Value::Object(entries) => DataValue::Dict(
            entries
                .iter()
                .map(|(k, v)| (k.clone(), reread_value(v)))
                .collect(),
        ),
        serde_json::Value::Null => panic!("the encoder never emits a null token"),
    }
}

fn reread_record(text: &str) -> LogData {
    let parsed: serde_json::Value = serde_json::from_str(text).unwrap();
    match parsed {
        serde_json::Value::Object(entries) => LogData::from_pairs(
            entries
                .iter()
                .map(|(k, v)| (k.clone(), reread_value(v)))
                .collect(),
        ),
        _ => panic!("a record encodes to an object"),
    }
}

#[test]
fn record_round_trips_through_the_reference_reader() {
    // non-negative signed values read back as unsigned, so signed
    // entries here are negative to keep the reread variant-exact
    let record = LogData::from_pairs(vec![
        ("flag".to_string(), DataValue::from(false)),
        ("big".to_string(), DataValue::from(u64::MAX)),
        ("low".to_string(), DataValue::from(i64::MIN)),
        ("pi_ish".to_string(), DataValue::Float((0.1f64).to_bits())),
        (
            "text".to_string(),
            DataValue::from("qu\"ote\\back\nline".to_string()),
        ),
        (
            "items".to_string(),
            DataValue::from(vec![
                DataValue::from(4u64),
                DataValue::from_text("five"),
                DataValue::dict_from_pairs(vec![(
                    "inner".to_string(),
                    DataValue::from(vec![DataValue::from(-6i64)]),
                )]),
            ]),
        ),
    ]);
    let text = render_pieces(&record.encode_pieces().unwrap());
    let reread = reread_record(&text);
    assert!(record.deep_eq(&reread));
    assert_eq!(record, reread);
}

#[test]
fn numeric_tokens_are_bit_exact() {
    for value in [0u64, 1, 9, 10, 12345678901234567, u64::MAX] {
        let pieces = DataValue::Int(value).encode_pieces().unwrap();
        let text = render_pieces(&pieces);
        let parsed: serde_json::Value = serde_json::from_str(&text).unwrap();
        assert_eq!(parsed.as_u64(), Some(value));
    }
    for value in [i64::MIN, -1, -10, i64::MAX] {
        let pieces = DataValue::SignedInt(value).encode_pieces().unwrap();
        let text = render_pieces(&pieces);
        let parsed: serde_json::Value = serde_json::from_str(&text).unwrap();
        assert_eq!(parsed.as_i64(), Some(value));
    }
    for value in [0.1f64, 2.0, -1.5e300, 5e-324, f64::MIN, f64::MAX] {
        let pieces = DataValue::Float(value.to_bits()).encode_pieces().unwrap();
        let text = render_pieces(&pieces);
        let parsed: serde_json::Value = serde_json::from_str(&text).unwrap();
        assert_eq!(parsed.as_f64().unwrap().to_bits(), value.to_bits());
    }
}
