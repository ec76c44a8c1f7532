use receipt_ledger::canonical::{canonical_bytes_of, content_digest, content_hash, is_volatile, name_less};
use receipt_ledger::json::{Field, Number, Value};
use receipt_ledger::json_text::json_bytes_of;

fn object(fields: Vec<(&str, Value)>) -> Value {
    Value::Object(fields.into_iter().map(|(name, value)| Field::new(name, value)).collect())
}

fn text_of(v: &Value) -> String {
    String::from_utf8(canonical_bytes_of(v)).unwrap()
}

fn sample() -> Value {
    object(vec![
        ("version", Value::text("1.0")),
        ("timestamp", Value::integer(1_763_000_000)),
        ("tenant_id", Value::text("xai-memphis-01")),
        ("receipt_type", Value::text("bore_progress")),
        ("meters_advanced", Value::decimal(105, 1)),
        ("cutter_head_rpm", Value::integer(12)),
        ("tags", Value::Array(vec![Value::text("b"), Value::text("a"), Value::Null, Value::Bool(true)])),
        ("nested", object(vec![("z", Value::integer(1)), ("a", Value::Bool(false))])),
    ])
}

#[test]
fn canonical_bytes_sort_fields_and_keep_array_order() {
    assert_eq!(
        text_of(&sample()),
        "{\"cutter_head_rpm\":12,\"meters_advanced\":10.5,\"nested\":{\"a\":false,\"z\":1},\
         \"receipt_type\":\"bore_progress\",\"tags\":[\"b\",\"a\",null,true],\
         \"tenant_id\":\"xai-memphis-01\",\"timestamp\":1763000000,\"version\":\"1.0\"}"
    );
}

#[test]
fn scalars_are_written_as_they_are() {
    assert_eq!(text_of(&Value::Null), "null");
    assert_eq!(text_of(&Value::Bool(true)), "true");
    assert_eq!(text_of(&Value::Bool(false)), "false");
    assert_eq!(text_of(&Value::integer(0)), "0");
    assert_eq!(text_of(&Value::integer(-42)), "-42");
    assert_eq!(text_of(&Value::integer(i64::MIN)), "-9223372036854775808");
    assert_eq!(text_of(&Value::unsigned(u64::MAX)), "18446744073709551615");
    assert_eq!(text_of(&Value::decimal(6000, 2)), "60.00");
    assert_eq!(text_of(&Value::decimal(5, 3)), "0.005");
    assert_eq!(text_of(&Value::decimal(-5, 2)), "-0.05");
    assert_eq!(text_of(&Value::decimal(12_500_000, 6)), "12.500000");
    assert_eq!(
        text_of(&Value::decimal(i128::MIN, 0)),
        "-170141183460469231731687303715884105728"
    );
    assert_eq!(text_of(&Value::Array(vec![])), "[]");
    assert_eq!(text_of(&object(vec![])), "{}");
}

#[test]
fn text_is_quoted_and_escaped() {
    assert_eq!(text_of(&Value::text("plain")), "\"plain\"");
    assert_eq!(text_of(&Value::text("a\"b\\c")), "\"a\\\"b\\\\c\"");
    assert_eq!(
        text_of(&Value::text("\u{8}\t\n\u{c}\r\u{1}\u{1f}")),
        "\"\\b\\t\\n\\f\\r\\u0001\\u001f\""
    );
    assert_eq!(text_of(&Value::text("naïve ✓")), "\"naïve ✓\"");
}

#[test]
fn canonical_bytes_agree_with_serde_json_on_whole_numbers_and_text() {
    let mut inner = serde_json::Map::new();
    inner.insert("z".to_string(), serde_json::Value::from(1));
    inner.insert("a".to_string(), serde_json::Value::from("q\"uo\nte"));
    let mut outer = serde_json::Map::new();
    outer.insert("b".to_string(), serde_json::Value::Object(inner));
    outer.insert("a".to_string(), serde_json::Value::Array(vec![serde_json::Value::Null, serde_json::Value::from(-7)]));
    let theirs = serde_json::to_vec(&serde_json::Value::Object(outer)).unwrap();
    let ours = object(vec![
        ("b", object(vec![("z", Value::integer(1)), ("a", Value::text("q\"uo\nte"))])),
        ("a", Value::Array(vec![Value::Null, Value::integer(-7)])),
    ]);
    assert_eq!(canonical_bytes_of(&ours), theirs);
}

#[test]
fn permuted_fields_give_the_same_content_hash() {
    let a = sample();
    let mut fields = match sample() {
        Value::Object(fields) => fields,
        _ => unreachable!(),
    };
    fields.reverse();
    fields.swap(1, 4);
    let b = Value::Object(fields);
    assert_ne!(a, b);
    assert_eq!(canonical_bytes_of(&a), canonical_bytes_of(&b));
    assert_eq!(content_hash(&a), content_hash(&b));
}

#[test]
fn derived_fields_do_not_reach_the_content_hash() {
    let plain = sample();
    let mut fields = match sample() {
        Value::Object(fields) => fields,
        _ => unreachable!(),
    };
    fields.insert(0, Field::new("signature", Value::text("ff")));
    fields.push(Field::new("receipt_id", Value::text("receipt-1")));
    fields.push(Field::new("content_hash", Value::text("00")));
    let with_derived = Value::Object(fields);
    assert_eq!(content_hash(&plain), content_hash(&with_derived));
    let nested = object(vec![
        ("a", object(vec![("signature", Value::text("x")), ("k", Value::integer(1))])),
    ]);
    assert_eq!(text_of(&nested), "{\"a\":{\"k\":1}}");
}

#[test]
fn any_other_field_reaches_the_content_hash() {
    let base = content_hash(&sample());
    let mut fields = match sample() {
        Value::Object(fields) => fields,
        _ => unreachable!(),
    };
    for i in 0..fields.len() {
        let kept = fields[i].value.clone();
        fields[i].value = Value::text("changed");
        assert_ne!(content_hash(&Value::Object(fields.clone())), base);
        fields[i].value = kept;
    }
    fields[4].value = Value::decimal(1050, 2);
    assert_ne!(content_hash(&Value::Object(fields.clone())), base);
    fields.push(Field::new("extra", Value::Null));
    assert_ne!(content_hash(&Value::Object(fields)), base);
}

#[test]
fn last_field_of_a_name_counts() {
    let v = object(vec![("k", Value::integer(1)), ("j", Value::integer(5)), ("k", Value::integer(2))]);
    assert_eq!(text_of(&v), "{\"j\":5,\"k\":2}");
    assert_eq!(v.get("k"), Some(&Value::integer(2)));
    assert_eq!(v.get("missing"), None);
    assert_eq!(Value::integer(1).get("k"), None);
}

#[test]
fn names_sort_by_their_bytes() {
    assert!(name_less("a", "b"));
    assert!(name_less("a", "aa"));
    assert!(name_less("", "a"));
    assert!(name_less("Z", "a"));
    assert!(name_less("z", "é"));
    assert!(!name_less("a", "a"));
    assert!(!name_less("b", "a"));
    assert!(["a", "é", "z"].iter().all(|k| !name_less(k, "\u{0}") || *k == ""));
    let v = object(vec![("é", Value::Null), ("z", Value::Null), ("Z", Value::Null), ("a", Value::Null)]);
    assert_eq!(text_of(&v), "{\"Z\":null,\"a\":null,\"z\":null,\"é\":null}");
}

#[test]
fn volatile_names_are_exactly_three() {
    for name in ["content_hash", "signature", "receipt_id"] {
        assert!(is_volatile(&name.to_string()));
    }
    for name in ["tenant_id", "Content_hash", "signature ", "", "receipt"] {
        assert!(!is_volatile(&name.to_string()));
    }
}

#[test]
fn content_hash_is_the_digest_of_the_canonical_bytes() {
    let v = sample();
    let bytes = canonical_bytes_of(&v);
    assert_eq!(content_digest(&v).bytes, *blake3::hash(&bytes).as_bytes());
    assert_eq!(content_hash(&v), blake3::hash(&bytes).to_hex().to_string());
    assert_eq!(content_hash(&v).len(), 64);
}

#[test]
fn copies_hold_the_same() {
    let v = sample();
    assert_eq!(v.duplicate(), v);
    assert_eq!(v.clone(), v);
    assert_eq!(Value::decimal(7, 1).as_number(), Some(Number { mantissa: 7, scale: 1 }));
    assert_eq!(Value::text("t").as_text(), Some("t"));
    assert_eq!(Value::Array(vec![Value::Null]).array_len(), Some(1));
    assert_eq!(Value::Null.array_len(), None);
}

struct Lcg(u64);

impl Lcg {
    fn next(&mut self, bound: u64) -> u64 {
        self.0 = self.0.wrapping_mul(6364136223846793005).wrapping_add(1442695040888963407);
        (self.0 >> 33) % bound
    }

    fn name(&mut self) -> String {
        const NAMES: [&str; 12] = [
            "a", "b", "ab", "B", "é", "zz", "", "a\"b", "tab\tbed", "content_hash", "signature",
            "receipt_id",
        ];
        NAMES[self.next(NAMES.len() as u64) as usize].to_string()
    }

    fn text(&mut self) -> String {
        const PIECES: [&str; 10] =
            ["x", "\"", "\\", "\n", "\u{1}", "\u{1f}", "\u{7f}", "ß", "✓", "/"];
        let mut s = String::new();
        for _ in 0..self.next(5) {
            s.push_str(PIECES[self.next(PIECES.len() as u64) as usize]);
        }
        s
    }

    fn pair(&mut self, depth: u32) -> (Value, serde_json::Value) {
        let kinds = if depth == 0 { 4 } else { 6 };
        match self.next(kinds) {
            0 => (Value::Null, serde_json::Value::Null),
            1 => {
                let b = self.next(2) == 1;
                (Value::Bool(b), serde_json::Value::Bool(b))
            }
            2 => {
                let n = self.next(u64::MAX) as i64 >> self.next(63);
                let n = if self.next(2) == 1 { n.wrapping_neg() } else { n };
                (Value::integer(n), serde_json::Value::from(n))
            }
            3 => {
                let s = self.text();
                (Value::text(&s), serde_json::Value::from(s))
            }
            4 => {
                let mut ours = Vec::new();
                let mut theirs = Vec::new();
                for _ in 0..self.next(4) {
                    let (a, b) = self.pair(depth - 1);
                    ours.push(a);
                    theirs.push(b);
                }
                (Value::Array(ours), serde_json::Value::Array(theirs))
            }
            _ => {
                let mut ours = Vec::new();
                let mut theirs = serde_json::Map::new();
                for _ in 0..self.next(7) {
                    let name = self.name();
                    let (a, b) = self.pair(depth - 1);
                    ours.push(Field::new(&name, a));
                    if !is_volatile(&name) {
                        theirs.insert(name, b);
                    }
                }
                (Value::Object(ours), serde_json::Value::Object(theirs))
            }
        }
    }
}

#[test]
fn generated_values_agree_with_a_sorted_map() {
    let mut lcg = Lcg(0x5eed);
    for _ in 0..400 {
        let (ours, theirs) = lcg.pair(3);
        assert_eq!(
            String::from_utf8(canonical_bytes_of(&ours)).unwrap(),
            serde_json::to_string(&theirs).unwrap()
        );
    }
}

#[test]
fn json_text_keeps_every_field_and_every_digit() {
    let v = object(vec![
        ("version", Value::text("1.0")),
        ("reduction_percent", Value::decimal(6000, 2)),
        ("pce_transitivity", Value::decimal(8900, 4)),
        ("signature", Value::text("ab")),
        ("rows", Value::Array(vec![Value::integer(100), Value::Null, Value::Bool(false)])),
        ("nested", object(vec![("z", Value::decimal(-5, 1)), ("content_hash", Value::text("q\"t"))])),
        ("empty", object(vec![])),
    ]);
    let text = String::from_utf8(json_bytes_of(&v)).unwrap();
    assert_eq!(
        text,
        "{\"version\":\"1.0\",\"reduction_percent\":60.00,\"pce_transitivity\":0.8900,\
         \"signature\":\"ab\",\"rows\":[100,null,false],\
         \"nested\":{\"z\":-0.5,\"content_hash\":\"q\\\"t\"},\"empty\":{}}"
    );
    let parsed: serde_json::Value = serde_json::from_str(&text).unwrap();
    assert_eq!(parsed["reduction_percent"].as_f64(), Some(60.0));
    assert_eq!(parsed["nested"]["content_hash"].as_str(), Some("q\"t"));
    assert_eq!(json_bytes_of(&Value::decimal(6000, 2)), canonical_bytes_of(&Value::decimal(6000, 2)));
}

#[test]
fn a_printed_receipt_lets_its_content_hash_be_recomputed() {
    let receipt = receipt_ledger::receipt::stamp(
        object(vec![
            ("tenant_id", Value::text("xai-memphis-01")),
            ("reduction_percent", Value::decimal(6000, 2)),
            ("input_row_count", Value::integer(100)),
        ]),
        &receipt_ledger::signature::StubSigner,
    )
    .unwrap();
    let printed = String::from_utf8(json_bytes_of(&receipt)).unwrap();
    // What a reader does: drop the derived fields, sort the rest, hash.
    let hashed = "{\"input_row_count\":100,\"reduction_percent\":60.00,\"tenant_id\":\"xai-memphis-01\"}";
    for field in ["\"input_row_count\":100", "\"reduction_percent\":60.00", "\"tenant_id\":\"xai-memphis-01\""] {
        assert!(printed.contains(field), "{printed}");
    }
    let expected = blake3::hash(hashed.as_bytes()).to_hex().to_string();
    assert!(printed.contains(&format!("\"content_hash\":\"{expected}\"")), "{printed}");
    assert_eq!(content_hash(&receipt), expected);
}
