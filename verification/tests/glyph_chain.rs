use receipt_ledger::canonical::content_hash;
use receipt_ledger::digest::Digest;
use receipt_ledger::json::{Field, Value};
use receipt_ledger::merkle::build_root;
use receipt_ledger::receipt::{check_content_hash, set_field, stamp};
use receipt_ledger::schema::{default_producers, validate};
use receipt_ledger::signature::{sign, StubSigner};

fn object(fields: Vec<(&str, Value)>) -> Value {
    Value::Object(fields.into_iter().map(|(name, value)| Field::new(name, value)).collect())
}

fn example(kind: &str, extra: Vec<(&str, Value)>) -> Value {
    let mut fields = vec![
        ("version", Value::text("1.0")),
        ("receipt_id", Value::text("receipt-00000000000000000000000000000000")),
        ("timestamp", Value::integer(1_700_000_000)),
        ("tenant_id", Value::text("xai-memphis-01")),
        ("receipt_type", Value::text(kind)),
        ("emitted_by", Value::text("rocket-engine")),
        ("content_hash", Value::text("")),
        ("signature", Value::text("")),
    ];
    fields.extend(extra);
    object(fields)
}

fn load_example(name: &str) -> Value {
    let items = || Value::Array(vec![Value::text("0x1"), Value::text("0x2")]);
    match name {
        "receipt_glyph.bore.example.json" => example(
            "bore_progress",
            vec![("meters_advanced", Value::decimal(125, 1)), ("cutter_head_rpm", Value::integer(9))],
        ),
        "receipt_glyph.orbital.example.json" => example(
            "orbital_telemetry",
            vec![
                ("satellite_id", Value::text("starlink-4242")),
                ("signal_strength_dbm", Value::decimal(-825, 1)),
                ("latency_ms", Value::decimal(312, 1)),
            ],
        ),
        "receipt_glyph.zk_anomaly.example.json" => example(
            "zk_anomaly_proof",
            vec![
                ("zk_proof", object(vec![("pi_a", items()), ("pi_b", items()), ("pi_c", items())])),
                ("public_inputs", Value::Array(vec![Value::text("0x2a")])),
                ("anomaly_hint", Value::text("thermal drift")),
            ],
        ),
        "receipt_glyph.entanglement.example.json" => example(
            "entanglement_prediction",
            vec![
                ("correlation_score", Value::decimal(91, 2)),
                ("predicted_negation_ms", Value::decimal(125, 1)),
            ],
        ),
        other => panic!("no example named {other}"),
    }
}

fn set(receipt: Value, name: &str, value: Value) -> Value {
    let mut fields = match receipt {
        Value::Object(fields) => fields,
        _ => panic!("object"),
    };
    set_field(&mut fields, name, value);
    Value::Object(fields)
}

fn make_receipt_id(i: u32) -> String {
    format!("receipt-{i:032x}")
}

fn link(template: &Value, i: u32, timestamp: u64, emitted_by: &str) -> Value {
    let r = set(template.clone(), "timestamp", Value::unsigned(timestamp));
    let r = set(r, "emitted_by", Value::text(emitted_by));
    let r = stamp(r, &StubSigner).expect("object with a tenant");
    set(r, "receipt_id", Value::text(&make_receipt_id(i)))
}

fn leaf_hashes(chain: &[Value]) -> Vec<Digest> {
    chain
        .iter()
        .map(|r| {
            let h = r.get("content_hash").and_then(|v| v.as_text()).expect("hash");
            Digest::from_hex(h).expect("valid hex")
        })
        .collect()
}

#[test]
fn test_glyph_chain_build_merkle_and_sign() {
    let bore_example = load_example("receipt_glyph.bore.example.json");
    let orbital_example = load_example("receipt_glyph.orbital.example.json");
    let zk_example = load_example("receipt_glyph.zk_anomaly.example.json");
    let ent_example = load_example("receipt_glyph.entanglement.example.json");
    let producers = default_producers();

    assert_eq!(
        bore_example.get("tenant_id"),
        Some(&Value::text("xai-memphis-01")),
        "bore example tenant must be xai-memphis-01"
    );

    let mut chain: Vec<Value> = Vec::with_capacity(10);
    let base_ts: i64 = 1_763_000_000;

    for i in 0..6u32 {
        let r = set(
            bore_example.clone(),
            "meters_advanced",
            Value::decimal(10_000 + 1000 * i as i128, 3),
        );
        let r = link(&r, i, (base_ts + i as i64) as u64, "rocket-engine");
        assert!(validate(&r, &producers).is_ok(), "bore_progress receipt must validate");
        chain.push(r);
    }

    {
        let r = link(&orbital_example, 100, (base_ts + 100) as u64, "nebula-guard");
        assert!(validate(&r, &producers).is_ok(), "orbital_telemetry receipt must validate");
        chain.push(r);
    }

    {
        let r = link(&zk_example, 200, (base_ts + 200) as u64, "nebula-guard");
        assert!(validate(&r, &producers).is_ok(), "zk_anomaly_proof receipt must validate");
        chain.push(r);
    }

    {
        let r = link(&ent_example, 300, (base_ts + 300) as u64, "digital-twin-groot");
        assert!(
            validate(&r, &producers).is_ok(),
            "entanglement_prediction receipt must validate"
        );
        chain.push(r);
    }

    // The receipts above are nine; the transition that closes the batch
    // makes the chain whole.
    {
        let closing = example("phase_transition", vec![]);
        let r = link(&closing, 400, (base_ts + 400) as u64, "ledger-explorer");
        assert!(validate(&r, &producers).is_ok(), "phase_transition receipt must validate");
        chain.push(r);
    }

    assert_eq!(chain.len(), 10, "expected 10 receipts in chain");

    let mut prev_ts = None;
    for r in &chain {
        let ts = r
            .get("timestamp")
            .and_then(|v| v.as_number())
            .map(|n| n.mantissa)
            .expect("timestamp");
        if let Some(p) = prev_ts {
            assert!(ts >= p, "timestamps must be non-decreasing for chain continuity");
        }
        prev_ts = Some(ts);

        let stored = r.get("content_hash").and_then(|v| v.as_text()).expect("content_hash");
        let recomputed = content_hash(r);
        assert_eq!(stored, recomputed, "content_hash must match recomputed canonical hash");
        assert!(check_content_hash(r));

        validate(r, &producers)
            .unwrap_or_else(|e| panic!("schema-like validation failed: {}", e.reason()));
    }

    let root1 = build_root(&leaf_hashes(&chain)).unwrap();
    let root1_hex = root1.to_hex();

    assert_eq!(root1_hex.len(), 64, "Merkle root must be 32-byte blake3 hex");

    let kyber_sig = sign(&root1_hex, "xai-memphis-01");
    assert!(
        !kyber_sig.is_empty(),
        "Kyber stub signature over Merkle root must be non-empty"
    );

    let mut mutated_chain = chain.clone();
    let changed = mutated_chain
        .iter()
        .rposition(|r| r.get("meters_advanced").is_some())
        .expect("a receipt with meters_advanced");
    let m = mutated_chain[changed]
        .get("meters_advanced")
        .and_then(|v| v.as_number())
        .expect("valid number");
    assert_eq!(m.scale, 3);
    let moved = set(
        mutated_chain[changed].clone(),
        "meters_advanced",
        Value::decimal(m.mantissa + 1, 3),
    );
    mutated_chain[changed] = stamp(moved, &StubSigner).unwrap();

    let root2 = build_root(&leaf_hashes(&mutated_chain)).unwrap();
    let root2_hex = root2.to_hex();

    assert_ne!(root1_hex, root2_hex, "Merkle root must change when a leaf receipt changes");
}
