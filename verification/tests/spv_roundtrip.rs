use receipt_ledger::canonical::content_hash;
use receipt_ledger::json::{Field, Value};
use receipt_ledger::merkle::{build_proof, parse_leaves, verify_proof, ProofNode};
use receipt_ledger::receipt::{check_signature, set_field, stamp};
use receipt_ledger::schema::{default_producers, validate, ValidationError};
use receipt_ledger::signature::{sign, StubSigner};
use receipt_ledger::text::is_hex_str;

const TENANT_ID: &str = "xai-memphis-01";

fn object(fields: Vec<(&str, Value)>) -> Value {
    Value::Object(fields.into_iter().map(|(name, value)| Field::new(name, value)).collect())
}

fn load_json(path: &str) -> Value {
    let items = || Value::Array(vec![Value::text("0x1"), Value::text("0x2")]);
    let (kind, producer, extra) = match path {
        "glyphs/examples/receipt_glyph.bore.example.json" => (
            "bore_progress",
            "rocket-engine",
            vec![("meters_advanced", Value::decimal(125, 1)), ("cutter_head_rpm", Value::integer(9))],
        ),
        "glyphs/examples/receipt_glyph.orbital.example.json" => (
            "orbital_telemetry",
            "nebula-guard",
            vec![
                ("satellite_id", Value::text("starlink-4242")),
                ("signal_strength_dbm", Value::decimal(-825, 1)),
                ("latency_ms", Value::decimal(312, 1)),
            ],
        ),
        "glyphs/examples/receipt_glyph.zk_anomaly.example.json" => (
            "zk_anomaly_proof",
            "nebula-guard",
            vec![
                ("zk_proof", object(vec![("pi_a", items()), ("pi_b", items()), ("pi_c", items())])),
                ("public_inputs", Value::Array(vec![Value::text("0x2a")])),
                ("anomaly_hint", Value::text("thermal drift")),
            ],
        ),
        "glyphs/examples/receipt_glyph.entanglement.example.json" => (
            "entanglement_prediction",
            "digital-twin-groot",
            vec![
                ("correlation_score", Value::decimal(91, 2)),
                ("predicted_negation_ms", Value::decimal(125, 1)),
            ],
        ),
        other => panic!("failed to read {}", other),
    };
    let mut fields = vec![
        ("version", Value::text("0.9")),
        ("tenant_id", Value::text("example-tenant")),
        ("receipt_type", Value::text(kind)),
        ("emitted_by", Value::text(producer)),
    ];
    fields.extend(extra);
    object(fields)
}

fn set(receipt: Value, name: &str, value: Value) -> Value {
    let mut fields = match receipt {
        Value::Object(fields) => fields,
        _ => panic!("object"),
    };
    set_field(&mut fields, name, value);
    Value::Object(fields)
}

fn submit(template: &Value, receipt_id: &str, timestamp: u64) -> Value {
    let r = set(template.clone(), "version", Value::text("1.0"));
    let r = set(r, "tenant_id", Value::text(TENANT_ID));
    let r = set(r, "receipt_id", Value::text(receipt_id));
    let r = set(r, "timestamp", Value::unsigned(timestamp));
    let r = set(r, "content_hash", Value::Null);
    let r = set(r, "signature", Value::Null);
    // An id that is not 32 hexadecimal digits is refused until the stamp
    // replaces it with the one made from the content hash.
    assert_eq!(validate(&r, &default_producers()), Err(ValidationError::ReceiptId));
    stamp(r, &StubSigner).expect("object with a tenant")
}

fn has_items(v: &Value, name: &str) -> bool {
    v.get(name).and_then(|a| a.array_len()).map(|n| n > 0).unwrap_or(false)
}

fn zk_verify_stub(r: &Value) -> bool {
    if r.get("receipt_type").and_then(|v| v.as_text()) != Some("zk_anomaly_proof") {
        return false;
    }
    let zk = match r.get("zk_proof") {
        Some(v) => v,
        None => return false,
    };
    let hint_ok = r
        .get("anomaly_hint")
        .and_then(|v| v.as_text())
        .map(|s| !s.is_empty())
        .unwrap_or(false);
    has_items(zk, "pi_a")
        && has_items(zk, "pi_b")
        && has_items(zk, "pi_c")
        && has_items(r, "public_inputs")
        && hint_ok
}

#[test]
fn spv_roundtrip_submit_verify_and_prove() {
    let golden_bore = load_json("glyphs/examples/receipt_glyph.bore.example.json");
    let golden_orbital = load_json("glyphs/examples/receipt_glyph.orbital.example.json");
    let golden_zk = load_json("glyphs/examples/receipt_glyph.zk_anomaly.example.json");
    let golden_ent = load_json("glyphs/examples/receipt_glyph.entanglement.example.json");
    let producers = default_producers();

    let base_ts: u64 = 1_767_000_000;

    let mut receipts: Vec<Value> = Vec::new();
    let target = submit(&golden_orbital, "receipt-spv-orbital-0000", base_ts);
    let target_hash = content_hash(&target);
    assert_eq!(target.get("content_hash"), Some(&Value::text(&target_hash)));
    let target_sig = sign(&target_hash, TENANT_ID);
    assert_eq!(target.get("signature"), Some(&Value::text(&target_sig)));
    assert_eq!(validate(&target, &producers), Ok(()));
    receipts.push(target.clone());

    let templates = [golden_bore, golden_zk.clone(), golden_ent];
    for (i, tmpl) in templates.into_iter().enumerate() {
        let idx = i as u32 + 1;
        let r = submit(&tmpl, &format!("receipt-spv-chain-{idx:04x}"), base_ts + idx as u64);
        assert_eq!(validate(&r, &producers), Ok(()));
        receipts.push(r);
    }

    assert_eq!(receipts.len(), 4, "SPV test chain must have 4 receipts");

    assert!(
        check_signature(&target, &StubSigner),
        "Kyber stub verification failed for target orbital receipt"
    );

    let zk_receipt = receipts
        .iter()
        .find(|r| r.get("receipt_type") == Some(&Value::text("zk_anomaly_proof")))
        .expect("chain must contain zk_anomaly_proof receipt");
    assert_eq!(validate(zk_receipt, &producers), Ok(()));
    assert!(
        zk_verify_stub(zk_receipt),
        "ZK Groth16 stub verification failed for zk_anomaly_proof receipt"
    );
    let mut hintless = match zk_receipt.clone() {
        Value::Object(fields) => fields,
        _ => panic!("object"),
    };
    set_field(&mut hintless, "anomaly_hint", Value::text(""));
    assert!(!zk_verify_stub(&Value::Object(hintless)));
    assert!(!zk_verify_stub(&target));

    let leaf_hashes: Vec<String> = receipts
        .iter()
        .map(|r| {
            r.get("content_hash")
                .and_then(|v| v.as_text())
                .unwrap_or_default()
                .to_string()
        })
        .collect();

    assert_eq!(leaf_hashes[0], target_hash, "leaf hash must match target");
    let leaves = parse_leaves(&leaf_hashes).unwrap();
    let (merkle_root, proof_path): (_, Vec<ProofNode>) = build_proof(&leaves, 0).unwrap();
    let merkle_root_hex = merkle_root.to_hex();

    assert!(!merkle_root_hex.is_empty(), "Merkle root must not be empty");
    assert!(
        is_hex_str(&merkle_root_hex) && merkle_root_hex.len() == 64,
        "Merkle root must be 64 hex chars"
    );

    let recomputed_root = verify_proof(&leaves[0], &proof_path).to_hex();
    assert_eq!(
        merkle_root_hex, recomputed_root,
        "Merkle root mismatch in SPV verification"
    );
    assert_eq!(proof_path.len(), 2);

    let submitted_id = target
        .get("receipt_id")
        .and_then(|v| v.as_text())
        .expect("receipt_id must be string");
    assert!(!submitted_id.is_empty(), "submitted glyph_id must not be empty");
    assert_eq!(submitted_id, format!("receipt-{}", &target_hash[..32]));
}
