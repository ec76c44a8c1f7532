use receipt_ledger::json::{Field, Number, Value};
use receipt_ledger::receipt::{set_field, stamp};
use receipt_ledger::schema::{
    default_producers, has_receipt_id_shape, number_at_least_milli, validate, ReceiptType,
    ValidationError,
};
use receipt_ledger::signature::StubSigner;

fn object(fields: Vec<(&str, Value)>) -> Value {
    Value::Object(fields.into_iter().map(|(name, value)| Field::new(name, value)).collect())
}

fn base(kind: &str, extra: Vec<(&str, Value)>) -> Value {
    let mut fields = vec![
        ("version", Value::text("1.0")),
        ("timestamp", Value::integer(1_763_000_000)),
        ("tenant_id", Value::text("xai-memphis-01")),
        ("receipt_type", Value::text(kind)),
        ("emitted_by", Value::text("nebula-guard")),
    ];
    fields.extend(extra);
    stamp(object(fields), &StubSigner).unwrap()
}

fn with(receipt: &Value, name: &str, value: Value) -> Value {
    let mut fields = match receipt.clone() {
        Value::Object(fields) => fields,
        _ => unreachable!(),
    };
    set_field(&mut fields, name, value);
    Value::Object(fields)
}

fn without(receipt: &Value, name: &str) -> Value {
    match receipt.clone() {
        Value::Object(fields) => {
            Value::Object(fields.into_iter().filter(|f| f.name != name).collect())
        }
        _ => unreachable!(),
    }
}

fn check(receipt: &Value) -> Result<(), ValidationError> {
    validate(receipt, &default_producers())
}

fn bore() -> Value {
    base(
        "bore_progress",
        vec![("meters_advanced", Value::decimal(105, 1)), ("cutter_head_rpm", Value::integer(12))],
    )
}

fn orbital() -> Value {
    base(
        "orbital_telemetry",
        vec![
            ("satellite_id", Value::text("starlink-4242")),
            ("signal_strength_dbm", Value::decimal(-825, 1)),
            ("latency_ms", Value::decimal(312, 1)),
        ],
    )
}

fn zk() -> Value {
    let items = || Value::Array(vec![Value::text("0x01"), Value::text("0x02")]);
    base(
        "zk_anomaly_proof",
        vec![
            ("zk_proof", object(vec![("pi_a", items()), ("pi_b", items()), ("pi_c", items())])),
            ("public_inputs", Value::Array(vec![Value::text("0x2a")])),
        ],
    )
}

fn entanglement() -> Value {
    base(
        "entanglement_prediction",
        vec![
            ("correlation_score", Value::decimal(707, 3)),
            ("predicted_negation_ms", Value::integer(0)),
        ],
    )
}

#[test]
fn receipts_of_every_kind_validate() {
    assert_eq!(check(&bore()), Ok(()));
    assert_eq!(check(&orbital()), Ok(()));
    assert_eq!(check(&zk()), Ok(()));
    assert_eq!(check(&entanglement()), Ok(()));
    for kind in [
        "anomaly_detected",
        "phase_transition",
        "compaction_complete",
        "swarm_vote",
        "voice_page_sent",
    ] {
        assert_eq!(check(&base(kind, vec![])), Ok(()));
    }
}

#[test]
fn each_base_check_names_its_field() {
    let r = bore();
    assert_eq!(check(&Value::Null), Err(ValidationError::Version));
    assert_eq!(check(&without(&r, "version")), Err(ValidationError::Version));
    assert_eq!(check(&with(&r, "version", Value::text("2.0"))), Err(ValidationError::Version));
    assert_eq!(check(&with(&r, "version", Value::integer(1))), Err(ValidationError::Version));
    assert_eq!(check(&without(&r, "receipt_id")), Err(ValidationError::ReceiptId));
    assert_eq!(
        check(&with(&r, "receipt_id", Value::text("receipt-spv-orbital-0000"))),
        Err(ValidationError::ReceiptId)
    );
    assert_eq!(check(&without(&r, "timestamp")), Err(ValidationError::Timestamp));
    assert_eq!(check(&with(&r, "timestamp", Value::integer(-1))), Err(ValidationError::Timestamp));
    assert_eq!(check(&with(&r, "timestamp", Value::decimal(10, 1))), Err(ValidationError::Timestamp));
    assert_eq!(check(&with(&r, "timestamp", Value::integer(0))), Ok(()));
    assert_eq!(check(&with(&r, "tenant_id", Value::text(""))), Err(ValidationError::TenantId));
    assert_eq!(check(&without(&r, "tenant_id")), Err(ValidationError::TenantId));
    assert_eq!(check(&with(&r, "receipt_type", Value::text("unknown"))), Err(ValidationError::ReceiptType));
    assert_eq!(check(&without(&r, "receipt_type")), Err(ValidationError::ReceiptType));
    assert_eq!(check(&with(&r, "emitted_by", Value::text("thanos"))), Err(ValidationError::EmittedBy));
    assert_eq!(check(&without(&r, "emitted_by")), Err(ValidationError::EmittedBy));
    assert_eq!(check(&with(&r, "content_hash", Value::text("abc"))), Err(ValidationError::ContentHash));
    assert_eq!(
        check(&with(&r, "content_hash", Value::text(&"g".repeat(64)))),
        Err(ValidationError::ContentHash)
    );
    assert_eq!(check(&without(&r, "content_hash")), Err(ValidationError::ContentHash));
    assert_eq!(
        check(&with(&r, "signature", Value::text(&"a".repeat(63)))),
        Err(ValidationError::Signature)
    );
    assert_eq!(
        check(&with(&r, "signature", Value::text(&"kyber-signature-placeholder".repeat(3)))),
        Err(ValidationError::Signature)
    );
    assert_eq!(check(&with(&r, "signature", Value::text(&"A".repeat(128)))), Ok(()));
    assert_eq!(check(&without(&r, "signature")), Err(ValidationError::Signature));
}

#[test]
fn checks_come_in_order() {
    let r = with(&with(&bore(), "version", Value::text("0.9")), "signature", Value::text(""));
    assert_eq!(check(&r), Err(ValidationError::Version));
    let r = with(&with(&bore(), "signature", Value::text("")), "cutter_head_rpm", Value::Null);
    assert_eq!(check(&r), Err(ValidationError::Signature));
    let r = with(&with(&bore(), "timestamp", Value::Null), "tenant_id", Value::Null);
    assert_eq!(check(&r), Err(ValidationError::Timestamp));
}

#[test]
fn producers_are_those_configured() {
    let r = bore();
    assert_eq!(validate(&r, &vec![]), Err(ValidationError::EmittedBy));
    assert_eq!(validate(&r, &vec!["nebula-guard".to_string()]), Ok(()));
    assert_eq!(validate(&r, &vec!["drax-metrics".to_string()]), Err(ValidationError::EmittedBy));
    assert_eq!(
        default_producers(),
        vec![
            "rocket-engine",
            "nebula-guard",
            "digital-twin-groot",
            "drax-metrics",
            "mantis-community",
            "star-lord-orchestrator",
            "groot-swarm",
            "ledger-explorer"
        ]
    );
}

#[test]
fn each_kind_check_names_its_field() {
    assert_eq!(check(&without(&bore(), "meters_advanced")), Err(ValidationError::MetersAdvanced));
    assert_eq!(
        check(&with(&bore(), "meters_advanced", Value::text("10"))),
        Err(ValidationError::MetersAdvanced)
    );
    assert_eq!(check(&without(&bore(), "cutter_head_rpm")), Err(ValidationError::CutterHeadRpm));
    assert_eq!(
        check(&with(&bore(), "cutter_head_rpm", Value::decimal(120, 1))),
        Err(ValidationError::CutterHeadRpm)
    );
    assert_eq!(check(&without(&orbital(), "satellite_id")), Err(ValidationError::SatelliteId));
    assert_eq!(
        check(&without(&orbital(), "signal_strength_dbm")),
        Err(ValidationError::SignalStrengthDbm)
    );
    assert_eq!(check(&without(&orbital(), "latency_ms")), Err(ValidationError::LatencyMs));
    assert_eq!(check(&without(&zk(), "zk_proof")), Err(ValidationError::PiA));
    let empty = || Value::Array(vec![]);
    let full = || Value::Array(vec![Value::Null]);
    assert_eq!(
        check(&with(&zk(), "zk_proof", object(vec![("pi_a", empty()), ("pi_b", full()), ("pi_c", full())]))),
        Err(ValidationError::PiA)
    );
    assert_eq!(
        check(&with(&zk(), "zk_proof", object(vec![("pi_a", full()), ("pi_c", full())]))),
        Err(ValidationError::PiB)
    );
    assert_eq!(
        check(&with(&zk(), "zk_proof", object(vec![("pi_a", full()), ("pi_b", full()), ("pi_c", Value::text("x"))]))),
        Err(ValidationError::PiC)
    );
    assert_eq!(check(&with(&zk(), "public_inputs", empty())), Err(ValidationError::PublicInputs));
    assert_eq!(check(&without(&zk(), "public_inputs")), Err(ValidationError::PublicInputs));
    assert_eq!(
        check(&without(&entanglement(), "correlation_score")),
        Err(ValidationError::CorrelationScore)
    );
    assert_eq!(
        check(&with(&entanglement(), "correlation_score", Value::decimal(706, 3))),
        Err(ValidationError::CorrelationScore)
    );
    assert_eq!(
        check(&with(&entanglement(), "correlation_score", Value::decimal(7069999, 7))),
        Err(ValidationError::CorrelationScore)
    );
    assert_eq!(check(&with(&entanglement(), "correlation_score", Value::integer(1))), Ok(()));
    assert_eq!(
        check(&with(&entanglement(), "predicted_negation_ms", Value::decimal(-1, 3))),
        Err(ValidationError::PredictedNegationMs)
    );
    assert_eq!(
        check(&without(&entanglement(), "predicted_negation_ms")),
        Err(ValidationError::PredictedNegationMs)
    );
}

#[test]
fn receipt_id_shape() {
    assert!(has_receipt_id_shape(&format!("receipt-{}", "0123456789abcdefABCDEF0123456789")));
    assert!(has_receipt_id_shape(&format!("receipt-{:032x}", 300)));
    assert!(!has_receipt_id_shape(&format!("receipt-{:031x}", 300)));
    assert!(!has_receipt_id_shape(&format!("receipt-{:033x}", 300)));
    assert!(!has_receipt_id_shape(&format!("receipt_{:032x}", 300)));
    assert!(!has_receipt_id_shape(&format!("Receipt-{:032x}", 300)));
    assert!(!has_receipt_id_shape(&format!("receipt-{}", "g".repeat(32))));
    assert!(!has_receipt_id_shape(&format!("receipt-{}é", "0".repeat(31))));
    assert!(!has_receipt_id_shape(""));
}

#[test]
fn thresholds_in_thousandths() {
    let n = |mantissa: i128, scale: u8| Number { mantissa, scale };
    assert!(number_at_least_milli(n(707, 3), 707));
    assert!(!number_at_least_milli(n(706, 3), 707));
    assert!(number_at_least_milli(n(1, 0), 707));
    assert!(!number_at_least_milli(n(0, 0), 707));
    assert!(number_at_least_milli(n(8, 1), 707));
    assert!(!number_at_least_milli(n(7, 1), 707));
    assert!(number_at_least_milli(n(71, 2), 707));
    assert!(!number_at_least_milli(n(70, 2), 707));
    assert!(number_at_least_milli(n(7070, 4), 707));
    assert!(!number_at_least_milli(n(7069, 4), 707));
    assert!(number_at_least_milli(n(i128::MAX, 0), 65535));
    assert!(number_at_least_milli(n(i128::MAX, 38), 707));
    assert!(!number_at_least_milli(n(i128::MAX, 255), 707));
    assert!(!number_at_least_milli(n(-1, 0), 0));
    assert!(number_at_least_milli(n(0, 200), 0));
    assert!(!number_at_least_milli(n(i128::MIN, 0), 0));
}

#[test]
fn kinds_and_their_names() {
    let kinds = [
        (ReceiptType::BoreProgress, "bore_progress"),
        (ReceiptType::OrbitalTelemetry, "orbital_telemetry"),
        (ReceiptType::ZkAnomalyProof, "zk_anomaly_proof"),
        (ReceiptType::EntanglementPrediction, "entanglement_prediction"),
        (ReceiptType::AnomalyDetected, "anomaly_detected"),
        (ReceiptType::PhaseTransition, "phase_transition"),
        (ReceiptType::SwarmVote, "swarm_vote"),
        (ReceiptType::CompactionComplete, "compaction_complete"),
        (ReceiptType::VoicePageSent, "voice_page_sent"),
    ];
    for (kind, name) in kinds {
        assert_eq!(kind.name(), name);
        assert_eq!(ReceiptType::from_name(name), Some(kind));
    }
    assert_eq!(ReceiptType::from_name("Bore_progress"), None);
    assert_eq!(ReceiptType::from_name(""), None);
}

#[test]
fn reasons_name_the_field() {
    assert_eq!(ValidationError::Version.reason(), "invalid field: version");
    assert_eq!(ValidationError::PiB.field(), "pi_b");
    assert_eq!(
        ValidationError::PredictedNegationMs.reason(),
        "invalid field: predicted_negation_ms"
    );
}
