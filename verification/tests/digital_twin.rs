use receipt_ledger::digest::Digest;
use receipt_ledger::divergence::{
    classify, compare_twin, hash_state, hash_states, relative_divergence, states_root,
    twin_receipt, worst_divergence, AssetState, DetectorError, Ratio, TwinReport,
    DEFAULT_THRESHOLD_PPM,
};
use receipt_ledger::json::Value;
use receipt_ledger::merkle::{build_proof, build_root, verify_proof, ProofError};
use receipt_ledger::receipt::{check_content_hash, check_signature};
use receipt_ledger::schema::{default_producers, validate, ReceiptType};
use receipt_ledger::signature::StubSigner;

const TENANT_ID: &str = "xai-memphis-01";
const NOW: u64 = 1_767_000_000;

fn micro(x: f64) -> i64 {
    (x * 1_000_000.0).round() as i64
}

fn state(asset_id: &str, epoch: u64, position: f64, health: f64) -> AssetState {
    AssetState {
        asset_id: asset_id.to_string(),
        epoch,
        position: micro(position),
        health: micro(health),
    }
}

fn as_f64(r: Ratio) -> f64 {
    r.num as f64 / r.den as f64
}

fn divergence_percent(receipt: &Value) -> f64 {
    let n = receipt
        .get("divergence_percent")
        .and_then(|v| v.as_number())
        .expect("divergence_percent must be a number");
    n.mantissa as f64 / 10f64.powi(n.scale as i32)
}

fn compare(asset: &Vec<AssetState>, twin: &Vec<AssetState>, healthy: ReceiptType) -> TwinReport {
    compare_twin(asset, twin, DEFAULT_THRESHOLD_PPM, healthy).unwrap()
}

fn assert_receipt_basic(receipt: &Value, expected_type: &str) {
    assert_eq!(receipt.get("version").and_then(|v| v.as_text()), Some("1.0"));
    assert_eq!(receipt.get("tenant_id").and_then(|v| v.as_text()), Some(TENANT_ID));
    assert_eq!(receipt.get("receipt_type").and_then(|v| v.as_text()), Some(expected_type));
    assert_eq!(
        receipt.get("emitted_by").and_then(|v| v.as_text()),
        Some("digital-twin-groot")
    );
    let rid = receipt
        .get("receipt_id")
        .and_then(|v| v.as_text())
        .expect("receipt_id must be present");
    assert!(rid.starts_with("receipt-"), "receipt_id must start with receipt-");
    let hash_hex = receipt
        .get("content_hash")
        .and_then(|v| v.as_text())
        .expect("content_hash must be present");
    assert_eq!(hash_hex.len(), 64);
    assert!(check_content_hash(receipt));
    assert!(check_signature(receipt, &StubSigner));
    assert!(receipt.get("asset_id").and_then(|v| v.as_text()).is_some());
    assert!(receipt.get("root_real").and_then(|v| v.as_text()).is_some());
    assert!(receipt.get("root_twin").and_then(|v| v.as_text()).is_some());
    assert!(receipt.get("divergence_percent").and_then(|v| v.as_number()).is_some());
}

#[test]
fn baseline_twin_sync() {
    let asset_id = "tesla-vin-5YJ3E1EA7KF317000";

    let real = vec![
        state(asset_id, 0, 0.0, 1.00),
        state(asset_id, 1, 12.5, 0.99),
        state(asset_id, 2, 25.0, 0.98),
    ];

    let twin = vec![
        state(asset_id, 0, 0.0, 1.00),
        state(asset_id, 1, 12.6, 0.985),
        state(asset_id, 2, 24.9, 0.975),
    ];

    assert_eq!(real.len(), twin.len());

    let worst_divergence = worst_divergence(&real, &twin).unwrap();
    assert!(
        worst_divergence.is_within(DEFAULT_THRESHOLD_PPM),
        "baseline twin divergence {:.4} exceeds 5%",
        as_f64(worst_divergence)
    );

    let real_root = states_root(&real).unwrap();
    let twin_root = states_root(&twin).unwrap();

    // The twin drifts within the threshold, so its observations, and with
    // them its root, are its own; a twin in full sync has the asset's root.
    assert_ne!(real_root, twin_root);
    assert_eq!(real_root, states_root(&real.clone()).unwrap());

    let report = compare(&real, &twin, ReceiptType::EntanglementPrediction);
    assert_eq!(report.worst, worst_divergence);
    let receipt = twin_receipt(asset_id, &report, TENANT_ID, NOW, &StubSigner);
    assert_receipt_basic(&receipt, "entanglement_prediction");
}

#[test]
fn fork_anomaly_detects_divergence_and_root_mismatch() {
    let asset_id = "tesla-vin-5YJ3E1EA7KF317000";

    let real = vec![
        state(asset_id, 0, 0.0, 1.00),
        state(asset_id, 1, 15.0, 0.99),
        state(asset_id, 2, 30.0, 0.98),
    ];

    let mut twin = real.clone();
    twin[1].position = micro(18.0);
    twin[1].health = micro(0.90);

    let worst_divergence = worst_divergence(&real, &twin).unwrap();
    assert!(
        !worst_divergence.is_within(DEFAULT_THRESHOLD_PPM),
        "fork anomaly must exceed 5% divergence"
    );
    assert_eq!(worst_divergence, Ratio { num: 3_000_000, den: 15_000_000 });

    let real_root = states_root(&real).unwrap();
    let twin_root = states_root(&twin).unwrap();

    assert_ne!(real_root, twin_root, "fork anomaly must change Merkle root");

    let report = compare(&real, &twin, ReceiptType::EntanglementPrediction);
    let receipt = twin_receipt(asset_id, &report, TENANT_ID, NOW, &StubSigner);
    assert_receipt_basic(&receipt, "anomaly_detected");
    assert_eq!(validate(&receipt, &default_producers()), Ok(()));

    let div = divergence_percent(&receipt);
    assert!(div > 5.0, "anomaly receipt must show divergence > 5%, got {}", div);
    assert_eq!(div, 20.0);
}

#[test]
fn duress_state_recovery_closes_divergence() {
    let asset_id = "tesla-vin-5YJ3E1EA7KF317000";

    let real = vec![
        state(asset_id, 0, 0.0, 1.00),
        state(asset_id, 1, 20.0, 0.99),
        state(asset_id, 2, 40.0, 0.98),
    ];

    let mut forked = real.clone();
    forked[2].position = micro(50.0);
    forked[2].health = micro(0.88);

    let worst_div_fork = worst_divergence(&real, &forked).unwrap();
    assert!(
        !worst_div_fork.is_within(DEFAULT_THRESHOLD_PPM),
        "duress fork must exceed 5% divergence"
    );

    let recovered = real.clone();

    let worst_div_recovered = worst_divergence(&real, &recovered).unwrap();
    assert!(
        worst_div_recovered.is_within(DEFAULT_THRESHOLD_PPM),
        "recovered twin divergence {:.4} must be ≤ 5%",
        as_f64(worst_div_recovered)
    );

    let real_root = states_root(&real).unwrap();
    let fork_root = states_root(&forked).unwrap();
    let recovered_root = states_root(&recovered).unwrap();

    assert_ne!(real_root, fork_root, "fork root must differ");
    assert_eq!(real_root, recovered_root, "recovered root must match real");

    let anomaly = compare(&real, &forked, ReceiptType::PhaseTransition);
    let anomaly_receipt = twin_receipt(asset_id, &anomaly, TENANT_ID, NOW, &StubSigner);
    assert_receipt_basic(&anomaly_receipt, "anomaly_detected");

    let recovery = compare(&real, &recovered, ReceiptType::PhaseTransition);
    let recovery_receipt = twin_receipt(asset_id, &recovery, TENANT_ID, NOW, &StubSigner);
    assert_receipt_basic(&recovery_receipt, "phase_transition");
    assert_eq!(validate(&recovery_receipt, &default_producers()), Ok(()));

    let div_recovered = divergence_percent(&recovery_receipt);
    assert!(
        div_recovered <= 5.0,
        "recovery receipt must show divergence ≤ 5%, got {}",
        div_recovered
    );
}

#[test]
fn orbital_replication_matches_roots() {
    let asset_id = "starship-pad-a";

    let real = vec![
        state(asset_id, 0, 1.0, 0.99),
        state(asset_id, 1, 1.0, 0.99),
        state(asset_id, 2, 1.0, 0.99),
        state(asset_id, 3, 1.0, 0.99),
    ];

    let twin = vec![
        state(asset_id, 0, 1.0, 0.99),
        state(asset_id, 1, 1.0, 0.985),
        state(asset_id, 2, 1.0, 0.98),
        state(asset_id, 3, 1.0, 0.98),
    ];

    let worst_divergence = worst_divergence(&real, &twin).unwrap();
    assert!(
        worst_divergence.is_within(DEFAULT_THRESHOLD_PPM),
        "orbital replication divergence {:.4} must be ≤ 5%",
        as_f64(worst_divergence)
    );

    let real_hashes = hash_states(&real);
    let twin_hashes = hash_states(&twin);

    let real_root = build_root(&real_hashes).unwrap();
    let twin_root = build_root(&twin_hashes).unwrap();
    // The replica agrees with the asset on the first observation only.
    assert_eq!(real_hashes[0], twin_hashes[0]);
    assert_ne!(real_root, twin_root);

    let (root_with_proof, proof) = build_proof(&real_hashes, 0).unwrap();
    assert_eq!(root_with_proof, real_root);
    assert!(!proof.is_empty(), "orbital replication proof path must not be empty");

    let recomputed = verify_proof(&real_hashes[0], &proof);
    assert_eq!(real_root, recomputed, "SPV-style proof must verify for orbital replication");

    let report = compare(&real, &twin, ReceiptType::OrbitalTelemetry);
    let receipt = twin_receipt(asset_id, &report, TENANT_ID, NOW, &StubSigner);
    assert_receipt_basic(&receipt, "orbital_telemetry");
}

#[test]
fn red_loop_closure_emits_stable_receipt() {
    let asset_id = "tesla-fleet-memphis";

    let real = vec![
        state(asset_id, 0, 1000.0, 0.99),
        state(asset_id, 1, 1005.0, 0.99),
        state(asset_id, 2, 1010.0, 0.985),
        state(asset_id, 3, 1015.0, 0.985),
        state(asset_id, 4, 1020.0, 0.98),
        state(asset_id, 5, 1025.0, 0.98),
        state(asset_id, 6, 1030.0, 0.98),
    ];

    let twin = vec![
        state(asset_id, 0, 1000.0, 0.99),
        state(asset_id, 1, 1004.5, 0.989),
        state(asset_id, 2, 1010.5, 0.983),
        state(asset_id, 3, 1016.0, 0.982),
        state(asset_id, 4, 1021.0, 0.979),
        state(asset_id, 5, 1025.5, 0.978),
        state(asset_id, 6, 1030.0, 0.978),
    ];

    assert_eq!(real.len(), twin.len());

    let worst_divergence = worst_divergence(&real, &twin).unwrap();
    let mut sum_divergence = 0.0;
    for (r, t) in real.iter().zip(twin.iter()) {
        let pos_div = relative_divergence(r.position, t.position);
        let health_div = relative_divergence(r.health, t.health);
        sum_divergence += as_f64(pos_div.max(health_div));
    }
    let avg_divergence = sum_divergence / real.len() as f64;

    assert!(
        worst_divergence.is_within(DEFAULT_THRESHOLD_PPM),
        "red-loop worst divergence {:.4} must be ≤ 5%",
        as_f64(worst_divergence)
    );
    assert!(
        avg_divergence <= 0.03,
        "red-loop average divergence {:.4} must be ≤ 3%",
        avg_divergence
    );

    let real_root = states_root(&real).unwrap();
    let twin_root = states_root(&twin).unwrap();
    // The twin tracks the asset closely but not exactly.
    assert_ne!(real_root, twin_root);

    let red_loop_root = {
        let combined = format!("red-loop-root:{}", real_root.to_hex());
        blake3::hash(combined.as_bytes()).to_hex().to_string()
    };

    assert_eq!(red_loop_root.len(), 64);

    let report = compare(&real, &twin, ReceiptType::CompactionComplete);
    let receipt = twin_receipt(asset_id, &report, TENANT_ID, NOW, &StubSigner);
    assert_receipt_basic(&receipt, "compaction_complete");

    let div = divergence_percent(&receipt);
    assert!(
        div <= 5.0,
        "red-loop closure receipt must report divergence ≤ 5%, got {}",
        div
    );
}

#[test]
fn divergence_on_the_threshold_is_healthy() {
    let d = relative_divergence(micro(10.0), micro(10.5));
    assert_eq!(d, Ratio { num: 500_000, den: 10_000_000 });
    assert_eq!(d.num * 100, d.den * 5);
    assert!(d.is_within(DEFAULT_THRESHOLD_PPM));
    assert_eq!(d.ppm(), 50_000);
    assert_eq!(
        classify(d, DEFAULT_THRESHOLD_PPM, ReceiptType::PhaseTransition),
        ReceiptType::PhaseTransition
    );
    let above = relative_divergence(micro(10.0), micro(10.500001));
    assert!(!above.is_within(DEFAULT_THRESHOLD_PPM));
    assert_eq!(above.ppm(), 50_001);
    assert_eq!(
        classify(above, DEFAULT_THRESHOLD_PPM, ReceiptType::PhaseTransition),
        ReceiptType::AnomalyDetected
    );
    assert!(relative_divergence(micro(10.0), micro(9.5)).is_within(DEFAULT_THRESHOLD_PPM));
}

#[test]
fn relative_divergence_cases() {
    assert_eq!(relative_divergence(0, 0), Ratio { num: 0, den: 1 });
    assert_eq!(relative_divergence(0, 7), Ratio { num: 1, den: 1 });
    assert_eq!(relative_divergence(0, -7), Ratio { num: 1, den: 1 });
    assert_eq!(relative_divergence(4, 4), Ratio { num: 0, den: 4 });
    assert_eq!(relative_divergence(4, 3), Ratio { num: 1, den: 4 });
    assert_eq!(relative_divergence(-4, -3), Ratio { num: 1, den: 4 });
    assert_eq!(relative_divergence(4, 100), Ratio { num: 4, den: 4 });
    assert_eq!(relative_divergence(4, -4), Ratio { num: 4, den: 4 });
    assert_eq!(
        relative_divergence(i64::MIN, i64::MAX),
        Ratio { num: 1 << 63, den: 1 << 63 }
    );
    assert_eq!(relative_divergence(i64::MAX, i64::MIN).ppm(), 1_000_000);
    assert_eq!(Ratio::zero().ppm(), 0);
    assert_eq!(Ratio { num: 1, den: 3 }.ppm(), 333_334);
    assert_eq!(Ratio { num: 1, den: 3 }.max(Ratio { num: 2, den: 6 }), Ratio { num: 1, den: 3 });
    assert_eq!(Ratio { num: 1, den: 3 }.max(Ratio { num: 1, den: 2 }), Ratio { num: 1, den: 2 });
}

#[test]
fn state_hash_is_the_digest_of_its_text() {
    let s = state("tesla-vin-5YJ3E1EA7KF317000", 1, 12.5, 0.99);
    let text = format!(
        "asset_id={}|epoch={}|position={:.6}|health={:.6}",
        "tesla-vin-5YJ3E1EA7KF317000", 1, 12.5, 0.99
    );
    assert_eq!(text, "asset_id=tesla-vin-5YJ3E1EA7KF317000|epoch=1|position=12.500000|health=0.990000");
    assert_eq!(hash_state(&s).bytes, *blake3::hash(text.as_bytes()).as_bytes());
    let negative = state("a|b", u64::MAX, -0.5, -12.000001);
    let text = "asset_id=a|b|epoch=18446744073709551615|position=-0.500000|health=-12.000001";
    assert_eq!(hash_state(&negative).bytes, *blake3::hash(text.as_bytes()).as_bytes());
    let hashes: Vec<Digest> = hash_states(&vec![s.clone(), negative.clone()]);
    assert_eq!(hashes, vec![hash_state(&s), hash_state(&negative)]);
}

#[test]
fn comparison_refuses_unpaired_and_empty_sequences() {
    let one = vec![state("a", 0, 1.0, 1.0)];
    let none: Vec<AssetState> = vec![];
    assert_eq!(worst_divergence(&one, &none), Err(DetectorError::LengthMismatch));
    assert_eq!(worst_divergence(&none, &none), Ok(Ratio { num: 0, den: 1 }));
    assert_eq!(
        compare_twin(&one, &none, DEFAULT_THRESHOLD_PPM, ReceiptType::PhaseTransition).err(),
        Some(DetectorError::LengthMismatch)
    );
    assert_eq!(
        compare_twin(&none, &none, DEFAULT_THRESHOLD_PPM, ReceiptType::PhaseTransition).err(),
        Some(DetectorError::NoObservations)
    );
    assert_eq!(states_root(&none), Err(ProofError::EmptyLeaves));
    assert_eq!(states_root(&one), Ok(hash_state(&one[0])));
}

#[test]
fn any_single_differing_observation_changes_the_root() {
    let real: Vec<AssetState> = (0..5).map(|i| state("a", i, i as f64, 0.9)).collect();
    let root = states_root(&real).unwrap();
    for i in 0..real.len() {
        let mut twin = real.clone();
        twin[i].health += 1;
        assert_ne!(states_root(&twin).unwrap(), root);
        let mut twin = real.clone();
        twin[i].epoch += 100;
        assert_ne!(states_root(&twin).unwrap(), root);
        let mut twin = real.clone();
        twin[i].asset_id.push('x');
        assert_ne!(states_root(&twin).unwrap(), root);
    }
}
