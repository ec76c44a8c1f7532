use receipt_ledger::canonical::content_hash;
use receipt_ledger::json::{Field, Value};
use receipt_ledger::receipt::{check_content_hash, check_signature, set_field, stamp, stamp_for, StampError};
use receipt_ledger::signature::{sign, verify, SignatureScheme, StubSigner};

fn object(fields: Vec<(&str, Value)>) -> Value {
    Value::Object(fields.into_iter().map(|(name, value)| Field::new(name, value)).collect())
}

fn unstamped() -> Value {
    object(vec![
        ("version", Value::text("1.0")),
        ("timestamp", Value::integer(1_767_000_000)),
        ("tenant_id", Value::text("xai-memphis-01")),
        ("receipt_type", Value::text("swarm_vote")),
        ("emitted_by", Value::text("groot-swarm")),
    ])
}

fn flip_hex(text: &str, at: usize) -> String {
    let mut chars: Vec<char> = text.chars().collect();
    chars[at] = if chars[at] == '0' { '1' } else { '0' };
    chars.into_iter().collect()
}

#[test]
fn signature_is_the_digest_of_hash_tenant_and_tag() {
    let hash = "ab".repeat(32);
    let mut hasher = blake3::Hasher::new();
    hasher.update(hash.as_bytes());
    hasher.update(b"xai-memphis-01");
    hasher.update(b"|kyber-1024-stub");
    let expected = hasher.finalize().to_hex().to_string();
    assert_eq!(sign(&hash, "xai-memphis-01"), expected);
    assert_eq!(StubSigner.sign(&hash, "xai-memphis-01"), expected);
    assert_eq!(expected.len(), 64);
}

#[test]
fn signature_round_trip() {
    let hash = content_hash(&unstamped());
    let signature = sign(&hash, "xai-memphis-01");
    assert!(verify(&signature, &hash, "xai-memphis-01"));
    assert!(StubSigner.verify(&signature, &hash, "xai-memphis-01"));
}

#[test]
fn altered_signature_is_rejected() {
    let hash = content_hash(&unstamped());
    let signature = sign(&hash, "xai-memphis-01");
    for at in 0..signature.len() {
        assert!(!verify(&flip_hex(&signature, at), &hash, "xai-memphis-01"));
    }
    assert!(!verify(&signature, &flip_hex(&hash, 0), "xai-memphis-01"));
    assert!(!verify(&signature, &hash, "another-tenant"));
    assert!(!verify("", &hash, "xai-memphis-01"));
}

#[test]
fn stamp_sets_hash_id_and_signature() {
    let hash = content_hash(&unstamped());
    let stamped = stamp(unstamped(), &StubSigner).unwrap();
    assert_eq!(stamped.get("content_hash"), Some(&Value::text(&hash)));
    assert_eq!(
        stamped.get("receipt_id"),
        Some(&Value::text(&format!("receipt-{}", &hash[..32])))
    );
    assert_eq!(
        stamped.get("signature"),
        Some(&Value::text(&sign(&hash, "xai-memphis-01")))
    );
    assert_eq!(stamped.get("tenant_id"), Some(&Value::text("xai-memphis-01")));
    assert_eq!(content_hash(&stamped), hash);
    assert!(check_content_hash(&stamped));
    assert!(check_signature(&stamped, &StubSigner));
}

#[test]
fn stamping_again_changes_nothing() {
    let once = stamp(unstamped(), &StubSigner).unwrap();
    let twice = stamp(once.clone(), &StubSigner).unwrap();
    assert_eq!(once, twice);
}

#[test]
fn stamp_for_uses_the_given_tenant() {
    let stamped = stamp_for(unstamped(), "other-tenant", &StubSigner);
    let hash = content_hash(&unstamped());
    assert_eq!(
        stamped.get("signature"),
        Some(&Value::text(&sign(&hash, "other-tenant")))
    );
    assert!(!check_signature(&stamped, &StubSigner));
    assert_eq!(stamp_for(Value::Null, "t", &StubSigner), Value::Null);
}

#[test]
fn stamp_refuses_what_is_no_receipt() {
    assert_eq!(stamp(Value::Null, &StubSigner), Err(StampError::NotAnObject));
    assert_eq!(stamp(Value::Array(vec![]), &StubSigner), Err(StampError::NotAnObject));
    assert_eq!(stamp(object(vec![]), &StubSigner), Err(StampError::MissingTenant));
    assert_eq!(
        stamp(object(vec![("tenant_id", Value::integer(1))]), &StubSigner),
        Err(StampError::MissingTenant)
    );
}

#[test]
fn tampering_is_detected() {
    let stamped = stamp(unstamped(), &StubSigner).unwrap();
    let mut fields = match stamped.clone() {
        Value::Object(fields) => fields,
        _ => unreachable!(),
    };
    set_field(&mut fields, "timestamp", Value::integer(1_767_000_001));
    let tampered = Value::Object(fields);
    assert!(!check_content_hash(&tampered));
    assert!(check_signature(&tampered, &StubSigner));

    let mut fields = match stamped.clone() {
        Value::Object(fields) => fields,
        _ => unreachable!(),
    };
    set_field(&mut fields, "tenant_id", Value::text("someone-else"));
    let moved = Value::Object(fields);
    assert!(!check_signature(&moved, &StubSigner));

    let mut fields = match stamped {
        Value::Object(fields) => fields,
        _ => unreachable!(),
    };
    set_field(&mut fields, "receipt_id", Value::text("receipt-anything"));
    set_field(&mut fields, "signature", Value::text("00"));
    let restamped = Value::Object(fields);
    assert!(check_content_hash(&restamped));
    assert!(!check_signature(&restamped, &StubSigner));
    assert!(!check_content_hash(&unstamped()));
    assert!(!check_signature(&unstamped(), &StubSigner));
}

#[test]
fn set_field_replaces_the_last_field_or_adds_one() {
    let mut fields = vec![
        Field::new("a", Value::integer(1)),
        Field::new("b", Value::integer(2)),
        Field::new("a", Value::integer(3)),
    ];
    set_field(&mut fields, "a", Value::integer(9));
    assert_eq!(fields.len(), 3);
    assert_eq!(fields[0].value, Value::integer(1));
    assert_eq!(fields[2].value, Value::integer(9));
    set_field(&mut fields, "c", Value::Null);
    assert_eq!(fields.len(), 4);
    assert_eq!(fields[3].name, "c");
}
