//! Schema validation of receipts.
//!
//! A receipt is checked field by field, in a fixed order, and the first check
//! that fails names the reason. A receipt that fails is rejected; the ledger
//! goes on.

use vstd::prelude::*;
use vstd::arithmetic::div_mod::lemma_fundamental_div_mod;
use vstd::string::{StrSliceExecFns, StringExecFns};
use crate::decimal::{lemma_pow10_positive, pow10};
use crate::hex::{is_hex_char, is_hex_text};
use crate::json::{lookup, JsonView, Number, Value};
use crate::text::{ascii_bytes, is_hex_str, text_eq};

verus! {

/// The kinds of receipt.
#[derive(Clone, Copy, Debug, PartialEq, Eq, Structural)]
pub enum ReceiptType {
    BoreProgress,
    OrbitalTelemetry,
    ZkAnomalyProof,
    EntanglementPrediction,
    AnomalyDetected,
    PhaseTransition,
    SwarmVote,
    CompactionComplete,
    VoicePageSent,
}

/// The check that a receipt failed.
#[derive(Clone, Copy, Debug, PartialEq, Eq, Structural)]
pub enum ValidationError {
    /// `version` is not the text `1.0`.
    Version,
    /// `receipt_id` is not `receipt-` and 32 hexadecimal digits.
    ReceiptId,
    /// `timestamp` is not a whole number of seconds, zero or more.
    Timestamp,
    /// `tenant_id` is not a text of at least one character.
    TenantId,
    /// `receipt_type` is not one of the known kinds.
    ReceiptType,
    /// `emitted_by` is not one of the known producers.
    EmittedBy,
    /// `content_hash` is not 64 hexadecimal digits.
    ContentHash,
    /// `signature` is not 64 or more hexadecimal digits.
    Signature,
    /// `meters_advanced` is not a number.
    MetersAdvanced,
    /// `cutter_head_rpm` is not a whole number.
    CutterHeadRpm,
    /// `satellite_id` is not a text.
    SatelliteId,
    /// `signal_strength_dbm` is not a number.
    SignalStrengthDbm,
    /// `latency_ms` is not a number.
    LatencyMs,
    /// `zk_proof.pi_a` is not an array of at least one item.
    PiA,
    /// `zk_proof.pi_b` is not an array of at least one item.
    PiB,
    /// `zk_proof.pi_c` is not an array of at least one item.
    PiC,
    /// `public_inputs` is not an array of at least one item.
    PublicInputs,
    /// `correlation_score` is not a number of at least 0.707.
    CorrelationScore,
    /// `predicted_negation_ms` is not a number of at least zero.
    PredictedNegationMs,
}

/// The least correlation score of an entanglement prediction, in thousandths.
pub const MIN_CORRELATION_MILLI: u16 = 707;

/// The kind of receipt that a name stands for.
pub open spec fn receipt_type_of(name: Seq<char>) -> Option<ReceiptType> {
    if name == "bore_progress"@ {
        Some(ReceiptType::BoreProgress)
    } else if name == "orbital_telemetry"@ {
        Some(ReceiptType::OrbitalTelemetry)
    } else if name == "zk_anomaly_proof"@ {
        Some(ReceiptType::ZkAnomalyProof)
    } else if name == "entanglement_prediction"@ {
        Some(ReceiptType::EntanglementPrediction)
    } else if name == "anomaly_detected"@ {
        Some(ReceiptType::AnomalyDetected)
    } else if name == "phase_transition"@ {
        Some(ReceiptType::PhaseTransition)
    } else if name == "swarm_vote"@ {
        Some(ReceiptType::SwarmVote)
    } else if name == "compaction_complete"@ {
        Some(ReceiptType::CompactionComplete)
    } else if name == "voice_page_sent"@ {
        Some(ReceiptType::VoicePageSent)
    } else {
        None
    }
}

/// The name of a kind of receipt.
pub open spec fn receipt_type_name(kind: ReceiptType) -> Seq<char> {
    match kind {
        ReceiptType::BoreProgress => "bore_progress"@,
        ReceiptType::OrbitalTelemetry => "orbital_telemetry"@,
        ReceiptType::ZkAnomalyProof => "zk_anomaly_proof"@,
        ReceiptType::EntanglementPrediction => "entanglement_prediction"@,
        ReceiptType::AnomalyDetected => "anomaly_detected"@,
        ReceiptType::PhaseTransition => "phase_transition"@,
        ReceiptType::SwarmVote => "swarm_vote"@,
        ReceiptType::CompactionComplete => "compaction_complete"@,
        ReceiptType::VoicePageSent => "voice_page_sent"@,
    }
}

/// Every kind of receipt is the kind that its name stands for.
pub proof fn lemma_receipt_type_name(kind: ReceiptType)
    ensures
        receipt_type_of(receipt_type_name(kind)) == Some(kind),
{
    reveal_strlit("bore_progress");
    reveal_strlit("orbital_telemetry");
    reveal_strlit("zk_anomaly_proof");
    reveal_strlit("entanglement_prediction");
    reveal_strlit("anomaly_detected");
    reveal_strlit("phase_transition");
    reveal_strlit("swarm_vote");
    reveal_strlit("compaction_complete");
    reveal_strlit("voice_page_sent");
    assert("bore_progress"@[0] == 'b');
    assert("orbital_telemetry"@[0] == 'o');
    assert("zk_anomaly_proof"@[0] == 'z');
    assert("entanglement_prediction"@[0] == 'e');
    assert("anomaly_detected"@[0] == 'a');
    assert("phase_transition"@[0] == 'p');
    assert("swarm_vote"@[0] == 's');
    assert("compaction_complete"@[0] == 'c');
    assert("voice_page_sent"@[0] == 'v');
}

impl ReceiptType {
    /// The kind of receipt that `name` stands for, if it is one.
    pub fn from_name(name: &str) -> (kind: Option<ReceiptType>)
        ensures
            kind == receipt_type_of(name@),
    {
        if text_eq(name, "bore_progress") {
            Some(ReceiptType::BoreProgress)
        } else if text_eq(name, "orbital_telemetry") {
            Some(ReceiptType::OrbitalTelemetry)
        } else if text_eq(name, "zk_anomaly_proof") {
            Some(ReceiptType::ZkAnomalyProof)
        } else if text_eq(name, "entanglement_prediction") {
            Some(ReceiptType::EntanglementPrediction)
        } else if text_eq(name, "anomaly_detected") {
            Some(ReceiptType::AnomalyDetected)
        } else if text_eq(name, "phase_transition") {
            Some(ReceiptType::PhaseTransition)
        } else if text_eq(name, "swarm_vote") {
            Some(ReceiptType::SwarmVote)
        } else if text_eq(name, "compaction_complete") {
            Some(ReceiptType::CompactionComplete)
        } else if text_eq(name, "voice_page_sent") {
            Some(ReceiptType::VoicePageSent)
        } else {
            None
        }
    }

    /// The name of this kind of receipt.
    pub fn name(&self) -> (name: &'static str)
        ensures
            name@ == receipt_type_name(*self),
    {
        match self {
            ReceiptType::BoreProgress => "bore_progress",
            ReceiptType::OrbitalTelemetry => "orbital_telemetry",
            ReceiptType::ZkAnomalyProof => "zk_anomaly_proof",
            ReceiptType::EntanglementPrediction => "entanglement_prediction",
            ReceiptType::AnomalyDetected => "anomaly_detected",
            ReceiptType::PhaseTransition => "phase_transition",
            ReceiptType::SwarmVote => "swarm_vote",
            ReceiptType::CompactionComplete => "compaction_complete",
            ReceiptType::VoicePageSent => "voice_page_sent",
        }
    }
}

/// Whether `id` is `receipt-` followed by 32 hexadecimal digits.
pub open spec fn is_receipt_id(id: Seq<char>) -> bool {
    &&& id.len() == 40
    &&& id.subrange(0, 8) == "receipt-"@
    &&& is_hex_text(id.subrange(8, 40))
}

/// Whether `mantissa / 10^scale` is at least `milli / 1000`.
pub open spec fn at_least_milli(mantissa: int, scale: nat, milli: int) -> bool {
    mantissa * 1000 >= milli * pow10(scale)
}

/// The text that the field `name` holds, where it holds a text.
pub open spec fn text_of(v: JsonView, name: Seq<char>) -> Option<Seq<char>> {
    match lookup(v, name) {
        Some(JsonView::Text(t)) => Some(t),
        _ => None,
    }
}

/// Whether the field `name` holds a number.
pub open spec fn holds_number(v: JsonView, name: Seq<char>) -> bool {
    lookup(v, name) matches Some(JsonView::Number(_, _))
}

/// Whether the field `name` holds an array of at least one item.
pub open spec fn holds_items(v: JsonView, name: Seq<char>) -> bool {
    lookup(v, name) matches Some(JsonView::Array(items)) && items.len() > 0
}

/// Whether the field `name` holds a number of at least `milli / 1000`.
pub open spec fn holds_at_least(v: JsonView, name: Seq<char>, milli: int) -> bool {
    lookup(v, name) matches Some(JsonView::Number(m, s)) && at_least_milli(m, s, milli)
}

/// The first check on the fields of every receipt that `v` fails, if any.
pub open spec fn base_violation(v: JsonView, producers: Seq<Seq<char>>) -> Option<
    ValidationError,
> {
    if text_of(v, "version"@) != Some("1.0"@) {
        Some(ValidationError::Version)
    } else if !(text_of(v, "receipt_id"@) matches Some(id) && is_receipt_id(id)) {
        Some(ValidationError::ReceiptId)
    } else if !(lookup(v, "timestamp"@) matches Some(JsonView::Number(m, s)) && s == 0 && m >= 0) {
        Some(ValidationError::Timestamp)
    } else if !(text_of(v, "tenant_id"@) matches Some(t) && t.len() > 0) {
        Some(ValidationError::TenantId)
    } else if !(text_of(v, "receipt_type"@) matches Some(t) && receipt_type_of(t) is Some) {
        Some(ValidationError::ReceiptType)
    } else if !(text_of(v, "emitted_by"@) matches Some(p) && producers.contains(p)) {
        Some(ValidationError::EmittedBy)
    } else if !(text_of(v, "content_hash"@) matches Some(h) && h.len() == 64 && is_hex_text(h)) {
        Some(ValidationError::ContentHash)
    } else if !(text_of(v, "signature"@) matches Some(g) && g.len() >= 64 && is_hex_text(g)) {
        Some(ValidationError::Signature)
    } else {
        None
    }
}

/// The first check on the fields of its kind that `v` fails, if any.
pub open spec fn kind_violation(v: JsonView, kind: ReceiptType) -> Option<ValidationError> {
    match kind {
        ReceiptType::BoreProgress => {
            if !holds_number(v, "meters_advanced"@) {
                Some(ValidationError::MetersAdvanced)
            } else if !(lookup(v, "cutter_head_rpm"@) matches Some(JsonView::Number(_, s)) && s
                == 0) {
                Some(ValidationError::CutterHeadRpm)
            } else {
                None
            }
        },
        ReceiptType::OrbitalTelemetry => {
            if text_of(v, "satellite_id"@) is None {
                Some(ValidationError::SatelliteId)
            } else if !holds_number(v, "signal_strength_dbm"@) {
                Some(ValidationError::SignalStrengthDbm)
            } else if !holds_number(v, "latency_ms"@) {
                Some(ValidationError::LatencyMs)
            } else {
                None
            }
        },
        ReceiptType::ZkAnomalyProof => {
            let proof_view = match lookup(v, "zk_proof"@) {
                Some(p) => p,
                None => JsonView::Null,
            };
            if !holds_items(proof_view, "pi_a"@) {
                Some(ValidationError::PiA)
            } else if !holds_items(proof_view, "pi_b"@) {
                Some(ValidationError::PiB)
            } else if !holds_items(proof_view, "pi_c"@) {
                Some(ValidationError::PiC)
            } else if !holds_items(v, "public_inputs"@) {
                Some(ValidationError::PublicInputs)
            } else {
                None
            }
        },
        ReceiptType::EntanglementPrediction => {
            if !holds_at_least(v, "correlation_score"@, MIN_CORRELATION_MILLI as int) {
                Some(ValidationError::CorrelationScore)
            } else if !holds_at_least(v, "predicted_negation_ms"@, 0) {
                Some(ValidationError::PredictedNegationMs)
            } else {
                None
            }
        },
        _ => None,
    }
}

/// The first check that `v` fails, if any: the checks on the fields of every
/// receipt come first, then those on the fields of its kind.
pub open spec fn first_violation(v: JsonView, producers: Seq<Seq<char>>) -> Option<
    ValidationError,
> {
    match base_violation(v, producers) {
        Some(e) => Some(e),
        None => kind_violation(v, receipt_type_of(text_of(v, "receipt_type"@)->Some_0)->Some_0),
    }
}

/// Whether `v` is a valid receipt.
pub open spec fn is_valid_receipt(v: JsonView, producers: Seq<Seq<char>>) -> bool {
    first_violation(v, producers) is None
}

/// The text that the field `name` holds, where it holds a text.
fn text_field<'a>(v: &'a Value, name: &str) -> (text: Option<&'a str>)
    ensures
        text is Some <==> text_of(v@, name@) is Some,
        text is Some ==> text_of(v@, name@) == Some(text->Some_0@),
{
    match v.get(name) {
        Some(field) => field.as_text(),
        None => None,
    }
}

/// The number that the field `name` holds, where it holds a number.
fn number_field(v: &Value, name: &str) -> (number: Option<Number>)
    ensures
        number is Some <==> holds_number(v@, name@),
        number is Some ==> lookup(v@, name@) == Some(
            JsonView::Number(number->Some_0.mantissa as int, number->Some_0.scale as nat),
        ),
{
    match v.get(name) {
        Some(field) => field.as_number(),
        None => None,
    }
}

/// Whether the field `name` holds an array of at least one item.
fn has_items(v: &Value, name: &str) -> (held: bool)
    ensures
        held == holds_items(v@, name@),
{
    match v.get(name) {
        Some(field) => match field.array_len() {
            Some(n) => n > 0,
            None => false,
        },
        None => false,
    }
}

/// Whether `id` is `receipt-` followed by 32 hexadecimal digits.
pub fn has_receipt_id_shape(id: &str) -> (shaped: bool)
    ensures
        shaped == is_receipt_id(id@),
{
    proof {
        reveal_strlit("receipt-");
    }
    match ascii_bytes(id) {
        None => {
            proof {
                if is_receipt_id(id@) {
                    assert forall|i: int| 0 <= i < id@.len() implies '\0' <= #[trigger] id@[i]
                        <= '\u{7f}' by {
                        if i < 8 {
                            let head = id@.subrange(0, 8);
                            assert(id@[i] == head[i]);
                            assert(head[0] == 'r' && head[1] == 'e' && head[2] == 'c' && head[3]
                                == 'e');
                            assert(head[4] == 'i' && head[5] == 'p' && head[6] == 't' && head[7]
                                == '-');
                        } else {
                            assert(id@[i] == id@.subrange(8, 40)[i - 8]);
                            assert(is_hex_char(id@.subrange(8, 40)[i - 8]));
                        }
                    }
                }
            }
            false
        },
        Some(bytes) => {
            if bytes.len() != 40 {
                return false;
            }
            let prefix_ok = bytes[0] == 114 && bytes[1] == 101 && bytes[2] == 99 && bytes[3] == 101
                && bytes[4] == 105 && bytes[5] == 112 && bytes[6] == 116 && bytes[7] == 45;
            if !prefix_ok {
                proof {
                    if id@.subrange(0, 8) == "receipt-"@ {
                        assert(forall|i: int|
                            0 <= i < 8 ==> id@[i] == #[trigger] id@.subrange(0, 8)[i]);
                        assert(id@.subrange(0, 8)[0] == 'r');
                        assert(id@.subrange(0, 8)[1] == 'e');
                        assert(id@.subrange(0, 8)[2] == 'c');
                        assert(id@.subrange(0, 8)[3] == 'e');
                        assert(id@.subrange(0, 8)[4] == 'i');
                        assert(id@.subrange(0, 8)[5] == 'p');
                        assert(id@.subrange(0, 8)[6] == 't');
                        assert(id@.subrange(0, 8)[7] == '-');
                    }
                }
                return false;
            }
            assert(id@.subrange(0, 8) =~= "receipt-"@);
            let mut i: usize = 8;
            while i < 40
                invariant
                    8 <= i <= 40,
                    bytes@.len() == 40,
                    id@.len() == 40,
                    id@.subrange(0, 8) == "receipt-"@,
                    forall|j: int| 0 <= j < 40 ==> (#[trigger] bytes@[j]) as char == id@[j],
                    forall|j: int| 8 <= j < i ==> is_hex_char(#[trigger] id@[j]),
                decreases 40 - i,
            {
                let b = bytes[i];
                assert(b as char == id@[i as int]);
                let digit = (48 <= b && b <= 57) || (97 <= b && b <= 102) || (65 <= b && b <= 70);
                if !digit {
                    assert(!is_hex_char(id@.subrange(8, 40)[i as int - 8]));
                    return false;
                }
                i += 1;
            }
            assert(is_hex_text(id@.subrange(8, 40))) by {
                assert forall|j: int| 0 <= j < 32 implies is_hex_char(
                    #[trigger] id@.subrange(8, 40)[j],
                ) by {
                    assert(is_hex_char(id@[j + 8]));
                }
            }
            true
        },
    }
}

/// For a positive divisor, a number is at least a multiple of it exactly
/// when its quotient is at least the factor.
proof fn lemma_floor_compare(m: int, p: int, k: int)
    requires
        p > 0,
    ensures
        (m >= k * p) <==> (m / p >= k),
{
    lemma_fundamental_div_mod(m, p);
    let q = m / p;
    let r = m % p;
    assert(0 <= r < p);
    if q >= k {
        assert(p * q >= k * p) by (nonlinear_arith)
            requires
                q >= k,
                p > 0,
        ;
    } else {
        assert(p * q + p <= k * p) by (nonlinear_arith)
            requires
                q + 1 <= k,
                p > 0,
        ;
    }
}

/// Whether `n` is at least `milli / 1000`.
pub fn number_at_least_milli(n: Number, milli: u16) -> (reached: bool)
    ensures
        reached == at_least_milli(n.mantissa as int, n.scale as nat, milli as int),
{
    let m = n.mantissa;
    proof {
        lemma_pow10_positive(n.scale as nat);
    }
    if m < 0 {
        assert(milli * pow10(n.scale as nat) >= 0) by (nonlinear_arith)
            requires
                milli >= 0,
                pow10(n.scale as nat) > 0,
        ;
        return false;
    }
    if n.scale >= 3 {
        let drop: u8 = n.scale - 3;
        let mut rest: i128 = m;
        let mut k: u8 = 0;
        assert(pow10(0) == 1);
        while k < drop
            invariant
                k <= drop,
                m >= 0,
                rest == m as int / (pow10(k as nat) as int),
                rest >= 0,
            decreases drop - k,
        {
            proof {
                lemma_pow10_positive(k as nat);
                vstd::arithmetic::div_mod::lemma_div_denominator(
                    m as int,
                    pow10(k as nat) as int,
                    10,
                );
                assert(pow10(k as nat) * 10 == pow10((k + 1) as nat)) by (nonlinear_arith)
                    requires
                        pow10((k + 1) as nat) == 10 * pow10(k as nat),
                ;
            }
            rest = rest / 10;
            k += 1;
        }
        proof {
            let p = pow10(drop as nat) as int;
            lemma_pow10_positive(drop as nat);
            lemma_pow10_split(drop as nat);
            lemma_floor_compare(m as int, p, milli as int);
            assert((m * 1000 >= milli * (1000 * p)) <==> (m >= milli * p)) by (nonlinear_arith);
        }
        rest >= milli as i128
    } else {
        let factor: i128 = if n.scale == 0 {
            1000
        } else if n.scale == 1 {
            100
        } else {
            10
        };
        proof {
            reveal_with_fuel(pow10, 4);
            assert(factor * pow10(n.scale as nat) == 1000);
        }
        if m > 65535 {
            assert(m * 1000 >= milli * pow10(n.scale as nat)) by (nonlinear_arith)
                requires
                    m > 65535,
                    milli <= 65535,
                    1 <= pow10(n.scale as nat) <= 100,
            ;
            true
        } else {
            let scaled = m * factor;
            assert((m * 1000 >= milli * pow10(n.scale as nat)) <==> (scaled >= milli)) by (nonlinear_arith)
                requires
                    scaled == m * factor,
                    factor * pow10(n.scale as nat) == 1000,
                    pow10(n.scale as nat) > 0,
            ;
            scaled >= milli as i128
        }
    }
}

/// Ten to the power `n + 3` is a thousand times ten to the power `n`.
proof fn lemma_pow10_split(n: nat)
    ensures
        pow10(n + 3) == 1000 * pow10(n),
{
    reveal_with_fuel(pow10, 4);
}

/// The names that a sequence of texts holds.
pub open spec fn producer_names(producers: Seq<String>) -> Seq<Seq<char>> {
    Seq::new(producers.len(), |i: int| producers[i]@)
}

/// Whether `name` is one of `producers`.
fn is_producer(producers: &Vec<String>, name: &str) -> (known: bool)
    ensures
        known == producer_names(producers@).contains(name@),
{
    let mut i: usize = 0;
    while i < producers.len()
        invariant
            i <= producers@.len(),
            forall|j: int| 0 <= j < i ==> producer_names(producers@)[j] != name@,
        decreases producers@.len() - i,
    {
        if text_eq(producers[i].as_str(), name) {
            assert(producer_names(producers@)[i as int] == name@);
            return true;
        }
        i += 1;
    }
    false
}

/// Checks the fields that every receipt has.
fn validate_base(receipt: &Value, producers: &Vec<String>) -> (r: Result<
    ReceiptType,
    ValidationError,
>)
    ensures
        match r {
            Ok(kind) => base_violation(receipt@, producer_names(producers@)) is None
                && receipt_type_of(text_of(receipt@, "receipt_type"@)->Some_0) == Some(kind),
            Err(e) => base_violation(receipt@, producer_names(producers@)) == Some(e),
        },
{
    match text_field(receipt, "version") {
        Some(version) => {
            if !text_eq(version, "1.0") {
                return Err(ValidationError::Version);
            }
        },
        None => {
            return Err(ValidationError::Version);
        },
    }
    match text_field(receipt, "receipt_id") {
        Some(id) => {
            if !has_receipt_id_shape(id) {
                return Err(ValidationError::ReceiptId);
            }
        },
        None => {
            return Err(ValidationError::ReceiptId);
        },
    }
    match number_field(receipt, "timestamp") {
        Some(n) => {
            if n.scale != 0 || n.mantissa < 0 {
                return Err(ValidationError::Timestamp);
            }
        },
        None => {
            return Err(ValidationError::Timestamp);
        },
    }
    match text_field(receipt, "tenant_id") {
        Some(tenant) => {
            if tenant.unicode_len() == 0 {
                return Err(ValidationError::TenantId);
            }
        },
        None => {
            return Err(ValidationError::TenantId);
        },
    }
    let kind = match text_field(receipt, "receipt_type") {
        Some(name) => match ReceiptType::from_name(name) {
            Some(kind) => kind,
            None => {
                return Err(ValidationError::ReceiptType);
            },
        },
        None => {
            return Err(ValidationError::ReceiptType);
        },
    };
    match text_field(receipt, "emitted_by") {
        Some(producer) => {
            if !is_producer(producers, producer) {
                return Err(ValidationError::EmittedBy);
            }
        },
        None => {
            return Err(ValidationError::EmittedBy);
        },
    }
    match text_field(receipt, "content_hash") {
        Some(hash) => {
            if hash.unicode_len() != 64 || !is_hex_str(hash) {
                return Err(ValidationError::ContentHash);
            }
        },
        None => {
            return Err(ValidationError::ContentHash);
        },
    }
    match text_field(receipt, "signature") {
        Some(signature) => {
            if signature.unicode_len() < 64 || !is_hex_str(signature) {
                return Err(ValidationError::Signature);
            }
        },
        None => {
            return Err(ValidationError::Signature);
        },
    }
    Ok(kind)
}

/// Checks the fields that receipts of one kind have.
fn validate_kind(receipt: &Value, kind: ReceiptType) -> (r: Result<(), ValidationError>)
    ensures
        match r {
            Ok(_) => kind_violation(receipt@, kind) is None,
            Err(e) => kind_violation(receipt@, kind) == Some(e),
        },
{
    match kind {
        ReceiptType::BoreProgress => {
            if number_field(receipt, "meters_advanced").is_none() {
                return Err(ValidationError::MetersAdvanced);
            }
            match number_field(receipt, "cutter_head_rpm") {
                Some(n) => {
                    if n.scale != 0 {
                        return Err(ValidationError::CutterHeadRpm);
                    }
                },
                None => {
                    return Err(ValidationError::CutterHeadRpm);
                },
            }
            Ok(())
        },
        ReceiptType::OrbitalTelemetry => {
            if text_field(receipt, "satellite_id").is_none() {
                return Err(ValidationError::SatelliteId);
            }
            if number_field(receipt, "signal_strength_dbm").is_none() {
                return Err(ValidationError::SignalStrengthDbm);
            }
            if number_field(receipt, "latency_ms").is_none() {
                return Err(ValidationError::LatencyMs);
            }
            Ok(())
        },
        ReceiptType::ZkAnomalyProof => {
            let null = Value::Null;
            let zk_proof = match receipt.get("zk_proof") {
                Some(p) => p,
                None => &null,
            };
            if !has_items(zk_proof, "pi_a") {
                return Err(ValidationError::PiA);
            }
            if !has_items(zk_proof, "pi_b") {
                return Err(ValidationError::PiB);
            }
            if !has_items(zk_proof, "pi_c") {
                return Err(ValidationError::PiC);
            }
            if !has_items(receipt, "public_inputs") {
                return Err(ValidationError::PublicInputs);
            }
            Ok(())
        },
        ReceiptType::EntanglementPrediction => {
            match number_field(receipt, "correlation_score") {
                Some(n) => {
                    if !number_at_least_milli(n, MIN_CORRELATION_MILLI) {
                        return Err(ValidationError::CorrelationScore);
                    }
                },
                None => {
                    return Err(ValidationError::CorrelationScore);
                },
            }
            match number_field(receipt, "predicted_negation_ms") {
                Some(n) => {
                    if !number_at_least_milli(n, 0) {
                        return Err(ValidationError::PredictedNegationMs);
                    }
                },
                None => {
                    return Err(ValidationError::PredictedNegationMs);
                },
            }
            Ok(())
        },
        _ => Ok(()),
    }
}

/// Checks a receipt against the schema, with `producers` as the known
/// producers. The error names the first check that failed.
pub fn validate(receipt: &Value, producers: &Vec<String>) -> (r: Result<(), ValidationError>)
    ensures
        match r {
            Ok(_) => first_violation(receipt@, producer_names(producers@)) is None,
            Err(e) => first_violation(receipt@, producer_names(producers@)) == Some(e),
        },
{
    match validate_base(receipt, producers) {
        Ok(kind) => validate_kind(receipt, kind),
        Err(e) => Err(e),
    }
}

/// The producers that are known where none are configured.
pub open spec fn default_producer_names() -> Seq<Seq<char>> {
    seq![
        "rocket-engine"@,
        "nebula-guard"@,
        "digital-twin-groot"@,
        "drax-metrics"@,
        "mantis-community"@,
        "star-lord-orchestrator"@,
        "groot-swarm"@,
        "ledger-explorer"@,
    ]
}

/// The producers that are known where none are configured.
pub fn default_producers() -> (producers: Vec<String>)
    ensures
        producer_names(producers@) == default_producer_names(),
{
    let mut producers: Vec<String> = Vec::new();
    producers.push(String::from_str("rocket-engine"));
    producers.push(String::from_str("nebula-guard"));
    producers.push(String::from_str("digital-twin-groot"));
    producers.push(String::from_str("drax-metrics"));
    producers.push(String::from_str("mantis-community"));
    producers.push(String::from_str("star-lord-orchestrator"));
    producers.push(String::from_str("groot-swarm"));
    producers.push(String::from_str("ledger-explorer"));
    assert(producer_names(producers@) =~= default_producer_names());
    producers
}

impl ValidationError {
    /// The name of the field that failed its check; for the fields of a
    /// proof, the name inside `zk_proof`.
    pub fn field(&self) -> (name: &'static str)
        ensures
            name@ == field_of(*self),
    {
        match self {
            ValidationError::Version => "version",
            ValidationError::ReceiptId => "receipt_id",
            ValidationError::Timestamp => "timestamp",
            ValidationError::TenantId => "tenant_id",
            ValidationError::ReceiptType => "receipt_type",
            ValidationError::EmittedBy => "emitted_by",
            ValidationError::ContentHash => "content_hash",
            ValidationError::Signature => "signature",
            ValidationError::MetersAdvanced => "meters_advanced",
            ValidationError::CutterHeadRpm => "cutter_head_rpm",
            ValidationError::SatelliteId => "satellite_id",
            ValidationError::SignalStrengthDbm => "signal_strength_dbm",
            ValidationError::LatencyMs => "latency_ms",
            ValidationError::PiA => "pi_a",
            ValidationError::PiB => "pi_b",
            ValidationError::PiC => "pi_c",
            ValidationError::PublicInputs => "public_inputs",
            ValidationError::CorrelationScore => "correlation_score",
            ValidationError::PredictedNegationMs => "predicted_negation_ms",
        }
    }

    /// Why the receipt was rejected, in words.
    pub fn reason(&self) -> (text: String)
        ensures
            text@ == "invalid field: "@ + field_of(*self),
    {
        String::from_str("invalid field: ").concat(self.field())
    }
}

/// The name of the field that a failed check is about.
pub open spec fn field_of(error: ValidationError) -> Seq<char> {
    match error {
        ValidationError::Version => "version"@,
        ValidationError::ReceiptId => "receipt_id"@,
        ValidationError::Timestamp => "timestamp"@,
        ValidationError::TenantId => "tenant_id"@,
        ValidationError::ReceiptType => "receipt_type"@,
        ValidationError::EmittedBy => "emitted_by"@,
        ValidationError::ContentHash => "content_hash"@,
        ValidationError::Signature => "signature"@,
        ValidationError::MetersAdvanced => "meters_advanced"@,
        ValidationError::CutterHeadRpm => "cutter_head_rpm"@,
        ValidationError::SatelliteId => "satellite_id"@,
        ValidationError::SignalStrengthDbm => "signal_strength_dbm"@,
        ValidationError::LatencyMs => "latency_ms"@,
        ValidationError::PiA => "pi_a"@,
        ValidationError::PiB => "pi_b"@,
        ValidationError::PiC => "pi_c"@,
        ValidationError::PublicInputs => "public_inputs"@,
        ValidationError::CorrelationScore => "correlation_score"@,
        ValidationError::PredictedNegationMs => "predicted_negation_ms"@,
    }
}

/// The receipt id made from a digest in hexadecimal has the shape of a
/// receipt id, and such a digest is 64 hexadecimal digits.
pub proof fn lemma_digest_texts(digest: Seq<u8>)
    requires
        digest.len() == 32,
    ensures
        crate::hex::hex_text(digest).len() == 64,
        is_hex_text(crate::hex::hex_text(digest)),
        is_receipt_id(crate::receipt::receipt_id_text(crate::hex::hex_text(digest))),
{
    let text = crate::hex::hex_text(digest);
    let id = crate::receipt::receipt_id_text(text);
    crate::hex::lemma_hex_round_trip(digest);
    reveal_strlit("receipt-");
    let short = text.subrange(0, 32);
    assert(id =~= "receipt-"@ + short);
    assert(id.subrange(0, 8) =~= "receipt-"@);
    assert(id.subrange(8, 40) =~= short);
    assert forall|i: int| 0 <= i < short.len() implies is_hex_char(#[trigger] short[i]) by {
        assert(short[i] == text[i]);
    }
}

} // verus!
