//! The compaction gate: what a compaction run achieved, whether the ledger is
//! healthy enough to go on, and the receipt that records both.
//!
//! Percentages are fixed-point numbers in hundredths of a percent, the health
//! metric is one in millionths.

use vstd::prelude::*;
use vstd::string::StringExecFns;
use crate::decimal::{decimal_text, push_decimal};
use crate::digest::{digest32, hash_bytes};
use crate::hex::{encode_hex, hex_text, lemma_hex_round_trip};
use crate::json::{Field, JsonView, Value};
use crate::canonical::content_hash_text;
use crate::json::{field_names, last_index, lookup};
use crate::receipt::{
    hash_is_current, lemma_stamp, lemma_stamped_lookup, lemma_with_derived_field,
    lemma_with_field_lookup, receipt_id_text, set_field, signature_is_valid, stamp_for,
    stamped_fields, with_field,
};
use crate::schema::{
    default_producer_names, is_valid_receipt, lemma_digest_texts, lemma_receipt_type_name,
    receipt_type_of, text_of, ReceiptType,
};
use crate::signature::{SignatureScheme, StubSigner};
use crate::text::{push_text, text_bytes};

verus! {

/// The health metric below which a run reports degraded health, in
/// millionths: 0.90.
pub const DEATH_THRESHOLD_MICRO: i64 = 900_000;

/// The health metric that stands for "unknown", in millionths: 1.0.
pub const DEFAULT_HEALTH_MICRO: i64 = 1_000_000;

/// `n / d` rounded to the nearest whole number, halves away from zero, for a
/// positive `d`.
pub open spec fn round_div(n: int, d: int) -> int {
    if n >= 0 {
        (2 * n + d) / (2 * d)
    } else {
        -((2 * (-n) + d) / (2 * d))
    }
}

/// The share by which a count went down, in hundredths of a percent, and
/// zero where there was nothing before.
pub open spec fn reduction_of(before: int, after: int) -> int {
    if before > 0 {
        round_div((before - after) * 10_000, before)
    } else {
        0
    }
}

/// The share by which the rows of the hot store went down, and zero where
/// the counts are unknown.
pub open spec fn hot_reduction_of(rows: Option<(i64, i64)>) -> int {
    match rows {
        Some((before, after)) => reduction_of(before as int, after as int),
        None => 0,
    }
}

/// The share by which the live bytes of the cold store went down, and zero
/// where either size is unknown.
pub open spec fn cold_reduction_of(before: Option<u64>, after: Option<u64>) -> int {
    match (before, after) {
        (Some(b), Some(a)) => reduction_of(b as int, a as int),
        _ => 0,
    }
}

/// The reduction of a run: the greater of the reductions of the two stores.
pub open spec fn reduction_percent_of(
    rows: Option<(i64, i64)>,
    live_before: Option<u64>,
    live_after: Option<u64>,
) -> int {
    let hot = hot_reduction_of(rows);
    let cold = cold_reduction_of(live_before, live_after);
    if hot >= cold {
        hot
    } else {
        cold
    }
}

/// Whether a health metric, in millionths, is below the threshold.
pub open spec fn triggers_death(health_micro: int) -> bool {
    health_micro < DEATH_THRESHOLD_MICRO
}

/// `n / d` rounded to the nearest whole number, halves away from zero.
fn rounded_quotient(n: i128, d: i128) -> (q: i128)
    requires
        d > 0,
        d <= 0x1_0000_0000_0000_0000,
        -0x1_0000_0000_0000_0000_0000_0000 <= n <= 0x1_0000_0000_0000_0000_0000_0000,
    ensures
        q == round_div(n as int, d as int),
{
    if n >= 0 {
        let q = (2 * n + d) / (2 * d);
        q
    } else {
        let up = (2 * (-n) + d) / (2 * d);
        assert(0 <= up) by (nonlinear_arith)
            requires
                up == (2 * (-n) + d) / (2 * d),
                -n >= 0,
                d > 0,
        ;
        assert(up <= 2 * (-n) + d) by {
            vstd::arithmetic::div_mod::lemma_div_is_ordered_by_denominator(
                (2 * (-n) + d) as int,
                1,
                (2 * d) as int,
            );
        }
        -up
    }
}

/// The share by which a count went down, in hundredths of a percent.
fn reduction(before: i128, after: i128) -> (share: i128)
    requires
        -0x8000_0000_0000_0000 <= before <= 0xffff_ffff_ffff_ffff,
        -0x8000_0000_0000_0000 <= after <= 0xffff_ffff_ffff_ffff,
    ensures
        share == reduction_of(before as int, after as int),
{
    if before > 0 {
        rounded_quotient((before - after) * 10_000, before)
    } else {
        0
    }
}

/// The row counts of the hot store from what its two counts gave: a count
/// before the reclaim that failed stands as zero, and one after it that
/// failed as the count before.
pub fn row_counts(before: Option<i64>, after: Option<i64>) -> (rows: (i64, i64))
    ensures
        rows.0 == (match before {
            Some(n) => n,
            None => 0,
        }),
        rows.1 == (match after {
            Some(n) => n,
            None => rows.0,
        }),
{
    let first = match before {
        Some(n) => n,
        None => 0,
    };
    let second = match after {
        Some(n) => n,
        None => first,
    };
    (first, second)
}

/// What a compaction run achieved.
#[derive(Clone, Copy, Debug, PartialEq, Eq)]
pub struct CompactionOutcome {
    /// The rows of the hot store before and after, where they are known.
    pub rows: Option<(i64, i64)>,
    /// The live bytes of the cold store before the run, where known.
    pub live_bytes_before: Option<u64>,
    /// The live bytes of the cold store after the run, where known.
    pub live_bytes_after: Option<u64>,
    /// The reduction in hundredths of a percent.
    pub reduction_percent: i128,
    /// The health metric in millionths.
    pub health_metric: i64,
    /// Whether the health metric is below the threshold.
    pub death_triggered: bool,
}

/// Whether `outcome` is what the counts and the health metric amount to.
pub open spec fn is_outcome_of(
    outcome: CompactionOutcome,
    rows: Option<(i64, i64)>,
    live_before: Option<u64>,
    live_after: Option<u64>,
    health_metric: i64,
) -> bool {
    &&& outcome.rows == rows
    &&& outcome.live_bytes_before == live_before
    &&& outcome.live_bytes_after == live_after
    &&& outcome.reduction_percent == reduction_percent_of(rows, live_before, live_after)
    &&& outcome.health_metric == health_metric
    &&& outcome.death_triggered == triggers_death(health_metric as int)
}

/// The outcome of a run from the counts of the two stores and the health
/// metric.
pub fn assess(
    rows: Option<(i64, i64)>,
    live_before: Option<u64>,
    live_after: Option<u64>,
    health_metric: i64,
) -> (outcome: CompactionOutcome)
    ensures
        is_outcome_of(outcome, rows, live_before, live_after, health_metric),
{
    let hot: i128 = match rows {
        Some((before, after)) => reduction(before as i128, after as i128),
        None => 0,
    };
    let cold: i128 = match (live_before, live_after) {
        (Some(b), Some(a)) => reduction(b as i128, a as i128),
        _ => 0,
    };
    let reduction_percent = if hot >= cold {
        hot
    } else {
        cold
    };
    CompactionOutcome {
        rows,
        live_bytes_before: live_before,
        live_bytes_after: live_after,
        reduction_percent,
        health_metric,
        death_triggered: health_metric < DEATH_THRESHOLD_MICRO,
    }
}

/// The exit status that tells the caller of a run about its health: zero
/// where the run is healthy, one where the health metric is below the
/// threshold.
pub fn exit_status(outcome: &CompactionOutcome) -> (status: u8)
    ensures
        status == (if outcome.death_triggered {
            1u8
        } else {
            0u8
        }),
{
    if outcome.death_triggered {
        1
    } else {
        0
    }
}

/// The text that the id of a compaction receipt is hashed from.
pub open spec fn receipt_seed(now: nat, before: int, after: int) -> Seq<u8> {
    text_bytes("compaction-"@) + decimal_text(now as int, 0) + seq![0x2du8] + decimal_text(
        before,
        0,
    ) + seq![0x2du8] + decimal_text(after, 0)
}

/// The id of the compaction receipt of a run: `receipt-` and the first 32
/// hexadecimal digits of the digest of the time and the two row counts.
pub open spec fn compaction_receipt_id(now: nat, before: int, after: int) -> Seq<char> {
    receipt_id_text(hex_text(digest32(receipt_seed(now, before, after))))
}

/// The id of the compaction receipt of a run.
pub fn make_receipt_id(now: u64, before: i64, after: i64) -> (id: String)
    ensures
        id@ == compaction_receipt_id(now as nat, before as int, after as int),
{
    let mut seed: Vec<u8> = Vec::new();
    push_text(&mut seed, "compaction-");
    push_decimal(&mut seed, now as i128, 0);
    seed.push(0x2d);
    push_decimal(&mut seed, before as i128, 0);
    seed.push(0x2d);
    push_decimal(&mut seed, after as i128, 0);
    assert(seed@ =~= receipt_seed(now as nat, before as int, after as int));
    let digest = hash_bytes(seed.as_slice());
    let short = encode_hex(vstd::slice::slice_subrange(digest.bytes.as_slice(), 0, 16));
    assert(short@ =~= hex_text(digest@).subrange(0, 32));
    String::from_str("receipt-").concat(short.as_str())
}

/// A count as a value: the number where it is known, null where it is not.
pub open spec fn count_view(count: Option<int>) -> JsonView {
    match count {
        Some(n) => JsonView::Number(n, 0),
        None => JsonView::Null,
    }
}

/// The rows before a run, where known.
pub open spec fn rows_before(rows: Option<(i64, i64)>) -> Option<int> {
    match rows {
        Some((before, _)) => Some(before as int),
        None => None,
    }
}

/// The rows after a run, where known.
pub open spec fn rows_after(rows: Option<(i64, i64)>) -> Option<int> {
    match rows {
        Some((_, after)) => Some(after as int),
        None => None,
    }
}

/// A size in bytes, where known.
pub open spec fn bytes_count(size: Option<u64>) -> Option<int> {
    match size {
        Some(n) => Some(n as int),
        None => None,
    }
}

/// The fields of a compaction receipt before it is stamped.
pub open spec fn compaction_fields(
    outcome: CompactionOutcome,
    tenant_id: Seq<char>,
    now: nat,
) -> Seq<(Seq<char>, JsonView)> {
    seq![
        ("version"@, JsonView::Text("1.0"@)),
        ("timestamp"@, JsonView::Number(now as int, 0)),
        ("tenant_id"@, JsonView::Text(tenant_id)),
        ("receipt_type"@, JsonView::Text("compaction_complete"@)),
        ("emitted_by"@, JsonView::Text("drax-metrics"@)),
        ("input_row_count"@, count_view(rows_before(outcome.rows))),
        ("output_row_count"@, count_view(rows_after(outcome.rows))),
        ("reduction_percent"@, JsonView::Number(outcome.reduction_percent as int, 2)),
        ("rocksdb_live_bytes_before"@, count_view(bytes_count(outcome.live_bytes_before))),
        ("rocksdb_live_bytes_after"@, count_view(bytes_count(outcome.live_bytes_after))),
        ("pce_transitivity"@, JsonView::Number(round_div(outcome.health_metric as int, 100), 4)),
        ("death_triggered"@, JsonView::Bool(outcome.death_triggered)),
    ]
}

/// The row counts that the id of a compaction receipt is made from: the
/// counts of the run, and zero for counts that are unknown.
pub open spec fn id_rows(rows: Option<(i64, i64)>) -> (int, int) {
    match rows {
        Some((before, after)) => (before as int, after as int),
        None => (0, 0),
    }
}

/// The compaction receipt of a run: its fields, stamped for the tenant, with
/// the id made from the time and the row counts.
pub open spec fn compaction_receipt_view<S: SignatureScheme>(
    scheme: S,
    outcome: CompactionOutcome,
    tenant_id: Seq<char>,
    now: nat,
) -> JsonView {
    JsonView::Object(
        with_field(
            stamped_fields(scheme, compaction_fields(outcome, tenant_id, now), tenant_id),
            "receipt_id"@,
            JsonView::Text(
                compaction_receipt_id(now, id_rows(outcome.rows).0, id_rows(outcome.rows).1),
            ),
        ),
    )
}

/// A count as a value.
fn count_value(count: Option<i128>) -> (v: Value)
    ensures
        v@ == (match count {
            Some(n) => JsonView::Number(n as int, 0),
            None => JsonView::Null,
        }),
{
    match count {
        Some(n) => Value::decimal(n, 0),
        None => Value::Null,
    }
}

/// The compaction receipt of a run, stamped with `scheme` for the tenant.
/// The receipt is made whatever the health of the run.
pub fn compaction_receipt<S: SignatureScheme>(
    outcome: &CompactionOutcome,
    tenant_id: &str,
    now: u64,
    scheme: &S,
) -> (receipt: Value)
    ensures
        receipt@ == compaction_receipt_view(*scheme, *outcome, tenant_id@, now as nat),
{
    let (before, after): (Option<i128>, Option<i128>) = match outcome.rows {
        Some((b, a)) => (Some(b as i128), Some(a as i128)),
        None => (None, None),
    };
    let (id_before, id_after): (i64, i64) = match outcome.rows {
        Some((b, a)) => (b, a),
        None => (0, 0),
    };
    let live_before: Option<i128> = match outcome.live_bytes_before {
        Some(n) => Some(n as i128),
        None => None,
    };
    let live_after: Option<i128> = match outcome.live_bytes_after {
        Some(n) => Some(n as i128),
        None => None,
    };
    let health = rounded_quotient(outcome.health_metric as i128, 100);
    let mut fields: Vec<Field> = Vec::new();
    fields.push(Field::new("version", Value::text("1.0")));
    fields.push(Field::new("timestamp", Value::unsigned(now)));
    fields.push(Field::new("tenant_id", Value::text(tenant_id)));
    fields.push(Field::new("receipt_type", Value::text("compaction_complete")));
    fields.push(Field::new("emitted_by", Value::text("drax-metrics")));
    fields.push(Field::new("input_row_count", count_value(before)));
    fields.push(Field::new("output_row_count", count_value(after)));
    fields.push(Field::new("reduction_percent", Value::decimal(outcome.reduction_percent, 2)));
    fields.push(Field::new("rocksdb_live_bytes_before", count_value(live_before)));
    fields.push(Field::new("rocksdb_live_bytes_after", count_value(live_after)));
    fields.push(Field::new("pce_transitivity", Value::decimal(health, 4)));
    fields.push(Field::new("death_triggered", Value::Bool(outcome.death_triggered)));
    proof {
        crate::json::lemma_object_view(fields);
        assert(crate::json::fields_view(fields@) =~= compaction_fields(
            *outcome,
            tenant_id@,
            now as nat,
        ));
    }
    let stamped = stamp_for(Value::Object(fields), tenant_id, scheme);
    let id = make_receipt_id(now, id_before, id_after);
    match stamped {
        Value::Object(stamped_fields) => {
            let mut stamped_fields = stamped_fields;
            proof {
                crate::json::lemma_object_view(stamped_fields);
            }
            set_field(&mut stamped_fields, "receipt_id", Value::Text(id));
            proof {
                crate::json::lemma_object_view(stamped_fields);
            }
            Value::Object(stamped_fields)
        },
        other => other,
    }
}

/// The fields that every receipt has hold, in a compaction receipt before it
/// is stamped, what the run gave them.
proof fn lemma_compaction_base_fields(outcome: CompactionOutcome, tenant_id: Seq<char>, now: nat)
    ensures
        lookup(JsonView::Object(compaction_fields(outcome, tenant_id, now)), "version"@) == Some(
            JsonView::Text("1.0"@),
        ),
        lookup(JsonView::Object(compaction_fields(outcome, tenant_id, now)), "timestamp"@) == Some(
            JsonView::Number(now as int, 0),
        ),
        lookup(JsonView::Object(compaction_fields(outcome, tenant_id, now)), "tenant_id"@) == Some(
            JsonView::Text(tenant_id),
        ),
        lookup(JsonView::Object(compaction_fields(outcome, tenant_id, now)), "receipt_type"@)
            == Some(JsonView::Text("compaction_complete"@)),
        lookup(JsonView::Object(compaction_fields(outcome, tenant_id, now)), "emitted_by"@)
            == Some(JsonView::Text("drax-metrics"@)),
{
    let fields = compaction_fields(outcome, tenant_id, now);
    let names = field_names(fields);
    reveal_strlit("version");
    reveal_strlit("timestamp");
    reveal_strlit("tenant_id");
    reveal_strlit("receipt_type");
    reveal_strlit("emitted_by");
    reveal_strlit("input_row_count");
    reveal_strlit("output_row_count");
    reveal_strlit("reduction_percent");
    reveal_strlit("rocksdb_live_bytes_before");
    reveal_strlit("rocksdb_live_bytes_after");
    reveal_strlit("pce_transitivity");
    reveal_strlit("death_triggered");
    assert(names[0] == "version"@ && names[1] == "timestamp"@ && names[2] == "tenant_id"@);
    assert(names[3] == "receipt_type"@ && names[4] == "emitted_by"@);
    assert(names[0][0] == 'v' && names[1][0] == 't' && names[2][0] == 't');
    assert(names[1][1] == 'i' && names[2][1] == 'e');
    assert(names[3][0] == 'r' && names[4][0] == 'e' && names[5][0] == 'i');
    assert(names[6][0] == 'o' && names[7][0] == 'r' && names[8][0] == 'r');
    assert(names[9][0] == 'r' && names[10][0] == 'p' && names[11][0] == 'd');
    assert(names[3][1] == 'e' && names[3][2] == 'c');
    assert(names[7][1] == 'e' && names[7][2] == 'd');
    assert(names[8][1] == 'o' && names[9][1] == 'o');
    reveal_with_fuel(last_index, 13);
    assert(last_index(names, "version"@, 12) == 0);
    assert(last_index(names, "timestamp"@, 12) == 1);
    assert(last_index(names, "tenant_id"@, 12) == 2);
    assert(last_index(names, "receipt_type"@, 12) == 3);
    assert(last_index(names, "emitted_by"@, 12) == 4);
}

/// The compaction receipt of a run carries its own content hash and a
/// signature that the scheme accepts for its tenant.
pub proof fn lemma_compaction_receipt_sealed<S: SignatureScheme>(
    scheme: S,
    outcome: CompactionOutcome,
    tenant_id: Seq<char>,
    now: nat,
)
    ensures
        hash_is_current(compaction_receipt_view(scheme, outcome, tenant_id, now)),
        signature_is_valid(scheme, compaction_receipt_view(scheme, outcome, tenant_id, now)),
{
    let fields = compaction_fields(outcome, tenant_id, now);
    let stamped = stamped_fields(scheme, fields, tenant_id);
    let id = JsonView::Text(
        compaction_receipt_id(now, id_rows(outcome.rows).0, id_rows(outcome.rows).1),
    );
    lemma_compaction_base_fields(outcome, tenant_id, now);
    lemma_stamp(scheme, fields, tenant_id);
    lemma_with_derived_field(stamped, "receipt_id"@, id);
    reveal_strlit("receipt_id");
    reveal_strlit("content_hash");
    reveal_strlit("signature");
    reveal_strlit("tenant_id");
    assert("receipt_id"@[0] == 'r' && "content_hash"@[0] == 'c');
    assert("signature"@[0] == 's' && "tenant_id"@[0] == 't');
    lemma_with_field_lookup(stamped, "receipt_id"@, id, "content_hash"@);
    lemma_with_field_lookup(stamped, "receipt_id"@, id, "signature"@);
    lemma_with_field_lookup(stamped, "receipt_id"@, id, "tenant_id"@);
    assert(content_hash_text(compaction_receipt_view(scheme, outcome, tenant_id, now))
        == content_hash_text(JsonView::Object(stamped)));
}

/// Where a compaction run stands.
#[derive(Clone, Copy, Debug, PartialEq, Eq)]
pub enum GateState {
    /// Nothing was done yet; the configuration is awaited.
    AwaitingConfig,
    /// The configuration is in; the hot store is being compacted.
    AwaitingHot,
    /// The hot store is done, with its row counts where it succeeded; the
    /// cold store is being compacted.
    AwaitingCold { rows: Option<(i64, i64)> },
    /// The run is over.
    Finished,
}

/// What happened outside since the last step.
#[derive(Clone, Copy, Debug, PartialEq, Eq)]
pub enum GateEvent {
    ConfigLoaded,
    ConfigFailed,
    HotCompacted { before: i64, after: i64 },
    HotFailed,
    ColdCompacted { live_before: Option<u64>, live_after: Option<u64> },
    ColdFailed,
}

/// Why a run ended without a receipt.
#[derive(Clone, Copy, Debug, PartialEq, Eq, Structural)]
pub enum RunError {
    /// The configuration could not be had.
    Config,
    /// Both stores failed.
    Stores,
    /// An event came that the state of the run does not expect.
    Unexpected,
}

/// What is to be done outside next.
#[derive(Clone, Copy, Debug, PartialEq, Eq)]
pub enum GateAction {
    /// Count the rows of the hot store, reclaim, and count again.
    CompactHot,
    /// Estimate the live bytes of the cold store, compact, and estimate
    /// again.
    CompactCold,
    /// Emit the receipt for these counts; those of a store that failed are
    /// unknown.
    Emit { rows: Option<(i64, i64)>, live_bytes_before: Option<u64>, live_bytes_after: Option<u64> },
    /// End the run without a receipt.
    Abort { error: RunError },
}

/// The state that follows `state` on `event`, and what is to be done next.
pub open spec fn next_step(state: GateState, event: GateEvent) -> (GateState, GateAction) {
    match (state, event) {
        (GateState::AwaitingConfig, GateEvent::ConfigLoaded) => (
            GateState::AwaitingHot,
            GateAction::CompactHot,
        ),
        (GateState::AwaitingConfig, GateEvent::ConfigFailed) => (
            GateState::Finished,
            GateAction::Abort { error: RunError::Config },
        ),
        (GateState::AwaitingHot, GateEvent::HotCompacted { before, after }) => (
            GateState::AwaitingCold { rows: Some((before, after)) },
            GateAction::CompactCold,
        ),
        (GateState::AwaitingHot, GateEvent::HotFailed) => (
            GateState::AwaitingCold { rows: None },
            GateAction::CompactCold,
        ),
        (GateState::AwaitingCold { rows }, GateEvent::ColdCompacted { live_before, live_after }) => (
            GateState::Finished,
            GateAction::Emit { rows, live_bytes_before: live_before, live_bytes_after: live_after },
        ),
        (GateState::AwaitingCold { rows }, GateEvent::ColdFailed) => (
            GateState::Finished,
            if rows is Some {
                GateAction::Emit { rows, live_bytes_before: None, live_bytes_after: None }
            } else {
                GateAction::Abort { error: RunError::Stores }
            },
        ),
        _ => (GateState::Finished, GateAction::Abort { error: RunError::Unexpected }),
    }
}

/// Takes one step of a compaction run.
pub fn step(state: GateState, event: GateEvent) -> (r: (GateState, GateAction))
    ensures
        r == next_step(state, event),
{
    match state {
        GateState::AwaitingConfig => match event {
            GateEvent::ConfigLoaded => (GateState::AwaitingHot, GateAction::CompactHot),
            GateEvent::ConfigFailed => (
                GateState::Finished,
                GateAction::Abort { error: RunError::Config },
            ),
            _ => (GateState::Finished, GateAction::Abort { error: RunError::Unexpected }),
        },
        GateState::AwaitingHot => match event {
            GateEvent::HotCompacted { before, after } => (
                GateState::AwaitingCold { rows: Some((before, after)) },
                GateAction::CompactCold,
            ),
            GateEvent::HotFailed => (GateState::AwaitingCold { rows: None }, GateAction::CompactCold),
            _ => (GateState::Finished, GateAction::Abort { error: RunError::Unexpected }),
        },
        GateState::AwaitingCold { rows } => match event {
            GateEvent::ColdCompacted { live_before, live_after } => (
                GateState::Finished,
                GateAction::Emit {
                    rows,
                    live_bytes_before: live_before,
                    live_bytes_after: live_after,
                },
            ),
            GateEvent::ColdFailed => (
                GateState::Finished,
                match rows {
                    Some(_) => GateAction::Emit {
                        rows,
                        live_bytes_before: None,
                        live_bytes_after: None,
                    },
                    None => GateAction::Abort { error: RunError::Stores },
                },
            ),
            _ => (GateState::Finished, GateAction::Abort { error: RunError::Unexpected }),
        },
        GateState::Finished => (
            GateState::Finished,
            GateAction::Abort { error: RunError::Unexpected },
        ),
    }
}

/// No store is touched before the configuration is in, and none after it
/// failed: a store is compacted only on the step that follows the loading of
/// the configuration or the end of the hot store's turn.
pub proof fn lemma_stores_follow_config(state: GateState, event: GateEvent)
    ensures
        next_step(state, event).1 is CompactHot ==> state is AwaitingConfig && event
            is ConfigLoaded,
        next_step(state, event).1 is CompactCold ==> state is AwaitingHot,
        event is ConfigFailed ==> next_step(state, event).1 is Abort,
{
}

/// A receipt is emitted only at the end of the cold store's turn, and only
/// where at least one store succeeded; the counts of a store that failed are
/// unknown in it, and those of one that succeeded are its own.
pub proof fn lemma_emit_reports_what_is_known(state: GateState, event: GateEvent)
    requires
        next_step(state, event).1 is Emit,
    ensures
        state is AwaitingCold,
        next_step(state, event).1->rows == state->rows,
        event is ColdCompacted || (event is ColdFailed && state->rows is Some),
        event is ColdFailed ==> next_step(state, event).1->live_bytes_before is None
            && next_step(state, event).1->live_bytes_after is None,
        event is ColdCompacted ==> next_step(state, event).1->live_bytes_before == event->live_before
            && next_step(state, event).1->live_bytes_after == event->live_after,
{
}

/// Every step that emits or aborts ends the run, and a run that is over
/// stays over.
pub proof fn lemma_run_ends(state: GateState, event: GateEvent)
    ensures
        (next_step(state, event).1 is Emit || next_step(state, event).1 is Abort) ==> next_step(
            state,
            event,
        ).0 is Finished,
        state is Finished ==> next_step(state, event).0 is Finished && next_step(state, event).1
            is Abort,
{
}

/// Ends a run that is to emit: the outcome of the run, its receipt stamped
/// with `scheme`, and the exit status for the caller. The receipt is made
/// whatever the health of the run.
pub fn finish_run<S: SignatureScheme>(
    rows: Option<(i64, i64)>,
    live_bytes_before: Option<u64>,
    live_bytes_after: Option<u64>,
    health_metric: i64,
    tenant_id: &str,
    now: u64,
    scheme: &S,
) -> (r: (CompactionOutcome, Value, u8))
    ensures
        is_outcome_of(r.0, rows, live_bytes_before, live_bytes_after, health_metric),
        r.1@ == compaction_receipt_view(*scheme, r.0, tenant_id@, now as nat),
        r.2 == (if triggers_death(health_metric as int) {
            1u8
        } else {
            0u8
        }),
{
    let outcome = assess(rows, live_bytes_before, live_bytes_after, health_metric);
    let receipt = compaction_receipt(&outcome, tenant_id, now, scheme);
    let status = exit_status(&outcome);
    (outcome, receipt, status)
}

/// Setting the three fields of the stamp, and the receipt id once more,
/// leaves the fields of other names as they are.
proof fn lemma_compaction_keeps(
    outcome: CompactionOutcome,
    tenant_id: Seq<char>,
    now: nat,
    name: Seq<char>,
)
    requires
        name != "content_hash"@,
        name != "receipt_id"@,
        name != "signature"@,
    ensures
        lookup(compaction_receipt_view(StubSigner, outcome, tenant_id, now), name) == lookup(
            JsonView::Object(compaction_fields(outcome, tenant_id, now)),
            name,
        ),
{
    let fields = compaction_fields(outcome, tenant_id, now);
    let id = JsonView::Text(
        compaction_receipt_id(now, id_rows(outcome.rows).0, id_rows(outcome.rows).1),
    );
    lemma_stamped_lookup(StubSigner, fields, tenant_id, name);
    lemma_with_field_lookup(
        stamped_fields(StubSigner, fields, tenant_id),
        "receipt_id"@,
        id,
        name,
    );
}

/// The compaction receipt of a run for a tenant with a name is a valid
/// receipt for the default producers.
pub proof fn lemma_compaction_receipt_valid(
    outcome: CompactionOutcome,
    tenant_id: Seq<char>,
    now: nat,
)
    requires
        tenant_id.len() > 0,
    ensures
        is_valid_receipt(
            compaction_receipt_view(StubSigner, outcome, tenant_id, now),
            default_producer_names(),
        ),
{
    let receipt = compaction_receipt_view(StubSigner, outcome, tenant_id, now);
    let fields = compaction_fields(outcome, tenant_id, now);
    let stamped = stamped_fields(StubSigner, fields, tenant_id);
    let hash = content_hash_text(JsonView::Object(fields));
    let id = compaction_receipt_id(now, id_rows(outcome.rows).0, id_rows(outcome.rows).1);
    reveal_strlit("version");
    reveal_strlit("timestamp");
    reveal_strlit("tenant_id");
    reveal_strlit("receipt_type");
    reveal_strlit("emitted_by");
    reveal_strlit("content_hash");
    reveal_strlit("receipt_id");
    reveal_strlit("signature");
    reveal_strlit("receipt-");
    assert("version"@[0] == 'v' && "timestamp"@[0] == 't' && "tenant_id"@[0] == 't');
    assert("receipt_type"@[0] == 'r' && "receipt_type"@[8] == 't' && "emitted_by"@[0] == 'e');
    assert("content_hash"@[0] == 'c' && "signature"@[0] == 's');
    assert("receipt_id"@[0] == 'r' && "receipt_id"@[8] == 'i');
    lemma_compaction_base_fields(outcome, tenant_id, now);
    lemma_compaction_keeps(outcome, tenant_id, now, "version"@);
    lemma_compaction_keeps(outcome, tenant_id, now, "timestamp"@);
    lemma_compaction_keeps(outcome, tenant_id, now, "tenant_id"@);
    lemma_compaction_keeps(outcome, tenant_id, now, "receipt_type"@);
    lemma_compaction_keeps(outcome, tenant_id, now, "emitted_by"@);
    // The receipt id.
    lemma_with_field_lookup(stamped, "receipt_id"@, JsonView::Text(id), "content_hash"@);
    lemma_with_field_lookup(stamped, "receipt_id"@, JsonView::Text(id), "signature"@);
    lemma_digest_texts(
        digest32(receipt_seed(now, id_rows(outcome.rows).0, id_rows(outcome.rows).1)),
    );
    // The content hash and the signature.
    lemma_compaction_receipt_sealed(StubSigner, outcome, tenant_id, now);
    lemma_stamp(StubSigner, fields, tenant_id);
    lemma_hex_round_trip(digest32(crate::canonical::canonical_bytes(receipt)));
    let signed = digest32(
        crate::text::text_bytes(content_hash_text(receipt)) + crate::text::text_bytes(tenant_id)
            + crate::text::text_bytes(crate::signature::algorithm_tag()),
    );
    lemma_hex_round_trip(signed);
    // The kind and the producer.
    lemma_receipt_type_name(ReceiptType::CompactionComplete);
    assert(default_producer_names()[3] == "drax-metrics"@);
    assert(text_of(receipt, "receipt_type"@) == Some("compaction_complete"@));
    assert(receipt_type_of("compaction_complete"@) == Some(ReceiptType::CompactionComplete));
}

} // verus!
