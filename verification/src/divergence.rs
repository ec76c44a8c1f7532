//! Divergence between an asset and its twin.
//!
//! Measurements are fixed-point numbers in millionths. The divergence of two
//! measurements is an exact fraction between zero and one, so that a value
//! on the threshold is told apart from one above it.

use vstd::prelude::*;
use crate::decimal::{
    decimal_text, is_decimal_byte, lemma_decimal_text_bytes, lemma_decimal_text_injective,
    push_decimal,
};
use crate::digest::{collision_exists, digest32, hash_bytes, is_collision, Digest};
use crate::merkle::{
    all_digest_sized, build_root, digest_seq, lemma_root_binds_leaves, merkle_root, ProofError,
};
use crate::hex::hex_text;
use crate::json::{Field, JsonView, Value};
use crate::canonical::{canonical_bytes, content_hash_text};
use crate::json::{field_names, last_index, lookup};
use crate::receipt::{lemma_stamped_lookup, stamp_for, stamped_fields};
use crate::schema::{
    default_producer_names, is_valid_receipt, lemma_digest_texts, lemma_receipt_type_name,
    receipt_type_name, receipt_type_of, text_of, ReceiptType,
};
use crate::signature::{algorithm_tag, SignatureScheme, StubSigner};
use crate::text::{lemma_text_bytes_injective, push_text, text_bytes};

verus! {

/// A fraction `num / den`.
pub struct Fraction {
    pub num: nat,
    pub den: nat,
}

impl Fraction {
    /// `self <= other` as fractions with positive denominators.
    pub open spec fn le(&self, other: Fraction) -> bool {
        self.num * other.den <= other.num * self.den
    }

    /// Whether the fraction is at most `ppm` parts per million.
    pub open spec fn within(&self, ppm: nat) -> bool {
        self.num * 1_000_000 <= ppm * self.den
    }

    /// The fraction in parts per million, rounded up; a million for a
    /// fraction of one or more, and for one without a denominator.
    pub open spec fn ppm(&self) -> nat {
        if self.den == 0 || self.num >= self.den {
            1_000_000
        } else {
            ((self.num * 1_000_000 + self.den - 1) / (self.den as int)) as nat
        }
    }
}

/// The greater of two fractions; the first where they are equal.
pub open spec fn max_fraction(x: Fraction, y: Fraction) -> Fraction {
    if x.num * y.den < y.num * x.den {
        y
    } else {
        x
    }
}

/// A fraction between zero and one.
#[derive(Clone, Copy, Debug, PartialEq, Eq, Structural)]
pub struct Ratio {
    pub num: u64,
    pub den: u64,
}

impl View for Ratio {
    type V = Fraction;

    open spec fn view(&self) -> Fraction {
        Fraction { num: self.num as nat, den: self.den as nat }
    }
}

/// The divergence threshold in parts per million: five percent.
pub const DEFAULT_THRESHOLD_PPM: u32 = 50_000;

/// The distance between two numbers.
pub open spec fn distance(a: int, b: int) -> nat {
    if a >= b {
        (a - b) as nat
    } else {
        (b - a) as nat
    }
}

/// The relative divergence of `b` from `a`: zero where both are zero, one
/// where only `a` is, and else the distance between them relative to the
/// size of `a`, at most one.
pub open spec fn divergence(a: int, b: int) -> Fraction {
    if a == 0 {
        if b == 0 {
            Fraction { num: 0, den: 1 }
        } else {
            Fraction { num: 1, den: 1 }
        }
    } else if distance(a, b) <= distance(a, 0) {
        Fraction { num: distance(a, b), den: distance(a, 0) }
    } else {
        Fraction { num: distance(a, 0), den: distance(a, 0) }
    }
}

/// The product of two 64-bit numbers fits in 128 bits.
proof fn lemma_product_fits(a: u64, b: u64)
    ensures
        a * b <= u128::MAX,
{
    assert(a * b <= 0xffff_ffff_ffff_ffff * 0xffff_ffff_ffff_ffff) by (nonlinear_arith)
        requires
            0 <= a <= 0xffff_ffff_ffff_ffff,
            0 <= b <= 0xffff_ffff_ffff_ffff,
    ;
}

impl Ratio {
    /// The fraction is well formed: its denominator is positive and it is at
    /// most one.
    pub open spec fn wf(&self) -> bool {
        0 < self.den && self.num <= self.den
    }

    /// The fraction zero.
    pub fn zero() -> (r: Ratio)
        ensures
            r@ == (Fraction { num: 0, den: 1 }),
            r.wf(),
    {
        Ratio { num: 0, den: 1 }
    }

    /// The greater of two fractions; the first where they are equal.
    pub fn max(self, other: Ratio) -> (r: Ratio)
        ensures
            r@ == max_fraction(self@, other@),
            r == self || r == other,
    {
        proof {
            lemma_product_fits(self.num, other.den);
            lemma_product_fits(other.num, self.den);
        }
        if (self.num as u128) * (other.den as u128) < (other.num as u128) * (self.den as u128) {
            other
        } else {
            self
        }
    }

    /// Whether the fraction is at most `ppm` parts per million.
    pub fn is_within(&self, ppm: u32) -> (r: bool)
        ensures
            r == self@.within(ppm as nat),
    {
        proof {
            lemma_product_fits(self.num, 1_000_000);
            lemma_product_fits(ppm as u64, self.den);
        }
        (self.num as u128) * 1_000_000 <= (ppm as u128) * (self.den as u128)
    }

    /// The fraction in parts per million, rounded up; a million for a
    /// fraction of one or more.
    pub fn ppm(&self) -> (parts: u32)
        ensures
            parts == self@.ppm(),
            parts <= 1_000_000,
    {
        if self.den == 0 || self.num >= self.den {
            return 1_000_000;
        }
        proof {
            lemma_product_fits(self.num, 1_000_000);
            lemma_ppm_bound(self@);
        }
        let scaled: u128 = (self.num as u128) * 1_000_000 + (self.den as u128 - 1);
        (scaled / (self.den as u128)) as u32
    }
}

/// A fraction that is at most one is at most a million parts per million.
proof fn lemma_ppm_bound(f: Fraction)
    requires
        0 < f.den,
        f.num <= f.den,
    ensures
        f.ppm() <= 1_000_000,
        f.num < f.den ==> (f.num * 1_000_000 + f.den - 1) / (f.den as int) <= 1_000_000,
{
    lemma_ppm_within(f, 1_000_000);
    assert(f.num * 1_000_000 <= 1_000_000 * f.den) by (nonlinear_arith)
        requires
            f.num <= f.den,
    ;
}

/// Rounding up to parts per million keeps a fraction on its side of every
/// threshold: the rounded value is at most a threshold exactly when the
/// fraction is.
pub proof fn lemma_ppm_within(f: Fraction, threshold: nat)
    requires
        0 < f.den,
        f.num <= f.den,
    ensures
        f.ppm() <= threshold <==> f.within(threshold),
{
    let d = f.den as int;
    if f.num == f.den {
        assert(f.num * 1_000_000 == 1_000_000 * d) by (nonlinear_arith)
            requires
                f.num == d,
        ;
        if threshold >= 1_000_000 {
            assert(threshold * d >= 1_000_000 * d) by (nonlinear_arith)
                requires
                    threshold >= 1_000_000,
                    d > 0,
            ;
        } else {
            assert(threshold * d < 1_000_000 * d) by (nonlinear_arith)
                requires
                    threshold < 1_000_000,
                    d > 0,
            ;
        }
    } else {
        let x = f.num * 1_000_000 + d - 1;
        vstd::arithmetic::div_mod::lemma_fundamental_div_mod(x, d);
        let q = x / d;
        let r = x % d;
        assert(0 <= r < d);
        assert(x == d * q + r);
        if q <= threshold {
            assert(d * q <= threshold * d) by (nonlinear_arith)
                requires
                    q <= threshold,
                    d > 0,
            ;
        } else {
            assert(d * q >= (threshold + 1) * d) by (nonlinear_arith)
                requires
                    q >= threshold + 1,
                    d > 0,
            ;
            assert((threshold + 1) * d == threshold * d + d) by (nonlinear_arith);
        }
        assert(q >= 0) by {
            if q < 0 {
                assert(d * q <= -d) by (nonlinear_arith)
                    requires
                        q <= -1,
                        d > 0,
                ;
            }
        }
    }
}

/// The relative divergence of `b` from `a`.
pub fn relative_divergence(a: i64, b: i64) -> (d: Ratio)
    ensures
        d@ == divergence(a as int, b as int),
        d.wf(),
{
    if a == 0 {
        if b == 0 {
            Ratio { num: 0, den: 1 }
        } else {
            Ratio { num: 1, den: 1 }
        }
    } else {
        let wide_a: i128 = a as i128;
        let wide_b: i128 = b as i128;
        let gap: i128 = if wide_a >= wide_b {
            wide_a - wide_b
        } else {
            wide_b - wide_a
        };
        let size: i128 = if wide_a >= 0 {
            wide_a
        } else {
            -wide_a
        };
        if gap <= size {
            Ratio { num: gap as u64, den: size as u64 }
        } else {
            Ratio { num: size as u64, den: size as u64 }
        }
    }
}

/// What one observation of an asset holds.
pub struct StateView {
    pub asset_id: Seq<char>,
    pub epoch: nat,
    pub position: int,
    pub health: int,
}

/// One observation of an asset: its epoch and its measurements, in
/// millionths.
#[derive(Debug, PartialEq, Eq)]
pub struct AssetState {
    pub asset_id: String,
    pub epoch: u64,
    pub position: i64,
    pub health: i64,
}

impl View for AssetState {
    type V = StateView;

    open spec fn view(&self) -> StateView {
        StateView {
            asset_id: self.asset_id@,
            epoch: self.epoch as nat,
            position: self.position as int,
            health: self.health as int,
        }
    }
}

impl Clone for AssetState {
    fn clone(&self) -> (copy: AssetState)
        ensures
            copy@ == self@,
    {
        AssetState {
            asset_id: self.asset_id.clone(),
            epoch: self.epoch,
            position: self.position,
            health: self.health,
        }
    }
}

/// What a sequence of observations holds.
pub open spec fn states_view(states: Seq<AssetState>) -> Seq<StateView> {
    Seq::new(states.len(), |i: int| states[i]@)
}

/// The greater of the divergences of the two measurements of an observation.
pub open spec fn pair_divergence(asset: StateView, twin: StateView) -> Fraction {
    max_fraction(divergence(asset.position, twin.position), divergence(asset.health, twin.health))
}

/// The greatest divergence over the first `n` pairs of observations.
pub open spec fn worst_divergence_of(asset: Seq<StateView>, twin: Seq<StateView>, n: nat) -> Fraction
    decreases n,
{
    if n == 0 {
        Fraction { num: 0, den: 1 }
    } else {
        max_fraction(
            worst_divergence_of(asset, twin, (n - 1) as nat),
            pair_divergence(asset[n - 1], twin[n - 1]),
        )
    }
}

/// Why two sequences of observations could not be compared.
#[derive(Clone, Copy, Debug, PartialEq, Eq, Structural)]
pub enum DetectorError {
    /// The two sequences differ in length.
    LengthMismatch,
    /// There is no observation.
    NoObservations,
}

/// The greatest divergence over all measurements of all pairs of
/// observations. Fails where the two sequences differ in length.
pub fn worst_divergence(asset: &Vec<AssetState>, twin: &Vec<AssetState>) -> (r: Result<
    Ratio,
    DetectorError,
>)
    ensures
        asset@.len() != twin@.len() ==> r == Err::<Ratio, DetectorError>(
            DetectorError::LengthMismatch,
        ),
        asset@.len() == twin@.len() ==> r is Ok && r->Ok_0.wf() && r->Ok_0@ == worst_divergence_of(
            states_view(asset@),
            states_view(twin@),
            asset@.len() as nat,
        ),
{
    if asset.len() != twin.len() {
        return Err(DetectorError::LengthMismatch);
    }
    let mut worst = Ratio::zero();
    let mut i: usize = 0;
    while i < asset.len()
        invariant
            i <= asset@.len(),
            asset@.len() == twin@.len(),
            worst.wf(),
            worst@ == worst_divergence_of(states_view(asset@), states_view(twin@), i as nat),
        decreases asset@.len() - i,
    {
        let position = relative_divergence(asset[i].position, twin[i].position);
        let health = relative_divergence(asset[i].health, twin[i].health);
        worst = worst.max(position.max(health));
        i += 1;
    }
    Ok(worst)
}

/// The kind of receipt that a divergence calls for: `healthy` where it is at
/// most the threshold, and an anomaly where it is above.
pub fn classify(worst: Ratio, threshold_ppm: u32, healthy: ReceiptType) -> (kind: ReceiptType)
    ensures
        kind == (if worst@.within(threshold_ppm as nat) {
            healthy
        } else {
            ReceiptType::AnomalyDetected
        }),
{
    if worst.is_within(threshold_ppm) {
        healthy
    } else {
        ReceiptType::AnomalyDetected
    }
}

/// Fractions with positive denominators are ordered transitively.
proof fn lemma_fraction_le_transitive(x: Fraction, y: Fraction, z: Fraction)
    requires
        y.den > 0,
        x.le(y),
        y.le(z),
    ensures
        x.le(z),
{
    let (a, b) = (x.num as int, x.den as int);
    let (c, d) = (y.num as int, y.den as int);
    let (e, f) = (z.num as int, z.den as int);
    assert((a * d) * f <= (c * b) * f) by (nonlinear_arith)
        requires
            a * d <= c * b,
            f >= 0,
    ;
    assert((c * f) * b <= (e * d) * b) by (nonlinear_arith)
        requires
            c * f <= e * d,
            b >= 0,
    ;
    assert((a * d) * f == (a * f) * d) by (nonlinear_arith);
    assert((c * b) * f == (c * f) * b) by (nonlinear_arith);
    assert((e * d) * b == (e * b) * d) by (nonlinear_arith);
    assert(a * f <= e * b) by (nonlinear_arith)
        requires
            (a * f) * d <= (e * b) * d,
            d > 0,
    ;
}

/// The greatest divergence has a positive denominator.
proof fn lemma_worst_den(asset: Seq<StateView>, twin: Seq<StateView>, n: nat)
    ensures
        worst_divergence_of(asset, twin, n).den > 0,
    decreases n,
{
    if n > 0 {
        lemma_worst_den(asset, twin, (n - 1) as nat);
    }
}

/// The greatest divergence is at least the divergence of every measurement
/// of every pair of observations.
pub proof fn lemma_worst_bounds_each(
    asset: Seq<StateView>,
    twin: Seq<StateView>,
    n: nat,
    i: int,
)
    requires
        0 <= i < n,
    ensures
        divergence(asset[i].position, twin[i].position).le(worst_divergence_of(asset, twin, n)),
        divergence(asset[i].health, twin[i].health).le(worst_divergence_of(asset, twin, n)),
    decreases n,
{
    let before = worst_divergence_of(asset, twin, (n - 1) as nat);
    let pair = pair_divergence(asset[n - 1], twin[n - 1]);
    let worst = worst_divergence_of(asset, twin, n);
    let position = divergence(asset[i].position, twin[i].position);
    let health = divergence(asset[i].health, twin[i].health);
    lemma_worst_den(asset, twin, (n - 1) as nat);
    assert(before.le(worst) && pair.le(worst));
    if i == n - 1 {
        assert(position.le(pair) && health.le(pair));
        lemma_fraction_le_transitive(position, pair, worst);
        lemma_fraction_le_transitive(health, pair, worst);
    } else {
        lemma_worst_bounds_each(asset, twin, (n - 1) as nat, i);
        lemma_fraction_le_transitive(position, before, worst);
        lemma_fraction_le_transitive(health, before, worst);
    }
}

/// The text that an observation is hashed from: its fields in a fixed order,
/// the measurements with six digits after the point.
pub open spec fn state_text(s: StateView) -> Seq<u8> {
    text_bytes("asset_id="@) + text_bytes(s.asset_id) + text_bytes("|epoch="@) + decimal_text(
        s.epoch as int,
        0,
    ) + text_bytes("|position="@) + decimal_text(s.position, 6) + text_bytes("|health="@)
        + decimal_text(s.health, 6)
}

/// The digests of a sequence of observations.
pub open spec fn state_digests(states: Seq<StateView>) -> Seq<Seq<u8>> {
    Seq::new(states.len(), |i: int| digest32(state_text(states[i])))
}

/// The digest of an observation.
pub fn hash_state(state: &AssetState) -> (d: Digest)
    ensures
        d@ == digest32(state_text(state@)),
{
    let mut text: Vec<u8> = Vec::new();
    push_text(&mut text, "asset_id=");
    push_text(&mut text, state.asset_id.as_str());
    push_text(&mut text, "|epoch=");
    push_decimal(&mut text, state.epoch as i128, 0);
    push_text(&mut text, "|position=");
    push_decimal(&mut text, state.position as i128, 6);
    push_text(&mut text, "|health=");
    push_decimal(&mut text, state.health as i128, 6);
    assert(text@ =~= state_text(state@));
    hash_bytes(text.as_slice())
}

/// The digests of a sequence of observations, in order.
pub fn hash_states(states: &Vec<AssetState>) -> (digests: Vec<Digest>)
    ensures
        digest_seq(digests@) == state_digests(states_view(states@)),
{
    let mut digests: Vec<Digest> = Vec::with_capacity(states.len());
    let mut i: usize = 0;
    while i < states.len()
        invariant
            i <= states@.len(),
            digests@.len() == i,
            forall|j: int| 0 <= j < i ==> (#[trigger] digests@[j])@ == digest32(
                state_text(states@[j]@),
            ),
        decreases states@.len() - i,
    {
        digests.push(hash_state(&states[i]));
        i += 1;
    }
    assert(digest_seq(digests@) =~= state_digests(states_view(states@)));
    digests
}

/// The Merkle root over the digests of a sequence of observations. Fails on
/// an empty sequence.
pub fn states_root(states: &Vec<AssetState>) -> (r: Result<Digest, ProofError>)
    ensures
        states@.len() == 0 ==> r == Err::<Digest, ProofError>(ProofError::EmptyLeaves),
        states@.len() > 0 ==> r is Ok && r->Ok_0@ == merkle_root(
            state_digests(states_view(states@)),
        ),
{
    let digests = hash_states(states);
    assert(digests@.len() == digest_seq(digests@).len());
    build_root(&digests)
}

/// Two sequences of observations of one length with the same root were
/// hashed from the same texts, observation by observation, unless the digest
/// has a collision.
proof fn lemma_states_root_binds(a: Seq<StateView>, b: Seq<StateView>)
    requires
        a.len() == b.len(),
        a.len() > 0,
        merkle_root(state_digests(a)) == merkle_root(state_digests(b)),
    ensures
        collision_exists() || forall|i: int|
            0 <= i < a.len() ==> state_text(#[trigger] a[i]) == state_text(b[i]),
{
    let da = state_digests(a);
    let db = state_digests(b);
    assert(all_digest_sized(da));
    assert(all_digest_sized(db));
    lemma_root_binds_leaves(da, db);
    if !collision_exists() {
        assert forall|i: int| 0 <= i < a.len() implies state_text(#[trigger] a[i]) == state_text(
            b[i],
        ) by {
            assert(da[i] == db[i]);
            if state_text(a[i]) != state_text(b[i]) {
                assert(is_collision(state_text(a[i]), state_text(b[i])));
            }
        }
    }
}

/// Decimal text at the end of a byte string starts after the last byte
/// that it is not made of.
proof fn lemma_decimal_suffix(a1: Seq<u8>, h1: Seq<u8>, a2: Seq<u8>, h2: Seq<u8>)
    requires
        a1 + h1 == a2 + h2,
        forall|i: int| 0 <= i < h1.len() ==> is_decimal_byte(#[trigger] h1[i]),
        forall|i: int| 0 <= i < h2.len() ==> is_decimal_byte(#[trigger] h2[i]),
        a1.len() > 0 && !is_decimal_byte(a1.last()),
        a2.len() > 0 && !is_decimal_byte(a2.last()),
    ensures
        a1 == a2,
        h1 == h2,
{
    let x = a1 + h1;
    let y = a2 + h2;
    assert(x.len() == a1.len() + h1.len());
    assert(y.len() == a2.len() + h2.len());
    if a1.len() > a2.len() {
        assert(x[a1.len() - 1] == a1.last());
        assert(y[a1.len() - 1] == h2[a1.len() - 1 - a2.len()]);
    } else if a2.len() > a1.len() {
        assert(y[a2.len() - 1] == a2.last());
        assert(x[a2.len() - 1] == h1[a2.len() - 1 - a1.len()]);
    }
    assert(a1 =~= x.subrange(0, a1.len() as int));
    assert(a2 =~= y.subrange(0, a2.len() as int));
    assert(h1 =~= x.subrange(a1.len() as int, x.len() as int));
    assert(h2 =~= y.subrange(a2.len() as int, y.len() as int));
}

/// Byte strings that are equal after the same bytes were added at their
/// ends are equal.
proof fn lemma_same_suffix(b1: Seq<u8>, b2: Seq<u8>, p: Seq<u8>)
    requires
        b1 + p == b2 + p,
    ensures
        b1 == b2,
{
    assert((b1 + p).len() == b1.len() + p.len());
    assert((b2 + p).len() == b2.len() + p.len());
    assert(b1 =~= (b1 + p).subrange(0, b1.len() as int));
    assert(b2 =~= (b2 + p).subrange(0, b2.len() as int));
}

/// Byte strings that are equal after the same bytes were put at their heads
/// are equal.
proof fn lemma_same_prefix(p: Seq<u8>, b1: Seq<u8>, b2: Seq<u8>)
    requires
        p + b1 == p + b2,
    ensures
        b1 == b2,
{
    assert(b1 =~= (p + b1).subrange(p.len() as int, (p + b1).len() as int));
    assert(b2 =~= (p + b2).subrange(p.len() as int, (p + b2).len() as int));
}

/// The three labels that stand before the numbers of an observation end in
/// an equals sign.
proof fn lemma_labels()
    ensures
        text_bytes("|epoch="@).len() == 7 && text_bytes("|epoch="@).last() == 61,
        text_bytes("|position="@).len() == 10 && text_bytes("|position="@).last() == 61,
        text_bytes("|health="@).len() == 8 && text_bytes("|health="@).last() == 61,
{
    reveal_strlit("|epoch=");
    reveal_strlit("|position=");
    reveal_strlit("|health=");
    let epoch = "|epoch="@;
    let position = "|position="@;
    let health = "|health="@;
    assert(epoch[0] == '|' && epoch[1] == 'e' && epoch[2] == 'p' && epoch[3] == 'o');
    assert(epoch[4] == 'c' && epoch[5] == 'h' && epoch[6] == '=');
    assert(position[0] == '|' && position[1] == 'p' && position[2] == 'o');
    assert(position[3] == 's' && position[4] == 'i' && position[5] == 't');
    assert(position[6] == 'i' && position[7] == 'o' && position[8] == 'n');
    assert(position[9] == '=');
    assert(health[0] == '|' && health[1] == 'h' && health[2] == 'e' && health[3] == 'a');
    assert(health[4] == 'l' && health[5] == 't' && health[6] == 'h' && health[7] == '=');
    assert(vstd::utf8::is_ascii_chars(epoch));
    assert(vstd::utf8::is_ascii_chars(position));
    assert(vstd::utf8::is_ascii_chars(health));
    vstd::utf8::is_ascii_chars_encode_utf8(epoch);
    vstd::utf8::is_ascii_chars_encode_utf8(position);
    vstd::utf8::is_ascii_chars_encode_utf8(health);
    assert(text_bytes(epoch)[6] == epoch[6] as u8);
    assert(text_bytes(position)[9] == position[9] as u8);
    assert(text_bytes(health)[7] == health[7] as u8);
}

/// Observations that are hashed from the same text are the same
/// observation.
pub proof fn lemma_state_text_injective(a: StateView, b: StateView)
    requires
        state_text(a) == state_text(b),
    ensures
        a == b,
{
    lemma_labels();
    let head = text_bytes("asset_id="@);
    let epoch_label = text_bytes("|epoch="@);
    let position_label = text_bytes("|position="@);
    let health_label = text_bytes("|health="@);
    let (ea, eb) = (decimal_text(a.epoch as int, 0), decimal_text(b.epoch as int, 0));
    let (xa, xb) = (decimal_text(a.position, 6), decimal_text(b.position, 6));
    let (ha, hb) = (decimal_text(a.health, 6), decimal_text(b.health, 6));
    lemma_decimal_text_bytes(a.epoch as int, 0);
    lemma_decimal_text_bytes(b.epoch as int, 0);
    lemma_decimal_text_bytes(a.position, 6);
    lemma_decimal_text_bytes(b.position, 6);
    lemma_decimal_text_bytes(a.health, 6);
    lemma_decimal_text_bytes(b.health, 6);
    let fa = head + text_bytes(a.asset_id) + epoch_label;
    let fb = head + text_bytes(b.asset_id) + epoch_label;
    let da = fa + ea + position_label;
    let db = fb + eb + position_label;
    let ca = da + xa + health_label;
    let cb = db + xb + health_label;
    assert(state_text(a) == ca + ha);
    assert(state_text(b) == cb + hb);
    assert(ca.last() == health_label.last());
    assert(cb.last() == health_label.last());
    lemma_decimal_suffix(ca, ha, cb, hb);
    lemma_same_suffix(da + xa, db + xb, health_label);
    assert(da.last() == position_label.last());
    assert(db.last() == position_label.last());
    lemma_decimal_suffix(da, xa, db, xb);
    lemma_same_suffix(fa + ea, fb + eb, position_label);
    assert(fa.last() == epoch_label.last());
    assert(fb.last() == epoch_label.last());
    lemma_decimal_suffix(fa, ea, fb, eb);
    lemma_same_suffix(head + text_bytes(a.asset_id), head + text_bytes(b.asset_id), epoch_label);
    lemma_same_prefix(head, text_bytes(a.asset_id), text_bytes(b.asset_id));
    lemma_text_bytes_injective(a.asset_id, b.asset_id);
    lemma_decimal_text_injective(a.epoch as int, 0, b.epoch as int, 0);
    lemma_decimal_text_injective(a.position, 6, b.position, 6);
    lemma_decimal_text_injective(a.health, 6, b.health, 6);
}

/// Two sequences of observations of one length with the same root are the
/// same sequence, unless the digest has a collision: any single observation
/// that differs changes the root or exhibits two byte strings with one
/// digest.
pub proof fn lemma_states_root_binds_states(a: Seq<StateView>, b: Seq<StateView>)
    requires
        a.len() == b.len(),
        a.len() > 0,
        merkle_root(state_digests(a)) == merkle_root(state_digests(b)),
    ensures
        a == b || collision_exists(),
{
    lemma_states_root_binds(a, b);
    if !collision_exists() {
        assert forall|i: int| 0 <= i < a.len() implies a[i] == b[i] by {
            assert(state_text(a[i]) == state_text(b[i]));
            lemma_state_text_injective(a[i], b[i]);
        }
        assert(a =~= b);
    }
}

/// What the comparison of an asset with its twin found.
#[derive(Clone, Copy, Debug)]
pub struct TwinReport {
    /// The greatest divergence over all measurements.
    pub worst: Ratio,
    /// The kind of receipt that the divergence calls for.
    pub kind: ReceiptType,
    /// The Merkle root over the observations of the asset.
    pub asset_root: Digest,
    /// The Merkle root over the observations of the twin.
    pub twin_root: Digest,
}

/// What comparing the observations of an asset and of its twin gives.
pub open spec fn is_report_of(
    report: TwinReport,
    asset: Seq<StateView>,
    twin: Seq<StateView>,
    threshold_ppm: nat,
    healthy: ReceiptType,
) -> bool {
    &&& report.worst@ == worst_divergence_of(asset, twin, asset.len())
    &&& report.kind == (if report.worst@.within(threshold_ppm) {
        healthy
    } else {
        ReceiptType::AnomalyDetected
    })
    &&& report.asset_root@ == merkle_root(state_digests(asset))
    &&& report.twin_root@ == merkle_root(state_digests(twin))
}

/// Compares the observations of an asset with those of its twin, pair by
/// pair. Fails where the two sequences differ in length, and where they are
/// empty.
pub fn compare_twin(
    asset: &Vec<AssetState>,
    twin: &Vec<AssetState>,
    threshold_ppm: u32,
    healthy: ReceiptType,
) -> (r: Result<TwinReport, DetectorError>)
    ensures
        asset@.len() != twin@.len() ==> r == Err::<TwinReport, DetectorError>(
            DetectorError::LengthMismatch,
        ),
        asset@.len() == twin@.len() && asset@.len() == 0 ==> r == Err::<
            TwinReport,
            DetectorError,
        >(DetectorError::NoObservations),
        asset@.len() == twin@.len() && asset@.len() > 0 ==> r is Ok && r->Ok_0.worst.wf()
            && is_report_of(
            r->Ok_0,
            states_view(asset@),
            states_view(twin@),
            threshold_ppm as nat,
            healthy,
        ),
{
    let worst = match worst_divergence(asset, twin) {
        Ok(w) => w,
        Err(e) => {
            return Err(e);
        },
    };
    let asset_root = match states_root(asset) {
        Ok(root) => root,
        Err(_) => {
            return Err(DetectorError::NoObservations);
        },
    };
    let twin_root = match states_root(twin) {
        Ok(root) => root,
        Err(_) => {
            return Err(DetectorError::NoObservations);
        },
    };
    let kind = classify(worst, threshold_ppm, healthy);
    Ok(TwinReport { worst, kind, asset_root, twin_root })
}

/// The fields of the receipt for a comparison before it is stamped. The
/// divergence is written in percent with four digits after the point,
/// rounded up.
pub open spec fn twin_fields(
    asset_id: Seq<char>,
    report: TwinReport,
    tenant_id: Seq<char>,
    now: nat,
) -> Seq<(Seq<char>, JsonView)> {
    seq![
        ("version"@, JsonView::Text("1.0"@)),
        ("timestamp"@, JsonView::Number(now as int, 0)),
        ("tenant_id"@, JsonView::Text(tenant_id)),
        ("receipt_type"@, JsonView::Text(receipt_type_name(report.kind))),
        ("emitted_by"@, JsonView::Text("digital-twin-groot"@)),
        ("asset_id"@, JsonView::Text(asset_id)),
        ("root_real"@, JsonView::Text(hex_text(report.asset_root@))),
        ("root_twin"@, JsonView::Text(hex_text(report.twin_root@))),
        ("divergence_percent"@, JsonView::Number(report.worst@.ppm() as int, 4)),
    ]
}

/// The receipt for a comparison of an asset with its twin, stamped with
/// `scheme` for the tenant.
pub fn twin_receipt<S: SignatureScheme>(
    asset_id: &str,
    report: &TwinReport,
    tenant_id: &str,
    now: u64,
    scheme: &S,
) -> (receipt: Value)
    ensures
        receipt@ == JsonView::Object(
            stamped_fields(
                *scheme,
                twin_fields(asset_id@, *report, tenant_id@, now as nat),
                tenant_id@,
            ),
        ),
{
    let asset_root = report.asset_root.to_hex();
    let twin_root = report.twin_root.to_hex();
    let mut fields: Vec<Field> = Vec::new();
    fields.push(Field::new("version", Value::text("1.0")));
    fields.push(Field::new("timestamp", Value::unsigned(now)));
    fields.push(Field::new("tenant_id", Value::text(tenant_id)));
    fields.push(Field::new("receipt_type", Value::text(report.kind.name())));
    fields.push(Field::new("emitted_by", Value::text("digital-twin-groot")));
    fields.push(Field::new("asset_id", Value::text(asset_id)));
    fields.push(Field::new("root_real", Value::text(asset_root.as_str())));
    fields.push(Field::new("root_twin", Value::text(twin_root.as_str())));
    fields.push(Field::new("divergence_percent", Value::decimal(report.worst.ppm() as i128, 4)));
    proof {
        crate::json::lemma_object_view(fields);
        assert(crate::json::fields_view(fields@) =~= twin_fields(
            asset_id@,
            *report,
            tenant_id@,
            now as nat,
        ));
    }
    stamp_for(Value::Object(fields), tenant_id, scheme)
}

/// The fields that every receipt has hold, in the receipt for a comparison
/// before it is stamped, what the comparison gave them.
proof fn lemma_twin_base_fields(
    asset_id: Seq<char>,
    report: TwinReport,
    tenant_id: Seq<char>,
    now: nat,
)
    ensures
        lookup(JsonView::Object(twin_fields(asset_id, report, tenant_id, now)), "version"@) == Some(
            JsonView::Text("1.0"@),
        ),
        lookup(JsonView::Object(twin_fields(asset_id, report, tenant_id, now)), "timestamp"@)
            == Some(JsonView::Number(now as int, 0)),
        lookup(JsonView::Object(twin_fields(asset_id, report, tenant_id, now)), "tenant_id"@)
            == Some(JsonView::Text(tenant_id)),
        lookup(JsonView::Object(twin_fields(asset_id, report, tenant_id, now)), "receipt_type"@)
            == Some(JsonView::Text(receipt_type_name(report.kind))),
        lookup(JsonView::Object(twin_fields(asset_id, report, tenant_id, now)), "emitted_by"@)
            == Some(JsonView::Text("digital-twin-groot"@)),
{
    let fields = twin_fields(asset_id, report, tenant_id, now);
    let names = field_names(fields);
    reveal_strlit("version");
    reveal_strlit("timestamp");
    reveal_strlit("tenant_id");
    reveal_strlit("receipt_type");
    reveal_strlit("emitted_by");
    reveal_strlit("asset_id");
    reveal_strlit("root_real");
    reveal_strlit("root_twin");
    reveal_strlit("divergence_percent");
    assert(names[0] == "version"@ && names[1] == "timestamp"@ && names[2] == "tenant_id"@);
    assert(names[3] == "receipt_type"@ && names[4] == "emitted_by"@);
    assert(names[0][0] == 'v' && names[1][0] == 't' && names[2][0] == 't');
    assert(names[1][1] == 'i' && names[2][1] == 'e');
    assert(names[3][0] == 'r' && names[3][1] == 'e' && names[4][0] == 'e');
    assert(names[5][0] == 'a' && names[6][0] == 'r' && names[6][1] == 'o');
    assert(names[7][0] == 'r' && names[7][1] == 'o' && names[8][0] == 'd');
    reveal_with_fuel(last_index, 10);
    assert(last_index(names, "version"@, 9) == 0);
    assert(last_index(names, "timestamp"@, 9) == 1);
    assert(last_index(names, "tenant_id"@, 9) == 2);
    assert(last_index(names, "receipt_type"@, 9) == 3);
    assert(last_index(names, "emitted_by"@, 9) == 4);
}

/// The receipt for a comparison is a valid receipt for the default
/// producers, where the tenant has a name and the kind of the receipt asks
/// for no fields of its own.
pub proof fn lemma_twin_receipt_valid(
    asset_id: Seq<char>,
    report: TwinReport,
    tenant_id: Seq<char>,
    now: nat,
)
    requires
        tenant_id.len() > 0,
        report.kind is AnomalyDetected || report.kind is PhaseTransition || report.kind
            is CompactionComplete || report.kind is SwarmVote || report.kind is VoicePageSent,
    ensures
        is_valid_receipt(
            JsonView::Object(
                stamped_fields(
                    StubSigner,
                    twin_fields(asset_id, report, tenant_id, now),
                    tenant_id,
                ),
            ),
            default_producer_names(),
        ),
{
    let fields = twin_fields(asset_id, report, tenant_id, now);
    let receipt = JsonView::Object(stamped_fields(StubSigner, fields, tenant_id));
    let hash = content_hash_text(JsonView::Object(fields));
    reveal_strlit("version");
    reveal_strlit("timestamp");
    reveal_strlit("tenant_id");
    reveal_strlit("receipt_type");
    reveal_strlit("emitted_by");
    reveal_strlit("content_hash");
    reveal_strlit("receipt_id");
    reveal_strlit("signature");
    assert("version"@[0] == 'v' && "timestamp"@[0] == 't' && "tenant_id"@[0] == 't');
    assert("receipt_type"@[0] == 'r' && "receipt_type"@[8] == 't' && "emitted_by"@[0] == 'e');
    assert("content_hash"@[0] == 'c' && "signature"@[0] == 's');
    assert("receipt_id"@[0] == 'r' && "receipt_id"@[8] == 'i');
    lemma_twin_base_fields(asset_id, report, tenant_id, now);
    lemma_stamped_lookup(StubSigner, fields, tenant_id, "version"@);
    lemma_stamped_lookup(StubSigner, fields, tenant_id, "timestamp"@);
    lemma_stamped_lookup(StubSigner, fields, tenant_id, "tenant_id"@);
    lemma_stamped_lookup(StubSigner, fields, tenant_id, "receipt_type"@);
    lemma_stamped_lookup(StubSigner, fields, tenant_id, "emitted_by"@);
    lemma_digest_texts(digest32(canonical_bytes(JsonView::Object(fields))));
    lemma_digest_texts(
        digest32(text_bytes(hash) + text_bytes(tenant_id) + text_bytes(algorithm_tag())),
    );
    lemma_receipt_type_name(report.kind);
    assert(default_producer_names()[2] == "digital-twin-groot"@);
    assert(text_of(receipt, "receipt_type"@) == Some(receipt_type_name(report.kind)));
    assert(receipt_type_of(receipt_type_name(report.kind)) == Some(report.kind));
}

} // verus!
