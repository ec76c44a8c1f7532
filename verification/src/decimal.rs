//! Decimal text for fixed-point numbers.
//!
//! A number `mantissa / 10^scale` is written as an optional minus sign, the
//! digits of its integer part and, where `scale` is positive, a point and
//! exactly `scale` digits.
//!
//! Text is read into millionths in every form that a number is commonly
//! written in: with a sign, with the point before, among or after the
//! digits, and with an exponent. What lies beyond the sixth place behind the
//! point is cut off, and what does not fit in 64 bits keeps its sign and
//! takes the nearest value that fits, so that a comparison with a threshold
//! in millionths decides as it would on the number written.

use vstd::prelude::*;
use vstd::arithmetic::div_mod::lemma_div_denominator;
use crate::text::ascii_bytes;

verus! {

/// Ten to the power `n`.
pub open spec fn pow10(n: nat) -> nat
    decreases n,
{
    if n == 0 {
        1
    } else {
        10 * pow10((n - 1) as nat)
    }
}

/// How many decimal digits `n` has; zero has one.
pub open spec fn num_digits(n: nat) -> nat
    decreases n,
{
    if n < 10 {
        1
    } else {
        1 + num_digits(n / 10)
    }
}

/// The ASCII digit of `n` at the place of `10^place`.
pub open spec fn digit_at(n: nat, place: nat) -> u8 {
    (48 + (n / pow10(place)) % 10) as u8
}

/// The last `width` decimal digits of `n`, most significant first, with
/// leading zeros where `n` is short.
pub open spec fn fixed_digits(n: nat, width: nat) -> Seq<u8> {
    Seq::new(width, |i: int| digit_at(n, (width - 1 - i) as nat))
}

/// The decimal digits of `n`, without leading zeros.
pub open spec fn digits_of(n: nat) -> Seq<u8> {
    fixed_digits(n, num_digits(n))
}

/// The absolute value of `m`.
pub open spec fn magnitude(m: int) -> nat {
    if m < 0 {
        (-m) as nat
    } else {
        m as nat
    }
}

/// The text of `mantissa / 10^scale` without its sign.
pub open spec fn unsigned_decimal_text(mag: nat, scale: nat) -> Seq<u8> {
    if scale == 0 {
        digits_of(mag)
    } else {
        digits_of(mag / pow10(scale)) + seq![46u8] + fixed_digits(mag, scale)
    }
}

/// The text of `mantissa / 10^scale`.
pub open spec fn decimal_text(mantissa: int, scale: nat) -> Seq<u8> {
    if mantissa < 0 {
        seq![45u8] + unsigned_decimal_text(magnitude(mantissa), scale)
    } else {
        unsigned_decimal_text(magnitude(mantissa), scale)
    }
}

pub proof fn lemma_pow10_positive(n: nat)
    ensures
        pow10(n) > 0,
    decreases n,
{
    if n > 0 {
        lemma_pow10_positive((n - 1) as nat);
    }
}

/// Dropping one more digit divides by ten once more.
proof fn lemma_shift_digit(n: nat, k: nat)
    ensures
        (n / pow10(k)) / 10 == n / pow10(k + 1),
{
    lemma_pow10_positive(k);
    lemma_div_denominator(n as int, pow10(k) as int, 10);
    assert(pow10(k + 1) == 10 * pow10(k));
    assert(pow10(k) * 10 == pow10(k + 1)) by (nonlinear_arith)
        requires
            pow10(k + 1) == 10 * pow10(k),
    ;
}

/// A number has `c` digits when dropping `c` digits leaves nothing and
/// dropping one fewer leaves something.
proof fn lemma_num_digits(n: nat, c: nat)
    requires
        c >= 1,
        n / pow10(c) == 0,
        c == 1 || n / pow10((c - 1) as nat) != 0,
    ensures
        num_digits(n) == c,
    decreases c,
{
    assert(pow10(1) == 10) by {
        reveal_with_fuel(pow10, 2);
    }
    assert(pow10(0) == 1);
    if c == 1 {
        assert(n / 10 == 0);
        assert(n < 10);
    } else {
        lemma_shift_digit(n, (c - 1) as nat);
        lemma_shift_digit(n, 0);
        assert((n / 1) / 10 == n / 10);
        // n / 10 has c - 1 digits
        lemma_pow10_positive((c - 1) as nat);
        lemma_pow10_positive((c - 2) as nat);
        lemma_div_denominator(n as int, 10, pow10((c - 1) as nat) as int);
        assert(10 * pow10((c - 1) as nat) == pow10(c));
        assert((n / 10) / pow10((c - 1) as nat) == 0);
        if c - 1 != 1 {
            lemma_div_denominator(n as int, 10, pow10((c - 2) as nat) as int);
            assert(10 * pow10((c - 2) as nat) == pow10((c - 1) as nat));
            assert((n / 10) / pow10((c - 2) as nat) != 0);
        }
        if n < 10 {
            assert(n / pow10((c - 1) as nat) == 0) by {
                lemma_pow10_at_least_ten((c - 1) as nat);
                vstd::arithmetic::div_mod::lemma_small_div_converse(
                    n as int,
                    pow10((c - 1) as nat) as int,
                );
                vstd::arithmetic::div_mod::lemma_basic_div(n as int, pow10((c - 1) as nat) as int);
            }
        }
        lemma_num_digits(n / 10, (c - 1) as nat);
    }
}

proof fn lemma_pow10_at_least_ten(n: nat)
    requires
        n >= 1,
    ensures
        pow10(n) >= 10,
    decreases n,
{
    reveal_with_fuel(pow10, 2);
    if n > 1 {
        lemma_pow10_at_least_ten((n - 1) as nat);
    }
}

/// The size of `m` as an unsigned number.
fn magnitude_of(m: i128) -> (mag: u128)
    ensures
        mag == magnitude(m as int),
{
    if m < 0 {
        let shifted: i128 = -(m + 1);
        (shifted as u128) + 1
    } else {
        m as u128
    }
}

/// The digits of `n` from the least significant on: `count` of them where
/// `count` is given, and as many as `n` has where it is not.
fn reversed_digits(n: u128, count: Option<u8>) -> (r: (Vec<u8>, u128))
    ensures
        count is Some ==> r.0@.len() == count->Some_0,
        count is None ==> r.0@.len() == num_digits(n as nat),
        forall|i: int| 0 <= i < r.0@.len() ==> r.0@[i] == digit_at(n as nat, i as nat),
        r.1 == n as nat / pow10(r.0@.len()),
{
    let mut digits: Vec<u8> = Vec::new();
    let mut rest: u128 = n;
    assert(pow10(0) == 1);
    loop
        invariant_except_break
            count is Some ==> digits@.len() <= count->Some_0,
            count is None ==> digits@.len() == 0 || rest != 0,
            count is None && digits@.len() > 0 ==> n as nat / pow10((digits@.len() - 1) as nat) != 0,
        invariant
            rest == n as nat / pow10(digits@.len()),
            forall|i: int| 0 <= i < digits@.len() ==> digits@[i] == digit_at(n as nat, i as nat),
        ensures
            count is Some ==> digits@.len() == count->Some_0,
            count is None ==> digits@.len() == num_digits(n as nat),
        decreases
            (match count {
                Some(c) => c as int - digits@.len(),
                None => rest as int + (if digits@.len() == 0 { 1int } else { 0int }),
            }),
    {
        match count {
            Some(c) => {
                if digits.len() >= c as usize {
                    break;
                }
            },
            None => {},
        }
        let ghost k = digits@.len();
        proof {
            lemma_shift_digit(n as nat, k);
        }
        digits.push(48 + (rest % 10) as u8);
        rest = rest / 10;
        match count {
            Some(_) => {},
            None => {
                if rest == 0 {
                    proof {
                        lemma_num_digits(n as nat, k + 1);
                    }
                    break;
                }
            },
        }
    }
    (digits, rest)
}

/// Appends the digits held least significant first, most significant first.
fn push_reversed(out: &mut Vec<u8>, digits: &Vec<u8>, Ghost(n): Ghost<nat>)
    requires
        forall|i: int| 0 <= i < digits@.len() ==> digits@[i] == digit_at(n, i as nat),
    ensures
        final(out)@ == old(out)@ + fixed_digits(n, digits@.len()),
{
    let width = digits.len();
    let mut j: usize = 0;
    while j < width
        invariant
            width == digits@.len(),
            j <= width,
            forall|i: int| 0 <= i < digits@.len() ==> digits@[i] == digit_at(n, i as nat),
            out@ == old(out)@ + fixed_digits(n, width as nat).subrange(0, j as int),
        decreases width - j,
    {
        out.push(digits[width - 1 - j]);
        assert(out@ =~= old(out)@ + fixed_digits(n, width as nat).subrange(0, j as int + 1));
        j += 1;
    }
    assert(fixed_digits(n, width as nat).subrange(0, width as int) =~= fixed_digits(
        n,
        width as nat,
    ));
}

/// Appends the text of `mantissa / 10^scale` to `out`.
pub fn push_decimal(out: &mut Vec<u8>, mantissa: i128, scale: u8)
    ensures
        final(out)@ == old(out)@ + decimal_text(mantissa as int, scale as nat),
{
    let mag = magnitude_of(mantissa);
    if mantissa < 0 {
        out.push(45u8);
    }
    let ghost signed = out@;
    if scale == 0 {
        let (whole, _) = reversed_digits(mag, None);
        push_reversed(out, &whole, Ghost(mag as nat));
        assert(out@ =~= old(out)@ + decimal_text(mantissa as int, scale as nat));
    } else {
        let (fraction, rest) = reversed_digits(mag, Some(scale));
        let (whole, _) = reversed_digits(rest, None);
        push_reversed(out, &whole, Ghost(rest as nat));
        out.push(46u8);
        push_reversed(out, &fraction, Ghost(mag as nat));
        assert(out@ =~= signed + unsigned_decimal_text(mag as nat, scale as nat));
        assert(out@ =~= old(out)@ + decimal_text(mantissa as int, scale as nat));
    }
}

/// The digit at a place of `n` is the digit one place lower of `n / 10`.
proof fn lemma_digit_at_shift(n: nat, place: nat)
    ensures
        digit_at(n, place + 1) == digit_at(n / 10, place),
{
    lemma_pow10_positive(place);
    lemma_div_denominator(n as int, 10, pow10(place) as int);
    assert(10 * pow10(place) == pow10(place + 1));
}

/// Digits of a fixed width tell numbers apart up to that width.
pub proof fn lemma_fixed_digits_injective(a: nat, b: nat, width: nat)
    requires
        fixed_digits(a, width) == fixed_digits(b, width),
    ensures
        a % pow10(width) == b % pow10(width),
    decreases width,
{
    if width == 0 {
        assert(pow10(0) == 1);
    } else {
        let w = (width - 1) as nat;
        let da = fixed_digits(a, width);
        let db = fixed_digits(b, width);
        assert(pow10(0) == 1);
        assert(da[width - 1] == digit_at(a, 0));
        assert(db[width - 1] == digit_at(b, 0));
        assert(a % 10 == b % 10);
        assert(fixed_digits(a / 10, w) =~= fixed_digits(b / 10, w)) by {
            assert forall|i: int| 0 <= i < w implies #[trigger] fixed_digits(a / 10, w)[i]
                == fixed_digits(b / 10, w)[i] by {
                lemma_digit_at_shift(a, (w - 1 - i) as nat);
                lemma_digit_at_shift(b, (w - 1 - i) as nat);
                assert(da[i] == digit_at(a, (width - 1 - i) as nat));
                assert(db[i] == digit_at(b, (width - 1 - i) as nat));
            }
        }
        lemma_fixed_digits_injective(a / 10, b / 10, w);
        lemma_pow10_positive(w);
        vstd::arithmetic::div_mod::lemma_mod_breakdown(a as int, 10, pow10(w) as int);
        vstd::arithmetic::div_mod::lemma_mod_breakdown(b as int, 10, pow10(w) as int);
        assert(10 * pow10(w) == pow10(width));
    }
}

/// A number is less than ten to the number of its digits.
pub proof fn lemma_num_digits_bound(n: nat)
    ensures
        n < pow10(num_digits(n)),
        num_digits(n) >= 1,
    decreases n,
{
    reveal_with_fuel(pow10, 2);
    if n >= 10 {
        lemma_num_digits_bound(n / 10);
        assert(pow10(num_digits(n)) == 10 * pow10(num_digits(n / 10)));
    }
}

/// Numbers with the same digits are the same number.
pub proof fn lemma_digits_of_injective(a: nat, b: nat)
    requires
        digits_of(a) == digits_of(b),
    ensures
        a == b,
{
    let c = num_digits(a);
    assert(digits_of(a).len() == num_digits(a));
    assert(digits_of(b).len() == num_digits(b));
    lemma_fixed_digits_injective(a, b, c);
    lemma_num_digits_bound(a);
    lemma_num_digits_bound(b);
    vstd::arithmetic::div_mod::lemma_small_mod(a, pow10(c));
    vstd::arithmetic::div_mod::lemma_small_mod(b, pow10(c));
}

/// Whether a byte is one that decimal text is made of: a digit, the minus
/// sign or the point.
pub open spec fn is_decimal_byte(b: u8) -> bool {
    (48 <= b <= 57) || b == 45 || b == 46
}

/// Decimal text is made of digits, at most one minus sign at its head, and
/// at most one point; it is not empty.
pub proof fn lemma_decimal_text_bytes(mantissa: int, scale: nat)
    ensures
        decimal_text(mantissa, scale).len() > 0,
        forall|i: int|
            0 <= i < decimal_text(mantissa, scale).len() ==> is_decimal_byte(
                #[trigger] decimal_text(mantissa, scale)[i],
            ),
        mantissa < 0 ==> decimal_text(mantissa, scale)[0] == 45,
        mantissa >= 0 ==> 48 <= decimal_text(mantissa, scale)[0] <= 57,
{
    let mag = magnitude(mantissa);
    lemma_pow10_positive(scale);
    lemma_num_digits_bound(mag);
    lemma_num_digits_bound(mag / pow10(scale));
    let text = decimal_text(mantissa, scale);
    let body = unsigned_decimal_text(mag, scale);
    assert forall|i: int| 0 <= i < body.len() implies is_decimal_byte(#[trigger] body[i]) by {}
    assert(48 <= body[0] <= 57);
    assert forall|i: int| 0 <= i < text.len() implies is_decimal_byte(#[trigger] text[i]) by {
        if mantissa < 0 {
            if i > 0 {
                assert(text[i] == body[i - 1]);
            }
        }
    }
}

/// Unsigned decimal text tells size and scale apart.
proof fn lemma_unsigned_decimal_text_injective(a: nat, s: nat, b: nat, t: nat)
    requires
        unsigned_decimal_text(a, s) == unsigned_decimal_text(b, t),
    ensures
        a == b,
        s == t,
{
    lemma_pow10_positive(s);
    lemma_pow10_positive(t);
    let ta = unsigned_decimal_text(a, s);
    let tb = unsigned_decimal_text(b, t);
    let wa = digits_of(a / pow10(s));
    let wb = digits_of(b / pow10(t));
    lemma_num_digits_bound(a / pow10(s));
    lemma_num_digits_bound(b / pow10(t));
    lemma_num_digits_bound(a);
    lemma_num_digits_bound(b);
    assert(pow10(0) == 1);
    if s == 0 && t == 0 {
        lemma_digits_of_injective(a, b);
    } else if s == 0 {
        // The text of `b` has a point, that of `a` has none.
        assert(tb[wb.len() as int] == 46u8);
        assert(ta[wb.len() as int] == digit_at(a, (ta.len() - 1 - wb.len()) as nat));
    } else if t == 0 {
        assert(ta[wa.len() as int] == 46u8);
        assert(tb[wa.len() as int] == digit_at(b, (tb.len() - 1 - wa.len()) as nat));
    } else {
        // The first point ends the whole part in both texts.
        if wa.len() < wb.len() {
            assert(ta[wa.len() as int] == 46u8);
            assert(tb[wa.len() as int] == wb[wa.len() as int]);
        } else if wb.len() < wa.len() {
            assert(tb[wb.len() as int] == 46u8);
            assert(ta[wb.len() as int] == wa[wb.len() as int]);
        }
        assert(wa.len() == wb.len());
        assert(ta.len() == wa.len() + 1 + s);
        assert(tb.len() == wb.len() + 1 + t);
        assert(s == t);
        assert(wa =~= wb) by {
            assert forall|i: int| 0 <= i < wa.len() implies wa[i] == wb[i] by {
                assert(ta[i] == wa[i]);
                assert(tb[i] == wb[i]);
            }
        }
        let fa = fixed_digits(a, s);
        let fb = fixed_digits(b, s);
        assert(fa =~= fb) by {
            assert forall|i: int| 0 <= i < s implies fa[i] == fb[i] by {
                assert(ta[wa.len() + 1 + i] == fa[i]);
                assert(tb[wb.len() + 1 + i] == fb[i]);
            }
        }
        lemma_digits_of_injective(a / pow10(s), b / pow10(s));
        lemma_fixed_digits_injective(a, b, s);
        vstd::arithmetic::div_mod::lemma_fundamental_div_mod(a as int, pow10(s) as int);
        vstd::arithmetic::div_mod::lemma_fundamental_div_mod(b as int, pow10(s) as int);
    }
}

/// Decimal text tells numbers apart: two numbers with the same text have the
/// same mantissa and the same scale.
pub proof fn lemma_decimal_text_injective(m1: int, s1: nat, m2: int, s2: nat)
    requires
        decimal_text(m1, s1) == decimal_text(m2, s2),
    ensures
        m1 == m2,
        s1 == s2,
{
    let a = magnitude(m1);
    let b = magnitude(m2);
    let ua = unsigned_decimal_text(a, s1);
    let ub = unsigned_decimal_text(b, s2);
    lemma_decimal_text_bytes(a as int, s1);
    lemma_decimal_text_bytes(b as int, s2);
    assert(decimal_text(a as int, s1) == ua);
    assert(decimal_text(b as int, s2) == ub);
    assert(48 <= ua[0] <= 57);
    assert(48 <= ub[0] <= 57);
    if m1 < 0 {
        assert(decimal_text(m1, s1)[0] == 45u8);
        assert(m2 < 0);
        assert(ua =~= decimal_text(m1, s1).subrange(1, decimal_text(m1, s1).len() as int));
        assert(ub =~= decimal_text(m2, s2).subrange(1, decimal_text(m2, s2).len() as int));
    } else {
        assert(decimal_text(m1, s1)[0] == ua[0]);
        if m2 < 0 {
            assert(decimal_text(m2, s2)[0] == 45u8);
        }
    }
    lemma_unsigned_decimal_text_injective(a, s1, b, s2);
}

/// Whether `c` is one of the digits `0` to `9`.
pub open spec fn is_digit(c: char) -> bool {
    48 <= c as int <= 57
}

/// Whether every character of `s` is a digit.
pub open spec fn all_digits(s: Seq<char>) -> bool {
    forall|i: int| 0 <= i < s.len() ==> is_digit(#[trigger] s[i])
}

/// Whether `c` ends the part of a number that is being read: the exponent
/// mark ends the mantissa, and the point ends the whole part of it.
pub open spec fn is_stop(c: char, at_mark: bool) -> bool {
    if at_mark {
        c == 'e' || c == 'E'
    } else {
        c == '.'
    }
}

/// The position of the first character of `s` that ends the part, and the
/// length of `s` where none does.
pub open spec fn stop_index(s: Seq<char>, at_mark: bool) -> int
    decreases s.len(),
{
    if s.len() == 0 || is_stop(s[0], at_mark) {
        0
    } else {
        1 + stop_index(s.drop_first(), at_mark)
    }
}

/// The digit at position `i` of `digits`, and zero past their end.
pub open spec fn digit_or_zero(digits: Seq<char>, i: int) -> nat {
    if 0 <= i < digits.len() {
        (digits[i] as int - 48) as nat
    } else {
        0
    }
}

/// The number `v` with the first `p` of `digits` written after it, and zeros
/// written where the digits run out.
pub open spec fn extend_value(v: nat, digits: Seq<char>, p: nat) -> nat
    decreases p,
{
    if p == 0 {
        v
    } else {
        extend_value(v, digits, (p - 1) as nat) * 10 + digit_or_zero(digits, p - 1)
    }
}

/// The number that the first `p` of `digits` write, with zeros written where
/// the digits run out.
pub open spec fn prefix_value(digits: Seq<char>, p: nat) -> nat {
    extend_value(0, digits, p)
}

/// Whether `s` starts with a sign.
pub open spec fn has_sign(s: Seq<char>) -> bool {
    s.len() > 0 && (s[0] == '+' || s[0] == '-')
}

/// Whether `s` starts with a minus sign.
pub open spec fn is_negative(s: Seq<char>) -> bool {
    s.len() > 0 && s[0] == '-'
}

/// `s` without its sign.
pub open spec fn unsigned_part(s: Seq<char>) -> Seq<char> {
    if has_sign(s) {
        s.subrange(1, s.len() as int)
    } else {
        s
    }
}

/// The exponent that the text after an exponent mark writes: an optional
/// sign and at least one digit. `None` for any other text.
pub open spec fn exponent_of(t: Seq<char>) -> Option<int> {
    let digits = unsigned_part(t);
    if digits.len() == 0 || !all_digits(digits) {
        None
    } else if is_negative(t) {
        Some(-(prefix_value(digits, digits.len()) as int))
    } else {
        Some(prefix_value(digits, digits.len()) as int)
    }
}

/// The mantissa of an unsigned number: what stands before the exponent mark.
pub open spec fn mantissa_of(body: Seq<char>) -> Seq<char> {
    body.subrange(0, stop_index(body, true))
}

/// The digits of a mantissa before its point.
pub open spec fn whole_of(mantissa: Seq<char>) -> Seq<char> {
    mantissa.subrange(0, stop_index(mantissa, false))
}

/// The digits of a mantissa after its point; none where it has no point.
pub open spec fn fraction_of(mantissa: Seq<char>) -> Seq<char> {
    if stop_index(mantissa, false) < mantissa.len() {
        mantissa.subrange(stop_index(mantissa, false) + 1, mantissa.len() as int)
    } else {
        Seq::empty()
    }
}

/// The exponent of an unsigned number: what its exponent part writes, and
/// zero where it has none.
pub open spec fn exponent_part(body: Seq<char>) -> Option<int> {
    if stop_index(body, true) < body.len() {
        exponent_of(body.subrange(stop_index(body, true) + 1, body.len() as int))
    } else {
        Some(0)
    }
}

/// The size, in millionths, of an unsigned decimal number, cut off after the
/// sixth place behind the point. The number is a mantissa and optionally an
/// exponent mark (`e` or `E`) with an exponent; the mantissa is digits with
/// optionally a point among them, before them or after them, and has at least
/// one digit. `None` where the text is no such number.
pub open spec fn unsigned_micro(body: Seq<char>) -> Option<nat> {
    let mantissa = mantissa_of(body);
    let whole = whole_of(mantissa);
    let fraction = fraction_of(mantissa);
    let exponent = exponent_part(body);
    if whole.len() + fraction.len() == 0 || !all_digits(whole) || !all_digits(fraction)
        || exponent is None {
        None
    } else {
        let places = whole.len() + 6 + exponent->Some_0;
        if places <= 0 {
            Some(0)
        } else {
            Some(prefix_value(whole + fraction, places as nat))
        }
    }
}

/// Whether `c` is the lower-case letter `letter` in either case.
pub open spec fn is_letter(c: char, letter: char) -> bool {
    c == letter || c as int + 32 == letter as int
}

/// Whether `body` is `inf` or `infinity`, in any mix of cases.
pub open spec fn names_infinity(body: Seq<char>) -> bool {
    ||| {
        &&& body.len() == 3
        &&& is_letter(body[0], 'i')
        &&& is_letter(body[1], 'n')
        &&& is_letter(body[2], 'f')
    }
    ||| {
        &&& body.len() == 8
        &&& is_letter(body[0], 'i')
        &&& is_letter(body[1], 'n')
        &&& is_letter(body[2], 'f')
        &&& is_letter(body[3], 'i')
        &&& is_letter(body[4], 'n')
        &&& is_letter(body[5], 'i')
        &&& is_letter(body[6], 't')
        &&& is_letter(body[7], 'y')
    }
}

/// `v`, or the nearest number that fits in 64 bits.
pub open spec fn saturated(v: int) -> int {
    if v > i64::MAX {
        i64::MAX as int
    } else if v < i64::MIN {
        i64::MIN as int
    } else {
        v
    }
}

/// The number, in millionths, that a decimal text writes: an optional sign
/// (`+` or `-`) and an unsigned decimal number or the word for infinity. The
/// number is cut off after the sixth place behind the point, and one that
/// does not fit in 64 bits keeps its sign and becomes the largest number
/// that does. `None` where the text writes no number.
pub open spec fn micro_of_text(s: Seq<char>) -> Option<int> {
    let body = unsigned_part(s);
    let size = if names_infinity(body) {
        Some(0x8000_0000_0000_0000nat)
    } else {
        unsigned_micro(body)
    };
    match size {
        Some(n) => Some(
            saturated(
                if is_negative(s) {
                    -(n as int)
                } else {
                    n as int
                },
            ),
        ),
        None => None,
    }
}

/// The first character that ends a part stands at its index, and none
/// stands before it.
proof fn lemma_stop_index(s: Seq<char>, at_mark: bool)
    ensures
        0 <= stop_index(s, at_mark) <= s.len(),
        stop_index(s, at_mark) < s.len() ==> is_stop(s[stop_index(s, at_mark)], at_mark),
        forall|i: int| 0 <= i < stop_index(s, at_mark) ==> !is_stop(#[trigger] s[i], at_mark),
    decreases s.len(),
{
    if s.len() > 0 && !is_stop(s[0], at_mark) {
        let rest = s.drop_first();
        lemma_stop_index(rest, at_mark);
        assert forall|i: int| 0 <= i < stop_index(s, at_mark) implies !is_stop(
            #[trigger] s[i],
            at_mark,
        ) by {
            if i > 0 {
                assert(s[i] == rest[i - 1]);
            }
        }
    }
}

/// In a text whose first `i` characters do not end the part, the part ends
/// `i` after where it ends in the rest.
proof fn lemma_stop_index_skip(s: Seq<char>, at_mark: bool, i: int)
    requires
        0 <= i <= s.len(),
        forall|j: int| 0 <= j < i ==> !is_stop(#[trigger] s[j], at_mark),
    ensures
        stop_index(s, at_mark) == i + stop_index(s.subrange(i, s.len() as int), at_mark),
    decreases i,
{
    if i == 0 {
        assert(s.subrange(0, s.len() as int) =~= s);
    } else {
        let rest = s.drop_first();
        assert(!is_stop(s[0], at_mark));
        assert forall|j: int| 0 <= j < i - 1 implies !is_stop(#[trigger] rest[j], at_mark) by {
            assert(rest[j] == s[j + 1]);
        }
        lemma_stop_index_skip(rest, at_mark, i - 1);
        assert(rest.subrange(i - 1, rest.len() as int) =~= s.subrange(i, s.len() as int));
    }
}

/// Writing the digits of two sequences after a number, one sequence after
/// the other, is writing the digits of the two put together.
proof fn lemma_extend_concat(v: nat, a: Seq<char>, b: Seq<char>, p: nat)
    ensures
        p <= a.len() ==> extend_value(v, a + b, p) == extend_value(v, a, p),
        p > a.len() ==> extend_value(v, a + b, p) == extend_value(
            extend_value(v, a, a.len()),
            b,
            (p - a.len()) as nat,
        ),
    decreases p,
{
    if p > 0 {
        lemma_extend_concat(v, a, b, (p - 1) as nat);
        if p - 1 < a.len() {
            assert((a + b)[p - 1] == a[p - 1]);
        } else {
            let base = extend_value(v, a, a.len());
            assert(extend_value(base, b, 0) == base);
            assert(digit_or_zero(a + b, p - 1) == digit_or_zero(b, p - 1 - a.len())) by {
                if p - 1 < a.len() + b.len() {
                    assert((a + b)[p - 1] == b[p - 1 - a.len()]);
                }
            }
        }
    }
}

/// Writing zeros after a number multiplies it by a power of ten.
proof fn lemma_extend_zeros(v: nat, digits: Seq<char>, z: nat)
    ensures
        extend_value(v, digits, digits.len() + z) == extend_value(v, digits, digits.len()) * pow10(
            z,
        ),
    decreases z,
{
    if z > 0 {
        lemma_extend_zeros(v, digits, (z - 1) as nat);
        let base = extend_value(v, digits, digits.len());
        assert(base * pow10((z - 1) as nat) * 10 == base * pow10(z)) by (nonlinear_arith)
            requires
                pow10(z) == 10 * pow10((z - 1) as nat),
        ;
    } else {
        assert(pow10(0) == 1);
        assert(extend_value(v, digits, digits.len()) * 1 == extend_value(v, digits, digits.len()));
    }
}

/// The powers of ten grow.
proof fn lemma_pow10_grows(a: nat, b: nat)
    requires
        a <= b,
    ensures
        pow10(a) <= pow10(b),
    decreases b,
{
    if a < b {
        lemma_pow10_grows(a, (b - 1) as nat);
    }
}

/// The least of two numbers.
spec fn least(a: nat, b: nat) -> nat {
    if a <= b {
        a
    } else {
        b
    }
}

/// The size from which on sizes are not told apart: ten to the nineteenth,
/// which is more than fits in 64 bits.
const SIZE_CAP: u128 = 10_000_000_000_000_000_000;

/// The exponent from which on exponents are not told apart: two to the
/// hundredth, which is more than any text has digits.
const EXPONENT_CAP: u128 = 0x10_0000_0000_0000_0000_0000_0000;

/// An exponent, or the nearest one that is told apart from the others.
spec fn capped_exponent(e: int) -> int {
    if e >= EXPONENT_CAP {
        EXPONENT_CAP as int
    } else if e <= -EXPONENT_CAP {
        -(EXPONENT_CAP as int)
    } else {
        e
    }
}

/// Whether the bytes from `from` on are the characters of `part`.
spec fn reads(bytes: Seq<u8>, from: int, part: Seq<char>) -> bool {
    &&& 0 <= from
    &&& from + part.len() <= bytes.len()
    &&& forall|i: int| 0 <= i < part.len() ==> bytes[from + i] as char == #[trigger] part[i]
}

/// Ten to the nineteenth.
proof fn lemma_size_cap()
    ensures
        pow10(19) == SIZE_CAP,
{
    reveal_with_fuel(pow10, 20);
}

/// Where the part that starts at `from` ends: at the first byte that ends
/// it, or at `to`.
fn find_stop(
    bytes: &[u8],
    from: usize,
    to: usize,
    at_mark: bool,
    Ghost(part): Ghost<Seq<char>>,
) -> (k: usize)
    requires
        from <= to <= bytes@.len(),
        part.len() == to - from,
        reads(bytes@, from as int, part),
    ensures
        k == from + stop_index(part, at_mark),
        from <= k <= to,
{
    let mut i: usize = from;
    loop
        invariant
            from <= i <= to,
            to <= bytes@.len(),
            part.len() == to - from,
            reads(bytes@, from as int, part),
            forall|j: int| 0 <= j < i - from ==> !is_stop(#[trigger] part[j], at_mark),
        ensures
            i == to || is_stop(part[i - from], at_mark),
        decreases to - i,
    {
        if i >= to {
            break;
        }
        let b = bytes[i];
        assert(part[i - from] == b as char);
        let stop = if at_mark {
            b == 101 || b == 69
        } else {
            b == 46
        };
        if stop {
            break;
        }
        i += 1;
    }
    proof {
        lemma_stop_index_skip(part, at_mark, i - from);
        let rest = part.subrange(i - from, part.len() as int);
        if i < to {
            assert(rest[0] == part[i - from]);
        }
    }
    i
}

/// Whether the bytes from `from` to `to` are digits.
fn digits_only(bytes: &[u8], from: usize, to: usize, Ghost(part): Ghost<Seq<char>>) -> (ok: bool)
    requires
        from <= to <= bytes@.len(),
        part.len() == to - from,
        reads(bytes@, from as int, part),
    ensures
        ok == all_digits(part),
{
    let mut i: usize = from;
    while i < to
        invariant
            from <= i <= to,
            to <= bytes@.len(),
            part.len() == to - from,
            reads(bytes@, from as int, part),
            forall|j: int| 0 <= j < i - from ==> is_digit(#[trigger] part[j]),
        decreases to - i,
    {
        let b = bytes[i];
        assert(part[i - from] == b as char);
        if b < 48 || b > 57 {
            return false;
        }
        i += 1;
    }
    true
}

/// The number `v`, known up to `cap`, with the first `count` digits from
/// `from` on written after it, known up to `cap`.
fn take_digits(
    acc: u128,
    bytes: &[u8],
    from: usize,
    count: usize,
    cap: u128,
    Ghost(v): Ghost<nat>,
    Ghost(part): Ghost<Seq<char>>,
) -> (r: u128)
    requires
        reads(bytes@, from as int, part),
        count <= part.len(),
        all_digits(part),
        acc == least(v, cap as nat),
        cap <= 0x1000_0000_0000_0000_0000_0000_0000,
    ensures
        r == least(extend_value(v, part, count as nat), cap as nat),
{
    let n = bytes.len();
    let mut cur: u128 = acc;
    let mut j: usize = 0;
    while j < count
        invariant
            n == bytes@.len(),
            j <= count,
            count <= part.len(),
            reads(bytes@, from as int, part),
            all_digits(part),
            cap <= 0x1000_0000_0000_0000_0000_0000_0000,
            cur == least(extend_value(v, part, j as nat), cap as nat),
        decreases count - j,
    {
        assert(from + j < n);
        let b = bytes[from + j];
        assert(part[j as int] == b as char);
        assert(is_digit(part[j as int]));
        let next: u128 = cur * 10 + (b - 48) as u128;
        cur = if next > cap {
            cap
        } else {
            next
        };
        j += 1;
    }
    cur
}

/// The number `v`, known up to the cap on sizes, with `z` zeros written
/// after it, known up to the cap. Of `z` only `zeros` is at hand, which is
/// `z` or, where `z` is large, some number of at least 19.
fn pad_zeros(acc: u128, zeros: u128, Ghost(v): Ghost<nat>, Ghost(z): Ghost<nat>) -> (r: u128)
    requires
        acc == least(v, SIZE_CAP as nat),
        z >= zeros,
        zeros < 19 ==> z == zeros,
    ensures
        r == least(v * pow10(z), SIZE_CAP as nat),
{
    if acc == 0 {
        assert(v * pow10(z) == 0) by (nonlinear_arith)
            requires
                v == 0,
        ;
        return 0;
    }
    if zeros >= 19 {
        proof {
            lemma_size_cap();
            lemma_pow10_grows(19, z);
            assert(v * pow10(z) >= pow10(19)) by (nonlinear_arith)
                requires
                    v >= 1,
                    pow10(z) >= pow10(19),
            ;
        }
        return SIZE_CAP;
    }
    let mut cur: u128 = acc;
    let mut k: u128 = 0;
    assert(pow10(0) == 1);
    assert(v * pow10(0) == v) by (nonlinear_arith)
        requires
            pow10(0) == 1,
    ;
    while k < zeros
        invariant
            k <= zeros,
            zeros < 19,
            cur == least(v * pow10(k as nat), SIZE_CAP as nat),
        decreases zeros - k,
    {
        proof {
            assert(v * pow10((k + 1) as nat) == v * pow10(k as nat) * 10) by (nonlinear_arith)
                requires
                    pow10((k + 1) as nat) == 10 * pow10(k as nat),
            ;
        }
        let next: u128 = cur * 10;
        cur = if next > SIZE_CAP {
            SIZE_CAP
        } else {
            next
        };
        k += 1;
    }
    cur
}

/// The exponent that the bytes from `from` on write, known up to the cap on
/// exponents, and `None` where they write none.
fn parse_exponent(bytes: &[u8], from: usize, Ghost(t): Ghost<Seq<char>>) -> (r: Option<i128>)
    requires
        from <= bytes@.len(),
        t.len() == bytes@.len() - from,
        reads(bytes@, from as int, t),
    ensures
        r is Some <==> exponent_of(t) is Some,
        r is Some ==> r->Some_0 == capped_exponent(exponent_of(t)->Some_0),
{
    let n = bytes.len();
    proof {
        if from < n {
            assert(t[0] == bytes@[from as int] as char);
        }
    }
    let signed = from < n && (bytes[from] == 43 || bytes[from] == 45);
    let negative = from < n && bytes[from] == 45;
    let start: usize = if signed {
        from + 1
    } else {
        from
    };
    let ghost digits = unsigned_part(t);
    assert(reads(bytes@, start as int, digits)) by {
        assert forall|i: int| 0 <= i < digits.len() implies bytes@[start + i] as char
            == #[trigger] digits[i] by {
            assert(t[start - from + i] == bytes@[from + (start - from + i)] as char);
        }
    }
    if start == n {
        return None;
    }
    if !digits_only(bytes, start, n, Ghost(digits)) {
        return None;
    }
    let size = take_digits(0, bytes, start, n - start, EXPONENT_CAP, Ghost(0), Ghost(digits));
    if negative {
        Some(-(size as i128))
    } else {
        Some(size as i128)
    }
}

/// The size in millionths of the unsigned number that the bytes from `start`
/// on write, known up to the cap on sizes, and `None` where they write none.
fn parse_unsigned(bytes: &[u8], start: usize, Ghost(body): Ghost<Seq<char>>) -> (size: Option<
    u128,
>)
    requires
        start <= bytes@.len(),
        body.len() == bytes@.len() - start,
        reads(bytes@, start as int, body),
    ensures
        size is Some <==> unsigned_micro(body) is Some,
        size is Some ==> size->Some_0 == least(unsigned_micro(body)->Some_0, SIZE_CAP as nat),
{
    let n = bytes.len();
    let mark = find_stop(bytes, start, n, true, Ghost(body));
    let ghost mantissa = mantissa_of(body);
    assert(reads(bytes@, start as int, mantissa)) by {
        assert forall|i: int| 0 <= i < mantissa.len() implies bytes@[start + i] as char
            == #[trigger] mantissa[i] by {
            assert(body[i] == bytes@[start + i] as char);
        }
    }
    let point = find_stop(bytes, start, mark, false, Ghost(mantissa));
    let ghost whole = whole_of(mantissa);
    let ghost fraction = fraction_of(mantissa);
    let fraction_from: usize = if point < mark {
        point + 1
    } else {
        mark
    };
    let whole_len: usize = point - start;
    let fraction_len: usize = mark - fraction_from;
    assert(reads(bytes@, start as int, whole)) by {
        assert forall|i: int| 0 <= i < whole.len() implies bytes@[start + i] as char
            == #[trigger] whole[i] by {
            assert(mantissa[i] == bytes@[start + i] as char);
        }
    }
    assert(reads(bytes@, fraction_from as int, fraction)) by {
        assert forall|i: int| 0 <= i < fraction.len() implies bytes@[fraction_from + i] as char
            == #[trigger] fraction[i] by {
            assert(mantissa[fraction_from - start + i] == bytes@[start + (fraction_from - start
                + i)] as char);
        }
    }
    if whole_len + fraction_len == 0 {
        return None;
    }
    if !digits_only(bytes, start, point, Ghost(whole)) {
        return None;
    }
    if !digits_only(bytes, fraction_from, mark, Ghost(fraction)) {
        return None;
    }
    let shift: i128 = if mark < n {
        let ghost t = body.subrange(mark - start + 1, body.len() as int);
        assert(reads(bytes@, mark + 1, t)) by {
            assert forall|i: int| 0 <= i < t.len() implies bytes@[mark + 1 + i] as char
                == #[trigger] t[i] by {
                assert(body[mark - start + 1 + i] == bytes@[start + (mark - start + 1 + i)]
                    as char);
            }
        }
        match parse_exponent(bytes, mark + 1, Ghost(t)) {
            Some(e) => e,
            None => {
                return None;
            },
        }
    } else {
        0
    };
    let ghost exponent = exponent_part(body)->Some_0;
    assert(shift == capped_exponent(exponent));
    let ghost true_places = whole_len + 6 + exponent;
    let ghost all = whole + fraction;
    let places: i128 = whole_len as i128 + 6 + shift;
    if places <= 0 {
        return Some(0);
    }
    if places <= whole_len as i128 {
        proof {
            lemma_extend_concat(0, whole, fraction, places as nat);
        }
        return Some(
            take_digits(0, bytes, start, places as usize, SIZE_CAP, Ghost(0), Ghost(whole)),
        );
    }
    let whole_value = take_digits(0, bytes, start, whole_len, SIZE_CAP, Ghost(0), Ghost(whole));
    let ghost whole_size = extend_value(0, whole, whole.len());
    let rest: i128 = places - whole_len as i128;
    if rest <= fraction_len as i128 {
        proof {
            lemma_extend_concat(0, whole, fraction, places as nat);
        }
        return Some(
            take_digits(
                whole_value,
                bytes,
                fraction_from,
                rest as usize,
                SIZE_CAP,
                Ghost(whole_size),
                Ghost(fraction),
            ),
        );
    }
    let digits_value = take_digits(
        whole_value,
        bytes,
        fraction_from,
        fraction_len,
        SIZE_CAP,
        Ghost(whole_size),
        Ghost(fraction),
    );
    let zeros: i128 = rest - fraction_len as i128;
    let ghost true_zeros = (true_places - all.len()) as nat;
    proof {
        lemma_extend_concat(0, whole, fraction, all.len());
        lemma_extend_zeros(0, all, true_zeros);
        assert(all.len() + true_zeros == true_places);
    }
    Some(pad_zeros(digits_value, zeros as u128, Ghost(prefix_value(all, all.len())), Ghost(true_zeros)))
}

/// Whether the byte is the lower-case letter `letter` in either case.
fn letter_byte(b: u8, letter: u8) -> (same: bool)
    requires
        97 <= letter <= 122,
    ensures
        same == is_letter(b as char, letter as char),
{
    b == letter || b == letter - 32
}

/// Whether the bytes from `start` on are the word for infinity.
fn infinity_word(bytes: &[u8], start: usize, Ghost(body): Ghost<Seq<char>>) -> (named: bool)
    requires
        start <= bytes@.len(),
        body.len() == bytes@.len() - start,
        reads(bytes@, start as int, body),
    ensures
        named == names_infinity(body),
{
    let len = bytes.len() - start;
    proof {
        assert forall|i: int| 0 <= i < body.len() implies body[i] == #[trigger] bytes@[start + i]
            as char by {}
    }
    if len == 3 {
        letter_byte(bytes[start], 105) && letter_byte(bytes[start + 1], 110) && letter_byte(
            bytes[start + 2],
            102,
        )
    } else if len == 8 {
        letter_byte(bytes[start], 105) && letter_byte(bytes[start + 1], 110) && letter_byte(
            bytes[start + 2],
            102,
        ) && letter_byte(bytes[start + 3], 105) && letter_byte(bytes[start + 4], 110)
            && letter_byte(bytes[start + 5], 105) && letter_byte(bytes[start + 6], 116)
            && letter_byte(bytes[start + 7], 121)
    } else {
        false
    }
}

/// The number, in millionths, that a decimal text writes: an optional sign,
/// digits with optionally a point among them, and optionally an exponent; or
/// a sign and the word for infinity. The number is cut off after the sixth
/// place behind the point, and one that does not fit in 64 bits keeps its
/// sign and becomes the largest number that does. `None` for any other text.
pub fn parse_micro(text: &str) -> (value: Option<i64>)
    ensures
        value is Some <==> micro_of_text(text@) is Some,
        value is Some ==> value->Some_0 == micro_of_text(text@)->Some_0,
{
    let bytes = match ascii_bytes(text) {
        Some(bytes) => bytes,
        None => {
            proof {
                if micro_of_text(text@) is Some {
                    lemma_number_is_ascii(text@);
                }
            }
            return None;
        },
    };
    let n = bytes.len();
    proof {
        if n > 0 {
            assert(bytes@[0] as char == text@[0]);
        }
    }
    let signed = n > 0 && (bytes[0] == 43 || bytes[0] == 45);
    let negative = n > 0 && bytes[0] == 45;
    let start: usize = if signed {
        1
    } else {
        0
    };
    let ghost body = unsigned_part(text@);
    assert(reads(bytes@, start as int, body)) by {
        assert forall|i: int| 0 <= i < body.len() implies bytes@[start + i] as char
            == #[trigger] body[i] by {
            assert(bytes@[start + i] as char == text@[start + i]);
        }
    }
    let size: u128 = if infinity_word(bytes, start, Ghost(body)) {
        0x8000_0000_0000_0000
    } else {
        match parse_unsigned(bytes, start, Ghost(body)) {
            Some(size) => size,
            None => {
                return None;
            },
        }
    };
    if negative {
        if size >= 0x8000_0000_0000_0000 {
            Some(i64::MIN)
        } else {
            Some(-(size as i64))
        }
    } else {
        if size > 0x7fff_ffff_ffff_ffff {
            Some(i64::MAX)
        } else {
            Some(size as i64)
        }
    }
}

/// A text that writes a number is made of ASCII characters.
proof fn lemma_number_is_ascii(s: Seq<char>)
    requires
        micro_of_text(s) is Some,
    ensures
        vstd::utf8::is_ascii_chars(s),
{
    let body = unsigned_part(s);
    assert forall|i: int| 0 <= i < body.len() implies '\0' <= #[trigger] body[i] <= '\u{7f}' by {
        if !names_infinity(body) {
            let mark = stop_index(body, true);
            let mantissa = mantissa_of(body);
            let point = stop_index(mantissa, false);
            let whole = whole_of(mantissa);
            let fraction = fraction_of(mantissa);
            lemma_stop_index(body, true);
            lemma_stop_index(mantissa, false);
            if i < mark {
                assert(body[i] == mantissa[i]);
                if i < point {
                    assert(is_digit(whole[i]));
                } else if i > point {
                    assert(is_digit(fraction[i - point - 1]));
                }
            } else if i > mark {
                let t = body.subrange(mark + 1, body.len() as int);
                let digits = unsigned_part(t);
                assert(body[i] == t[i - mark - 1]);
                if has_sign(t) {
                    if i - mark - 1 > 0 {
                        assert(is_digit(digits[i - mark - 2]));
                    }
                } else {
                    assert(is_digit(digits[i - mark - 1]));
                }
            }
        }
    }
    assert forall|i: int| 0 <= i < s.len() implies '\0' <= #[trigger] s[i] <= '\u{7f}' by {
        if has_sign(s) {
            if i > 0 {
                assert(s[i] == body[i - 1]);
            }
        } else {
            assert(s[i] == body[i]);
        }
    }
}

} // verus!
