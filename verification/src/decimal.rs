//! Fixed-point decimal weights.
//!
//! Weights travel on the wire as fixed-point decimal tokens ("12.5",
//! "100.005").  Internally a weight is an integer count of millionths of a
//! gram, so six fractional digits are kept exactly; a longer fraction is
//! rounded half-up to the sixth place when a token is read.  Conversion
//! failure (a malformed token or one out of range) is a hard error for the
//! callers in `store`, never a silent truncation.

use vstd::prelude::*;
use vstd::string::*;

verus! {

/// Scale factor: micro-units per whole unit (six decimal places).
pub const MICRO_PER_UNIT: i64 = 1_000_000;

/// Largest magnitude, in micro-units, that a decimal token may denote:
/// just under one billion grams.
pub const MAX_MICRO: i64 = 999_999_999_999_999;

/// A fixed-point decimal number of grams: `micro` millionths of a gram.
/// Values read from tokens stay within `MAX_MICRO`; aggregated totals may
/// exceed it, which is why the field is 128 bits wide.
#[derive(Clone, Copy, Debug, PartialEq, Eq, Structural)]
pub struct Decimal {
    pub micro: i128,
}

/// A decimal digit character.
pub open spec fn is_digit_char(c: char) -> bool {
    '0' <= c && c <= '9'
}

/// Numeric value of a decimal digit character.
pub open spec fn char_digit(c: char) -> int {
    c as int - '0' as int
}

/// Digit character for a value below ten.
pub open spec fn digit_char(d: int) -> char {
    if d == 0 { '0' }
    else if d == 1 { '1' }
    else if d == 2 { '2' }
    else if d == 3 { '3' }
    else if d == 4 { '4' }
    else if d == 5 { '5' }
    else if d == 6 { '6' }
    else if d == 7 { '7' }
    else if d == 8 { '8' }
    else { '9' }
}

/// The usual base-ten rendering of `n`, most significant digit first,
/// without leading zeros (a lone zero for `n == 0`).
pub open spec fn digits_spec(n: nat) -> Seq<char>
    decreases n,
{
    if n < 10 {
        seq![digit_char(n as int)]
    } else {
        digits_spec(n / 10) + seq![digit_char((n % 10) as int)]
    }
}

/// Base-ten rendering of `n` padded with leading zeros to exactly
/// `w` digits (the low `w` digits of `n`).
pub open spec fn fixed_digits_spec(n: nat, w: nat) -> Seq<char>
    decreases w,
{
    if w == 0 {
        Seq::empty()
    } else {
        fixed_digits_spec(n / 10, (w - 1) as nat) + seq![digit_char((n % 10) as int)]
    }
}

/// Value of a digit string, most significant digit first.
pub open spec fn digits_val(s: Seq<char>) -> int
    decreases s.len(),
{
    if s.len() == 0 {
        0
    } else {
        digits_val(s.drop_last()) * 10 + char_digit(s.last())
    }
}

/// Every character of `s` is a decimal digit.
pub open spec fn all_digits(s: Seq<char>) -> bool {
    forall|i: int| 0 <= i < s.len() ==> is_digit_char(#[trigger] s[i])
}

/// Ten to the `e`-th power.
pub open spec fn pow10(e: nat) -> int
    decreases e,
{
    if e == 0 {
        1
    } else {
        10 * pow10((e - 1) as nat)
    }
}

proof fn lemma_digits_val_append(s: Seq<char>, c: char)
    ensures
        digits_val(s + seq![c]) == digits_val(s) * 10 + char_digit(c),
{
    let t = s + seq![c];
    assert(t.last() == c);
    assert(t.drop_last() =~= s);
}

/// Reading the usual rendering of `n` back as a number yields `n`.
pub proof fn lemma_digits_val_of_digits(n: nat)
    ensures
        digits_val(digits_spec(n)) == n,
    decreases n,
{
    if n < 10 {
        assert(digits_spec(n) =~= Seq::empty() + seq![digit_char(n as int)]);
        lemma_digits_val_append(Seq::empty(), digit_char(n as int));
        assert(digits_val(Seq::<char>::empty()) == 0);
    } else {
        lemma_digits_val_of_digits(n / 10);
        lemma_digits_val_append(digits_spec(n / 10), digit_char((n % 10) as int));
    }
}

/// Reading a zero-padded `w`-digit rendering of `n < 10^w` back yields `n`.
pub proof fn lemma_digits_val_of_fixed(n: nat, w: nat)
    requires
        n < pow10(w),
    ensures
        digits_val(fixed_digits_spec(n, w)) == n,
    decreases w,
{
    if w > 0 {
        assert(pow10(w) == 10 * pow10((w - 1) as nat));
        lemma_digits_val_of_fixed(n / 10, (w - 1) as nat);
        lemma_digits_val_append(fixed_digits_spec(n / 10, (w - 1) as nat),
            digit_char((n % 10) as int));
    }
}

/// The usual rendering consists of digit characters only.
pub proof fn lemma_digits_all_digits(n: nat)
    ensures
        all_digits(digits_spec(n)),
        digits_spec(n).len() >= 1,
    decreases n,
{
    if n < 10 {
    } else {
        lemma_digits_all_digits(n / 10);
    }
}

/// The zero-padded rendering consists of digit characters only.
pub proof fn lemma_fixed_digits_all_digits(n: nat, w: nat)
    ensures
        all_digits(fixed_digits_spec(n, w)),
        fixed_digits_spec(n, w).len() == w,
    decreases w,
{
    if w > 0 {
        lemma_fixed_digits_all_digits(n / 10, (w - 1) as nat);
    }
}

/// A digit string denotes a non-negative value.
pub proof fn lemma_digits_val_nonneg(s: Seq<char>)
    requires
        all_digits(s),
    ensures
        digits_val(s) >= 0,
    decreases s.len(),
{
    if s.len() > 0 {
        assert(is_digit_char(s[s.len() - 1]));
        lemma_digits_val_nonneg(s.drop_last());
    }
}

/// Reading one more digit multiplies the prefix value by ten and adds it.
pub proof fn lemma_digits_val_take_step(s: Seq<char>, j: int)
    requires
        0 <= j < s.len(),
    ensures
        digits_val(s.take(j + 1)) == digits_val(s.take(j)) * 10 + char_digit(s[j]),
{
    assert(s.take(j + 1).drop_last() =~= s.take(j));
    assert(s.take(j + 1).last() == s[j]);
}

/// A prefix of a digit string never denotes more than the whole string.
pub proof fn lemma_digits_val_prefix_le(s: Seq<char>, j: int)
    requires
        all_digits(s),
        0 <= j <= s.len(),
    ensures
        digits_val(s.take(j)) <= digits_val(s),
    decreases s.len() - j,
{
    if j < s.len() {
        lemma_digits_val_take_step(s, j);
        assert(all_digits(s.take(j))) by {
            assert(forall|i: int| 0 <= i < j ==> s.take(j)[i] == s[i]);
        }
        lemma_digits_val_nonneg(s.take(j));
        assert(is_digit_char(s[j]));
        lemma_digits_val_prefix_le(s, j + 1);
    } else {
        assert(s.take(j) =~= s);
    }
}

/// Index of the first `'.'` in `s`, or `s.len()` if there is none.
pub open spec fn dot_pos(s: Seq<char>) -> int
    decreases s.len(),
{
    if s.len() == 0 {
        0
    } else if s[0] == '.' {
        0
    } else {
        1 + dot_pos(s.skip(1))
    }
}

/// `dot_pos` really is the position of the first dot.
pub proof fn lemma_dot_pos(s: Seq<char>)
    ensures
        0 <= dot_pos(s) <= s.len(),
        dot_pos(s) < s.len() ==> s[dot_pos(s)] == '.',
        forall|i: int| 0 <= i < dot_pos(s) ==> s[i] != '.',
    decreases s.len(),
{
    if s.len() > 0 && s[0] != '.' {
        lemma_dot_pos(s.skip(1));
        assert(forall|i: int| 1 <= i < s.len() ==> s[i] == s.skip(1)[i - 1]);
    }
}

/// The first dot comes after any dot-free prefix.
pub proof fn lemma_dot_pos_ge(s: Seq<char>, k: int)
    requires
        0 <= k <= s.len(),
        forall|i: int| 0 <= i < k ==> s[i] != '.',
    ensures
        dot_pos(s) >= k,
    decreases k,
{
    if k > 0 {
        assert(s[0] != '.');
        assert(forall|i: int| 0 <= i < k - 1 ==> s.skip(1)[i] == s[i + 1]);
        lemma_dot_pos_ge(s.skip(1), k - 1);
        assert(dot_pos(s) == 1 + dot_pos(s.skip(1)));
    } else {
        lemma_dot_pos(s);
    }
}

/// A well-formed decimal token body: one or more integer digits, optionally
/// followed by a dot and one or more fraction digits.
pub open spec fn body_ok(t: Seq<char>) -> bool {
    let dp = dot_pos(t);
    &&& dp >= 1
    &&& all_digits(t.take(dp))
    &&& (dp == t.len() || (dp + 1 < t.len() && all_digits(t.skip(dp + 1))))
}

/// Micro-units denoted by a fraction-digit string, rounded half-up to six
/// places: only the seventh digit can tip the value upward.
pub open spec fn frac_micro(fr: Seq<char>) -> int {
    if fr.len() <= 6 {
        digits_val(fr) * pow10((6 - fr.len()) as nat)
    } else {
        digits_val(fr.take(6)) + if char_digit(fr[6]) >= 5 { 1int } else { 0int }
    }
}

/// Micro-units denoted by a token body (without sign).
pub open spec fn body_micro(t: Seq<char>) -> int {
    let dp = dot_pos(t);
    if dp == t.len() {
        digits_val(t) * (MICRO_PER_UNIT as int)
    } else {
        digits_val(t.take(dp)) * (MICRO_PER_UNIT as int) + frac_micro(t.skip(dp + 1))
    }
}

/// Micro-units denoted by a decimal token, if it is well formed and in
/// range: an optional leading minus sign, then a body.  A fraction beyond
/// six digits is rounded half-up to the sixth place.
pub open spec fn spec_parse_decimal(s: Seq<char>) -> Option<int> {
    let neg = s.len() > 0 && s[0] == '-';
    let t = if neg { s.skip(1) } else { s };
    if !body_ok(t) {
        None
    } else {
        let m = body_micro(t);
        if m > MAX_MICRO as int {
            None
        } else if neg {
            Some(-m)
        } else {
            Some(m)
        }
    }
}

/// A token's denoted value, when there is one, lies within `MAX_MICRO`
/// in magnitude.
pub proof fn lemma_spec_parse_in_range(s: Seq<char>)
    ensures
        spec_parse_decimal(s) matches Some(m)
            ==> -(MAX_MICRO as int) <= m <= MAX_MICRO as int,
{
    let neg = s.len() > 0 && s[0] == '-';
    let t = if neg { s.skip(1) } else { s };
    if spec_parse_decimal(s) is Some {
        assert(body_ok(t));
        let dp = dot_pos(t);
        lemma_dot_pos(t);
        assert(body_micro(t) >= 0) by {
            if dp == t.len() {
                assert(t.take(dp) =~= t);
                lemma_digits_val_nonneg(t);
                vstd::arithmetic::mul::lemma_mul_nonnegative(digits_val(t), MICRO_PER_UNIT as int);
            } else {
                lemma_digits_val_nonneg(t.take(dp));
                lemma_frac_micro_nonneg(t.skip(dp + 1));
                vstd::arithmetic::mul::lemma_mul_nonnegative(
                    digits_val(t.take(dp)), MICRO_PER_UNIT as int);
            }
        }
    }
}

/// Canonical rendering of `m` micro-units: optional sign, integer digits
/// without leading zeros, a dot, and exactly six fraction digits.
pub open spec fn spec_render_micro(m: int) -> Seq<char> {
    let mag = if m < 0 { -m } else { m };
    let sign: Seq<char> = if m < 0 { seq!['-'] } else { Seq::empty() };
    sign + digits_spec((mag / (MICRO_PER_UNIT as int)) as nat) + seq!['.']
        + fixed_digits_spec((mag % (MICRO_PER_UNIT as int)) as nat, 6)
}

/// In a digit-then-dot concatenation, the first dot is right after the digits.
proof fn lemma_dot_pos_after_digits(u: Seq<char>, rest: Seq<char>)
    requires
        all_digits(u),
        rest.len() > 0,
        rest[0] == '.',
    ensures
        dot_pos(u + rest) == u.len(),
{
    let t = u + rest;
    assert(forall|i: int| 0 <= i < u.len() ==> t[i] == u[i]);
    assert(forall|i: int| 0 <= i < u.len() ==> t[i] != '.') by {
        assert(forall|i: int| 0 <= i < u.len() ==> is_digit_char(#[trigger] u[i]));
    }
    lemma_dot_pos_ge(t, u.len() as int);
    assert(t[u.len() as int] == '.');
    lemma_dot_pos(t);
    if dot_pos(t) > u.len() {
        assert(t[u.len() as int] != '.');
    }
}

/// Round trip: parsing the canonical rendering of an in-range value gives
/// back exactly that value.  Together with the rounding built into
/// `spec_parse_decimal`, this pins down the numeric behaviour of the token
/// format: conversion to fixed point and back loses nothing beyond the
/// documented half-up rounding at the sixth fractional place.
#[verifier::rlimit(50)]
pub proof fn lemma_parse_render_round_trip(m: int)
    requires
        -(MAX_MICRO as int) <= m <= MAX_MICRO as int,
    ensures
        spec_parse_decimal(spec_render_micro(m)) == Some(m),
{
    let mag = if m < 0 { -m } else { m };
    let ip = (mag / (MICRO_PER_UNIT as int)) as nat;
    let fp = (mag % (MICRO_PER_UNIT as int)) as nat;
    let ids = digits_spec(ip);
    let fds = fixed_digits_spec(fp, 6);
    let body = ids + seq!['.'] + fds;
    let s = spec_render_micro(m);

    lemma_digits_all_digits(ip);
    lemma_fixed_digits_all_digits(fp, 6);

    assert((ids + seq!['.']) + fds =~= ids + (seq!['.'] + fds));
    lemma_dot_pos_after_digits(ids, seq!['.'] + fds);
    let dp = dot_pos(body);
    assert(dp == ids.len());
    assert(body.take(dp) =~= ids);
    assert(body.skip(dp + 1) =~= fds);

    assert(body_ok(body));

    lemma_digits_val_of_digits(ip);
    assert(pow10(6) == 1_000_000) by {
        reveal_with_fuel(pow10, 7);
    }
    lemma_digits_val_of_fixed(fp, 6);
    assert(MICRO_PER_UNIT as int == 1_000_000);
    assert(fds.len() == 6);
    assert(pow10(0) == 1);
    assert(digits_val(fds) == fp);
    assert((6 - fds.len()) as nat == 0nat);
    assert(frac_micro(fds) == digits_val(fds) * pow10((6 - fds.len()) as nat));
    assert(frac_micro(fds) == fp);
    assert(dp < body.len());
    assert(digits_val(body.take(dp)) == ip);
    assert(frac_micro(body.skip(dp + 1)) == fp);
    assert(body_micro(body) == ip * 1_000_000 + fp);
    assert(ip * 1_000_000 + fp == mag) by {
        vstd::arithmetic::div_mod::lemma_fundamental_div_mod(mag, 1_000_000);
    }

    if m < 0 {
        assert(s =~= seq!['-'] + body);
        assert(s[0] == '-');
        assert(s.skip(1) =~= body);
        assert(spec_parse_decimal(s) == Some(-mag));
    } else {
        assert(s =~= body);
        assert(s.len() > 0);
        assert(s[0] == ids[0]);
        assert(is_digit_char(ids[0]));
        assert(s[0] != '-');
        assert(spec_parse_decimal(s) == Some(mag));
    }
}

/// Ten to a power is positive.
pub proof fn lemma_pow10_pos(e: nat)
    ensures
        pow10(e) >= 1,
    decreases e,
{
    if e > 0 {
        lemma_pow10_pos((e - 1) as nat);
    }
}

/// Powers of ten multiply by adding exponents.
pub proof fn lemma_pow10_adds(a: nat, b: nat)
    ensures
        pow10(a) * pow10(b) == pow10((a + b) as nat),
    decreases a,
{
    if a == 0 {
        assert(pow10(0) == 1);
    } else {
        lemma_pow10_adds((a - 1) as nat, b);
        assert(pow10(a) * pow10(b) == 10 * (pow10((a - 1) as nat) * pow10(b)))
            by (nonlinear_arith)
            requires
                pow10(a) == 10 * pow10((a - 1) as nat),
        ;
        assert(pow10((a + b) as nat) == 10 * pow10((a + b - 1) as nat));
    }
}

/// Powers of ten grow with the exponent.
pub proof fn lemma_pow10_mono(a: nat, b: nat)
    requires
        a <= b,
    ensures
        pow10(a) <= pow10(b),
    decreases b,
{
    if a < b {
        lemma_pow10_mono(a, (b - 1) as nat);
        lemma_pow10_pos((b - 1) as nat);
    }
}

/// A digit string of length `w` denotes less than `10^w`.
pub proof fn lemma_digits_val_bound(s: Seq<char>)
    requires
        all_digits(s),
    ensures
        0 <= digits_val(s) < pow10(s.len()),
    decreases s.len(),
{
    if s.len() > 0 {
        assert(all_digits(s.drop_last())) by {
            assert(forall|i: int| 0 <= i < s.len() - 1 ==> s.drop_last()[i] == s[i]);
        }
        lemma_digits_val_bound(s.drop_last());
        assert(is_digit_char(s.last()));
        assert(pow10(s.len()) == 10 * pow10((s.len() - 1) as nat));
    }
}

/// A fraction-digit string never denotes a negative number of micro-units.
pub proof fn lemma_frac_micro_nonneg(fr: Seq<char>)
    requires
        all_digits(fr),
    ensures
        frac_micro(fr) >= 0,
{
    if fr.len() <= 6 {
        lemma_digits_val_nonneg(fr);
        lemma_pow10_pos((6 - fr.len()) as nat);
        vstd::arithmetic::mul::lemma_mul_nonnegative(digits_val(fr), pow10((6 - fr.len()) as nat));
    } else {
        assert(all_digits(fr.take(6))) by {
            assert(forall|i: int| 0 <= i < 6 ==> fr.take(6)[i] == fr[i]);
        }
        lemma_digits_val_nonneg(fr.take(6));
    }
}

/// If a digit-only prefix of the body already denotes a billion or more,
/// the whole body is out of range.
proof fn lemma_body_micro_large(t: Seq<char>, j: int)
    requires
        body_ok(t),
        0 <= j <= t.len(),
        forall|i: int| 0 <= i < j ==> is_digit_char(#[trigger] t[i]),
        digits_val(t.take(j)) >= 1_000_000_000,
    ensures
        body_micro(t) > MAX_MICRO as int,
{
    let dp = dot_pos(t);
    lemma_dot_pos(t);
    assert(forall|i: int| 0 <= i < j ==> t[i] != '.');
    lemma_dot_pos_ge(t, j);
    assert(t.take(dp).take(j) =~= t.take(j));
    lemma_digits_val_prefix_le(t.take(dp), j);
    let y = digits_val(t.take(dp));
    assert(y >= 1_000_000_000);
    if dp == t.len() {
        assert(t.take(dp) =~= t);
        assert(y * 1_000_000 >= 1_000_000_000_000_000) by (nonlinear_arith)
            requires y >= 1_000_000_000;
    } else {
        lemma_frac_micro_nonneg(t.skip(dp + 1));
        assert(y * 1_000_000 >= 1_000_000_000_000_000) by (nonlinear_arith)
            requires y >= 1_000_000_000;
    }
}

/// A body with a character that is neither a digit nor a dot, after a
/// digit-only prefix, is malformed.
proof fn lemma_body_bad_char(t: Seq<char>, j: int)
    requires
        0 <= j < t.len(),
        forall|i: int| 0 <= i < j ==> is_digit_char(#[trigger] t[i]),
        !is_digit_char(t[j]),
        t[j] != '.',
    ensures
        !body_ok(t),
{
    if body_ok(t) {
        let dp = dot_pos(t);
        lemma_dot_pos(t);
        assert(forall|i: int| 0 <= i < j ==> t[i] != '.');
        lemma_dot_pos_ge(t, j);
        if dp == j {
            assert(t[j] == '.');
        } else {
            assert(j < dp);
            assert(t.take(dp)[j] == t[j]);
        }
    }
}

/// Exponentiation by cases, executable: `10^e` for small `e`.
fn pow10_u64(e: usize) -> (r: u64)
    requires
        e <= 6,
    ensures
        r == pow10(e as nat),
{
    proof {
        reveal_with_fuel(pow10, 8);
    }
    if e == 0 { 1 }
    else if e == 1 { 10 }
    else if e == 2 { 100 }
    else if e == 3 { 1_000 }
    else if e == 4 { 10_000 }
    else if e == 5 { 100_000 }
    else { 1_000_000 }
}

/// Appends one digit character.
fn push_digit(s: &mut String, d: u128)
    requires
        d < 10,
    ensures
        final(s)@ == old(s)@ + seq![digit_char(d as int)],
{
    if d == 0 { proof { reveal_strlit("0"); } s.append("0"); }
    else if d == 1 { proof { reveal_strlit("1"); } s.append("1"); }
    else if d == 2 { proof { reveal_strlit("2"); } s.append("2"); }
    else if d == 3 { proof { reveal_strlit("3"); } s.append("3"); }
    else if d == 4 { proof { reveal_strlit("4"); } s.append("4"); }
    else if d == 5 { proof { reveal_strlit("5"); } s.append("5"); }
    else if d == 6 { proof { reveal_strlit("6"); } s.append("6"); }
    else if d == 7 { proof { reveal_strlit("7"); } s.append("7"); }
    else if d == 8 { proof { reveal_strlit("8"); } s.append("8"); }
    else { proof { reveal_strlit("9"); } s.append("9"); }
}

/// Appends the usual rendering of `n`.
pub(crate) fn push_digits(s: &mut String, n: u128)
    ensures
        final(s)@ == old(s)@ + digits_spec(n as nat),
    decreases n,
{
    if n < 10 {
        push_digit(s, n);
    } else {
        push_digits(s, n / 10);
        push_digit(s, n % 10);
        assert(s@ =~= old(s)@ + digits_spec(n as nat));
    }
}

/// Appends the zero-padded `w`-digit rendering of `n`.
fn push_fixed_digits(s: &mut String, n: u128, w: usize)
    ensures
        final(s)@ == old(s)@ + fixed_digits_spec(n as nat, w as nat),
    decreases w,
{
    if w == 0 {
        assert(old(s)@ + fixed_digits_spec(n as nat, 0) =~= old(s)@);
    } else {
        push_fixed_digits(s, n / 10, w - 1);
        push_digit(s, n % 10);
        assert(s@ =~= old(s)@ + fixed_digits_spec(n as nat, w as nat));
    }
}

/// Half-up rounding of a micro-unit count to two decimal places
/// (the nearest whole number of hundredths, ties away from zero).
pub open spec fn spec_round2(m: int) -> int {
    if m >= 0 {
        ((m + 5_000) / 10_000) * 10_000
    } else {
        -(((-m + 5_000) / 10_000) * 10_000)
    }
}

/// Canonical rendering of a value rounded half-up to two decimal places:
/// optional sign, integer digits, a dot, exactly two fraction digits.
pub open spec fn spec_render_2dp(m: int) -> Seq<char> {
    let r = spec_round2(m);
    let mag = if r < 0 { -r } else { r };
    let sign: Seq<char> = if r < 0 { seq!['-'] } else { Seq::empty() };
    sign + digits_spec((mag / (MICRO_PER_UNIT as int)) as nat) + seq!['.']
        + fixed_digits_spec(((mag % (MICRO_PER_UNIT as int)) / 10_000) as nat, 2)
}

/// Magnitude bound under which every aggregate this crate forms stays:
/// comfortably above any sum of in-range weights that fits in memory.
pub const MAX_AGG: i128 = 100_000_000_000_000_000_000_000_000_000_000_000;

impl Decimal {
    /// The value is small enough in magnitude to have come from a token.
    pub open spec fn in_token_range(self) -> bool {
        -(MAX_MICRO as int) <= self.micro <= MAX_MICRO as int
    }

    /// The value is within the aggregate bound.
    pub open spec fn in_agg_range(self) -> bool {
        -(MAX_AGG as int) <= self.micro <= MAX_AGG as int
    }

    /// Reads a fixed-point decimal token.  Returns the denoted number of
    /// micro-units exactly as `spec_parse_decimal` describes: `None` for a
    /// malformed or out-of-range token (including non-numeric spellings
    /// such as "NaN" or "Infinity"), and otherwise the token's value with
    /// any fraction beyond six digits rounded half-up.
    pub fn parse(s: &str) -> (r: Option<Decimal>)
        ensures
            ({
                let p = spec_parse_decimal(s@);
                match r {
                    Some(d) => p == Some(d.micro as int) && d.in_token_range(),
                    None => p is None,
                }
            }),
    {
        let n = s.unicode_len();
        let neg = n > 0 && s.get_char(0) == '-';
        let start: usize = if neg { 1 } else { 0 };
        let ghost t = if neg { s@.skip(1) } else { s@ };
        proof {
            assert(t =~= s@.skip(start as int));
        }

        // Integer part.
        let mut i = start;
        let mut int_val: u64 = 0;
        loop
            invariant
                n == s@.len(),
                start <= i <= n,
                start == if neg { 1int } else { 0int },
                neg == (s@.len() > 0 && s@[0] == '-'),
                t == if neg { s@.skip(1) } else { s@ },
                t == s@.skip(start as int),
                forall|k: int| 0 <= k < i - start ==> is_digit_char(#[trigger] t[k]),
                int_val == digits_val(t.take(i - start)),
                int_val <= 999_999_999,
            ensures
                start <= i <= n,
                i == n || !is_digit_char(t[i - start]),
                forall|k: int| 0 <= k < i - start ==> is_digit_char(#[trigger] t[k]),
                int_val == digits_val(t.take(i - start)),
                int_val <= 999_999_999,
            decreases n - i,
        {
            if i == n {
                break;
            }
            let c = s.get_char(i);
            proof {
                assert(t[i - start] == s@[i as int]);
            }
            if c < '0' || c > '9' {
                break;
            }
            let d = (c as u32 - 48) as u64;
            let nv = int_val * 10 + d;
            proof {
                assert(is_digit_char(t[i - start]));
                assert(char_digit(t[i - start]) == d);
                lemma_digits_val_take_step(t, i - start);
                assert(forall|k: int| 0 <= k < i - start ==> t.take(i - start)[k] == t[k]);
            }
            if nv > 999_999_999 {
                proof {
                    let j = i - start + 1;
                    assert(forall|k: int| 0 <= k < j ==> is_digit_char(#[trigger] t[k]));
                    assert(digits_val(t.take(j)) == nv);
                    lemma_digits_val_nonneg(t.take(j));
                    if body_ok(t) {
                        lemma_body_micro_large(t, j);
                    }
                }
                return None;
            }
            int_val = nv;
            i = i + 1;
        }

        let ghost icount = i - start;
        proof {
            assert(forall|k: int| 0 <= k < icount ==> t.take(icount)[k] == t[k]);
            assert(all_digits(t.take(icount)));
        }

        if i == start {
            // No integer digit: the body is empty or starts badly.
            proof {
                if body_ok(t) {
                    lemma_dot_pos(t);
                    assert(dot_pos(t) >= 1);
                    assert(t.len() > 0);
                    assert(t.take(dot_pos(t))[0] == t[0]);
                    assert(is_digit_char(t[0]));
                    assert(i < n);
                }
            }
            return None;
        }

        if i == n {
            // Integer-only token.
            proof {
                assert(t.take(icount) =~= t);
                assert(forall|k: int| 0 <= k < t.len() ==> t[k] != '.');
                lemma_dot_pos_ge(t, t.len() as int);
                lemma_dot_pos(t);
                assert(dot_pos(t) == t.len());
                assert(body_ok(t));
                assert(body_micro(t) == int_val * 1_000_000);
            }
            let micro = int_val * 1_000_000;
            let m = micro as i128;
            let value = if neg { Decimal { micro: -m } } else { Decimal { micro: m } };
            return Some(value);
        }

        proof {
            assert(t[icount] == s@[i as int]);
            assert(!is_digit_char(t[icount]));
        }
        let c = s.get_char(i);
        if c != '.' {
            proof {
                assert(t[icount] != '.');
                lemma_body_bad_char(t, icount);
            }
            return None;
        }

        // The dot is the first one in the body.
        proof {
            assert(t[icount] == '.');
            assert(forall|k: int| 0 <= k < icount ==> t[k] != '.');
            lemma_dot_pos_ge(t, icount);
            lemma_dot_pos(t);
            if dot_pos(t) > icount {
                assert(t[icount] != '.');
            }
            assert(dot_pos(t) == icount);
        }

        i = i + 1;
        let fstart = i;
        let ghost fr = t.skip(icount + 1);
        proof {
            assert(fr =~= s@.skip(fstart as int));
            assert(fr.len() == n - fstart);
        }

        // Fraction part.
        let mut fval: u64 = 0;
        let mut round_up = false;
        loop
            invariant
                n == s@.len(),
                fstart <= i <= n,
                start == if neg { 1int } else { 0int },
                neg == (s@.len() > 0 && s@[0] == '-'),
                t == if neg { s@.skip(1) } else { s@ },
                icount == fstart - start - 1,
                1 <= icount,
                dot_pos(t) == icount,
                t.len() == n - start,
                fr == t.skip(icount + 1),
                fr == s@.skip(fstart as int),
                fr.len() == n - fstart,
                forall|k: int| 0 <= k < i - fstart ==> is_digit_char(#[trigger] fr[k]),
                i - fstart <= 6 ==> fval == digits_val(fr.take(i - fstart))
                    && fval < pow10((i - fstart) as nat),
                i - fstart > 6 ==> fval == digits_val(fr.take(6)),
                round_up == (i - fstart > 6 && char_digit(fr[6]) >= 5),
                fval <= 999_999,
            ensures
                i == n,
                forall|k: int| 0 <= k < i - fstart ==> is_digit_char(#[trigger] fr[k]),
                n - fstart <= 6 ==> fval == digits_val(fr.take(n - fstart))
                    && fval < pow10((n - fstart) as nat),
                n - fstart > 6 ==> fval == digits_val(fr.take(6)),
                round_up == (n - fstart > 6 && char_digit(fr[6]) >= 5),
                fval <= 999_999,
            decreases n - i,
        {
            if i == n {
                break;
            }
            let c = s.get_char(i);
            proof {
                assert(fr[i - fstart] == s@[i as int]);
            }
            if c < '0' || c > '9' {
                // A fraction character that is not a digit: malformed body.
                proof {
                    assert(!is_digit_char(fr[i - fstart]));
                    assert(!all_digits(fr));
                    assert(t.skip(dot_pos(t) + 1) == fr);
                    assert(!body_ok(t));
                }
                return None;
            }
            let d = (c as u32 - 48) as u64;
            let k = i - fstart;
            proof {
                assert(is_digit_char(fr[k as int]));
                assert(char_digit(fr[k as int]) == d);
                lemma_digits_val_take_step(fr, k as int);
                assert(forall|j: int| 0 <= j < k ==> fr.take(k as int)[j] == fr[j]);
            }
            if k < 6 {
                proof {
                    reveal_with_fuel(pow10, 8);
                    assert(pow10((k + 1) as nat) == 10 * pow10(k as nat));
                    lemma_pow10_mono((k + 1) as nat, 6);
                }
                fval = fval * 10 + d;
            } else if k == 6 {
                round_up = d >= 5;
                proof {
                    assert(fr.take(7).take(6) =~= fr.take(6));
                }
            } else {
                proof {
                    assert(fr.take(k + 1).take(6) =~= fr.take(6));
                }
            }
            i = i + 1;
        }

        let fcount = n - fstart;
        proof {
            assert(forall|k: int| 0 <= k < fcount ==> fr.take(fcount as int)[k] == fr[k]);
            assert(all_digits(fr));
        }
        if fcount == 0 {
            // A trailing dot with no fraction digits: malformed body.
            proof {
                assert(dot_pos(t) == icount);
                assert(icount < t.len());
                assert(!(icount + 1 < t.len()));
                assert(!body_ok(t));
            }
            return None;
        }

        proof {
            assert(dot_pos(t) >= 1);
            assert(icount + 1 < t.len());
            assert(body_ok(t));
        }

        let fm: u64;
        if fcount <= 6 {
            let p = pow10_u64(6 - fcount);
            proof {
                reveal_with_fuel(pow10, 8);
                assert(p <= 1_000_000);
                assert(fval * p <= 999_999_000_000) by (nonlinear_arith)
                    requires fval <= 999_999, p <= 1_000_000;
            }
            fm = fval * p;
            proof {
                assert(fr.take(fcount as int) =~= fr);
                assert(fval == digits_val(fr));
                assert(frac_micro(fr) == digits_val(fr) * pow10((6 - fr.len()) as nat));
                assert(fm == frac_micro(fr));
                lemma_digits_val_bound(fr);
                assert(fm < pow10(fr.len()) * pow10((6 - fcount) as nat)) by (nonlinear_arith)
                    requires
                        fm == digits_val(fr) * pow10((6 - fcount) as nat),
                        digits_val(fr) < pow10(fr.len()),
                        pow10((6 - fcount) as nat) >= 1;
                assert(pow10(fr.len()) * pow10((6 - fcount) as nat) == pow10(6)) by {
                    lemma_pow10_adds(fr.len(), (6 - fcount) as nat);
                }
                assert(fm <= 1_000_000);
            }
        } else {
            fm = fval + if round_up { 1 } else { 0 };
            proof {
                assert(fm == frac_micro(fr));
                assert(fm <= 1_000_000);
            }
        }
        proof {
            assert(body_micro(t) == int_val * 1_000_000 + fm);
        }

        let micro = int_val * 1_000_000 + fm;
        if micro > 999_999_999_999_999 {
            return None;
        }
        let m = micro as i128;
        let value = if neg { Decimal { micro: -m } } else { Decimal { micro: m } };
        Some(value)
    }

    /// Renders the value as a canonical decimal token: optional sign,
    /// integer digits, a dot, exactly six fraction digits.
    pub fn to_decimal_string(&self) -> (r: String)
        requires
            self.in_agg_range(),
        ensures
            r@ == spec_render_micro(self.micro as int),
    {
        let mut s = String::new();
        let mag: u128;
        if self.micro < 0 {
            proof {
                reveal_strlit("-");
            }
            s.append("-");
            mag = (-self.micro) as u128;
        } else {
            mag = self.micro as u128;
        }
        push_digits(&mut s, mag / 1_000_000);
        proof {
            reveal_strlit(".");
        }
        s.append(".");
        push_fixed_digits(&mut s, mag % 1_000_000, 6);
        proof {
            reveal_strlit("-");
            reveal_strlit(".");
            assert("-"@ =~= seq!['-']);
            assert("."@ =~= seq!['.']);
            let m = self.micro as int;
            assert(mag == if m < 0 { -m } else { m });
            assert(s@ =~= spec_render_micro(m));
        }
        s
    }

    /// Rounds half-up to two decimal places, ties away from zero.
    pub fn rounded2(&self) -> (r: Decimal)
        requires
            self.in_agg_range(),
        ensures
            r.micro == spec_round2(self.micro as int),
            r.in_agg_range(),
            r.micro % 10_000 == 0,
    {
        if self.micro >= 0 {
            let q = ((self.micro as u128) + 5_000) / 10_000 * 10_000;
            Decimal { micro: q as i128 }
        } else {
            let mag = (-self.micro) as u128;
            let q = (mag + 5_000) / 10_000 * 10_000;
            Decimal { micro: -(q as i128) }
        }
    }

    /// Renders the value rounded half-up to two decimal places: optional
    /// sign, integer digits, a dot, exactly two fraction digits.
    pub fn to_string_2dp(&self) -> (out: String)
        requires
            self.in_agg_range(),
        ensures
            out@ == spec_render_2dp(self.micro as int),
    {
        let r = self.rounded2();
        let mut s = String::new();
        let mag: u128;
        if r.micro < 0 {
            proof {
                reveal_strlit("-");
            }
            s.append("-");
            mag = (-r.micro) as u128;
        } else {
            mag = r.micro as u128;
        }
        push_digits(&mut s, mag / 1_000_000);
        proof {
            reveal_strlit(".");
        }
        s.append(".");
        push_fixed_digits(&mut s, mag % 1_000_000 / 10_000, 2);
        proof {
            reveal_strlit("-");
            reveal_strlit(".");
            assert("-"@ =~= seq!['-']);
            assert("."@ =~= seq!['.']);
            let m = spec_round2(self.micro as int);
            assert(r.micro == m);
            assert(mag == if m < 0 { -m } else { m });
            assert(s@ =~= spec_render_2dp(self.micro as int));
        }
        s
    }
}

} // verus!
