//! Numbers as they are written in a beatmap: whole numbers, and the notation
//! of decimal values.

use crate::text::{find, lemma_find};
use vstd::prelude::*;

verus! {

/// The digit `0`.
pub const ZERO: u8 = 48;

/// The digit `5`.
pub const FIVE: u8 = 53;

/// The digit `9`.
pub const NINE: u8 = 57;

/// The sign `+`.
pub const PLUS: u8 = 43;

/// The sign `-`.
pub const MINUS: u8 = 45;

/// The decimal point.
pub const POINT: u8 = 46;

/// The mark of an exponent in lower case.
pub const EXPONENT: u8 = 101;

/// The mark of an exponent in upper case.
pub const EXPONENT_UPPER: u8 = 69;

/// One of the ten digits.
pub open spec fn is_digit(b: u8) -> bool {
    ZERO <= b <= NINE
}

/// `+` or `-`.
pub open spec fn is_sign(b: u8) -> bool {
    b == PLUS || b == MINUS
}

/// Nothing but digits.
pub open spec fn all_digits(s: Seq<u8>) -> bool {
    forall|i: int| 0 <= i < s.len() ==> is_digit(#[trigger] s[i])
}

/// One digit or more, and nothing else.
pub open spec fn is_number(s: Seq<u8>) -> bool {
    s.len() > 0 && all_digits(s)
}

/// The number that a run of decimal digits denotes.
pub open spec fn digits_value(s: Seq<u8>) -> nat
    decreases s.len(),
{
    if s.len() == 0 {
        0
    } else {
        digits_value(s.drop_last()) * 10 + (s.last() - ZERO) as nat
    }
}

/// `s` without its leading `+` or `-`, if it has one.
pub open spec fn strip_sign(s: Seq<u8>) -> Seq<u8> {
    if s.len() > 0 && is_sign(s[0]) {
        s.subrange(1, s.len() as int)
    } else {
        s
    }
}

/// Whether `s` starts with `-`.
pub open spec fn is_negative(s: Seq<u8>) -> bool {
    s.len() > 0 && s[0] == MINUS
}

/// The magnitude with its sign.
pub open spec fn signed(negative: bool, magnitude: int) -> int {
    if negative {
        -magnitude
    } else {
        magnitude
    }
}

/// The value of a whole number in decimal notation: an optional sign, then
/// one digit or more. `None` for any other text.
pub open spec fn int_text_value(s: Seq<u8>) -> Option<int> {
    if is_number(strip_sign(s)) {
        Some(signed(is_negative(s), digits_value(strip_sign(s)) as int))
    } else {
        None
    }
}

/// What `parse_i32` returns: the value of the text where it is a whole number
/// that fits in 32 bits.
pub open spec fn parse_i32_spec(s: Seq<u8>) -> Option<i32> {
    match int_text_value(s) {
        Some(v) => if i32::MIN <= v <= i32::MAX {
            Some(v as i32)
        } else {
            None
        },
        None => None,
    }
}

/// The part of `body` before its first point.
pub open spec fn whole_part(body: Seq<u8>) -> Seq<u8> {
    body.subrange(0, find(body, POINT))
}

/// The part of `body` behind its first point; empty where it has no point.
pub open spec fn fraction_part(body: Seq<u8>) -> Seq<u8> {
    if find(body, POINT) < body.len() {
        body.subrange(find(body, POINT) + 1, body.len() as int)
    } else {
        Seq::empty()
    }
}

/// Digits with at most one point among them, before them or behind them, and
/// at least one digit.
pub open spec fn is_decimal(body: Seq<u8>) -> bool {
    &&& all_digits(whole_part(body))
    &&& all_digits(fraction_part(body))
    &&& whole_part(body).len() + fraction_part(body).len() > 0
}

/// The 32-bit value nearest to `v`.
pub open spec fn clamp_i32(v: int) -> i32 {
    if v < i32::MIN {
        i32::MIN
    } else if v > i32::MAX {
        i32::MAX
    } else {
        v as i32
    }
}

/// The lower-case form of an upper-case letter; any other byte itself.
pub open spec fn lower(b: u8) -> u8 {
    if 65 <= b <= 90 {
        (b + 32) as u8
    } else {
        b
    }
}

/// `s` with every upper-case letter in lower case.
pub open spec fn lowered(s: Seq<u8>) -> Seq<u8> {
    Seq::new(s.len(), |i: int| lower(s[i]))
}

/// `inf`, `infinity` or `nan`, in either case of each letter.
pub open spec fn is_special(body: Seq<u8>) -> bool {
    ||| lowered(body) == seq![105u8, 110, 102]
    ||| lowered(body) == seq![105u8, 110, 102, 105, 110, 105, 116, 121]
    ||| lowered(body) == seq![110u8, 97, 110]
}

/// The part of `body` before its exponent mark (`e` or `E`).
pub open spec fn mantissa_part(body: Seq<u8>) -> Seq<u8> {
    body.subrange(0, find(lowered(body), EXPONENT))
}

/// The part of `body` behind its exponent mark; `None` where it has no mark.
pub open spec fn exponent_part(body: Seq<u8>) -> Option<Seq<u8>> {
    if find(lowered(body), EXPONENT) < body.len() {
        Some(body.subrange(find(lowered(body), EXPONENT) + 1, body.len() as int))
    } else {
        None
    }
}

/// The notation of a decimal value: an optional sign, then either one of the
/// words `inf`, `infinity`, `nan`, or a decimal with an optional exponent (the
/// mark, an optional sign, one digit or more).
pub open spec fn is_float_text(s: Seq<u8>) -> bool {
    let body = strip_sign(s);
    ||| is_special(body)
    ||| {
        &&& is_decimal(mantissa_part(body))
        &&& match exponent_part(body) {
            Some(e) => is_number(strip_sign(e)),
            None => true,
        }
    }
}

/// The decimal digits of `n`, without leading zeros.
pub open spec fn nat_text(n: nat) -> Seq<u8>
    decreases n,
{
    if n < 10 {
        seq![(48 + n) as u8]
    } else {
        nat_text(n / 10).push((ZERO + n % 10) as u8)
    }
}

/// The decimal notation of `v`: a `-` for a negative value, then its digits.
pub open spec fn int_text(v: int) -> Seq<u8> {
    if v < 0 {
        seq![45u8] + nat_text((-v) as nat)
    } else {
        nat_text(v as nat)
    }
}

/// The digits written for `n` are a number, and denote `n`.
pub proof fn lemma_nat_text(n: nat)
    ensures
        is_number(nat_text(n)),
        digits_value(nat_text(n)) == n,
    decreases n,
{
    if n < 10 {
        let s = nat_text(n);
        assert(s.drop_last().len() == 0);
        assert(digits_value(s.drop_last()) == 0);
    } else {
        lemma_nat_text(n / 10);
        let s = nat_text(n);
        assert(s.drop_last() == nat_text(n / 10));
    }
}

/// Reading back what was written gives the value that was written.
pub proof fn lemma_int_text_value(v: int)
    ensures
        int_text_value(int_text(v)) == Some(v),
{
    let s = int_text(v);
    if v < 0 {
        lemma_nat_text((-v) as nat);
        assert(strip_sign(s) == nat_text((-v) as nat));
    } else {
        lemma_nat_text(v as nat);
        assert(is_digit(s[0]));
        assert(strip_sign(s) == s);
    }
}

/// The upper bound at which `digits_capped` stops counting.
pub const DIGITS_CAP: u64 = 4294967296;

/// `n`, or the upper bound where `n` is that large or larger.
pub open spec fn capped(n: nat) -> u64 {
    if n < DIGITS_CAP {
        n as u64
    } else {
        DIGITS_CAP
    }
}

/// Whether the bytes of `s` from `from` up to `to` are all digits.
pub(crate) fn digits_in(s: &[u8], from: usize, to: usize) -> (r: bool)
    requires
        from <= to <= s@.len(),
    ensures
        r == all_digits(s@.subrange(from as int, to as int)),
{
    let mut i: usize = from;
    while i < to
        invariant
            from <= i <= to <= s@.len(),
            forall|j: int| from <= j < i ==> is_digit(s@[j]),
        decreases to - i,
    {
        if s[i] < ZERO || s[i] > NINE {
            assert(s@.subrange(from as int, to as int)[i - from] == s@[i as int]);
            return false;
        }
        i += 1;
    }
    assert forall|j: int| 0 <= j < to - from implies is_digit(
        #[trigger] s@.subrange(from as int, to as int)[j],
    ) by {
        assert(s@.subrange(from as int, to as int)[j] == s@[from + j]);
    }
    true
}

/// The value of the digits of `s` from `from` up to `to`, or `DIGITS_CAP`
/// where the value is that large or larger.
pub(crate) fn digits_capped(s: &[u8], from: usize, to: usize) -> (r: u64)
    requires
        from <= to <= s@.len(),
        all_digits(s@.subrange(from as int, to as int)),
    ensures
        r == capped(digits_value(s@.subrange(from as int, to as int))),
{
    let mut acc: u64 = 0;
    let mut i: usize = from;
    assert(s@.subrange(from as int, from as int).len() == 0);
    while i < to
        invariant
            from <= i <= to <= s@.len(),
            all_digits(s@.subrange(from as int, to as int)),
            acc == capped(digits_value(s@.subrange(from as int, i as int))),
        decreases to - i,
    {
        proof {
            let next = s@.subrange(from as int, i + 1);
            assert(next.drop_last() == s@.subrange(from as int, i as int));
            assert(next.last() == s@[i as int]);
            assert(s@.subrange(from as int, to as int)[i - from] == s@[i as int]);
            assert(is_digit(s@[i as int]));
        }
        let d: u64 = (s[i] - ZERO) as u64;
        acc = acc * 10 + d;
        if acc > DIGITS_CAP {
            acc = DIGITS_CAP;
        }
        i += 1;
    }
    acc
}

/// The position of the first `b` at or behind `from` and before `to`, or `to`.
pub(crate) fn find_in(s: &[u8], from: usize, to: usize, b: u8) -> (k: usize)
    requires
        from <= to <= s@.len(),
    ensures
        from <= k <= to,
        k - from == find(s@.subrange(from as int, to as int), b),
{
    let mut i: usize = from;
    while i < to && s[i] != b
        invariant
            from <= i <= to <= s@.len(),
            forall|j: int| from <= j < i ==> s@[j] != b,
        decreases to - i,
    {
        i += 1;
    }
    proof {
        crate::text::lemma_find_is(s@.subrange(from as int, to as int), b, i - from);
    }
    i
}

/// Whether the bytes of `s` from `from` up to `to` are a decimal.
pub(crate) fn decimal_in(s: &[u8], from: usize, to: usize) -> (r: bool)
    requires
        from <= to <= s@.len(),
    ensures
        r == is_decimal(s@.subrange(from as int, to as int)),
{
    let k = find_in(s, from, to, POINT);
    let ghost body = s@.subrange(from as int, to as int);
    assert(whole_part(body) == s@.subrange(from as int, k as int));
    if !digits_in(s, from, k) {
        return false;
    }
    if k < to {
        assert(fraction_part(body) == s@.subrange(k + 1, to as int));
        if !digits_in(s, k + 1, to) {
            return false;
        }
        to - from > 1
    } else {
        k > from
    }
}

/// Reads a whole number: an optional sign, then digits. `None` where the text
/// is anything else or the value does not fit in 32 bits.
pub fn parse_i32(s: &[u8]) -> (r: Option<i32>)
    ensures
        r == parse_i32_spec(s@),
{
    let n = s.len();
    let start: usize = if n > 0 && (s[0] == PLUS || s[0] == MINUS) {
        1
    } else {
        0
    };
    assert(strip_sign(s@) == s@.subrange(start as int, n as int));
    if start == n || !digits_in(s, start, n) {
        return None;
    }
    let magnitude = digits_capped(s, start, n);
    if s[0] == MINUS {
        if magnitude > 2147483648 {
            None
        } else {
            Some((-(magnitude as i64)) as i32)
        }
    } else {
        if magnitude > 2147483647 {
            None
        } else {
            Some(magnitude as i32)
        }
    }
}

/// The lower-case form of an ASCII letter; any other byte unchanged.
pub(crate) fn to_lower(b: u8) -> (r: u8)
    ensures
        r == lower(b),
{
    if 65 <= b && b <= 90 {
        b + 32
    } else {
        b
    }
}

/// A text of three bytes is known by its bytes.
pub(crate) proof fn lemma_word3(low: Seq<u8>, a: u8, b: u8, c: u8)
    ensures
        (low == seq![a, b, c]) <==> (low.len() == 3 && low[0] == a && low[1] == b && low[2] == c),
{
    let w = seq![a, b, c];
    assert(w.len() == 3 && w[0] == a && w[1] == b && w[2] == c);
    if low.len() == 3 && low[0] == a && low[1] == b && low[2] == c {
        assert(low =~= w);
    }
}

/// A text of eight bytes is known by its bytes.
pub(crate) proof fn lemma_word8(low: Seq<u8>, w: Seq<u8>)
    requires
        w.len() == 8,
    ensures
        (low == w) <==> (low.len() == 8 && low[0] == w[0] && low[1] == w[1] && low[2] == w[2]
            && low[3] == w[3] && low[4] == w[4] && low[5] == w[5] && low[6] == w[6] && low[7]
            == w[7]),
{
    if low.len() == 8 && low[0] == w[0] && low[1] == w[1] && low[2] == w[2] && low[3] == w[3]
        && low[4] == w[4] && low[5] == w[5] && low[6] == w[6] && low[7] == w[7] {
        assert(low =~= w);
    }
}

/// Whether the bytes of `s` from `from` on are one of the three words.
pub(crate) fn special_in(s: &[u8], from: usize) -> (r: bool)
    requires
        from <= s@.len(),
    ensures
        r == is_special(s@.subrange(from as int, s@.len() as int)),
{
    let n = s.len() - from;
    let ghost body = s@.subrange(from as int, s@.len() as int);
    let ghost low = lowered(body);
    let ghost long = seq![105u8, 110, 102, 105, 110, 105, 116, 121];
    proof {
        assert(low.len() == n);
        assert(forall|i: int| 0 <= i < n ==> low[i] == lower(s@[from + i]));
        lemma_word3(low, 105, 110, 102);
        lemma_word3(low, 110, 97, 110);
        assert(long.len() == 8 && long[0] == 105 && long[1] == 110 && long[2] == 102 && long[3]
            == 105 && long[4] == 110 && long[5] == 105 && long[6] == 116 && long[7] == 121);
        lemma_word8(low, long);
    }
    if n == 3 {
        let a = to_lower(s[from]);
        let b = to_lower(s[from + 1]);
        let c = to_lower(s[from + 2]);
        (a == 105 && b == 110 && c == 102) || (a == 110 && b == 97 && c == 110)
    } else if n == 8 {
        to_lower(s[from]) == 105 && to_lower(s[from + 1]) == 110 && to_lower(s[from + 2]) == 102
            && to_lower(s[from + 3]) == 105 && to_lower(s[from + 4]) == 110 && to_lower(
            s[from + 5],
        ) == 105 && to_lower(s[from + 6]) == 116 && to_lower(s[from + 7]) == 121
    } else {
        false
    }
}

/// The position of the first `e` or `E` at or behind `from`, or the length
/// of `s`.
pub(crate) fn find_exponent_mark(s: &[u8], from: usize) -> (k: usize)
    requires
        from <= s@.len(),
    ensures
        from <= k <= s@.len(),
        k - from == find(lowered(s@.subrange(from as int, s@.len() as int)), EXPONENT),
{
    let mut i: usize = from;
    let ghost low = lowered(s@.subrange(from as int, s@.len() as int));
    assert(forall|j: int| 0 <= j < low.len() ==> low[j] == lower(s@[from + j]));
    while i < s.len() && s[i] != EXPONENT && s[i] != EXPONENT_UPPER
        invariant
            from <= i <= s@.len(),
            low.len() == s@.len() - from,
            forall|j: int| 0 <= j < low.len() ==> low[j] == lower(s@[from + j]),
            forall|j: int| 0 <= j < i - from ==> low[j] != EXPONENT,
        decreases s@.len() - i,
    {
        assert(low[i - from] != EXPONENT);
        i += 1;
    }
    proof {
        if i < s@.len() {
            assert(low[i - from] == EXPONENT);
        }
        crate::text::lemma_find_is(low, EXPONENT, i - from);
    }
    i
}

/// Whether `s` is written as a decimal value.
pub fn is_float(s: &[u8]) -> (r: bool)
    ensures
        r == is_float_text(s@),
{
    let n = s.len();
    let start: usize = if n > 0 && (s[0] == PLUS || s[0] == MINUS) {
        1
    } else {
        0
    };
    let ghost body = s@.subrange(start as int, n as int);
    assert(strip_sign(s@) == body);
    if special_in(s, start) {
        return true;
    }
    let k = find_exponent_mark(s, start);
    assert(mantissa_part(body) == s@.subrange(start as int, k as int));
    if !decimal_in(s, start, k) {
        return false;
    }
    if k < n {
        let ghost e = s@.subrange(k + 1, n as int);
        assert(exponent_part(body) == Some(e));
        let digits: usize = if k + 1 < n && (s[k + 1] == PLUS || s[k + 1] == MINUS) {
            k + 2
        } else {
            k + 1
        };
        assert(strip_sign(e) == s@.subrange(digits as int, n as int)) by {
            if k + 1 < n {
                assert(e[0] == s@[k + 1]);
            }
        }
        digits < n && digits_in(s, digits, n)
    } else {
        true
    }
}

/// Appends the decimal digits of `n` to `out`.
fn push_nat(out: &mut Vec<u8>, n: u64)
    ensures
        final(out)@ == old(out)@ + nat_text(n as nat),
    decreases n,
{
    if n >= 10 {
        push_nat(out, n / 10);
    }
    out.push(ZERO + (n % 10) as u8);
    proof {
        if n >= 10 {
            assert(out@ == old(out)@ + nat_text(n as nat));
        } else {
            assert(out@ == old(out)@ + nat_text(n as nat));
        }
    }
}

/// Appends the decimal notation of `v` to `out`.
pub fn push_int(out: &mut Vec<u8>, v: i64)
    ensures
        final(out)@ == old(out)@ + int_text(v as int),
{
    if v < 0 {
        out.push(MINUS);
        let magnitude: u64 = (-(v as i128)) as u64;
        push_nat(out, magnitude);
        assert(out@ == old(out)@ + int_text(v as int));
    } else {
        push_nat(out, v as u64);
    }
}

/// A byte that a number can be written with: a digit, a sign, a point or a
/// letter.
pub open spec fn is_number_byte(b: u8) -> bool {
    is_digit(b) || is_sign(b) || b == POINT || 65 <= b <= 90 || 97 <= b <= 122
}

/// A decimal is written with digits and points.
pub proof fn lemma_decimal_bytes(body: Seq<u8>)
    requires
        is_decimal(body),
    ensures
        forall|i: int| 0 <= i < body.len() ==> is_digit(#[trigger] body[i]) || body[i] == POINT,
{
    lemma_find(body, POINT);
    let k = find(body, POINT);
    assert forall|i: int| 0 <= i < body.len() implies is_digit(#[trigger] body[i]) || body[i]
        == POINT by {
        if i < k {
            assert(whole_part(body)[i] == body[i]);
        } else if i > k {
            assert(fraction_part(body)[i - k - 1] == body[i]);
        }
    }
}

/// A text with a sign before it is written with the bytes of the text and
/// signs.
proof fn lemma_signed_bytes(s: Seq<u8>)
    requires
        forall|i: int| 0 <= i < strip_sign(s).len() ==> is_number_byte(#[trigger] strip_sign(s)[i]),
    ensures
        forall|i: int| 0 <= i < s.len() ==> is_number_byte(#[trigger] s[i]),
{
    let body = strip_sign(s);
    assert forall|i: int| 0 <= i < s.len() implies is_number_byte(#[trigger] s[i]) by {
        if s.len() > 0 && is_sign(s[0]) {
            if i > 0 {
                assert(body[i - 1] == s[i]);
            }
        } else {
            assert(body[i] == s[i]);
        }
    }
}

/// A whole number is written with digits and signs, and ends with a digit.
pub proof fn lemma_whole_number_bytes(s: Seq<u8>)
    requires
        int_text_value(s) is Some,
    ensures
        forall|i: int| 0 <= i < s.len() ==> is_number_byte(#[trigger] s[i]),
        s.len() > 0,
        is_digit(s.last()),
{
    let body = strip_sign(s);
    assert(is_digit(body[body.len() - 1]));
    assert(body.last() == s.last());
    lemma_signed_bytes(s);
}

/// A byte whose lower-case form is a lower-case letter is a letter.
proof fn lemma_lowered_letter(b: u8)
    requires
        97 <= lower(b) <= 122,
    ensures
        is_number_byte(b),
{
}

/// A decimal value is written with digits, signs, points and letters.
pub proof fn lemma_float_bytes(s: Seq<u8>)
    requires
        is_float_text(s),
    ensures
        forall|i: int| 0 <= i < s.len() ==> is_number_byte(#[trigger] s[i]),
{
    let body = strip_sign(s);
    let low = lowered(body);
    assert forall|i: int| 0 <= i < body.len() implies is_number_byte(#[trigger] body[i]) by {
        assert(low[i] == lower(body[i]));
        if is_special(body) {
            let inf = seq![105u8, 110, 102];
            let infinity = seq![105u8, 110, 102, 105, 110, 105, 116, 121];
            let nan = seq![110u8, 97, 110];
            if low == inf {
                assert(inf[0] == 105 && inf[1] == 110 && inf[2] == 102);
                assert(97 <= inf[i] <= 122);
            } else if low == infinity {
                assert(infinity[0] == 105 && infinity[1] == 110 && infinity[2] == 102
                    && infinity[3] == 105);
                assert(infinity[4] == 110 && infinity[5] == 105 && infinity[6] == 116
                    && infinity[7] == 121);
                assert(97 <= infinity[i] <= 122);
            } else {
                assert(nan[0] == 110 && nan[1] == 97 && nan[2] == 110);
                assert(97 <= nan[i] <= 122);
            }
            lemma_lowered_letter(body[i]);
        } else {
            lemma_find(low, EXPONENT);
            let k = find(low, EXPONENT);
            let m = mantissa_part(body);
            lemma_decimal_bytes(m);
            if i < k {
                assert(m[i] == body[i]);
            } else if i == k {
                assert(lower(body[i]) == EXPONENT);
                lemma_lowered_letter(body[i]);
            } else {
                let e = exponent_part(body)->0;
                let digits = strip_sign(e);
                assert(e[i - k - 1] == body[i]);
                if e.len() > 0 && is_sign(e[0]) {
                    if i - k - 1 > 0 {
                        assert(digits[i - k - 2] == e[i - k - 1]);
                    }
                } else {
                    assert(digits[i - k - 1] == e[i - k - 1]);
                }
            }
        }
    }
    lemma_signed_bytes(s);
}

} // verus!
