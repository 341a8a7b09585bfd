//! Times as they are written in a beatmap: decimal values, which are read
//! as whole milliseconds.

use crate::number::{
    all_digits, capped, clamp_i32, decimal_in, digits_capped, digits_in, digits_value,
    exponent_part, find_exponent_mark, find_in, fraction_part, int_text, is_digit,
    is_float_text, is_negative, is_number, is_special, lemma_int_text_value, lemma_word3,
    lemma_word8, lowered, mantissa_part, signed, special_in, strip_sign, to_lower, whole_part,
    DIGITS_CAP, EXPONENT, FIVE, MINUS, PLUS, POINT, ZERO,
};
use crate::text::{find, lemma_find_is};
use vstd::prelude::*;

verus! {

/// The word `nan`, in either case of each letter.
pub open spec fn is_nan(body: Seq<u8>) -> bool {
    lowered(body) == seq![110u8, 97, 110]
}

/// The digits of a decimal: those before its point and those behind it.
pub open spec fn decimal_digits(m: Seq<u8>) -> Seq<u8> {
    whole_part(m) + fraction_part(m)
}

/// The exponent of a decimal value; 0 where none is written.
pub open spec fn exponent_value(body: Seq<u8>) -> int {
    match exponent_part(body) {
        Some(e) => signed(is_negative(e), digits_value(strip_sign(e)) as int),
        None => 0,
    }
}

/// `k` zeros.
pub open spec fn zeros(k: nat) -> Seq<u8> {
    Seq::new(k, |i: int| ZERO)
}

/// The digits before the point, where the point stands behind the first `p`
/// of the digits `d`: before all of them where `p` is not above 0, and with
/// zeros behind them where `d` has fewer than `p` digits.
pub open spec fn digits_before(d: Seq<u8>, p: int) -> Seq<u8> {
    if p <= 0 {
        Seq::empty()
    } else if p <= d.len() {
        d.subrange(0, p)
    } else {
        d + zeros((p - d.len()) as nat)
    }
}

/// The first digit behind the point; a zero where there is none.
pub open spec fn digit_behind(d: Seq<u8>, p: int) -> u8 {
    if 0 <= p < d.len() {
        d[p]
    } else {
        ZERO
    }
}

/// The whole number nearest to the value of the digits `d` with the point
/// behind the first `p` of them; a fraction of one half rounds up.
pub open spec fn shifted_rounded(d: Seq<u8>, p: int) -> nat {
    let up: nat = if digit_behind(d, p) >= FIVE {
        1
    } else {
        0
    };
    digits_value(digits_before(d, p)) + up
}

/// The whole number nearest to a decimal value that is no word, halves
/// rounding away from zero: the exponent moves the point.
pub open spec fn rounded_value(s: Seq<u8>) -> int {
    let body = strip_sign(s);
    let m = mantissa_part(body);
    signed(
        is_negative(s),
        shifted_rounded(decimal_digits(m), whole_part(m).len() + exponent_value(body)) as int,
    )
}

/// What `parse_time` returns: the milliseconds that a decimal value is read
/// as. Its nearest whole number, held to 32 bits; so an infinite value is
/// the largest or the least time. What is no number is time 0. `None` where
/// the text is no decimal value.
pub open spec fn parse_time_spec(s: Seq<u8>) -> Option<i32> {
    if !is_float_text(s) {
        None
    } else if is_nan(strip_sign(s)) {
        Some(0i32)
    } else if is_special(strip_sign(s)) {
        Some(
            if is_negative(s) {
                i32::MIN
            } else {
                i32::MAX
            },
        )
    } else {
        Some(clamp_i32(rounded_value(s)))
    }
}

/// One more zero at the end makes the value ten times as large.
proof fn lemma_zeros_step(x: Seq<u8>, j: nat)
    ensures
        digits_value(x + zeros(j + 1)) == digits_value(x + zeros(j)) * 10,
{
    let long = x + zeros(j + 1);
    assert(long.drop_last() == x + zeros(j));
    assert(long.last() == ZERO);
}

/// More zeros at the end make the value no smaller, and leave a value of
/// zero as it is.
proof fn lemma_zeros_more(x: Seq<u8>, i: nat, j: nat)
    requires
        i <= j,
    ensures
        digits_value(x + zeros(i)) <= digits_value(x + zeros(j)),
        digits_value(x + zeros(i)) == 0 ==> digits_value(x + zeros(j)) == 0,
    decreases j - i,
{
    if i < j {
        lemma_zeros_more(x, i, (j - 1) as nat);
        lemma_zeros_step(x, (j - 1) as nat);
    }
}

/// Ten zeros behind a value that is not zero make it larger than any time.
proof fn lemma_zeros_ten(x: Seq<u8>, j: nat)
    requires
        digits_value(x) >= 1,
        j >= 10,
    ensures
        digits_value(x + zeros(j)) >= 10000000000,
{
    assert(x + zeros(0) == x);
    lemma_zeros_step(x, 0);
    lemma_zeros_step(x, 1);
    lemma_zeros_step(x, 2);
    lemma_zeros_step(x, 3);
    lemma_zeros_step(x, 4);
    lemma_zeros_step(x, 5);
    lemma_zeros_step(x, 6);
    lemma_zeros_step(x, 7);
    lemma_zeros_step(x, 8);
    lemma_zeros_step(x, 9);
    lemma_zeros_more(x, 10, j);
}

/// The value of the digits `prefix` and then those of `s` from `from` up to
/// `to`, where `acc` is the value of `prefix`; values are counted up to
/// `DIGITS_CAP`.
fn digits_onto(acc: u64, prefix: Ghost<Seq<u8>>, s: &[u8], from: usize, to: usize) -> (r: u64)
    requires
        from <= to <= s@.len(),
        all_digits(s@.subrange(from as int, to as int)),
        acc == capped(digits_value(prefix@)),
    ensures
        r == capped(digits_value(prefix@ + s@.subrange(from as int, to as int))),
{
    let mut acc: u64 = acc;
    let mut i: usize = from;
    assert(prefix@ + s@.subrange(from as int, from as int) == prefix@);
    while i < to
        invariant
            from <= i <= to <= s@.len(),
            all_digits(s@.subrange(from as int, to as int)),
            acc == capped(digits_value(prefix@ + s@.subrange(from as int, i as int))),
        decreases to - i,
    {
        proof {
            let next = prefix@ + s@.subrange(from as int, i + 1);
            assert(next.drop_last() == prefix@ + s@.subrange(from as int, i as int));
            assert(next.last() == s@[i as int]);
            assert(s@.subrange(from as int, to as int)[i - from] == s@[i as int]);
            assert(is_digit(s@[i as int]));
        }
        let d: u64 = (s[i] - ZERO) as u64;
        acc = acc * 10 + d;
        if acc > DIGITS_CAP {
            acc = DIGITS_CAP;
        }
        i += 1;
    }
    acc
}

/// The value of the digits `prefix` with `count` zeros behind them, where
/// `acc` is the value of `prefix`.
fn zeros_onto(acc: u64, prefix: Ghost<Seq<u8>>, count: u128) -> (r: u64)
    requires
        acc == capped(digits_value(prefix@)),
    ensures
        r == capped(digits_value(prefix@ + zeros(count as nat))),
{
    let mut acc: u64 = acc;
    let mut i: u128 = 0;
    assert(prefix@ + zeros(0) == prefix@);
    while i < count && acc != 0 && acc < DIGITS_CAP
        invariant
            i <= count,
            acc == capped(digits_value(prefix@ + zeros(i as nat))),
        decreases count - i,
    {
        proof {
            lemma_zeros_step(prefix@, i as nat);
        }
        acc = acc * 10;
        if acc > DIGITS_CAP {
            acc = DIGITS_CAP;
        }
        i += 1;
    }
    proof {
        lemma_zeros_more(prefix@, i as nat, count as nat);
    }
    acc
}

/// The largest exponent that is told apart from a larger one.
pub const EXPONENT_CAP: u128 = 0x2_0000_0000_0000_0000;

/// The value of the digits of `s` from `from` up to `to`, counted up to
/// `EXPONENT_CAP`.
fn digits_wide(s: &[u8], from: usize, to: usize) -> (r: u128)
    requires
        from <= to <= s@.len(),
        all_digits(s@.subrange(from as int, to as int)),
    ensures
        r <= EXPONENT_CAP,
        r == if digits_value(s@.subrange(from as int, to as int)) < EXPONENT_CAP {
            digits_value(s@.subrange(from as int, to as int))
        } else {
            EXPONENT_CAP as nat
        },
{
    let mut acc: u128 = 0;
    let mut i: usize = from;
    assert(s@.subrange(from as int, from as int).len() == 0);
    while i < to
        invariant
            from <= i <= to <= s@.len(),
            all_digits(s@.subrange(from as int, to as int)),
            acc <= EXPONENT_CAP,
            acc == if digits_value(s@.subrange(from as int, i as int)) < EXPONENT_CAP {
                digits_value(s@.subrange(from as int, i as int))
            } else {
                EXPONENT_CAP as nat
            },
        decreases to - i,
    {
        proof {
            let next = s@.subrange(from as int, i + 1);
            assert(next.drop_last() == s@.subrange(from as int, i as int));
            assert(next.last() == s@[i as int]);
            assert(s@.subrange(from as int, to as int)[i - from] == s@[i as int]);
            assert(is_digit(s@[i as int]));
        }
        let d: u128 = (s[i] - ZERO) as u128;
        acc = acc * 10 + d;
        if acc > EXPONENT_CAP {
            acc = EXPONENT_CAP;
        }
        i += 1;
    }
    acc
}

/// Whether the word at `from` is `nan`, where it is one of the three words.
fn nan_in(s: &[u8], from: usize) -> (r: bool)
    requires
        from <= s@.len(),
        is_special(s@.subrange(from as int, s@.len() as int)),
    ensures
        r == is_nan(s@.subrange(from as int, s@.len() as int)),
{
    let ghost body = s@.subrange(from as int, s@.len() as int);
    let ghost low = lowered(body);
    let ghost long = seq![105u8, 110, 102, 105, 110, 105, 116, 121];
    proof {
        lemma_word3(low, 105, 110, 102);
        lemma_word3(low, 110, 97, 110);
        assert(long.len() == 8 && long[0] == 105);
        lemma_word8(low, long);
        assert(low[0] == crate::number::lower(s@[from as int]));
    }
    to_lower(s[from]) == 110
}

/// A magnitude that was counted up to a bound stands for the true one: it
/// is the true one, or both are beyond every time.
spec fn stands_for(counted: u64, value: nat) -> bool {
    counted == value || (counted > 2147483648 && value > 2147483648)
}

/// The digits of `s` from `start` up to `dot` and from behind `dot` up to
/// `end`.
spec fn digits_around(s: Seq<u8>, start: int, dot: int, end: int) -> Seq<u8> {
    s.subrange(start, dot) + if dot < end {
        s.subrange(dot + 1, end)
    } else {
        Seq::empty()
    }
}

/// Whether the bytes of `s` from `start` up to `end` are digits but for the
/// one at `dot`, if `dot` is before `end`.
spec fn digits_but_dot(s: Seq<u8>, start: int, dot: int, end: int) -> bool {
    &&& 0 <= start <= dot <= end <= s.len()
    &&& all_digits(s.subrange(start, dot))
    &&& dot < end ==> all_digits(s.subrange(dot + 1, end))
}

/// The exponent that is written behind the mark at `k`, held to the bound on
/// either side; 0 where `k` is the end of `s`. `None` where what is written
/// there is no exponent.
fn read_exponent(s: &[u8], start: usize, k: usize) -> (r: Option<i128>)
    requires
        start <= k <= s@.len(),
        k - start == find(lowered(s@.subrange(start as int, s@.len() as int)), EXPONENT),
    ensures
        ({
            let body = s@.subrange(start as int, s@.len() as int);
            let written = exponent_value(body);
            match r {
                Some(x) => {
                    &&& match exponent_part(body) {
                        Some(e) => is_number(strip_sign(e)),
                        None => true,
                    }
                    &&& -EXPONENT_CAP <= x <= EXPONENT_CAP
                    &&& x == written || (x == EXPONENT_CAP && written >= x) || (x == -EXPONENT_CAP
                        && written <= x)
                },
                None => match exponent_part(body) {
                    Some(e) => !is_number(strip_sign(e)),
                    None => false,
                },
            }
        }),
{
    let n = s.len();
    let ghost body = s@.subrange(start as int, n as int);
    if k == n {
        assert(exponent_part(body) is None);
        return Some(0);
    }
    let ghost e = s@.subrange(k + 1, n as int);
    assert(exponent_part(body) == Some(e));
    let digits: usize = if k + 1 < n && (s[k + 1] == PLUS || s[k + 1] == MINUS) {
        k + 2
    } else {
        k + 1
    };
    assert(strip_sign(e) == s@.subrange(digits as int, n as int)) by {
        if k + 1 < n {
            assert(e[0] == s@[k + 1]);
        }
    }
    if !(digits < n && digits_in(s, digits, n)) {
        return None;
    }
    let size = digits_wide(s, digits, n);
    assert(e[0] == s@[k + 1]);
    if s[k + 1] == MINUS {
        Some(-(size as i128))
    } else {
        Some(size as i128)
    }
}

/// The rounded value of the digits around `dot` with the point behind the
/// first `point` of them, where it stands among them or at their end.
fn magnitude_within(s: &[u8], start: usize, dot: usize, end: usize, point: usize) -> (r: u64)
    requires
        digits_but_dot(s@, start as int, dot as int, end as int),
        point <= digits_around(s@, start as int, dot as int, end as int).len(),
    ensures
        stands_for(
            r,
            shifted_rounded(digits_around(s@, start as int, dot as int, end as int), point as int),
        ),
{
    let ghost whole = s@.subrange(start as int, dot as int);
    let ghost fraction = if dot < end {
        s@.subrange(dot + 1, end as int)
    } else {
        Seq::<u8>::empty()
    };
    let ghost d = whole + fraction;
    assert(d == digits_around(s@, start as int, dot as int, end as int));
    let whole_len: usize = dot - start;
    let fraction_len: usize = if dot < end {
        end - dot - 1
    } else {
        0
    };
    assert(d.len() == whole_len + fraction_len);
    let counted: u64;
    let behind: u8;
    if point <= whole_len {
        let stop: usize = start + point;
        proof {
            assert(d.subrange(0, point as int) == s@.subrange(start as int, stop as int));
            assert forall|i: int| 0 <= i < point implies is_digit(
                #[trigger] s@.subrange(start as int, stop as int)[i],
            ) by {
                assert(s@.subrange(start as int, stop as int)[i] == whole[i]);
            }
            if point == 0 {
                assert(digits_before(d, 0).len() == 0);
                assert(s@.subrange(start as int, stop as int).len() == 0);
            }
        }
        counted = digits_capped(s, start, stop);
        behind = if point < whole_len {
            s[stop]
        } else if fraction_len > 0 {
            s[dot + 1]
        } else {
            ZERO
        };
        proof {
            if point < whole_len {
                assert(d[point as int] == whole[point as int]);
            } else if fraction_len > 0 {
                assert(d[point as int] == fraction[0]);
            }
        }
    } else {
        let taken: usize = point - whole_len;
        let stop: usize = dot + 1 + taken;
        proof {
            assert(s@.subrange(dot + 1, stop as int) == fraction.subrange(0, taken as int));
            assert(d.subrange(0, point as int) == whole + s@.subrange(dot + 1, stop as int));
            assert forall|i: int| 0 <= i < taken implies is_digit(
                #[trigger] s@.subrange(dot + 1, stop as int)[i],
            ) by {
                assert(s@.subrange(dot + 1, stop as int)[i] == fraction[i]);
            }
        }
        let before = digits_capped(s, start, dot);
        counted = digits_onto(before, Ghost(whole), s, dot + 1, stop);
        behind = if taken < fraction_len {
            s[stop]
        } else {
            ZERO
        };
        proof {
            if taken < fraction_len {
                assert(d[point as int] == fraction[taken as int]);
            }
        }
    }
    assert(behind == digit_behind(d, point as int));
    assert(counted == capped(digits_value(digits_before(d, point as int))));
    if behind >= FIVE {
        counted + 1
    } else {
        counted
    }
}

/// The value of the digits around `dot` with `more` zeros behind them.
/// `truly` is `more`, or both are ten or more.
fn magnitude_beyond(
    s: &[u8],
    start: usize,
    dot: usize,
    end: usize,
    more: u128,
    truly: Ghost<nat>,
) -> (r: u64)
    requires
        digits_but_dot(s@, start as int, dot as int, end as int),
        more > 0,
        truly@ == more || (truly@ >= 10 && more >= 10),
    ensures
        stands_for(
            r,
            shifted_rounded(
                digits_around(s@, start as int, dot as int, end as int),
                (digits_around(s@, start as int, dot as int, end as int).len() + truly@) as int,
            ),
        ),
{
    let ghost whole = s@.subrange(start as int, dot as int);
    let ghost d = digits_around(s@, start as int, dot as int, end as int);
    let before = digits_capped(s, start, dot);
    let all = if dot < end {
        digits_onto(before, Ghost(whole), s, dot + 1, end)
    } else {
        assert(whole + Seq::<u8>::empty() == whole);
        before
    };
    let counted = zeros_onto(all, Ghost(d), more);
    proof {
        let point: int = (d.len() + truly@) as int;
        assert(digit_behind(d, point) == ZERO);
        assert(digits_before(d, point) == d + zeros(truly@));
        if truly@ != more {
            if digits_value(d) >= 1 {
                lemma_zeros_ten(d, more as nat);
                lemma_zeros_ten(d, truly@);
            } else {
                assert(d + zeros(0) == d);
                lemma_zeros_more(d, 0, more as nat);
                lemma_zeros_more(d, 0, truly@);
            }
        }
    }
    counted
}

/// The rounded value of the decimal from `start` up to `end` with the given
/// exponent. `truly` is the exponent as it is written, which `exponent` is
/// unless both are beyond the bound on one side.
fn magnitude_of(s: &[u8], start: usize, end: usize, exponent: i128, truly: Ghost<int>) -> (r: u64)
    requires
        start <= end <= s@.len(),
        crate::number::is_decimal(s@.subrange(start as int, end as int)),
        -EXPONENT_CAP <= exponent <= EXPONENT_CAP,
        exponent == truly@ || (exponent == EXPONENT_CAP && truly@ >= exponent) || (exponent
            == -EXPONENT_CAP && truly@ <= exponent),
    ensures
        ({
            let m = s@.subrange(start as int, end as int);
            stands_for(r, shifted_rounded(decimal_digits(m), whole_part(m).len() + truly@))
        }),
{
    let ghost m = s@.subrange(start as int, end as int);
    let dot = find_in(s, start, end, POINT);
    let ghost d = digits_around(s@, start as int, dot as int, end as int);
    proof {
        assert(whole_part(m) == s@.subrange(start as int, dot as int));
        if dot < end {
            assert(fraction_part(m) == s@.subrange(dot + 1, end as int));
        }
        assert(decimal_digits(m) == d);
    }
    let whole_len: usize = dot - start;
    let length: usize = if dot < end {
        end - start - 1
    } else {
        end - start
    };
    assert(d.len() == length);
    let point: i128 = whole_len as i128 + exponent;
    let ghost true_point: int = whole_len + truly@;
    if point < 0 {
        assert(true_point < 0);
        assert(digits_before(d, true_point).len() == 0);
        0
    } else if point <= length as i128 {
        assert(true_point == point);
        magnitude_within(s, start, dot, end, point as usize)
    } else {
        let more: u128 = (point - length as i128) as u128;
        magnitude_beyond(s, start, dot, end, more, Ghost((true_point - length) as nat))
    }
}

/// Reads a time: a decimal value, rounded to the nearest whole millisecond
/// and held to 32 bits. `None` where the text is no decimal value.
pub fn parse_time(s: &[u8]) -> (r: Option<i32>)
    ensures
        r == parse_time_spec(s@),
{
    let n = s.len();
    let start: usize = if n > 0 && (s[0] == PLUS || s[0] == MINUS) {
        1
    } else {
        0
    };
    let negative = n > 0 && s[0] == MINUS;
    let ghost body = s@.subrange(start as int, n as int);
    assert(strip_sign(s@) == body);
    if special_in(s, start) {
        return if nan_in(s, start) {
            Some(0)
        } else if negative {
            Some(i32::MIN)
        } else {
            Some(i32::MAX)
        };
    }
    let k = find_exponent_mark(s, start);
    assert(mantissa_part(body) == s@.subrange(start as int, k as int));
    if !decimal_in(s, start, k) {
        return None;
    }
    let exponent = match read_exponent(s, start, k) {
        Some(x) => x,
        None => {
            return None;
        },
    };
    assert(is_float_text(s@));
    assert(!is_nan(body)) by {
        let low = lowered(body);
        lemma_word3(low, 105, 110, 102);
        lemma_word3(low, 110, 97, 110);
    }
    let magnitude = magnitude_of(s, start, k, exponent, Ghost(exponent_value(body)));
    if negative {
        if magnitude > 2147483648 {
            Some(i32::MIN)
        } else {
            Some((-(magnitude as i64)) as i32)
        }
    } else {
        if magnitude > 2147483647 {
            Some(i32::MAX)
        } else {
            Some(magnitude as i32)
        }
    }
}

/// A time is written with the bytes of a number.
pub proof fn lemma_time_bytes(s: Seq<u8>)
    requires
        parse_time_spec(s) is Some,
    ensures
        forall|i: int| 0 <= i < s.len() ==> crate::number::is_number_byte(#[trigger] s[i]),
{
    crate::number::lemma_float_bytes(s);
}

/// A whole number that was written reads back as a time: the number itself,
/// held to 32 bits.
pub proof fn lemma_int_text_time(v: int)
    ensures
        parse_time_spec(int_text(v)) == Some(clamp_i32(v)),
{
    let s = int_text(v);
    let body = strip_sign(s);
    let low = lowered(body);
    lemma_int_text_value(v);
    assert(is_number(body));
    assert forall|i: int| 0 <= i < body.len() implies body[i] != POINT && low[i] != EXPONENT by {
        assert(is_digit(body[i]));
    }
    lemma_find_is(low, EXPONENT, body.len() as int);
    lemma_find_is(body, POINT, body.len() as int);
    let m = mantissa_part(body);
    assert(m == body);
    assert(exponent_part(body) is None);
    assert(whole_part(m) == body);
    assert(fraction_part(m).len() == 0);
    assert(decimal_digits(m) == body);
    assert(crate::number::is_decimal(m));
    assert(is_float_text(s));
    assert(is_digit(low[0]));
    lemma_word3(low, 105, 110, 102);
    lemma_word3(low, 110, 97, 110);
    let long = seq![105u8, 110, 102, 105, 110, 105, 116, 121];
    assert(long.len() == 8 && long[0] == 105);
    lemma_word8(low, long);
    assert(!is_special(body));
    assert(!is_nan(body));
    assert(digits_before(body, body.len() as int) == body);
    assert(digit_behind(body, body.len() as int) == ZERO);
}

} // verus!
