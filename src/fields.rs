use crate::digits::{
    all_digits, digit_run_end, digits_to_u64, digits_value, first_at_or_after, is_digit,
    lemma_digit_run, lemma_digits_value_bound, lemma_pow10_18, lemma_pow10_add,
    lemma_pow10_monotone, lemma_pow10_positive, pow10, scan_digits,
};
use vstd::prelude::*;

verus! {

/// A latitude or a longitude as written on the wire: whole degrees, then
/// minutes with `scale` decimals, on the side of the equator or meridian
/// that `negative` tells (south and west are negative).
pub struct CoordinateView {
    pub negative: bool,
    pub degrees: nat,
    pub minutes: nat,
    pub scale: nat,
}

/// A coordinate in degrees: `degrees + minutes / 10^minutes_scale / 60`,
/// negated where `negative` holds.
#[derive(Clone, Copy, Debug, PartialEq, Eq, Structural)]
pub struct Coordinate {
    pub negative: bool,
    pub degrees: u32,
    pub minutes: u64,
    pub minutes_scale: u32,
}

impl View for Coordinate {
    type V = CoordinateView;

    open spec fn view(&self) -> CoordinateView {
        CoordinateView {
            negative: self.negative,
            degrees: self.degrees as nat,
            minutes: self.minutes as nat,
            scale: self.minutes_scale as nat,
        }
    }
}

/// The denominator of a coordinate's value in degrees.
pub open spec fn denominator(c: CoordinateView) -> nat {
    60 * pow10(c.scale)
}

/// The numerator of a coordinate's value in degrees, over `denominator(c)`.
pub open spec fn numerator(c: CoordinateView) -> int {
    let magnitude = (c.degrees * denominator(c) + c.minutes) as int;
    if c.negative {
        -magnitude
    } else {
        magnitude
    }
}

/// A time of day, to the millisecond.
pub struct TimeView {
    pub hour: nat,
    pub minute: nat,
    pub second: nat,
    pub millisecond: nat,
}

/// A time of day without a date, to the millisecond.
#[derive(Clone, Copy, Debug, PartialEq, Eq, Structural)]
pub struct TimeOfDay {
    pub hour: u32,
    pub minute: u32,
    pub second: u32,
    pub millisecond: u32,
}

impl View for TimeOfDay {
    type V = TimeView;

    open spec fn view(&self) -> TimeView {
        TimeView {
            hour: self.hour as nat,
            minute: self.minute as nat,
            second: self.second as nat,
            millisecond: self.millisecond as nat,
        }
    }
}

impl TimeOfDay {
    /// Whether the fields name a time of day.
    pub open spec fn wf(&self) -> bool {
        self.hour < 24 && self.minute < 60 && self.second < 60 && self.millisecond < 1000
    }
}

/// The decimal number written by `t` (digits, then at most one '.', then
/// digits), as a numerator over `10^scale`, with `scale` the count of
/// digits after the '.'.
pub open spec fn decimal_text_value(t: Seq<u8>) -> (nat, nat) {
    let d = first_at_or_after(t, 0, 46);
    if d < t.len() {
        let scale = (t.len() - d - 1) as nat;
        (
            digits_value(t.subrange(0, d)) * pow10(scale) + digits_value(t.subrange(d + 1, t.len() as int)),
            scale,
        )
    } else {
        (digits_value(t), 0)
    }
}

/// A coordinate at position `p` of `s`: `ndeg` digits of degrees, minutes
/// (one to nine digits, then optionally '.' and at most nine digits), ','
/// and the hemisphere letter, `pos` or `neg`. Gives the coordinate and the
/// position after the letter.
pub open spec fn coordinate_spec(s: Seq<u8>, p: int, ndeg: int, pos: u8, neg: u8) -> Option<
    (CoordinateView, int),
> {
    let q = p + ndeg;
    let e1 = digit_run_end(s, q);
    let frac = e1 < s.len() && s[e1] == 46;
    let e2 = if frac {
        digit_run_end(s, e1 + 1)
    } else {
        e1
    };
    let scale: nat = if frac {
        (e2 - e1 - 1) as nat
    } else {
        0
    };
    let fraction: nat = if frac {
        digits_value(s.subrange(e1 + 1, e2))
    } else {
        0
    };
    if 0 <= p && 0 <= ndeg && q <= s.len() && all_digits(s.subrange(p, q)) && q < e1 && e1 - q
        <= 9 && scale <= 9 && e2 + 1 < s.len() && s[e2] == 44 && (s[e2 + 1] == pos || s[e2 + 1]
        == neg) {
        Some(
            (
                CoordinateView {
                    negative: s[e2 + 1] == neg,
                    degrees: digits_value(s.subrange(p, q)),
                    minutes: digits_value(s.subrange(q, e1)) * pow10(scale) + fraction,
                    scale,
                },
                e2 + 2,
            ),
        )
    } else {
        None
    }
}

/// A time of day at position `p` of `s`: `HHMMSS`, then optionally '.' and
/// digits, of which the first three give the milliseconds. Gives the time
/// and the position after its last digit.
pub open spec fn time_spec(s: Seq<u8>, p: int) -> Option<(TimeView, int)> {
    let hour = digits_value(s.subrange(p, p + 2));
    let minute = digits_value(s.subrange(p + 2, p + 4));
    let second = digits_value(s.subrange(p + 4, p + 6));
    let frac = p + 6 < s.len() && s[p + 6] == 46;
    let end = if frac {
        digit_run_end(s, p + 7)
    } else {
        p + 6
    };
    let n: int = if end - (p + 7) < 3 {
        end - (p + 7)
    } else {
        3
    };
    let millisecond = if frac {
        digits_value(s.subrange(p + 7, p + 7 + n)) * pow10((3 - n) as nat)
    } else {
        0
    };
    if 0 <= p && p + 6 <= s.len() && all_digits(s.subrange(p, p + 6)) && hour < 24 && minute
        < 60 && second < 60 {
        Some((TimeView { hour, minute, second, millisecond }, end))
    } else {
        None
    }
}

/// Ten to the power `n`.
fn pow10_u64(n: u32) -> (r: u64)
    requires
        n <= 18,
    ensures
        r == pow10(n as nat),
{
    let mut r: u64 = 1;
    let mut i: u32 = 0;
    proof {
        lemma_pow10_18();
    }
    while i < n
        invariant
            i <= n <= 18,
            r == pow10(i as nat),
            pow10(18) == 1_000_000_000_000_000_000,
        decreases n - i,
    {
        proof {
            lemma_pow10_monotone((i + 1) as nat, 18);
        }
        r = r * 10;
        i = i + 1;
    }
    r
}

proof fn lemma_sub_digits(s: Seq<u8>, a: int, b: int, c: int, d: int)
    requires
        0 <= a <= c <= d <= b <= s.len(),
        all_digits(s.subrange(a, b)),
    ensures
        all_digits(s.subrange(c, d)),
{
    assert forall|i: int| 0 <= i < d - c implies is_digit(#[trigger] s.subrange(c, d)[i]) by {
        assert(s.subrange(c, d)[i] == s.subrange(a, b)[i + c - a]);
    }
}

proof fn lemma_run_digits(s: Seq<u8>, p: int, e: int)
    requires
        0 <= p <= e <= digit_run_end(s, p),
        p <= s.len(),
    ensures
        all_digits(s.subrange(p, e)),
        e <= s.len(),
{
    lemma_digit_run(s, p);
    assert forall|i: int| 0 <= i < e - p implies is_digit(#[trigger] s.subrange(p, e)[i]) by {
        assert(s.subrange(p, e)[i] == s[p + i]);
    }
}

/// Decodes the coordinate at position `p` of `s` (see `coordinate_spec`).
pub fn parse_coordinate(s: &[u8], p: usize, ndeg: usize, pos: u8, neg: u8) -> (r: Option<
    (Coordinate, usize),
>)
    requires
        p <= s@.len(),
        ndeg <= 3,
    ensures
        match (r, coordinate_spec(s@, p as int, ndeg as int, pos, neg)) {
            (Some((c, e)), Some((v, f))) => c@ == v && e == f,
            (None, None) => true,
            _ => false,
        },
{
    if ndeg > s.len() - p {
        return None;
    }
    let q = p + ndeg;
    let dend = scan_digits(s, p);
    proof {
        lemma_digit_run(s@, p as int);
    }
    if dend < q {
        proof {
            assert(!is_digit(s@.subrange(p as int, q as int)[dend - p]));
        }
        return None;
    }
    proof {
        lemma_run_digits(s@, p as int, q as int);
    }
    let e1 = scan_digits(s, q);
    proof {
        lemma_run_digits(s@, q as int, e1 as int);
    }
    if e1 == q || e1 - q > 9 {
        return None;
    }
    let mut e2: usize = e1;
    let mut scale: u32 = 0;
    let mut fraction: u64 = 0;
    if e1 < s.len() && s[e1] == 46 {
        e2 = scan_digits(s, e1 + 1);
        if e2 - e1 - 1 > 9 {
            return None;
        }
        proof {
            lemma_run_digits(s@, e1 + 1, e2 as int);
        }
        scale = (e2 - e1 - 1) as u32;
        fraction = digits_to_u64(s, e1 + 1, e2);
        proof {
            lemma_digits_value_bound(s@.subrange(e1 + 1, e2 as int));
        }
    }
    if !(e2 < s.len() && e2 + 1 < s.len() && s[e2] == 44 && (s[e2 + 1] == pos || s[e2 + 1] == neg)) {
        return None;
    }
    let degrees = digits_to_u64(s, p, q);
    let whole = digits_to_u64(s, q, e1);
    let unit = pow10_u64(scale);
    proof {
        lemma_digits_value_bound(s@.subrange(p as int, q as int));
        lemma_pow10_monotone(ndeg as nat, 3);
        reveal_with_fuel(pow10, 4);
        lemma_digits_value_bound(s@.subrange(q as int, e1 as int));
        lemma_pow10_monotone((e1 - q) as nat, 9);
        lemma_pow10_add(9, scale as nat);
        lemma_pow10_monotone(9 + scale as nat, 18);
        lemma_pow10_18();
        lemma_pow10_positive(scale as nat);
        let w = whole as int;
        let u = unit as int;
        let f = fraction as int;
        let big = pow10(9) as int;
        assert(w * u + f < big * u) by (nonlinear_arith)
            requires
                0 <= w < big,
                0 <= f < u,
        ;
    }
    let minutes = whole * unit + fraction;
    Some(
        (
            Coordinate { negative: s[e2 + 1] == neg, degrees: degrees as u32, minutes, minutes_scale: scale },
            e2 + 2,
        ),
    )
}

/// Relies on chrono::NaiveTime::from_hms_milli_opt, which makes a time of day
/// exactly when the hour is below 24, the minute and the second below 60, and
/// the millisecond below 1000 (or below 2000 in second 59).
#[verifier::external_body]
fn time_is_valid(hour: u32, minute: u32, second: u32, millisecond: u32) -> (r: bool)
    requires
        millisecond < 1000,
    ensures
        r == (hour < 24 && minute < 60 && second < 60),
{
    chrono::NaiveTime::from_hms_milli_opt(hour, minute, second, millisecond).is_some()
}

/// Decodes the time of day at position `p` of `s` (see `time_spec`).
pub fn parse_time(s: &[u8], p: usize) -> (r: Option<(TimeOfDay, usize)>)
    requires
        p <= s@.len(),
    ensures
        match (r, time_spec(s@, p as int)) {
            (Some((t, e)), Some((v, f))) => t@ == v && e == f && t.wf() && e <= s@.len(),
            (None, None) => true,
            _ => false,
        },
{
    if 6 > s.len() - p {
        return None;
    }
    let dend = scan_digits(s, p);
    proof {
        lemma_digit_run(s@, p as int);
    }
    if dend < p + 6 {
        proof {
            assert(!is_digit(s@.subrange(p as int, p + 6)[dend - p]));
        }
        return None;
    }
    proof {
        lemma_run_digits(s@, p as int, p + 6);
        lemma_sub_digits(s@, p as int, p + 6, p as int, p + 2);
        lemma_sub_digits(s@, p as int, p + 6, p + 2, p + 4);
        lemma_sub_digits(s@, p as int, p + 6, p + 4, p + 6);
        lemma_digits_value_bound(s@.subrange(p as int, p + 2));
        lemma_digits_value_bound(s@.subrange(p + 2, p + 4));
        lemma_digits_value_bound(s@.subrange(p + 4, p + 6));
        reveal_with_fuel(pow10, 4);
    }
    let hour = digits_to_u64(s, p, p + 2) as u32;
    let minute = digits_to_u64(s, p + 2, p + 4) as u32;
    let second = digits_to_u64(s, p + 4, p + 6) as u32;
    let mut end: usize = p + 6;
    let mut millisecond: u32 = 0;
    if p + 6 < s.len() && s[p + 6] == 46 {
        end = scan_digits(s, p + 7);
        let n: usize = if end - (p + 7) < 3 {
            end - (p + 7)
        } else {
            3
        };
        proof {
            lemma_run_digits(s@, p + 7, p + 7 + n);
            lemma_digits_value_bound(s@.subrange(p + 7, p + 7 + n));
            lemma_pow10_add(n as nat, (3 - n) as nat);
            assert(n as nat + (3 - n) as nat == 3);
        }
        let digits = digits_to_u64(s, p + 7, p + 7 + n);
        let unit = pow10_u64((3 - n) as u32);
        proof {
            let d = digits as int;
            let u = unit as int;
            let b = pow10(n as nat) as int;
            assert(d * u < b * u) by (nonlinear_arith)
                requires
                    0 <= d < b,
                    u > 0,
            ;
            lemma_pow10_positive((3 - n) as nat);
        }
        millisecond = (digits * unit) as u32;
    }
    if !time_is_valid(hour, minute, second, millisecond) {
        return None;
    }
    Some((TimeOfDay { hour, minute, second, millisecond }, end))
}

} // verus!
