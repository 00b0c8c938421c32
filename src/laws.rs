use crate::digits::{
    digit_run_end, digits_value, first_at_or_after, is_digit, lemma_digit_run,
    lemma_first_after_run, pow10,
};
use crate::fields::{
    coordinate_spec, decimal_text_value, denominator, numerator, time_spec, CoordinateView,
};
use crate::gll::{gll_spec, head_spec, GLLDataStatus, PosSystemIndicator};
use vstd::prelude::*;

verus! {

/// Where the latitude's hemisphere letter stands in a payload: after the
/// first ',' that follows the two digits of degrees.
pub open spec fn lat_hemisphere_at(s: Seq<u8>) -> int {
    first_at_or_after(s, 2, 44) + 1
}

/// Where the longitude's hemisphere letter stands in a payload: after the
/// first ',' that follows its three digits of degrees.
pub open spec fn lon_hemisphere_at(s: Seq<u8>) -> int {
    first_at_or_after(s, lat_hemisphere_at(s) + 5, 44) + 1
}

/// The text between a coordinate's digits of degrees at `p` (`ndeg` of
/// them) and the following ','.
pub open spec fn minutes_text(s: Seq<u8>, p: int, ndeg: int) -> Seq<u8> {
    s.subrange(p + ndeg, first_at_or_after(s, p + ndeg, 44))
}

/// Whether `c` is the value that the text of a coordinate at `p` writes:
/// degrees plus minutes over 60, negated where the hemisphere letter is
/// `neg`.
pub open spec fn written_value(s: Seq<u8>, p: int, ndeg: int, neg: u8, c: CoordinateView) -> bool {
    let (m, k) = decimal_text_value(minutes_text(s, p, ndeg));
    let h = first_at_or_after(s, p + ndeg, 44) + 1;
    let magnitude = (digits_value(s.subrange(p, p + ndeg)) * (60 * pow10(k)) + m) as int;
    &&& denominator(c) == 60 * pow10(k)
    &&& numerator(c) == if s[h] == neg {
        -magnitude
    } else {
        magnitude
    }
}

/// How a decoded coordinate lies in its text: the hemisphere letter after
/// the first ',' past the degrees, and the value that the text writes.
proof fn lemma_coordinate_text(s: Seq<u8>, p: int, ndeg: int, pos: u8, neg: u8)
    requires
        coordinate_spec(s, p, ndeg, pos, neg) is Some,
        pos != neg,
    ensures
        ({
            let (c, f) = coordinate_spec(s, p, ndeg, pos, neg)->0;
            &&& first_at_or_after(s, p + ndeg, 44) == f - 2
            &&& (s[f - 1] == pos || s[f - 1] == neg)
            &&& c.negative == (s[f - 1] == neg)
            &&& written_value(s, p, ndeg, neg, c)
        }),
{
    let q = p + ndeg;
    let e1 = digit_run_end(s, q);
    let frac = e1 < s.len() && s[e1] == 46;
    let e2 = if frac {
        digit_run_end(s, e1 + 1)
    } else {
        e1
    };
    lemma_digit_run(s, q);
    if frac {
        lemma_digit_run(s, e1 + 1);
    }
    assert forall|i: int| q <= i < e2 implies s[i] != 44 by {
        if i < e1 {
            assert(is_digit(s[i]));
        } else if i > e1 {
            assert(is_digit(s[i]));
        }
    }
    lemma_first_after_run(s, q, e2, 44);
    let t = s.subrange(q, e2);
    if frac {
        assert forall|i: int| 0 <= i < e1 - q implies t[i] != 46 by {
            assert(t[i] == s[q + i]);
            assert(is_digit(s[q + i]));
        }
        assert(t[e1 - q] == s[e1]);
        lemma_first_after_run(t, 0, e1 - q, 46);
        assert(t.subrange(0, e1 - q) =~= s.subrange(q, e1));
        assert(t.subrange(e1 - q + 1, t.len() as int) =~= s.subrange(e1 + 1, e2));
    } else {
        assert forall|i: int| 0 <= i < t.len() implies t[i] != 46 by {
            assert(t[i] == s[q + i]);
            assert(is_digit(s[q + i]));
        }
        lemma_first_after_run(t, 0, t.len() as int, 46);
        let z: nat = 0;
        assert(pow10(z) == 1);
        let w = digits_value(t);
        assert(w * pow10(z) == w) by (nonlinear_arith)
            requires
                pow10(z) == 1,
        ;
    }
    let (c, f) = coordinate_spec(s, p, ndeg, pos, neg)->0;
    assert(minutes_text(s, p, ndeg) == t);
}

/// A decoded latitude is not negative where its hemisphere letter is `N`
/// and not positive where it is `S`; a decoded longitude likewise with `E`
/// and `W`.
pub proof fn lemma_hemisphere_sign(s: Seq<u8>)
    requires
        gll_spec(s) is Ok,
    ensures
        ({
            let r = gll_spec(s)->Ok_0;
            let h = lat_hemisphere_at(s);
            let g = lon_hemisphere_at(s);
            &&& 0 <= h < s.len() && 0 <= g < s.len()
            &&& s[h] == 78 ==> numerator(r.latitude) >= 0
            &&& s[h] == 83 ==> numerator(r.latitude) <= 0
            &&& s[g] == 69 ==> numerator(r.longitude) >= 0
            &&& s[g] == 87 ==> numerator(r.longitude) <= 0
        }),
{
    lemma_degrees_minutes(s);
}

/// A decoded latitude is its degrees plus its minutes over 60, as written
/// in the payload, negated where its hemisphere letter is `S`; a decoded
/// longitude likewise, negated where its letter is `W`.
pub proof fn lemma_degrees_minutes(s: Seq<u8>)
    requires
        gll_spec(s) is Ok,
    ensures
        ({
            let r = gll_spec(s)->Ok_0;
            let h = lat_hemisphere_at(s);
            let g = lon_hemisphere_at(s);
            &&& 0 <= h < s.len() && 0 <= g < s.len()
            &&& (s[h] == 78 || s[h] == 83) && (s[g] == 69 || s[g] == 87)
            &&& written_value(s, 0, 2, 83, r.latitude)
            &&& written_value(s, h + 2, 3, 87, r.longitude)
        }),
{
    let (lat, e) = coordinate_spec(s, 0, 2, 78, 83)->0;
    lemma_coordinate_text(s, 0, 2, 78, 83);
    let (lon, f) = coordinate_spec(s, e + 1, 3, 69, 87)->0;
    lemma_coordinate_text(s, e + 1, 3, 69, 87);
    assert(lat_hemisphere_at(s) == e - 1);
    assert(lon_hemisphere_at(s) == f - 1);
    lemma_coordinate_bounds(s, 0, 2, 78, 83);
    lemma_coordinate_bounds(s, e + 1, 3, 69, 87);
    let r = gll_spec(s)->Ok_0;
    assert(r.latitude == lat);
    assert(r.longitude == lon);
}

proof fn lemma_coordinate_bounds(s: Seq<u8>, p: int, ndeg: int, pos: u8, neg: u8)
    requires
        coordinate_spec(s, p, ndeg, pos, neg) is Some,
    ensures
        ({
            let (c, f) = coordinate_spec(s, p, ndeg, pos, neg)->0;
            p + ndeg + 3 <= f <= s.len()
        }),
{
    let q = p + ndeg;
    let e1 = digit_run_end(s, q);
    lemma_digit_run(s, q);
    if e1 < s.len() && s[e1] == 46 {
        lemma_digit_run(s, e1 + 1);
    }
}

/// The status letter of a payload whose head decodes lies past its start.
proof fn lemma_head_bounds(s: Seq<u8>)
    requires
        head_spec(s) is Ok,
    ensures
        1 <= status_at(s) <= s.len(),
{
    let (lat, e) = coordinate_spec(s, 0, 2, 78, 83)->0;
    lemma_coordinate_bounds(s, 0, 2, 78, 83);
    let (lon, p) = coordinate_spec(s, e + 1, 3, 69, 87)->0;
    lemma_coordinate_bounds(s, e + 1, 3, 69, 87);
    let (t, q) = time_spec(s, p + 1)->0;
    if p + 7 < s.len() && s[p + 7] == 46 {
        lemma_digit_run(s, p + 8);
    }
    crate::digits::lemma_first_at_or_after_bounds(s, q, 44);
}

/// The position of the status letter in a payload whose head decodes.
pub open spec fn status_at(s: Seq<u8>) -> int {
    head_spec(s)->Ok_0.3
}

/// Once the head of a payload decodes, the status letter `A` gives a valid
/// record and `V` an invalid one (where the ',' after it follows); any
/// other byte, or none, stops decoding at the status.
pub proof fn lemma_status_letter(s: Seq<u8>)
    requires
        head_spec(s) is Ok,
    ensures
        ({
            let p = status_at(s);
            &&& (p < s.len() && s[p] == 65 && p + 1 < s.len() && s[p + 1] == 44) ==> gll_spec(
                s,
            ) is Ok && gll_spec(s)->Ok_0.data_state == GLLDataStatus::Valid
            &&& (p < s.len() && s[p] == 86 && p + 1 < s.len() && s[p + 1] == 44) ==> gll_spec(
                s,
            ) is Ok && gll_spec(s)->Ok_0.data_state == GLLDataStatus::Invalid
            &&& !(p < s.len() && (s[p] == 65 || s[p] == 86)) ==> gll_spec(s) == Err::<
                crate::gll::GllView,
                (crate::gll::GllField, int),
            >((crate::gll::GllField::DataStatus, p))
        }),
{
    let p = status_at(s);
    if p < s.len() && s[p] == 65 {
        assert((s[p] as char) == 'A');
    }
    if p < s.len() && s[p] == 86 {
        assert((s[p] as char) != 'A');
    }
}

/// In a decoded record the mode is absent unless one of the letters `A`,
/// `D`, `E`, `M` follows the ',' after the status, and each of those letters
/// gives its own mode.
pub proof fn lemma_mode_letter(s: Seq<u8>)
    requires
        gll_spec(s) is Ok,
    ensures
        ({
            let m = status_at(s) + 2;
            let mode = gll_spec(s)->Ok_0.mode;
            &&& !(m < s.len() && (s[m] == 65 || s[m] == 68 || s[m] == 69 || s[m] == 77))
                ==> mode is None
            &&& (m < s.len() && s[m] == 65) ==> mode == Some(PosSystemIndicator::Autonomous)
            &&& (m < s.len() && s[m] == 68) ==> mode == Some(PosSystemIndicator::Differential)
            &&& (m < s.len() && s[m] == 69) ==> mode == Some(PosSystemIndicator::EstimatedMode)
            &&& (m < s.len() && s[m] == 77) ==> mode == Some(PosSystemIndicator::ManualInput)
        }),
{
    lemma_head_bounds(s);
    let m = status_at(s) + 2;
    assert(gll_spec(s)->Ok_0.mode == crate::gll::mode_spec(s, m));
    if m < s.len() {
        let b = s[m];
        if b == 65 {
            assert((b as char) == 'A');
        } else if b == 68 {
            assert((b as char) == 'D');
        } else if b == 69 {
            assert((b as char) == 'E');
        } else if b == 77 {
            assert((b as char) == 'M');
        }
    }
}

} // verus!
