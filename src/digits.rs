use vstd::prelude::*;

verus! {

/// Whether a byte is an ASCII decimal digit.
pub open spec fn is_digit(b: u8) -> bool {
    48 <= b && b <= 57
}

/// Whether every byte of `s` is a decimal digit.
pub open spec fn all_digits(s: Seq<u8>) -> bool {
    forall|i: int| 0 <= i < s.len() ==> is_digit(#[trigger] s[i])
}

/// The number written in decimal by the digits of `s`, most significant first.
pub open spec fn digits_value(s: Seq<u8>) -> nat
    decreases s.len(),
{
    if s.len() == 0 {
        0
    } else {
        digits_value(s.drop_last()) * 10 + (s.last() - 48) as nat
    }
}

/// Ten to the power `n`.
pub open spec fn pow10(n: nat) -> nat
    decreases n,
{
    if n == 0 {
        1
    } else {
        10 * pow10((n - 1) as nat)
    }
}

/// The end of the run of digits that starts at `p`: the first position at or
/// after `p` that holds no digit (the length of `s` if there is none).
pub open spec fn digit_run_end(s: Seq<u8>, p: int) -> int
    decreases s.len() - p,
{
    if 0 <= p < s.len() && is_digit(s[p]) {
        digit_run_end(s, p + 1)
    } else {
        p
    }
}

/// The first position at or after `p` that holds the byte `b` (the length of
/// `s` if there is none).
pub open spec fn first_at_or_after(s: Seq<u8>, p: int, b: u8) -> int
    decreases s.len() - p,
{
    if 0 <= p < s.len() && s[p] != b {
        first_at_or_after(s, p + 1, b)
    } else if p < 0 {
        p
    } else if p < s.len() {
        p
    } else {
        s.len() as int
    }
}

pub proof fn lemma_pow10_positive(n: nat)
    ensures
        pow10(n) >= 1,
    decreases n,
{
    if n > 0 {
        lemma_pow10_positive((n - 1) as nat);
    }
}

pub proof fn lemma_pow10_monotone(a: nat, b: nat)
    requires
        a <= b,
    ensures
        pow10(a) <= pow10(b),
    decreases b,
{
    if a < b {
        lemma_pow10_monotone(a, (b - 1) as nat);
        lemma_pow10_positive((b - 1) as nat);
    }
}

pub proof fn lemma_pow10_18()
    ensures
        pow10(18) == 1_000_000_000_000_000_000,
{
    reveal_with_fuel(pow10, 19);
}

pub proof fn lemma_pow10_add(a: nat, b: nat)
    ensures
        pow10(a + b) == pow10(a) * pow10(b),
    decreases b,
{
    if b > 0 {
        lemma_pow10_add(a, (b - 1) as nat);
        assert(pow10(a + b) == 10 * pow10((a + b - 1) as nat));
        assert(pow10(a) * pow10(b) == pow10(a) * (10 * pow10((b - 1) as nat)));
        assert(pow10(a) * (10 * pow10((b - 1) as nat)) == 10 * (pow10(a) * pow10(
            (b - 1) as nat,
        ))) by (nonlinear_arith);
    } else {
        assert(a + b == a);
        assert(pow10(b) == 1);
    }
}

/// A number of `n` digits is below ten to the power `n`.
pub proof fn lemma_digits_value_bound(s: Seq<u8>)
    requires
        all_digits(s),
    ensures
        digits_value(s) < pow10(s.len()),
    decreases s.len(),
{
    if s.len() > 0 {
        let t = s.drop_last();
        assert(all_digits(t)) by {
            assert forall|i: int| 0 <= i < t.len() implies is_digit(#[trigger] t[i]) by {
                assert(t[i] == s[i]);
            }
        }
        lemma_digits_value_bound(t);
        assert(is_digit(s[s.len() - 1]));
        let v = digits_value(t);
        let d = (s.last() - 48) as nat;
        assert(v * 10 + d < pow10(t.len()) * 10) by (nonlinear_arith)
            requires
                v < pow10(t.len()),
                d <= 9,
        ;
    }
}

/// Every position of `s` from `p` up to the end of the digit run is a digit.
pub proof fn lemma_digit_run(s: Seq<u8>, p: int)
    requires
        0 <= p <= s.len(),
    ensures
        p <= digit_run_end(s, p) <= s.len(),
        forall|i: int| p <= i < digit_run_end(s, p) ==> is_digit(#[trigger] s[i]),
        digit_run_end(s, p) < s.len() ==> !is_digit(s[digit_run_end(s, p)]),
    decreases s.len() - p,
{
    if p < s.len() && is_digit(s[p]) {
        lemma_digit_run(s, p + 1);
    }
}

pub proof fn lemma_first_at_or_after_bounds(s: Seq<u8>, p: int, b: u8)
    requires
        0 <= p <= s.len(),
    ensures
        p <= first_at_or_after(s, p, b) <= s.len(),
    decreases s.len() - p,
{
    if p < s.len() && s[p] != b {
        lemma_first_at_or_after_bounds(s, p + 1, b);
    }
}

/// The first `b` after a run of bytes that are not `b` is the one that ends it.
pub proof fn lemma_first_after_run(s: Seq<u8>, p: int, e: int, b: u8)
    requires
        0 <= p <= e <= s.len(),
        forall|i: int| p <= i < e ==> s[i] != b,
        e < s.len() ==> s[e] == b,
    ensures
        first_at_or_after(s, p, b) == e,
    decreases e - p,
{
    if p < e {
        lemma_first_after_run(s, p + 1, e, b);
    }
}

/// The end of the run of digits that starts at `p`.
pub fn scan_digits(s: &[u8], p: usize) -> (e: usize)
    requires
        p <= s@.len(),
    ensures
        e as int == digit_run_end(s@, p as int),
        p <= e <= s@.len(),
{
    let mut e: usize = p;
    while e < s.len() && 48 <= s[e] && s[e] <= 57
        invariant
            p <= e <= s@.len(),
            digit_run_end(s@, p as int) == digit_run_end(s@, e as int),
        decreases s@.len() - e,
    {
        e = e + 1;
    }
    e
}

/// The first position at or after `p` that holds `b`, or the length of `s`.
pub fn find_byte(s: &[u8], p: usize, b: u8) -> (e: usize)
    requires
        p <= s@.len(),
    ensures
        e as int == first_at_or_after(s@, p as int, b),
        p <= e <= s@.len(),
        e < s@.len() ==> s@[e as int] == b,
{
    let mut e: usize = p;
    while e < s.len() && s[e] != b
        invariant
            p <= e <= s@.len(),
            first_at_or_after(s@, p as int, b) == first_at_or_after(s@, e as int, b),
        decreases s@.len() - e,
    {
        e = e + 1;
    }
    e
}

/// The value of the digits `s[a..b]`, of which there are at most eighteen.
pub fn digits_to_u64(s: &[u8], a: usize, b: usize) -> (v: u64)
    requires
        a <= b <= s@.len(),
        b - a <= 18,
        all_digits(s@.subrange(a as int, b as int)),
    ensures
        v == digits_value(s@.subrange(a as int, b as int)),
{
    let mut v: u64 = 0;
    let mut i: usize = a;
    proof {
        lemma_pow10_18();
        assert(s@.subrange(a as int, a as int).len() == 0);
    }
    while i < b
        invariant
            a <= i <= b,
            b <= s@.len(),
            b - a <= 18,
            all_digits(s@.subrange(a as int, b as int)),
            pow10(18) == 1_000_000_000_000_000_000,
            v == digits_value(s@.subrange(a as int, i as int)),
        decreases b - i,
    {
        let ghost prefix = s@.subrange(a as int, i as int);
        let ghost next = s@.subrange(a as int, i + 1);
        proof {
            assert(next.drop_last() =~= prefix);
            assert(s@[i as int] == s@.subrange(a as int, b as int)[i - a]);
            assert(all_digits(prefix)) by {
                assert forall|j: int| 0 <= j < prefix.len() implies is_digit(#[trigger] prefix[j]) by {
                    assert(prefix[j] == s@.subrange(a as int, b as int)[j]);
                }
            }
            lemma_digits_value_bound(prefix);
            lemma_pow10_monotone(prefix.len(), 17);
            assert(pow10(18) == 10 * pow10(17));
        }
        v = v * 10 + (s[i] - 48) as u64;
        i = i + 1;
    }
    v
}

} // verus!
