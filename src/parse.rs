//! Reading a frequency from text such as "2.5GHz" or "100 kHz".
use vstd::prelude::*;
use crate::error::{Error, ErrorView, result_view};
use crate::frequency::Frequency;
use crate::numeral::{
    all_digits, digit_of, digits_value, is_digit, lemma_digits_value_concat,
    lemma_first_digit_decides_half, lemma_pow10_positive,
    lemma_round_split, pow10, push_digit_saturating, round_half_up, saturate,
};
use crate::text::{
    all_ascii, ascii_lowered, lemma_ascii_lowered_unique, lower_of, lowercase, trim, trim_ws,
};

verus! {

pub open spec fn ends_with(t: Seq<char>, suffix: Seq<char>) -> bool {
    t.len() >= suffix.len() && t.subrange(t.len() - suffix.len(), t.len() as int) == suffix
}

/// The text before the unit suffix, and the power of ten of that unit.
/// Longer suffixes are tried first, since "hz" ends all of them.
pub open spec fn split_unit(t: Seq<char>) -> Option<(Seq<char>, nat)> {
    if ends_with(t, seq!['g', 'h', 'z']) {
        Some((t.subrange(0, t.len() - 3), 9nat))
    } else if ends_with(t, seq!['m', 'h', 'z']) {
        Some((t.subrange(0, t.len() - 3), 6nat))
    } else if ends_with(t, seq!['k', 'h', 'z']) {
        Some((t.subrange(0, t.len() - 3), 3nat))
    } else if ends_with(t, seq!['h', 'z']) {
        Some((t.subrange(0, t.len() - 2), 0nat))
    } else {
        None
    }
}

/// The number of leading decimal digits of `s`.
pub open spec fn leading_digits(s: Seq<char>) -> nat
    decreases s.len(),
{
    if s.len() > 0 && is_digit(s[0]) {
        1 + leading_digits(s.drop_first())
    } else {
        0
    }
}

/// 1 when `q` starts with a sign, else 0.
pub open spec fn sign_len(q: Seq<char>) -> nat {
    if q.len() > 0 && (q[0] == '+' || q[0] == '-') {
        1
    } else {
        0
    }
}

/// The exponent of a numeral: empty, or `e`, an optional sign and digits.
pub open spec fn exponent(r: Seq<char>) -> Option<int> {
    if r.len() == 0 {
        Some(0)
    } else if r[0] == 'e' {
        let e = r.skip(1);
        let digits = e.skip(sign_len(e) as int);
        if digits.len() > 0 && all_digits(digits) {
            if sign_len(e) == 1 && e[0] == '-' {
                Some(-digits_value(digits))
            } else {
                Some(digits_value(digits) as int)
            }
        } else {
            None
        }
    } else {
        None
    }
}

/// A decimal numeral `[+|-] digits [. digits] [e [+|-] digits]` with at
/// least one digit before the exponent: whether it is negative, its integer
/// digits, its fraction digits and its exponent.
pub open spec fn numeral(q: Seq<char>) -> Option<(bool, Seq<char>, Seq<char>, int)> {
    let body = q.skip(sign_len(q) as int);
    let n = leading_digits(body);
    let int_part = body.take(n as int);
    let r1 = body.skip(n as int);
    let has_point = r1.len() > 0 && r1[0] == '.';
    let r2 = if has_point {
        r1.skip(1)
    } else {
        r1
    };
    let m = if has_point {
        leading_digits(r2)
    } else {
        0
    };
    let frac_part = r2.take(m as int);
    match exponent(r2.skip(m as int)) {
        Some(e) => if int_part.len() + frac_part.len() > 0 {
            Some((sign_len(q) == 1 && q[0] == '-', int_part, frac_part, e))
        } else {
            None
        },
        None => None,
    }
}

/// `int_part.frac_part` times `10^(scale + exp)`, rounded to the nearest
/// whole number (halves up) and clamped into `u64`.
pub open spec fn hertz_of(int_part: Seq<char>, frac_part: Seq<char>, exp: int, scale: nat) -> u64 {
    let v = digits_value(int_part + frac_part);
    let shift = scale + exp - frac_part.len();
    if shift >= 0 {
        saturate((v * pow10(shift as nat)) as int)
    } else {
        saturate(round_half_up(v, pow10((-shift) as nat)) as int)
    }
}

/// The words for infinity and not-a-number, with an optional sign: whether
/// the sign is negative, and the hertz they stand for (infinity clamps to the
/// largest count, not-a-number gives zero).
pub open spec fn special_value(q: Seq<char>) -> Option<(bool, u64)> {
    let body = q.skip(sign_len(q) as int);
    let negative = sign_len(q) == 1 && q[0] == '-';
    if body == seq!['i', 'n', 'f'] || body == seq!['i', 'n', 'f', 'i', 'n', 'i', 't', 'y'] {
        Some((negative, u64::MAX))
    } else if body == seq!['n', 'a', 'n'] {
        Some((negative, 0u64))
    } else {
        None
    }
}

/// What parsing the trimmed, lower-cased text `t` gives: hertz, or an error.
pub open spec fn parse_spec(t: Seq<char>) -> Result<u64, ErrorView> {
    match split_unit(t) {
        None => Err(ErrorView::UnknownUnit(t)),
        Some((prefix, scale)) => match numeral(trim_ws(prefix)) {
            None => match special_value(trim_ws(prefix)) {
                Some((negative, hz)) => if negative {
                    Err(ErrorView::InvalidValue(prefix))
                } else {
                    Ok(hz)
                },
                None => Err(ErrorView::InvalidValue(prefix)),
            },
            Some((negative, int_part, frac_part, exp)) => if negative {
                Err(ErrorView::InvalidValue(prefix))
            } else {
                Ok(hertz_of(int_part, frac_part, exp, scale))
            },
        },
    }
}

pub proof fn lemma_leading_digits(s: Seq<char>, k: nat)
    requires
        k <= s.len(),
        forall|i: int| 0 <= i < k ==> is_digit(#[trigger] s[i]),
        k == s.len() || !is_digit(s[k as int]),
    ensures
        leading_digits(s) == k,
    decreases k,
{
    if k > 0 {
        let rest = s.drop_first();
        assert forall|i: int| 0 <= i < k - 1 implies is_digit(#[trigger] rest[i]) by {
            assert(rest[i] == s[i + 1]);
        }
        if k < s.len() {
            assert(rest[k - 1] == s[k as int]);
        }
        lemma_leading_digits(rest, (k - 1) as nat);
    }
}

fn is_digit_char(c: char) -> (r: bool)
    ensures
        r == is_digit(c),
{
    '0' <= c && c <= '9'
}

fn digit_value(c: char) -> (r: u64)
    requires
        is_digit(c),
    ensures
        r == digit_of(c),
        r < 10,
{
    ((c as u32) - ('0' as u32)) as u64
}

fn ends_with3(t: &str, n: usize, a: char, b: char, c: char) -> (r: bool)
    requires
        n == t@.len(),
    ensures
        r == ends_with(t@, seq![a, b, c]),
{
    let r = n >= 3 && t.get_char(n - 3) == a && t.get_char(n - 2) == b && t.get_char(n - 1) == c;
    proof {
        if n >= 3 {
            if r {
                assert(t@.subrange(n - 3, n as int) =~= seq![a, b, c]);
            } else {
                let tail = t@.subrange(n - 3, n as int);
                assert(tail[0] == t@[n - 3]);
                assert(tail[1] == t@[n - 2]);
                assert(tail[2] == t@[n - 1]);
                assert(seq![a, b, c][0] == a && seq![a, b, c][1] == b && seq![a, b, c][2] == c);
            }
        }
    }
    r
}

fn ends_with2(t: &str, n: usize, a: char, b: char) -> (r: bool)
    requires
        n == t@.len(),
    ensures
        r == ends_with(t@, seq![a, b]),
{
    let r = n >= 2 && t.get_char(n - 2) == a && t.get_char(n - 1) == b;
    proof {
        if n >= 2 {
            if r {
                assert(t@.subrange(n - 2, n as int) =~= seq![a, b]);
            } else {
                let tail = t@.subrange(n - 2, n as int);
                assert(tail[0] == t@[n - 2]);
                assert(tail[1] == t@[n - 1]);
                assert(seq![a, b][0] == a && seq![a, b][1] == b);
            }
        }
    }
    r
}

/// The value of the first `k` digits, clamped into `u64`.
fn prefix_value(digits: &Vec<char>, k: usize) -> (r: u64)
    requires
        all_digits(digits@),
        k <= digits.len(),
    ensures
        r == saturate(digits_value(digits@.take(k as int)) as int),
{
    let mut acc: u64 = 0;
    let mut i: usize = 0;
    assert(digits@.take(0) =~= Seq::<char>::empty());
    while i < k
        invariant
            i <= k <= digits.len(),
            all_digits(digits@),
            acc == saturate(digits_value(digits@.take(i as int)) as int),
        decreases k - i,
    {
        let d = digit_value(digits[i]);
        let ghost before = digits_value(digits@.take(i as int)) as int;
        acc = push_digit_saturating(acc, d);
        proof {
            assert(digits@.take(i + 1).drop_last() =~= digits@.take(i as int));
            assert(digits@.take(i + 1).last() == digits@[i as int]);
            assert(acc == saturate(10 * before + d));
        }
        i += 1;
    }
    acc
}

/// The hertz that a digit string gives once its decimal point is moved
/// `shift` places to the right.
pub open spec fn shifted(v: nat, shift: int) -> u64 {
    if shift >= 0 {
        saturate((v * pow10(shift as nat)) as int)
    } else {
        saturate(round_half_up(v, pow10((-shift) as nat)) as int)
    }
}

pub proof fn lemma_pow10_monotonic(a: nat, b: nat)
    requires
        a <= b,
    ensures
        pow10(a) <= pow10(b),
    decreases b - a,
{
    if a < b {
        lemma_pow10_monotonic(a, (b - 1) as nat);
        lemma_pow10_positive((b - 1) as nat);
    }
}

/// Far enough out, the shift no longer matters: a value shifted twenty places
/// left is clamped, and one shifted right past all its digits rounds to zero.
pub proof fn lemma_shift_far(v: nat, len: nat, shift: int)
    requires
        v < pow10(len),
        shift >= 20 || -shift > len,
    ensures
        shifted(v, shift) == (if v == 0 || shift < 0 {
            0u64
        } else {
            u64::MAX
        }),
{
    if shift >= 20 {
        lemma_pow10_monotonic(20, shift as nat);
        assert(pow10(20) > u64::MAX) by {
            reveal_with_fuel(pow10, 21);
        }
        let p = pow10(shift as nat);
        if v > 0 {
            assert(v * p >= p) by (nonlinear_arith)
                requires
                    v >= 1,
            ;
        } else {
            assert(v * p == 0) by (nonlinear_arith)
                requires
                    v == 0,
            ;
        }
    } else {
        let t = (-shift) as nat;
        lemma_pow10_monotonic(len + 1, t);
        assert(pow10(len + 1) == 10 * pow10(len));
        let d = pow10(t);
        assert((2 * v + d) / (2 * d) == 0) by (nonlinear_arith)
            requires
                2 * v < d,
        ;
    }
}

/// The digit string `digits` with its decimal point moved `shift` places to
/// the right, rounded to whole units (halves up) and clamped into `u64`.
fn shifted_value(digits: &Vec<char>, shift: i128) -> (r: u64)
    requires
        all_digits(digits@),
    ensures
        r == shifted(digits_value(digits@), shift as int),
{
    let ghost v = digits_value(digits@);
    let len = digits.len();
    let total = prefix_value(digits, len);
    assert(digits@.take(len as int) =~= digits@);
    proof {
        crate::numeral::lemma_digits_value_bound(digits@);
    }
    if total == 0 {
        proof {
            if shift < 0 {
                let d = pow10((-shift) as nat);
                lemma_pow10_positive((-shift) as nat);
                assert((2 * 0 + d) / (2 * d) == 0) by (nonlinear_arith)
                    requires
                        d > 0,
                ;
            }
        }
        return 0;
    }
    if shift >= 20 {
        proof {
            lemma_shift_far(v, len as nat, shift as int);
        }
        return u64::MAX;
    }
    if shift >= 0 {
        let mut acc = total;
        let n: usize = shift as usize;
        let mut e: usize = 0;
        assert(pow10(0) == 1);
        assert(v * 1 == v);
        while e < n
            invariant
                e <= n,
                acc == saturate((v * pow10(e as nat)) as int),
            decreases n - e,
        {
            let ghost x = (v * pow10(e as nat)) as int;
            acc = push_digit_saturating(acc, 0);
            proof {
                assert(pow10((e + 1) as nat) == 10 * pow10(e as nat));
                assert(v * (10 * pow10(e as nat)) == 10 * (v * pow10(e as nat))) by (nonlinear_arith);
                assert(acc == saturate(10 * x + 0));
            }
            e += 1;
        }
        return acc;
    }
    if shift < -(len as i128) {
        proof {
            lemma_shift_far(v, len as nat, shift as int);
        }
        return 0;
    }
    let t: usize = (-shift) as usize;
    let cut: usize = len - t;
    let acc = prefix_value(digits, cut);
    if t == 0 {
        return acc;
    }
    let up = digit_value(digits[cut]) >= 5;
    proof {
        let head = digits@.take(cut as int);
        let tail = digits@.skip(cut as int);
        assert(head + tail =~= digits@);
        lemma_digits_value_concat(head, tail);
        assert(all_digits(tail)) by {
            assert forall|i: int| 0 <= i < tail.len() implies is_digit(#[trigger] tail[i]) by {
                assert(tail[i] == digits@[cut + i]);
            }
        }
        assert(tail[0] == digits@[cut as int]);
        lemma_first_digit_decides_half(tail);
        crate::numeral::lemma_digits_value_bound(tail);
        lemma_pow10_positive(tail.len());
        assert(pow10(tail.len()) * 1 == pow10(tail.len()));
        lemma_round_split(digits_value(head), digits_value(tail), pow10(tail.len()), 1);
    }
    if up && acc < u64::MAX {
        acc + 1
    } else {
        acc
    }
}

/// Exponents are read up to this size; any larger one moves every digit out
/// of reach of a `u64`.
pub const EXPONENT_CAP: u128 = 1_000_000_000_000_000_000_000_000_000_000;

/// `min(10 * x + d, EXPONENT_CAP)`, from `min(x, EXPONENT_CAP)`.
fn push_exponent_digit(acc: u128, d: u64) -> (r: u128)
    requires
        d < 10,
        acc <= EXPONENT_CAP,
    ensures
        r <= EXPONENT_CAP,
        forall|x: int|
            x >= 0 && acc == #[trigger] capped(x) ==> r == capped(10 * x + d),
{
    if acc >= EXPONENT_CAP {
        EXPONENT_CAP
    } else if acc * 10 + d as u128 >= EXPONENT_CAP {
        EXPONENT_CAP
    } else {
        acc * 10 + d as u128
    }
}

pub open spec fn capped(x: int) -> u128 {
    if x >= EXPONENT_CAP {
        EXPONENT_CAP
    } else {
        x as u128
    }
}

/// Reads the exponent that `q` ends with from index `i` on: whether it is
/// negative, and its magnitude capped at `EXPONENT_CAP`.
fn read_exponent(q: &str, start: usize) -> (r: Option<(bool, u128)>)
    requires
        start <= q@.len(),
    ensures
        match exponent(q@.subrange(start as int, q@.len() as int)) {
            None => r is None,
            Some(exp) => match r {
                Some((exp_negative, exp_size)) => exp_size == capped(if exp_negative {
                    -exp
                } else {
                    exp
                }) && (exp_negative ==> exp <= 0) && (!exp_negative ==> exp >= 0),
                None => false,
            },
        },
{
    let m = q.unicode_len();
    let mut i: usize = start;
    let ghost r3 = q@.subrange(start as int, m as int);
    let mut exp_negative = false;
    let mut exp_size: u128 = 0;
    if i < m {
        if q.get_char(i) != 'e' {
            return None;
        }
        i += 1;
        let ghost e = q@.subrange(i as int, m as int);
        assert(r3.skip(1) =~= e);
        if i < m {
            let c = q.get_char(i);
            if c == '+' || c == '-' {
                exp_negative = c == '-';
                i += 1;
            }
        }
        let exp_start = i;
        let ghost ed = q@.subrange(exp_start as int, m as int);
        assert(e.skip(sign_len(e) as int) =~= ed);
        assert(exp_negative == (sign_len(e) == 1 && e[0] == '-'));
        assert(q@.subrange(exp_start as int, exp_start as int) =~= Seq::<char>::empty());
        assert(digits_value(Seq::<char>::empty()) == 0);
        while i < m && is_digit_char(q.get_char(i))
            invariant
                exp_start <= i <= m,
                m == q@.len(),
                exp_size <= EXPONENT_CAP,
                all_digits(q@.subrange(exp_start as int, i as int)),
                exp_size == capped(digits_value(q@.subrange(exp_start as int, i as int)) as int),
            decreases m - i,
        {
            let ghost before = q@.subrange(exp_start as int, i as int);
            let d = digit_value(q.get_char(i));
            exp_size = push_exponent_digit(exp_size, d);
            i += 1;
            proof {
                let after = q@.subrange(exp_start as int, i as int);
                assert(after.drop_last() =~= before);
                assert(after.last() == q@[i - 1]);
                assert(exp_size == capped(10 * (digits_value(before) as int) + d));
                assert(all_digits(after)) by {
                    assert forall|k: int| 0 <= k < after.len() implies is_digit(#[trigger] after[k]) by {
                        if k < before.len() {
                            assert(after[k] == before[k]);
                        }
                    }
                }
            }
        }
        if i < m {
            proof {
                assert(ed[i - exp_start] == q@[i as int]);
            }
            return None;
        }
        if i == exp_start {
            return None;
        }
        assert(ed =~= q@.subrange(exp_start as int, i as int));
    } else {
        assert(r3.len() == 0);
        assert(capped(0) == 0);
    }
    Some((exp_negative, exp_size))
}

/// Reads `q` as a numeral: whether it is negative, its digits (integer part
/// then fraction), the number of fraction digits, whether the exponent is
/// negative, and the exponent's magnitude capped at `EXPONENT_CAP`.
#[verifier::rlimit(50)]
fn read_numeral(q: &str) -> (r: Option<(bool, Vec<char>, usize, bool, u128)>)
    ensures
        match numeral(q@) {
            None => r is None,
            Some((negative, int_part, frac_part, exp)) => match r {
                Some((is_negative, digits, frac_len, exp_negative, exp_size)) => is_negative
                    == negative && digits@ == int_part + frac_part && frac_len == frac_part.len()
                    && all_digits(digits@) && exp_size == capped(if exp_negative {
                    -exp
                } else {
                    exp
                }) && (exp_negative ==> exp <= 0) && (!exp_negative ==> exp >= 0),
                None => false,
            },
        },
{
    let m = q.unicode_len();
    let mut i: usize = 0;
    let mut negative = false;
    if m > 0 {
        let c = q.get_char(0);
        if c == '+' || c == '-' {
            negative = c == '-';
            i = 1;
        }
    }
    let start = i;
    assert(start == sign_len(q@));
    assert(negative == (sign_len(q@) == 1 && q@[0] == '-'));
    let ghost body = q@.skip(start as int);
    let mut digits: Vec<char> = Vec::new();
    while i < m && is_digit_char(q.get_char(i))
        invariant
            start <= i <= m,
            m == q@.len(),
            digits@ == q@.subrange(start as int, i as int),
            all_digits(digits@),
        decreases m - i,
    {
        digits.push(q.get_char(i));
        i += 1;
        assert(digits@ =~= q@.subrange(start as int, i as int));
    }
    let int_end = i;
    proof {
        assert forall|k: int| 0 <= k < int_end - start implies is_digit(#[trigger] body[k]) by {
            assert(body[k] == digits@[k]);
        }
        if int_end < m {
            assert(body[int_end - start] == q@[int_end as int]);
        }
        lemma_leading_digits(body, (int_end - start) as nat);
        assert(body.take(int_end - start) =~= digits@);
        assert(body.skip(int_end - start) =~= q@.subrange(int_end as int, m as int));
    }
    let ghost r1 = q@.subrange(int_end as int, m as int);
    let has_point = i < m && q.get_char(i) == '.';
    if has_point {
        i += 1;
    }
    let frac_start = i;
    let ghost r2 = q@.subrange(frac_start as int, m as int);
    assert(has_point ==> r2 =~= r1.skip(1));
    assert(!has_point ==> r2 =~= r1);
    if has_point {
        while i < m && is_digit_char(q.get_char(i))
            invariant
                start <= int_end < frac_start <= i <= m,
                m == q@.len(),
                digits@ == q@.subrange(start as int, int_end as int) + q@.subrange(
                    frac_start as int,
                    i as int,
                ),
                all_digits(digits@),
            decreases m - i,
        {
            digits.push(q.get_char(i));
            i += 1;
            assert(digits@ =~= q@.subrange(start as int, int_end as int) + q@.subrange(
                frac_start as int,
                i as int,
            ));
        }
        proof {
            assert forall|k: int| 0 <= k < i - frac_start implies is_digit(#[trigger] r2[k]) by {
                assert(r2[k] == digits@[int_end - start + k]);
            }
            if i < m {
                assert(r2[i - frac_start] == q@[i as int]);
            }
            lemma_leading_digits(r2, (i - frac_start) as nat);
        }
    } else {
        assert(digits@ =~= q@.subrange(start as int, int_end as int) + q@.subrange(
            frac_start as int,
            i as int,
        ));
    }
    let frac_end = i;
    let frac_len: usize = frac_end - frac_start;
    assert(r2.take(frac_len as int) =~= q@.subrange(frac_start as int, frac_end as int));
    let ghost r3 = q@.subrange(frac_end as int, m as int);
    assert(r2.skip(frac_len as int) =~= r3);
    let (exp_negative, exp_size) = match read_exponent(q, frac_end) {
        Some(x) => x,
        None => {
            return None;
        },
    };
    if digits.len() == 0 {
        return None;
    }
    Some((negative, digits, frac_len, exp_negative, exp_size))
}

/// Whether the characters of `s` are those of `w`.
fn same_chars(s: &str, w: &Vec<char>) -> (r: bool)
    ensures
        r == (s@ == w@),
{
    let n = s.unicode_len();
    if n != w.len() {
        return false;
    }
    let mut i: usize = 0;
    while i < n
        invariant
            i <= n,
            n == s@.len(),
            n == w@.len(),
            forall|k: int| 0 <= k < i ==> s@[k] == w@[k],
        decreases n - i,
    {
        if s.get_char(i) != w[i] {
            return false;
        }
        i += 1;
    }
    assert(s@ =~= w@);
    true
}

/// Reads `q` as a word for infinity or not-a-number.
fn read_special(q: &str) -> (r: Option<(bool, u64)>)
    ensures
        r == special_value(q@),
{
    let m = q.unicode_len();
    let mut start: usize = 0;
    let mut negative = false;
    if m > 0 {
        let c = q.get_char(0);
        if c == '+' || c == '-' {
            negative = c == '-';
            start = 1;
        }
    }
    assert(start == sign_len(q@));
    let body = q.substring_char(start, m);
    assert(body@ =~= q@.skip(start as int));
    if same_chars(body, &vec!['i', 'n', 'f']) || same_chars(
        body,
        &vec!['i', 'n', 'f', 'i', 'n', 'i', 't', 'y'],
    ) {
        Some((negative, u64::MAX))
    } else if same_chars(body, &vec!['n', 'a', 'n']) {
        Some((negative, 0))
    } else {
        None
    }
}

/// Parses text that is already trimmed and lower-cased, such as "2.5 khz".
pub fn parse_lowered(t: &str) -> (r: Result<Frequency, Error>)
    ensures
        result_view(r) == parse_spec(t@),
{
    let n = t.unicode_len();
    let (prefix_len, scale): (usize, usize) = if ends_with3(t, n, 'g', 'h', 'z') {
        (n - 3, 9)
    } else if ends_with3(t, n, 'm', 'h', 'z') {
        (n - 3, 6)
    } else if ends_with3(t, n, 'k', 'h', 'z') {
        (n - 3, 3)
    } else if ends_with2(t, n, 'h', 'z') {
        (n - 2, 0)
    } else {
        return Err(Error::UnknownUnit(String::from_str(t)));
    };
    let prefix = t.substring_char(0, prefix_len);
    let q = trim(prefix);
    match read_numeral(q) {
        None => match read_special(q) {
            Some((negative, hz)) => {
                if negative {
                    Err(Error::InvalidValue(String::from_str(prefix)))
                } else {
                    Ok(Frequency(hz))
                }
            },
            None => Err(Error::InvalidValue(String::from_str(prefix))),
        },
        Some((negative, digits, frac_len, exp_negative, exp_size)) => {
            if negative {
                Err(Error::InvalidValue(String::from_str(prefix)))
            } else {
                let exp: i128 = if exp_negative {
                    -(exp_size as i128)
                } else {
                    exp_size as i128
                };
                let shift: i128 = scale as i128 + exp - frac_len as i128;
                let r = shifted_value(&digits, shift);
                proof {
                    crate::numeral::lemma_digits_value_bound(digits@);
                    if exp_size == EXPONENT_CAP {
                        let v = digits_value(digits@);
                        let ghost exact = match numeral(trim_ws(prefix@)) {
                            Some((_, _, frac_part, e)) => scale + e - frac_part.len(),
                            None => 0,
                        };
                        lemma_shift_far(v, digits.len() as nat, shift as int);
                        lemma_shift_far(v, digits.len() as nat, exact);
                    }
                }
                Ok(Frequency(r))
            }
        },
    }
}

/// Parses a frequency such as "2.5GHz", "100 kHz", "1e3 MHz" or "440hz".
///
/// The text is trimmed and lower-cased; its unit suffix (ghz, mhz, khz or
/// hz) picks the multiplier; the text before it, trimmed, must be a
/// non-negative decimal numeral, optionally with an exponent. Its value is
/// read exactly, not through binary floating point; the hertz count is
/// rounded to the nearest whole number (halves up) and clamped into `u64`.
/// As in floating-point text, "inf" and "infinity" stand for infinity, which
/// clamps to the largest count, and "nan" gives zero; each may carry a sign,
/// and a negative one, as for any number, makes the value invalid.
pub fn parse_frequency(s: &str) -> (r: Result<Frequency, Error>)
    ensures
        result_view(r) == parse_spec(lower_of(trim_ws(s@))),
        forall|l: Seq<char>|
            all_ascii(trim_ws(s@)) && #[trigger] ascii_lowered(trim_ws(s@), l) ==> result_view(r)
                == parse_spec(l),
{
    let lowered = lowercase(trim(s));
    proof {
        assert forall|l: Seq<char>|
            all_ascii(trim_ws(s@)) && #[trigger] ascii_lowered(trim_ws(s@), l) implies l
            == lowered@ by {
            lemma_ascii_lowered_unique(trim_ws(s@), l, lowered@);
        }
    }
    parse_lowered(lowered.as_str())
}

} // verus!

verus! {

impl core::str::FromStr for Frequency {
    type Err = Error;

    /// The same as `parse_frequency`.
    fn from_str(s: &str) -> (r: Result<Frequency, Error>)
        ensures
            result_view(r) == parse_spec(lower_of(trim_ws(s@))),
        forall|l: Seq<char>|
            all_ascii(trim_ws(s@)) && #[trigger] ascii_lowered(trim_ws(s@), l) ==> result_view(r)
                == parse_spec(l),
    {
        parse_frequency(s)
    }
}

impl vstd::std_specs::convert::TryFromSpecImpl<&str> for Frequency {
    /// Callers go by the `ensures` of `try_from`, not by this function.
    open spec fn obeys_try_from_spec() -> bool {
        false
    }

    open spec fn try_from_spec(s: &str) -> Result<Frequency, Error> {
        vstd::pervasive::arbitrary()
    }
}

impl TryFrom<&str> for Frequency {
    type Error = Error;

    /// The same as `parse_frequency`.
    fn try_from(s: &str) -> (r: Result<Frequency, Error>)
        ensures
            result_view(r) == parse_spec(lower_of(trim_ws(s@))),
        forall|l: Seq<char>|
            all_ascii(trim_ws(s@)) && #[trigger] ascii_lowered(trim_ws(s@), l) ==> result_view(r)
                == parse_spec(l),
    {
        parse_frequency(s)
    }
}

impl vstd::std_specs::convert::TryFromSpecImpl<String> for Frequency {
    /// Callers go by the `ensures` of `try_from`, not by this function.
    open spec fn obeys_try_from_spec() -> bool {
        false
    }

    open spec fn try_from_spec(s: String) -> Result<Frequency, Error> {
        vstd::pervasive::arbitrary()
    }
}

impl TryFrom<String> for Frequency {
    type Error = Error;

    /// The same as `parse_frequency`.
    fn try_from(s: String) -> (r: Result<Frequency, Error>)
        ensures
            result_view(r) == parse_spec(lower_of(trim_ws(s@))),
        forall|l: Seq<char>|
            all_ascii(trim_ws(s@)) && #[trigger] ascii_lowered(trim_ws(s@), l) ==> result_view(r)
                == parse_spec(l),
    {
        parse_frequency(s.as_str())
    }
}

} // verus!
