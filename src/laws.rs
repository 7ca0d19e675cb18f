//! Properties that relate the parser, the formatter and the text they share.
use vstd::prelude::*;
use crate::format::{decimal, digit_char, fixed2, format_spec};
use crate::frequency::Frequency;
use crate::numeral::{
    all_digits, digit_of, digits_value, is_digit, lemma_digits_value_concat, lemma_pow10_add,
    lemma_round_exact, pow10, round_half_up, saturate,
};
use crate::parse::{
    ends_with, hertz_of, leading_digits, numeral, parse_spec, sign_len, split_unit,
};
use crate::text::{
    all_ascii, ascii_lower_char, ascii_lowered, is_ws, trim_end, trim_start, trim_ws,
};

verus! {

pub open spec fn numeral_char(c: char) -> bool {
    is_digit(c) || c == '+' || c == '-' || c == '.' || c == 'e'
}

/// `s` with `A` to `Z` replaced by `a` to `z`.
pub open spec fn ascii_lower(s: Seq<char>) -> Seq<char> {
    s.map_values(|c: char| ascii_lower_char(c))
}

/// The power of ten that a lower-cased unit suffix stands for.
pub open spec fn unit_scale(unit: Seq<char>) -> nat {
    if unit == seq!['g', 'h', 'z'] {
        9
    } else if unit == seq!['m', 'h', 'z'] {
        6
    } else if unit == seq!['k', 'h', 'z'] {
        3
    } else {
        0
    }
}

pub proof fn lemma_leading_digits_prefix(b: Seq<char>)
    ensures
        leading_digits(b) <= b.len(),
        forall|i: int| 0 <= i < leading_digits(b) ==> is_digit(#[trigger] b[i]),
    decreases b.len(),
{
    if b.len() > 0 && is_digit(b[0]) {
        let rest = b.drop_first();
        lemma_leading_digits_prefix(rest);
        assert forall|i: int| 0 <= i < leading_digits(b) implies is_digit(#[trigger] b[i]) by {
            if i > 0 {
                assert(b[i] == rest[i - 1]);
            }
        }
    }
}

/// A numeral is not empty and holds only digits, signs and points.
pub proof fn lemma_numeral_chars(q: Seq<char>)
    requires
        numeral(q) is Some,
    ensures
        q.len() > 0,
        forall|i: int| 0 <= i < q.len() ==> numeral_char(#[trigger] q[i]),
{
    let sl = sign_len(q) as int;
    let body = q.skip(sl);
    let n = leading_digits(body) as int;
    lemma_leading_digits_prefix(body);
    let r1 = body.skip(n);
    let has_point = r1.len() > 0 && r1[0] == '.';
    let r2 = if has_point {
        r1.skip(1)
    } else {
        r1
    };
    let pl: int = if has_point {
        1
    } else {
        0
    };
    lemma_leading_digits_prefix(r2);
    let m: int = if has_point {
        leading_digits(r2) as int
    } else {
        0
    };
    let r3 = r2.skip(m);
    let e = r3.skip(1);
    let el = sign_len(e) as int;
    let ed = e.skip(el);
    assert forall|i: int| 0 <= i < q.len() implies numeral_char(#[trigger] q[i]) by {
        if i >= sl {
            let j = i - sl;
            assert(q[i] == body[j]);
            if j >= n {
                let k = j - n;
                assert(body[j] == r1[k]);
                if k >= pl {
                    let k2 = k - pl;
                    assert(r1[k] == r2[k2]);
                    if k2 >= m {
                        let k3 = k2 - m;
                        assert(r2[k2] == r3[k3]);
                        if k3 > 0 {
                            let k4 = k3 - 1;
                            assert(r3[k3] == e[k4]);
                            if k4 >= el {
                                assert(e[k4] == ed[k4 - el]);
                            }
                        }
                    }
                }
            }
        }
    }
}

/// Text that starts and ends with other than whitespace is its own trim.
pub proof fn lemma_trim_unchanged(q: Seq<char>)
    requires
        q.len() > 0,
        !is_ws(q[0]),
        !is_ws(q.last()),
    ensures
        trim_ws(q) == q,
{
    assert(trim_start(q) == q);
    assert(trim_end(q) == q);
}

/// Once the unit is split off, a non-negative numeral gives its hertz.
pub proof fn lemma_parse_after_split(t: Seq<char>, prefix: Seq<char>, n: Seq<char>, scale: nat)
    requires
        split_unit(t) == Some((prefix, scale)),
        trim_ws(prefix) == n,
        match numeral(n) {
            Some((negative, _, _, _)) => !negative,
            None => false,
        },
    ensures
        match numeral(n) {
            Some((_, int_part, frac_part, exp)) => parse_spec(t) == Ok::<u64, crate::error::ErrorView>(
                hertz_of(int_part, frac_part, exp, scale),
            ),
            None => true,
        },
{
}

/// `w` is made of ASCII whitespace.
pub open spec fn is_blank(w: Seq<char>) -> bool {
    forall|i: int| 0 <= i < w.len() ==> is_ws(#[trigger] w[i]) && (w[i] as u32) < 128
}

pub proof fn lemma_trim_start_blank(w: Seq<char>, x: Seq<char>)
    requires
        is_blank(w),
    ensures
        trim_start(w + x) == trim_start(x),
    decreases w.len(),
{
    if w.len() == 0 {
        assert(w + x =~= x);
    } else {
        assert((w + x)[0] == w[0]);
        assert((w + x).drop_first() =~= w.drop_first() + x);
        assert(is_blank(w.drop_first())) by {
            assert forall|i: int| 0 <= i < w.drop_first().len() implies is_ws(
                #[trigger] w.drop_first()[i],
            ) && (w.drop_first()[i] as u32) < 128 by {
                assert(w.drop_first()[i] == w[i + 1]);
            }
        }
        lemma_trim_start_blank(w.drop_first(), x);
    }
}

pub proof fn lemma_trim_end_blank(x: Seq<char>, w: Seq<char>)
    requires
        is_blank(w),
    ensures
        trim_end(x + w) == trim_end(x),
    decreases w.len(),
{
    if w.len() == 0 {
        assert(x + w =~= x);
    } else {
        assert((x + w).last() == w.last());
        assert((x + w).drop_last() =~= x + w.drop_last());
        assert(is_blank(w.drop_last())) by {
            assert forall|i: int| 0 <= i < w.drop_last().len() implies is_ws(
                #[trigger] w.drop_last()[i],
            ) && (w.drop_last()[i] as u32) < 128 by {
                assert(w.drop_last()[i] == w[i]);
            }
        }
        lemma_trim_end_blank(x, w.drop_last());
    }
}

/// A non-negative decimal numeral and one of the units Hz, kHz, MHz or GHz
/// in any letter case, with ASCII whitespace around and between them, trims to ASCII text whose
/// lower-cased form parses to the numeral times the unit's multiplier,
/// rounded to the nearest hertz (halves up) and clamped into `u64`.
pub proof fn law_numeral_with_unit(
    lead: Seq<char>,
    n: Seq<char>,
    gap: Seq<char>,
    unit: Seq<char>,
    trail: Seq<char>,
    lowered: Seq<char>,
)
    requires
        match numeral(n) {
            Some((negative, _, _, _)) => !negative,
            None => false,
        },
        all_ascii(unit),
        ascii_lower(unit) == seq!['h', 'z'] || ascii_lower(unit) == seq!['k', 'h', 'z']
            || ascii_lower(unit) == seq!['m', 'h', 'z'] || ascii_lower(unit) == seq!['g', 'h', 'z'],
        is_blank(lead),
        is_blank(gap),
        is_blank(trail),
        ascii_lowered(n + gap + unit, lowered),
    ensures
        trim_ws(lead + n + gap + unit + trail) == n + gap + unit,
        all_ascii(n + gap + unit),
        match numeral(n) {
            Some((_, int_part, frac_part, exp)) => parse_spec(lowered) == Ok::<
                u64,
                crate::error::ErrorView,
            >(hertz_of(int_part, frac_part, exp, unit_scale(ascii_lower(unit)))),
            None => true,
        },
{
    let t = n + gap + unit;
    lemma_numeral_chars(n);
    let k = n.len() as int;
    let g = gap.len() as int;
    assert(numeral_char(n[0]));
    assert(numeral_char(n[k - 1]));
    assert(t[0] == n[0]);
    let low_unit = ascii_lower(unit);
    let u = unit.len() as int;
    assert(t.last() == unit[u - 1]);
    assert(low_unit[u - 1] == 'z');
    assert(low_unit[u - 1] == ascii_lower_char(unit[u - 1]));
    assert(!is_ws(unit[u - 1]));
    assert(lead + n + gap + unit + trail =~= lead + (t + trail));
    lemma_trim_start_blank(lead, t + trail);
    assert((t + trail)[0] == t[0]);
    assert(trim_start(t + trail) == t + trail);
    lemma_trim_end_blank(t, trail);
    assert(trim_end(t) == t);
    assert forall|i: int| 0 <= i < t.len() implies (#[trigger] t[i] as u32) < 128 by {
        if i < k {
            assert(t[i] == n[i]);
            assert(numeral_char(n[i]));
        } else if i < k + g {
            assert(t[i] == gap[i - k]);
        } else {
            assert(t[i] == unit[i - k - g]);
        }
    }
    let pre = n + gap;
    assert forall|i: int| 0 <= i < t.len() implies lowered[i] == (pre + low_unit)[i] by {
        assert(lowered[i] == ascii_lower_char(t[i]));
        if i < k {
            assert(t[i] == n[i]);
            assert(numeral_char(n[i]));
        } else if i < k + g {
            assert(t[i] == gap[i - k]);
            assert(is_ws(gap[i - k]));
        } else {
            assert(t[i] == unit[i - k - g]);
            assert(low_unit[i - k - g] == ascii_lower_char(unit[i - k - g]));
        }
    }
    assert(lowered =~= pre + low_unit);
    let len = lowered.len() as int;
    let last_pre = pre[k + g - 1];
    assert(is_ws(last_pre) || numeral_char(last_pre)) by {
        if g > 0 {
            assert(last_pre == gap[g - 1]);
        } else {
            assert(last_pre == n[k - 1]);
        }
    }
    assert(lowered[k + g - 1] == last_pre);
    assert(pre[0] == n[0]);
    lemma_trim_end_blank(n, gap);
    assert(trim_start(pre) == pre);
    assert(trim_end(n) == n);
    assert(trim_ws(pre) == n);
    if low_unit == seq!['h', 'z'] {
        assert(lowered.subrange(len - 2, len) =~= seq!['h', 'z']);
        if len >= 3 {
            assert(lowered.subrange(len - 3, len)[0] == last_pre);
        }
        assert(!ends_with(lowered, seq!['g', 'h', 'z']));
        assert(!ends_with(lowered, seq!['m', 'h', 'z']));
        assert(!ends_with(lowered, seq!['k', 'h', 'z']));
        assert(lowered.subrange(0, len - 2) =~= pre);
        lemma_parse_after_split(lowered, pre, n, 0);
    } else {
        assert(lowered.subrange(len - 3, len) =~= low_unit);
        assert(lowered.subrange(0, len - 3) =~= pre);
        if low_unit == seq!['k', 'h', 'z'] {
            assert(seq!['k', 'h', 'z'][0] != seq!['g', 'h', 'z'][0]);
            assert(seq!['k', 'h', 'z'][0] != seq!['m', 'h', 'z'][0]);
            lemma_parse_after_split(lowered, pre, n, 3);
        } else if low_unit == seq!['m', 'h', 'z'] {
            assert(seq!['m', 'h', 'z'][0] != seq!['g', 'h', 'z'][0]);
            lemma_parse_after_split(lowered, pre, n, 6);
        } else {
            lemma_parse_after_split(lowered, pre, n, 9);
        }
    }
}

pub proof fn lemma_digit_char(d: nat)
    requires
        d < 10,
    ensures
        is_digit(digit_char(d)),
        digit_of(digit_char(d)) == d,
{
    let t = seq!['0', '1', '2', '3', '4', '5', '6', '7', '8', '9'];
    assert(t[0] == '0' && t[1] == '1' && t[2] == '2' && t[3] == '3' && t[4] == '4');
    assert(t[5] == '5' && t[6] == '6' && t[7] == '7' && t[8] == '8' && t[9] == '9');
}

/// The decimal numeral of `n` is a non-empty digit string worth `n`.
pub proof fn lemma_decimal(n: nat)
    ensures
        decimal(n).len() > 0,
        all_digits(decimal(n)),
        digits_value(decimal(n)) == n,
    decreases n,
{
    if n < 10 {
        lemma_digit_char(n);
        let d = decimal(n);
        assert(d.drop_last() =~= Seq::<char>::empty());
        assert(digits_value(Seq::<char>::empty()) == 0);
    } else {
        lemma_decimal(n / 10);
        lemma_digit_char(n % 10);
        let d = decimal(n);
        assert(d.drop_last() =~= decimal(n / 10));
        assert(all_digits(d)) by {
            assert forall|i: int| 0 <= i < d.len() implies is_digit(#[trigger] d[i]) by {
                if i < d.len() - 1 {
                    assert(d[i] == decimal(n / 10)[i]);
                }
            }
        }
    }
}

/// Two digits in front of a decimal numeral, read back, give `h`.
pub proof fn lemma_hundredths_digits(h: nat)
    ensures
        ({
            let q = decimal(h / 100) + seq![digit_char((h % 100) / 10), digit_char(h % 10)];
            all_digits(q) && digits_value(q) == h
        }),
{
    let d = decimal(h / 100);
    let a = digit_char((h % 100) / 10);
    let b = digit_char(h % 10);
    lemma_decimal(h / 100);
    lemma_digit_char((h % 100) / 10);
    lemma_digit_char(h % 10);
    let ab = seq![a, b];
    lemma_digits_value_concat(d, ab);
    assert(ab.drop_last() =~= seq![a]);
    assert(seq![a].drop_last() =~= Seq::<char>::empty());
    assert(digits_value(Seq::<char>::empty()) == 0);
    assert(digits_value(seq![a]) == digit_of(a));
    assert(digits_value(ab) == digit_of(a) * 10 + digit_of(b));
    assert(pow10(2) == 100) by {
        assert(pow10(0) == 1);
        assert(pow10(1) == 10);
    }
    assert(((h % 100) / 10) * 10 + h % 10 == h % 100);
    assert((h / 100) * 100 + h % 100 == h);
    assert(digits_value(d + ab) == h);
    let q = d + ab;
    assert(all_digits(q)) by {
        assert forall|i: int| 0 <= i < q.len() implies is_digit(#[trigger] q[i]) by {
            if i < d.len() {
                assert(q[i] == d[i]);
            }
        }
    }
}

/// Trailing whitespace is dropped by trimming.
pub proof fn lemma_trim_drops_space(q: Seq<char>)
    requires
        q.len() > 0,
        !is_ws(q[0]),
        !is_ws(q.last()),
    ensures
        trim_ws(q.push(' ')) == q,
{
    let p = q.push(' ');
    assert(p.drop_last() =~= q);
    assert(trim_start(p) == p);
    assert(trim_end(p) == trim_end(q));
    assert(trim_end(q) == q);
}

/// `digits . a b` is a non-negative numeral with those integer and fraction digits.
pub proof fn lemma_numeral_with_two_decimals(d: Seq<char>, a: char, b: char)
    requires
        d.len() > 0,
        all_digits(d),
        is_digit(a),
        is_digit(b),
    ensures
        numeral(d + seq!['.', a, b]) == Some((false, d, seq![a, b], 0int)),
{
    let q = d + seq!['.', a, b];
    let k = d.len() as int;
    assert(q[0] == d[0]);
    assert(sign_len(q) == 0);
    assert(q.skip(0) =~= q);
    assert(q[k] == '.');
    assert forall|i: int| 0 <= i < k implies is_digit(#[trigger] q[i]) by {
        assert(q[i] == d[i]);
    }
    crate::parse::lemma_leading_digits(q, k as nat);
    assert(q.take(k) =~= d);
    let rest = q.skip(k);
    assert(rest =~= seq!['.', a, b]);
    let r2 = rest.skip(1);
    assert(r2 =~= seq![a, b]);
    assert(is_digit(r2[0]) && is_digit(r2[1]));
    crate::parse::lemma_leading_digits(r2, 2);
    assert(r2.take(2) =~= r2);
    assert(r2.skip(2).len() == 0);
    let ab = seq![a, b];
    assert(all_digits(ab)) by {
        assert forall|i: int| 0 <= i < 2 implies is_digit(#[trigger] ab[i]) by {}
    }
}

/// A digit string alone is a non-negative numeral with no fraction digits.
pub proof fn lemma_numeral_integer(d: Seq<char>)
    requires
        d.len() > 0,
        all_digits(d),
    ensures
        numeral(d) == Some((false, d, Seq::<char>::empty(), 0int)),
{
    assert(sign_len(d) == 0) by {
        assert(is_digit(d[0]));
    }
    assert(d.skip(0) =~= d);
    crate::parse::lemma_leading_digits(d, d.len());
    assert(d.take(d.len() as int) =~= d);
    assert(d.skip(d.len() as int).len() == 0);
    assert(d.skip(d.len() as int).take(0) =~= Seq::<char>::empty());
    assert(d.skip(d.len() as int).skip(0).len() == 0);
}

/// Parsing the lower-cased text of a frequency of at least one `unit`.
pub proof fn lemma_parse_fixed(
    v: u64,
    scale: nat,
    up: char,
    low: char,
    lowered: Seq<char>,
)
    requires
        (scale == 9 && up == 'G' && low == 'g') || (scale == 6 && up == 'M' && low == 'm') || (
        scale == 3 && up == 'k' && low == 'k'),
        v >= pow10(scale),
        ascii_lowered(fixed2(v as nat, pow10(scale)) + seq![' ', up, 'H', 'z'], lowered),
    ensures
        ({
            let f = fixed2(v as nat, pow10(scale)) + seq![' ', up, 'H', 'z'];
            trim_ws(f) == f && all_ascii(f)
        }),
        parse_spec(lowered) == Ok::<u64, crate::error::ErrorView>(
            saturate(
                (round_half_up((v * 100) as nat, pow10(scale)) * pow10((scale - 2) as nat)) as int,
            ),
        ),
{
    let u = pow10(scale);
    let h = round_half_up((v * 100) as nat, u);
    let d = decimal(h / 100);
    let a = digit_char((h % 100) / 10);
    let b = digit_char(h % 10);
    lemma_decimal(h / 100);
    lemma_digit_char((h % 100) / 10);
    lemma_digit_char(h % 10);
    lemma_hundredths_digits(h);
    let fx = d + seq!['.', a, b];
    assert(fixed2(v as nat, u) == fx);
    let f = fx + seq![' ', up, 'H', 'z'];
    let k = fx.len() as int;
    assert(f[0] == d[0]);
    assert(is_digit(d[0]));
    assert(fx[k - 1] == b);
    lemma_trim_unchanged(f);
    assert forall|i: int| 0 <= i < f.len() implies (#[trigger] f[i] as u32) < 128 by {
        if i < d.len() {
            assert(f[i] == d[i]);
            assert(is_digit(d[i]));
        }
    }
    assert(ascii_lower_char('H') == 'h');
    assert(ascii_lower_char('M') == 'm');
    assert(ascii_lower_char('G') == 'g');
    let expect = fx + seq![' ', low, 'h', 'z'];
    assert forall|i: int| 0 <= i < f.len() implies lowered[i] == expect[i] by {
        assert(lowered[i] == ascii_lower_char(f[i]));
        if i < d.len() {
            assert(f[i] == d[i]);
            assert(is_digit(d[i]));
        }
    }
    assert(lowered =~= expect);
    let len = lowered.len() as int;
    assert(lowered.subrange(len - 3, len) =~= seq![low, 'h', 'z']);
    assert(lowered.subrange(0, len - 3) =~= fx.push(' '));
    assert(seq![low, 'h', 'z'][0] == low);
    assert(seq!['g', 'h', 'z'][0] == 'g');
    assert(seq!['m', 'h', 'z'][0] == 'm');
    assert(seq!['k', 'h', 'z'] == seq![low, 'h', 'z'] || low != 'k');
    assert(seq!['m', 'h', 'z'] == seq![low, 'h', 'z'] || low != 'm');
    lemma_trim_drops_space(fx);
    lemma_numeral_with_two_decimals(d, a, b);
    lemma_parse_after_split(lowered, fx.push(' '), fx, scale);
    // the value read back
    let c = pow10((scale - 2) as nat);
    lemma_pow10_add((scale - 2) as nat, 2);
    assert((scale - 2) as nat + 2 == scale);
    assert(pow10(2) == 100) by {
        assert(pow10(0) == 1);
        assert(pow10(1) == 10);
    }
    assert(h * (c * 100) == (h * c) * 100) by (nonlinear_arith);
    lemma_round_exact(h * c, 100);
}

/// Parsing the lower-cased text of a frequency below one kilohertz.
pub proof fn lemma_parse_hz(v: u64, lowered: Seq<char>)
    requires
        v < 1000,
        ascii_lowered(decimal(v as nat) + seq![' ', 'H', 'z'], lowered),
    ensures
        ({
            let f = decimal(v as nat) + seq![' ', 'H', 'z'];
            trim_ws(f) == f && all_ascii(f)
        }),
        parse_spec(lowered) == Ok::<u64, crate::error::ErrorView>(v),
{
    let d = decimal(v as nat);
    lemma_decimal(v as nat);
    let f = d + seq![' ', 'H', 'z'];
    let k = d.len() as int;
    assert(f[0] == d[0]);
    assert(is_digit(d[0]));
    assert(is_digit(d[k - 1]));
    lemma_trim_unchanged(f);
    lemma_trim_unchanged(d);
    assert forall|i: int| 0 <= i < f.len() implies (#[trigger] f[i] as u32) < 128 by {
        if i < k {
            assert(f[i] == d[i]);
            assert(is_digit(d[i]));
        }
    }
    assert(ascii_lower_char('H') == 'h');
    let expect = d + seq![' ', 'h', 'z'];
    assert forall|i: int| 0 <= i < f.len() implies lowered[i] == expect[i] by {
        assert(lowered[i] == ascii_lower_char(f[i]));
        if i < k {
            assert(f[i] == d[i]);
            assert(is_digit(d[i]));
        }
    }
    assert(lowered =~= expect);
    let len = lowered.len() as int;
    assert(lowered.subrange(len - 3, len)[0] == ' ');
    assert(!ends_with(lowered, seq!['g', 'h', 'z']));
    assert(!ends_with(lowered, seq!['m', 'h', 'z']));
    assert(!ends_with(lowered, seq!['k', 'h', 'z']));
    assert(lowered.subrange(len - 2, len) =~= seq!['h', 'z']);
    assert(lowered.subrange(0, len - 2) =~= d.push(' '));
    lemma_trim_drops_space(d);
    lemma_numeral_integer(d);
    lemma_parse_after_split(lowered, d.push(' '), d, 0);
    assert(d + Seq::<char>::empty() =~= d);
    assert(pow10(0) == 1);
    lemma_round_exact(v as nat, 1);
}

/// The step of the canonical text of `hz`: one hertz below a kilohertz, else
/// a hundredth of the unit it is written in.
pub open spec fn resolution(hz: u64) -> nat {
    if hz >= 1_000_000_000 {
        10_000_000
    } else if hz >= 1_000_000 {
        10_000
    } else if hz >= 1_000 {
        10
    } else {
        1
    }
}

/// Rounding `v` to a whole number of steps `c` and clamping moves it by at
/// most half a step, and not at all when it is already a whole number of steps.
pub proof fn lemma_round_to_step(v: nat, c: nat)
    requires
        c > 0,
        v <= u64::MAX,
    ensures
        ({
            let h = saturate((round_half_up((v * 100) as nat, 100 * c) * c) as int);
            &&& 2 * (h - v) <= c
            &&& 2 * (v - h) <= c
            &&& v % c == 0 ==> h == v
        }),
{
    let u = 100 * c;
    let big = round_half_up((v * 100) as nat, u);
    let num: int = (2 * (v * 100) + u) as int;
    let den: int = (2 * u) as int;
    vstd::arithmetic::div_mod::lemma_fundamental_div_mod(num, den);
    assert(big == num / den);
    let r = num % den;
    assert(0 <= r < den);
    assert(num == den * big + r);
    assert(2 * (big * c) <= 2 * v + c && 2 * v + c < 2 * (big * c) + 2 * c) by (nonlinear_arith)
        requires
            num == den * big + r,
            0 <= r < den,
            num == 2 * (v * 100) + u,
            den == 2 * u,
            u == 100 * c,
    ;
    if v % c == 0 {
        let m = v / c;
        vstd::arithmetic::div_mod::lemma_fundamental_div_mod(v as int, c as int);
        assert(v == m * c) by (nonlinear_arith)
            requires
                v == c * (v / c) + v % c,
                v % c == 0,
                m == v / c,
        ;
        assert(num == m * den + 100 * c) by (nonlinear_arith)
            requires
                v == m * c,
                num == 2 * (v * 100) + u,
                den == 2 * u,
                u == 100 * c,
        ;
        vstd::arithmetic::div_mod::lemma_fundamental_div_mod_converse(
            num as int,
            den as int,
            m as int,
            (100 * c) as int,
        );
        assert(big * c == v);
    }
}

/// Formatting a frequency and parsing the text back gives a value within half
/// a step of the text (see `resolution`) of the frequency, and the frequency
/// itself when it is a whole number of steps; the text is trimmed ASCII, so
/// `parse_frequency` reads it as `parse_spec` of its lower-cased form.
pub proof fn law_format_then_parse(f: Frequency, lowered: Seq<char>)
    requires
        ascii_lowered(format_spec(f.0), lowered),
    ensures
        trim_ws(format_spec(f.0)) == format_spec(f.0),
        all_ascii(format_spec(f.0)),
        match parse_spec(lowered) {
            Ok(h) => 2 * (h - f.0) <= resolution(f.0) && 2 * (f.0 - h) <= resolution(f.0) && ((
            f.0 as nat) % resolution(f.0) == 0 ==> h == f.0),
            Err(_) => false,
        },
{
    let v = f.0;
    assert(pow10(0) == 1);
    assert(pow10(1) == 10);
    assert(pow10(2) == 100);
    assert(pow10(3) == 1000);
    assert(pow10(4) == 10_000);
    assert(pow10(5) == 100_000);
    assert(pow10(6) == 1_000_000);
    assert(pow10(7) == 10_000_000);
    assert(pow10(8) == 100_000_000);
    assert(pow10(9) == 1_000_000_000);
    if v >= 1_000_000_000 {
        lemma_parse_fixed(v, 9, 'G', 'g', lowered);
        lemma_round_to_step(v as nat, 10_000_000);
    } else if v >= 1_000_000 {
        lemma_parse_fixed(v, 6, 'M', 'm', lowered);
        lemma_round_to_step(v as nat, 10_000);
    } else if v >= 1_000 {
        lemma_parse_fixed(v, 3, 'k', 'k', lowered);
        lemma_round_to_step(v as nat, 10);
    } else {
        lemma_parse_hz(v, lowered);
    }
}

} // verus!
