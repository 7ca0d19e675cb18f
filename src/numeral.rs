//! Decimal digit strings: their values, rounding, and saturation into `u64`.
use vstd::prelude::*;

verus! {

pub open spec fn is_digit(c: char) -> bool {
    '0' <= c && c <= '9'
}

pub open spec fn digit_of(c: char) -> nat {
    ((c as u32) - ('0' as u32)) as nat
}

pub open spec fn all_digits(s: Seq<char>) -> bool {
    forall|i: int| 0 <= i < s.len() ==> is_digit(#[trigger] s[i])
}

pub open spec fn pow10(n: nat) -> nat
    decreases n,
{
    if n == 0 {
        1
    } else {
        10 * pow10((n - 1) as nat)
    }
}

/// The value of a string of decimal digits, most significant first.
pub open spec fn digits_value(s: Seq<char>) -> nat
    decreases s.len(),
{
    if s.len() == 0 {
        0
    } else {
        digits_value(s.drop_last()) * 10 + digit_of(s.last())
    }
}

/// `num / den` rounded to the nearest integer, halves rounded up.
pub open spec fn round_half_up(num: nat, den: nat) -> nat
    recommends
        den > 0,
{
    ((2 * num + den) / (2 * den)) as nat
}

/// `x` clamped into the range of `u64`.
pub open spec fn saturate(x: int) -> u64
    recommends
        x >= 0,
{
    if x > u64::MAX {
        u64::MAX
    } else {
        x as u64
    }
}

pub proof fn lemma_pow10_positive(n: nat)
    ensures
        pow10(n) > 0,
    decreases n,
{
    if n > 0 {
        lemma_pow10_positive((n - 1) as nat);
    }
}

pub proof fn lemma_pow10_add(a: nat, b: nat)
    ensures
        pow10(a + b) == pow10(a) * pow10(b),
    decreases b,
{
    if b == 0 {
        assert(a + b == a);
        assert(pow10(0) == 1);
    } else {
        let b1 = (b - 1) as nat;
        lemma_pow10_add(a, b1);
        assert((a + b - 1) as nat == a + b1);
        let pa = pow10(a);
        let pb1 = pow10(b1);
        assert(pow10(a + b) == 10 * pow10(a + b1));
        assert(pow10(b) == 10 * pb1);
        assert(pa * (10 * pb1) == 10 * (pa * pb1)) by (nonlinear_arith);
    }
}

pub proof fn lemma_digits_value_concat(a: Seq<char>, b: Seq<char>)
    ensures
        digits_value(a + b) == digits_value(a) * pow10(b.len()) + digits_value(b),
    decreases b.len(),
{
    if b.len() == 0 {
        assert(a + b =~= a);
        assert(pow10(0) == 1);
        assert(digits_value(b) == 0);
    } else {
        let bl = b.drop_last();
        lemma_digits_value_concat(a, bl);
        assert((a + b).drop_last() =~= a + bl);
        assert((a + b).last() == b.last());
        assert(digits_value(a + b) == digits_value(a + bl) * 10 + digit_of(b.last()));
        assert(digits_value(b) == digits_value(bl) * 10 + digit_of(b.last()));
        assert(pow10(b.len()) == 10 * pow10(bl.len()));
        let x = digits_value(a);
        let p = pow10(bl.len());
        let y = digits_value(bl);
        let d = digit_of(b.last());
        assert(digits_value(a + bl) == x * p + y);
        assert((x * p + y) * 10 + d == x * (10 * p) + (y * 10 + d)) by (nonlinear_arith);
    }
}

pub proof fn lemma_digits_value_bound(s: Seq<char>)
    requires
        all_digits(s),
    ensures
        digits_value(s) < pow10(s.len()),
    decreases s.len(),
{
    if s.len() > 0 {
        let sl = s.drop_last();
        assert(all_digits(sl)) by {
            assert forall|i: int| 0 <= i < sl.len() implies is_digit(#[trigger] sl[i]) by {
                assert(sl[i] == s[i]);
            }
        }
        lemma_digits_value_bound(sl);
        assert(is_digit(s[s.len() - 1]));
        let v = digits_value(sl);
        let p = pow10(sl.len());
        let d = digit_of(s.last());
        assert(v * 10 + d < 10 * p) by (nonlinear_arith)
            requires
                v < p,
                d < 10,
        ;
    }
}

/// Whether a non-empty digit string is at least half of its scale is decided
/// by its first digit.
pub proof fn lemma_first_digit_decides_half(s: Seq<char>)
    requires
        all_digits(s),
        s.len() > 0,
    ensures
        (2 * digits_value(s) >= pow10(s.len())) == (digit_of(s[0]) >= 5),
{
    let head = s.take(1);
    let tail = s.skip(1);
    assert(head + tail =~= s);
    lemma_digits_value_concat(head, tail);
    assert(head.drop_last() =~= Seq::<char>::empty());
    assert(head.last() == s[0]);
    assert(digits_value(Seq::<char>::empty()) == 0);
    assert(digits_value(head) == digit_of(s[0]));
    assert(all_digits(tail)) by {
        assert forall|i: int| 0 <= i < tail.len() implies is_digit(#[trigger] tail[i]) by {
            assert(tail[i] == s[i + 1]);
        }
    }
    lemma_digits_value_bound(tail);
    assert(is_digit(s[0]));
    let d = digit_of(s[0]);
    let p = pow10(tail.len());
    let r = digits_value(tail);
    assert(pow10(s.len()) == 10 * p);
    assert((2 * (d * p + r) >= 10 * p) == (d >= 5)) by (nonlinear_arith)
        requires
            r < p,
            d < 10,
    ;
}

pub proof fn lemma_round_exact(x: nat, d: nat)
    requires
        d > 0,
    ensures
        round_half_up(x * d, d) == x,
{
    assert((2 * (x * d) + d) == x * (2 * d) + d) by (nonlinear_arith);
    vstd::arithmetic::div_mod::lemma_fundamental_div_mod_converse(
        (2 * (x * d) + d) as int,
        (2 * d) as int,
        x as int,
        d as int,
    );
}

/// Rounding `(a * den + b) * scale` over `den * scale` adds one to `a`
/// exactly when `b` is at least half of `den`.
pub proof fn lemma_round_split(a: nat, b: nat, den: nat, scale: nat)
    requires
        den > 0,
        scale > 0,
        b < den,
    ensures
        round_half_up((a * den + b) * scale, den * scale) == a + (if 2 * b >= den {
            1nat
        } else {
            0nat
        }),
{
    let up: nat = if 2 * b >= den {
        1
    } else {
        0
    };
    let rem: int = (2 * b + den - 2 * den * up) * scale;
    if 2 * b >= den {
        assert(2 * ((a * den + b) * scale) + den * scale == (a + 1) * (2 * (den * scale)) + (2 * b
            + den - 2 * den) * scale) by (nonlinear_arith);
        assert(0 <= (2 * b + den - 2 * den) * scale < 2 * (den * scale)) by (nonlinear_arith)
            requires
                2 * b >= den,
                b < den,
                scale > 0,
        ;
    } else {
        assert(2 * ((a * den + b) * scale) + den * scale == a * (2 * (den * scale)) + (2 * b + den)
            * scale) by (nonlinear_arith);
        assert(0 <= (2 * b + den) * scale < 2 * (den * scale)) by (nonlinear_arith)
            requires
                2 * b < den,
                scale > 0,
        ;
    }
    vstd::arithmetic::div_mod::lemma_fundamental_div_mod_converse(
        (2 * ((a * den + b) * scale) + den * scale) as int,
        (2 * (den * scale)) as int,
        (a + up) as int,
        rem as int,
    );
}

/// `saturate(10 * x + d)`, from `saturate(x)`.
pub fn push_digit_saturating(acc: u64, d: u64) -> (r: u64)
    requires
        d < 10,
    ensures
        forall|x: int| x >= 0 && acc == #[trigger] saturate(x) ==> r == saturate(10 * x + d),
{
    if acc > (u64::MAX - d) / 10 {
        proof {
            assert(acc * 10 + d > u64::MAX) by (nonlinear_arith)
                requires
                    acc > (u64::MAX - d) / 10,
                    d < 10,
            ;
        }
        u64::MAX
    } else {
        proof {
            assert(acc * 10 + d <= u64::MAX) by (nonlinear_arith)
                requires
                    acc <= (u64::MAX - d) / 10,
                    d < 10,
            ;
        }
        acc * 10 + d
    }
}

} // verus!
