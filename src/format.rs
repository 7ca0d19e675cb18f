//! The canonical text of a frequency: "42 Hz", "100.00 kHz", "2.25 GHz".
use vstd::prelude::*;
use crate::frequency::{Frequency, GIGAHERTZ, KILOHERTZ, MEGAHERTZ};
use crate::numeral::round_half_up;

verus! {

pub open spec fn digit_char(d: nat) -> char
    recommends
        d < 10,
{
    seq!['0', '1', '2', '3', '4', '5', '6', '7', '8', '9'][d as int]
}

/// The decimal numeral of `n`, without leading zeros.
pub open spec fn decimal(n: nat) -> Seq<char>
    decreases n,
{
    if n < 10 {
        seq![digit_char(n)]
    } else {
        decimal(n / 10).push(digit_char(n % 10))
    }
}

/// `v / unit` rounded to hundredths (halves up), with exactly two decimals.
pub open spec fn fixed2(v: nat, unit: nat) -> Seq<char> {
    let h = round_half_up(v * 100, unit);
    decimal(h / 100) + seq!['.', digit_char((h % 100) / 10), digit_char(h % 10)]
}

/// The canonical text of `hz` hertz: in the largest unit that it reaches,
/// with two decimals from kHz up.
pub open spec fn format_spec(hz: u64) -> Seq<char> {
    if hz >= GIGAHERTZ {
        fixed2(hz as nat, GIGAHERTZ as nat) + seq![' ', 'G', 'H', 'z']
    } else if hz >= MEGAHERTZ {
        fixed2(hz as nat, MEGAHERTZ as nat) + seq![' ', 'M', 'H', 'z']
    } else if hz >= KILOHERTZ {
        fixed2(hz as nat, KILOHERTZ as nat) + seq![' ', 'k', 'H', 'z']
    } else {
        decimal(hz as nat) + seq![' ', 'H', 'z']
    }
}

fn push_digit(out: &mut String, d: u128)
    requires
        d < 10,
    ensures
        final(out)@ == old(out)@.push(digit_char(d as nat)),
{
    let digits = "0123456789";
    proof {
        reveal_strlit("0123456789");
    }
    let k = d as usize;
    let s = digits.substring_char(k, k + 1);
    assert(digits@ =~= seq!['0', '1', '2', '3', '4', '5', '6', '7', '8', '9']);
    assert(s@ =~= seq![digit_char(d as nat)]);
    out.append(s);
    assert(final(out)@ =~= old(out)@.push(digit_char(d as nat)));
}

fn push_decimal(out: &mut String, n: u128)
    ensures
        final(out)@ == old(out)@ + decimal(n as nat),
    decreases n,
{
    if n >= 10 {
        push_decimal(out, n / 10);
    }
    push_digit(out, n % 10);
    proof {
        if n < 10 {
            assert(old(out)@ + decimal(n as nat) =~= old(out)@.push(digit_char(n as nat)));
        } else {
            assert(old(out)@ + decimal(n as nat) =~= (old(out)@ + decimal((n / 10) as nat)).push(
                digit_char((n % 10) as nat),
            ));
        }
    }
}

fn push_fixed2(out: &mut String, v: u64, unit: u64)
    requires
        unit > 0,
    ensures
        final(out)@ == old(out)@ + fixed2(v as nat, unit as nat),
{
    let h: u128 = (200 * (v as u128) + unit as u128) / (2 * (unit as u128));
    assert(h == round_half_up((v * 100) as nat, unit as nat));
    push_decimal(out, h / 100);
    let ghost mid = out@;
    let dot = ".";
    proof {
        reveal_strlit(".");
    }
    assert(dot@ =~= seq!['.']);
    out.append(dot);
    push_digit(out, (h % 100) / 10);
    push_digit(out, h % 10);
    assert(out@ =~= old(out)@ + fixed2(v as nat, unit as nat));
}

impl Frequency {
    /// The canonical text: "42 Hz" below a kilohertz; above it the value in
    /// the largest unit reached, rounded to two decimals ("2.25 GHz").
    ///
    /// The rounding is exact, with halves rounded up: 1_005_000 Hz is
    /// "1.01 MHz", where a rendering through binary floating point could
    /// give "1.00 MHz".
    pub fn to_string(&self) -> (r: String)
        ensures
            r@ == format_spec(self.0),
    {
        let v = self.0;
        let mut out = String::new();
        if v >= GIGAHERTZ {
            push_fixed2(&mut out, v, GIGAHERTZ);
            let unit = " GHz";
            proof {
                reveal_strlit(" GHz");
            }
            assert(unit@ =~= seq![' ', 'G', 'H', 'z']);
            out.append(unit);
        } else if v >= MEGAHERTZ {
            push_fixed2(&mut out, v, MEGAHERTZ);
            let unit = " MHz";
            proof {
                reveal_strlit(" MHz");
            }
            assert(unit@ =~= seq![' ', 'M', 'H', 'z']);
            out.append(unit);
        } else if v >= KILOHERTZ {
            push_fixed2(&mut out, v, KILOHERTZ);
            let unit = " kHz";
            proof {
                reveal_strlit(" kHz");
            }
            assert(unit@ =~= seq![' ', 'k', 'H', 'z']);
            out.append(unit);
        } else {
            push_decimal(&mut out, v as u128);
            let unit = " Hz";
            proof {
                reveal_strlit(" Hz");
            }
            assert(unit@ =~= seq![' ', 'H', 'z']);
            out.append(unit);
        }
        assert(out@ =~= format_spec(v));
        out
    }
}

} // verus!
