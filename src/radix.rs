//! Reading a bare count of hertz, with no unit, as numeric-trait frameworks
//! expect of a number type.
use vstd::prelude::*;
use crate::frequency::Frequency;
use crate::numeral::{all_digits, digits_value};

verus! {

#[verifier::external_type_specification]
#[verifier::external_body]
pub struct ExParseIntError(core::num::ParseIntError);

/// `s` without a leading `+`, if it has one.
pub open spec fn unsigned_body(s: Seq<char>) -> Seq<char> {
    if s.len() > 0 && s[0] == '+' {
        s.drop_first()
    } else {
        s
    }
}

/// `s` is an optional `+` and one or more decimal digits whose value fits in
/// a `u64`.
pub open spec fn is_u64_text(s: Seq<char>) -> bool {
    unsigned_body(s).len() > 0 && all_digits(unsigned_body(s)) && digits_value(unsigned_body(s))
        <= u64::MAX
}

/// Relies on `u64::from_str` (`str::parse::<u64>`): an optional `+` then
/// decimal digits, with no other character, read as their value when it fits
/// in a `u64`; anything else is an error.
#[verifier::external_body]
fn parse_u64(s: &str) -> (r: Result<u64, core::num::ParseIntError>)
    ensures
        match r {
            Ok(n) => is_u64_text(s@) && n == digits_value(unsigned_body(s@)),
            Err(_) => !is_u64_text(s@),
        },
{
    s.parse::<u64>()
}

impl Frequency {
    /// Reads a bare decimal count of hertz ("440"), with no unit; `radix` is
    /// not used.
    pub fn from_str_radix(s: &str, radix: u32) -> (r: Result<Frequency, core::num::ParseIntError>)
        ensures
            match r {
                Ok(f) => is_u64_text(s@) && f.0 == digits_value(unsigned_body(s@)),
                Err(_) => !is_u64_text(s@),
            },
    {
        match parse_u64(s) {
            Ok(n) => Ok(Frequency(n)),
            Err(e) => Err(e),
        }
    }
}

} // verus!
