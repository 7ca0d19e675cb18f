use vstd::prelude::*;
use vstd::arithmetic::div_mod::lemma_div_denominator;

verus! {

/// 1 kilohertz (kHz) in hertz
pub const KILOHERTZ: u64 = 1_000;

/// 1 megahertz (MHz) in hertz
pub const MEGAHERTZ: u64 = 1_000_000;

/// 1 gigahertz (GHz) in hertz
pub const GIGAHERTZ: u64 = 1_000_000_000;

/// A frequency in whole hertz.
#[derive(Debug, Clone, Copy, PartialEq, Eq, Structural, PartialOrd, Ord, Default, Hash)]
pub struct Frequency(pub u64);

/// The period of a frequency of `hz` hertz, in whole nanoseconds, truncated;
/// zero hertz has, by convention, a period of zero.
pub open spec fn period_nanos_of(hz: u64) -> nat {
    if hz == 0 {
        0
    } else {
        (1_000_000_000int / (hz as int)) as nat
    }
}

impl Frequency {
    /// `0 Hz`, the additive identity.
    pub fn zero() -> (r: Frequency)
        ensures
            r.0 == 0,
    {
        Frequency(0)
    }

    /// `1 Hz`, the multiplicative identity.
    pub fn one() -> (r: Frequency)
        ensures
            r.0 == 1,
    {
        Frequency(1)
    }

    /// Whether this is `0 Hz`.
    pub fn is_zero(&self) -> (r: bool)
        ensures
            r == (self.0 == 0),
    {
        self.0 == 0
    }

    /// A frequency of `hz` hertz.
    pub fn from_hz(hz: u64) -> (r: Frequency)
        ensures
            r.0 == hz,
    {
        Frequency(hz)
    }

    /// A frequency of `khz` kilohertz; the hertz count must fit in a `u64`.
    pub fn from_khz(khz: u64) -> (r: Frequency)
        requires
            khz * KILOHERTZ <= u64::MAX,
        ensures
            r.0 == khz * KILOHERTZ,
    {
        Frequency(khz * KILOHERTZ)
    }

    /// A frequency of `mhz` megahertz; the hertz count must fit in a `u64`.
    pub fn from_mhz(mhz: u64) -> (r: Frequency)
        requires
            mhz * MEGAHERTZ <= u64::MAX,
        ensures
            r.0 == mhz * MEGAHERTZ,
    {
        Frequency(mhz * MEGAHERTZ)
    }

    /// A frequency of `ghz` gigahertz; the hertz count must fit in a `u64`.
    pub fn from_ghz(ghz: u64) -> (r: Frequency)
        requires
            ghz * GIGAHERTZ <= u64::MAX,
        ensures
            r.0 == ghz * GIGAHERTZ,
    {
        Frequency(ghz * GIGAHERTZ)
    }

    /// The hertz count.
    pub fn as_hz(&self) -> (r: u64)
        ensures
            r == self.0,
    {
        self.0
    }

    /// Whole kilohertz, truncated.
    pub fn as_khz(&self) -> (r: u64)
        ensures
            r == self.0 / KILOHERTZ,
    {
        self.as_hz() / KILOHERTZ
    }

    /// Whole megahertz, truncated.
    pub fn as_mhz(&self) -> (r: u64)
        ensures
            r == self.0 / MEGAHERTZ,
    {
        self.as_hz() / MEGAHERTZ
    }

    /// Whole gigahertz, truncated.
    pub fn as_ghz(&self) -> (r: u64)
        ensures
            r == self.0 / GIGAHERTZ,
    {
        self.as_hz() / GIGAHERTZ
    }

    /// The period in whole nanoseconds (zero for zero hertz).
    ///
    /// At or below one gigahertz the period is computed directly in
    /// nanoseconds; above it, in picoseconds with a 128-bit numerator and
    /// then truncated to nanoseconds. Both give the truncated reciprocal.
    pub fn period_nanos(&self) -> (r: u64)
        ensures
            r as nat == period_nanos_of(self.0),
            r <= GIGAHERTZ,
    {
        if self.0 == 0 {
            return 0;
        }
        let nanoseconds_per_second: u64 = GIGAHERTZ;
        if nanoseconds_per_second >= self.0 {
            nanoseconds_per_second / self.0
        } else {
            let picoseconds_per_second: u128 = 1_000_000_000_000;
            let frequency: u128 = self.0 as u128;
            let period_in_picoseconds: u128 = picoseconds_per_second / frequency;
            let period_in_nanoseconds: u128 = period_in_picoseconds / 1_000;
            proof {
                lemma_div_denominator(1_000_000_000_000, frequency as int, 1000);
                assert(1_000_000_000_000int / (frequency as int * 1000) == 1_000_000_000int
                    / (frequency as int)) by (nonlinear_arith)
                    requires
                        frequency > 0,
                ;
            }
            period_in_nanoseconds as u64
        }
    }
}

} // verus!
