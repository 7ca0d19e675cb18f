//! Arithmetic on frequencies: the hertz counts are treated as plain integers.
use vstd::prelude::*;
use crate::frequency::Frequency;

verus! {

impl core::ops::Add for Frequency {
    type Output = Frequency;

    fn add(self, other: Frequency) -> (r: Frequency) {
        Frequency(self.0 + other.0)
    }
}

impl vstd::std_specs::ops::AddSpecImpl for Frequency {
    open spec fn obeys_add_spec() -> bool {
        true
    }

    open spec fn add_req(self, other: Frequency) -> bool {
        self.0 + other.0 <= u64::MAX
    }

    open spec fn add_spec(self, other: Frequency) -> Frequency {
        Frequency((self.0 + other.0) as u64)
    }
}

impl core::ops::Sub for Frequency {
    type Output = Frequency;

    fn sub(self, rhs: Frequency) -> (r: Frequency) {
        Frequency(self.0 - rhs.0)
    }
}

impl vstd::std_specs::ops::SubSpecImpl for Frequency {
    open spec fn obeys_sub_spec() -> bool {
        true
    }

    open spec fn sub_req(self, rhs: Frequency) -> bool {
        self.0 >= rhs.0
    }

    open spec fn sub_spec(self, rhs: Frequency) -> Frequency {
        Frequency((self.0 - rhs.0) as u64)
    }
}

impl core::ops::Mul<u64> for Frequency {
    type Output = Frequency;

    fn mul(self, rhs: u64) -> (r: Frequency) {
        Frequency(self.0 * rhs)
    }
}

impl vstd::std_specs::ops::MulSpecImpl<u64> for Frequency {
    open spec fn obeys_mul_spec() -> bool {
        true
    }

    open spec fn mul_req(self, rhs: u64) -> bool {
        self.0 * rhs <= u64::MAX
    }

    open spec fn mul_spec(self, rhs: u64) -> Frequency {
        Frequency((self.0 * rhs) as u64)
    }
}

impl core::ops::Div<u64> for Frequency {
    type Output = Frequency;

    fn div(self, rhs: u64) -> (r: Frequency) {
        Frequency(self.0 / rhs)
    }
}

impl vstd::std_specs::ops::DivSpecImpl<u64> for Frequency {
    open spec fn obeys_div_spec() -> bool {
        true
    }

    open spec fn div_req(self, rhs: u64) -> bool {
        rhs != 0
    }

    open spec fn div_spec(self, rhs: u64) -> Frequency {
        Frequency(self.0 / rhs)
    }
}

impl core::ops::Mul for Frequency {
    type Output = Frequency;

    fn mul(self, rhs: Frequency) -> (r: Frequency) {
        Frequency(self.0 * rhs.0)
    }
}

impl vstd::std_specs::ops::MulSpecImpl for Frequency {
    open spec fn obeys_mul_spec() -> bool {
        true
    }

    open spec fn mul_req(self, rhs: Frequency) -> bool {
        self.0 * rhs.0 <= u64::MAX
    }

    open spec fn mul_spec(self, rhs: Frequency) -> Frequency {
        Frequency((self.0 * rhs.0) as u64)
    }
}

impl core::ops::Div for Frequency {
    type Output = Frequency;

    fn div(self, rhs: Frequency) -> (r: Frequency) {
        Frequency(self.0 / rhs.0)
    }
}

impl vstd::std_specs::ops::DivSpecImpl for Frequency {
    open spec fn obeys_div_spec() -> bool {
        true
    }

    open spec fn div_req(self, rhs: Frequency) -> bool {
        rhs.0 != 0
    }

    open spec fn div_spec(self, rhs: Frequency) -> Frequency {
        Frequency(self.0 / rhs.0)
    }
}

impl core::ops::Rem for Frequency {
    type Output = Frequency;

    fn rem(self, rhs: Frequency) -> (r: Frequency) {
        Frequency(self.0 % rhs.0)
    }
}

impl vstd::std_specs::ops::RemSpecImpl for Frequency {
    open spec fn obeys_rem_spec() -> bool {
        true
    }

    open spec fn rem_req(self, rhs: Frequency) -> bool {
        rhs.0 != 0
    }

    open spec fn rem_spec(self, rhs: Frequency) -> Frequency {
        Frequency(self.0 % rhs.0)
    }
}

} // verus!
