//! The two IP address families.

use vstd::prelude::*;

verus! {

/// An IP address family.
#[derive(Clone, Copy, Debug, Eq, PartialEq, Structural)]
pub enum IpFamily {
    V4,
    V6,
}

impl IpFamily {
    /// Number of bits in an address of the family.
    pub open spec fn bit_width(self) -> nat {
        match self {
            IpFamily::V4 => 32,
            IpFamily::V6 => 128,
        }
    }

    /// The highest address of the family, as a number.
    pub open spec fn max_address(self) -> int {
        match self {
            IpFamily::V4 => 0xffff_ffff,
            IpFamily::V6 => 0xffff_ffff_ffff_ffff_ffff_ffff_ffff_ffff,
        }
    }

    /// The family's version number as it appears in `IPv4` and `IPv6`.
    pub open spec fn version(self) -> u8 {
        match self {
            IpFamily::V4 => 4,
            IpFamily::V6 => 6,
        }
    }

    pub fn bits(self) -> (bits: u8)
        ensures
            bits as nat == self.bit_width(),
    {
        match self {
            IpFamily::V4 => 32,
            IpFamily::V6 => 128,
        }
    }

    /// The family's version number: 4 or 6.
    pub fn number(self) -> (number: u8)
        ensures
            number == self.version(),
    {
        match self {
            IpFamily::V4 => 4,
            IpFamily::V6 => 6,
        }
    }
}

/// One address of either family, as a number.
#[derive(Clone, Copy, Debug, Eq, PartialEq, Structural)]
pub enum IpAddress {
    V4(u32),
    V6(u128),
}

} // verus!
