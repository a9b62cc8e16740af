//! Plain-value model of a peer's IP address.
//!
//! An IPv4 address is held as its four octets; an IPv6 address as its 128
//! address bits (eight 16-bit groups, most significant first). Subnet
//! classification applies to IPv4 only: IPv6 addresses carry no subnet key
//! and are exempt from subnet limits, a documented design choice of the
//! admission layer.

use vstd::prelude::*;

verus! {

/// A remote peer's IP address, as plain data.
#[derive(Clone, Copy, Debug, PartialEq, Eq, Structural)]
pub enum IpAddress {
    /// An IPv4 address `a.b.c.d`.
    V4 { a: u8, b: u8, c: u8, d: u8 },
    /// An IPv6 address; `bits` holds the sixteen address bytes,
    /// most significant first.
    V6 { bits: u128 },
}

impl IpAddress {
    /// True when the address is IPv4.
    pub open spec fn spec_is_v4(self) -> bool {
        self is V4
    }

    /// The /24 key of an IPv4 address: its first three octets, packed
    /// as `a * 65536 + b * 256 + c`. Meaningful only when `spec_is_v4`.
    pub open spec fn spec_subnet24(self) -> u32 {
        ((self->a as u32) * 65536 + (self->b as u32) * 256 + (self->c as u32)) as u32
    }

    /// The /16 key of an IPv4 address: its first two octets, packed
    /// as `a * 256 + b`. Meaningful only when `spec_is_v4`.
    pub open spec fn spec_subnet16(self) -> u32 {
        ((self->a as u32) * 256 + (self->b as u32)) as u32
    }

    /// Builds the IPv4 address `a.b.c.d`.
    pub fn v4(a: u8, b: u8, c: u8, d: u8) -> (r: IpAddress)
        ensures
            r == (IpAddress::V4 { a, b, c, d }),
    {
        IpAddress::V4 { a, b, c, d }
    }

    /// Builds an IPv6 address from its eight 16-bit groups, most
    /// significant first.
    pub fn v6(g0: u16, g1: u16, g2: u16, g3: u16, g4: u16, g5: u16, g6: u16, g7: u16) -> (r:
        IpAddress)
        ensures
            r is V6,
            r->bits == ip6_bits_of_groups(g0, g1, g2, g3, g4, g5, g6, g7),
    {
        let mut acc: u128 = g0 as u128;
        acc = acc * 0x1_0000 + g1 as u128;
        acc = acc * 0x1_0000 + g2 as u128;
        acc = acc * 0x1_0000 + g3 as u128;
        acc = acc * 0x1_0000 + g4 as u128;
        acc = acc * 0x1_0000 + g5 as u128;
        acc = acc * 0x1_0000 + g6 as u128;
        acc = acc * 0x1_0000 + g7 as u128;
        IpAddress::V6 { bits: acc }
    }

    /// True when the address is IPv4 (executable form).
    pub fn is_v4(&self) -> (r: bool)
        ensures
            r == self.spec_is_v4(),
    {
        match self {
            IpAddress::V4 { .. } => true,
            IpAddress::V6 { .. } => false,
        }
    }
}

/// The 128 address bits encoded by eight 16-bit groups, most significant
/// first.
pub open spec fn ip6_bits_of_groups(
    g0: u16,
    g1: u16,
    g2: u16,
    g3: u16,
    g4: u16,
    g5: u16,
    g6: u16,
    g7: u16,
) -> int {
    (((((((g0 as u128) * 0x1_0000 + g1 as u128) * 0x1_0000 + g2 as u128) * 0x1_0000 + g3 as u128)
        * 0x1_0000 + g4 as u128) * 0x1_0000 + g5 as u128) * 0x1_0000 + g6 as u128) * 0x1_0000
        + g7 as u128
}

} // verus!
