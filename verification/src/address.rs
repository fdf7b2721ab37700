//! IPv4 remote addresses, the key of every registry entry.
//!
//! Ordering is the natural numeric ordering of the address (big-endian over
//! the four octets); the registry keeps its entries sorted by it.

use vstd::prelude::*;

verus! {

/// An IPv4 address as four octets, `o0.o1.o2.o3` in dotted notation.
#[derive(Clone, Copy, PartialEq, Eq, Structural, Debug, Hash)]
pub struct Ipv4Address {
    pub o0: u8,
    pub o1: u8,
    pub o2: u8,
    pub o3: u8,
}

/// The numeric value of an address: its octets read as one big-endian number.
pub open spec fn addr_key(a: Ipv4Address) -> int {
    a.o0 * 0x100_0000 + a.o1 * 0x1_0000 + a.o2 * 0x100 + a.o3
}

impl Ipv4Address {
    pub fn new(o0: u8, o1: u8, o2: u8, o3: u8) -> (r: Ipv4Address)
        ensures
            r == (Ipv4Address { o0, o1, o2, o3 }),
    {
        Ipv4Address { o0, o1, o2, o3 }
    }

    /// The numeric value of this address, computable at run time.
    pub fn key(&self) -> (k: u32)
        ensures
            k == addr_key(*self),
    {
        (self.o0 as u32) * 0x100_0000 + (self.o1 as u32) * 0x1_0000 + (self.o2 as u32) * 0x100
            + (self.o3 as u32)
    }

    /// Strict numeric comparison of two addresses.
    pub fn lt(&self, other: &Ipv4Address) -> (r: bool)
        ensures
            r == (addr_key(*self) < addr_key(*other)),
    {
        self.key() < other.key()
    }
}

/// Two addresses with the same numeric value have the same octets.
pub proof fn lemma_addr_key_injective(a: Ipv4Address, b: Ipv4Address)
    requires
        addr_key(a) == addr_key(b),
    ensures
        a == b,
{
}

} // verus!
