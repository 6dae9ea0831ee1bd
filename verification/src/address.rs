//! Address spaces and the addresses in them.

use vstd::prelude::*;

verus! {

/// An address space of the architecture.  Two spaces are the same space exactly
/// when they are equal: the index tells them apart.
#[derive(Clone, Copy, Debug, PartialEq, Eq, Structural)]
pub struct AddrSpace {
    pub index: u32,
    pub big_endian: bool,
}

/// An offset into an address space.  An address without a space names no storage.
#[derive(Clone, Copy, Debug, PartialEq, Eq, Structural)]
pub struct Address {
    pub base: Option<AddrSpace>,
    pub offset: u64,
}

impl Address {
    /// The address `offset` bytes into `space`.
    pub fn new(space: AddrSpace, offset: u64) -> (result: Address)
        ensures
            result == (Address { base: Some(space), offset }),
    {
        Address { base: Some(space), offset }
    }

    /// The space of the address, if it has one.
    pub fn get_space(&self) -> (result: Option<AddrSpace>)
        ensures
            result == self.base,
    {
        self.base
    }

    /// The offset into the space.
    pub fn get_offset(&self) -> (result: u64)
        ensures
            result == self.offset,
    {
        self.offset
    }

    /// Whether the space of the address stores its most significant byte first.
    pub open spec fn big_endian(self) -> bool {
        self.base matches Some(space) && space.big_endian
    }

    /// Whether the space of the address stores its most significant byte first.
    /// An address without a space counts as little endian.
    pub fn is_big_endian(&self) -> (result: bool)
        ensures
            result == self.big_endian(),
    {
        match self.base {
            Some(space) => space.big_endian,
            None => false,
        }
    }
}

} // verus!
