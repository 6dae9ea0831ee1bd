//! Varnodes: the storage locations that the operations of a function read and write.

use crate::address::{AddrSpace, Address};
use vstd::prelude::*;

verus! {

/// The name of a varnode.  A name is never given to a second varnode, also after
/// the first was destroyed.
#[derive(Clone, Copy, Debug, PartialEq, Eq, Structural)]
pub struct VarnodeId(pub usize);

/// The name of an operation.
#[derive(Clone, Copy, Debug, PartialEq, Eq, Structural)]
pub struct PcodeOpId(pub usize);

/// The name of a basic block.
#[derive(Clone, Copy, Debug, PartialEq, Eq, Structural)]
pub struct BlockId(pub usize);

/// Where the value of a varnode comes from.
#[derive(Clone, Copy, Debug, PartialEq, Eq, Structural)]
pub enum VarnodeKind {
    /// Not settled yet.
    Free,
    /// The value that the storage holds when the function is entered.
    Input,
    /// The output of an operation.
    Written(PcodeOpId),
    /// A constant: the offset is the value.
    Constant,
}

/// A varnode: `size` bytes of storage at `loc`.
#[derive(Clone, Copy, Debug, PartialEq, Eq, Structural)]
pub struct Varnode {
    pub loc: Address,
    pub size: i32,
    pub kind: VarnodeKind,
    pub write_mask: bool,
}

/// Where the value of a modelled varnode comes from.
pub enum Origin {
    Free,
    Input,
    Written(int),
    Constant,
}

/// The model of a varnode.
pub struct Vn {
    pub base: Option<AddrSpace>,
    pub offset: int,
    pub size: int,
    pub origin: Origin,
    pub write_mask: bool,
}

impl Vn {
    /// The end of the storage: the offset just after its last byte.
    pub open spec fn end(self) -> int {
        self.offset + self.size
    }

    /// Whether two varnodes share a byte of storage.
    pub open spec fn overlaps(self, other: Vn) -> bool {
        &&& self.base == other.base
        &&& self.offset < other.end()
        &&& other.offset < self.end()
    }

    /// Whether the storage is `size` bytes at `offset` in `base`.
    pub open spec fn is_at(self, base: Option<AddrSpace>, offset: int, size: int) -> bool {
        self.base == base && self.offset == offset && self.size == size
    }
}

impl View for VarnodeKind {
    type V = Origin;

    open spec fn view(&self) -> Origin {
        match *self {
            VarnodeKind::Free => Origin::Free,
            VarnodeKind::Input => Origin::Input,
            VarnodeKind::Written(op) => Origin::Written(op.0 as int),
            VarnodeKind::Constant => Origin::Constant,
        }
    }
}

impl View for Varnode {
    type V = Vn;

    open spec fn view(&self) -> Vn {
        Vn {
            base: self.loc.base,
            offset: self.loc.offset as int,
            size: self.size as int,
            origin: self.kind@,
            write_mask: self.write_mask,
        }
    }
}

impl Varnode {
    /// The address of the storage.
    pub fn get_addr(&self) -> (result: Address)
        ensures
            result == self.loc,
    {
        self.loc
    }

    /// The offset of the storage in its space; of a constant, its value.
    pub fn get_offset(&self) -> (result: u64)
        ensures
            result == self.loc.offset,
    {
        self.loc.offset
    }

    /// The number of bytes of storage.
    pub fn get_size(&self) -> (result: i32)
        ensures
            result == self.size,
    {
        self.size
    }

    /// Whether the varnode holds a value that enters the function.
    pub fn is_input(&self) -> (result: bool)
        ensures
            result == (self@.origin == Origin::Input),
    {
        match self.kind {
            VarnodeKind::Input => true,
            _ => false,
        }
    }

    /// Whether the varnode is the output of an operation.
    pub fn is_written(&self) -> (result: bool)
        ensures
            result == (self@.origin is Written),
    {
        match self.kind {
            VarnodeKind::Written(_) => true,
            _ => false,
        }
    }

    /// Whether the varnode is settled neither as an input, nor as an output, nor as
    /// a constant.
    pub fn is_free(&self) -> (result: bool)
        ensures
            result == (self@.origin == Origin::Free),
    {
        match self.kind {
            VarnodeKind::Free => true,
            _ => false,
        }
    }

    /// Whether renaming passes the varnode over.
    pub fn is_write_mask(&self) -> (result: bool)
        ensures
            result == self.write_mask,
    {
        self.write_mask
    }

    /// The operation whose output the varnode is, if there is one.
    pub fn get_def(&self) -> (result: Option<PcodeOpId>)
        ensures
            result == (match self.kind {
                VarnodeKind::Written(op) => Some(op),
                _ => None,
            }),
    {
        match self.kind {
            VarnodeKind::Written(op) => Some(op),
            _ => None,
        }
    }
}

} // verus!
