//! The model of a function under analysis, and of the edits that are made to it.

use crate::address::{AddrSpace, Address};
use crate::op::{Op, OpCode};
use crate::varnode::{Origin, Vn};
use vstd::prelude::*;

verus! {

/// The number of offsets of an address space.
pub open spec fn offsets() -> int {
    0x1_0000_0000_0000_0000
}

/// The model of a function under analysis.  Varnodes, operations and blocks stand
/// under the numbers of their names; the place of a destroyed varnode stays empty.
#[verifier::ext_equal]
pub struct Graph {
    pub varnodes: Seq<Option<Vn>>,
    pub ops: Seq<Op>,
    pub blocks: Seq<Seq<int>>,
    /// The block where the function is entered, once it is known.
    pub start: Option<int>,
    /// The offset of the next temporary.
    pub next_unique: int,
    /// The address of the function.
    pub address: Address,
    pub constant: AddrSpace,
    pub unique: AddrSpace,
}

impl Graph {
    /// Whether the number names a varnode that was not destroyed.
    pub open spec fn live(self, v: int) -> bool {
        0 <= v < self.varnodes.len() && self.varnodes[v] is Some
    }

    /// The varnode of that number.
    pub open spec fn vn(self, v: int) -> Vn
        recommends
            self.live(v),
    {
        self.varnodes[v]->0
    }

    /// Whether the number names an input of the function.
    pub open spec fn is_input(self, v: int) -> bool {
        self.live(v) && self.vn(v).origin == Origin::Input
    }

    /// Whether the number names the input that occupies exactly this storage.
    pub open spec fn is_input_at(
        self,
        v: int,
        base: Option<AddrSpace>,
        offset: int,
        size: int,
    ) -> bool {
        self.is_input(v) && self.vn(v).is_at(base, offset, size)
    }

    /// Whether some operation reads the varnode.
    pub open spec fn is_read(self, v: int) -> bool {
        exists|k: int| 0 <= k < self.ops.len() && #[trigger] self.ops[k].reads(v)
    }

    /// Whether some input of the function shares a byte of storage with `vn`.
    pub open spec fn meets_input(self, vn: Vn) -> bool {
        exists|u: int| #[trigger] self.is_input(u) && self.vn(u).overlaps(vn)
    }

    /// The input that occupies exactly this storage, among the first `n` varnodes: the
    /// one that was made last, if there are several.
    pub open spec fn input_among(
        self,
        n: int,
        base: Option<AddrSpace>,
        offset: int,
        size: int,
    ) -> Option<int>
        decreases n,
    {
        if n <= 0 {
            None
        } else if self.is_input_at(n - 1, base, offset, size) {
            Some(n - 1)
        } else {
            self.input_among(n - 1, base, offset, size)
        }
    }

    /// The input that occupies exactly this storage, if there is one; the one that was
    /// made last, if there are several.
    pub open spec fn input_at(self, base: Option<AddrSpace>, offset: int, size: int) -> Option<
        int,
    > {
        self.input_among(self.varnodes.len() as int, base, offset, size)
    }

    /// The varnodes are in range, and inputs are in a space.
    pub open spec fn varnodes_sound(self) -> bool {
        &&& forall|v: int| #[trigger]
            self.live(v) ==> i32::MIN <= self.vn(v).size <= i32::MAX && 0 <= self.vn(v).offset
                < offsets()
        &&& forall|v: int| #[trigger] self.is_input(v) ==> self.vn(v).base is Some
    }

    /// Every varnode has storage.
    pub open spec fn sized(self) -> bool {
        forall|v: int| #[trigger] self.live(v) ==> self.vn(v).size > 0
    }

    /// No two inputs share storage.
    pub open spec fn inputs_disjoint(self) -> bool {
        forall|u: int, v: int| #[trigger]
            self.is_input(u) && #[trigger] self.is_input(v) && u != v ==> !self.vn(u).overlaps(
                self.vn(v),
            )
    }

    /// Operations read varnodes that exist.
    pub open spec fn reads_sound(self) -> bool {
        forall|k: int, s: int|
            0 <= k < self.ops.len() && 0 <= s < self.ops[k].inputs.len() && (
            #[trigger] self.ops[k].inputs[s]) is Some ==> self.live(self.ops[k].inputs[s]->0)
    }

    /// The output of an operation is a varnode that is written by it, and the other
    /// way round.
    pub open spec fn writes_sound(self) -> bool {
        &&& forall|k: int|
            0 <= k < self.ops.len() && (#[trigger] self.ops[k]).output is Some ==> {
                let v = self.ops[k].output->0;
                self.live(v) && self.vn(v).origin == Origin::Written(k)
            }
        &&& forall|v: int| #[trigger]
            self.live(v) && self.vn(v).origin is Written ==> {
                let k = self.vn(v).origin->Written_0;
                0 <= k < self.ops.len() && self.ops[k].output == Some(v)
            }
    }

    /// Blocks hold operations that exist, and the function is entered in one of them, if
    /// that is known.
    pub open spec fn blocks_sound(self) -> bool {
        &&& self.start matches Some(b) ==> 0 <= b < self.blocks.len()
        &&& forall|b: int, i: int|
            0 <= b < self.blocks.len() && 0 <= i < self.blocks[b].len() ==> 0 <= (
            #[trigger] self.blocks[b][i]) < self.ops.len()
        &&& 0 <= self.next_unique < offsets()
    }

    /// Whatever is named exists.  Of the storage of inputs nothing is said: some may
    /// have none, and some may share it.
    pub open spec fn linked(self) -> bool {
        &&& self.varnodes_sound()
        &&& self.reads_sound()
        &&& self.writes_sound()
        &&& self.blocks_sound()
    }

    /// The function is sound: whatever is named exists, every varnode has storage, and
    /// no two inputs share any.
    pub open spec fn wf(self) -> bool {
        &&& self.linked()
        &&& self.sized()
        &&& self.inputs_disjoint()
    }

    /// The function with one more varnode, under the next number.
    pub open spec fn add_varnode(self, vn: Vn) -> Graph {
        Graph { varnodes: self.varnodes.push(Some(vn)), ..self }
    }

    /// The function with another varnode under that number.
    pub open spec fn set_varnode(self, v: int, vn: Vn) -> Graph {
        Graph { varnodes: self.varnodes.update(v, Some(vn)), ..self }
    }

    /// The function without the varnode.
    pub open spec fn destroy(self, v: int) -> Graph {
        Graph { varnodes: self.varnodes.update(v, None), ..self }
    }

    /// The function with one more operation, under the next number.
    pub open spec fn add_op(self, op: Op) -> Graph {
        Graph { ops: self.ops.push(op), ..self }
    }

    /// The function with another operation under that number.
    pub open spec fn set_op(self, k: int, op: Op) -> Graph {
        Graph { ops: self.ops.update(k, op), ..self }
    }

    /// The place in a block where an operation goes that is to run just before
    /// another: at the end of the block, if the block does not hold the other.
    pub open spec fn place_before(ops: Seq<int>, before: Option<int>) -> int
        decreases ops.len(),
    {
        if ops.len() == 0 || Some(ops[0]) == before {
            0
        } else {
            1 + Graph::place_before(ops.drop_first(), before)
        }
    }

    /// The function with an operation put into a block, just before another.
    pub open spec fn insert_op(self, k: int, b: int, before: Option<int>) -> Graph {
        let at = Graph::place_before(self.blocks[b], before);
        Graph { blocks: self.blocks.update(b, self.blocks[b].insert(at, k)), ..self }
    }

    /// The function with the next temporary taken: `size` bytes of it.
    pub open spec fn take_unique(self, size: int) -> Graph {
        Graph { next_unique: (self.next_unique + size) % offsets(), ..self }
    }

    /// The operation that first stands in a block.
    pub open spec fn head(self, b: int) -> Option<int> {
        if self.blocks[b].len() == 0 {
            None
        } else {
            Some(self.blocks[b][0])
        }
    }

    /// The constant varnode of `size` bytes.
    pub open spec fn constant_vn(self, size: int, value: int) -> Vn {
        Vn {
            base: Some(self.constant),
            offset: value,
            size,
            origin: Origin::Constant,
            write_mask: false,
        }
    }

    /// The function with a new operation that cuts `out` from the varnode `source`,
    /// leaving off `skip` of its least significant bytes.  The operation stands in
    /// no block yet.  The output comes under the next number, the constant under the
    /// one after it.
    pub open spec fn add_slice(self, addr: Address, source: int, skip: int, out: Vn) -> Graph {
        let n = self.varnodes.len() as int;
        let k = self.ops.len() as int;
        self.add_varnode(Vn { origin: Origin::Written(k), ..out }).add_varnode(
            self.constant_vn(4, skip),
        ).add_op(
            Op {
                code: OpCode::CPUI_SUBPIECE,
                addr,
                inputs: seq![Some(source), Some(n + 1)],
                output: Some(n),
            },
        )
    }

    /// The function with a new operation that joins two varnodes into `out`, the more
    /// significant one first.  The operation stands in no block yet; the output comes
    /// under the next number.
    pub open spec fn add_piece(self, addr: Address, hi: int, lo: int, out: Vn) -> Graph {
        let n = self.varnodes.len() as int;
        let k = self.ops.len() as int;
        self.add_varnode(Vn { origin: Origin::Written(k), ..out }).add_op(
            Op {
                code: OpCode::CPUI_PIECE,
                addr,
                inputs: seq![Some(hi), Some(lo)],
                output: Some(n),
            },
        )
    }

    /// Whether the storage of two varnodes is adjacent, `hi` on the more significant
    /// side.
    pub open spec fn adjacent(self, hi: int, lo: int) -> bool {
        &&& hi != lo
        &&& self.vn(hi).size >= 0
        &&& self.vn(lo).size >= 0
        &&& self.vn(hi).base == self.vn(lo).base
        &&& if (self.vn(hi).base matches Some(space) && space.big_endian) {
            self.vn(hi).end() == self.vn(lo).offset
        } else {
            self.vn(lo).end() == self.vn(hi).offset
        }
    }

    /// The input that takes the place of two adjacent ones.
    pub open spec fn joined_vn(self, hi: int, lo: int) -> Vn {
        Vn {
            base: self.vn(lo).base,
            offset: if self.vn(hi).offset < self.vn(lo).offset {
                self.vn(hi).offset
            } else {
                self.vn(lo).offset
            },
            size: self.vn(hi).size + self.vn(lo).size,
            origin: Origin::Input,
            write_mask: true,
        }
    }

    /// Whether some operation reads `v` otherwise than by joining `hi` and `lo`.
    pub open spec fn read_apart(self, v: int, hi: int, lo: int) -> bool {
        exists|k: int|
            0 <= k < self.ops.len() && #[trigger] self.ops[k].reads(v) && !self.ops[k].joins(hi, lo)
    }

    /// Whether what operations read of two varnodes apart can be cut from their fold: for
    /// a cut, the block where the function is entered must be known.
    pub open spec fn cuttable(self, hi: int, lo: int) -> bool {
        self.start is Some || !(self.read_apart(hi, hi, lo) || self.read_apart(lo, hi, lo))
    }

    /// The function with a new operation where it is entered that cuts a varnode of
    /// the storage of `vn` from `source`.
    pub open spec fn cut_back(self, source: int, skip: int, vn: Vn) -> Graph {
        let b = self.start->0;
        self.add_slice(self.address, source, skip, Vn { write_mask: true, ..vn }).insert_op(
            self.ops.len() as int,
            b,
            self.head(b),
        )
    }

    /// The function with two adjacent inputs folded into one.  Operations that join
    /// the two copy the new input; others read the part that they had read, which is
    /// cut from the new input where the function is entered.
    pub open spec fn combine(self, hi: int, lo: int) -> Graph {
        let joined = self.varnodes.len() as int;
        let g1 = self.destroy(hi).destroy(lo).add_varnode(self.joined_vn(hi, lo));
        let hi_cut = g1.varnodes.len() as int;
        let g2 = if self.read_apart(hi, hi, lo) {
            g1.cut_back(joined, self.vn(lo).size, self.vn(hi))
        } else {
            g1
        };
        let lo_cut = g2.varnodes.len() as int;
        let g3 = if self.read_apart(lo, hi, lo) {
            g2.cut_back(joined, 0, self.vn(lo))
        } else {
            g2
        };
        Graph {
            ops: Seq::new(
                g3.ops.len(),
                |k: int|
                    if k < self.ops.len() {
                        self.ops[k].rewired(hi, lo, joined, hi_cut, lo_cut)
                    } else {
                        g3.ops[k]
                    },
            ),
            ..g3
        }
    }
}

} // verus!
