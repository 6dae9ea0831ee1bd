//! A function under analysis: its varnodes, its operations and its blocks.

use crate::address::{AddrSpace, Address};
use crate::graph::{offsets, Graph};
use crate::op::{id_view, Op, OpCode, PcodeOp};
use crate::plan::{ins, In, InputVarnode};
use crate::soundness::{
    lemma_add_op, lemma_add_varnode, lemma_combine, lemma_combine_shape, lemma_destroy,
    lemma_give_output, lemma_insert_op, lemma_place_before, lemma_set_op, lemma_settle_input,
    lemma_take_unique,
};
use crate::varnode::{BlockId, Origin, PcodeOpId, Varnode, VarnodeId, VarnodeKind, Vn};
use vstd::prelude::*;

verus! {

/// Why an edit was refused.  A refused edit leaves the function as it was.
#[derive(Clone, Copy, Debug, PartialEq, Eq, Structural)]
pub enum EditError {
    /// The varnode was destroyed, or never made.
    NoSuchVarnode,
    /// The varnode is an input, an output or a constant.
    NotFree,
    /// The varnode is in no address space.
    NoSpace,
    /// Another input shares a part of the storage.
    OverlappingInputs,
    /// An operation reads the varnode.
    StillRead,
    /// The varnode is not an input.
    NotInput,
    /// The storage of the varnodes is not adjacent, in the order given.
    NotAdjacent,
    /// The size cannot be written down.
    TooLarge,
    /// The operation was never made.
    NoSuchOp,
    /// The operation has an output.
    HasOutput,
    /// The operation has no such operand.
    NoSuchSlot,
    /// The block where the function is entered is not known.
    NoStartBlock,
}

/// The varnodes of a function, by name.
#[derive(Debug)]
pub struct VarnodeBank {
    slots: Vec<Option<Varnode>>,
}

/// The operations of a function, by name.
#[derive(Debug)]
pub struct PcodeOpBank {
    ops: Vec<PcodeOp>,
}

/// A function under analysis.
#[derive(Debug)]
pub struct Funcdata {
    vbank: VarnodeBank,
    obank: PcodeOpBank,
    blocks: Vec<Vec<PcodeOpId>>,
    start: Option<BlockId>,
    next_unique: u64,
    address: Address,
    constant: AddrSpace,
    unique: AddrSpace,
}

/// The model of a place in the bank of varnodes.
pub open spec fn slot_view(slot: Option<Varnode>) -> Option<Vn> {
    match slot {
        Some(vn) => Some(vn@),
        None => None,
    }
}

/// The number of an operation, where there is one.
pub open spec fn op_id_view(id: Option<PcodeOpId>) -> Option<int> {
    match id {
        Some(k) => Some(k.0 as int),
        None => None,
    }
}

/// The number of a block, where there is one.
pub open spec fn block_id_view(id: Option<BlockId>) -> Option<int> {
    match id {
        Some(b) => Some(b.0 as int),
        None => None,
    }
}

impl View for VarnodeBank {
    type V = Seq<Option<Vn>>;

    closed spec fn view(&self) -> Seq<Option<Vn>> {
        self.slots@.map_values(|slot: Option<Varnode>| slot_view(slot))
    }
}

impl View for PcodeOpBank {
    type V = Seq<Op>;

    closed spec fn view(&self) -> Seq<Op> {
        self.ops@.map_values(|op: PcodeOp| op@)
    }
}

/// The operations of a block, by number.
pub open spec fn block_view(block: Vec<PcodeOpId>) -> Seq<int> {
    block@.map_values(|k: PcodeOpId| k.0 as int)
}

impl View for Funcdata {
    type V = Graph;

    closed spec fn view(&self) -> Graph {
        Graph {
            varnodes: self.vbank@,
            ops: self.obank@,
            blocks: self.blocks@.map_values(|block: Vec<PcodeOpId>| block_view(block)),
            start: block_id_view(self.start),
            next_unique: self.next_unique as int,
            address: self.address,
            constant: self.constant,
            unique: self.unique,
        }
    }
}

/// The inputs among the first `n` varnodes, in the order of their names.
pub open spec fn inputs_among(varnodes: Seq<Option<Vn>>, n: int) -> Seq<In>
    decreases n,
{
    if n <= 0 {
        Seq::empty()
    } else {
        let before = inputs_among(varnodes, n - 1);
        match varnodes[n - 1] {
            Some(vn) => if vn.origin == Origin::Input {
                before.push(In { id: n - 1, vn })
            } else {
                before
            },
            None => before,
        }
    }
}

/// The inputs of a function, in the order of their names.
pub open spec fn inputs_of(g: Graph) -> Seq<In> {
    inputs_among(g.varnodes, g.varnodes.len() as int)
}

impl VarnodeBank {
    /// The varnode of that name, if it was not destroyed.
    pub fn get(&self, id: VarnodeId) -> (result: Option<&Varnode>)
        ensures
            match result {
                Some(vn) => id.0 < self@.len() && self@[id.0 as int] == Some(vn@),
                None => id.0 < self@.len() ==> self@[id.0 as int] is None,
            },
    {
        if id.0 < self.slots.len() {
            match &self.slots[id.0] {
                Some(vn) => Some(vn),
                None => None,
            }
        } else {
            None
        }
    }

    /// The inputs, in the order of their names.
    pub fn input_varnodes(&self) -> (result: Vec<InputVarnode>)
        ensures
            ins(result@) == inputs_among(self@, self@.len() as int),
    {
        let mut result: Vec<InputVarnode> = Vec::new();
        let mut n: usize = 0;
        assert(ins(result@) =~= Seq::empty());
        while n < self.slots.len()
            invariant
                n <= self.slots.len(),
                ins(result@) == inputs_among(self@, n as int),
            decreases self.slots.len() - n,
        {
            let ghost before = ins(result@);
            assert(self@[n as int] == slot_view(self.slots@[n as int]));
            if let Some(vn) = self.slots[n] {
                if vn.is_input() {
                    let item: InputVarnode = InputVarnode { id: VarnodeId(n), vn };
                    result.push(item);
                    assert(ins(result@) =~= before.push(item@));
                }
            }
            n = n + 1;
        }
        result
    }
}

impl PcodeOpBank {
    /// The operation of that name.
    pub fn get(&self, id: PcodeOpId) -> (result: Option<&PcodeOp>)
        ensures
            match result {
                Some(op) => id.0 < self@.len() && self@[id.0 as int] == op@,
                None => id.0 >= self@.len(),
            },
    {
        if id.0 < self.ops.len() {
            Some(&self.ops[id.0])
        } else {
            None
        }
    }
}

/// Whether the one operation is the other, where there is one.
fn is_op(id: Option<PcodeOpId>, other: PcodeOpId) -> (result: bool)
    ensures
        result == (op_id_view(id) == Some(other.0 as int)),
{
    match id {
        Some(k) => k == other,
        None => false,
    }
}

/// Whether two varnodes share a byte of storage.
fn overlap(a: &Varnode, b: &Varnode) -> (result: bool)
    ensures
        result == a@.overlaps(b@),
{
    let a_end: i128 = a.loc.offset as i128 + a.size as i128;
    let b_end: i128 = b.loc.offset as i128 + b.size as i128;
    a.loc.base == b.loc.base && (a.loc.offset as i128) < b_end && (b.loc.offset as i128) < a_end
}

impl Funcdata {
    /// A function at `address` without varnodes, operations and blocks, with the
    /// spaces of constants and temporaries.
    pub fn new(address: Address, constant: AddrSpace, unique: AddrSpace) -> (result: Funcdata)
        ensures
            result@.wf(),
            result@ == (Graph {
                varnodes: Seq::empty(),
                ops: Seq::empty(),
                blocks: Seq::empty(),
                start: None,
                next_unique: 0,
                address,
                constant,
                unique,
            }),
    {
        let result: Funcdata = Funcdata {
            vbank: VarnodeBank { slots: Vec::new() },
            obank: PcodeOpBank { ops: Vec::new() },
            blocks: Vec::new(),
            start: None,
            next_unique: 0,
            address,
            constant,
            unique,
        };
        assert(result@.varnodes =~= Seq::empty());
        assert(result@.ops =~= Seq::empty());
        assert(result@.blocks =~= Seq::empty());
        result
    }

    /// The varnodes of the function.
    pub fn vbank(&self) -> (result: &VarnodeBank)
        ensures
            result@ == self@.varnodes,
    {
        &self.vbank
    }

    /// The operations of the function.
    pub fn obank(&self) -> (result: &PcodeOpBank)
        ensures
            result@ == self@.ops,
    {
        &self.obank
    }

    /// The address of the function.
    pub fn get_address(&self) -> (result: Address)
        ensures
            result == self@.address,
    {
        self.address
    }

    /// The block where the function is entered, once it is known.
    pub fn get_start_block(&self) -> (result: Option<BlockId>)
        ensures
            block_id_view(result) == self@.start,
    {
        self.start
    }

    /// The operation that first stands in a block.
    pub fn bb_op_head(&self, block: BlockId) -> (result: Option<PcodeOpId>)
        requires
            block.0 < self@.blocks.len(),
        ensures
            op_id_view(result) == self@.head(block.0 as int),
    {
        assert(self@.blocks[block.0 as int] == block_view(self.blocks@[block.0 as int]));
        if self.blocks[block.0].len() == 0 {
            None
        } else {
            Some(self.blocks[block.0][0])
        }
    }

    /// The operations of a block, in order.
    pub fn block_ops(&self, block: BlockId) -> (result: Option<&Vec<PcodeOpId>>)
        ensures
            match result {
                Some(ops) => block.0 < self@.blocks.len() && self@.blocks[block.0 as int]
                    == block_view(*ops),
                None => block.0 >= self@.blocks.len(),
            },
    {
        if block.0 < self.blocks.len() {
            assert(self@.blocks[block.0 as int] == block_view(self.blocks@[block.0 as int]));
            Some(&self.blocks[block.0])
        } else {
            None
        }
    }

    /// Makes a varnode of `size` bytes at `addr`, settled as nothing yet.
    pub fn new_varnode(&mut self, size: i32, addr: &Address) -> (result: VarnodeId)
        requires
            old(self)@.linked(),
            size > 0,
        ensures
            final(self)@.linked(),
            old(self)@.wf() ==> final(self)@.wf(),
            result.0 == old(self)@.varnodes.len(),
            final(self)@ == old(self)@.add_varnode(
                Vn {
                    base: addr.base,
                    offset: addr.offset as int,
                    size: size as int,
                    origin: Origin::Free,
                    write_mask: false,
                },
            ),
    {
        let vn: Varnode = Varnode { loc: *addr, size, kind: VarnodeKind::Free, write_mask: false };
        proof {
            lemma_add_varnode(self@, vn@);
        }
        self.push_varnode(vn)
    }

    /// Puts a varnode under the next name.
    fn push_varnode(&mut self, vn: Varnode) -> (result: VarnodeId)
        ensures
            result.0 == old(self)@.varnodes.len(),
            final(self)@ == old(self)@.add_varnode(vn@),
    {
        let id: VarnodeId = VarnodeId(self.vbank.slots.len());
        self.vbank.slots.push(Some(vn));
        assert(self@.varnodes =~= old(self)@.varnodes.push(Some(vn@)));
        assert(self@ =~= old(self)@.add_varnode(vn@));
        id
    }

    /// The input that occupies exactly this storage, if there is one; the one that was
    /// made last, if there are several.
    pub fn find_varnode_input(&self, size: i32, addr: &Address) -> (result: Option<VarnodeId>)
        ensures
            id_view(result) == self@.input_at(addr.base, addr.offset as int, size as int),
    {
        let mut n: usize = self.vbank.slots.len();
        while n > 0
            invariant
                n <= self.vbank.slots.len(),
                self@.input_at(addr.base, addr.offset as int, size as int)
                    == self@.input_among(n as int, addr.base, addr.offset as int, size as int),
            decreases n,
        {
            n = n - 1;
            assert(self@.varnodes[n as int] == slot_view(self.vbank.slots@[n as int]));
            if let Some(vn) = self.vbank.slots[n] {
                if vn.is_input() && vn.size == size && vn.loc == *addr {
                    return Some(VarnodeId(n));
                }
            }
        }
        None
    }

    /// Whether an input shares a byte of storage with `vn`.
    fn meets_input(&self, vn: &Varnode) -> (result: bool)
        ensures
            result == self@.meets_input(vn@),
    {
        let mut n: usize = 0;
        while n < self.vbank.slots.len()
            invariant
                n <= self.vbank.slots.len(),
                forall|u: int|
                    u < n && #[trigger] self@.is_input(u) ==> !self@.vn(u).overlaps(vn@),
            decreases self.vbank.slots.len() - n,
        {
            assert(self@.varnodes[n as int] == slot_view(self.vbank.slots@[n as int]));
            if let Some(other) = self.vbank.slots[n] {
                if other.is_input() {
                    if overlap(&other, vn) {
                        assert(self@.is_input(n as int));
                        return true;
                    }
                }
            }
            n = n + 1;
        }
        false
    }

    /// Settles a free varnode as an input.  Where an input occupies exactly its
    /// storage already, that one is given back and nothing is settled.
    pub fn set_input_varnode(&mut self, id: VarnodeId) -> (result: Result<VarnodeId, EditError>)
        requires
            old(self)@.linked(),
        ensures
            final(self)@.linked(),
            old(self)@.wf() ==> final(self)@.wf(),
            ({
                let g = old(self)@;
                let v = id.0 as int;
                let vn = g.vn(v);
                if !g.live(v) {
                    result == Err::<VarnodeId, _>(EditError::NoSuchVarnode) && final(self)@ == g
                } else if vn.origin == Origin::Input {
                    result == Ok::<_, EditError>(id) && final(self)@ == g
                } else if vn.origin != Origin::Free {
                    result == Err::<VarnodeId, _>(EditError::NotFree) && final(self)@ == g
                } else if vn.base is None {
                    result == Err::<VarnodeId, _>(EditError::NoSpace) && final(self)@ == g
                } else if g.input_at(vn.base, vn.offset, vn.size) is Some {
                    &&& result matches Ok(u) && Some(u.0 as int) == g.input_at(
                        vn.base,
                        vn.offset,
                        vn.size,
                    )
                    &&& final(self)@ == g
                } else if g.meets_input(vn) {
                    result == Err::<VarnodeId, _>(EditError::OverlappingInputs) && final(self)@ == g
                } else {
                    &&& result == Ok::<_, EditError>(id)
                    &&& final(self)@ == g.set_varnode(v, Vn { origin: Origin::Input, ..vn })
                }
            }),
    {
        let ghost g = self@;
        if id.0 >= self.vbank.slots.len() {
            return Err(EditError::NoSuchVarnode);
        }
        assert(g.varnodes[id.0 as int] == slot_view(self.vbank.slots@[id.0 as int]));
        let vn: Varnode = match self.vbank.slots[id.0] {
            Some(vn) => vn,
            None => {
                return Err(EditError::NoSuchVarnode);
            },
        };
        assert(g.live(id.0 as int));
        if vn.is_input() {
            return Ok(id);
        }
        if !vn.is_free() {
            return Err(EditError::NotFree);
        }
        if vn.loc.base.is_none() {
            return Err(EditError::NoSpace);
        }
        if let Some(u) = self.find_varnode_input(vn.size, &vn.loc) {
            return Ok(u);
        }
        if self.meets_input(&vn) {
            return Err(EditError::OverlappingInputs);
        }
        proof {
            lemma_settle_input(g, id.0 as int);
        }
        let settled: Varnode = Varnode { kind: VarnodeKind::Input, ..vn };
        self.vbank.slots.set(id.0, Some(settled));
        assert(self@.varnodes =~= g.varnodes.update(id.0 as int, Some(settled@)));
        assert(self@ =~= g.set_varnode(id.0 as int, settled@));
        Ok(id)
    }

    /// Marks a varnode as one that renaming passes over.
    pub fn set_write_mask(&mut self, id: VarnodeId) -> (result: Result<(), EditError>)
        requires
            old(self)@.linked(),
        ensures
            final(self)@.linked(),
            old(self)@.wf() ==> final(self)@.wf(),
            ({
                let g = old(self)@;
                let v = id.0 as int;
                if !g.live(v) {
                    result == Err::<(), _>(EditError::NoSuchVarnode) && final(self)@ == g
                } else {
                    &&& result == Ok::<_, EditError>(())
                    &&& final(self)@ == g.set_varnode(v, Vn { write_mask: true, ..g.vn(v) })
                }
            }),
    {
        let ghost g = self@;
        if id.0 >= self.vbank.slots.len() {
            return Err(EditError::NoSuchVarnode);
        }
        assert(g.varnodes[id.0 as int] == slot_view(self.vbank.slots@[id.0 as int]));
        let vn: Varnode = match self.vbank.slots[id.0] {
            Some(vn) => vn,
            None => {
                return Err(EditError::NoSuchVarnode);
            },
        };
        let masked: Varnode = Varnode { write_mask: true, ..vn };
        self.vbank.slots.set(id.0, Some(masked));
        proof {
            assert(g.live(id.0 as int));
            assert(self@.varnodes =~= g.varnodes.update(id.0 as int, Some(masked@)));
            assert(self@ =~= g.set_varnode(id.0 as int, masked@));
            lemma_mask(g, id.0 as int);
        }
        Ok(())
    }

    /// Whether an operation reads the varnode.
    fn is_read(&self, id: VarnodeId) -> (result: bool)
        ensures
            result == self@.is_read(id.0 as int),
    {
        let mut k: usize = 0;
        while k < self.obank.ops.len()
            invariant
                k <= self.obank.ops.len(),
                forall|i: int| 0 <= i < k ==> !(#[trigger] self@.ops[i].reads(id.0 as int)),
            decreases self.obank.ops.len() - k,
        {
            assert(self@.ops[k as int] == self.obank.ops@[k as int]@);
            if self.obank.ops[k].reads_varnode(id) {
                assert(self@.ops[k as int].reads(id.0 as int));
                return true;
            }
            k = k + 1;
        }
        false
    }

    /// Destroys a free varnode that nothing reads.
    pub fn delete_varnode(&mut self, id: VarnodeId) -> (result: Result<(), EditError>)
        requires
            old(self)@.linked(),
        ensures
            final(self)@.linked(),
            old(self)@.wf() ==> final(self)@.wf(),
            ({
                let g = old(self)@;
                let v = id.0 as int;
                if !g.live(v) {
                    result == Err::<(), _>(EditError::NoSuchVarnode) && final(self)@ == g
                } else if g.vn(v).origin != Origin::Free {
                    result == Err::<(), _>(EditError::NotFree) && final(self)@ == g
                } else if g.is_read(v) {
                    result == Err::<(), _>(EditError::StillRead) && final(self)@ == g
                } else {
                    result == Ok::<_, EditError>(()) && final(self)@ == g.destroy(v)
                }
            }),
    {
        let ghost g = self@;
        if id.0 >= self.vbank.slots.len() {
            return Err(EditError::NoSuchVarnode);
        }
        assert(g.varnodes[id.0 as int] == slot_view(self.vbank.slots@[id.0 as int]));
        let vn: Varnode = match self.vbank.slots[id.0] {
            Some(vn) => vn,
            None => {
                return Err(EditError::NoSuchVarnode);
            },
        };
        if !vn.is_free() {
            return Err(EditError::NotFree);
        }
        if self.is_read(id) {
            return Err(EditError::StillRead);
        }
        self.vbank.slots.set(id.0, None);
        proof {
            lemma_destroy(g, id.0 as int);
            assert(self@.varnodes =~= g.varnodes.update(id.0 as int, None));
            assert(self@ =~= g.destroy(id.0 as int));
        }
        Ok(())
    }

    /// Makes a constant of `size` bytes.
    pub fn new_constant(&mut self, size: i32, value: u64) -> (result: VarnodeId)
        requires
            old(self)@.linked(),
            size > 0,
        ensures
            final(self)@.linked(),
            old(self)@.wf() ==> final(self)@.wf(),
            result.0 == old(self)@.varnodes.len(),
            final(self)@ == old(self)@.add_varnode(
                old(self)@.constant_vn(size as int, value as int),
            ),
    {
        let vn: Varnode = Varnode {
            loc: Address::new(self.constant, value),
            size,
            kind: VarnodeKind::Constant,
            write_mask: false,
        };
        proof {
            lemma_add_varnode(self@, vn@);
        }
        self.push_varnode(vn)
    }

    /// Makes an operation at `addr` with `n` operands, none of them set.
    pub fn new_op(&mut self, n: usize, addr: Address) -> (result: PcodeOpId)
        requires
            old(self)@.linked(),
        ensures
            final(self)@.linked(),
            old(self)@.wf() ==> final(self)@.wf(),
            result.0 == old(self)@.ops.len(),
            final(self)@ == old(self)@.add_op(
                Op {
                    code: OpCode::CPUI_BLANK,
                    addr,
                    inputs: Seq::new(n as nat, |s: int| None),
                    output: None,
                },
            ),
    {
        let ghost g = self@;
        let id: PcodeOpId = PcodeOpId(self.obank.ops.len());
        let mut inputs: Vec<Option<VarnodeId>> = Vec::new();
        let mut s: usize = 0;
        while s < n
            invariant
                s <= n,
                inputs.len() == s,
                forall|t: int| 0 <= t < s ==> #[trigger] inputs@[t] is None,
            decreases n - s,
        {
            inputs.push(None);
            s = s + 1;
        }
        let op: PcodeOp = PcodeOp { opcode: OpCode::CPUI_BLANK, addr, inputs, output: None };
        self.obank.ops.push(op);
        proof {
            assert(op@.inputs =~= Seq::new(n as nat, |s: int| None));
            lemma_add_op(g, op@);
            assert(self@.ops =~= g.ops.push(op@));
            assert(self@ =~= g.add_op(op@));
        }
        id
    }

    /// Chooses what an operation does.
    pub fn op_set_opcode_code(&mut self, op: PcodeOpId, code: OpCode)
        requires
            old(self)@.linked(),
            op.0 < old(self)@.ops.len(),
        ensures
            final(self)@.linked(),
            old(self)@.wf() ==> final(self)@.wf(),
            final(self)@ == old(self)@.set_op(
                op.0 as int,
                Op { code, ..old(self)@.ops[op.0 as int] },
            ),
    {
        let ghost g = self@;
        assert(g.ops[op.0 as int] == self.obank.ops@[op.0 as int]@);
        self.obank.ops[op.0].opcode = code;
        proof {
            let k = op.0 as int;
            let new = Op { code, ..g.ops[k] };
            assert(self.obank.ops@[k]@ == new);
            assert(self@.ops =~= g.ops.update(k, new));
            assert(self@ =~= g.set_op(k, new));
            assert forall|s: int|
                0 <= s < new.inputs.len() && (#[trigger] new.inputs[s]) is Some implies g.live(
                new.inputs[s]->0,
            ) by {
                assert(g.ops[k].inputs[s] is Some);
            }
            lemma_set_op(g, k, new);
        }
    }

    /// Sets an operand of an operation.
    pub fn op_set_input(&mut self, op: PcodeOpId, id: VarnodeId, slot: usize) -> (result: Result<
        (),
        EditError,
    >)
        requires
            old(self)@.linked(),
        ensures
            final(self)@.linked(),
            old(self)@.wf() ==> final(self)@.wf(),
            ({
                let g = old(self)@;
                let k = op.0 as int;
                let v = id.0 as int;
                if k >= g.ops.len() {
                    result == Err::<(), _>(EditError::NoSuchOp) && final(self)@ == g
                } else if slot >= g.ops[k].inputs.len() {
                    result == Err::<(), _>(EditError::NoSuchSlot) && final(self)@ == g
                } else if !g.live(v) {
                    result == Err::<(), _>(EditError::NoSuchVarnode) && final(self)@ == g
                } else {
                    &&& result == Ok::<_, EditError>(())
                    &&& final(self)@ == g.set_op(
                        k,
                        Op {
                            inputs: g.ops[k].inputs.update(slot as int, Some(v)),
                            ..g.ops[k]
                        },
                    )
                }
            }),
    {
        let ghost g = self@;
        if op.0 >= self.obank.ops.len() {
            return Err(EditError::NoSuchOp);
        }
        assert(g.ops[op.0 as int] == self.obank.ops@[op.0 as int]@);
        if slot >= self.obank.ops[op.0].inputs.len() {
            return Err(EditError::NoSuchSlot);
        }
        if self.vbank.get(id).is_none() {
            return Err(EditError::NoSuchVarnode);
        }
        self.obank.ops[op.0].inputs.set(slot, Some(id));
        proof {
            let k = op.0 as int;
            let new = Op {
                inputs: g.ops[k].inputs.update(slot as int, Some(id.0 as int)),
                ..g.ops[k]
            };
            assert(self.obank.ops@[k]@.inputs =~= new.inputs);
            assert(self.obank.ops@[k]@ =~= new);
            assert(self@.ops =~= g.ops.update(k, new));
            assert(self@ =~= g.set_op(k, new));
            assert forall|s: int|
                0 <= s < new.inputs.len() && (#[trigger] new.inputs[s]) is Some implies g.live(
                new.inputs[s]->0,
            ) by {
                if s != slot {
                    assert(g.ops[k].inputs[s] is Some);
                }
            }
            lemma_set_op(g, k, new);
        }
        Ok(())
    }

    /// Gives an operation an output of `size` bytes at `addr`.
    pub fn new_varnode_out(&mut self, size: i32, addr: &Address, op: PcodeOpId) -> (result: Result<
        VarnodeId,
        EditError,
    >)
        requires
            old(self)@.linked(),
            size > 0,
        ensures
            final(self)@.linked(),
            old(self)@.wf() ==> final(self)@.wf(),
            ({
                let g = old(self)@;
                let k = op.0 as int;
                let n = g.varnodes.len() as int;
                if k >= g.ops.len() {
                    result == Err::<VarnodeId, _>(EditError::NoSuchOp) && final(self)@ == g
                } else if g.ops[k].output is Some {
                    result == Err::<VarnodeId, _>(EditError::HasOutput) && final(self)@ == g
                } else {
                    &&& result matches Ok(id) && id.0 == n
                    &&& final(self)@ == g.add_varnode(
                        Vn {
                            base: addr.base,
                            offset: addr.offset as int,
                            size: size as int,
                            origin: Origin::Written(k),
                            write_mask: false,
                        },
                    ).set_op(k, Op { output: Some(n), ..g.ops[k] })
                }
            }),
    {
        let ghost g = self@;
        if op.0 >= self.obank.ops.len() {
            return Err(EditError::NoSuchOp);
        }
        assert(g.ops[op.0 as int] == self.obank.ops@[op.0 as int]@);
        if self.obank.ops[op.0].output.is_some() {
            return Err(EditError::HasOutput);
        }
        let vn: Varnode = Varnode {
            loc: *addr,
            size,
            kind: VarnodeKind::Written(op),
            write_mask: false,
        };
        let id: VarnodeId = self.push_varnode(vn);
        let ghost mid = self@;
        assert(mid.ops[op.0 as int] == self.obank.ops@[op.0 as int]@);
        self.obank.ops[op.0].output = Some(id);
        proof {
            let k = op.0 as int;
            let new = Op { output: Some(id.0 as int), ..g.ops[k] };
            assert(self.obank.ops@[k]@ == new);
            assert(self@.ops =~= g.ops.update(k, new));
            assert(self@ =~= g.add_varnode(vn@).set_op(k, new));
            lemma_give_output(g, k, vn@);
        }
        Ok(id)
    }

    /// Gives an operation a temporary of `size` bytes as its output.  The offsets of
    /// temporaries follow each other and wrap round.
    pub fn new_unique_out(&mut self, size: i32, op: PcodeOpId) -> (result: Result<
        VarnodeId,
        EditError,
    >)
        requires
            old(self)@.linked(),
            size > 0,
        ensures
            final(self)@.linked(),
            old(self)@.wf() ==> final(self)@.wf(),
            ({
                let g = old(self)@;
                let k = op.0 as int;
                let n = g.varnodes.len() as int;
                if k >= g.ops.len() {
                    result == Err::<VarnodeId, _>(EditError::NoSuchOp) && final(self)@ == g
                } else if g.ops[k].output is Some {
                    result == Err::<VarnodeId, _>(EditError::HasOutput) && final(self)@ == g
                } else {
                    &&& result matches Ok(id) && id.0 == n
                    &&& final(self)@ == g.take_unique(size as int).add_varnode(
                        Vn {
                            base: Some(g.unique),
                            offset: g.next_unique,
                            size: size as int,
                            origin: Origin::Written(k),
                            write_mask: false,
                        },
                    ).set_op(k, Op { output: Some(n), ..g.ops[k] })
                }
            }),
    {
        let ghost g = self@;
        if op.0 >= self.obank.ops.len() {
            return Err(EditError::NoSuchOp);
        }
        assert(g.ops[op.0 as int] == self.obank.ops@[op.0 as int]@);
        if self.obank.ops[op.0].output.is_some() {
            return Err(EditError::HasOutput);
        }
        let addr: Address = Address::new(self.unique, self.next_unique);
        self.next_unique = self.next_unique.wrapping_add(size as u64);
        proof {
            lemma_take_unique(g, size as int);
            assert(self@ =~= g.take_unique(size as int));
        }
        self.new_varnode_out(size, &addr, op)
    }

    /// Puts an operation into a block, just before another one; at the end of the
    /// block, if it does not hold the other.
    pub fn op_insert(&mut self, op: PcodeOpId, block: BlockId, before: Option<PcodeOpId>)
        requires
            old(self)@.linked(),
            op.0 < old(self)@.ops.len(),
            block.0 < old(self)@.blocks.len(),
        ensures
            final(self)@.linked(),
            old(self)@.wf() ==> final(self)@.wf(),
            final(self)@ == old(self)@.insert_op(
                op.0 as int,
                block.0 as int,
                op_id_view(before),
            ),
    {
        let ghost g = self@;
        let ghost b = block.0 as int;
        let ghost list = g.blocks[b];
        assert(list == block_view(self.blocks@[b]));
        proof {
            lemma_place_before(list, op_id_view(before));
        }
        let len: usize = self.blocks[block.0].len();
        let mut at: usize = 0;
        while at < len && !is_op(before, self.blocks[block.0][at])
            invariant
                self@ == g,
                b == block.0,
                0 <= b < g.blocks.len(),
                list == g.blocks[b],
                list == block_view(self.blocks@[b]),
                len == list.len(),
                at <= len,
                forall|i: int| 0 <= i < at ==> Some(#[trigger] list[i]) != op_id_view(before),
            decreases len - at,
        {
            assert(list[at as int] == self.blocks@[b]@[at as int].0);
            at = at + 1;
        }
        proof {
            let p = Graph::place_before(list, op_id_view(before));
            if p < at {
                assert(Some(list[p]) != op_id_view(before));
            }
            if at < len {
                assert(list[at as int] == self.blocks@[b]@[at as int].0);
            }
            if at < p {
                assert(Some(list[at as int]) != op_id_view(before));
            }
            assert(p == at);
        }
        self.blocks[block.0].insert(at, op);
        proof {
            assert(block_view(self.blocks@[b]) =~= list.insert(at as int, op.0 as int));
            assert(self@.blocks =~= g.blocks.update(b, list.insert(at as int, op.0 as int)));
            assert(self@ =~= g.insert_op(op.0 as int, b, op_id_view(before)));
            lemma_insert_op(g, op.0 as int, b, op_id_view(before));
        }
    }

    /// Makes an empty block.
    pub fn new_block_basic(&mut self) -> (result: BlockId)
        requires
            old(self)@.linked(),
        ensures
            final(self)@.linked(),
            old(self)@.wf() ==> final(self)@.wf(),
            result.0 == old(self)@.blocks.len(),
            final(self)@ == (Graph {
                blocks: old(self)@.blocks.push(Seq::empty()),
                ..old(self)@
            }),
    {
        let ghost g = self@;
        let id: BlockId = BlockId(self.blocks.len());
        let block: Vec<PcodeOpId> = Vec::new();
        self.blocks.push(block);
        proof {
            assert(block_view(block) =~= Seq::empty());
            assert(self@.blocks =~= g.blocks.push(Seq::empty()));
            assert(self@ =~= (Graph { blocks: g.blocks.push(Seq::empty()), ..g }));
            lemma_blocks_apart(g, self@);
            assert forall|b: int, i: int|
                0 <= b < self@.blocks.len() && 0 <= i < self@.blocks[b].len() implies 0 <= (
            #[trigger] self@.blocks[b][i]) < self@.ops.len() by {
                assert(self@.blocks[b] == g.blocks[b]);
                assert(0 <= g.blocks[b][i] < g.ops.len());
            }
        }
        id
    }

    /// Makes a block the one where the function is entered.
    pub fn set_start_block(&mut self, block: BlockId)
        requires
            old(self)@.linked(),
            block.0 < old(self)@.blocks.len(),
        ensures
            final(self)@.linked(),
            old(self)@.wf() ==> final(self)@.wf(),
            final(self)@ == (Graph { start: Some(block.0 as int), ..old(self)@ }),
    {
        let ghost g = self@;
        self.start = Some(block);
        proof {
            assert(self@ =~= (Graph { start: Some(block.0 as int), ..g }));
            lemma_blocks_apart(g, self@);
            assert forall|b: int, i: int|
                0 <= b < self@.blocks.len() && 0 <= i < self@.blocks[b].len() implies 0 <= (
            #[trigger] self@.blocks[b][i]) < self@.ops.len() by {
                assert(0 <= g.blocks[b][i] < g.ops.len());
            }
        }
    }
}

impl Funcdata {
    /// Whether an operation reads the varnode otherwise than by joining `hi` and `lo`.
    fn is_read_apart(&self, id: VarnodeId, hi: VarnodeId, lo: VarnodeId) -> (result: bool)
        ensures
            result == self@.read_apart(id.0 as int, hi.0 as int, lo.0 as int),
    {
        let mut k: usize = 0;
        while k < self.obank.ops.len()
            invariant
                k <= self.obank.ops.len(),
                forall|i: int|
                    0 <= i < k && #[trigger] self@.ops[i].reads(id.0 as int) ==> self@.ops[i].joins(
                        hi.0 as int,
                        lo.0 as int,
                    ),
            decreases self.obank.ops.len() - k,
        {
            assert(self@.ops[k as int] == self.obank.ops@[k as int]@);
            if self.obank.ops[k].reads_varnode(id) && !self.obank.ops[k].joins_varnodes(hi, lo) {
                assert(self@.ops[k as int].reads(id.0 as int));
                return true;
            }
            k = k + 1;
        }
        false
    }

    /// Cuts a varnode of the storage of `vn` from `source`, where the function is
    /// entered.
    fn cut_back(&mut self, source: VarnodeId, skip: u64, vn: &Varnode, block: BlockId) -> (result:
        VarnodeId)
        requires
            old(self)@.start == Some(block.0 as int),
            block.0 < old(self)@.blocks.len(),
        ensures
            result.0 == old(self)@.varnodes.len(),
            final(self)@ == old(self)@.cut_back(source.0 as int, skip as int, vn@),
    {
        let ghost g = self@;
        let ghost b = block.0 as int;
        let op: PcodeOpId = PcodeOpId(self.obank.ops.len());
        let before: Option<PcodeOpId> = self.bb_op_head(block);
        let cut: Varnode = Varnode {
            kind: VarnodeKind::Written(op),
            write_mask: true,
            ..*vn
        };
        let out: VarnodeId = self.push_varnode(cut);
        let constant: Varnode = Varnode {
            loc: Address::new(self.constant, skip),
            size: 4,
            kind: VarnodeKind::Constant,
            write_mask: false,
        };
        let count: VarnodeId = self.push_varnode(constant);
        let mut inputs: Vec<Option<VarnodeId>> = Vec::new();
        inputs.push(Some(source));
        inputs.push(Some(count));
        let addr: Address = self.address;
        let slice: PcodeOp = PcodeOp {
            opcode: OpCode::CPUI_SUBPIECE,
            addr,
            inputs,
            output: Some(out),
        };
        let ghost mid = self@;
        self.obank.ops.push(slice);
        proof {
            assert(slice@.inputs =~= seq![Some(source.0 as int), Some(count.0 as int)]);
            assert(self@.ops =~= g.ops.push(slice@));
            assert(self@ =~= g.add_slice(
                g.address,
                source.0 as int,
                skip as int,
                Vn { write_mask: true, ..vn@ },
            ));
            assert(self@.blocks == g.blocks);
            assert(g.blocks[b] == block_view(self.blocks@[b]));
            assert(Graph::place_before(g.blocks[b], g.head(b)) == 0);
        }
        self.blocks[block.0].insert(0, op);
        proof {
            let list = g.blocks[b].insert(0, op.0 as int);
            assert(block_view(self.blocks@[b]) =~= list);
            assert(self@.blocks =~= g.blocks.update(b, list));
            assert(self@ =~= g.cut_back(source.0 as int, skip as int, vn@));
        }
        out
    }

    /// Folds two adjacent inputs into one, which renaming passes over.  `hi` is the
    /// one on the more significant side.  The two are destroyed; what operations read of
    /// them apart is cut from the fold where the function is entered.
    pub fn combine_input_varnodes(&mut self, hi: VarnodeId, lo: VarnodeId) -> (result: Result<
        (),
        EditError,
    >)
        requires
            old(self)@.linked(),
        ensures
            final(self)@.linked(),
            old(self)@.wf() ==> final(self)@.wf(),
            ({
                let g = old(self)@;
                let h = hi.0 as int;
                let l = lo.0 as int;
                if !g.is_input(h) || !g.is_input(l) {
                    result == Err::<(), _>(EditError::NotInput) && final(self)@ == g
                } else if !g.adjacent(h, l) {
                    result == Err::<(), _>(EditError::NotAdjacent) && final(self)@ == g
                } else if g.vn(h).size + g.vn(l).size > i32::MAX {
                    result == Err::<(), _>(EditError::TooLarge) && final(self)@ == g
                } else if !g.cuttable(h, l) {
                    result == Err::<(), _>(EditError::NoStartBlock) && final(self)@ == g
                } else {
                    result == Ok::<_, EditError>(()) && final(self)@ == g.combine(h, l)
                }
            }),
    {
        let ghost g = self@;
        let ghost h = hi.0 as int;
        let ghost l = lo.0 as int;
        let (vn_hi, vn_lo): (Varnode, Varnode) = match (self.vbank.get(hi), self.vbank.get(lo)) {
            (Some(a), Some(b)) => (*a, *b),
            _ => {
                return Err(EditError::NotInput);
            },
        };
        if !vn_hi.is_input() || !vn_lo.is_input() {
            return Err(EditError::NotInput);
        }
        assert(g.live(h) && g.live(l));
        assert(g.is_input(h) && g.is_input(l));
        let (first, second): (Varnode, Varnode) = if vn_hi.loc.is_big_endian() {
            (vn_hi, vn_lo)
        } else {
            (vn_lo, vn_hi)
        };
        if hi == lo || vn_hi.size < 0 || vn_lo.size < 0 || vn_hi.loc.base != vn_lo.loc.base
            || first.loc.offset as u128 + first.size as u128 != second.loc.offset as u128 {
            return Err(EditError::NotAdjacent);
        }
        let size: i32 = match vn_hi.size.checked_add(vn_lo.size) {
            Some(size) => size,
            None => {
                return Err(EditError::TooLarge);
            },
        };
        let cut_hi: bool = self.is_read_apart(hi, hi, lo);
        let cut_lo: bool = self.is_read_apart(lo, hi, lo);
        if (cut_hi || cut_lo) && self.start.is_none() {
            return Err(EditError::NoStartBlock);
        }
        proof {
            lemma_combine(g, h, l);
            lemma_combine_shape(g, h, l);
        }
        let count: usize = self.obank.ops.len();
        self.vbank.slots.set(hi.0, None);
        assert(self@.varnodes =~= g.varnodes.update(h, None));
        assert(self@ =~= g.destroy(h));
        self.vbank.slots.set(lo.0, None);
        assert(self@.varnodes =~= g.destroy(h).varnodes.update(l, None));
        assert(self@ =~= g.destroy(h).destroy(l));
        let whole: Varnode = Varnode {
            loc: first.loc,
            size,
            kind: VarnodeKind::Input,
            write_mask: true,
        };
        assert(whole@ == g.joined_vn(h, l));
        let joined: VarnodeId = self.push_varnode(whole);
        let mut hi_cut: VarnodeId = joined;
        let mut lo_cut: VarnodeId = joined;
        let ghost g1 = self@;
        if let Some(block) = self.start {
            if cut_hi {
                hi_cut = self.cut_back(joined, vn_lo.size as u64, &vn_hi, block);
            }
            if cut_lo {
                lo_cut = self.cut_back(joined, 0, &vn_lo, block);
            }
        }
        let ghost g3 = self@;
        let mut k: usize = 0;
        while k < count
            invariant
                k <= count,
                count == g.ops.len(),
                count <= g3.ops.len(),
                self@ == (Graph { ops: self@.ops, ..g3 }),
                self@.ops.len() == g3.ops.len(),
                forall|i: int| 0 <= i < count ==> g3.ops[i] == g.ops[i],
                forall|i: int|
                    k <= i < g3.ops.len() ==> #[trigger] self@.ops[i] == g3.ops[i],
                forall|i: int|
                    0 <= i < k ==> #[trigger] self@.ops[i] == g.ops[i].rewired(
                        hi.0 as int,
                        lo.0 as int,
                        joined.0 as int,
                        hi_cut.0 as int,
                        lo_cut.0 as int,
                    ),
            decreases count - k,
        {
            let ghost now = self@;
            assert(now.ops[k as int] == self.obank.ops@[k as int]@);
            self.obank.ops[k].rewire(hi, lo, joined, hi_cut, lo_cut);
            assert(self@.ops =~= now.ops.update(k as int, self.obank.ops@[k as int]@));
            assert(self@ =~= (Graph { ops: self@.ops, ..g3 }));
            k = k + 1;
        }
        proof {
            let end = g.combine(h, l);
            assert forall|i: int| 0 <= i < count implies #[trigger] self@.ops[i] == end.ops[i] by {
                lemma_rewired_same(g, i, h, l, joined.0 as int, hi_cut.0 as int, lo_cut.0 as int);
            }
            assert(self@.ops =~= end.ops);
            assert(self@ =~= end);
        }
        Ok(())
    }
}

/// What stands for a varnode that no operation reads apart makes no difference.
proof fn lemma_rewired_same(
    g: Graph,
    k: int,
    hi: int,
    lo: int,
    joined: int,
    hi_cut: int,
    lo_cut: int,
)
    requires
        0 <= k < g.ops.len(),
    ensures
        forall|hi_other: int, lo_other: int|
            (g.read_apart(hi, hi, lo) ==> hi_other == hi_cut) && (g.read_apart(lo, hi, lo)
                ==> lo_other == lo_cut) ==> #[trigger] g.ops[k].rewired(
                hi,
                lo,
                joined,
                hi_other,
                lo_other,
            ) == g.ops[k].rewired(hi, lo, joined, hi_cut, lo_cut),
{
    let op = g.ops[k];
    assert forall|hi_other: int, lo_other: int|
        (g.read_apart(hi, hi, lo) ==> hi_other == hi_cut) && (g.read_apart(lo, hi, lo) ==> lo_other
            == lo_cut) implies #[trigger] op.rewired(hi, lo, joined, hi_other, lo_other)
        == op.rewired(hi, lo, joined, hi_cut, lo_cut) by {
        let a = op.rewired(hi, lo, joined, hi_other, lo_other);
        let b = op.rewired(hi, lo, joined, hi_cut, lo_cut);
        if !op.joins(hi, lo) {
            assert forall|s: int| 0 <= s < op.inputs.len() implies #[trigger] a.inputs[s]
                == b.inputs[s] by {
                if op.inputs[s] == Some(hi) {
                    assert(op.reads(hi));
                }
                if op.inputs[s] == Some(lo) {
                    assert(op.reads(lo));
                }
            }
            assert(a.inputs =~= b.inputs);
        }
    }
}

/// Marking a varnode as passed over by renaming keeps the function sound.
proof fn lemma_mask(g: Graph, v: int)
    requires
        g.linked(),
        g.live(v),
    ensures
        g.set_varnode(v, Vn { write_mask: true, ..g.vn(v) }).linked(),
        g.wf() ==> g.set_varnode(v, Vn { write_mask: true, ..g.vn(v) }).wf(),
{
    let h = g.set_varnode(v, Vn { write_mask: true, ..g.vn(v) });
    assert forall|u: int| #[trigger] h.live(u) <==> g.live(u) by {}
    assert forall|u: int| #[trigger] h.is_input(u) <==> g.is_input(u) by {}
    assert forall|u: int| #[trigger] h.live(u) implies h.vn(u).base == g.vn(u).base && h.vn(
        u,
    ).offset == g.vn(u).offset && h.vn(u).size == g.vn(u).size && h.vn(u).origin == g.vn(
        u,
    ).origin by {
        assert(g.live(u));
    }
    assert(h.varnodes_sound() && (g.wf() ==> h.sized())) by {
        assert forall|u: int| #[trigger] h.live(u) implies i32::MIN <= h.vn(u).size
            <= i32::MAX && 0 <= h.vn(u).offset < offsets() && (g.wf() ==> h.vn(u).size > 0) by {
            assert(g.live(u));
        }
        assert forall|u: int| #[trigger] h.is_input(u) implies h.vn(u).base is Some by {
            assert(h.live(u));
            assert(g.is_input(u));
        }
    }
    assert(g.wf() ==> h.inputs_disjoint()) by {
        assert forall|u: int, w: int| g.wf() && #[trigger]
            h.is_input(u) && #[trigger] h.is_input(w) && u != w implies !h.vn(u).overlaps(
            h.vn(w),
        ) by {
            assert(h.live(u) && h.live(w));
            assert(g.is_input(u) && g.is_input(w));
        }
    }
    assert(h.writes_sound()) by {
        assert forall|k: int| 0 <= k < h.ops.len() && (#[trigger] h.ops[k]).output is Some implies {
            let u = h.ops[k].output->0;
            h.live(u) && h.vn(u).origin == Origin::Written(k)
        } by {
            assert(g.ops[k].output is Some);
            assert(g.live(g.ops[k].output->0));
            assert(h.live(g.ops[k].output->0));
        }
        assert forall|u: int| #[trigger] h.live(u) && h.vn(u).origin is Written implies {
            let j = h.vn(u).origin->Written_0;
            0 <= j < h.ops.len() && h.ops[j].output == Some(u)
        } by {
            assert(g.live(u));
        }
    }
}

/// The blocks have no part in whether varnodes and operations are sound.
proof fn lemma_blocks_apart(g: Graph, h: Graph)
    requires
        g.linked(),
        h.varnodes == g.varnodes,
        h.ops == g.ops,
    ensures
        h.varnodes_sound(),
        g.wf() ==> h.sized() && h.inputs_disjoint(),
        h.reads_sound(),
        h.writes_sound(),
{
    assert forall|u: int| #[trigger] h.live(u) <==> g.live(u) by {}
    assert forall|u: int| #[trigger] h.is_input(u) <==> g.is_input(u) by {}
    assert(h.writes_sound()) by {
        assert forall|u: int| #[trigger] h.live(u) && h.vn(u).origin is Written implies {
            let j = h.vn(u).origin->Written_0;
            0 <= j < h.ops.len() && h.ops[j].output == Some(u)
        } by {
            assert(g.live(u));
        }
    }
}

} // verus!
