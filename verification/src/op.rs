//! Operations on varnodes.

use crate::address::Address;
use crate::varnode::VarnodeId;
use vstd::prelude::*;

verus! {

/// What an operation does.
#[allow(non_camel_case_types)]
#[derive(Clone, Copy, Debug, PartialEq, Eq, Structural)]
pub enum OpCode {
    /// Not chosen yet.
    CPUI_BLANK,
    /// The value of the one operand.
    CPUI_COPY,
    /// The first operand as the more significant half, the second as the less
    /// significant half.
    CPUI_PIECE,
    /// The first operand without as many of its least significant bytes as the
    /// second operand says, cut to the size of the output.
    CPUI_SUBPIECE,
    /// Any other operation, by its number.
    Other(u16),
}

/// An operation: a code, the varnodes that it reads and the one that it writes.
#[derive(Debug)]
pub struct PcodeOp {
    pub opcode: OpCode,
    pub addr: Address,
    pub inputs: Vec<Option<VarnodeId>>,
    pub output: Option<VarnodeId>,
}

/// The model of an operation: varnodes stand as the numbers of their names.
#[verifier::ext_equal]
pub struct Op {
    pub code: OpCode,
    pub addr: Address,
    pub inputs: Seq<Option<int>>,
    pub output: Option<int>,
}

/// The number of a name, where there is one.
pub open spec fn id_view(id: Option<VarnodeId>) -> Option<int> {
    match id {
        Some(v) => Some(v.0 as int),
        None => None,
    }
}

impl View for PcodeOp {
    type V = Op;

    open spec fn view(&self) -> Op {
        Op {
            code: self.opcode,
            addr: self.addr,
            inputs: self.inputs@.map_values(|id: Option<VarnodeId>| id_view(id)),
            output: id_view(self.output),
        }
    }
}

impl Op {
    /// Whether the operation reads the varnode.
    pub open spec fn reads(self, v: int) -> bool {
        exists|s: int| 0 <= s < self.inputs.len() && #[trigger] self.inputs[s] == Some(v)
    }

    /// Whether the operation joins the two varnodes, the more significant one first.
    pub open spec fn joins(self, hi: int, lo: int) -> bool {
        self.code == OpCode::CPUI_PIECE && self.inputs == seq![Some(hi), Some(lo)]
    }

    /// The operation after `hi` and `lo` were folded into `joined`: where it joined
    /// them it is a copy, elsewhere it reads what was cut for them.
    pub open spec fn rewired(self, hi: int, lo: int, joined: int, hi_cut: int, lo_cut: int) -> Op {
        if self.joins(hi, lo) {
            Op { code: OpCode::CPUI_COPY, inputs: seq![Some(joined)], ..self }
        } else {
            Op {
                inputs: self.inputs.map_values(
                    |id: Option<int>|
                        if id == Some(hi) {
                            Some(hi_cut)
                        } else if id == Some(lo) {
                            Some(lo_cut)
                        } else {
                            id
                        },
                ),
                ..self
            }
        }
    }
}

impl PcodeOp {
    /// What the operation does.
    pub fn code(&self) -> (result: OpCode)
        ensures
            result == self@.code,
    {
        self.opcode
    }

    /// The number of operands, set or not.
    pub fn num_input(&self) -> (result: usize)
        ensures
            result == self@.inputs.len(),
    {
        self.inputs.len()
    }

    /// The varnode in an operand slot, if the slot exists and is set.
    pub fn get_in(&self, slot: usize) -> (result: Option<VarnodeId>)
        ensures
            id_view(result) == (if slot < self@.inputs.len() {
                self@.inputs[slot as int]
            } else {
                None
            }),
    {
        if slot < self.inputs.len() {
            self.inputs[slot]
        } else {
            None
        }
    }

    /// The varnode that the operation writes, if it writes one.
    pub fn get_out(&self) -> (result: Option<VarnodeId>)
        ensures
            id_view(result) == self@.output,
    {
        self.output
    }

    /// Whether the operation reads the varnode.
    pub fn reads_varnode(&self, v: VarnodeId) -> (result: bool)
        ensures
            result == self@.reads(v.0 as int),
    {
        let mut s: usize = 0;
        while s < self.inputs.len()
            invariant
                s <= self.inputs.len(),
                forall|t: int| 0 <= t < s ==> #[trigger] self@.inputs[t] != Some(v.0 as int),
            decreases self.inputs.len() - s,
        {
            if let Some(u) = self.inputs[s] {
                if u == v {
                    assert(self@.inputs[s as int] == Some(v.0 as int));
                    return true;
                }
            }
            s = s + 1;
        }
        false
    }

    /// Reads on after `hi` and `lo` were folded into `joined`.
    pub fn rewire(
        &mut self,
        hi: VarnodeId,
        lo: VarnodeId,
        joined: VarnodeId,
        hi_cut: VarnodeId,
        lo_cut: VarnodeId,
    )
        ensures
            final(self)@ == old(self)@.rewired(
                hi.0 as int,
                lo.0 as int,
                joined.0 as int,
                hi_cut.0 as int,
                lo_cut.0 as int,
            ),
    {
        let ghost before = self@;
        let ghost after = before.rewired(
            hi.0 as int,
            lo.0 as int,
            joined.0 as int,
            hi_cut.0 as int,
            lo_cut.0 as int,
        );
        if self.joins_varnodes(hi, lo) {
            let mut inputs: Vec<Option<VarnodeId>> = Vec::new();
            inputs.push(Some(joined));
            self.opcode = OpCode::CPUI_COPY;
            self.inputs = inputs;
            assert(self@ =~= after);
            return;
        }
        let mut s: usize = 0;
        while s < self.inputs.len()
            invariant
                s <= self.inputs.len(),
                self.inputs.len() == before.inputs.len(),
                self@.code == before.code,
                self@.addr == before.addr,
                self@.output == before.output,
                !before.joins(hi.0 as int, lo.0 as int),
                after == before.rewired(
                    hi.0 as int,
                    lo.0 as int,
                    joined.0 as int,
                    hi_cut.0 as int,
                    lo_cut.0 as int,
                ),
                forall|t: int| 0 <= t < s ==> #[trigger] self@.inputs[t] == after.inputs[t],
                forall|t: int|
                    s <= t < before.inputs.len() ==> #[trigger] self@.inputs[t]
                        == before.inputs[t],
            decreases self.inputs.len() - s,
        {
            let ghost now = self@;
            assert(now.inputs[s as int] == id_view(self.inputs@[s as int]));
            if let Some(u) = self.inputs[s] {
                if u == hi {
                    self.inputs.set(s, Some(hi_cut));
                } else if u == lo {
                    self.inputs.set(s, Some(lo_cut));
                }
            }
            assert(self@.inputs =~= now.inputs.update(s as int, after.inputs[s as int]));
            s = s + 1;
        }
        assert(self@ =~= after);
    }

    /// Whether the operation joins the two varnodes, the more significant one first.
    pub fn joins_varnodes(&self, hi: VarnodeId, lo: VarnodeId) -> (result: bool)
        ensures
            result == self@.joins(hi.0 as int, lo.0 as int),
    {
        if self.opcode != OpCode::CPUI_PIECE || self.inputs.len() != 2 {
            assert(seq![Some(hi.0 as int), Some(lo.0 as int)].len() == 2);
            return false;
        }
        let in0: Option<VarnodeId> = self.inputs[0];
        let in1: Option<VarnodeId> = self.inputs[1];
        let result: bool = match (in0, in1) {
            (Some(a), Some(b)) => a == hi && b == lo,
            _ => false,
        };
        proof {
            let pair = seq![Some(hi.0 as int), Some(lo.0 as int)];
            assert(self@.inputs[0] == id_view(in0));
            assert(self@.inputs[1] == id_view(in1));
            if result {
                assert(self@.inputs =~= pair);
            } else {
                assert(pair[0] == Some(hi.0 as int) && pair[1] == Some(lo.0 as int));
            }
        }
        result
    }
}

} // verus!
