//! What single edits make of a function.

use crate::address::AddrSpace;
use crate::funcdata::inputs_of;
use crate::graph::{offsets, Graph};
use crate::op::{Op, OpCode};
use crate::plan::In;
use crate::rebuilt::{placed, stands_at};
use crate::request::lemma_inputs_among;
use crate::soundness::{lemma_combine_shape, lemma_input_at, lemma_place_before};
use crate::trace::{counted, down, has_byte, lemma_combine_stacked, slices, stands_in};
use crate::varnode::{Origin, Vn};
use vstd::prelude::*;

verus! {

/// Two varnodes with storage overlap exactly if there is a byte in the storage of both.
pub proof fn law_overlap_is_a_shared_byte(a: Vn, b: Vn)
    requires
        a.size > 0,
        b.size > 0,
    ensures
        a.overlaps(b) <==> a.base == b.base && exists|x: int|
            a.offset <= x < a.offset + a.size && b.offset <= #[trigger] (x + 0) < b.offset
                + b.size,
{
    if a.overlaps(b) {
        let x = if a.offset < b.offset {
            b.offset
        } else {
            a.offset
        };
        assert(a.offset <= x < a.offset + a.size && b.offset <= x + 0 < b.offset + b.size);
    }
}

/// What a name stands for: it names a varnode where one is kept under that number, and an
/// input where that one is an input.
pub proof fn law_names(g: Graph, v: int, vn: Vn)
    ensures
        g.live(v) <==> 0 <= v < g.varnodes.len() && g.varnodes[v] is Some,
        g.live(v) ==> g.varnodes[v] == Some(g.vn(v)),
        g.is_input(v) <==> g.live(v) && g.vn(v).origin == Origin::Input,
        g.is_input_at(v, vn.base, vn.offset, vn.size) <==> {
            &&& g.is_input(v)
            &&& g.vn(v).base == vn.base
            &&& g.vn(v).offset == vn.offset
            &&& g.vn(v).size == vn.size
        },
        vn.end() == vn.offset + vn.size,
{
}

/// Storage meets an input exactly if it has a byte of the storage of an input.
pub proof fn law_meets_input(g: Graph, vn: Vn)
    requires
        g.sized(),
        vn.size > 0,
    ensures
        g.meets_input(vn) <==> exists|b: int|
            vn.offset <= b < vn.offset + vn.size && #[trigger] byte_taken(g, vn.base, b),
{
    if g.meets_input(vn) {
        let u = choose|u: int| #[trigger] g.is_input(u) && g.vn(u).overlaps(vn);
        assert(g.live(u));
        let b = if g.vn(u).offset < vn.offset {
            vn.offset
        } else {
            g.vn(u).offset
        };
        assert(has_byte(g, vn.base, b, u));
        assert(byte_taken(g, vn.base, b));
    }
    if exists|b: int| vn.offset <= b < vn.offset + vn.size && #[trigger] byte_taken(g, vn.base, b) {
        let b = choose|b: int|
            vn.offset <= b < vn.offset + vn.size && #[trigger] byte_taken(g, vn.base, b);
        let u = choose|u: int| #[trigger] has_byte(g, vn.base, b, u);
        assert(g.is_input(u) && g.vn(u).overlaps(vn));
    }
}

/// Whether a byte of a space is one of an input.
pub open spec fn byte_taken(g: Graph, base: Option<AddrSpace>, b: int) -> bool {
    exists|u: int| #[trigger] has_byte(g, base, b, u)
}

/// What is known of a sound function.  Varnodes have bytes, and an input is in a space.  No
/// byte is one of two inputs.  What an operation reads is there; what it writes is there
/// and is written by it alone.  Blocks hold operations that are there, and the function is
/// entered in one of its blocks, if that is known.
pub proof fn law_sound(g: Graph)
    requires
        g.wf(),
    ensures
        forall|v: int| #[trigger]
            g.live(v) ==> 0 < g.vn(v).size <= i32::MAX && 0 <= g.vn(v).offset < offsets(),
        forall|v: int| #[trigger] g.is_input(v) ==> g.vn(v).base is Some,
        forall|u: int, v: int, base: Option<AddrSpace>, b: int| #[trigger]
            has_byte(g, base, b, u) && #[trigger] has_byte(g, base, b, v) ==> u == v,
        forall|k: int, s: int|
            0 <= k < g.ops.len() && 0 <= s < g.ops[k].inputs.len() && (
            #[trigger] g.ops[k].inputs[s]) is Some ==> g.live(g.ops[k].inputs[s]->0),
        forall|k: int|
            0 <= k < g.ops.len() && (#[trigger] g.ops[k]).output is Some ==> g.live(
                g.ops[k].output->0,
            ) && g.vn(g.ops[k].output->0).origin == Origin::Written(k),
        forall|v: int| #[trigger]
            g.live(v) && g.vn(v).origin is Written ==> 0 <= g.vn(v).origin->Written_0
                < g.ops.len() && g.ops[g.vn(v).origin->Written_0].output == Some(v),
        forall|b: int, i: int|
            0 <= b < g.blocks.len() && 0 <= i < g.blocks[b].len() ==> 0 <= (
            #[trigger] g.blocks[b][i]) < g.ops.len(),
        g.start is Some ==> 0 <= g.start->0 < g.blocks.len(),
        0 <= g.next_unique < offsets(),
{
    assert forall|u: int, v: int, base: Option<AddrSpace>, b: int| #[trigger]
        has_byte(g, base, b, u) && #[trigger] has_byte(g, base, b, v) implies u == v by {
        if u != v {
            assert(g.is_input(u) && g.is_input(v));
            assert(g.vn(u).overlaps(g.vn(v)));
        }
    }
}

/// What the simple edits change, and that they change nothing else; and what stands first
/// in a block.
pub proof fn law_simple_edits(g: Graph, v: int, vn: Vn, k: int, op: Op, size: int)
    requires
        0 <= v < g.varnodes.len(),
        0 <= k < g.ops.len(),
        0 <= g.next_unique < offsets(),
        0 <= size,
    ensures
        ({
            let h = g.add_varnode(vn);
            &&& h == (Graph { varnodes: h.varnodes, ..g })
            &&& h.varnodes.len() == g.varnodes.len() + 1
            &&& h.varnodes[g.varnodes.len() as int] == Some(vn)
            &&& forall|u: int|
                0 <= u < g.varnodes.len() ==> #[trigger] h.varnodes[u] == g.varnodes[u]
        }),
        ({
            let h = g.set_varnode(v, vn);
            &&& h == (Graph { varnodes: h.varnodes, ..g })
            &&& h.varnodes.len() == g.varnodes.len()
            &&& h.varnodes[v] == Some(vn)
            &&& forall|u: int|
                0 <= u < g.varnodes.len() && u != v ==> #[trigger] h.varnodes[u] == g.varnodes[u]
        }),
        ({
            let h = g.destroy(v);
            &&& h == (Graph { varnodes: h.varnodes, ..g })
            &&& h.varnodes.len() == g.varnodes.len()
            &&& h.varnodes[v] is None
            &&& forall|u: int|
                0 <= u < g.varnodes.len() && u != v ==> #[trigger] h.varnodes[u] == g.varnodes[u]
        }),
        ({
            let h = g.add_op(op);
            &&& h == (Graph { ops: h.ops, ..g })
            &&& h.ops.len() == g.ops.len() + 1
            &&& h.ops[g.ops.len() as int] == op
            &&& forall|l: int| 0 <= l < g.ops.len() ==> #[trigger] h.ops[l] == g.ops[l]
        }),
        ({
            let h = g.set_op(k, op);
            &&& h == (Graph { ops: h.ops, ..g })
            &&& h.ops.len() == g.ops.len()
            &&& h.ops[k] == op
            &&& forall|l: int| 0 <= l < g.ops.len() && l != k ==> #[trigger] h.ops[l] == g.ops[l]
        }),
        ({
            let h = g.take_unique(size);
            &&& h == (Graph { next_unique: h.next_unique, ..g })
            &&& 0 <= h.next_unique < offsets()
            &&& g.next_unique + size < offsets() ==> h.next_unique == g.next_unique + size
            &&& offsets() <= g.next_unique + size < 2 * offsets() ==> h.next_unique
                == g.next_unique + size - offsets()
        }),
        forall|b: int|
            0 <= b < g.blocks.len() ==> #[trigger] g.head(b) == (if g.blocks[b].len() == 0 {
                None
            } else {
                Some(g.blocks[b][0])
            }),
{
}

/// An input that is looked up by its storage is one of that storage, of several the one
/// that was made last; none is found only where there is none.
pub proof fn law_find_input(g: Graph, base: Option<AddrSpace>, offset: int, size: int)
    ensures
        ({
            let found = g.input_at(base, offset, size);
            &&& found is Some ==> {
                let v = found->0;
                &&& 0 <= v < g.varnodes.len()
                &&& g.varnodes[v] is Some
                &&& g.varnodes[v]->0.origin == Origin::Input
                &&& g.varnodes[v]->0.base == base
                &&& g.varnodes[v]->0.offset == offset
                &&& g.varnodes[v]->0.size == size
            }
            &&& forall|u: int| {
                &&& 0 <= u < g.varnodes.len()
                &&& (#[trigger] g.varnodes[u]) is Some
                &&& g.varnodes[u]->0.origin == Origin::Input
                &&& g.varnodes[u]->0.base == base
                &&& g.varnodes[u]->0.offset == offset
                &&& g.varnodes[u]->0.size == size
            } ==> found is Some && u <= found->0
        }),
{
    lemma_input_at(g, base, offset, size);
    assert forall|u: int| {
        &&& 0 <= u < g.varnodes.len()
        &&& (#[trigger] g.varnodes[u]) is Some
        &&& g.varnodes[u]->0.origin == Origin::Input
        &&& g.varnodes[u]->0.base == base
        &&& g.varnodes[u]->0.offset == offset
        &&& g.varnodes[u]->0.size == size
    } implies g.is_input_at(u, base, offset, size) by {}
}

/// A varnode is read exactly if it is an operand of an operation.
pub proof fn law_is_read(g: Graph, v: int)
    ensures
        g.is_read(v) <==> exists|k: int| 0 <= k < g.ops.len() && #[trigger] has_operand(g, k, v),
{
    if g.is_read(v) {
        let k = choose|k: int| 0 <= k < g.ops.len() && #[trigger] g.ops[k].reads(v);
        assert(has_operand(g, k, v));
    }
    if exists|k: int| 0 <= k < g.ops.len() && #[trigger] has_operand(g, k, v) {
        let k = choose|k: int| 0 <= k < g.ops.len() && #[trigger] has_operand(g, k, v);
        assert(g.ops[k].reads(v));
    }
}

/// The list of the inputs names each of them, once, in the order in which they were made,
/// and nothing else.
pub proof fn law_inputs_listed(g: Graph)
    ensures
        forall|i: int|
            0 <= i < inputs_of(g).len() ==> {
                let item = #[trigger] inputs_of(g)[i];
                &&& 0 <= item.id < g.varnodes.len()
                &&& g.varnodes[item.id] == Some(item.vn)
                &&& item.vn.origin == Origin::Input
            },
        forall|i: int, j: int|
            0 <= i < j < inputs_of(g).len() ==> (#[trigger] inputs_of(g)[i]).id < (
            #[trigger] inputs_of(g)[j]).id,
        forall|v: int|
            0 <= v < g.varnodes.len() && (#[trigger] g.varnodes[v]) is Some
                && g.varnodes[v]->0.origin == Origin::Input ==> exists|i: int|
                0 <= i < inputs_of(g).len() && (#[trigger] inputs_of(g)[i]).id == v,
{
    lemma_inputs_among(g.varnodes, g.varnodes.len() as int);
    assert forall|v: int|
        0 <= v < g.varnodes.len() && (#[trigger] g.varnodes[v]) is Some
            && g.varnodes[v]->0.origin == Origin::Input implies exists|i: int|
        0 <= i < inputs_of(g).len() && (#[trigger] inputs_of(g)[i]).id == v by {
        let item = In { id: v, vn: g.varnodes[v]->0 };
        assert(inputs_of(g).contains(item));
        let i = choose|i: int| 0 <= i < inputs_of(g).len() && inputs_of(g)[i] == item;
        assert(inputs_of(g)[i].id == v);
    }
}

/// The constant of a value: a varnode of the space of constants, whose offset is the value.
pub proof fn law_constant(g: Graph, size: int, value: int)
    ensures
        g.constant_vn(size, value) == (Vn {
            base: Some(g.constant),
            offset: value,
            size,
            origin: Origin::Constant,
            write_mask: false,
        }),
{
}

/// Where an operation goes that is put into a block: right before the first place of the
/// other one, and at the end, where the block does not hold that one.  What stood in the
/// block stays in its order, and nothing else changes.
pub proof fn law_insert_op(g: Graph, k: int, b: int, before: Option<int>) -> (at: int)
    requires
        0 <= b < g.blocks.len(),
    ensures
        ({
            let h = g.insert_op(k, b, before);
            let list = g.blocks[b];
            &&& h == (Graph { blocks: h.blocks, ..g })
            &&& h.blocks.len() == g.blocks.len()
            &&& 0 <= at <= list.len()
            &&& h.blocks[b].len() == list.len() + 1
            &&& h.blocks[b][at] == k
            &&& forall|i: int| 0 <= i < at ==> #[trigger] h.blocks[b][i] == list[i]
            &&& forall|i: int| at <= i < list.len() ==> h.blocks[b][i + 1] == #[trigger] list[i]
            &&& forall|i: int| 0 <= i < at ==> Some(#[trigger] list[i]) != before
            &&& at < list.len() ==> Some(list[at]) == before
            &&& forall|c: int|
                0 <= c < g.blocks.len() && c != b ==> #[trigger] h.blocks[c] == g.blocks[c]
        }),
{
    lemma_place_before(g.blocks[b], before);
    Graph::place_before(g.blocks[b], before)
}

/// An operation reads its operands, and joins two varnodes where it is a join and they are
/// its operands, in that order.
pub proof fn law_operands(op: Op, v: int, hi: int, lo: int)
    ensures
        op.reads(v) <==> exists|s: int|
            0 <= s < op.inputs.len() && #[trigger] op.inputs[s] == Some(v),
        op.joins(hi, lo) <==> {
            &&& op.code == OpCode::CPUI_PIECE
            &&& op.inputs.len() == 2
            &&& op.inputs[0] == Some(hi)
            &&& op.inputs[1] == Some(lo)
        },
{
    let pair = seq![Some(hi), Some(lo)];
    assert(pair.len() == 2 && pair[0] == Some(hi) && pair[1] == Some(lo));
    if op.code == OpCode::CPUI_PIECE && op.inputs.len() == 2 && op.inputs[0] == Some(hi)
        && op.inputs[1] == Some(lo) {
        assert(op.inputs =~= pair);
    }
    if op.reads(v) {
        let s = choose|s: int| 0 <= s < op.inputs.len() && op.inputs[s] == Some(v);
        assert(op.inputs[s] == Some(v));
    }
}

/// What rewiring makes of an operation, when two varnodes are folded: a join of the two
/// copies their fold; any other reads the cut of each in its place.  The rest of it stays.
pub proof fn law_rewired(op: Op, hi: int, lo: int, joined: int, hi_cut: int, lo_cut: int)
    ensures
        ({
            let new = op.rewired(hi, lo, joined, hi_cut, lo_cut);
            &&& new.addr == op.addr
            &&& new.output == op.output
            &&& if op.joins(hi, lo) {
                &&& new.code == OpCode::CPUI_COPY
                &&& new.inputs.len() == 1
                &&& new.inputs[0] == Some(joined)
            } else {
                &&& new.code == op.code
                &&& new.inputs.len() == op.inputs.len()
                &&& forall|s: int|
                    0 <= s < op.inputs.len() ==> {
                        &&& op.inputs[s] == Some(hi) ==> #[trigger] new.inputs[s] == Some(hi_cut)
                        &&& op.inputs[s] == Some(lo) && hi != lo ==> new.inputs[s] == Some(lo_cut)
                        &&& op.inputs[s] != Some(hi) && op.inputs[s] != Some(lo) ==> new.inputs[s]
                            == op.inputs[s]
                    }
            }
        }),
{
}

/// Two varnodes are adjacent, the one on the more significant side first, where they are
/// different, both of no less than no bytes, in one space, and the one with the lower
/// offset ends where the other starts; the lower one is the more significant one exactly
/// if the space is big endian.
pub proof fn law_adjacent(g: Graph, hi: int, lo: int)
    ensures
        g.adjacent(hi, lo) <==> {
            let a = g.vn(hi);
            let b = g.vn(lo);
            &&& hi != lo
            &&& a.size >= 0
            &&& b.size >= 0
            &&& a.base == b.base
            &&& (a.base matches Some(space) && space.big_endian) ==> a.offset + a.size == b.offset
            &&& !(a.base matches Some(space) && space.big_endian) ==> b.offset + b.size == a.offset
        },
{
}

/// Whether an operation joins the two varnodes, the more significant one first.
pub open spec fn is_join_of(g: Graph, k: int, hi: int, lo: int) -> bool {
    &&& g.ops[k].code == OpCode::CPUI_PIECE
    &&& g.ops[k].inputs.len() == 2
    &&& g.ops[k].inputs[0] == Some(hi)
    &&& g.ops[k].inputs[1] == Some(lo)
}

/// Whether an operation reads the varnode.
pub open spec fn has_operand(g: Graph, k: int, v: int) -> bool {
    exists|s: int| 0 <= s < g.ops[k].inputs.len() && #[trigger] g.ops[k].inputs[s] == Some(v)
}

/// Whether an operation reads a varnode otherwise than by joining two.
pub open spec fn reads_alone(g: Graph, k: int, v: int, hi: int, lo: int) -> bool {
    &&& 0 <= k < g.ops.len()
    &&& has_operand(g, k, v)
    &&& !is_join_of(g, k, hi, lo)
}

/// Joining is reading the two, and nothing else.
proof fn lemma_joins(g: Graph, k: int, hi: int, lo: int)
    ensures
        g.ops[k].joins(hi, lo) <==> is_join_of(g, k, hi, lo),
{
    law_operands(g.ops[k], hi, hi, lo);
}

/// Two inputs can be folded where the function has an entry, or no operation reads one of
/// them otherwise than by joining the two.
pub proof fn law_cuttable(g: Graph, hi: int, lo: int)
    ensures
        g.cuttable(hi, lo) <==> {
            ||| g.start is Some
            ||| (forall|k: int| !#[trigger] reads_alone(g, k, hi, hi, lo)) && (forall|k: int|
                !#[trigger] reads_alone(g, k, lo, hi, lo))
        },
        g.read_apart(hi, hi, lo) <==> exists|k: int| #[trigger] reads_alone(g, k, hi, hi, lo),
        g.read_apart(lo, hi, lo) <==> exists|k: int| #[trigger] reads_alone(g, k, lo, hi, lo),
{
    lemma_read_apart(g, hi, hi, lo);
    lemma_read_apart(g, lo, hi, lo);
}

/// Reading apart is reading otherwise than by joining.
proof fn lemma_read_apart(g: Graph, v: int, hi: int, lo: int)
    ensures
        g.read_apart(v, hi, lo) <==> exists|k: int| #[trigger] reads_alone(g, k, v, hi, lo),
{
    if g.read_apart(v, hi, lo) {
        let k = choose|k: int|
            0 <= k < g.ops.len() && #[trigger] g.ops[k].reads(v) && !g.ops[k].joins(hi, lo);
        lemma_joins(g, k, hi, lo);
        assert(reads_alone(g, k, v, hi, lo));
    }
    if exists|k: int| #[trigger] reads_alone(g, k, v, hi, lo) {
        let k = choose|k: int| #[trigger] reads_alone(g, k, v, hi, lo);
        lemma_joins(g, k, hi, lo);
        assert(g.ops[k].reads(v));
    }
}

/// What becomes of an operand when two inputs are folded: a new slice of its own storage
/// takes the place of each of the two; others stay.
pub open spec fn operand_folded(
    g: Graph,
    h: Graph,
    hi: int,
    lo: int,
    old_in: Option<int>,
    new_in: Option<int>,
) -> bool {
    if old_in == Some(hi) {
        new_in is Some && stands_in(
            g,
            h,
            g.vn(hi).base,
            g.vn(hi).offset,
            g.vn(hi).size,
            new_in->0,
        )
    } else if old_in == Some(lo) {
        new_in is Some && stands_in(
            g,
            h,
            g.vn(lo).base,
            g.vn(lo).offset,
            g.vn(lo).size,
            new_in->0,
        )
    } else {
        new_in == old_in
    }
}

/// What becomes of an operation when two inputs are folded: one that joined them copies
/// their fold; any other goes on as it was, with its operands replaced.
pub open spec fn op_folded(g: Graph, h: Graph, hi: int, lo: int, k: int) -> bool {
    let op = g.ops[k];
    let new = h.ops[k];
    &&& new.addr == op.addr
    &&& new.output == op.output
    &&& if is_join_of(g, k, hi, lo) {
        &&& new.code == OpCode::CPUI_COPY
        &&& new.inputs.len() == 1
        &&& new.inputs[0] == Some(g.varnodes.len() as int)
    } else {
        &&& new.code == op.code
        &&& new.inputs.len() == op.inputs.len()
        &&& forall|s: int|
            0 <= s < op.inputs.len() ==> operand_folded(
                g,
                h,
                hi,
                lo,
                #[trigger] op.inputs[s],
                new.inputs[s],
            )
    }
}

/// What folding two adjacent inputs makes of the varnodes: the two are destroyed, the next
/// name is that of an input of their storage together, which renaming passes over, and all
/// others stay.
pub proof fn law_combine_varnodes(g: Graph, hi: int, lo: int)
    requires
        g.linked(),
        g.is_input(hi),
        g.is_input(lo),
        g.adjacent(hi, lo),
    ensures
        ({
            let h = g.combine(hi, lo);
            let j = g.varnodes.len() as int;
            let first = if g.vn(hi).offset < g.vn(lo).offset {
                hi
            } else {
                lo
            };
            &&& h.varnodes.len() > j
            &&& h.varnodes[j] == Some(
                Vn {
                    base: g.vn(first).base,
                    offset: g.vn(first).offset,
                    size: g.vn(hi).size + g.vn(lo).size,
                    origin: Origin::Input,
                    write_mask: true,
                },
            )
            &&& h.varnodes[hi] is None
            &&& h.varnodes[lo] is None
            &&& forall|v: int|
                0 <= v < j && v != hi && v != lo ==> #[trigger] h.varnodes[v] == g.varnodes[v]
            &&& forall|u: int|
                j < u < h.varnodes.len() ==> (#[trigger] h.varnodes[u]) is Some && (h.vn(
                    u,
                ).origin is Written && h.vn(u).origin->Written_0 >= g.ops.len() || h.vn(u).origin
                    == Origin::Constant && counted(h, g.ops.len() as int, u))
            &&& h.start == g.start
            &&& h.next_unique == g.next_unique
            &&& h.address == g.address
            &&& h.constant == g.constant
            &&& h.unique == g.unique
        }),
{
    let h = g.combine(hi, lo);
    let j = g.varnodes.len() as int;
    let m = g.ops.len() as int;
    lemma_combine_shape(g, hi, lo);
    assert(g.live(hi) && g.live(lo));
    let cut_hi = g.read_apart(hi, hi, lo);
    assert forall|u: int| j < u < h.varnodes.len() implies (#[trigger] h.varnodes[u]) is Some && (
    h.vn(u).origin is Written && h.vn(u).origin->Written_0 >= m || h.vn(u).origin
        == Origin::Constant && counted(h, m, u)) by {
        if h.vn(u).origin == Origin::Constant {
            let k = if cut_hi && u == j + 2 {
                m
            } else if cut_hi {
                m + 1
            } else {
                m
            };
            assert(h.ops[k].inputs.len() == 2 && h.ops[k].inputs[1] == Some(u));
        }
    }
}

/// What folding two adjacent inputs makes of the operations.  One that joined the two
/// copies their fold.  For each of the two that is read in another way there is one new
/// operation, which slices its storage from the fold; who read it reads that, and else
/// goes on as it was.  The new operations stand where the function is entered, ahead of
/// all others, the one that was added last first.
pub proof fn law_combine_ops(g: Graph, hi: int, lo: int)
    requires
        g.linked(),
        g.is_input(hi),
        g.is_input(lo),
        g.adjacent(hi, lo),
        g.cuttable(hi, lo),
    ensures
        ({
            let h = g.combine(hi, lo);
            let j = g.varnodes.len() as int;
            &&& h.ops.len() == g.ops.len() + (if exists|k: int| #[trigger]
                reads_alone(g, k, hi, hi, lo) {
                1int
            } else {
                0
            }) + (if exists|k: int| #[trigger] reads_alone(g, k, lo, hi, lo) {
                1int
            } else {
                0
            })
            &&& forall|k: int| 0 <= k < g.ops.len() ==> #[trigger] op_folded(g, h, hi, lo, k)
            &&& forall|k: int|
                g.ops.len() <= k < h.ops.len() ==> #[trigger] slices(h, k, j) && h.vn(
                    h.ops[k].output->0,
                ).write_mask
            &&& placed(g, h)
            &&& g.start matches Some(b) ==> forall|i: int|
                0 <= i < h.ops.len() - g.ops.len() ==> #[trigger] h.blocks[b][i] == h.ops.len() - 1
                    - i
        }),
{
    let h = g.combine(hi, lo);
    let j = g.varnodes.len() as int;
    let m = g.ops.len() as int;
    let cut_hi = g.read_apart(hi, hi, lo);
    let cut_lo = g.read_apart(lo, hi, lo);
    let lo_cut = if cut_hi {
        j + 3
    } else {
        j + 1
    };
    let lo_op = if cut_hi {
        m + 1
    } else {
        m
    };
    law_cuttable(g, hi, lo);
    lemma_combine_shape(g, hi, lo);
    lemma_combine_stacked(g, hi, lo);
    assert(g.live(hi) && g.live(lo));
    assert(h.live(j));
    if cut_hi {
        assert(h.live(j + 1) && h.live(j + 2));
        assert(slices(h, m, j));
        assert(stands_in(g, h, g.vn(hi).base, g.vn(hi).offset, g.vn(hi).size, j + 1));
    }
    if cut_lo {
        assert(h.live(lo_cut) && h.live(lo_cut + 1));
        assert(slices(h, lo_op, j));
        assert(stands_in(g, h, g.vn(lo).base, g.vn(lo).offset, g.vn(lo).size, lo_cut));
    }
    assert forall|k: int| 0 <= k < m implies #[trigger] op_folded(g, h, hi, lo, k) by {
        let op = g.ops[k];
        lemma_joins(g, k, hi, lo);
        assert(h.ops[k] == op.rewired(hi, lo, j, j + 1, lo_cut));
        if !op.joins(hi, lo) {
            assert forall|s: int| 0 <= s < op.inputs.len() implies operand_folded(
                g,
                h,
                hi,
                lo,
                #[trigger] op.inputs[s],
                h.ops[k].inputs[s],
            ) by {
                if op.inputs[s] == Some(hi) {
                    assert(op.reads(hi));
                }
                if op.inputs[s] == Some(lo) {
                    assert(op.reads(lo));
                }
            }
        }
    }
    if let Some(b) = g.start {
        let top = h.ops.len() as int;
        let n = top - m;
        let list = h.blocks[b];
        assert(list == down(top, m) + g.blocks[b]);
        assert forall|i: int| 0 <= i < n implies #[trigger] list[i] == top - 1 - i by {}
        assert forall|i: int| 0 <= i < g.blocks[b].len() implies list[n + i]
            == #[trigger] g.blocks[b][i] by {}
        assert forall|k: int| m <= k < top implies #[trigger] stands_at(list, n, k) by {
            assert(list[top - 1 - k] == k);
        }
        assert forall|i: int, s: int|
            0 <= i < n && 0 <= s < h.ops[list[i]].inputs.len() && (
            #[trigger] h.ops[list[i]].inputs[s]) is Some && h.vn(
                h.ops[list[i]].inputs[s]->0,
            ).origin is Written implies stands_at(
            list,
            i,
            h.vn(h.ops[list[i]].inputs[s]->0).origin->Written_0,
        ) by {
            assert(slices(h, list[i], j));
        }
    }
}

} // verus!
