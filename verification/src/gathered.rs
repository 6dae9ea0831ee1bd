//! What the fold of inputs is made of.

use crate::address::Address;
use crate::edits::{law_cuttable, reads_alone};
use crate::fold::{fold_outcome, hi_lo, holes_filled, lemma_line_ordered};
use crate::funcdata::inputs_of;
use crate::graph::{offsets, Graph};
use crate::laws::{lemma_fold_outcome, lemma_single_fold};
use crate::meaning::{
    consistent, entry_value_of, lemma_slice_value, op_holds, operands, ready, Memory, Semantics,
    Valuation,
};
use crate::op::OpCode;
use crate::plan::{covered_plan, In, Seg, Src};
use crate::rebuild::Part;
use crate::rebuilt::{in_the_way, inside, placed, stands_at};
use crate::request::{lemma_input_listed, lemma_inputs_among, lemma_inputs_apart};
use crate::shape::{among, lemma_folded, lemma_folded_dead, lemma_folded_uncut, reads_apart};
use crate::soundness::lemma_input_at;
use crate::tiling::{folds_in, law_covered_plan_exists, law_covered_plan_segments};
use crate::trace::{
    counted, cut_made, down, has_byte, left_by_fold, lemma_folded_cover, lemma_folded_kept,
    lemma_folded_masks, lemma_folded_ops, lemma_folded_quiet, lemma_folded_same,
    lemma_folded_stuck, lemma_folded_trace, lemma_holes_among, lemma_holes_unmasked, op_followed,
    op_untouched, slot_followed, stands_in,
};
use crate::varnode::{Origin, Vn};
use vstd::prelude::*;

verus! {

/// Whether the input has exactly the requested storage.
pub open spec fn is_exact(g: Graph, size: int, addr: Address, u: int) -> bool {
    &&& g.is_input(u)
    &&& g.vn(u).base == addr.base
    &&& g.vn(u).offset == addr.offset
    &&& g.vn(u).size == size
}

/// The function with the holes of the fold filled, and the parts by ascending offset.
spec fn filled_for(g: Graph, size: int, addr: Address) -> (Graph, Seq<Part>) {
    holes_filled(g, covered_plan(inputs_of(g), size, addr)->0, addr.base->0)
}

/// An input that has a byte in the request is one of the parts.
proof fn lemma_way_among(g: Graph, size: int, addr: Address, u: int)
    requires
        g.linked(),
        0 < size <= i32::MAX,
        covered_plan(inputs_of(g), size, addr) is Some,
        in_the_way(g, size, addr, u),
    ensures
        among(filled_for(g, size, addr).1, u),
        g.vn(u).write_mask,
        inside(g.vn(u), size, addr),
{
    let inputs = inputs_of(g);
    let plan = covered_plan(inputs, size, addr)->0;
    let lo = addr.offset as int;
    let tiles = filled_for(g, size, addr).1;
    lemma_inputs_among(g.varnodes, g.varnodes.len() as int);
    assert forall|k: int| 0 <= k < inputs.len() implies i32::MIN <= (
    #[trigger] inputs[k]).vn.size <= i32::MAX && inputs[k].vn.offset >= 0 by {
        assert(g.live(inputs[k].id));
    }
    law_covered_plan_segments(inputs, size, addr);
    lemma_fold_outcome(g, size, addr);
    lemma_input_listed(g, u);
    let q = choose|q: int|
        0 <= q < inputs.len() && #[trigger] inputs[q] == (In { id: u, vn: g.vn(u) });
    let i = choose|i: int|
        0 <= i < plan.len() && folds_in(#[trigger] plan[i], inputs[q], addr, lo, lo + size);
    assert(tiles[i].id == u);
}

/// A part that was there is an input with a byte in the request.
proof fn lemma_among_way(g: Graph, size: int, addr: Address, u: int)
    requires
        g.linked(),
        0 < size <= i32::MAX,
        covered_plan(inputs_of(g), size, addr) is Some,
        u < g.varnodes.len(),
        among(filled_for(g, size, addr).1, u),
    ensures
        in_the_way(g, size, addr, u),
{
    let inputs = inputs_of(g);
    let plan = covered_plan(inputs, size, addr)->0;
    let lo = addr.offset as int;
    let tiles = filled_for(g, size, addr).1;
    lemma_inputs_among(g.varnodes, g.varnodes.len() as int);
    assert forall|k: int| 0 <= k < inputs.len() implies i32::MIN <= (
    #[trigger] inputs[k]).vn.size <= i32::MAX && inputs[k].vn.offset >= 0 && g.vn(inputs[k].id)
        == inputs[k].vn by {
        assert(g.live(inputs[k].id));
    }
    law_covered_plan_segments(inputs, size, addr);
    lemma_fold_outcome(g, size, addr);
    let i = choose|i: int| 0 <= i < tiles.len() && (#[trigger] tiles[i]).id == u;
    assert(plan[i].source is Some);
    let k = choose|k: int|
        0 <= k < inputs.len() && folds_in(plan[i], #[trigger] inputs[k], addr, lo, lo + size);
    assert(inputs[k].id == u);
}

/// Where no input has the requested storage, there are several parts.
proof fn lemma_several(g: Graph, size: int, addr: Address)
    requires
        g.linked(),
        0 < size <= i32::MAX,
        covered_plan(inputs_of(g), size, addr) is Some,
        forall|u: int| !(#[trigger] is_exact(g, size, addr, u)),
    ensures
        filled_for(g, size, addr).1.len() > 1,
{
    lemma_fold_outcome(g, size, addr);
    if filled_for(g, size, addr).1.len() == 1 {
        lemma_single_fold(g, size, addr);
        lemma_input_at(g, addr.base, addr.offset as int, size);
        let u = g.input_at(addr.base, addr.offset as int, size)->0;
        assert(is_exact(g, size, addr, u));
    }
}

/// Whether or not a fold goes through, it leaves alone where the function is entered and
/// where it stands, its spaces, and the temporaries.
pub proof fn law_fold_rest(g: Graph, size: int, addr: Address)
    requires
        g.linked(),
        0 < size <= i32::MAX,
    ensures
        ({
            let h = fold_outcome(g, size, addr).0;
            &&& h.linked()
            &&& g.wf() ==> h.wf()
            &&& h.start == g.start
            &&& h.next_unique == g.next_unique
            &&& h.address == g.address
            &&& h.constant == g.constant
            &&& h.unique == g.unique
        }),
{
    if covered_plan(inputs_of(g), size, addr) is Some {
        let (g2, tiles) = filled_for(g, size, addr);
        lemma_fold_outcome(g, size, addr);
        lemma_folded_kept(g2, tiles, addr.base->0);
    }
}

/// What a fold makes of the varnodes.  It is answered by a new input of the requested
/// storage, which renaming passes over.  The inputs that have a byte in the request are
/// destroyed; all other names name what they named.  Besides the answer there are only the
/// outputs of the operations that were added, and the constants that they count with.
pub proof fn law_fold_varnodes(g: Graph, size: int, addr: Address)
    requires
        g.linked(),
        0 < size <= i32::MAX,
        fold_outcome(g, size, addr).1 is Some,
        forall|u: int| !(#[trigger] is_exact(g, size, addr, u)),
    ensures
        ({
            let (h, answer) = fold_outcome(g, size, addr);
            let v = answer->0;
            &&& v >= g.varnodes.len()
            &&& h.live(v)
            &&& h.vn(v) == (Vn {
                base: addr.base,
                offset: addr.offset as int,
                size,
                origin: Origin::Input,
                write_mask: true,
            })
            &&& forall|u: int| #[trigger] in_the_way(g, size, addr, u) ==> !h.live(u)
            &&& forall|u: int|
                0 <= u < g.varnodes.len() && !in_the_way(g, size, addr, u)
                    ==> #[trigger] h.varnodes[u] == g.varnodes[u]
            &&& forall|u: int|
                u >= g.varnodes.len() && #[trigger] h.live(u) ==> {
                    ||| u == v
                    ||| h.vn(u).origin is Written && h.vn(u).origin->Written_0 >= g.ops.len()
                    ||| h.vn(u).origin == Origin::Constant && counted(h, g.ops.len() as int, u)
                }
        }),
{
    let (h, answer) = fold_outcome(g, size, addr);
    let v = answer->0;
    let space = addr.base->0;
    let (g2, tiles) = filled_for(g, size, addr);
    lemma_fold_outcome(g, size, addr);
    lemma_several(g, size, addr);
    lemma_folded(g2, tiles, space);
    lemma_folded_trace(g2, tiles, space);
    lemma_holes_among(g, covered_plan(inputs_of(g), size, addr)->0, space);
    assert forall|u: int| #[trigger] in_the_way(g, size, addr, u) implies !h.live(u) by {
        lemma_way_among(g, size, addr, u);
    }
    assert forall|u: int|
        0 <= u < g.varnodes.len() && !in_the_way(g, size, addr, u) implies #[trigger] h.varnodes[u]
        == g.varnodes[u] by {
        if among(tiles, u) {
            lemma_among_way(g, size, addr, u);
        }
        assert(g2.varnodes[u] == g.varnodes[u]);
        if g.varnodes[u] is None {
            lemma_folded_dead(g2, tiles, space, u);
        } else {
            assert(g2.live(u));
        }
    }
    assert forall|u: int| u >= g.varnodes.len() && #[trigger] h.live(u) implies {
        ||| u == v
        ||| h.vn(u).origin is Written && h.vn(u).origin->Written_0 >= g.ops.len()
        ||| h.vn(u).origin == Origin::Constant && counted(h, g.ops.len() as int, u)
    } by {
        if u < g2.varnodes.len() {
            assert(among(tiles, u));
        } else {
            assert(left_by_fold(g2, h, v, u));
        }
    }
}

/// Each operation that a fold adds slices the answer, or what was sliced from it by an
/// operation added later, from the start of the request on.  What it writes lies in the
/// request, is passed over by renaming, and is read by an operation.
pub proof fn law_fold_cuts(g: Graph, size: int, addr: Address)
    requires
        g.linked(),
        0 < size <= i32::MAX,
        fold_outcome(g, size, addr).1 is Some,
        forall|u: int| !(#[trigger] is_exact(g, size, addr, u)),
    ensures
        ({
            let (h, answer) = fold_outcome(g, size, addr);
            forall|k: int|
                g.ops.len() <= k < h.ops.len() ==> #[trigger] cut_made(
                    g,
                    h,
                    addr.base,
                    addr.offset as int,
                    answer->0,
                    k,
                ) && inside(h.vn(h.ops[k].output->0), size, addr)
        }),
{
    let (h, answer) = fold_outcome(g, size, addr);
    assert forall|k: int| g.ops.len() <= k < h.ops.len() implies #[trigger] cut_made(
        g,
        h,
        addr.base,
        addr.offset as int,
        answer->0,
        k,
    ) && inside(h.vn(h.ops[k].output->0), size, addr) by {
        lemma_cut(g, size, addr, k);
    }
}

/// What an operation does that a fold adds.
proof fn lemma_cut(g: Graph, size: int, addr: Address, k: int)
    requires
        g.linked(),
        0 < size <= i32::MAX,
        fold_outcome(g, size, addr).1 is Some,
        forall|u: int| !(#[trigger] is_exact(g, size, addr, u)),
        g.ops.len() <= k < fold_outcome(g, size, addr).0.ops.len(),
    ensures
        ({
            let (h, answer) = fold_outcome(g, size, addr);
            &&& cut_made(g, h, addr.base, addr.offset as int, answer->0, k)
            &&& inside(h.vn(h.ops[k].output->0), size, addr)
            &&& h.is_input(answer->0)
            &&& inside(h.vn(answer->0), size, addr)
            &&& h.linked()
            &&& g.wf() ==> h.wf()
        }),
    decreases fold_outcome(g, size, addr).0.ops.len() - k,
{
    let (h, answer) = fold_outcome(g, size, addr);
    let space = addr.base->0;
    let (g2, tiles) = filled_for(g, size, addr);
    lemma_fold_outcome(g, size, addr);
    lemma_folded_trace(g2, tiles, space);
    assert(cut_made(g2, h, Some(space), tiles[0].off, answer->0, k));
    let s = h.ops[k].inputs[0]->0;
    if s != answer->0 {
        let l = h.vn(s).origin->Written_0;
        lemma_cut(g, size, addr, l);
        assert(h.ops[l].output == Some(s));
    }
}

/// What a fold cuts has the bytes that its own storage holds when the function is entered.
pub proof fn law_fold_cut_values(
    g: Graph,
    size: int,
    addr: Address,
    m: Memory,
    sem: Semantics,
    val: Valuation,
    k: int,
)
    requires
        g.linked(),
        0 < size <= i32::MAX,
        fold_outcome(g, size, addr).1 is Some,
        forall|u: int| !(#[trigger] is_exact(g, size, addr, u)),
        consistent(fold_outcome(g, size, addr).0, m, sem, val),
        g.ops.len() <= k < fold_outcome(g, size, addr).0.ops.len(),
    ensures
        ({
            let h = fold_outcome(g, size, addr).0;
            let u = h.ops[k].output->0;
            val(u) == entry_value_of(m, h.vn(u))
        }),
    decreases fold_outcome(g, size, addr).0.ops.len() - k,
{
    let (h, answer) = fold_outcome(g, size, addr);
    lemma_cut(g, size, addr, k);
    lemma_fold_outcome(g, size, addr);
    let space = addr.base->0;
    let op = h.ops[k];
    let s = op.inputs[0]->0;
    let u = op.output->0;
    if s != answer->0 {
        let l = h.vn(s).origin->Written_0;
        law_fold_cut_values(g, size, addr, m, sem, val, l);
        lemma_cut(g, size, addr, l);
        assert(h.ops[l].output == Some(s));
    }
    assert(val(s) == entry_value_of(m, h.vn(s)));
    assert(op_holds(h, k, sem, val));
    assert(ready(op));
    assert(operands(op, val)[0] == val(s));
    assert(h.live(u));
    let src = Src { id: s, lo: h.vn(s).offset, hi: h.vn(s).end() };
    let seg = Seg { off: h.vn(u).offset, size: h.vn(u).size, source: Some(src) };
    lemma_slice_value(m, space, seg, src);
}

/// Whether the operation joins two inputs with bytes in the request that are next to each
/// other, the more significant one first, from the start of the request on.
pub open spec fn lowest_join(g: Graph, size: int, addr: Address, k: int, hi: int, lo: int) -> bool {
    let be = addr.base->0.big_endian;
    let first = g.vn(if be {
        hi
    } else {
        lo
    });
    let second = g.vn(if be {
        lo
    } else {
        hi
    });
    &&& g.ops[k].code == OpCode::CPUI_PIECE
    &&& g.ops[k].inputs == seq![Some(hi), Some(lo)]
    &&& in_the_way(g, size, addr, hi)
    &&& in_the_way(g, size, addr, lo)
    &&& first.offset == addr.offset
    &&& first.offset + first.size == second.offset
}

/// The lowest two inputs that are joined are the first two parts.
proof fn lemma_lowest_pair(g: Graph, size: int, addr: Address, k: int, hi: int, lo: int)
    requires
        g.wf(),
        0 < size <= i32::MAX,
        covered_plan(inputs_of(g), size, addr) is Some,
        lowest_join(g, size, addr, k, hi, lo),
    ensures
        ({
            let tiles = filled_for(g, size, addr).1;
            &&& tiles.len() > 1
            &&& hi_lo(tiles[0], tiles[1], addr.base->0.big_endian) == (hi, lo)
            &&& tiles[0].size + tiles[1].size == g.vn(hi).size + g.vn(lo).size
        }),
{
    let space = addr.base->0;
    let (g2, tiles) = filled_for(g, size, addr);
    let (first, second) = if space.big_endian {
        (hi, lo)
    } else {
        (lo, hi)
    };
    lemma_fold_outcome(g, size, addr);
    lemma_way_among(g, size, addr, first);
    lemma_way_among(g, size, addr, second);
    assert(g.live(first) && g.live(second));
    assert forall|i: int| 0 <= i < tiles.len() implies (#[trigger] tiles[i]).size > 0 by {
        assert(g2.is_input_at(tiles[i].id, Some(space), tiles[i].off, tiles[i].size));
        assert(g2.live(tiles[i].id));
    }
    let p = choose|p: int| 0 <= p < tiles.len() && (#[trigger] tiles[p]).id == first;
    let q = choose|q: int| 0 <= q < tiles.len() && (#[trigger] tiles[q]).id == second;
    assert(g2.is_input_at(tiles[p].id, Some(space), tiles[p].off, tiles[p].size));
    assert(g2.is_input_at(tiles[q].id, Some(space), tiles[q].off, tiles[q].size));
    assert(g2.varnodes[first] == g.varnodes[first]);
    assert(g2.varnodes[second] == g.varnodes[second]);
    if p > 0 {
        lemma_line_ordered(tiles, 0, p);
    }
    if q > 1 {
        lemma_line_ordered(tiles, 0, 1);
        lemma_line_ordered(tiles, 1, q);
    }
    assert(p == 0 && q == 1);
}

/// The first two parts, where an operation joins them, are the lowest two inputs.
proof fn lemma_pair_lowest(g: Graph, size: int, addr: Address, k: int)
    requires
        g.wf(),
        0 < size <= i32::MAX,
        covered_plan(inputs_of(g), size, addr) is Some,
        0 <= k < g.ops.len(),
        filled_for(g, size, addr).1.len() > 1,
        ({
            let tiles = filled_for(g, size, addr).1;
            let (hi, lo) = hi_lo(tiles[0], tiles[1], addr.base->0.big_endian);
            g.ops[k].joins(hi, lo)
        }),
    ensures
        ({
            let tiles = filled_for(g, size, addr).1;
            let (hi, lo) = hi_lo(tiles[0], tiles[1], addr.base->0.big_endian);
            lowest_join(g, size, addr, k, hi, lo)
        }),
{
    let space = addr.base->0;
    let (g2, tiles) = filled_for(g, size, addr);
    let (hi, lo) = hi_lo(tiles[0], tiles[1], space.big_endian);
    lemma_fold_outcome(g, size, addr);
    assert(g.ops[k].inputs[0] == Some(hi) && g.ops[k].inputs[1] == Some(lo));
    assert(g.live(hi) && g.live(lo));
    assert(among(tiles, tiles[0].id) && among(tiles, tiles[1].id));
    lemma_among_way(g, size, addr, hi);
    lemma_among_way(g, size, addr, lo);
    assert(g2.is_input_at(tiles[0].id, Some(space), tiles[0].off, tiles[0].size));
    assert(g2.is_input_at(tiles[1].id, Some(space), tiles[1].off, tiles[1].size));
    assert(g2.varnodes[hi] == g.varnodes[hi]);
    assert(g2.varnodes[lo] == g.varnodes[lo]);
    assert(tiles[0].off + tiles[0].size == tiles[1].off);
}

/// What becomes of an operand in a fold: an input that had a byte in the request is
/// replaced by a new slice of its own storage; others stay.
pub open spec fn operand_kept(
    g: Graph,
    h: Graph,
    size: int,
    addr: Address,
    old_in: Option<int>,
    new_in: Option<int>,
) -> bool {
    if old_in is Some && in_the_way(g, size, addr, old_in->0) {
        let vn = g.vn(old_in->0);
        new_in is Some && stands_in(g, h, vn.base, vn.offset, vn.size, new_in->0)
    } else {
        new_in == old_in
    }
}

/// Whether an operation goes on as it was, with its operands replaced.
pub open spec fn op_kept(g: Graph, h: Graph, size: int, addr: Address, k: int) -> bool {
    &&& h.ops[k].code == g.ops[k].code
    &&& h.ops[k].inputs.len() == g.ops[k].inputs.len()
    &&& forall|s: int|
        0 <= s < g.ops[k].inputs.len() ==> operand_kept(
            g,
            h,
            size,
            addr,
            #[trigger] g.ops[k].inputs[s],
            h.ops[k].inputs[s],
        )
}

/// Whether an operation that joined two inputs copies what holds both: the answer, if they
/// make up the request, and else a new slice of their storage.
pub open spec fn op_copies(
    g: Graph,
    h: Graph,
    size: int,
    addr: Address,
    answer: int,
    k: int,
    bytes: int,
) -> bool {
    &&& h.ops[k].code == OpCode::CPUI_COPY
    &&& h.ops[k].inputs.len() == 1
    &&& h.ops[k].inputs[0] is Some
    &&& if bytes == size {
        h.ops[k].inputs[0] == Some(answer)
    } else {
        stands_in(g, h, addr.base, addr.offset as int, bytes, h.ops[k].inputs[0]->0)
    }
}

/// What a fold makes of the operations that there were.  Each keeps its address and its
/// output.  One that joins the two lowest inputs of the request, where these are next to
/// each other and start with it, copies what holds both.  Any other does what it did; of
/// its operands those that were folded are replaced by slices of the same storage, and the
/// others stay.
pub proof fn law_fold_ops(g: Graph, size: int, addr: Address)
    requires
        g.wf(),
        0 < size <= i32::MAX,
        fold_outcome(g, size, addr).1 is Some,
        forall|u: int| !(#[trigger] is_exact(g, size, addr, u)),
    ensures
        ({
            let (h, answer) = fold_outcome(g, size, addr);
            &&& g.ops.len() <= h.ops.len()
            &&& forall|k: int|
                0 <= k < g.ops.len() ==> (#[trigger] h.ops[k]).addr == g.ops[k].addr
                    && h.ops[k].output == g.ops[k].output
            &&& forall|k: int, hi: int, lo: int|
                0 <= k < g.ops.len() && #[trigger] lowest_join(g, size, addr, k, hi, lo)
                    ==> op_copies(
                    g,
                    h,
                    size,
                    addr,
                    answer->0,
                    k,
                    g.vn(hi).size + g.vn(lo).size,
                )
            &&& forall|k: int|
                0 <= k < g.ops.len() && (forall|hi: int, lo: int|
                    !lowest_join(g, size, addr, k, hi, lo)) ==> #[trigger] op_kept(
                    g,
                    h,
                    size,
                    addr,
                    k,
                )
        }),
{
    let (h, answer) = fold_outcome(g, size, addr);
    let (g2, tiles) = filled_for(g, size, addr);
    lemma_fold_outcome(g, size, addr);
    lemma_folded(g2, tiles, addr.base->0);
    assert forall|k: int| 0 <= k < g.ops.len() implies (#[trigger] h.ops[k]).addr == g.ops[k].addr
        && h.ops[k].output == g.ops[k].output by {
        lemma_folded_ops(g2, tiles, addr.base->0);
        assert(op_followed(g2, h, tiles, addr.base->0, answer->0, k));
    }
    assert forall|k: int, hi: int, lo: int|
        0 <= k < g.ops.len() && #[trigger] lowest_join(g, size, addr, k, hi, lo) implies op_copies(
        g,
        h,
        size,
        addr,
        answer->0,
        k,
        g.vn(hi).size + g.vn(lo).size,
    ) by {
        lemma_copied(g, size, addr, k, hi, lo);
    }
    assert forall|k: int|
        0 <= k < g.ops.len() && (forall|hi: int, lo: int|
            !lowest_join(g, size, addr, k, hi, lo)) implies #[trigger] op_kept(
        g,
        h,
        size,
        addr,
        k,
    ) by {
        lemma_kept(g, size, addr, k);
    }
}

/// A join of the two lowest inputs is a copy after the fold.
proof fn lemma_copied(g: Graph, size: int, addr: Address, k: int, hi: int, lo: int)
    requires
        g.wf(),
        0 < size <= i32::MAX,
        fold_outcome(g, size, addr).1 is Some,
        forall|u: int| !(#[trigger] is_exact(g, size, addr, u)),
        0 <= k < g.ops.len(),
        lowest_join(g, size, addr, k, hi, lo),
    ensures
        op_copies(
            g,
            fold_outcome(g, size, addr).0,
            size,
            addr,
            fold_outcome(g, size, addr).1->0,
            k,
            g.vn(hi).size + g.vn(lo).size,
        ),
{
    let (h, answer) = fold_outcome(g, size, addr);
    let space = addr.base->0;
    let (g2, tiles) = filled_for(g, size, addr);
    lemma_fold_outcome(g, size, addr);
    lemma_folded_ops(g2, tiles, space);
    lemma_lowest_pair(g, size, addr, k, hi, lo);
    assert(op_followed(g2, h, tiles, space, answer->0, k));
    if tiles.len() == 2 {
        assert(tiles[0].off + tiles[0].size == tiles[1].off);
    } else {
        let last = tiles.len() - 1;
        assert(g2.is_input_at(tiles[last].id, Some(space), tiles[last].off, tiles[last].size));
        assert(g2.live(tiles[last].id));
        lemma_line_ordered(tiles, 1, last);
        assert(tiles[0].off + tiles[0].size == tiles[1].off);
    }
}

/// An operation that does not join the two lowest inputs goes on as it was.
proof fn lemma_kept(g: Graph, size: int, addr: Address, k: int)
    requires
        g.wf(),
        0 < size <= i32::MAX,
        fold_outcome(g, size, addr).1 is Some,
        forall|u: int| !(#[trigger] is_exact(g, size, addr, u)),
        0 <= k < g.ops.len(),
        forall|hi: int, lo: int| !(#[trigger] lowest_join(g, size, addr, k, hi, lo)),
    ensures
        op_kept(g, fold_outcome(g, size, addr).0, size, addr, k),
{
    let (h, answer) = fold_outcome(g, size, addr);
    let space = addr.base->0;
    let (g2, tiles) = filled_for(g, size, addr);
    let (hi, lo) = hi_lo(tiles[0], tiles[1], space.big_endian);
    lemma_fold_outcome(g, size, addr);
    lemma_several(g, size, addr);
    lemma_folded_ops(g2, tiles, space);
    assert(op_followed(g2, h, tiles, space, answer->0, k));
    if g.ops[k].joins(hi, lo) {
        lemma_pair_lowest(g, size, addr, k);
    }
    assert forall|s: int| 0 <= s < g.ops[k].inputs.len() implies operand_kept(
        g,
        h,
        size,
        addr,
        #[trigger] g.ops[k].inputs[s],
        h.ops[k].inputs[s],
    ) by {
        assert(slot_followed(g2, h, tiles, g2.ops[k].inputs[s], h.ops[k].inputs[s]));
        if g.ops[k].inputs[s] is Some {
            let v = g.ops[k].inputs[s]->0;
            assert(g.live(v));
            assert(g2.varnodes[v] == g.varnodes[v]);
            if in_the_way(g, size, addr, v) {
                lemma_way_among(g, size, addr, v);
            } else if among(tiles, v) {
                lemma_among_way(g, size, addr, v);
            }
        }
    }
}

/// A fold adds no operation where none reads an input that has a byte in the request,
/// except to join two of them that make up the request.
pub proof fn law_fold_quiet(g: Graph, size: int, addr: Address)
    requires
        g.wf(),
        0 < size <= i32::MAX,
        fold_outcome(g, size, addr).1 is Some,
        forall|k: int, v: int|
            0 <= k < g.ops.len() && #[trigger] g.ops[k].reads(v) && in_the_way(g, size, addr, v)
                ==> exists|hi: int, lo: int| #[trigger]
                lowest_join(g, size, addr, k, hi, lo) && g.vn(hi).size + g.vn(lo).size == size,
    ensures
        fold_outcome(g, size, addr).0.ops.len() == g.ops.len(),
{
    let (h, answer) = fold_outcome(g, size, addr);
    let space = addr.base->0;
    let be = space.big_endian;
    let (g2, tiles) = filled_for(g, size, addr);
    lemma_fold_outcome(g, size, addr);
    if tiles.len() > 1 {
        assert forall|k: int, i: int| 0 <= k < g2.ops.len() && 0 <= i < tiles.len() implies !(
        #[trigger] reads_apart(g2, tiles, be, k, i)) by {
            lemma_not_apart(g, size, addr, k, i);
        }
        lemma_folded_quiet(g2, tiles, space);
    }
}

/// Whether or not a fold goes through, the operations that it adds stand exactly once
/// where the function is entered, ahead of all that stood there, each behind those that
/// write its operands: the one that was added last stands first.
pub proof fn law_fold_placed(g: Graph, size: int, addr: Address)
    requires
        g.linked(),
        0 < size <= i32::MAX,
        forall|u: int| !(#[trigger] is_exact(g, size, addr, u)),
    ensures
        placed(g, fold_outcome(g, size, addr).0),
        ({
            let h = fold_outcome(g, size, addr).0;
            g.start matches Some(b) ==> forall|i: int|
                0 <= i < h.ops.len() - g.ops.len() ==> #[trigger] h.blocks[b][i] == h.ops.len() - 1
                    - i
        }),
{
    let (h, answer) = fold_outcome(g, size, addr);
    if covered_plan(inputs_of(g), size, addr) is Some {
        let space = addr.base->0;
        let (g2, tiles) = filled_for(g, size, addr);
        lemma_fold_outcome(g, size, addr);
        lemma_folded_kept(g2, tiles, space);
        lemma_folded(g2, tiles, space);
        if let Some(b) = g.start {
            let m = g.ops.len() as int;
            let top = h.ops.len() as int;
            let n = top - m;
            let list = h.blocks[b];
            assert(list == down(top, m) + g.blocks[b]);
            assert forall|i: int| 0 <= i < n implies #[trigger] list[i] == top - 1 - i by {}
            assert forall|i: int| 0 <= i < g.blocks[b].len() implies list[n + i]
                == #[trigger] g.blocks[b][i] by {}
            assert forall|k: int| m <= k < top implies #[trigger] stands_at(list, n, k) by {
                assert(list[top - 1 - k] == k);
            }
            assert forall|i: int, s: int|
                0 <= i < n && 0 <= s < h.ops[list[i]].inputs.len() && (
                #[trigger] h.ops[list[i]].inputs[s]) is Some && h.vn(
                    h.ops[list[i]].inputs[s]->0,
                ).origin is Written implies stands_at(
                list,
                i,
                h.vn(h.ops[list[i]].inputs[s]->0).origin->Written_0,
            ) by {
                let k = list[i];
                let l = h.vn(h.ops[k].inputs[s]->0).origin->Written_0;
                lemma_cut(g, size, addr, k);
                assert(k < l < top);
                assert(list[top - 1 - l] == l);
            }
        }
    } else if let Some(b) = g.start {
        assert(h == g);
    }
}

/// Whether or not a fold goes through, if there is a plan for it, each byte of the request
/// is one of an input after it; inputs are added in the request alone; and no varnode is
/// destroyed or changed but the inputs that have a byte in the request.
pub proof fn law_fold_covers(g: Graph, size: int, addr: Address, b: int)
    requires
        g.linked(),
        0 < size <= i32::MAX,
        covered_plan(inputs_of(g), size, addr) is Some,
        addr.offset <= b < addr.offset + size,
    ensures
        ({
            let h = fold_outcome(g, size, addr).0;
            &&& exists|u: int| #[trigger] has_byte(h, addr.base, b, u)
            &&& forall|u: int|
                u >= g.varnodes.len() && #[trigger] h.is_input(u) ==> inside(h.vn(u), size, addr)
            &&& forall|u: int|
                0 <= u < g.varnodes.len() && !in_the_way(g, size, addr, u)
                    ==> #[trigger] h.varnodes[u] == g.varnodes[u]
        }),
{
    let h = fold_outcome(g, size, addr).0;
    let space = addr.base->0;
    let (g2, tiles) = filled_for(g, size, addr);
    lemma_fold_outcome(g, size, addr);
    lemma_folded_cover(g2, tiles, space, b);
    lemma_holes_among(g, covered_plan(inputs_of(g), size, addr)->0, space);
    lemma_folded(g2, tiles, space);
    assert forall|u: int| u >= g.varnodes.len() && #[trigger] h.is_input(u) implies inside(
        h.vn(u),
        size,
        addr,
    ) by {
        if u < g2.varnodes.len() {
            lemma_folded_same(g2, tiles, space, u);
            assert(among(tiles, u));
            let i = choose|i: int| 0 <= i < tiles.len() && (#[trigger] tiles[i]).id == u;
            assert(g2.is_input_at(tiles[i].id, Some(space), tiles[i].off, tiles[i].size));
            let last = tiles.len() - 1;
            assert(tiles[0].size >= 0 && tiles[i].size >= 0 && tiles[last].size >= 0);
            if i > 0 {
                lemma_line_ordered(tiles, 0, i);
            }
            if i < last {
                lemma_line_ordered(tiles, i, last);
            }
        }
    }
    assert forall|u: int|
        0 <= u < g.varnodes.len() && !in_the_way(g, size, addr, u) implies #[trigger] h.varnodes[u]
        == g.varnodes[u] by {
        if among(tiles, u) {
            lemma_among_way(g, size, addr, u);
        }
        assert(g2.varnodes[u] == g.varnodes[u]);
        if g.varnodes[u] is None {
            lemma_folded_dead(g2, tiles, space, u);
        } else {
            assert(g2.live(u));
        }
    }
}

/// Whether storage of an input in the way of the request is held by other storage.
pub open spec fn holds_of(g: Graph, size: int, addr: Address, vn: Vn, v: int) -> bool {
    &&& in_the_way(g, size, addr, v)
    &&& vn.offset < g.vn(v).offset + g.vn(v).size
    &&& g.vn(v).offset < vn.offset + vn.size
}

/// Whether or not a fold goes through, of the inputs that it adds and leaves those are
/// passed over by renaming that hold a byte of an input in the way; the others fill a
/// hole.
pub proof fn law_fold_masks(g: Graph, size: int, addr: Address, u: int)
    requires
        g.wf(),
        0 < size <= i32::MAX,
        covered_plan(inputs_of(g), size, addr) is Some,
        u >= g.varnodes.len(),
        fold_outcome(g, size, addr).0.is_input(u),
    ensures
        ({
            let vn = fold_outcome(g, size, addr).0.vn(u);
            vn.write_mask <==> exists|v: int| #[trigger] holds_of(g, size, addr, vn, v)
        }),
{
    let h = fold_outcome(g, size, addr).0;
    let vn = h.vn(u);
    let space = addr.base->0;
    let inputs = inputs_of(g);
    let plan = covered_plan(inputs, size, addr)->0;
    let (g2, tiles) = filled_for(g, size, addr);
    lemma_fold_outcome(g, size, addr);
    assert(h.live(u));
    if u < g2.varnodes.len() {
        lemma_holes_among(g, plan, space);
        lemma_holes_unmasked(g, plan, space);
        lemma_folded_same(g2, tiles, space, u);
        assert(among(tiles, u));
        let i = choose|i: int| 0 <= i < tiles.len() && (#[trigger] tiles[i]).id == u;
        assert(g2.is_input_at(tiles[i].id, Some(space), tiles[i].off, tiles[i].size));
        if exists|v: int| #[trigger] holds_of(g, size, addr, vn, v) {
            let v = choose|v: int| #[trigger] holds_of(g, size, addr, vn, v);
            lemma_way_among(g, size, addr, v);
            let k = choose|k: int| 0 <= k < tiles.len() && (#[trigger] tiles[k]).id == v;
            assert(g2.is_input_at(tiles[k].id, Some(space), tiles[k].off, tiles[k].size));
            assert(g2.varnodes[v] == g.varnodes[v]);
            if i < k {
                lemma_line_ordered(tiles, i, k);
            } else {
                lemma_line_ordered(tiles, k, i);
            }
        }
    } else {
        lemma_folded_masks(g2, tiles, space, u);
        lemma_inputs_among(g.varnodes, g.varnodes.len() as int);
        assert forall|k: int| 0 <= k < inputs.len() implies i32::MIN <= (
        #[trigger] inputs[k]).vn.size <= i32::MAX && inputs[k].vn.offset >= 0 by {
            assert(g.live(inputs[k].id));
        }
        law_covered_plan_segments(inputs, size, addr);
        assert(plan[0].source is Some || plan[1].source is Some);
        let i: int = if plan[0].source is Some {
            0
        } else {
            1
        };
        let v = tiles[i].id;
        assert(v == (plan[i].source->0).id);
        assert(g.live(v));
        assert(g2.varnodes[v] == g.varnodes[v]);
        assert(g2.is_input_at(tiles[i].id, Some(space), tiles[i].off, tiles[i].size));
        assert(tiles[0].off + tiles[0].size == tiles[1].off);
        assert(tiles[0].size >= 0 && tiles[1].size >= 0);
        assert(among(tiles, v));
        lemma_among_way(g, size, addr, v);
        assert(holds_of(g, size, addr, vn, v));
    }
}

/// Whether an operation is as it was, or joined the two lowest inputs of the request and
/// copies an input that holds both.
pub open spec fn op_left(g: Graph, h: Graph, size: int, addr: Address, k: int) -> bool {
    let w = h.ops[k].inputs[0]->0;
    h.ops[k] == g.ops[k] || {
        &&& h.ops[k].addr == g.ops[k].addr
        &&& h.ops[k].output == g.ops[k].output
        &&& h.ops[k].code == OpCode::CPUI_COPY
        &&& h.ops[k].inputs.len() == 1
        &&& h.ops[k].inputs[0] is Some
        &&& h.is_input(w)
        &&& h.vn(w).base == addr.base
        &&& h.vn(w).offset == addr.offset
        &&& exists|hi: int, lo: int| #[trigger]
            lowest_join(g, size, addr, k, hi, lo) && h.vn(w).size == g.vn(hi).size + g.vn(lo).size
    }
}

/// Where a fold that is planned does not go through, it has gone as far as it could.  It
/// has stopped at two inputs next to each other, the more significant one first, from the
/// start of the request on, one of which an operation reads otherwise than by joining the
/// two.  No operation was added, and none was changed but such as joined the two lowest
/// inputs of the request: these copy what holds both.
pub proof fn law_fold_stops(g: Graph, size: int, addr: Address) -> (pair: (int, int))
    requires
        g.wf(),
        0 < size <= i32::MAX,
        covered_plan(inputs_of(g), size, addr) is Some,
        fold_outcome(g, size, addr).1 is None,
    ensures
        ({
            let h = fold_outcome(g, size, addr).0;
            let (hi, lo) = pair;
            let be = addr.base->0.big_endian;
            let (first, second) = if be {
                (h.vn(hi), h.vn(lo))
            } else {
                (h.vn(lo), h.vn(hi))
            };
            &&& h.start is None
            &&& h.is_input(hi)
            &&& h.is_input(lo)
            &&& first.base == addr.base
            &&& second.base == addr.base
            &&& first.offset == addr.offset
            &&& first.offset + first.size == second.offset
            &&& (exists|k: int| #[trigger] reads_alone(h, k, hi, hi, lo)) || (exists|k: int| #[trigger]
                reads_alone(h, k, lo, hi, lo))
            &&& h.ops.len() == g.ops.len()
            &&& forall|k: int|
                0 <= k < g.ops.len() ==> #[trigger] op_left(g, h, size, addr, k)
        }),
{
    let h = fold_outcome(g, size, addr).0;
    let space = addr.base->0;
    let (g2, tiles) = filled_for(g, size, addr);
    lemma_fold_outcome(g, size, addr);
    let (hi, lo) = lemma_folded_stuck(g2, tiles, space);
    law_cuttable(h, hi, lo);
    let (a, b) = hi_lo(tiles[0], tiles[1], space.big_endian);
    assert forall|k: int| 0 <= k < g.ops.len() implies #[trigger] op_left(
        g,
        h,
        size,
        addr,
        k,
    ) by {
        assert(op_untouched(g2, h, tiles, space, k));
        if h.ops[k] != g.ops[k] {
            lemma_pair_lowest(g, size, addr, k);
            assert(g2.is_input_at(tiles[0].id, Some(space), tiles[0].off, tiles[0].size));
            assert(g2.is_input_at(tiles[1].id, Some(space), tiles[1].off, tiles[1].size));
            assert(g2.varnodes[a] == g.varnodes[a]);
            assert(g2.varnodes[b] == g.varnodes[b]);
        }
    }
    (hi, lo)
}

/// A fold of the storage that an input has already gives that input back, and changes
/// nothing.
pub proof fn law_fold_exact(g: Graph, size: int, addr: Address, u: int)
    requires
        g.wf(),
        0 < size <= i32::MAX,
        covered_plan(inputs_of(g), size, addr) is Some,
        is_exact(g, size, addr, u),
    ensures
        fold_outcome(g, size, addr) == (g, Some(u)),
{
    let space = addr.base->0;
    let plan = covered_plan(inputs_of(g), size, addr)->0;
    let (g2, tiles) = filled_for(g, size, addr);
    lemma_fold_outcome(g, size, addr);
    assert(g.live(u));
    lemma_way_among(g, size, addr, u);
    let p = choose|p: int| 0 <= p < tiles.len() && (#[trigger] tiles[p]).id == u;
    assert forall|i: int| 0 <= i < tiles.len() implies (#[trigger] tiles[i]).size > 0 by {
        assert(g2.is_input_at(tiles[i].id, Some(space), tiles[i].off, tiles[i].size));
        assert(g2.live(tiles[i].id));
    }
    assert(g2.is_input_at(tiles[p].id, Some(space), tiles[p].off, tiles[p].size));
    assert(g2.varnodes[u] == g.varnodes[u]);
    let last = tiles.len() - 1;
    assert(tiles[0].size > 0 && tiles[last].size > 0);
    if p > 0 {
        lemma_line_ordered(tiles, 0, p);
    }
    if p < last {
        lemma_line_ordered(tiles, p, last);
    }
    assert(tiles.len() == 1);
    assert(tiles[0].id == u);
    lemma_holes_among(g, plan, space);
    if g2.varnodes.len() > g.varnodes.len() {
        let w = g.varnodes.len() as int;
        assert(among(tiles, w));
    }
    assert(g2.varnodes =~= g.varnodes);
    assert(g2 =~= g);
}

/// There is a fold exactly where the end of the request and the ends of the inputs in its
/// space are offsets, some input has a byte in the request, and all that do lie in it and
/// are passed over by renaming.  Where there is none, nothing changes.
pub proof fn law_fold_planned(g: Graph, size: int, addr: Address)
    requires
        g.wf(),
        0 < size <= i32::MAX,
    ensures
        covered_plan(inputs_of(g), size, addr) is Some <==> {
            &&& addr.base is Some
            &&& addr.offset + size < offsets()
            &&& forall|v: int| #[trigger]
                g.is_input(v) && g.vn(v).base == addr.base ==> g.vn(v).offset + g.vn(v).size
                    < offsets()
            &&& exists|v: int| #[trigger] in_the_way(g, size, addr, v)
            &&& forall|v: int| #[trigger]
                in_the_way(g, size, addr, v) ==> g.vn(v).write_mask && inside(g.vn(v), size, addr)
        },
        covered_plan(inputs_of(g), size, addr) is None ==> fold_outcome(g, size, addr) == (
            g,
            None::<int>,
        ),
{
    let inputs = inputs_of(g);
    let lo = addr.offset as int;
    let hi = lo + size;
    lemma_inputs_apart(g);
    lemma_inputs_among(g.varnodes, g.varnodes.len() as int);
    law_covered_plan_exists(inputs, size, addr);
    assert forall|i: int| 0 <= i < inputs.len() implies g.is_input((#[trigger] inputs[i]).id)
        && inputs[i].vn == g.vn(inputs[i].id) && inputs[i].vn.size > 0 by {
        assert(g.live(inputs[i].id));
    }
    if let Some(space) = addr.base {
        if forall|i: int| 0 <= i < inputs.len() ==> (#[trigger] inputs[i]).foldable(space, lo, hi) {
            assert forall|v: int| #[trigger] g.is_input(v) && g.vn(v).base == addr.base implies g.vn(
                v,
            ).offset + g.vn(v).size < offsets() && (in_the_way(g, size, addr, v) ==> g.vn(
                v,
            ).write_mask && inside(g.vn(v), size, addr)) by {
                lemma_input_listed(g, v);
                let i = choose|i: int|
                    0 <= i < inputs.len() && #[trigger] inputs[i] == (In { id: v, vn: g.vn(v) });
                assert(inputs[i].foldable(space, lo, hi));
            }
            assert forall|v: int| #[trigger] in_the_way(g, size, addr, v) implies g.vn(v).write_mask
                && inside(g.vn(v), size, addr) by {
                assert(g.is_input(v));
            }
        }
        if exists|i: int| 0 <= i < inputs.len() && (#[trigger] inputs[i]).meets(space, lo, hi) {
            let i = choose|i: int|
                0 <= i < inputs.len() && (#[trigger] inputs[i]).meets(space, lo, hi);
            assert(in_the_way(g, size, addr, inputs[i].id));
        }
        if exists|v: int| #[trigger] in_the_way(g, size, addr, v) {
            let v = choose|v: int| #[trigger] in_the_way(g, size, addr, v);
            lemma_input_listed(g, v);
            let i = choose|i: int|
                0 <= i < inputs.len() && #[trigger] inputs[i] == (In { id: v, vn: g.vn(v) });
            assert(inputs[i].meets(space, lo, hi));
        }
        if (forall|v: int| #[trigger]
            g.is_input(v) && g.vn(v).base == addr.base ==> g.vn(v).offset + g.vn(v).size
                < offsets()) && (forall|v: int| #[trigger]
            in_the_way(g, size, addr, v) ==> g.vn(v).write_mask && inside(g.vn(v), size, addr)) {
            assert forall|i: int| 0 <= i < inputs.len() implies (#[trigger] inputs[i]).foldable(
                space,
                lo,
                hi,
            ) by {
                let v = inputs[i].id;
                assert(g.is_input(v));
                if inputs[i].meets(space, lo, hi) {
                    assert(in_the_way(g, size, addr, v));
                }
            }
        }
    }
}

/// A fold that is planned goes through exactly where the block at which the function is
/// entered is known, or an input has the requested storage already, or no operation reads
/// an input with a byte in the request, except to join two of them that make it up.
pub proof fn law_fold_goes_through(g: Graph, size: int, addr: Address)
    requires
        g.wf(),
        0 < size <= i32::MAX,
        covered_plan(inputs_of(g), size, addr) is Some,
    ensures
        fold_outcome(g, size, addr).1 is Some <==> {
            ||| g.start is Some
            ||| exists|u: int| #[trigger] is_exact(g, size, addr, u)
            ||| forall|k: int, v: int|
                0 <= k < g.ops.len() && #[trigger] g.ops[k].reads(v) && in_the_way(
                    g,
                    size,
                    addr,
                    v,
                ) ==> exists|hi: int, lo: int| #[trigger]
                    lowest_join(g, size, addr, k, hi, lo) && g.vn(hi).size + g.vn(lo).size == size
        },
{
    let space = addr.base->0;
    let be = space.big_endian;
    let (g2, tiles) = filled_for(g, size, addr);
    lemma_fold_outcome(g, size, addr);
    if exists|u: int| #[trigger] is_exact(g, size, addr, u) {
        let u = choose|u: int| #[trigger] is_exact(g, size, addr, u);
        law_fold_exact(g, size, addr, u);
    } else if g.start is None {
        lemma_several(g, size, addr);
        lemma_folded_uncut(g2, tiles, space);
        if fold_outcome(g, size, addr).1 is Some {
            assert forall|k: int, v: int|
                0 <= k < g.ops.len() && #[trigger] g.ops[k].reads(v) && in_the_way(
                    g,
                    size,
                    addr,
                    v,
                ) implies exists|hi: int, lo: int| #[trigger]
                lowest_join(g, size, addr, k, hi, lo) && g.vn(hi).size + g.vn(lo).size
                    == size by {
                lemma_way_among(g, size, addr, v);
                let i = choose|i: int| 0 <= i < tiles.len() && (#[trigger] tiles[i]).id == v;
                assert(!reads_apart(g2, tiles, be, k, i));
                let (hi, lo) = hi_lo(tiles[0], tiles[1], be);
                lemma_pair_lowest(g, size, addr, k);
                lemma_lowest_pair(g, size, addr, k, hi, lo);
                assert(tiles[0].off + tiles[0].size == tiles[1].off);
            }
        } else if forall|k: int, v: int|
            0 <= k < g.ops.len() && #[trigger] g.ops[k].reads(v) && in_the_way(g, size, addr, v)
                ==> exists|hi: int, lo: int| #[trigger]
                lowest_join(g, size, addr, k, hi, lo) && g.vn(hi).size + g.vn(lo).size == size {
            let (k, i) = choose|k: int, i: int|
                0 <= k < g2.ops.len() && 0 <= i < tiles.len() && #[trigger] reads_apart(
                    g2,
                    tiles,
                    be,
                    k,
                    i,
                );
            lemma_not_apart(g, size, addr, k, i);
        }
    }
}

/// Who reads a part only to join the two that make up the request does not read it apart.
proof fn lemma_not_apart(g: Graph, size: int, addr: Address, k: int, i: int)
    requires
        g.wf(),
        0 < size <= i32::MAX,
        covered_plan(inputs_of(g), size, addr) is Some,
        0 <= k < g.ops.len(),
        0 <= i < filled_for(g, size, addr).1.len(),
        forall|v: int| #[trigger]
            g.ops[k].reads(v) && in_the_way(g, size, addr, v) ==> exists|hi: int, lo: int| #[trigger]
                lowest_join(g, size, addr, k, hi, lo) && g.vn(hi).size + g.vn(lo).size == size,
    ensures
        !reads_apart(
            filled_for(g, size, addr).0,
            filled_for(g, size, addr).1,
            addr.base->0.big_endian,
            k,
            i,
        ),
{
    let space = addr.base->0;
    let (g2, tiles) = filled_for(g, size, addr);
    lemma_fold_outcome(g, size, addr);
    let v = tiles[i].id;
    if g.ops[k].reads(v) {
        let s = choose|s: int|
            0 <= s < g.ops[k].inputs.len() && #[trigger] g.ops[k].inputs[s] == Some(v);
        assert(g.ops[k].inputs[s] is Some);
        assert(g.live(v));
        assert(among(tiles, v));
        lemma_among_way(g, size, addr, v);
        let (hi, lo) = choose|hi: int, lo: int| #[trigger]
            lowest_join(g, size, addr, k, hi, lo) && g.vn(hi).size + g.vn(lo).size == size;
        lemma_lowest_pair(g, size, addr, k, hi, lo);
        if tiles.len() > 2 {
            let last = tiles.len() - 1;
            assert(g2.is_input_at(
                tiles[last].id,
                Some(space),
                tiles[last].off,
                tiles[last].size,
            ));
            assert(g2.live(tiles[last].id));
            lemma_line_ordered(tiles, 1, last);
            assert(tiles[0].off + tiles[0].size == tiles[1].off);
        }
    }
}

/// A fold gives out names, and takes none back.
pub proof fn law_fold_grows(g: Graph, size: int, addr: Address)
    requires
        g.linked(),
        0 < size <= i32::MAX,
    ensures
        fold_outcome(g, size, addr).0.varnodes.len() >= g.varnodes.len(),
        fold_outcome(g, size, addr).0.ops.len() >= g.ops.len(),
{
    if covered_plan(inputs_of(g), size, addr) is Some {
        let (g2, tiles) = filled_for(g, size, addr);
        lemma_fold_outcome(g, size, addr);
        lemma_folded(g2, tiles, addr.base->0);
    }
}

} // verus!
