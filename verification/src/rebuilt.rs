//! What a rebuilt value is made of.

use crate::address::Address;
use crate::funcdata::inputs_of;
use crate::graph::{offsets, Graph};
use crate::meaning::{
    consistent, entry_value, entry_value_of, lemma_joined_value, lemma_laid_values, Memory,
    Semantics, Valuation,
};
use crate::op::OpCode;
use crate::plan::{filled, overlapping_pieces, overlapping_plan, In, Seg};
use crate::planned::{holds_byte, law_overlapping_plan_when};
use crate::rebuild::{
    by_significance, chain_size, chained, entry_site, grown, joined, laid, lemma_chain_size,
    rebuild_outcome, Part, Site,
};
use crate::request::{
    lemma_input_listed, lemma_inputs_among, lemma_inputs_apart, lemma_inputs_numbered,
    lemma_overlapping_plan_fits, place_vn, segment_fits,
};
use crate::shape::{
    among, lemma_composed, lemma_composed_ahead, lemma_grown_trans, lemma_joined, run,
};
use crate::tiling::{
    holes_apart, law_overlapping_plan_exists, law_overlapping_plan_segments,
    law_overlapping_plan_tiles, lemma_overlapping_plan_single, lemma_tiles_inside,
    lemma_tiles_ordered, sources_single, takes, tiles_range,
};
use crate::trace::{
    counted, has_byte, join_made, lemma_joined_trace, lemma_laid_trace, lemma_tile_laid_grown,
    slices, tile_laid,
};
use crate::varnode::{Origin, Vn};
use vstd::prelude::*;

verus! {

/// Whether an input has a byte in the requested storage.
pub open spec fn in_the_way(g: Graph, size: int, addr: Address, v: int) -> bool {
    &&& g.is_input(v)
    &&& g.vn(v).base == addr.base
    &&& g.vn(v).offset < addr.offset + size
    &&& addr.offset < g.vn(v).offset + g.vn(v).size
}

/// Whether storage lies in the requested storage.
pub open spec fn inside(vn: Vn, size: int, addr: Address) -> bool {
    &&& vn.base == addr.base
    &&& addr.offset <= vn.offset
    &&& vn.offset + vn.size <= addr.offset + size
}

/// Whether a place in the front of a list holds the number.
pub open spec fn stands_at(list: Seq<int>, n: int, k: int) -> bool {
    exists|i: int| 0 <= i < n && #[trigger] list[i] == k
}

/// Whether the operations that were added stand exactly once in the block where the
/// function is entered, ahead of all that stood there, each behind those that write its
/// operands; other blocks are as they were.  Where the block is not known, no operation
/// was added.
pub open spec fn placed(g: Graph, h: Graph) -> bool {
    &&& h.start == g.start
    &&& h.blocks.len() == g.blocks.len()
    &&& forall|c: int|
        0 <= c < g.blocks.len() && Some(c) != g.start ==> #[trigger] h.blocks[c] == g.blocks[c]
    &&& match g.start {
        None => h.ops.len() == g.ops.len(),
        Some(b) => {
            let n = h.ops.len() - g.ops.len();
            let list = h.blocks[b];
            &&& n >= 0
            &&& list.len() == n + g.blocks[b].len()
            &&& forall|i: int|
                0 <= i < g.blocks[b].len() ==> list[n + i] == #[trigger] g.blocks[b][i]
            &&& forall|i: int| 0 <= i < n ==> g.ops.len() <= #[trigger] list[i] < h.ops.len()
            &&& forall|i: int, j: int|
                0 <= i < j < n ==> #[trigger] list[i] != #[trigger] list[j]
            &&& forall|k: int| g.ops.len() <= k < h.ops.len() ==> #[trigger] stands_at(list, n, k)
            &&& forall|i: int, s: int|
                0 <= i < n && 0 <= s < h.ops[list[i]].inputs.len() && (
                #[trigger] h.ops[list[i]].inputs[s]) is Some && h.vn(
                    h.ops[list[i]].inputs[s]->0,
                ).origin is Written ==> stands_at(
                    list,
                    i,
                    h.vn(h.ops[list[i]].inputs[s]->0).origin->Written_0,
                )
        },
    }
}

/// The plan of a rebuilt value and where its operations go.
spec fn plan_for(g: Graph, size: int, addr: Address) -> Seq<Seg> {
    overlapping_plan(inputs_of(g), size, addr)->0
}

/// The function with the plan laid, and the parts by ascending offset.
spec fn laid_for(g: Graph, size: int, addr: Address) -> (Graph, Seq<Part>) {
    laid(g, plan_for(g, size, addr), entry_site(g, addr.base->0))
}

/// The parts from the most significant to the least.
spec fn order_for(g: Graph, size: int, addr: Address) -> Seq<Part> {
    by_significance(laid_for(g, size, addr).1, addr.base->0.big_endian)
}

/// What is known of a rebuilt value.
proof fn lemma_rebuilt(g: Graph, size: int, addr: Address)
    requires
        g.linked(),
        0 < size <= i32::MAX,
        rebuild_outcome(g, size, addr).1 is Some,
    ensures
        ({
            let space = addr.base->0;
            let lo = addr.offset as int;
            let site = entry_site(g, space);
            let plan = plan_for(g, size, addr);
            let (g1, tiles) = laid_for(g, size, addr);
            let order = order_for(g, size, addr);
            let whole = place_vn(space, lo, size);
            let n = plan.len() as int;
            let (h, answer) = rebuild_outcome(g, size, addr);
            &&& addr.base is Some
            &&& g.start == Some(site.block)
            &&& site.addr == g.address
            &&& h == joined(g1, order, n, whole, site).0
            &&& answer == Some(joined(g1, order, n, whole, site).1)
            &&& n > 1 ==> answer == Some(g1.varnodes.len() + n - 2)
            &&& n > 0
            &&& tiles_range(plan, lo, lo + size)
            &&& holes_apart(plan)
            &&& sources_single(plan)
            &&& forall|i: int|
                0 <= i < n ==> (#[trigger] plan[i]).size > 0 && segment_fits(g, space, plan[i])
            &&& g1.linked()
            &&& g.wf() ==> g1.wf()
            &&& h.linked()
            &&& g.wf() ==> h.wf()
            &&& grown(g, g1)
            &&& grown(g1, h)
            &&& grown(g, h)
            &&& tiles.len() == n
            &&& order.len() == n
            &&& chained(order, space.big_endian)
            &&& chain_size(order, n, space.big_endian) == size
            &&& forall|i: int|
                0 <= i < n ==> {
                    let t = #[trigger] tiles[i];
                    &&& t.off == plan[i].off
                    &&& t.size == plan[i].size
                    &&& g1.live(t.id)
                    &&& tile_laid(g, g1, space, plan[i], t.id)
                    &&& tile_laid(g, h, space, plan[i], t.id)
                }
            &&& forall|i: int| 0 <= i < n ==> g1.live((#[trigger] order[i]).id)
            &&& forall|k: int|
                g.ops.len() <= k < g1.ops.len() ==> (#[trigger] h.ops[k]).code
                    == OpCode::CPUI_SUBPIECE && h.ops[k].output is Some && among(
                    tiles,
                    h.ops[k].output->0,
                )
            &&& forall|u: int|
                g.varnodes.len() <= u < g1.varnodes.len() ==> (#[trigger] h.varnodes[u]) is Some
                    && (among(tiles, u) || (h.vn(u).origin == Origin::Constant && counted(
                    h,
                    g.ops.len() as int,
                    u,
                )))
            &&& h.ops.len() == g1.ops.len() + n - 1
            &&& h.varnodes.len() == g1.varnodes.len() + n - 1
            &&& forall|j: int|
                1 <= j < n ==> #[trigger] join_made(
                    g1,
                    h,
                    order,
                    j,
                    whole,
                    g.address,
                    space.big_endian,
                )
            &&& g1.next_unique == g.next_unique
            &&& g1.unique == g.unique
        }),
{
    let space = addr.base->0;
    let lo = addr.offset as int;
    let site = entry_site(g, space);
    let plan = plan_for(g, size, addr);
    let n = plan.len() as int;
    lemma_overlapping_plan_fits(g, size, addr);
    lemma_inputs_numbered(g);
    lemma_overlapping_plan_single(inputs_of(g), size, addr);
    law_overlapping_plan_segments(inputs_of(g), size, addr);
    lemma_composed(g, plan, size, addr);
    lemma_laid_trace(g, plan, site, n);
    let (g1, tiles) = laid_for(g, size, addr);
    let order = order_for(g, size, addr);
    let whole = place_vn(space, lo, size);
    lemma_joined_trace(g1, order, n, whole, site);
    let h = rebuild_outcome(g, size, addr).0;
    assert forall|i: int| 0 <= i < n implies tile_laid(
        g,
        h,
        space,
        plan[i],
        (#[trigger] tiles[i]).id,
    ) by {
        lemma_tile_laid_grown(g, g1, h, space, plan[i], tiles[i].id);
    }
    assert forall|k: int| g.ops.len() <= k < g1.ops.len() implies (#[trigger] h.ops[k]).code
        == OpCode::CPUI_SUBPIECE && h.ops[k].output is Some && among(
        tiles,
        h.ops[k].output->0,
    ) by {
        assert(h.ops[k] == g1.ops[k]);
    }
    assert forall|u: int| g.varnodes.len() <= u < g1.varnodes.len() implies (
    #[trigger] h.varnodes[u]) is Some && (among(tiles, u) || (h.vn(u).origin == Origin::Constant
        && counted(h, g.ops.len() as int, u))) by {
        assert(h.varnodes[u] == g1.varnodes[u]);
        if !among(tiles, u) {
            let k = choose|k: int|
                g.ops.len() <= k < g1.ops.len() && (#[trigger] g1.ops[k]).inputs.len() == 2
                    && g1.ops[k].inputs[1] == Some(u);
            assert(h.ops[k] == g1.ops[k]);
        }
    }
}

/// Rebuilding a value keeps the function sound and leaves all that there was as it was.
pub proof fn law_rebuild_keeps(g: Graph, size: int, addr: Address)
    requires
        g.linked(),
        0 < size <= i32::MAX,
        rebuild_outcome(g, size, addr).1 is Some,
    ensures
        ({
            let h = rebuild_outcome(g, size, addr).0;
            &&& h.linked()
            &&& g.wf() ==> h.wf()
            &&& g.varnodes.len() <= h.varnodes.len()
            &&& g.ops.len() <= h.ops.len()
            &&& forall|v: int|
                0 <= v < g.varnodes.len() ==> #[trigger] h.varnodes[v] == g.varnodes[v]
            &&& forall|k: int| 0 <= k < g.ops.len() ==> #[trigger] h.ops[k] == g.ops[k]
            &&& h.start == g.start
            &&& h.address == g.address
            &&& h.constant == g.constant
            &&& h.unique == g.unique
        }),
{
    lemma_rebuilt(g, size, addr);
}

/// The output of an added slice, and the part that it stands for.
proof fn lemma_slice_part(g: Graph, size: int, addr: Address, k: int) -> (i: int)
    requires
        g.linked(),
        0 < size <= i32::MAX,
        rebuild_outcome(g, size, addr).1 is Some,
        g.ops.len() <= k < laid_for(g, size, addr).0.ops.len(),
    ensures
        ({
            let h = rebuild_outcome(g, size, addr).0;
            let plan = plan_for(g, size, addr);
            let tiles = laid_for(g, size, addr).1;
            let out = h.ops[k].output->0;
            &&& 0 <= i < plan.len()
            &&& tiles[i].id == out
            &&& plan[i].source matches Some(src) && slices(h, k, src.id) && !(plan[i].off == src.lo
                && plan[i].off + plan[i].size == src.hi)
            &&& out >= g.varnodes.len()
            &&& h.vn(out) == (Vn {
                base: addr.base,
                offset: plan[i].off,
                size: plan[i].size,
                origin: Origin::Written(k),
                write_mask: false,
            })
        }),
{
    let h = rebuild_outcome(g, size, addr).0;
    let plan = plan_for(g, size, addr);
    let (g1, tiles) = laid_for(g, size, addr);
    lemma_rebuilt(g, size, addr);
    assert(h.ops[k].code == OpCode::CPUI_SUBPIECE);
    let out = h.ops[k].output->0;
    let i = choose|i: int| 0 <= i < tiles.len() && (#[trigger] tiles[i]).id == out;
    assert(h.live(out) && h.vn(out).origin == Origin::Written(k));
    assert(tile_laid(g, h, addr.base->0, plan[i], tiles[i].id));
    assert(segment_fits(g, addr.base->0, plan[i]));
    if let Some(src) = plan[i].source {
        assert(h.varnodes[src.id] == g.varnodes[src.id]);
        assert(g.is_input(src.id));
    }
    i
}

/// An input that was added is a hole of the plan.
proof fn lemma_hole_part(g: Graph, size: int, addr: Address, u: int) -> (i: int)
    requires
        g.linked(),
        0 < size <= i32::MAX,
        rebuild_outcome(g, size, addr).1 is Some,
        u >= g.varnodes.len(),
        rebuild_outcome(g, size, addr).0.is_input(u),
    ensures
        ({
            let h = rebuild_outcome(g, size, addr).0;
            let plan = plan_for(g, size, addr);
            &&& 0 <= i < plan.len()
            &&& plan[i].source is None
            &&& h.vn(u) == (Vn {
                base: addr.base,
                offset: plan[i].off,
                size: plan[i].size,
                origin: Origin::Input,
                write_mask: false,
            })
        }),
{
    let h = rebuild_outcome(g, size, addr).0;
    let plan = plan_for(g, size, addr);
    let space = addr.base->0;
    let (g1, tiles) = laid_for(g, size, addr);
    let order = order_for(g, size, addr);
    lemma_rebuilt(g, size, addr);
    if u >= g1.varnodes.len() {
        let j = u - g1.varnodes.len() + 1;
        assert(join_made(
            g1,
            h,
            order,
            j,
            place_vn(space, addr.offset as int, size),
            g.address,
            space.big_endian,
        ));
    }
    assert(h.varnodes[u] is Some);
    let i = choose|i: int| 0 <= i < tiles.len() && (#[trigger] tiles[i]).id == u;
    assert(tile_laid(g, h, space, plan[i], tiles[i].id));
    assert(segment_fits(g, space, plan[i]));
    i
}

/// The inputs that rebuilding a value adds are live ones: renaming does not pass them
/// over.  They have bytes, lie in the request, and none of them ends where another
/// starts: each takes up a whole gap between the inputs that there were.
pub proof fn law_rebuild_inputs(g: Graph, size: int, addr: Address)
    requires
        g.linked(),
        0 < size <= i32::MAX,
        rebuild_outcome(g, size, addr).1 is Some,
    ensures
        ({
            let h = rebuild_outcome(g, size, addr).0;
            &&& forall|u: int|
                u >= g.varnodes.len() && #[trigger] h.is_input(u) ==> {
                    &&& !h.vn(u).write_mask
                    &&& h.vn(u).size > 0
                    &&& inside(h.vn(u), size, addr)
                }
            &&& forall|u: int, w: int|
                u >= g.varnodes.len() && w >= g.varnodes.len() && #[trigger] h.is_input(u)
                    && #[trigger] h.is_input(w) ==> h.vn(u).offset + h.vn(u).size != h.vn(w).offset
        }),
{
    let h = rebuild_outcome(g, size, addr).0;
    let plan = plan_for(g, size, addr);
    let lo = addr.offset as int;
    lemma_rebuilt(g, size, addr);
    assert forall|u: int| u >= g.varnodes.len() && #[trigger] h.is_input(u) implies {
        &&& !h.vn(u).write_mask
        &&& h.vn(u).size > 0
        &&& inside(h.vn(u), size, addr)
    } by {
        let i = lemma_hole_part(g, size, addr, u);
        lemma_tiles_inside(plan, lo, lo + size, i);
    }
    assert forall|u: int, w: int|
        u >= g.varnodes.len() && w >= g.varnodes.len() && #[trigger] h.is_input(u)
            && #[trigger] h.is_input(w) implies h.vn(u).offset + h.vn(u).size
        != h.vn(w).offset by {
        let i = lemma_hole_part(g, size, addr, u);
        let j = lemma_hole_part(g, size, addr, w);
        assert(plan[i].size > 0 && plan[j].size > 0);
        if j < i {
            lemma_tiles_ordered(plan, lo, lo + size, j, i);
        } else if j > i + 1 {
            lemma_tiles_ordered(plan, lo, lo + size, i, i + 1);
            lemma_tiles_ordered(plan, lo, lo + size, i + 1, j);
            assert(plan[i + 1].size > 0);
        } else if j == i + 1 {
            assert(plan[i].source is Some || plan[j].source is Some);
        }
    }
}

/// Every name that rebuilding a value gives out is that of a varnode: an input, the
/// output of an operation that was added, or a constant that one of those counts with.
pub proof fn law_rebuild_varnodes(g: Graph, size: int, addr: Address)
    requires
        g.linked(),
        0 < size <= i32::MAX,
        rebuild_outcome(g, size, addr).1 is Some,
    ensures
        ({
            let h = rebuild_outcome(g, size, addr).0;
            forall|u: int|
                g.varnodes.len() <= u < h.varnodes.len() ==> {
                    &&& #[trigger] h.live(u)
                    &&& {
                        ||| h.vn(u).origin == Origin::Input
                        ||| h.vn(u).origin is Written && g.ops.len()
                            <= h.vn(u).origin->Written_0 < h.ops.len()
                        ||| h.vn(u).origin == Origin::Constant && counted(
                            h,
                            g.ops.len() as int,
                            u,
                        )
                    }
                }
        }),
{
    let h = rebuild_outcome(g, size, addr).0;
    let plan = plan_for(g, size, addr);
    let space = addr.base->0;
    let (g1, tiles) = laid_for(g, size, addr);
    let order = order_for(g, size, addr);
    lemma_rebuilt(g, size, addr);
    assert forall|u: int| g.varnodes.len() <= u < h.varnodes.len() implies {
        &&& #[trigger] h.live(u)
        &&& {
            ||| h.vn(u).origin == Origin::Input
            ||| h.vn(u).origin is Written && g.ops.len() <= h.vn(u).origin->Written_0
                < h.ops.len()
            ||| h.vn(u).origin == Origin::Constant && counted(h, g.ops.len() as int, u)
        }
    } by {
        if u < g1.varnodes.len() {
            assert(h.varnodes[u] is Some);
            if among(tiles, u) {
                let i = choose|i: int| 0 <= i < tiles.len() && (#[trigger] tiles[i]).id == u;
                assert(tile_laid(g, h, space, plan[i], tiles[i].id));
                assert(segment_fits(g, space, plan[i]));
            }
        } else {
            let j = u - g1.varnodes.len() + 1;
            assert(join_made(
                g1,
                h,
                order,
                j,
                place_vn(space, addr.offset as int, size),
                g.address,
                space.big_endian,
            ));
        }
    }
}

/// Whether an operation slices an input that there was down to the bytes that it has in
/// the request: the output stands at those bytes.
pub open spec fn slice_right(g: Graph, h: Graph, size: int, addr: Address, k: int) -> bool {
    let s = h.ops[k].inputs[0]->0;
    let out = h.vn(h.ops[k].output->0);
    let src = g.vn(s);
    &&& slices(h, k, s)
    &&& in_the_way(g, size, addr, s)
    &&& !inside(src, size, addr)
    &&& h.ops[k].output->0 >= g.varnodes.len()
    &&& !out.write_mask
    &&& out.base == addr.base
    &&& out.offset == (if src.offset < addr.offset {
        addr.offset as int
    } else {
        src.offset
    })
    &&& out.offset + out.size == (if src.offset + src.size > addr.offset + size {
        addr.offset + size
    } else {
        src.offset + src.size
    })
}

/// An added slice comes before the joins.
proof fn lemma_slice_early(g: Graph, size: int, addr: Address, k: int)
    requires
        g.linked(),
        0 < size <= i32::MAX,
        rebuild_outcome(g, size, addr).1 is Some,
        g.ops.len() <= k < rebuild_outcome(g, size, addr).0.ops.len(),
        rebuild_outcome(g, size, addr).0.ops[k].code == OpCode::CPUI_SUBPIECE,
    ensures
        k < laid_for(g, size, addr).0.ops.len(),
{
    if k >= laid_for(g, size, addr).0.ops.len() {
        lemma_join_at(g, size, addr, k);
    }
}

/// An added slice cuts what it should.
proof fn lemma_slice_right(g: Graph, size: int, addr: Address, k: int)
    requires
        g.linked(),
        0 < size <= i32::MAX,
        rebuild_outcome(g, size, addr).1 is Some,
        g.ops.len() <= k < rebuild_outcome(g, size, addr).0.ops.len(),
        rebuild_outcome(g, size, addr).0.ops[k].code == OpCode::CPUI_SUBPIECE,
    ensures
        slice_right(g, rebuild_outcome(g, size, addr).0, size, addr, k),
{
    let inputs = inputs_of(g);
    let plan = plan_for(g, size, addr);
    let lo = addr.offset as int;
    let hi = lo + size;
    lemma_rebuilt(g, size, addr);
    law_overlapping_plan_segments(inputs, size, addr);
    lemma_slice_early(g, size, addr, k);
    let i = lemma_slice_part(g, size, addr, k);
    assert(plan[i].size > 0 && segment_fits(g, addr.base->0, plan[i]));
    let q = choose|q: int|
        0 <= q < inputs.len() && (#[trigger] inputs[q]).vn.base == addr.base && takes(
            plan[i],
            inputs[q],
            lo,
            hi,
        );
    assert(takes(plan[i], inputs[q], lo, hi));
}

/// An input that lies in part outside the request is sliced.
proof fn lemma_slice_there(g: Graph, size: int, addr: Address, v: int) -> (k: int)
    requires
        g.linked(),
        0 < size <= i32::MAX,
        rebuild_outcome(g, size, addr).1 is Some,
        in_the_way(g, size, addr, v),
        !inside(g.vn(v), size, addr),
    ensures
        ({
            let h = rebuild_outcome(g, size, addr).0;
            &&& g.ops.len() <= k < h.ops.len()
            &&& h.ops[k].code == OpCode::CPUI_SUBPIECE
            &&& h.ops[k].inputs[0] == Some(v)
        }),
{
    let h = rebuild_outcome(g, size, addr).0;
    let inputs = inputs_of(g);
    let plan = plan_for(g, size, addr);
    let lo = addr.offset as int;
    let hi = lo + size;
    let tiles = laid_for(g, size, addr).1;
    lemma_rebuilt(g, size, addr);
    law_overlapping_plan_segments(inputs, size, addr);
    lemma_input_listed(g, v);
    let q = choose|q: int|
        0 <= q < inputs.len() && #[trigger] inputs[q] == (In { id: v, vn: g.vn(v) });
    let i = choose|i: int| 0 <= i < plan.len() && takes(#[trigger] plan[i], inputs[q], lo, hi);
    assert(tile_laid(g, h, addr.base->0, plan[i], tiles[i].id));
    h.vn(tiles[i].id).origin->Written_0
}

/// No input is sliced twice.
proof fn lemma_slice_single(g: Graph, size: int, addr: Address, k: int, l: int)
    requires
        g.linked(),
        0 < size <= i32::MAX,
        rebuild_outcome(g, size, addr).1 is Some,
        g.ops.len() <= k < rebuild_outcome(g, size, addr).0.ops.len(),
        g.ops.len() <= l < rebuild_outcome(g, size, addr).0.ops.len(),
        rebuild_outcome(g, size, addr).0.ops[k].code == OpCode::CPUI_SUBPIECE,
        rebuild_outcome(g, size, addr).0.ops[l].code == OpCode::CPUI_SUBPIECE,
        rebuild_outcome(g, size, addr).0.ops[k].inputs[0] == rebuild_outcome(
            g,
            size,
            addr,
        ).0.ops[l].inputs[0],
    ensures
        k == l,
{
    let plan = plan_for(g, size, addr);
    lemma_rebuilt(g, size, addr);
    lemma_slice_early(g, size, addr, k);
    lemma_slice_early(g, size, addr, l);
    let i = lemma_slice_part(g, size, addr, k);
    let j = lemma_slice_part(g, size, addr, l);
    if i < j {
        assert(plan[i].source->0.id != plan[j].source->0.id);
    } else if j < i {
        assert(plan[j].source->0.id != plan[i].source->0.id);
    }
}

/// The slices that rebuilding a value adds: each cuts an input that lies in part outside
/// the request down to the bytes that it has in the request, and stands at those bytes.
/// Each such input is sliced, and by one operation.
pub proof fn law_rebuild_slices(g: Graph, size: int, addr: Address)
    requires
        g.linked(),
        0 < size <= i32::MAX,
        rebuild_outcome(g, size, addr).1 is Some,
    ensures
        ({
            let h = rebuild_outcome(g, size, addr).0;
            &&& forall|k: int|
                g.ops.len() <= k < h.ops.len() && h.ops[k].code == OpCode::CPUI_SUBPIECE
                    ==> #[trigger] slice_right(g, h, size, addr, k)
            &&& forall|v: int| #[trigger]
                in_the_way(g, size, addr, v) && !inside(g.vn(v), size, addr) ==> exists|k: int|
                    g.ops.len() <= k < h.ops.len() && (#[trigger] h.ops[k]).code
                        == OpCode::CPUI_SUBPIECE && h.ops[k].inputs[0] == Some(v)
            &&& forall|k: int, l: int|
                g.ops.len() <= k < h.ops.len() && g.ops.len() <= l < h.ops.len() && (
                #[trigger] h.ops[k]).code == OpCode::CPUI_SUBPIECE && (#[trigger] h.ops[l]).code
                    == OpCode::CPUI_SUBPIECE && h.ops[k].inputs[0] == h.ops[l].inputs[0] ==> k == l
        }),
{
    let h = rebuild_outcome(g, size, addr).0;
    assert forall|k: int|
        g.ops.len() <= k < h.ops.len() && h.ops[k].code
            == OpCode::CPUI_SUBPIECE implies #[trigger] slice_right(g, h, size, addr, k) by {
        lemma_slice_right(g, size, addr, k);
    }
    assert forall|v: int| #[trigger]
        in_the_way(g, size, addr, v) && !inside(g.vn(v), size, addr) implies exists|k: int|
        g.ops.len() <= k < h.ops.len() && (#[trigger] h.ops[k]).code == OpCode::CPUI_SUBPIECE
            && h.ops[k].inputs[0] == Some(v) by {
        let k = lemma_slice_there(g, size, addr, v);
        assert(h.ops[k].inputs[0] == Some(v));
    }
    assert forall|k: int, l: int|
        g.ops.len() <= k < h.ops.len() && g.ops.len() <= l < h.ops.len() && (
        #[trigger] h.ops[k]).code == OpCode::CPUI_SUBPIECE && (#[trigger] h.ops[l]).code
            == OpCode::CPUI_SUBPIECE && h.ops[k].inputs[0] == h.ops[l].inputs[0] implies k
        == l by {
        lemma_slice_single(g, size, addr, k, l);
    }
}

/// A later operation is a join.
proof fn lemma_join_at(g: Graph, size: int, addr: Address, k: int)
    requires
        g.linked(),
        0 < size <= i32::MAX,
        rebuild_outcome(g, size, addr).1 is Some,
        laid_for(g, size, addr).0.ops.len() <= k < rebuild_outcome(g, size, addr).0.ops.len(),
    ensures
        ({
            let (g1, tiles) = laid_for(g, size, addr);
            let order = order_for(g, size, addr);
            let h = rebuild_outcome(g, size, addr).0;
            let j = k - g1.ops.len() + 1;
            &&& 1 <= j < order.len()
            &&& h.ops[k].code == OpCode::CPUI_PIECE
            &&& join_made(
                g1,
                h,
                order,
                j,
                place_vn(addr.base->0, addr.offset as int, size),
                g.address,
                addr.base->0.big_endian,
            )
        }),
{
    lemma_rebuilt(g, size, addr);
    let (g1, tiles) = laid_for(g, size, addr);
    let h = rebuild_outcome(g, size, addr).0;
    let j = k - g1.ops.len() + 1;
    assert(join_made(
        g1,
        h,
        order_for(g, size, addr),
        j,
        place_vn(addr.base->0, addr.offset as int, size),
        g.address,
        addr.base->0.big_endian,
    ));
}

/// Whether a varnode holds a part of the request as it is: an input, or the output of a
/// slice that was added before.
pub open spec fn is_part(g: Graph, h: Graph, size: int, addr: Address, k: int, v: int) -> bool {
    let l = h.vn(v).origin->Written_0;
    &&& h.live(v)
    &&& inside(h.vn(v), size, addr)
    &&& h.is_input(v) || {
        &&& h.vn(v).origin is Written
        &&& g.ops.len() <= l < k
        &&& h.ops[l].code == OpCode::CPUI_SUBPIECE
    }
}

/// The parts in the order of significance are parts of the request.
proof fn lemma_order_part(g: Graph, size: int, addr: Address, j: int)
    requires
        g.linked(),
        0 < size <= i32::MAX,
        rebuild_outcome(g, size, addr).1 is Some,
        0 <= j < order_for(g, size, addr).len(),
    ensures
        ({
            let (g1, tiles) = laid_for(g, size, addr);
            let t = order_for(g, size, addr)[j];
            let h = rebuild_outcome(g, size, addr).0;
            &&& is_part(g, h, size, addr, g1.ops.len() as int, t.id)
            &&& h.vn(t.id).offset == t.off
            &&& h.vn(t.id).size == t.size
        }),
{
    let (g1, tiles) = laid_for(g, size, addr);
    let plan = plan_for(g, size, addr);
    let order = order_for(g, size, addr);
    let h = rebuild_outcome(g, size, addr).0;
    let space = addr.base->0;
    let lo = addr.offset as int;
    lemma_rebuilt(g, size, addr);
    let i = if space.big_endian {
        j
    } else {
        plan.len() - 1 - j
    };
    let v = tiles[i].id;
    assert(order[j] == tiles[i]);
    assert(tile_laid(g, g1, space, plan[i], v));
    assert(tile_laid(g, h, space, plan[i], v));
    assert(segment_fits(g, space, plan[i]));
    assert(h.varnodes[v] == g1.varnodes[v]);
    lemma_tiles_inside(plan, lo, lo + size, i);
    if let Some(src) = plan[i].source {
        assert(h.varnodes[src.id] == g.varnodes[src.id]);
    }
}

/// Whether the operation is a join that was added.
pub open spec fn is_join(g: Graph, h: Graph, k: int) -> bool {
    g.ops.len() <= k < h.ops.len() && h.ops[k].code == OpCode::CPUI_PIECE
}

/// Whether an operation joins what it should: the second operand is a part of the request
/// that is next to what the first one holds, on the less significant side.  The first one
/// is the output of the join before; of the first join, the most significant part.  The
/// last join writes the request, each other one a temporary.
pub open spec fn join_right(
    g: Graph,
    h: Graph,
    size: int,
    addr: Address,
    answer: int,
    k: int,
) -> bool {
    let op = h.ops[k];
    let a = op.inputs[0]->0;
    let b = op.inputs[1]->0;
    let out = op.output->0;
    let be = addr.base->0.big_endian;
    &&& op.addr == g.address
    &&& op.inputs.len() == 2
    &&& op.inputs[0] is Some
    &&& op.inputs[1] is Some
    &&& op.output is Some
    &&& h.live(a)
    &&& h.live(out)
    &&& out >= g.varnodes.len()
    &&& !h.vn(out).write_mask
    &&& h.vn(out).size == h.vn(a).size + h.vn(b).size
    &&& is_part(g, h, size, addr, k, b)
    &&& be ==> h.vn(b).offset == addr.offset + h.vn(a).size
    &&& !be ==> h.vn(b).offset + h.vn(b).size == addr.offset + size - h.vn(a).size
    &&& if is_join(g, h, k - 1) {
        op.inputs[0] == h.ops[k - 1].output
    } else {
        &&& is_part(g, h, size, addr, k, a)
        &&& be ==> h.vn(a).offset == addr.offset
        &&& !be ==> h.vn(a).offset + h.vn(a).size == addr.offset + size
    }
    &&& if k == h.ops.len() - 1 {
        &&& out == answer
        &&& h.vn(out).base == addr.base
        &&& h.vn(out).offset == addr.offset
        &&& h.vn(out).size == size
    } else {
        &&& is_join(g, h, k + 1)
        &&& h.vn(out).base == Some(g.unique)
    }
}

/// A join joins what it should.
#[verifier::spinoff_prover]
#[verifier::rlimit(40)]
proof fn lemma_join_right(g: Graph, size: int, addr: Address, k: int)
    requires
        g.linked(),
        0 < size <= i32::MAX,
        rebuild_outcome(g, size, addr).1 is Some,
        is_join(g, rebuild_outcome(g, size, addr).0, k),
    ensures
        join_right(
            g,
            rebuild_outcome(g, size, addr).0,
            size,
            addr,
            rebuild_outcome(g, size, addr).1->0,
            k,
        ),
{
    let (h, answer) = rebuild_outcome(g, size, addr);
    let (g1, tiles) = laid_for(g, size, addr);
    let order = order_for(g, size, addr);
    let space = addr.base->0;
    let be = space.big_endian;
    let n = order.len() as int;
    lemma_rebuilt(g, size, addr);
    let j = k - g1.ops.len() + 1;
    let u = g1.varnodes.len() + j - 1;
    assert(k >= g1.ops.len());
    lemma_join_at(g, size, addr, k);
    lemma_order_part(g, size, addr, j);
    lemma_order_part(g, size, addr, 0);
    lemma_chain_size(order, j, n, be);
    lemma_ends(g, size, addr);
    lemma_next_to(order, j, be);
    if j > 1 {
        lemma_join_at(g, size, addr, k - 1);
        assert(is_join(g, h, k - 1));
        assert(h.ops[k - 1].output == Some(u - 1));
    } else {
        assert(!is_join(g, h, k - 1)) by {
            if g.ops.len() <= k - 1 {
                assert(h.ops[k - 1].code == OpCode::CPUI_SUBPIECE);
            }
        }
    }
    if k < h.ops.len() - 1 {
        lemma_join_at(g, size, addr, k + 1);
    }
}

/// Each operation that rebuilding a value adds is a slice or a join, and the joins join
/// the parts of the request from the most significant one on.
pub proof fn law_rebuild_joins(g: Graph, size: int, addr: Address)
    requires
        g.linked(),
        0 < size <= i32::MAX,
        rebuild_outcome(g, size, addr).1 is Some,
    ensures
        ({
            let (h, answer) = rebuild_outcome(g, size, addr);
            &&& forall|k: int|
                g.ops.len() <= k < h.ops.len() ==> (#[trigger] h.ops[k]).code
                    == OpCode::CPUI_SUBPIECE || h.ops[k].code == OpCode::CPUI_PIECE
            &&& forall|k: int|
                is_join(g, h, k) ==> #[trigger] join_right(g, h, size, addr, answer->0, k)
        }),
{
    let (h, answer) = rebuild_outcome(g, size, addr);
    let (g1, tiles) = laid_for(g, size, addr);
    assert forall|k: int| g.ops.len() <= k < h.ops.len() implies (#[trigger] h.ops[k]).code
        == OpCode::CPUI_SUBPIECE || h.ops[k].code == OpCode::CPUI_PIECE by {
        if k >= g1.ops.len() {
            lemma_join_at(g, size, addr, k);
        } else {
            lemma_rebuilt(g, size, addr);
        }
    }
    assert forall|k: int| is_join(g, h, k) implies #[trigger] join_right(
        g,
        h,
        size,
        addr,
        answer->0,
        k,
    ) by {
        lemma_join_right(g, size, addr, k);
    }
}

/// The most significant part is at the one end of the request.
proof fn lemma_ends(g: Graph, size: int, addr: Address)
    requires
        g.linked(),
        0 < size <= i32::MAX,
        rebuild_outcome(g, size, addr).1 is Some,
    ensures
        ({
            let t = order_for(g, size, addr)[0];
            &&& addr.base->0.big_endian ==> t.off == addr.offset
            &&& !addr.base->0.big_endian ==> t.off + t.size == addr.offset + size
        }),
{
    let plan = plan_for(g, size, addr);
    let (g1, tiles) = laid_for(g, size, addr);
    lemma_rebuilt(g, size, addr);
    let last = plan.len() - 1;
    assert(tiles[0].off == plan[0].off && tiles[last].off == plan[last].off);
}

/// A part starts where those before it end.
proof fn lemma_next_to(order: Seq<Part>, j: int, big_endian: bool)
    requires
        chained(order, big_endian),
        1 <= j < order.len(),
    ensures
        big_endian ==> order[j].off == order[0].off + chain_size(order, j, big_endian),
        !big_endian ==> order[j].off + order[j].size == order[0].off + order[0].size - chain_size(
            order,
            j,
            big_endian,
        ),
{
    let i = j - 1;
    if big_endian {
        assert(order[i].off + order[i].size == order[j].off);
    } else {
        assert(order[j].off + order[j].size == order[i].off);
    }
}

/// Whether the temporary that a join writes is the next to be taken: it starts where the
/// one before it ends, and the first one where temporaries were to be taken next.
pub open spec fn temporary_right(g: Graph, h: Graph, k: int) -> bool {
    let out = h.vn(h.ops[k].output->0);
    let before = h.vn(h.ops[k - 1].output->0);
    out.offset == (if is_join(g, h, k - 1) {
        (before.offset + before.size) % offsets()
    } else {
        g.next_unique
    })
}

/// A join but the last takes the next temporary.
proof fn lemma_temporary_right(g: Graph, size: int, addr: Address, k: int)
    requires
        g.linked(),
        0 < size <= i32::MAX,
        rebuild_outcome(g, size, addr).1 is Some,
        is_join(g, rebuild_outcome(g, size, addr).0, k),
        k < rebuild_outcome(g, size, addr).0.ops.len() - 1,
    ensures
        temporary_right(g, rebuild_outcome(g, size, addr).0, k),
{
    let h = rebuild_outcome(g, size, addr).0;
    let (g1, tiles) = laid_for(g, size, addr);
    lemma_rebuilt(g, size, addr);
    assert(k >= g1.ops.len());
    let j = k - g1.ops.len() + 1;
    lemma_join_at(g, size, addr, k);
    if j > 1 {
        lemma_join_at(g, size, addr, k - 1);
        assert(is_join(g, h, k - 1));
    } else {
        assert(!is_join(g, h, k - 1)) by {
            if g.ops.len() <= k - 1 {
                assert(h.ops[k - 1].code == OpCode::CPUI_SUBPIECE);
            }
        }
    }
}

/// The temporaries that the joins write: the first one is the next that was to be taken,
/// each other one starts where the one before it ends, and the next one to be taken is
/// the one after the last.  Offsets wrap round.
pub proof fn law_rebuild_temporaries(g: Graph, size: int, addr: Address)
    requires
        g.linked(),
        0 < size <= i32::MAX,
        rebuild_outcome(g, size, addr).1 is Some,
    ensures
        ({
            let h = rebuild_outcome(g, size, addr).0;
            let last = h.ops.len() - 2;
            &&& forall|k: int|
                is_join(g, h, k) && k < h.ops.len() - 1 ==> #[trigger] temporary_right(g, h, k)
            &&& h.next_unique == (if is_join(g, h, last) {
                let out = h.vn(h.ops[last].output->0);
                (out.offset + out.size) % offsets()
            } else {
                g.next_unique
            })
        }),
{
    let h = rebuild_outcome(g, size, addr).0;
    let (g1, tiles) = laid_for(g, size, addr);
    let order = order_for(g, size, addr);
    let space = addr.base->0;
    let whole = place_vn(space, addr.offset as int, size);
    let n = order.len() as int;
    assert forall|k: int| is_join(g, h, k) && k < h.ops.len() - 1 implies #[trigger] temporary_right(
        g,
        h,
        k,
    ) by {
        lemma_temporary_right(g, size, addr, k);
    }
    lemma_rebuilt(g, size, addr);
    lemma_joined_trace(g1, order, n, whole, entry_site(g, space));
    let last = h.ops.len() - 2;
    if n > 2 {
        lemma_join_at(g, size, addr, last);
        assert(is_join(g, h, last));
    } else {
        assert(!is_join(g, h, last)) by {
            if g.ops.len() <= last {
                assert(last < g1.ops.len());
                assert(h.ops[last].code == OpCode::CPUI_SUBPIECE);
            }
        }
    }
}

/// Whether the output of a join does not reach the end of the space.
pub open spec fn unwrapped(h: Graph, k: int) -> bool {
    h.vn(h.ops[k].output->0).end() < offsets()
}

/// A temporary starts no earlier than the next that was to be taken.
proof fn lemma_temporary_start(g: Graph, size: int, addr: Address, k: int)
    requires
        g.linked(),
        0 < size <= i32::MAX,
        rebuild_outcome(g, size, addr).1 is Some,
        is_join(g, rebuild_outcome(g, size, addr).0, k),
        k < rebuild_outcome(g, size, addr).0.ops.len() - 1,
        forall|i: int|
            g.ops.len() <= i < k ==> #[trigger] unwrapped(rebuild_outcome(g, size, addr).0, i),
    ensures
        g.next_unique <= rebuild_outcome(g, size, addr).0.vn(
            rebuild_outcome(g, size, addr).0.ops[k].output->0,
        ).offset,
    decreases k,
{
    let h = rebuild_outcome(g, size, addr).0;
    lemma_temporary_right(g, size, addr, k);
    if is_join(g, h, k - 1) {
        lemma_temporary_start(g, size, addr, k - 1);
        lemma_temporary_step(g, size, addr, k);
    }
}

/// What a join writes has bytes.
proof fn lemma_join_sized(g: Graph, size: int, addr: Address, k: int)
    requires
        g.linked(),
        0 < size <= i32::MAX,
        rebuild_outcome(g, size, addr).1 is Some,
        is_join(g, rebuild_outcome(g, size, addr).0, k),
    ensures
        ({
            let h = rebuild_outcome(g, size, addr).0;
            h.vn(h.ops[k].output->0).size > 0
        }),
{
    let h = rebuild_outcome(g, size, addr).0;
    let (g1, tiles) = laid_for(g, size, addr);
    let order = order_for(g, size, addr);
    assert(k >= g1.ops.len() && chained(order, addr.base->0.big_endian)) by {
        lemma_rebuilt(g, size, addr);
    }
    let j = k - g1.ops.len() + 1;
    lemma_join_at(g, size, addr, k);
    lemma_chain_size(order, j + 1, order.len() as int, addr.base->0.big_endian);
}

/// A temporary starts where the one before it ends.
proof fn lemma_temporary_step(g: Graph, size: int, addr: Address, k: int)
    requires
        g.linked(),
        0 < size <= i32::MAX,
        rebuild_outcome(g, size, addr).1 is Some,
        is_join(g, rebuild_outcome(g, size, addr).0, k),
        is_join(g, rebuild_outcome(g, size, addr).0, k - 1),
        k < rebuild_outcome(g, size, addr).0.ops.len() - 1,
        unwrapped(rebuild_outcome(g, size, addr).0, k - 1),
    ensures
        ({
            let h = rebuild_outcome(g, size, addr).0;
            let before = h.vn(h.ops[k - 1].output->0);
            &&& before.size > 0
            &&& h.vn(h.ops[k].output->0).offset == before.end()
        }),
{
    let h = rebuild_outcome(g, size, addr).0;
    lemma_temporary_right(g, size, addr, k);
    lemma_join_right(g, size, addr, k - 1);
    lemma_join_sized(g, size, addr, k - 1);
    law_rebuild_keeps(g, size, addr);
    assert(h.live(h.ops[k - 1].output->0));
}

/// As long as their offsets do not wrap round, the temporaries that the joins write start
/// no earlier than the next that was to be taken, and share no storage.
pub proof fn law_rebuild_temporaries_apart(g: Graph, size: int, addr: Address, k: int, l: int)
    requires
        g.linked(),
        0 < size <= i32::MAX,
        rebuild_outcome(g, size, addr).1 is Some,
        is_join(g, rebuild_outcome(g, size, addr).0, k),
        k < l < rebuild_outcome(g, size, addr).0.ops.len() - 1,
        forall|i: int|
            g.ops.len() <= i < l ==> #[trigger] unwrapped(rebuild_outcome(g, size, addr).0, i),
    ensures
        ({
            let h = rebuild_outcome(g, size, addr).0;
            &&& g.next_unique <= h.vn(h.ops[k].output->0).offset
            &&& h.vn(h.ops[k].output->0).end() <= h.vn(h.ops[l].output->0).offset
        }),
    decreases l,
{
    let h = rebuild_outcome(g, size, addr).0;
    lemma_joins_from(g, size, addr, k, l);
    lemma_joins_from(g, size, addr, k, l - 1);
    lemma_temporary_start(g, size, addr, k);
    assert(unwrapped(h, l - 1));
    lemma_temporary_step(g, size, addr, l);
    if k < l - 1 {
        law_rebuild_temporaries_apart(g, size, addr, k, l - 1);
    }
}

/// From a join on, all operations that were added are joins.
proof fn lemma_joins_from(g: Graph, size: int, addr: Address, k: int, l: int)
    requires
        g.linked(),
        0 < size <= i32::MAX,
        rebuild_outcome(g, size, addr).1 is Some,
        is_join(g, rebuild_outcome(g, size, addr).0, k),
        k <= l < rebuild_outcome(g, size, addr).0.ops.len(),
    ensures
        is_join(g, rebuild_outcome(g, size, addr).0, l),
{
    lemma_rebuilt(g, size, addr);
    assert(k >= laid_for(g, size, addr).0.ops.len());
    lemma_join_at(g, size, addr, l);
}

/// The value that is rebuilt is held by a varnode of exactly the requested storage: by the
/// output of the last operation that was added, which renaming does not pass over.  Where
/// no operation was added, nothing was, and the request is the storage of an input.
pub proof fn law_rebuild_answer(g: Graph, size: int, addr: Address)
    requires
        g.linked(),
        0 < size <= i32::MAX,
        rebuild_outcome(g, size, addr).1 is Some,
    ensures
        ({
            let (h, answer) = rebuild_outcome(g, size, addr);
            let v = answer->0;
            &&& h.live(v)
            &&& h.vn(v).base == addr.base
            &&& h.vn(v).offset == addr.offset
            &&& h.vn(v).size == size
            &&& if h.ops.len() > g.ops.len() {
                &&& v >= g.varnodes.len()
                &&& h.vn(v).origin == Origin::Written(h.ops.len() - 1)
                &&& !h.vn(v).write_mask
            } else {
                &&& h.varnodes == g.varnodes
                &&& g.is_input(v)
            }
        }),
{
    let (h, answer) = rebuild_outcome(g, size, addr);
    let (g1, tiles) = laid_for(g, size, addr);
    let plan = plan_for(g, size, addr);
    let order = order_for(g, size, addr);
    let space = addr.base->0;
    let lo = addr.offset as int;
    let n = order.len() as int;
    let whole = place_vn(space, lo, size);
    lemma_rebuilt(g, size, addr);
    lemma_joined_trace(g1, order, n, whole, entry_site(g, space));
    if n > 1 {
        lemma_join_at(g, size, addr, h.ops.len() - 1);
    } else {
        assert(order[0] == tiles[0]);
        lemma_order_part(g, size, addr, 0);
        lemma_taken_somewhere(g, size, addr);
        assert(plan[0].source is Some);
        assert(tile_laid(g, h, space, plan[0], tiles[0].id));
        assert(segment_fits(g, space, plan[0]));
        let src = plan[0].source->0;
        if plan[0].off == src.lo && plan[0].off + plan[0].size == src.hi {
            assert(h.varnodes[src.id] == g.varnodes[src.id]);
            assert(plan.drop_last() =~= Seq::empty());
            assert(laid(g, plan.drop_last(), entry_site(g, space)).0 == g);
            assert(plan.last() == plan[0]);
            assert(g1 == g);
        } else {
            let k = h.vn(tiles[0].id).origin->Written_0;
            assert(laid(g, plan.drop_last(), entry_site(g, space)).0 == g) by {
                assert(plan.drop_last() =~= Seq::empty());
            }
            assert(plan.last() == plan[0]);
            assert(g1.ops.len() == g.ops.len() + 1);
        }
    }
}

/// Some segment of a plan takes from an input.
proof fn lemma_taken_somewhere(g: Graph, size: int, addr: Address)
    requires
        g.linked(),
        0 < size <= i32::MAX,
        rebuild_outcome(g, size, addr).1 is Some,
    ensures
        exists|i: int|
            0 <= i < plan_for(g, size, addr).len() && (#[trigger] plan_for(
                g,
                size,
                addr,
            )[i]).source is Some,
{
    let inputs = inputs_of(g);
    let plan = plan_for(g, size, addr);
    let space = addr.base->0;
    let lo = addr.offset as int;
    let hi = lo + size;
    let pieces = overlapping_pieces(inputs, space, lo, hi);
    law_overlapping_plan_tiles(inputs, size, addr);
    assert(pieces.len() > 0);
    assert(plan.contains(filled(pieces[0])));
    let i = choose|i: int| 0 <= i < plan.len() && plan[i] == filled(pieces[0]);
    assert(plan[i].source is Some);
}

/// Joining on grows the function.
proof fn lemma_joined_grows(g: Graph, order: Seq<Part>, n: int, k: int, whole: Vn, site: Site)
    requires
        g.linked(),
        g.start == Some(site.block),
        1 <= n <= k <= order.len(),
        chained(order, site.space.big_endian),
        chain_size(order, order.len() as int, site.space.big_endian) <= i32::MAX,
        whole.size == chain_size(order, order.len() as int, site.space.big_endian),
        0 <= whole.offset < offsets(),
        forall|i: int| 0 <= i < order.len() ==> g.live((#[trigger] order[i]).id),
    ensures
        grown(joined(g, order, n, whole, site).0, joined(g, order, k, whole, site).0),
    decreases k,
{
    if n < k {
        lemma_joined_grows(g, order, n, k - 1, whole, site);
        lemma_joined(g, order, k - 1, whole, site);
        lemma_joined(g, order, k, whole, site);
        let a = joined(g, order, k - 1, whole, site).0;
        let b = joined(g, order, k, whole, site).0;
        assert(grown(a, b));
        lemma_grown_trans(joined(g, order, n, whole, site).0, a, b);
    }
}

/// What the outputs hold that rebuilding a value adds.  A slice has the bytes that its own
/// storage holds when the function is entered.  A join of some bytes has those that the
/// most significant so many bytes of the request hold then.
#[verifier::spinoff_prover]
#[verifier::rlimit(40)]
pub proof fn law_rebuild_values(
    g: Graph,
    size: int,
    addr: Address,
    m: Memory,
    sem: Semantics,
    val: Valuation,
)
    requires
        g.linked(),
        0 < size <= i32::MAX,
        rebuild_outcome(g, size, addr).1 is Some,
        consistent(rebuild_outcome(g, size, addr).0, m, sem, val),
    ensures
        ({
            let h = rebuild_outcome(g, size, addr).0;
            forall|k: int|
                g.ops.len() <= k < h.ops.len() ==> {
                    let u = (#[trigger] h.ops[k]).output->0;
                    let vn = h.vn(u);
                    &&& h.ops[k].code == OpCode::CPUI_SUBPIECE ==> val(u) == entry_value_of(m, vn)
                    &&& h.ops[k].code == OpCode::CPUI_PIECE ==> val(u) == entry_value(
                        m,
                        addr.base->0,
                        if addr.base->0.big_endian {
                            addr.offset as int
                        } else {
                            addr.offset + size - vn.size
                        },
                        vn.size,
                    )
                }
        }),
{
    let h = rebuild_outcome(g, size, addr).0;
    let (g1, tiles) = laid_for(g, size, addr);
    let plan = plan_for(g, size, addr);
    let order = order_for(g, size, addr);
    let space = addr.base->0;
    let lo = addr.offset as int;
    let n = order.len() as int;
    let site = entry_site(g, space);
    let whole = place_vn(space, lo, size);
    lemma_rebuilt(g, size, addr);
    lemma_ends(g, size, addr);
    assert(plan.take(n) =~= plan);
    lemma_overlapping_plan_fits(g, size, addr);
    lemma_laid_values(g, h, plan, site, n, m, sem, val);
    assert forall|i: int| 0 <= i < n implies val((#[trigger] order[i]).id) == entry_value(
        m,
        space,
        order[i].off,
        order[i].size,
    ) by {
        let j = if space.big_endian {
            i
        } else {
            n - 1 - i
        };
        assert(order[i] == tiles[j]);
        assert(tiles[j].off == plan[j].off);
    }
    assert forall|k: int| g.ops.len() <= k < h.ops.len() implies {
        let u = (#[trigger] h.ops[k]).output->0;
        let vn = h.vn(u);
        &&& h.ops[k].code == OpCode::CPUI_SUBPIECE ==> val(u) == entry_value_of(m, vn)
        &&& h.ops[k].code == OpCode::CPUI_PIECE ==> val(u) == entry_value(
            m,
            addr.base->0,
            if addr.base->0.big_endian {
                addr.offset as int
            } else {
                addr.offset + size - vn.size
            },
            vn.size,
        )
    } by {
        if k < g1.ops.len() {
            let i = lemma_slice_part(g, size, addr, k);
            assert(tiles[i].id == h.ops[k].output->0);
        } else {
            let j = k - g1.ops.len() + 1;
            lemma_join_at(g, size, addr, k);
            lemma_joined_grows(g1, order, j + 1, n, whole, site);
            lemma_joined_value(g1, h, order, j + 1, whole, site, m, sem, val);
            lemma_joined_trace(g1, order, j + 1, whole, site);
            lemma_next_to(order, j, space.big_endian);
            lemma_chain_size(order, j, n, space.big_endian);
        }
    }
}

/// The operations that rebuilding a value adds stand exactly once where the function is
/// entered, ahead of all that stood there, each behind those that write its operands.
pub proof fn law_rebuild_placed(g: Graph, size: int, addr: Address)
    requires
        g.linked(),
        0 < size <= i32::MAX,
        rebuild_outcome(g, size, addr).1 is Some,
    ensures
        placed(g, rebuild_outcome(g, size, addr).0),
{
    let (h, answer) = rebuild_outcome(g, size, addr);
    let plan = plan_for(g, size, addr);
    lemma_rebuilt(g, size, addr);
    lemma_overlapping_plan_fits(g, size, addr);
    lemma_composed_ahead(g, plan, size, addr);
    law_rebuild_slices(g, size, addr);
    law_rebuild_joins(g, size, addr);
    let b = g.start->0;
    let m = g.ops.len() as int;
    let n = h.ops.len() - m;
    let list = h.blocks[b];
    assert(list == run(m, h.ops.len() as int) + g.blocks[b]);
    assert forall|i: int| 0 <= i < n implies #[trigger] list[i] == m + i by {}
    assert forall|i: int| 0 <= i < g.blocks[b].len() implies list[n + i]
        == #[trigger] g.blocks[b][i] by {}
    assert forall|k: int| m <= k < h.ops.len() implies #[trigger] stands_at(list, n, k) by {
        assert(list[k - m] == k);
    }
    assert forall|i: int, s: int|
        0 <= i < n && 0 <= s < h.ops[list[i]].inputs.len() && (
        #[trigger] h.ops[list[i]].inputs[s]) is Some && h.vn(
            h.ops[list[i]].inputs[s]->0,
        ).origin is Written implies stands_at(
        list,
        i,
        h.vn(h.ops[list[i]].inputs[s]->0).origin->Written_0,
    ) by {
        let k = list[i];
        let v = h.ops[k].inputs[s]->0;
        let l = h.vn(v).origin->Written_0;
        assert(k == m + i);
        if h.ops[k].code == OpCode::CPUI_SUBPIECE {
            assert(slice_right(g, h, size, addr, k));
            assert(h.varnodes[h.ops[k].inputs[0]->0] == g.varnodes[h.ops[k].inputs[0]->0]);
        } else {
            assert(is_join(g, h, k));
            assert(join_right(g, h, size, addr, answer->0, k));
            if is_join(g, h, k - 1) && s == 0 {
                assert(join_right(g, h, size, addr, answer->0, k - 1));
                assert(h.live(v) && h.vn(v).origin == Origin::Written(k - 1));
            }
        }
        assert(m <= l < k);
        assert(list[l - m] == l);
    }
}

/// A value is rebuilt exactly where the block at which the function is entered is known,
/// the end of the request and the ends of the inputs in its space are offsets, and some
/// input has a byte in the request.  Else nothing changes.
pub proof fn law_rebuild_when(g: Graph, size: int, addr: Address)
    requires
        g.wf(),
        0 < size <= i32::MAX,
    ensures
        rebuild_outcome(g, size, addr).1 is Some <==> {
            &&& g.start is Some
            &&& addr.base is Some
            &&& addr.offset + size < offsets()
            &&& forall|v: int| #[trigger]
                g.is_input(v) && g.vn(v).base == addr.base ==> g.vn(v).offset + g.vn(v).size
                    < offsets()
            &&& exists|v: int| #[trigger] in_the_way(g, size, addr, v)
        },
        rebuild_outcome(g, size, addr).1 is None ==> rebuild_outcome(g, size, addr).0 == g,
{
    let inputs = inputs_of(g);
    let lo = addr.offset as int;
    let hi = lo + size;
    lemma_inputs_apart(g);
    lemma_inputs_among(g.varnodes, g.varnodes.len() as int);
    law_overlapping_plan_exists(inputs, size, addr);
    assert forall|i: int| 0 <= i < inputs.len() implies g.is_input((#[trigger] inputs[i]).id)
        && inputs[i].vn == g.vn(inputs[i].id) && inputs[i].vn.size > 0 by {
        assert(g.live(inputs[i].id));
    }
    if let Some(space) = addr.base {
        if forall|i: int| 0 <= i < inputs.len() ==> (#[trigger] inputs[i]).ranged(space) {
            assert forall|v: int| #[trigger] g.is_input(v) && g.vn(v).base == addr.base implies g.vn(
                v,
            ).offset + g.vn(v).size < offsets() by {
                lemma_input_listed(g, v);
                let i = choose|i: int|
                    0 <= i < inputs.len() && #[trigger] inputs[i] == (In { id: v, vn: g.vn(v) });
                assert(inputs[i].ranged(space));
            }
        }
        if exists|i: int| 0 <= i < inputs.len() && (#[trigger] inputs[i]).covers(space, lo, hi) {
            let i = choose|i: int|
                0 <= i < inputs.len() && (#[trigger] inputs[i]).covers(space, lo, hi);
            assert(in_the_way(g, size, addr, inputs[i].id));
        }
        if exists|v: int| #[trigger] in_the_way(g, size, addr, v) {
            let v = choose|v: int| #[trigger] in_the_way(g, size, addr, v);
            lemma_input_listed(g, v);
            let i = choose|i: int|
                0 <= i < inputs.len() && #[trigger] inputs[i] == (In { id: v, vn: g.vn(v) });
            assert(inputs[i].covers(space, lo, hi));
        }
    }
}

/// Also where inputs have no storage, or share it, a value is rebuilt exactly where the
/// block at which the function is entered is known, the end of the request is an offset,
/// each input in its space has bytes and an end that is an offset, some input has a byte
/// of the request, and none of these is one of two inputs.  Else nothing changes.
pub proof fn law_rebuild_goes_through(g: Graph, size: int, addr: Address)
    requires
        g.linked(),
        0 < size <= i32::MAX,
    ensures
        rebuild_outcome(g, size, addr).1 is Some <==> {
            &&& g.start is Some
            &&& addr.base is Some
            &&& addr.offset + size < offsets()
            &&& forall|v: int| #[trigger]
                g.is_input(v) && g.vn(v).base == addr.base ==> g.vn(v).size > 0 && g.vn(v).offset
                    + g.vn(v).size < offsets()
            &&& exists|v: int| #[trigger] in_the_way(g, size, addr, v)
            &&& forall|u: int, v: int, b: int|
                u != v && #[trigger] has_byte(g, addr.base, b, u) && #[trigger] has_byte(
                    g,
                    addr.base,
                    b,
                    v,
                ) ==> !(addr.offset <= b < addr.offset + size)
        },
        rebuild_outcome(g, size, addr).1 is None ==> rebuild_outcome(g, size, addr).0 == g,
{
    let inputs = inputs_of(g);
    let lo = addr.offset as int;
    let hi = lo + size;
    lemma_inputs_among(g.varnodes, g.varnodes.len() as int);
    assert forall|i: int| 0 <= i < inputs.len() implies g.is_input((#[trigger] inputs[i]).id)
        && inputs[i].vn == g.vn(inputs[i].id) && inputs[i].vn.offset >= 0 by {
        assert(g.live(inputs[i].id));
    }
    law_overlapping_plan_when(inputs, size, addr);
    assert forall|i: int, b: int|
        0 <= i < inputs.len() && #[trigger] holds_byte(inputs[i], addr, b) implies has_byte(
        g,
        addr.base,
        b,
        inputs[i].id,
    ) by {}
    assert forall|v: int, b: int| #[trigger] has_byte(g, addr.base, b, v) implies exists|i: int|
        0 <= i < inputs.len() && (#[trigger] inputs[i]).id == v && holds_byte(inputs[i], addr, b) by {
        lemma_input_listed(g, v);
        let i = choose|i: int|
            0 <= i < inputs.len() && #[trigger] inputs[i] == (In { id: v, vn: g.vn(v) });
        assert(inputs[i].id == v);
    }
    if overlapping_plan(inputs, size, addr) is Some {
        assert forall|v: int| #[trigger] g.is_input(v) && g.vn(v).base == addr.base implies g.vn(
            v,
        ).size > 0 && g.vn(v).offset + g.vn(v).size < offsets() by {
            lemma_input_listed(g, v);
            let i = choose|i: int|
                0 <= i < inputs.len() && #[trigger] inputs[i] == (In { id: v, vn: g.vn(v) });
            assert(inputs[i].vn.base == addr.base);
        }
        let (k, b) = choose|k: int, b: int|
            0 <= k < inputs.len() && lo <= b < hi && #[trigger] holds_byte(inputs[k], addr, b);
        assert(in_the_way(g, size, addr, inputs[k].id));
        assert forall|u: int, v: int, b: int|
            u != v && #[trigger] has_byte(g, addr.base, b, u) && #[trigger] has_byte(
                g,
                addr.base,
                b,
                v,
            ) implies !(lo <= b < hi) by {
            let i = choose|i: int|
                0 <= i < inputs.len() && (#[trigger] inputs[i]).id == u && holds_byte(
                    inputs[i],
                    addr,
                    b,
                );
            let j = choose|j: int|
                0 <= j < inputs.len() && (#[trigger] inputs[j]).id == v && holds_byte(
                    inputs[j],
                    addr,
                    b,
                );
            assert(i != j);
            assert(holds_byte(inputs[i], addr, b) && holds_byte(inputs[j], addr, b));
        }
    }
    if exists|v: int| #[trigger] in_the_way(g, size, addr, v) {
        let v = choose|v: int| #[trigger] in_the_way(g, size, addr, v);
        if g.vn(v).size > 0 {
            let b = if lo < g.vn(v).offset {
                g.vn(v).offset
            } else {
                lo
            };
            assert(has_byte(g, addr.base, b, v));
            let i = choose|i: int|
                0 <= i < inputs.len() && (#[trigger] inputs[i]).id == v && holds_byte(
                    inputs[i],
                    addr,
                    b,
                );
            assert(holds_byte(inputs[i], addr, b));
        }
    }
    if forall|u: int, v: int, b: int|
        u != v && #[trigger] has_byte(g, addr.base, b, u) && #[trigger] has_byte(
            g,
            addr.base,
            b,
            v,
        ) ==> !(lo <= b < hi) {
        assert forall|i: int, j: int, b: int|
            0 <= i < j < inputs.len() && lo <= b < hi && #[trigger] holds_byte(
                inputs[i],
                addr,
                b,
            ) implies !#[trigger] holds_byte(inputs[j], addr, b) by {
            assert(inputs[i].id < inputs[j].id);
            if holds_byte(inputs[j], addr, b) {
                assert(has_byte(g, addr.base, b, inputs[i].id));
                assert(has_byte(g, addr.base, b, inputs[j].id));
            }
        }
    }
}

} // verus!
