//! What holds of every request for a value that enters the function.

use crate::address::Address;
use crate::aside::{
    lemma_composed_aside, lemma_covered_plan_aside, lemma_folded_aside, lemma_holes_filled_aside,
    lemma_inputs_set, lemma_overlapping_plan_aside, out_of_the_way, place_of,
};
use crate::fold::{
    combined, fold_outcome, folded, hi_lo, holes_filled, lemma_fold_step, lemma_line_ordered,
    parts_held, span,
};
use crate::funcdata::inputs_of;
use crate::graph::{offsets, Graph};
use crate::inputtile::{
    input_for, lemma_name_spent_inputs, name_spent, tiled_input,
};
use crate::meaning::{
    consistent, entry_value, entry_value_of, given, lemma_composed_forth, lemma_composed_value,
    lemma_consistent_live, lemma_folded_back, lemma_folded_forth, lemma_grown_back,
    lemma_grown_forth, op_holds, restored, Memory, Semantics, Valuation,
};
use crate::op::Op;
use crate::plan::{covered_pieces, covered_plan, filled, overlapping_plan, In, Seg};
use crate::rebuild::{by_significance, composed, entry_site, grown, is_whole, laid, Part};
use crate::request::{
    lemma_covered_plan_fits, lemma_input_listed, lemma_inputs_among, lemma_inputs_apart,
    lemma_inputs_numbered,
    lemma_overlapping_plan_fits, place_vn, plan_fits, requested, segment_fits,
};
use crate::shape::{
    among, behind, blocks_behind, lemma_blocks_behind_trans, lemma_composed,
    lemma_composed_ahead, lemma_folded, lemma_folded_uncut, lemma_grown_trans,
    lemma_holes_filled, lemma_joined, ops_ahead, reads_apart, run,
};
use crate::soundness::{lemma_add_varnode, lemma_input_at, lemma_input_at_unique};
use crate::tiling::{
    law_covered_plan_exists, law_covered_plan_tiles, law_overlapping_plan_exists,
    lemma_parts_hold, lemma_tiles_cover, lemma_tiles_inside,
};
use crate::varnode::{Origin, Vn};
use vstd::prelude::*;

verus! {

/// A spent name leaves the function sound.
pub proof fn lemma_name_spent(g: Graph)
    requires
        g.linked(),
    ensures
        name_spent(g).linked(),
        g.wf() ==> name_spent(g).wf(),
        grown(g, name_spent(g)),
{
    let h = name_spent(g);
    assert forall|v: int| #[trigger] h.live(v) <==> g.live(v) by {}
    assert forall|v: int| #[trigger] h.live(v) implies h.vn(v) == g.vn(v) by {}
    assert forall|v: int| #[trigger] h.is_input(v) <==> g.is_input(v) by {
        assert(h.live(v) <==> g.live(v));
    }
    assert(h.varnodes_sound());
    assert(g.wf() ==> h.sized() && h.inputs_disjoint());
    assert(h.reads_sound());
    assert(h.writes_sound()) by {
        assert forall|k: int| 0 <= k < h.ops.len() && (#[trigger] h.ops[k]).output is Some implies {
            let v = h.ops[k].output->0;
            h.live(v) && h.vn(v).origin == Origin::Written(k)
        } by {
            assert(g.ops[k].output is Some);
            assert(h.live(g.ops[k].output->0));
        }
        assert forall|v: int| #[trigger] h.live(v) && h.vn(v).origin is Written implies {
            let k = h.vn(v).origin->Written_0;
            0 <= k < h.ops.len() && h.ops[k].output == Some(v)
        } by {
            assert(g.live(v));
        }
    }
    assert(h.blocks_sound());
}

/// What a fold makes of the function.
pub proof fn lemma_fold_outcome(g: Graph, size: int, addr: Address)
    requires
        g.linked(),
        0 < size <= i32::MAX,
        covered_plan(inputs_of(g), size, addr) is Some,
    ensures
        addr.base is Some,
        ({
            let space = addr.base->0;
            let lo = addr.offset as int;
            let plan = covered_plan(inputs_of(g), size, addr)->0;
            let (g2, tiles) = holes_filled(g, plan, space);
            let (h, answer) = combined(g, plan, addr);
            &&& g2.linked()
            &&& g.wf() ==> g2.wf() && h.wf()
            &&& grown(g, g2)
            &&& g2 == (Graph { varnodes: g2.varnodes, ..g })
            &&& parts_held(g2, tiles, space)
            &&& tiles.len() == plan.len()
            &&& tiles[0].off == lo
            &&& span(tiles) == size
            &&& (h, answer) == folded(g2, tiles, space.big_endian)
            &&& h.linked()
            &&& answer is None ==> g.start is None
            &&& answer matches Some(v) ==> h.is_input_at(v, addr.base, lo, size)
            &&& forall|u: int| #[trigger]
                g2.live(u) && !among(tiles, u) ==> h.live(u) && h.vn(u) == g2.vn(u)
            &&& forall|u: int| #[trigger]
                among(tiles, u) && u < g.varnodes.len() ==> {
                    &&& g.is_input(u)
                    &&& g.vn(u).write_mask
                    &&& g.vn(u).base == addr.base
                    &&& lo <= g.vn(u).offset
                    &&& g.vn(u).end() <= lo + size
                }
            &&& forall|i: int|
                0 <= i < tiles.len() ==> match plan[i].source {
                    Some(src) => (#[trigger] tiles[i]).id == src.id && g.live(src.id),
                    None => tiles[i].id >= g.varnodes.len(),
                }
        }),
{
    let space = addr.base->0;
    let lo = addr.offset as int;
    let plan = covered_plan(inputs_of(g), size, addr)->0;
    let n = plan.len() as int;
    lemma_covered_plan_fits(g, size, addr);
    assert(plan.take(n) =~= plan);
    assert forall|i: int| 0 <= i < plan.len() && (#[trigger] plan[i]).source is Some implies is_whole(
        plan[i],
        plan[i].source->0,
    ) by {}
    lemma_holes_filled(g, plan, space, n);
    let (g2, tiles) = holes_filled(g, plan, space);
    assert forall|i: int, j: int|
        #![trigger tiles[i], tiles[j]]
        0 <= i && j == i + 1 && j < tiles.len() implies tiles[i].off + tiles[i].size
        == tiles[j].off by {
        assert(plan[i].off + plan[i].size == plan[j].off);
    }
    assert forall|i: int| 0 <= i < tiles.len() implies (#[trigger] tiles[i]).size >= 0 by {
        assert(plan[i].size >= 0);
    }
    assert(tiles.last().off == plan.last().off);
    assert(tiles[0].off == plan[0].off);
    lemma_folded(g2, tiles, space);
    assert forall|i: int| 0 <= i < tiles.len() implies match plan[i].source {
        Some(src) => (#[trigger] tiles[i]).id == src.id && g.live(src.id),
        None => tiles[i].id >= g.varnodes.len(),
    } by {
        assert(segment_fits(g, space, plan[i]));
    }
    assert forall|u: int| #[trigger] among(tiles, u) && u < g.varnodes.len() implies {
        &&& g.is_input(u)
        &&& g.vn(u).write_mask
        &&& g.vn(u).base == addr.base
        &&& lo <= g.vn(u).offset
        &&& g.vn(u).end() <= lo + size
    } by {
        let i = choose|i: int| 0 <= i < tiles.len() && (#[trigger] tiles[i]).id == u;
        assert(plan[i].source is Some);
        assert(segment_fits(g, space, plan[i]));
        lemma_tiles_inside(plan, lo, lo + size, i);
    }
}

/// What a fold makes of the function after the name was spent.
proof fn lemma_combined(g: Graph, size: int, addr: Address)
    requires
        g.linked(),
        0 < size <= i32::MAX,
        covered_plan(inputs_of(g), size, addr) is Some,
    ensures
        addr.base is Some,
        ({
            let space = addr.base->0;
            let lo = addr.offset as int;
            let g1 = name_spent(g);
            let plan = covered_plan(inputs_of(g), size, addr)->0;
            let (g2, tiles) = holes_filled(g1, plan, space);
            let (h, answer) = combined(g1, plan, addr);
            &&& g1.linked()
            &&& g2.linked()
            &&& g.wf() ==> g1.wf() && g2.wf() && h.wf()
            &&& grown(g1, g2)
            &&& g2 == (Graph { varnodes: g2.varnodes, ..g1 })
            &&& parts_held(g2, tiles, space)
            &&& tiles.len() == plan.len()
            &&& tiles[0].off == lo
            &&& span(tiles) == size
            &&& (h, answer) == folded(g2, tiles, space.big_endian)
            &&& h.linked()
            &&& answer is None ==> g.start is None
            &&& answer matches Some(v) ==> h.is_input_at(v, addr.base, lo, size)
            &&& forall|u: int| #[trigger]
                among(tiles, u) && u < g.varnodes.len() ==> {
                    &&& g.is_input(u)
                    &&& g.vn(u).write_mask
                    &&& g.vn(u).base == addr.base
                    &&& lo <= g.vn(u).offset
                    &&& g.vn(u).end() <= lo + size
                }
        }),
{
    lemma_name_spent(g);
    lemma_name_spent_inputs(g);
    lemma_fold_outcome(name_spent(g), size, addr);
}

/// The plan of a rebuilt value fits the function after the name was spent.
proof fn lemma_composed_fits(g: Graph, size: int, addr: Address)
    requires
        g.wf(),
        0 < size <= i32::MAX,
        overlapping_plan(inputs_of(g), size, addr) is Some,
    ensures
        addr.base is Some,
        name_spent(g).wf(),
        grown(g, name_spent(g)),
        plan_fits(
            name_spent(g),
            addr.base->0,
            addr.offset as int,
            addr.offset + size,
            overlapping_plan(inputs_of(g), size, addr)->0,
        ),
{
    lemma_name_spent(g);
    lemma_name_spent_inputs(g);
    lemma_overlapping_plan_fits(name_spent(g), size, addr);
}

/// Whether a request is answered by folding inputs: some of them are in the way, and
/// there is a plan to fold them.
pub open spec fn request_folds(g: Graph, size: int, addr: Address) -> bool {
    &&& size > 0
    &&& input_for(g, size, addr) is None
    &&& g.meets_input(requested(size, addr))
    &&& covered_plan(inputs_of(g), size, addr) is Some
}

/// Whether an operation joins two inputs that make up the requested storage.
pub open spec fn joins_request(g: Graph, size: int, addr: Address, k: int) -> bool {
    exists|hi: int, lo: int|
        g.is_input(hi) && g.is_input(lo) && #[trigger] g.ops[k].joins(hi, lo) && g.adjacent(hi, lo)
            && g.joined_vn(hi, lo).is_at(addr.base, addr.offset as int, size)
}

/// Whether an operation reads an input that has a byte in the request, otherwise than by
/// joining two inputs that make up the request.  It goes on to read the same bytes only
/// if they are cut from what the inputs are folded into.
pub open spec fn needs_cut(g: Graph, size: int, addr: Address) -> bool {
    exists|k: int, v: int|
        0 <= k < g.ops.len() && #[trigger] g.ops[k].reads(v) && g.is_input(v) && g.vn(v).overlaps(
            requested(size, addr),
        ) && !joins_request(g, size, addr, k)
}

/// The inputs that have a byte in the request are among the parts that are folded.
proof fn lemma_in_the_way_folded(g: Graph, size: int, addr: Address, u: int)
    requires
        g.linked(),
        0 < size <= i32::MAX,
        covered_plan(inputs_of(g), size, addr) is Some,
        g.is_input(u),
        g.vn(u).overlaps(requested(size, addr)),
    ensures
        ({
            let plan = covered_plan(inputs_of(g), size, addr)->0;
            among(holes_filled(name_spent(g), plan, addr.base->0).1, u)
        }),
{
    let inputs = inputs_of(g);
    let space = addr.base->0;
    let lo = addr.offset as int;
    let hi = lo + size;
    let g1 = name_spent(g);
    let plan = covered_plan(inputs, size, addr)->0;
    let pred = |i: In| i.meets(space, lo, hi);
    let pieces = covered_pieces(inputs, space, lo, hi);
    let item = In { id: u, vn: g.vn(u) };
    law_covered_plan_tiles(inputs, size, addr);
    lemma_input_listed(g, u);
    let i = choose|i: int| 0 <= i < inputs.len() && #[trigger] inputs[i] == item;
    assert(g.live(u));
    assert(item.meets(space, lo, hi));
    lemma_parts_hold(inputs, pred, lo, hi, i);
    let j = choose|j: int| 0 <= j < pieces.len() && pieces[j] == item.part(lo, hi);
    assert(plan.contains(filled(pieces[j])));
    let k = choose|k: int| 0 <= k < plan.len() && plan[k] == filled(pieces[j]);
    lemma_name_spent(g);
    lemma_name_spent_inputs(g);
    lemma_covered_plan_fits(g1, size, addr);
    assert(plan.take(plan.len() as int) =~= plan);
    lemma_holes_filled(g1, plan, space, plan.len() as int);
    assert(holes_filled(g1, plan, space).1[k].id == u);
}

/// Whether the parts that are folded are the two inputs that an operation joins.
proof fn lemma_joins_request(g: Graph, size: int, addr: Address, k: int, v: int)
    requires
        g.wf(),
        0 < size <= i32::MAX,
        covered_plan(inputs_of(g), size, addr) is Some,
        0 <= k < g.ops.len(),
        g.ops[k].reads(v),
    ensures
        ({
            let plan = covered_plan(inputs_of(g), size, addr)->0;
            let be = addr.base->0.big_endian;
            let tiles = holes_filled(name_spent(g), plan, addr.base->0).1;
            let (hi, lo) = hi_lo(tiles[0], tiles[1], be);
            joins_request(g, size, addr, k) <==> tiles.len() == 2 && g.ops[k].joins(hi, lo)
        }),
{
    let plan = covered_plan(inputs_of(g), size, addr)->0;
    let space = addr.base->0;
    let start = addr.offset as int;
    let (g2, tiles) = holes_filled(name_spent(g), plan, space);
    let (hi, lo) = hi_lo(tiles[0], tiles[1], space.big_endian);
    lemma_combined(g, size, addr);
    assert forall|i: int| 0 <= i < tiles.len() implies (#[trigger] tiles[i]).size > 0 by {
        assert(g2.is_input_at(tiles[i].id, Some(space), tiles[i].off, tiles[i].size));
        assert(g2.live(tiles[i].id));
    }
    if tiles.len() == 2 && g.ops[k].joins(hi, lo) {
        lemma_fold_step(g2, tiles, space);
        assert(g.ops[k].inputs[0] == Some(hi) && g.ops[k].inputs[1] == Some(lo));
        assert(g.live(hi) && g.live(lo));
        assert(g2.varnodes[hi] == name_spent(g).varnodes[hi]);
        assert(g2.varnodes[lo] == name_spent(g).varnodes[lo]);
        assert(g.vn(hi) == g2.vn(hi) && g.vn(lo) == g2.vn(lo));
        assert(g2.is_input_at(tiles[0].id, Some(space), tiles[0].off, tiles[0].size));
        assert(g2.is_input_at(tiles[1].id, Some(space), tiles[1].off, tiles[1].size));
        assert(tiles[0].off + tiles[0].size == tiles[1].off);
        assert(g.is_input(hi) && g.is_input(lo));
        assert(g.adjacent(hi, lo));
        assert(g.joined_vn(hi, lo).is_at(addr.base, start, size));
        assert(joins_request(g, size, addr, k));
    }
    if joins_request(g, size, addr, k) {
        let (a, b) = choose|a: int, b: int|
            g.is_input(a) && g.is_input(b) && #[trigger] g.ops[k].joins(a, b) && g.adjacent(a, b)
                && g.joined_vn(a, b).is_at(addr.base, start, size);
        assert(g.live(a) && g.live(b));
        let (first, second) = if space.big_endian {
            (a, b)
        } else {
            (b, a)
        };
        lemma_in_the_way_folded(g, size, addr, first);
        lemma_in_the_way_folded(g, size, addr, second);
        let p = choose|p: int| 0 <= p < tiles.len() && (#[trigger] tiles[p]).id == first;
        let q = choose|q: int| 0 <= q < tiles.len() && (#[trigger] tiles[q]).id == second;
        assert(g2.is_input_at(tiles[p].id, Some(space), tiles[p].off, tiles[p].size));
        assert(g2.is_input_at(tiles[q].id, Some(space), tiles[q].off, tiles[q].size));
        assert(g2.varnodes[first] == name_spent(g).varnodes[first]);
        assert(g2.varnodes[second] == name_spent(g).varnodes[second]);
        let last = tiles.len() - 1;
        if p > 0 {
            lemma_line_ordered(tiles, 0, p);
        }
        if q < last {
            lemma_line_ordered(tiles, q, last);
        }
        if q > 1 {
            lemma_line_ordered(tiles, 0, 1);
            lemma_line_ordered(tiles, 1, q);
        }
        assert(p == 0 && q == 1 && last == 1);
    }
}

/// Where the block at which the function is entered is not known, a request that folds
/// inputs has an answer exactly if nothing has to be cut from their fold.
proof fn lemma_uncut(g: Graph, size: int, addr: Address)
    requires
        g.wf(),
        size <= i32::MAX,
        request_folds(g, size, addr),
        g.start is None,
    ensures
        tiled_input(g, size, addr).1 is Some <==> !needs_cut(g, size, addr),
{
    let plan = covered_plan(inputs_of(g), size, addr)->0;
    let space = addr.base->0;
    let be = space.big_endian;
    let (g2, tiles) = holes_filled(name_spent(g), plan, space);
    lemma_combined(g, size, addr);
    if tiles.len() == 1 {
        lemma_single_fold(g, size, addr);
    }
    lemma_folded_uncut(g2, tiles, space);
    assert forall|k: int, v: int|
        0 <= k < g.ops.len() && #[trigger] g.ops[k].reads(v) implies g.live(v) by {
        let s = choose|s: int|
            0 <= s < g.ops[k].inputs.len() && #[trigger] g.ops[k].inputs[s] == Some(v);
        assert(g.ops[k].inputs[s] is Some);
    }
    if needs_cut(g, size, addr) {
        let (k, v) = choose|k: int, v: int|
            0 <= k < g.ops.len() && #[trigger] g.ops[k].reads(v) && g.is_input(v) && g.vn(
                v,
            ).overlaps(requested(size, addr)) && !joins_request(g, size, addr, k);
        lemma_in_the_way_folded(g, size, addr, v);
        lemma_joins_request(g, size, addr, k, v);
        let i = choose|i: int| 0 <= i < tiles.len() && (#[trigger] tiles[i]).id == v;
        assert(reads_apart(g2, tiles, be, k, i));
    } else {
        assert forall|k: int, i: int|
            0 <= k < g2.ops.len() && 0 <= i < tiles.len() implies !(#[trigger] reads_apart(
            g2,
            tiles,
            be,
            k,
            i,
        )) by {
            let v = tiles[i].id;
            if g.ops[k].reads(v) {
                assert(g.live(v));
                assert(among(tiles, v));
                assert(g.is_input(v));
                lemma_joins_request(g, size, addr, k, v);
            }
        }
    }
}

/// Unless it folds inputs, a request only adds to the function: what there was stays
/// as it was, varnodes and operations alike.
pub proof fn law_request_only_adds(g: Graph, size: int, addr: Address)
    requires
        g.wf(),
        size <= i32::MAX,
        !request_folds(g, size, addr),
    ensures
        grown(g, tiled_input(g, size, addr).0),
{
    if size > 0 {
        if covered_plan(inputs_of(g), size, addr) is None && overlapping_plan(
            inputs_of(g),
            size,
            addr,
        ) is Some && g.start is Some {
            let plan = overlapping_plan(inputs_of(g), size, addr)->0;
            lemma_composed_fits(g, size, addr);
            lemma_composed(name_spent(g), plan, size, addr);
            lemma_grown_trans(g, name_spent(g), composed(name_spent(g), plan, size, addr).0);
        }
        if covered_plan(inputs_of(g), size, addr) is Some {
            lemma_combined(g, size, addr);
        }
    }
}

/// A request destroys nothing but inputs that renaming passes over and that lie in the
/// requested storage.  All other varnodes stay as they are: every live input survives.
pub proof fn law_live_inputs_survive(g: Graph, size: int, addr: Address, v: int)
    requires
        g.wf(),
        size <= i32::MAX,
        g.live(v),
    ensures
        ({
            let h = tiled_input(g, size, addr).0;
            ||| h.live(v) && h.vn(v) == g.vn(v)
            ||| {
                &&& g.is_input(v)
                &&& g.vn(v).write_mask
                &&& g.vn(v).base == addr.base
                &&& addr.offset <= g.vn(v).offset
                &&& g.vn(v).end() <= addr.offset + size
            }
        }),
{
    let h = tiled_input(g, size, addr).0;
    if request_folds(g, size, addr) {
        let plan = covered_plan(inputs_of(g), size, addr)->0;
        let space = addr.base->0;
        lemma_combined(g, size, addr);
        let (g2, tiles) = holes_filled(name_spent(g), plan, space);
        lemma_folded(g2, tiles, space);
        if !among(tiles, v) {
            assert(name_spent(g).varnodes[v] == g.varnodes[v]);
            assert(g2.varnodes[v] == name_spent(g).varnodes[v]);
            assert(g2.live(v));
        }
    } else {
        law_request_only_adds(g, size, addr);
        assert(h.varnodes[v] == g.varnodes[v]);
    }
}

/// The answer to a request is a varnode of exactly the requested storage: an input,
/// or the output of an operation.
pub proof fn law_answer_storage(g: Graph, size: int, addr: Address)
    requires
        g.wf(),
        size <= i32::MAX,
        tiled_input(g, size, addr).1 is Some,
    ensures
        ({
            let (h, answer) = tiled_input(g, size, addr);
            let v = answer->0;
            &&& h.live(v)
            &&& h.vn(v).is_at(addr.base, addr.offset as int, size)
            &&& h.vn(v).origin is Input || h.vn(v).origin is Written
        }),
{
    let (h, answer) = tiled_input(g, size, addr);
    let v = answer->0;
    if input_for(g, size, addr) is Some {
        lemma_input_at(g, addr.base, addr.offset as int, size);
        assert(g.is_input_at(v, addr.base, addr.offset as int, size));
        assert(h.varnodes[v] == g.varnodes[v]);
    } else if addr.base is Some && !g.meets_input(requested(size, addr)) {
    } else if covered_plan(inputs_of(g), size, addr) is Some {
        lemma_combined(g, size, addr);
    } else {
        let plan = overlapping_plan(inputs_of(g), size, addr)->0;
        lemma_composed_fits(g, size, addr);
        lemma_rebuilt_storage(name_spent(g), plan, size, addr);
    }
}

/// A rebuilt value is a varnode of exactly the requested storage.
proof fn lemma_rebuilt_storage(g: Graph, plan: Seq<Seg>, size: int, addr: Address)
    requires
        g.wf(),
        g.start is Some,
        addr.base is Some,
        plan_fits(g, addr.base->0, addr.offset as int, addr.offset + size, plan),
    ensures
        ({
            let (h, v) = composed(g, plan, size, addr);
            &&& h.live(v)
            &&& h.vn(v).is_at(addr.base, addr.offset as int, size)
            &&& h.vn(v).origin is Input || h.vn(v).origin is Written
        }),
{
    let space = addr.base->0;
    let site = entry_site(g, space);
    let n = plan.len() as int;
    lemma_composed(g, plan, size, addr);
    let (g1, tiles) = laid(g, plan, site);
    let order = by_significance(tiles, space.big_endian);
    let whole = place_vn(space, addr.offset as int, size);
    if n > 1 {
        lemma_joined(g1, order, n - 1, whole, site);
    } else {
        let seg = plan[0];
        assert(segment_fits(g, space, seg));
        assert(plan.drop_last() =~= Seq::empty());
        assert(laid(g, plan.drop_last(), site) == (g, Seq::<Part>::empty()));
        assert(order[0] == tiles[0]);
    }
}

/// The answer to a request has the value that the requested storage holds when the
/// function is entered.
pub proof fn law_answer_value(
    g: Graph,
    size: int,
    addr: Address,
    m: Memory,
    sem: Semantics,
    val: Valuation,
)
    requires
        g.wf(),
        size <= i32::MAX,
        tiled_input(g, size, addr).1 is Some,
        consistent(tiled_input(g, size, addr).0, m, sem, val),
    ensures
        addr.base is Some,
        val(tiled_input(g, size, addr).1->0) == entry_value(
            m,
            addr.base->0,
            addr.offset as int,
            size,
        ),
{
    let (h, answer) = tiled_input(g, size, addr);
    let v = answer->0;
    law_answer_storage(g, size, addr);
    if input_for(g, size, addr) is Some {
        lemma_input_at(g, addr.base, addr.offset as int, size);
        assert(g.is_input_at(v, addr.base, addr.offset as int, size));
        assert(g.is_input(v));
        assert(h.varnodes[v] == g.varnodes[v]);
        assert(h.is_input(v));
    } else if addr.base is Some && !g.meets_input(requested(size, addr)) {
        assert(h.is_input(v));
    } else if covered_plan(inputs_of(g), size, addr) is Some {
        lemma_combined(g, size, addr);
        assert(h.is_input(v));
    } else {
        let plan = overlapping_plan(inputs_of(g), size, addr)->0;
        lemma_composed_fits(g, size, addr);
        lemma_composed_value(name_spent(g), plan, size, addr, m, sem, val);
    }
}

/// A request leaves the meaning of the function as it was: a valuation that is
/// consistent with the function after it is consistent with the function before it,
/// once the inputs that were folded have the bytes that enter them.
pub proof fn law_meaning_kept(
    g: Graph,
    size: int,
    addr: Address,
    m: Memory,
    sem: Semantics,
    val: Valuation,
)
    requires
        g.wf(),
        size <= i32::MAX,
        consistent(tiled_input(g, size, addr).0, m, sem, val),
    ensures
        consistent(g, m, sem, restored(g, m, val)),
{
    let h = tiled_input(g, size, addr).0;
    if request_folds(g, size, addr) {
        let plan = covered_plan(inputs_of(g), size, addr)->0;
        let space = addr.base->0;
        lemma_combined(g, size, addr);
        let (g2, tiles) = holes_filled(name_spent(g), plan, space);
        lemma_folded_back(g2, tiles, space, m, sem, val);
        lemma_name_spent(g);
        lemma_grown_trans(g, name_spent(g), g2);
        let x = restored(g2, m, val);
        lemma_grown_back(g, g2, m, sem, x);
        assert forall|v: int| #[trigger] g.live(v) implies x(v) == restored(g, m, val)(v) by {
            assert(g2.varnodes[v] == g.varnodes[v]);
            assert(g2.is_input(v) <==> g.is_input(v));
        }
        lemma_consistent_live(g, m, sem, x, restored(g, m, val));
    } else {
        law_request_only_adds(g, size, addr);
        lemma_grown_back(g, h, m, sem, val);
        assert forall|v: int| #[trigger] g.live(v) implies val(v) == restored(g, m, val)(v) by {
            assert(g.is_input(v) || !g.is_input(v));
        }
        lemma_consistent_live(g, m, sem, val, restored(g, m, val));
    }
}

/// A request asks nothing of the values that there were: each valuation that is
/// consistent with the function before it has one that is consistent with the function
/// after it and gives the same values to the names that there were.
pub proof fn law_meaning_carried(
    g: Graph,
    size: int,
    addr: Address,
    m: Memory,
    sem: Semantics,
    val: Valuation,
) -> (after: Valuation)
    requires
        g.wf(),
        size <= i32::MAX,
        consistent(g, m, sem, val),
    ensures
        consistent(tiled_input(g, size, addr).0, m, sem, after),
        forall|v: int| 0 <= v < g.varnodes.len() ==> after(v) == #[trigger] val(v),
{
    let h = tiled_input(g, size, addr).0;
    let n = g.varnodes.len() as int;
    let vn = requested(size, addr);
    if size <= 0 {
        val
    } else if input_for(g, size, addr) is Some {
        lemma_grown_forth(g, h, m, sem, val, val);
        val
    } else if addr.base is Some && !g.meets_input(vn) {
        let b = given(val, n, entry_value_of(m, vn));
        lemma_grown_forth(g, h, m, sem, val, b);
        b
    } else {
        let g1 = name_spent(g);
        lemma_name_spent(g);
        assert forall|k: int| g.ops.len() <= k < g1.ops.len() implies #[trigger] op_holds(
            g1,
            k,
            sem,
            val,
        ) by {}
        lemma_grown_forth(g, g1, m, sem, val, val);
        if covered_plan(inputs_of(g), size, addr) is Some {
            let plan = covered_plan(inputs_of(g), size, addr)->0;
            let space = addr.base->0;
            lemma_combined(g, size, addr);
            let (g2, tiles) = holes_filled(g1, plan, space);
            let a = |v: int|
                if v < g1.varnodes.len() {
                    val(v)
                } else {
                    entry_value_of(m, g2.vn(v))
                };
            lemma_grown_forth(g1, g2, m, sem, val, a);
            let b = lemma_folded_forth(g2, tiles, space, m, sem, a);
            assert forall|v: int| 0 <= v < g.varnodes.len() implies b(v) == #[trigger] val(v) by {
                assert(b(v) == a(v));
            }
            b
        } else if overlapping_plan(inputs_of(g), size, addr) is Some && g.start is Some {
            let plan = overlapping_plan(inputs_of(g), size, addr)->0;
            lemma_composed_fits(g, size, addr);
            lemma_composed_forth(g1, plan, size, addr, m, sem, val)
        } else {
            val
        }
    }
}

/// A request keeps the function sound; in particular no two inputs share storage after
/// it, and no operation reads a varnode that was destroyed.
pub proof fn law_request_keeps_sound(g: Graph, size: int, addr: Address)
    requires
        g.wf(),
        size <= i32::MAX,
    ensures
        tiled_input(g, size, addr).0.wf(),
{
    let vn = requested(size, addr);
    if size <= 0 {
    } else if input_for(g, size, addr) is Some {
        lemma_add_varnode(g, vn);
    } else if addr.base is Some && !g.meets_input(vn) {
        let input = Vn { origin: Origin::Input, ..vn };
        assert forall|u: int| #[trigger] g.is_input(u) implies !g.vn(u).overlaps(input) by {
            assert(!g.vn(u).overlaps(vn));
        }
        lemma_add_varnode(g, input);
    } else {
        lemma_name_spent(g);
        if covered_plan(inputs_of(g), size, addr) is Some {
            lemma_combined(g, size, addr);
        } else if overlapping_plan(inputs_of(g), size, addr) is Some && g.start is Some {
            lemma_composed_fits(g, size, addr);
            lemma_composed(
                name_spent(g),
                overlapping_plan(inputs_of(g), size, addr)->0,
                size,
                addr,
            );
        }
    }
}

/// After a request was answered, every byte of the requested storage belongs to an
/// input.
pub proof fn law_request_covered(g: Graph, size: int, addr: Address, b: int)
    requires
        g.wf(),
        size <= i32::MAX,
        tiled_input(g, size, addr).1 is Some,
        addr.offset <= b < addr.offset + size,
    ensures
        exists|u: int| {
            let h = tiled_input(g, size, addr).0;
            &&& #[trigger] tiled_input(g, size, addr).0.is_input(u)
            &&& h.vn(u).base == addr.base
            &&& h.vn(u).offset <= b < h.vn(u).end()
        },
{
    let (h, answer) = tiled_input(g, size, addr);
    let v = answer->0;
    law_answer_storage(g, size, addr);
    if h.is_input(v) {
    } else if input_for(g, size, addr) is Some {
        lemma_input_at(g, addr.base, addr.offset as int, size);
        assert(g.is_input_at(v, addr.base, addr.offset as int, size));
        assert(h.varnodes[v] == g.varnodes[v]);
    } else if covered_plan(inputs_of(g), size, addr) is Some {
        lemma_combined(g, size, addr);
    } else {
        let plan = overlapping_plan(inputs_of(g), size, addr)->0;
        let space = addr.base->0;
        let lo = addr.offset as int;
        let g1 = name_spent(g);
        lemma_composed_fits(g, size, addr);
        lemma_composed(g1, plan, size, addr);
        lemma_tiles_cover(plan, lo, lo + size, b);
        let i = choose|i: int|
            0 <= i < plan.len() && (#[trigger] plan[i]).off <= b < plan[i].off + plan[i].size;
        assert(segment_fits(g1, space, plan[i]));
        let (g2, tiles) = laid(g1, plan, entry_site(g1, space));
        match plan[i].source {
            Some(src) => {
                assert(h.varnodes[src.id] == g1.varnodes[src.id]);
                assert(h.is_input(src.id));
            },
            None => {
                let u = tiles[i].id;
                assert(g2.is_input_at(u, Some(space), plan[i].off, plan[i].size));
                assert(h.varnodes[u] == g2.varnodes[u]);
                assert(h.is_input(u));
            },
        }
    }
}

/// A request that folds inputs is answered by a new input, which renaming passes over,
/// unless something has to be cut from the fold and the block where the function is
/// entered is not known.
pub proof fn law_fold_answer(g: Graph, size: int, addr: Address)
    requires
        g.wf(),
        size <= i32::MAX,
        request_folds(g, size, addr),
        g.start is Some || !needs_cut(g, size, addr),
    ensures
        ({
            let (h, answer) = tiled_input(g, size, addr);
            &&& answer is Some
            &&& answer->0 >= g.varnodes.len()
            &&& h.is_input_at(answer->0, addr.base, addr.offset as int, size)
            &&& h.vn(answer->0).write_mask
        }),
{
    let plan = covered_plan(inputs_of(g), size, addr)->0;
    let space = addr.base->0;
    let n = g.varnodes.len() as int;
    lemma_combined(g, size, addr);
    let g1 = name_spent(g);
    let (g2, tiles) = holes_filled(g1, plan, space);
    lemma_folded(g2, tiles, space);
    if tiles.len() == 1 {
        let v = tiles[0].id;
        assert(among(tiles, v));
        assert(g2.is_input_at(v, addr.base, addr.offset as int, size));
        lemma_single_fold(g, size, addr);
    }
    if g.start is None {
        lemma_uncut(g, size, addr);
    }
}

/// A fold of a single part is the input of the requested storage.
pub proof fn lemma_single_fold(g: Graph, size: int, addr: Address)
    requires
        g.linked(),
        0 < size <= i32::MAX,
        covered_plan(inputs_of(g), size, addr) is Some,
        covered_plan(inputs_of(g), size, addr)->0.len() == 1,
    ensures
        input_for(g, size, addr) is Some,
{
    let plan = covered_plan(inputs_of(g), size, addr)->0;
    let lo = addr.offset as int;
    law_covered_plan_tiles(inputs_of(g), size, addr);
    lemma_covered_plan_fits(g, size, addr);
    assert(segment_fits(g, addr.base->0, plan[0]));
    let pieces = covered_pieces(inputs_of(g), addr.base->0, lo, lo + size);
    assert(pieces.len() > 0);
    assert(plan.contains(filled(pieces[0])));
    let src = plan[0].source->0;
    assert(g.is_input_at(src.id, addr.base, lo, size));
    lemma_input_at(g, addr.base, lo, size);
}

/// No operation goes away, and each writes the varnode that it wrote.
pub proof fn law_outputs_kept(g: Graph, size: int, addr: Address)
    requires
        g.wf(),
        size <= i32::MAX,
    ensures
        ({
            let h = tiled_input(g, size, addr).0;
            &&& g.ops.len() <= h.ops.len()
            &&& forall|k: int|
                0 <= k < g.ops.len() ==> (#[trigger] h.ops[k]).output == g.ops[k].output
        }),
{
    if request_folds(g, size, addr) {
        let plan = covered_plan(inputs_of(g), size, addr)->0;
        let space = addr.base->0;
        lemma_combined(g, size, addr);
        let (g2, tiles) = holes_filled(name_spent(g), plan, space);
        lemma_folded(g2, tiles, space);
    } else {
        law_request_only_adds(g, size, addr);
    }
}

/// What stood in the blocks stays there, in order; operations are added only where the
/// function is entered, ahead of all that stood there.
pub proof fn law_ops_stay_behind(g: Graph, size: int, addr: Address)
    requires
        g.wf(),
        size <= i32::MAX,
    ensures
        blocks_behind(g, tiled_input(g, size, addr).0),
{
    let h = tiled_input(g, size, addr).0;
    if request_folds(g, size, addr) {
        let plan = covered_plan(inputs_of(g), size, addr)->0;
        let space = addr.base->0;
        lemma_combined(g, size, addr);
        let (g2, tiles) = holes_filled(name_spent(g), plan, space);
        lemma_folded(g2, tiles, space);
        assert(blocks_behind(g, g2));
        lemma_blocks_behind_trans(g, g2, h);
    } else if h.blocks == g.blocks && h.start == g.start {
    } else {
        law_rebuilt_in_order(g, size, addr);
        assert forall|c: int| 0 <= c < g.blocks.len() implies behind(
            #[trigger] g.blocks[c],
            h.blocks[c],
        ) && (Some(c) != g.start ==> h.blocks[c] == g.blocks[c]) by {}
    }
}

/// The operations that rebuild a value stand where the function is entered, in the
/// order in which they were made, ahead of all others.
pub proof fn law_rebuilt_in_order(g: Graph, size: int, addr: Address)
    requires
        g.wf(),
        size <= i32::MAX,
        !request_folds(g, size, addr),
        g.start is Some,
    ensures
        ops_ahead(g, tiled_input(g, size, addr).0),
{
    let b = g.start->0;
    if size > 0 && covered_plan(inputs_of(g), size, addr) is Some {
        lemma_combined(g, size, addr);
    }
    if size > 0 && input_for(g, size, addr) is None && (addr.base is None || g.meets_input(
        requested(size, addr),
    )) && overlapping_plan(inputs_of(g), size, addr) is Some {
        let plan = overlapping_plan(inputs_of(g), size, addr)->0;
        lemma_composed_fits(g, size, addr);
        lemma_composed_ahead(name_spent(g), plan, size, addr);
    } else {
        assert(run(g.ops.len() as int, g.ops.len() as int) + g.blocks[b] =~= g.blocks[b]);
        assert(g.blocks =~= g.blocks.update(b, g.blocks[b]));
    }
}

/// A request is answered exactly when it asks for bytes of a space and one of these
/// holds: an input has exactly that storage; no input has a byte in it; or the end of
/// the request and the ends of the inputs in the space are offsets and, besides, the
/// block where the function is entered is known, or the inputs in the way can all be
/// folded with nothing to be cut.
pub proof fn law_answered_exactly_when(g: Graph, size: int, addr: Address)
    requires
        g.wf(),
        size <= i32::MAX,
    ensures
        tiled_input(g, size, addr).1 is Some <==> {
            let vn = requested(size, addr);
            &&& size > 0
            &&& addr.base is Some
            &&& {
                ||| input_for(g, size, addr) is Some
                ||| !g.meets_input(vn)
                ||| {
                    &&& vn.end() < offsets()
                    &&& forall|v: int| #[trigger]
                        g.is_input(v) && g.vn(v).base == addr.base ==> g.vn(v).end() < offsets()
                    &&& {
                        ||| g.start is Some
                        ||| {
                            &&& !needs_cut(g, size, addr)
                            &&& forall|v: int| #[trigger]
                                g.is_input(v) && g.vn(v).overlaps(vn) ==> {
                                    &&& vn.offset <= g.vn(v).offset
                                    &&& g.vn(v).end() <= vn.end()
                                    &&& g.vn(v).write_mask
                                }
                        }
                    }
                }
            }
        },
{
    let vn = requested(size, addr);
    let inputs = inputs_of(g);
    lemma_input_at(g, addr.base, addr.offset as int, size);
    if let Some(u) = input_for(g, size, addr) {
        assert(g.is_input(u));
    }
    if size > 0 && addr.base is Some && input_for(g, size, addr) is None && g.meets_input(vn) {
        let space = addr.base->0;
        let lo = addr.offset as int;
        let hi = lo + size;
        if covered_plan(inputs, size, addr) is Some {
            lemma_combined(g, size, addr);
            if g.start is None {
                lemma_uncut(g, size, addr);
            }
        }
        lemma_inputs_apart(g);
        lemma_inputs_among(g.varnodes, g.varnodes.len() as int);
        law_covered_plan_exists(inputs, size, addr);
        law_overlapping_plan_exists(inputs, size, addr);
        assert forall|i: int| 0 <= i < inputs.len() implies g.is_input(
            (#[trigger] inputs[i]).id,
        ) && inputs[i].vn == g.vn(inputs[i].id) && inputs[i].vn.size > 0 by {
            assert(g.live(inputs[i].id));
        }
        let u = choose|u: int| #[trigger] g.is_input(u) && g.vn(u).overlaps(vn);
        lemma_input_listed(g, u);
        let k = choose|k: int|
            0 <= k < inputs.len() && #[trigger] inputs[k] == (In { id: u, vn: g.vn(u) });
        assert(g.live(u));
        assert(inputs[k].meets(space, lo, hi) && inputs[k].covers(space, lo, hi));
        let ends = forall|v: int| #[trigger]
            g.is_input(v) && g.vn(v).base == addr.base ==> g.vn(v).end() < offsets();
        let foldable = forall|v: int| #[trigger]
            g.is_input(v) && g.vn(v).overlaps(vn) ==> {
                &&& vn.offset <= g.vn(v).offset
                &&& g.vn(v).end() <= vn.end()
                &&& g.vn(v).write_mask
            };
        assert(ends <==> forall|i: int| 0 <= i < inputs.len() ==> (#[trigger] inputs[i]).ranged(
            space,
        )) by {
            if forall|i: int| 0 <= i < inputs.len() ==> (#[trigger] inputs[i]).ranged(space) {
                assert forall|v: int| #[trigger]
                    g.is_input(v) && g.vn(v).base == addr.base implies g.vn(v).end()
                    < offsets() by {
                    lemma_input_listed(g, v);
                    let i = choose|i: int|
                        0 <= i < inputs.len() && #[trigger] inputs[i] == (In {
                            id: v,
                            vn: g.vn(v),
                        });
                    assert(inputs[i].ranged(space));
                }
            }
        }
        assert(ends && foldable <==> forall|i: int|
            0 <= i < inputs.len() ==> (#[trigger] inputs[i]).foldable(space, lo, hi)) by {
            if forall|i: int|
                0 <= i < inputs.len() ==> (#[trigger] inputs[i]).foldable(space, lo, hi) {
                assert forall|v: int| #[trigger] g.is_input(v) implies (g.vn(v).base == addr.base
                    ==> g.vn(v).end() < offsets()) && (g.vn(v).overlaps(vn) ==> vn.offset <= g.vn(
                    v,
                ).offset && g.vn(v).end() <= vn.end() && g.vn(v).write_mask) by {
                    lemma_input_listed(g, v);
                    let i = choose|i: int|
                        0 <= i < inputs.len() && #[trigger] inputs[i] == (In {
                            id: v,
                            vn: g.vn(v),
                        });
                    assert(inputs[i].foldable(space, lo, hi));
                }
            }
        }
    }
}

/// A request without an answer, unless it was folding inputs, changes nothing; if it
/// asked for bytes at all, it has spent a name.
pub proof fn law_refused_unchanged(g: Graph, size: int, addr: Address)
    requires
        tiled_input(g, size, addr).1 is None,
        !request_folds(g, size, addr),
    ensures
        tiled_input(g, size, addr).0 == (if size <= 0 {
            g
        } else {
            name_spent(g)
        }),
{
}

/// A request that was answered by an input is answered by it again.
pub proof fn law_repeated_request(g: Graph, size: int, addr: Address)
    requires
        g.wf(),
        size <= i32::MAX,
        tiled_input(g, size, addr).1 is Some,
        tiled_input(g, size, addr).0.is_input(tiled_input(g, size, addr).1->0),
    ensures
        ({
            let (h, answer) = tiled_input(g, size, addr);
            tiled_input(h, size, addr).1 == answer
        }),
{
    let (h, answer) = tiled_input(g, size, addr);
    law_request_keeps_sound(g, size, addr);
    law_answer_storage(g, size, addr);
    assert(h.is_input_at(answer->0, addr.base, addr.offset as int, size));
    lemma_input_at(h, addr.base, addr.offset as int, size);
    let u = input_for(h, size, addr)->0;
    assert(h.is_input_at(u, addr.base, addr.offset as int, size));
    lemma_input_at_unique(h, u, answer->0);
}

/// The part of a source that a segment takes.
spec fn taken(seg: Seg) -> Part {
    Part { off: seg.off, size: seg.size, id: seg.source->0.id }
}

/// Whether an operation reads an input that a plan takes bytes from, otherwise than by
/// joining the two that the plan is made of.
spec fn plan_read_apart(ops: Seq<Op>, plan: Seq<Seg>, big_endian: bool, k: int, i: int) -> bool {
    let (hi, lo) = hi_lo(taken(plan[0]), taken(plan[1]), big_endian);
    &&& plan[i].source matches Some(src) && ops[k].reads(src.id)
    &&& !(plan.len() == 2 && plan[0].source is Some && plan[1].source is Some && ops[k].joins(
        hi,
        lo,
    ))
}

/// Whether a plan is carried out does not depend on how varnodes are numbered.
proof fn lemma_fold_succeeds(g: Graph, size: int, addr: Address)
    requires
        g.linked(),
        0 < size <= i32::MAX,
        covered_plan(inputs_of(g), size, addr) is Some,
    ensures
        ({
            let plan = covered_plan(inputs_of(g), size, addr)->0;
            fold_outcome(g, size, addr).1 is Some <==> {
                ||| g.start is Some
                ||| plan.len() == 1
                ||| forall|k: int, i: int|
                    0 <= k < g.ops.len() && 0 <= i < plan.len() ==> !(#[trigger] plan_read_apart(
                        g.ops,
                        plan,
                        addr.base->0.big_endian,
                        k,
                        i,
                    ))
            }
        }),
{
    let plan = covered_plan(inputs_of(g), size, addr)->0;
    let space = addr.base->0;
    let be = space.big_endian;
    let (g2, tiles) = holes_filled(g, plan, space);
    lemma_fold_outcome(g, size, addr);
    if g.start is None && plan.len() > 1 {
        let (hi, lo) = hi_lo(tiles[0], tiles[1], be);
        lemma_folded_uncut(g2, tiles, space);
        assert forall|k: int, i: int|
            0 <= k < g.ops.len() && 0 <= i < plan.len() implies (#[trigger] plan_read_apart(
            g.ops,
            plan,
            be,
            k,
            i,
        ) <==> reads_apart(g2, tiles, be, k, i)) by {
            assert forall|v: int| #[trigger] g.ops[k].reads(v) implies g.live(v) by {
                let s = choose|s: int|
                    0 <= s < g.ops[k].inputs.len() && #[trigger] g.ops[k].inputs[s] == Some(v);
                assert(g.ops[k].inputs[s] is Some);
            }
            if g.ops[k].joins(hi, lo) {
                assert(g.ops[k].inputs[0] == Some(hi) && g.ops[k].inputs[1] == Some(lo));
                assert(g.ops[k].reads(hi) && g.ops[k].reads(lo));
            }
        }
        if fold_outcome(g, size, addr).1 is Some {
            assert forall|k: int, i: int| 0 <= k < g.ops.len() && 0 <= i < plan.len() implies !(
            #[trigger] plan_read_apart(g.ops, plan, be, k, i)) by {
                assert(!reads_apart(g2, tiles, be, k, i));
            }
        } else {
            let (k, i) = choose|k: int, i: int|
                0 <= k < g2.ops.len() && 0 <= i < tiles.len() && #[trigger] reads_apart(
                    g2,
                    tiles,
                    be,
                    k,
                    i,
                );
            assert(plan_read_apart(g.ops, plan, be, k, i));
        }
    }
}

/// One more input that is out of the way changes nothing of a fold: the plan is the same,
/// with the same inputs folded and the same holes filled; it is carried out in both
/// functions or in neither; where it is, an input of the requested storage comes of it in
/// both; and the input that is out of the way is left as it was.  Nothing is asked of the
/// storage of the inputs, nor of how other varnodes are numbered.
pub proof fn law_fold_ignores_input(g: Graph, h: Graph, size: int, addr: Address, p: int)
    requires
        g.linked(),
        h.linked(),
        0 < size <= i32::MAX,
        0 <= p < inputs_of(h).len(),
        inputs_of(g) == inputs_of(h).remove(p),
        out_of_the_way(inputs_of(h)[p].vn, size, addr),
        h.ops == g.ops,
        h.start == g.start,
    ensures
        covered_plan(inputs_of(h), size, addr) == covered_plan(inputs_of(g), size, addr),
        fold_outcome(h, size, addr).1 is Some <==> fold_outcome(g, size, addr).1 is Some,
        fold_outcome(g, size, addr).1 matches Some(v) ==> fold_outcome(g, size, addr).0.is_input_at(
            v,
            addr.base,
            addr.offset as int,
            size,
        ),
        fold_outcome(h, size, addr).1 matches Some(v) ==> fold_outcome(h, size, addr).0.is_input_at(
            v,
            addr.base,
            addr.offset as int,
            size,
        ),
        fold_outcome(h, size, addr).0.live(inputs_of(h)[p].id),
        fold_outcome(h, size, addr).0.vn(inputs_of(h)[p].id) == inputs_of(h)[p].vn,
{
    let inputs = inputs_of(h);
    let x = inputs[p].id;
    lemma_covered_plan_aside(inputs, size, addr, p);
    lemma_inputs_among(h.varnodes, h.varnodes.len() as int);
    if covered_plan(inputs, size, addr) is Some {
        let plan = covered_plan(inputs, size, addr)->0;
        let space = addr.base->0;
        lemma_fold_outcome(g, size, addr);
        lemma_fold_outcome(h, size, addr);
        lemma_fold_succeeds(g, size, addr);
        lemma_fold_succeeds(h, size, addr);
        let (h2, tiles) = holes_filled(h, plan, space);
        assert(h2.varnodes[x] == h.varnodes[x]);
        assert(h2.live(x));
        if among(tiles, x) {
            let i = choose|i: int| 0 <= i < tiles.len() && (#[trigger] tiles[i]).id == x;
            lemma_inputs_numbered(h);
            lemma_inputs_among(g.varnodes, g.varnodes.len() as int);
            lemma_covered_plan_fits(g, size, addr);
            assert(segment_fits(g, space, plan[i]));
            lemma_input_listed(g, x);
            let q = choose|q: int|
                0 <= q < inputs_of(g).len() && #[trigger] inputs_of(g)[q] == (In {
                    id: x,
                    vn: g.vn(x),
                });
            assert(inputs_of(g)[q] == inputs[if q < p {
                q
            } else {
                q + 1
            }]);
        }
    }
}

/// A request goes the same way with one more input that has storage and is out of the
/// way, under a name that names nothing else: the function after it is the same but for
/// that input, and the answer is the same.
pub proof fn law_request_ignores_input(g: Graph, x: int, vn: Vn, size: int, addr: Address)
    requires
        g.linked(),
        size <= i32::MAX,
        0 <= x < g.varnodes.len(),
        g.varnodes[x] is None,
        vn.origin == Origin::Input,
        vn.size > 0,
        out_of_the_way(vn, size, addr),
    ensures
        tiled_input(g.set_varnode(x, vn), size, addr) == (
            tiled_input(g, size, addr).0.set_varnode(x, vn),
            tiled_input(g, size, addr).1,
        ),
{
    let f = g.set_varnode(x, vn);
    let want = requested(size, addr);
    if size > 0 {
        lemma_inputs_set(g, x, vn);
        lemma_covered_plan_aside(inputs_of(f), size, addr, place_of(g, x));
        lemma_overlapping_plan_aside(inputs_of(f), size, addr, place_of(g, x));
        assert forall|u: int| #[trigger] g.is_input(u) implies f.is_input(u) && f.vn(u) == g.vn(
            u,
        ) by {}
        assert forall|u: int| #[trigger] f.is_input(u) && u != x implies g.is_input(u) && f.vn(u)
            == g.vn(u) by {}
        assert(input_for(f, size, addr) == input_for(g, size, addr)) by {
            lemma_input_at(f, addr.base, addr.offset as int, size);
            lemma_input_at(g, addr.base, addr.offset as int, size);
            if let Some(u) = input_for(g, size, addr) {
                assert(g.is_input(u));
                assert(f.is_input_at(u, addr.base, addr.offset as int, size));
            }
            if let Some(u) = input_for(f, size, addr) {
                assert(f.is_input(u));
                assert(g.is_input_at(u, addr.base, addr.offset as int, size));
            }
        }
        assert(f.meets_input(want) == g.meets_input(want)) by {
            if g.meets_input(want) {
                let u = choose|u: int| #[trigger] g.is_input(u) && g.vn(u).overlaps(want);
                assert(f.is_input(u));
            }
            if f.meets_input(want) {
                let u = choose|u: int| #[trigger] f.is_input(u) && f.vn(u).overlaps(want);
                assert(g.is_input(u));
            }
        }
        let input = Vn { origin: Origin::Input, ..want };
        assert(f.add_varnode(want).varnodes =~= g.add_varnode(want).set_varnode(x, vn).varnodes);
        assert(f.add_varnode(input).varnodes =~= g.add_varnode(input).set_varnode(x, vn).varnodes);
        assert(f.add_varnode(want) =~= g.add_varnode(want).set_varnode(x, vn));
        assert(f.add_varnode(input) =~= g.add_varnode(input).set_varnode(x, vn));
        let g1 = name_spent(g);
        assert(name_spent(f).varnodes =~= g1.set_varnode(x, vn).varnodes);
        assert(name_spent(f) =~= g1.set_varnode(x, vn));
        if covered_plan(inputs_of(g), size, addr) is Some {
            let plan = covered_plan(inputs_of(g), size, addr)->0;
            let space = addr.base->0;
            lemma_name_spent(g);
            lemma_name_spent_inputs(g);
            lemma_fold_outcome(g1, size, addr);
            lemma_holes_filled_aside(g1, plan, space, x, vn);
            let (g2, tiles) = holes_filled(g1, plan, space);
            assert forall|i: int| 0 <= i < tiles.len() implies 0 <= (#[trigger] tiles[i]).id
                < g2.varnodes.len() && tiles[i].id != x by {
                assert(g2.is_input_at(tiles[i].id, Some(space), tiles[i].off, tiles[i].size));
                assert(g2.varnodes[x] == g1.varnodes[x]);
            }
            lemma_folded_aside(g2, tiles, space.big_endian, x, vn);
        } else if overlapping_plan(inputs_of(g), size, addr) is Some {
            let plan = overlapping_plan(inputs_of(g), size, addr)->0;
            lemma_composed_aside(g1, plan, size, addr, x, vn);
        }
    } else {
        assert(tiled_input(f, size, addr).0 == f);
    }
}

} // verus!
