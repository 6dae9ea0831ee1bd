//! Plans made from the inputs of a function.

use crate::address::{AddrSpace, Address};
use crate::funcdata::{inputs_among, inputs_of, Funcdata};
use crate::graph::{offsets, Graph};
use crate::plan::{
    covered_pieces, covered_plan, filled, overlapping_pieces, overlapping_plan, In, Seg,
};
use crate::soundness::lemma_input_at;
use crate::tiling::{
    inputs_apart, law_covered_plan_tiles, law_overlapping_plan_tiles,
    law_shared_storage_unplanned, lemma_covered_plan_single, lemma_parts_from, lemma_parts_hold,
    lemma_tiles_inside, lemma_tiles_ordered, numbered, sources_single, tiles_range,
};
use crate::varnode::{Origin, VarnodeId, Vn};
use vstd::prelude::*;

verus! {

/// The varnode of `size` bytes at `offset` in a space that is settled as nothing.
pub open spec fn place_vn(space: AddrSpace, offset: int, size: int) -> Vn {
    Vn { base: Some(space), offset, size, origin: Origin::Free, write_mask: false }
}

/// The input that fills a hole.
pub open spec fn hole_vn(space: AddrSpace, seg: Seg) -> Vn {
    Vn { origin: Origin::Input, ..place_vn(space, seg.off, seg.size) }
}

/// The varnode of the requested storage, settled as nothing.
pub open spec fn requested(size: int, addr: Address) -> Vn {
    Vn {
        base: addr.base,
        offset: addr.offset as int,
        size,
        origin: Origin::Free,
        write_mask: false,
    }
}

/// Whether two inputs that have a byte in the requested storage share storage.
pub open spec fn contested(g: Graph, size: int, addr: Address) -> bool {
    exists|u: int, v: int| #[trigger]
        g.is_input(u) && #[trigger] g.is_input(v) && u != v && g.vn(u).overlaps(
            requested(size, addr),
        ) && g.vn(v).overlaps(requested(size, addr)) && g.vn(u).overlaps(g.vn(v))
}

/// A segment of a plan fits the function.  If it takes its bytes from an input, the
/// input is there and holds them; there are some, unless the input is empty.  If it is
/// a hole, it has bytes, and no input has a byte in it.
pub open spec fn segment_fits(g: Graph, space: AddrSpace, seg: Seg) -> bool {
    &&& 0 <= seg.size <= i32::MAX
    &&& 0 <= seg.off
    &&& seg.off + seg.size < offsets()
    &&& match seg.source {
        Some(src) => {
            &&& g.is_input(src.id)
            &&& g.vn(src.id).base == Some(space)
            &&& g.vn(src.id).offset == src.lo
            &&& g.vn(src.id).end() == src.hi
            &&& src.lo <= seg.off
            &&& seg.off + seg.size <= src.hi
            &&& seg.size == 0 ==> src.lo == src.hi
        },
        None => seg.size > 0 && !g.meets_input(hole_vn(space, seg)),
    }
}

/// A plan fits the function: its segments tile the range, and each of them fits.
pub open spec fn plan_fits(g: Graph, space: AddrSpace, lo: int, hi: int, plan: Seq<Seg>) -> bool {
    &&& 0 <= lo < hi < offsets()
    &&& hi - lo <= i32::MAX
    &&& plan.len() > 0
    &&& tiles_range(plan, lo, hi)
    &&& forall|i: int| 0 <= i < plan.len() ==> segment_fits(g, space, #[trigger] plan[i])
}

/// The list of inputs names each input once, in order.
pub proof fn lemma_inputs_among(varnodes: Seq<Option<Vn>>, n: int)
    requires
        0 <= n <= varnodes.len(),
    ensures
        forall|i: int|
            0 <= i < inputs_among(varnodes, n).len() ==> {
                let item = #[trigger] inputs_among(varnodes, n)[i];
                &&& 0 <= item.id < n
                &&& varnodes[item.id] == Some(item.vn)
                &&& item.vn.origin == Origin::Input
            },
        forall|i: int, j: int|
            0 <= i < j < inputs_among(varnodes, n).len() ==> (#[trigger] inputs_among(
                varnodes,
                n,
            )[i]).id < (#[trigger] inputs_among(varnodes, n)[j]).id,
        forall|v: int|
            0 <= v < n && (#[trigger] varnodes[v]) is Some && varnodes[v]->0.origin == Origin::Input
                ==> inputs_among(varnodes, n).contains(In { id: v, vn: varnodes[v]->0 }),
    decreases n,
{
    if n > 0 {
        lemma_inputs_among(varnodes, n - 1);
        let before = inputs_among(varnodes, n - 1);
        let list = inputs_among(varnodes, n);
        assert forall|v: int|
            0 <= v < n && (#[trigger] varnodes[v]) is Some && varnodes[v]->0.origin
                == Origin::Input implies list.contains(In { id: v, vn: varnodes[v]->0 }) by {
            let item = In { id: v, vn: varnodes[v]->0 };
            if v < n - 1 {
                assert(before.contains(item));
                let i = choose|i: int| 0 <= i < before.len() && before[i] == item;
                assert(list[i] == item);
            } else {
                assert(list[before.len() as int] == item);
            }
        }
    }
}

/// The list of inputs names no varnode twice.
pub proof fn lemma_inputs_numbered(g: Graph)
    ensures
        numbered(inputs_of(g)),
{
    lemma_inputs_among(g.varnodes, g.varnodes.len() as int);
}

/// The inputs of a sound function share no storage.
pub proof fn lemma_inputs_apart(g: Graph)
    requires
        g.wf(),
    ensures
        inputs_apart(inputs_of(g)),
{
    let n = g.varnodes.len() as int;
    let list = inputs_of(g);
    lemma_inputs_among(g.varnodes, n);
    assert forall|i: int| 0 <= i < list.len() implies (#[trigger] list[i]).vn.size > 0 by {
        assert(g.live(list[i].id));
    }
    assert forall|i: int, j: int|
        0 <= i < list.len() && 0 <= j < list.len() && i != j implies !(
    #[trigger] list[i]).vn.overlaps((#[trigger] list[j]).vn) by {
        if i < j {
            assert(list[i].id < list[j].id);
        } else {
            assert(list[j].id < list[i].id);
        }
        assert(g.is_input(list[i].id) && g.is_input(list[j].id));
    }
}

/// An input of the function is in the list of its inputs.
pub proof fn lemma_input_listed(g: Graph, v: int)
    requires
        g.is_input(v),
    ensures
        exists|i: int|
            0 <= i < inputs_of(g).len() && #[trigger] inputs_of(g)[i] == (In {
                id: v,
                vn: g.vn(v),
            }),
{
    lemma_inputs_among(g.varnodes, g.varnodes.len() as int);
    assert(g.varnodes[v] is Some);
    assert(inputs_of(g).contains(In { id: v, vn: g.vn(v) }));
}

/// Where two inputs that have a byte in the request share storage, there is no plan.
pub proof fn lemma_contested_unplanned(g: Graph, size: int, addr: Address)
    requires
        g.linked(),
        0 < size <= i32::MAX,
        contested(g, size, addr),
    ensures
        covered_plan(inputs_of(g), size, addr) is None,
        overlapping_plan(inputs_of(g), size, addr) is None,
{
    let inputs = inputs_of(g);
    let (u, v) = choose|u: int, v: int| #[trigger]
        g.is_input(u) && #[trigger] g.is_input(v) && u != v && g.vn(u).overlaps(
            requested(size, addr),
        ) && g.vn(v).overlaps(requested(size, addr)) && g.vn(u).overlaps(g.vn(v));
    lemma_input_listed(g, u);
    lemma_input_listed(g, v);
    let i = choose|i: int|
        0 <= i < inputs.len() && #[trigger] inputs[i] == (In { id: u, vn: g.vn(u) });
    let j = choose|j: int|
        0 <= j < inputs.len() && #[trigger] inputs[j] == (In { id: v, vn: g.vn(v) });
    assert(g.live(u) && g.live(v));
    law_shared_storage_unplanned(inputs, size, addr, i, j);
}

/// A hole shares no byte with an input, where each input with a byte in the range
/// has its part in the range among the segments.
proof fn lemma_hole_clear(g: Graph, space: AddrSpace, lo: int, hi: int, plan: Seq<Seg>, i: int)
    requires
        tiles_range(plan, lo, hi),
        0 <= i < plan.len(),
        plan[i].source is None,
        plan[i].size > 0,
        forall|v: int| #[trigger]
            g.is_input(v) && g.vn(v).overlaps(place_vn(space, lo, hi - lo)) ==> g.vn(v).size >= 0
                && plan.contains(filled((In { id: v, vn: g.vn(v) }).part(lo, hi))),
    ensures
        !g.meets_input(hole_vn(space, plan[i])),
{
    let hole = hole_vn(space, plan[i]);
    lemma_tiles_inside(plan, lo, hi, i);
    assert forall|v: int| #[trigger] g.is_input(v) implies !g.vn(v).overlaps(hole) by {
        let item = In { id: v, vn: g.vn(v) };
        if g.vn(v).overlaps(hole) {
            assert(g.vn(v).overlaps(place_vn(space, lo, hi - lo)));
            assert(plan.contains(filled(item.part(lo, hi))));
            let j = choose|j: int| 0 <= j < plan.len() && plan[j] == filled(item.part(lo, hi));
            if j < i {
                lemma_tiles_ordered(plan, lo, hi, j, i);
            } else if j > i {
                lemma_tiles_ordered(plan, lo, hi, i, j);
            }
        }
    }
}

/// A plan to rebuild a value from the inputs of a function fits it, and all its segments
/// have bytes.
pub proof fn lemma_overlapping_plan_fits(g: Graph, size: int, addr: Address)
    requires
        g.linked(),
        0 < size <= i32::MAX,
        overlapping_plan(inputs_of(g), size, addr) is Some,
    ensures
        addr.base is Some,
        plan_fits(
            g,
            addr.base->0,
            addr.offset as int,
            addr.offset + size,
            overlapping_plan(inputs_of(g), size, addr)->0,
        ),
        forall|i: int|
            0 <= i < overlapping_plan(inputs_of(g), size, addr)->0.len() ==> (
            #[trigger] overlapping_plan(inputs_of(g), size, addr)->0[i]).size > 0,
{
    let inputs = inputs_of(g);
    let space = addr.base->0;
    let lo = addr.offset as int;
    let hi = lo + size;
    let plan = overlapping_plan(inputs, size, addr)->0;
    let pred = |i: In| i.covers(space, lo, hi);
    let pieces = overlapping_pieces(inputs, space, lo, hi);
    law_overlapping_plan_tiles(inputs, size, addr);
    lemma_inputs_among(g.varnodes, g.varnodes.len() as int);
    assert forall|v: int| #[trigger]
        g.is_input(v) && g.vn(v).overlaps(place_vn(space, lo, hi - lo)) implies g.vn(v).size >= 0
        && plan.contains(filled((In { id: v, vn: g.vn(v) }).part(lo, hi))) by {
        let item = In { id: v, vn: g.vn(v) };
        lemma_input_listed(g, v);
        let i = choose|i: int| 0 <= i < inputs.len() && #[trigger] inputs[i] == item;
        assert(inputs[i].ranged(space));
        assert(item.covers(space, lo, hi));
        lemma_parts_hold(inputs, pred, lo, hi, i);
        let j = choose|j: int| 0 <= j < pieces.len() && pieces[j] == item.part(lo, hi);
        assert(plan.contains(filled(pieces[j])));
    }
    assert forall|i: int| 0 <= i < plan.len() implies segment_fits(g, space, #[trigger] plan[i])
        && plan[i].size > 0 by {
        lemma_tiles_inside(plan, lo, hi, i);
        if plan[i].source is Some {
            let j = choose|j: int| 0 <= j < pieces.len() && plan[i] == filled(#[trigger] pieces[j]);
            lemma_parts_from(inputs, pred, lo, hi, j);
            let k = choose|k: int|
                0 <= k < inputs.len() && pred(#[trigger] inputs[k]) && inputs[k].part(lo, hi)
                    == pieces[j];
            assert(g.is_input(inputs[k].id));
            assert(inputs[k].ranged(space));
        } else {
            lemma_hole_clear(g, space, lo, hi, plan, i);
        }
    }
}

/// A plan to fold inputs of a function fits it and names no input twice; each segment
/// that is not a hole is the whole of an input that renaming passes over.
pub proof fn lemma_covered_plan_fits(g: Graph, size: int, addr: Address)
    requires
        g.linked(),
        0 < size <= i32::MAX,
        covered_plan(inputs_of(g), size, addr) is Some,
    ensures
        addr.base is Some,
        plan_fits(
            g,
            addr.base->0,
            addr.offset as int,
            addr.offset + size,
            covered_plan(inputs_of(g), size, addr)->0,
        ),
        sources_single(covered_plan(inputs_of(g), size, addr)->0),
        forall|i: int|
            0 <= i < covered_plan(inputs_of(g), size, addr)->0.len() && (
            #[trigger] covered_plan(inputs_of(g), size, addr)->0[i]).source is Some ==> {
                let seg = covered_plan(inputs_of(g), size, addr)->0[i];
                let src = seg.source->0;
                &&& src.lo == seg.off
                &&& src.hi == seg.off + seg.size
                &&& g.vn(src.id).write_mask
            },
{
    let inputs = inputs_of(g);
    let space = addr.base->0;
    let lo = addr.offset as int;
    let hi = lo + size;
    let plan = covered_plan(inputs, size, addr)->0;
    let pred = |i: In| i.meets(space, lo, hi);
    let pieces = covered_pieces(inputs, space, lo, hi);
    law_covered_plan_tiles(inputs, size, addr);
    lemma_inputs_among(g.varnodes, g.varnodes.len() as int);
    lemma_inputs_numbered(g);
    lemma_covered_plan_single(inputs, size, addr);
    assert forall|v: int| #[trigger]
        g.is_input(v) && g.vn(v).overlaps(place_vn(space, lo, hi - lo)) implies g.vn(v).size >= 0
        && plan.contains(filled((In { id: v, vn: g.vn(v) }).part(lo, hi))) by {
        let item = In { id: v, vn: g.vn(v) };
        lemma_input_listed(g, v);
        let i = choose|i: int| 0 <= i < inputs.len() && #[trigger] inputs[i] == item;
        assert(g.live(v));
        assert(inputs[i].foldable(space, lo, hi));
        assert(item.meets(space, lo, hi));
        lemma_parts_hold(inputs, pred, lo, hi, i);
        let j = choose|j: int| 0 <= j < pieces.len() && pieces[j] == item.part(lo, hi);
        assert(plan.contains(filled(pieces[j])));
    }
    assert forall|i: int| 0 <= i < plan.len() implies segment_fits(g, space, #[trigger] plan[i])
        && (plan[i].source matches Some(src) ==> src.lo == plan[i].off && src.hi == plan[i].off
        + plan[i].size && g.vn(src.id).write_mask) by {
        lemma_tiles_inside(plan, lo, hi, i);
        if plan[i].source is Some {
            let j = choose|j: int| 0 <= j < pieces.len() && plan[i] == filled(#[trigger] pieces[j]);
            lemma_parts_from(inputs, pred, lo, hi, j);
            let k = choose|k: int|
                0 <= k < inputs.len() && pred(#[trigger] inputs[k]) && inputs[k].part(lo, hi)
                    == pieces[j];
            assert(g.is_input(inputs[k].id));
            assert(g.live(inputs[k].id));
            assert(inputs[k].foldable(space, lo, hi));
        } else {
            lemma_hole_clear(g, space, lo, hi, plan, i);
        }
    }
}

/// Makes an input of storage that no input has a byte in.
pub(crate) fn new_input(fd: &mut Funcdata, size: i32, addr: &Address) -> (result: Option<
    VarnodeId,
>)
    requires
        old(fd)@.linked(),
        size > 0,
        addr.base is Some,
        !old(fd)@.meets_input(place_vn(addr.base->0, addr.offset as int, size as int)),
    ensures
        final(fd)@.linked(),
        old(fd)@.wf() ==> final(fd)@.wf(),
        result matches Some(id) && id.0 == old(fd)@.varnodes.len(),
        final(fd)@ == old(fd)@.add_varnode(
            Vn {
                origin: Origin::Input,
                ..place_vn(addr.base->0, addr.offset as int, size as int)
            },
        ),
{
    let ghost g = fd@;
    let ghost free = place_vn(addr.base->0, addr.offset as int, size as int);
    let hole: VarnodeId = fd.new_varnode(size, addr);
    let ghost mid = fd@;
    proof {
        assert forall|u: int| #[trigger] mid.is_input(u) implies g.is_input(u) && mid.vn(u)
            == g.vn(u) by {}
        lemma_input_at(mid, free.base, free.offset, free.size);
        if let Some(u) = mid.input_at(free.base, free.offset, free.size) {
            assert(mid.is_input(u));
            assert(g.vn(u).overlaps(free));
        }
        assert(!mid.meets_input(free));
        assert(mid.live(g.varnodes.len() as int));
        assert(mid.set_varnode(g.varnodes.len() as int, Vn { origin: Origin::Input, ..free })
            =~= g.add_varnode(Vn { origin: Origin::Input, ..free }));
    }
    match fd.set_input_varnode(hole) {
        Ok(id) => Some(id),
        Err(_) => None,
    }
}

} // verus!
