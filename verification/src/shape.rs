//! What rebuilding and folding make of a function.

use crate::address::{AddrSpace, Address};
use crate::fold::{
    first_folded, folded, hi_lo, holes_filled, lemma_fold_step, parts_held, span,
};
use crate::graph::{offsets, Graph};
use crate::plan::Seg;
use crate::rebuild::{
    by_significance, chain_size, chained, composed, entry_site, grown, is_whole, joined, laid,
    laid_segment, lemma_chain_size, lemma_order_chained, lemma_segment_still_fits,
    new_inputs_below, plan_spans, skipped, Part, Site,
};
use crate::request::{hole_vn, place_vn, plan_fits, segment_fits};
use crate::soundness::{
    lemma_add_piece, lemma_add_slice, lemma_add_varnode, lemma_combine_shape, lemma_insert_op,
    lemma_take_unique,
};
use crate::tiling::sources_single;
use crate::varnode::Vn;
use vstd::prelude::*;

verus! {

/// The end of the first `n` segments of a plan: where the next one starts.
pub open spec fn reached(plan: Seq<Seg>, n: int) -> int {
    if n < plan.len() {
        plan[n].off
    } else {
        plan.last().off + plan.last().size
    }
}

/// Growing on keeps what had grown.
pub proof fn lemma_grown_trans(a: Graph, b: Graph, c: Graph)
    requires
        grown(a, b),
        grown(b, c),
    ensures
        grown(a, c),
{
    assert forall|v: int| 0 <= v < a.varnodes.len() implies #[trigger] c.varnodes[v]
        == a.varnodes[v] by {
        assert(b.varnodes[v] == a.varnodes[v]);
    }
    assert forall|k: int| 0 <= k < a.ops.len() implies #[trigger] c.ops[k] == a.ops[k] by {
        assert(b.ops[k] == a.ops[k]);
    }
}

/// What laying one segment makes of the function.
proof fn lemma_laid_segment(
    g: Graph,
    h: Graph,
    plan: Seq<Seg>,
    site: Site,
    i: int,
)
    requires
        plan_spans(g, site.space, plan),
        0 <= i < plan.len(),
        h.linked(),
        h.start == Some(site.block),
        grown(g, h),
        new_inputs_below(g, h, site.space, plan[i].off),
    ensures
        ({
            let (h2, id) = laid_segment(h, plan[i], site);
            &&& h2.linked()
            &&& h.wf() ==> h2.wf()
            &&& grown(h, h2)
            &&& grown(g, h2)
            &&& new_inputs_below(g, h2, site.space, reached(plan, i + 1))
            &&& h2.live(id)
            &&& plan[i].source is None ==> h2.is_input_at(
                id,
                Some(site.space),
                plan[i].off,
                plan[i].size,
            )
        }),
{
    let seg = plan[i];
    let n = h.varnodes.len() as int;
    let (h2, id) = laid_segment(h, seg, site);
    lemma_segment_still_fits(g, h, site.space, plan, i);
    match seg.source {
        None => {
            lemma_add_varnode(h, hole_vn(site.space, seg));
            assert(h2.live(n));
        },
        Some(src) => {
            if !is_whole(seg, src) {
                let skip = skipped(seg, src, site.space.big_endian);
                let out = place_vn(site.space, seg.off, seg.size);
                assert(h.is_input(src.id));
                assert(h.live(src.id));
                lemma_add_slice(h, site.addr, src.id, skip, out);
                lemma_insert_op(
                    h.add_slice(site.addr, src.id, skip, out),
                    h.ops.len() as int,
                    site.block,
                    site.before,
                );
                assert(h2.live(n));
            }
        },
    }
    assert(grown(h, h2));
    lemma_grown_trans(g, h, h2);
    if i + 1 < plan.len() {
        assert(plan[i].off + plan[i].size == plan[i + 1].off);
    }
    assert forall|u: int| u >= g.varnodes.len() && #[trigger] h2.is_input(u) implies h2.vn(u).base
        == Some(site.space) && h2.vn(u).end() <= reached(plan, i + 1) by {
        if u < n {
            assert(h2.varnodes[u] == h.varnodes[u]);
            assert(h.is_input(u));
        }
    }
}

/// What laying the first `n` segments of a plan makes of the function.
pub proof fn lemma_laid(g: Graph, plan: Seq<Seg>, site: Site, n: int)
    requires
        g.linked(),
        g.start == Some(site.block),
        plan_spans(g, site.space, plan),
        0 <= n <= plan.len(),
    ensures
        ({
            let (h, tiles) = laid(g, plan.take(n), site);
            &&& h.linked()
            &&& g.wf() ==> h.wf()
            &&& grown(g, h)
            &&& new_inputs_below(g, h, site.space, reached(plan, n))
            &&& tiles.len() == n
            &&& forall|i: int|
                0 <= i < n ==> (#[trigger] tiles[i]).off == plan[i].off && tiles[i].size
                    == plan[i].size && h.live(tiles[i].id)
            &&& forall|i: int|
                0 <= i < n && plan[i].source is None ==> h.is_input_at(
                    (#[trigger] tiles[i]).id,
                    Some(site.space),
                    plan[i].off,
                    plan[i].size,
                )
        }),
    decreases n,
{
    if n > 0 {
        lemma_laid(g, plan, site, n - 1);
        assert(plan.take(n).drop_last() =~= plan.take(n - 1));
        assert(plan.take(n).last() == plan[n - 1]);
        let (h1, tiles1) = laid(g, plan.take(n - 1), site);
        lemma_laid_segment(g, h1, plan, site, n - 1);
        let (h, tiles) = laid(g, plan.take(n), site);
        assert forall|i: int| 0 <= i < n implies (#[trigger] tiles[i]).off == plan[i].off
            && tiles[i].size == plan[i].size && h.live(tiles[i].id) && (plan[i].source is None
            ==> h.is_input_at(tiles[i].id, Some(site.space), plan[i].off, plan[i].size)) by {
            if i < n - 1 {
                assert(tiles[i] == tiles1[i]);
                assert(h.varnodes[tiles1[i].id] == h1.varnodes[tiles1[i].id]);
            }
        }
    } else {
        assert(plan.take(0) =~= Seq::empty());
    }
}

/// What joining the first `n` parts makes of the function.
pub proof fn lemma_joined(g: Graph, order: Seq<Part>, n: int, whole: Vn, site: Site)
    requires
        g.linked(),
        g.start == Some(site.block),
        1 <= n <= order.len(),
        chained(order, site.space.big_endian),
        chain_size(order, order.len() as int, site.space.big_endian) <= i32::MAX,
        whole.size == chain_size(order, order.len() as int, site.space.big_endian),
        0 <= whole.offset < offsets(),
        forall|i: int| 0 <= i < order.len() ==> g.live((#[trigger] order[i]).id),
    ensures
        ({
            let (h, value, size) = joined(g, order, n, whole, site);
            &&& h.linked()
            &&& g.wf() ==> h.wf()
            &&& grown(g, h)
            &&& h.live(value)
            &&& size == chain_size(order, n, site.space.big_endian)
            &&& forall|v: int|
                v >= g.varnodes.len() && #[trigger] h.live(v) ==> h.vn(v).origin is Written
        }),
    decreases n,
{
    if n > 1 {
        lemma_joined(g, order, n - 1, whole, site);
        let (h1, value, size) = joined(g, order, n - 1, whole, site);
        let tile = order[n - 1];
        let out_size = size + tile.size;
        lemma_chain_size(order, n - 1, order.len() as int, site.space.big_endian);
        lemma_chain_size(order, n, order.len() as int, site.space.big_endian);
        assert(g.live(tile.id));
        assert(h1.varnodes[tile.id] == g.varnodes[tile.id]);
        let k = h1.ops.len() as int;
        let m = h1.varnodes.len() as int;
        let h2 = if n == order.len() {
            h1.add_piece(site.addr, value, tile.id, whole)
        } else {
            h1.take_unique(out_size).add_piece(
                site.addr,
                value,
                tile.id,
                place_vn(h1.unique, h1.next_unique, out_size),
            )
        };
        if n == order.len() {
            lemma_add_piece(h1, site.addr, value, tile.id, whole);
        } else {
            lemma_take_unique(h1, out_size);
            assert(h1.take_unique(out_size).live(value));
            assert(h1.take_unique(out_size).live(tile.id));
            lemma_add_piece(
                h1.take_unique(out_size),
                site.addr,
                value,
                tile.id,
                place_vn(h1.unique, h1.next_unique, out_size),
            );
        }
        lemma_insert_op(h2, k, site.block, site.before);
        let h = joined(g, order, n, whole, site).0;
        assert(h.varnodes[m] is Some);
        assert(grown(h1, h));
        lemma_grown_trans(g, h1, h);
        assert forall|v: int| v >= g.varnodes.len() && #[trigger] h.live(v) implies h.vn(
            v,
        ).origin is Written by {
            if v < m {
                assert(h.varnodes[v] == h1.varnodes[v]);
                assert(h1.live(v));
            }
        }
    } else {
        assert(g.live(order[0].id));
    }
}

/// What rebuilding makes of the function.
pub proof fn lemma_composed(g: Graph, plan: Seq<Seg>, size: int, addr: Address)
    requires
        g.linked(),
        g.start is Some,
        addr.base is Some,
        plan_fits(g, addr.base->0, addr.offset as int, addr.offset + size, plan),
        g.wf() || forall|i: int| 0 <= i < plan.len() ==> (#[trigger] plan[i]).size > 0,
    ensures
        ({
            let space = addr.base->0;
            let site = entry_site(g, space);
            let (g1, tiles) = laid(g, plan, site);
            let order = by_significance(tiles, space.big_endian);
            let whole = place_vn(space, addr.offset as int, size);
            let (h, value) = composed(g, plan, size, addr);
            &&& plan.take(plan.len() as int) == plan
            &&& plan_spans(g, space, plan)
            &&& g1.linked()
            &&& g.wf() ==> g1.wf()
            &&& grown(g, g1)
            &&& new_inputs_below(g, g1, space, addr.offset + size)
            &&& tiles.len() == plan.len()
            &&& order.len() == plan.len()
            &&& forall|i: int|
                0 <= i < plan.len() ==> (#[trigger] tiles[i]).off == plan[i].off && tiles[i].size
                    == plan[i].size && g1.live(tiles[i].id)
            &&& forall|i: int|
                0 <= i < plan.len() && plan[i].source is None ==> g1.is_input_at(
                    (#[trigger] tiles[i]).id,
                    Some(space),
                    plan[i].off,
                    plan[i].size,
                )
            &&& forall|i: int| 0 <= i < plan.len() ==> g1.live((#[trigger] order[i]).id)
            &&& chained(order, space.big_endian)
            &&& chain_size(order, order.len() as int, space.big_endian) == size
            &&& joined(g1, order, order.len() as int, whole, site).0 == h
            &&& joined(g1, order, order.len() as int, whole, site).1 == value
            &&& h.linked()
            &&& g.wf() ==> h.wf()
            &&& grown(g1, h)
            &&& grown(g, h)
            &&& h.live(value)
        }),
{
    let space = addr.base->0;
    let site = entry_site(g, space);
    let n = plan.len() as int;
    assert(plan.take(n) =~= plan);
    lemma_laid(g, plan, site, n);
    let (g1, tiles) = laid(g, plan, site);
    assert forall|i: int| 0 <= i < plan.len() implies (#[trigger] plan[i]).size > 0 by {
        assert(segment_fits(g, space, plan[i]));
    }
    lemma_order_chained(plan, tiles, addr.offset as int, addr.offset + size, space.big_endian);
    let order = by_significance(tiles, space.big_endian);
    assert forall|i: int| 0 <= i < plan.len() implies g1.live((#[trigger] order[i]).id) by {
        let j = if space.big_endian {
            i
        } else {
            n - 1 - i
        };
        assert(order[i] == tiles[j]);
    }
    lemma_joined(g1, order, n, place_vn(space, addr.offset as int, size), site);
    lemma_grown_trans(g, g1, composed(g, plan, size, addr).0);
}

/// What filling the holes among the first `n` segments makes of the function.
pub proof fn lemma_holes_filled(g: Graph, plan: Seq<Seg>, space: AddrSpace, n: int)
    requires
        g.linked(),
        plan_spans(g, space, plan),
        forall|i: int|
            0 <= i < plan.len() && (#[trigger] plan[i]).source is Some ==> is_whole(
                plan[i],
                plan[i].source->0,
            ),
        sources_single(plan),
        0 <= n <= plan.len(),
    ensures
        ({
            let (h, tiles) = holes_filled(g, plan.take(n), space);
            &&& h.linked()
            &&& g.wf() ==> h.wf()
            &&& grown(g, h)
            &&& h == (Graph { varnodes: h.varnodes, ..g })
            &&& new_inputs_below(g, h, space, reached(plan, n))
            &&& forall|v: int| v >= g.varnodes.len() && #[trigger] h.live(v) ==> h.is_input(v)
            &&& tiles.len() == n
            &&& forall|i: int|
                0 <= i < n ==> {
                    let t = #[trigger] tiles[i];
                    &&& t.off == plan[i].off
                    &&& t.size == plan[i].size
                    &&& h.is_input_at(t.id, Some(space), t.off, t.size)
                    &&& t.id < g.varnodes.len() ==> plan[i].source is Some
                    &&& plan[i].source is Some ==> plan[i].source->0.id == t.id
                }
            &&& forall|i: int, j: int|
                0 <= i < j < n ==> (#[trigger] tiles[i]).id != (#[trigger] tiles[j]).id
        }),
    decreases n,
{
    if n > 0 {
        lemma_holes_filled(g, plan, space, n - 1);
        assert(plan.take(n).drop_last() =~= plan.take(n - 1));
        assert(plan.take(n).last() == plan[n - 1]);
        let (h1, tiles1) = holes_filled(g, plan.take(n - 1), space);
        let (h, tiles) = holes_filled(g, plan.take(n), space);
        let seg = plan[n - 1];
        let m = h1.varnodes.len() as int;
        lemma_segment_still_fits(g, h1, space, plan, n - 1);
        if seg.source is None {
            lemma_add_varnode(h1, hole_vn(space, seg));
        }
        assert(grown(h1, h));
        lemma_grown_trans(g, h1, h);
        if n < plan.len() {
            assert(plan[n - 1].off + plan[n - 1].size == plan[n].off);
        }
        assert forall|u: int| u >= g.varnodes.len() && #[trigger] h.is_input(u) implies h.vn(u).base
            == Some(space) && h.vn(u).end() <= reached(plan, n) by {
            if u < m {
                assert(h.varnodes[u] == h1.varnodes[u]);
                assert(h1.is_input(u));
            }
        }
        assert forall|v: int| v >= g.varnodes.len() && #[trigger] h.live(v) implies h.is_input(
            v,
        ) by {
            if v < m {
                assert(h.varnodes[v] == h1.varnodes[v]);
                assert(h1.live(v));
                assert(h1.is_input(v));
            }
        }
        assert forall|i: int| 0 <= i < n implies {
            let t = #[trigger] tiles[i];
            &&& t.off == plan[i].off
            &&& t.size == plan[i].size
            &&& h.is_input_at(t.id, Some(space), t.off, t.size)
            &&& t.id < g.varnodes.len() ==> plan[i].source is Some
            &&& plan[i].source is Some ==> plan[i].source->0.id == t.id
        } by {
            if i < n - 1 {
                assert(tiles[i] == tiles1[i]);
                assert(h.varnodes[tiles1[i].id] == h1.varnodes[tiles1[i].id]);
            }
        }
        assert forall|i: int, j: int| 0 <= i < j < n implies (#[trigger] tiles[i]).id != (
        #[trigger] tiles[j]).id by {
            assert(tiles[i] == tiles1[i]);
            if j < n - 1 {
                assert(tiles[j] == tiles1[j]);
            } else if seg.source is Some {
                assert(segment_fits(g, space, seg));
                assert(g.live(seg.source->0.id));
                assert(plan[i].source is Some ==> plan[i].source->0.id != plan[j].source->0.id);
            }
        }
    } else {
        assert(plan.take(0) =~= Seq::empty());
    }
}

/// Whether one list of operations is the other with some put ahead of it.
pub open spec fn behind(old_ops: Seq<int>, new_ops: Seq<int>) -> bool {
    &&& old_ops.len() <= new_ops.len()
    &&& forall|i: int|
        0 <= i < old_ops.len() ==> #[trigger] old_ops[i] == new_ops[new_ops.len() - old_ops.len()
            + i]
}

/// Whether the blocks of a function were only added to, ahead of all operations
/// where it is entered.
pub open spec fn blocks_behind(g: Graph, h: Graph) -> bool {
    &&& h.blocks.len() == g.blocks.len()
    &&& h.start == g.start
    &&& forall|b: int|
        0 <= b < g.blocks.len() ==> behind(#[trigger] g.blocks[b], h.blocks[b]) && (Some(b)
            != g.start ==> h.blocks[b] == g.blocks[b])
}

/// Putting more ahead keeps what stood behind.
pub proof fn lemma_blocks_behind_trans(a: Graph, b: Graph, c: Graph)
    requires
        blocks_behind(a, b),
        blocks_behind(b, c),
    ensures
        blocks_behind(a, c),
{
    assert forall|i: int| 0 <= i < a.blocks.len() implies behind(
        #[trigger] a.blocks[i],
        c.blocks[i],
    ) && (Some(i) != a.start ==> c.blocks[i] == a.blocks[i]) by {
        let x = a.blocks[i];
        let y = b.blocks[i];
        let z = c.blocks[i];
        assert(behind(x, y));
        assert(behind(y, z));
        assert forall|j: int| 0 <= j < x.len() implies #[trigger] x[j] == z[z.len() - x.len()
            + j] by {
            assert(x[j] == y[y.len() - x.len() + j]);
        }
    }
}

/// Cutting a varnode back adds ahead of all operations where the function is entered.
proof fn lemma_cut_back_behind(g: Graph, source: int, skip: int, vn: Vn)
    requires
        g.start matches Some(b) && 0 <= b < g.blocks.len(),
    ensures
        blocks_behind(g, g.cut_back(source, skip, vn)),
{
    let b = g.start->0;
    let h = g.cut_back(source, skip, vn);
    let k = g.ops.len() as int;
    assert(Graph::place_before(g.blocks[b], g.head(b)) == 0);
    assert(h.blocks[b] == g.blocks[b].insert(0, k));
    assert forall|c: int| 0 <= c < g.blocks.len() implies behind(
        #[trigger] g.blocks[c],
        h.blocks[c],
    ) && (Some(c) != g.start ==> h.blocks[c] == g.blocks[c]) by {}
}

/// Folding two inputs adds ahead of all operations where the function is entered.
pub proof fn lemma_combine_behind(g: Graph, hi: int, lo: int)
    requires
        g.linked(),
        g.cuttable(hi, lo),
    ensures
        blocks_behind(g, g.combine(hi, lo)),
{
    let j = g.varnodes.len() as int;
    let g1 = g.destroy(hi).destroy(lo).add_varnode(g.joined_vn(hi, lo));
    let g2 = if g.read_apart(hi, hi, lo) {
        g1.cut_back(j, g.vn(lo).size, g.vn(hi))
    } else {
        g1
    };
    let g3 = if g.read_apart(lo, hi, lo) {
        g2.cut_back(j, 0, g.vn(lo))
    } else {
        g2
    };
    assert(blocks_behind(g, g1));
    if g.read_apart(hi, hi, lo) {
        lemma_cut_back_behind(g1, j, g.vn(lo).size, g.vn(hi));
    } else {
        assert(blocks_behind(g1, g2));
    }
    lemma_blocks_behind_trans(g, g1, g2);
    if g.read_apart(lo, hi, lo) {
        lemma_cut_back_behind(g2, j, 0, g.vn(lo));
    } else {
        assert(blocks_behind(g2, g3));
    }
    lemma_blocks_behind_trans(g, g2, g3);
    assert(g.combine(hi, lo).blocks == g3.blocks);
}

/// Whether the number is that of one of the parts.
pub open spec fn among(tiles: Seq<Part>, v: int) -> bool {
    exists|i: int| 0 <= i < tiles.len() && (#[trigger] tiles[i]).id == v
}

/// What folding all parts makes of the function.
pub proof fn lemma_folded(g: Graph, tiles: Seq<Part>, space: AddrSpace)
    requires
        g.linked(),
        parts_held(g, tiles, space),
        span(tiles) <= i32::MAX,
    ensures
        ({
            let (h, answer) = folded(g, tiles, space.big_endian);
            &&& h.linked()
            &&& g.wf() ==> h.wf()
            &&& h.start == g.start
            &&& answer is None ==> g.start is None && tiles.len() > 1
            &&& tiles.len() == 1 ==> h == g && answer == Some(tiles[0].id)
            &&& answer matches Some(v) ==> {
                &&& h.is_input_at(v, Some(space), tiles[0].off, span(tiles))
                &&& tiles.len() > 1 ==> h.vn(v).write_mask && v >= g.varnodes.len()
                &&& tiles.len() > 1 ==> forall|u: int| #[trigger] among(tiles, u) ==> !h.live(u)
                &&& forall|u: int| #[trigger]
                    h.is_input(u) && u != v ==> g.is_input(u) && h.vn(u) == g.vn(u)
            }
            &&& g.varnodes.len() <= h.varnodes.len()
            &&& forall|u: int| #[trigger]
                g.live(u) && !among(tiles, u) ==> h.live(u) && h.vn(u) == g.vn(u)
            &&& g.ops.len() <= h.ops.len()
            &&& forall|k: int|
                0 <= k < g.ops.len() ==> (#[trigger] h.ops[k]).output == g.ops[k].output
            &&& blocks_behind(g, h)
        }),
    decreases tiles.len(),
{
    let n = tiles.len() as int;
    assert(blocks_behind(g, g));
    if n == 1 {
        assert(g.is_input_at(tiles[0].id, Some(space), tiles[0].off, tiles[0].size));
    } else if g.cuttable(
        hi_lo(tiles[0], tiles[1], space.big_endian).0,
        hi_lo(tiles[0], tiles[1], space.big_endian).1,
    ) {
        let (hi, lo) = hi_lo(tiles[0], tiles[1], space.big_endian);
        let j = g.varnodes.len() as int;
        let rest = first_folded(g, tiles);
        let g1 = g.combine(hi, lo);
        lemma_fold_step(g, tiles, space);
        lemma_combine_shape(g, hi, lo);
        lemma_combine_behind(g, hi, lo);
        lemma_folded(g1, rest, space);
        let (h, answer) = folded(g, tiles, space.big_endian);
        assert((h, answer) == folded(g1, rest, space.big_endian));
        lemma_blocks_behind_trans(g, g1, h);
        assert forall|u: int| u < j && #[trigger] among(rest, u) implies among(tiles, u) by {
            let i = choose|i: int| 0 <= i < rest.len() && (#[trigger] rest[i]).id == u;
            assert(tiles[i + 1].id == u);
        }
        assert forall|u: int| #[trigger] g.live(u) && !among(tiles, u) implies h.live(u) && h.vn(u)
            == g.vn(u) by {
            assert(tiles[0].id != u && tiles[1].id != u);
            assert(g1.varnodes[u] == g.varnodes[u]);
            assert(g1.live(u));
            assert(!among(rest, u));
        }
        if let Some(v) = answer {
            assert forall|u: int| #[trigger] among(tiles, u) implies !h.live(u) by {
                let i = choose|i: int| 0 <= i < tiles.len() && (#[trigger] tiles[i]).id == u;
                assert(g.is_input_at(tiles[i].id, Some(space), tiles[i].off, tiles[i].size));
                if i < 2 {
                    assert(g1.varnodes[u] is None);
                    lemma_folded_dead(g1, rest, space, u);
                } else {
                    assert(rest[i - 1] == tiles[i]);
                    assert(among(rest, u));
                }
            }
            assert forall|u: int| #[trigger] h.is_input(u) && u != v implies g.is_input(u)
                && h.vn(u) == g.vn(u) by {
                assert(g1.is_input(u));
                if u == j {
                    assert(rest[0].id == j);
                    assert(among(rest, j));
                    assert(rest.len() > 1 ==> !h.live(j));
                } else {
                    assert(g1.live(u));
                    if u < j {
                        assert(g1.varnodes[u] is Some);
                        assert(g.varnodes[u] == g1.varnodes[u]);
                    }
                }
            }
        }
        assert forall|k: int| 0 <= k < g.ops.len() implies (#[trigger] h.ops[k]).output
            == g.ops[k].output by {
            assert(g1.ops[k].output == g.ops[k].output);
        }
    }
}

/// A name that names nothing goes on to name nothing.
pub proof fn lemma_folded_dead(g: Graph, tiles: Seq<Part>, space: AddrSpace, u: int)
    requires
        g.linked(),
        parts_held(g, tiles, space),
        span(tiles) <= i32::MAX,
        0 <= u < g.varnodes.len(),
        g.varnodes[u] is None,
    ensures
        !folded(g, tiles, space.big_endian).0.live(u),
    decreases tiles.len(),
{
    if tiles.len() > 1 {
        let (hi, lo) = hi_lo(tiles[0], tiles[1], space.big_endian);
        if g.cuttable(hi, lo) {
            lemma_fold_step(g, tiles, space);
            lemma_combine_shape(g, hi, lo);
            let g1 = g.combine(hi, lo);
            assert(g1.varnodes[u] is None);
            lemma_folded_dead(g1, first_folded(g, tiles), space, u);
        }
    }
}

/// Whether an operation reads one of the parts otherwise than by joining them, where
/// there are two.
pub open spec fn reads_apart(g: Graph, tiles: Seq<Part>, big_endian: bool, k: int, i: int) -> bool {
    let (hi, lo) = hi_lo(tiles[0], tiles[1], big_endian);
    g.ops[k].reads(tiles[i].id) && !(tiles.len() == 2 && g.ops[k].joins(hi, lo))
}

/// Where the block at which the function is entered is not known, parts are folded
/// exactly when no operation reads one of them, but to join the two that there are.
pub proof fn lemma_folded_uncut(g: Graph, tiles: Seq<Part>, space: AddrSpace)
    requires
        g.linked(),
        g.start is None,
        parts_held(g, tiles, space),
        span(tiles) <= i32::MAX,
        tiles.len() > 1,
    ensures
        folded(g, tiles, space.big_endian).1 is Some <==> forall|k: int, i: int|
            0 <= k < g.ops.len() && 0 <= i < tiles.len() ==> !(#[trigger] reads_apart(
                g,
                tiles,
                space.big_endian,
                k,
                i,
            )),
    decreases tiles.len(),
{
    let be = space.big_endian;
    let n = tiles.len() as int;
    let j = g.varnodes.len() as int;
    let (hi, lo) = hi_lo(tiles[0], tiles[1], be);
    lemma_fold_step(g, tiles, space);
    assert forall|k: int, v: int|
        0 <= k < g.ops.len() && #[trigger] g.ops[k].reads(v) implies g.live(v) by {
        let s = choose|s: int|
            0 <= s < g.ops[k].inputs.len() && #[trigger] g.ops[k].inputs[s] == Some(v);
        assert(g.ops[k].inputs[s] is Some);
    }
    assert forall|k: int| #[trigger] g.ops[k].joins(hi, lo) implies g.ops[k].reads(hi)
        && g.ops[k].reads(lo) by {
        assert(g.ops[k].inputs[0] == Some(hi) && g.ops[k].inputs[1] == Some(lo));
    }
    assert forall|k: int, i: int|
        2 <= i < n && #[trigger] g.ops[k].joins(hi, lo) implies !(
    #[trigger] g.ops[k].reads(tiles[i].id)) by {
        assert(tiles[0].id != tiles[i].id && tiles[1].id != tiles[i].id);
    }
    let (hi_at, lo_at) = if be {
        (0int, 1int)
    } else {
        (1int, 0int)
    };
    assert(tiles[hi_at].id == hi && tiles[lo_at].id == lo);
    if !g.cuttable(hi, lo) {
        let v = if g.read_apart(hi, hi, lo) {
            hi
        } else {
            lo
        };
        let at = if g.read_apart(hi, hi, lo) {
            hi_at
        } else {
            lo_at
        };
        let k = choose|k: int|
            0 <= k < g.ops.len() && #[trigger] g.ops[k].reads(v) && !g.ops[k].joins(hi, lo);
        assert(reads_apart(g, tiles, be, k, at));
    } else if n == 2 {
        assert(first_folded(g, tiles).len() == 1);
        assert(folded(g, tiles, be).1 is Some);
        assert forall|k: int, i: int|
            0 <= k < g.ops.len() && 0 <= i < tiles.len() implies !(#[trigger] reads_apart(
            g,
            tiles,
            be,
            k,
            i,
        )) by {
            assert(tiles[i].id == hi || tiles[i].id == lo);
        }
    } else {
        let rest = first_folded(g, tiles);
        let h = g.combine(hi, lo);
        let (hi2, lo2) = hi_lo(rest[0], rest[1], be);
        lemma_combine_shape(g, hi, lo);
        lemma_folded_uncut(h, rest, space);
        assert(h.ops.len() == g.ops.len());
        assert forall|k: int| 0 <= k < g.ops.len() implies #[trigger] h.ops[k]
            == g.ops[k].rewired(hi, lo, j, j + 1, j + 1) by {}
        assert forall|k: int|
            0 <= k < g.ops.len() && !(#[trigger] g.ops[k].joins(hi, lo)) implies !h.ops[k].reads(
            j,
        ) by {
            if h.ops[k].reads(j) {
                let s = choose|s: int|
                    0 <= s < h.ops[k].inputs.len() && #[trigger] h.ops[k].inputs[s] == Some(j);
                assert(g.ops[k].inputs[s] == Some(j));
                assert(g.ops[k].reads(j));
            }
        }
        assert forall|k: int| #[trigger] h.ops[k].joins(hi2, lo2) implies h.ops[k].reads(j) by {
            assert(h.ops[k].inputs[0] == Some(hi2) && h.ops[k].inputs[1] == Some(lo2));
        }
        if forall|k: int, i: int|
            0 <= k < g.ops.len() && 0 <= i < tiles.len() ==> !(#[trigger] reads_apart(
                g,
                tiles,
                be,
                k,
                i,
            )) {
            assert forall|k: int, i: int|
                0 <= k < h.ops.len() && 0 <= i < rest.len() implies !(#[trigger] reads_apart(
                h,
                rest,
                be,
                k,
                i,
            )) by {
                assert(!reads_apart(g, tiles, be, k, hi_at));
                assert(!reads_apart(g, tiles, be, k, lo_at));
                assert(!g.ops[k].reads(hi) && !g.ops[k].reads(lo));
                assert(!g.ops[k].joins(hi, lo));
                if i > 0 && h.ops[k].reads(rest[i].id) {
                    assert(rest[i] == tiles[i + 1]);
                    assert(!reads_apart(g, tiles, be, k, i + 1));
                    let v = rest[i].id;
                    assert(g.is_input_at(v, Some(space), tiles[i + 1].off, tiles[i + 1].size));
                    let s = choose|s: int|
                        0 <= s < h.ops[k].inputs.len() && #[trigger] h.ops[k].inputs[s] == Some(v);
                    assert(g.ops[k].inputs[s] == Some(v));
                }
            }
        } else {
            let (k, i) = choose|k: int, i: int|
                0 <= k < g.ops.len() && 0 <= i < tiles.len() && #[trigger] reads_apart(
                    g,
                    tiles,
                    be,
                    k,
                    i,
                );
            if i < 2 {
                assert(tiles[i].id == hi || tiles[i].id == lo);
                assert(g.ops[k].joins(hi, lo));
                assert(h.ops[k].inputs[0] == Some(j));
                assert(h.ops[k].reads(rest[0].id));
                assert(reads_apart(h, rest, be, k, 0));
            } else {
                let v = tiles[i].id;
                assert(rest[i - 1] == tiles[i]);
                assert(tiles[0].id != v && tiles[1].id != v);
                assert(!g.ops[k].joins(hi, lo));
                let s = choose|s: int|
                    0 <= s < g.ops[k].inputs.len() && #[trigger] g.ops[k].inputs[s] == Some(v);
                assert(h.ops[k].inputs[s] == Some(v));
                assert(h.ops[k].reads(v));
                assert(reads_apart(h, rest, be, k, i - 1));
            }
        }
    }
}

/// The numbers from one to another.
pub open spec fn run(from: int, to: int) -> Seq<int> {
    Seq::new((to - from) as nat, |i: int| from + i)
}

/// The place before an operation does not change when others are put ahead of it.
proof fn lemma_place_behind(ahead: Seq<int>, ops: Seq<int>, before: Option<int>)
    requires
        forall|i: int| 0 <= i < ahead.len() ==> Some(#[trigger] ahead[i]) != before,
    ensures
        Graph::place_before(ahead + ops, before) == ahead.len() + Graph::place_before(ops, before),
    decreases ahead.len(),
{
    if ahead.len() == 0 {
        assert(ahead + ops =~= ops);
    } else {
        let rest = ahead.drop_first();
        assert forall|i: int| 0 <= i < rest.len() implies Some(#[trigger] rest[i]) != before by {
            assert(rest[i] == ahead[i + 1]);
        }
        lemma_place_behind(rest, ops, before);
        assert((ahead + ops).drop_first() =~= rest + ops);
        assert((ahead + ops)[0] == ahead[0]);
    }
}

/// Whether the operations that were added stand, in order, ahead of all others where
/// the function is entered, and nowhere else.
pub open spec fn ops_ahead(g: Graph, h: Graph) -> bool {
    h.start == g.start && h.blocks == g.blocks.update(
        g.start->0,
        run(g.ops.len() as int, h.ops.len() as int) + g.blocks[g.start->0],
    )
}

/// Putting in the next operation keeps the added ones in order.
proof fn lemma_insert_ahead(g: Graph, h: Graph, h2: Graph, site: Site)
    requires
        g.linked(),
        g.start == Some(site.block),
        site.before == g.head(site.block),
        ops_ahead(g, h),
        g.ops.len() <= h.ops.len(),
        h2.start == h.start,
        h2.ops.len() == h.ops.len() + 1,
        h2.blocks == h.insert_op(h.ops.len() as int, site.block, site.before).blocks,
    ensures
        ops_ahead(g, h2),
{
    let b = site.block;
    let k = h.ops.len() as int;
    let ahead = run(g.ops.len() as int, k);
    let list = g.blocks[b];
    assert forall|i: int| 0 <= i < ahead.len() implies Some(#[trigger] ahead[i])
        != site.before by {
        if list.len() > 0 {
            assert(0 <= g.blocks[b][0] < g.ops.len());
        }
    }
    lemma_place_behind(ahead, list, site.before);
    assert(Graph::place_before(list, site.before) == 0);
    assert(h.blocks[b] == ahead + list);
    assert((ahead + list).insert(ahead.len() as int, k) =~= run(g.ops.len() as int, k + 1) + list);
    assert(h2.blocks =~= g.blocks.update(b, run(g.ops.len() as int, k + 1) + list));
}

/// The operations of laid segments stand in order.
proof fn lemma_laid_ahead(g: Graph, plan: Seq<Seg>, site: Site, n: int)
    requires
        g.linked(),
        g.start == Some(site.block),
        site.before == g.head(site.block),
        plan_spans(g, site.space, plan),
        0 <= n <= plan.len(),
    ensures
        ops_ahead(g, laid(g, plan.take(n), site).0),
    decreases n,
{
    if n > 0 {
        lemma_laid_ahead(g, plan, site, n - 1);
        lemma_laid(g, plan, site, n - 1);
        assert(plan.take(n).drop_last() =~= plan.take(n - 1));
        assert(plan.take(n).last() == plan[n - 1]);
        let h = laid(g, plan.take(n - 1), site).0;
        let h2 = laid(g, plan.take(n), site).0;
        let seg = plan[n - 1];
        if seg.source matches Some(src) && !is_whole(seg, src) {
            lemma_insert_ahead(g, h, h2, site);
        }
    } else {
        assert(plan.take(0) =~= Seq::empty());
        assert(run(g.ops.len() as int, g.ops.len() as int) + g.blocks[site.block]
            =~= g.blocks[site.block]);
        assert(g.blocks =~= g.blocks.update(site.block, g.blocks[site.block]));
    }
}

/// The operations of joined parts stand in order, behind those that were there.
proof fn lemma_joined_ahead(
    g: Graph,
    g1: Graph,
    order: Seq<Part>,
    n: int,
    whole: Vn,
    site: Site,
)
    requires
        g.linked(),
        g.start == Some(site.block),
        site.before == g.head(site.block),
        g1.linked(),
        grown(g, g1),
        ops_ahead(g, g1),
        1 <= n <= order.len(),
        chained(order, site.space.big_endian),
        chain_size(order, order.len() as int, site.space.big_endian) <= i32::MAX,
        whole.size == chain_size(order, order.len() as int, site.space.big_endian),
        0 <= whole.offset < offsets(),
        forall|i: int| 0 <= i < order.len() ==> g1.live((#[trigger] order[i]).id),
    ensures
        ops_ahead(g, joined(g1, order, n, whole, site).0),
    decreases n,
{
    if n > 1 {
        lemma_joined_ahead(g, g1, order, n - 1, whole, site);
        lemma_joined(g1, order, n - 1, whole, site);
        let h = joined(g1, order, n - 1, whole, site).0;
        let h2 = joined(g1, order, n, whole, site).0;
        lemma_insert_ahead(g, h, h2, site);
    }
}

/// The operations that rebuild a value stand, in order, ahead of all others where the
/// function is entered.
pub proof fn lemma_composed_ahead(g: Graph, plan: Seq<Seg>, size: int, addr: Address)
    requires
        g.linked(),
        g.start is Some,
        addr.base is Some,
        plan_fits(g, addr.base->0, addr.offset as int, addr.offset + size, plan),
        g.wf() || forall|i: int| 0 <= i < plan.len() ==> (#[trigger] plan[i]).size > 0,
    ensures
        ops_ahead(g, composed(g, plan, size, addr).0),
{
    let space = addr.base->0;
    let site = entry_site(g, space);
    let n = plan.len() as int;
    lemma_composed(g, plan, size, addr);
    lemma_laid_ahead(g, plan, site, n);
    let (g1, tiles) = laid(g, plan, site);
    let order = by_significance(tiles, space.big_endian);
    let whole = place_vn(space, addr.offset as int, size);
    lemma_joined_ahead(g, g1, order, n, whole, site);
}

} // verus!
