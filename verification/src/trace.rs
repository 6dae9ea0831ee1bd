//! What rebuilding and folding add to a function, one by one.

use crate::address::{AddrSpace, Address};
use crate::fold::{
    first_folded, folded, hi_lo, holes_filled, in_line, lemma_fold_step, lemma_line_ordered,
    parts_held, span,
};
use crate::graph::{offsets, Graph};
use crate::op::{Op, OpCode};
use crate::plan::Seg;
use crate::rebuild::{
    chain_size, chained, grown, is_whole, joined, laid, laid_segment, lemma_chain_size,
    lemma_segment_still_fits, plan_spans, Part, Site,
};
use crate::shape::{among, lemma_folded, lemma_joined, lemma_laid, reads_apart};
use crate::soundness::lemma_combine_shape;
use crate::varnode::{Origin, Vn};
use vstd::prelude::*;

verus! {

/// Whether storage is cut from other storage by leaving off bytes: the one lies in the
/// other, and the constant says how many of the least significant bytes are left off.
pub open spec fn cut_from(out: Vn, src: Vn, skip: Vn, constant: AddrSpace) -> bool {
    &&& skip.origin == Origin::Constant
    &&& skip.base == Some(constant)
    &&& skip.size == 4
    &&& !skip.write_mask
    &&& out.base == src.base
    &&& out.size >= 0
    &&& src.offset <= out.offset
    &&& out.end() <= src.end()
    &&& skip.offset == (if (src.base matches Some(space) && space.big_endian) {
        src.end() - out.end()
    } else {
        out.offset - src.offset
    })
}

/// Whether an operation at the address of the function slices a varnode: its output is
/// storage of the varnode, and it leaves off what does not belong to that storage.
pub open spec fn slices(h: Graph, k: int, s: int) -> bool {
    let op = h.ops[k];
    &&& op.code == OpCode::CPUI_SUBPIECE
    &&& op.addr == h.address
    &&& op.inputs.len() == 2
    &&& op.inputs[0] == Some(s)
    &&& op.inputs[1] is Some
    &&& op.output is Some
    &&& h.live(s)
    &&& h.live(op.inputs[1]->0)
    &&& h.live(op.output->0)
    &&& cut_from(h.vn(op.output->0), h.vn(s), h.vn(op.inputs[1]->0), h.constant)
}

/// Whether one of the operations from a number on counts with the constant: it is its
/// second operand.
pub open spec fn counted(h: Graph, from: int, u: int) -> bool {
    exists|k: int|
        from <= k < h.ops.len() && (#[trigger] h.ops[k]).inputs.len() == 2 && h.ops[k].inputs[1]
            == Some(u)
}

/// What stands for a segment: a new input for a hole, the source itself where the
/// segment is the whole of it, and a slice of the source else.
pub open spec fn tile_laid(g: Graph, h: Graph, space: AddrSpace, seg: Seg, id: int) -> bool {
    match seg.source {
        None => {
            &&& id >= g.varnodes.len()
            &&& h.live(id)
            &&& h.vn(id) == (Vn {
                base: Some(space),
                offset: seg.off,
                size: seg.size,
                origin: Origin::Input,
                write_mask: false,
            })
        },
        Some(src) => if seg.off == src.lo && seg.off + seg.size == src.hi {
            id == src.id
        } else {
            let k = h.vn(id).origin->Written_0;
            &&& id >= g.varnodes.len()
            &&& h.live(id)
            &&& h.vn(id) == (Vn {
                base: Some(space),
                offset: seg.off,
                size: seg.size,
                origin: Origin::Written(k),
                write_mask: false,
            })
            &&& g.ops.len() <= k < h.ops.len()
            &&& h.ops[k].output == Some(id)
            &&& slices(h, k, src.id)
        },
    }
}

/// A slice stays one while the function grows.
pub proof fn lemma_slices_grown(h: Graph, h2: Graph, k: int, s: int)
    requires
        grown(h, h2),
        0 <= k < h.ops.len(),
        slices(h, k, s),
    ensures
        slices(h2, k, s),
{
    let op = h.ops[k];
    assert(h2.ops[k] == op);
    assert(h2.varnodes[s] == h.varnodes[s]);
    assert(h2.varnodes[op.inputs[1]->0] == h.varnodes[op.inputs[1]->0]);
    assert(h2.varnodes[op.output->0] == h.varnodes[op.output->0]);
}

/// What stands for a segment stands for it while the function grows.
pub proof fn lemma_tile_laid_grown(
    g: Graph,
    h: Graph,
    h2: Graph,
    space: AddrSpace,
    seg: Seg,
    id: int,
)
    requires
        grown(h, h2),
        tile_laid(g, h, space, seg, id),
    ensures
        tile_laid(g, h2, space, seg, id),
{
    if h.live(id) {
        assert(h2.varnodes[id] == h.varnodes[id]);
    }
    if let Some(src) = seg.source {
        if !(seg.off == src.lo && seg.off + seg.size == src.hi) {
            let k = h.vn(id).origin->Written_0;
            assert(h2.ops[k] == h.ops[k]);
            lemma_slices_grown(h, h2, k, src.id);
        }
    }
}

/// What laying the first `n` segments of a plan adds.
pub proof fn lemma_laid_trace(g: Graph, plan: Seq<Seg>, site: Site, n: int)
    requires
        g.linked(),
        g.start == Some(site.block),
        site.addr == g.address,
        plan_spans(g, site.space, plan),
        0 <= n <= plan.len(),
    ensures
        ({
            let (h, tiles) = laid(g, plan.take(n), site);
            &&& h.next_unique == g.next_unique
            &&& forall|i: int|
                0 <= i < n ==> tile_laid(g, h, site.space, plan[i], (#[trigger] tiles[i]).id)
            &&& forall|k: int|
                g.ops.len() <= k < h.ops.len() ==> (#[trigger] h.ops[k]).code
                    == OpCode::CPUI_SUBPIECE && h.ops[k].output is Some && among(
                    tiles,
                    h.ops[k].output->0,
                )
            &&& forall|u: int|
                g.varnodes.len() <= u < h.varnodes.len() ==> (#[trigger] h.varnodes[u]) is Some && (
                among(tiles, u) || (h.vn(u).origin == Origin::Constant && counted(
                    h,
                    g.ops.len() as int,
                    u,
                )))
        }),
    decreases n,
{
    if n > 0 {
        lemma_laid_trace(g, plan, site, n - 1);
        lemma_laid(g, plan, site, n - 1);
        lemma_laid(g, plan, site, n);
        assert(plan.take(n).drop_last() =~= plan.take(n - 1));
        assert(plan.take(n).last() == plan[n - 1]);
        let (h1, tiles1) = laid(g, plan.take(n - 1), site);
        let (h, tiles) = laid(g, plan.take(n), site);
        let seg = plan[n - 1];
        let m = h1.varnodes.len() as int;
        let k1 = h1.ops.len() as int;
        lemma_segment_still_fits(g, h1, site.space, plan, n - 1);
        assert(h == laid_segment(h1, seg, site).0);
        assert(tiles[n - 1].id == laid_segment(h1, seg, site).1);
        assert(grown(h1, h));
        if let Some(src) = seg.source {
            assert(h1.live(src.id));
            assert(h.varnodes[src.id] == h1.varnodes[src.id]);
            if !is_whole(seg, src) {
                assert(h.ops[k1].output == Some(m));
                assert(h.ops[k1].inputs == seq![Some(src.id), Some(m + 1)]);
                assert(slices(h, k1, src.id));
                assert(counted(h, g.ops.len() as int, m + 1));
            }
        }
        assert(tile_laid(g, h, site.space, seg, tiles[n - 1].id));
        assert forall|i: int| 0 <= i < n implies tile_laid(
            g,
            h,
            site.space,
            plan[i],
            (#[trigger] tiles[i]).id,
        ) by {
            if i < n - 1 {
                assert(tiles[i] == tiles1[i]);
                lemma_tile_laid_grown(g, h1, h, site.space, plan[i], tiles1[i].id);
            }
        }
        assert forall|v: int| #[trigger] among(tiles1, v) implies among(tiles, v) by {
            let i = choose|i: int| 0 <= i < tiles1.len() && (#[trigger] tiles1[i]).id == v;
            assert(tiles[i] == tiles1[i]);
        }
        assert(among(tiles, tiles[n - 1].id));
        assert forall|k: int| g.ops.len() <= k < h.ops.len() implies (#[trigger] h.ops[k]).code
            == OpCode::CPUI_SUBPIECE && h.ops[k].output is Some && among(
            tiles,
            h.ops[k].output->0,
        ) by {
            if k < k1 {
                assert(h.ops[k] == h1.ops[k]);
            }
        }
        assert forall|u: int| g.varnodes.len() <= u < h.varnodes.len() implies (
        #[trigger] h.varnodes[u]) is Some && (among(tiles, u) || (h.vn(u).origin
            == Origin::Constant && counted(h, g.ops.len() as int, u))) by {
            if u < m {
                assert(h.varnodes[u] == h1.varnodes[u]);
                if !among(tiles1, u) {
                    assert(counted(h1, g.ops.len() as int, u));
                    let k = choose|k: int|
                        g.ops.len() <= k < h1.ops.len() && (#[trigger] h1.ops[k]).inputs.len() == 2
                            && h1.ops[k].inputs[1] == Some(u);
                    assert(h.ops[k] == h1.ops[k]);
                }
            }
        }
    } else {
        assert(plan.take(0) =~= Seq::empty());
    }
}

/// What the join of the part `j` with those before it adds: an operation and its output.
/// The last join writes `whole`; each of the others writes the next temporary.
pub open spec fn join_made(
    g: Graph,
    h: Graph,
    order: Seq<Part>,
    j: int,
    whole: Vn,
    addr: Address,
    big_endian: bool,
) -> bool {
    let k = g.ops.len() + j - 1;
    let u = g.varnodes.len() + j - 1;
    let out = h.vn(u);
    &&& h.ops[k] == Op {
        code: OpCode::CPUI_PIECE,
        addr,
        inputs: seq![
            Some(
                if j == 1 {
                    order[0].id
                } else {
                    u - 1
                },
            ),
            Some(order[j].id),
        ],
        output: Some(u),
    }
    &&& h.live(u)
    &&& out.origin == Origin::Written(k)
    &&& j == order.len() - 1 ==> out == (Vn { origin: Origin::Written(k), ..whole })
    &&& j < order.len() - 1 ==> {
        &&& out.base == Some(g.unique)
        &&& out.size == chain_size(order, j + 1, big_endian)
        &&& !out.write_mask
        &&& out.offset == (if j == 1 {
            g.next_unique
        } else {
            (h.vn(u - 1).offset + h.vn(u - 1).size) % offsets()
        })
    }
}

/// What joining the first `n` parts adds.
pub proof fn lemma_joined_trace(g: Graph, order: Seq<Part>, n: int, whole: Vn, site: Site)
    requires
        g.linked(),
        g.start == Some(site.block),
        1 <= n <= order.len(),
        chained(order, site.space.big_endian),
        chain_size(order, order.len() as int, site.space.big_endian) <= i32::MAX,
        whole.size == chain_size(order, order.len() as int, site.space.big_endian),
        0 <= whole.offset < offsets(),
        forall|i: int| 0 <= i < order.len() ==> g.live((#[trigger] order[i]).id),
    ensures
        ({
            let (h, value, size) = joined(g, order, n, whole, site);
            let t = if n < order.len() {
                n - 1
            } else {
                n - 2
            };
            &&& h.ops.len() == g.ops.len() + n - 1
            &&& h.varnodes.len() == g.varnodes.len() + n - 1
            &&& value == (if n == 1 {
                order[0].id
            } else {
                g.varnodes.len() + n - 2
            })
            &&& forall|j: int|
                1 <= j < n ==> #[trigger] join_made(
                    g,
                    h,
                    order,
                    j,
                    whole,
                    site.addr,
                    site.space.big_endian,
                )
            &&& h.next_unique == (if t <= 0 {
                g.next_unique
            } else {
                (h.vn(g.varnodes.len() + t - 1).offset + h.vn(g.varnodes.len() + t - 1).size)
                    % offsets()
            })
        }),
    decreases n,
{
    if n > 1 {
        let be = site.space.big_endian;
        lemma_joined_trace(g, order, n - 1, whole, site);
        lemma_joined(g, order, n - 1, whole, site);
        lemma_joined(g, order, n, whole, site);
        lemma_chain_size(order, n - 1, order.len() as int, be);
        let (h1, value1, size1) = joined(g, order, n - 1, whole, site);
        let (h, value, size) = joined(g, order, n, whole, site);
        assert(grown(h1, h));
        let m = g.varnodes.len() as int;
        if n > 2 {
            assert(join_made(g, h1, order, n - 2, whole, site.addr, be));
            assert(h.varnodes[m + n - 3] == h1.varnodes[m + n - 3]);
        }
        assert forall|j: int| 1 <= j < n implies #[trigger] join_made(
            g,
            h,
            order,
            j,
            whole,
            site.addr,
            be,
        ) by {
            let u = m + j - 1;
            let k = g.ops.len() + j - 1;
            if j < n - 1 {
                assert(join_made(g, h1, order, j, whole, site.addr, be));
                assert(h.ops[k] == h1.ops[k]);
                assert(h.varnodes[u] == h1.varnodes[u]);
                if j > 1 {
                    assert(join_made(g, h1, order, j - 1, whole, site.addr, be));
                    assert(h.varnodes[u - 1] == h1.varnodes[u - 1]);
                }
            } else {
                assert(h.varnodes[u] is Some);
                assert(0 <= g.next_unique < offsets());
            }
        }
    }
}

/// The numbers below one, down to another.
pub open spec fn down(from: int, to: int) -> Seq<int> {
    Seq::new((from - to) as nat, |i: int| from - 1 - i)
}

/// Whether the operations that were added stand where the function is entered, the last
/// one first, ahead of all others, and nowhere else.
pub open spec fn ops_stacked(g: Graph, h: Graph) -> bool {
    &&& h.start == g.start
    &&& match g.start {
        Some(b) => h.blocks == g.blocks.update(
            b,
            down(h.ops.len() as int, g.ops.len() as int) + g.blocks[b],
        ),
        None => h.blocks == g.blocks && h.ops.len() == g.ops.len(),
    }
}

/// Stacking on keeps what was stacked.
proof fn lemma_stacked_trans(a: Graph, b: Graph, c: Graph)
    requires
        a.start matches Some(s) ==> 0 <= s < a.blocks.len(),
        a.ops.len() <= b.ops.len() <= c.ops.len(),
        ops_stacked(a, b),
        ops_stacked(b, c),
    ensures
        ops_stacked(a, c),
{
    if let Some(s) = a.start {
        let x = down(b.ops.len() as int, a.ops.len() as int);
        let y = down(c.ops.len() as int, b.ops.len() as int);
        let z = down(c.ops.len() as int, a.ops.len() as int);
        assert(y + x =~= z);
        assert(b.blocks[s] == x + a.blocks[s]);
        assert(y + (x + a.blocks[s]) =~= z + a.blocks[s]);
        assert(c.blocks =~= a.blocks.update(s, z + a.blocks[s]));
    }
}

/// A cut stands ahead of all others where the function is entered.
proof fn lemma_cut_back_stacked(g: Graph, source: int, skip: int, vn: Vn)
    requires
        g.start matches Some(b) && 0 <= b < g.blocks.len(),
    ensures
        ops_stacked(g, g.cut_back(source, skip, vn)),
        g.cut_back(source, skip, vn).ops.len() == g.ops.len() + 1,
{
    let b = g.start->0;
    let h = g.cut_back(source, skip, vn);
    let k = g.ops.len() as int;
    let x = down(k + 1, k);
    assert(Graph::place_before(g.blocks[b], g.head(b)) == 0);
    assert(g.blocks[b].insert(0, k) =~= x + g.blocks[b]);
    assert(h.blocks =~= g.blocks.update(b, x + g.blocks[b]));
}

/// The operations that folding two inputs adds stand where the function is entered, the
/// last one first, ahead of all others.
pub proof fn lemma_combine_stacked(g: Graph, hi: int, lo: int)
    requires
        g.linked(),
        g.cuttable(hi, lo),
    ensures
        ops_stacked(g, g.combine(hi, lo)),
{
    let j = g.varnodes.len() as int;
    let g1 = g.destroy(hi).destroy(lo).add_varnode(g.joined_vn(hi, lo));
    let g2 = if g.read_apart(hi, hi, lo) {
        g1.cut_back(j, g.vn(lo).size, g.vn(hi))
    } else {
        g1
    };
    let g3 = if g.read_apart(lo, hi, lo) {
        g2.cut_back(j, 0, g.vn(lo))
    } else {
        g2
    };
    lemma_nothing_stacked(g, g1);
    if g.read_apart(hi, hi, lo) {
        lemma_cut_back_stacked(g1, j, g.vn(lo).size, g.vn(hi));
    } else {
        lemma_nothing_stacked(g1, g2);
    }
    lemma_stacked_trans(g, g1, g2);
    if g.read_apart(lo, hi, lo) {
        lemma_cut_back_stacked(g2, j, 0, g.vn(lo));
    } else {
        lemma_nothing_stacked(g2, g3);
    }
    lemma_stacked_trans(g, g2, g3);
    assert(g.combine(hi, lo).blocks == g3.blocks);
    assert(g.combine(hi, lo).ops.len() == g3.ops.len());
}

/// Without operations added, the blocks are as they were.
pub proof fn lemma_nothing_stacked(g: Graph, h: Graph)
    requires
        g.start matches Some(b) ==> 0 <= b < g.blocks.len(),
        h.start == g.start,
        h.blocks == g.blocks,
        h.ops.len() == g.ops.len(),
    ensures
        ops_stacked(g, h),
{
    if let Some(b) = g.start {
        let x = down(g.ops.len() as int, g.ops.len() as int);
        assert(x + g.blocks[b] =~= g.blocks[b]);
        assert(g.blocks.update(b, g.blocks[b]) =~= g.blocks);
    }
}

/// Whether a varnode stands in for storage that was folded: the output of a new slice,
/// of exactly that storage, which renaming passes over.
pub open spec fn stands_in(
    g: Graph,
    h: Graph,
    base: Option<AddrSpace>,
    offset: int,
    size: int,
    w: int,
) -> bool {
    let l = h.vn(w).origin->Written_0;
    &&& w >= g.varnodes.len()
    &&& h.live(w)
    &&& h.vn(w).is_at(base, offset, size)
    &&& h.vn(w).write_mask
    &&& h.vn(w).origin is Written
    &&& g.ops.len() <= l < h.ops.len()
    &&& h.ops[l].code == OpCode::CPUI_SUBPIECE
}

/// What becomes of an operand: what stands in for it, if it was folded; else it stays.
pub open spec fn slot_followed(
    g: Graph,
    h: Graph,
    tiles: Seq<Part>,
    old_in: Option<int>,
    new_in: Option<int>,
) -> bool {
    if old_in is Some && among(tiles, old_in->0) {
        let vn = g.vn(old_in->0);
        new_in is Some && stands_in(g, h, vn.base, vn.offset, vn.size, new_in->0)
    } else {
        new_in == old_in
    }
}

/// What becomes of an operation when parts are folded: one that joined the first two
/// copies what holds them; the others go on with what stands in for their operands.
pub open spec fn op_followed(
    g: Graph,
    h: Graph,
    tiles: Seq<Part>,
    space: AddrSpace,
    answer: int,
    k: int,
) -> bool {
    let op = g.ops[k];
    let new = h.ops[k];
    let (hi, lo) = hi_lo(tiles[0], tiles[1], space.big_endian);
    &&& new.addr == op.addr
    &&& new.output == op.output
    &&& if tiles.len() <= 1 {
        new == op
    } else if op.joins(hi, lo) {
        &&& new.code == OpCode::CPUI_COPY
        &&& new.inputs.len() == 1
        &&& new.inputs[0] is Some
        &&& tiles.len() == 2 ==> new.inputs[0] == Some(answer)
        &&& tiles.len() > 2 ==> stands_in(
            g,
            h,
            Some(space),
            tiles[0].off,
            tiles[0].size + tiles[1].size,
            new.inputs[0]->0,
        )
    } else {
        &&& new.code == op.code
        &&& new.inputs.len() == op.inputs.len()
        &&& forall|s: int|
            0 <= s < op.inputs.len() ==> slot_followed(
                g,
                h,
                tiles,
                #[trigger] op.inputs[s],
                new.inputs[s],
            )
    }
}

/// What becomes of the operations when parts are folded.
pub proof fn lemma_folded_ops(g: Graph, tiles: Seq<Part>, space: AddrSpace)
    requires
        g.linked(),
        parts_held(g, tiles, space),
        span(tiles) <= i32::MAX,
        folded(g, tiles, space.big_endian).1 is Some,
    ensures
        ({
            let (h, answer) = folded(g, tiles, space.big_endian);
            forall|k: int|
                0 <= k < g.ops.len() ==> #[trigger] op_followed(
                    g,
                    h,
                    tiles,
                    space,
                    answer->0,
                    k,
                )
        }),
    decreases tiles.len(),
{
    if tiles.len() > 1 {
        let be = space.big_endian;
        let (h, answer) = folded(g, tiles, be);
        let (hi, lo) = hi_lo(tiles[0], tiles[1], be);
        let rest = first_folded(g, tiles);
        let g1 = g.combine(hi, lo);
        let j = g.varnodes.len() as int;
        let m = g.ops.len() as int;
        let cut_hi = g.read_apart(hi, hi, lo);
        let cut_lo = g.read_apart(lo, hi, lo);
        let lo_cut = if cut_hi {
            j + 3
        } else {
            j + 1
        };
        let (hi2, lo2) = hi_lo(rest[0], rest[1], be);
        lemma_fold_step(g, tiles, space);
        lemma_combine_shape(g, hi, lo);
        lemma_folded(g1, rest, space);
        lemma_folded_ops(g1, rest, space);
        lemma_first_two(tiles, be);
        assert(g.live(hi) && g.live(lo));
        assert(g.is_input_at(tiles[0].id, Some(space), tiles[0].off, tiles[0].size));
        assert(g.is_input_at(tiles[1].id, Some(space), tiles[1].off, tiles[1].size));
        // A cut of the first two is not one of the parts that are folded on.
        assert forall|v: int| #[trigger] among(rest, v) implies g1.is_input(v) by {
            let i = choose|i: int| 0 <= i < rest.len() && (#[trigger] rest[i]).id == v;
            assert(g1.is_input_at(v, Some(space), rest[i].off, rest[i].size));
        }
        assert forall|l: int| 0 <= l < g1.ops.len() && g1.ops[l].code
            == OpCode::CPUI_SUBPIECE implies (#[trigger] h.ops[l]).code
            == OpCode::CPUI_SUBPIECE by {
            assert(op_followed(g1, h, rest, space, answer->0, l));
        }
        if cut_hi {
            assert(g1.live(j + 1) && !among(rest, j + 1));
            assert(h.vn(j + 1) == g1.vn(j + 1));
            assert(h.ops[m].code == OpCode::CPUI_SUBPIECE);
            assert(stands_in(g, h, g.vn(hi).base, g.vn(hi).offset, g.vn(hi).size, j + 1));
        }
        if cut_lo {
            let lo_op = if cut_hi {
                m + 1
            } else {
                m
            };
            assert(g1.live(lo_cut) && !among(rest, lo_cut));
            assert(h.vn(lo_cut) == g1.vn(lo_cut));
            assert(h.ops[lo_op].code == OpCode::CPUI_SUBPIECE);
            assert(stands_in(g, h, g.vn(lo).base, g.vn(lo).offset, g.vn(lo).size, lo_cut));
        }
        assert forall|k: int| 0 <= k < m implies #[trigger] op_followed(
            g,
            h,
            tiles,
            space,
            answer->0,
            k,
        ) by {
            let op = g.ops[k];
            let op1 = g1.ops[k];
            let new = h.ops[k];
            assert(op1 == op.rewired(hi, lo, j, j + 1, lo_cut));
            assert(op_followed(g1, h, rest, space, answer->0, k));
            if op.joins(hi, lo) {
                if tiles.len() > 2 {
                    assert(op1.inputs[0] == Some(j));
                    assert(among(rest, j)) by {
                        assert(rest[0].id == j);
                    }
                    assert(slot_followed(g1, h, rest, op1.inputs[0], new.inputs[0]));
                }
            } else {
                assert forall|s: int| 0 <= s < op.inputs.len() implies #[trigger] op1.inputs[s]
                    != Some(j) by {
                    if op1.inputs[s] == Some(j) {
                        assert(op.inputs[s] == Some(j));
                        assert(op.inputs[s] is Some);
                        assert(g.live(j));
                    }
                }
                if tiles.len() > 2 && op1.joins(hi2, lo2) {
                    assert(seq![Some(hi2), Some(lo2)].len() == 2);
                    assert(op1.inputs.len() == op.inputs.len());
                    assert(op1.inputs[0] == Some(hi2) && op1.inputs[1] == Some(lo2));
                    assert(op1.inputs[0] != Some(j) && op1.inputs[1] != Some(j));
                }
                assert forall|s: int| 0 <= s < op.inputs.len() implies slot_followed(
                    g,
                    h,
                    tiles,
                    #[trigger] op.inputs[s],
                    new.inputs[s],
                ) by {
                    if tiles.len() > 2 {
                        assert(slot_followed(g1, h, rest, op1.inputs[s], new.inputs[s]));
                    } else {
                        assert(new == op1);
                    }
                    if op.inputs[s] is Some {
                        let v = op.inputs[s]->0;
                        assert(op.reads(v));
                        assert(g.live(v));
                        if v == hi || v == lo {
                            assert(among(tiles, v));
                            assert(!among(rest, op1.inputs[s]->0));
                        } else {
                            assert(op1.inputs[s] == Some(v));
                            assert(g1.varnodes[v] == g.varnodes[v]);
                            lemma_among_rest(g, tiles, v);
                        }
                    }
                }
            }
        }
    }
}

/// The first two parts are those that are folded first.
proof fn lemma_first_two(tiles: Seq<Part>, big_endian: bool)
    requires
        tiles.len() > 1,
    ensures
        among(tiles, hi_lo(tiles[0], tiles[1], big_endian).0),
        among(tiles, hi_lo(tiles[0], tiles[1], big_endian).1),
        among(tiles, tiles[0].id),
        among(tiles, tiles[1].id),
{
}

/// Of the numbers that there were, those of the parts are those of the first two and of
/// the parts that are folded on.
proof fn lemma_among_rest(g: Graph, tiles: Seq<Part>, v: int)
    requires
        tiles.len() > 1,
        0 <= v < g.varnodes.len(),
        v != tiles[0].id,
        v != tiles[1].id,
    ensures
        among(first_folded(g, tiles), v) == among(tiles, v),
{
    let rest = first_folded(g, tiles);
    if among(tiles, v) {
        let i = choose|i: int| 0 <= i < tiles.len() && (#[trigger] tiles[i]).id == v;
        assert(rest[i - 1] == tiles[i]);
    }
    if among(rest, v) {
        let i = choose|i: int| 0 <= i < rest.len() && (#[trigger] rest[i]).id == v;
        assert(rest[i] == tiles[i + 1]);
    }
}

/// What an operation does that folding adds: it slices what holds all the parts, or what
/// was sliced from that by an operation added later, from the start of the parts on.
/// Its output is passed over by renaming, and an operation reads it.
pub open spec fn cut_made(
    g: Graph,
    h: Graph,
    base: Option<AddrSpace>,
    start: int,
    answer: int,
    k: int,
) -> bool {
    let s = h.ops[k].inputs[0]->0;
    let out = h.ops[k].output->0;
    let l = h.vn(s).origin->Written_0;
    &&& slices(h, k, s)
    &&& out >= g.varnodes.len()
    &&& h.vn(out).write_mask
    &&& h.is_read(out)
    &&& s == answer || {
        &&& s >= g.varnodes.len()
        &&& h.vn(s).origin is Written
        &&& k < l < h.ops.len()
        &&& h.vn(s).base == base
        &&& h.vn(s).offset == start
    }
}

/// What the first step of folding parts adds, as it is when all of them are folded.
#[verifier::spinoff_prover]
#[verifier::rlimit(40)]
proof fn lemma_first_cut(g: Graph, tiles: Seq<Part>, space: AddrSpace, k: int)
    requires
        g.linked(),
        parts_held(g, tiles, space),
        span(tiles) <= i32::MAX,
        tiles.len() > 1,
        folded(g, tiles, space.big_endian).1 is Some,
        ({
            let (hi, lo) = hi_lo(tiles[0], tiles[1], space.big_endian);
            g.ops.len() <= k < g.combine(hi, lo).ops.len()
        }),
    ensures
        ({
            let (h, answer) = folded(g, tiles, space.big_endian);
            cut_made(g, h, Some(space), tiles[0].off, answer->0, k)
        }),
{
    let be = space.big_endian;
    let (h, answer) = folded(g, tiles, be);
    let (hi, lo) = hi_lo(tiles[0], tiles[1], be);
    let rest = first_folded(g, tiles);
    let g1 = g.combine(hi, lo);
    let j = g.varnodes.len() as int;
    let m = g.ops.len() as int;
    let cut_hi = g.read_apart(hi, hi, lo);
    lemma_fold_step(g, tiles, space);
    lemma_combine_shape(g, hi, lo);
    lemma_folded(g1, rest, space);
    lemma_folded_ops(g1, rest, space);
    assert(g.live(hi) && g.live(lo));
    assert(g.is_input_at(tiles[0].id, Some(space), tiles[0].off, tiles[0].size));
    assert(g.is_input_at(tiles[1].id, Some(space), tiles[1].off, tiles[1].size));
    assert(tiles[0].off + tiles[0].size == tiles[1].off);
    assert(tiles[0].size >= 0 && tiles[1].size >= 0);
    lemma_rest_inputs(g1, rest, space);
    assert(among(rest, j)) by {
        assert(rest[0].id == j);
    }
    let op1 = g1.ops[k];
    let new = h.ops[k];
    let out = op1.output->0;
    let c = op1.inputs[1]->0;
    let v = if cut_hi && k == m {
        hi
    } else {
        lo
    };
    assert(op1.code == OpCode::CPUI_SUBPIECE);
    assert(op1.inputs == seq![Some(j), Some(c)]);
    assert(c == out + 1);
    assert(g1.live(out) && g1.live(c));
    assert(slices(g1, k, j));
    assert(op_followed(g1, h, rest, space, answer->0, k));
    assert(!among(rest, c) && !among(rest, out));
    assert(h.vn(c) == g1.vn(c) && h.vn(out) == g1.vn(out));
    if rest.len() > 1 {
        assert(slot_followed(g1, h, rest, op1.inputs[0], new.inputs[0]));
        assert(slot_followed(g1, h, rest, op1.inputs[1], new.inputs[1]));
    } else {
        assert(answer == Some(j));
    }
    assert(slices(h, k, new.inputs[0]->0)) by {
        lemma_folded_kept(g, tiles, space);
    }
    // Who read the part apart reads what was cut for it.
    assert(h.is_read(out)) by {
        let q = choose|q: int|
            0 <= q < g.ops.len() && #[trigger] g.ops[q].reads(v) && !g.ops[q].joins(hi, lo);
        let s = choose|s: int|
            0 <= s < g.ops[q].inputs.len() && #[trigger] g.ops[q].inputs[s] == Some(v);
        assert(g1.ops[q].inputs[s] == Some(out));
        assert(op_followed(g1, h, rest, space, answer->0, q));
        if rest.len() > 1 {
            let (hi2, lo2) = hi_lo(rest[0], rest[1], be);
            lemma_first_two(rest, be);
            if g1.ops[q].joins(hi2, lo2) {
                assert(g1.ops[q].inputs[s] == Some(hi2) || g1.ops[q].inputs[s] == Some(lo2));
            }
            assert(slot_followed(g1, h, rest, g1.ops[q].inputs[s], h.ops[q].inputs[s]));
        }
        assert(h.ops[q].inputs[s] == Some(out));
        assert(h.ops[q].reads(out));
    }
}

/// Parts that are held are inputs.
proof fn lemma_rest_inputs(g: Graph, tiles: Seq<Part>, space: AddrSpace)
    requires
        parts_held(g, tiles, space),
    ensures
        forall|v: int| #[trigger] among(tiles, v) ==> g.is_input(v),
{
    assert forall|v: int| #[trigger] among(tiles, v) implies g.is_input(v) by {
        let i = choose|i: int| 0 <= i < tiles.len() && (#[trigger] tiles[i]).id == v;
        assert(g.is_input_at(v, Some(space), tiles[i].off, tiles[i].size));
    }
}

/// What folding leaves of the function as it was.
pub proof fn lemma_folded_kept(g: Graph, tiles: Seq<Part>, space: AddrSpace)
    requires
        g.linked(),
        parts_held(g, tiles, space),
        span(tiles) <= i32::MAX,
    ensures
        ({
            let h = folded(g, tiles, space.big_endian).0;
            &&& h.next_unique == g.next_unique
            &&& h.address == g.address
            &&& h.constant == g.constant
            &&& h.unique == g.unique
            &&& ops_stacked(g, h)
        }),
    decreases tiles.len(),
{
    lemma_nothing_stacked(g, g);
    if tiles.len() > 1 {
        let (hi, lo) = hi_lo(tiles[0], tiles[1], space.big_endian);
        if g.cuttable(hi, lo) {
            let g1 = g.combine(hi, lo);
            let rest = first_folded(g, tiles);
            lemma_fold_step(g, tiles, space);
            lemma_combine_shape(g, hi, lo);
            lemma_combine_stacked(g, hi, lo);
            lemma_folded(g1, rest, space);
            lemma_folded_kept(g1, rest, space);
            lemma_stacked_trans(g, g1, folded(g, tiles, space.big_endian).0);
        }
    }
}

/// What a varnode is that folding adds: what holds all parts, the output of an operation
/// that was added, or a constant that one of those counts with.
pub open spec fn left_by_fold(g: Graph, h: Graph, answer: int, u: int) -> bool {
    ||| u == answer
    ||| h.vn(u).origin is Written && h.vn(u).origin->Written_0 >= g.ops.len()
    ||| h.vn(u).origin == Origin::Constant && counted(h, g.ops.len() as int, u)
}

/// What the first step of folding parts leaves, when all of them are folded.
proof fn lemma_first_left(g: Graph, tiles: Seq<Part>, space: AddrSpace, u: int)
    requires
        g.linked(),
        parts_held(g, tiles, space),
        span(tiles) <= i32::MAX,
        tiles.len() > 1,
        folded(g, tiles, space.big_endian).1 is Some,
        folded(g, tiles, space.big_endian).0.live(u),
        ({
            let (hi, lo) = hi_lo(tiles[0], tiles[1], space.big_endian);
            g.varnodes.len() <= u < g.combine(hi, lo).varnodes.len()
        }),
    ensures
        ({
            let (h, answer) = folded(g, tiles, space.big_endian);
            left_by_fold(g, h, answer->0, u)
        }),
{
    let be = space.big_endian;
    let (h, answer) = folded(g, tiles, be);
    let (hi, lo) = hi_lo(tiles[0], tiles[1], be);
    let rest = first_folded(g, tiles);
    let g1 = g.combine(hi, lo);
    let j = g.varnodes.len() as int;
    let m = g.ops.len() as int;
    let cut_hi = g.read_apart(hi, hi, lo);
    lemma_fold_step(g, tiles, space);
    lemma_combine_shape(g, hi, lo);
    lemma_folded(g1, rest, space);
    lemma_folded_ops(g1, rest, space);
    lemma_rest_inputs(g1, rest, space);
    if u == j {
        assert(among(rest, j)) by {
            assert(rest[0].id == j);
        }
    } else {
        assert(g1.live(u));
        assert(!among(rest, u));
        assert(h.vn(u) == g1.vn(u));
        if g1.vn(u).origin == Origin::Constant {
            let k = if cut_hi && u == j + 2 {
                m
            } else if cut_hi {
                m + 1
            } else {
                m
            };
            assert(g1.ops[k].inputs[1] == Some(u));
            assert(op_followed(g1, h, rest, space, answer->0, k));
            if rest.len() > 1 {
                assert(slot_followed(g1, h, rest, g1.ops[k].inputs[1], h.ops[k].inputs[1]));
            }
            assert(h.ops[k].inputs.len() == 2 && h.ops[k].inputs[1] == Some(u));
        }
    }
}

/// What folding parts adds.
pub proof fn lemma_folded_trace(g: Graph, tiles: Seq<Part>, space: AddrSpace)
    requires
        g.linked(),
        parts_held(g, tiles, space),
        span(tiles) <= i32::MAX,
        folded(g, tiles, space.big_endian).1 is Some,
    ensures
        ({
            let (h, answer) = folded(g, tiles, space.big_endian);
            &&& forall|k: int|
                g.ops.len() <= k < h.ops.len() ==> #[trigger] cut_made(
                    g,
                    h,
                    Some(space),
                    tiles[0].off,
                    answer->0,
                    k,
                )
            &&& forall|u: int|
                u >= g.varnodes.len() && #[trigger] h.live(u) ==> left_by_fold(g, h, answer->0, u)
        }),
    decreases tiles.len(),
{
    let be = space.big_endian;
    let (h, answer) = folded(g, tiles, be);
    if tiles.len() > 1 {
        let (hi, lo) = hi_lo(tiles[0], tiles[1], be);
        let rest = first_folded(g, tiles);
        let g1 = g.combine(hi, lo);
        lemma_fold_step(g, tiles, space);
        lemma_combine_shape(g, hi, lo);
        lemma_folded_trace(g1, rest, space);
        assert forall|k: int| g.ops.len() <= k < h.ops.len() implies #[trigger] cut_made(
            g,
            h,
            Some(space),
            tiles[0].off,
            answer->0,
            k,
        ) by {
            if k < g1.ops.len() {
                lemma_first_cut(g, tiles, space, k);
            } else {
                assert(cut_made(g1, h, Some(space), rest[0].off, answer->0, k));
            }
        }
        assert forall|u: int| u >= g.varnodes.len() && #[trigger] h.live(u) implies left_by_fold(
            g,
            h,
            answer->0,
            u,
        ) by {
            if u < g1.varnodes.len() {
                lemma_first_left(g, tiles, space, u);
            } else {
                assert(left_by_fold(g1, h, answer->0, u));
                if counted(h, g1.ops.len() as int, u) {
                    let k = choose|k: int|
                        g1.ops.len() <= k < h.ops.len() && (#[trigger] h.ops[k]).inputs.len() == 2
                            && h.ops[k].inputs[1] == Some(u);
                    assert(h.ops[k].inputs.len() == 2);
                }
            }
        }
    } else {
        lemma_rest_inputs(g, tiles, space);
    }
}

/// Where no operation reads one of the parts, but to join the two that there are, folding
/// adds no operation.
pub proof fn lemma_folded_quiet(g: Graph, tiles: Seq<Part>, space: AddrSpace)
    requires
        g.linked(),
        parts_held(g, tiles, space),
        span(tiles) <= i32::MAX,
        tiles.len() > 1,
        forall|k: int, i: int|
            0 <= k < g.ops.len() && 0 <= i < tiles.len() ==> !(#[trigger] reads_apart(
                g,
                tiles,
                space.big_endian,
                k,
                i,
            )),
    ensures
        folded(g, tiles, space.big_endian).0.ops.len() == g.ops.len(),
    decreases tiles.len(),
{
    let be = space.big_endian;
    let n = tiles.len() as int;
    let j = g.varnodes.len() as int;
    let (hi, lo) = hi_lo(tiles[0], tiles[1], be);
    let (hi_at, lo_at) = if be {
        (0int, 1int)
    } else {
        (1int, 0int)
    };
    assert(tiles[hi_at].id == hi && tiles[lo_at].id == lo);
    lemma_fold_step(g, tiles, space);
    lemma_combine_shape(g, hi, lo);
    assert forall|k: int| 0 <= k < g.ops.len() && #[trigger] g.ops[k].reads(hi) implies n == 2
        && g.ops[k].joins(hi, lo) by {
        assert(!reads_apart(g, tiles, be, k, hi_at));
    }
    assert forall|k: int| 0 <= k < g.ops.len() && #[trigger] g.ops[k].reads(lo) implies n == 2
        && g.ops[k].joins(hi, lo) by {
        assert(!reads_apart(g, tiles, be, k, lo_at));
    }
    assert(!g.read_apart(hi, hi, lo) && !g.read_apart(lo, hi, lo));
    let h = g.combine(hi, lo);
    assert(h.ops.len() == g.ops.len());
    let rest = first_folded(g, tiles);
    if n > 2 {
        assert forall|k: int, i: int| 0 <= k < h.ops.len() && 0 <= i < rest.len() implies !(
        #[trigger] reads_apart(h, rest, be, k, i)) by {
            assert(h.ops[k] == g.ops[k].rewired(hi, lo, j, j + 1, j + 1));
            if h.ops[k].reads(rest[i].id) {
                let v = rest[i].id;
                let s = choose|s: int|
                    0 <= s < h.ops[k].inputs.len() && #[trigger] h.ops[k].inputs[s] == Some(v);
                if g.ops[k].joins(hi, lo) {
                    assert(g.ops[k].inputs[0] == Some(hi));
                    assert(g.ops[k].reads(hi));
                } else {
                    assert(g.ops[k].inputs[s] is Some);
                    let w = g.ops[k].inputs[s]->0;
                    assert(g.ops[k].reads(w));
                    assert(g.live(w));
                    assert(w != hi && w != lo);
                    assert(w == v);
                    assert(i > 0);
                    assert(rest[i] == tiles[i + 1]);
                    assert(!reads_apart(g, tiles, be, k, i + 1));
                }
            }
        }
        lemma_folded_quiet(h, rest, space);
    } else {
        assert(rest.len() == 1);
        assert(folded(h, rest, be).0 == h);
        assert(folded(g, tiles, be) == folded(h, rest, be));
    }
}

/// The varnodes that fill holes are among the parts.
pub proof fn lemma_holes_among(g: Graph, plan: Seq<Seg>, space: AddrSpace)
    ensures
        ({
            let (h, tiles) = holes_filled(g, plan, space);
            &&& h.varnodes.len() >= g.varnodes.len()
            &&& forall|u: int|
                g.varnodes.len() <= u < h.varnodes.len() ==> #[trigger] among(tiles, u)
        }),
    decreases plan.len(),
{
    if plan.len() > 0 {
        lemma_holes_among(g, plan.drop_last(), space);
        let (h1, tiles1) = holes_filled(g, plan.drop_last(), space);
        let (h, tiles) = holes_filled(g, plan, space);
        assert forall|u: int| g.varnodes.len() <= u < h.varnodes.len() implies #[trigger] among(
            tiles,
            u,
        ) by {
            if u < h1.varnodes.len() {
                assert(among(tiles1, u));
                let i = choose|i: int| 0 <= i < tiles1.len() && (#[trigger] tiles1[i]).id == u;
                assert(tiles[i] == tiles1[i]);
            } else {
                assert(tiles[tiles1.len() as int].id == u);
            }
        }
    }
}

/// Whether an input has the byte.
pub open spec fn has_byte(h: Graph, base: Option<AddrSpace>, b: int, u: int) -> bool {
    &&& h.is_input(u)
    &&& h.vn(u).base == base
    &&& h.vn(u).offset <= b < h.vn(u).offset + h.vn(u).size
}

/// Parts that follow each other leave out no byte.
proof fn lemma_line_covers(tiles: Seq<Part>, b: int) -> (i: int)
    requires
        in_line(tiles),
        tiles.len() > 0,
        tiles[0].off <= b < tiles[0].off + span(tiles),
    ensures
        0 <= i < tiles.len(),
        tiles[i].off <= b < tiles[i].off + tiles[i].size,
    decreases tiles.len(),
{
    let n = tiles.len() as int;
    if tiles[n - 1].off <= b {
        n - 1
    } else {
        let shorter = tiles.drop_last();
        let a = n - 2;
        assert(tiles[a].off + tiles[a].size == tiles[n - 1].off);
        assert forall|i: int, j: int|
            #![trigger shorter[i], shorter[j]]
            0 <= i && j == i + 1 && j < shorter.len() implies shorter[i].off + shorter[i].size
            == shorter[j].off by {
            assert(tiles[i].off + tiles[i].size == tiles[j].off);
        }
        assert forall|i: int| 0 <= i < shorter.len() implies (#[trigger] shorter[i]).size
            >= 0 by {
            assert(tiles[i].size >= 0);
        }
        lemma_line_covers(shorter, b)
    }
}

/// Folding parts, as far as it goes, leaves each byte of them with an input, and adds no
/// input elsewhere.
pub proof fn lemma_folded_cover(g: Graph, tiles: Seq<Part>, space: AddrSpace, b: int)
    requires
        g.linked(),
        parts_held(g, tiles, space),
        span(tiles) <= i32::MAX,
        tiles[0].off <= b < tiles[0].off + span(tiles),
    ensures
        ({
            let h = folded(g, tiles, space.big_endian).0;
            &&& exists|u: int| #[trigger] has_byte(h, Some(space), b, u)
            &&& forall|u: int|
                u >= g.varnodes.len() && #[trigger] h.is_input(u) ==> h.vn(u).base == Some(space)
                    && tiles[0].off <= h.vn(u).offset && h.vn(u).end() <= tiles[0].off + span(
                    tiles,
                )
        }),
    decreases tiles.len(),
{
    let be = space.big_endian;
    let h = folded(g, tiles, be).0;
    let (hi, lo) = hi_lo(tiles[0], tiles[1], be);
    if tiles.len() > 1 && g.cuttable(hi, lo) {
        let rest = first_folded(g, tiles);
        let g1 = g.combine(hi, lo);
        let j = g.varnodes.len() as int;
        lemma_fold_step(g, tiles, space);
        lemma_combine_shape(g, hi, lo);
        lemma_folded(g1, rest, space);
        lemma_folded_cover(g1, rest, space, b);
        assert(rest[0].off == tiles[0].off);
        assert forall|u: int| u >= j && #[trigger] h.is_input(u) implies h.vn(u).base == Some(space)
            && tiles[0].off <= h.vn(u).offset && h.vn(u).end() <= tiles[0].off + span(tiles) by {
            if u < g1.varnodes.len() {
                lemma_rest_inputs(g1, rest, space);
                if u == j {
                    lemma_folded_same(g1, rest, space, u);
                    assert(g1.is_input_at(rest[0].id, Some(space), rest[0].off, rest[0].size));
                    lemma_first_short(rest);
                } else {
                    assert(g1.live(u) && !among(rest, u));
                    assert(h.vn(u) == g1.vn(u));
                }
            }
        }
    } else {
        let i = lemma_line_covers(tiles, b);
        assert(g.is_input_at(tiles[i].id, Some(space), tiles[i].off, tiles[i].size));
        assert(has_byte(h, Some(space), b, tiles[i].id));
    }
}

/// The first part is no longer than all of them together.
proof fn lemma_first_short(tiles: Seq<Part>)
    requires
        in_line(tiles),
        tiles.len() > 0,
    ensures
        0 <= tiles[0].size <= span(tiles),
{
    let last = tiles.len() - 1;
    assert(tiles[0].size >= 0 && tiles[last].size >= 0);
    if last > 0 {
        lemma_line_ordered(tiles, 0, last);
    }
}

/// What is left of the varnodes that there were is as it was.
pub proof fn lemma_folded_same(g: Graph, tiles: Seq<Part>, space: AddrSpace, u: int)
    requires
        g.linked(),
        parts_held(g, tiles, space),
        span(tiles) <= i32::MAX,
        0 <= u < g.varnodes.len(),
        folded(g, tiles, space.big_endian).0.live(u),
    ensures
        g.live(u),
        folded(g, tiles, space.big_endian).0.vn(u) == g.vn(u),
    decreases tiles.len(),
{
    let (hi, lo) = hi_lo(tiles[0], tiles[1], space.big_endian);
    if tiles.len() > 1 && g.cuttable(hi, lo) {
        lemma_fold_step(g, tiles, space);
        lemma_combine_shape(g, hi, lo);
        let g1 = g.combine(hi, lo);
        lemma_folded_same(g1, first_folded(g, tiles), space, u);
        assert(g1.varnodes[u] is Some);
    }
}

/// The inputs that folding parts adds, as far as it goes, are passed over by renaming, and
/// hold the first two parts at least.
pub proof fn lemma_folded_masks(g: Graph, tiles: Seq<Part>, space: AddrSpace, u: int)
    requires
        g.linked(),
        parts_held(g, tiles, space),
        span(tiles) <= i32::MAX,
        u >= g.varnodes.len(),
        folded(g, tiles, space.big_endian).0.is_input(u),
    ensures
        ({
            let vn = folded(g, tiles, space.big_endian).0.vn(u);
            &&& tiles.len() > 1
            &&& vn.write_mask
            &&& vn.base == Some(space)
            &&& vn.offset == tiles[0].off
            &&& tiles[1].off + tiles[1].size <= vn.end()
        }),
    decreases tiles.len(),
{
    let be = space.big_endian;
    let h = folded(g, tiles, be).0;
    let (hi, lo) = hi_lo(tiles[0], tiles[1], be);
    assert(h.live(u));
    if tiles.len() > 1 && g.cuttable(hi, lo) {
        let rest = first_folded(g, tiles);
        let g1 = g.combine(hi, lo);
        let j = g.varnodes.len() as int;
        lemma_fold_step(g, tiles, space);
        lemma_combine_shape(g, hi, lo);
        assert(tiles[0].off + tiles[0].size == tiles[1].off);
        assert(rest[0].off == tiles[0].off);
        assert(rest[0].size == tiles[0].size + tiles[1].size);
        if u < g1.varnodes.len() {
            lemma_folded_same(g1, rest, space, u);
            assert(u == j);
            assert(g1.is_input_at(rest[0].id, Some(space), rest[0].off, rest[0].size));
        } else {
            lemma_folded_masks(g1, rest, space, u);
            assert(rest[0].off + rest[0].size == rest[1].off);
            assert(rest[1].size >= 0);
        }
    }
}

/// The inputs that holes are filled with are not passed over by renaming.
pub proof fn lemma_holes_unmasked(g: Graph, plan: Seq<Seg>, space: AddrSpace)
    ensures
        ({
            let h = holes_filled(g, plan, space).0;
            &&& h.varnodes.len() >= g.varnodes.len()
            &&& forall|u: int|
                g.varnodes.len() <= u < h.varnodes.len() ==> !(#[trigger] h.vn(u)).write_mask
        }),
    decreases plan.len(),
{
    if plan.len() > 0 {
        lemma_holes_unmasked(g, plan.drop_last(), space);
        let h1 = holes_filled(g, plan.drop_last(), space).0;
        let h = holes_filled(g, plan, space).0;
        assert forall|u: int| g.varnodes.len() <= u < h.varnodes.len() implies !(#[trigger] h.vn(
            u,
        )).write_mask by {
            if u < h1.varnodes.len() {
                assert(h.vn(u) == h1.vn(u));
            }
        }
    }
}

/// Whether an operation is as it was, or joined the first two parts and copies an input
/// that holds both.
pub open spec fn op_untouched(g: Graph, h: Graph, tiles: Seq<Part>, space: AddrSpace, k: int) -> bool {
    let (hi, lo) = hi_lo(tiles[0], tiles[1], space.big_endian);
    h.ops[k] == g.ops[k] || {
        &&& g.ops[k].joins(hi, lo)
        &&& h.ops[k].addr == g.ops[k].addr
        &&& h.ops[k].output == g.ops[k].output
        &&& h.ops[k].code == OpCode::CPUI_COPY
        &&& h.ops[k].inputs.len() == 1
        &&& h.ops[k].inputs[0] is Some
        &&& h.is_input_at(
            h.ops[k].inputs[0]->0,
            Some(space),
            tiles[0].off,
            tiles[0].size + tiles[1].size,
        )
    }
}

/// Where folding parts does not go through, it has stopped at two inputs that cannot be
/// folded, the lower one of which starts where the parts do.
pub proof fn lemma_folded_stuck(g: Graph, tiles: Seq<Part>, space: AddrSpace) -> (pair: (int, int))
    requires
        g.linked(),
        parts_held(g, tiles, space),
        span(tiles) <= i32::MAX,
        folded(g, tiles, space.big_endian).1 is None,
    ensures
        ({
            let h = folded(g, tiles, space.big_endian).0;
            let (hi, lo) = pair;
            &&& tiles.len() > 1
            &&& h.is_input(hi)
            &&& h.is_input(lo)
            &&& h.adjacent(hi, lo)
            &&& !h.cuttable(hi, lo)
            &&& h.vn(hi).base == Some(space)
            &&& h.vn(if space.big_endian {
                hi
            } else {
                lo
            }).offset == tiles[0].off
            &&& h.ops.len() == g.ops.len()
            &&& forall|k: int|
                0 <= k < g.ops.len() ==> #[trigger] op_untouched(g, h, tiles, space, k)
        }),
    decreases tiles.len(),
{
    let be = space.big_endian;
    let h = folded(g, tiles, be).0;
    let (hi, lo) = hi_lo(tiles[0], tiles[1], be);
    lemma_folded(g, tiles, space);
    lemma_fold_step(g, tiles, space);
    assert(g.is_input_at(tiles[0].id, Some(space), tiles[0].off, tiles[0].size));
    assert(g.is_input_at(tiles[1].id, Some(space), tiles[1].off, tiles[1].size));
    if !g.cuttable(hi, lo) {
        (hi, lo)
    } else {
        let rest = first_folded(g, tiles);
        let g1 = g.combine(hi, lo);
        let j = g.varnodes.len() as int;
        lemma_combine_shape(g, hi, lo);
        lemma_folded(g1, rest, space);
        let pair = lemma_folded_stuck(g1, rest, space);
        let (hi2, lo2) = hi_lo(rest[0], rest[1], be);
        assert forall|k: int| 0 <= k < g.ops.len() implies #[trigger] op_untouched(
            g,
            h,
            tiles,
            space,
            k,
        ) by {
            let op = g.ops[k];
            let op1 = g1.ops[k];
            assert(op_untouched(g1, h, rest, space, k));
            assert(op1 == op.rewired(hi, lo, j, j + 1, j + 1));
            if op.joins(hi, lo) {
                assert(!op1.joins(hi2, lo2));
                assert(h.ops[k].inputs[0] == Some(j));
                assert(h.live(j));
                lemma_folded_same(g1, rest, space, j);
                assert(g1.is_input_at(rest[0].id, Some(space), rest[0].off, rest[0].size));
            } else {
                assert(!op.reads(hi) && !op.reads(lo));
                assert(op1.inputs =~= op.inputs) by {
                    assert forall|s: int| 0 <= s < op.inputs.len() implies op1.inputs[s]
                        == #[trigger] op.inputs[s] by {
                        if op.inputs[s] == Some(hi) {
                            assert(op.reads(hi));
                        }
                        if op.inputs[s] == Some(lo) {
                            assert(op.reads(lo));
                        }
                    }
                }
                if op.joins(hi2, lo2) {
                    assert(seq![Some(hi2), Some(lo2)].len() == 2);
                    assert(op.inputs[0] == Some(hi2) && op.inputs[1] == Some(lo2));
                    assert(g.live(op.inputs[0]->0) && g.live(op.inputs[1]->0));
                }
            }
        }
        pair
    }
}

} // verus!
