//! Rebuilding a value that enters the function from live inputs.

use crate::address::{AddrSpace, Address};
use crate::funcdata::{inputs_of, op_id_view, EditError, Funcdata};
use crate::graph::Graph;
use crate::op::{id_view, OpCode};
use crate::plan::{
    overlapping_plan, plan_overlapping_inputs, segs, InputVarnode, Seg, Segment, Source, Src,
};
use crate::request::{
    contested, hole_vn, lemma_contested_unplanned, lemma_overlapping_plan_fits, new_input,
    place_vn, plan_fits, segment_fits,
};
use crate::tiling::tiles_range;
use crate::varnode::{BlockId, PcodeOpId, VarnodeId, Vn};
use vstd::prelude::*;

verus! {

/// A varnode that holds a part of the requested range.
#[derive(Clone, Copy, Debug, PartialEq, Eq, Structural)]
pub struct Tile {
    pub off: u64,
    pub size: i32,
    pub id: VarnodeId,
}

/// The model of a tile.
pub struct Part {
    pub off: int,
    pub size: int,
    pub id: int,
}

impl View for Tile {
    type V = Part;

    open spec fn view(&self) -> Part {
        Part { off: self.off as int, size: self.size as int, id: self.id.0 as int }
    }
}

/// The parts of a list.
pub open spec fn parts(tiles: Seq<Tile>) -> Seq<Part> {
    tiles.map_values(|t: Tile| t@)
}

/// Where the operations of a rebuilt value go: into `block`, ahead of `before`.
pub struct Site {
    pub space: AddrSpace,
    pub addr: Address,
    pub block: int,
    pub before: Option<int>,
}

/// Where the operations of a rebuilt value go: ahead of all others where the
/// function is entered.
pub open spec fn entry_site(g: Graph, space: AddrSpace) -> Site {
    let b = g.start->0;
    Site { space, addr: g.address, block: b, before: g.head(b) }
}

/// Whether a segment is the whole of its source.
pub open spec fn is_whole(seg: Seg, src: Src) -> bool {
    seg.off == src.lo && seg.off + seg.size == src.hi
}

/// How many of the least significant bytes of its source a segment leaves off.
pub open spec fn skipped(seg: Seg, src: Src, big_endian: bool) -> int {
    if big_endian {
        src.hi - (seg.off + seg.size)
    } else {
        seg.off - src.lo
    }
}

/// The function with a varnode for one segment, and the number of the varnode: a new
/// input for a hole; the source itself, where the segment is the whole of it; else a
/// slice of the source.
pub open spec fn laid_segment(g: Graph, seg: Seg, site: Site) -> (Graph, int) {
    let n = g.varnodes.len() as int;
    match seg.source {
        None => (g.add_varnode(hole_vn(site.space, seg)), n),
        Some(src) => if is_whole(seg, src) {
            (g, src.id)
        } else {
            (
                g.add_slice(
                    site.addr,
                    src.id,
                    skipped(seg, src, site.space.big_endian),
                    place_vn(site.space, seg.off, seg.size),
                ).insert_op(g.ops.len() as int, site.block, site.before),
                n,
            )
        },
    }
}

/// The function with a varnode for each segment of a plan, and the parts that they
/// hold, by ascending offset.
pub open spec fn laid(g: Graph, plan: Seq<Seg>, site: Site) -> (Graph, Seq<Part>)
    decreases plan.len(),
{
    if plan.len() == 0 {
        (g, Seq::empty())
    } else {
        let (g1, tiles) = laid(g, plan.drop_last(), site);
        let seg = plan.last();
        let (g2, id) = laid_segment(g1, seg, site);
        (g2, tiles.push(Part { off: seg.off, size: seg.size, id }))
    }
}

/// The function with the first `n` parts of a list joined, the most significant one
/// first; the number of the varnode that holds them, and its size.  All the parts
/// together are held by `whole`; fewer by a temporary.
pub open spec fn joined(g: Graph, tiles: Seq<Part>, n: int, whole: Vn, site: Site) -> (
    Graph,
    int,
    int,
)
    decreases n,
{
    if n <= 1 {
        (g, tiles[0].id, tiles[0].size)
    } else {
        let (g1, value, size) = joined(g, tiles, n - 1, whole, site);
        let tile = tiles[n - 1];
        let out_size = size + tile.size;
        let k = g1.ops.len() as int;
        let g2 = if n == tiles.len() {
            g1.add_piece(site.addr, value, tile.id, whole)
        } else {
            g1.take_unique(out_size).add_piece(
                site.addr,
                value,
                tile.id,
                place_vn(g1.unique, g1.next_unique, out_size),
            )
        };
        (g2.insert_op(k, site.block, site.before), g1.varnodes.len() as int, out_size)
    }
}

/// Parts from the most significant to the least.
pub open spec fn by_significance(tiles: Seq<Part>, big_endian: bool) -> Seq<Part> {
    if big_endian {
        tiles
    } else {
        tiles.reverse()
    }
}

/// The function with the value of `size` bytes at `addr` rebuilt by a plan, and the
/// number of the varnode that holds it.
pub open spec fn composed(g: Graph, plan: Seq<Seg>, size: int, addr: Address) -> (Graph, int) {
    let space = addr.base->0;
    let site = entry_site(g, space);
    let (g1, tiles) = laid(g, plan, site);
    let order = by_significance(tiles, space.big_endian);
    let (g2, value, _) = joined(
        g1,
        order,
        order.len() as int,
        place_vn(space, addr.offset as int, size),
        site,
    );
    (g2, value)
}

/// What becomes of the function where the value of `size` bytes at `addr` is to be
/// rebuilt, and the number of the varnode that holds it.
pub open spec fn rebuild_outcome(g: Graph, size: int, addr: Address) -> (Graph, Option<int>) {
    match (overlapping_plan(inputs_of(g), size, addr), g.start) {
        (Some(plan), Some(_)) => {
            let (h, v) = composed(g, plan, size, addr);
            (h, Some(v))
        },
        _ => (g, None),
    }
}

/// The one function is the other with varnodes and operations added.
pub open spec fn grown(g: Graph, h: Graph) -> bool {
    &&& g.varnodes.len() <= h.varnodes.len()
    &&& forall|v: int| 0 <= v < g.varnodes.len() ==> #[trigger] h.varnodes[v] == g.varnodes[v]
    &&& g.ops.len() <= h.ops.len()
    &&& forall|k: int| 0 <= k < g.ops.len() ==> #[trigger] h.ops[k] == g.ops[k]
    &&& h.blocks.len() == g.blocks.len()
    &&& h.start == g.start
    &&& h.address == g.address
    &&& h.constant == g.constant
    &&& h.unique == g.unique
}

/// The inputs that were added lie in the space and end no later than `end`.
pub open spec fn new_inputs_below(g: Graph, h: Graph, space: AddrSpace, end: int) -> bool {
    forall|u: int|
        u >= g.varnodes.len() && #[trigger] h.is_input(u) ==> h.vn(u).base == Some(space)
            && h.vn(u).end() <= end
}

/// Cuts a segment from its source.
fn slice_source(
    fd: &mut Funcdata,
    seg: &Segment,
    src: &Source,
    space: AddrSpace,
    block: BlockId,
    before: Option<PcodeOpId>,
    opaddr: Address,
) -> (result: Option<VarnodeId>)
    requires
        old(fd)@.linked(),
        old(fd)@.start == Some(block.0 as int),
        old(fd)@.live(src.id.0 as int),
        seg.size > 0,
        src.lo <= seg.off,
        seg.off + seg.size <= src.hi,
    ensures
        final(fd)@.linked(),
        old(fd)@.wf() ==> final(fd)@.wf(),
        result matches Some(id) && id.0 == old(fd)@.varnodes.len(),
        final(fd)@ == old(fd)@.add_slice(
            opaddr,
            src.id.0 as int,
            skipped(seg@, src@, space.big_endian),
            place_vn(space, seg.off as int, seg.size as int),
        ).insert_op(old(fd)@.ops.len() as int, block.0 as int, op_id_view(before)),
{
    let ghost g = fd@;
    let ghost n = g.varnodes.len() as int;
    let ghost k = g.ops.len() as int;
    let subop: PcodeOpId = fd.new_op(2, opaddr);
    fd.op_set_opcode_code(subop, OpCode::CPUI_SUBPIECE);
    let outaddr: Address = Address::new(space, seg.off);
    let out: VarnodeId = match fd.new_varnode_out(seg.size, &outaddr, subop) {
        Ok(out) => out,
        Err(_) => {
            return None;
        },
    };
    assert(fd@.varnodes[src.id.0 as int] == g.varnodes[src.id.0 as int]);
    if fd.op_set_input(subop, src.id, 0).is_err() {
        return None;
    }
    let byte_offset: u64 = if space.big_endian {
        src.hi - (seg.off + seg.size as u64)
    } else {
        seg.off - src.lo
    };
    let offset: VarnodeId = fd.new_constant(4, byte_offset);
    if fd.op_set_input(subop, offset, 1).is_err() {
        return None;
    }
    proof {
        let out_vn = place_vn(space, seg.off as int, seg.size as int);
        let end = g.add_slice(
            opaddr,
            src.id.0 as int,
            skipped(seg@, src@, space.big_endian),
            out_vn,
        );
        assert(fd@.varnodes =~= end.varnodes);
        assert(fd@.ops[k].inputs =~= end.ops[k].inputs);
        assert(fd@.ops =~= end.ops);
        assert(fd@ =~= end);
    }
    fd.op_insert(subop, block, before);
    Some(out)
}

/// A plan fits the function, from the start of its first segment to the end of its
/// last.
pub open spec fn plan_spans(g: Graph, space: AddrSpace, plan: Seq<Seg>) -> bool {
    plan.len() > 0 && plan_fits(
        g,
        space,
        plan[0].off,
        plan.last().off + plan.last().size,
        plan,
    )
}

/// A segment that fits still fits after the segments before it were laid.
pub proof fn lemma_segment_still_fits(g: Graph, h: Graph, space: AddrSpace, plan: Seq<Seg>, i: int)
    requires
        plan_spans(g, space, plan),
        0 <= i < plan.len(),
        grown(g, h),
        new_inputs_below(g, h, space, plan[i].off),
    ensures
        segment_fits(h, space, plan[i]),
        plan[i].source is None ==> !h.meets_input(place_vn(space, plan[i].off, plan[i].size)),
{
    let seg = plan[i];
    assert(segment_fits(g, space, seg));
    match seg.source {
        Some(src) => {
            assert(h.varnodes[src.id] == g.varnodes[src.id]);
        },
        None => {
            let hole = hole_vn(space, seg);
            assert forall|u: int| #[trigger] h.is_input(u) implies !h.vn(u).overlaps(hole) by {
                if u < g.varnodes.len() {
                    assert(h.varnodes[u] == g.varnodes[u]);
                    assert(g.is_input(u));
                }
            }
        },
    }
}

/// Makes a varnode for each segment of a plan.
fn lay_plan(
    fd: &mut Funcdata,
    plan: &Vec<Segment>,
    space: AddrSpace,
    block: BlockId,
    before: Option<PcodeOpId>,
    opaddr: Address,
) -> (result: Option<Vec<Tile>>)
    requires
        old(fd)@.linked(),
        old(fd)@.start == Some(block.0 as int),
        plan_spans(old(fd)@, space, segs(plan@)),
        forall|i: int| 0 <= i < plan.len() ==> (#[trigger] segs(plan@)[i]).size > 0,
    ensures
        final(fd)@.linked(),
        old(fd)@.wf() ==> final(fd)@.wf(),
        grown(old(fd)@, final(fd)@),
        result is Some,
        (final(fd)@, parts(result->0@)) == laid(
            old(fd)@,
            segs(plan@),
            Site { space, addr: opaddr, block: block.0 as int, before: op_id_view(before) },
        ),
        result->0.len() == plan.len(),
        forall|i: int|
            0 <= i < plan.len() ==> {
                let t = #[trigger] result->0@[i];
                t.off == plan@[i].off && t.size == plan@[i].size && final(fd)@.live(t.id.0 as int)
            },
{
    let ghost g = fd@;
    let ghost all = segs(plan@);
    let ghost site = Site {
        space,
        addr: opaddr,
        block: block.0 as int,
        before: op_id_view(before),
    };
    let mut tiles: Vec<Tile> = Vec::with_capacity(plan.len());
    let mut i: usize = 0;
    proof {
        assert(all.take(0) =~= Seq::empty());
        assert(parts(tiles@) =~= Seq::empty());
    }
    while i < plan.len()
        invariant
            i <= plan.len(),
            all == segs(plan@),
            g.start == Some(block.0 as int),
            plan_spans(g, space, all),
            forall|j: int| 0 <= j < plan.len() ==> (#[trigger] all[j]).size > 0,
            fd@.linked(),
            g.wf() ==> fd@.wf(),
            grown(g, fd@),
            new_inputs_below(
                g,
                fd@,
                space,
                if i < all.len() {
                    all[i as int].off
                } else {
                    all.last().off + all.last().size
                },
            ),
            site == (Site {
                space,
                addr: opaddr,
                block: block.0 as int,
                before: op_id_view(before),
            }),
            (fd@, parts(tiles@)) == laid(g, all.take(i as int), site),
            tiles.len() == i,
            forall|j: int|
                0 <= j < i ==> {
                    let t = #[trigger] tiles@[j];
                    t.off == plan@[j].off && t.size == plan@[j].size && fd@.live(t.id.0 as int)
                },
        decreases plan.len() - i,
    {
        let seg: Segment = plan[i];
        let ghost h = fd@;
        let ghost done = parts(tiles@);
        proof {
            assert(all[i as int] == seg@);
            assert(all.take(i + 1).drop_last() =~= all.take(i as int));
            assert(all.take(i + 1).last() == seg@);
            lemma_segment_still_fits(g, h, space, all, i as int);
        }
        let id: VarnodeId = match seg.source {
            None => {
                let holeaddr: Address = Address::new(space, seg.off);
                match new_input(fd, seg.size, &holeaddr) {
                    Some(id) => id,
                    None => {
                        return None;
                    },
                }
            },
            Some(src) => {
                assert(h.is_input(src.id.0 as int));
                if seg.off == src.lo && seg.off + seg.size as u64 == src.hi {
                    src.id
                } else {
                    match slice_source(fd, &seg, &src, space, block, before, opaddr) {
                        Some(id) => id,
                        None => {
                            return None;
                        },
                    }
                }
            },
        };
        proof {
            assert((fd@, id.0 as int) == laid_segment(h, seg@, site));
            assert(grown(h, fd@));
            assert forall|u: int|
                u >= g.varnodes.len() && #[trigger] fd@.is_input(u) implies fd@.vn(u).base == Some(
                space,
            ) && fd@.vn(u).end() <= seg@.off + seg@.size by {
                if u < h.varnodes.len() {
                    assert(fd@.varnodes[u] == h.varnodes[u]);
                    assert(h.is_input(u));
                }
            }
            if i + 1 < all.len() {
                assert(all[i as int].off + all[i as int].size == all[i + 1].off);
            } else {
                assert(all.last() == seg@);
            }
            assert forall|j: int| 0 <= j < i implies fd@.live(
                (#[trigger] tiles@[j]).id.0 as int,
            ) by {
                let v = tiles@[j].id.0 as int;
                assert(h.live(v));
                assert(fd@.varnodes[v] == h.varnodes[v]);
            }
        }
        let tile: Tile = Tile { off: seg.off, size: seg.size, id };
        tiles.push(tile);
        proof {
            assert(parts(tiles@) =~= done.push(tile@));
        }
        i = i + 1;
    }
    proof {
        assert(all.take(i as int) =~= all);
    }
    Some(tiles)
}

/// Parts that follow each other from the most significant to the least.
pub open spec fn chained(order: Seq<Part>, big_endian: bool) -> bool {
    &&& forall|i: int, j: int|
        #![trigger order[i], order[j]]
        0 <= i && j == i + 1 && j < order.len() ==> if big_endian {
            order[i].off + order[i].size == order[j].off
        } else {
            order[j].off + order[j].size == order[i].off
        }
    &&& forall|i: int| 0 <= i < order.len() ==> (#[trigger] order[i]).size > 0
}

/// The size of the first `n` parts together.
pub open spec fn chain_size(order: Seq<Part>, n: int, big_endian: bool) -> int {
    if big_endian {
        order[n - 1].off + order[n - 1].size - order[0].off
    } else {
        order[0].off + order[0].size - order[n - 1].off
    }
}

/// More parts together are larger.
pub proof fn lemma_chain_size(order: Seq<Part>, n: int, m: int, big_endian: bool)
    requires
        chained(order, big_endian),
        1 <= n <= m <= order.len(),
    ensures
        0 < chain_size(order, n, big_endian) <= chain_size(order, m, big_endian),
        n < m ==> chain_size(order, n + 1, big_endian) == chain_size(order, n, big_endian)
            + order[n].size,
    decreases m,
{
    assert(order[n - 1].size > 0 && order[0].size > 0);
    if n < m {
        assert(order[n].size > 0);
        lemma_chain_size(order, n, m - 1, big_endian);
        assert(order[m - 2].size > 0 && order[m - 1].size > 0);
        let i = n - 1;
        let j = n;
        assert(if big_endian {
            order[i].off + order[i].size == order[j].off
        } else {
            order[j].off + order[j].size == order[i].off
        });
        let k = m - 2;
        let l = m - 1;
        assert(if big_endian {
            order[k].off + order[k].size == order[l].off
        } else {
            order[l].off + order[l].size == order[k].off
        });
    } else if n > 1 {
        lemma_chain_size(order, n - 1, n - 1, big_endian);
        let k = n - 2;
        let l = n - 1;
        assert(order[k].size > 0);
        assert(if big_endian {
            order[k].off + order[k].size == order[l].off
        } else {
            order[l].off + order[l].size == order[k].off
        });
    }
}

/// Joins two varnodes, the more significant one first.
fn join_pair(
    fd: &mut Funcdata,
    value: VarnodeId,
    piece: VarnodeId,
    out_size: i32,
    whole: Option<&Address>,
    block: BlockId,
    before: Option<PcodeOpId>,
    opaddr: Address,
) -> (result: Option<VarnodeId>)
    requires
        old(fd)@.linked(),
        old(fd)@.start == Some(block.0 as int),
        old(fd)@.live(value.0 as int),
        old(fd)@.live(piece.0 as int),
        out_size > 0,
        whole matches Some(addr) ==> addr.base is Some,
    ensures
        final(fd)@.linked(),
        old(fd)@.wf() ==> final(fd)@.wf(),
        result matches Some(id) && id.0 == old(fd)@.varnodes.len(),
        final(fd)@ == ({
            let g = old(fd)@;
            let k = g.ops.len() as int;
            let v = value.0 as int;
            let p = piece.0 as int;
            let g2 = match whole {
                Some(addr) => g.add_piece(
                    opaddr,
                    v,
                    p,
                    place_vn(addr.base->0, addr.offset as int, out_size as int),
                ),
                None => g.take_unique(out_size as int).add_piece(
                    opaddr,
                    v,
                    p,
                    place_vn(g.unique, g.next_unique, out_size as int),
                ),
            };
            g2.insert_op(k, block.0 as int, op_id_view(before))
        }),
{
    let ghost g = fd@;
    let ghost k = g.ops.len() as int;
    let pieceop: PcodeOpId = fd.new_op(2, opaddr);
    fd.op_set_opcode_code(pieceop, OpCode::CPUI_PIECE);
    let made: Result<VarnodeId, EditError> = match whole {
        Some(addr) => fd.new_varnode_out(out_size, addr, pieceop),
        None => fd.new_unique_out(out_size, pieceop),
    };
    let out: VarnodeId = match made {
        Ok(out) => out,
        Err(_) => {
            return None;
        },
    };
    assert(fd@.varnodes[value.0 as int] == g.varnodes[value.0 as int]);
    assert(fd@.varnodes[piece.0 as int] == g.varnodes[piece.0 as int]);
    if fd.op_set_input(pieceop, value, 0).is_err() {
        return None;
    }
    if fd.op_set_input(pieceop, piece, 1).is_err() {
        return None;
    }
    proof {
        let v = value.0 as int;
        let p = piece.0 as int;
        let end = match whole {
            Some(addr) => g.add_piece(
                opaddr,
                v,
                p,
                place_vn(addr.base->0, addr.offset as int, out_size as int),
            ),
            None => g.take_unique(out_size as int).add_piece(
                opaddr,
                v,
                p,
                place_vn(g.unique, g.next_unique, out_size as int),
            ),
        };
        assert(fd@.varnodes =~= end.varnodes);
        assert(fd@.ops[k].inputs =~= end.ops[k].inputs);
        assert(fd@.ops =~= end.ops);
        assert(fd@ =~= end);
    }
    fd.op_insert(pieceop, block, before);
    Some(out)
}

/// Joins parts from the most significant to the least.
fn join_tiles(
    fd: &mut Funcdata,
    order: &Vec<Tile>,
    size: i32,
    addr: &Address,
    block: BlockId,
    before: Option<PcodeOpId>,
    opaddr: Address,
) -> (result: Option<VarnodeId>)
    requires
        old(fd)@.linked(),
        old(fd)@.start == Some(block.0 as int),
        order.len() > 0,
        addr.base is Some,
        chained(parts(order@), addr.base->0.big_endian),
        chain_size(parts(order@), order.len() as int, addr.base->0.big_endian) == size,
        forall|i: int| 0 <= i < order.len() ==> old(fd)@.live((#[trigger] order@[i]).id.0 as int),
    ensures
        final(fd)@.linked(),
        old(fd)@.wf() ==> final(fd)@.wf(),
        result is Some,
        ({
            let (h, value, _) = joined(
                old(fd)@,
                parts(order@),
                order.len() as int,
                place_vn(addr.base->0, addr.offset as int, size as int),
                Site {
                    space: addr.base->0,
                    addr: opaddr,
                    block: block.0 as int,
                    before: op_id_view(before),
                },
            );
            final(fd)@ == h && (result->0).0 == value
        }),
{
    let ghost g = fd@;
    let ghost all = parts(order@);
    let ghost big_endian = addr.base->0.big_endian;
    let ghost whole = place_vn(addr.base->0, addr.offset as int, size as int);
    let ghost site = Site {
        space: addr.base->0,
        addr: opaddr,
        block: block.0 as int,
        before: op_id_view(before),
    };
    let mut value: VarnodeId = order[0].id;
    let mut value_size: i32 = order[0].size;
    assert(all[0] == order@[0]@);
    let mut i: usize = 1;
    while i < order.len()
        invariant
            1 <= i <= order.len(),
            all == parts(order@),
            addr.base is Some,
            big_endian == addr.base->0.big_endian,
            whole == place_vn(addr.base->0, addr.offset as int, size as int),
            site == (Site {
                space: addr.base->0,
                addr: opaddr,
                block: block.0 as int,
                before: op_id_view(before),
            }),
            chained(all, big_endian),
            chain_size(all, order.len() as int, big_endian) == size,
            g.start == Some(block.0 as int),
            fd@.linked(),
            g.wf() ==> fd@.wf(),
            fd@.start == g.start,
            g.varnodes.len() <= fd@.varnodes.len(),
            forall|v: int|
                0 <= v < g.varnodes.len() ==> #[trigger] fd@.varnodes[v] == g.varnodes[v],
            forall|j: int|
                0 <= j < order.len() ==> g.live((#[trigger] order@[j]).id.0 as int),
            fd@.live(value.0 as int),
            value_size == chain_size(all, i as int, big_endian),
            (fd@, value.0 as int, value_size as int) == joined(g, all, i as int, whole, site),
        decreases order.len() - i,
    {
        let tile: Tile = order[i];
        let ghost h = fd@;
        proof {
            assert(all[i as int] == tile@);
            lemma_chain_size(all, i as int, order.len() as int, big_endian);
            lemma_chain_size(all, i + 1, order.len() as int, big_endian);
            assert(g.live(order@[i as int].id.0 as int));
            assert(fd@.varnodes[tile.id.0 as int] == g.varnodes[tile.id.0 as int]);
        }
        let new_size: i32 = value_size + tile.size;
        let last: bool = i == order.len() - 1;
        let at: Option<&Address> = if last { Some(addr) } else { None };
        let out: VarnodeId = match join_pair(
            fd,
            value,
            tile.id,
            new_size,
            at,
            block,
            before,
            opaddr,
        ) {
            Some(out) => out,
            None => {
                return None;
            },
        };
        proof {
            assert forall|v: int| 0 <= v < g.varnodes.len() implies #[trigger] fd@.varnodes[v]
                == g.varnodes[v] by {
                assert(h.varnodes[v] == g.varnodes[v]);
            }
        }
        value = out;
        value_size = new_size;
        i = i + 1;
    }
    Some(value)
}

/// The tiles in the other order.
fn reversed(tiles: &Vec<Tile>) -> (result: Vec<Tile>)
    ensures
        result@ == tiles@.reverse(),
{
    let mut result: Vec<Tile> = Vec::with_capacity(tiles.len());
    let mut i: usize = tiles.len();
    while i > 0
        invariant
            i <= tiles.len(),
            result.len() == tiles.len() - i,
            forall|j: int|
                0 <= j < result.len() ==> #[trigger] result@[j] == tiles@[tiles.len() - 1 - j],
        decreases i,
    {
        i = i - 1;
        result.push(tiles[i]);
    }
    assert(result@ =~= tiles@.reverse());
    result
}

/// Rebuilds the value of `size` bytes at `addr` that enters the function, without
/// destroying an input: those that have bytes in the request are sliced as needed,
/// the bytes that none of them has become new inputs, and all are joined where the
/// function is entered.  Without a plan, or without the block where the function is
/// entered, nothing is changed; in particular where two inputs that have a byte in the
/// request share storage.
pub fn compose_overlapping_inputs(fd: &mut Funcdata, size: i32, addr: &Address) -> (result: Option<
    VarnodeId,
>)
    requires
        old(fd)@.linked(),
        size > 0,
    ensures
        final(fd)@.linked(),
        old(fd)@.wf() ==> final(fd)@.wf(),
        match (overlapping_plan(inputs_of(old(fd)@), size as int, *addr), old(fd)@.start) {
            (Some(plan), Some(_)) => {
                &&& result is Some
                &&& (final(fd)@, (result->0).0 as int) == composed(
                    old(fd)@,
                    plan,
                    size as int,
                    *addr,
                )
            },
            _ => result is None && final(fd)@ == old(fd)@,
        },
        (final(fd)@, id_view(result)) == rebuild_outcome(old(fd)@, size as int, *addr),
        contested(old(fd)@, size as int, *addr) ==> result is None && final(fd)@ == old(fd)@,
{
    let ghost g = fd@;
    proof {
        if contested(g, size as int, *addr) {
            lemma_contested_unplanned(g, size as int, *addr);
        }
    }
    let inputs: Vec<InputVarnode> = fd.vbank().input_varnodes();
    let plan: Vec<Segment> = match plan_overlapping_inputs(&inputs, size, addr) {
        Some(plan) => plan,
        None => {
            return None;
        },
    };
    let space: AddrSpace = match addr.get_space() {
        Some(space) => space,
        None => {
            return None;
        },
    };
    let start: BlockId = match fd.get_start_block() {
        Some(start) => start,
        None => {
            return None;
        },
    };
    let before: Option<PcodeOpId> = fd.bb_op_head(start);
    let opaddr: Address = fd.get_address();
    let ghost all = segs(plan@);
    proof {
        lemma_overlapping_plan_fits(g, size as int, *addr);
    }
    let tiles: Vec<Tile> = match lay_plan(fd, &plan, space, start, before, opaddr) {
        Some(tiles) => tiles,
        None => {
            return None;
        },
    };
    let order: Vec<Tile> = if space.big_endian {
        tiles
    } else {
        reversed(&tiles)
    };
    proof {
        let laid_parts = laid(g, all, entry_site(g, space)).1;
        assert(parts(order@) =~= by_significance(laid_parts, space.big_endian));
        lemma_order_chained(all, laid_parts, addr.offset as int, addr.offset + size, space.big_endian);
    }
    join_tiles(fd, &order, size, addr, start, before, opaddr)
}

/// The parts that a plan lays, in the order of significance, follow each other over
/// the whole range.
pub proof fn lemma_order_chained(
    plan: Seq<Seg>,
    tiles: Seq<Part>,
    lo: int,
    hi: int,
    big_endian: bool,
)
    requires
        plan.len() > 0,
        tiles_range(plan, lo, hi),
        forall|i: int| 0 <= i < plan.len() ==> (#[trigger] plan[i]).size > 0,
        tiles.len() == plan.len(),
        forall|i: int|
            0 <= i < plan.len() ==> (#[trigger] tiles[i]).off == plan[i].off && tiles[i].size
                == plan[i].size,
    ensures
        chained(by_significance(tiles, big_endian), big_endian),
        chain_size(
            by_significance(tiles, big_endian),
            tiles.len() as int,
            big_endian,
        ) == hi - lo,
{
    let order = by_significance(tiles, big_endian);
    let n = tiles.len() as int;
    assert forall|i: int, j: int|
        #![trigger order[i], order[j]]
        0 <= i && j == i + 1 && j < order.len() implies if big_endian {
        order[i].off + order[i].size == order[j].off
    } else {
        order[j].off + order[j].size == order[i].off
    } by {
        if big_endian {
            assert(tiles[i].off == plan[i].off && tiles[j].off == plan[j].off);
        } else {
            let a = n - 1 - i;
            let b = n - 1 - j;
            assert(order[i] == tiles[a] && order[j] == tiles[b]);
            assert(tiles[a].off == plan[a].off && tiles[b].off == plan[b].off);
            assert(plan[b].off + plan[b].size == plan[a].off);
        }
    }
    assert forall|i: int| 0 <= i < order.len() implies (#[trigger] order[i]).size > 0 by {
        let a = if big_endian {
            i
        } else {
            n - 1 - i
        };
        assert(order[i] == tiles[a]);
        assert(plan[a].size > 0);
    }
    assert(tiles[0].off == plan[0].off && tiles[n - 1].off == plan[n - 1].off);
}

} // verus!
