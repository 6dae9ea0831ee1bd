//! Folding inputs that renaming passes over into one.

use crate::address::{AddrSpace, Address};
use crate::funcdata::{inputs_of, Funcdata};
use crate::graph::Graph;
use crate::op::id_view;
use crate::plan::{covered_plan, plan_covered_pieces, segs, InputVarnode, Seg, Segment};
use crate::rebuild::{
    grown, lemma_segment_still_fits, new_inputs_below, parts, plan_spans, Part, Tile,
};
use crate::request::{
    contested, hole_vn, lemma_contested_unplanned, lemma_covered_plan_fits, new_input,
};
use crate::soundness::{lemma_combine, lemma_combine_shape, lemma_input_at};
use crate::tiling::sources_single;
use crate::varnode::VarnodeId;
use vstd::prelude::*;

verus! {

/// The function with a new input for each hole of a plan, and the parts that the
/// inputs hold, by ascending offset.
pub open spec fn holes_filled(g: Graph, plan: Seq<Seg>, space: AddrSpace) -> (Graph, Seq<Part>)
    decreases plan.len(),
{
    if plan.len() == 0 {
        (g, Seq::empty())
    } else {
        let (g1, tiles) = holes_filled(g, plan.drop_last(), space);
        let seg = plan.last();
        match seg.source {
            Some(src) => (g1, tiles.push(Part { off: seg.off, size: seg.size, id: src.id })),
            None => (
                g1.add_varnode(hole_vn(space, seg)),
                tiles.push(
                    Part { off: seg.off, size: seg.size, id: g1.varnodes.len() as int },
                ),
            ),
        }
    }
}

/// The numbers of two neighbours, that of the more significant one first.  The one with
/// the lower offset is given first.
pub open spec fn hi_lo(a: Part, b: Part, big_endian: bool) -> (int, int) {
    if big_endian {
        (a.id, b.id)
    } else {
        (b.id, a.id)
    }
}

/// The parts after the first two of them were folded into one.
pub open spec fn first_folded(g: Graph, tiles: Seq<Part>) -> Seq<Part> {
    seq![
        Part {
            off: tiles[0].off,
            size: tiles[0].size + tiles[1].size,
            id: g.varnodes.len() as int,
        },
    ] + tiles.skip(2)
}

/// The function with all parts folded into one, from the lowest offset up, and the
/// number of the input that holds them.  Folding stops where something has to be cut
/// and the block where the function is entered is not known; no input holds all parts
/// then.
pub open spec fn folded(g: Graph, tiles: Seq<Part>, big_endian: bool) -> (Graph, Option<int>)
    decreases tiles.len(),
{
    if tiles.len() <= 1 {
        (g, Some(tiles[0].id))
    } else {
        let (hi, lo) = hi_lo(tiles[0], tiles[1], big_endian);
        if g.cuttable(hi, lo) {
            folded(g.combine(hi, lo), first_folded(g, tiles), big_endian)
        } else {
            (g, None)
        }
    }
}

/// The function with the inputs of a plan folded into one, and the number of the
/// input that holds them.
pub open spec fn combined(g: Graph, plan: Seq<Seg>, addr: Address) -> (Graph, Option<int>) {
    let space = addr.base->0;
    let (g1, tiles) = holes_filled(g, plan, space);
    folded(g1, tiles, space.big_endian)
}

/// What becomes of the function where the inputs that meet `size` bytes at `addr` are
/// to be folded, and the number of the input that holds them.
pub open spec fn fold_outcome(g: Graph, size: int, addr: Address) -> (Graph, Option<int>) {
    match covered_plan(inputs_of(g), size, addr) {
        Some(plan) => combined(g, plan, addr),
        None => (g, None),
    }
}

/// Parts that follow each other by ascending offset.
pub open spec fn in_line(tiles: Seq<Part>) -> bool {
    &&& forall|i: int, j: int|
        #![trigger tiles[i], tiles[j]]
        0 <= i && j == i + 1 && j < tiles.len() ==> tiles[i].off + tiles[i].size == tiles[j].off
    &&& forall|i: int| 0 <= i < tiles.len() ==> (#[trigger] tiles[i]).size >= 0
}

/// The size of the parts together.
pub open spec fn span(tiles: Seq<Part>) -> int {
    tiles.last().off + tiles.last().size - tiles[0].off
}

/// The parts are different inputs of the function that follow each other.
pub open spec fn parts_held(g: Graph, tiles: Seq<Part>, space: AddrSpace) -> bool {
    &&& tiles.len() > 0
    &&& in_line(tiles)
    &&& forall|i: int, j: int|
        0 <= i < j < tiles.len() ==> (#[trigger] tiles[i]).id != (#[trigger] tiles[j]).id
    &&& forall|i: int|
        0 <= i < tiles.len() ==> g.is_input_at(
            (#[trigger] tiles[i]).id,
            Some(space),
            tiles[i].off,
            tiles[i].size,
        )
}

/// Parts that follow each other stand in order.
pub proof fn lemma_line_ordered(tiles: Seq<Part>, i: int, j: int)
    requires
        in_line(tiles),
        0 <= i < j < tiles.len(),
    ensures
        tiles[i].off + tiles[i].size <= tiles[j].off,
    decreases j - i,
{
    if j == i + 1 {
        assert(tiles[i].off + tiles[i].size == tiles[j].off);
    } else {
        lemma_line_ordered(tiles, i, j - 1);
        assert(tiles[j - 1].off + tiles[j - 1].size == tiles[j].off);
        assert(tiles[j - 1].size >= 0);
    }
}

/// Folding the first two parts, where it can be done, leaves one in their place, and
/// the others as they are.
pub proof fn lemma_fold_step(g: Graph, tiles: Seq<Part>, space: AddrSpace)
    requires
        g.linked(),
        parts_held(g, tiles, space),
        tiles.len() > 1,
        span(tiles) <= i32::MAX,
    ensures
        ({
            let (hi, lo) = hi_lo(tiles[0], tiles[1], space.big_endian);
            let rest = first_folded(g, tiles);
            let h = g.combine(hi, lo);
            let n = g.varnodes.len() as int;
            &&& g.is_input(hi)
            &&& g.is_input(lo)
            &&& g.adjacent(hi, lo)
            &&& 0 <= tiles[0].size + tiles[1].size <= i32::MAX
            &&& rest[0].id == n
            &&& span(rest) == span(tiles)
            &&& parts_held(h, rest, space)
            &&& h.vn(n) == g.joined_vn(hi, lo)
            &&& h.input_at(Some(space), rest[0].off, rest[0].size) == Some(n)
            &&& g.cuttable(hi, lo) ==> h.linked() && (g.wf() ==> h.wf())
        }),
{
    let a = tiles[0];
    let b = tiles[1];
    let (hi, lo) = hi_lo(a, b, space.big_endian);
    let n = g.varnodes.len() as int;
    let rest = first_folded(g, tiles);
    let h = g.combine(hi, lo);
    let last = tiles.len() - 1;
    assert(a.off + a.size == b.off);
    assert(a.size >= 0 && b.size >= 0 && tiles[last].size >= 0);
    assert(a.id != b.id);
    assert(g.is_input_at(a.id, Some(space), a.off, a.size));
    assert(g.is_input_at(b.id, Some(space), b.off, b.size));
    if tiles.len() > 2 {
        lemma_line_ordered(tiles, 1, last);
        assert(rest.last() == tiles.last());
    }
    lemma_combine_shape(g, hi, lo);
    if g.cuttable(hi, lo) {
        lemma_combine(g, hi, lo);
    }
    assert forall|i: int, j: int|
        #![trigger rest[i], rest[j]]
        0 <= i && j == i + 1 && j < rest.len() implies rest[i].off + rest[i].size
        == rest[j].off by {
        assert(rest[j] == tiles[j + 1]);
        assert(tiles[i + 1].off + tiles[i + 1].size == tiles[j + 1].off);
        if i > 0 {
            assert(rest[i] == tiles[i + 1]);
        }
    }
    assert forall|i: int, j: int| 0 <= i < j < rest.len() implies (#[trigger] rest[i]).id != (
    #[trigger] rest[j]).id by {
        assert(rest[j] == tiles[j + 1]);
        assert(g.live(tiles[j + 1].id)) by {
            let t = tiles[j + 1];
            assert(g.is_input_at(t.id, Some(space), t.off, t.size));
        }
        if i > 0 {
            assert(rest[i] == tiles[i + 1]);
        }
    }
    assert forall|i: int| 0 <= i < rest.len() implies (#[trigger] rest[i]).size >= 0
        && h.is_input_at(rest[i].id, Some(space), rest[i].off, rest[i].size) by {
        if i > 0 {
            let t = tiles[i + 1];
            assert(rest[i] == t);
            assert(t.size >= 0);
            assert(g.is_input_at(t.id, Some(space), t.off, t.size));
            assert(tiles[0].id != t.id && tiles[1].id != t.id);
            assert(h.varnodes[t.id] == g.varnodes[t.id]);
        } else {
            assert(h.varnodes[n] == Some(g.joined_vn(hi, lo)));
        }
    }
    lemma_input_at(h, Some(space), rest[0].off, rest[0].size);
    assert(h.is_input_at(rest[0].id, Some(space), rest[0].off, rest[0].size));
    let v = h.input_at(Some(space), rest[0].off, rest[0].size)->0;
    assert(h.is_input(v) && v >= n);
}

/// Makes an input for each hole of a plan.
fn fill_holes(fd: &mut Funcdata, plan: &Vec<Segment>, space: AddrSpace) -> (result: Option<
    Vec<Tile>,
>)
    requires
        old(fd)@.linked(),
        plan_spans(old(fd)@, space, segs(plan@)),
        sources_single(segs(plan@)),
        forall|i: int|
            0 <= i < plan.len() ==> (segs(plan@)[i].source matches Some(src) ==> src.lo == (
            #[trigger] segs(plan@)[i]).off && src.hi == segs(plan@)[i].off + segs(plan@)[i].size),
    ensures
        final(fd)@.linked(),
        old(fd)@.wf() ==> final(fd)@.wf(),
        final(fd)@.start == old(fd)@.start,
        result is Some,
        (final(fd)@, parts(result->0@)) == holes_filled(old(fd)@, segs(plan@), space),
        parts_held(final(fd)@, parts(result->0@), space),
        span(parts(result->0@)) == segs(plan@).last().off + segs(plan@).last().size
            - segs(plan@)[0].off,
{
    let ghost g = fd@;
    let ghost all = segs(plan@);
    let mut tiles: Vec<Tile> = Vec::new();
    let mut i: usize = 0;
    proof {
        assert(all.take(0) =~= Seq::empty());
        assert(parts(tiles@) =~= Seq::empty());
    }
    while i < plan.len()
        invariant
            i <= plan.len(),
            all == segs(plan@),
            plan_spans(g, space, all),
            sources_single(all),
            forall|j: int|
                0 <= j < plan.len() ==> (all[j].source matches Some(src) ==> src.lo == (
                #[trigger] all[j]).off && src.hi == all[j].off + all[j].size),
            fd@.linked(),
            g.wf() ==> fd@.wf(),
            grown(g, fd@),
            new_inputs_below(
                g,
                fd@,
                space,
                if i < all.len() {
                    all[i as int].off
                } else {
                    all.last().off + all.last().size
                },
            ),
            (fd@, parts(tiles@)) == holes_filled(g, all.take(i as int), space),
            tiles.len() == i,
            forall|j: int|
                0 <= j < i ==> {
                    let t = #[trigger] parts(tiles@)[j];
                    &&& t.off == all[j].off
                    &&& t.size == all[j].size
                    &&& fd@.is_input_at(t.id, Some(space), t.off, t.size)
                    &&& match all[j].source {
                        Some(src) => t.id == src.id && t.id < g.varnodes.len(),
                        None => t.id >= g.varnodes.len(),
                    }
                },
            forall|j: int, k: int|
                0 <= j < k < i ==> (#[trigger] parts(tiles@)[j]).id != (
                #[trigger] parts(tiles@)[k]).id,
        decreases plan.len() - i,
    {
        let seg: Segment = plan[i];
        let ghost h = fd@;
        let ghost done = parts(tiles@);
        proof {
            assert(all[i as int] == seg@);
            assert(all.take(i + 1).drop_last() =~= all.take(i as int));
            assert(all.take(i + 1).last() == seg@);
            lemma_segment_still_fits(g, h, space, all, i as int);
        }
        let id: VarnodeId = match seg.source {
            Some(src) => src.id,
            None => {
                let holeaddr: Address = Address::new(space, seg.off);
                match new_input(fd, seg.size, &holeaddr) {
                    Some(id) => id,
                    None => {
                        return None;
                    },
                }
            },
        };
        let tile: Tile = Tile { off: seg.off, size: seg.size, id };
        tiles.push(tile);
        proof {
            assert(parts(tiles@) =~= done.push(tile@));
            assert(grown(h, fd@));
            assert(fd@.is_input_at(tile@.id, Some(space), tile@.off, tile@.size));
            assert forall|u: int|
                u >= g.varnodes.len() && #[trigger] fd@.is_input(u) implies fd@.vn(u).base == Some(
                space,
            ) && fd@.vn(u).end() <= seg@.off + seg@.size by {
                if u < h.varnodes.len() {
                    assert(fd@.varnodes[u] == h.varnodes[u]);
                    assert(h.is_input(u));
                }
            }
            if i + 1 < all.len() {
                assert(all[i as int].off + all[i as int].size == all[i + 1].off);
            } else {
                assert(all.last() == seg@);
            }
            assert forall|j: int| 0 <= j < i + 1 implies {
                let t = #[trigger] parts(tiles@)[j];
                &&& t.off == all[j].off
                &&& t.size == all[j].size
                &&& fd@.is_input_at(t.id, Some(space), t.off, t.size)
                &&& match all[j].source {
                    Some(src) => t.id == src.id && t.id < g.varnodes.len(),
                    None => t.id >= g.varnodes.len(),
                }
            } by {
                if j < i {
                    assert(parts(tiles@)[j] == done[j]);
                    assert(fd@.varnodes[done[j].id] == h.varnodes[done[j].id]);
                }
            }
            assert forall|j: int, k: int| 0 <= j < k < i + 1 implies (
            #[trigger] parts(tiles@)[j]).id != (#[trigger] parts(tiles@)[k]).id by {
                assert(parts(tiles@)[j] == done[j]);
                assert(h.is_input_at(done[j].id, Some(space), done[j].off, done[j].size));
                if k < i {
                    assert(parts(tiles@)[k] == done[k]);
                } else {
                    assert(all[j].source is Some && all[k].source is Some ==> all[j].source->0.id
                        != all[k].source->0.id);
                }
            }
        }
        i = i + 1;
    }
    proof {
        assert(all.take(i as int) =~= all);
        let held = parts(tiles@);
        assert forall|j: int, k: int|
            #![trigger held[j], held[k]]
            0 <= j && k == j + 1 && k < held.len() implies held[j].off + held[j].size
            == held[k].off by {
            assert(all[j].off + all[j].size == all[k].off);
        }
        assert forall|j: int| 0 <= j < held.len() implies (#[trigger] held[j]).size >= 0 by {
            assert(all[j].size >= 0);
        }
        assert(held[0].off == all[0].off && held.last().off == all.last().off);
    }
    Some(tiles)
}

/// Folds the inputs that meet `size` bytes at `addr` into one input of that storage.
/// All of them must lie in the request and be passed over by renaming; bytes that
/// none of them has become inputs first.  Without a plan nothing is changed; in
/// particular where two inputs that have a byte in the request share storage.  Where
/// the block at which the function is entered is not known, folding stops at the first
/// pair of which something has to be cut.
pub fn combine_covered_pieces(fd: &mut Funcdata, size: i32, addr: &Address) -> (result: Option<
    VarnodeId,
>)
    requires
        old(fd)@.linked(),
        size > 0,
    ensures
        final(fd)@.linked(),
        old(fd)@.wf() ==> final(fd)@.wf(),
        (final(fd)@, id_view(result)) == fold_outcome(old(fd)@, size as int, *addr),
        final(fd)@.start == old(fd)@.start,
        old(fd)@.start is Some ==> (result is Some <==> covered_plan(
            inputs_of(old(fd)@),
            size as int,
            *addr,
        ) is Some),
        contested(old(fd)@, size as int, *addr) ==> result is None && final(fd)@ == old(fd)@,
{
    let ghost g = fd@;
    proof {
        if contested(g, size as int, *addr) {
            lemma_contested_unplanned(g, size as int, *addr);
        }
    }
    let inputs: Vec<InputVarnode> = fd.vbank().input_varnodes();
    let plan: Vec<Segment> = match plan_covered_pieces(&inputs, size, addr) {
        Some(plan) => plan,
        None => {
            return None;
        },
    };
    let space: AddrSpace = match addr.get_space() {
        Some(space) => space,
        None => {
            return None;
        },
    };
    let ghost all = segs(plan@);
    proof {
        lemma_covered_plan_fits(g, size as int, *addr);
    }
    let mut tiling: Vec<Tile> = match fill_holes(fd, &plan, space) {
        Some(tiling) => tiling,
        None => {
            return None;
        },
    };
    let big_endian: bool = addr.is_big_endian();
    let ghost end = combined(g, all, *addr);
    while tiling.len() > 1
        invariant
            g == old(fd)@,
            fd@.linked(),
            g.wf() ==> fd@.wf(),
            fd@.start == g.start,
            parts_held(fd@, parts(tiling@), space),
            span(parts(tiling@)) == size,
            big_endian == space.big_endian,
            folded(fd@, parts(tiling@), space.big_endian) == end,
            end == fold_outcome(g, size as int, *addr),
            covered_plan(inputs_of(g), size as int, *addr) is Some,
            !contested(g, size as int, *addr),
        decreases tiling.len(),
    {
        let ghost h = fd@;
        let ghost tiles = parts(tiling@);
        let ghost rest = first_folded(h, tiles);
        proof {
            lemma_fold_step(h, tiles, space);
            assert(tiles[0] == tiling@[0]@ && tiles[1] == tiling@[1]@);
        }
        let a: Tile = tiling.remove(0);
        let b: Tile = tiling.remove(0);
        // The more significant of the two comes first.
        let (vn_hi, vn_lo): (VarnodeId, VarnodeId) = if big_endian {
            (a.id, b.id)
        } else {
            (b.id, a.id)
        };
        if fd.combine_input_varnodes(vn_hi, vn_lo).is_err() {
            return None;
        }
        let joinaddr: Address = Address::new(space, a.off);
        let both: i32 = a.size + b.size;
        let id: VarnodeId = match fd.find_varnode_input(both, &joinaddr) {
            Some(id) => id,
            None => {
                return None;
            },
        };
        tiling.insert(0, Tile { off: a.off, size: both, id });
        assert(parts(tiling@) =~= rest);
    }
    assert(parts(tiling@)[0] == tiling@[0]@);
    Some(tiling[0].id)
}

} // verus!
