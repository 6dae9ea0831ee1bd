//! What holds of every plan.

use crate::address::{AddrSpace, Address};
use crate::graph::offsets;
use crate::plan::{
    covered_pieces, covered_plan, filled, gap, insert_piece, lemma_insert_contains,
    lemma_parts_step, lemma_sort_contains, overlapping_pieces, overlapping_plan, sort_pieces, tile,
    In, Pc, Seg,
};
use vstd::prelude::*;

verus! {

/// Segments that follow each other without a gap from one offset to another.
pub open spec fn tiles_range(plan: Seq<Seg>, from: int, to: int) -> bool {
    &&& plan.len() == 0 ==> from == to
    &&& plan.len() > 0 ==> plan[0].off == from && plan.last().off + plan.last().size == to
    &&& forall|i: int, j: int|
        #![trigger plan[i], plan[j]]
        0 <= i && j == i + 1 && j < plan.len() ==> plan[i].off + plan[i].size == plan[j].off
    &&& forall|i: int| 0 <= i < plan.len() ==> (#[trigger] plan[i]).size >= 0
}

/// Segments that tile a range stand in order.
pub proof fn lemma_tiles_ordered(plan: Seq<Seg>, from: int, to: int, i: int, j: int)
    requires
        tiles_range(plan, from, to),
        0 <= i < j < plan.len(),
    ensures
        plan[i].off + plan[i].size <= plan[j].off,
    decreases j - i,
{
    if j == i + 1 {
        assert(plan[i].off + plan[i].size == plan[j].off);
    } else {
        lemma_tiles_ordered(plan, from, to, i, j - 1);
        assert(plan[j - 1].off + plan[j - 1].size == plan[j].off);
        assert(plan[j - 1].size >= 0);
    }
}

/// Segments that tile a range lie in it.
pub proof fn lemma_tiles_inside(plan: Seq<Seg>, from: int, to: int, i: int)
    requires
        tiles_range(plan, from, to),
        0 <= i < plan.len(),
    ensures
        from <= plan[i].off,
        plan[i].off + plan[i].size <= to,
{
    let last = plan.len() - 1;
    assert(plan[0].size >= 0 && plan[last].size >= 0 && plan[i].size >= 0);
    if i > 0 {
        lemma_tiles_ordered(plan, from, to, 0, i);
    }
    if i < last {
        lemma_tiles_ordered(plan, from, to, i, last);
    }
}

/// Segments that tile a range leave out none of its bytes.
pub proof fn lemma_tiles_cover(plan: Seq<Seg>, from: int, to: int, b: int)
    requires
        tiles_range(plan, from, to),
        from <= b < to,
    ensures
        exists|i: int|
            0 <= i < plan.len() && (#[trigger] plan[i]).off <= b < plan[i].off + plan[i].size,
    decreases plan.len(),
{
    let n = plan.len() as int;
    if plan[n - 1].off > b {
        let i = n - 2;
        assert(n > 1);
        assert(plan[i].off + plan[i].size == plan[n - 1].off);
        lemma_tiles_take(plan, from, to, n - 1);
        let p = plan.take(n - 1);
        lemma_tiles_cover(p, from, plan[n - 2].off + plan[n - 2].size, b);
        let k = choose|k: int|
            0 <= k < p.len() && (#[trigger] p[k]).off <= b < p[k].off + p[k].size;
        assert(plan[k].off <= b < plan[k].off + plan[k].size);
    } else {
        assert(plan[n - 1].off <= b < plan[n - 1].off + plan[n - 1].size);
    }
}

/// The segments up to one end where the next starts.
pub proof fn lemma_tiles_take(plan: Seq<Seg>, from: int, to: int, n: int)
    requires
        tiles_range(plan, from, to),
        0 < n <= plan.len(),
    ensures
        tiles_range(plan.take(n), from, plan[n - 1].off + plan[n - 1].size),
{
    let p = plan.take(n);
    assert forall|i: int, j: int|
        #![trigger p[i], p[j]]
        0 <= i && j == i + 1 && j < p.len() implies p[i].off + p[i].size == p[j].off by {
        assert(plan[i].off + plan[i].size == plan[j].off);
    }
    assert forall|i: int| 0 <= i < p.len() implies (#[trigger] p[i]).size >= 0 by {
        assert(plan[i].size >= 0);
    }
}

/// The segments of a plan that take bytes from an input are the pieces.
pub open spec fn fills(plan: Seq<Seg>, pieces: Seq<Pc>) -> bool {
    &&& forall|j: int| 0 <= j < pieces.len() ==> plan.contains(filled(#[trigger] pieces[j]))
    &&& forall|i: int|
        0 <= i < plan.len() && (#[trigger] plan[i]).source is Some ==> exists|j: int|
            0 <= j < pieces.len() && plan[i] == filled(#[trigger] pieces[j])
    &&& forall|i: int| 0 <= i < plan.len() && (#[trigger] plan[i]).source is None ==> plan[i].size
        > 0
}

/// A hole, a piece and what tiles the rest of the range tile it.
proof fn lemma_tile_step(from: int, to: int, p: Pc, rest: Seq<Seg>)
    requires
        from <= p.lo <= p.hi,
        tiles_range(rest, p.hi, to),
    ensures
        tiles_range(gap(from, p.lo) + seq![filled(p)] + rest, from, to),
{
    let before = gap(from, p.lo);
    let n = before.len() as int;
    let plan = before + seq![filled(p)] + rest;
    assert(plan[n] == filled(p));
    assert forall|i: int| n < i < plan.len() implies #[trigger] plan[i] == rest[i - n - 1] by {}
    assert forall|i: int, j: int|
        #![trigger plan[i], plan[j]]
        0 <= i && j == i + 1 && j < plan.len() implies plan[i].off + plan[i].size
        == plan[j].off by {
        if i > n {
            assert(plan[i] == rest[i - n - 1] && plan[j] == rest[j - n - 1]);
        }
    }
    assert forall|i: int| 0 <= i < plan.len() implies (#[trigger] plan[i]).size >= 0 by {
        if i > n {
            assert(rest[i - n - 1].size >= 0);
        }
    }
    if rest.len() > 0 {
        assert(plan.last() == rest.last());
    }
}

/// The first piece fills the tiling that the others fill the rest of.
proof fn lemma_fill_step(from: int, pieces: Seq<Pc>, rest: Seq<Seg>)
    requires
        pieces.len() > 0,
        fills(rest, pieces.drop_first()),
    ensures
        fills(gap(from, pieces[0].lo) + seq![filled(pieces[0])] + rest, pieces),
{
    let others = pieces.drop_first();
    let before = gap(from, pieces[0].lo);
    let n = before.len() as int;
    let plan = before + seq![filled(pieces[0])] + rest;
    assert(plan[n] == filled(pieces[0]));
    assert forall|j: int| 0 <= j < pieces.len() implies plan.contains(
        filled(#[trigger] pieces[j]),
    ) by {
        if j > 0 {
            assert(others[j - 1] == pieces[j]);
            assert(rest.contains(filled(others[j - 1])));
            let i = choose|i: int| 0 <= i < rest.len() && rest[i] == filled(pieces[j]);
            assert(plan[n + 1 + i] == filled(pieces[j]));
        }
    }
    assert forall|i: int|
        0 <= i < plan.len() && (#[trigger] plan[i]).source is Some implies exists|j: int|
        0 <= j < pieces.len() && plan[i] == filled(#[trigger] pieces[j]) by {
        if i > n {
            assert(plan[i] == rest[i - n - 1]);
            let j = choose|j: int|
                0 <= j < others.len() && rest[i - n - 1] == filled(#[trigger] others[j]);
            assert(plan[i] == filled(pieces[j + 1]));
        } else {
            assert(plan[i] == filled(pieces[0]));
        }
    }
    assert forall|i: int|
        0 <= i < plan.len() && (#[trigger] plan[i]).source is None implies plan[i].size > 0 by {
        if i > n {
            assert(plan[i] == rest[i - n - 1]);
        }
    }
}

/// A tiling tiles the range, and the pieces fill it.
pub proof fn lemma_tile(from: int, to: int, pieces: Seq<Pc>)
    requires
        from <= to,
        forall|j: int| 0 <= j < pieces.len() ==> (#[trigger] pieces[j]).lo <= pieces[j].hi <= to,
        tile(from, to, pieces) is Some,
    ensures
        tiles_range(tile(from, to, pieces)->0, from, to),
        fills(tile(from, to, pieces)->0, pieces),
    decreases pieces.len(),
{
    if pieces.len() > 0 {
        let p = pieces[0];
        let others = pieces.drop_first();
        assert forall|j: int| 0 <= j < others.len() implies (#[trigger] others[j]).lo
            <= others[j].hi <= to by {
            assert(others[j] == pieces[j + 1]);
        }
        lemma_tile(p.hi, to, others);
        let rest = tile(p.hi, to, others)->0;
        lemma_tile_step(from, to, p, rest);
        lemma_fill_step(from, pieces, rest);
    }
}

/// Pieces in the order of where they start.
pub open spec fn in_order(pieces: Seq<Pc>) -> bool {
    forall|i: int, j: int|
        0 <= i <= j < pieces.len() ==> (#[trigger] pieces[i]).lo <= (#[trigger] pieces[j]).lo
}

/// Pieces that have bytes and share none.
pub open spec fn apart(pieces: Seq<Pc>) -> bool {
    &&& forall|i: int| 0 <= i < pieces.len() ==> (#[trigger] pieces[i]).lo < pieces[i].hi
    &&& forall|i: int, j: int|
        0 <= i < pieces.len() && 0 <= j < pieces.len() && i != j ==> (#[trigger] pieces[i]).hi
            <= (#[trigger] pieces[j]).lo || pieces[j].hi <= pieces[i].lo
}

/// Putting a piece in keeps the order, and keeps the pieces apart.
proof fn lemma_insert_keeps(s: Seq<Pc>, p: Pc)
    requires
        in_order(s),
        apart(s),
        p.lo < p.hi,
        forall|i: int| 0 <= i < s.len() ==> (#[trigger] s[i]).hi <= p.lo || p.hi <= s[i].lo,
    ensures
        in_order(insert_piece(s, p)),
        apart(insert_piece(s, p)),
    decreases s.len(),
{
    let t = insert_piece(s, p);
    if s.len() == 0 || s.last().lo <= p.lo {
    } else {
        let r = s.drop_last();
        let q = s.last();
        let u = insert_piece(r, p);
        assert(q == s[s.len() - 1]);
        lemma_insert_keeps(r, p);
        lemma_insert_contains(r, p);
        assert forall|i: int| 0 <= i < u.len() implies (#[trigger] u[i]).lo <= q.lo && (u[i].hi
            <= q.lo || q.hi <= u[i].lo) by {
            assert(u.contains(u[i]));
            if u[i] != p {
                assert(r.contains(u[i]));
                let k = choose|k: int| 0 <= k < r.len() && r[k] == u[i];
                assert(s[k] == u[i]);
            }
        }
    }
}

/// Sorting pieces that are apart puts them in order and keeps them apart.
proof fn lemma_sort_keeps(s: Seq<Pc>)
    requires
        apart(s),
    ensures
        in_order(sort_pieces(s)),
        apart(sort_pieces(s)),
    decreases s.len(),
{
    if s.len() > 0 {
        let r = s.drop_last();
        let t = sort_pieces(r);
        let p = s.last();
        assert(p == s[s.len() - 1]);
        assert(apart(r)) by {
            assert forall|i: int| 0 <= i < r.len() implies (#[trigger] r[i]).lo < r[i].hi by {
                assert(s[i].lo < s[i].hi);
            }
            assert forall|i: int, j: int|
                0 <= i < r.len() && 0 <= j < r.len() && i != j implies (#[trigger] r[i]).hi <= (
            #[trigger] r[j]).lo || r[j].hi <= r[i].lo by {
                assert(s[i].hi <= s[j].lo || s[j].hi <= s[i].lo);
            }
        }
        lemma_sort_keeps(r);
        lemma_sort_contains(r);
        assert forall|i: int| 0 <= i < t.len() implies (#[trigger] t[i]).hi <= p.lo || p.hi
            <= t[i].lo by {
            assert(t.contains(t[i]));
            assert(r.contains(t[i]));
            let k = choose|k: int| 0 <= k < r.len() && r[k] == t[i];
            assert(s[k] == t[i]);
        }
        lemma_insert_keeps(t, p);
    }
}

/// Pieces in order that are apart tile a range.
proof fn lemma_tile_exists(from: int, to: int, pieces: Seq<Pc>)
    requires
        in_order(pieces),
        apart(pieces),
        pieces.len() > 0 ==> from <= pieces[0].lo,
    ensures
        tile(from, to, pieces) is Some,
    decreases pieces.len(),
{
    if pieces.len() > 0 {
        let others = pieces.drop_first();
        assert forall|i: int| 0 <= i < others.len() implies (#[trigger] others[i]).lo
            < others[i].hi by {
            assert(pieces[i + 1].lo < pieces[i + 1].hi);
        }
        assert forall|i: int, j: int|
            0 <= i < others.len() && 0 <= j < others.len() && i != j implies (
        #[trigger] others[i]).hi <= (#[trigger] others[j]).lo || others[j].hi <= others[i].lo by {
            assert(pieces[i + 1].hi <= pieces[j + 1].lo || pieces[j + 1].hi <= pieces[i + 1].lo);
        }
        assert forall|i: int, j: int| 0 <= i <= j < others.len() implies (#[trigger] others[i]).lo
            <= (#[trigger] others[j]).lo by {
            assert(pieces[i + 1].lo <= pieces[j + 1].lo);
        }
        if others.len() > 0 {
            assert(pieces[0].lo <= pieces[1].lo);
            assert(pieces[0].hi <= pieces[1].lo || pieces[1].hi <= pieces[0].lo);
        }
        lemma_tile_exists(pieces[0].hi, to, others);
    }
}

/// Inputs of a list that have storage and share none of it.
pub open spec fn inputs_apart(inputs: Seq<In>) -> bool {
    &&& forall|i: int| 0 <= i < inputs.len() ==> (#[trigger] inputs[i]).vn.size > 0
    &&& forall|i: int, j: int|
        0 <= i < inputs.len() && 0 <= j < inputs.len() && i != j ==> !(
        #[trigger] inputs[i]).vn.overlaps((#[trigger] inputs[j]).vn)
}

/// A part of an input in a list is among the parts of those that pass.
pub proof fn lemma_parts_hold(s: Seq<In>, pred: spec_fn(In) -> bool, lo: int, hi: int, i: int)
    requires
        0 <= i < s.len(),
        pred(s[i]),
    ensures
        s.filter(pred).map_values(|i: In| i.part(lo, hi)).contains(s[i].part(lo, hi)),
{
    s.lemma_filter_contains(pred, i);
    let f = s.filter(pred);
    let j = choose|j: int| 0 <= j < f.len() && f[j] == s[i];
    let pieces = f.map_values(|i: In| i.part(lo, hi));
    assert(pieces[j] == s[i].part(lo, hi));
}

/// The parts of those that pass are parts of inputs in the list.
pub proof fn lemma_parts_from(s: Seq<In>, pred: spec_fn(In) -> bool, lo: int, hi: int, j: int)
    requires
        0 <= j < s.filter(pred).len(),
    ensures
        exists|i: int|
            0 <= i < s.len() && pred(#[trigger] s[i]) && s[i].part(lo, hi) == s.filter(
                pred,
            ).map_values(|i: In| i.part(lo, hi))[j],
{
    let f = s.filter(pred);
    s.lemma_filter_pred(pred, j);
    assert(f.contains(f[j]));
    s.lemma_filter_contains_rev(pred, f[j]);
    let i = choose|i: int| 0 <= i < s.len() && s[i] == f[j];
    assert(pred(s[i]));
}

/// The parts of inputs that are apart are apart.
proof fn lemma_parts_apart(
    s: Seq<In>,
    pred: spec_fn(In) -> bool,
    space: AddrSpace,
    lo: int,
    hi: int,
    n: int,
)
    requires
        inputs_apart(s),
        forall|i: int|
            0 <= i < s.len() && pred(#[trigger] s[i]) ==> s[i].covers(space, lo, hi),
        0 <= n <= s.len(),
    ensures
        apart(s.take(n).filter(pred).map_values(|i: In| i.part(lo, hi))),
    decreases n,
{
    let pieces = s.take(n).filter(pred).map_values(|i: In| i.part(lo, hi));
    if n == 0 {
        assert(s.take(0) =~= Seq::empty());
        assert(pieces.len() == 0) by {
            reveal(Seq::filter);
        }
    } else {
        lemma_parts_apart(s, pred, space, lo, hi, n - 1);
        lemma_parts_step(s, n - 1, pred, lo, hi);
        let t = s.take(n - 1);
        let before = t.filter(pred).map_values(|i: In| i.part(lo, hi));
        let last = s[n - 1];
        if pred(last) {
            assert(pieces == before.push(last.part(lo, hi)));
            assert(last.covers(space, lo, hi));
            assert forall|j: int| 0 <= j < before.len() implies (#[trigger] before[j]).hi
                <= last.part(lo, hi).lo || last.part(lo, hi).hi <= before[j].lo by {
                lemma_parts_from(t, pred, lo, hi, j);
                let i = choose|i: int|
                    0 <= i < t.len() && pred(#[trigger] t[i]) && t[i].part(lo, hi) == before[j];
                assert(t[i] == s[i]);
                assert(s[i].covers(space, lo, hi));
                assert(!s[i].vn.overlaps(s[n - 1].vn));
                assert(s[i].vn.size > 0 && s[n - 1].vn.size > 0);
            }
        }
    }
}

/// Pieces that are apart have a tiling.
proof fn lemma_sorted_tile_exists(lo: int, hi: int, pieces: Seq<Pc>)
    requires
        apart(pieces),
        forall|j: int| 0 <= j < pieces.len() ==> lo <= (#[trigger] pieces[j]).lo,
    ensures
        tile(lo, hi, sort_pieces(pieces)) is Some,
{
    lemma_sort_keeps(pieces);
    lemma_sort_contains(pieces);
    let t = sort_pieces(pieces);
    if t.len() > 0 {
        assert(t.contains(t[0]));
        assert(pieces.contains(t[0]));
        let k = choose|k: int| 0 <= k < pieces.len() && pieces[k] == t[0];
        assert(lo <= pieces[k].lo);
    }
    lemma_tile_exists(lo, hi, t);
}

/// A plan to fold inputs tiles the requested range, and the parts of the inputs that
/// meet the range fill it.
pub proof fn law_covered_plan_tiles(inputs: Seq<In>, size: int, addr: Address)
    requires
        size > 0,
        covered_plan(inputs, size, addr) is Some,
    ensures
        addr.base is Some,
        covered_plan(inputs, size, addr)->0.len() > 0,
        tiles_range(
            covered_plan(inputs, size, addr)->0,
            addr.offset as int,
            addr.offset + size,
        ),
        fills(
            covered_plan(inputs, size, addr)->0,
            covered_pieces(inputs, addr.base->0, addr.offset as int, addr.offset + size),
        ),
{
    let space = addr.base->0;
    let lo = addr.offset as int;
    let hi = lo + size;
    let pred = |i: In| i.meets(space, lo, hi);
    let pieces = covered_pieces(inputs, space, lo, hi);
    assert forall|j: int| 0 <= j < pieces.len() implies (#[trigger] pieces[j]).lo <= pieces[j].hi
        <= hi by {
        lemma_parts_from(inputs, pred, lo, hi, j);
        let i = choose|i: int|
            0 <= i < inputs.len() && pred(#[trigger] inputs[i]) && inputs[i].part(lo, hi)
                == pieces[j];
        assert(inputs[i].foldable(space, lo, hi));
    }
    lemma_sorted_tiling(lo, hi, pieces);
}

/// A plan to rebuild a value tiles the requested range, and the parts of the inputs
/// that have a byte in the range fill it.
pub proof fn law_overlapping_plan_tiles(inputs: Seq<In>, size: int, addr: Address)
    requires
        size > 0,
        overlapping_plan(inputs, size, addr) is Some,
    ensures
        addr.base is Some,
        overlapping_plan(inputs, size, addr)->0.len() > 0,
        tiles_range(
            overlapping_plan(inputs, size, addr)->0,
            addr.offset as int,
            addr.offset + size,
        ),
        fills(
            overlapping_plan(inputs, size, addr)->0,
            overlapping_pieces(inputs, addr.base->0, addr.offset as int, addr.offset + size),
        ),
{
    let space = addr.base->0;
    let lo = addr.offset as int;
    let hi = lo + size;
    let pred = |i: In| i.covers(space, lo, hi);
    let pieces = overlapping_pieces(inputs, space, lo, hi);
    assert forall|j: int| 0 <= j < pieces.len() implies (#[trigger] pieces[j]).lo <= pieces[j].hi
        <= hi by {
        lemma_parts_from(inputs, pred, lo, hi, j);
        let i = choose|i: int|
            0 <= i < inputs.len() && pred(#[trigger] inputs[i]) && inputs[i].part(lo, hi)
                == pieces[j];
        assert(inputs[i].covers(space, lo, hi));
    }
    lemma_sorted_tiling(lo, hi, pieces);
}

/// A tiling by pieces in any order tiles the range, and the pieces fill it.
proof fn lemma_sorted_tiling(lo: int, hi: int, pieces: Seq<Pc>)
    requires
        lo < hi,
        forall|j: int| 0 <= j < pieces.len() ==> (#[trigger] pieces[j]).lo <= pieces[j].hi <= hi,
        tile(lo, hi, sort_pieces(pieces)) is Some,
    ensures
        tile(lo, hi, sort_pieces(pieces))->0.len() > 0,
        tiles_range(tile(lo, hi, sort_pieces(pieces))->0, lo, hi),
        fills(tile(lo, hi, sort_pieces(pieces))->0, pieces),
{
    let t = sort_pieces(pieces);
    let plan = tile(lo, hi, t)->0;
    lemma_sort_contains(pieces);
    assert forall|j: int| 0 <= j < t.len() implies (#[trigger] t[j]).lo <= t[j].hi <= hi by {
        assert(t.contains(t[j]));
        assert(pieces.contains(t[j]));
        let k = choose|k: int| 0 <= k < pieces.len() && pieces[k] == t[j];
        assert(pieces[k].lo <= pieces[k].hi <= hi);
    }
    lemma_tile(lo, hi, t);
    assert forall|j: int| 0 <= j < pieces.len() implies plan.contains(
        filled(#[trigger] pieces[j]),
    ) by {
        assert(pieces.contains(pieces[j]));
        assert(t.contains(pieces[j]));
        let k = choose|k: int| 0 <= k < t.len() && t[k] == pieces[j];
        assert(plan.contains(filled(t[k])));
    }
    assert forall|i: int| 0 <= i < plan.len() && (#[trigger] plan[i]).source is Some implies exists|
        j: int,
    |
        0 <= j < pieces.len() && plan[i] == filled(#[trigger] pieces[j]) by {
        let k = choose|k: int| 0 <= k < t.len() && plan[i] == filled(#[trigger] t[k]);
        assert(t.contains(t[k]));
        assert(pieces.contains(t[k]));
        let j = choose|j: int| 0 <= j < pieces.len() && pieces[j] == t[k];
        assert(plan[i] == filled(pieces[j]));
    }
}

/// Of inputs that share no storage there is a plan to fold those that meet a range
/// exactly when the end of the range is an offset, all of them can be folded, and some
/// of them meets the range.
pub proof fn law_covered_plan_exists(inputs: Seq<In>, size: int, addr: Address)
    requires
        size > 0,
        inputs_apart(inputs),
    ensures
        covered_plan(inputs, size, addr) is Some <==> (addr.base matches Some(space) && {
            let lo = addr.offset as int;
            let hi = lo + size;
            &&& hi < offsets()
            &&& forall|i: int|
                0 <= i < inputs.len() ==> (#[trigger] inputs[i]).foldable(space, lo, hi)
            &&& exists|i: int|
                0 <= i < inputs.len() && (#[trigger] inputs[i]).meets(space, lo, hi)
        }),
{
    if let Some(space) = addr.base {
        let lo = addr.offset as int;
        let hi = lo + size;
        let pred = |i: In| i.meets(space, lo, hi);
        let pieces = covered_pieces(inputs, space, lo, hi);
        if hi < offsets() && forall|i: int|
            0 <= i < inputs.len() ==> (#[trigger] inputs[i]).foldable(space, lo, hi) {
            assert forall|i: int| 0 <= i < inputs.len() && pred(#[trigger] inputs[i]) implies inputs[i].covers(
            space,
            lo,
            hi,
        ) by {
                assert(inputs[i].vn.size > 0);
            }
            lemma_parts_apart(inputs, pred, space, lo, hi, inputs.len() as int);
            assert(inputs.take(inputs.len() as int) =~= inputs);
            assert forall|j: int| 0 <= j < pieces.len() implies lo <= (#[trigger] pieces[j]).lo by {
                lemma_parts_from(inputs, pred, lo, hi, j);
            }
            lemma_sorted_tile_exists(lo, hi, pieces);
            if exists|i: int| 0 <= i < inputs.len() && (#[trigger] inputs[i]).meets(space, lo, hi) {
                let i = choose|i: int|
                    0 <= i < inputs.len() && (#[trigger] inputs[i]).meets(space, lo, hi);
                lemma_parts_hold(inputs, pred, lo, hi, i);
            } else if pieces.len() > 0 {
                lemma_parts_from(inputs, pred, lo, hi, 0);
            }
        }
    }
}

/// Of inputs that share no storage there is a plan to rebuild a range exactly when
/// the end of the range is an offset, those in the space are ranges of offsets, and
/// some of them has a byte in the range.
pub proof fn law_overlapping_plan_exists(inputs: Seq<In>, size: int, addr: Address)
    requires
        size > 0,
        inputs_apart(inputs),
    ensures
        overlapping_plan(inputs, size, addr) is Some <==> (addr.base matches Some(space) && {
            let lo = addr.offset as int;
            let hi = lo + size;
            &&& hi < offsets()
            &&& forall|i: int| 0 <= i < inputs.len() ==> (#[trigger] inputs[i]).ranged(space)
            &&& exists|i: int|
                0 <= i < inputs.len() && (#[trigger] inputs[i]).covers(space, lo, hi)
        }),
{
    if let Some(space) = addr.base {
        let lo = addr.offset as int;
        let hi = lo + size;
        let pred = |i: In| i.covers(space, lo, hi);
        let pieces = overlapping_pieces(inputs, space, lo, hi);
        lemma_parts_apart(inputs, pred, space, lo, hi, inputs.len() as int);
        assert(inputs.take(inputs.len() as int) =~= inputs);
        assert forall|j: int| 0 <= j < pieces.len() implies lo <= (#[trigger] pieces[j]).lo by {
            lemma_parts_from(inputs, pred, lo, hi, j);
        }
        lemma_sorted_tile_exists(lo, hi, pieces);
        if exists|i: int| 0 <= i < inputs.len() && (#[trigger] inputs[i]).covers(space, lo, hi) {
            let i = choose|i: int|
                0 <= i < inputs.len() && (#[trigger] inputs[i]).covers(space, lo, hi);
            lemma_parts_hold(inputs, pred, lo, hi, i);
        } else if pieces.len() > 0 {
            lemma_parts_from(inputs, pred, lo, hi, 0);
        }
    }
}

/// No two pieces are parts of one input.
pub open spec fn single(pieces: Seq<Pc>) -> bool {
    forall|i: int, j: int|
        0 <= i < j < pieces.len() ==> (#[trigger] pieces[i]).source.id != (
        #[trigger] pieces[j]).source.id
}

/// No two segments of a plan take their bytes from one input.
pub open spec fn sources_single(plan: Seq<Seg>) -> bool {
    forall|i: int, j: int|
        #![trigger plan[i], plan[j]]
        0 <= i < j < plan.len() && plan[i].source is Some && plan[j].source is Some
            ==> plan[i].source->0.id != plan[j].source->0.id
}

/// No two inputs of a list bear one number.
pub open spec fn numbered(inputs: Seq<In>) -> bool {
    forall|i: int, j: int|
        0 <= i < j < inputs.len() ==> (#[trigger] inputs[i]).id != (#[trigger] inputs[j]).id
}

/// Putting in a piece of another input keeps the inputs of the pieces apart.
proof fn lemma_insert_single(s: Seq<Pc>, p: Pc)
    requires
        single(s),
        forall|i: int| 0 <= i < s.len() ==> (#[trigger] s[i]).source.id != p.source.id,
    ensures
        single(insert_piece(s, p)),
    decreases s.len(),
{
    if s.len() == 0 || s.last().lo <= p.lo {
    } else {
        let r = s.drop_last();
        let q = s.last();
        let u = insert_piece(r, p);
        assert(q == s[s.len() - 1]);
        lemma_insert_single(r, p);
        lemma_insert_contains(r, p);
        assert forall|i: int| 0 <= i < u.len() implies (#[trigger] u[i]).source.id
            != q.source.id by {
            assert(u.contains(u[i]));
            if u[i] != p {
                assert(r.contains(u[i]));
                let k = choose|k: int| 0 <= k < r.len() && r[k] == u[i];
                assert(s[k] == u[i]);
            }
        }
    }
}

/// Sorting keeps the inputs of the pieces apart.
proof fn lemma_sort_single(s: Seq<Pc>)
    requires
        single(s),
    ensures
        single(sort_pieces(s)),
    decreases s.len(),
{
    if s.len() > 0 {
        let r = s.drop_last();
        let t = sort_pieces(r);
        let p = s.last();
        lemma_sort_single(r);
        lemma_sort_contains(r);
        assert forall|i: int| 0 <= i < t.len() implies (#[trigger] t[i]).source.id
            != p.source.id by {
            assert(t.contains(t[i]));
            assert(r.contains(t[i]));
            let k = choose|k: int| 0 <= k < r.len() && r[k] == t[i];
            assert(s[k] == t[i] && s[s.len() - 1] == p);
        }
        lemma_insert_single(t, p);
    }
}

/// A tiling by pieces of different inputs takes its bytes from different inputs.
proof fn lemma_tile_single(from: int, to: int, pieces: Seq<Pc>)
    requires
        forall|j: int| 0 <= j < pieces.len() ==> (#[trigger] pieces[j]).lo <= pieces[j].hi <= to,
        from <= to,
        tile(from, to, pieces) is Some,
        single(pieces),
    ensures
        sources_single(tile(from, to, pieces)->0),
    decreases pieces.len(),
{
    let plan = tile(from, to, pieces)->0;
    if pieces.len() > 0 {
        let p = pieces[0];
        let others = pieces.drop_first();
        let rest = tile(p.hi, to, others)->0;
        assert forall|j: int| 0 <= j < others.len() implies (#[trigger] others[j]).lo
            <= others[j].hi <= to by {
            assert(others[j] == pieces[j + 1]);
        }
        lemma_tile(p.hi, to, others);
        lemma_tile_single(p.hi, to, others);
        let n = gap(from, p.lo).len() as int;
        assert(plan[n] == filled(p));
        assert forall|i: int, j: int|
            #![trigger plan[i], plan[j]]
            0 <= i < j < plan.len() && plan[i].source is Some
                && plan[j].source is Some implies plan[i].source->0.id
            != plan[j].source->0.id by {
            assert(i >= n);
            let b = j - n - 1;
            assert(plan[j] == rest[b]);
            if i > n {
                assert(plan[i] == rest[i - n - 1]);
            } else {
                let k = choose|k: int|
                    0 <= k < others.len() && rest[b] == filled(#[trigger] others[k]);
                assert(others[k] == pieces[k + 1]);
            }
        }
    }
}

/// The parts of different inputs are pieces of different inputs.
proof fn lemma_parts_single(s: Seq<In>, pred: spec_fn(In) -> bool, lo: int, hi: int, n: int)
    requires
        numbered(s),
        0 <= n <= s.len(),
    ensures
        single(s.take(n).filter(pred).map_values(|i: In| i.part(lo, hi))),
    decreases n,
{
    let pieces = s.take(n).filter(pred).map_values(|i: In| i.part(lo, hi));
    if n == 0 {
        assert(s.take(0) =~= Seq::empty());
        assert(pieces.len() == 0) by {
            reveal(Seq::filter);
        }
    } else {
        lemma_parts_single(s, pred, lo, hi, n - 1);
        lemma_parts_step(s, n - 1, pred, lo, hi);
        let t = s.take(n - 1);
        let before = t.filter(pred).map_values(|i: In| i.part(lo, hi));
        let last = s[n - 1];
        if pred(last) {
            assert forall|j: int| 0 <= j < before.len() implies (#[trigger] before[j]).source.id
                != last.id by {
                lemma_parts_from(t, pred, lo, hi, j);
                let i = choose|i: int|
                    0 <= i < t.len() && pred(#[trigger] t[i]) && t[i].part(lo, hi) == before[j];
                assert(t[i] == s[i]);
            }
        }
    }
}

/// A plan to fold different inputs names each of them once.
pub proof fn lemma_covered_plan_single(inputs: Seq<In>, size: int, addr: Address)
    requires
        size > 0,
        numbered(inputs),
        covered_plan(inputs, size, addr) is Some,
    ensures
        sources_single(covered_plan(inputs, size, addr)->0),
{
    let space = addr.base->0;
    let lo = addr.offset as int;
    let hi = lo + size;
    let pred = |i: In| i.meets(space, lo, hi);
    let pieces = covered_pieces(inputs, space, lo, hi);
    let t = sort_pieces(pieces);
    assert(inputs.take(inputs.len() as int) =~= inputs);
    lemma_parts_single(inputs, pred, lo, hi, inputs.len() as int);
    lemma_sort_single(pieces);
    lemma_sort_contains(pieces);
    assert forall|j: int| 0 <= j < t.len() implies (#[trigger] t[j]).lo <= t[j].hi <= hi by {
        assert(t.contains(t[j]));
        assert(pieces.contains(t[j]));
        let k = choose|k: int| 0 <= k < pieces.len() && pieces[k] == t[j];
        lemma_parts_from(inputs, pred, lo, hi, k);
        let i = choose|i: int|
            0 <= i < inputs.len() && pred(#[trigger] inputs[i]) && inputs[i].part(lo, hi)
                == pieces[k];
        assert(inputs[i].foldable(space, lo, hi));
    }
    lemma_tile_single(lo, hi, t);
}

/// Two pieces of a tiling, of different inputs, share no byte.
proof fn lemma_filled_apart(plan: Seq<Seg>, lo: int, hi: int, p: Pc, q: Pc)
    requires
        tiles_range(plan, lo, hi),
        plan.contains(filled(p)),
        plan.contains(filled(q)),
        p.source.id != q.source.id,
    ensures
        p.hi <= q.lo || q.hi <= p.lo,
{
    let i = choose|i: int| 0 <= i < plan.len() && plan[i] == filled(p);
    let j = choose|j: int| 0 <= j < plan.len() && plan[j] == filled(q);
    if i < j {
        lemma_tiles_ordered(plan, lo, hi, i, j);
    } else {
        lemma_tiles_ordered(plan, lo, hi, j, i);
    }
}

/// Where two inputs that have a byte in a range share storage, there is no plan to fold
/// the inputs that meet the range, and none to rebuild it.
pub proof fn law_shared_storage_unplanned(inputs: Seq<In>, size: int, addr: Address, i: int, j: int)
    requires
        0 < size <= i32::MAX,
        0 <= i < inputs.len(),
        0 <= j < inputs.len(),
        inputs[i].id != inputs[j].id,
        i32::MIN <= inputs[i].vn.size <= i32::MAX,
        i32::MIN <= inputs[j].vn.size <= i32::MAX,
        inputs[i].vn.base == addr.base,
        inputs[j].vn.base == addr.base,
        inputs[i].vn.offset < addr.offset + size,
        inputs[j].vn.offset < addr.offset + size,
        addr.offset < inputs[i].vn.end(),
        addr.offset < inputs[j].vn.end(),
        inputs[i].vn.overlaps(inputs[j].vn),
    ensures
        covered_plan(inputs, size, addr) is None,
        overlapping_plan(inputs, size, addr) is None,
{
    let space = addr.base->0;
    let lo = addr.offset as int;
    let hi = lo + size;
    let a = inputs[i];
    let b = inputs[j];
    if covered_plan(inputs, size, addr) is Some {
        let pred = |x: In| x.meets(space, lo, hi);
        let plan = covered_plan(inputs, size, addr)->0;
        let pieces = covered_pieces(inputs, space, lo, hi);
        law_covered_plan_tiles(inputs, size, addr);
        assert(a.foldable(space, lo, hi) && b.foldable(space, lo, hi));
        assert(a.meets(space, lo, hi) && b.meets(space, lo, hi));
        lemma_parts_hold(inputs, pred, lo, hi, i);
        lemma_parts_hold(inputs, pred, lo, hi, j);
        let k = choose|k: int| 0 <= k < pieces.len() && pieces[k] == a.part(lo, hi);
        let l = choose|l: int| 0 <= l < pieces.len() && pieces[l] == b.part(lo, hi);
        assert(plan.contains(filled(pieces[k])) && plan.contains(filled(pieces[l])));
        lemma_filled_apart(plan, lo, hi, pieces[k], pieces[l]);
    }
    if overlapping_plan(inputs, size, addr) is Some {
        let pred = |x: In| x.covers(space, lo, hi);
        let plan = overlapping_plan(inputs, size, addr)->0;
        let pieces = overlapping_pieces(inputs, space, lo, hi);
        law_overlapping_plan_tiles(inputs, size, addr);
        assert(a.ranged(space) && b.ranged(space));
        assert(a.covers(space, lo, hi) && b.covers(space, lo, hi));
        lemma_parts_hold(inputs, pred, lo, hi, i);
        lemma_parts_hold(inputs, pred, lo, hi, j);
        let k = choose|k: int| 0 <= k < pieces.len() && pieces[k] == a.part(lo, hi);
        let l = choose|l: int| 0 <= l < pieces.len() && pieces[l] == b.part(lo, hi);
        assert(plan.contains(filled(pieces[k])) && plan.contains(filled(pieces[l])));
        lemma_filled_apart(plan, lo, hi, pieces[k], pieces[l]);
    }
}

/// A plan to rebuild a value from different inputs names each of them once.
pub proof fn lemma_overlapping_plan_single(inputs: Seq<In>, size: int, addr: Address)
    requires
        size > 0,
        numbered(inputs),
        overlapping_plan(inputs, size, addr) is Some,
    ensures
        sources_single(overlapping_plan(inputs, size, addr)->0),
{
    let space = addr.base->0;
    let lo = addr.offset as int;
    let hi = lo + size;
    let pred = |i: In| i.covers(space, lo, hi);
    let pieces = overlapping_pieces(inputs, space, lo, hi);
    let t = sort_pieces(pieces);
    assert(inputs.take(inputs.len() as int) =~= inputs);
    lemma_parts_single(inputs, pred, lo, hi, inputs.len() as int);
    lemma_sort_single(pieces);
    lemma_sort_contains(pieces);
    assert forall|j: int| 0 <= j < t.len() implies (#[trigger] t[j]).lo <= t[j].hi <= hi by {
        assert(t.contains(t[j]));
        assert(pieces.contains(t[j]));
        let k = choose|k: int| 0 <= k < pieces.len() && pieces[k] == t[j];
        lemma_parts_from(inputs, pred, lo, hi, k);
        let i = choose|i: int|
            0 <= i < inputs.len() && pred(#[trigger] inputs[i]) && inputs[i].part(lo, hi)
                == pieces[k];
        assert(inputs[i].covers(space, lo, hi));
    }
    lemma_tile_single(lo, hi, t);
}

/// No hole of a plan follows another: each is as large as it can be.
pub open spec fn holes_apart(plan: Seq<Seg>) -> bool {
    forall|i: int, j: int|
        #![trigger plan[i], plan[j]]
        0 <= i && j == i + 1 && j < plan.len() ==> plan[i].source is Some || plan[j].source is Some
}

/// No hole of a tiling follows another.
proof fn lemma_tile_holes(from: int, to: int, pieces: Seq<Pc>)
    requires
        tile(from, to, pieces) is Some,
    ensures
        holes_apart(tile(from, to, pieces)->0),
    decreases pieces.len(),
{
    let plan = tile(from, to, pieces)->0;
    if pieces.len() > 0 {
        let p = pieces[0];
        let others = pieces.drop_first();
        let rest = tile(p.hi, to, others)->0;
        lemma_tile_holes(p.hi, to, others);
        let n = gap(from, p.lo).len() as int;
        assert(plan[n] == filled(p));
        assert forall|i: int, j: int|
            #![trigger plan[i], plan[j]]
            0 <= i && j == i + 1 && j < plan.len() implies plan[i].source is Some
            || plan[j].source is Some by {
            if i > n {
                assert(plan[i] == rest[i - n - 1] && plan[j] == rest[j - n - 1]);
            }
        }
    }
}

/// Whether a segment takes from an input all the bytes that it has in a range.
pub open spec fn takes(seg: Seg, item: In, lo: int, hi: int) -> bool {
    &&& seg.source matches Some(src) && src.id == item.id && src.lo == item.vn.offset && src.hi
        == item.vn.end()
    &&& seg.off == (if item.vn.offset < lo {
        lo
    } else {
        item.vn.offset
    })
    &&& seg.off + seg.size == (if item.vn.end() > hi {
        hi
    } else {
        item.vn.end()
    })
}

/// Of what a plan to rebuild a value is made: each segment is a hole, as large as it can
/// be, or takes from an input of the list, in the space of the request, all the bytes
/// that it has in the request; and each input that has a byte there is taken from.
pub proof fn law_overlapping_plan_segments(inputs: Seq<In>, size: int, addr: Address)
    requires
        size > 0,
        overlapping_plan(inputs, size, addr) is Some,
    ensures
        ({
            let plan = overlapping_plan(inputs, size, addr)->0;
            let lo = addr.offset as int;
            let hi = lo + size;
            &&& hi < offsets()
            &&& holes_apart(plan)
            &&& forall|i: int| 0 <= i < plan.len() ==> (#[trigger] plan[i]).size > 0
            &&& forall|i: int|
                0 <= i < plan.len() && (#[trigger] plan[i]).source is Some ==> exists|k: int|
                    0 <= k < inputs.len() && (#[trigger] inputs[k]).vn.base == addr.base && takes(
                        plan[i],
                        inputs[k],
                        lo,
                        hi,
                    )
            &&& forall|k: int|
                0 <= k < inputs.len() && (#[trigger] inputs[k]).vn.base == addr.base ==> {
                    &&& inputs[k].vn.size > 0
                    &&& inputs[k].vn.end() < offsets()
                    &&& inputs[k].vn.offset < hi && lo < inputs[k].vn.end() ==> exists|i: int|
                        0 <= i < plan.len() && takes(#[trigger] plan[i], inputs[k], lo, hi)
                }
        }),
{
    let space = addr.base->0;
    let lo = addr.offset as int;
    let hi = lo + size;
    let plan = overlapping_plan(inputs, size, addr)->0;
    let pred = |i: In| i.covers(space, lo, hi);
    let pieces = overlapping_pieces(inputs, space, lo, hi);
    law_overlapping_plan_tiles(inputs, size, addr);
    lemma_tile_holes(lo, hi, sort_pieces(pieces));
    assert forall|i: int| 0 <= i < plan.len() && (#[trigger] plan[i]).source is Some implies plan[i].size
        > 0 && exists|k: int|
        0 <= k < inputs.len() && (#[trigger] inputs[k]).vn.base == addr.base && takes(
            plan[i],
            inputs[k],
            lo,
            hi,
        ) by {
        let j = choose|j: int| 0 <= j < pieces.len() && plan[i] == filled(#[trigger] pieces[j]);
        lemma_parts_from(inputs, pred, lo, hi, j);
        let k = choose|k: int|
            0 <= k < inputs.len() && pred(#[trigger] inputs[k]) && inputs[k].part(lo, hi)
                == pieces[j];
        assert(inputs[k].ranged(space));
        assert(takes(plan[i], inputs[k], lo, hi));
    }
    assert forall|k: int|
        0 <= k < inputs.len() && (#[trigger] inputs[k]).vn.base == addr.base && inputs[k].vn.offset
            < hi && lo < inputs[k].vn.end() implies exists|i: int|
        0 <= i < plan.len() && takes(#[trigger] plan[i], inputs[k], lo, hi) by {
        assert(inputs[k].ranged(space));
        assert(inputs[k].covers(space, lo, hi));
        lemma_parts_hold(inputs, pred, lo, hi, k);
        let j = choose|j: int| 0 <= j < pieces.len() && pieces[j] == inputs[k].part(lo, hi);
        assert(plan.contains(filled(pieces[j])));
        let i = choose|i: int| 0 <= i < plan.len() && plan[i] == filled(pieces[j]);
        assert(takes(plan[i], inputs[k], lo, hi));
    }
    assert forall|k: int| 0 <= k < inputs.len() && (#[trigger] inputs[k]).vn.base
        == addr.base implies inputs[k].vn.size > 0 && inputs[k].vn.end() < offsets() by {
        assert(inputs[k].ranged(space));
    }
}

/// Whether a segment is the whole of an input in the space of the request that is not
/// clear of the range, lies in it, and is passed over by renaming.
pub open spec fn folds_in(seg: Seg, item: In, addr: Address, lo: int, hi: int) -> bool {
    &&& item.vn.base == addr.base
    &&& item.vn.write_mask
    &&& lo <= item.vn.offset < hi
    &&& lo < item.vn.end() <= hi
    &&& takes(seg, item, lo, hi)
}

/// An input that meets a range and can be folded has no negative size.
proof fn lemma_foldable_sized(item: In, space: AddrSpace, lo: int, hi: int)
    requires
        0 <= hi - lo <= i32::MAX,
        i32::MIN <= item.vn.size <= i32::MAX,
        item.meets(space, lo, hi),
        item.foldable(space, lo, hi),
    ensures
        item.vn.size >= 0,
        item.widened_end() == item.vn.end(),
{
    let s = item.vn.size;
    if s < 0 {
        assert(s % offsets() == s + offsets()) by (nonlinear_arith)
            requires
                -0x8000_0000 <= s < 0,
                offsets() == 0x1_0000_0000_0000_0000,
        ;
    }
}

/// Of what a plan to fold inputs is made: each segment is a hole, as large as it can be,
/// or the whole of an input of the list that renaming passes over and that lies in the
/// request, not clear of it; and each input that is not clear of the request is such a
/// segment.
pub proof fn law_covered_plan_segments(inputs: Seq<In>, size: int, addr: Address)
    requires
        0 < size <= i32::MAX,
        covered_plan(inputs, size, addr) is Some,
        forall|k: int|
            0 <= k < inputs.len() ==> i32::MIN <= (#[trigger] inputs[k]).vn.size <= i32::MAX
                && inputs[k].vn.offset >= 0,
    ensures
        ({
            let plan = covered_plan(inputs, size, addr)->0;
            let lo = addr.offset as int;
            let hi = lo + size;
            &&& hi < offsets()
            &&& holes_apart(plan)
            &&& forall|i: int|
                0 <= i < plan.len() && (#[trigger] plan[i]).source is Some ==> exists|k: int|
                    0 <= k < inputs.len() && folds_in(plan[i], #[trigger] inputs[k], addr, lo, hi)
            &&& forall|k: int|
                0 <= k < inputs.len() && (#[trigger] inputs[k]).vn.base == addr.base
                    && inputs[k].vn.offset < hi && lo < inputs[k].vn.end() ==> exists|i: int|
                    0 <= i < plan.len() && folds_in(#[trigger] plan[i], inputs[k], addr, lo, hi)
        }),
{
    let space = addr.base->0;
    let lo = addr.offset as int;
    let hi = lo + size;
    let plan = covered_plan(inputs, size, addr)->0;
    let pred = |i: In| i.meets(space, lo, hi);
    let pieces = covered_pieces(inputs, space, lo, hi);
    law_covered_plan_tiles(inputs, size, addr);
    lemma_tile_holes(lo, hi, sort_pieces(pieces));
    assert forall|i: int| 0 <= i < plan.len() && (#[trigger] plan[i]).source is Some implies exists|
        k: int,
    | 0 <= k < inputs.len() && folds_in(plan[i], #[trigger] inputs[k], addr, lo, hi) by {
        let j = choose|j: int| 0 <= j < pieces.len() && plan[i] == filled(#[trigger] pieces[j]);
        lemma_parts_from(inputs, pred, lo, hi, j);
        let k = choose|k: int|
            0 <= k < inputs.len() && pred(#[trigger] inputs[k]) && inputs[k].part(lo, hi)
                == pieces[j];
        assert(inputs[k].foldable(space, lo, hi));
        lemma_foldable_sized(inputs[k], space, lo, hi);
        assert(folds_in(plan[i], inputs[k], addr, lo, hi));
    }
    assert forall|k: int|
        0 <= k < inputs.len() && (#[trigger] inputs[k]).vn.base == addr.base && inputs[k].vn.offset
            < hi && lo < inputs[k].vn.end() implies exists|i: int|
        0 <= i < plan.len() && folds_in(#[trigger] plan[i], inputs[k], addr, lo, hi) by {
        assert(inputs[k].foldable(space, lo, hi));
        assert(inputs[k].meets(space, lo, hi)) by {
            lemma_widened_end(inputs[k]);
        }
        lemma_foldable_sized(inputs[k], space, lo, hi);
        lemma_parts_hold(inputs, pred, lo, hi, k);
        let j = choose|j: int| 0 <= j < pieces.len() && pieces[j] == inputs[k].part(lo, hi);
        assert(plan.contains(filled(pieces[j])));
        let i = choose|i: int| 0 <= i < plan.len() && plan[i] == filled(pieces[j]);
        assert(folds_in(plan[i], inputs[k], addr, lo, hi));
    }
}

/// By its widened size an input ends no earlier than by its size.
proof fn lemma_widened_end(item: In)
    requires
        i32::MIN <= item.vn.size <= i32::MAX,
    ensures
        item.widened_end() >= item.vn.end(),
{
    let s = item.vn.size;
    if s < 0 {
        assert(s % offsets() >= s) by (nonlinear_arith)
            requires
                s < 0,
                offsets() == 0x1_0000_0000_0000_0000,
        ;
    }
}

} // verus!
