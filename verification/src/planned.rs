//! When there is a plan.

use crate::address::Address;
use crate::graph::offsets;
use crate::plan::{
    covered_pieces, covered_plan, insert_piece, lemma_insert_contains, lemma_parts_step,
    lemma_sort_contains, overlapping_pieces, overlapping_plan, sort_pieces, tile, In, Pc,
};
use crate::tiling::{in_order, lemma_parts_from, lemma_parts_hold};
use vstd::prelude::*;

verus! {

/// Pieces each of which starts no earlier than those before it end.
spec fn stepped(pieces: Seq<Pc>) -> bool {
    forall|i: int, j: int|
        0 <= i < j < pieces.len() ==> (#[trigger] pieces[i]).hi <= (#[trigger] pieces[j]).lo
}

/// Whether of two pieces the one that starts first, or else the one that is listed first,
/// ends before the other starts.
spec fn clear(first: Pc, second: Pc) -> bool {
    if first.lo <= second.lo {
        first.hi <= second.lo
    } else {
        second.hi <= first.lo
    }
}

/// Pieces of which any two are clear of each other.
spec fn all_clear(pieces: Seq<Pc>) -> bool {
    forall|i: int, j: int|
        0 <= i < j < pieces.len() ==> clear(#[trigger] pieces[i], #[trigger] pieces[j])
}

/// Pieces that do not end before they start.
spec fn upright(pieces: Seq<Pc>) -> bool {
    forall|i: int| 0 <= i < pieces.len() ==> (#[trigger] pieces[i]).lo <= pieces[i].hi
}

/// There is a tiling by pieces exactly if each starts no earlier than those before it end.
proof fn lemma_tile_when(from: int, to: int, pieces: Seq<Pc>)
    requires
        upright(pieces),
    ensures
        tile(from, to, pieces) is Some <==> stepped(pieces) && (pieces.len() > 0 ==> from
            <= pieces[0].lo),
    decreases pieces.len(),
{
    if pieces.len() > 0 {
        let rest = pieces.drop_first();
        assert(upright(rest)) by {
            assert forall|i: int| 0 <= i < rest.len() implies (#[trigger] rest[i]).lo
                <= rest[i].hi by {
                assert(pieces[i + 1].lo <= pieces[i + 1].hi);
            }
        }
        lemma_tile_when(pieces[0].hi, to, rest);
        if stepped(pieces) {
            assert forall|i: int, j: int| 0 <= i < j < rest.len() implies (#[trigger] rest[i]).hi
                <= (#[trigger] rest[j]).lo by {
                assert(pieces[i + 1].hi <= pieces[j + 1].lo);
            }
            if rest.len() > 0 {
                assert(pieces[0].hi <= pieces[1].lo);
            }
        }
        if stepped(rest) && (rest.len() > 0 ==> pieces[0].hi <= rest[0].lo) {
            assert forall|i: int, j: int| 0 <= i < j < pieces.len() implies (
            #[trigger] pieces[i]).hi <= (#[trigger] pieces[j]).lo by {
                assert(pieces[j] == rest[j - 1]);
                if i > 0 {
                    assert(pieces[i] == rest[i - 1]);
                    assert(rest[i - 1].hi <= rest[j - 1].lo);
                } else if j > 1 {
                    assert(rest[0].hi <= rest[j - 1].lo);
                    assert(rest[0].lo <= rest[0].hi);
                }
            }
        }
    }
}

/// Putting a piece in keeps the order; the pieces are stepped afterwards exactly if they
/// were, and each is clear of the one put in.
proof fn lemma_insert_when(s: Seq<Pc>, p: Pc)
    requires
        in_order(s),
    ensures
        in_order(insert_piece(s, p)),
        stepped(insert_piece(s, p)) <==> stepped(s) && forall|i: int|
            0 <= i < s.len() ==> clear(#[trigger] s[i], p),
    decreases s.len(),
{
    let t = insert_piece(s, p);
    let n = s.len() as int;
    if n == 0 || s.last().lo <= p.lo {
        assert(t == s.push(p));
        assert forall|i: int| 0 <= i < n implies (#[trigger] s[i]).lo <= p.lo by {
            assert(s[i].lo <= s[n - 1].lo);
        }
        if stepped(t) {
            assert forall|i: int| 0 <= i < n implies clear(#[trigger] s[i], p) by {
                assert(t[i].hi <= t[n].lo);
            }
            assert forall|i: int, j: int| 0 <= i < j < n implies (#[trigger] s[i]).hi <= (
            #[trigger] s[j]).lo by {
                assert(t[i].hi <= t[j].lo);
            }
        }
    } else {
        let r = s.drop_last();
        let q = s.last();
        let u = insert_piece(r, p);
        assert(t == u.push(q));
        assert(q == s[n - 1]);
        assert(in_order(r)) by {
            assert forall|i: int, j: int| 0 <= i <= j < r.len() implies (#[trigger] r[i]).lo <= (
            #[trigger] r[j]).lo by {
                assert(s[i].lo <= s[j].lo);
            }
        }
        lemma_insert_when(r, p);
        lemma_insert_contains(r, p);
        assert forall|i: int| 0 <= i < u.len() implies (#[trigger] u[i]).lo <= q.lo && (u[i] == p
            || exists|k: int| 0 <= k < n - 1 && #[trigger] s[k] == u[i]) by {
            assert(u.contains(u[i]));
            if u[i] != p {
                assert(r.contains(u[i]));
                let k = choose|k: int| 0 <= k < r.len() && r[k] == u[i];
                assert(s[k] == u[i]);
                assert(s[k].lo <= s[n - 1].lo);
            }
        }
        assert(u.contains(p)) by {
            if r.contains(p) {
            }
        }
        let at = choose|at: int| 0 <= at < u.len() && u[at] == p;
        if stepped(t) {
            assert(stepped(u)) by {
                assert forall|i: int, j: int| 0 <= i < j < u.len() implies (#[trigger] u[i]).hi
                    <= (#[trigger] u[j]).lo by {
                    assert(t[i].hi <= t[j].lo);
                }
            }
            assert(t[at].hi <= t[u.len() as int].lo);
            assert forall|i: int, j: int| 0 <= i < j < n implies (#[trigger] s[i]).hi <= (
            #[trigger] s[j]).lo by {
                if j < n - 1 {
                    assert(r[i].hi <= r[j].lo);
                } else {
                    assert(r[i] == s[i]);
                    assert(r.contains(r[i]));
                    assert(u.contains(r[i]));
                    let k = choose|k: int| 0 <= k < u.len() && u[k] == r[i];
                    assert(t[k].hi <= t[u.len() as int].lo);
                }
            }
            assert forall|i: int| 0 <= i < n implies clear(#[trigger] s[i], p) by {
                if i < n - 1 {
                    assert(clear(r[i], p));
                }
            }
        }
        if stepped(s) && (forall|i: int| 0 <= i < n ==> clear(#[trigger] s[i], p)) {
            assert(stepped(r)) by {
                assert forall|i: int, j: int| 0 <= i < j < r.len() implies (#[trigger] r[i]).hi
                    <= (#[trigger] r[j]).lo by {
                    assert(s[i].hi <= s[j].lo);
                }
            }
            assert forall|i: int| 0 <= i < r.len() implies clear(#[trigger] r[i], p) by {
                assert(clear(s[i], p));
            }
            assert(clear(s[n - 1], p));
            assert forall|i: int, j: int| 0 <= i < j < t.len() implies (#[trigger] t[i]).hi <= (
            #[trigger] t[j]).lo by {
                if j < u.len() {
                    assert(u[i].hi <= u[j].lo);
                } else {
                    assert(t[i] == u[i] && t[j] == q);
                    if u[i] != p {
                        let k = choose|k: int| 0 <= k < n - 1 && #[trigger] s[k] == u[i];
                        assert(s[k].hi <= s[n - 1].lo);
                    }
                }
            }
        }
    }
}

/// Sorting puts pieces in order; they are stepped exactly if any two are clear of each
/// other.
proof fn lemma_sort_when(s: Seq<Pc>)
    ensures
        in_order(sort_pieces(s)),
        stepped(sort_pieces(s)) <==> all_clear(s),
    decreases s.len(),
{
    if s.len() > 0 {
        let r = s.drop_last();
        let t = sort_pieces(r);
        let p = s.last();
        let n = s.len() - 1;
        assert(p == s[n]);
        lemma_sort_when(r);
        lemma_sort_contains(r);
        lemma_insert_when(t, p);
        if all_clear(s) {
            assert forall|i: int, j: int| 0 <= i < j < r.len() implies clear(
                #[trigger] r[i],
                #[trigger] r[j],
            ) by {
                assert(clear(s[i], s[j]));
            }
            assert forall|i: int| 0 <= i < t.len() implies clear(#[trigger] t[i], p) by {
                assert(t.contains(t[i]));
                assert(r.contains(t[i]));
                let k = choose|k: int| 0 <= k < r.len() && r[k] == t[i];
                assert(clear(s[k], s[n]));
            }
        }
        if all_clear(r) && (forall|i: int| 0 <= i < t.len() ==> clear(#[trigger] t[i], p)) {
            assert forall|i: int, j: int| 0 <= i < j < s.len() implies clear(
                #[trigger] s[i],
                #[trigger] s[j],
            ) by {
                assert(s[i] == r[i]);
                if j < n {
                    assert(clear(r[i], r[j]));
                } else {
                    assert(r.contains(r[i]));
                    assert(t.contains(r[i]));
                    let k = choose|k: int| 0 <= k < t.len() && t[k] == r[i];
                    assert(clear(t[k], p));
                }
            }
        }
    }
}

/// The parts of the inputs that pass are clear of each other exactly if this holds of any
/// two inputs that pass.
proof fn lemma_parts_clear(s: Seq<In>, pred: spec_fn(In) -> bool, lo: int, hi: int, n: int)
    requires
        0 <= n <= s.len(),
    ensures
        all_clear(s.take(n).filter(pred).map_values(|i: In| i.part(lo, hi))) <==> forall|
            i: int,
            j: int,
        |
            0 <= i < j < n && pred(#[trigger] s[i]) && pred(#[trigger] s[j]) ==> clear(
                s[i].part(lo, hi),
                s[j].part(lo, hi),
            ),
    decreases n,
{
    let pieces = s.take(n).filter(pred).map_values(|i: In| i.part(lo, hi));
    if n == 0 {
        assert(s.take(0).filter(pred).len() == 0) by {
            reveal(Seq::filter);
        }
    } else {
        let m = n - 1;
        let before = s.take(m).filter(pred).map_values(|i: In| i.part(lo, hi));
        let p = s[m].part(lo, hi);
        lemma_parts_clear(s, pred, lo, hi, m);
        lemma_parts_step(s, m, pred, lo, hi);
        if pred(s[m]) {
            assert(pieces == before.push(p));
            let b = before.len() as int;
            if all_clear(pieces) {
                assert forall|i: int, j: int| 0 <= i < j < b implies clear(
                    #[trigger] before[i],
                    #[trigger] before[j],
                ) by {
                    assert(clear(pieces[i], pieces[j]));
                }
                assert forall|i: int, j: int|
                    0 <= i < j < n && pred(#[trigger] s[i]) && pred(
                        #[trigger] s[j],
                    ) implies clear(s[i].part(lo, hi), s[j].part(lo, hi)) by {
                    if j == m {
                        assert(s.take(m)[i] == s[i]);
                        lemma_parts_hold(s.take(m), pred, lo, hi, i);
                        let k = choose|k: int| 0 <= k < b && before[k] == s[i].part(lo, hi);
                        assert(clear(pieces[k], pieces[b]));
                    }
                }
            }
            if forall|i: int, j: int|
                0 <= i < j < n && pred(#[trigger] s[i]) && pred(#[trigger] s[j]) ==> clear(
                    s[i].part(lo, hi),
                    s[j].part(lo, hi),
                ) {
                assert(all_clear(before));
                assert forall|i: int, j: int| 0 <= i < j < pieces.len() implies clear(
                    #[trigger] pieces[i],
                    #[trigger] pieces[j],
                ) by {
                    assert(pieces[i] == before[i]);
                    if j < b {
                        assert(clear(before[i], before[j]));
                    } else {
                        lemma_parts_from(s.take(m), pred, lo, hi, i);
                        let k = choose|k: int|
                            0 <= k < m && pred(#[trigger] s.take(m)[k]) && s.take(m)[k].part(lo, hi)
                                == before[i];
                        assert(s[k] == s.take(m)[k]);
                        assert(clear(s[k].part(lo, hi), s[m].part(lo, hi)));
                    }
                }
            }
        }
    }
}

/// The end of an input, its size taken as a 64-bit number: of a negative size, what is
/// left of all offsets.
pub open spec fn reach(item: In) -> int {
    if item.vn.size >= 0 {
        item.vn.offset + item.vn.size
    } else {
        item.vn.offset + offsets() + item.vn.size
    }
}

/// Whether an input is in the space of a request and not clear of it, by its end.
pub open spec fn reaches(item: In, size: int, addr: Address) -> bool {
    &&& item.vn.base == addr.base
    &&& item.vn.offset < addr.offset + size
    &&& addr.offset < reach(item)
}

/// Of any list of inputs, also of such that share storage, have none or a negative size,
/// there is a plan to fold those that are not clear of a range exactly when the end of the
/// range is an offset; so is the end of each input in the space; some input is not clear
/// of the range; all these lie in it and are passed over by renaming; and of any two the
/// one that starts first, or else the one that is listed first, ends before the other
/// starts.
pub proof fn law_covered_plan_when(inputs: Seq<In>, size: int, addr: Address)
    requires
        0 < size <= i32::MAX,
        forall|k: int|
            0 <= k < inputs.len() ==> i32::MIN <= (#[trigger] inputs[k]).vn.size <= i32::MAX
                && inputs[k].vn.offset >= 0,
    ensures
        covered_plan(inputs, size, addr) is Some <==> {
            &&& addr.base is Some
            &&& addr.offset + size < offsets()
            &&& forall|k: int|
                0 <= k < inputs.len() && (#[trigger] inputs[k]).vn.base == addr.base ==> reach(
                    inputs[k],
                ) < offsets()
            &&& exists|k: int| 0 <= k < inputs.len() && reaches(#[trigger] inputs[k], size, addr)
            &&& forall|k: int|
                0 <= k < inputs.len() && reaches(#[trigger] inputs[k], size, addr) ==> {
                    &&& addr.offset <= inputs[k].vn.offset
                    &&& reach(inputs[k]) <= addr.offset + size
                    &&& inputs[k].vn.write_mask
                }
            &&& forall|i: int, j: int|
                0 <= i < j < inputs.len() && reaches(#[trigger] inputs[i], size, addr) && reaches(
                    #[trigger] inputs[j],
                    size,
                    addr,
                ) ==> if inputs[i].vn.offset <= inputs[j].vn.offset {
                    reach(inputs[i]) <= inputs[j].vn.offset
                } else {
                    reach(inputs[j]) <= inputs[i].vn.offset
                }
        },
{
    if let Some(space) = addr.base {
        let lo = addr.offset as int;
        let hi = lo + size;
        let pred = |i: In| i.meets(space, lo, hi);
        let pieces = covered_pieces(inputs, space, lo, hi);
        assert forall|k: int| 0 <= k < inputs.len() implies (#[trigger] inputs[k]).widened_end()
            == reach(inputs[k]) by {
            let s = inputs[k].vn.size;
            if s < 0 {
                assert(s % offsets() == s + offsets()) by (nonlinear_arith)
                    requires
                        -0x8000_0000 <= s < 0,
                        offsets() == 0x1_0000_0000_0000_0000,
                ;
            }
        }
        assert forall|k: int| 0 <= k < inputs.len() implies (pred(#[trigger] inputs[k]) <==> reaches(
            inputs[k],
            size,
            addr,
        )) by {}
        let fit = hi < offsets() && forall|i: int|
            0 <= i < inputs.len() ==> (#[trigger] inputs[i]).foldable(space, lo, hi);
        if fit {
            assert(inputs.take(inputs.len() as int) =~= inputs);
            lemma_parts_clear(inputs, pred, lo, hi, inputs.len() as int);
            lemma_some_part(inputs, pred, lo, hi);
            assert forall|k: int|
                0 <= k < inputs.len() && reaches(#[trigger] inputs[k], size, addr) implies {
                &&& inputs[k].part(lo, hi).lo == inputs[k].vn.offset
                &&& inputs[k].part(lo, hi).hi == reach(inputs[k])
                &&& inputs[k].vn.offset <= reach(inputs[k])
            } by {
                assert(inputs[k].foldable(space, lo, hi));
            }
            assert(upright(pieces) && forall|j: int|
                0 <= j < pieces.len() ==> lo <= (#[trigger] pieces[j]).lo) by {
                assert forall|j: int| 0 <= j < pieces.len() implies lo <= (#[trigger] pieces[j]).lo
                    <= pieces[j].hi by {
                    lemma_parts_from(inputs, pred, lo, hi, j);
                    let i = choose|i: int|
                        0 <= i < inputs.len() && pred(#[trigger] inputs[i]) && inputs[i].part(lo, hi)
                            == pieces[j];
                    assert(reaches(inputs[i], size, addr));
                    assert(inputs[i].foldable(space, lo, hi));
                }
            }
            lemma_sorted_when(lo, hi, pieces);
        } else if hi < offsets() {
            let i = choose|i: int|
                0 <= i < inputs.len() && !(#[trigger] inputs[i]).foldable(space, lo, hi);
            assert(inputs[i].vn.base == addr.base);
            assert(reach(inputs[i]) >= offsets() || reaches(inputs[i], size, addr));
        }
    }
}

/// Some part is there exactly if some input passes.
proof fn lemma_some_part(inputs: Seq<In>, pred: spec_fn(In) -> bool, lo: int, hi: int)
    ensures
        inputs.filter(pred).len() > 0 <==> exists|k: int|
            0 <= k < inputs.len() && pred(#[trigger] inputs[k]),
{
    if inputs.filter(pred).len() > 0 {
        lemma_parts_from(inputs, pred, lo, hi, 0);
    }
    if exists|k: int| 0 <= k < inputs.len() && pred(#[trigger] inputs[k]) {
        let k = choose|k: int| 0 <= k < inputs.len() && pred(#[trigger] inputs[k]);
        lemma_parts_hold(inputs, pred, lo, hi, k);
    }
}

/// Pieces in a range, once sorted, tile it exactly if any two are clear of each other.
proof fn lemma_sorted_when(lo: int, hi: int, pieces: Seq<Pc>)
    requires
        upright(pieces),
        forall|j: int| 0 <= j < pieces.len() ==> lo <= (#[trigger] pieces[j]).lo,
    ensures
        tile(lo, hi, sort_pieces(pieces)) is Some <==> all_clear(pieces),
{
    let t = sort_pieces(pieces);
    lemma_sort_when(pieces);
    lemma_sort_contains(pieces);
    assert forall|j: int| 0 <= j < t.len() implies lo <= (#[trigger] t[j]).lo <= t[j].hi by {
        assert(t.contains(t[j]));
        assert(pieces.contains(t[j]));
        let k = choose|k: int| 0 <= k < pieces.len() && pieces[k] == t[j];
        assert(pieces[k].lo <= pieces[k].hi);
    }
    lemma_tile_when(lo, hi, t);
}

/// Whether an input has the byte at an offset of a space.
pub open spec fn holds_byte(item: In, addr: Address, b: int) -> bool {
    item.vn.base == addr.base && item.vn.offset <= b < item.vn.offset + item.vn.size
}

/// Of any list of inputs, also of such that share storage, there is a plan to rebuild a
/// range exactly when the end of the range is an offset; each input in the space has bytes
/// and its end is an offset; some input has a byte of the range; and no byte of the range
/// is one of two inputs.
pub proof fn law_overlapping_plan_when(inputs: Seq<In>, size: int, addr: Address)
    requires
        0 < size <= i32::MAX,
        forall|k: int| 0 <= k < inputs.len() ==> (#[trigger] inputs[k]).vn.offset >= 0,
    ensures
        overlapping_plan(inputs, size, addr) is Some <==> {
            &&& addr.base is Some
            &&& addr.offset + size < offsets()
            &&& forall|k: int|
                0 <= k < inputs.len() && (#[trigger] inputs[k]).vn.base == addr.base
                    ==> inputs[k].vn.size > 0 && inputs[k].vn.offset + inputs[k].vn.size
                    < offsets()
            &&& exists|k: int, b: int|
                0 <= k < inputs.len() && addr.offset <= b < addr.offset + size
                    && #[trigger] holds_byte(inputs[k], addr, b)
            &&& forall|i: int, j: int, b: int|
                0 <= i < j < inputs.len() && addr.offset <= b < addr.offset + size
                    && #[trigger] holds_byte(inputs[i], addr, b) ==> !#[trigger] holds_byte(
                    inputs[j],
                    addr,
                    b,
                )
        },
{
    if let Some(space) = addr.base {
        let lo = addr.offset as int;
        let hi = lo + size;
        let pred = |i: In| i.covers(space, lo, hi);
        let pieces = overlapping_pieces(inputs, space, lo, hi);
        let fit = hi < offsets() && forall|i: int|
            0 <= i < inputs.len() ==> (#[trigger] inputs[i]).ranged(space);
        if fit {
            assert(inputs.take(inputs.len() as int) =~= inputs);
            lemma_parts_clear(inputs, pred, lo, hi, inputs.len() as int);
            lemma_some_part(inputs, pred, lo, hi);
            assert forall|k: int, b: int|
                0 <= k < inputs.len() && lo <= b < hi && #[trigger] holds_byte(
                    inputs[k],
                    addr,
                    b,
                ) implies pred(inputs[k]) && inputs[k].part(lo, hi).lo <= b < inputs[k].part(
                lo,
                hi,
            ).hi by {
                assert(inputs[k].ranged(space));
            }
            assert forall|k: int| 0 <= k < inputs.len() && pred(#[trigger] inputs[k]) implies {
                let p = inputs[k].part(lo, hi);
                &&& lo <= p.lo < p.hi <= hi
                &&& forall|b: int|
                    p.lo <= b < p.hi ==> #[trigger] holds_byte(inputs[k], addr, b)
                &&& holds_byte(inputs[k], addr, p.lo)
            } by {
                assert(inputs[k].ranged(space));
            }
            assert(upright(pieces) && forall|j: int|
                0 <= j < pieces.len() ==> lo <= (#[trigger] pieces[j]).lo) by {
                assert forall|j: int| 0 <= j < pieces.len() implies lo <= (#[trigger] pieces[j]).lo
                    <= pieces[j].hi by {
                    lemma_parts_from(inputs, pred, lo, hi, j);
                    let i = choose|i: int|
                        0 <= i < inputs.len() && pred(#[trigger] inputs[i]) && inputs[i].part(lo, hi)
                            == pieces[j];
                }
            }
            lemma_sorted_when(lo, hi, pieces);
            if all_clear(pieces) {
                assert forall|i: int, j: int, b: int|
                    0 <= i < j < inputs.len() && lo <= b < hi && #[trigger] holds_byte(
                        inputs[i],
                        addr,
                        b,
                    ) implies !#[trigger] holds_byte(inputs[j], addr, b) by {
                    if holds_byte(inputs[j], addr, b) {
                        assert(pred(inputs[i]) && pred(inputs[j]));
                        assert(clear(inputs[i].part(lo, hi), inputs[j].part(lo, hi)));
                    }
                }
            } else {
                let (i, j) = choose|i: int, j: int|
                    0 <= i < j < inputs.len() && pred(#[trigger] inputs[i]) && pred(
                        #[trigger] inputs[j],
                    ) && !clear(inputs[i].part(lo, hi), inputs[j].part(lo, hi));
                let p = inputs[i].part(lo, hi);
                let q = inputs[j].part(lo, hi);
                let b = if p.lo <= q.lo {
                    q.lo
                } else {
                    p.lo
                };
                assert(holds_byte(inputs[i], addr, b));
                assert(holds_byte(inputs[j], addr, b));
            }
        } else if hi < offsets() {
            let i = choose|i: int| 0 <= i < inputs.len() && !(#[trigger] inputs[i]).ranged(space);
            assert(inputs[i].vn.base == addr.base);
        }
    }
}

} // verus!
