//! An input that is out of the way of a request.

use crate::address::{AddrSpace, Address};
use crate::fold::{first_folded, folded, hi_lo, holes_filled};
use crate::funcdata::{inputs_among, inputs_of};
use crate::graph::{offsets, Graph};
use crate::plan::{
    covered_pieces, covered_plan, overlapping_pieces, overlapping_plan, In, Seg,
};
use crate::rebuild::{
    by_significance, composed, entry_site, joined, laid, laid_segment, Part, Site,
};
use crate::request::place_vn;
use crate::varnode::{Origin, Vn};
use vstd::prelude::*;

verus! {

/// Whether a varnode is out of the way of a request: it is in another space, or its
/// end is an offset and it has no byte in the request.
pub open spec fn out_of_the_way(vn: Vn, size: int, addr: Address) -> bool {
    vn.base != addr.base || {
        &&& vn.size >= 0
        &&& vn.end() < offsets()
        &&& vn.end() <= addr.offset || addr.offset + size <= vn.offset
    }
}

/// A filter does not see what does not pass it.
proof fn lemma_filter_removed(s: Seq<In>, pred: spec_fn(In) -> bool, p: int)
    requires
        0 <= p < s.len(),
        !pred(s[p]),
    ensures
        s.remove(p).filter(pred) == s.filter(pred),
{
    let a = s.take(p);
    let x = seq![s[p]];
    let b = s.skip(p + 1);
    assert(s =~= (a + x) + b);
    assert(s.remove(p) =~= a + b);
    Seq::filter_distributes_over_add(a + x, b, pred);
    Seq::filter_distributes_over_add(a, x, pred);
    Seq::filter_distributes_over_add(a, b, pred);
    assert(x.filter(pred) =~= Seq::empty()) by {
        reveal(Seq::filter);
        assert(x.drop_last().filter(pred) =~= Seq::empty());
    }
}

/// A plan to fold inputs is the same without an input that is out of the way.
pub proof fn lemma_covered_plan_aside(inputs: Seq<In>, size: int, addr: Address, p: int)
    requires
        size > 0,
        0 <= p < inputs.len(),
        out_of_the_way(inputs[p].vn, size, addr),
    ensures
        covered_plan(inputs.remove(p), size, addr) == covered_plan(inputs, size, addr),
{
    if let Some(space) = addr.base {
        let lo = addr.offset as int;
        let hi = lo + size;
        let rest = inputs.remove(p);
        let pred = |i: In| i.meets(space, lo, hi);
        lemma_filter_removed(inputs, pred, p);
        assert(covered_pieces(rest, space, lo, hi) == covered_pieces(inputs, space, lo, hi));
        if forall|i: int| 0 <= i < rest.len() ==> (#[trigger] rest[i]).foldable(space, lo, hi) {
            assert forall|i: int| 0 <= i < inputs.len() implies (#[trigger] inputs[i]).foldable(
                space,
                lo,
                hi,
            ) by {
                if i < p {
                    assert(rest[i] == inputs[i]);
                } else if i > p {
                    assert(rest[i - 1] == inputs[i]);
                }
            }
        } else {
            let i = choose|i: int|
                0 <= i < rest.len() && !(#[trigger] rest[i]).foldable(space, lo, hi);
            assert(rest[i] == inputs[if i < p { i } else { i + 1 }]);
        }
    }
}

/// A plan to rebuild a value is the same without an input that has storage and is out of
/// the way.
pub proof fn lemma_overlapping_plan_aside(inputs: Seq<In>, size: int, addr: Address, p: int)
    requires
        size > 0,
        0 <= p < inputs.len(),
        inputs[p].vn.size > 0,
        out_of_the_way(inputs[p].vn, size, addr),
    ensures
        overlapping_plan(inputs.remove(p), size, addr) == overlapping_plan(inputs, size, addr),
{
    if let Some(space) = addr.base {
        let lo = addr.offset as int;
        let hi = lo + size;
        let rest = inputs.remove(p);
        let pred = |i: In| i.covers(space, lo, hi);
        lemma_filter_removed(inputs, pred, p);
        assert(overlapping_pieces(rest, space, lo, hi) == overlapping_pieces(
            inputs,
            space,
            lo,
            hi,
        ));
        if forall|i: int| 0 <= i < rest.len() ==> (#[trigger] rest[i]).ranged(space) {
            assert forall|i: int| 0 <= i < inputs.len() implies (#[trigger] inputs[i]).ranged(
                space,
            ) by {
                if i < p {
                    assert(rest[i] == inputs[i]);
                } else if i > p {
                    assert(rest[i - 1] == inputs[i]);
                }
            }
        } else {
            let i = choose|i: int| 0 <= i < rest.len() && !(#[trigger] rest[i]).ranged(space);
            assert(rest[i] == inputs[if i < p { i } else { i + 1 }]);
        }
    }
}

/// Where an input is put under a name, it stands in the list of inputs at the place of
/// the name.
proof fn lemma_inputs_among_set(varnodes: Seq<Option<Vn>>, x: int, vn: Vn, n: int)
    requires
        0 <= x < n <= varnodes.len(),
        varnodes[x] is None,
        vn.origin == Origin::Input,
    ensures
        inputs_among(varnodes, x).len() <= inputs_among(varnodes, n).len(),
        inputs_among(varnodes.update(x, Some(vn)), n) == inputs_among(varnodes, n).insert(
            inputs_among(varnodes, x).len() as int,
            In { id: x, vn },
        ),
    decreases n,
{
    let set = varnodes.update(x, Some(vn));
    let p = inputs_among(varnodes, x).len() as int;
    let item = In { id: x, vn };
    if n == x + 1 {
        lemma_inputs_among_before(varnodes, x, vn, x);
        assert(inputs_among(varnodes, n) == inputs_among(varnodes, x));
        assert(inputs_among(set, n) =~= inputs_among(varnodes, n).insert(p, item));
    } else {
        lemma_inputs_among_set(varnodes, x, vn, n - 1);
        assert(set[n - 1] == varnodes[n - 1]);
        assert(inputs_among(set, n) =~= inputs_among(varnodes, n).insert(p, item));
    }
}

/// The inputs before a name do not depend on it.
proof fn lemma_inputs_among_before(varnodes: Seq<Option<Vn>>, x: int, vn: Vn, n: int)
    requires
        0 <= n <= x < varnodes.len(),
    ensures
        inputs_among(varnodes.update(x, Some(vn)), n) == inputs_among(varnodes, n),
    decreases n,
{
    if n > 0 {
        lemma_inputs_among_before(varnodes, x, vn, n - 1);
    }
}

/// The place in the list of inputs of an input that is put under a name.
pub open spec fn place_of(g: Graph, x: int) -> int {
    inputs_among(g.varnodes, x).len() as int
}

/// An input that is put under a name is one more in the list of inputs.
pub proof fn lemma_inputs_set(g: Graph, x: int, vn: Vn)
    requires
        0 <= x < g.varnodes.len(),
        g.varnodes[x] is None,
        vn.origin == Origin::Input,
    ensures
        0 <= place_of(g, x) < inputs_of(g.set_varnode(x, vn)).len(),
        inputs_of(g.set_varnode(x, vn))[place_of(g, x)] == (In { id: x, vn }),
        inputs_of(g.set_varnode(x, vn)).remove(place_of(g, x)) == inputs_of(g),
{
    lemma_inputs_among_set(g.varnodes, x, vn, g.varnodes.len() as int);
    let all = inputs_of(g);
    let p = place_of(g, x);
    assert(all.insert(p, In { id: x, vn }).remove(p) =~= all);
}

/// Filling holes leaves a varnode alone.
pub proof fn lemma_holes_filled_aside(g: Graph, plan: Seq<Seg>, space: AddrSpace, x: int, vn: Vn)
    requires
        0 <= x < g.varnodes.len(),
    ensures
        ({
            let (h, tiles) = holes_filled(g, plan, space);
            &&& h.varnodes.len() >= g.varnodes.len()
            &&& holes_filled(g.set_varnode(x, vn), plan, space) == (h.set_varnode(x, vn), tiles)
        }),
    decreases plan.len(),
{
    if plan.len() == 0 {
        assert(holes_filled(g.set_varnode(x, vn), plan, space).1 =~= holes_filled(
            g,
            plan,
            space,
        ).1);
    } else {
        lemma_holes_filled_aside(g, plan.drop_last(), space, x, vn);
        let h1 = holes_filled(g, plan.drop_last(), space).0;
        let h = holes_filled(g, plan, space).0;
        let k = holes_filled(g.set_varnode(x, vn), plan, space).0;
        assert(k.varnodes =~= h.set_varnode(x, vn).varnodes);
        assert(k =~= h.set_varnode(x, vn));
    }
}

/// Cutting a varnode back leaves another alone.
proof fn lemma_cut_back_aside(g: Graph, source: int, skip: int, cut: Vn, x: int, vn: Vn)
    requires
        0 <= x < g.varnodes.len(),
    ensures
        g.set_varnode(x, vn).cut_back(source, skip, cut) == g.cut_back(
            source,
            skip,
            cut,
        ).set_varnode(x, vn),
{
    let a = g.set_varnode(x, vn).cut_back(source, skip, cut);
    let b = g.cut_back(source, skip, cut).set_varnode(x, vn);
    assert(a.varnodes =~= b.varnodes);
    assert(a =~= b);
}

/// Folding two inputs leaves another varnode alone.
proof fn lemma_combine_aside(g: Graph, hi: int, lo: int, x: int, vn: Vn)
    requires
        0 <= x < g.varnodes.len(),
        0 <= hi < g.varnodes.len(),
        0 <= lo < g.varnodes.len(),
        x != hi,
        x != lo,
    ensures
        g.combine(hi, lo).varnodes.len() > g.varnodes.len(),
        g.set_varnode(x, vn).combine(hi, lo) == g.combine(hi, lo).set_varnode(x, vn),
        g.set_varnode(x, vn).cuttable(hi, lo) == g.cuttable(hi, lo),
{
    let f = g.set_varnode(x, vn);
    let j = g.varnodes.len() as int;
    let g1 = g.destroy(hi).destroy(lo).add_varnode(g.joined_vn(hi, lo));
    let f1 = f.destroy(hi).destroy(lo).add_varnode(f.joined_vn(hi, lo));
    assert(f.vn(hi) == g.vn(hi) && f.vn(lo) == g.vn(lo));
    assert(f1.varnodes =~= g1.set_varnode(x, vn).varnodes);
    assert(f1 =~= g1.set_varnode(x, vn));
    assert(f.read_apart(hi, hi, lo) == g.read_apart(hi, hi, lo)) by {
        assert(f.ops == g.ops);
    }
    assert(f.read_apart(lo, hi, lo) == g.read_apart(lo, hi, lo)) by {
        assert(f.ops == g.ops);
    }
    let g2 = if g.read_apart(hi, hi, lo) {
        g1.cut_back(j, g.vn(lo).size, g.vn(hi))
    } else {
        g1
    };
    if g.read_apart(hi, hi, lo) {
        lemma_cut_back_aside(g1, j, g.vn(lo).size, g.vn(hi), x, vn);
    }
    if g.read_apart(lo, hi, lo) {
        lemma_cut_back_aside(g2, j, 0, g.vn(lo), x, vn);
    }
    let a = f.combine(hi, lo);
    let b = g.combine(hi, lo).set_varnode(x, vn);
    assert(a.varnodes =~= b.varnodes);
    assert(a.ops =~= b.ops);
    assert(a =~= b);
}

/// Folding parts leaves a varnode alone that is none of them.
pub proof fn lemma_folded_aside(g: Graph, tiles: Seq<Part>, big_endian: bool, x: int, vn: Vn)
    requires
        0 <= x < g.varnodes.len(),
        tiles.len() > 0,
        forall|i: int|
            0 <= i < tiles.len() ==> 0 <= (#[trigger] tiles[i]).id < g.varnodes.len()
                && tiles[i].id != x,
    ensures
        ({
            let (h, answer) = folded(g, tiles, big_endian);
            folded(g.set_varnode(x, vn), tiles, big_endian) == (h.set_varnode(x, vn), answer)
        }),
    decreases tiles.len(),
{
    if tiles.len() > 1 {
        let f = g.set_varnode(x, vn);
        let (hi, lo) = hi_lo(tiles[0], tiles[1], big_endian);
        lemma_combine_aside(g, hi, lo, x, vn);
        if g.cuttable(hi, lo) {
            let rest = first_folded(g, tiles);
            let h = g.combine(hi, lo);
            assert(first_folded(f, tiles) == rest);
            assert forall|i: int| 0 <= i < rest.len() implies 0 <= (#[trigger] rest[i]).id
                < h.varnodes.len() && rest[i].id != x by {
                if i > 0 {
                    assert(rest[i] == tiles[i + 1]);
                }
            }
            lemma_folded_aside(h, rest, big_endian, x, vn);
        }
    }
}

/// Laying a segment leaves a varnode alone.
proof fn lemma_laid_segment_aside(g: Graph, seg: Seg, site: Site, x: int, vn: Vn)
    requires
        0 <= x < g.varnodes.len(),
    ensures
        ({
            let (h, id) = laid_segment(g, seg, site);
            &&& h.varnodes.len() >= g.varnodes.len()
            &&& laid_segment(g.set_varnode(x, vn), seg, site) == (h.set_varnode(x, vn), id)
        }),
{
    let h = laid_segment(g, seg, site).0;
    let k = laid_segment(g.set_varnode(x, vn), seg, site).0;
    assert(k.varnodes =~= h.set_varnode(x, vn).varnodes);
    assert(k.ops =~= h.ops);
    assert(k =~= h.set_varnode(x, vn));
}

/// Laying a plan leaves a varnode alone.
proof fn lemma_laid_aside(g: Graph, plan: Seq<Seg>, site: Site, x: int, vn: Vn)
    requires
        0 <= x < g.varnodes.len(),
    ensures
        ({
            let (h, tiles) = laid(g, plan, site);
            &&& h.varnodes.len() >= g.varnodes.len()
            &&& laid(g.set_varnode(x, vn), plan, site) == (h.set_varnode(x, vn), tiles)
        }),
    decreases plan.len(),
{
    if plan.len() == 0 {
        assert(laid(g.set_varnode(x, vn), plan, site).1 =~= laid(g, plan, site).1);
    } else {
        lemma_laid_aside(g, plan.drop_last(), site, x, vn);
        lemma_laid_segment_aside(laid(g, plan.drop_last(), site).0, plan.last(), site, x, vn);
    }
}

/// Joining parts leaves a varnode alone.
proof fn lemma_joined_aside(
    g: Graph,
    order: Seq<Part>,
    n: int,
    whole: Vn,
    site: Site,
    x: int,
    vn: Vn,
)
    requires
        0 <= x < g.varnodes.len(),
    ensures
        ({
            let (h, value, size) = joined(g, order, n, whole, site);
            &&& h.varnodes.len() >= g.varnodes.len()
            &&& joined(g.set_varnode(x, vn), order, n, whole, site) == (
                h.set_varnode(x, vn),
                value,
                size,
            )
        }),
    decreases n,
{
    if n > 1 {
        lemma_joined_aside(g, order, n - 1, whole, site, x, vn);
        let h = joined(g, order, n, whole, site).0;
        let k = joined(g.set_varnode(x, vn), order, n, whole, site).0;
        assert(k.varnodes =~= h.set_varnode(x, vn).varnodes);
        assert(k.ops =~= h.ops);
        assert(k =~= h.set_varnode(x, vn));
    }
}

/// Rebuilding a value leaves a varnode alone.
pub proof fn lemma_composed_aside(
    g: Graph,
    plan: Seq<Seg>,
    size: int,
    addr: Address,
    x: int,
    vn: Vn,
)
    requires
        0 <= x < g.varnodes.len(),
    ensures
        ({
            let (h, value) = composed(g, plan, size, addr);
            composed(g.set_varnode(x, vn), plan, size, addr) == (h.set_varnode(x, vn), value)
        }),
{
    let space = addr.base->0;
    let site = entry_site(g, space);
    assert(entry_site(g.set_varnode(x, vn), space) == site);
    lemma_laid_aside(g, plan, site, x, vn);
    let (g1, tiles) = laid(g, plan, site);
    let order = by_significance(tiles, space.big_endian);
    lemma_joined_aside(
        g1,
        order,
        order.len() as int,
        place_vn(space, addr.offset as int, size),
        site,
        x,
        vn,
    );
}

} // verus!
