//! What the varnodes of a function stand for.
//!
//! Values are sequences of bytes, the least significant first.  A valuation gives
//! each varnode a value; it is consistent with a function if the inputs have the
//! bytes that their storage holds when the function is entered, and the output of
//! each operation has the value that the operation makes of its operands.

use crate::address::{AddrSpace, Address};
use crate::fold::{first_folded, folded, hi_lo, lemma_fold_step, parts_held, span};
use crate::graph::{offsets, Graph};
use crate::op::{Op, OpCode};
use crate::plan::{Seg, Src};
use crate::rebuild::{
    by_significance, chain_size, chained, composed, entry_site, grown, is_whole, joined, laid,
    laid_segment, lemma_chain_size, lemma_segment_still_fits, new_inputs_below,
    plan_spans, skipped, Part, Site,
};
use crate::request::{place_vn, plan_fits};
use crate::shape::{lemma_composed, lemma_grown_trans, lemma_joined, lemma_laid};
use crate::soundness::lemma_combine_shape;
use crate::varnode::{Origin, Vn};
use vstd::prelude::*;

verus! {

/// The bytes of storage when the function is entered.
pub type Memory = spec_fn(AddrSpace, int) -> u8;

/// A value for each varnode.
pub type Valuation = spec_fn(int) -> Seq<u8>;

/// What operations other than copies, joins and slices make of their operands.
pub type Semantics = spec_fn(OpCode, Seq<Seq<u8>>) -> Seq<u8>;

/// The value of a range of storage when the function is entered.
pub open spec fn entry_value(m: Memory, space: AddrSpace, offset: int, size: int) -> Seq<u8> {
    Seq::new(
        size as nat,
        |i: int|
            if space.big_endian {
                m(space, offset + size - 1 - i)
            } else {
                m(space, offset + i)
            },
    )
}

/// The value of the storage of a varnode when the function is entered.
pub open spec fn entry_value_of(m: Memory, vn: Vn) -> Seq<u8> {
    entry_value(m, vn.base->0, vn.offset, vn.size)
}

/// Whether all operands of an operation are set.
pub open spec fn ready(op: Op) -> bool {
    forall|s: int| 0 <= s < op.inputs.len() ==> (#[trigger] op.inputs[s]) is Some
}

/// The values of the operands of an operation.
pub open spec fn operands(op: Op, val: Valuation) -> Seq<Seq<u8>> {
    op.inputs.map_values(|id: Option<int>| val(id->0))
}

/// What an operation makes of its operands.
pub open spec fn op_value(g: Graph, op: Op, sem: Semantics, val: Valuation) -> Seq<u8> {
    let xs = operands(op, val);
    if op.code == OpCode::CPUI_COPY && xs.len() == 1 {
        xs[0]
    } else if op.code == OpCode::CPUI_PIECE && xs.len() == 2 {
        xs[1] + xs[0]
    } else if op.code == OpCode::CPUI_SUBPIECE && xs.len() == 2 && g.vn(
        op.inputs[1]->0,
    ).origin == Origin::Constant {
        let skip = g.vn(op.inputs[1]->0).offset;
        xs[0].subrange(skip, skip + g.vn(op.output->0).size)
    } else {
        sem(op.code, xs)
    }
}

/// Whether the output of an operation has the value that it should.
pub open spec fn op_holds(g: Graph, k: int, sem: Semantics, val: Valuation) -> bool {
    g.ops[k].output is Some && ready(g.ops[k]) ==> val(g.ops[k].output->0) == op_value(
        g,
        g.ops[k],
        sem,
        val,
    )
}

/// Whether a valuation is consistent with a function.
pub open spec fn consistent(g: Graph, m: Memory, sem: Semantics, val: Valuation) -> bool {
    &&& forall|v: int| #[trigger] g.is_input(v) ==> val(v) == entry_value_of(m, g.vn(v))
    &&& forall|k: int| 0 <= k < g.ops.len() ==> #[trigger] op_holds(g, k, sem, val)
}

/// A slice of an entry value is the entry value of the part of the storage.
pub proof fn lemma_slice_value(m: Memory, space: AddrSpace, seg: Seg, src: Src)
    requires
        src.lo <= seg.off,
        seg.off + seg.size <= src.hi,
        seg.size >= 0,
    ensures
        ({
            let skip = skipped(seg, src, space.big_endian);
            entry_value(m, space, src.lo, src.hi - src.lo).subrange(skip, skip + seg.size)
                == entry_value(m, space, seg.off, seg.size)
        }),
{
    let skip = skipped(seg, src, space.big_endian);
    assert(entry_value(m, space, src.lo, src.hi - src.lo).subrange(skip, skip + seg.size)
        =~= entry_value(m, space, seg.off, seg.size));
}

/// The entry values of two neighbours make up that of both.
pub proof fn lemma_join_value(m: Memory, space: AddrSpace, lo: int, mid: int, hi: int)
    requires
        lo <= mid <= hi,
    ensures
        ({
            let below = entry_value(m, space, lo, mid - lo);
            let above = entry_value(m, space, mid, hi - mid);
            entry_value(m, space, lo, hi - lo) == (if space.big_endian {
                above + below
            } else {
                below + above
            })
        }),
{
    let below = entry_value(m, space, lo, mid - lo);
    let above = entry_value(m, space, mid, hi - mid);
    assert(entry_value(m, space, lo, hi - lo) =~= (if space.big_endian {
        above + below
    } else {
        below + above
    }));
}

/// The varnode laid for a segment has the entry value of the segment.
proof fn lemma_laid_segment_value(
    g: Graph,
    h: Graph,
    end: Graph,
    plan: Seq<Seg>,
    site: Site,
    i: int,
    m: Memory,
    sem: Semantics,
    val: Valuation,
)
    requires
        plan_spans(g, site.space, plan),
        0 <= i < plan.len(),
        h.linked(),
        grown(g, h),
        new_inputs_below(g, h, site.space, plan[i].off),
        grown(laid_segment(h, plan[i], site).0, end),
        consistent(end, m, sem, val),
    ensures
        val(laid_segment(h, plan[i], site).1) == entry_value(
            m,
            site.space,
            plan[i].off,
            plan[i].size,
        ),
{
    let seg = plan[i];
    let n = h.varnodes.len() as int;
    let (h2, id) = laid_segment(h, seg, site);
    lemma_segment_still_fits(g, h, site.space, plan, i);
    match seg.source {
        None => {
            assert(end.varnodes[n] == h2.varnodes[n]);
            assert(end.is_input(n));
        },
        Some(src) => {
            assert(h2.varnodes[src.id] == h.varnodes[src.id]);
            assert(end.varnodes[src.id] == h2.varnodes[src.id]);
            assert(end.is_input(src.id));
            if !is_whole(seg, src) {
                let k = h.ops.len() as int;
                let op = h2.ops[k];
                assert(end.ops[k] == h2.ops[k]);
                assert(end.varnodes[n] == h2.varnodes[n]);
                assert(end.varnodes[n + 1] == h2.varnodes[n + 1]);
                assert(op_holds(end, k, sem, val));
                assert(operands(op, val)[0] == val(src.id));
                lemma_slice_value(m, site.space, seg, src);
            }
        },
    }
}

/// The varnodes laid for the first `n` segments have the entry values of the segments.
pub proof fn lemma_laid_values(
    g: Graph,
    end: Graph,
    plan: Seq<Seg>,
    site: Site,
    n: int,
    m: Memory,
    sem: Semantics,
    val: Valuation,
)
    requires
        g.linked(),
        g.start == Some(site.block),
        plan_spans(g, site.space, plan),
        0 <= n <= plan.len(),
        grown(laid(g, plan.take(n), site).0, end),
        consistent(end, m, sem, val),
    ensures
        forall|i: int|
            0 <= i < n ==> val((#[trigger] laid(g, plan.take(n), site).1[i]).id) == entry_value(
                m,
                site.space,
                plan[i].off,
                plan[i].size,
            ),
    decreases n,
{
    if n > 0 {
        let t = plan.take(n);
        assert(t.drop_last() =~= plan.take(n - 1));
        assert(t.last() == plan[n - 1]);
        lemma_laid(g, plan, site, n - 1);
        let (h1, tiles1) = laid(g, plan.take(n - 1), site);
        let (h2, id) = laid_segment(h1, plan[n - 1], site);
        assert(grown(h1, h2)) by {
            lemma_segment_still_fits(g, h1, site.space, plan, n - 1);
        }
        lemma_grown_trans(h1, h2, end);
        lemma_laid_values(g, end, plan, site, n - 1, m, sem, val);
        lemma_laid_segment_value(g, h1, end, plan, site, n - 1, m, sem, val);
        let tiles = laid(g, t, site).1;
        assert forall|i: int| 0 <= i < n implies val((#[trigger] tiles[i]).id) == entry_value(
            m,
            site.space,
            plan[i].off,
            plan[i].size,
        ) by {
            if i < n - 1 {
                assert(tiles[i] == tiles1[i]);
            }
        }
    }
}

/// The varnode that joins the first `n` parts has the entry value of their range.
pub proof fn lemma_joined_value(
    g: Graph,
    end: Graph,
    order: Seq<Part>,
    n: int,
    whole: Vn,
    site: Site,
    m: Memory,
    sem: Semantics,
    val: Valuation,
)
    requires
        g.linked(),
        g.start == Some(site.block),
        1 <= n <= order.len(),
        chained(order, site.space.big_endian),
        chain_size(order, order.len() as int, site.space.big_endian) <= i32::MAX,
        whole.size == chain_size(order, order.len() as int, site.space.big_endian),
        0 <= whole.offset < offsets(),
        forall|i: int| 0 <= i < order.len() ==> g.live((#[trigger] order[i]).id),
        forall|i: int|
            0 <= i < order.len() ==> val((#[trigger] order[i]).id) == entry_value(
                m,
                site.space,
                order[i].off,
                order[i].size,
            ),
        grown(joined(g, order, n, whole, site).0, end),
        consistent(end, m, sem, val),
    ensures
        val(joined(g, order, n, whole, site).1) == entry_value(
            m,
            site.space,
            if site.space.big_endian {
                order[0].off
            } else {
                order[n - 1].off
            },
            chain_size(order, n, site.space.big_endian),
        ),
    decreases n,
{
    let big_endian = site.space.big_endian;
    if n > 1 {
        let (h, out, out_size) = joined(g, order, n, whole, site);
        let (h1, value, size) = joined(g, order, n - 1, whole, site);
        let tile = order[n - 1];
        lemma_joined(g, order, n - 1, whole, site);
        lemma_joined(g, order, n, whole, site);
        assert(grown(h1, h));
        lemma_grown_trans(h1, h, end);
        lemma_joined_value(g, end, order, n - 1, whole, site, m, sem, val);
        lemma_chain_size(order, n - 1, order.len() as int, big_endian);
        let k = h1.ops.len() as int;
        let op = h.ops[k];
        assert(end.ops[k] == op);
        assert(op.code == OpCode::CPUI_PIECE);
        assert(op.inputs == seq![Some(value), Some(tile.id)]);
        assert(op.output == Some(out));
        assert(op_holds(end, k, sem, val));
        assert(operands(op, val)[0] == val(value));
        assert(operands(op, val)[1] == val(tile.id));
        assert(val(out) == val(tile.id) + val(value));
        let i = n - 2;
        let j = n - 1;
        assert(order[i].size > 0 && order[j].size > 0);
        if big_endian {
            assert(order[i].off + order[i].size == order[j].off);
            lemma_join_value(
                m,
                site.space,
                order[0].off,
                tile.off,
                tile.off + tile.size,
            );
        } else {
            assert(order[j].off + order[j].size == order[i].off);
            lemma_join_value(
                m,
                site.space,
                tile.off,
                order[i].off,
                order[0].off + order[0].size,
            );
        }
    }
}

/// A rebuilt value is the entry value of the requested storage.
pub proof fn lemma_composed_value(
    g: Graph,
    plan: Seq<Seg>,
    size: int,
    addr: Address,
    m: Memory,
    sem: Semantics,
    val: Valuation,
)
    requires
        g.wf(),
        g.start is Some,
        addr.base is Some,
        plan_fits(g, addr.base->0, addr.offset as int, addr.offset + size, plan),
        consistent(composed(g, plan, size, addr).0, m, sem, val),
    ensures
        val(composed(g, plan, size, addr).1) == entry_value(
            m,
            addr.base->0,
            addr.offset as int,
            size,
        ),
{
    let space = addr.base->0;
    let site = entry_site(g, space);
    let n = plan.len() as int;
    lemma_composed(g, plan, size, addr);
    let (g1, tiles) = laid(g, plan, site);
    let order = by_significance(tiles, space.big_endian);
    let whole = place_vn(space, addr.offset as int, size);
    let end = composed(g, plan, size, addr).0;
    lemma_laid_values(g, end, plan, site, n, m, sem, val);
    assert forall|i: int| 0 <= i < order.len() implies val((#[trigger] order[i]).id)
        == entry_value(m, space, order[i].off, order[i].size) by {
        let j = if space.big_endian {
            i
        } else {
            n - 1 - i
        };
        assert(order[i] == tiles[j]);
    }
    assert(grown(end, end));
    lemma_joined_value(g1, end, order, n, whole, site, m, sem, val);
    assert(tiles[0].off == plan[0].off);
    if space.big_endian {
        assert(order[0] == tiles[0]);
    } else {
        assert(order[n - 1] == tiles[0]);
    }
}

/// Consistency depends on the varnodes that there are alone.
pub proof fn lemma_consistent_live(g: Graph, m: Memory, sem: Semantics, a: Valuation, b: Valuation)
    requires
        g.wf(),
        consistent(g, m, sem, a),
        forall|v: int| #[trigger] g.live(v) ==> a(v) == b(v),
    ensures
        consistent(g, m, sem, b),
{
    assert forall|k: int| 0 <= k < g.ops.len() implies #[trigger] op_holds(g, k, sem, b) by {
        let op = g.ops[k];
        assert(op_holds(g, k, sem, a));
        if op.output is Some && ready(op) {
            assert(g.live(op.output->0));
            assert forall|s: int| 0 <= s < op.inputs.len() implies #[trigger] operands(op, a)[s]
                == operands(op, b)[s] by {
                assert(op.inputs[s] is Some);
                assert(g.live(op.inputs[s]->0));
            }
            assert(operands(op, a) =~= operands(op, b));
        }
    }
    assert forall|v: int| #[trigger] g.is_input(v) implies b(v) == entry_value_of(m, g.vn(v)) by {
        assert(g.live(v));
    }
}

/// A valuation of what became of a function, taken back to the function: the inputs
/// have the bytes that enter it, also those that were folded.
pub open spec fn restored(g: Graph, m: Memory, val: Valuation) -> Valuation {
    |v: int|
        if g.is_input(v) {
            entry_value_of(m, g.vn(v))
        } else {
            val(v)
        }
}

/// A function that grew was not changed: its values are those that they were.
pub proof fn lemma_grown_back(g: Graph, h: Graph, m: Memory, sem: Semantics, val: Valuation)
    requires
        g.wf(),
        grown(g, h),
        consistent(h, m, sem, val),
    ensures
        consistent(g, m, sem, val),
{
    assert forall|v: int| #[trigger] g.is_input(v) implies val(v) == entry_value_of(
        m,
        g.vn(v),
    ) by {
        assert(h.varnodes[v] == g.varnodes[v]);
        assert(h.is_input(v));
    }
    assert forall|k: int| 0 <= k < g.ops.len() implies #[trigger] op_holds(g, k, sem, val) by {
        assert(op_holds(h, k, sem, val));
        assert(h.ops[k] == g.ops[k]);
        let op = g.ops[k];
        if op.output is Some && ready(op) {
            assert(g.live(op.output->0));
            assert(h.varnodes[op.output->0] == g.varnodes[op.output->0]);
            if op.inputs.len() == 2 {
                assert(op.inputs[1] is Some);
                assert(g.live(op.inputs[1]->0));
                assert(h.varnodes[op.inputs[1]->0] == g.varnodes[op.inputs[1]->0]);
            }
        }
    }
}

/// Two valuations, of a function and of the function with two inputs folded, agree.
spec fn agree(g: Graph, hi: int, lo: int, m: Memory, a: Valuation, b: Valuation) -> bool {
    let j = g.varnodes.len() as int;
    let lo_cut = if g.read_apart(hi, hi, lo) {
        j + 3
    } else {
        j + 1
    };
    &&& forall|v: int| #[trigger] g.live(v) && v != hi && v != lo ==> a(v) == b(v)
    &&& a(hi) == entry_value_of(m, g.vn(hi))
    &&& a(lo) == entry_value_of(m, g.vn(lo))
    &&& b(j) == entry_value_of(m, g.joined_vn(hi, lo))
    &&& g.read_apart(hi, hi, lo) ==> b(j + 1) == entry_value_of(m, g.vn(hi))
    &&& g.read_apart(lo, hi, lo) ==> b(lo_cut) == entry_value_of(m, g.vn(lo))
}

/// The entry value of the fold of two inputs is made of theirs.
proof fn lemma_joined_parts(g: Graph, hi: int, lo: int, m: Memory)
    requires
        g.wf(),
        g.is_input(hi),
        g.is_input(lo),
        g.adjacent(hi, lo),
    ensures
        ({
            let whole = entry_value_of(m, g.joined_vn(hi, lo));
            let low = g.vn(lo).size;
            let high = g.vn(hi).size;
            &&& whole == entry_value_of(m, g.vn(lo)) + entry_value_of(m, g.vn(hi))
            &&& whole.subrange(low, low + high) == entry_value_of(m, g.vn(hi))
            &&& whole.subrange(0, low) == entry_value_of(m, g.vn(lo))
        }),
{
    assert(g.live(hi) && g.live(lo));
    let space = g.vn(lo).base->0;
    let whole = entry_value_of(m, g.joined_vn(hi, lo));
    let low = g.vn(lo).size;
    let high = g.vn(hi).size;
    if space.big_endian {
        lemma_join_value(m, space, g.vn(hi).offset, g.vn(lo).offset, g.vn(lo).end());
    } else {
        lemma_join_value(m, space, g.vn(lo).offset, g.vn(hi).offset, g.vn(hi).end());
    }
    assert(whole.subrange(low, low + high) =~= entry_value_of(m, g.vn(hi)));
    assert(whole.subrange(0, low) =~= entry_value_of(m, g.vn(lo)));
}

/// An operation means the same after two inputs were folded.
proof fn lemma_rewired_holds(
    g: Graph,
    hi: int,
    lo: int,
    k: int,
    m: Memory,
    sem: Semantics,
    a: Valuation,
    b: Valuation,
)
    requires
        g.wf(),
        g.is_input(hi),
        g.is_input(lo),
        g.adjacent(hi, lo),
        0 <= k < g.ops.len(),
        agree(g, hi, lo, m, a, b),
    ensures
        op_holds(g, k, sem, a) <==> op_holds(g.combine(hi, lo), k, sem, b),
{
    let h = g.combine(hi, lo);
    let j = g.varnodes.len() as int;
    let lo_cut = if g.read_apart(hi, hi, lo) {
        j + 3
    } else {
        j + 1
    };
    let op = g.ops[k];
    let new = h.ops[k];
    lemma_combine_shape(g, hi, lo);
    lemma_joined_parts(g, hi, lo, m);
    assert(new == op.rewired(hi, lo, j, j + 1, lo_cut));
    assert(g.live(hi) && g.live(lo));
    if op.output is Some {
        let out = op.output->0;
        assert(g.live(out));
        assert(out != hi && out != lo);
        assert(h.varnodes[out] == g.varnodes[out]);
        assert(a(out) == b(out));
        if op.joins(hi, lo) {
            assert(ready(op));
            assert(ready(new));
            assert(operands(op, a)[0] == a(hi));
            assert(operands(op, a)[1] == a(lo));
            assert(operands(new, b)[0] == b(j));
            assert(op_value(g, op, sem, a) == a(lo) + a(hi));
            assert(op_value(h, new, sem, b) == b(j));
        } else {
            assert(ready(op) <==> ready(new)) by {
                assert forall|s: int| 0 <= s < op.inputs.len() implies (
                #[trigger] op.inputs[s] is Some <==> new.inputs[s] is Some) by {}
                if ready(op) {
                    assert forall|s: int| 0 <= s < new.inputs.len() implies (
                    #[trigger] new.inputs[s]) is Some by {
                        assert(op.inputs[s] is Some);
                    }
                }
                if ready(new) {
                    assert forall|s: int| 0 <= s < op.inputs.len() implies (
                    #[trigger] op.inputs[s]) is Some by {
                        assert(new.inputs[s] is Some);
                    }
                }
            }
            if ready(op) {
                assert forall|s: int| 0 <= s < op.inputs.len() implies #[trigger] operands(
                    op,
                    a,
                )[s] == operands(new, b)[s] by {
                    assert(op.inputs[s] is Some);
                    let v = op.inputs[s]->0;
                    assert(g.live(v));
                    assert(op.reads(v));
                }
                assert(operands(op, a) =~= operands(new, b));
                if op.inputs.len() == 2 {
                    assert(op.inputs[1] is Some);
                    let v = op.inputs[1]->0;
                    assert(g.live(v));
                    assert(op.reads(v));
                    assert(h.varnodes[v] == (if v == hi || v == lo {
                        None
                    } else {
                        g.varnodes[v]
                    }));
                }
                assert(op_value(g, op, sem, a) == op_value(h, new, sem, b));
            }
        }
    }
}

/// A valuation of a function with two inputs folded, taken back, is one of the function.
pub proof fn lemma_combine_back(
    g: Graph,
    hi: int,
    lo: int,
    m: Memory,
    sem: Semantics,
    val: Valuation,
)
    requires
        g.wf(),
        g.is_input(hi),
        g.is_input(lo),
        g.adjacent(hi, lo),
        consistent(g.combine(hi, lo), m, sem, val),
    ensures
        consistent(g, m, sem, restored(g, m, val)),
{
    let h = g.combine(hi, lo);
    let a = restored(g, m, val);
    let j = g.varnodes.len() as int;
    let n = g.ops.len() as int;
    let cut_hi = g.read_apart(hi, hi, lo);
    let lo_cut = if cut_hi {
        j + 3
    } else {
        j + 1
    };
    let lo_op = if cut_hi {
        n + 1
    } else {
        n
    };
    lemma_combine_shape(g, hi, lo);
    lemma_joined_parts(g, hi, lo, m);
    assert(g.live(hi) && g.live(lo));
    assert(h.is_input(j));
    if cut_hi {
        assert(op_holds(h, n, sem, val));
        assert(ready(h.ops[n]));
        assert(operands(h.ops[n], val)[0] == val(j));
    }
    if g.read_apart(lo, hi, lo) {
        assert(op_holds(h, lo_op, sem, val));
        assert(ready(h.ops[lo_op]));
        assert(operands(h.ops[lo_op], val)[0] == val(j));
    }
    assert forall|v: int| #[trigger] g.live(v) && v != hi && v != lo implies a(v) == val(v) by {
        if g.is_input(v) {
            assert(h.varnodes[v] == g.varnodes[v]);
            assert(h.is_input(v));
        }
    }
    assert forall|k: int| 0 <= k < g.ops.len() implies #[trigger] op_holds(g, k, sem, a) by {
        assert(op_holds(h, k, sem, val));
        lemma_rewired_holds(g, hi, lo, k, m, sem, a, val);
    }
}

/// A valuation of a function, carried over to the function with two inputs folded.
spec fn carried(g: Graph, hi: int, lo: int, m: Memory, val: Valuation) -> Valuation {
    let j = g.varnodes.len() as int;
    let lo_cut = if g.read_apart(hi, hi, lo) {
        j + 3
    } else {
        j + 1
    };
    |v: int|
        if v == j {
            entry_value_of(m, g.joined_vn(hi, lo))
        } else if v == lo_cut {
            entry_value_of(m, g.vn(lo))
        } else if v == j + 1 {
            entry_value_of(m, g.vn(hi))
        } else {
            val(v)
        }
}

/// A valuation of a function is one of the function with two inputs folded, but for
/// the varnodes that are new in it.
pub proof fn lemma_combine_forth(
    g: Graph,
    hi: int,
    lo: int,
    m: Memory,
    sem: Semantics,
    val: Valuation,
) -> (b: Valuation)
    requires
        g.wf(),
        g.is_input(hi),
        g.is_input(lo),
        g.adjacent(hi, lo),
        consistent(g, m, sem, val),
    ensures
        consistent(g.combine(hi, lo), m, sem, b),
        forall|v: int| 0 <= v < g.varnodes.len() ==> b(v) == #[trigger] val(v),
{
    let h = g.combine(hi, lo);
    let b = carried(g, hi, lo, m, val);
    let j = g.varnodes.len() as int;
    let n = g.ops.len() as int;
    let cut_hi = g.read_apart(hi, hi, lo);
    let lo_cut = if cut_hi {
        j + 3
    } else {
        j + 1
    };
    let lo_op = if cut_hi {
        n + 1
    } else {
        n
    };
    lemma_combine_shape(g, hi, lo);
    lemma_joined_parts(g, hi, lo, m);
    assert(g.live(hi) && g.live(lo));
    assert forall|v: int| #[trigger] h.is_input(v) implies b(v) == entry_value_of(m, h.vn(v)) by {
        if v < j {
            assert(h.varnodes[v] is Some);
            assert(g.is_input(v));
        }
    }
    assert forall|k: int| 0 <= k < h.ops.len() implies #[trigger] op_holds(h, k, sem, b) by {
        if k < n {
            assert(op_holds(g, k, sem, val));
            lemma_rewired_holds(g, hi, lo, k, m, sem, val, b);
        } else {
            assert(operands(h.ops[k], b)[0] == b(j));
        }
    }
    b
}

/// A valuation of a function is one of what it grew into, where it fits what is new.
pub proof fn lemma_grown_forth(
    g: Graph,
    h: Graph,
    m: Memory,
    sem: Semantics,
    a: Valuation,
    b: Valuation,
)
    requires
        g.wf(),
        grown(g, h),
        consistent(g, m, sem, a),
        forall|v: int| 0 <= v < g.varnodes.len() ==> b(v) == #[trigger] a(v),
        forall|v: int|
            v >= g.varnodes.len() && #[trigger] h.is_input(v) ==> b(v) == entry_value_of(
                m,
                h.vn(v),
            ),
        forall|k: int| g.ops.len() <= k < h.ops.len() ==> #[trigger] op_holds(h, k, sem, b),
    ensures
        consistent(h, m, sem, b),
{
    assert forall|v: int| #[trigger] h.is_input(v) implies b(v) == entry_value_of(m, h.vn(v)) by {
        if v < g.varnodes.len() {
            assert(h.varnodes[v] == g.varnodes[v]);
            assert(g.is_input(v));
            assert(b(v) == a(v));
        }
    }
    assert forall|k: int| 0 <= k < h.ops.len() implies #[trigger] op_holds(h, k, sem, b) by {
        if k < g.ops.len() {
            let op = g.ops[k];
            assert(h.ops[k] == op);
            assert(op_holds(g, k, sem, a));
            if op.output is Some && ready(op) {
                assert(g.live(op.output->0));
                assert(h.varnodes[op.output->0] == g.varnodes[op.output->0]);
                assert forall|s: int| 0 <= s < op.inputs.len() implies #[trigger] operands(
                    op,
                    a,
                )[s] == operands(op, b)[s] by {
                    assert(op.inputs[s] is Some);
                    assert(g.live(op.inputs[s]->0));
                    assert(b(op.inputs[s]->0) == a(op.inputs[s]->0));
                }
                assert(operands(op, a) =~= operands(op, b));
                if op.inputs.len() == 2 {
                    assert(op.inputs[1] is Some);
                    assert(g.live(op.inputs[1]->0));
                    assert(h.varnodes[op.inputs[1]->0] == g.varnodes[op.inputs[1]->0]);
                }
                assert(b(op.output->0) == a(op.output->0));
            }
        }
    }
}

/// A valuation with another value for one varnode.
pub open spec fn given(val: Valuation, n: int, x: Seq<u8>) -> Valuation {
    |v: int|
        if v == n {
            x
        } else {
            val(v)
        }
}

/// A valuation of a function fits it with one segment laid.
proof fn lemma_laid_segment_forth(
    g: Graph,
    h: Graph,
    plan: Seq<Seg>,
    site: Site,
    i: int,
    m: Memory,
    sem: Semantics,
    val: Valuation,
) -> (b: Valuation)
    requires
        plan_spans(g, site.space, plan),
        0 <= i < plan.len(),
        h.wf(),
        h.start == Some(site.block),
        grown(g, h),
        new_inputs_below(g, h, site.space, plan[i].off),
        consistent(h, m, sem, val),
    ensures
        consistent(laid_segment(h, plan[i], site).0, m, sem, b),
        forall|v: int| 0 <= v < h.varnodes.len() ==> b(v) == #[trigger] val(v),
{
    let seg = plan[i];
    let n = h.varnodes.len() as int;
    let (h2, id) = laid_segment(h, seg, site);
    lemma_segment_still_fits(g, h, site.space, plan, i);
    let x = match seg.source {
        None => entry_value(m, site.space, seg.off, seg.size),
        Some(src) => {
            let skip = skipped(seg, src, site.space.big_endian);
            val(src.id).subrange(skip, skip + seg.size)
        },
    };
    let b = given(val, n, x);
    assert(grown(h, h2));
    assert forall|k: int| h.ops.len() <= k < h2.ops.len() implies #[trigger] op_holds(
        h2,
        k,
        sem,
        b,
    ) by {
        let src = seg.source->0;
        assert(h.is_input(src.id));
        assert(operands(h2.ops[k], b)[0] == val(src.id));
    }
    lemma_grown_forth(h, h2, m, sem, val, b);
    b
}

/// A valuation of a function fits it with the first `n` segments laid.
proof fn lemma_laid_forth(
    g: Graph,
    plan: Seq<Seg>,
    site: Site,
    n: int,
    m: Memory,
    sem: Semantics,
    val: Valuation,
) -> (b: Valuation)
    requires
        g.wf(),
        g.start == Some(site.block),
        plan_spans(g, site.space, plan),
        0 <= n <= plan.len(),
        consistent(g, m, sem, val),
    ensures
        consistent(laid(g, plan.take(n), site).0, m, sem, b),
        forall|v: int| 0 <= v < g.varnodes.len() ==> b(v) == #[trigger] val(v),
    decreases n,
{
    if n > 0 {
        let a = lemma_laid_forth(g, plan, site, n - 1, m, sem, val);
        lemma_laid(g, plan, site, n - 1);
        assert(plan.take(n).drop_last() =~= plan.take(n - 1));
        assert(plan.take(n).last() == plan[n - 1]);
        let h = laid(g, plan.take(n - 1), site).0;
        let b = lemma_laid_segment_forth(g, h, plan, site, n - 1, m, sem, a);
        assert forall|v: int| 0 <= v < g.varnodes.len() implies b(v) == #[trigger] val(v) by {
            assert(b(v) == a(v));
        }
        b
    } else {
        assert(plan.take(0) =~= Seq::empty());
        val
    }
}

/// A valuation of a function fits it with the first `n` parts joined.
proof fn lemma_joined_forth(
    g: Graph,
    order: Seq<Part>,
    n: int,
    whole: Vn,
    site: Site,
    m: Memory,
    sem: Semantics,
    val: Valuation,
) -> (b: Valuation)
    requires
        g.wf(),
        g.start == Some(site.block),
        1 <= n <= order.len(),
        chained(order, site.space.big_endian),
        chain_size(order, order.len() as int, site.space.big_endian) <= i32::MAX,
        whole.size == chain_size(order, order.len() as int, site.space.big_endian),
        0 <= whole.offset < offsets(),
        forall|i: int| 0 <= i < order.len() ==> g.live((#[trigger] order[i]).id),
        consistent(g, m, sem, val),
    ensures
        consistent(joined(g, order, n, whole, site).0, m, sem, b),
        forall|v: int| 0 <= v < g.varnodes.len() ==> b(v) == #[trigger] val(v),
    decreases n,
{
    if n > 1 {
        let a = lemma_joined_forth(g, order, n - 1, whole, site, m, sem, val);
        lemma_joined(g, order, n - 1, whole, site);
        lemma_joined(g, order, n, whole, site);
        let (h, out, out_size) = joined(g, order, n, whole, site);
        let (h1, value, size) = joined(g, order, n - 1, whole, site);
        let tile = order[n - 1];
        let k = h1.ops.len() as int;
        assert(grown(h1, h));
        assert(g.live(tile.id));
        let b = given(a, out, a(tile.id) + a(value));
        assert forall|j: int| h1.ops.len() <= j < h.ops.len() implies #[trigger] op_holds(
            h,
            j,
            sem,
            b,
        ) by {
            assert(operands(h.ops[k], b)[0] == a(value));
            assert(operands(h.ops[k], b)[1] == a(tile.id));
        }
        assert forall|v: int| v >= h1.varnodes.len() && #[trigger] h.is_input(v) implies b(v)
            == entry_value_of(m, h.vn(v)) by {
            assert(h.live(v));
        }
        lemma_grown_forth(h1, h, m, sem, a, b);
        assert forall|v: int| 0 <= v < g.varnodes.len() implies b(v) == #[trigger] val(v) by {
            assert(b(v) == a(v));
        }
        b
    } else {
        val
    }
}

/// A valuation of a function fits it with a value rebuilt.
pub proof fn lemma_composed_forth(
    g: Graph,
    plan: Seq<Seg>,
    size: int,
    addr: Address,
    m: Memory,
    sem: Semantics,
    val: Valuation,
) -> (b: Valuation)
    requires
        g.wf(),
        g.start is Some,
        addr.base is Some,
        plan_fits(g, addr.base->0, addr.offset as int, addr.offset + size, plan),
        consistent(g, m, sem, val),
    ensures
        consistent(composed(g, plan, size, addr).0, m, sem, b),
        forall|v: int| 0 <= v < g.varnodes.len() ==> b(v) == #[trigger] val(v),
{
    let space = addr.base->0;
    let site = entry_site(g, space);
    let n = plan.len() as int;
    lemma_composed(g, plan, size, addr);
    let a = lemma_laid_forth(g, plan, site, n, m, sem, val);
    let (g1, tiles) = laid(g, plan, site);
    let order = by_significance(tiles, space.big_endian);
    let whole = place_vn(space, addr.offset as int, size);
    let b = lemma_joined_forth(g1, order, n, whole, site, m, sem, a);
    assert forall|v: int| 0 <= v < g.varnodes.len() implies b(v) == #[trigger] val(v) by {
        assert(b(v) == a(v));
    }
    b
}

/// A valuation of a function with parts folded, taken back, is one of the function.
pub proof fn lemma_folded_back(
    g: Graph,
    tiles: Seq<Part>,
    space: AddrSpace,
    m: Memory,
    sem: Semantics,
    val: Valuation,
)
    requires
        g.wf(),
        parts_held(g, tiles, space),
        span(tiles) <= i32::MAX,
        consistent(folded(g, tiles, space.big_endian).0, m, sem, val),
    ensures
        consistent(g, m, sem, restored(g, m, val)),
    decreases tiles.len(),
{
    let (hi, lo) = hi_lo(tiles[0], tiles[1], space.big_endian);
    if tiles.len() > 1 && g.cuttable(hi, lo) {
        let g1 = g.combine(hi, lo);
        lemma_fold_step(g, tiles, space);
        lemma_combine_shape(g, hi, lo);
        lemma_folded_back(g1, first_folded(g, tiles), space, m, sem, val);
        let x = restored(g1, m, val);
        lemma_combine_back(g, hi, lo, m, sem, x);
        assert forall|v: int| #[trigger] g.live(v) implies restored(g, m, x)(v) == restored(
            g,
            m,
            val,
        )(v) by {
            if !g.is_input(v) {
                assert(g.is_input(hi) && g.is_input(lo));
                assert(g1.varnodes[v] == g.varnodes[v]);
                assert(!g1.is_input(v));
            }
        }
        lemma_consistent_live(g, m, sem, restored(g, m, x), restored(g, m, val));
    } else {
        assert forall|v: int| #[trigger] g.live(v) implies val(v) == restored(g, m, val)(v) by {
            if g.is_input(v) {
            }
        }
        lemma_consistent_live(g, m, sem, val, restored(g, m, val));
    }
}

/// A valuation of a function fits it with parts folded.
pub proof fn lemma_folded_forth(
    g: Graph,
    tiles: Seq<Part>,
    space: AddrSpace,
    m: Memory,
    sem: Semantics,
    val: Valuation,
) -> (b: Valuation)
    requires
        g.wf(),
        parts_held(g, tiles, space),
        span(tiles) <= i32::MAX,
        consistent(g, m, sem, val),
    ensures
        consistent(folded(g, tiles, space.big_endian).0, m, sem, b),
        forall|v: int| 0 <= v < g.varnodes.len() ==> b(v) == #[trigger] val(v),
    decreases tiles.len(),
{
    let (hi, lo) = hi_lo(tiles[0], tiles[1], space.big_endian);
    if tiles.len() > 1 && g.cuttable(hi, lo) {
        let g1 = g.combine(hi, lo);
        lemma_fold_step(g, tiles, space);
        lemma_combine_shape(g, hi, lo);
        let a = lemma_combine_forth(g, hi, lo, m, sem, val);
        let b = lemma_folded_forth(g1, first_folded(g, tiles), space, m, sem, a);
        assert forall|v: int| 0 <= v < g.varnodes.len() implies b(v) == #[trigger] val(v) by {
            assert(b(v) == a(v));
        }
        b
    } else {
        val
    }
}

} // verus!
