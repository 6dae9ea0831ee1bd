//! Edits that keep a function sound.

use crate::address::{AddrSpace, Address};
use crate::graph::{offsets, Graph};
use crate::op::{Op, OpCode};
use crate::varnode::{Origin, Vn};
use vstd::prelude::*;

verus! {

/// A varnode that nothing defines can be added; one that is an input, where no other
/// input shares its storage.
pub proof fn lemma_add_varnode(g: Graph, vn: Vn)
    requires
        g.linked(),
        0 < vn.size <= i32::MAX,
        0 <= vn.offset < offsets(),
        !(vn.origin is Written),
        vn.origin == Origin::Input ==> vn.base is Some && !g.meets_input(vn),
    ensures
        g.add_varnode(vn).linked(),
        g.wf() ==> g.add_varnode(vn).wf(),
{
    let h = g.add_varnode(vn);
    let n = g.varnodes.len() as int;
    assert forall|v: int| #[trigger] h.live(v) implies v == n || (g.live(v) && h.vn(v) == g.vn(v)) by {}
    assert forall|v: int| #[trigger] g.live(v) implies h.live(v) && h.vn(v) == g.vn(v) by {}
    assert forall|v: int| #[trigger] h.is_input(v) && v != n implies g.is_input(v) by {
        assert(h.live(v));
    }
    assert(h.varnodes_sound() && (g.wf() ==> h.sized())) by {
        assert forall|v: int| #[trigger] h.live(v) implies i32::MIN <= h.vn(v).size
            <= i32::MAX && 0 <= h.vn(v).offset < offsets() && (g.wf() ==> h.vn(v).size > 0) by {
            if v != n {
                assert(g.live(v));
            }
        }
        assert forall|v: int| #[trigger] h.is_input(v) implies h.vn(v).base is Some by {
            assert(h.live(v));
            if v != n {
                assert(g.is_input(v));
            }
        }
    }
    assert(g.wf() ==> h.inputs_disjoint()) by {
        assert forall|u: int, v: int| g.wf() && #[trigger]
            h.is_input(u) && #[trigger] h.is_input(v) && u != v implies !h.vn(u).overlaps(
            h.vn(v),
        ) by {
            assert(h.live(u) && h.live(v));
            if u != n {
                assert(g.is_input(u));
            }
            if v != n {
                assert(g.is_input(v));
            }
        }
    }
    assert(h.writes_sound()) by {
        assert forall|v: int| #[trigger] h.live(v) && h.vn(v).origin is Written implies {
            let k = h.vn(v).origin->Written_0;
            0 <= k < h.ops.len() && h.ops[k].output == Some(v)
        } by {
            assert(g.live(v));
        }
    }
}

/// A free varnode can be settled as an input, where no other input shares its storage.
pub proof fn lemma_settle_input(g: Graph, v: int)
    requires
        g.linked(),
        g.live(v),
        g.vn(v).origin == Origin::Free,
        g.vn(v).base is Some,
        !g.meets_input(g.vn(v)),
    ensures
        g.set_varnode(v, Vn { origin: Origin::Input, ..g.vn(v) }).linked(),
        g.wf() ==> g.set_varnode(v, Vn { origin: Origin::Input, ..g.vn(v) }).wf(),
{
    let h = g.set_varnode(v, Vn { origin: Origin::Input, ..g.vn(v) });
    assert forall|u: int| #[trigger] h.live(u) <==> g.live(u) by {}
    assert forall|u: int| #[trigger] h.live(u) && u != v implies h.vn(u) == g.vn(u) by {}
    assert forall|u: int| #[trigger] g.live(u) && u != v implies h.vn(u) == g.vn(u) by {}
    assert(h.varnodes_sound() && (g.wf() ==> h.sized())) by {
        assert forall|u: int| #[trigger] h.live(u) implies i32::MIN <= h.vn(u).size
            <= i32::MAX && 0 <= h.vn(u).offset < offsets() && (g.wf() ==> h.vn(u).size > 0) by {
            assert(g.live(u));
        }
        assert forall|u: int| #[trigger] h.is_input(u) implies h.vn(u).base is Some by {
            assert(h.live(u));
            if u != v {
                assert(g.is_input(u));
            }
        }
    }
    assert(g.wf() ==> h.inputs_disjoint()) by {
        assert forall|u: int, w: int| g.wf() && #[trigger]
            h.is_input(u) && #[trigger] h.is_input(w) && u != w implies !h.vn(u).overlaps(
            h.vn(w),
        ) by {
            assert(h.live(u) && h.live(w));
            if u != v {
                assert(g.is_input(u));
            }
            if w != v {
                assert(g.is_input(w));
            }
        }
    }
    assert(h.writes_sound()) by {
        assert forall|u: int| #[trigger] h.live(u) && h.vn(u).origin is Written implies {
            let k = h.vn(u).origin->Written_0;
            0 <= k < h.ops.len() && h.ops[k].output == Some(u)
        } by {
            assert(g.live(u));
        }
    }
}

/// A free varnode that nothing reads can be destroyed.
pub proof fn lemma_destroy(g: Graph, v: int)
    requires
        g.linked(),
        g.live(v),
        g.vn(v).origin == Origin::Free,
        !g.is_read(v),
    ensures
        g.destroy(v).linked(),
        g.wf() ==> g.destroy(v).wf(),
{
    let h = g.destroy(v);
    assert forall|u: int| #[trigger] h.live(u) implies g.live(u) && u != v && h.vn(u) == g.vn(u) by {}
    assert forall|u: int| #[trigger] g.live(u) && u != v implies h.live(u) && h.vn(u) == g.vn(u) by {}
    assert forall|u: int| #[trigger] h.is_input(u) implies g.is_input(u) by {
        assert(h.live(u));
    }
    assert(h.reads_sound()) by {
        assert forall|k: int, s: int|
            0 <= k < h.ops.len() && 0 <= s < h.ops[k].inputs.len() && (
            #[trigger] h.ops[k].inputs[s]) is Some implies h.live(h.ops[k].inputs[s]->0) by {
            let u = g.ops[k].inputs[s]->0;
            assert(g.live(u));
            if u == v {
                assert(g.ops[k].reads(v));
            }
        }
    }
    assert(h.writes_sound());
}

/// An operation without operands set and without output can be added.
pub proof fn lemma_add_op(g: Graph, op: Op)
    requires
        g.linked(),
        op.output is None,
        forall|s: int| 0 <= s < op.inputs.len() ==> #[trigger] op.inputs[s] is None,
    ensures
        g.add_op(op).linked(),
        g.wf() ==> g.add_op(op).wf(),
{
    let h = g.add_op(op);
    assert forall|u: int| #[trigger] h.live(u) <==> g.live(u) by {}
    assert forall|u: int| #[trigger] h.is_input(u) <==> g.is_input(u) by {}
    assert(h.varnodes_sound() && (g.wf() ==> h.sized()));
    assert(g.wf() ==> h.inputs_disjoint());
    assert(h.reads_sound()) by {
        assert forall|k: int, s: int|
            0 <= k < h.ops.len() && 0 <= s < h.ops[k].inputs.len() && (
            #[trigger] h.ops[k].inputs[s]) is Some implies h.live(h.ops[k].inputs[s]->0) by {
            if k < g.ops.len() {
                assert(h.ops[k] == g.ops[k]);
                assert(g.ops[k].inputs[s] is Some);
            }
        }
    }
    assert(h.writes_sound()) by {
        assert forall|u: int| #[trigger] h.live(u) && h.vn(u).origin is Written implies {
            let k = h.vn(u).origin->Written_0;
            0 <= k < h.ops.len() && h.ops[k].output == Some(u)
        } by {
            assert(g.live(u));
        }
    }
    assert(h.blocks_sound());
}

/// An operation can be given another code, and operands that exist.
pub proof fn lemma_set_op(g: Graph, k: int, op: Op)
    requires
        g.linked(),
        0 <= k < g.ops.len(),
        op.output == g.ops[k].output,
        forall|s: int|
            0 <= s < op.inputs.len() && (#[trigger] op.inputs[s]) is Some ==> g.live(
                op.inputs[s]->0,
            ),
    ensures
        g.set_op(k, op).linked(),
        g.wf() ==> g.set_op(k, op).wf(),
{
    let h = g.set_op(k, op);
    assert forall|u: int| #[trigger] h.live(u) <==> g.live(u) by {}
    assert forall|u: int| #[trigger] h.is_input(u) <==> g.is_input(u) by {}
    assert(h.varnodes_sound() && (g.wf() ==> h.sized()));
    assert(g.wf() ==> h.inputs_disjoint());
    assert(h.reads_sound()) by {
        assert forall|j: int, s: int|
            0 <= j < h.ops.len() && 0 <= s < h.ops[j].inputs.len() && (
            #[trigger] h.ops[j].inputs[s]) is Some implies h.live(h.ops[j].inputs[s]->0) by {
            if j != k {
                assert(h.ops[j] == g.ops[j]);
                assert(g.ops[j].inputs[s] is Some);
            } else {
                assert(op.inputs[s] is Some);
            }
        }
    }
    assert(h.writes_sound()) by {
        assert forall|j: int| 0 <= j < h.ops.len() && (#[trigger] h.ops[j]).output is Some implies {
            let v = h.ops[j].output->0;
            h.live(v) && h.vn(v).origin == Origin::Written(j)
        } by {
            assert(g.ops[j].output is Some);
            assert(g.live(g.ops[j].output->0));
        }
        assert forall|u: int| #[trigger] h.live(u) && h.vn(u).origin is Written implies {
            let j = h.vn(u).origin->Written_0;
            0 <= j < h.ops.len() && h.ops[j].output == Some(u)
        } by {
            assert(g.live(u));
        }
    }
    assert(h.blocks_sound());
}

/// An operation without output can be given one.
pub proof fn lemma_give_output(g: Graph, k: int, out: Vn)
    requires
        g.linked(),
        0 <= k < g.ops.len(),
        g.ops[k].output is None,
        0 < out.size <= i32::MAX,
        0 <= out.offset < offsets(),
        out.origin == Origin::Written(k),
    ensures
        g.add_varnode(out).set_op(
            k,
            Op { output: Some(g.varnodes.len() as int), ..g.ops[k] },
        ).linked(),
        g.wf() ==> g.add_varnode(out).set_op(
            k,
            Op { output: Some(g.varnodes.len() as int), ..g.ops[k] },
        ).wf(),
{
    let n = g.varnodes.len() as int;
    let h = g.add_varnode(out).set_op(k, Op { output: Some(n), ..g.ops[k] });
    assert forall|v: int| #[trigger] h.live(v) implies v == n || (g.live(v) && h.vn(v) == g.vn(v)) by {}
    assert forall|v: int| #[trigger] g.live(v) implies h.live(v) && h.vn(v) == g.vn(v) by {}
    assert forall|v: int| #[trigger] h.is_input(v) implies g.is_input(v) by {
        assert(h.live(v));
    }
    assert(h.varnodes_sound() && (g.wf() ==> h.sized())) by {
        assert forall|v: int| #[trigger] h.live(v) implies i32::MIN <= h.vn(v).size
            <= i32::MAX && 0 <= h.vn(v).offset < offsets() && (g.wf() ==> h.vn(v).size > 0) by {
            if v != n {
                assert(g.live(v));
            }
        }
        assert forall|v: int| #[trigger] h.is_input(v) implies h.vn(v).base is Some by {
            assert(g.is_input(v));
        }
    }
    assert(g.wf() ==> h.inputs_disjoint());
    assert(h.reads_sound()) by {
        assert forall|j: int, s: int|
            0 <= j < h.ops.len() && 0 <= s < h.ops[j].inputs.len() && (
            #[trigger] h.ops[j].inputs[s]) is Some implies h.live(h.ops[j].inputs[s]->0) by {
            assert(g.ops[j].inputs[s] is Some);
            assert(g.live(g.ops[j].inputs[s]->0));
        }
    }
    assert(h.writes_sound()) by {
        assert forall|j: int| 0 <= j < h.ops.len() && (#[trigger] h.ops[j]).output is Some implies {
            let v = h.ops[j].output->0;
            h.live(v) && h.vn(v).origin == Origin::Written(j)
        } by {
            if j != k {
                assert(g.ops[j].output is Some);
                assert(g.live(g.ops[j].output->0));
            } else {
                assert(h.live(n));
            }
        }
        assert forall|v: int| #[trigger] h.live(v) && h.vn(v).origin is Written implies {
            let j = h.vn(v).origin->Written_0;
            0 <= j < h.ops.len() && h.ops[j].output == Some(v)
        } by {
            if v != n {
                assert(g.live(v));
            }
        }
    }
    assert(h.blocks_sound());
}

/// The place before another operation is a place in the block.
pub proof fn lemma_place_before(ops: Seq<int>, before: Option<int>)
    ensures
        0 <= Graph::place_before(ops, before) <= ops.len(),
        forall|i: int|
            0 <= i < Graph::place_before(ops, before) ==> Some(#[trigger] ops[i]) != before,
        Graph::place_before(ops, before) < ops.len() ==> Some(
            ops[Graph::place_before(ops, before)],
        ) == before,
    decreases ops.len(),
{
    if ops.len() == 0 || Some(ops[0]) == before {
    } else {
        let r = ops.drop_first();
        lemma_place_before(r, before);
        assert forall|i: int| 0 <= i < Graph::place_before(ops, before) implies Some(
            #[trigger] ops[i],
        ) != before by {
            if i > 0 {
                assert(r[i - 1] == ops[i]);
            }
        }
    }
}

/// An operation can be put into a block.
pub proof fn lemma_insert_op(g: Graph, k: int, b: int, before: Option<int>)
    requires
        g.linked(),
        0 <= k < g.ops.len(),
        0 <= b < g.blocks.len(),
    ensures
        g.insert_op(k, b, before).linked(),
        g.wf() ==> g.insert_op(k, b, before).wf(),
{
    let h = g.insert_op(k, b, before);
    let at = Graph::place_before(g.blocks[b], before);
    lemma_place_before(g.blocks[b], before);
    assert forall|u: int| #[trigger] h.live(u) <==> g.live(u) by {}
    assert forall|u: int| #[trigger] h.is_input(u) <==> g.is_input(u) by {}
    assert(h.varnodes_sound() && (g.wf() ==> h.sized()));
    assert(g.wf() ==> h.inputs_disjoint());
    assert(h.reads_sound()) by {
        assert forall|j: int, s: int|
            0 <= j < h.ops.len() && 0 <= s < h.ops[j].inputs.len() && (
            #[trigger] h.ops[j].inputs[s]) is Some implies h.live(h.ops[j].inputs[s]->0) by {
            assert(g.live(g.ops[j].inputs[s]->0));
        }
    }
    assert(h.writes_sound()) by {
        assert forall|u: int| #[trigger] h.live(u) && h.vn(u).origin is Written implies {
            let j = h.vn(u).origin->Written_0;
            0 <= j < h.ops.len() && h.ops[j].output == Some(u)
        } by {
            assert(g.live(u));
        }
    }
    assert(h.blocks_sound()) by {
        assert forall|c: int, i: int|
            0 <= c < h.blocks.len() && 0 <= i < h.blocks[c].len() implies 0 <= (
        #[trigger] h.blocks[c][i]) < h.ops.len() by {
            if c != b {
                assert(h.blocks[c] == g.blocks[c]);
                assert(0 <= g.blocks[c][i] < g.ops.len());
            } else if i < at {
                assert(h.blocks[b][i] == g.blocks[b][i]);
            } else if i > at {
                assert(h.blocks[b][i] == g.blocks[b][i - 1]);
            }
        }
    }
}

/// A temporary can be taken.
pub proof fn lemma_take_unique(g: Graph, size: int)
    requires
        g.linked(),
    ensures
        g.take_unique(size).linked(),
        g.wf() ==> g.take_unique(size).wf(),
{
    let h = g.take_unique(size);
    assert forall|u: int| #[trigger] h.live(u) <==> g.live(u) by {}
    assert forall|u: int| #[trigger] h.is_input(u) <==> g.is_input(u) by {}
    assert(h.varnodes_sound() && (g.wf() ==> h.sized()));
    assert(g.wf() ==> h.inputs_disjoint());
    assert(h.reads_sound());
    assert(h.writes_sound()) by {
        assert forall|u: int| #[trigger] h.live(u) && h.vn(u).origin is Written implies {
            let j = h.vn(u).origin->Written_0;
            0 <= j < h.ops.len() && h.ops[j].output == Some(u)
        } by {
            assert(g.live(u));
        }
    }
    assert(h.blocks_sound());
}

/// The storage of an input names it.
pub proof fn lemma_input_at_unique(g: Graph, u: int, v: int)
    requires
        g.wf(),
        g.is_input(u),
        g.is_input(v),
        g.vn(u).is_at(g.vn(v).base, g.vn(v).offset, g.vn(v).size),
    ensures
        u == v,
{
    assert(g.live(u) && g.live(v));
    if u != v {
        assert(!g.vn(u).overlaps(g.vn(v)));
    }
}

/// An input of a storage is found, and the one that is found was made last.
pub proof fn lemma_input_among(
    g: Graph,
    n: int,
    base: Option<AddrSpace>,
    offset: int,
    size: int,
)
    requires
        0 <= n <= g.varnodes.len(),
    ensures
        match g.input_among(n, base, offset, size) {
            Some(v) => {
                &&& v < n
                &&& g.is_input_at(v, base, offset, size)
                &&& forall|u: int|
                    u < n && #[trigger] g.is_input_at(u, base, offset, size) ==> u <= v
            },
            None => forall|u: int| u < n ==> !(#[trigger] g.is_input_at(u, base, offset, size)),
        },
    decreases n,
{
    if n > 0 && !g.is_input_at(n - 1, base, offset, size) {
        lemma_input_among(g, n - 1, base, offset, size);
    }
}

/// What is found of a storage: an input that occupies it, made after all others that
/// do; nothing, where there is none.
pub proof fn lemma_input_at(g: Graph, base: Option<AddrSpace>, offset: int, size: int)
    ensures
        match g.input_at(base, offset, size) {
            Some(v) => {
                &&& g.is_input_at(v, base, offset, size)
                &&& forall|u: int| #[trigger] g.is_input_at(u, base, offset, size) ==> u <= v
            },
            None => forall|u: int| !(#[trigger] g.is_input_at(u, base, offset, size)),
        },
{
    lemma_input_among(g, g.varnodes.len() as int, base, offset, size);
}

/// A slice of a varnode can be added.
pub proof fn lemma_add_slice(g: Graph, addr: Address, source: int, skip: int, out: Vn)
    requires
        g.linked(),
        g.live(source),
        0 <= skip < offsets(),
        0 < out.size <= i32::MAX,
        0 <= out.offset < offsets(),
    ensures
        g.add_slice(addr, source, skip, out).linked(),
        g.wf() ==> g.add_slice(addr, source, skip, out).wf(),
{
    let n = g.varnodes.len() as int;
    let k = g.ops.len() as int;
    let cut = Vn { origin: Origin::Written(k), ..out };
    let blank = Op {
        code: OpCode::CPUI_SUBPIECE,
        addr,
        inputs: seq![None::<int>, None::<int>],
        output: None,
    };
    let g1 = g.add_op(blank);
    lemma_add_op(g, blank);
    let g2 = g1.add_varnode(cut).set_op(k, Op { output: Some(n), ..g1.ops[k] });
    lemma_give_output(g1, k, cut);
    let g3 = g2.add_varnode(g.constant_vn(4, skip));
    lemma_add_varnode(g2, g.constant_vn(4, skip));
    let full = Op { inputs: seq![Some(source), Some(n + 1)], ..g3.ops[k] };
    assert(g3.varnodes[source] == g.varnodes[source]);
    assert(g3.live(source) && g3.live(n + 1));
    lemma_set_op(g3, k, full);
    assert(g3.set_op(k, full) =~= g.add_slice(addr, source, skip, out));
}

/// A join of two varnodes can be added.
pub proof fn lemma_add_piece(g: Graph, addr: Address, hi: int, lo: int, out: Vn)
    requires
        g.linked(),
        g.live(hi),
        g.live(lo),
        0 < out.size <= i32::MAX,
        0 <= out.offset < offsets(),
    ensures
        g.add_piece(addr, hi, lo, out).linked(),
        g.wf() ==> g.add_piece(addr, hi, lo, out).wf(),
{
    let n = g.varnodes.len() as int;
    let k = g.ops.len() as int;
    let whole = Vn { origin: Origin::Written(k), ..out };
    let blank = Op {
        code: OpCode::CPUI_PIECE,
        addr,
        inputs: seq![None::<int>, None::<int>],
        output: None,
    };
    let g1 = g.add_op(blank);
    lemma_add_op(g, blank);
    let g2 = g1.add_varnode(whole).set_op(k, Op { output: Some(n), ..g1.ops[k] });
    lemma_give_output(g1, k, whole);
    let full = Op { inputs: seq![Some(hi), Some(lo)], ..g2.ops[k] };
    assert(g2.varnodes[hi] == g.varnodes[hi] && g2.varnodes[lo] == g.varnodes[lo]);
    assert(g2.live(hi) && g2.live(lo));
    lemma_set_op(g2, k, full);
    assert(g2.set_op(k, full) =~= g.add_piece(addr, hi, lo, out));
}

/// What folding two adjacent inputs makes of the numbers: which varnodes there are
/// after it, and which operations.
pub proof fn lemma_combine_shape(g: Graph, hi: int, lo: int)
    requires
        g.linked(),
        g.is_input(hi),
        g.is_input(lo),
        g.adjacent(hi, lo),
    ensures
        ({
            let h = g.combine(hi, lo);
            let j = g.varnodes.len() as int;
            let m = g.ops.len() as int;
            let cut_hi = g.read_apart(hi, hi, lo);
            let cut_lo = g.read_apart(lo, hi, lo);
            let lo_cut = if cut_hi {
                j + 3
            } else {
                j + 1
            };
            let lo_op = if cut_hi {
                m + 1
            } else {
                m
            };
            &&& h.varnodes.len() == lo_cut + (if cut_lo {
                2int
            } else {
                0
            })
            &&& h.ops.len() == lo_op + (if cut_lo {
                1int
            } else {
                0
            })
            &&& h.varnodes[j] == Some(g.joined_vn(hi, lo))
            &&& forall|v: int|
                0 <= v < j ==> #[trigger] h.varnodes[v] == (if v == hi || v == lo {
                    None
                } else {
                    g.varnodes[v]
                })
            &&& forall|k: int|
                0 <= k < m ==> #[trigger] h.ops[k] == g.ops[k].rewired(hi, lo, j, j + 1, lo_cut)
            &&& cut_hi ==> {
                &&& h.varnodes[j + 1] == Some(
                    Vn { origin: Origin::Written(m), write_mask: true, ..g.vn(hi) },
                )
                &&& h.varnodes[j + 2] == Some(g.constant_vn(4, g.vn(lo).size))
                &&& h.ops[m] == Op {
                    code: OpCode::CPUI_SUBPIECE,
                    addr: g.address,
                    inputs: seq![Some(j), Some(j + 2)],
                    output: Some(j + 1),
                }
            }
            &&& cut_lo ==> {
                &&& h.varnodes[lo_cut] == Some(
                    Vn { origin: Origin::Written(lo_op), write_mask: true, ..g.vn(lo) },
                )
                &&& h.varnodes[lo_cut + 1] == Some(g.constant_vn(4, 0))
                &&& h.ops[lo_op] == Op {
                    code: OpCode::CPUI_SUBPIECE,
                    addr: g.address,
                    inputs: seq![Some(j), Some(lo_cut + 1)],
                    output: Some(lo_cut),
                }
            }
            &&& h.start == g.start
            &&& h.next_unique == g.next_unique
            &&& h.address == g.address
            &&& h.constant == g.constant
            &&& h.unique == g.unique
        }),
{
    assert(g.live(hi) && g.live(lo));
}

/// Two adjacent inputs can be folded into one, where its size can be written down and
/// what is read of them apart can be cut from it.
pub proof fn lemma_combine(g: Graph, hi: int, lo: int)
    requires
        g.linked(),
        g.is_input(hi),
        g.is_input(lo),
        g.adjacent(hi, lo),
        g.cuttable(hi, lo),
        g.vn(hi).size + g.vn(lo).size <= i32::MAX,
    ensures
        g.combine(hi, lo).linked(),
        g.wf() ==> g.combine(hi, lo).wf(),
{
    let h = g.combine(hi, lo);
    let j = g.varnodes.len() as int;
    let m = g.ops.len() as int;
    let cut_hi = g.read_apart(hi, hi, lo);
    let cut_lo = g.read_apart(lo, hi, lo);
    let lo_cut = if cut_hi {
        j + 3
    } else {
        j + 1
    };
    lemma_combine_shape(g, hi, lo);
    assert(g.live(hi) && g.live(lo));
    assert forall|v: int| #[trigger] g.live(v) && v != hi && v != lo implies h.live(v) && h.vn(v)
        == g.vn(v) by {
        assert(h.varnodes[v] == g.varnodes[v]);
    }
    assert forall|v: int| #[trigger] h.live(v) && v < j implies g.live(v) && v != hi && v != lo
        && h.vn(v) == g.vn(v) by {
        assert(h.varnodes[v] is Some);
    }
    assert(h.live(j) && h.vn(j) == g.joined_vn(hi, lo));
    assert forall|v: int| #[trigger] h.is_input(v) implies v == j || (v < j && g.is_input(v)) by {
        assert(h.live(v));
        if v < j {
            assert(g.live(v));
        }
    }
    assert(h.varnodes_sound() && (g.wf() ==> h.sized())) by {
        assert forall|v: int| #[trigger] h.live(v) implies i32::MIN <= h.vn(v).size
            <= i32::MAX && 0 <= h.vn(v).offset < offsets() && (g.wf() ==> h.vn(v).size > 0) by {
            if v < j {
                assert(g.live(v));
            }
        }
        assert forall|v: int| #[trigger] h.is_input(v) implies h.vn(v).base is Some by {
            if v < j {
                assert(h.live(v));
                assert(g.is_input(v));
            }
        }
    }
    assert(g.wf() ==> h.inputs_disjoint()) by {
        assert forall|u: int, v: int| g.wf() && #[trigger]
            h.is_input(u) && #[trigger] h.is_input(v) && u != v implies !h.vn(u).overlaps(
            h.vn(v),
        ) by {
            assert(h.live(u) && h.live(v));
            if u < j {
                assert(g.is_input(u));
                assert(!g.vn(u).overlaps(g.vn(hi)) && !g.vn(u).overlaps(g.vn(lo)));
            }
            if v < j {
                assert(g.is_input(v));
                assert(!g.vn(v).overlaps(g.vn(hi)) && !g.vn(v).overlaps(g.vn(lo)));
            }
        }
    }
    assert(h.reads_sound()) by {
        assert forall|k: int, s: int|
            0 <= k < h.ops.len() && 0 <= s < h.ops[k].inputs.len() && (
            #[trigger] h.ops[k].inputs[s]) is Some implies h.live(h.ops[k].inputs[s]->0) by {
            if k < m {
                let op = g.ops[k];
                assert(h.ops[k] == op.rewired(hi, lo, j, j + 1, lo_cut));
                if !op.joins(hi, lo) {
                    assert(op.inputs[s] is Some);
                    let v = op.inputs[s]->0;
                    assert(g.live(v));
                    assert(op.reads(v));
                }
            }
        }
    }
    assert(h.writes_sound()) by {
        assert forall|k: int| 0 <= k < h.ops.len() && (#[trigger] h.ops[k]).output is Some implies {
            let v = h.ops[k].output->0;
            h.live(v) && h.vn(v).origin == Origin::Written(k)
        } by {
            if k < m {
                assert(h.ops[k] == g.ops[k].rewired(hi, lo, j, j + 1, lo_cut));
                assert(g.ops[k].output is Some);
                assert(g.live(g.ops[k].output->0));
            }
        }
        assert forall|v: int| #[trigger] h.live(v) && h.vn(v).origin is Written implies {
            let k = h.vn(v).origin->Written_0;
            0 <= k < h.ops.len() && h.ops[k].output == Some(v)
        } by {
            if v < j {
                assert(g.live(v));
                let k = g.vn(v).origin->Written_0;
                assert(h.ops[k] == g.ops[k].rewired(hi, lo, j, j + 1, lo_cut));
            }
        }
    }
    lemma_combine_blocks(g, hi, lo);
}

/// Folding keeps the blocks sound.
proof fn lemma_combine_blocks(g: Graph, hi: int, lo: int)
    requires
        g.linked(),
        g.is_input(hi),
        g.is_input(lo),
        g.adjacent(hi, lo),
        g.cuttable(hi, lo),
    ensures
        g.combine(hi, lo).blocks_sound(),
{
    let j = g.varnodes.len() as int;
    let g1 = g.destroy(hi).destroy(lo).add_varnode(g.joined_vn(hi, lo));
    assert(g.blocks_sound());
    assert(g1.blocks_sound());
    let g2 = if g.read_apart(hi, hi, lo) {
        g1.cut_back(j, g.vn(lo).size, g.vn(hi))
    } else {
        g1
    };
    if g.read_apart(hi, hi, lo) {
        lemma_cut_back_blocks(g1, j, g.vn(lo).size, g.vn(hi));
    }
    if g.read_apart(lo, hi, lo) {
        lemma_cut_back_blocks(g2, j, 0, g.vn(lo));
    }
}

/// Cutting a varnode back keeps the blocks sound.
proof fn lemma_cut_back_blocks(g: Graph, source: int, skip: int, vn: Vn)
    requires
        g.blocks_sound(),
        g.start is Some,
    ensures
        g.cut_back(source, skip, vn).blocks_sound(),
{
    let h = g.cut_back(source, skip, vn);
    let b = g.start->0;
    let at = Graph::place_before(g.blocks[b], g.head(b));
    lemma_place_before(g.blocks[b], g.head(b));
    assert forall|c: int, i: int|
        0 <= c < h.blocks.len() && 0 <= i < h.blocks[c].len() implies 0 <= (
    #[trigger] h.blocks[c][i]) < h.ops.len() by {
        if c != b {
            assert(h.blocks[c] == g.blocks[c]);
            assert(0 <= g.blocks[c][i] < g.ops.len());
        } else if i < at {
            assert(h.blocks[b][i] == g.blocks[b][i]);
        } else if i > at {
            assert(h.blocks[b][i] == g.blocks[b][i - 1]);
        }
    }
}

} // verus!
