//! The value that a range of storage holds when the function is entered.
//!
//! Renaming asks for it with the size and the address of a read.  An input that
//! occupies exactly that storage answers the request, and so does a new one, where
//! no input has a byte in it.  Else inputs are in the way.  Those that renaming
//! passes over can be folded into one, since renaming holds none of them.  A live
//! input may be held by renaming, so it is never destroyed: its bytes are sliced
//! off, the bytes that no input has become new inputs, and the requested value is
//! joined from all of them where the function is entered.

use crate::address::Address;
use crate::fold::{combine_covered_pieces, combined};
use crate::funcdata::{inputs_among, inputs_of, Funcdata};
use crate::graph::Graph;
use crate::laws::{law_answer_storage, law_live_inputs_survive};
use crate::op::id_view;
use crate::plan::{covered_plan, overlapping_plan};
use crate::rebuild::{compose_overlapping_inputs, composed};
use crate::request::{contested, lemma_contested_unplanned, requested};
use crate::soundness::lemma_input_at;
use crate::varnode::{Origin, VarnodeId, Vn};
use vstd::prelude::*;

verus! {

/// The input that occupies exactly the requested storage, if there is one.
pub open spec fn input_for(g: Graph, size: int, addr: Address) -> Option<int> {
    g.input_at(addr.base, addr.offset as int, size)
}

/// The function with the next name given to a varnode that was destroyed again.
pub open spec fn name_spent(g: Graph) -> Graph {
    Graph { varnodes: g.varnodes.push(None), ..g }
}

/// The function after a request for `size` bytes at `addr`, and the number of the
/// varnode that answers it, if there is one.
pub open spec fn tiled_input(g: Graph, size: int, addr: Address) -> (Graph, Option<int>) {
    let n = g.varnodes.len() as int;
    let vn = requested(size, addr);
    if size <= 0 {
        (g, None)
    } else if input_for(g, size, addr) is Some {
        (g.add_varnode(vn), input_for(g, size, addr))
    } else if addr.base is Some && !g.meets_input(vn) {
        (g.add_varnode(Vn { origin: Origin::Input, ..vn }), Some(n))
    } else {
        let g1 = name_spent(g);
        match covered_plan(inputs_of(g), size, addr) {
            Some(plan) => combined(g1, plan, addr),
            None => match (overlapping_plan(inputs_of(g), size, addr), g.start) {
                (Some(plan), Some(_)) => {
                    let (h, v) = composed(g1, plan, size, addr);
                    (h, Some(v))
                },
                _ => (g1, None),
            },
        }
    }
}

/// The inputs among the first varnodes do not depend on the others.
proof fn lemma_inputs_among_same(a: Seq<Option<Vn>>, b: Seq<Option<Vn>>, n: int)
    requires
        n <= a.len(),
        n <= b.len(),
        forall|v: int| 0 <= v < n ==> a[v] == #[trigger] b[v],
    ensures
        inputs_among(a, n) == inputs_among(b, n),
    decreases n,
{
    if n > 0 {
        lemma_inputs_among_same(a, b, n - 1);
        assert(a[n - 1] == b[n - 1]);
    }
}

/// A spent name is no input.
pub proof fn lemma_name_spent_inputs(g: Graph)
    ensures
        inputs_of(name_spent(g)) == inputs_of(g),
{
    let n = g.varnodes.len() as int;
    let h = name_spent(g);
    assert(h.varnodes[n] is None);
    lemma_inputs_among_same(h.varnodes, g.varnodes, n);
}

/// The value of `size` bytes at `addr` that enters the function.
///
/// The input of exactly that storage is tried first, made where nothing is in its
/// way.  Where all inputs in the way lie in the request and are passed over by
/// renaming, they are folded into one; any other overlap is rebuilt from the inputs,
/// none of which is destroyed.  The answer has exactly the requested storage, and no
/// varnode is destroyed or changed but the inputs that are folded.  Where two inputs in
/// the way share storage, there is no answer, and nothing but a name is spent.
pub fn new_tiled_input(fd: &mut Funcdata, size: i32, addr: &Address) -> (result: Option<VarnodeId>)
    requires
        old(fd)@.linked(),
    ensures
        final(fd)@.linked(),
        old(fd)@.wf() ==> final(fd)@.wf(),
        (final(fd)@, id_view(result)) == tiled_input(old(fd)@, size as int, *addr),
        size > 0 && input_for(old(fd)@, size as int, *addr) is None && contested(
            old(fd)@,
            size as int,
            *addr,
        ) ==> result is None && final(fd)@ == name_spent(old(fd)@),
        old(fd)@.wf() ==> (result matches Some(id) ==> {
            let v = id.0 as int;
            &&& final(fd)@.live(v)
            &&& final(fd)@.vn(v).is_at(addr.base, addr.offset as int, size as int)
        }),
        old(fd)@.wf() ==> forall|v: int| #[trigger]
            old(fd)@.live(v) ==> {
                let vn = old(fd)@.vn(v);
                ||| final(fd)@.live(v) && final(fd)@.vn(v) == vn
                ||| {
                    &&& vn.origin == Origin::Input
                    &&& vn.write_mask
                    &&& vn.base == addr.base
                    &&& addr.offset <= vn.offset
                    &&& vn.end() <= addr.offset + size
                }
            },
{
    let ghost g = fd@;
    proof {
        if g.wf() {
            assert forall|v: int| #[trigger] g.live(v) implies {
                let h = tiled_input(g, size as int, *addr).0;
                ||| h.live(v) && h.vn(v) == g.vn(v)
                ||| {
                    &&& g.is_input(v)
                    &&& g.vn(v).write_mask
                    &&& g.vn(v).base == addr.base
                    &&& addr.offset <= g.vn(v).offset
                    &&& g.vn(v).end() <= addr.offset + size
                }
            } by {
                law_live_inputs_survive(g, size as int, *addr, v);
            }
            if tiled_input(g, size as int, *addr).1 is Some {
                law_answer_storage(g, size as int, *addr);
            }
        }
        if size > 0 && contested(g, size as int, *addr) {
            lemma_contested_unplanned(g, size as int, *addr);
            let u = choose|u: int| #[trigger]
                g.is_input(u) && g.vn(u).overlaps(requested(size as int, *addr));
            assert(g.is_input(u));
        }
    }
    if size <= 0 {
        return None;
    }
    let ghost n = g.varnodes.len() as int;
    let ghost vn = requested(size as int, *addr);
    let candidate: VarnodeId = fd.new_varnode(size, addr);
    let ghost mid = fd@;
    proof {
        assert(mid.live(n));
        assert forall|u: int| #[trigger] mid.is_input(u) <==> g.is_input(u) by {}
        assert forall|u: int| #[trigger] g.is_input(u) implies mid.vn(u) == g.vn(u) by {}
        assert forall|u: int|
            #[trigger] mid.is_input_at(u, vn.base, vn.offset, vn.size) <==> g.is_input_at(
                u,
                vn.base,
                vn.offset,
                vn.size,
            ) by {
            assert(mid.is_input(u) <==> g.is_input(u));
        }
        lemma_input_at(mid, vn.base, vn.offset, vn.size);
        lemma_input_at(g, vn.base, vn.offset, vn.size);
        assert(mid.input_at(vn.base, vn.offset, vn.size) == input_for(g, size as int, *addr)) by {
            if let Some(u) = mid.input_at(vn.base, vn.offset, vn.size) {
                assert(g.is_input_at(u, vn.base, vn.offset, vn.size));
            }
            if let Some(u) = input_for(g, size as int, *addr) {
                assert(mid.is_input_at(u, vn.base, vn.offset, vn.size));
            }
        }
        if let Some(u) = input_for(g, size as int, *addr) {
            assert(g.is_input(u));
        }
        assert(mid.meets_input(vn) <==> g.meets_input(vn)) by {
            if mid.meets_input(vn) {
                let u = choose|u: int| #[trigger] mid.is_input(u) && mid.vn(u).overlaps(vn);
                assert(g.is_input(u));
            }
            if g.meets_input(vn) {
                let u = choose|u: int| #[trigger] g.is_input(u) && g.vn(u).overlaps(vn);
                assert(mid.is_input(u));
            }
        }
    }
    match fd.set_input_varnode(candidate) {
        Ok(id) => {
            proof {
                if input_for(g, size as int, *addr) is None {
                    assert(fd@ =~= g.add_varnode(Vn { origin: Origin::Input, ..vn }));
                }
            }
            return Some(id);
        },
        Err(_) => {
            proof {
                if mid.is_read(n) {
                    let k = choose|k: int| 0 <= k < mid.ops.len() && #[trigger] mid.ops[k].reads(n);
                    let s = choose|s: int|
                        0 <= s < mid.ops[k].inputs.len() && #[trigger] mid.ops[k].inputs[s] == Some(
                            n,
                        );
                    assert(g.ops[k].inputs[s] is Some);
                    assert(g.live(n));
                }
            }
            // The request was refused before anything changed: the candidate is free
            // and nothing reads it.
            let _ = fd.delete_varnode(candidate);
            assert(fd@ =~= name_spent(g));
        },
    }
    proof {
        lemma_name_spent_inputs(g);
    }
    match combine_covered_pieces(fd, size, addr) {
        Some(id) => Some(id),
        None => compose_overlapping_inputs(fd, size, addr),
    }
}

} // verus!
