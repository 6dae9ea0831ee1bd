//! Which way a request goes, and what later requests make of its answer.

use crate::address::Address;
use crate::fold::fold_outcome;
use crate::funcdata::inputs_of;
use crate::gathered::{
    is_exact, law_fold_covers, law_fold_goes_through, law_fold_grows, law_fold_placed,
    law_fold_planned,
};
use crate::graph::{offsets, Graph};
use crate::inputtile::{input_for, lemma_name_spent_inputs, name_spent, tiled_input};
use crate::laws::{law_live_inputs_survive, law_request_keeps_sound, lemma_name_spent};
use crate::plan::covered_plan;
use crate::rebuild::rebuild_outcome;
use crate::rebuilt::{
    in_the_way, inside, law_rebuild_inputs, law_rebuild_keeps, law_rebuild_placed,
    law_rebuild_when, placed,
};
use crate::request::requested;
use crate::soundness::lemma_input_at;
use crate::varnode::{Origin, Vn};
use vstd::prelude::*;

verus! {

/// The function with a name given out that names nothing.
pub open spec fn with_spent_name(g: Graph) -> Graph {
    Graph { varnodes: g.varnodes.push(None), ..g }
}

/// The function with one more varnode of the requested storage, which renaming does not
/// pass over.
pub open spec fn with_requested(g: Graph, size: int, addr: Address, origin: Origin) -> Graph {
    Graph {
        varnodes: g.varnodes.push(
            Some(
                Vn { base: addr.base, offset: addr.offset as int, size, origin, write_mask: false },
            ),
        ),
        ..g
    }
}

/// Whether all inputs that have a byte in the request lie in it and are passed over by
/// renaming.
pub open spec fn way_passed_over(g: Graph, size: int, addr: Address) -> bool {
    forall|v: int| #[trigger]
        in_the_way(g, size, addr, v) ==> g.vn(v).write_mask && inside(g.vn(v), size, addr)
}

/// How a request starts, also where inputs have no storage, or share it.  One that asks for
/// nothing changes nothing.  The input of the requested storage that was made last is the
/// answer; a free varnode of that storage is left over.  Where no input has a byte in the
/// request, a new input is the answer, which renaming does not pass over.
pub proof fn law_request_starts(g: Graph, size: int, addr: Address)
    ensures
        size <= 0 ==> tiled_input(g, size, addr) == (g, None::<int>),
        size > 0 && (exists|u: int| #[trigger] is_exact(g, size, addr, u)) ==> {
            let (h, answer) = tiled_input(g, size, addr);
            &&& h == with_requested(g, size, addr, Origin::Free)
            &&& answer is Some
            &&& is_exact(g, size, addr, answer->0)
            &&& forall|u: int| #[trigger] is_exact(g, size, addr, u) ==> u <= answer->0
        },
        size > 0 && addr.base is Some && (forall|v: int|
            !(#[trigger] in_the_way(g, size, addr, v))) ==> tiled_input(g, size, addr) == (
            with_requested(g, size, addr, Origin::Input),
            Some(g.varnodes.len() as int),
        ),
{
    let want = requested(size, addr);
    lemma_input_at(g, addr.base, addr.offset as int, size);
    assert forall|u: int|
        is_exact(g, size, addr, u) <==> #[trigger] g.is_input_at(
            u,
            addr.base,
            addr.offset as int,
            size,
        ) by {}
    assert forall|u: int| #[trigger] is_exact(g, size, addr, u) implies g.is_input_at(
        u,
        addr.base,
        addr.offset as int,
        size,
    ) by {}
    if let Some(u) = input_for(g, size, addr) {
        assert(g.is_input_at(u, addr.base, addr.offset as int, size));
        assert(is_exact(g, size, addr, u));
        assert(size > 0 ==> in_the_way(g, size, addr, u));
    }
    if g.meets_input(want) {
        let u = choose|u: int| #[trigger] g.is_input(u) && g.vn(u).overlaps(want);
        assert(in_the_way(g, size, addr, u));
    }
}

/// Which way a request goes.  One that asks for nothing changes nothing.  An input of the
/// requested storage is the answer; a free varnode of that storage is left over.  Where no
/// input has a byte in the request, a new input is the answer, which renaming does not pass
/// over.  Else a name is spent; where all inputs in the way lie in the request and are
/// passed over by renaming, they are folded, and in any other way the value is rebuilt.
pub proof fn law_request_course(g: Graph, size: int, addr: Address)
    requires
        g.wf(),
        size <= i32::MAX,
    ensures
        size <= 0 ==> tiled_input(g, size, addr) == (g, None::<int>),
        size > 0 && (exists|u: int| #[trigger] is_exact(g, size, addr, u)) ==> {
            let (h, answer) = tiled_input(g, size, addr);
            &&& h == with_requested(g, size, addr, Origin::Free)
            &&& answer is Some
            &&& is_exact(g, size, addr, answer->0)
        },
        size > 0 && addr.base is Some && (forall|v: int|
            !(#[trigger] in_the_way(g, size, addr, v))) ==> tiled_input(g, size, addr) == (
            with_requested(g, size, addr, Origin::Input),
            Some(g.varnodes.len() as int),
        ),
        size > 0 && (forall|u: int| !(#[trigger] is_exact(g, size, addr, u))) && (addr.base is None
            || exists|v: int| #[trigger] in_the_way(g, size, addr, v)) ==> tiled_input(
            g,
            size,
            addr,
        ) == (if way_passed_over(g, size, addr) {
            fold_outcome(with_spent_name(g), size, addr)
        } else {
            rebuild_outcome(with_spent_name(g), size, addr)
        }),
{
    let want = requested(size, addr);
    let spent = with_spent_name(g);
    lemma_input_at(g, addr.base, addr.offset as int, size);
    assert forall|u: int|
        is_exact(g, size, addr, u) <==> #[trigger] g.is_input_at(
            u,
            addr.base,
            addr.offset as int,
            size,
        ) by {}
    if let Some(u) = input_for(g, size, addr) {
        assert(g.is_input_at(u, addr.base, addr.offset as int, size));
        assert(is_exact(g, size, addr, u));
        assert(g.live(u));
        assert(size > 0 ==> in_the_way(g, size, addr, u));
    }
    if exists|u: int| #[trigger] is_exact(g, size, addr, u) {
        let u = choose|u: int| #[trigger] is_exact(g, size, addr, u);
        assert(g.is_input_at(u, addr.base, addr.offset as int, size));
    }
    assert(g.meets_input(want) <==> exists|v: int| #[trigger] in_the_way(g, size, addr, v)) by {
        if g.meets_input(want) {
            let u = choose|u: int| #[trigger] g.is_input(u) && g.vn(u).overlaps(want);
            assert(in_the_way(g, size, addr, u));
        }
        if exists|v: int| #[trigger] in_the_way(g, size, addr, v) {
            let v = choose|v: int| #[trigger] in_the_way(g, size, addr, v);
            assert(g.is_input(v));
        }
    }
    if size > 0 && (forall|u: int| !(#[trigger] is_exact(g, size, addr, u))) && (addr.base is None
        || exists|v: int| #[trigger] in_the_way(g, size, addr, v)) {
        assert(name_spent(g) == spent);
        lemma_name_spent(g);
        lemma_name_spent_inputs(g);
        law_fold_planned(g, size, addr);
        law_rebuild_when(spent, size, addr);
        assert forall|v: int| #[trigger] spent.is_input(v) <==> g.is_input(v) by {}
        assert forall|v: int| #[trigger] g.is_input(v) implies spent.vn(v) == g.vn(v) by {}
        assert forall|v: int| #[trigger] in_the_way(spent, size, addr, v) <==> in_the_way(
            g,
            size,
            addr,
            v,
        ) by {
            assert(spent.is_input(v) <==> g.is_input(v));
        }
        assert forall|v: int| #[trigger] in_the_way(g, size, addr, v) implies in_the_way(
            spent,
            size,
            addr,
            v,
        ) by {
            assert(in_the_way(spent, size, addr, v));
        }
        if way_passed_over(g, size, addr) {
            if covered_plan(inputs_of(g), size, addr) is None {
                // Some end is no offset, so the value cannot be rebuilt either.
                if rebuild_outcome(spent, size, addr).1 is Some {
                    assert forall|v: int| #[trigger]
                        g.is_input(v) && g.vn(v).base == addr.base implies g.vn(v).offset + g.vn(
                        v,
                    ).size < offsets() by {
                        assert(spent.is_input(v));
                    }
                }
            }
        }
    }
}

/// A request that is refused, unless it was folding inputs, leaves the function as it was;
/// if it asked for bytes at all, a name is spent.
pub proof fn law_request_refused(g: Graph, size: int, addr: Address)
    requires
        g.wf(),
        size <= i32::MAX,
        tiled_input(g, size, addr).1 is None,
        g.start is Some || !way_passed_over(g, size, addr) || forall|v: int|
            !(#[trigger] in_the_way(g, size, addr, v)),
    ensures
        tiled_input(g, size, addr).0 == (if size <= 0 {
            g
        } else {
            with_spent_name(g)
        }),
{
    law_request_course(g, size, addr);
    if size > 0 {
        let spent = with_spent_name(g);
        assert(name_spent(g) == spent);
        lemma_name_spent(g);
        law_rebuild_when(spent, size, addr);
        law_fold_planned(spent, size, addr);
        if covered_plan(inputs_of(spent), size, addr) is Some {
            law_fold_goes_through(spent, size, addr);
            let v = choose|v: int| #[trigger] in_the_way(spent, size, addr, v);
            assert(in_the_way(g, size, addr, v));
        }
    }
}

/// A spent name changes nothing of the inputs.
proof fn lemma_spent_same(g: Graph, size: int, addr: Address)
    requires
        g.wf(),
    ensures
        with_spent_name(g).wf(),
        forall|u: int|
            is_exact(with_spent_name(g), size, addr, u) <==> #[trigger] is_exact(g, size, addr, u),
        forall|u: int|
            #[trigger] in_the_way(with_spent_name(g), size, addr, u) <==> in_the_way(
                g,
                size,
                addr,
                u,
            ),
{
    let spent = with_spent_name(g);
    assert(name_spent(g) == spent);
    lemma_name_spent(g);
    assert forall|v: int| #[trigger] spent.is_input(v) <==> g.is_input(v) by {}
    assert forall|v: int| #[trigger] g.is_input(v) implies spent.vn(v) == g.vn(v) by {}
    assert forall|u: int| is_exact(spent, size, addr, u) <==> #[trigger] is_exact(
        g,
        size,
        addr,
        u,
    ) by {
        assert(spent.is_input(u) <==> g.is_input(u));
    }
    assert forall|u: int| #[trigger] in_the_way(spent, size, addr, u) <==> in_the_way(
        g,
        size,
        addr,
        u,
    ) by {
        assert(spent.is_input(u) <==> g.is_input(u));
    }
}

/// The inputs that a request adds are live ones, which renaming does not pass over, unless
/// all inputs in the way were passed over, so that they were folded.
pub proof fn law_request_inputs_live(g: Graph, size: int, addr: Address)
    requires
        g.wf(),
        size <= i32::MAX,
        !way_passed_over(g, size, addr) || forall|v: int|
            !(#[trigger] in_the_way(g, size, addr, v)),
    ensures
        ({
            let h = tiled_input(g, size, addr).0;
            forall|u: int|
                u >= g.varnodes.len() && #[trigger] h.is_input(u) ==> !h.vn(u).write_mask && inside(
                    h.vn(u),
                    size,
                    addr,
                )
        }),
{
    let h = tiled_input(g, size, addr).0;
    law_request_course(g, size, addr);
    if size > 0 {
        let spent = with_spent_name(g);
        lemma_spent_same(g, size, addr);
        if exists|u: int| #[trigger] is_exact(g, size, addr, u) {
        } else if !way_passed_over(g, size, addr) {
            let v = choose|v: int| #[trigger]
                in_the_way(g, size, addr, v) && !(g.vn(v).write_mask && inside(
                    g.vn(v),
                    size,
                    addr,
                ));
            assert(in_the_way(g, size, addr, v));
            law_rebuild_when(spent, size, addr);
            if rebuild_outcome(spent, size, addr).1 is Some {
                law_rebuild_inputs(spent, size, addr);
                law_rebuild_keeps(spent, size, addr);
                assert(h.varnodes[g.varnodes.len() as int] is None);
            }
        } else if addr.base is None {
            law_fold_planned(spent, size, addr);
        }
    }
}

/// What a request adds that does not fold inputs survives every later request: renaming
/// may hold its answer, and whatever the answer is made of.
pub proof fn law_added_survives(
    g: Graph,
    size: int,
    addr: Address,
    later_size: int,
    later_addr: Address,
    v: int,
)
    requires
        g.wf(),
        size <= i32::MAX,
        later_size <= i32::MAX,
        !way_passed_over(g, size, addr) || forall|v: int|
            !(#[trigger] in_the_way(g, size, addr, v)),
        v >= g.varnodes.len(),
        tiled_input(g, size, addr).0.live(v),
    ensures
        ({
            let h = tiled_input(g, size, addr).0;
            let later = tiled_input(h, later_size, later_addr).0;
            later.live(v) && later.vn(v) == h.vn(v)
        }),
{
    let h = tiled_input(g, size, addr).0;
    law_request_inputs_live(g, size, addr);
    law_request_keeps_sound(g, size, addr);
    law_live_inputs_survive(h, later_size, later_addr, v);
    if h.is_input(v) {
        assert(!h.vn(v).write_mask);
    }
}

/// The operations that a request adds, whichever way it goes, stand exactly once where the
/// function is entered, ahead of all that stood there, each behind those that write its
/// operands; and what there was of blocks stays.
pub proof fn law_request_placed(g: Graph, size: int, addr: Address)
    requires
        g.wf(),
        size <= i32::MAX,
    ensures
        placed(g, tiled_input(g, size, addr).0),
{
    let h = tiled_input(g, size, addr).0;
    law_request_course(g, size, addr);
    if size > 0 && (forall|u: int| !(#[trigger] is_exact(g, size, addr, u))) && (addr.base is None
        || exists|v: int| #[trigger] in_the_way(g, size, addr, v)) {
        let spent = with_spent_name(g);
        lemma_spent_same(g, size, addr);
        assert forall|u: int| !(#[trigger] is_exact(spent, size, addr, u)) by {
            assert(!is_exact(g, size, addr, u));
        }
        if way_passed_over(g, size, addr) {
            law_fold_placed(spent, size, addr);
            assert(placed(spent, h));
        } else {
            law_rebuild_when(spent, size, addr);
            if rebuild_outcome(spent, size, addr).1 is Some {
                law_rebuild_placed(spent, size, addr);
                assert(placed(spent, h));
            }
        }
    }
}

/// No name is given to a second varnode: a name that names nothing goes on to name
/// nothing, and names that were given out are not given out again.
pub proof fn law_names_stay(g: Graph, size: int, addr: Address)
    requires
        g.wf(),
        size <= i32::MAX,
    ensures
        ({
            let h = tiled_input(g, size, addr).0;
            &&& h.varnodes.len() >= g.varnodes.len()
            &&& forall|v: int|
                0 <= v < g.varnodes.len() && !in_the_way(g, size, addr, v)
                    ==> #[trigger] h.varnodes[v] == g.varnodes[v]
        }),
{
    let h = tiled_input(g, size, addr).0;
    law_request_course(g, size, addr);
    if size > 0 && (forall|u: int| !(#[trigger] is_exact(g, size, addr, u))) && (addr.base is None
        || exists|v: int| #[trigger] in_the_way(g, size, addr, v)) {
        let spent = with_spent_name(g);
        lemma_spent_same(g, size, addr);
        if way_passed_over(g, size, addr) {
            law_fold_planned(spent, size, addr);
            if covered_plan(inputs_of(spent), size, addr) is Some {
                law_fold_covers(spent, size, addr, addr.offset as int);
                law_fold_grows(spent, size, addr);
                assert forall|v: int|
                    0 <= v < g.varnodes.len() && !in_the_way(
                        g,
                        size,
                        addr,
                        v,
                    ) implies #[trigger] h.varnodes[v] == g.varnodes[v] by {
                    assert(!in_the_way(spent, size, addr, v));
                    assert(h.varnodes[v] == spent.varnodes[v]);
                }
            }
        } else {
            law_rebuild_when(spent, size, addr);
            if rebuild_outcome(spent, size, addr).1 is Some {
                law_rebuild_keeps(spent, size, addr);
                assert forall|v: int| 0 <= v < g.varnodes.len() implies #[trigger] h.varnodes[v]
                    == g.varnodes[v] by {
                    assert(h.varnodes[v] == spent.varnodes[v]);
                }
            }
        }
    }
}

} // verus!
