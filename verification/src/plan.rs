//! Planning how a range of storage is tiled by the inputs that meet it.
//!
//! A plan is made from a list of inputs and a requested range alone; nothing is
//! edited while it is made.

use crate::address::{AddrSpace, Address};
use crate::graph::offsets;
use crate::varnode::{Varnode, VarnodeId, Vn};
use vstd::prelude::*;

verus! {

/// An input of the function, with its name.
#[derive(Clone, Copy, Debug, PartialEq, Eq, Structural)]
pub struct InputVarnode {
    pub id: VarnodeId,
    pub vn: Varnode,
}

/// An input that a segment takes its bytes from: its name and its storage.
#[derive(Clone, Copy, Debug, PartialEq, Eq, Structural)]
pub struct Source {
    pub id: VarnodeId,
    pub lo: u64,
    pub hi: u64,
}

/// A part of the requested range.  A segment without a source is a hole: no input
/// occupies it.
#[derive(Clone, Copy, Debug, PartialEq, Eq, Structural)]
pub struct Segment {
    pub off: u64,
    pub size: i32,
    pub source: Option<Source>,
}

/// The part of an input that lies in the requested range.
#[derive(Clone, Copy, Debug, PartialEq, Eq, Structural)]
pub struct Piece {
    pub lo: u64,
    pub hi: u64,
    pub source: Source,
}

/// The model of an input with its name.
pub struct In {
    pub id: int,
    pub vn: Vn,
}

/// The model of a source.
pub struct Src {
    pub id: int,
    pub lo: int,
    pub hi: int,
}

/// The model of a segment.
pub struct Seg {
    pub off: int,
    pub size: int,
    pub source: Option<Src>,
}

/// The model of a piece.
pub struct Pc {
    pub lo: int,
    pub hi: int,
    pub source: Src,
}

impl View for InputVarnode {
    type V = In;

    open spec fn view(&self) -> In {
        In { id: self.id.0 as int, vn: self.vn@ }
    }
}

impl View for Source {
    type V = Src;

    open spec fn view(&self) -> Src {
        Src { id: self.id.0 as int, lo: self.lo as int, hi: self.hi as int }
    }
}

impl View for Segment {
    type V = Seg;

    open spec fn view(&self) -> Seg {
        Seg {
            off: self.off as int,
            size: self.size as int,
            source: match self.source {
                Some(s) => Some(s@),
                None => None,
            },
        }
    }
}

impl View for Piece {
    type V = Pc;

    open spec fn view(&self) -> Pc {
        Pc { lo: self.lo as int, hi: self.hi as int, source: self.source@ }
    }
}

/// The inputs of a list.
pub open spec fn ins(inputs: Seq<InputVarnode>) -> Seq<In> {
    inputs.map_values(|i: InputVarnode| i@)
}

/// The segments of a list.
pub open spec fn segs(plan: Seq<Segment>) -> Seq<Seg> {
    plan.map_values(|s: Segment| s@)
}

/// The pieces of a list.
pub open spec fn pcs(pieces: Seq<Piece>) -> Seq<Pc> {
    pieces.map_values(|p: Piece| p@)
}

/// A size as an unsigned 64-bit number: a negative one wraps round.
pub open spec fn widened(size: int) -> int {
    if size >= 0 {
        size
    } else {
        size % offsets()
    }
}

impl In {
    /// The end of the storage, by the widened size.
    pub open spec fn widened_end(self) -> int {
        self.vn.offset + widened(self.vn.size)
    }

    /// Whether the input is in the space and not clear of the range.
    pub open spec fn meets(self, space: AddrSpace, lo: int, hi: int) -> bool {
        self.vn.base == Some(space) && self.widened_end() > lo && self.vn.offset < hi
    }

    /// Whether the input can be folded into one that covers the range, or does not
    /// touch it: its end is an offset, and if it meets the range, it lies in it and
    /// renaming passes it over.
    pub open spec fn foldable(self, space: AddrSpace, lo: int, hi: int) -> bool {
        self.vn.base == Some(space) ==> {
            &&& self.widened_end() < offsets()
            &&& self.meets(space, lo, hi) ==> lo <= self.vn.offset && self.widened_end() <= hi
                && self.vn.write_mask
        }
    }

    /// Whether the storage of the input, if it is in the space, is a range of offsets.
    pub open spec fn ranged(self, space: AddrSpace) -> bool {
        self.vn.base == Some(space) ==> self.vn.size > 0 && self.vn.end() < offsets()
    }

    /// The part of the input in the range.
    pub open spec fn part(self, lo: int, hi: int) -> Pc {
        Pc {
            lo: if self.vn.offset < lo { lo } else { self.vn.offset },
            hi: if self.widened_end() > hi { hi } else { self.widened_end() },
            source: Src { id: self.id, lo: self.vn.offset, hi: self.widened_end() },
        }
    }

    /// Whether the input has a byte in the range.
    pub open spec fn covers(self, space: AddrSpace, lo: int, hi: int) -> bool {
        self.vn.base == Some(space) && self.part(lo, hi).lo < self.part(lo, hi).hi
    }
}

/// A sorted list of pieces with one more put in, after those that start no later.
pub open spec fn insert_piece(s: Seq<Pc>, p: Pc) -> Seq<Pc>
    decreases s.len(),
{
    if s.len() == 0 || s.last().lo <= p.lo {
        s.push(p)
    } else {
        insert_piece(s.drop_last(), p).push(s.last())
    }
}

/// The pieces by where they start; those that start together stay in their order.
pub open spec fn sort_pieces(s: Seq<Pc>) -> Seq<Pc>
    decreases s.len(),
{
    if s.len() == 0 {
        Seq::empty()
    } else {
        insert_piece(sort_pieces(s.drop_last()), s.last())
    }
}

/// The segment that a piece fills.
pub open spec fn filled(p: Pc) -> Seg {
    Seg { off: p.lo, size: p.hi - p.lo, source: Some(p.source) }
}

/// The hole between two offsets, if there is room for one.
pub open spec fn gap(from: int, to: int) -> Seq<Seg> {
    if from < to {
        seq![Seg { off: from, size: to - from, source: None }]
    } else {
        Seq::empty()
    }
}

/// The tiling of a range by pieces in order: the pieces and the holes between them.
/// There is none where a piece starts before the end of the one before it.
pub open spec fn tile(from: int, to: int, pieces: Seq<Pc>) -> Option<Seq<Seg>>
    decreases pieces.len(),
{
    if pieces.len() == 0 {
        Some(gap(from, to))
    } else if pieces[0].lo < from {
        None
    } else {
        match tile(pieces[0].hi, to, pieces.drop_first()) {
            Some(rest) => Some(gap(from, pieces[0].lo) + seq![filled(pieces[0])] + rest),
            None => None,
        }
    }
}

/// The tiling of a range by pieces in any order.  A range that no piece lies in is
/// not tiled.
pub open spec fn tiled(lo: int, hi: int, pieces: Seq<Pc>) -> Option<Seq<Seg>> {
    if pieces.len() == 0 {
        None
    } else {
        tile(lo, hi, sort_pieces(pieces))
    }
}

/// The parts in the range of the inputs that meet it.
pub open spec fn covered_pieces(
    inputs: Seq<In>,
    space: AddrSpace,
    lo: int,
    hi: int,
) -> Seq<Pc> {
    inputs.filter(|i: In| i.meets(space, lo, hi)).map_values(|i: In| i.part(lo, hi))
}

/// The parts in the range of the inputs that have a byte in it.
pub open spec fn overlapping_pieces(
    inputs: Seq<In>,
    space: AddrSpace,
    lo: int,
    hi: int,
) -> Seq<Pc> {
    inputs.filter(|i: In| i.covers(space, lo, hi)).map_values(|i: In| i.part(lo, hi))
}

/// How `size` bytes at `addr` are folded from the inputs that meet them.  There is
/// a plan where the requested end is an offset, some input meets the request, and
/// all that do lie in it, apart from each other, and are passed over by renaming.
pub open spec fn covered_plan(inputs: Seq<In>, size: int, addr: Address) -> Option<Seq<Seg>> {
    match addr.base {
        Some(space) => {
            let lo = addr.offset as int;
            let hi = lo + size;
            if hi < offsets() && forall|i: int|
                0 <= i < inputs.len() ==> (#[trigger] inputs[i]).foldable(space, lo, hi) {
                tiled(lo, hi, covered_pieces(inputs, space, lo, hi))
            } else {
                None
            }
        },
        None => None,
    }
}

/// How `size` bytes at `addr` are rebuilt from the inputs that have a byte in them.
/// There is a plan where the requested end is an offset, the inputs in the space
/// are ranges of offsets, and some have a byte in the request, apart from each other.
pub open spec fn overlapping_plan(inputs: Seq<In>, size: int, addr: Address) -> Option<Seq<Seg>> {
    match addr.base {
        Some(space) => {
            let lo = addr.offset as int;
            let hi = lo + size;
            if hi < offsets() && forall|i: int|
                0 <= i < inputs.len() ==> (#[trigger] inputs[i]).ranged(space) {
                tiled(lo, hi, overlapping_pieces(inputs, space, lo, hi))
            } else {
                None
            }
        },
        None => None,
    }
}

/// A size as an unsigned 64-bit number.
fn widen(size: i32) -> (result: u64)
    ensures
        result == widened(size as int),
{
    let result: u64 = size as u64;
    proof {
        if size >= 0 {
        } else {
            assert(size as u64 == 0x1_0000_0000_0000_0000 + size) by (bit_vector)
                requires
                    size < 0,
            ;
        }
    }
    result
}

/// Where an insertion puts a piece, `insert_piece` puts it too.
proof fn lemma_insert_piece(s: Seq<Pc>, p: Pc, at: int)
    requires
        0 <= at <= s.len(),
        forall|j: int| at <= j < s.len() ==> (#[trigger] s[j]).lo > p.lo,
        at > 0 ==> s[at - 1].lo <= p.lo,
    ensures
        insert_piece(s, p) == s.insert(at, p),
    decreases s.len(),
{
    if s.len() == 0 || at == s.len() {
        assert(s.insert(at, p) =~= s.push(p));
    } else {
        let r = s.drop_last();
        assert(s.last().lo > p.lo);
        assert forall|j: int| at <= j < r.len() implies (#[trigger] r[j]).lo > p.lo by {
            assert(r[j] == s[j]);
        }
        lemma_insert_piece(r, p, at);
        assert(s.insert(at, p) =~= r.insert(at, p).push(s.last()));
    }
}

/// Puts a piece into a sorted list, after those that start no later.
fn insert_sorted(pieces: &mut Vec<Piece>, p: Piece)
    ensures
        pcs(final(pieces)@) == insert_piece(pcs(old(pieces)@), p@),
{
    let mut at: usize = pieces.len();
    while at > 0 && pieces[at - 1].lo > p.lo
        invariant
            at <= pieces.len(),
            forall|j: int| at <= j < pieces.len() ==> (#[trigger] pieces@[j]).lo > p.lo,
        decreases at,
    {
        at = at - 1;
    }
    proof {
        let s = pcs(pieces@);
        assert forall|j: int| at <= j < s.len() implies (#[trigger] s[j]).lo > p@.lo by {
            assert(s[j] == pieces@[j]@);
        }
        lemma_insert_piece(s, p@, at as int);
        assert(pcs(pieces@.insert(at as int, p)) =~= s.insert(at as int, p@));
    }
    pieces.insert(at, p);
}

/// The pieces by where they start; those that start together stay in their order.
fn sorted(pieces: &Vec<Piece>) -> (result: Vec<Piece>)
    ensures
        pcs(result@) == sort_pieces(pcs(pieces@)),
{
    let mut result: Vec<Piece> = Vec::new();
    let mut i: usize = 0;
    proof {
        assert(pcs(pieces@).take(0) =~= Seq::empty());
        assert(pcs(result@) =~= Seq::empty());
    }
    while i < pieces.len()
        invariant
            i <= pieces.len(),
            pcs(result@) == sort_pieces(pcs(pieces@).take(i as int)),
        decreases pieces.len() - i,
    {
        insert_sorted(&mut result, pieces[i]);
        proof {
            let s = pcs(pieces@);
            assert(s.take(i + 1).drop_last() =~= s.take(i as int));
            assert(s.take(i + 1).last() == pieces@[i as int]@);
        }
        i = i + 1;
    }
    proof {
        assert(pcs(pieces@).take(i as int) =~= pcs(pieces@));
    }
    result
}

/// Segments that go on with others, where there are others.
spec fn go_on(before: Seq<Seg>, rest: Option<Seq<Seg>>) -> Option<Seq<Seg>> {
    match rest {
        Some(r) => Some(before + r),
        None => None,
    }
}

/// The pieces lie in the range.
pub open spec fn pieces_within(lo: int, hi: int, pieces: Seq<Pc>) -> bool {
    forall|j: int|
        0 <= j < pieces.len() ==> lo <= (#[trigger] pieces[j]).lo <= pieces[j].hi <= hi
}

/// The tiling of a range by pieces in order.
fn tile_range(lo: u64, hi: u64, pieces: &Vec<Piece>) -> (result: Option<Vec<Segment>>)
    requires
        lo <= hi,
        hi - lo <= i32::MAX,
        pieces_within(lo as int, hi as int, pcs(pieces@)),
    ensures
        match result {
            Some(plan) => tile(lo as int, hi as int, pcs(pieces@)) == Some(segs(plan@)),
            None => tile(lo as int, hi as int, pcs(pieces@)) is None,
        },
{
    let ghost s = pcs(pieces@);
    let mut plan: Vec<Segment> = Vec::new();
    let mut cur: u64 = lo;
    let mut i: usize = 0;
    proof {
        assert(s.skip(0) =~= s);
        assert(segs(plan@) =~= Seq::empty());
        if let Some(r) = tile(lo as int, hi as int, s) {
            assert(segs(plan@) + r =~= r);
        }
    }
    while i < pieces.len()
        invariant
            s == pcs(pieces@),
            i <= pieces.len(),
            lo <= cur <= hi,
            hi - lo <= i32::MAX,
            pieces_within(lo as int, hi as int, s),
            tile(lo as int, hi as int, s) == go_on(
                segs(plan@),
                tile(cur as int, hi as int, s.skip(i as int)),
            ),
        decreases pieces.len() - i,
    {
        let p: Piece = pieces[i];
        let ghost before = segs(plan@);
        let ghost rest = s.skip(i as int);
        assert(rest[0] == p@ && s[i as int] == p@);
        assert(rest.drop_first() =~= s.skip(i + 1));
        if p.lo < cur {
            return None;
        }
        if p.lo > cur {
            plan.push(Segment { off: cur, size: (p.lo - cur) as i32, source: None });
        }
        assert(segs(plan@) =~= before + gap(cur as int, p.lo as int));
        let ghost middle = segs(plan@);
        plan.push(Segment { off: p.lo, size: (p.hi - p.lo) as i32, source: Some(p.source) });
        proof {
            assert(segs(plan@) =~= middle.push(filled(p@)));
            if let Some(r) = tile(p.hi as int, hi as int, s.skip(i + 1)) {
                assert(before + (gap(cur as int, p.lo as int) + seq![filled(p@)] + r) =~= segs(
                    plan@,
                ) + r);
            }
        }
        cur = p.hi;
        i = i + 1;
    }
    let ghost before = segs(plan@);
    assert(s.skip(i as int).len() == 0);
    if cur < hi {
        plan.push(Segment { off: cur, size: (hi - cur) as i32, source: None });
    }
    assert(segs(plan@) =~= before + gap(cur as int, hi as int));
    Some(plan)
}

/// Sorting keeps the pieces that there are.
pub proof fn lemma_sort_contains(s: Seq<Pc>)
    ensures
        sort_pieces(s).len() == s.len(),
        forall|p: Pc| sort_pieces(s).contains(p) <==> #[trigger] s.contains(p),
    decreases s.len(),
{
    if s.len() > 0 {
        let r = s.drop_last();
        let t = sort_pieces(r);
        lemma_sort_contains(r);
        lemma_insert_contains(t, s.last());
        assert forall|p: Pc| insert_piece(t, s.last()).contains(p) <==> #[trigger] s.contains(p) by {
            assert(s =~= r.push(s.last()));
            if s.contains(p) {
                let j = choose|j: int| 0 <= j < s.len() && s[j] == p;
                if j < r.len() {
                    assert(r[j] == p);
                    assert(r.contains(p));
                }
            }
            if r.contains(p) {
                let j = choose|j: int| 0 <= j < r.len() && r[j] == p;
                assert(s[j] == p);
            }
            assert(s[s.len() - 1] == s.last());
        }
    }
}

/// Putting a piece in keeps the others.
pub proof fn lemma_insert_contains(s: Seq<Pc>, p: Pc)
    ensures
        insert_piece(s, p).len() == s.len() + 1,
        forall|q: Pc| insert_piece(s, p).contains(q) <==> (#[trigger] s.contains(q) || q == p),
    decreases s.len(),
{
    if s.len() == 0 || s.last().lo <= p.lo {
        let t = s.push(p);
        assert forall|q: Pc| t.contains(q) <==> (#[trigger] s.contains(q) || q == p) by {
            assert(t[s.len() as int] == p);
            if s.contains(q) {
                let j = choose|j: int| 0 <= j < s.len() && s[j] == q;
                assert(t[j] == q);
            }
            if t.contains(q) {
                let j = choose|j: int| 0 <= j < t.len() && t[j] == q;
                if j < s.len() {
                    assert(s[j] == q);
                }
            }
        }
    } else {
        let r = s.drop_last();
        let u = insert_piece(r, p);
        let t = u.push(s.last());
        lemma_insert_contains(r, p);
        assert forall|q: Pc| t.contains(q) <==> (#[trigger] s.contains(q) || q == p) by {
            assert(t[u.len() as int] == s.last());
            assert(s[s.len() - 1] == s.last());
            if s.contains(q) {
                let j = choose|j: int| 0 <= j < s.len() && s[j] == q;
                if j < r.len() {
                    assert(r[j] == q);
                    assert(r.contains(q));
                }
            }
            if r.contains(q) {
                let j = choose|j: int| 0 <= j < r.len() && r[j] == q;
                assert(s[j] == q);
            }
            if u.contains(q) {
                let j = choose|j: int| 0 <= j < u.len() && u[j] == q;
                assert(t[j] == q);
            }
            if t.contains(q) {
                let j = choose|j: int| 0 <= j < t.len() && t[j] == q;
                if j < u.len() {
                    assert(u[j] == q);
                    assert(u.contains(q));
                }
            }
            assert(r.contains(q) || q == p || !u.contains(q));
        }
    }
}

/// Sorting keeps the pieces in the range.
proof fn lemma_sort_within(lo: int, hi: int, s: Seq<Pc>)
    requires
        pieces_within(lo, hi, s),
    ensures
        pieces_within(lo, hi, sort_pieces(s)),
{
    lemma_sort_contains(s);
    let t = sort_pieces(s);
    assert forall|j: int| 0 <= j < t.len() implies lo <= (#[trigger] t[j]).lo <= t[j].hi <= hi by {
        assert(t.contains(t[j]));
        assert(s.contains(t[j]));
        let k = choose|k: int| 0 <= k < s.len() && s[k] == t[j];
        assert(lo <= s[k].lo <= s[k].hi <= hi);
    }
}

/// The tiling of a range by pieces in any order.
fn tile_pieces(lo: u64, hi: u64, pieces: &Vec<Piece>) -> (result: Option<Vec<Segment>>)
    requires
        lo <= hi,
        hi - lo <= i32::MAX,
        pieces_within(lo as int, hi as int, pcs(pieces@)),
    ensures
        match result {
            Some(plan) => tiled(lo as int, hi as int, pcs(pieces@)) == Some(segs(plan@)),
            None => tiled(lo as int, hi as int, pcs(pieces@)) is None,
        },
{
    if pieces.len() == 0 {
        return None;
    }
    let ordered: Vec<Piece> = sorted(pieces);
    proof {
        lemma_sort_within(lo as int, hi as int, pcs(pieces@));
    }
    tile_range(lo, hi, &ordered)
}

/// The parts of one more input, where it passes, follow those of the others.
pub proof fn lemma_parts_step(s: Seq<In>, n: int, pred: spec_fn(In) -> bool, lo: int, hi: int)
    requires
        0 <= n < s.len(),
    ensures
        s.take(n + 1).filter(pred).map_values(|i: In| i.part(lo, hi)) == (if pred(s[n]) {
            s.take(n).filter(pred).map_values(|i: In| i.part(lo, hi)).push(s[n].part(lo, hi))
        } else {
            s.take(n).filter(pred).map_values(|i: In| i.part(lo, hi))
        }),
{
    broadcast use Seq::lemma_filter_push;

    assert(s.take(n + 1) =~= s.take(n).push(s[n]));
    assert(s.take(n + 1).filter(pred).map_values(|i: In| i.part(lo, hi)) =~= (if pred(s[n]) {
        s.take(n).filter(pred).map_values(|i: In| i.part(lo, hi)).push(s[n].part(lo, hi))
    } else {
        s.take(n).filter(pred).map_values(|i: In| i.part(lo, hi))
    }));
}

/// Plans how the inputs that meet `size` bytes at `addr` are folded into one input
/// of that storage: every byte of the request belongs to one of them, or to a hole
/// that gets an input of its own.
pub fn plan_covered_pieces(inputs: &Vec<InputVarnode>, size: i32, addr: &Address) -> (result:
    Option<Vec<Segment>>)
    requires
        size > 0,
    ensures
        match result {
            Some(plan) => covered_plan(ins(inputs@), size as int, *addr) == Some(segs(plan@)),
            None => covered_plan(ins(inputs@), size as int, *addr) is None,
        },
{
    let space: AddrSpace = match addr.get_space() {
        Some(space) => space,
        None => {
            return None;
        },
    };
    let lo: u64 = addr.get_offset();
    let hi: u64 = match lo.checked_add(size as u64) {
        Some(hi) => hi,
        None => {
            return None;
        },
    };
    let ghost all = ins(inputs@);
    let ghost pred = |i: In| i.meets(space, lo as int, hi as int);
    let mut pieces: Vec<Piece> = Vec::new();
    let mut n: usize = 0;
    proof {
        assert(all.take(0).filter(pred).map_values(|i: In| i.part(lo as int, hi as int))
            =~= Seq::empty()) by {
            reveal(Seq::filter);
        }
        assert(pcs(pieces@) =~= Seq::empty());
    }
    while n < inputs.len()
        invariant
            n <= inputs.len(),
            all == ins(inputs@),
            addr.base == Some(space),
            lo == addr.offset,
            hi == lo + size,
            pred == (|i: In| i.meets(space, lo as int, hi as int)),
            lo < hi,
            forall|j: int|
                0 <= j < n ==> (#[trigger] all[j]).foldable(space, lo as int, hi as int),
            pcs(pieces@) == all.take(n as int).filter(pred).map_values(
                |i: In| i.part(lo as int, hi as int),
            ),
            pieces_within(lo as int, hi as int, pcs(pieces@)),
        decreases inputs.len() - n,
    {
        let item: InputVarnode = inputs[n];
        let ghost before = pcs(pieces@);
        proof {
            assert(all[n as int] == item@);
            lemma_parts_step(all, n as int, pred, lo as int, hi as int);
        }
        let here: bool = match item.vn.get_addr().get_space() {
            Some(s) => s == space,
            None => false,
        };
        if here {
            let voff: u64 = item.vn.get_offset();
            let vend: u64 = match voff.checked_add(widen(item.vn.get_size())) {
                Some(vend) => vend,
                None => {
                    assert(!all[n as int].foldable(space, lo as int, hi as int));
                    return None;
                },
            };
            if vend > lo && voff < hi {
                if voff < lo || vend > hi || !item.vn.is_write_mask() {
                    // Straddles the request, or renaming may hold it.
                    assert(!all[n as int].foldable(space, lo as int, hi as int));
                    return None;
                }
                let piece: Piece = Piece {
                    lo: voff,
                    hi: vend,
                    source: Source { id: item.id, lo: voff, hi: vend },
                };
                pieces.push(piece);
                assert(pcs(pieces@) =~= before.push(piece@));
            }
        }
        n = n + 1;
    }
    proof {
        assert(all.take(n as int) =~= all);
        assert(pcs(pieces@) == covered_pieces(all, space, lo as int, hi as int));
    }
    tile_pieces(lo, hi, &pieces)
}

/// Plans how `size` bytes at `addr` are rebuilt from the inputs that have a byte in
/// them: every byte of the request is a byte of one of them, or of a hole that gets
/// an input of its own.
pub fn plan_overlapping_inputs(inputs: &Vec<InputVarnode>, size: i32, addr: &Address) -> (result:
    Option<Vec<Segment>>)
    requires
        size > 0,
    ensures
        match result {
            Some(plan) => overlapping_plan(ins(inputs@), size as int, *addr) == Some(segs(plan@)),
            None => overlapping_plan(ins(inputs@), size as int, *addr) is None,
        },
{
    let space: AddrSpace = match addr.get_space() {
        Some(space) => space,
        None => {
            return None;
        },
    };
    let lo: u64 = addr.get_offset();
    let hi: u64 = match lo.checked_add(size as u64) {
        Some(hi) => hi,
        None => {
            return None;
        },
    };
    let ghost all = ins(inputs@);
    let ghost pred = |i: In| i.covers(space, lo as int, hi as int);
    let mut pieces: Vec<Piece> = Vec::new();
    let mut n: usize = 0;
    proof {
        assert(all.take(0).filter(pred).map_values(|i: In| i.part(lo as int, hi as int))
            =~= Seq::empty()) by {
            reveal(Seq::filter);
        }
        assert(pcs(pieces@) =~= Seq::empty());
    }
    while n < inputs.len()
        invariant
            n <= inputs.len(),
            all == ins(inputs@),
            addr.base == Some(space),
            lo == addr.offset,
            hi == lo + size,
            pred == (|i: In| i.covers(space, lo as int, hi as int)),
            lo < hi,
            forall|j: int| 0 <= j < n ==> (#[trigger] all[j]).ranged(space),
            pcs(pieces@) == all.take(n as int).filter(pred).map_values(
                |i: In| i.part(lo as int, hi as int),
            ),
            pieces_within(lo as int, hi as int, pcs(pieces@)),
        decreases inputs.len() - n,
    {
        let item: InputVarnode = inputs[n];
        let ghost before = pcs(pieces@);
        proof {
            assert(all[n as int] == item@);
            lemma_parts_step(all, n as int, pred, lo as int, hi as int);
        }
        let here: bool = match item.vn.get_addr().get_space() {
            Some(s) => s == space,
            None => false,
        };
        if here {
            let source_lo: u64 = item.vn.get_offset();
            let source_size: i32 = item.vn.get_size();
            if source_size <= 0 {
                assert(!all[n as int].ranged(space));
                return None;
            }
            let source_hi: u64 = match source_lo.checked_add(source_size as u64) {
                Some(source_hi) => source_hi,
                None => {
                    assert(!all[n as int].ranged(space));
                    return None;
                },
            };
            let covered_lo: u64 = if source_lo < lo { lo } else { source_lo };
            let covered_hi: u64 = if source_hi > hi { hi } else { source_hi };
            if covered_lo < covered_hi {
                let piece: Piece = Piece {
                    lo: covered_lo,
                    hi: covered_hi,
                    source: Source { id: item.id, lo: source_lo, hi: source_hi },
                };
                pieces.push(piece);
                assert(pcs(pieces@) =~= before.push(piece@));
            }
        }
        n = n + 1;
    }
    proof {
        assert(all.take(n as int) =~= all);
        assert(pcs(pieces@) == overlapping_pieces(all, space, lo as int, hi as int));
    }
    tile_pieces(lo, hi, &pieces)
}

} // verus!
