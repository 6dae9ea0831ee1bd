use kuna_inputtile::address::{AddrSpace, Address};
use kuna_inputtile::plan::{
    plan_covered_pieces, plan_overlapping_inputs, InputVarnode, Segment, Source,
};
use kuna_inputtile::varnode::{Varnode, VarnodeId, VarnodeKind};

fn ram() -> AddrSpace {
    AddrSpace { index: 2, big_endian: false }
}

fn item(id: usize, offset: u64, size: i32, write_mask: bool) -> InputVarnode {
    let loc = Address::new(ram(), offset);
    InputVarnode {
        id: VarnodeId(id),
        vn: Varnode { loc, size, kind: VarnodeKind::Input, write_mask },
    }
}

fn from(off: u64, size: i32, id: usize, lo: u64, hi: u64) -> Segment {
    Segment { off, size, source: Some(Source { id: VarnodeId(id), lo, hi }) }
}

fn hole(off: u64, size: i32) -> Segment {
    Segment { off, size, source: None }
}

fn at(offset: u64) -> Address {
    Address::new(ram(), offset)
}

#[test]
fn covered_pieces_are_ordered_and_holes_filled() {
    let inputs = vec![item(5, 0x104, 2, true), item(3, 0x101, 1, true), item(9, 0x200, 8, false)];
    assert_eq!(
        plan_covered_pieces(&inputs, 8, &at(0x100)),
        Some(vec![
            hole(0x100, 1),
            from(0x101, 1, 3, 0x101, 0x102),
            hole(0x102, 2),
            from(0x104, 2, 5, 0x104, 0x106),
            hole(0x106, 2),
        ])
    );
}

#[test]
fn covered_pieces_must_lie_inside_and_be_masked() {
    assert_eq!(plan_covered_pieces(&vec![item(0, 0xff, 2, true)], 8, &at(0x100)), None);
    assert_eq!(plan_covered_pieces(&vec![item(0, 0x107, 2, true)], 8, &at(0x100)), None);
    assert_eq!(plan_covered_pieces(&vec![item(0, 0x102, 2, false)], 8, &at(0x100)), None);
    assert_eq!(plan_covered_pieces(&vec![], 8, &at(0x100)), None);
    assert_eq!(plan_covered_pieces(&vec![item(0, 0x108, 2, true)], 8, &at(0x100)), None);
}

#[test]
fn overlapping_inputs_are_cut_to_the_request() {
    let inputs = vec![item(1, 0x106, 8, false), item(0, 0xfe, 4, false)];
    assert_eq!(
        plan_overlapping_inputs(&inputs, 8, &at(0x100)),
        Some(vec![
            from(0x100, 2, 0, 0xfe, 0x102),
            hole(0x102, 4),
            from(0x106, 2, 1, 0x106, 0x10e),
        ])
    );
}

#[test]
fn inputs_that_overlap_each_other_have_no_plan() {
    let inputs = vec![item(0, 0x100, 4, true), item(1, 0x102, 4, true)];
    assert_eq!(plan_covered_pieces(&inputs, 8, &at(0x100)), None);
    assert_eq!(plan_overlapping_inputs(&inputs, 8, &at(0x100)), None);
    // Outside the request they may.
    let inputs = vec![item(0, 0x200, 4, true), item(1, 0x202, 4, true), item(2, 0x100, 8, true)];
    assert_eq!(
        plan_overlapping_inputs(&inputs, 8, &at(0x100)),
        Some(vec![from(0x100, 8, 2, 0x100, 0x108)])
    );
}

#[test]
fn empty_input_stops_the_rebuilding_plan() {
    let inputs = vec![item(0, 0x200, 0, true), item(1, 0x102, 4, true)];
    assert_eq!(plan_overlapping_inputs(&inputs, 8, &at(0x100)), None);
    let inputs = vec![item(0, 0x200, -1, true), item(1, 0x102, 4, true)];
    assert_eq!(plan_overlapping_inputs(&inputs, 8, &at(0x100)), None);
    // Of an input in another space nothing is asked.
    let mut other = item(0, 0x200, 0, true);
    other.vn.loc = Address::new(AddrSpace { index: 7, big_endian: false }, 0x200);
    let inputs = vec![other, item(1, 0x100, 8, true)];
    assert_eq!(
        plan_overlapping_inputs(&inputs, 8, &at(0x100)),
        Some(vec![from(0x100, 8, 1, 0x100, 0x108)])
    );
}

#[test]
fn empty_input_in_the_request_is_a_piece_of_a_fold() {
    let inputs = vec![item(0, 0x102, 0, true)];
    assert_eq!(
        plan_covered_pieces(&inputs, 8, &at(0x100)),
        Some(vec![hole(0x100, 2), from(0x102, 0, 0, 0x102, 0x102), hole(0x102, 6)])
    );
}

#[test]
fn ends_past_the_space_have_no_plan() {
    let inputs = vec![item(0, u64::MAX - 3, 4, true)];
    assert_eq!(plan_covered_pieces(&inputs, 2, &at(u64::MAX - 3)), None);
    assert_eq!(plan_overlapping_inputs(&inputs, 2, &at(u64::MAX - 3)), None);
    let inputs = vec![item(0, u64::MAX - 3, 3, true)];
    assert_eq!(plan_covered_pieces(&inputs, 4, &at(u64::MAX - 3)), None);
    assert_eq!(
        plan_overlapping_inputs(&inputs, 2, &at(u64::MAX - 3)),
        Some(vec![from(u64::MAX - 3, 2, 0, u64::MAX - 3, u64::MAX)])
    );
}

#[test]
fn request_without_space_has_no_plan() {
    let inputs = vec![item(0, 0x100, 4, true)];
    let nowhere = Address { base: None, offset: 0x100 };
    assert_eq!(plan_covered_pieces(&inputs, 4, &nowhere), None);
    assert_eq!(plan_overlapping_inputs(&inputs, 4, &nowhere), None);
}

#[test]
fn inputs_out_of_the_way_leave_the_plan() {
    let inputs = vec![item(0, 0x100, 2, true), item(1, 0x104, 2, true)];
    let plan = plan_covered_pieces(&inputs, 8, &at(0x100));
    assert!(plan.is_some());
    for extra in [item(9, 0xf8, 8, false), item(9, 0x108, 1, true), item(9, 0x108, 0, false)] {
        for place in 0..3 {
            let mut more = inputs.clone();
            more.insert(place, extra);
            assert_eq!(plan_covered_pieces(&more, 8, &at(0x100)), plan);
        }
    }
}

#[test]
fn shared_storage_after_a_hole_has_no_plan() {
    let inputs = vec![item(0, 0x104, 3, true), item(1, 0x106, 2, true)];
    assert_eq!(plan_covered_pieces(&inputs, 8, &at(0x100)), None);
    assert_eq!(plan_overlapping_inputs(&inputs, 8, &at(0x100)), None);
    // Two inputs that share storage meet in the request, if both of them meet it.
    let inputs = vec![item(0, 0xf0, 0x11, false), item(1, 0xf8, 0x10, false)];
    assert_eq!(plan_overlapping_inputs(&inputs, 8, &at(0x100)), None);
}
