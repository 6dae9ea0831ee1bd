use kuna_inputtile::address::{AddrSpace, Address};
use kuna_inputtile::funcdata::{EditError, Funcdata};
use kuna_inputtile::op::OpCode;
use kuna_inputtile::varnode::{BlockId, PcodeOpId, VarnodeId};

fn ram() -> AddrSpace {
    AddrSpace { index: 2, big_endian: false }
}

fn at(offset: u64) -> Address {
    Address::new(ram(), offset)
}

fn build() -> Funcdata {
    let constant = AddrSpace { index: 0, big_endian: false };
    let unique = AddrSpace { index: 1, big_endian: false };
    let mut fd = Funcdata::new(at(0x1000), constant, unique);
    let block = fd.new_block_basic();
    fd.set_start_block(block);
    fd
}

fn input(fd: &mut Funcdata, offset: u64, size: i32) -> VarnodeId {
    let vn = fd.new_varnode(size, &at(offset));
    fd.set_input_varnode(vn).unwrap()
}

#[test]
fn settling_an_input() {
    let mut fd = build();
    let a = input(&mut fd, 0x100, 4);
    assert_eq!(fd.set_input_varnode(a), Ok(a));
    let same = fd.new_varnode(4, &at(0x100));
    assert_eq!(fd.set_input_varnode(same), Ok(a));
    let overlapping = fd.new_varnode(4, &at(0x103));
    assert_eq!(fd.set_input_varnode(overlapping), Err(EditError::OverlappingInputs));
    let nowhere = fd.new_varnode(4, &Address { base: None, offset: 0 });
    assert_eq!(fd.set_input_varnode(nowhere), Err(EditError::NoSpace));
    let constant = fd.new_constant(4, 9);
    assert_eq!(fd.set_input_varnode(constant), Err(EditError::NotFree));
    assert_eq!(fd.set_input_varnode(VarnodeId(99)), Err(EditError::NoSuchVarnode));
    assert_eq!(fd.find_varnode_input(4, &at(0x100)), Some(a));
    assert_eq!(fd.find_varnode_input(4, &at(0x103)), None);
    assert_eq!(fd.find_varnode_input(3, &at(0x100)), None);
}

#[test]
fn deleting_a_varnode() {
    let mut fd = build();
    let a = input(&mut fd, 0x100, 4);
    assert_eq!(fd.delete_varnode(a), Err(EditError::NotFree));
    let free = fd.new_varnode(4, &at(0x200));
    let op = fd.new_op(1, at(0x1000));
    fd.op_set_input(op, free, 0).unwrap();
    assert_eq!(fd.delete_varnode(free), Err(EditError::StillRead));
    fd.op_set_input(op, a, 0).unwrap();
    assert_eq!(fd.delete_varnode(free), Ok(()));
    assert!(fd.vbank().get(free).is_none());
    assert_eq!(fd.delete_varnode(free), Err(EditError::NoSuchVarnode));
    assert_eq!(fd.set_write_mask(free), Err(EditError::NoSuchVarnode));
    assert_eq!(fd.set_input_varnode(free), Err(EditError::NoSuchVarnode));
}

#[test]
fn operands_and_outputs() {
    let mut fd = build();
    let a = input(&mut fd, 0x100, 4);
    let op = fd.new_op(2, at(0x1000));
    assert_eq!(fd.obank().get(op).unwrap().code(), OpCode::CPUI_BLANK);
    assert_eq!(fd.obank().get(op).unwrap().get_in(0), None);
    assert_eq!(fd.op_set_input(PcodeOpId(5), a, 0), Err(EditError::NoSuchOp));
    assert_eq!(fd.op_set_input(op, a, 2), Err(EditError::NoSuchSlot));
    assert_eq!(fd.op_set_input(op, VarnodeId(99), 0), Err(EditError::NoSuchVarnode));
    assert_eq!(fd.op_set_input(op, a, 1), Ok(()));
    assert_eq!(fd.obank().get(op).unwrap().get_in(0), None);
    assert_eq!(fd.obank().get(op).unwrap().get_in(1), Some(a));
    assert_eq!(fd.obank().get(op).unwrap().get_in(2), None);
    assert!(fd.obank().get(op).unwrap().reads_varnode(a));

    assert_eq!(fd.new_varnode_out(4, &at(0x300), PcodeOpId(5)), Err(EditError::NoSuchOp));
    assert_eq!(fd.new_unique_out(4, PcodeOpId(5)), Err(EditError::NoSuchOp));
    let out = fd.new_varnode_out(4, &at(0x300), op).unwrap();
    assert_eq!(fd.obank().get(op).unwrap().get_out(), Some(out));
    assert_eq!(fd.vbank().get(out).unwrap().get_def(), Some(op));
    assert!(!fd.vbank().get(out).unwrap().is_free());
    assert_eq!(fd.new_varnode_out(4, &at(0x300), op), Err(EditError::HasOutput));
    assert_eq!(fd.new_unique_out(4, op), Err(EditError::HasOutput));
}

#[test]
fn operations_in_blocks() {
    let mut fd = build();
    let start = fd.get_start_block().unwrap();
    assert_eq!(fd.get_address(), at(0x1000));
    assert_eq!(fd.bb_op_head(start), None);
    let a = fd.new_op(0, at(0));
    let b = fd.new_op(0, at(0));
    let c = fd.new_op(0, at(0));
    fd.op_insert(a, start, None);
    fd.op_insert(b, start, Some(a));
    // An operation that is not there is no place: the new one goes to the end.
    fd.op_insert(c, start, Some(PcodeOpId(77)));
    assert_eq!(fd.block_ops(start).unwrap(), &vec![b, a, c]);
    assert_eq!(fd.bb_op_head(start), Some(b));
    assert!(fd.block_ops(BlockId(4)).is_none());
}

#[test]
fn folding_two_inputs() {
    let mut fd = build();
    let low = input(&mut fd, 0x100, 4);
    let high = input(&mut fd, 0x104, 2);
    let far = input(&mut fd, 0x200, 4);
    let free = fd.new_varnode(4, &at(0x300));
    assert_eq!(fd.combine_input_varnodes(high, free), Err(EditError::NotInput));
    assert_eq!(fd.combine_input_varnodes(VarnodeId(99), low), Err(EditError::NotInput));
    assert_eq!(fd.combine_input_varnodes(low, high), Err(EditError::NotAdjacent));
    assert_eq!(fd.combine_input_varnodes(far, low), Err(EditError::NotAdjacent));
    assert_eq!(fd.combine_input_varnodes(high, low), Ok(()));
    assert!(fd.vbank().get(low).is_none());
    assert!(fd.vbank().get(high).is_none());
    let whole = fd.find_varnode_input(6, &at(0x100)).unwrap();
    assert!(fd.vbank().get(whole).unwrap().is_write_mask());
}

#[test]
fn folding_too_many_bytes() {
    let mut fd = build();
    let low = input(&mut fd, 0, i32::MAX);
    let high = input(&mut fd, i32::MAX as u64, 1);
    assert_eq!(fd.combine_input_varnodes(high, low), Err(EditError::TooLarge));
    assert!(fd.vbank().get(low).unwrap().is_input());
    assert!(fd.vbank().get(high).unwrap().is_input());
}

#[test]
fn folding_big_endian_inputs() {
    let mut fd = build();
    let space = AddrSpace { index: 3, big_endian: true };
    let a = fd.new_varnode(4, &Address::new(space, 0x100));
    let b = fd.new_varnode(2, &Address::new(space, 0x104));
    fd.set_input_varnode(a).unwrap();
    fd.set_input_varnode(b).unwrap();
    assert_eq!(fd.combine_input_varnodes(b, a), Err(EditError::NotAdjacent));
    assert_eq!(fd.combine_input_varnodes(a, b), Ok(()));
    assert!(fd.find_varnode_input(6, &Address::new(space, 0x100)).is_some());
}

#[test]
fn temporaries_are_numbered_on() {
    let mut fd = build();
    let first = fd.new_op(0, at(0));
    let second = fd.new_op(0, at(0));
    let a = fd.new_unique_out(6, first).unwrap();
    let b = fd.new_unique_out(4, second).unwrap();
    assert_eq!(fd.vbank().get(a).unwrap().get_offset(), 0);
    assert_eq!(fd.vbank().get(b).unwrap().get_offset(), 6);
}

#[test]
fn folding_inputs_that_are_read_needs_a_start_block() {
    let constant = AddrSpace { index: 0, big_endian: false };
    let unique = AddrSpace { index: 1, big_endian: false };
    let mut fd = Funcdata::new(at(0x1000), constant, unique);
    let low = input(&mut fd, 0x100, 4);
    let high = input(&mut fd, 0x104, 4);
    let op = fd.new_op(1, at(0x1000));
    fd.op_set_input(op, low, 0).unwrap();
    assert_eq!(fd.combine_input_varnodes(high, low), Err(EditError::NoStartBlock));
    assert!(fd.vbank().get(low).unwrap().is_input());
    assert!(fd.vbank().get(high).unwrap().is_input());
    let block = fd.new_block_basic();
    fd.set_start_block(block);
    assert_eq!(fd.combine_input_varnodes(high, low), Ok(()));
    assert_eq!(fd.combine_input_varnodes(high, high), Err(EditError::NotInput));
}

#[test]
fn an_input_is_not_adjacent_to_itself() {
    let mut fd = build();
    let a = input(&mut fd, 0x100, 4);
    assert_eq!(fd.combine_input_varnodes(a, a), Err(EditError::NotAdjacent));
}
