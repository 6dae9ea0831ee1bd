use kuna_inputtile::address::{AddrSpace, Address};
use kuna_inputtile::fold::combine_covered_pieces;
use kuna_inputtile::funcdata::Funcdata;
use kuna_inputtile::inputtile::new_tiled_input;
use kuna_inputtile::op::OpCode;
use kuna_inputtile::rebuild::compose_overlapping_inputs;
use kuna_inputtile::varnode::{BlockId, PcodeOpId, VarnodeId, VarnodeKind};

fn ram() -> AddrSpace {
    AddrSpace { index: 2, big_endian: false }
}

fn big() -> AddrSpace {
    AddrSpace { index: 3, big_endian: true }
}

fn build_bare() -> Funcdata {
    let constant = AddrSpace { index: 0, big_endian: false };
    let unique = AddrSpace { index: 1, big_endian: false };
    Funcdata::new(Address::new(ram(), 0x1000), constant, unique)
}

fn build_fd() -> Funcdata {
    let mut fd = build_bare();
    let block = fd.new_block_basic();
    fd.set_start_block(block);
    assert_eq!(fd.get_start_block(), Some(block));
    fd
}

fn addr(off: u64) -> Address {
    Address::new(ram(), off)
}

fn input_at(fd: &mut Funcdata, at: Address, size: i32) -> VarnodeId {
    let vn = fd.new_varnode(size, &at);
    fd.set_input_varnode(vn).unwrap()
}

fn input(fd: &mut Funcdata, off: u64, size: i32) -> VarnodeId {
    input_at(fd, addr(off), size)
}

fn masked(fd: &mut Funcdata, at: Address, size: i32) -> VarnodeId {
    let vn = input_at(fd, at, size);
    fd.set_write_mask(vn).unwrap();
    vn
}

/// Puts an operation that reads the varnodes at the end of the block.
fn reader(fd: &mut Funcdata, block: BlockId, code: OpCode, ins: &[VarnodeId]) -> PcodeOpId {
    let op = fd.new_op(ins.len(), addr(0x1000));
    fd.op_set_opcode_code(op, code);
    for (slot, id) in ins.iter().enumerate() {
        fd.op_set_input(op, *id, slot).unwrap();
    }
    fd.op_insert(op, block, None);
    op
}

/// The byte that enters the function at an offset.
fn byte(off: u64) -> u8 {
    (off.wrapping_mul(37).wrapping_add(11) % 251) as u8
}

/// The bytes that enter the function at an address, the least significant first.
fn entry(at: Address, size: i32) -> Vec<u8> {
    let mut bytes: Vec<u8> = (0..size as u64).map(|i| byte(at.offset + i)).collect();
    if at.is_big_endian() {
        bytes.reverse();
    }
    bytes
}

/// The bytes of a varnode, the least significant first.
fn value(fd: &Funcdata, id: VarnodeId) -> Vec<u8> {
    let vn = fd.vbank().get(id).expect("a varnode that exists");
    match vn.kind {
        VarnodeKind::Input => entry(vn.loc, vn.size),
        VarnodeKind::Constant => {
            vn.loc.offset.to_le_bytes()[..vn.size as usize].to_vec()
        }
        VarnodeKind::Free => panic!("a free varnode has no value"),
        VarnodeKind::Written(def) => {
            let op = fd.obank().get(def).expect("a definition that exists");
            let first = value(fd, op.get_in(0).expect("an operand"));
            match op.code() {
                OpCode::CPUI_COPY => first,
                OpCode::CPUI_PIECE => {
                    let mut bytes = value(fd, op.get_in(1).expect("an operand"));
                    bytes.extend(first);
                    bytes
                }
                OpCode::CPUI_SUBPIECE => {
                    let skip = fd.vbank().get(op.get_in(1).expect("an operand")).unwrap();
                    let from = skip.get_offset() as usize;
                    first[from..from + vn.size as usize].to_vec()
                }
                _ => panic!("not an operation of a rebuilt value"),
            }
        }
    }
}

/// Asks for a value and checks its storage and its bytes.
fn ask(fd: &mut Funcdata, at: Address, size: i32) -> VarnodeId {
    let id = new_tiled_input(fd, size, &at).expect("an answer");
    let vn = fd.vbank().get(id).expect("the answer exists");
    assert_eq!(vn.get_addr(), at);
    assert_eq!(vn.get_size(), size);
    assert_eq!(value(fd, id), entry(at, size));
    id
}

#[test]
fn live_input_inside_larger_request_is_preserved() {
    let mut fd = build_fd();
    let live = input(&mut fd, 0x102, 4);
    let request = addr(0x100);

    let rebuilt = new_tiled_input(&mut fd, 8, &request).expect("rebuild larger entry value");

    let live_ref = fd.vbank().get(live).expect("live input must survive");
    assert!(live_ref.is_input());
    assert_eq!(live_ref.get_size(), 4);
    assert_eq!(live_ref.get_addr().get_offset(), 0x102);

    let rebuilt_ref = fd.vbank().get(rebuilt).expect("rebuilt value");
    assert!(rebuilt_ref.is_written());
    assert_eq!(rebuilt_ref.get_size(), 8);
    assert_eq!(rebuilt_ref.get_addr().get_offset(), 0x100);
    assert!(fd.find_varnode_input(2, &addr(0x100)).is_some());
    assert!(fd.find_varnode_input(2, &addr(0x106)).is_some());
}

#[test]
fn request_inside_live_input_uses_subpiece_without_destroying_input() {
    let mut fd = build_fd();
    let live = input(&mut fd, 0x100, 8);
    let request = addr(0x102);

    let slice = new_tiled_input(&mut fd, 2, &request).expect("slice existing input");

    assert!(fd.vbank().get(live).expect("live input must survive").is_input());
    let slice_ref = fd.vbank().get(slice).expect("slice value");
    assert!(slice_ref.is_written());
    assert_eq!(slice_ref.get_size(), 2);
    assert_eq!(slice_ref.get_addr().get_offset(), 0x102);

    let def = slice_ref.get_def().expect("slice definition");
    let op = fd.obank().get(def).expect("slice op");
    assert_eq!(op.code(), OpCode::CPUI_SUBPIECE);
    assert_eq!(op.get_in(0), Some(live));
    let offset = op.get_in(1).expect("subpiece offset");
    assert_eq!(fd.vbank().get(offset).expect("offset constant").get_offset(), 2);
}

#[test]
fn straddling_live_input_is_sliced_and_missing_bytes_become_input() {
    let mut fd = build_fd();
    let live = input(&mut fd, 0x100, 4);
    let request = addr(0x102);

    let rebuilt = new_tiled_input(&mut fd, 4, &request).expect("rebuild straddled value");

    assert!(fd.vbank().get(live).expect("live input must survive").is_input());
    assert!(fd.find_varnode_input(2, &addr(0x104)).is_some());
    let rebuilt_ref = fd.vbank().get(rebuilt).expect("rebuilt value");
    assert!(rebuilt_ref.is_written());
    assert_eq!(rebuilt_ref.get_size(), 4);
    assert_eq!(rebuilt_ref.get_addr().get_offset(), 0x102);

    let piece_def = rebuilt_ref.get_def().expect("piece definition");
    let piece = fd.obank().get(piece_def).expect("piece op");
    assert_eq!(piece.code(), OpCode::CPUI_PIECE);
    let low = piece.get_in(1).expect("little-endian low half");
    let sub_def = fd.vbank().get(low).expect("low half").get_def().expect("subpiece def");
    let sub = fd.obank().get(sub_def).expect("subpiece op");
    assert_eq!(sub.code(), OpCode::CPUI_SUBPIECE);
    assert_eq!(sub.get_in(0), Some(live));
    let offset = sub.get_in(1).expect("subpiece offset");
    assert_eq!(fd.vbank().get(offset).expect("offset constant").get_offset(), 2);
}

#[test]
fn request_without_bytes_has_no_answer() {
    let mut fd = build_fd();
    let live = input(&mut fd, 0x100, 4);
    assert_eq!(new_tiled_input(&mut fd, 0, &addr(0x100)), None);
    assert_eq!(new_tiled_input(&mut fd, -4, &addr(0x100)), None);
    // No name was given out.
    let next = fd.new_varnode(1, &addr(0));
    assert_eq!(next.0, live.0 + 1);
}

#[test]
fn free_storage_becomes_an_input() {
    let mut fd = build_fd();
    input(&mut fd, 0x100, 4);
    // Neighbours on both sides and the same offset in another space are not in the way.
    input(&mut fd, 0x10c, 4);
    input_at(&mut fd, Address::new(big(), 0x104), 8);
    let id = ask(&mut fd, addr(0x104), 8);
    assert!(fd.vbank().get(id).unwrap().is_input());
    assert!(!fd.vbank().get(id).unwrap().is_write_mask());
    assert!(fd.obank().get(PcodeOpId(0)).is_none());
}

#[test]
fn input_of_the_same_storage_answers() {
    let mut fd = build_fd();
    let live = input(&mut fd, 0x100, 4);
    assert_eq!(new_tiled_input(&mut fd, 4, &addr(0x100)), Some(live));
    // The varnode that was made for the request is left over, and free.
    let left = VarnodeId(live.0 + 1);
    assert!(fd.vbank().get(left).expect("a free varnode").is_free());
}

#[test]
fn repeated_request_has_the_same_answer() {
    let mut fd = build_fd();
    let first = ask(&mut fd, addr(0x100), 4);
    assert_eq!(ask(&mut fd, addr(0x100), 4), first);

    masked(&mut fd, addr(0x200), 2);
    masked(&mut fd, addr(0x202), 2);
    let folded = ask(&mut fd, addr(0x200), 4);
    assert_eq!(ask(&mut fd, addr(0x200), 4), folded);
}

#[test]
fn rebuilt_value_is_rebuilt_again() {
    let mut fd = build_fd();
    input(&mut fd, 0x100, 8);
    let first = ask(&mut fd, addr(0x102), 2);
    let second = ask(&mut fd, addr(0x102), 2);
    assert_ne!(first, second);
    assert!(fd.vbank().get(first).unwrap().is_written());
}

#[test]
fn address_without_space_has_no_answer() {
    let mut fd = build_fd();
    input(&mut fd, 0x100, 4);
    let nowhere = Address { base: None, offset: 0x100 };
    assert_eq!(new_tiled_input(&mut fd, 4, &nowhere), None);
    assert_eq!(combine_covered_pieces(&mut fd, 4, &nowhere), None);
    assert_eq!(compose_overlapping_inputs(&mut fd, 4, &nowhere), None);
}

#[test]
fn refused_request_spends_a_name_and_no_more() {
    let mut fd = build_bare();
    let live = input(&mut fd, 0x100, 8);
    // Without a block where the function is entered nothing can be rebuilt.
    assert_eq!(new_tiled_input(&mut fd, 2, &addr(0x102)), None);
    assert!(fd.vbank().get(VarnodeId(live.0 + 1)).is_none());
    assert!(fd.vbank().get(live).unwrap().is_input());
    let next = fd.new_varnode(1, &addr(0));
    assert_eq!(next.0, live.0 + 2);
}

#[test]
fn request_to_the_end_of_the_space_is_refused_where_inputs_are_in_the_way() {
    let mut fd = build_fd();
    let live = input(&mut fd, 0xffff_ffff_ffff_fff0, 4);
    // The end of the request is no offset.
    assert_eq!(new_tiled_input(&mut fd, 16, &addr(0xffff_ffff_ffff_fff0)), None);
    assert!(fd.vbank().get(live).unwrap().is_input());
    // One byte less, and it is.
    ask(&mut fd, addr(0xffff_ffff_ffff_fff0), 15);
}

#[test]
fn input_to_the_end_of_the_space_stops_other_requests() {
    let mut fd = build_fd();
    input(&mut fd, 0x100, 4);
    input(&mut fd, 0xffff_ffff_ffff_fffc, 4);
    assert_eq!(new_tiled_input(&mut fd, 2, &addr(0x102)), None);
    // It does not stop those that need no plan, nor those in another space.
    ask(&mut fd, addr(0x200), 2);
    input_at(&mut fd, Address::new(big(), 0x100), 4);
    ask(&mut fd, Address::new(big(), 0x102), 2);
}

#[test]
fn slice_of_big_endian_input_counts_from_its_end() {
    let mut fd = build_fd();
    let live = input_at(&mut fd, Address::new(big(), 0x100), 8);
    let slice = ask(&mut fd, Address::new(big(), 0x102), 2);
    let def = fd.vbank().get(slice).unwrap().get_def().unwrap();
    let op = fd.obank().get(def).unwrap();
    assert_eq!(op.code(), OpCode::CPUI_SUBPIECE);
    assert_eq!(op.get_in(0), Some(live));
    let offset = fd.vbank().get(op.get_in(1).unwrap()).unwrap();
    assert_eq!(offset.get_offset(), 4);
    assert_eq!(offset.get_size(), 4);
}

#[test]
fn big_endian_join_starts_at_the_lowest_offset() {
    let mut fd = build_fd();
    let live = input_at(&mut fd, Address::new(big(), 0x102), 4);
    let whole = ask(&mut fd, Address::new(big(), 0x100), 8);
    let outer = fd.obank().get(fd.vbank().get(whole).unwrap().get_def().unwrap()).unwrap();
    assert_eq!(outer.code(), OpCode::CPUI_PIECE);
    let inner_id = outer.get_in(0).unwrap();
    let inner_vn = fd.vbank().get(inner_id).unwrap();
    // What is joined on the way is a temporary.
    assert_eq!(inner_vn.get_addr().get_space(), Some(AddrSpace { index: 1, big_endian: false }));
    assert_eq!(inner_vn.get_offset(), 0);
    assert_eq!(inner_vn.get_size(), 6);
    let inner = fd.obank().get(inner_vn.get_def().unwrap()).unwrap();
    assert_eq!(inner.get_in(1), Some(live));
    let low = fd.vbank().get(outer.get_in(1).unwrap()).unwrap();
    assert_eq!(low.get_offset(), 0x106);
}

#[test]
fn many_inputs_are_tiled() {
    for space in [ram(), big()] {
        let mut fd = build_fd();
        let live: Vec<VarnodeId> = [(0x0fe, 4), (0x104, 1), (0x105, 3), (0x10a, 8)]
            .iter()
            .map(|(off, size)| input_at(&mut fd, Address::new(space, *off), *size))
            .collect();
        ask(&mut fd, Address::new(space, 0x100), 14);
        // The live inputs are there, and every byte of the request is in an input.
        for id in live {
            assert!(fd.vbank().get(id).unwrap().is_input());
        }
        let inputs = fd.vbank().input_varnodes();
        for off in 0x100u64..0x10e {
            let holders = inputs
                .iter()
                .filter(|i| i.vn.loc.base == Some(space))
                .filter(|i| {
                    i.vn.loc.offset <= off && off < i.vn.loc.offset + i.vn.size as u64
                })
                .count();
            assert_eq!(holders, 1);
        }
        assert!(fd.find_varnode_input(2, &Address::new(space, 0x102)).is_some());
        assert!(fd.find_varnode_input(2, &Address::new(space, 0x108)).is_some());
    }
}

#[test]
fn rebuilding_operations_stand_in_order_before_all_others() {
    let mut fd = build_fd();
    let start = fd.get_start_block().unwrap();
    let other = fd.new_block_basic();
    let live = input(&mut fd, 0x100, 4);
    let old = reader(&mut fd, start, OpCode::CPUI_COPY, &[live]);
    let apart = reader(&mut fd, other, OpCode::CPUI_COPY, &[live]);
    ask(&mut fd, addr(0x102), 8);
    // A slice and a join, at the address of the function.
    assert_eq!(fd.block_ops(start).unwrap(), &vec![PcodeOpId(2), PcodeOpId(3), old]);
    assert_eq!(fd.block_ops(other).unwrap(), &vec![apart]);
    assert_eq!(fd.obank().get(PcodeOpId(2)).unwrap().code(), OpCode::CPUI_SUBPIECE);
    assert_eq!(fd.obank().get(PcodeOpId(3)).unwrap().code(), OpCode::CPUI_PIECE);
    assert_eq!(fd.obank().get(PcodeOpId(3)).unwrap().addr, addr(0x1000));
    // What was there reads what it read.
    assert_eq!(fd.obank().get(old).unwrap().get_in(0), Some(live));
}

#[test]
fn masked_pieces_are_folded() {
    for space in [ram(), big()] {
        let mut fd = build_fd();
        let a = masked(&mut fd, Address::new(space, 0x104), 4);
        let b = masked(&mut fd, Address::new(space, 0x100), 2);
        let whole = ask(&mut fd, Address::new(space, 0x100), 8);
        let vn = fd.vbank().get(whole).unwrap();
        assert!(vn.is_input());
        assert!(vn.is_write_mask());
        assert!(fd.vbank().get(a).is_none());
        assert!(fd.vbank().get(b).is_none());
        // One input is left, and nothing read the pieces.
        assert_eq!(fd.vbank().input_varnodes().len(), 1);
        assert!(fd.obank().get(PcodeOpId(0)).is_none());
    }
}

#[test]
fn masked_pieces_are_folded_without_a_start_block() {
    let mut fd = build_bare();
    masked(&mut fd, addr(0x100), 2);
    let whole = ask(&mut fd, addr(0x100), 8);
    assert!(fd.vbank().get(whole).unwrap().is_input());
}

#[test]
fn readers_of_folded_pieces_read_the_same_bytes() {
    for space in [ram(), big()] {
        let mut fd = build_fd();
        let start = fd.get_start_block().unwrap();
        let low = masked(&mut fd, Address::new(space, 0x100), 4);
        let high = masked(&mut fd, Address::new(space, 0x104), 4);
        let (hi, lo) = if space.big_endian { (low, high) } else { (high, low) };
        let join = reader(&mut fd, start, OpCode::CPUI_PIECE, &[hi, lo]);
        let wide = reader(&mut fd, start, OpCode::Other(7), &[lo, lo, hi]);
        let before: Vec<Vec<u8>> = vec![value(&fd, hi), value(&fd, lo)];

        let whole = ask(&mut fd, Address::new(space, 0x100), 8);

        let join_op = fd.obank().get(join).unwrap();
        assert_eq!(join_op.code(), OpCode::CPUI_COPY);
        assert_eq!(join_op.num_input(), 1);
        assert_eq!(join_op.get_in(0), Some(whole));
        let wide_op = fd.obank().get(wide).unwrap();
        assert_eq!(wide_op.code(), OpCode::Other(7));
        assert_eq!(value(&fd, wide_op.get_in(0).unwrap()), before[1]);
        assert_eq!(value(&fd, wide_op.get_in(1).unwrap()), before[1]);
        assert_eq!(value(&fd, wide_op.get_in(2).unwrap()), before[0]);
        // The cuts stand before everything else, and have the storage of the pieces.
        let ops = fd.block_ops(start).unwrap();
        assert_eq!(ops.len(), 4);
        assert_eq!(ops[2..].to_vec(), vec![join, wide]);
        let cut = fd.vbank().get(wide_op.get_in(2).unwrap()).unwrap();
        assert!(cut.is_written());
        assert_eq!(cut.get_size(), 4);
        assert!(ops[..2].contains(&cut.get_def().unwrap()));
    }
}

#[test]
fn readers_of_three_folded_pieces_read_the_same_bytes() {
    for space in [ram(), big()] {
        let mut fd = build_fd();
        let start = fd.get_start_block().unwrap();
        let pieces: Vec<VarnodeId> = [(0x101, 1), (0x102, 4), (0x107, 1)]
            .iter()
            .map(|(off, size)| masked(&mut fd, Address::new(space, *off), *size))
            .collect();
        let read = reader(&mut fd, start, OpCode::Other(9), &pieces);
        let before: Vec<Vec<u8>> = pieces.iter().map(|id| value(&fd, *id)).collect();
        let whole = ask(&mut fd, Address::new(space, 0x100), 8);
        assert!(fd.vbank().get(whole).unwrap().is_input());
        let op = fd.obank().get(read).unwrap();
        for (slot, bytes) in before.iter().enumerate() {
            assert_eq!(&value(&fd, op.get_in(slot).unwrap()), bytes);
        }
    }
}

#[test]
fn one_live_input_in_the_way_keeps_all_pieces() {
    let mut fd = build_fd();
    let piece = masked(&mut fd, addr(0x100), 2);
    let live = input(&mut fd, 0x102, 2);
    let whole = ask(&mut fd, addr(0x100), 4);
    assert!(fd.vbank().get(whole).unwrap().is_written());
    assert!(fd.vbank().get(piece).unwrap().is_input());
    assert!(fd.vbank().get(live).unwrap().is_input());
}

#[test]
fn straddling_masked_piece_is_sliced() {
    let mut fd = build_fd();
    let piece = masked(&mut fd, addr(0x100), 4);
    let whole = ask(&mut fd, addr(0x102), 4);
    assert!(fd.vbank().get(whole).unwrap().is_written());
    assert!(fd.vbank().get(piece).unwrap().is_input());
    assert_eq!(combine_covered_pieces(&mut fd, 4, &addr(0x102)), None);
}

#[test]
fn request_of_one_live_input_is_rebuilt_as_itself() {
    let mut fd = build_fd();
    let live = input(&mut fd, 0x100, 4);
    assert_eq!(compose_overlapping_inputs(&mut fd, 4, &addr(0x100)), Some(live));
    assert_eq!(combine_covered_pieces(&mut fd, 4, &addr(0x100)), None);
    assert!(fd.obank().get(PcodeOpId(0)).is_none());
}

#[test]
fn nothing_in_the_way_is_neither_folded_nor_rebuilt() {
    let mut fd = build_fd();
    input(&mut fd, 0x100, 4);
    assert_eq!(compose_overlapping_inputs(&mut fd, 4, &addr(0x104)), None);
    assert_eq!(combine_covered_pieces(&mut fd, 4, &addr(0x104)), None);
}

#[test]
fn only_requests_that_need_it_wait_for_a_start_block() {
    let mut fd = build_bare();
    let live = input(&mut fd, 0x100, 4);
    assert_eq!(new_tiled_input(&mut fd, 8, &addr(0x100)), None);
    assert_eq!(new_tiled_input(&mut fd, 4, &addr(0x100)), Some(live));
    ask(&mut fd, addr(0x104), 4);
    let block = fd.new_block_basic();
    fd.set_start_block(block);
    ask(&mut fd, addr(0x100), 8);
}

#[test]
fn temporaries_follow_each_other() {
    let mut fd = build_fd();
    for off in [0x100, 0x104, 0x108, 0x10c] {
        input(&mut fd, off, 2);
    }
    let whole = ask(&mut fd, addr(0x100), 14);
    // Seven parts, six joins: five of them are temporaries, of 4 to 12 bytes, joined
    // from the highest offset down.
    let mut id = whole;
    let mut found: Vec<(u64, i32)> = Vec::new();
    while let Some(def) = fd.vbank().get(id).unwrap().get_def() {
        id = fd.obank().get(def).unwrap().get_in(0).unwrap();
        let vn = fd.vbank().get(id).unwrap();
        if vn.is_written() {
            found.push((vn.get_offset(), vn.get_size()));
        }
    }
    assert_eq!(found, vec![(28, 12), (18, 10), (10, 8), (4, 6), (0, 4)]);
}

#[test]
fn fold_that_needs_a_cut_stops_without_a_start_block() {
    let mut fd = build_bare();
    let low = masked(&mut fd, addr(0x100), 2);
    let high = masked(&mut fd, addr(0x102), 2);
    let read = fd.new_op(1, addr(0x1000));
    fd.op_set_input(read, high, 0).unwrap();
    assert_eq!(new_tiled_input(&mut fd, 8, &addr(0x100)), None);
    // The hole was filled before the first pair was tried; no input is gone.
    assert!(fd.vbank().get(low).unwrap().is_input());
    assert!(fd.vbank().get(high).unwrap().is_input());
    assert!(fd.find_varnode_input(4, &addr(0x104)).is_some());
    assert_eq!(fd.obank().get(read).unwrap().get_in(0), Some(high));
    // Once the block is known the same request is answered.
    let block = fd.new_block_basic();
    fd.set_start_block(block);
    ask(&mut fd, addr(0x100), 8);
    assert_eq!(value(&fd, fd.obank().get(read).unwrap().get_in(0).unwrap()), entry(addr(0x102), 2));
}

#[test]
fn fold_stops_between_two_pairs() {
    let mut fd = build_bare();
    let first = masked(&mut fd, addr(0x100), 2);
    let second = masked(&mut fd, addr(0x102), 2);
    let third = masked(&mut fd, addr(0x104), 2);
    let read = fd.new_op(1, addr(0x1000));
    fd.op_set_input(read, third, 0).unwrap();
    assert_eq!(combine_covered_pieces(&mut fd, 6, &addr(0x100)), None);
    assert!(fd.vbank().get(first).is_none());
    assert!(fd.vbank().get(second).is_none());
    let joined = fd.find_varnode_input(4, &addr(0x100)).expect("the first pair was folded");
    assert!(fd.vbank().get(joined).unwrap().is_write_mask());
    assert!(fd.vbank().get(third).unwrap().is_input());
}

#[test]
fn join_of_the_whole_request_needs_no_cut() {
    let mut fd = build_bare();
    let low = masked(&mut fd, addr(0x100), 4);
    let high = masked(&mut fd, addr(0x104), 4);
    let join = fd.new_op(2, addr(0x1000));
    fd.op_set_opcode_code(join, OpCode::CPUI_PIECE);
    fd.op_set_input(join, high, 0).unwrap();
    fd.op_set_input(join, low, 1).unwrap();
    let whole = ask(&mut fd, addr(0x100), 8);
    assert_eq!(fd.obank().get(join).unwrap().code(), OpCode::CPUI_COPY);
    assert_eq!(fd.obank().get(join).unwrap().get_in(0), Some(whole));
}

#[test]
fn inputs_out_of_the_way_change_nothing() {
    let elsewhere = [
        Address::new(big(), 0x100),
        addr(0x0fc),
        addr(0x108),
        addr(0x4000),
    ];
    for at in elsewhere {
        let mut plain = build_fd();
        let mut more = build_fd();
        // The same names are given out in both: one of them stays free in the first.
        let unused = plain.new_varnode(4, &at);
        plain.delete_varnode(unused).unwrap();
        let extra = input_at(&mut more, at, 4);
        assert_eq!(unused, extra);
        let mut answers = Vec::new();
        for fd in [&mut plain, &mut more] {
            let start = fd.get_start_block().unwrap();
            let low = masked(fd, addr(0x101), 2);
            let high = masked(fd, addr(0x104), 2);
            reader(fd, start, OpCode::Other(3), &[low, high]);
            let folded = ask(fd, addr(0x100), 8);
            let live = input(fd, 0x200, 4);
            let rebuilt = ask(fd, addr(0x1fe), 8);
            answers.push((folded, live, rebuilt));
        }
        assert_eq!(answers[0], answers[1]);
        let extra_ref = more.vbank().get(extra).unwrap();
        assert!(extra_ref.is_input());
        assert_eq!(extra_ref.get_addr(), at);
        assert_eq!(extra_ref.get_size(), 4);
        assert_eq!(
            plain.vbank().input_varnodes().len() + 1,
            more.vbank().input_varnodes().len()
        );
    }
}
