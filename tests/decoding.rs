use gb_analyzer::image::{a16, a8, d16, d8, r8, Cartridge, CartridgeType};
use gb_analyzer::instruction::{decode_at, Condition, DecodeError, Flow, Operand};

#[test]
fn operand_readers() {
    let cart = Cartridge::new(vec![0x34, 0x12, 0xFE, 0x05]);
    assert_eq!(d8::at(&cart, 0).value, 0x34);
    assert_eq!(a8::at(&cart, 1).value, 0x12);
    assert_eq!(d16::at(&cart, 0).value, 0x1234);
    assert_eq!(a16::at(&cart, 2).value, 0x05FE);
    assert_eq!(r8::at(&cart, 2).value, -2);
    assert_eq!(r8::at(&cart, 3).value, 5);
}

#[test]
fn cartridge_type_from_byte() {
    assert_eq!(CartridgeType::from_byte(0x00), Some(CartridgeType::ROM_ONLY));
    assert_eq!(CartridgeType::from_byte(0x13), Some(CartridgeType::MBC3_RAM_BATTERY));
    assert_eq!(CartridgeType::from_byte(0xFF), Some(CartridgeType::HuC1_RAM_BATTERY));
    assert_eq!(CartridgeType::from_byte(0x04), None);
    assert_eq!(CartridgeType::from_byte(0x21), None);
}

#[test]
fn cartridge_type_from_header() {
    let mut bytes = vec![0u8; 0x150];
    bytes[0x147] = 0x1B;
    assert_eq!(Cartridge::new(bytes).cartridge_type(), Some(CartridgeType::MBC5_RAM_BATTERY));
    assert_eq!(Cartridge::new(vec![0u8; 0x100]).cartridge_type(), None);
}

#[test]
fn decode_sizes_and_operands() {
    let cart = Cartridge::new(vec![0x00, 0x3E, 0x42, 0xC3, 0x50, 0x01, 0xCB, 0x7C]);
    let nop = decode_at(&cart, 0).ok().unwrap();
    assert_eq!(nop.size(), 1);
    assert_eq!(nop.flow(), Flow::Plain);
    let ld = decode_at(&cart, 1).ok().unwrap();
    assert_eq!(ld.size(), 2);
    assert_eq!(ld.op_code.operand, Operand::D8(d8 { value: 0x42 }));
    let jp = decode_at(&cart, 3).ok().unwrap();
    assert_eq!(jp.size(), 3);
    assert_eq!(jp.flow(), Flow::Jump);
    assert_eq!(jp.jump_target(), Some(0x0150));
    assert_eq!(jp.next_address(), 6);
    let bit = decode_at(&cart, 6).ok().unwrap();
    assert_eq!(bit.size(), 2);
    assert_eq!(bit.op_code.code, 0xCB);
}

#[test]
fn decode_errors() {
    let cart = Cartridge::new(vec![0xDD, 0x00, 0xC3, 0x00]);
    assert_eq!(
        decode_at(&cart, 0),
        Err(DecodeError::UndefinedOpcode { address: 0, opcode: 0xDD })
    );
    assert_eq!(decode_at(&cart, 2), Err(DecodeError::OutOfImage { address: 2 }));
    assert_eq!(decode_at(&cart, 9), Err(DecodeError::OutOfImage { address: 9 }));
    assert_eq!(DecodeError::OutOfImage { address: 9 }.address(), 9);
}

#[test]
fn relative_jumps_resolve_against_next_instruction() {
    let mut bytes = vec![0u8; 0x20];
    bytes[0x10] = 0x18; // JR -4
    bytes[0x11] = 0xFC;
    bytes[0x12] = 0x38; // JR C,+3
    bytes[0x13] = 0x03;
    let cart = Cartridge::new(bytes);
    let back = decode_at(&cart, 0x10).ok().unwrap();
    assert_eq!(back.jump_target(), Some(0x0E));
    let forward = decode_at(&cart, 0x12).ok().unwrap();
    assert_eq!(forward.jump_target(), Some(0x17));
    assert_eq!(forward.condition(), Some(Condition::C));
    assert!(forward.is_jump());
    assert!(forward.can_continue());
}

#[test]
fn calls_returns_and_restarts() {
    let cart = Cartridge::new(vec![0xCD, 0x34, 0x12, 0xD4, 0x00, 0x40, 0xFF, 0xC9, 0xC0, 0xE9, 0xD9]);
    let call = decode_at(&cart, 0).ok().unwrap();
    assert_eq!(call.call_target(), Some(0x1234));
    assert_eq!(call.jump_target(), None);
    assert!(!call.can_continue());
    let conditional = decode_at(&cart, 3).ok().unwrap();
    assert_eq!(conditional.flow(), Flow::ConditionalCall(Condition::NC));
    assert_eq!(conditional.call_target(), Some(0x4000));
    let restart = decode_at(&cart, 6).ok().unwrap();
    assert_eq!(restart.flow(), Flow::Restart);
    assert_eq!(restart.call_target(), Some(0x38));
    let ret = decode_at(&cart, 7).ok().unwrap();
    assert!(ret.is_return());
    assert_eq!(ret.condition(), None);
    let ret_nz = decode_at(&cart, 8).ok().unwrap();
    assert_eq!(ret_nz.flow(), Flow::ConditionalReturn(Condition::NZ));
    let indirect = decode_at(&cart, 9).ok().unwrap();
    assert_eq!(indirect.flow(), Flow::IndirectJump);
    assert_eq!(indirect.jump_target(), None);
    assert!(indirect.is_jump());
    let reti = decode_at(&cart, 10).ok().unwrap();
    assert_eq!(reti.flow(), Flow::Return);
}
