//! Decoding of single instructions and the classification queries that the
//! control-flow analyses ask of them.
use vstd::prelude::*;

use crate::image::{a16, a8, d16, d8, r8, signed_byte, word_at, Cartridge};

verus! {

/// Branch condition of a conditional jump, call or return.
#[derive(Clone, Copy, Debug, PartialEq, Eq, Structural)]
pub enum Condition {
    NZ,
    Z,
    NC,
    C,
}

/// The immediate operand that follows an opcode byte.
#[derive(Clone, Copy, Debug, PartialEq, Eq, Structural)]
pub enum Operand {
    Implied,
    D8(d8),
    D16(d16),
    A8(a8),
    A16(a16),
    R8(r8),
}

/// Which kind of operand an opcode byte takes.
#[derive(Clone, Copy, Debug, PartialEq, Eq, Structural)]
pub enum OperandKind {
    Implied,
    D8,
    D16,
    A8,
    A16,
    R8,
}

/// A decoded instruction: its opcode byte and its operand. For the
/// two-byte extended instructions the code is the prefix byte `0xCB` and the
/// operand holds the second byte.
#[derive(Clone, Copy, Debug, PartialEq, Eq, Structural)]
pub struct OpCode {
    pub code: u8,
    pub operand: Operand,
}

/// An instruction together with the address it was decoded at.
#[derive(Clone, Copy, Debug, PartialEq, Eq, Structural)]
pub struct Instruction {
    pub address: usize,
    pub op_code: OpCode,
}

/// Why no instruction could be decoded at an address.
#[derive(Clone, Copy, Debug, PartialEq, Eq, Structural)]
pub enum DecodeError {
    /// The byte at `address` is no defined opcode.
    UndefinedOpcode { address: usize, opcode: u8 },
    /// The instruction at `address` starts or ends past the end of the image.
    OutOfImage { address: usize },
}

/// How an instruction passes control on.
#[derive(Clone, Copy, Debug, PartialEq, Eq, Structural)]
pub enum Flow {
    /// Execution goes on at the next instruction.
    Plain,
    /// Execution goes on at the target.
    Jump,
    /// Execution goes on at the target or at the next instruction.
    ConditionalJump(Condition),
    /// Execution goes on at an address held in a register.
    IndirectJump,
    /// The target is called; the next instruction is the return address.
    Call,
    /// The target may be called; otherwise execution goes on.
    ConditionalCall(Condition),
    /// A one-byte call to one of eight fixed vectors.
    Restart,
    /// Control returns to the innermost caller.
    Return,
    /// Control may return to the caller; otherwise execution goes on.
    ConditionalReturn(Condition),
}

/// The opcode bytes that are not defined.
pub open spec fn is_defined_code(b: u8) -> bool {
    !(b == 0xD3 || b == 0xDB || b == 0xDD || b == 0xE3 || b == 0xE4 || b == 0xEB || b == 0xEC
        || b == 0xED || b == 0xF4 || b == 0xFC || b == 0xFD)
}

pub open spec fn operand_kind_of(b: u8) -> OperandKind {
    if b == 0x01 || b == 0x11 || b == 0x21 || b == 0x31 {
        OperandKind::D16
    } else if b == 0x08 || b == 0xC2 || b == 0xC3 || b == 0xC4 || b == 0xCA || b == 0xCC || b
        == 0xCD || b == 0xD2 || b == 0xD4 || b == 0xDA || b == 0xDC || b == 0xEA || b == 0xFA {
        OperandKind::A16
    } else if b == 0x06 || b == 0x0E || b == 0x16 || b == 0x1E || b == 0x26 || b == 0x2E || b
        == 0x36 || b == 0x3E || b == 0xC6 || b == 0xCE || b == 0xD6 || b == 0xDE || b == 0xE6
        || b == 0xEE || b == 0xF6 || b == 0xFE || b == 0xCB {
        OperandKind::D8
    } else if b == 0xE0 || b == 0xF0 {
        OperandKind::A8
    } else if b == 0x18 || b == 0x20 || b == 0x28 || b == 0x30 || b == 0x38 || b == 0xE8 || b
        == 0xF8 {
        OperandKind::R8
    } else {
        OperandKind::Implied
    }
}

pub open spec fn operand_len(k: OperandKind) -> nat {
    match k {
        OperandKind::Implied => 0,
        OperandKind::D8 | OperandKind::A8 | OperandKind::R8 => 1,
        OperandKind::D16 | OperandKind::A16 => 2,
    }
}

/// The condition encoded in bits 3 and 4 of a conditional opcode.
pub open spec fn condition_of(b: u8) -> Condition {
    let c = (b / 8) % 4;
    if c == 0 {
        Condition::NZ
    } else if c == 1 {
        Condition::Z
    } else if c == 2 {
        Condition::NC
    } else {
        Condition::C
    }
}

pub open spec fn flow_of(b: u8) -> Flow {
    if b == 0xC3 || b == 0x18 {
        Flow::Jump
    } else if b == 0xC2 || b == 0xCA || b == 0xD2 || b == 0xDA || b == 0x20 || b == 0x28 || b
        == 0x30 || b == 0x38 {
        Flow::ConditionalJump(condition_of(b))
    } else if b == 0xE9 {
        Flow::IndirectJump
    } else if b == 0xCD {
        Flow::Call
    } else if b == 0xC4 || b == 0xCC || b == 0xD4 || b == 0xDC {
        Flow::ConditionalCall(condition_of(b))
    } else if b == 0xC7 || b == 0xCF || b == 0xD7 || b == 0xDF || b == 0xE7 || b == 0xEF || b
        == 0xF7 || b == 0xFF {
        Flow::Restart
    } else if b == 0xC9 || b == 0xD9 {
        Flow::Return
    } else if b == 0xC0 || b == 0xC8 || b == 0xD0 || b == 0xD8 {
        Flow::ConditionalReturn(condition_of(b))
    } else {
        Flow::Plain
    }
}

/// The operand of kind `k` read from the bytes after `address`.
pub open spec fn operand_at(image: Seq<u8>, address: int, k: OperandKind) -> Operand {
    match k {
        OperandKind::Implied => Operand::Implied,
        OperandKind::D8 => Operand::D8(d8 { value: image[address + 1] }),
        OperandKind::A8 => Operand::A8(a8 { value: image[address + 1] }),
        OperandKind::R8 => Operand::R8(r8 { value: signed_byte(image[address + 1]) as i8 }),
        OperandKind::D16 => Operand::D16(d16 { value: word_at(image, address + 1) as u16 }),
        OperandKind::A16 => Operand::A16(a16 { value: word_at(image, address + 1) as u16 }),
    }
}

/// What decoding the image at `address` gives.
pub open spec fn decoded(image: Seq<u8>, address: usize) -> Result<Instruction, DecodeError> {
    if address >= image.len() {
        Err(DecodeError::OutOfImage { address })
    } else if !is_defined_code(image[address as int]) {
        Err(DecodeError::UndefinedOpcode { address, opcode: image[address as int] })
    } else {
        let b = image[address as int];
        let k = operand_kind_of(b);
        if address + 1 + operand_len(k) > image.len() {
            Err(DecodeError::OutOfImage { address })
        } else {
            Ok(
                Instruction {
                    address,
                    op_code: OpCode { code: b, operand: operand_at(image, address as int, k) },
                },
            )
        }
    }
}

/// An address computed in the flat address space, wrapped as the machine's
/// word wraps.
pub open spec fn wrap_address(t: int) -> int {
    if t < 0 {
        t + usize::MAX + 1
    } else if t > usize::MAX {
        t - usize::MAX - 1
    } else {
        t
    }
}

impl DecodeError {
    pub open spec fn spec_address(self) -> usize {
        match self {
            DecodeError::UndefinedOpcode { address, .. } => address,
            DecodeError::OutOfImage { address } => address,
        }
    }

    pub fn address(&self) -> (r: usize)
        ensures
            r == self.spec_address(),
    {
        match self {
            DecodeError::UndefinedOpcode { address, .. } => *address,
            DecodeError::OutOfImage { address } => *address,
        }
    }
}

impl Instruction {
    /// Byte length of the instruction.
    pub open spec fn spec_size(self) -> nat {
        1 + operand_len(operand_kind_of(self.op_code.code))
    }

    pub open spec fn spec_flow(self) -> Flow {
        flow_of(self.op_code.code)
    }

    /// Address of the instruction that follows in memory.
    pub open spec fn spec_next_address(self) -> int {
        self.address + self.spec_size()
    }

    /// Static jump target, if the instruction is a direct jump.
    pub open spec fn spec_jump_target(self) -> Option<int> {
        match self.op_code.operand {
            Operand::A16(v) => match self.spec_flow() {
                Flow::Jump | Flow::ConditionalJump(_) => Some(v.value as int),
                _ => None,
            },
            Operand::R8(v) => match self.spec_flow() {
                Flow::Jump | Flow::ConditionalJump(_) => Some(
                    wrap_address(self.spec_next_address() + v.value),
                ),
                _ => None,
            },
            _ => None,
        }
    }

    /// Static call target, if the instruction is a call or a restart.
    pub open spec fn spec_call_target(self) -> Option<int> {
        match self.spec_flow() {
            Flow::Call | Flow::ConditionalCall(_) => match self.op_code.operand {
                Operand::A16(v) => Some(v.value as int),
                _ => None,
            },
            Flow::Restart => Some(self.op_code.code - 0xC7),
            _ => None,
        }
    }

    pub open spec fn spec_condition(self) -> Option<Condition> {
        match self.spec_flow() {
            Flow::ConditionalJump(c) | Flow::ConditionalCall(c) | Flow::ConditionalReturn(c) => Some(
                c,
            ),
            _ => None,
        }
    }

    pub open spec fn spec_is_jump(self) -> bool {
        match self.spec_flow() {
            Flow::Jump | Flow::ConditionalJump(_) | Flow::IndirectJump => true,
            _ => false,
        }
    }

    pub open spec fn spec_is_return(self) -> bool {
        match self.spec_flow() {
            Flow::Return | Flow::ConditionalReturn(_) => true,
            _ => false,
        }
    }

    /// Whether execution may go on at the next instruction regardless of
    /// what any callee does.
    pub open spec fn spec_can_continue(self) -> bool {
        match self.spec_flow() {
            Flow::Plain | Flow::ConditionalJump(_) | Flow::ConditionalCall(_)
            | Flow::ConditionalReturn(_) => true,
            _ => false,
        }
    }

    pub fn size(&self) -> (r: usize)
        ensures
            r == self.spec_size(),
            1 <= r <= 3,
    {
        1 + operand_length(operand_kind(self.op_code.code))
    }

    pub fn flow(&self) -> (r: Flow)
        ensures
            r == self.spec_flow(),
    {
        flow(self.op_code.code)
    }

    pub fn next_address(&self) -> (r: usize)
        requires
            self.spec_next_address() <= usize::MAX,
        ensures
            r == self.spec_next_address(),
    {
        self.address + self.size()
    }

    pub fn jump_target(&self) -> (r: Option<usize>)
        requires
            self.spec_next_address() <= usize::MAX,
        ensures
            r.is_some() == self.spec_jump_target().is_some(),
            r.is_some() ==> r.unwrap() == self.spec_jump_target().unwrap(),
    {
        match self.op_code.operand {
            Operand::A16(v) => match self.flow() {
                Flow::Jump | Flow::ConditionalJump(_) => Some(v.value as usize),
                _ => None,
            },
            Operand::R8(v) => match self.flow() {
                Flow::Jump | Flow::ConditionalJump(_) => Some(
                    offset_address(self.next_address(), v.value),
                ),
                _ => None,
            },
            _ => None,
        }
    }

    pub fn call_target(&self) -> (r: Option<usize>)
        ensures
            r.is_some() == self.spec_call_target().is_some(),
            r.is_some() ==> r.unwrap() == self.spec_call_target().unwrap(),
    {
        match self.flow() {
            Flow::Call | Flow::ConditionalCall(_) => match self.op_code.operand {
                Operand::A16(v) => Some(v.value as usize),
                _ => None,
            },
            Flow::Restart => Some(get_rst_value(self.op_code.code)),
            _ => None,
        }
    }

    pub fn condition(&self) -> (r: Option<Condition>)
        ensures
            r == self.spec_condition(),
    {
        match self.flow() {
            Flow::ConditionalJump(c) | Flow::ConditionalCall(c) | Flow::ConditionalReturn(c) => Some(
                c,
            ),
            _ => None,
        }
    }

    pub fn is_jump(&self) -> (r: bool)
        ensures
            r == self.spec_is_jump(),
    {
        match self.flow() {
            Flow::Jump | Flow::ConditionalJump(_) | Flow::IndirectJump => true,
            _ => false,
        }
    }

    pub fn is_return(&self) -> (r: bool)
        ensures
            r == self.spec_is_return(),
    {
        match self.flow() {
            Flow::Return | Flow::ConditionalReturn(_) => true,
            _ => false,
        }
    }

    pub fn can_continue(&self) -> (r: bool)
        ensures
            r == self.spec_can_continue(),
    {
        match self.flow() {
            Flow::Plain | Flow::ConditionalJump(_) | Flow::ConditionalCall(_)
            | Flow::ConditionalReturn(_) => true,
            _ => false,
        }
    }
}

/// The vector a restart opcode calls: bits 3 to 5 of the opcode times 8.
fn get_rst_value(code: u8) -> (r: usize)
    requires
        flow_of(code) == Flow::Restart,
    ensures
        r == code - 0xC7,
{
    (code - 0xC7) as usize
}

/// `base + offset` in the flat address space.
fn offset_address(base: usize, offset: i8) -> (r: usize)
    ensures
        r == wrap_address(base + offset),
{
    if offset >= 0 {
        let d = offset as usize;
        if base <= usize::MAX - d {
            base + d
        } else {
            d - (usize::MAX - base) - 1
        }
    } else {
        let d = (-(offset as i16)) as usize;
        if base >= d {
            base - d
        } else {
            usize::MAX - (d - base) + 1
        }
    }
}

fn is_defined(b: u8) -> (r: bool)
    ensures
        r == is_defined_code(b),
{
    !(b == 0xD3 || b == 0xDB || b == 0xDD || b == 0xE3 || b == 0xE4 || b == 0xEB || b == 0xEC
        || b == 0xED || b == 0xF4 || b == 0xFC || b == 0xFD)
}

fn operand_kind(b: u8) -> (r: OperandKind)
    ensures
        r == operand_kind_of(b),
{
    if b == 0x01 || b == 0x11 || b == 0x21 || b == 0x31 {
        OperandKind::D16
    } else if b == 0x08 || b == 0xC2 || b == 0xC3 || b == 0xC4 || b == 0xCA || b == 0xCC || b
        == 0xCD || b == 0xD2 || b == 0xD4 || b == 0xDA || b == 0xDC || b == 0xEA || b == 0xFA {
        OperandKind::A16
    } else if b == 0x06 || b == 0x0E || b == 0x16 || b == 0x1E || b == 0x26 || b == 0x2E || b
        == 0x36 || b == 0x3E || b == 0xC6 || b == 0xCE || b == 0xD6 || b == 0xDE || b == 0xE6
        || b == 0xEE || b == 0xF6 || b == 0xFE || b == 0xCB {
        OperandKind::D8
    } else if b == 0xE0 || b == 0xF0 {
        OperandKind::A8
    } else if b == 0x18 || b == 0x20 || b == 0x28 || b == 0x30 || b == 0x38 || b == 0xE8 || b
        == 0xF8 {
        OperandKind::R8
    } else {
        OperandKind::Implied
    }
}

fn operand_length(k: OperandKind) -> (r: usize)
    ensures
        r == operand_len(k),
        r <= 2,
{
    match k {
        OperandKind::Implied => 0,
        OperandKind::D8 | OperandKind::A8 | OperandKind::R8 => 1,
        OperandKind::D16 | OperandKind::A16 => 2,
    }
}

fn condition(b: u8) -> (r: Condition)
    ensures
        r == condition_of(b),
{
    let c = (b / 8) % 4;
    if c == 0 {
        Condition::NZ
    } else if c == 1 {
        Condition::Z
    } else if c == 2 {
        Condition::NC
    } else {
        Condition::C
    }
}

fn flow(b: u8) -> (r: Flow)
    ensures
        r == flow_of(b),
{
    if b == 0xC3 || b == 0x18 {
        Flow::Jump
    } else if b == 0xC2 || b == 0xCA || b == 0xD2 || b == 0xDA || b == 0x20 || b == 0x28 || b
        == 0x30 || b == 0x38 {
        Flow::ConditionalJump(condition(b))
    } else if b == 0xE9 {
        Flow::IndirectJump
    } else if b == 0xCD {
        Flow::Call
    } else if b == 0xC4 || b == 0xCC || b == 0xD4 || b == 0xDC {
        Flow::ConditionalCall(condition(b))
    } else if b == 0xC7 || b == 0xCF || b == 0xD7 || b == 0xDF || b == 0xE7 || b == 0xEF || b
        == 0xF7 || b == 0xFF {
        Flow::Restart
    } else if b == 0xC9 || b == 0xD9 {
        Flow::Return
    } else if b == 0xC0 || b == 0xC8 || b == 0xD0 || b == 0xD8 {
        Flow::ConditionalReturn(condition(b))
    } else {
        Flow::Plain
    }
}

/// Decodes the instruction at `address`.
pub fn decode_at(cartridge: &Cartridge, address: usize) -> (r: Result<Instruction, DecodeError>)
    ensures
        r == decoded(cartridge@, address),
        r matches Ok(i) ==> i.address == address && address + i.spec_size() <= cartridge@.len(),
{
    if address >= cartridge.len() {
        return Err(DecodeError::OutOfImage { address });
    }
    let b = cartridge.byte(address);
    if !is_defined(b) {
        return Err(DecodeError::UndefinedOpcode { address, opcode: b });
    }
    let k = operand_kind(b);
    let n = operand_length(k);
    if n >= cartridge.len() - address {
        return Err(DecodeError::OutOfImage { address });
    }
    let operand = match k {
        OperandKind::Implied => Operand::Implied,
        OperandKind::D8 => Operand::D8(d8::at(cartridge, address + 1)),
        OperandKind::A8 => Operand::A8(a8::at(cartridge, address + 1)),
        OperandKind::R8 => Operand::R8(r8::at(cartridge, address + 1)),
        OperandKind::D16 => Operand::D16(d16::at(cartridge, address + 1)),
        OperandKind::A16 => Operand::A16(a16::at(cartridge, address + 1)),
    };
    Ok(Instruction { address, op_code: OpCode { code: b, operand } })
}

} // verus!
