//! The raw cartridge image, its header type byte, and the operand readers.
use vstd::prelude::*;

verus! {

/// Address at which execution of a cartridge starts.
pub const ENTRY_POINT: usize = 0x0100;

/// Address of the header byte that names the cartridge's hardware.
pub const TYPE_ADDRESS: usize = 0x0147;

/// A cartridge image: the bytes of the ROM, addressed flatly from 0.
pub struct Cartridge {
    data: Vec<u8>,
}

impl View for Cartridge {
    type V = Seq<u8>;

    closed spec fn view(&self) -> Seq<u8> {
        self.data@
    }
}

impl Cartridge {
    pub fn new(data: Vec<u8>) -> (r: Cartridge)
        ensures
            r@ == data@,
    {
        Cartridge { data }
    }

    pub fn len(&self) -> (r: usize)
        ensures
            r == self@.len(),
    {
        self.data.len()
    }

    pub fn byte(&self, address: usize) -> (r: u8)
        requires
            address < self@.len(),
        ensures
            r == self@[address as int],
    {
        self.data[address]
    }

    /// The hardware named by the header, or `None` when the image is too
    /// short to hold a header or the byte names no known hardware.
    pub fn cartridge_type(&self) -> (r: Option<CartridgeType>)
        ensures
            self@.len() <= TYPE_ADDRESS ==> r.is_none(),
            self@.len() > TYPE_ADDRESS ==> match r {
                Some(t) => t.code() == self@[TYPE_ADDRESS as int],
                None => !CartridgeType::is_known_code(self@[TYPE_ADDRESS as int]),
            },
    {
        if self.data.len() <= TYPE_ADDRESS {
            None
        } else {
            CartridgeType::from_byte(self.data[TYPE_ADDRESS])
        }
    }
}

#[allow(non_camel_case_types)]
#[derive(Clone, Copy, Debug, PartialEq, Eq, Structural)]
pub enum CartridgeType {
    ROM_ONLY,
    MBC1,
    MBC1_RAM,
    MBC1_RAM_BATTERY,
    MBC2,
    MBC2_BATTERY,
    ROM_RAM,
    ROM_RAM_BATTERY,
    MMM01,
    MMM01_RAM,
    MMM01_RAM_BATTERY,
    MBC3_TIMER_BATTERY,
    MBC3_TIMER_RAM_BATTERY,
    MBC3,
    MBC3_RAM,
    MBC3_RAM_BATTERY,
    MBC5,
    MBC5_RAM,
    MBC5_RAM_BATTERY,
    MBC5_RUMBLE,
    MBC5_RUMBLE_RAM,
    MBC5_RUMBLE_RAM_BATTERY,
    MBC6,
    MBC7_SENSOR_RUMBLE_RAM_BATTERY,
    POCKET_CAMERA,
    BANDAI_TAMA5,
    HuC3,
    HuC1_RAM_BATTERY,
}

impl CartridgeType {
    /// The header byte that names this hardware.
    pub open spec fn code(self) -> u8 {
        match self {
            CartridgeType::ROM_ONLY => 0x00,
            CartridgeType::MBC1 => 0x01,
            CartridgeType::MBC1_RAM => 0x02,
            CartridgeType::MBC1_RAM_BATTERY => 0x03,
            CartridgeType::MBC2 => 0x05,
            CartridgeType::MBC2_BATTERY => 0x06,
            CartridgeType::ROM_RAM => 0x08,
            CartridgeType::ROM_RAM_BATTERY => 0x09,
            CartridgeType::MMM01 => 0x0B,
            CartridgeType::MMM01_RAM => 0x0C,
            CartridgeType::MMM01_RAM_BATTERY => 0x0D,
            CartridgeType::MBC3_TIMER_BATTERY => 0x0F,
            CartridgeType::MBC3_TIMER_RAM_BATTERY => 0x10,
            CartridgeType::MBC3 => 0x11,
            CartridgeType::MBC3_RAM => 0x12,
            CartridgeType::MBC3_RAM_BATTERY => 0x13,
            CartridgeType::MBC5 => 0x19,
            CartridgeType::MBC5_RAM => 0x1A,
            CartridgeType::MBC5_RAM_BATTERY => 0x1B,
            CartridgeType::MBC5_RUMBLE => 0x1C,
            CartridgeType::MBC5_RUMBLE_RAM => 0x1D,
            CartridgeType::MBC5_RUMBLE_RAM_BATTERY => 0x1E,
            CartridgeType::MBC6 => 0x20,
            CartridgeType::MBC7_SENSOR_RUMBLE_RAM_BATTERY => 0x22,
            CartridgeType::POCKET_CAMERA => 0xFC,
            CartridgeType::BANDAI_TAMA5 => 0xFD,
            CartridgeType::HuC3 => 0xFE,
            CartridgeType::HuC1_RAM_BATTERY => 0xFF,
        }
    }

    /// Whether some hardware is named by `byte`.
    pub open spec fn is_known_code(byte: u8) -> bool {
        exists|t: CartridgeType| t.code() == byte
    }

    pub fn from_byte(byte: u8) -> (r: Option<CartridgeType>)
        ensures
            match r {
                Some(t) => t.code() == byte,
                None => !CartridgeType::is_known_code(byte),
            },
    {
        match byte {
            0x00 => Some(CartridgeType::ROM_ONLY),
            0x01 => Some(CartridgeType::MBC1),
            0x02 => Some(CartridgeType::MBC1_RAM),
            0x03 => Some(CartridgeType::MBC1_RAM_BATTERY),
            0x05 => Some(CartridgeType::MBC2),
            0x06 => Some(CartridgeType::MBC2_BATTERY),
            0x08 => Some(CartridgeType::ROM_RAM),
            0x09 => Some(CartridgeType::ROM_RAM_BATTERY),
            0x0B => Some(CartridgeType::MMM01),
            0x0C => Some(CartridgeType::MMM01_RAM),
            0x0D => Some(CartridgeType::MMM01_RAM_BATTERY),
            0x0F => Some(CartridgeType::MBC3_TIMER_BATTERY),
            0x10 => Some(CartridgeType::MBC3_TIMER_RAM_BATTERY),
            0x11 => Some(CartridgeType::MBC3),
            0x12 => Some(CartridgeType::MBC3_RAM),
            0x13 => Some(CartridgeType::MBC3_RAM_BATTERY),
            0x19 => Some(CartridgeType::MBC5),
            0x1A => Some(CartridgeType::MBC5_RAM),
            0x1B => Some(CartridgeType::MBC5_RAM_BATTERY),
            0x1C => Some(CartridgeType::MBC5_RUMBLE),
            0x1D => Some(CartridgeType::MBC5_RUMBLE_RAM),
            0x1E => Some(CartridgeType::MBC5_RUMBLE_RAM_BATTERY),
            0x20 => Some(CartridgeType::MBC6),
            0x22 => Some(CartridgeType::MBC7_SENSOR_RUMBLE_RAM_BATTERY),
            0xFC => Some(CartridgeType::POCKET_CAMERA),
            0xFD => Some(CartridgeType::BANDAI_TAMA5),
            0xFE => Some(CartridgeType::HuC3),
            0xFF => Some(CartridgeType::HuC1_RAM_BATTERY),
            _ => None,
        }
    }
}

/// Little-endian 16-bit value of the two bytes at `address`.
pub open spec fn word_at(image: Seq<u8>, address: int) -> int {
    image[address] + 256 * image[address + 1]
}

/// Signed value of a byte read as two's complement.
pub open spec fn signed_byte(b: u8) -> int {
    if b < 128 {
        b as int
    } else {
        b - 256
    }
}

/// An 8-bit immediate operand.
#[allow(non_camel_case_types)]
#[derive(Clone, Copy, Debug, PartialEq, Eq, Structural)]
pub struct d8 {
    pub value: u8,
}

/// A 16-bit immediate operand.
#[allow(non_camel_case_types)]
#[derive(Clone, Copy, Debug, PartialEq, Eq, Structural)]
pub struct d16 {
    pub value: u16,
}

/// An 8-bit offset into the high memory page.
#[allow(non_camel_case_types)]
#[derive(Clone, Copy, Debug, PartialEq, Eq, Structural)]
pub struct a8 {
    pub value: u8,
}

/// A 16-bit absolute address.
#[allow(non_camel_case_types)]
#[derive(Clone, Copy, Debug, PartialEq, Eq, Structural)]
pub struct a16 {
    pub value: u16,
}

/// A signed 8-bit displacement.
#[allow(non_camel_case_types)]
#[derive(Clone, Copy, Debug, PartialEq, Eq, Structural)]
pub struct r8 {
    pub value: i8,
}

fn read_word(cartridge: &Cartridge, address: usize) -> (r: u16)
    requires
        address + 1 < cartridge@.len(),
    ensures
        r == word_at(cartridge@, address as int),
{
    let size = cartridge.len();
    assert(address + 1 < size);
    let low = cartridge.byte(address) as u16;
    let high = cartridge.byte(address + 1) as u16;
    low + high * 256
}

impl d8 {
    pub fn at(cartridge: &Cartridge, address: usize) -> (r: d8)
        requires
            address < cartridge@.len(),
        ensures
            r.value == cartridge@[address as int],
    {
        d8 { value: cartridge.byte(address) }
    }
}

impl d16 {
    pub fn at(cartridge: &Cartridge, address: usize) -> (r: d16)
        requires
            address + 1 < cartridge@.len(),
        ensures
            r.value == word_at(cartridge@, address as int),
    {
        d16 { value: read_word(cartridge, address) }
    }
}

impl a8 {
    pub fn at(cartridge: &Cartridge, address: usize) -> (r: a8)
        requires
            address < cartridge@.len(),
        ensures
            r.value == cartridge@[address as int],
    {
        a8 { value: cartridge.byte(address) }
    }
}

impl a16 {
    pub fn at(cartridge: &Cartridge, address: usize) -> (r: a16)
        requires
            address + 1 < cartridge@.len(),
        ensures
            r.value == word_at(cartridge@, address as int),
    {
        a16 { value: read_word(cartridge, address) }
    }
}

impl r8 {
    pub fn at(cartridge: &Cartridge, address: usize) -> (r: r8)
        requires
            address < cartridge@.len(),
        ensures
            r.value == signed_byte(cartridge@[address as int]),
    {
        let b = cartridge.byte(address);
        let value: i8 = if b < 128 {
            b as i8
        } else {
            (b as i16 - 256) as i8
        };
        r8 { value }
    }
}

} // verus!
