//! Interrupt vector numbers of the chained PICs, and decoding of the
//! keyboard's scancodes.
use vstd::prelude::*;

verus! {

/// First vector of the primary PIC.
pub const PIC_1_OFFSET: u8 = 32;

/// First vector of the secondary PIC.
pub const PIC_2_OFFSET: u8 = PIC_1_OFFSET + 8;

/// The hardware interrupts the kernel handles, in PIC line order.
#[derive(Clone, Copy, Debug, PartialEq, Eq, Structural)]
pub enum InterruptIndex {
    Timer,
    Keyboard,
}

impl InterruptIndex {
    /// Line of the primary PIC that raises the interrupt.
    pub open spec fn line(self) -> u8 {
        match self {
            InterruptIndex::Timer => 0,
            InterruptIndex::Keyboard => 1,
        }
    }

    /// The interrupt's vector: the primary PIC's offset plus its line.
    pub fn as_u8(self) -> (r: u8)
        ensures
            r == PIC_1_OFFSET + self.line(),
    {
        match self {
            InterruptIndex::Timer => PIC_1_OFFSET,
            InterruptIndex::Keyboard => PIC_1_OFFSET + 1,
        }
    }

    /// The vector as an index into the descriptor table.
    pub fn as_usize(self) -> (r: usize)
        ensures
            r == PIC_1_OFFSET + self.line(),
    {
        self.as_u8() as usize
    }
}

/// The digit that a scancode of the top row's keys `1` to `0` stands for
/// (scancode set 1, key press); `None` for every other scancode.
pub fn key_for_scancode(scancode: u8) -> (r: Option<char>)
    ensures
        0x02 <= scancode <= 0x0a ==> r is Some && r->0 as u32 == 0x31 + scancode - 0x02,
        scancode == 0x0b ==> r == Some('0'),
        scancode < 0x02 || scancode > 0x0b ==> r is None,
{
    match scancode {
        0x02 => Some('1'),
        0x03 => Some('2'),
        0x04 => Some('3'),
        0x05 => Some('4'),
        0x06 => Some('5'),
        0x07 => Some('6'),
        0x08 => Some('7'),
        0x09 => Some('8'),
        0x0a => Some('9'),
        0x0b => Some('0'),
        _ => None,
    }
}

} // verus!
