//! Layout of the machine's byte memory.
//!
//! The registers V0..VF live in the first sixteen bytes, the font glyphs
//! follow them, then the index register I (big-endian), the two timers
//! and the latched key. Programs start at `PROGRAM_START`; the last part of
//! memory holds a 64x32 monochrome display, one bit per pixel.

use vstd::prelude::*;

verus! {

/// Index of the flag register VF.
pub const FLAG: usize = 15;
/// Address of the first font glyph.
pub const FONT_START: usize = 16;
/// High byte of the index register I.
pub const I_HIGH: usize = 96;
/// Low byte of the index register I.
pub const I_LOW: usize = 97;
/// The delay timer.
pub const DELAY_TIMER: usize = 98;
/// The sound timer.
pub const SOUND_TIMER: usize = 99;
/// The key the host reported for the current frame.
pub const KEYPAD: usize = 100;
/// Where programs are loaded and where execution begins.
pub const PROGRAM_START: usize = 0x200;
/// First byte of the display.
pub const DISPLAY_START: usize = 0xE90;
/// Number of bytes of the display (64 * 32 bits).
pub const DISPLAY_BYTES: usize = 256;
/// Size of the memory the machine is run with.
pub const MEMORY_SIZE: usize = 4096;

/// The value of the index register I.
pub open spec fn index_reg(m: Seq<u8>) -> int {
    m[I_HIGH as int] * 256 + m[I_LOW as int]
}

/// `m` with the index register I set to `v` (big-endian, `v` < 2^16).
pub open spec fn with_index_reg(m: Seq<u8>, v: int) -> Seq<u8> {
    m.update(I_HIGH as int, (v / 256) as u8).update(I_LOW as int, (v % 256) as u8)
}

/// Whether `k` is an address of the display.
pub open spec fn in_display(k: int) -> bool {
    DISPLAY_START <= k < DISPLAY_START + DISPLAY_BYTES
}

} // verus!
