//! Setting up memory and the work done once per frame around the steps:
//! latching the host's key and counting the timers down.

use vstd::prelude::*;
use crate::memory::{DELAY_TIMER, FONT_START, KEYPAD, MEMORY_SIZE, SOUND_TIMER};

verus! {

/// The glyphs of the hexadecimal digits 0..F, five rows of four pixels each.
pub open spec fn font() -> Seq<u8> {
    seq![
        0xF0u8, 0x90, 0x90, 0x90, 0xF0, 0x20, 0x60, 0x20, 0x20, 0x70, 0xF0, 0x10, 0xF0, 0x80, 0xF0,
        0xF0, 0x10, 0xF0, 0x10, 0xF0, 0x90, 0x90, 0xF0, 0x10, 0x10, 0xF0, 0x80, 0xF0, 0x10, 0xF0,
        0xF0, 0x80, 0xF0, 0x90, 0xF0, 0xF0, 0x10, 0x20, 0x40, 0x40, 0xF0, 0x90, 0xF0, 0x90, 0xF0,
        0xF0, 0x90, 0xF0, 0x10, 0xF0, 0xF0, 0x90, 0xF0, 0x90, 0x90, 0xE0, 0x90, 0xE0, 0x90, 0xE0,
        0xF0, 0x80, 0x80, 0x80, 0xF0, 0xE0, 0x90, 0x90, 0x90, 0xE0, 0xF0, 0x80, 0xF0, 0x80, 0xF0,
        0xF0, 0x80, 0xF0, 0x80, 0x80,
    ]
}

/// The standard glyph of hexadecimal digit `d`, row by row (high nibble
/// is the pixel row, left to right).
pub open spec fn glyph(d: int) -> Seq<u8> {
    if d == 0x0 {
        seq![0xF0u8, 0x90, 0x90, 0x90, 0xF0]
    } else if d == 0x1 {
        seq![0x20u8, 0x60, 0x20, 0x20, 0x70]
    } else if d == 0x2 {
        seq![0xF0u8, 0x10, 0xF0, 0x80, 0xF0]
    } else if d == 0x3 {
        seq![0xF0u8, 0x10, 0xF0, 0x10, 0xF0]
    } else if d == 0x4 {
        seq![0x90u8, 0x90, 0xF0, 0x10, 0x10]
    } else if d == 0x5 {
        seq![0xF0u8, 0x80, 0xF0, 0x10, 0xF0]
    } else if d == 0x6 {
        seq![0xF0u8, 0x80, 0xF0, 0x90, 0xF0]
    } else if d == 0x7 {
        seq![0xF0u8, 0x10, 0x20, 0x40, 0x40]
    } else if d == 0x8 {
        seq![0xF0u8, 0x90, 0xF0, 0x90, 0xF0]
    } else if d == 0x9 {
        seq![0xF0u8, 0x90, 0xF0, 0x10, 0xF0]
    } else if d == 0xA {
        seq![0xF0u8, 0x90, 0xF0, 0x90, 0x90]
    } else if d == 0xB {
        seq![0xE0u8, 0x90, 0xE0, 0x90, 0xE0]
    } else if d == 0xC {
        seq![0xF0u8, 0x80, 0x80, 0x80, 0xF0]
    } else if d == 0xD {
        seq![0xE0u8, 0x90, 0x90, 0x90, 0xE0]
    } else if d == 0xE {
        seq![0xF0u8, 0x80, 0xF0, 0x80, 0xF0]
    } else {
        seq![0xF0u8, 0x80, 0xF0, 0x80, 0x80]
    }
}

/// The font holds the sixteen digit glyphs in order, five bytes each: the
/// glyph of digit d starts at offset 5 * d.
pub proof fn lemma_font_layout()
    ensures
        font().len() == 80,
        forall|d: int, j: int| 0 <= d < 16 && 0 <= j < 5 ==> #[trigger] font()[5 * d + j] == glyph(d)[j],
{
    assert forall|d: int, j: int| 0 <= d < 16 && 0 <= j < 5 implies #[trigger] font()[5 * d + j] == glyph(d)[j] by {
        assert(font().subrange(5 * d, 5 * d + 5) =~= glyph(d)) by {
            if d == 0 {} else if d == 1 {} else if d == 2 {} else if d == 3 {}
            else if d == 4 {} else if d == 5 {} else if d == 6 {} else if d == 7 {}
            else if d == 8 {} else if d == 9 {} else if d == 10 {} else if d == 11 {}
            else if d == 12 {} else if d == 13 {} else if d == 14 {} else {}
        }
        assert(font()[5 * d + j] == font().subrange(5 * d, 5 * d + 5)[j]);
    }
}

fn font_glyphs() -> (r: Vec<u8>)
    ensures
        r@ == font(),
{
    let r: Vec<u8> = vec![
        0xF0, 0x90, 0x90, 0x90, 0xF0, 0x20, 0x60, 0x20, 0x20, 0x70, 0xF0, 0x10, 0xF0, 0x80, 0xF0,
        0xF0, 0x10, 0xF0, 0x10, 0xF0, 0x90, 0x90, 0xF0, 0x10, 0x10, 0xF0, 0x80, 0xF0, 0x10, 0xF0,
        0xF0, 0x80, 0xF0, 0x90, 0xF0, 0xF0, 0x10, 0x20, 0x40, 0x40, 0xF0, 0x90, 0xF0, 0x90, 0xF0,
        0xF0, 0x90, 0xF0, 0x10, 0xF0, 0xF0, 0x90, 0xF0, 0x90, 0x90, 0xE0, 0x90, 0xE0, 0x90, 0xE0,
        0xF0, 0x80, 0x80, 0x80, 0xF0, 0xE0, 0x90, 0x90, 0x90, 0xE0, 0xF0, 0x80, 0xF0, 0x80, 0xF0,
        0xF0, 0x80, 0xF0, 0x80, 0x80,
    ];
    assert(r@ =~= font());
    r
}

/// The memory a machine starts with: `MEMORY_SIZE` bytes, all zero but the
/// font glyphs from `FONT_START` on.
pub fn new_memory() -> (memory: Vec<u8>)
    ensures
        memory.len() == MEMORY_SIZE,
        forall|k: int|
            0 <= k < MEMORY_SIZE ==> memory@[k] == (if FONT_START <= k < FONT_START + font().len() {
                font()[k - FONT_START]
            } else {
                0u8
            }),
        forall|d: int, j: int|
            0 <= d < 16 && 0 <= j < 5 ==> #[trigger] memory@[FONT_START + 5 * d + j] == glyph(d)[j],
{
    proof {
        lemma_font_layout();
    }
    let mut memory: Vec<u8> = vec![0x0; MEMORY_SIZE];
    let char_data = font_glyphs();
    let mut i = FONT_START;
    for j in 0..char_data.len()
        invariant
            i == FONT_START + j,
            char_data@ == font(),
            memory.len() == MEMORY_SIZE,
            forall|k: int|
                0 <= k < MEMORY_SIZE ==> memory@[k] == (if FONT_START <= k < i {
                    font()[k - FONT_START]
                } else {
                    0u8
                }),
    {
        memory[i] = char_data[j];
        i += 1;
    }
    memory
}

/// Records the key the host reports for this frame.
pub fn latch_key(memory: &mut Vec<u8>, key: u8)
    requires
        old(memory).len() > KEYPAD,
    ensures
        final(memory)@ == old(memory)@.update(KEYPAD as int, key),
{
    memory[KEYPAD] = key;
}

/// Count-down of a timer byte: one less, but never below zero.
pub open spec fn count_down(t: u8) -> u8 {
    if t > 0 {
        (t - 1) as u8
    } else {
        0
    }
}

/// Counts both timers down by one (stopping at zero) and says whether the
/// tone sounds in this frame: it does while the sound timer was running.
pub fn tick_timers(memory: &mut Vec<u8>) -> (sound_on: bool)
    requires
        old(memory).len() > SOUND_TIMER,
    ensures
        sound_on == (old(memory)@[SOUND_TIMER as int] > 0),
        final(memory)@ == old(memory)@.update(
            DELAY_TIMER as int,
            count_down(old(memory)@[DELAY_TIMER as int]),
        ).update(SOUND_TIMER as int, count_down(old(memory)@[SOUND_TIMER as int])),
{
    if memory[DELAY_TIMER] > 0 {
        memory[DELAY_TIMER] -= 1;
    }
    if memory[SOUND_TIMER] > 0 {
        memory[SOUND_TIMER] -= 1;
        true
    } else {
        false
    }
}

} // verus!
