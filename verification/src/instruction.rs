//! Decoding and executing one instruction.

use vstd::prelude::*;
use crate::memory::{
    index_reg, in_display, with_index_reg, DELAY_TIMER, DISPLAY_BYTES, DISPLAY_START, FLAG,
    I_HIGH, I_LOW, KEYPAD, SOUND_TIMER,
};

verus! {

/// The register operand X of an instruction (bits 8..12).
pub open spec fn op_x(cmd: u16) -> int {
    ((cmd & 0x0f00) >> 8) as int
}

/// The register operand Y of an instruction (bits 4..8).
pub open spec fn op_y(cmd: u16) -> int {
    ((cmd & 0x00f0) >> 4) as int
}

/// The low nibble N of an instruction.
pub open spec fn op_n(cmd: u16) -> int {
    (cmd & 0x000f) as int
}

/// The low byte NN of an instruction.
pub open spec fn op_nn(cmd: u16) -> u8 {
    (cmd & 0x00ff) as u8
}

/// The address NNN of an instruction.
pub open spec fn op_nnn(cmd: u16) -> u16 {
    cmd & 0x0fff
}

pub proof fn lemma_operands(cmd: u16)
    ensures
        0 <= op_x(cmd) < 16,
        0 <= op_y(cmd) < 16,
        0 <= op_n(cmd) < 16,
        op_nnn(cmd) < 0x1000,
        cmd & 0x00ff < 256,
        op_nn(cmd) as u16 == cmd & 0x00ff,
{
    assert((cmd & 0x00ff) < 256) by (bit_vector);
    assert(((cmd & 0x0f00) >> 8) < 16) by (bit_vector);
    assert(((cmd & 0x00f0) >> 4) < 16) by (bit_vector);
    assert((cmd & 0x000f) < 16) by (bit_vector);
    assert((cmd & 0x0fff) < 0x1000) by (bit_vector);
}

/// Byte subtraction modulo 256.
pub open spec fn wrap_sub(a: u8, b: u8) -> u8 {
    if a >= b {
        (a - b) as u8
    } else {
        (a - b + 256) as u8
    }
}

/// The control outcome of a skip instruction: skip the next instruction
/// (code 2) when `cond` holds, else go on (code 0).
pub open spec fn skip_if(cond: bool) -> (u16, u16) {
    if cond {
        (2, 0)
    } else {
        (0, 0)
    }
}

/// `m` with every display byte cleared.
pub open spec fn clear_display(m: Seq<u8>) -> Seq<u8> {
    Seq::new(m.len(), |k: int| if in_display(k) { 0u8 } else { m[k] })
}

/// Whether N names one of the arithmetic and logic operations 8XYN.
pub open spec fn alu_op_known(n: int) -> bool {
    0 <= n <= 7 || n == 14
}

/// The memory after the arithmetic and logic instruction 8XYN. Each of the
/// shift and arithmetic forms writes VF first and then computes VX from
/// the memory as it stands after that write.
pub open spec fn alu_mem(cmd: u16, m: Seq<u8>) -> Seq<u8> {
    let x = op_x(cmd);
    let y = op_y(cmd);
    let n = op_n(cmd);
    let f = FLAG as int;
    if n == 0 {
        m.update(x, m[y])
    } else if n == 1 {
        m.update(x, m[x] | m[y])
    } else if n == 2 {
        m.update(x, m[x] & m[y])
    } else if n == 3 {
        m.update(x, m[x] ^ m[y])
    } else if n == 4 {
        let sum = m[x] + m[y];
        m.update(f, if sum > 255 { 0u8 } else { 1u8 }).update(x, (sum % 256) as u8)
    } else if n == 5 {
        let m1 = m.update(f, if m[x] >= m[y] { 1u8 } else { 0u8 });
        m1.update(x, wrap_sub(m1[x], m1[y]))
    } else if n == 6 {
        let m1 = m.update(f, m[y] & 1u8);
        m1.update(x, m1[y] >> 1u8)
    } else if n == 7 {
        let m1 = m.update(f, if m[x] > m[y] { 0u8 } else { 1u8 });
        m1.update(x, wrap_sub(m1[y], m1[x]))
    } else if n == 14 {
        let m1 = m.update(f, m[y] & 0x80u8);
        m1.update(x, m1[y] << 1u8)
    } else {
        m
    }
}

/// Address of the display byte that holds pixel (`x`, `y`).
pub open spec fn pixel_byte(x: int, y: int) -> int {
    DISPLAY_START + x / 8 + y * 8
}

/// The bit of a display byte that holds column `x`.
pub open spec fn pixel_mask(x: int) -> u8 {
    1u8 << ((7 - x % 8) as u8)
}

/// Whether column `sx` (0 = leftmost) of sprite row `b` is set.
pub open spec fn sprite_bit(b: u8, sx: int) -> bool {
    b & (1u8 << ((7 - sx) as u8)) != 0
}

/// One pixel of a sprite row at (`x`, `y`): where the sprite bit is set, the
/// display pixel is flipped and VF records whether it was lit before.
pub open spec fn draw_pixel(m: Seq<u8>, b: u8, x: int, y: int, sx: int) -> Seq<u8> {
    if sprite_bit(b, sx) {
        let k = pixel_byte(x, y);
        let mask = pixel_mask(x);
        let lit = m[k] & mask != 0;
        m.update(FLAG as int, m[FLAG as int] | (if lit { 1u8 } else { 0u8 })).update(k, m[k] ^ mask)
    } else {
        m
    }
}

/// The first `cols` columns of sprite row `b` drawn at row `y` from column `xc` on,
/// wrapping at the right edge.
pub open spec fn draw_row(m: Seq<u8>, b: u8, xc: int, y: int, cols: int) -> Seq<u8>
    decreases cols,
{
    if cols <= 0 {
        m
    } else {
        draw_pixel(draw_row(m, b, xc, y, cols - 1), b, (xc + cols - 1) % 64, y, cols - 1)
    }
}

/// The first `rows` rows of the sprite at `base` drawn at (`xc`, `yc`), wrapping
/// at the bottom edge. Each row byte is read from memory as it stands when
/// that row is drawn.
pub open spec fn draw_rows(m: Seq<u8>, base: int, xc: int, yc: int, rows: int) -> Seq<u8>
    decreases rows,
{
    if rows <= 0 {
        m
    } else {
        let p = draw_rows(m, base, xc, yc, rows - 1);
        draw_row(p, p[base + rows - 1], xc, (yc + rows - 1) % 32, 8)
    }
}

/// The memory after DXYN: VF cleared, then the N-row sprite at I drawn at (VX, VY).
pub open spec fn draw_mem(cmd: u16, m: Seq<u8>) -> Seq<u8> {
    draw_rows(
        m.update(FLAG as int, 0u8),
        index_reg(m),
        m[op_x(cmd)] as int,
        m[op_y(cmd)] as int,
        op_n(cmd),
    )
}

/// `m` after the first `count` registers V0.. are stored from `base` on, one
/// by one in increasing order.
pub open spec fn store_regs(m: Seq<u8>, base: int, count: int) -> Seq<u8>
    decreases count,
{
    if count <= 0 {
        m
    } else {
        let p = store_regs(m, base, count - 1);
        p.update(base + count - 1, p[count - 1])
    }
}

/// `m` after the first `count` registers V0.. are loaded from `base` on, one
/// by one in increasing order.
pub open spec fn load_regs(m: Seq<u8>, base: int, count: int) -> Seq<u8>
    decreases count,
{
    if count <= 0 {
        m
    } else {
        let p = load_regs(m, base, count - 1);
        p.update(count - 1, p[base + count - 1])
    }
}

/// The memory after an FXNN instruction.
pub open spec fn misc_mem(cmd: u16, m: Seq<u8>) -> Seq<u8> {
    let x = op_x(cmd);
    let nn = op_nn(cmd);
    let i = index_reg(m);
    if nn == 0x07 {
        m.update(x, m[DELAY_TIMER as int])
    } else if nn == 0x0A {
        m.update(x, m[KEYPAD as int])
    } else if nn == 0x15 {
        m.update(DELAY_TIMER as int, m[x])
    } else if nn == 0x18 {
        m.update(SOUND_TIMER as int, m[x])
    } else if nn == 0x1E {
        with_index_reg(m, i + m[x])
    } else if nn == 0x29 {
        m.update(I_HIGH as int, 0u8).update(I_LOW as int, (m[x] * 5 + 16) as u8)
    } else if nn == 0x33 {
        let v = m[x];
        m.update(i, v / 100).update(i + 1, v % 100 / 10).update(i + 2, v % 10)
    } else if nn == 0x55 {
        with_index_reg(store_regs(m, i, x + 1), i + x + 1)
    } else if nn == 0x65 {
        with_index_reg(load_regs(m, i, x + 1), i + x + 1)
    } else {
        m
    }
}

/// Whether FXNN runs without a fault: a known NN, the addresses it touches
/// inside memory, and no 8- or 16-bit overflow.
pub open spec fn misc_ok(cmd: u16, m: Seq<u8>) -> bool {
    let x = op_x(cmd);
    let nn = op_nn(cmd);
    let len = m.len();
    let i = index_reg(m);
    if nn == 0x07 || nn == 0x15 {
        len > DELAY_TIMER
    } else if nn == 0x0A {
        len > KEYPAD
    } else if nn == 0x18 {
        len > SOUND_TIMER
    } else if nn == 0x1E {
        len > I_LOW && i + m[x] <= 0xFFFF
    } else if nn == 0x29 {
        len > I_LOW && m[x] * 5 + 16 <= 255
    } else if nn == 0x33 {
        len > I_LOW && i + 2 < len
    } else if nn == 0x55 || nn == 0x65 {
        len > I_LOW && i + x < len && i + x + 1 <= 0xFFFF
    } else {
        false
    }
}

/// Whether DXYN runs without a fault.
pub open spec fn draw_ok(cmd: u16, m: Seq<u8>) -> bool {
    &&& m.len() > I_LOW
    &&& op_n(cmd) > 0 ==> {
        &&& m.len() >= DISPLAY_START + DISPLAY_BYTES
        &&& index_reg(m) + op_n(cmd) <= m.len()
    }
}

/// Whether `cmd` runs on memory `m` without a fault: each address it reads
/// or writes lies inside memory, no arithmetic overflows, and the E and F
/// groups name a known operation. (An unknown 8XYN is no fault: it is
/// reported as an error.)
pub open spec fn exec_ok(cmd: u16, m: Seq<u8>) -> bool {
    let len = m.len();
    let x = op_x(cmd);
    let y = op_y(cmd);
    let nn = op_nn(cmd);
    if cmd == 0x00E0 {
        len >= DISPLAY_START + DISPLAY_BYTES
    } else if cmd < 0x3000 {
        true
    } else if cmd < 0x5000 {
        x < len
    } else if cmd < 0x6000 {
        x < len && y < len
    } else if cmd < 0x8000 {
        x < len
    } else if cmd < 0x9000 {
        if op_n(cmd) <= 3 {
            x < len && y < len
        } else if alu_op_known(op_n(cmd)) {
            len > FLAG
        } else {
            true
        }
    } else if cmd < 0xA000 {
        x < len && y < len
    } else if cmd < 0xB000 {
        len > I_LOW
    } else if cmd < 0xC000 {
        len > 0
    } else if cmd < 0xD000 {
        x < len
    } else if cmd < 0xE000 {
        draw_ok(cmd, m)
    } else if cmd < 0xF000 {
        (nn == 0x9E || nn == 0xA1) && len > KEYPAD
    } else {
        misc_ok(cmd, m)
    }
}

/// The memory after executing `cmd` on `m`, where `rnd` is the random byte
/// that CXNN masks.
pub open spec fn exec_mem(cmd: u16, m: Seq<u8>, rnd: u8) -> Seq<u8> {
    let x = op_x(cmd);
    let nn = op_nn(cmd);
    if cmd == 0x00E0 {
        clear_display(m)
    } else if cmd < 0x6000 {
        m
    } else if cmd < 0x7000 {
        m.update(x, nn)
    } else if cmd < 0x8000 {
        m.update(x, ((m[x] + nn) % 256) as u8)
    } else if cmd < 0x9000 {
        alu_mem(cmd, m)
    } else if cmd < 0xA000 {
        m
    } else if cmd < 0xB000 {
        with_index_reg(m, op_nnn(cmd) as int)
    } else if cmd < 0xC000 {
        m
    } else if cmd < 0xD000 {
        m.update(x, rnd & nn)
    } else if cmd < 0xE000 {
        draw_mem(cmd, m)
    } else if cmd < 0xF000 {
        m
    } else {
        misc_mem(cmd, m)
    }
}

/// The control outcome of executing `cmd` on `m`: `None` for an unknown
/// 8XYN, else a pair (code, address) where code 0 goes on to the next
/// instruction, 1 jumps to the address, 2 skips the next instruction, 4
/// returns from a subroutine and 5 calls the subroutine at the address.
pub open spec fn exec_code(cmd: u16, m: Seq<u8>) -> Option<(u16, u16)> {
    let x = op_x(cmd);
    let y = op_y(cmd);
    let nn = op_nn(cmd);
    if cmd == 0x00E0 {
        Some((0, 0))
    } else if cmd == 0x00EE {
        Some((4, 0))
    } else if cmd < 0x1000 {
        Some((0, 0))
    } else if cmd < 0x2000 {
        Some((1, op_nnn(cmd)))
    } else if cmd < 0x3000 {
        Some((5, op_nnn(cmd)))
    } else if cmd < 0x4000 {
        Some(skip_if(m[x] == nn))
    } else if cmd < 0x5000 {
        Some(skip_if(m[x] != nn))
    } else if cmd < 0x6000 {
        Some(skip_if(m[x] == m[y]))
    } else if cmd < 0x8000 {
        Some((0, 0))
    } else if cmd < 0x9000 {
        if alu_op_known(op_n(cmd)) {
            Some((0, 0))
        } else {
            None
        }
    } else if cmd < 0xA000 {
        Some(skip_if(m[x] == m[y]))
    } else if cmd < 0xB000 {
        Some((0, 0))
    } else if cmd < 0xC000 {
        Some((1, cmd & ((0x0fff + m[0]) as u16)))
    } else if cmd < 0xE000 {
        Some((0, 0))
    } else if cmd < 0xF000 {
        if nn == 0x9E {
            Some(skip_if(m[KEYPAD as int] == m[x]))
        } else {
            Some(skip_if(m[KEYPAD as int] != m[x]))
        }
    } else {
        Some((0, 0))
    }
}

proof fn lemma_draw_row_len(m: Seq<u8>, b: u8, xc: int, y: int, cols: int)
    requires
        m.len() >= 0xF90,
        0 <= y < 32,
    ensures
        draw_row(m, b, xc, y, cols).len() == m.len(),
    decreases cols,
{
    if cols > 0 {
        lemma_draw_row_len(m, b, xc, y, cols - 1);
    }
}

proof fn lemma_draw_rows_len(m: Seq<u8>, base: int, xc: int, yc: int, rows: int)
    requires
        m.len() >= 0xF90,
    ensures
        draw_rows(m, base, xc, yc, rows).len() == m.len(),
    decreases rows,
{
    if rows > 0 {
        lemma_draw_rows_len(m, base, xc, yc, rows - 1);
        let p = draw_rows(m, base, xc, yc, rows - 1);
        lemma_draw_row_len(p, p[base + rows - 1], xc, (yc + rows - 1) % 32, 8);
    }
}

proof fn lemma_store_regs_len(m: Seq<u8>, base: int, count: int)
    requires
        0 <= base,
        base + count <= m.len(),
        count <= m.len(),
    ensures
        store_regs(m, base, count).len() == m.len(),
    decreases count,
{
    if count > 0 {
        lemma_store_regs_len(m, base, count - 1);
    }
}

proof fn lemma_load_regs_len(m: Seq<u8>, base: int, count: int)
    requires
        0 <= base,
        base + count <= m.len(),
        count <= m.len(),
    ensures
        load_regs(m, base, count).len() == m.len(),
    decreases count,
{
    if count > 0 {
        lemma_load_regs_len(m, base, count - 1);
    }
}

/// No instruction changes the size of memory, whatever random byte it is
/// given.
pub proof fn lemma_exec_preserves_len(cmd: u16, m: Seq<u8>, rnd: u8)
    requires
        exec_ok(cmd, m),
    ensures
        exec_mem(cmd, m, rnd).len() == m.len(),
{
    lemma_operands(cmd);
    if 0xD000 <= cmd < 0xE000 && op_n(cmd) > 0 {
        lemma_draw_rows_len(m.update(15, 0u8), index_reg(m), m[op_x(cmd)] as int,
            m[op_y(cmd)] as int, op_n(cmd));
    }
    if cmd >= 0xF000 && (op_nn(cmd) == 0x55 || op_nn(cmd) == 0x65) {
        let i = index_reg(m);
        lemma_operands(cmd);
        lemma_store_regs_len(m, i, op_x(cmd) + 1);
        lemma_load_regs_len(m, i, op_x(cmd) + 1);
    }
}

fn decode_x(cmd: u16) -> (r: usize)
    ensures
        r == op_x(cmd),
        r < 16,
{
    proof {
        lemma_operands(cmd);
    }
    ((cmd & 0x0f00) >> 8) as usize
}

fn decode_y(cmd: u16) -> (r: usize)
    ensures
        r == op_y(cmd),
        r < 16,
{
    proof {
        lemma_operands(cmd);
    }
    ((cmd & 0x00f0) >> 4) as usize
}

/// Sets every display byte to zero.
fn clear_screen(memory: &mut Vec<u8>)
    requires
        old(memory).len() >= DISPLAY_START + DISPLAY_BYTES,
    ensures
        final(memory)@ == clear_display(old(memory)@),
{
    let ghost m0 = memory@;
    for i in 0..DISPLAY_BYTES
        invariant
            memory.len() == m0.len(),
            m0.len() >= DISPLAY_START + DISPLAY_BYTES,
            forall|k: int|
                0 <= k < m0.len() ==> memory@[k] == (if DISPLAY_START <= k < DISPLAY_START + i {
                    0u8
                } else {
                    m0[k]
                }),
    {
        memory[DISPLAY_START + i] = 0;
    }
    assert(memory@ =~= clear_display(m0));
}

/// Executes 8XYN; returns whether N names a known operation (memory is
/// left as it was when it does not).
fn exec_alu(command: u16, memory: &mut Vec<u8>) -> (known: bool)
    requires
        0x8000 <= command < 0x9000,
        exec_ok(command, old(memory)@),
    ensures
        known == alu_op_known(op_n(command)),
        final(memory)@ == alu_mem(command, old(memory)@),
{
    let x = decode_x(command);
    let y = decode_y(command);
    let n = command & 0x000f;
    assert(n == op_n(command));
    if n == 0x0 {
        memory[x] = memory[y];
    } else if n == 0x1 {
        memory[x] = memory[x] | memory[y];
    } else if n == 0x2 {
        memory[x] = memory[x] & memory[y];
    } else if n == 0x3 {
        memory[x] = memory[x] ^ memory[y];
    } else if n == 0x4 {
        let sum = memory[x] as u16 + memory[y] as u16;
        memory[FLAG] = if sum > 0xff {
            0
        } else {
            1
        };
        assert(sum & 0x00ff == sum % 256) by (bit_vector);
        memory[x] = (sum & 0x00ff) as u8;
    } else if n == 0x5 {
        memory[FLAG] = if memory[x] >= memory[y] {
            1
        } else {
            0
        };
        memory[x] = memory[x].wrapping_sub(memory[y]);
    } else if n == 0x6 {
        memory[FLAG] = memory[y] & 0x01;
        memory[x] = memory[y] >> 1u8;
    } else if n == 0x7 {
        memory[FLAG] = if memory[x] > memory[y] {
            0
        } else {
            1
        };
        memory[x] = memory[y].wrapping_sub(memory[x]);
    } else if n == 0xE {
        memory[FLAG] = memory[y] & 0x80;
        memory[x] = memory[y] << 1u8;
    } else {
        return false;
    }
    true
}

proof fn lemma_byte_shl8(a: usize)
    requires
        a < 256,
    ensures
        a << 8 == a * 256,
{
    assert(a < 256 ==> a << 8 == a * 256) by (bit_vector);
}

/// Reads the index register I.
fn read_index(memory: &Vec<u8>) -> (r: usize)
    requires
        memory.len() > I_LOW,
    ensures
        r == index_reg(memory@),
        r <= 0xFFFF,
{
    proof {
        lemma_byte_shl8(memory@[I_HIGH as int] as usize);
    }
    ((memory[I_HIGH] as usize) << 8) + (memory[I_LOW] as usize)
}

/// Executes DXYN.
fn exec_draw(command: u16, memory: &mut Vec<u8>)
    requires
        0xD000 <= command < 0xE000,
        draw_ok(command, old(memory)@),
    ensures
        final(memory)@ == draw_mem(command, old(memory)@),
{
    proof {
        lemma_operands(command);
    }
    let width: usize = 8;
    let height = (command & 0x000f) as usize;
    let x_index = decode_x(command);
    let y_index = decode_y(command);
    let x_coord = memory[x_index] as usize;
    let y_coord = memory[y_index] as usize;
    let ghost m0 = memory@;
    let i = read_index(memory);
    memory[FLAG] = 0;
    let ghost m1 = memory@;
    assert(m1 == m0.update(FLAG as int, 0u8));
    if height == 0 {
        return;
    }
    for sprite_y in 0..height
        invariant
            height == op_n(command),
            height > 0,
            memory.len() == m0.len(),
            m0.len() >= DISPLAY_START + DISPLAY_BYTES,
            i == index_reg(m0),
            i + height <= m0.len(),
            width == 8,
            x_coord == m0[op_x(command)],
            y_coord == m0[op_y(command)],
            x_coord < 256,
            y_coord < 256,
            memory@ == draw_rows(m1, i as int, x_coord as int, y_coord as int, sprite_y as int),
    {
        let sprite_byte = memory[i + sprite_y];
        let ghost row_start = memory@;
        let y = (y_coord + sprite_y) % 32;
        for sprite_x in 0..width
            invariant
                width == 8,
                y < 32,
                x_coord < 256,
                memory.len() == m0.len(),
                m0.len() >= DISPLAY_START + DISPLAY_BYTES,
                memory@ == draw_row(row_start, sprite_byte, x_coord as int, y as int, sprite_x as int),
        {
            let x = (x_coord + sprite_x) % 64;
            let sprite_pixel = (sprite_byte & (1u8 << ((7 - sprite_x) as u8))) != 0;
            let k = DISPLAY_START + (x / 8) + (y * 8);
            let mask: u8 = 1u8 << ((7 - (x % 8)) as u8);
            let mem_pixel = (memory[k] & mask) != 0;
            if sprite_pixel {
                memory[FLAG] = memory[FLAG] | if mem_pixel {
                    1
                } else {
                    0
                };
                memory[k] = memory[k] ^ mask;
            }
        }
    }
}

/// Writes the index register I.
fn write_index(memory: &mut Vec<u8>, v: u16)
    requires
        old(memory).len() > I_LOW,
    ensures
        final(memory)@ == with_index_reg(old(memory)@, v as int),
{
    assert(v >> 8 == v / 256) by (bit_vector);
    assert(v & 0xff == v % 256) by (bit_vector);
    memory[I_HIGH] = (v >> 8) as u8;
    memory[I_LOW] = (v & 0xff) as u8;
}

/// Executes FXNN.
fn exec_misc(command: u16, memory: &mut Vec<u8>)
    requires
        command >= 0xF000,
        misc_ok(command, old(memory)@),
    ensures
        final(memory)@ == misc_mem(command, old(memory)@),
{
    let x_index = decode_x(command);
    let nn = (command & 0x00ff) as u8;
    assert(nn == op_nn(command));
    if nn == 0x07 {
        memory[x_index] = memory[DELAY_TIMER];
    } else if nn == 0x0A {
        memory[x_index] = memory[KEYPAD];
    } else if nn == 0x15 {
        memory[DELAY_TIMER] = memory[x_index];
    } else if nn == 0x18 {
        memory[SOUND_TIMER] = memory[x_index];
    } else if nn == 0x1E {
        let i = read_index(memory) + memory[x_index] as usize;
        write_index(memory, i as u16);
    } else if nn == 0x29 {
        let location = (memory[x_index] * 5) + 16;
        memory[I_HIGH] = 0;
        memory[I_LOW] = location;
    } else if nn == 0x33 {
        let ones = memory[x_index] % 10;
        let tens = memory[x_index] % 100 / 10;
        let hundreds = memory[x_index] / 100;
        let location = read_index(memory);
        memory[location] = hundreds;
        memory[location + 1] = tens;
        memory[location + 2] = ones;
    } else if nn == 0x55 {
        let index = read_index(memory);
        let ghost m0 = memory@;
        for k in 0..x_index + 1
            invariant
                memory.len() == m0.len(),
                index == index_reg(m0),
                x_index < 16,
                index + x_index < m0.len(),
                memory@ == store_regs(m0, index as int, k as int),
        {
            memory[index + k] = memory[k];
        }
        write_index(memory, (index + x_index + 1) as u16);
    } else if nn == 0x65 {
        let index = read_index(memory);
        let ghost m0 = memory@;
        for k in 0..x_index + 1
            invariant
                memory.len() == m0.len(),
                index == index_reg(m0),
                x_index < 16,
                index + x_index < m0.len(),
                memory@ == load_regs(m0, index as int, k as int),
        {
            memory[k] = memory[index + k];
        }
        write_index(memory, (index + x_index + 1) as u16);
    }
}

/// Executes `command` on `memory`, with `random` as the byte that CXNN
/// masks, and returns its control outcome (see `exec_code`). An unknown
/// arithmetic instruction 8XYN is refused with an error and changes nothing.
pub fn execute_with(command: u16, memory: &mut Vec<u8>, random: u8) -> (r: Result<(u16, u16), &'static str>)
    requires
        exec_ok(command, old(memory)@),
    ensures
        final(memory)@ == exec_mem(command, old(memory)@, random),
        final(memory)@.len() == old(memory)@.len(),
        match exec_code(command, old(memory)@) {
            Some(c) => r == Ok::<(u16, u16), &'static str>(c),
            None => r == Err::<(u16, u16), &'static str>("Whoops!"),
        },
{
    proof {
        lemma_operands(command);
        lemma_exec_preserves_len(command, memory@, random);
    }
    if command == 0x00E0 {
        clear_screen(memory);
    } else if command == 0x00EE {
        return Ok((4, 0));
    } else if command < 0x1000 {
        // 0NNN: machine routines are not run
    } else if command < 0x2000 {
        return Ok((1, command & 0x0fff));
    } else if command < 0x3000 {
        return Ok((5, command & 0x0fff));
    } else if command < 0x4000 {
        let x_index = decode_x(command);
        let value = (command & 0x00ff) as u8;
        if memory[x_index] == value {
            return Ok((2, 0));
        }
    } else if command < 0x5000 {
        let x_index = decode_x(command);
        let value = (command & 0x00ff) as u8;
        if memory[x_index] != value {
            return Ok((2, 0));
        }
    } else if command < 0x6000 {
        let x_index = decode_x(command);
        let y_index = decode_y(command);
        if memory[x_index] == memory[y_index] {
            return Ok((2, 0));
        }
    } else if command < 0x7000 {
        let x_index = decode_x(command);
        memory[x_index] = (command & 0x00ff) as u8;
    } else if command < 0x8000 {
        let x_index = decode_x(command);
        let result = memory[x_index] as u16 + (command & 0x00ff);
        assert(result & 0x00ff == result % 256) by (bit_vector);
        memory[x_index] = (result & 0x00ff) as u8;
    } else if command < 0x9000 {
        if !exec_alu(command, memory) {
            return Err("Whoops!");
        }
    } else if command < 0xA000 {
        let x_index = decode_x(command);
        let y_index = decode_y(command);
        if memory[x_index] == memory[y_index] {
            return Ok((2, 0));
        }
    } else if command < 0xB000 {
        write_index(memory, command & 0x0fff);
    } else if command < 0xC000 {
        let location = command & (0x0fff + (memory[0] as u16));
        return Ok((1, location));
    } else if command < 0xD000 {
        let x_index = decode_x(command);
        memory[x_index] = random & ((command & 0x00ff) as u8);
    } else if command < 0xE000 {
        exec_draw(command, memory);
    } else if command < 0xF000 {
        let x_index = decode_x(command);
        if command & 0x00ff == 0x9E {
            if memory[KEYPAD] == memory[x_index] {
                return Ok((2, 0));
            }
        } else {
            if memory[KEYPAD] != memory[x_index] {
                return Ok((2, 0));
            }
        }
    } else {
        exec_misc(command, memory);
    }
    Ok((0, 0))
}

/// Whether FXNN can run on `memory` (see `misc_ok`).
fn misc_check(command: u16, memory: &Vec<u8>) -> (r: bool)
    requires
        command >= 0xF000,
    ensures
        r == misc_ok(command, memory@),
{
    let len = memory.len();
    let x = decode_x(command);
    let nn = (command & 0x00ff) as u8;
    if nn == 0x07 || nn == 0x15 {
        len > DELAY_TIMER
    } else if nn == 0x0A {
        len > KEYPAD
    } else if nn == 0x18 {
        len > SOUND_TIMER
    } else if nn == 0x1E {
        len > I_LOW && read_index(memory) + memory[x] as usize <= 0xFFFF
    } else if nn == 0x29 {
        len > I_LOW && memory[x] as usize * 5 + 16 <= 255
    } else if nn == 0x33 {
        len > I_LOW && read_index(memory) + 2 < len
    } else if nn == 0x55 || nn == 0x65 {
        len > I_LOW && read_index(memory) + x < len && read_index(memory) + x + 1 <= 0xFFFF
    } else {
        false
    }
}

/// Whether `command` can run on `memory` without a fault (see `exec_ok`).
pub fn instruction_ok(command: u16, memory: &Vec<u8>) -> (r: bool)
    ensures
        r == exec_ok(command, memory@),
{
    proof {
        lemma_operands(command);
    }
    let len = memory.len();
    let x = decode_x(command);
    let y = decode_y(command);
    let n = command & 0x000f;
    let nn = command & 0x00ff;
    if command == 0x00E0 {
        len >= DISPLAY_START + DISPLAY_BYTES
    } else if command < 0x3000 {
        true
    } else if command < 0x5000 {
        x < len
    } else if command < 0x6000 {
        x < len && y < len
    } else if command < 0x8000 {
        x < len
    } else if command < 0x9000 {
        if n <= 3 {
            x < len && y < len
        } else if n <= 7 || n == 14 {
            len > FLAG
        } else {
            true
        }
    } else if command < 0xA000 {
        x < len && y < len
    } else if command < 0xB000 {
        len > I_LOW
    } else if command < 0xC000 {
        len > 0
    } else if command < 0xD000 {
        x < len
    } else if command < 0xE000 {
        len > I_LOW && (n == 0 || (len >= DISPLAY_START + DISPLAY_BYTES && read_index(memory)
            + n as usize <= len))
    } else if command < 0xF000 {
        (nn == 0x9E || nn == 0xA1) && len > KEYPAD
    } else {
        misc_check(command, memory)
    }
}

/// The control outcome that executing `command` on `memory` will have (see
/// `exec_code`), computed without executing it.
pub fn control_code(command: u16, memory: &Vec<u8>) -> (r: Option<(u16, u16)>)
    requires
        exec_ok(command, memory@),
    ensures
        r == exec_code(command, memory@),
{
    proof {
        lemma_operands(command);
    }
    let x = decode_x(command);
    let y = decode_y(command);
    let n = command & 0x000f;
    let nn = (command & 0x00ff) as u8;
    if command == 0x00E0 {
        Some((0, 0))
    } else if command == 0x00EE {
        Some((4, 0))
    } else if command < 0x1000 {
        Some((0, 0))
    } else if command < 0x2000 {
        Some((1, command & 0x0fff))
    } else if command < 0x3000 {
        Some((5, command & 0x0fff))
    } else if command < 0x4000 {
        Some(if memory[x] == nn { (2, 0) } else { (0, 0) })
    } else if command < 0x5000 {
        Some(if memory[x] != nn { (2, 0) } else { (0, 0) })
    } else if command < 0x6000 {
        Some(if memory[x] == memory[y] { (2, 0) } else { (0, 0) })
    } else if command < 0x8000 {
        Some((0, 0))
    } else if command < 0x9000 {
        if n <= 7 || n == 14 {
            Some((0, 0))
        } else {
            None
        }
    } else if command < 0xA000 {
        Some(if memory[x] == memory[y] { (2, 0) } else { (0, 0) })
    } else if command < 0xB000 {
        Some((0, 0))
    } else if command < 0xC000 {
        Some((1, command & (0x0fff + (memory[0] as u16))))
    } else if command < 0xE000 {
        Some((0, 0))
    } else if command < 0xF000 {
        if nn == 0x9E {
            Some(if memory[KEYPAD] == memory[x] { (2, 0) } else { (0, 0) })
        } else {
            Some(if memory[KEYPAD] != memory[x] { (2, 0) } else { (0, 0) })
        }
    } else {
        Some((0, 0))
    }
}

} // verus!
