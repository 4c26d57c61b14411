//! Properties that span several instructions, steps or calls.

use vstd::prelude::*;
use crate::cpu::{fetch, frame, pc, run_steps, step_mem, step_ok, step_state, CpuState, STEPS_PER_FRAME};
use crate::display::{pressed_key, rendered, DisplayModel, HostKey, NO_KEY};
use crate::instruction::{
    draw_pixel, draw_row, draw_rows, exec_code, exec_mem, exec_ok, load_regs, op_n, op_nn, op_x, op_y, pixel_byte,
    pixel_mask, sprite_bit, store_regs,
};
use crate::memory::{index_reg, in_display, with_index_reg, DELAY_TIMER, I_LOW, KEYPAD, SOUND_TIMER};

verus! {

/// A call (2NNN) followed by a return (00EE) resumes at the instruction
/// right after the call, with the stack pointer and the pending calls as
/// they were, and leaves memory untouched.
pub proof fn lemma_call_then_return(c: CpuState, m: Seq<u8>, rnd1: u8, rnd2: u8)
    requires
        step_ok(c, m),
        0x2000 <= fetch(c, m) < 0x3000,
        step_ok(step_state(c, m), step_mem(c, m, rnd1)),
        fetch(step_state(c, m), step_mem(c, m, rnd1)) == 0x00EE,
    ensures
        step_mem(c, m, rnd1) == m,
        step_mem(step_state(c, m), m, rnd2) == m,
        step_state(step_state(c, m), m).sp == c.sp,
        pc(step_state(step_state(c, m), m)) == pc(c) + 2,
        forall|i: int| 0 <= i < c.sp ==> #[trigger] step_state(step_state(c, m), m).stack[i] == c.stack[i],
{
    let c1 = step_state(c, m);
    assert(c1.sp == c.sp + 1);
    assert(c1.stack[c.sp] == c.stack[c.sp]);
}

/// The random byte matters only to CXNN, and there only for the bits of VX
/// that NN selects: two executions with different random bytes agree on
/// every other byte of memory.
pub proof fn lemma_random_only_masks_vx(cmd: u16, m: Seq<u8>, r1: u8, r2: u8)
    requires
        exec_ok(cmd, m),
    ensures
        !(0xC000 <= cmd < 0xD000) ==> exec_mem(cmd, m, r1) == exec_mem(cmd, m, r2),
        0xC000 <= cmd < 0xD000 ==> {
            &&& exec_mem(cmd, m, r1).update(op_x(cmd), 0u8) == exec_mem(cmd, m, r2).update(op_x(cmd), 0u8)
            &&& exec_mem(cmd, m, r1)[op_x(cmd)] & !op_nn(cmd) == 0
        },
{
    if 0xC000 <= cmd < 0xD000 {
        let x = op_x(cmd);
        let nn = op_nn(cmd);
        assert(exec_mem(cmd, m, r1).update(x, 0u8) =~= exec_mem(cmd, m, r2).update(x, 0u8));
        assert((r1 & nn) & !nn == 0) by (bit_vector);
    }
}

/// Clearing the screen (00E0) zeroes every display byte and keeps every
/// other byte.
pub proof fn lemma_clear_screen(m: Seq<u8>, rnd: u8)
    requires
        exec_ok(0x00E0, m),
    ensures
        exec_mem(0x00E0, m, rnd).len() == m.len(),
        forall|k: int|
            0 <= k < m.len() ==> #[trigger] exec_mem(0x00E0, m, rnd)[k] == (if in_display(k) {
                0u8
            } else {
                m[k]
            }),
{
}

/// FX33 writes the three decimal digits of VX, most significant first, at
/// I, I+1 and I+2.
pub proof fn lemma_bcd_digits(cmd: u16, m: Seq<u8>, rnd: u8)
    requires
        cmd >= 0xF000,
        op_nn(cmd) == 0x33,
        exec_ok(cmd, m),
    ensures
        ({
            let r = exec_mem(cmd, m, rnd);
            let i = index_reg(m);
            &&& r[i] < 10 && r[i + 1] < 10 && r[i + 2] < 10
            &&& r[i] * 100 + r[i + 1] * 10 + r[i + 2] == m[op_x(cmd)]
        }),
{
    crate::instruction::lemma_operands(cmd);
    let v = m[op_x(cmd)];
    assert(v / 100 < 10 && v % 100 / 10 < 10 && v % 10 < 10);
    assert((v / 100) * 100 + (v % 100 / 10) * 10 + v % 10 == v) by (nonlinear_arith)
        requires
            v < 256,
    ;
}

proof fn lemma_store_regs_at(m: Seq<u8>, base: int, count: int)
    requires
        0 <= count <= base,
        base + count <= m.len(),
    ensures
        store_regs(m, base, count).len() == m.len(),
        forall|k: int|
            0 <= k < m.len() ==> #[trigger] store_regs(m, base, count)[k] == (if base <= k < base + count {
                m[k - base]
            } else {
                m[k]
            }),
    decreases count,
{
    if count > 0 {
        lemma_store_regs_at(m, base, count - 1);
    }
}

proof fn lemma_load_regs_fixed(p: Seq<u8>, base: int, count: int)
    requires
        0 <= count,
        0 <= base,
        base + count <= p.len(),
        forall|k: int| 0 <= k < count ==> #[trigger] p[k] == p[base + k],
    ensures
        load_regs(p, base, count) == p,
    decreases count,
{
    if count > 0 {
        lemma_load_regs_fixed(p, base, count - 1);
        assert(p.update(count - 1, p[base + count - 1]) =~= p);
    }
}

/// Loading registers (FX65) from the block that storing them (FX55) just
/// wrote, with I pointed back at that block, gives back the memory FX55
/// left: V0..VX come back as they were stored. The block must lie past the
/// registers and the index register.
pub proof fn lemma_store_then_load(x: u16, m: Seq<u8>, rnd: u8)
    requires
        x < 16,
        exec_ok((0xF055 | (x << 8)) as u16, m),
        index_reg(m) > I_LOW,
    ensures
        ({
            let store = (0xF055 | (x << 8)) as u16;
            let load = (0xF065 | (x << 8)) as u16;
            let m1 = exec_mem(store, m, rnd);
            let m2 = with_index_reg(m1, index_reg(m));
            &&& exec_ok(load, m2)
            &&& exec_mem(load, m2, rnd) == m1
            &&& forall|k: int| 0 <= k <= x ==> #[trigger] m1[k] == m[k]
        }),
{
    let store = (0xF055 | (x << 8)) as u16;
    let load = (0xF065 | (x << 8)) as u16;
    assert(x < 16 ==> (0xF055u16 | (x << 8)) >= 0xF000 && ((0xF055u16 | (x << 8)) & 0x0f00) >> 8 == x
        && ((0xF055u16 | (x << 8)) & 0x00ff) == 0x55) by (bit_vector);
    assert(x < 16 ==> (0xF065u16 | (x << 8)) >= 0xF000 && ((0xF065u16 | (x << 8)) & 0x0f00) >> 8 == x
        && ((0xF065u16 | (x << 8)) & 0x00ff) == 0x65) by (bit_vector);
    crate::instruction::lemma_operands(store);
    crate::instruction::lemma_operands(load);
    let b = index_reg(m);
    let n = x + 1;
    let s = store_regs(m, b, n as int);
    lemma_store_regs_at(m, b, n as int);
    let m1 = exec_mem(store, m, rnd);
    assert(m1 == with_index_reg(s, b + n));
    let m2 = with_index_reg(m1, b);
    assert(index_reg(m2) == b);
    assert(forall|k: int| 0 <= k < m.len() && k != 96 && k != 97 ==> #[trigger] m2[k] == s[k]);
    assert(forall|k: int| 0 <= k < n ==> #[trigger] m2[k] == m2[b + k]);
    lemma_load_regs_fixed(m2, b, n as int);
    assert(with_index_reg(m2, b + n) =~= m1);
}

/// Showing the same frame twice in a row is the same as showing it once.
pub proof fn lemma_render_idempotent(d: DisplayModel, frame: Seq<u8>)
    ensures
        rendered(rendered(d, frame), frame) == rendered(d, frame),
{
}

/// The display bits that the first `cols` columns of sprite row `b` flip in
/// byte `k`.
spec fn row_flips(b: u8, xc: int, y: int, cols: int, k: int) -> u8
    decreases cols,
{
    if cols <= 0 {
        0u8
    } else {
        let x = (xc + cols - 1) % 64;
        let prev = row_flips(b, xc, y, cols - 1, k);
        if sprite_bit(b, cols - 1) && pixel_byte(x, y) == k {
            prev ^ pixel_mask(x)
        } else {
            prev
        }
    }
}

/// The display bits that the first `rows` rows of the sprite at `base` in
/// `m` flip in byte `k`.
spec fn rows_flips(m: Seq<u8>, base: int, xc: int, yc: int, rows: int, k: int) -> u8
    decreases rows,
{
    if rows <= 0 {
        0u8
    } else {
        rows_flips(m, base, xc, yc, rows - 1, k) ^ row_flips(m[base + rows - 1], xc, (yc + rows - 1) % 32, 8, k)
    }
}

proof fn lemma_xor_facts(a: u8, b: u8, c: u8)
    ensures
        (a ^ b) ^ c == a ^ (b ^ c),
        a ^ 0u8 == a,
        (a ^ b) ^ b == a,
{
    assert((a ^ b) ^ c == a ^ (b ^ c)) by (bit_vector);
    assert(a ^ 0u8 == a) by (bit_vector);
    assert((a ^ b) ^ b == a) by (bit_vector);
}

proof fn lemma_row_flips_outside(b: u8, xc: int, y: int, cols: int, k: int)
    requires
        0 <= y < 32,
        !in_display(k),
    ensures
        row_flips(b, xc, y, cols, k) == 0,
    decreases cols,
{
    if cols > 0 {
        lemma_row_flips_outside(b, xc, y, cols - 1, k);
    }
}

proof fn lemma_draw_row_flips(m: Seq<u8>, b: u8, xc: int, y: int, cols: int)
    requires
        m.len() >= 0xF90,
        0 <= y < 32,
        cols <= 8,
    ensures
        draw_row(m, b, xc, y, cols).len() == m.len(),
        forall|k: int|
            0 <= k < m.len() && k != 15 ==> #[trigger] draw_row(m, b, xc, y, cols)[k] == m[k] ^ row_flips(
                b,
                xc,
                y,
                cols,
                k,
            ),
    decreases cols,
{
    if cols <= 0 {
        assert forall|k: int| 0 <= k < m.len() && k != 15 implies #[trigger] draw_row(m, b, xc, y, cols)[k]
            == m[k] ^ row_flips(b, xc, y, cols, k) by {
            lemma_xor_facts(m[k], 0u8, 0u8);
        }
    } else {
        lemma_draw_row_flips(m, b, xc, y, cols - 1);
        let p = draw_row(m, b, xc, y, cols - 1);
        let x = (xc + cols - 1) % 64;
        assert forall|k: int| 0 <= k < m.len() && k != 15 implies #[trigger] draw_row(m, b, xc, y, cols)[k]
            == m[k] ^ row_flips(b, xc, y, cols, k) by {
            lemma_xor_facts(m[k], row_flips(b, xc, y, cols - 1, k), pixel_mask(x));
        }
    }
}

proof fn lemma_draw_rows_flips(m: Seq<u8>, base: int, xc: int, yc: int, rows: int)
    requires
        m.len() >= 0xF90,
        0 <= base,
        base + rows <= m.len(),
        forall|r: int| 0 <= r < rows ==> !in_display(#[trigger] (base + r)) && base + r != 15,
    ensures
        draw_rows(m, base, xc, yc, rows).len() == m.len(),
        forall|k: int|
            0 <= k < m.len() && k != 15 ==> #[trigger] draw_rows(m, base, xc, yc, rows)[k] == m[k]
                ^ rows_flips(m, base, xc, yc, rows, k),
    decreases rows,
{
    if rows <= 0 {
        assert forall|k: int| 0 <= k < m.len() && k != 15 implies #[trigger] draw_rows(m, base, xc, yc, rows)[k]
            == m[k] ^ rows_flips(m, base, xc, yc, rows, k) by {
            lemma_xor_facts(m[k], 0u8, 0u8);
        }
    } else {
        lemma_draw_rows_flips(m, base, xc, yc, rows - 1);
        let p = draw_rows(m, base, xc, yc, rows - 1);
        let s = base + rows - 1;
        let y = (yc + rows - 1) % 32;
        assert(!in_display(base + (rows - 1)));
        lemma_row_flips_outside_all(m, base, xc, yc, rows - 1, s);
        lemma_xor_facts(m[s], 0u8, 0u8);
        assert(p[s] == m[s]);
        lemma_draw_row_flips(p, p[s], xc, y, 8);
        assert forall|k: int| 0 <= k < m.len() && k != 15 implies #[trigger] draw_rows(m, base, xc, yc, rows)[k]
            == m[k] ^ rows_flips(m, base, xc, yc, rows, k) by {
            lemma_xor_facts(m[k], rows_flips(m, base, xc, yc, rows - 1, k), row_flips(m[s], xc, y, 8, k));
        }
    }
}

proof fn lemma_row_flips_outside_all(m: Seq<u8>, base: int, xc: int, yc: int, rows: int, k: int)
    requires
        !in_display(k),
    ensures
        rows_flips(m, base, xc, yc, rows, k) == 0,
    decreases rows,
{
    if rows > 0 {
        lemma_row_flips_outside_all(m, base, xc, yc, rows - 1, k);
        lemma_row_flips_outside(m[base + rows - 1], xc, (yc + rows - 1) % 32, 8, k);
        assert(0u8 ^ 0u8 == 0u8) by (bit_vector);
    }
}

/// Drawing the same sprite twice at the same place (DXYN twice) gives back
/// the memory as it was, but for VF. This holds where the second drawing
/// reads what the first did: VX and VY are not VF, and the sprite rows lie
/// outside the display and VF.
pub proof fn lemma_draw_twice_restores(cmd: u16, m: Seq<u8>, r1: u8, r2: u8)
    requires
        0xD000 <= cmd < 0xE000,
        exec_ok(cmd, m),
        op_x(cmd) != 15,
        op_y(cmd) != 15,
        forall|r: int|
            0 <= r < op_n(cmd) ==> !in_display(#[trigger] (index_reg(m) + r)) && index_reg(m) + r != 15,
    ensures
        exec_ok(cmd, exec_mem(cmd, m, r1)),
        exec_mem(cmd, exec_mem(cmd, m, r1), r2).len() == m.len(),
        forall|k: int|
            0 <= k < m.len() && k != 15 ==> #[trigger] exec_mem(cmd, exec_mem(cmd, m, r1), r2)[k] == m[k],
{
    crate::instruction::lemma_operands(cmd);
    let n = op_n(cmd);
    let x = op_x(cmd);
    let y = op_y(cmd);
    let b = index_reg(m);
    let m0 = m.update(15, 0u8);
    let m1 = exec_mem(cmd, m, r1);
    if n == 0 {
        let m2 = exec_mem(cmd, m1, r2);
        assert(m1 == m0);
        assert(forall|k: int| 0 <= k < m.len() && k != 15 ==> #[trigger] m2[k] == m[k]);
    } else {
        lemma_draw_rows_flips(m0, b, m[x] as int, m[y] as int, n);
        assert(forall|k: int| 0 <= k < m.len() && k != 15 ==> #[trigger] m1[k] == m0[k] ^ rows_flips(
            m0,
            b,
            m[x] as int,
            m[y] as int,
            n,
            k,
        ));
        assert forall|k: int| 0 <= k < m.len() && !in_display(k) && k != 15 implies #[trigger] m1[k] == m[k] by {
            lemma_row_flips_outside_all(m0, b, m[x] as int, m[y] as int, n, k);
            lemma_xor_facts(m[k], 0u8, 0u8);
        }
        assert(m1[x] == m[x] && m1[y] == m[y]);
        assert(m1[96] == m[96] && m1[97] == m[97]);
        assert(index_reg(m1) == b);
        let m10 = m1.update(15, 0u8);
        assert forall|r: int| 0 <= r < n implies #[trigger] m10[b + r] == m0[b + r] by {
            assert(!in_display(b + r) && b + r != 15);
        }
        assert forall|k: int| 0 <= k < m.len() implies #[trigger] rows_flips(m10, b, m[x] as int, m[y] as int, n, k)
            == rows_flips(m0, b, m[x] as int, m[y] as int, n, k) by {
            lemma_rows_flips_same_sprite(m10, m0, b, m[x] as int, m[y] as int, n, k);
        }
        lemma_draw_rows_flips(m10, b, m[x] as int, m[y] as int, n);
        let m2 = exec_mem(cmd, m1, r2);
        assert forall|k: int| 0 <= k < m.len() && k != 15 implies #[trigger] m2[k] == m[k] by {
            lemma_xor_facts(m[k], rows_flips(m0, b, m[x] as int, m[y] as int, n, k), rows_flips(
                m0,
                b,
                m[x] as int,
                m[y] as int,
                n,
                k,
            ));
        }
    }
}

proof fn lemma_rows_flips_same_sprite(
    m: Seq<u8>,
    m2: Seq<u8>,
    base: int,
    xc: int,
    yc: int,
    rows: int,
    k: int,
)
    requires
        forall|r: int| 0 <= r < rows ==> #[trigger] m[base + r] == m2[base + r],
    ensures
        rows_flips(m, base, xc, yc, rows, k) == rows_flips(m2, base, xc, yc, rows, k),
    decreases rows,
{
    if rows > 0 {
        lemma_rows_flips_same_sprite(m, m2, base, xc, yc, rows - 1, k);
        assert(m[base + (rows - 1)] == m2[base + (rows - 1)]);
    }
}

/// The keypad layout: with no key held the code is 17; otherwise the key
/// listed last decides, 1234/QWER/ASDF/ZXCV giving 123C/456D/789E/A0BF,
/// and a key outside that block is passed over.
pub proof fn lemma_keypad_layout(keys: Seq<HostKey>)
    ensures
        pressed_key(Seq::<HostKey>::empty()) == 17,
        pressed_key(keys.push(HostKey::Key1)) == 0x1,
        pressed_key(keys.push(HostKey::Key2)) == 0x2,
        pressed_key(keys.push(HostKey::Key3)) == 0x3,
        pressed_key(keys.push(HostKey::Key4)) == 0xC,
        pressed_key(keys.push(HostKey::Q)) == 0x4,
        pressed_key(keys.push(HostKey::W)) == 0x5,
        pressed_key(keys.push(HostKey::E)) == 0x6,
        pressed_key(keys.push(HostKey::R)) == 0xD,
        pressed_key(keys.push(HostKey::A)) == 0x7,
        pressed_key(keys.push(HostKey::S)) == 0x8,
        pressed_key(keys.push(HostKey::D)) == 0x9,
        pressed_key(keys.push(HostKey::F)) == 0xE,
        pressed_key(keys.push(HostKey::Z)) == 0xA,
        pressed_key(keys.push(HostKey::X)) == 0x0,
        pressed_key(keys.push(HostKey::C)) == 0xB,
        pressed_key(keys.push(HostKey::V)) == 0xF,
        pressed_key(keys.push(HostKey::Other)) == pressed_key(keys),
{
    assert(keys.push(HostKey::Other).drop_last() =~= keys);
}

proof fn lemma_run_steps_len(c: CpuState, m: Seq<u8>, rs: Seq<u8>, n: int)
    requires
        run_steps(c, m, rs, n) is Some,
    ensures
        run_steps(c, m, rs, n)->Some_0.1.len() == m.len(),
    decreases n,
{
    if n > 0 {
        lemma_run_steps_len(c, m, rs, n - 1);
        let (c1, m1) = run_steps(c, m, rs, n - 1)->Some_0;
        crate::instruction::lemma_exec_preserves_len(fetch(c1, m1), m1, rs[n - 1]);
    }
}

/// A frame forgets the key byte of the previous frame: the steps of a frame
/// start from memory whose key byte is the key given for that frame,
/// whatever it is, 17 (no key) included. After the steps, each timer that
/// is running goes down by one, a stopped one stays at zero, and the tone
/// sounds exactly while the sound timer was running.
pub proof fn lemma_frame_latches_key(c: CpuState, m: Seq<u8>, key: u8, rs: Seq<u8>, v: u8)
    requires
        m.len() > KEYPAD,
    ensures
        frame(c, m.update(KEYPAD as int, v), key, rs) == frame(c, m, key, rs),
        m[KEYPAD as int] == key ==> match run_steps(c, m, rs, STEPS_PER_FRAME as int) {
            None => frame(c, m, key, rs) is None,
            Some((c1, m1)) => frame(c, m, key, rs) is Some && ({
                let (c2, m2, sound) = frame(c, m, key, rs)->Some_0;
                &&& c2 == c1
                &&& sound == (m1[SOUND_TIMER as int] > 0)
                &&& m2.len() == m1.len()
                &&& m2[DELAY_TIMER as int] == (if m1[DELAY_TIMER as int] > 0 { m1[DELAY_TIMER as int] - 1 } else { 0 })
                &&& m2[SOUND_TIMER as int] == (if m1[SOUND_TIMER as int] > 0 { m1[SOUND_TIMER as int] - 1 } else { 0 })
                &&& forall|k: int| 0 <= k < m1.len() && k != DELAY_TIMER && k != SOUND_TIMER ==> #[trigger] m2[k] == m1[k]
            }),
        },
{
    assert(m.update(KEYPAD as int, v).update(KEYPAD as int, key) =~= m.update(KEYPAD as int, key));
    if m[KEYPAD as int] == key {
        assert(m.update(KEYPAD as int, key) =~= m);
        if run_steps(c, m, rs, STEPS_PER_FRAME as int) is Some {
            lemma_run_steps_len(c, m, rs, STEPS_PER_FRAME as int);
        }
    }
}

/// The key-skip instructions EX9E and EXA1 run on any memory that holds the
/// key byte: EX9E skips exactly when VX is the key, EXA1 exactly when it is
/// not, and neither changes memory.
pub proof fn lemma_key_skips_run(x: u16, m: Seq<u8>, rnd: u8)
    requires
        x < 16,
        m.len() > KEYPAD,
    ensures
        exec_ok((0xE09E | (x << 8)) as u16, m),
        exec_ok((0xE0A1 | (x << 8)) as u16, m),
        exec_code((0xE09E | (x << 8)) as u16, m) == Some(
            if m[KEYPAD as int] == m[x as int] { (2u16, 0u16) } else { (0u16, 0u16) },
        ),
        exec_code((0xE0A1 | (x << 8)) as u16, m) == Some(
            if m[KEYPAD as int] != m[x as int] { (2u16, 0u16) } else { (0u16, 0u16) },
        ),
        exec_mem((0xE09E | (x << 8)) as u16, m, rnd) == m,
        exec_mem((0xE0A1 | (x << 8)) as u16, m, rnd) == m,
{
    assert(x < 16 ==> 0xE000 <= (0xE09Eu16 | (x << 8)) < 0xF000 && ((0xE09Eu16 | (x << 8)) & 0x0f00) >> 8 == x
        && ((0xE09Eu16 | (x << 8)) & 0x00ff) == 0x9E) by (bit_vector);
    assert(x < 16 ==> 0xE000 <= (0xE0A1u16 | (x << 8)) < 0xF000 && ((0xE0A1u16 | (x << 8)) & 0x0f00) >> 8 == x
        && ((0xE0A1u16 | (x << 8)) & 0x00ff) == 0xA1) by (bit_vector);
    crate::instruction::lemma_operands((0xE09E | (x << 8)) as u16);
    crate::instruction::lemma_operands((0xE0A1 | (x << 8)) as u16);
}

/// Whether display pixel (`x`, `y`) is lit in `m`: bit `x % 8`, counted
/// from the most significant end, of byte `x / 8` of display row `y`.
pub open spec fn pixel_lit(m: Seq<u8>, x: int, y: int) -> bool {
    m[0xE90 + x / 8 + 8 * y] & (0x80u8 >> ((x % 8) as u8)) != 0
}

/// Whether column `c` (0 = leftmost) of the sprite row `b` is set.
pub open spec fn sprite_pixel(b: u8, c: int) -> bool {
    b & (0x80u8 >> (c as u8)) != 0
}

/// Whether the pixel in row `r`, column `c` of the sprite at `base`, drawn
/// at (`xc`, `yc`) with wrap-around, is set and lands on a pixel lit in `m`.
pub open spec fn sprite_hits_lit(m: Seq<u8>, base: int, xc: int, yc: int, r: int, c: int) -> bool {
    sprite_pixel(m[base + r], c) && pixel_lit(m, (xc + c) % 64, (yc + r) % 32)
}

spec fn row_hits(m: Seq<u8>, b: u8, xc: int, y: int, cols: int) -> bool
    decreases cols,
{
    if cols <= 0 {
        false
    } else {
        row_hits(m, b, xc, y, cols - 1) || (sprite_pixel(b, cols - 1) && pixel_lit(m, (xc + cols - 1) % 64, y))
    }
}

spec fn rows_hits(m: Seq<u8>, base: int, xc: int, yc: int, rows: int) -> bool
    decreases rows,
{
    if rows <= 0 {
        false
    } else {
        rows_hits(m, base, xc, yc, rows - 1) || row_hits(m, m[base + rows - 1], xc, (yc + rows - 1) % 32, 8)
    }
}

proof fn lemma_mask_forms(s: u8)
    requires
        s < 8,
    ensures
        (1u8 << ((7 - s) as u8)) == (0x80u8 >> s),
        forall|t: u8| t < 8 && t != s ==> #[trigger] (0x80u8 >> t) & (0x80u8 >> s) == 0,
        forall|v: u8, t: u8| t < 8 && t != s ==> #[trigger] ((v ^ (0x80u8 >> s)) & (0x80u8 >> t)) == v & (0x80u8 >> t),
{
    assert(s < 8 ==> (1u8 << ((7 - s) as u8)) == (0x80u8 >> s)) by (bit_vector);
    assert forall|t: u8| t < 8 && t != s implies #[trigger] (0x80u8 >> t) & (0x80u8 >> s) == 0 by {
        assert(t < 8 && s < 8 && t != s ==> (0x80u8 >> t) & (0x80u8 >> s) == 0) by (bit_vector);
    }
    assert forall|v: u8, t: u8| t < 8 && t != s implies #[trigger] ((v ^ (0x80u8 >> s)) & (0x80u8 >> t)) == v
        & (0x80u8 >> t) by {
        assert(t < 8 && s < 8 && t != s ==> ((v ^ (0x80u8 >> s)) & (0x80u8 >> t)) == v & (0x80u8 >> t))
            by (bit_vector);
    }
}

proof fn lemma_or_flag(a: u8)
    requires
        a <= 1,
    ensures
        a | 1u8 == 1,
        a | 0u8 == a,
{
    assert(a <= 1 ==> a | 1u8 == 1 && a | 0u8 == a) by (bit_vector);
}

/// `draw_pixel` flips only its own pixel and ORs into VF whether that pixel
/// was lit.
proof fn lemma_pixel_step(m: Seq<u8>, b: u8, x: int, y: int, sx: int)
    requires
        m.len() >= 0xF90,
        0 <= x < 64,
        0 <= y < 32,
        0 <= sx < 8,
    ensures
        draw_pixel(m, b, x, y, sx).len() == m.len(),
        draw_pixel(m, b, x, y, sx)[15] == (if sprite_pixel(b, sx) {
            m[15] | (if pixel_lit(m, x, y) { 1u8 } else { 0u8 })
        } else {
            m[15]
        }),
        forall|j: int| 0 <= j < m.len() && j != 15 && !in_display(j) ==> #[trigger] draw_pixel(m, b, x, y, sx)[j] == m[j],
        forall|x2: int, y2: int|
            0 <= x2 < 64 && 0 <= y2 < 32 && (x2 != x || y2 != y) ==> #[trigger] pixel_lit(draw_pixel(m, b, x, y, sx), x2, y2)
                == pixel_lit(m, x2, y2),
        pixel_lit(draw_pixel(m, b, x, y, sx), x, y) == (pixel_lit(m, x, y) != sprite_pixel(b, sx)),
{
    let sh = (x % 8) as u8;
    let v = m[0xE90 + x / 8 + 8 * y];
    assert(sh < 8 ==> (((v ^ (0x80u8 >> sh)) & (0x80u8 >> sh)) != 0) == !((v & (0x80u8 >> sh)) != 0)) by (bit_vector);
    lemma_mask_forms((x % 8) as u8);
    lemma_mask_forms(sx as u8);
    assert(pixel_mask(x) == (0x80u8 >> ((x % 8) as u8)));
    assert(sprite_bit(b, sx) == sprite_pixel(b, sx));
    assert(pixel_byte(x, y) == 0xE90 + x / 8 + 8 * y);
    let p = draw_pixel(m, b, x, y, sx);
    let k = pixel_byte(x, y);
    assert forall|x2: int, y2: int|
        0 <= x2 < 64 && 0 <= y2 < 32 && (x2 != x || y2 != y) implies #[trigger] pixel_lit(p, x2, y2) == pixel_lit(m, x2, y2) by {
        let k2 = 0xE90 + x2 / 8 + 8 * y2;
        if sprite_bit(b, sx) && k2 == k {
            assert(y2 == y && x2 / 8 == x / 8);
            assert(x2 % 8 != x % 8);
            lemma_mask_forms((x2 % 8) as u8);
            assert(((m[k] ^ (0x80u8 >> ((x % 8) as u8))) & (0x80u8 >> ((x2 % 8) as u8))) == m[k] & (0x80u8 >> ((x2
                % 8) as u8)));
        }
    }
}

proof fn lemma_offset_mod(xc: int, c: int, n: int)
    requires
        n > 0,
        0 <= c < n,
    ensures
        0 <= (xc + c) % n < n,
        ((xc + c) % n - xc) % n == c,
{
    vstd::arithmetic::div_mod::lemma_fundamental_div_mod(xc + c, n);
    vstd::arithmetic::div_mod::lemma_mod_bound(xc + c, n);
    let q = (xc + c) / n;
    assert((xc + c) % n - xc == (-q) * n + c) by (nonlinear_arith)
        requires
            xc + c == n * q + (xc + c) % n,
    ;
    vstd::arithmetic::div_mod::lemma_fundamental_div_mod_converse((xc + c) % n - xc, n, -q, c);
}

proof fn lemma_row_step(m: Seq<u8>, b: u8, xc: int, y: int, cols: int)
    requires
        m.len() >= 0xF90,
        0 <= y < 32,
        0 <= cols <= 8,
        m[15] <= 1,
    ensures
        draw_row(m, b, xc, y, cols).len() == m.len(),
        draw_row(m, b, xc, y, cols)[15] == (if m[15] == 1 || row_hits(m, b, xc, y, cols) { 1u8 } else { 0u8 }),
        forall|j: int| 0 <= j < m.len() && j != 15 && !in_display(j) ==> #[trigger] draw_row(m, b, xc, y, cols)[j] == m[j],
        forall|x2: int, y2: int|
            0 <= x2 < 64 && 0 <= y2 < 32 && (y2 != y || (x2 - xc) % 64 >= cols) ==> #[trigger] pixel_lit(
                draw_row(m, b, xc, y, cols),
                x2,
                y2,
            ) == pixel_lit(m, x2, y2),
        forall|x2: int|
            0 <= x2 < 64 && (x2 - xc) % 64 < cols ==> #[trigger] pixel_lit(draw_row(m, b, xc, y, cols), x2, y) == (
            pixel_lit(m, x2, y) != sprite_pixel(b, (x2 - xc) % 64)),
    decreases cols,
{
    if cols > 0 {
        lemma_row_step(m, b, xc, y, cols - 1);
        let p = draw_row(m, b, xc, y, cols - 1);
        let x = (xc + cols - 1) % 64;
        lemma_offset_mod(xc, cols - 1, 64);
        assert(pixel_lit(p, x, y) == pixel_lit(m, x, y));
        lemma_pixel_step(p, b, x, y, cols - 1);
        lemma_or_flag(p[15]);
        let q = draw_row(m, b, xc, y, cols);
        assert(q == draw_pixel(p, b, x, y, cols - 1));
        assert forall|x2: int, y2: int|
            0 <= x2 < 64 && 0 <= y2 < 32 && (y2 != y || (x2 - xc) % 64 >= cols) implies #[trigger] pixel_lit(q, x2, y2)
                == pixel_lit(m, x2, y2) by {
            assert(pixel_lit(p, x2, y2) == pixel_lit(m, x2, y2));
            assert(x2 != x || y2 != y);
        }
        assert forall|x2: int|
            0 <= x2 < 64 && (x2 - xc) % 64 < cols implies #[trigger] pixel_lit(q, x2, y) == (pixel_lit(m, x2, y)
                != sprite_pixel(b, (x2 - xc) % 64)) by {
            if (x2 - xc) % 64 == cols - 1 {
                lemma_offset_inverse(x2, xc, cols - 1, 64);
                assert(x2 == x);
            } else {
                assert(x2 != x);
            }
        }
    }
}

proof fn lemma_offset_inverse(x2: int, xc: int, d: int, n: int)
    requires
        n > 0,
        0 <= x2 < n,
        (x2 - xc) % n == d,
    ensures
        x2 == (xc + d) % n,
{
    vstd::arithmetic::div_mod::lemma_fundamental_div_mod(x2 - xc, n);
    let q = (x2 - xc) / n;
    assert(xc + d == (-q) * n + x2) by (nonlinear_arith)
        requires
            x2 - xc == n * q + d,
    ;
    vstd::arithmetic::div_mod::lemma_fundamental_div_mod_converse(xc + d, n, -q, x2);
}

proof fn lemma_row_hits_same(m1: Seq<u8>, m2: Seq<u8>, b: u8, xc: int, y: int, cols: int)
    requires
        forall|x2: int| 0 <= x2 < 64 ==> #[trigger] pixel_lit(m1, x2, y) == pixel_lit(m2, x2, y),
    ensures
        row_hits(m1, b, xc, y, cols) == row_hits(m2, b, xc, y, cols),
    decreases cols,
{
    if cols > 0 {
        lemma_row_hits_same(m1, m2, b, xc, y, cols - 1);
        vstd::arithmetic::div_mod::lemma_mod_bound(xc + cols - 1, 64);
        assert(pixel_lit(m1, (xc + cols - 1) % 64, y) == pixel_lit(m2, (xc + cols - 1) % 64, y));
    }
}

proof fn lemma_rows_step(m: Seq<u8>, base: int, xc: int, yc: int, rows: int)
    requires
        m.len() >= 0xF90,
        m[15] <= 1,
        0 <= rows <= 16,
        0 <= base,
        base + rows <= m.len(),
        forall|r: int| 0 <= r < rows ==> !in_display(#[trigger] (base + r)) && base + r != 15,
    ensures
        draw_rows(m, base, xc, yc, rows).len() == m.len(),
        draw_rows(m, base, xc, yc, rows)[15] == (if m[15] == 1 || rows_hits(m, base, xc, yc, rows) {
            1u8
        } else {
            0u8
        }),
        forall|j: int| 0 <= j < m.len() && j != 15 && !in_display(j) ==> #[trigger] draw_rows(m, base, xc, yc, rows)[j]
            == m[j],
        forall|x2: int, y2: int|
            0 <= x2 < 64 && 0 <= y2 < 32 && (y2 - yc) % 32 >= rows ==> #[trigger] pixel_lit(
                draw_rows(m, base, xc, yc, rows),
                x2,
                y2,
            ) == pixel_lit(m, x2, y2),
        forall|x2: int, y2: int|
            0 <= x2 < 64 && 0 <= y2 < 32 && (y2 - yc) % 32 < rows ==> #[trigger] pixel_lit(
                draw_rows(m, base, xc, yc, rows),
                x2,
                y2,
            ) == (pixel_lit(m, x2, y2) != ((x2 - xc) % 64 < 8 && sprite_pixel(
                m[base + (y2 - yc) % 32],
                (x2 - xc) % 64,
            ))),
    decreases rows,
{
    if rows > 0 {
        lemma_rows_step(m, base, xc, yc, rows - 1);
        let p = draw_rows(m, base, xc, yc, rows - 1);
        let s = base + rows - 1;
        let y = (yc + rows - 1) % 32;
        lemma_offset_mod(yc, rows - 1, 32);
        assert(!in_display(base + (rows - 1)) && base + (rows - 1) != 15);
        assert(p[s] == m[s]);
        assert forall|x2: int| 0 <= x2 < 64 implies #[trigger] pixel_lit(p, x2, y) == pixel_lit(m, x2, y) by {}
        lemma_row_hits_same(p, m, m[s], xc, y, 8);
        lemma_row_step(p, m[s], xc, y, 8);
        let q = draw_rows(m, base, xc, yc, rows);
        assert(q == draw_row(p, p[s], xc, y, 8));
        assert forall|x2: int, y2: int|
            0 <= x2 < 64 && 0 <= y2 < 32 && (y2 - yc) % 32 >= rows implies #[trigger] pixel_lit(q, x2, y2)
                == pixel_lit(m, x2, y2) by {
            assert(pixel_lit(p, x2, y2) == pixel_lit(m, x2, y2));
            assert(y2 != y);
        }
        assert forall|x2: int, y2: int|
            0 <= x2 < 64 && 0 <= y2 < 32 && (y2 - yc) % 32 < rows implies #[trigger] pixel_lit(q, x2, y2) == (
            pixel_lit(m, x2, y2) != ((x2 - xc) % 64 < 8 && sprite_pixel(m[base + (y2 - yc) % 32], (x2 - xc) % 64))) by {
            vstd::arithmetic::div_mod::lemma_mod_bound(x2 - xc, 64);
            if (y2 - yc) % 32 == rows - 1 {
                lemma_offset_inverse(y2, yc, rows - 1, 32);
                assert(y2 == y);
                assert(pixel_lit(p, x2, y2) == pixel_lit(m, x2, y2));
            } else {
                assert(y2 != y);
            }
        }
    }
}

proof fn lemma_row_hits_exists(m: Seq<u8>, b: u8, xc: int, y: int, cols: int)
    ensures
        row_hits(m, b, xc, y, cols) <==> exists|c: int|
            0 <= c < cols && sprite_pixel(b, c) && #[trigger] pixel_lit(m, (xc + c) % 64, y),
    decreases cols,
{
    if cols > 0 {
        lemma_row_hits_exists(m, b, xc, y, cols - 1);
        if row_hits(m, b, xc, y, cols) {
            if sprite_pixel(b, cols - 1) && pixel_lit(m, (xc + cols - 1) % 64, y) {
                assert(pixel_lit(m, (xc + (cols - 1)) % 64, y));
            }
        }
        if exists|c: int| 0 <= c < cols && sprite_pixel(b, c) && #[trigger] pixel_lit(m, (xc + c) % 64, y) {
            let c = choose|c: int| 0 <= c < cols && sprite_pixel(b, c) && #[trigger] pixel_lit(m, (xc + c) % 64, y);
            if c < cols - 1 {
                assert(row_hits(m, b, xc, y, cols - 1));
            }
        }
    }
}

proof fn lemma_rows_hits_exists(m: Seq<u8>, base: int, xc: int, yc: int, rows: int)
    ensures
        rows_hits(m, base, xc, yc, rows) <==> exists|r: int, c: int|
            0 <= r < rows && 0 <= c < 8 && #[trigger] sprite_hits_lit(m, base, xc, yc, r, c),
    decreases rows,
{
    if rows > 0 {
        lemma_rows_hits_exists(m, base, xc, yc, rows - 1);
        let y = (yc + rows - 1) % 32;
        let b = m[base + rows - 1];
        lemma_row_hits_exists(m, b, xc, y, 8);
        if rows_hits(m, base, xc, yc, rows) {
            if row_hits(m, b, xc, y, 8) {
                let c = choose|c: int| 0 <= c < 8 && sprite_pixel(b, c) && #[trigger] pixel_lit(m, (xc + c) % 64, y);
                assert(sprite_hits_lit(m, base, xc, yc, rows - 1, c));
            }
        }
        if exists|r: int, c: int| 0 <= r < rows && 0 <= c < 8 && #[trigger] sprite_hits_lit(m, base, xc, yc, r, c) {
            let (r, c) = choose|r: int, c: int|
                0 <= r < rows && 0 <= c < 8 && #[trigger] sprite_hits_lit(m, base, xc, yc, r, c);
            if r < rows - 1 {
                assert(rows_hits(m, base, xc, yc, rows - 1));
            } else {
                assert(pixel_lit(m, (xc + c) % 64, y));
                assert(row_hits(m, b, xc, y, 8));
            }
        }
    }
}

proof fn lemma_rows_hits_same(m1: Seq<u8>, m2: Seq<u8>, base: int, xc: int, yc: int, rows: int)
    requires
        forall|r: int| 0 <= r < rows ==> #[trigger] m1[base + r] == m2[base + r],
        forall|k: int| in_display(k) ==> #[trigger] m1[k] == m2[k],
    ensures
        (exists|r: int, c: int| 0 <= r < rows && 0 <= c < 8 && #[trigger] sprite_hits_lit(m1, base, xc, yc, r, c))
            <==> (exists|r: int, c: int| 0 <= r < rows && 0 <= c < 8 && #[trigger] sprite_hits_lit(m2, base, xc, yc, r, c)),
{
    assert forall|r: int, c: int| 0 <= r < rows && 0 <= c < 8 implies #[trigger] sprite_hits_lit(m1, base, xc, yc, r, c)
        == sprite_hits_lit(m2, base, xc, yc, r, c) by {
        lemma_offset_mod(xc, c, 64);
        vstd::arithmetic::div_mod::lemma_mod_bound(yc + r, 32);
        vstd::arithmetic::div_mod::lemma_mod_bound(xc + c, 64);
        let x = (xc + c) % 64;
        let y = (yc + r) % 32;
        assert(in_display(0xE90 + x / 8 + 8 * y));
        assert(m1[base + r] == m2[base + r]);
    }
    if exists|r: int, c: int| 0 <= r < rows && 0 <= c < 8 && #[trigger] sprite_hits_lit(m1, base, xc, yc, r, c) {
        let (r, c) = choose|r: int, c: int| 0 <= r < rows && 0 <= c < 8 && #[trigger] sprite_hits_lit(m1, base, xc, yc, r, c);
        assert(sprite_hits_lit(m2, base, xc, yc, r, c));
    }
    if exists|r: int, c: int| 0 <= r < rows && 0 <= c < 8 && #[trigger] sprite_hits_lit(m2, base, xc, yc, r, c) {
        let (r, c) = choose|r: int, c: int| 0 <= r < rows && 0 <= c < 8 && #[trigger] sprite_hits_lit(m2, base, xc, yc, r, c);
        assert(sprite_hits_lit(m1, base, xc, yc, r, c));
    }
}

/// After DXYN, VF is 1 exactly when some set pixel of the sprite, in any
/// row or column, lands on a display pixel that was lit before the draw,
/// and 0 otherwise. This holds where the sprite rows are what the draw
/// reads: they lie outside the display and VF.
pub proof fn lemma_draw_collision_flag(cmd: u16, m: Seq<u8>, rnd: u8)
    requires
        0xD000 <= cmd < 0xE000,
        exec_ok(cmd, m),
        forall|r: int|
            0 <= r < op_n(cmd) ==> !in_display(#[trigger] (index_reg(m) + r)) && index_reg(m) + r != 15,
    ensures
        exec_mem(cmd, m, rnd)[15] == (if exists|r: int, c: int|
            0 <= r < op_n(cmd) && 0 <= c < 8 && #[trigger] sprite_hits_lit(
                m,
                index_reg(m),
                m[op_x(cmd)] as int,
                m[op_y(cmd)] as int,
                r,
                c,
            ) {
            1u8
        } else {
            0u8
        }),
{
    crate::instruction::lemma_operands(cmd);
    let n = op_n(cmd);
    let b = index_reg(m);
    let xc = m[op_x(cmd)] as int;
    let yc = m[op_y(cmd)] as int;
    let m0 = m.update(15, 0u8);
    if n == 0 {
        assert(exec_mem(cmd, m, rnd) == m0);
    } else {
        assert forall|r: int| 0 <= r < n implies !in_display(#[trigger] (b + r)) && b + r != 15 by {
            assert(!in_display(index_reg(m) + r));
        }
        lemma_rows_step(m0, b, xc, yc, n);
        lemma_rows_hits_exists(m0, b, xc, yc, n);
        assert forall|r: int| 0 <= r < n implies #[trigger] m0[b + r] == m[b + r] by {
            assert(b + r != 15);
        }
        lemma_rows_hits_same(m0, m, b, xc, yc, n);
    }
}

/// After DXYN every display pixel (x, y) is flipped exactly when the
/// sprite covers it with a set pixel: row (y - VY) mod 32 of the sprite, if
/// it is one of its N rows, column (x - VX) mod 64, if it is one of its
/// eight columns. Every byte outside the display, VF aside, is kept. This
/// holds, on a memory that holds the display, where the sprite rows are what the draw reads: they lie outside
/// the display and VF.
pub proof fn lemma_draw_flips_covered_pixels(cmd: u16, m: Seq<u8>, rnd: u8)
    requires
        0xD000 <= cmd < 0xE000,
        exec_ok(cmd, m),
        m.len() >= 0xF90,
        forall|r: int|
            0 <= r < op_n(cmd) ==> !in_display(#[trigger] (index_reg(m) + r)) && index_reg(m) + r != 15,
    ensures
        exec_mem(cmd, m, rnd).len() == m.len(),
        forall|j: int| 0 <= j < m.len() && j != 15 && !in_display(j) ==> #[trigger] exec_mem(cmd, m, rnd)[j] == m[j],
        forall|x: int, y: int|
            0 <= x < 64 && 0 <= y < 32 ==> #[trigger] pixel_lit(exec_mem(cmd, m, rnd), x, y) == (pixel_lit(m, x, y) != ({
                let r = (y - m[op_y(cmd)]) % 32;
                let c = (x - m[op_x(cmd)]) % 64;
                r < op_n(cmd) && c < 8 && sprite_pixel(m[index_reg(m) + r], c)
            })),
{
    crate::instruction::lemma_operands(cmd);
    let n = op_n(cmd);
    let b = index_reg(m);
    let xc = m[op_x(cmd)] as int;
    let yc = m[op_y(cmd)] as int;
    let m0 = m.update(15, 0u8);
    let after = exec_mem(cmd, m, rnd);
    if n == 0 {
        assert(after == m0);
        assert forall|x: int, y: int| 0 <= x < 64 && 0 <= y < 32 implies #[trigger] pixel_lit(after, x, y) == pixel_lit(m, x, y) by {
            assert(0 <= x / 8 < 8);
            assert(m0[0xE90 + x / 8 + 8 * y] == m[0xE90 + x / 8 + 8 * y]);
        }
    } else {
        assert forall|r: int| 0 <= r < n implies !in_display(#[trigger] (b + r)) && b + r != 15 by {
            assert(!in_display(index_reg(m) + r));
        }
        lemma_rows_step(m0, b, xc, yc, n);
        assert forall|x: int, y: int| 0 <= x < 64 && 0 <= y < 32 implies #[trigger] pixel_lit(after, x, y) == (pixel_lit(m, x, y)
            != ({
            let r = (y - yc) % 32;
            let c = (x - xc) % 64;
            r < n && c < 8 && sprite_pixel(m[b + r], c)
        })) by {
            vstd::arithmetic::div_mod::lemma_mod_bound(y - yc, 32);
            assert(pixel_lit(m0, x, y) == pixel_lit(m, x, y));
            let r = (y - yc) % 32;
            if r < n {
                assert(m0[b + r] == m[b + r]) by {
                    assert(b + r != 15);
                }
            }
        }
    }
}

/// How a step moves the program: a jump 1NNN lands on NNN; 3XNN skips the
/// next instruction exactly when VX is NN, 4XNN exactly when it is not;
/// loads, arithmetic, I updates, random and draw instructions go on to the
/// next instruction. No step changes the return addresses of the calls
/// that stay pending.
pub proof fn lemma_step_moves_pc(c: CpuState, m: Seq<u8>)
    requires
        step_ok(c, m),
    ensures
        ({
            let cmd = fetch(c, m);
            let c2 = step_state(c, m);
            let x = ((cmd as int) / 256) % 16;
            let nn = (cmd as int) % 256;
            &&& c2.stack.len() == c.stack.len()
            &&& 0x1000 <= cmd < 0x2000 ==> c2.sp == c.sp && pc(c2) == (cmd as int) - 0x1000
            &&& 0x3000 <= cmd < 0x4000 ==> c2.sp == c.sp && pc(c2) == pc(c) + (if m[x] == nn { 4int } else { 2int })
            &&& 0x4000 <= cmd < 0x5000 ==> c2.sp == c.sp && pc(c2) == pc(c) + (if m[x] != nn { 4int } else { 2int })
            &&& (0x6000 <= cmd < 0x8000 || 0xA000 <= cmd < 0xB000 || 0xC000 <= cmd < 0xE000) ==> c2.sp == c.sp && pc(c2)
                == pc(c) + 2
            &&& forall|i: int| 0 <= i < c2.sp ==> #[trigger] c2.stack[i] == c.stack[i]
        }),
{
    let cmd = fetch(c, m);
    assert((cmd & 0x0fff) == (cmd as int) % 4096) by (bit_vector);
    assert(((cmd & 0x0f00) >> 8) == ((cmd as int) / 256) % 16) by (bit_vector);
    assert((cmd & 0x00ff) == (cmd as int) % 256) by (bit_vector);
    crate::instruction::lemma_operands(cmd);
}

/// Arithmetic and logic on registers VX and VY other than VF: 8XY0 copies
/// VY; 8XY1, 8XY2 and 8XY3 combine the bits of VX and VY by or, and, xor;
/// 8XY4 adds with VF 0 on a carry and 1 without; 8XY5 and 8XY7 subtract
/// modulo 256 with VF 1 when there is no borrow; 8XY6 and 8XYE shift VY by
/// one, VF getting the bit shifted out (for 8XYE in its place, 0x80);
/// 7XNN adds NN modulo 256 and leaves VF; 6XNN loads NN.
pub proof fn lemma_register_arithmetic(cmd: u16, m: Seq<u8>, rnd: u8)
    requires
        exec_ok(cmd, m),
        0x6000 <= cmd < 0x9000,
        m.len() > 15,
        op_x(cmd) != 15,
        op_y(cmd) != 15,
    ensures
        ({
            let vx = m[op_x(cmd)] as int;
            let vy = m[op_y(cmd)] as int;
            let nn = (cmd as int) % 256;
            let n = (cmd as int) % 16;
            let r = exec_mem(cmd, m, rnd);
            let rx = r[op_x(cmd)] as int;
            let rf = r[15] as int;
            &&& cmd < 0x7000 ==> rx == nn && rf == m[15]
            &&& 0x7000 <= cmd < 0x8000 ==> rx == (vx + nn) % 256 && rf == m[15]
            &&& 0x8000 <= cmd && n == 0 ==> rx == vy
            &&& 0x8000 <= cmd && n <= 3 ==> rf == m[15] && forall|i: u8|
                i < 8 ==> #[trigger] ((r[op_x(cmd)] >> i) & 1) == (if n == 1 {
                    ((m[op_x(cmd)] >> i) & 1) | ((m[op_y(cmd)] >> i) & 1)
                } else if n == 2 {
                    ((m[op_x(cmd)] >> i) & 1) & ((m[op_y(cmd)] >> i) & 1)
                } else if n == 3 {
                    ((m[op_x(cmd)] >> i) & 1) ^ ((m[op_y(cmd)] >> i) & 1)
                } else {
                    (m[op_y(cmd)] >> i) & 1
                })
            &&& 0x8000 <= cmd && n == 4 ==> rx + 256 * (1 - rf) == vx + vy && rf <= 1
            &&& 0x8000 <= cmd && n == 5 ==> rx == (vx - vy + 256) % 256 && rf == (if vx >= vy { 1int } else { 0int })
            &&& 0x8000 <= cmd && n == 7 ==> rx == (vy - vx + 256) % 256 && rf == (if vy >= vx { 1int } else { 0int })
            &&& 0x8000 <= cmd && n == 6 ==> 2 * rx + rf == vy && rf <= 1
            &&& 0x8000 <= cmd && n == 14 ==> rx == (2 * vy) % 256 && rf == (if vy >= 128 { 128int } else { 0int })
        }),
{
    crate::instruction::lemma_operands(cmd);
    assert((cmd & 0x00ff) == (cmd as int) % 256) by (bit_vector);
    assert((cmd & 0x000f) == (cmd as int) % 16) by (bit_vector);
    let a = m[op_x(cmd)];
    let b = m[op_y(cmd)];
    assert(forall|i: u8| i < 8 ==> #[trigger] (((a | b) >> i) & 1) == ((a >> i) & 1) | ((b >> i) & 1)) by (bit_vector);
    assert(forall|i: u8| i < 8 ==> #[trigger] (((a & b) >> i) & 1) == ((a >> i) & 1) & ((b >> i) & 1)) by (bit_vector);
    assert(forall|i: u8| i < 8 ==> #[trigger] (((a ^ b) >> i) & 1) == ((a >> i) & 1) ^ ((b >> i) & 1)) by (bit_vector);
    assert(2 * (b >> 1u8) + (b & 1u8) == b && (b & 1u8) <= 1) by (bit_vector);
    assert((b << 1u8) == (2 * b) % 256 && (b & 0x80u8) == (if b >= 128 { 128u8 } else { 0u8 })) by (bit_vector);
    let vx = m[op_x(cmd)] as int;
    let vy = m[op_y(cmd)] as int;
    let nn = (cmd as int) % 256;
    let n = (cmd as int) % 16;
    let r = exec_mem(cmd, m, rnd);
    let rx = r[op_x(cmd)] as int;
    let rf = r[15] as int;
    assert(cmd < 0x7000 ==> rx == nn && rf == m[15]);
    assert(0x7000 <= cmd < 0x8000 ==> rx == (vx + nn) % 256 && rf == m[15]);
    assert(0x8000 <= cmd && n == 0 ==> rx == vy);
    assert(0x8000 <= cmd && n == 4 ==> rx + 256 * (1 - rf) == vx + vy && rf <= 1);
    assert(0x8000 <= cmd && n == 5 ==> rx == (vx - vy + 256) % 256 && rf == (if vx >= vy { 1int } else { 0int }));
    assert(0x8000 <= cmd && n == 7 ==> rx == (vy - vx + 256) % 256 && rf == (if vy >= vx { 1int } else { 0int }));
    assert(0x8000 <= cmd && n == 6 ==> 2 * rx + rf == vy && rf <= 1);
    assert(0x8000 <= cmd && n == 14 ==> rx == (2 * vy) % 256 && rf == (if vy >= 128 { 128int } else { 0int }));
}

/// The index register: ANNN sets I to NNN, FX1E adds VX to it, and FX29
/// points it at the font glyph of the digit VX, FONT_START + 5 * VX.
pub proof fn lemma_index_register(cmd: u16, m: Seq<u8>, rnd: u8)
    requires
        exec_ok(cmd, m),
        0xA000 <= cmd < 0xB000 || (cmd >= 0xF000 && ((cmd as int) % 256 == 0x1E || (cmd as int) % 256 == 0x29)),
    ensures
        ({
            let i2 = index_reg(exec_mem(cmd, m, rnd));
            let vx = m[op_x(cmd)] as int;
            &&& cmd < 0xB000 ==> i2 == (cmd as int) - 0xA000
            &&& cmd >= 0xF000 && (cmd as int) % 256 == 0x1E ==> i2 == index_reg(m) + vx
            &&& cmd >= 0xF000 && (cmd as int) % 256 == 0x29 ==> i2 == 16 + 5 * vx
        }),
{
    crate::instruction::lemma_operands(cmd);
    assert((cmd & 0x00ff) == (cmd as int) % 256) by (bit_vector);
    assert((cmd & 0x0fff) == (cmd as int) % 4096) by (bit_vector);
}

} // verus!
