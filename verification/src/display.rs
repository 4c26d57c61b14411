//! The host side of the display and the keypad: scaling the 64x32 display
//! bits of memory into a window's pixel buffer, and mapping host keys to
//! the sixteen keypad codes.

use vstd::prelude::*;
use vstd::arithmetic::div_mod::{lemma_fundamental_div_mod_converse, lemma_multiply_divide_lt};
use crate::instruction::pixel_mask;
use crate::memory::DISPLAY_BYTES;

verus! {

/// The keypad code that stands for "no key pressed".
pub const NO_KEY: u8 = 17;

/// The colour of a lit pixel (0xRRGGBB).
pub const PIXEL_ON: u32 = 0xFF32FF;

/// A key of the host keyboard, as far as the keypad mapping tells keys apart.
#[derive(Clone, Copy, Debug, PartialEq, Eq)]
pub enum HostKey {
    Key1,
    Key2,
    Key3,
    Key4,
    Q,
    W,
    E,
    R,
    A,
    S,
    D,
    F,
    Z,
    X,
    C,
    V,
    Other,
}

/// The keypad code of a host key: the 4x4 block 1234/QWER/ASDF/ZXCV stands
/// for the keypad 123C/456D/789E/A0BF.
pub open spec fn keypad_code(k: HostKey) -> Option<u8> {
    match k {
        HostKey::Key1 => Some(1u8),
        HostKey::Key2 => Some(2u8),
        HostKey::Key3 => Some(3u8),
        HostKey::Key4 => Some(0xcu8),
        HostKey::Q => Some(4u8),
        HostKey::W => Some(5u8),
        HostKey::E => Some(6u8),
        HostKey::R => Some(0xdu8),
        HostKey::A => Some(7u8),
        HostKey::S => Some(8u8),
        HostKey::D => Some(9u8),
        HostKey::F => Some(0xeu8),
        HostKey::Z => Some(0xau8),
        HostKey::X => Some(0u8),
        HostKey::C => Some(0xbu8),
        HostKey::V => Some(0xfu8),
        HostKey::Other => None,
    }
}

/// The keypad code reported for the keys held down, in the order the host
/// lists them: that of the last key with a code, or `NO_KEY`.
pub open spec fn pressed_key(keys: Seq<HostKey>) -> u8
    decreases keys.len(),
{
    if keys.len() == 0 {
        NO_KEY
    } else {
        match keypad_code(keys.last()) {
            Some(c) => c,
            None => pressed_key(keys.drop_last()),
        }
    }
}

/// Whether pixel (`x`, `y`) of the 64x32 display is lit in `frame`, the
/// display bytes, eight pixels to a byte, leftmost pixel in the high bit.
pub open spec fn lit(frame: Seq<u8>, x: int, y: int) -> bool {
    frame[x / 8 + y * 8] & pixel_mask(x) != 0
}

/// The mathematical model of a `DisplayState`.
pub struct DisplayModel {
    pub width: int,
    pub height: int,
    pub buffer: Seq<u32>,
    pub x_mul: int,
    pub y_mul: int,
    pub pixel_on: u32,
    pub keypress: u8,
    pub last_frame: Seq<u8>,
}

/// The state invariant: a buffer of width x height pixels, each display
/// pixel scaled to an x_mul x y_mul block, and the frame last drawn.
pub open spec fn display_wf(d: DisplayModel) -> bool {
    &&& d.width >= 0
    &&& d.height >= 0
    &&& d.buffer.len() == d.width * d.height
    &&& d.x_mul == d.width / 64
    &&& d.y_mul == d.height / 32
    &&& d.pixel_on == PIXEL_ON
    &&& d.last_frame.len() == DISPLAY_BYTES
}

/// Whether the window size is a whole multiple of the 64x32 display.
pub open spec fn dims_valid(d: DisplayModel) -> bool {
    &&& d.width >= 64
    &&& d.width % 64 == 0
    &&& d.height >= 32
    &&& d.height % 32 == 0
}

/// The pixel buffer that shows `frame`: buffer pixel k, at row k / width and
/// column k % width, shows display pixel (column / x_mul, row / y_mul).
pub open spec fn scaled(d: DisplayModel, frame: Seq<u8>) -> Seq<u32> {
    Seq::new(
        (d.width * d.height) as nat,
        |k: int|
            if lit(frame, (k % d.width) / d.x_mul, (k / d.width) / d.y_mul) {
                d.pixel_on
            } else {
                0u32
            },
    )
}

/// The state after `frame` is shown: the buffer is redrawn where the frame
/// differs from the one shown last, and the frame is remembered.
pub open spec fn rendered(d: DisplayModel, frame: Seq<u8>) -> DisplayModel {
    DisplayModel {
        buffer: if frame != d.last_frame {
            scaled(d, frame)
        } else {
            d.buffer
        },
        last_frame: frame,
        ..d
    }
}

proof fn lemma_cell(j: int, w: int, row: int, col: int)
    requires
        w > 0,
        0 <= col < w,
        j == row * w + col,
    ensures
        j / w == row,
        j % w == col,
{
    lemma_fundamental_div_mod_converse(j, w, row, col);
}

proof fn lemma_block(n: int, m: int, b: int)
    requires
        m > 0,
        b * m <= n < (b + 1) * m,
    ensures
        n / m == b,
{
    assert((b + 1) * m == b * m + m) by (nonlinear_arith);
    lemma_fundamental_div_mod_converse(n, m, b, n - b * m);
}

/// Whether buffer position `k` comes before the write of row `ny`, column
/// `nx` of the block of display pixel (`x`, `y`) in the order that
/// `update_buffer` fills the buffer.
pub open spec fn before(d: DisplayModel, k: int, y: int, x: int, ny: int, nx: int) -> bool {
    let r = k / d.width;
    let c = k % d.width;
    let py = r / d.y_mul;
    let px = c / d.x_mul;
    ||| py < y
    ||| py == y && px < x
    ||| py == y && px == x && r < ny
    ||| py == y && px == x && r == ny && c < nx
}

/// Whether `buf` agrees with `target` at every position that comes before
/// the given point of the fill order.
pub open spec fn filled(buf: Seq<u32>, target: Seq<u32>, d: DisplayModel, y: int, x: int, ny: int, nx: int) -> bool {
    &&& buf.len() == target.len()
    &&& forall|k: int| 0 <= k < target.len() && #[trigger] before(d, k, y, x, ny, nx) ==> buf[k] == target[k]
}

proof fn lemma_div_mod_parts(k: int, w: int)
    requires
        w > 0,
        k >= 0,
    ensures
        k == (k / w) * w + k % w,
        0 <= k % w < w,
        k / w >= 0,
{
    vstd::arithmetic::div_mod::lemma_fundamental_div_mod(k, w);
    vstd::arithmetic::div_mod::lemma_div_pos_is_pos(k, w);
    assert(w * (k / w) == (k / w) * w) by (nonlinear_arith);
}

proof fn lemma_in_block(n: int, m: int, b: int)
    requires
        m > 0,
        n >= 0,
        n / m == b,
    ensures
        b * m <= n < (b + 1) * m,
{
    lemma_div_mod_parts(n, m);
    assert(b * m <= n < (b + 1) * m) by (nonlinear_arith)
        requires
            n == b * m + n % m,
            0 <= n % m < m,
    ;
}

proof fn lemma_fill_cell(
    old_buf: Seq<u32>,
    buf: Seq<u32>,
    target: Seq<u32>,
    d: DisplayModel,
    y: int,
    x: int,
    ny: int,
    nx: int,
    j: int,
)
    requires
        d.width > 0,
        d.x_mul > 0,
        d.y_mul > 0,
        filled(old_buf, target, d, y, x, ny, nx),
        0 <= j < target.len(),
        j == ny * d.width + nx,
        0 <= nx < d.width,
        j / d.width == ny,
        j % d.width == nx,
        ny / d.y_mul == y,
        nx / d.x_mul == x,
        buf == old_buf.update(j, target[j]),
    ensures
        filled(buf, target, d, y, x, ny, nx + 1),
{
    assert forall|k: int| 0 <= k < target.len() && #[trigger] before(d, k, y, x, ny, nx + 1) implies buf[k]
        == target[k] by {
        if k != j {
            lemma_div_mod_parts(k, d.width);
            if before(d, k, y, x, ny, nx) {
            } else {
                assert(k / d.width == ny && k % d.width == nx);
                assert(false);
            }
        }
    }
}

proof fn lemma_fill_block_start(buf: Seq<u32>, target: Seq<u32>, d: DisplayModel, y: int, x: int)
    requires
        d.width > 0,
        d.x_mul > 0,
        d.y_mul > 0,
        filled(buf, target, d, y, x, 0, 0),
    ensures
        filled(buf, target, d, y, x, y * d.y_mul, 0),
{
    assert forall|k: int| 0 <= k < target.len() && #[trigger] before(d, k, y, x, y * d.y_mul, 0) implies buf[k]
        == target[k] by {
        lemma_div_mod_parts(k, d.width);
        let r = k / d.width;
        if r / d.y_mul == y {
            lemma_in_block(r, d.y_mul, y);
        }
        assert(before(d, k, y, x, 0, 0));
    }
}

proof fn lemma_fill_row_start(buf: Seq<u32>, target: Seq<u32>, d: DisplayModel, y: int, x: int, ny: int)
    requires
        d.width > 0,
        d.x_mul > 0,
        d.y_mul > 0,
        filled(buf, target, d, y, x, ny, 0),
    ensures
        filled(buf, target, d, y, x, ny, x * d.x_mul),
{
    assert forall|k: int| 0 <= k < target.len() && #[trigger] before(d, k, y, x, ny, x * d.x_mul) implies buf[k]
        == target[k] by {
        lemma_div_mod_parts(k, d.width);
        let c = k % d.width;
        if c / d.x_mul == x {
            lemma_in_block(c, d.x_mul, x);
        }
        assert(before(d, k, y, x, ny, 0));
    }
}

proof fn lemma_fill_row(buf: Seq<u32>, target: Seq<u32>, d: DisplayModel, y: int, x: int, ny: int)
    requires
        d.width > 0,
        d.x_mul > 0,
        d.y_mul > 0,
        filled(buf, target, d, y, x, ny, (x + 1) * d.x_mul),
    ensures
        filled(buf, target, d, y, x, ny + 1, 0),
{
    assert forall|k: int| 0 <= k < target.len() && #[trigger] before(d, k, y, x, ny + 1, 0) implies buf[k]
        == target[k] by {
        lemma_div_mod_parts(k, d.width);
        let c = k % d.width;
        if (k / d.width) / d.y_mul == y && c / d.x_mul == x && k / d.width == ny {
            lemma_in_block(c, d.x_mul, x);
            assert(before(d, k, y, x, ny, (x + 1) * d.x_mul));
        } else {
            assert(before(d, k, y, x, ny, (x + 1) * d.x_mul));
        }
    }
}

proof fn lemma_fill_block(buf: Seq<u32>, target: Seq<u32>, d: DisplayModel, y: int, x: int)
    requires
        d.width > 0,
        d.x_mul > 0,
        d.y_mul > 0,
        filled(buf, target, d, y, x, (y + 1) * d.y_mul, 0),
    ensures
        filled(buf, target, d, y, x + 1, 0, 0),
{
    assert forall|k: int| 0 <= k < target.len() && #[trigger] before(d, k, y, x + 1, 0, 0) implies buf[k]
        == target[k] by {
        lemma_div_mod_parts(k, d.width);
        let r = k / d.width;
        if r / d.y_mul == y {
            lemma_in_block(r, d.y_mul, y);
        }
        assert(before(d, k, y, x, (y + 1) * d.y_mul, 0));
    }
}

proof fn lemma_fill_line(buf: Seq<u32>, target: Seq<u32>, d: DisplayModel, y: int)
    requires
        d.width == 64 * d.x_mul,
        d.x_mul > 0,
        d.y_mul > 0,
        filled(buf, target, d, y, 64, 0, 0),
    ensures
        filled(buf, target, d, y + 1, 0, 0, 0),
{
    assert forall|k: int| 0 <= k < target.len() && #[trigger] before(d, k, y + 1, 0, 0, 0) implies buf[k]
        == target[k] by {
        lemma_div_mod_parts(k, d.width);
        lemma_multiply_divide_lt(k % d.width, d.x_mul, 64);
        assert(before(d, k, y, 64, 0, 0));
    }
}

proof fn lemma_fill_all(buf: Seq<u32>, target: Seq<u32>, d: DisplayModel)
    requires
        d.width == 64 * d.x_mul,
        d.height == 32 * d.y_mul,
        target.len() == d.width * d.height,
        d.x_mul > 0,
        d.y_mul > 0,
        filled(buf, target, d, 32, 0, 0, 0),
    ensures
        buf == target,
{
    assert forall|k: int| 0 <= k < target.len() implies buf[k] == target[k] by {
        lemma_multiply_divide_lt(k, d.width, d.height);
        lemma_div_mod_parts(k, d.width);
        lemma_multiply_divide_lt(k / d.width, d.y_mul, 32);
        assert(before(d, k, 32, 0, 0, 0));
    }
    assert(buf =~= target);
}

/// The host window's display state: its pixel buffer, its scale, the frame
/// last drawn and the key last reported.
pub struct DisplayState {
    width: usize,
    height: usize,
    buffer: Vec<u32>,
    x_mul: usize,
    y_mul: usize,
    pixel_on: u32,
    keypress: u8,
    last_pixel_data: Vec<u8>,
}

impl View for DisplayState {
    type V = DisplayModel;

    closed spec fn view(&self) -> DisplayModel {
        DisplayModel {
            width: self.width as int,
            height: self.height as int,
            buffer: self.buffer@,
            x_mul: self.x_mul as int,
            y_mul: self.y_mul as int,
            pixel_on: self.pixel_on,
            keypress: self.keypress,
            last_frame: self.last_pixel_data@,
        }
    }
}

impl DisplayState {
    /// A dark `width` x `height` buffer, no frame drawn yet (all display
    /// bytes taken as zero) and no key.
    pub fn new(width: usize, height: usize) -> (d: DisplayState)
        requires
            width * height <= usize::MAX,
        ensures
            display_wf(d@),
            d@.width == width,
            d@.height == height,
            d@.buffer == Seq::new((width * height) as nat, |k: int| 0u32),
            d@.keypress == NO_KEY,
            d@.last_frame == Seq::new(DISPLAY_BYTES as nat, |k: int| 0u8),
    {
        let d = DisplayState {
            buffer: vec![0; width * height],
            height,
            width,
            x_mul: width / 64,
            y_mul: height / 32,
            pixel_on: PIXEL_ON,
            keypress: NO_KEY,
            last_pixel_data: vec![0; DISPLAY_BYTES],
        };
        assert(d@.buffer =~= Seq::new((width * height) as nat, |k: int| 0u32));
        assert(d@.last_frame =~= Seq::new(DISPLAY_BYTES as nat, |k: int| 0u8));
        d
    }

    /// Redraws the whole buffer from `pixel_data`, the display bytes, each
    /// display pixel filling its x_mul x y_mul block of the buffer.
    pub fn update_buffer(&mut self, pixel_data: &[u8])
        requires
            display_wf(old(self)@),
            dims_valid(old(self)@),
            pixel_data@.len() >= DISPLAY_BYTES,
        ensures
            final(self)@ == (DisplayModel { buffer: scaled(old(self)@, pixel_data@), ..old(self)@ }),
    {
        let ghost d = self@;
        let ghost target = scaled(d, pixel_data@);
        let ghost w = d.width;
        let ghost h = d.height;
        let ghost xm = d.x_mul;
        let ghost ym = d.y_mul;
        proof {
            assert(w == 64 * xm && h == 32 * ym);
        }
        for y in 0..32usize
            invariant
                display_wf(d),
                dims_valid(d),
                w == d.width && h == d.height && xm == d.x_mul && ym == d.y_mul,
                w == 64 * xm && h == 32 * ym,
                xm > 0 && ym > 0,
                pixel_data@.len() >= DISPLAY_BYTES,
                target == scaled(d, pixel_data@),
                self@ == (DisplayModel { buffer: self@.buffer, ..d }),
                filled(self@.buffer, target, d, y as int, 0, 0, 0),
        {
            proof {
                assert((y + 1) * ym <= 32 * ym) by (nonlinear_arith)
                    requires
                        y < 32,
                        ym > 0,
                ;
            }
            for x in 0..64usize
                invariant
                    display_wf(d),
                    dims_valid(d),
                    w == d.width && h == d.height && xm == d.x_mul && ym == d.y_mul,
                    w == 64 * xm && h == 32 * ym,
                    xm > 0 && ym > 0,
                    y < 32,
                    (y + 1) * ym <= h,
                    pixel_data@.len() >= DISPLAY_BYTES,
                    target == scaled(d, pixel_data@),
                    self@ == (DisplayModel { buffer: self@.buffer, ..d }),
                    filled(self@.buffer, target, d, y as int, x as int, 0, 0),
            {
                proof {
                    assert((x + 1) * xm <= 64 * xm) by (nonlinear_arith)
                        requires
                            x < 64,
                            xm > 0,
                    ;
                }
                proof {
                    assert(y * ym <= (y + 1) * ym) by (nonlinear_arith)
                        requires
                            ym > 0,
                    ;
                    assert(x * xm <= (x + 1) * xm) by (nonlinear_arith)
                        requires
                            xm > 0,
                    ;
                    lemma_fill_block_start(self@.buffer, target, d, y as int, x as int);
                }
                let val: u32 = if pixel_data[(x / 8) + (y * 8)] & (1u8 << ((7 - x % 8) as u8)) != 0 {
                    1
                } else {
                    0
                };
                let y_lo = y * self.y_mul;
                let y_hi = (y + 1) * self.y_mul;
                for new_y in y_lo..y_hi
                    invariant
                        display_wf(d),
                        dims_valid(d),
                        w == d.width && h == d.height && xm == d.x_mul && ym == d.y_mul,
                        w == 64 * xm && h == 32 * ym,
                        xm > 0 && ym > 0,
                        y < 32 && x < 64,
                        (y + 1) * ym <= h && (x + 1) * xm <= w,
                        y * ym <= new_y <= (y + 1) * ym,
                        y_lo == y * ym && y_hi == (y + 1) * ym,
                        x * xm <= (x + 1) * xm,
                        val == (if lit(pixel_data@, x as int, y as int) { 1u32 } else { 0u32 }),
                        pixel_data@.len() >= DISPLAY_BYTES,
                        target == scaled(d, pixel_data@),
                        self@ == (DisplayModel { buffer: self@.buffer, ..d }),
                        filled(self@.buffer, target, d, y as int, x as int, new_y as int, 0),
                {
                    proof {
                        lemma_fill_row_start(self@.buffer, target, d, y as int, x as int, new_y as int);
                    }
                    let x_lo = x * self.x_mul;
                    let x_hi = (x + 1) * self.x_mul;
                    for new_x in x_lo..x_hi
                        invariant
                            display_wf(d),
                            dims_valid(d),
                            w == d.width && h == d.height && xm == d.x_mul && ym == d.y_mul,
                            w == 64 * xm && h == 32 * ym,
                            xm > 0 && ym > 0,
                            y < 32 && x < 64,
                            (y + 1) * ym <= h && (x + 1) * xm <= w,
                            y * ym <= new_y < (y + 1) * ym,
                            x * xm <= new_x <= (x + 1) * xm,
                            x_lo == x * xm && x_hi == (x + 1) * xm,
                            val == (if lit(pixel_data@, x as int, y as int) { 1u32 } else { 0u32 }),
                            pixel_data@.len() >= DISPLAY_BYTES,
                            target == scaled(d, pixel_data@),
                            self@ == (DisplayModel { buffer: self@.buffer, ..d }),
                            filled(self@.buffer, target, d, y as int, x as int, new_y as int, new_x as int),
                    {
                        proof {
                            assert(new_y * w + new_x < w * h) by (nonlinear_arith)
                                requires
                                    new_y < h,
                                    new_x < w,
                                    0 <= new_y,
                                    0 <= new_x,
                            ;
                            lemma_cell(new_y * w + new_x, w, new_y as int, new_x as int);
                            assert(self.buffer.len() == w * h);
                            assert(new_y * w <= new_y * w + new_x);
                            lemma_block(new_y as int, ym, y as int);
                            lemma_block(new_x as int, xm, x as int);
                        }
                        let j = new_y * self.width + new_x;
                        let ghost before = self@.buffer;
                        self.buffer[j] = self.pixel_on * val;
                        proof {
                            lemma_fill_cell(before, self@.buffer, target, d, y as int, x as int,
                                new_y as int, new_x as int, j as int);
                        }
                    }
                    proof {
                        lemma_fill_row(self@.buffer, target, d, y as int, x as int, new_y as int);
                    }
                }
                proof {
                    lemma_fill_block(self@.buffer, target, d, y as int, x as int);
                }
            }
            proof {
                lemma_fill_line(self@.buffer, target, d, y as int);
            }
        }
        proof {
            lemma_fill_all(self@.buffer, target, d);
        }
    }

    /// Whether `render` can take `pixel_data`: it must hold exactly the
    /// display bytes, and a changed frame can only be drawn into a window
    /// whose size is a whole multiple of the display.
    pub fn render_ok(&self, pixel_data: &[u8]) -> (r: bool)
        requires
            display_wf(self@),
        ensures
            r == (pixel_data@.len() == DISPLAY_BYTES && (pixel_data@ != self@.last_frame ==> dims_valid(
                self@,
            ))),
    {
        if pixel_data.len() != DISPLAY_BYTES {
            return false;
        }
        same_frame(pixel_data, &self.last_pixel_data) || (self.height >= 32 && self.height % 32 == 0
            && self.width >= 64 && self.width % 64 == 0)
    }

    /// Shows the display bytes `pixel_data`: redraws the buffer when they
    /// differ from the frame shown last, and remembers them.
    pub fn render(&mut self, pixel_data: &[u8])
        requires
            display_wf(old(self)@),
            pixel_data@.len() == DISPLAY_BYTES,
            pixel_data@ != old(self)@.last_frame ==> dims_valid(old(self)@),
        ensures
            display_wf(final(self)@),
            final(self)@ == rendered(old(self)@, pixel_data@),
    {
        if !same_frame(pixel_data, &self.last_pixel_data) {
            self.update_buffer(pixel_data);
        }
        let ghost mid = self@;
        for k in 0..DISPLAY_BYTES
            invariant
                self.last_pixel_data@.len() == DISPLAY_BYTES,
                pixel_data@.len() == DISPLAY_BYTES,
                self@ == (DisplayModel { last_frame: self@.last_frame, ..mid }),
                forall|j: int| 0 <= j < k ==> self.last_pixel_data@[j] == pixel_data@[j],
        {
            self.last_pixel_data[k] = pixel_data[k];
        }
        assert(self.last_pixel_data@ =~= pixel_data@);
    }

    /// Reports the keypad code for the host keys held down (see
    /// `pressed_key`) and remembers it.
    pub fn get_input(&mut self, keys: &[HostKey]) -> (key: u8)
        ensures
            key == pressed_key(keys@),
            final(self)@ == (DisplayModel { keypress: key, ..old(self)@ }),
    {
        self.keypress = NO_KEY;
        for i in 0..keys.len()
            invariant
                self@ == (DisplayModel { keypress: self.keypress, ..old(self)@ }),
                self.keypress == pressed_key(keys@.take(i as int)),
        {
            let code = match keys[i] {
                HostKey::Key1 => 1,
                HostKey::Key2 => 2,
                HostKey::Key3 => 3,
                HostKey::Key4 => 0xc,
                HostKey::Q => 4,
                HostKey::W => 5,
                HostKey::E => 6,
                HostKey::R => 0xd,
                HostKey::A => 7,
                HostKey::S => 8,
                HostKey::D => 9,
                HostKey::F => 0xe,
                HostKey::Z => 0xa,
                HostKey::X => 0,
                HostKey::C => 0xb,
                HostKey::V => 0xf,
                HostKey::Other => self.keypress,
            };
            self.keypress = code;
            assert(keys@.take(i + 1).drop_last() =~= keys@.take(i as int));
        }
        assert(keys@.take(keys.len() as int) =~= keys@);
        self.keypress
    }

    /// The pixel buffer, row by row.
    pub fn buffer(&self) -> (r: &Vec<u32>)
        ensures
            r@ == self@.buffer,
    {
        &self.buffer
    }

    /// The window width in pixels.
    pub fn width(&self) -> (r: usize)
        ensures
            r == self@.width,
    {
        self.width
    }

    /// The window height in pixels.
    pub fn height(&self) -> (r: usize)
        ensures
            r == self@.height,
    {
        self.height
    }
}

/// Whether two frames hold the same bytes.
fn same_frame(a: &[u8], b: &Vec<u8>) -> (r: bool)
    ensures
        r == (a@ == b@),
{
    if a.len() != b.len() {
        return false;
    }
    for i in 0..a.len()
        invariant
            a@.len() == b@.len(),
            forall|j: int| 0 <= j < i ==> a@[j] == b@[j],
    {
        if a[i] != b[i] {
            return false;
        }
    }
    assert(a@ =~= b@);
    true
}

} // verus!
