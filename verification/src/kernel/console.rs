//! A text console over the linear framebuffer.
//!
//! The console owns no buffer: it draws straight into the framebuffer and
//! scrolls by moving pixels. The framebuffer is handed in as a slice of
//! pixels, one `u32` each, row after row.

use crate::boot_info::{format_of_raw, FrameBufferInfo, PixelFormatKind};
use crate::kernel::font::{glyph_index, Font, GLYPH_HEIGHT, GLYPH_WIDTH};
use vstd::prelude::*;

verus! {

/// The bytes of a pixel from the lowest up.
pub open spec fn packed(format: PixelFormatKind, red: u8, green: u8, blue: u8) -> u32 {
    match format {
        PixelFormatKind::Rgb => (red + green * 0x100 + blue * 0x1_0000) as u32,
        PixelFormatKind::Bgr => (blue + green * 0x100 + red * 0x1_0000) as u32,
    }
}

/// Pack an RGB triple into the framebuffer's pixel layout.
///
/// The two formats differ only in byte order, and the bootloader rejects
/// anything else, so this cannot fail.
pub fn pack(format: PixelFormatKind, red: u8, green: u8, blue: u8) -> (pixel: u32)
    ensures
        pixel == packed(format, red, green, blue),
{
    let r: u32 = red as u32;
    let g: u32 = green as u32;
    let b: u32 = blue as u32;
    assert(forall|x: u32, y: u32, z: u32|
        x < 0x100 && y < 0x100 && z < 0x100 ==> #[trigger] (x | (y << 8) | (z << 16)) == x + y
            * 0x100 + z * 0x1_0000) by (bit_vector);
    match format {
        PixelFormatKind::Rgb => r | (g << 8) | (b << 16),
        PixelFormatKind::Bgr => b | (g << 8) | (r << 16),
    }
}

/// Every pixel the console can reach lies inside this framebuffer.
pub open spec fn drawable(framebuffer: FrameBufferInfo) -> bool {
    &&& format_of_raw(framebuffer.pixel_format_raw) is Some
    &&& framebuffer.addr != 0
    &&& framebuffer.addr % 4 == 0
    &&& framebuffer.bytes_per_pixel == 4
    &&& framebuffer.stride >= framebuffer.width
    &&& framebuffer.width >= GLYPH_WIDTH
    &&& framebuffer.height >= GLYPH_HEIGHT
    &&& framebuffer.stride * framebuffer.height * 4 <= framebuffer.size
    &&& framebuffer.addr + framebuffer.stride * framebuffer.height * 4 <= u64::MAX
}

/// Everything needed to paint text, captured once.
#[derive(Clone, Copy, Debug)]
pub struct Console {
    framebuffer: FrameBufferInfo,
    /// Cursor position in character cells, not pixels.
    column: u64,
    row: u64,
    columns: u64,
    rows: u64,
    foreground: u32,
    background: u32,
}

/// What the console shows, apart from the pixels themselves.
#[verifier::ext_equal]
pub struct ConsoleState {
    pub width: int,
    pub height: int,
    pub stride: int,
    pub column: int,
    pub row: int,
    pub foreground: u32,
    pub background: u32,
}

impl ConsoleState {
    /// How many character cells a row has.
    pub open spec fn columns(self) -> int {
        self.width / GLYPH_WIDTH as int
    }

    /// How many rows of cells there are.
    pub open spec fn rows(self) -> int {
        self.height / GLYPH_HEIGHT as int
    }

    /// How many pixels the framebuffer has.
    pub open spec fn pixels(self) -> int {
        self.stride * self.height
    }

    /// The screen holds at least one cell, and the cursor is on it or just
    /// behind the last column.
    pub open spec fn wf(self) -> bool {
        &&& GLYPH_WIDTH <= self.width <= self.stride
        &&& self.stride <= u32::MAX
        &&& GLYPH_HEIGHT <= self.height <= u32::MAX
        &&& 0 <= self.column <= self.columns()
        &&& 0 <= self.row < self.rows()
    }

    /// The pixel at (x, y) belongs to the cell under the cursor.
    pub open spec fn in_cell(self, x: int, y: int) -> bool {
        &&& self.column * GLYPH_WIDTH <= x < self.column * GLYPH_WIDTH + GLYPH_WIDTH
        &&& self.row * GLYPH_HEIGHT <= y < self.row * GLYPH_HEIGHT + GLYPH_HEIGHT
    }

    /// The colour of the glyph's pixel at (x, y). Most significant bit is
    /// the leftmost pixel.
    pub open spec fn glyph_colour(self, bitmap: Seq<u8>, x: int, y: int) -> u32 {
        let dx = x - self.column * GLYPH_WIDTH;
        let dy = y - self.row * GLYPH_HEIGHT;
        if bitmap[dy] & (0x80u8 >> (dx as u8)) != 0 {
            self.foreground
        } else {
            self.background
        }
    }

    /// The screen once the glyph is drawn under the cursor.
    pub open spec fn drawn(self, screen: Seq<u32>, bitmap: Seq<u8>) -> Seq<u32> {
        Seq::new(
            screen.len(),
            |i: int|
                if self.in_cell(i % self.stride, i / self.stride) {
                    self.glyph_colour(bitmap, i % self.stride, i / self.stride)
                } else {
                    screen[i]
                },
        )
    }

    /// The screen once everything moved up by one text row and the bottom
    /// one is cleared. What lies right of the visible width moves along, and
    /// is not cleared.
    pub open spec fn scrolled(self, screen: Seq<u32>) -> Seq<u32> {
        Seq::new(
            screen.len(),
            |i: int|
                if i / self.stride < self.height - GLYPH_HEIGHT {
                    screen[i + GLYPH_HEIGHT * self.stride]
                } else if i % self.stride < self.width {
                    self.background
                } else {
                    screen[i]
                },
        )
    }

    /// The cursor at the start of the next row, or of the last one.
    pub open spec fn next_row(self) -> ConsoleState {
        ConsoleState {
            column: 0,
            row: if self.row + 1 < self.rows() { self.row + 1 } else { self.row },
            ..self
        }
    }

    /// The screen after a line break: it scrolls if the cursor was on the
    /// last row.
    pub open spec fn broken(self, screen: Seq<u32>) -> Seq<u32> {
        if self.row + 1 < self.rows() {
            screen
        } else {
            self.scrolled(screen)
        }
    }

    /// The cursor one cell to the right.
    pub open spec fn next_cell(self) -> ConsoleState {
        ConsoleState { column: self.column + 1, ..self }
    }

    /// The state once `byte` is written: a line feed breaks the line, a
    /// carriage return does nothing, and anything else takes a cell, on the
    /// next row if this one is full.
    pub open spec fn after_byte(self, byte: u8) -> ConsoleState {
        if byte == 0x0a {
            self.next_row()
        } else if byte == 0x0d {
            self
        } else if self.column >= self.columns() {
            self.next_row().next_cell()
        } else {
            self.next_cell()
        }
    }

    /// The screen once `byte` is written.
    pub open spec fn screen_after(self, screen: Seq<u32>, font: Font, byte: u8) -> Seq<u32> {
        let bitmap = font.glyphs@[glyph_index(byte)]@;
        if byte == 0x0a {
            self.broken(screen)
        } else if byte == 0x0d {
            screen
        } else if self.column >= self.columns() {
            self.next_row().drawn(self.broken(screen), bitmap)
        } else {
            self.drawn(screen, bitmap)
        }
    }

    /// The state once a text is written byte by byte.
    pub open spec fn after_text(self, text: Seq<u8>) -> ConsoleState
        decreases text.len(),
    {
        if text.len() == 0 {
            self
        } else {
            self.after_text(text.drop_last()).after_byte(text.last())
        }
    }

    /// The screen once a text is written byte by byte.
    pub open spec fn screen_after_text(self, screen: Seq<u32>, font: Font, text: Seq<u8>) -> Seq<u32>
        decreases text.len(),
    {
        if text.len() == 0 {
            screen
        } else {
            self.after_text(text.drop_last()).screen_after(
                self.screen_after_text(screen, font, text.drop_last()),
                font,
                text.last(),
            )
        }
    }
}

/// Writing two texts one after the other is writing them together.
pub proof fn texts_are_drawn_in_order(
    state: ConsoleState,
    screen: Seq<u32>,
    font: Font,
    one: Seq<u8>,
    two: Seq<u8>,
)
    ensures
        state.after_text(one + two) == state.after_text(one).after_text(two),
        state.screen_after_text(screen, font, one + two) == state.after_text(one).screen_after_text(
            state.screen_after_text(screen, font, one),
            font,
            two,
        ),
    decreases two.len(),
{
    if two.len() == 0 {
        assert(one + two =~= one);
    } else {
        texts_are_drawn_in_order(state, screen, font, one, two.drop_last());
        assert((one + two).drop_last() =~= one + two.drop_last());
    }
}

/// A pixel's index, told by its place.
proof fn lemma_index(x: int, y: int, stride: int, height: int)
    requires
        0 <= x < stride,
        0 <= y < height,
    ensures
        0 <= y * stride + x < stride * height,
        (y * stride + x) % stride == x,
        (y * stride + x) / stride == y,
{
    vstd::arithmetic::div_mod::lemma_fundamental_div_mod_converse(y * stride + x, stride, y, x);
    assert(y * stride + x < stride * height) by (nonlinear_arith)
        requires
            0 <= x < stride,
            0 <= y < height,
    ;
    assert(0 <= y * stride) by (nonlinear_arith)
        requires
            0 <= y,
            0 <= stride,
    ;
}

/// A pixel's place, told by its index.
proof fn lemma_place(i: int, stride: int, height: int)
    requires
        0 < stride,
        0 <= i < stride * height,
    ensures
        0 <= i % stride < stride,
        0 <= i / stride < height,
        i == (i / stride) * stride + i % stride,
{
    vstd::arithmetic::div_mod::lemma_fundamental_div_mod(i, stride);
    vstd::arithmetic::mul::lemma_mul_is_commutative(stride, i / stride);
    let q = i / stride;
    let r = i % stride;
    assert(0 <= q < height) by (nonlinear_arith)
        requires
            0 < stride,
            0 <= r < stride,
            0 <= q * stride + r < stride * height,
    ;
}

impl Console {
    /// What the console shows.
    pub closed spec fn state(&self) -> ConsoleState {
        ConsoleState {
            width: self.framebuffer.width as int,
            height: self.framebuffer.height as int,
            stride: self.framebuffer.stride as int,
            column: self.column as int,
            row: self.row as int,
            foreground: self.foreground,
            background: self.background,
        }
    }

    /// The framebuffer it draws to.
    pub closed spec fn framebuffer(&self) -> FrameBufferInfo {
        self.framebuffer
    }

    /// The console's own counts are those of its framebuffer.
    pub closed spec fn counted(&self) -> bool {
        &&& self.columns == self.state().columns()
        &&& self.rows == self.state().rows()
    }

    /// The console matches a screen of this many pixels.
    pub open spec fn wf(&self, pixels: nat) -> bool {
        &&& self.state().wf()
        &&& self.counted()
        &&& pixels == self.state().pixels()
    }

    /// Construct a console only when every later framebuffer access is safe.
    ///
    /// The renderer stores one `u32` per pixel and always addresses pixels
    /// through the stride, so this validates the complete span it can reach.
    pub fn new(framebuffer: &FrameBufferInfo) -> (console: Option<Console>)
        ensures
            console is Some <==> drawable(*framebuffer),
            console matches Some(console) ==> {
                let format = format_of_raw(framebuffer.pixel_format_raw)->0;
                &&& console.framebuffer() == *framebuffer
                &&& console.wf((framebuffer.stride * framebuffer.height) as nat)
                &&& console.state() == (ConsoleState {
                    width: framebuffer.width as int,
                    height: framebuffer.height as int,
                    stride: framebuffer.stride as int,
                    column: 0,
                    row: 0,
                    foreground: packed(format, 0xe0, 0xe0, 0xe0),
                    background: packed(format, 0x00, 0x33, 0x99),
                })
            },
    {
        let format = match framebuffer.pixel_format() {
            Some(format) => format,
            None => return None,
        };
        let width: u64 = framebuffer.width as u64;
        let height: u64 = framebuffer.height as u64;
        let stride: u64 = framebuffer.stride as u64;
        if framebuffer.addr == 0 || framebuffer.addr % 4 != 0 || framebuffer.bytes_per_pixel != 4
            || stride < width || width < GLYPH_WIDTH || height < GLYPH_HEIGHT {
            return None;
        }
        assert(stride * height <= 0xffff_ffff * 0xffff_ffff) by (nonlinear_arith)
            requires
                stride <= 0xffff_ffff,
                height <= 0xffff_ffff,
        ;
        let pixels: u64 = stride * height;
        let bytes: u64 = match pixels.checked_mul(4) {
            Some(bytes) => bytes,
            None => return None,
        };
        if bytes > framebuffer.size || framebuffer.addr.checked_add(bytes).is_none() {
            return None;
        }
        Some(
            Console {
                framebuffer: *framebuffer,
                column: 0,
                row: 0,
                columns: width / GLYPH_WIDTH,
                rows: height / GLYPH_HEIGHT,
                foreground: pack(format, 0xe0, 0xe0, 0xe0),
                background: pack(format, 0x00, 0x33, 0x99),
            },
        )
    }

    /// Index of the pixel at (x, y).
    ///
    /// Always steps rows by the stride, never by the width: the framebuffer
    /// may have padding at the end of each scanline, and using the width
    /// would shear the image progressively down the screen.
    fn pixel(&self, x: u64, y: u64) -> (index: u64)
        requires
            x < self.state().stride,
            y < self.state().height,
        ensures
            index == y * self.state().stride + x,
            index < self.state().pixels(),
    {
        proof {
            lemma_index(
                x as int,
                y as int,
                self.framebuffer.stride as int,
                self.framebuffer.height as int,
            );
            assert(self.framebuffer.stride * self.framebuffer.height <= 0xffff_ffff * 0xffff_ffff)
                by (nonlinear_arith)
                requires
                    self.framebuffer.stride <= 0xffff_ffff,
                    self.framebuffer.height <= 0xffff_ffff,
            ;
        }
        y * self.framebuffer.stride as u64 + x
    }

    /// Draw the glyph of `byte` under the cursor.
    fn draw_glyph(&self, screen: &mut [u32], font: &Font, byte: u8)
        requires
            self.wf(old(screen)@.len()),
            self.state().column < self.state().columns(),
        ensures
            final(screen)@ == self.state().drawn(
                old(screen)@,
                font.glyphs@[glyph_index(byte)]@,
            ),
    {
        let bitmap: &[u8; 16] = font.glyph(byte);
        let ghost state = self.state();
        let ghost stride = state.stride;
        let ghost height = state.height;
        let ghost before = screen@;
        let ghost goal = state.drawn(before, bitmap@);
        let len: usize = screen.len();
        let origin_x: u64 = self.column * GLYPH_WIDTH;
        let origin_y: u64 = self.row * GLYPH_HEIGHT;
        let mut dy: u64 = 0;
        while dy < GLYPH_HEIGHT
            invariant
                self.wf(before.len()),
                len == before.len(),
                before == old(screen)@,
                bitmap@ == font.glyphs@[glyph_index(byte)]@,
                screen@.len() == before.len(),
                state == self.state(),
                state.column < state.columns(),
                stride == state.stride,
                height == state.height,
                goal == state.drawn(before, bitmap@),
                origin_x == state.column * GLYPH_WIDTH,
                origin_y == state.row * GLYPH_HEIGHT,
                dy <= GLYPH_HEIGHT,
                forall|i: int|
                    0 <= i < before.len() ==> #[trigger] screen@[i] == (if i / stride < origin_y
                        + dy {
                        goal[i]
                    } else {
                        before[i]
                    }),
            decreases GLYPH_HEIGHT - dy,
        {
            let scanline: u8 = bitmap[dy as usize];
            let mut dx: u64 = 0;
            while dx < GLYPH_WIDTH
                invariant
                    self.wf(before.len()),
                    len == before.len(),
                    bitmap@ == font.glyphs@[glyph_index(byte)]@,
                    screen@.len() == before.len(),
                    state == self.state(),
                    state.column < state.columns(),
                    stride == state.stride,
                    height == state.height,
                    goal == state.drawn(before, bitmap@),
                    origin_x == state.column * GLYPH_WIDTH,
                    origin_y == state.row * GLYPH_HEIGHT,
                    dy < GLYPH_HEIGHT,
                    scanline == bitmap@[dy as int],
                    dx <= GLYPH_WIDTH,
                    forall|i: int|
                        0 <= i < before.len() ==> #[trigger] screen@[i] == (if i / stride < origin_y
                            + dy || (i / stride == origin_y + dy && i % stride < origin_x + dx) {
                            goal[i]
                        } else {
                            before[i]
                        }),
                decreases GLYPH_WIDTH - dx,
            {
                // Most significant bit is the leftmost pixel.
                let lit: bool = scanline & (0x80u8 >> (dx as u8)) != 0;
                let colour: u32 = if lit {
                    self.foreground
                } else {
                    self.background
                };
                let x: u64 = origin_x + dx;
                let y: u64 = origin_y + dy;
                let index: u64 = self.pixel(x, y);
                proof {
                    lemma_index(x as int, y as int, stride, height);
                    assert(goal[index as int] == colour);
                }
                screen[index as usize] = colour;
                proof {
                    assert forall|i: int| 0 <= i < before.len() implies #[trigger] screen@[i] == (
                    if i / stride < origin_y + dy || (i / stride == origin_y + dy && i % stride
                        < origin_x + dx + 1) {
                        goal[i]
                    } else {
                        before[i]
                    }) by {
                        lemma_place(i, stride, height);
                    }
                }
                dx = dx + 1;
            }
            proof {
                assert forall|i: int| 0 <= i < before.len() implies #[trigger] screen@[i] == (
                if i / stride < origin_y + dy + 1 {
                    goal[i]
                } else {
                    before[i]
                }) by {
                    lemma_place(i, stride, height);
                }
            }
            dy = dy + 1;
        }
        assert(screen@ =~= goal);
    }

    /// Move everything up one text row and clear the bottom one.
    ///
    /// This reads and writes the framebuffer directly rather than keeping a
    /// shadow buffer. Text shorter than the screen never scrolls at all.
    fn scroll(&self, screen: &mut [u32])
        requires
            self.wf(old(screen)@.len()),
        ensures
            final(screen)@ == self.state().scrolled(old(screen)@),
    {
        let ghost state = self.state();
        let ghost before = screen@;
        let ghost goal = state.scrolled(before);
        let stride: u64 = self.framebuffer.stride as u64;
        let height: u64 = self.framebuffer.height as u64;
        let width: u64 = self.framebuffer.width as u64;
        let len: usize = screen.len();
        proof {
            assert(GLYPH_HEIGHT * stride <= stride * height) by (nonlinear_arith)
                requires
                    GLYPH_HEIGHT <= height,
            ;
        }
        let shift: u64 = GLYPH_HEIGHT * stride;
        let moved: u64 = len as u64 - shift;
        assert(moved == (height - GLYPH_HEIGHT) * stride) by (nonlinear_arith)
            requires
                len == stride * height,
                shift == GLYPH_HEIGHT * stride,
                moved == len - shift,
        ;
        let mut i: u64 = 0;
        while i < moved
            invariant
                i <= moved,
                len == before.len(),
                screen@.len() == before.len(),
                moved + shift == len,
                forall|k: int|
                    0 <= k < before.len() ==> #[trigger] screen@[k] == (if k < i {
                        before[k + shift]
                    } else {
                        before[k]
                    }),
            decreases moved - i,
        {
            screen[i as usize] = screen[(i + shift) as usize];
            i = i + 1;
        }
        proof {
            assert forall|k: int| 0 <= k < before.len() implies #[trigger] screen@[k] == (if k
                / (stride as int) < height - GLYPH_HEIGHT {
                goal[k]
            } else {
                before[k]
            }) by {
                lemma_place(k, stride as int, height as int);
                lemma_rows(k, stride as int, height - GLYPH_HEIGHT);
            }
        }
        // Clear the freed row.
        let mut y: u64 = height - GLYPH_HEIGHT;
        while y < height
            invariant
                self.wf(before.len()),
                state == self.state(),
                stride == state.stride,
                height == state.height,
                width == state.width,
                goal == state.scrolled(before),
                len == before.len(),
                screen@.len() == before.len(),
                height - GLYPH_HEIGHT <= y <= height,
                forall|k: int|
                    0 <= k < before.len() ==> #[trigger] screen@[k] == (if k / (stride as int) < y {
                        goal[k]
                    } else {
                        before[k]
                    }),
            decreases height - y,
        {
            let mut x: u64 = 0;
            while x < width
                invariant
                    self.wf(before.len()),
                    state == self.state(),
                    stride == state.stride,
                    height == state.height,
                    width == state.width,
                    goal == state.scrolled(before),
                    len == before.len(),
                    screen@.len() == before.len(),
                    height - GLYPH_HEIGHT <= y < height,
                    x <= width,
                    forall|k: int|
                        0 <= k < before.len() ==> #[trigger] screen@[k] == (if k / (stride as int) < y
                            || (k / (stride as int) == y && k % (stride as int) < x) {
                            goal[k]
                        } else {
                            before[k]
                        }),
                decreases width - x,
            {
                let index: u64 = self.pixel(x, y);
                proof {
                    lemma_index(x as int, y as int, stride as int, height as int);
                    assert(goal[index as int] == self.background);
                }
                screen[index as usize] = self.background;
                proof {
                    assert forall|k: int| 0 <= k < before.len() implies #[trigger] screen@[k] == (
                    if k / (stride as int) < y || (k / (stride as int) == y && k % (stride as int) < x
                        + 1) {
                        goal[k]
                    } else {
                        before[k]
                    }) by {
                        lemma_place(k, stride as int, height as int);
                    }
                }
                x = x + 1;
            }
            proof {
                assert forall|k: int| 0 <= k < before.len() implies #[trigger] screen@[k] == (if k
                    / (stride as int) < y + 1 {
                    goal[k]
                } else {
                    before[k]
                }) by {
                    lemma_place(k, stride as int, height as int);
                }
            }
            y = y + 1;
        }
        proof {
            assert forall|k: int| 0 <= k < before.len() implies screen@[k] == goal[k] by {
                lemma_place(k, stride as int, height as int);
            }
            assert(screen@ =~= goal);
        }
    }

    /// Break the line.
    fn newline(&mut self, screen: &mut [u32])
        requires
            old(self).wf(old(screen)@.len()),
        ensures
            final(self).wf(final(screen)@.len()),
            final(self).framebuffer() == old(self).framebuffer(),
            final(self).state() == old(self).state().next_row(),
            final(screen)@ == old(self).state().broken(old(screen)@),
    {
        let ghost state = self.state();
        if self.row + 1 < self.rows {
            self.row = self.row + 1;
        } else {
            self.scroll(screen);
        }
        self.column = 0;
        assert(self.state() =~= state.next_row());
    }

    /// Write one byte at the cursor.
    pub fn write_byte(&mut self, screen: &mut [u32], font: &Font, byte: u8)
        requires
            old(self).wf(old(screen)@.len()),
        ensures
            final(self).wf(final(screen)@.len()),
            final(self).framebuffer() == old(self).framebuffer(),
            final(self).state() == old(self).state().after_byte(byte),
            final(screen)@ == old(self).state().screen_after(old(screen)@, *font, byte),
    {
        let ghost state = self.state();
        if byte == 0x0a {
            self.newline(screen);
        } else if byte == 0x0d {
            // Serial wants a carriage return; the screen has no use for it.
        } else {
            if self.column >= self.columns {
                self.newline(screen);
            }
            self.draw_glyph(screen, font, byte);
            let ghost placed = self.state();
            self.column = self.column + 1;
            assert(self.state() =~= placed.next_cell());
        }
        assert(self.state() =~= state.after_byte(byte));
    }
}

/// The first rows of a screen are its first pixels.
proof fn lemma_rows(i: int, stride: int, rows: int)
    requires
        0 < stride,
        0 <= i,
        0 <= rows,
    ensures
        i / stride < rows <==> i < rows * stride,
{
    vstd::arithmetic::div_mod::lemma_fundamental_div_mod(i, stride);
    let q = i / stride;
    let r = i % stride;
    assert(q < rows <==> i < rows * stride) by (nonlinear_arith)
        requires
            0 < stride,
            0 <= r < stride,
            i == stride * q + r,
    ;
}

/// Prepare the console. Until this runs, [`write_byte`] does nothing. An
/// invalid framebuffer description leaves it disabled.
pub fn init(slot: &mut Option<Console>, framebuffer: &FrameBufferInfo)
    ensures
        *final(slot) is Some <==> drawable(*framebuffer),
        *final(slot) matches Some(console) ==> {
            let format = format_of_raw(framebuffer.pixel_format_raw)->0;
            &&& console.framebuffer() == *framebuffer
            &&& console.wf((framebuffer.stride * framebuffer.height) as nat)
            &&& console.state() == (ConsoleState {
                width: framebuffer.width as int,
                height: framebuffer.height as int,
                stride: framebuffer.stride as int,
                column: 0,
                row: 0,
                foreground: packed(format, 0xe0, 0xe0, 0xe0),
                background: packed(format, 0x00, 0x33, 0x99),
            })
        },
{
    *slot = Console::new(framebuffer);
}

/// A console that wrote this text, or none that wrote nothing.
pub open spec fn wrote(
    before: Option<Console>,
    after: Option<Console>,
    old_screen: Seq<u32>,
    new_screen: Seq<u32>,
    font: Font,
    text: Seq<u8>,
) -> bool {
    match (before, after) {
        (Some(before), Some(after)) => {
            &&& after.wf(new_screen.len())
            &&& after.framebuffer() == before.framebuffer()
            &&& after.state() == before.state().after_text(text)
            &&& new_screen == before.state().screen_after_text(old_screen, font, text)
        },
        (None, None) => new_screen == old_screen,
        _ => false,
    }
}

/// Write one byte to the screen, or do nothing if [`init`] has not run.
pub fn write_byte(slot: &mut Option<Console>, screen: &mut [u32], font: &Font, byte: u8)
    requires
        *old(slot) matches Some(console) ==> console.wf(old(screen)@.len()),
    ensures
        match (*old(slot), *final(slot)) {
            (Some(before), Some(after)) => {
                &&& after.wf(final(screen)@.len())
                &&& after.framebuffer() == before.framebuffer()
                &&& after.state() == before.state().after_byte(byte)
                &&& final(screen)@ == before.state().screen_after(old(screen)@, *font, byte)
            },
            (None, None) => final(screen)@ == old(screen)@,
            _ => false,
        },
{
    match slot {
        Some(console) => console.write_byte(screen, font, byte),
        None => {},
    }
}

/// Writing never leaves the screen: whatever is written, the cursor is on a
/// row of the screen, at most just behind its last column, and the screen
/// has as many pixels as before.
pub proof fn writing_stays_on_the_screen(
    state: ConsoleState,
    screen: Seq<u32>,
    font: Font,
    byte: u8,
)
    requires
        state.wf(),
    ensures
        state.after_byte(byte).wf(),
        state.screen_after(screen, font, byte).len() == screen.len(),
{
}

/// Text never touches what lies right of the visible width, as long as the
/// screen does not scroll.
pub proof fn text_stays_inside_the_visible_width(
    state: ConsoleState,
    screen: Seq<u32>,
    font: Font,
    byte: u8,
    i: int,
)
    requires
        state.wf(),
        screen.len() == state.pixels(),
        0 <= i < screen.len(),
        i % state.stride >= state.width,
        state.row + 1 < state.rows(),
    ensures
        state.screen_after(screen, font, byte)[i] == screen[i],
{
}

/// The index of the pixel at (x, y): rows are a stride apart.
pub open spec fn pixel_at(stride: int, x: int, y: int) -> int {
    y * stride + x
}

/// The glyph that a byte is shown as, out of the font's table: a printable
/// byte has its own, in the order of the characters, and every other byte
/// is shown as a question mark.
pub open spec fn shown_as(font: Font, byte: u8) -> Seq<u8> {
    if 0x20 <= byte <= 0x7e {
        font.glyphs@[byte - 0x20]@
    } else {
        font.glyphs@[0x1f]@
    }
}

/// The pixel `dx` from the left and `dy` from the top of a glyph is lit:
/// the top scanline comes first, and in it the leftmost pixel is the
/// highest bit.
pub open spec fn lit(bitmap: Seq<u8>, dx: int, dy: int) -> bool {
    (bitmap[dy] >> ((7 - dx) as u8)) & 1 == 1
}

/// The glyph's pixels as the highest bits of its scanlines.
proof fn lemma_lit(scanline: u8, dx: u8)
    requires
        dx < 8,
    ensures
        scanline & (0x80u8 >> dx) != 0 <==> (scanline >> ((7 - dx) as u8)) & 1 == 1,
{
    assert(dx < 8 ==> (scanline & (0x80u8 >> dx) != 0 <==> (scanline >> ((7 - dx) as u8)) & 1 == 1))
        by (bit_vector);
}

/// The row that a byte goes to if its own row has no cell left: the next
/// one, or the last one again.
pub open spec fn row_below(state: ConsoleState) -> int {
    if (state.row + 2) * 16 <= state.height {
        state.row + 1
    } else {
        state.row
    }
}

/// The cursor after a byte: a printable one takes one cell of 8 by 16
/// pixels, the next on its row while another fits into the visible width,
/// else the first on the row below. A line feed goes to the start of the row
/// below, and a carriage return stays.
pub proof fn a_byte_takes_one_cell(state: ConsoleState, byte: u8)
    requires
        state.wf(),
    ensures
        ({
            let after = state.after_byte(byte);
            &&& byte == 0x0a ==> after.column == 0 && after.row == row_below(state)
            &&& byte == 0x0d ==> after == state
            &&& byte != 0x0a && byte != 0x0d && (state.column + 1) * 8 <= state.width
                ==> after.column == state.column + 1 && after.row == state.row
            &&& byte != 0x0a && byte != 0x0d && (state.column + 1) * 8 > state.width
                ==> after.column == 1 && after.row == row_below(state)
            &&& after.width == state.width && after.height == state.height && after.stride
                == state.stride
            &&& after.foreground == state.foreground && after.background == state.background
        }),
{
}

/// A byte is drawn in its cell pixel by pixel: `dx` to the right and `dy`
/// down from the cell's upper left corner stands the foreground where the
/// glyph is lit there, and the background where it is not.
#[verifier::spinoff_prover]
pub proof fn a_byte_is_drawn_upright_in_its_cell(
    state: ConsoleState,
    screen: Seq<u32>,
    font: Font,
    byte: u8,
    dx: int,
    dy: int,
)
    requires
        state.wf(),
        screen.len() == state.stride * state.height,
        byte != 0x0a,
        byte != 0x0d,
        0 <= dx < 8,
        0 <= dy < 16,
    ensures
        ({
            let after = state.after_byte(byte);
            let i = pixel_at(state.stride, (after.column - 1) * 8 + dx, after.row * 16 + dy);
            &&& 0 <= i < screen.len()
            &&& state.screen_after(screen, font, byte).len() == screen.len()
            &&& state.screen_after(screen, font, byte)[i] == (if lit(
                shown_as(font, byte),
                dx,
                dy,
            ) {
                state.foreground
            } else {
                state.background
            })
        }),
{
    let after = state.after_byte(byte);
    let x = (after.column - 1) * 8 + dx;
    let y = after.row * 16 + dy;
    lemma_index(x, y, state.stride, state.height);
    lemma_lit(shown_as(font, byte)[dy], dx as u8);
}

/// Drawing a byte changes nothing outside its cell, unless its row is full:
/// then the line breaks first.
#[verifier::spinoff_prover]
pub proof fn a_byte_is_drawn_in_its_cell_alone(
    state: ConsoleState,
    screen: Seq<u32>,
    font: Font,
    byte: u8,
    x: int,
    y: int,
)
    requires
        state.wf(),
        screen.len() == state.stride * state.height,
        byte != 0x0a,
        0 <= x < state.stride,
        0 <= y < state.height,
        ({
            let after = state.after_byte(byte);
            byte == 0x0d || !((after.column - 1) * 8 <= x < after.column * 8 && after.row * 16 <= y
                < after.row * 16 + 16)
        }),
    ensures
        ({
            let i = pixel_at(state.stride, x, y);
            let broken = state.screen_after(screen, font, 0x0a);
            &&& byte == 0x0d || (state.column + 1) * 8 <= state.width ==> state.screen_after(
                screen,
                font,
                byte,
            )[i] == screen[i]
            &&& byte != 0x0d && (state.column + 1) * 8 > state.width ==> state.screen_after(
                screen,
                font,
                byte,
            )[i] == broken[i]
        }),
{
    lemma_index(x, y, state.stride, state.height);
}

/// A line feed leaves the screen as it is while there is a row below. On the
/// last row it moves every line up by 16 and clears the visible part of the
/// last 16 lines; what lies right of it is left alone there.
#[verifier::spinoff_prover]
pub proof fn a_line_feed_scrolls_on_the_last_row(
    state: ConsoleState,
    screen: Seq<u32>,
    font: Font,
    x: int,
    y: int,
)
    requires
        state.wf(),
        screen.len() == state.stride * state.height,
        0 <= x < state.stride,
        0 <= y < state.height,
    ensures
        ({
            let i = pixel_at(state.stride, x, y);
            let after = state.screen_after(screen, font, 0x0a);
            &&& 0 <= i < screen.len()
            &&& after.len() == screen.len()
            &&& (state.row + 2) * 16 <= state.height ==> after[i] == screen[i]
            &&& (state.row + 2) * 16 > state.height && y + 16 < state.height ==> after[i]
                == screen[pixel_at(state.stride, x, y + 16)]
            &&& (state.row + 2) * 16 > state.height && y + 16 >= state.height && x < state.width
                ==> after[i] == state.background
            &&& (state.row + 2) * 16 > state.height && y + 16 >= state.height && x >= state.width
                ==> after[i] == screen[i]
        }),
{
    lemma_index(x, y, state.stride, state.height);
    if y + 16 < state.height {
        assert((y + 16) * state.stride == y * state.stride + 16 * state.stride)
            by (nonlinear_arith);
    }
}

/// A text of one byte is that byte.
pub proof fn a_text_of_one_byte_is_that_byte(
    state: ConsoleState,
    screen: Seq<u32>,
    font: Font,
    byte: u8,
)
    ensures
        state.after_text(Seq::<u8>::empty()) == state,
        state.screen_after_text(screen, font, Seq::<u8>::empty()) == screen,
        state.after_text(seq![byte]) == state.after_byte(byte),
        state.screen_after_text(screen, font, seq![byte]) == state.screen_after(screen, font, byte),
{
    reveal_with_fuel(ConsoleState::after_text, 2);
    reveal_with_fuel(ConsoleState::screen_after_text, 2);
    assert(seq![byte].drop_last() =~= Seq::<u8>::empty());
}

/// A pixel holds the colour's three bytes from the lowest up, in the order
/// of the format, and nothing in its highest byte.
pub proof fn a_packed_pixel_holds_its_colour(red: u8, green: u8, blue: u8)
    ensures
        ({
            let rgb = packed(PixelFormatKind::Rgb, red, green, blue);
            &&& rgb % 0x100 == red
            &&& rgb / 0x100 % 0x100 == green
            &&& rgb / 0x1_0000 == blue
        }),
        ({
            let bgr = packed(PixelFormatKind::Bgr, red, green, blue);
            &&& bgr % 0x100 == blue
            &&& bgr / 0x100 % 0x100 == green
            &&& bgr / 0x1_0000 == red
        }),
{
}

/// A console is made exactly for a framebuffer in a known format, at an
/// aligned address, with four bytes to a pixel, a stride that holds its
/// width, at least one cell, and all its rows inside its size and the
/// address space.
pub proof fn a_console_needs_a_framebuffer_that_holds_it(framebuffer: FrameBufferInfo)
    ensures
        drawable(framebuffer) <==> {
            let bytes = framebuffer.stride * framebuffer.height * 4;
            &&& framebuffer.pixel_format_raw <= 1
            &&& framebuffer.addr > 0
            &&& framebuffer.addr % 4 == 0
            &&& framebuffer.bytes_per_pixel == 4
            &&& framebuffer.width <= framebuffer.stride
            &&& 8 <= framebuffer.width
            &&& 16 <= framebuffer.height
            &&& bytes <= framebuffer.size
            &&& framebuffer.addr + bytes < 0x1_0000_0000_0000_0000
        },
{
}

/// A console that wrote a text moved and drew exactly as its bytes say, and
/// is still one; without a console the screen is untouched and there is
/// still none.
pub proof fn writing_is_moving_and_drawing(
    before: Option<Console>,
    after: Option<Console>,
    old_screen: Seq<u32>,
    new_screen: Seq<u32>,
    font: Font,
    text: Seq<u8>,
)
    requires
        wrote(before, after, old_screen, new_screen, font, text),
    ensures
        before is Some <==> after is Some,
        before is None ==> new_screen == old_screen,
        before is Some ==> after->0.state() == before->0.state().after_text(text) && new_screen
            == before->0.state().screen_after_text(old_screen, font, text),
{
}

} // verus!
