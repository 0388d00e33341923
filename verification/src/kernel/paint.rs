//! Painting the whole framebuffer one colour: the simplest possible proof
//! that the kernel was reached and the framebuffer description is right.

use crate::boot_info::{format_of_raw, FrameBufferInfo, PixelFormatKind};
use vstd::prelude::*;

verus! {

/// How many bytes of a pixel are written: a corrupted count never makes it
/// more than the four a pixel has.
pub open spec fn pixel_len(framebuffer: FrameBufferInfo) -> int {
    if framebuffer.bytes_per_pixel < 4 {
        framebuffer.bytes_per_pixel as int
    } else {
        4
    }
}

/// The bytes of one pixel. An unknown format is taken for `Bgr`.
pub open spec fn pixel_bytes(framebuffer: FrameBufferInfo, red: u8, green: u8, blue: u8) -> Seq<u8> {
    if format_of_raw(framebuffer.pixel_format_raw) == Some(PixelFormatKind::Rgb) {
        seq![red, green, blue, 0]
    } else {
        seq![blue, green, red, 0]
    }
}

/// Where the pixel at (x, y) starts.
pub open spec fn pixel_offset(framebuffer: FrameBufferInfo, x: int, y: int) -> int {
    (y * framebuffer.stride + x) * pixel_len(framebuffer)
}

/// The pixel at (x, y) ends inside the framebuffer's reported size.
pub open spec fn in_bounds(framebuffer: FrameBufferInfo, x: int, y: int) -> bool {
    pixel_offset(framebuffer, x, y) + pixel_len(framebuffer) <= framebuffer.size
}

/// Byte `j` belongs to the pixel at (x, y), which is in bounds.
pub open spec fn painted_by(framebuffer: FrameBufferInfo, x: int, y: int, j: int) -> bool {
    let start = pixel_offset(framebuffer, x, y);
    in_bounds(framebuffer, x, y) && start <= j < start + pixel_len(framebuffer)
}

/// Byte `j` belongs to one of the pixels that come before (x, y) in reading
/// order.
pub open spec fn painted_before(framebuffer: FrameBufferInfo, x: int, y: int, j: int) -> bool {
    exists|px: int, py: int|
        0 <= px < framebuffer.width && 0 <= py && (py < y || (py == y && px < x))
            && #[trigger] painted_by(framebuffer, px, py, j)
}

/// Byte `j` belongs to a pixel of the screen that is in bounds.
pub open spec fn painted(framebuffer: FrameBufferInfo, j: int) -> bool {
    painted_before(framebuffer, 0, framebuffer.height as int, j)
}

/// How many pixels of row `y` are in bounds.
pub open spec fn row_fit(framebuffer: FrameBufferInfo, y: int) -> int {
    let room = if pixel_len(framebuffer) == 0 {
        framebuffer.width as int
    } else {
        framebuffer.size as int / pixel_len(framebuffer) - y * framebuffer.stride
    };
    if room < 0 {
        0
    } else if room > framebuffer.width {
        framebuffer.width as int
    } else {
        room
    }
}

/// How many pixels of the first `rows` rows are out of bounds.
pub open spec fn skipped_in(framebuffer: FrameBufferInfo, rows: int) -> int
    decreases rows,
{
    if rows <= 0 {
        0
    } else {
        skipped_in(framebuffer, rows - 1) + framebuffer.width - row_fit(framebuffer, rows - 1)
    }
}

/// The pixels of a row that are in bounds are its first ones, so a pixel is
/// counted as skipped exactly if it would leave the framebuffer.
pub proof fn the_pixels_in_bounds_come_first(framebuffer: FrameBufferInfo, x: int, y: int)
    requires
        0 <= x < framebuffer.width,
        0 <= y,
    ensures
        in_bounds(framebuffer, x, y) <==> x < row_fit(framebuffer, y),
        0 <= row_fit(framebuffer, y) <= framebuffer.width,
{
    let len = pixel_len(framebuffer);
    let index = y * framebuffer.stride + x;
    let size = framebuffer.size as int;
    if len > 0 {
        vstd::arithmetic::div_mod::lemma_fundamental_div_mod(size, len);
        let q = size / len;
        let r = size % len;
        assert(index * len + len <= size <==> index < q) by (nonlinear_arith)
            requires
                len > 0,
                size == len * q + r,
                0 <= r < len,
        ;
    } else {
        assert(index * len == 0) by (nonlinear_arith)
            requires
                len == 0,
        ;
    }
}

/// Every byte of a pixel has the same place in it, however it is reached.
proof fn lemma_place_in_pixel(framebuffer: FrameBufferInfo, x: int, y: int, j: int)
    requires
        painted_by(framebuffer, x, y, j),
        0 <= x,
        0 <= y,
    ensures
        j % pixel_len(framebuffer) == j - pixel_offset(framebuffer, x, y),
        0 <= pixel_offset(framebuffer, x, y),
        0 <= j < framebuffer.size,
{
    let len = pixel_len(framebuffer);
    let index = y * framebuffer.stride + x;
    assert(0 <= y * framebuffer.stride) by (nonlinear_arith)
        requires
            0 <= y,
    ;
    assert(0 <= index * len) by (nonlinear_arith)
        requires
            0 <= index,
            0 <= len,
    ;
    vstd::arithmetic::div_mod::lemma_fundamental_div_mod_converse(
        j,
        len,
        index,
        j - index * len,
    );
}

/// The screen once every pixel that is in bounds has the colour.
pub open spec fn painted_screen(
    framebuffer: FrameBufferInfo,
    screen: Seq<u8>,
    pixel: Seq<u8>,
) -> Seq<u8> {
    Seq::new(
        screen.len(),
        |j: int|
            if painted(framebuffer, j) {
                pixel[j % pixel_len(framebuffer)]
            } else {
                screen[j]
            },
    )
}

/// Copy the pixel's bytes to the pixel at (x, y), which is in bounds.
fn put_pixel(
    framebuffer: &FrameBufferInfo,
    screen: &mut [u8],
    pixel: &[u8; 4],
    len: usize,
    offset: usize,
    Ghost(x): Ghost<int>,
    Ghost(y): Ghost<int>,
)
    requires
        old(screen)@.len() == framebuffer.size,
        len == pixel_len(*framebuffer),
        offset == pixel_offset(*framebuffer, x, y),
        in_bounds(*framebuffer, x, y),
        0 <= x,
        0 <= y,
    ensures
        final(screen)@.len() == old(screen)@.len(),
        forall|j: int|
            0 <= j < old(screen)@.len() ==> #[trigger] final(screen)@[j] == (if painted_by(
                *framebuffer,
                x,
                y,
                j,
            ) {
                pixel@[j % pixel_len(*framebuffer)]
            } else {
                old(screen)@[j]
            }),
{
    let total: usize = screen.len();
    let mut k: usize = 0;
    while k < len
        invariant
            total == screen@.len(),
            offset + len <= total,
            k <= len,
            len <= 4,
            len == pixel_len(*framebuffer),
            offset == pixel_offset(*framebuffer, x, y),
            screen@.len() == old(screen)@.len(),
            forall|j: int|
                0 <= j < screen@.len() ==> #[trigger] screen@[j] == (if offset <= j < offset + k {
                    pixel@[j - offset]
                } else {
                    old(screen)@[j]
                }),
        decreases len - k,
    {
        screen[offset + k] = pixel[k];
        k += 1;
    }
    proof {
        assert forall|j: int| 0 <= j < old(screen)@.len() implies #[trigger] screen@[j] == (
        if painted_by(*framebuffer, x, y, j) {
            pixel@[j % pixel_len(*framebuffer)]
        } else {
            old(screen)@[j]
        }) by {
            if painted_by(*framebuffer, x, y, j) {
                lemma_place_in_pixel(*framebuffer, x, y, j);
            }
        }
    }
}

/// Paint the whole framebuffer one colour.
///
/// Returns the number of pixels skipped because they would have landed past
/// the framebuffer's reported size, and whether the pixel format was unknown
/// and `Bgr` was assumed.
pub fn fill_screen(
    framebuffer: &FrameBufferInfo,
    screen: &mut [u8],
    red: u8,
    green: u8,
    blue: u8,
) -> (report: (u64, bool))
    requires
        old(screen)@.len() == framebuffer.size,
    ensures
        report.0 == skipped_in(*framebuffer, framebuffer.height as int),
        report.1 == (format_of_raw(framebuffer.pixel_format_raw) is None),
        final(screen)@ == painted_screen(
            *framebuffer,
            old(screen)@,
            pixel_bytes(*framebuffer, red, green, blue),
        ),
{
    let fell_back: bool = framebuffer.pixel_format().is_none();
    let pixel: [u8; 4] = match framebuffer.pixel_format() {
        Some(PixelFormatKind::Rgb) => [red, green, blue, 0],
        _ => [blue, green, red, 0],
    };
    assert(pixel@ =~= pixel_bytes(*framebuffer, red, green, blue));
    let len: usize = if framebuffer.bytes_per_pixel < 4 {
        framebuffer.bytes_per_pixel as usize
    } else {
        4
    };
    let width: u64 = framebuffer.width as u64;
    let height: u64 = framebuffer.height as u64;
    let stride: u64 = framebuffer.stride as u64;
    let total: usize = screen.len();
    let size: u64 = total as u64;
    let ghost fb = *framebuffer;
    let ghost before = screen@;
    let mut skipped: u64 = 0;
    let mut y: u64 = 0;
    while y < height
        invariant
            fb == *framebuffer,
            len == pixel_len(fb),
            width == fb.width,
            height == fb.height,
            stride == fb.stride,
            size == fb.size,
            size == total,
            before == old(screen)@,
            before.len() == fb.size,
            screen@.len() == before.len(),
            y <= height,
            skipped == skipped_in(fb, y as int),
            skipped <= y * width,
            forall|j: int|
                0 <= j < before.len() ==> #[trigger] screen@[j] == (if painted_before(
                    fb,
                    0,
                    y as int,
                    j,
                ) {
                    pixel@[j % pixel_len(fb)]
                } else {
                    before[j]
                }),
        decreases height - y,
    {
        let ghost row_start = skipped;
        let ghost fit = row_fit(fb, y as int);
        let mut x: u64 = 0;
        while x < width
            invariant
                fb == *framebuffer,
                len == pixel_len(fb),
                width == fb.width,
                height == fb.height,
                stride == fb.stride,
                size == fb.size,
                size == total,
                before.len() == fb.size,
                screen@.len() == before.len(),
                y < height,
                x <= width,
                row_start <= y * width,
                fit == row_fit(fb, y as int),
                0 <= fit,
                skipped == row_start + (if x <= fit { 0 } else { x - fit }),
                forall|j: int|
                    0 <= j < before.len() ==> #[trigger] screen@[j] == (if painted_before(
                        fb,
                        x as int,
                        y as int,
                        j,
                    ) {
                        pixel@[j % pixel_len(fb)]
                    } else {
                        before[j]
                    }),
            decreases width - x,
        {
            proof {
                the_pixels_in_bounds_come_first(fb, x as int, y as int);
                assert(y * stride <= 0xffff_fffe * 0xffff_ffff) by (nonlinear_arith)
                    requires
                        y <= 0xffff_fffe,
                        stride <= 0xffff_ffff,
                ;
                assert(y * width <= 0xffff_fffe * 0xffff_ffff) by (nonlinear_arith)
                    requires
                        y <= 0xffff_fffe,
                        width <= 0xffff_ffff,
                ;
            }
            let index: u64 = y * stride + x;
            assert(index * len <= u64::MAX * 4) by (nonlinear_arith)
                requires
                    0 <= index <= u64::MAX,
                    0 <= len <= 4,
            ;
            let offset: u128 = index as u128 * len as u128;
            // Never write at or beyond the framebuffer's reported size: an
            // out-of-bounds write would be invisible here, so it is counted
            // instead.
            if offset + len as u128 > size as u128 {
                skipped = skipped + 1;
                proof {
                    lemma_nothing_painted(fb, x as int, y as int);
                }
            } else {
                put_pixel(
                    framebuffer,
                    screen,
                    &pixel,
                    len,
                    offset as usize,
                    Ghost(x as int),
                    Ghost(y as int),
                );
                proof {
                    lemma_painted_step(fb, x as int, y as int);
                }
            }
            x = x + 1;
        }
        proof {
            if width > 0 {
                the_pixels_in_bounds_come_first(fb, 0, y as int);
            }
            lemma_painted_row(fb, y as int);
            assert((y + 1) * width == y * width + width) by (nonlinear_arith);
        }
        y = y + 1;
    }
    assert(screen@ =~= painted_screen(fb, before, pixel@));
    (skipped, fell_back)
}

/// One more pixel in bounds: what is painted up to it.
proof fn lemma_painted_step(framebuffer: FrameBufferInfo, x: int, y: int)
    requires
        0 <= x < framebuffer.width,
        0 <= y,
    ensures
        forall|j: int| #[trigger]
            painted_before(framebuffer, x + 1, y, j) <==> (painted_before(framebuffer, x, y, j)
                || painted_by(framebuffer, x, y, j)),
{
    assert forall|j: int| #[trigger]
        painted_before(framebuffer, x + 1, y, j) <==> (painted_before(framebuffer, x, y, j)
            || painted_by(framebuffer, x, y, j)) by {
        if painted_before(framebuffer, x + 1, y, j) && !painted_by(framebuffer, x, y, j) {
            let (px, py) = choose|px: int, py: int|
                0 <= px < framebuffer.width && 0 <= py && (py < y || (py == y && px < x + 1))
                    && #[trigger] painted_by(framebuffer, px, py, j);
            assert(painted_by(framebuffer, px, py, j));
        }
        if painted_before(framebuffer, x, y, j) {
            let (px, py) = choose|px: int, py: int|
                0 <= px < framebuffer.width && 0 <= py && (py < y || (py == y && px < x))
                    && #[trigger] painted_by(framebuffer, px, py, j);
            assert(painted_by(framebuffer, px, py, j));
        }
    }
}

/// One more pixel out of bounds: nothing more is painted.
proof fn lemma_nothing_painted(framebuffer: FrameBufferInfo, x: int, y: int)
    requires
        0 <= x < framebuffer.width,
        0 <= y,
        !in_bounds(framebuffer, x, y),
    ensures
        forall|j: int| #[trigger]
            painted_before(framebuffer, x + 1, y, j) <==> painted_before(framebuffer, x, y, j),
{
    lemma_painted_step(framebuffer, x, y);
}

/// The end of a row is the start of the next.
proof fn lemma_painted_row(framebuffer: FrameBufferInfo, y: int)
    requires
        0 <= y,
    ensures
        forall|j: int| #[trigger]
            painted_before(framebuffer, 0, y + 1, j) <==> painted_before(
                framebuffer,
                framebuffer.width as int,
                y,
                j,
            ),
{
    assert forall|j: int| #[trigger]
        painted_before(framebuffer, 0, y + 1, j) <==> painted_before(
            framebuffer,
            framebuffer.width as int,
            y,
            j,
        ) by {
        if painted_before(framebuffer, 0, y + 1, j) {
            let (px, py) = choose|px: int, py: int|
                0 <= px < framebuffer.width && 0 <= py && (py < y + 1 || (py == y + 1 && px < 0))
                    && #[trigger] painted_by(framebuffer, px, py, j);
            assert(painted_by(framebuffer, px, py, j));
        }
        if painted_before(framebuffer, framebuffer.width as int, y, j) {
            let (px, py) = choose|px: int, py: int|
                0 <= px < framebuffer.width && 0 <= py && (py < y || (py == y && px
                    < framebuffer.width)) && #[trigger] painted_by(framebuffer, px, py, j);
            assert(painted_by(framebuffer, px, py, j));
        }
    }
}

/// How many bytes of each pixel the framebuffer has, of the four that a
/// colour has at most.
pub open spec fn bytes_of_a_pixel(framebuffer: FrameBufferInfo) -> int {
    if framebuffer.bytes_per_pixel >= 4 {
        4
    } else {
        framebuffer.bytes_per_pixel as int
    }
}

/// The pixel at (x, y) is on the screen and all its bytes lie inside the
/// framebuffer.
pub open spec fn visible_at(framebuffer: FrameBufferInfo, x: int, y: int) -> bool {
    &&& 0 <= x < framebuffer.width
    &&& 0 <= y < framebuffer.height
    &&& (y * framebuffer.stride + x + 1) * bytes_of_a_pixel(framebuffer) <= framebuffer.size
}

/// Byte `k` of a pixel in the framebuffer's format, from the lowest up: red,
/// green and blue, or the other way round, and then nothing. Only the raw
/// number 0 stands for red first.
pub open spec fn channel(framebuffer: FrameBufferInfo, red: u8, green: u8, blue: u8, k: int) -> u8 {
    let red_first = framebuffer.pixel_format_raw == 0;
    if k == 0 {
        if red_first { red } else { blue }
    } else if k == 1 {
        green
    } else if k == 2 {
        if red_first { blue } else { red }
    } else {
        0
    }
}

/// Once the screen is filled, every pixel that lies inside the framebuffer
/// holds the colour, all of it, in the order of the format.
#[verifier::spinoff_prover]
pub proof fn a_filled_pixel_holds_the_colour(
    framebuffer: FrameBufferInfo,
    screen: Seq<u8>,
    red: u8,
    green: u8,
    blue: u8,
    x: int,
    y: int,
    k: int,
)
    requires
        screen.len() == framebuffer.size,
        visible_at(framebuffer, x, y),
        0 <= k < bytes_of_a_pixel(framebuffer),
    ensures
        ({
            let at = (y * framebuffer.stride + x) * bytes_of_a_pixel(framebuffer) + k;
            let filled = painted_screen(
                framebuffer,
                screen,
                pixel_bytes(framebuffer, red, green, blue),
            );
            &&& 0 <= at < screen.len()
            &&& filled[at] == channel(framebuffer, red, green, blue, k)
        }),
{
    let len = pixel_len(framebuffer);
    let index = y * framebuffer.stride + x;
    let at = index * len + k;
    assert((index + 1) * len == index * len + len) by (nonlinear_arith);
    assert(painted_by(framebuffer, x, y, at));
    lemma_place_in_pixel(framebuffer, x, y, at);
    assert(painted_before(framebuffer, 0, framebuffer.height as int, at));
}

/// Filling the screen changes no byte that belongs to none of those pixels,
/// and the framebuffer stays as long as it was.
#[verifier::spinoff_prover]
pub proof fn nothing_else_is_filled(
    framebuffer: FrameBufferInfo,
    screen: Seq<u8>,
    red: u8,
    green: u8,
    blue: u8,
    at: int,
)
    requires
        screen.len() == framebuffer.size,
        0 <= at < screen.len(),
        forall|x: int, y: int| #[trigger]
            visible_at(framebuffer, x, y) ==> !((y * framebuffer.stride + x) * bytes_of_a_pixel(
                framebuffer,
            ) <= at < (y * framebuffer.stride + x + 1) * bytes_of_a_pixel(framebuffer)),
    ensures
        ({
            let filled = painted_screen(
                framebuffer,
                screen,
                pixel_bytes(framebuffer, red, green, blue),
            );
            &&& filled.len() == screen.len()
            &&& filled[at] == screen[at]
        }),
{
    if painted(framebuffer, at) {
        let height = framebuffer.height as int;
        let (x, y) = choose|px: int, py: int|
            0 <= px < framebuffer.width && 0 <= py && (py < height || (py == height && px < 0))
                && #[trigger] painted_by(framebuffer, px, py, at);
        let len = pixel_len(framebuffer);
        let index = y * framebuffer.stride + x;
        assert((index + 1) * len == index * len + len) by (nonlinear_arith);
        assert(visible_at(framebuffer, x, y));
    }
}

/// The pixels counted as skipped are those of the screen that do not lie
/// inside the framebuffer: in each row they are its last ones, as many as
/// the count grows by.
#[verifier::spinoff_prover]
pub proof fn exactly_the_pixels_left_out_are_counted(framebuffer: FrameBufferInfo, x: int, y: int)
    requires
        0 <= x < framebuffer.width,
        0 <= y < framebuffer.height,
    ensures
        ({
            let more = skipped_in(framebuffer, y + 1) - skipped_in(framebuffer, y);
            &&& skipped_in(framebuffer, 0) == 0
            &&& 0 <= more <= framebuffer.width
            &&& visible_at(framebuffer, x, y) <==> x < framebuffer.width - more
        }),
{
    the_pixels_in_bounds_come_first(framebuffer, x, y);
    let len = pixel_len(framebuffer);
    let index = y * framebuffer.stride + x;
    assert((index + 1) * len == index * len + len) by (nonlinear_arith);
}

/// The screen is filled in the very colours that the console draws in: a
/// pixel's bytes make up the number that the console packs the same colour
/// into.
pub proof fn the_console_packs_the_same_colour(
    framebuffer: FrameBufferInfo,
    format: PixelFormatKind,
    red: u8,
    green: u8,
    blue: u8,
)
    requires
        framebuffer.pixel_format_raw == format.raw(),
    ensures
        ({
            let bytes = pixel_bytes(framebuffer, red, green, blue);
            bytes[0] + bytes[1] * 0x100 + bytes[2] * 0x1_0000 + bytes[3] * 0x100_0000
                == crate::kernel::console::packed(format, red, green, blue)
        }),
{
}

} // verus!
