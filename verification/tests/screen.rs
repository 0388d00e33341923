use rust_bl::boot_info::{FrameBufferInfo, PixelFormatKind};
use rust_bl::kernel::console::{self, pack, Console};
use rust_bl::kernel::font::Font;
use rust_bl::kernel::paint::fill_screen;
use rust_bl::kernel::serial::SerialPort;

/// A font whose glyph number `n` is the byte `n + 1` in every scanline.
fn font() -> Font {
    let mut glyphs = [[0u8; 16]; 95];
    for (n, glyph) in glyphs.iter_mut().enumerate() {
        *glyph = [n as u8 + 1; 16];
    }
    Font { glyphs }
}

/// Three columns and two rows, with padding right of the visible width.
fn small() -> FrameBufferInfo {
    FrameBufferInfo::new(0x1000, 28 * 40 * 4, 24, 40, 28, 4, PixelFormatKind::Rgb)
}

const FOREGROUND: u32 = 0x00e0_e0e0;
const BACKGROUND: u32 = 0x0099_3300;

#[test]
fn unprintable_characters_are_drawn_as_a_question_mark() {
    let font = font();
    assert_eq!(font.glyph(b' ')[0], 1);
    assert_eq!(font.glyph(b'~')[0], 95);
    assert_eq!(font.glyph(b'A')[15], 0x41 - 0x20 + 1);
    for byte in [0u8, 0x1f, 0x7f, 0xff] {
        assert_eq!(font.glyph(byte)[0], b'?' - 0x20 + 1);
    }
}

#[test]
fn pixels_are_packed_by_format() {
    assert_eq!(pack(PixelFormatKind::Rgb, 0x11, 0x22, 0x33), 0x0033_2211);
    assert_eq!(pack(PixelFormatKind::Bgr, 0x11, 0x22, 0x33), 0x0011_2233);
}

#[test]
fn an_unsafe_framebuffer_disables_the_console() {
    assert!(Console::new(&small()).is_some());
    let broken = |change: fn(&mut FrameBufferInfo)| {
        let mut info = small();
        change(&mut info);
        Console::new(&info).is_none()
    };
    assert!(broken(|info| info.pixel_format_raw = 2));
    assert!(broken(|info| info.addr = 0));
    assert!(broken(|info| info.addr = 0x1002));
    assert!(broken(|info| info.bytes_per_pixel = 3));
    assert!(broken(|info| info.stride = 23));
    assert!(broken(|info| info.width = 7));
    assert!(broken(|info| info.height = 15));
    assert!(broken(|info| info.size -= 1));
    assert!(broken(|info| {
        info.stride = u32::MAX;
        info.height = u32::MAX;
        info.size = u64::MAX;
    }));
    assert!(broken(|info| {
        info.addr = u64::MAX - 3;
        info.size = u64::MAX;
    }));
}

#[test]
fn nothing_is_drawn_before_the_console_is_prepared() {
    let mut slot = None;
    let mut screen = vec![7u32; 28 * 40];
    console::write_byte(&mut slot, &mut screen, &font(), b'A');
    assert!(screen.iter().all(|pixel| *pixel == 7));
    console::init(&mut slot, &small());
    assert!(slot.is_some());
    let mut bad = small();
    bad.addr = 0;
    console::init(&mut slot, &bad);
    assert!(slot.is_none());
}

#[test]
fn a_glyph_fills_its_cell_and_no_more() {
    let mut slot = None;
    console::init(&mut slot, &small());
    let mut screen = vec![7u32; 28 * 40];
    // The scanlines of '!' are 0b0000_0010.
    console::write_byte(&mut slot, &mut screen, &font(), b'!');
    for y in 0..40 {
        for x in 0..28 {
            let expected = if x >= 8 || y >= 16 {
                7
            } else if x == 6 {
                FOREGROUND
            } else {
                BACKGROUND
            };
            assert_eq!(screen[y * 28 + x], expected);
        }
    }
}

#[test]
fn text_wraps_and_the_screen_scrolls() {
    let font = font();
    let mut slot = None;
    console::init(&mut slot, &small());
    let mut screen = vec![7u32; 28 * 40];
    for byte in *b"abcd" {
        console::write_byte(&mut slot, &mut screen, &font, byte);
    }
    // 'd' is the first of the second row; its scanlines are 0x45.
    let row = |screen: &Vec<u32>, x: usize, y: usize| -> u8 {
        (0..8).fold(0, |bits, dx| bits * 2 + (screen[y * 28 + x + dx] == FOREGROUND) as u8)
    };
    assert_eq!(row(&screen, 0, 0), b'a' - 0x20 + 1);
    assert_eq!(row(&screen, 16, 15), b'c' - 0x20 + 1);
    assert_eq!(row(&screen, 0, 16), b'd' - 0x20 + 1);
    assert_eq!(screen[32 * 28], 7);
    // The second row is the last one, so a line feed moves everything up by
    // one text row and clears the bottom sixteen lines.
    console::write_byte(&mut slot, &mut screen, &font, b'\n');
    assert_eq!(row(&screen, 0, 0), b'd' - 0x20 + 1);
    assert_eq!(screen[16 * 28], 7);
    assert_eq!(screen[24 * 28], BACKGROUND);
    assert_eq!(screen[39 * 28 + 23], BACKGROUND);
    assert_eq!(screen[39 * 28 + 24], 7);
    console::write_byte(&mut slot, &mut screen, &font, b'e');
    assert_eq!(row(&screen, 0, 16), b'e' - 0x20 + 1);
}

#[test]
fn a_carriage_return_is_not_drawn() {
    let mut slot = None;
    console::init(&mut slot, &small());
    let mut screen = vec![7u32; 28 * 40];
    console::write_byte(&mut slot, &mut screen, &font(), b'\r');
    assert!(screen.iter().all(|pixel| *pixel == 7));
}

#[test]
fn the_screen_is_filled_with_one_colour() {
    let info = FrameBufferInfo::new(0x1000, 24, 2, 2, 3, 4, PixelFormatKind::Rgb);
    let mut screen = vec![9u8; 24];
    assert_eq!(fill_screen(&info, &mut screen, 1, 2, 3), (0, false));
    assert_eq!(
        screen,
        vec![1, 2, 3, 0, 1, 2, 3, 0, 9, 9, 9, 9, 1, 2, 3, 0, 1, 2, 3, 0, 9, 9, 9, 9]
    );
    let mut blue_first = info;
    blue_first.pixel_format_raw = 1;
    let mut screen = vec![9u8; 24];
    assert_eq!(fill_screen(&blue_first, &mut screen, 1, 2, 3), (0, false));
    assert_eq!(screen[..4], [3, 2, 1, 0]);
}

#[test]
fn pixels_out_of_bounds_are_counted_and_not_written() {
    let info = FrameBufferInfo::new(0x1000, 17, 2, 3, 2, 4, PixelFormatKind::Rgb);
    let mut screen = vec![9u8; 17];
    assert_eq!(fill_screen(&info, &mut screen, 1, 2, 3), (2, false));
    assert_eq!(screen[12..], [1, 2, 3, 0, 9]);
}

#[test]
fn an_unknown_format_falls_back_and_is_reported() {
    let mut info = FrameBufferInfo::new(0x1000, 8, 1, 1, 1, 9, PixelFormatKind::Rgb);
    info.pixel_format_raw = 5;
    let mut screen = vec![9u8; 8];
    assert_eq!(fill_screen(&info, &mut screen, 1, 2, 3), (0, true));
    assert_eq!(screen, vec![3, 2, 1, 0, 9, 9, 9, 9]);
    info.bytes_per_pixel = 0;
    let mut screen = vec![9u8; 8];
    assert_eq!(fill_screen(&info, &mut screen, 1, 2, 3), (0, true));
    assert_eq!(screen, vec![9u8; 8]);
}

#[test]
fn the_trace_is_mirrored_to_the_screen() {
    let text = b"ab\ncdef\n!";
    let mut drawn = Console::new(&small());
    let mut by_hand = vec![0u32; 28 * 40];
    for byte in text {
        console::write_byte(&mut drawn, &mut by_hand, &font(), *byte);
    }
    let mut mirrored = Console::new(&small());
    let mut screen = vec![0u32; 28 * 40];
    let sent = SerialPort.write_str(&mut mirrored, &mut screen, &font(), text);
    assert_eq!(sent, b"ab\r\ncdef\r\n!".to_vec());
    assert!(screen.iter().any(|pixel| *pixel == FOREGROUND));
    assert_eq!(screen, by_hand);

    // Byte by byte it is the same.
    let mut stepped = Console::new(&small());
    let mut screen = vec![0u32; 28 * 40];
    for byte in text {
        SerialPort.mirror_byte(&mut stepped, &mut screen, &font(), *byte);
    }
    assert_eq!(screen, by_hand);

    // Without a console only the wire gets it.
    let mut blank = vec![7u32; 4];
    assert_eq!(SerialPort.write_str(&mut None, &mut blank, &font(), b"a\n"), b"a\r\n".to_vec());
    assert_eq!(blank, vec![7u32; 4]);
}
