//! Checking a screen capture for text.

use vstd::prelude::*;

verus! {

/// How many bytes the pixels of the 1280x800 surface take.
pub const PAYLOAD: usize = 3_072_000;

/// Why a capture does not show text.
pub enum ScreenError {
    /// The capture is not a P6 PPM.
    NotP6,
    /// The capture is not of the 1280x800 surface; what it says instead.
    WrongDimensions(Vec<u8>),
    /// The samples are not bytes up to 255.
    WrongMaxval,
    /// The capture ends before its pixels do.
    Truncated,
    /// The screen shows a single flat colour: no text was drawn.
    FlatColour,
}

/// Where the first line ends: at its line feed, or at the end of the data.
pub open spec fn line_end(data: Seq<u8>) -> int
    decreases data.len(),
{
    if data.len() == 0 {
        0
    } else if data[0] == 0x0a {
        0
    } else {
        1 + line_end(data.drop_first())
    }
}

/// The first line.
pub open spec fn line(data: Seq<u8>) -> Seq<u8> {
    data.take(line_end(data))
}

/// What follows the first line; nothing if it is the last.
pub open spec fn after_line(data: Seq<u8>) -> Seq<u8> {
    if line_end(data) < data.len() {
        data.skip(line_end(data) + 1)
    } else {
        Seq::empty()
    }
}

/// The colour of pixel `k`.
pub open spec fn colour(pixels: Seq<u8>, k: int) -> (u8, u8, u8) {
    (pixels[3 * k], pixels[3 * k + 1], pixels[3 * k + 2])
}

/// Some pixel differs from the first.
pub open spec fn has_contrast(pixels: Seq<u8>) -> bool {
    exists|k: int| 0 <= 3 * k && 3 * k + 2 < pixels.len() && #[trigger] colour(pixels, k) != colour(
        pixels,
        0,
    )
}

/// The name of the format, as bytes: `P6`.
pub open spec fn magic_line() -> Seq<u8> {
    seq![0x50u8, 0x36]
}

/// The dimensions of the surface, as bytes: `1280 800`.
pub open spec fn dimensions_line() -> Seq<u8> {
    seq![0x31u8, 0x32, 0x38, 0x30, 0x20, 0x38, 0x30, 0x30]
}

/// The largest sample, as bytes: `255`.
pub open spec fn maxval_line() -> Seq<u8> {
    seq![0x32u8, 0x35, 0x35]
}

/// The pixels of a capture: what follows its three lines.
pub open spec fn pixels_of(data: Seq<u8>) -> Seq<u8> {
    after_line(after_line(after_line(data)))
}

/// `line_end` is the first line feed, or the end.
proof fn lemma_line_end(data: Seq<u8>)
    ensures
        0 <= line_end(data) <= data.len(),
        line_end(data) < data.len() ==> data[line_end(data)] == 0x0a,
        forall|i: int| 0 <= i < line_end(data) ==> #[trigger] data[i] != 0x0a,
    decreases data.len(),
{
    if data.len() > 0 && data[0] != 0x0a {
        let rest = data.drop_first();
        lemma_line_end(rest);
        assert forall|i: int| 0 <= i < line_end(data) implies #[trigger] data[i] != 0x0a by {
            if i > 0 {
                assert(data[i] == rest[i - 1]);
            }
        }
    }
}

/// Any index with these properties is `line_end`.
proof fn lemma_line_end_is(data: Seq<u8>, at: int)
    requires
        0 <= at <= data.len(),
        at < data.len() ==> data[at] == 0x0a,
        forall|i: int| 0 <= i < at ==> #[trigger] data[i] != 0x0a,
    ensures
        line_end(data) == at,
{
    lemma_line_end(data);
    let found = line_end(data);
    if found < at {
        assert(data[found] != 0x0a);
    } else if at < found {
        assert(data[at] != 0x0a);
    }
}

/// Where the line that starts at `from` ends.
fn find_line_end(data: &[u8], from: usize) -> (end: usize)
    requires
        from <= data@.len(),
    ensures
        end == from + line_end(data@.skip(from as int)),
        from <= end <= data@.len(),
{
    let ghost rest = data@.skip(from as int);
    let mut end: usize = from;
    while end < data.len() && data[end] != 0x0a
        invariant
            from <= end <= data@.len(),
            rest == data@.skip(from as int),
            forall|i: int| 0 <= i < end - from ==> #[trigger] rest[i] != 0x0a,
        decreases data@.len() - end,
    {
        assert(rest[end - from] == data@[end as int]);
        end += 1;
    }
    proof {
        if end < data@.len() {
            assert(rest[end - from] == data@[end as int]);
        }
        lemma_line_end_is(rest, end - from);
    }
    end
}

/// Where the line after the one that ends at `end` starts.
fn next_start(data: &[u8], from: usize, end: usize) -> (start: usize)
    requires
        from <= end <= data@.len(),
        end == from + line_end(data@.skip(from as int)),
    ensures
        start <= data@.len(),
        data@.skip(start as int) == after_line(data@.skip(from as int)),
{
    if end < data.len() {
        assert(data@.skip(end + 1) =~= after_line(data@.skip(from as int)));
        end + 1
    } else {
        assert(data@.skip(end as int) =~= after_line(data@.skip(from as int)));
        end
    }
}

/// Whether the bytes from `from` to `to` are these.
fn is_line(data: &[u8], from: usize, to: usize, expected: &[u8]) -> (same: bool)
    requires
        from <= to <= data@.len(),
    ensures
        same == (data@.subrange(from as int, to as int) == expected@),
{
    if to - from != expected.len() {
        return false;
    }
    let ghost part = data@.subrange(from as int, to as int);
    let mut i: usize = 0;
    while i < expected.len()
        invariant
            from <= to <= data@.len(),
            to - from == expected@.len(),
            part == data@.subrange(from as int, to as int),
            i <= expected@.len(),
            forall|k: int| 0 <= k < i ==> #[trigger] part[k] == expected@[k],
        decreases expected@.len() - i,
    {
        assert(part[i as int] == data@[from + i]);
        if data[from + i] != expected[i] {
            return false;
        }
        i += 1;
    }
    assert(part =~= expected@);
    true
}

/// Check that the guest actually drew something other than the background.
///
/// A capture is a PPM: `P6`, the dimensions and the largest sample, a line
/// each, and then raw RGB triples. More than one colour means that glyphs
/// reached the screen. This is a weak assertion about *what* was drawn and a
/// strong one about *whether* anything was.
pub fn check_screen_has_text(data: &[u8]) -> (outcome: Result<(), ScreenError>)
    ensures
        match outcome {
            Err(ScreenError::NotP6) => line(data@) != magic_line(),
            Err(ScreenError::WrongDimensions(got)) => {
                &&& line(data@) == magic_line()
                &&& line(after_line(data@)) != dimensions_line()
                &&& got@ == line(after_line(data@))
            },
            Err(ScreenError::WrongMaxval) => {
                &&& line(data@) == magic_line()
                &&& line(after_line(data@)) == dimensions_line()
                &&& line(after_line(after_line(data@))) != maxval_line()
            },
            Err(ScreenError::Truncated) => {
                &&& line(data@) == magic_line()
                &&& line(after_line(data@)) == dimensions_line()
                &&& line(after_line(after_line(data@))) == maxval_line()
                &&& pixels_of(data@).len() < PAYLOAD
            },
            Err(ScreenError::FlatColour) => {
                &&& line(data@) == magic_line()
                &&& line(after_line(data@)) == dimensions_line()
                &&& line(after_line(after_line(data@))) == maxval_line()
                &&& pixels_of(data@).len() >= PAYLOAD
                &&& !has_contrast(pixels_of(data@))
            },
            Ok(()) => {
                &&& line(data@) == magic_line()
                &&& line(after_line(data@)) == dimensions_line()
                &&& line(after_line(after_line(data@))) == maxval_line()
                &&& pixels_of(data@).len() >= PAYLOAD
                &&& has_contrast(pixels_of(data@))
            },
        },
{
    let magic: [u8; 2] = [0x50, 0x36];
    let dimensions: [u8; 8] = [0x31, 0x32, 0x38, 0x30, 0x20, 0x38, 0x30, 0x30];
    let maxval: [u8; 3] = [0x32, 0x35, 0x35];
    assert(magic@ =~= magic_line());
    assert(dimensions@ =~= dimensions_line());
    assert(maxval@ =~= maxval_line());

    assert(data@.skip(0) =~= data@);
    let first_end: usize = find_line_end(data, 0);
    assert(data@.subrange(0, first_end as int) =~= line(data@));
    if !is_line(data, 0, first_end, &magic) {
        return Err(ScreenError::NotP6);
    }
    let second: usize = next_start(data, 0, first_end);
    let second_end: usize = find_line_end(data, second);
    assert(data@.subrange(second as int, second_end as int) =~= line(after_line(data@)));
    if !is_line(data, second, second_end, &dimensions) {
        let got: Vec<u8> = copy_of(data, second, second_end);
        return Err(ScreenError::WrongDimensions(got));
    }
    let third: usize = next_start(data, second, second_end);
    let third_end: usize = find_line_end(data, third);
    assert(data@.subrange(third as int, third_end as int) =~= line(after_line(after_line(data@))));
    if !is_line(data, third, third_end, &maxval) {
        return Err(ScreenError::WrongMaxval);
    }
    let start: usize = next_start(data, third, third_end);
    let ghost pixels = pixels_of(data@);
    assert(pixels == data@.skip(start as int));
    if data.len() - start < PAYLOAD {
        return Err(ScreenError::Truncated);
    }
    let mut at: usize = start;
    let ghost mut k: int = 0;
    while data.len() - at >= 3
        invariant
            start <= at <= data@.len(),
            data@.len() - start >= PAYLOAD,
            pixels == data@.skip(start as int),
            at - start == 3 * k,
            k >= 0,
            pixels == pixels_of(data@),
            line(data@) == magic_line(),
            line(after_line(data@)) == dimensions_line(),
            line(after_line(after_line(data@))) == maxval_line(),
            forall|i: int| 0 <= i < k ==> #[trigger] colour(pixels, i) == colour(pixels, 0),
        decreases data@.len() - at,
    {
        proof {
            assert(pixels[3 * k] == data@[at as int]);
            assert(pixels[3 * k + 1] == data@[at + 1]);
            assert(pixels[3 * k + 2] == data@[at + 2]);
            assert(pixels[0] == data@[start as int]);
            assert(pixels[1] == data@[start + 1]);
            assert(pixels[2] == data@[start + 2]);
        }
        if data[at] != data[start] || data[at + 1] != data[start + 1] || data[at + 2] != data[start
            + 2] {
            assert(colour(pixels, k) != colour(pixels, 0));
            return Ok(());
        }
        at += 3;
        proof {
            k = k + 1;
        }
    }
    Err(ScreenError::FlatColour)
}

/// A copy of the bytes from `from` to `to`.
fn copy_of(data: &[u8], from: usize, to: usize) -> (copy: Vec<u8>)
    requires
        from <= to <= data@.len(),
    ensures
        copy@ == data@.subrange(from as int, to as int),
{
    let mut copy: Vec<u8> = Vec::new();
    let mut i: usize = from;
    while i < to
        invariant
            from <= i <= to <= data@.len(),
            copy@ == data@.subrange(from as int, i as int),
        decreases to - i,
    {
        copy.push(data[i]);
        assert(copy@ =~= data@.subrange(from as int, i + 1));
        i += 1;
    }
    copy
}

/// A line ends at its first line feed, or with the data.
pub proof fn a_line_ends_at_its_line_feed(text: Seq<u8>, rest: Seq<u8>)
    requires
        forall|i: int| 0 <= i < text.len() ==> #[trigger] text[i] != 0x0a,
    ensures
        line(text + seq![0x0au8] + rest) == text,
        after_line(text + seq![0x0au8] + rest) == rest,
        line(text) == text,
        after_line(text) == Seq::<u8>::empty(),
{
    let data = text + seq![0x0au8] + rest;
    assert(data[text.len() as int] == 0x0a);
    assert forall|i: int| 0 <= i < text.len() implies #[trigger] data[i] != 0x0a by {
        assert(data[i] == text[i]);
    }
    lemma_line_end_is(data, text.len() as int);
    lemma_line_end_is(text, text.len() as int);
    assert(line(data) =~= text);
    assert(after_line(data) =~= rest);
    assert(line(text) =~= text);
}

/// The bytes of an ASCII text.
pub open spec fn ascii(text: Seq<char>) -> Seq<u8> {
    Seq::new(text.len(), |i: int| text[i] as u8)
}

/// The three lines of a capture of the 1280x800 surface, as text.
pub proof fn the_expected_lines_spell_a_capture()
    ensures
        magic_line() == ascii("P6"@),
        dimensions_line() == ascii("1280 800"@),
        maxval_line() == ascii("255"@),
        PAYLOAD == 1280 * 800 * 3,
{
    reveal_strlit("P6");
    reveal_strlit("1280 800");
    reveal_strlit("255");
    assert(magic_line() =~= ascii("P6"@));
    assert(dimensions_line() =~= ascii("1280 800"@));
    assert(maxval_line() =~= ascii("255"@));
}

/// Whatever follows the three lines of a capture is taken for its pixels, all
/// of it, line feeds among it too.
pub proof fn a_capture_is_its_lines_and_its_pixels(pixels: Seq<u8>)
    ensures
        ({
            let data = seq![
                0x50u8, 0x36, 0x0a, 0x31, 0x32, 0x38, 0x30, 0x20, 0x38, 0x30, 0x30, 0x0a, 0x32,
                0x35, 0x35, 0x0a,
            ] + pixels;
            &&& line(data) == magic_line()
            &&& line(after_line(data)) == dimensions_line()
            &&& line(after_line(after_line(data))) == maxval_line()
            &&& pixels_of(data) == pixels
        }),
{
    let third = maxval_line() + seq![0x0au8] + pixels;
    let second = dimensions_line() + seq![0x0au8] + third;
    let data = magic_line() + seq![0x0au8] + second;
    assert(data =~= seq![
        0x50u8, 0x36, 0x0a, 0x31, 0x32, 0x38, 0x30, 0x20, 0x38, 0x30, 0x30, 0x0a, 0x32, 0x35, 0x35,
        0x0a,
    ] + pixels);
    a_line_ends_at_its_line_feed(maxval_line(), pixels);
    a_line_ends_at_its_line_feed(dimensions_line(), third);
    a_line_ends_at_its_line_feed(magic_line(), second);
}

/// The screen has text exactly if some byte of some whole pixel differs from
/// that byte of the first pixel: one byte of one pixel is enough, whichever
/// it is.
pub proof fn one_byte_that_differs_is_contrast(pixels: Seq<u8>, k: int, c: int)
    requires
        0 <= k,
        0 <= c < 3,
        3 * k + 3 <= pixels.len(),
    ensures
        pixels[3 * k + c] != pixels[c] ==> has_contrast(pixels),
        (forall|i: int, d: int|
            0 <= i && 0 <= d < 3 && 3 * i + 3 <= pixels.len() ==> #[trigger] pixels[3 * i + d]
                == pixels[d]) ==> !has_contrast(pixels),
{
    if pixels[3 * k + c] != pixels[c] {
        assert(colour(pixels, k) != colour(pixels, 0));
    }
    if has_contrast(pixels) {
        let i = choose|i: int|
            0 <= 3 * i && 3 * i + 2 < pixels.len() && #[trigger] colour(pixels, i) != colour(
                pixels,
                0,
            );
        assert(pixels[3 * i + 0] != pixels[0] || pixels[3 * i + 1] != pixels[1] || pixels[3 * i + 2]
            != pixels[2]);
    }
}

} // verus!
