//! A minimal PS/2 keyboard driver.
//!
//! The controller hands over one byte per event. In scancode set 1, what it
//! produces by default after translation, a key press sends a "make" code
//! and a release sends the same code with bit 7 set. Releases and modifiers
//! are ignored; shift handling and the extended `0xE0` prefix are out of
//! scope.

use vstd::prelude::*;

verus! {

/// The port an event's byte is read from.
pub const DATA_PORT: u16 = 0x60;

/// The unshifted US layout: what key each row of make codes stands for, as
/// ASCII, or nothing for keys that are not translated (modifiers, function
/// keys, escape).
pub open spec fn translated(scancode: u8) -> Option<u8> {
    if 0x02 <= scancode <= 0x0d {
        // 1234567890-=
        Some(
            seq![
                0x31u8, 0x32, 0x33, 0x34, 0x35, 0x36, 0x37, 0x38, 0x39, 0x30, 0x2d, 0x3d,
            ][scancode - 0x02],
        )
    } else if scancode == 0x0e {
        // Backspace.
        Some(0x08)
    } else if scancode == 0x0f {
        // Tab.
        Some(0x09)
    } else if 0x10 <= scancode <= 0x1b {
        // qwertyuiop[]
        Some(
            seq![
                0x71u8, 0x77, 0x65, 0x72, 0x74, 0x79, 0x75, 0x69, 0x6f, 0x70, 0x5b, 0x5d,
            ][scancode - 0x10],
        )
    } else if scancode == 0x1c {
        // Enter.
        Some(0x0a)
    } else if 0x1e <= scancode <= 0x29 {
        // asdfghjkl;'`
        Some(
            seq![
                0x61u8, 0x73, 0x64, 0x66, 0x67, 0x68, 0x6a, 0x6b, 0x6c, 0x3b, 0x27, 0x60,
            ][scancode - 0x1e],
        )
    } else if 0x2b <= scancode <= 0x35 {
        // \zxcvbnm,./
        Some(
            seq![
                0x5cu8, 0x7a, 0x78, 0x63, 0x76, 0x62, 0x6e, 0x6d, 0x2c, 0x2e, 0x2f,
            ][scancode - 0x2b],
        )
    } else if scancode == 0x37 {
        // Keypad asterisk.
        Some(0x2a)
    } else if scancode == 0x39 {
        // Space.
        Some(0x20)
    } else {
        None
    }
}

/// Translate the scancode that was read.
///
/// Returns `Some(ascii)` for a translatable key press, `None` for a release,
/// a modifier, or anything else.
pub fn read_key(scancode: u8) -> (key: Option<u8>)
    ensures
        key == translated(scancode),
{
    assert(scancode & 0x80 != 0 <==> scancode >= 0x80) by (bit_vector);
    // Bit 7 set means a key release.
    if scancode & 0x80 != 0 {
        return None;
    }
    if 0x02 <= scancode && scancode <= 0x0d {
        let row: [u8; 12] = [
            0x31, 0x32, 0x33, 0x34, 0x35, 0x36, 0x37, 0x38, 0x39, 0x30, 0x2d, 0x3d,
        ];
        return Some(row[(scancode - 0x02) as usize]);
    }
    if 0x10 <= scancode && scancode <= 0x1b {
        let row: [u8; 12] = [
            0x71, 0x77, 0x65, 0x72, 0x74, 0x79, 0x75, 0x69, 0x6f, 0x70, 0x5b, 0x5d,
        ];
        return Some(row[(scancode - 0x10) as usize]);
    }
    if 0x1e <= scancode && scancode <= 0x29 {
        let row: [u8; 12] = [
            0x61, 0x73, 0x64, 0x66, 0x67, 0x68, 0x6a, 0x6b, 0x6c, 0x3b, 0x27, 0x60,
        ];
        return Some(row[(scancode - 0x1e) as usize]);
    }
    if 0x2b <= scancode && scancode <= 0x35 {
        let row: [u8; 11] = [0x5c, 0x7a, 0x78, 0x63, 0x76, 0x62, 0x6e, 0x6d, 0x2c, 0x2e, 0x2f];
        return Some(row[(scancode - 0x2b) as usize]);
    }
    match scancode {
        0x0e => Some(0x08),
        0x0f => Some(0x09),
        0x1c => Some(0x0a),
        0x37 => Some(0x2a),
        0x39 => Some(0x20),
        _ => None,
    }
}

/// Releasing a key is never an event, and no key stands for the NUL
/// character.
pub proof fn releases_are_ignored(scancode: u8)
    ensures
        scancode >= 0x80 ==> translated(scancode) is None,
        translated(scancode) != Some(0u8),
{
}

/// Key `i` of a row of keys that spell `row` is the character there.
pub open spec fn spells(first: u8, row: Seq<char>, i: int) -> bool {
    translated((first + i) as u8) matches Some(ascii) && ascii as int == row[i] as int
}

/// The rows of keys spell out the unshifted US layout from left to right.
pub proof fn the_rows_spell_the_us_layout(i: int)
    ensures
        0 <= i < 12 ==> spells(0x02, "1234567890-="@, i),
        0 <= i < 12 ==> spells(0x10, "qwertyuiop[]"@, i),
        0 <= i < 12 ==> spells(0x1e, "asdfghjkl;'`"@, i),
        0 <= i < 11 ==> spells(0x2b, "\\zxcvbnm,./"@, i),
{
    reveal_strlit("1234567890-=");
    reveal_strlit("qwertyuiop[]");
    reveal_strlit("asdfghjkl;'`");
    reveal_strlit("\\zxcvbnm,./");
}

/// No two keys stand for the same character, the keys that do stand for one
/// are those of the four rows and five more, and what they stand for is a
/// printable character, a backspace, a tab or a line feed.
pub proof fn every_key_has_a_character_of_its_own(one: u8, two: u8)
    ensures
        translated(one) is Some && translated(one) == translated(two) ==> one == two,
        translated(one) is Some <==> {
            ||| 0x02 <= one <= 0x1c
            ||| 0x1e <= one <= 0x29
            ||| 0x2b <= one <= 0x35
            ||| one == 0x37
            ||| one == 0x39
        },
        translated(one) matches Some(ascii) ==> 0x20 <= ascii <= 0x7e || ascii == 0x08 || ascii
            == 0x09 || ascii == 0x0a,
        translated(one) == Some(0x08u8) <==> one == 0x0e,
        translated(one) == Some(0x09u8) <==> one == 0x0f,
        translated(one) == Some(0x0au8) <==> one == 0x1c,
        translated(one) == Some(0x2au8) <==> one == 0x37,
        translated(one) == Some(0x20u8) <==> one == 0x39,
{
}

} // verus!
