//! The inline style encoding: marker characters that may appear inside a
//! line's raw text, and the palette mapping from source color codes to the
//! terminal's native palette.

use vstd::prelude::*;

verus! {

/// Marker starting a color directive: two decimal digits (foreground code),
/// optionally followed by a comma and two more digits (background code).
pub const COLOR_PREFIX: char = '\u{3}';

/// Marker starting a native-palette color directive: two raw character codes
/// taken directly as foreground and background indices.
pub const TERMBOX_COLOR_PREFIX: char = '\u{0}';

/// Marker that ORs the bold attribute into the foreground.
pub const BOLD_PREFIX: char = '\u{2}';

/// Marker that resets foreground and background to the default (zero).
pub const RESET_PREFIX: char = '\u{f}';

/// The bold attribute bit that the bold directive ORs into the foreground.
pub const TB_BOLD: u16 = 0x0100;

/// Characters at or below this code that are not markers are reserved by the
/// encoding and never reach the visible buffer.
pub const CONTROL_THRESHOLD: u32 = 0x07;

/// The palette table: source color codes 0 to 15 map through a fixed table;
/// anything above passes through unchanged.
pub open spec fn palette_spec(code: u16) -> u16 {
    if code == 0 {
        15
    } else if code == 1 {
        0
    } else if code == 2 {
        17
    } else if code == 3 {
        2
    } else if code == 4 {
        9
    } else if code == 5 {
        88
    } else if code == 6 {
        5
    } else if code == 7 {
        130
    } else if code == 8 {
        11
    } else if code == 9 {
        10
    } else if code == 10 {
        6
    } else if code == 11 {
        14
    } else if code == 12 {
        12
    } else if code == 13 {
        13
    } else if code == 14 {
        8
    } else if code == 15 {
        7
    } else {
        code
    }
}

/// Translates a source color code into the terminal's native palette index.
/// Codes 0 to 15 follow the fixed table; higher codes are already native
/// palette indices and pass through unchanged.
pub fn irc_color_to_termbox(irc_color: u16) -> (r: u16)
    ensures
        r == palette_spec(irc_color),
{
    match irc_color {
        0 => 15,  // white
        1 => 0,  // black
        2 => 17,  // navy
        3 => 2,  // green
        4 => 9,  // red
        5 => 88,  // maroon
        6 => 5,  // purple
        7 => 130,  // olive
        8 => 11,  // yellow
        9 => 10,  // light green
        10 => 6,  // teal
        11 => 14,  // cyan
        12 => 12,  // blue
        13 => 13,  // magenta
        14 => 8,  // gray
        15 => 7,  // light gray
        // The rest is directly mapped to native palette indices.
        _ => irc_color,
    }
}

/// A whitespace character: the Unicode White_Space set, the characters at
/// which a line may be split into rows.
pub open spec fn is_ws_char(c: char) -> bool {
    let u = c as u32;
    u == 0x20 || (0x09 <= u && u <= 0x0D) || u == 0x85 || u == 0xA0 || u == 0x1680 || (0x2000
        <= u && u <= 0x200A) || u == 0x2028 || u == 0x2029 || u == 0x202F || u == 0x205F || u
        == 0x3000
}

/// Decides whether a character is whitespace (the Unicode White_Space set).
pub fn is_whitespace_char(c: char) -> (r: bool)
    ensures
        r == is_ws_char(c),
{
    let u = c as u32;
    u == 0x20 || (0x09 <= u && u <= 0x0D) || u == 0x85 || u == 0xA0 || u == 0x1680 || (0x2000
        <= u && u <= 0x200A) || u == 0x2028 || u == 0x2029 || u == 0x202F || u == 0x205F || u
        == 0x3000
}

/// A decimal digit character.
pub open spec fn is_digit_char(c: char) -> bool {
    0x30 <= c as u32 && c as u32 <= 0x39
}

/// The numeric value of a decimal digit character.
pub open spec fn dec_val(c: char) -> int {
    c as int - 48
}

/// Decodes one decimal digit character.
pub fn to_dec(ch: char) -> (r: i8)
    requires
        is_digit_char(ch),
    ensures
        r as int == dec_val(ch),
{
    ((ch as u32) - ('0' as u32)) as i8
}

} // verus!
