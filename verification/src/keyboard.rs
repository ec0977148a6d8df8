//! Translation of keyboard scancodes.
use vstd::prelude::*;

verus! {

/// The port that a scancode is read from.
pub const DATA_PORT: u16 = 0x60;

/// Unshifted characters by scancode, NUL for a key without one.
pub open spec fn keys() -> Seq<char> {
    seq![
        '\0', '\0', '1', '2', '3', '4', '5', '6', '7', '8', '9', '0',
        '-', '=', '\0', '\0', 'q', 'w', 'e', 'r', 't', 'y', 'u', 'i',
        'o', 'p', '[', ']', '\n', '\0', 'a', 's', 'd', 'f', 'g', 'h',
        'j', 'k', 'l', ';', '\'', '`', '\0', '\\', 'z', 'x', 'c', 'v',
        'b', 'n', 'm', ',', '.', '/', '\0', '\0', '\0', ' ',
    ]
}

/// The character of a pressed key, if it has one. A scancode with its top
/// bit set reports a release and has none.
pub open spec fn ascii_of(scancode: u8) -> Option<u8> {
    if scancode < keys().len() && keys()[scancode as int] != '\0' {
        Some(keys()[scancode as int] as u8)
    } else {
        None
    }
}

/// Translate a scancode to a character.
pub fn translate(scancode: u8) -> (ascii: Option<u8>)
    ensures
        ascii == ascii_of(scancode),
        scancode >= 0x80 ==> ascii == None::<u8>,
{
    let table: [u8; 58] = [
        0, 0, 49, 50, 51, 52, 53, 54, 55, 56, 57, 48, 45, 61, 0, 0,
        113, 119, 101, 114, 116, 121, 117, 105, 111, 112, 91, 93, 10, 0, 97, 115,
        100, 102, 103, 104, 106, 107, 108, 59, 39, 96, 0, 92, 122, 120, 99, 118,
        98, 110, 109, 44, 46, 47, 0, 0, 0, 32,
    ];
    assert(table@ =~= keys().map_values(|c: char| c as u8));
    assert(scancode & 0x80 != 0 <==> scancode >= 0x80) by (bit_vector);
    if scancode & 0x80 != 0 {
        return None;
    }
    if scancode as usize >= 58 {
        return None;
    }
    let ascii = table[scancode as usize];
    if ascii == 0 {
        None
    } else {
        Some(ascii)
    }
}

/// The keys are where they are on a keyboard: the digits from one to nine and
/// zero, and the three rows of letters.
pub proof fn keys_are_in_their_rows(k: int)
    ensures
        0 <= k < 9 ==> ascii_of((2 + k) as u8) == Some((0x31 + k) as u8),
        ascii_of(11) == Some(0x30u8),
        ({
            let row = seq!['q', 'w', 'e', 'r', 't', 'y', 'u', 'i', 'o', 'p'];
            0 <= k < 10 ==> ascii_of((16 + k) as u8) == Some(row[k] as u8)
        }),
        ({
            let row = seq!['a', 's', 'd', 'f', 'g', 'h', 'j', 'k', 'l'];
            0 <= k < 9 ==> ascii_of((30 + k) as u8) == Some(row[k] as u8)
        }),
        ({
            let row = seq!['z', 'x', 'c', 'v', 'b', 'n', 'm', ',', '.', '/'];
            0 <= k < 10 ==> ascii_of((44 + k) as u8) == Some(row[k] as u8)
        }),
        ascii_of(28) == Some(0x0au8),
        ascii_of(57) == Some(0x20u8),
{
}

/// A key that is let go gives nothing, and neither does one that has no
/// character.
pub proof fn released_keys_are_silent(scancode: u8)
    requires
        scancode >= 58 || scancode < 2,
    ensures
        ascii_of(scancode) is None,
{
}

/// Where the signs are: behind the digits and the letters of each row, the
/// end of the line behind the second row, and the space below them all. The
/// other keys give nothing.
pub proof fn signs_are_beside_their_rows()
    ensures
        ascii_of(12) == Some(0x2du8),
        ascii_of(13) == Some(0x3du8),
        ascii_of(26) == Some(0x5bu8),
        ascii_of(27) == Some(0x5du8),
        ascii_of(28) == Some(0x0au8),
        ascii_of(39) == Some(0x3bu8),
        ascii_of(40) == Some(0x27u8),
        ascii_of(41) == Some(0x60u8),
        ascii_of(43) == Some(0x5cu8),
        ascii_of(51) == Some(0x2cu8),
        ascii_of(52) == Some(0x2eu8),
        ascii_of(53) == Some(0x2fu8),
        ascii_of(57) == Some(0x20u8),
        ascii_of(0) is None,
        ascii_of(1) is None,
        ascii_of(14) is None,
        ascii_of(15) is None,
        ascii_of(29) is None,
        ascii_of(42) is None,
        ascii_of(54) is None,
        ascii_of(55) is None,
        ascii_of(56) is None,
        forall|code: u8| code >= 58 ==> (#[trigger] ascii_of(code)) is None,
{
}

} // verus!
