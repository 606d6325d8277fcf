//! The classes of characters that the standard library knows.

use vstd::prelude::*;

verus! {

/// Whether a character has the Unicode property `White_Space`: the controls from
/// the tab to the carriage return, the space, the next line, the no-break space,
/// and the spaces and separators further on.
pub open spec fn char_is_whitespace(c: char) -> bool {
    let n = c as u32;
    ||| 0x9 <= n <= 0xd
    ||| n == 0x20
    ||| n == 0x85
    ||| n == 0xa0
    ||| n == 0x1680
    ||| 0x2000 <= n <= 0x200a
    ||| n == 0x2028
    ||| n == 0x2029
    ||| n == 0x202f
    ||| n == 0x205f
    ||| n == 0x3000
}

/// `char::is_whitespace`: whether the character has the property `White_Space`.
pub assume_specification[ char::is_whitespace ](c: char) -> (r: bool)
    ensures
        r == char_is_whitespace(c),
;

/// Whether a character is an ASCII letter.
pub open spec fn ascii_letter(c: char) -> bool {
    'A' <= c <= 'Z' || 'a' <= c <= 'z'
}

/// Whether a character outside ASCII has the Unicode property `Alphabetic`.
pub uninterp spec fn letter_beyond_ascii(c: char) -> bool;

/// Whether a character has the Unicode property `Alphabetic`.
pub open spec fn char_is_alphabetic(c: char) -> bool {
    if (c as u32) < 0x80 {
        ascii_letter(c)
    } else {
        letter_beyond_ascii(c)
    }
}

/// `char::is_alphabetic`: whether the character is a letter, as Unicode has it. In
/// ASCII these are the letters of both cases; beyond it the set is named, not
/// listed.
pub assume_specification[ char::is_alphabetic ](c: char) -> (r: bool)
    ensures
        r == (if (c as u32) < 0x80 {
            ascii_letter(c)
        } else {
            letter_beyond_ascii(c)
        }),
;

/// Whether a character outside ASCII is a number, as Unicode has it.
pub uninterp spec fn number_beyond_ascii(c: char) -> bool;

/// Whether a character is alphabetic or numeric, as Unicode has it.
pub open spec fn char_is_alphanumeric(c: char) -> bool {
    char_is_alphabetic(c) || (if (c as u32) < 0x80 {
        '0' <= c <= '9'
    } else {
        number_beyond_ascii(c)
    })
}

/// `char::is_alphanumeric`: whether the character is a letter, as
/// `char::is_alphabetic` has it, or a number, as Unicode has it. In ASCII the
/// numbers are the digits; beyond it they are named, not listed.
pub assume_specification[ char::is_alphanumeric ](c: char) -> (r: bool)
    ensures
        r == (char_is_alphabetic(c) || (if (c as u32) < 0x80 {
            '0' <= c <= '9'
        } else {
            number_beyond_ascii(c)
        })),
;

/// Whether a character outside ASCII has the Unicode property `Uppercase`.
pub uninterp spec fn upper_case_beyond_ascii(c: char) -> bool;

/// Whether a character has the Unicode property `Uppercase`.
pub open spec fn char_is_uppercase(c: char) -> bool {
    if (c as u32) < 0x80 {
        'A' <= c <= 'Z'
    } else {
        upper_case_beyond_ascii(c)
    }
}

/// `char::is_uppercase`: whether the character is an upper-case letter, as Unicode
/// has it. In ASCII these are the capital letters; beyond it the set is named, not
/// listed.
pub assume_specification[ char::is_uppercase ](c: char) -> (r: bool)
    ensures
        r == (if (c as u32) < 0x80 {
            'A' <= c <= 'Z'
        } else {
            upper_case_beyond_ascii(c)
        }),
;

} // verus!
