//! The character conversion layer: pure mappings from an input character code
//! and an "unmappable" sentinel to a byte value in the ROM alphabet.

use vstd::prelude::*;

verus! {

/// The closed set of legacy conversion tables the encoder can apply.
#[derive(Debug, Clone, Copy, PartialEq, Eq, Structural)]
pub enum Converter {
    Petscii,
    Ebcdic,
}

/// What `petscii_to_ascii` returns: PETSCII codes 32 through 95 coincide with
/// ASCII and pass through; every other code resolves to the sentinel.
pub open spec fn petscii_spec(petscii_char: usize, unmappable_char: usize) -> usize {
    if 32 <= petscii_char <= 95 {
        petscii_char
    } else {
        unmappable_char
    }
}

/// Converts a PETSCII character code to ASCII, falling back to the
/// caller-supplied sentinel for codes with no ASCII equivalent.
pub fn petscii_to_ascii(petscii_char: usize, unmappable_char: usize) -> (r: usize)
    ensures
        r == petscii_spec(petscii_char, unmappable_char),
{
    if 32 <= petscii_char && petscii_char <= 95 {
        petscii_char
    } else {
        unmappable_char
    }
}

/// What `ebcdic_to_ascii` returns: the fixed EBCDIC-to-ASCII table. Letters,
/// digits and the common punctuation have ASCII targets; every other code,
/// and every code above 255, resolves to the sentinel.
pub open spec fn ebcdic_spec(c: usize, unmappable_char: usize) -> usize {
    if c == 64 {
        32
    } else if c == 75 {
        46
    } else if c == 76 {
        60
    } else if c == 77 {
        40
    } else if c == 78 {
        43
    } else if c == 79 {
        124
    } else if c == 80 {
        38
    } else if c == 90 {
        33
    } else if c == 91 {
        36
    } else if c == 93 {
        41
    } else if c == 94 {
        59
    } else if c == 96 {
        45
    } else if c == 97 {
        47
    } else if c == 107 {
        44
    } else if c == 108 {
        37
    } else if c == 109 {
        95
    } else if c == 110 {
        62
    } else if c == 111 {
        63
    } else if c == 121 {
        96
    } else if c == 122 {
        58
    } else if c == 123 {
        35
    } else if c == 124 {
        64
    } else if c == 125 {
        39
    } else if c == 126 {
        61
    } else if c == 127 {
        34
    } else if 129 <= c <= 137 {
        // lowercase a-i
        (c - 32) as usize
    } else if 145 <= c <= 153 {
        // lowercase j-r
        (c - 39) as usize
    } else if 162 <= c <= 169 {
        // lowercase s-z
        (c - 47) as usize
    } else if 193 <= c <= 201 {
        // uppercase A-I
        (c - 128) as usize
    } else if 209 <= c <= 217 {
        // uppercase J-R
        (c - 135) as usize
    } else if 226 <= c <= 233 {
        // uppercase S-Z
        (c - 143) as usize
    } else if 240 <= c <= 249 {
        // digits 0-9
        (c - 192) as usize
    } else {
        unmappable_char
    }
}

/// Converts an EBCDIC character code to ASCII, falling back to the
/// caller-supplied sentinel for codes with no ASCII equivalent.
pub fn ebcdic_to_ascii(ebcdic_char: usize, unmappable_char: usize) -> (r: usize)
    ensures
        r == ebcdic_spec(ebcdic_char, unmappable_char),
{
    let c = ebcdic_char;
    if c == 64 {
        32
    } else if c == 75 {
        46
    } else if c == 76 {
        60
    } else if c == 77 {
        40
    } else if c == 78 {
        43
    } else if c == 79 {
        124
    } else if c == 80 {
        38
    } else if c == 90 {
        33
    } else if c == 91 {
        36
    } else if c == 93 {
        41
    } else if c == 94 {
        59
    } else if c == 96 {
        45
    } else if c == 97 {
        47
    } else if c == 107 {
        44
    } else if c == 108 {
        37
    } else if c == 109 {
        95
    } else if c == 110 {
        62
    } else if c == 111 {
        63
    } else if c == 121 {
        96
    } else if c == 122 {
        58
    } else if c == 123 {
        35
    } else if c == 124 {
        64
    } else if c == 125 {
        39
    } else if c == 126 {
        61
    } else if c == 127 {
        34
    } else if 129 <= c && c <= 137 {
        c - 32
    } else if 145 <= c && c <= 153 {
        c - 39
    } else if 162 <= c && c <= 169 {
        c - 47
    } else if 193 <= c && c <= 201 {
        c - 128
    } else if 209 <= c && c <= 217 {
        c - 135
    } else if 226 <= c && c <= 233 {
        c - 143
    } else if 240 <= c && c <= 249 {
        c - 192
    } else {
        unmappable_char
    }
}

/// The candidate byte value for one input unit: the raw code when no
/// converter is selected, else the selected table applied to it.
pub open spec fn convert_code(conv: Option<Converter>, code: u32, unmappable_char: usize) -> usize {
    match conv {
        Option::None => code as usize,
        Option::Some(Converter::Petscii) => petscii_spec(code as usize, unmappable_char),
        Option::Some(Converter::Ebcdic) => ebcdic_spec(code as usize, unmappable_char),
    }
}

/// Applies the selected converter, if any, to one input character code.
pub fn apply_converter(conv: Option<Converter>, code: u32, unmappable_char: usize) -> (r: usize)
    ensures
        r == convert_code(conv, code, unmappable_char),
{
    match conv {
        Option::None => code as usize,
        Option::Some(Converter::Petscii) => petscii_to_ascii(code as usize, unmappable_char),
        Option::Some(Converter::Ebcdic) => ebcdic_to_ascii(code as usize, unmappable_char),
    }
}

} // verus!
