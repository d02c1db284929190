use vstd::prelude::*;
use vstd::std_specs::convert::FromSpecImpl;
use vstd::string::StrSliceExecFns;

verus! {

/// A colour with its alpha, one byte a channel.
#[derive(Debug, Default, Copy, Clone, PartialEq, Eq, Structural)]
pub struct Colour {
    pub r: u8,
    pub g: u8,
    pub b: u8,
    pub a: u8,
}

/// How an entity is drawn.
#[derive(Debug, Copy, Clone, PartialEq, Eq, Structural)]
pub struct Glyph {
    pub character: char,
    pub colour: Colour,
}

/// Why a text is no colour.
#[derive(Debug, Copy, Clone, PartialEq, Eq, Structural)]
pub enum ColourError {
    /// The text is too short or too long.
    InvalidStringLength,
    /// The text does not start with `#`.
    MissingHash,
    /// A character after the `#` is no hexadecimal digit.
    InvalidCharacter,
}

/// The value of a hexadecimal digit, in either case.
pub open spec fn hex_digit(c: char) -> Option<u8> {
    let code = c as u32;
    if 0x30 <= code <= 0x39 {
        Some((code - 0x30) as u8)
    } else if 0x41 <= code <= 0x46 {
        Some((code - 0x41 + 10) as u8)
    } else if 0x61 <= code <= 0x66 {
        Some((code - 0x61 + 10) as u8)
    } else {
        None
    }
}

/// The byte that the two digits at `at` and `at + 1` spell. The first character that is
/// missing or wrong decides the error.
pub open spec fn hex_pair(code: Seq<char>, at: int) -> Result<u8, ColourError> {
    if code.len() <= at {
        Err(ColourError::InvalidStringLength)
    } else if hex_digit(code[at]) is None {
        Err(ColourError::InvalidCharacter)
    } else if code.len() <= at + 1 {
        Err(ColourError::InvalidStringLength)
    } else if hex_digit(code[at + 1]) is None {
        Err(ColourError::InvalidCharacter)
    } else {
        Ok((hex_digit(code[at])->0 * 16 + hex_digit(code[at + 1])->0) as u8)
    }
}

/// What stands in front of the digits: a `#`.
pub open spec fn hash_checked(code: Seq<char>) -> Result<(), ColourError> {
    if code.len() == 0 {
        Err(ColourError::InvalidStringLength)
    } else if code[0] != '#' {
        Err(ColourError::MissingHash)
    } else {
        Ok(())
    }
}

/// `#RRGGBB` read as an opaque colour.
pub open spec fn parse_rgb(code: Seq<char>) -> Result<Colour, ColourError> {
    if hash_checked(code) is Err {
        Err(hash_checked(code)->Err_0)
    } else if hex_pair(code, 1) is Err {
        Err(hex_pair(code, 1)->Err_0)
    } else if hex_pair(code, 3) is Err {
        Err(hex_pair(code, 3)->Err_0)
    } else if hex_pair(code, 5) is Err {
        Err(hex_pair(code, 5)->Err_0)
    } else if code.len() > 7 {
        Err(ColourError::InvalidStringLength)
    } else {
        Ok(
            Colour {
                r: hex_pair(code, 1)->Ok_0,
                g: hex_pair(code, 3)->Ok_0,
                b: hex_pair(code, 5)->Ok_0,
                a: 255,
            },
        )
    }
}

/// `#RRGGBBAA` read as a colour.
pub open spec fn parse_rgba(code: Seq<char>) -> Result<Colour, ColourError> {
    if hash_checked(code) is Err {
        Err(hash_checked(code)->Err_0)
    } else if hex_pair(code, 1) is Err {
        Err(hex_pair(code, 1)->Err_0)
    } else if hex_pair(code, 3) is Err {
        Err(hex_pair(code, 3)->Err_0)
    } else if hex_pair(code, 5) is Err {
        Err(hex_pair(code, 5)->Err_0)
    } else if hex_pair(code, 7) is Err {
        Err(hex_pair(code, 7)->Err_0)
    } else if code.len() > 9 {
        Err(ColourError::InvalidStringLength)
    } else {
        Ok(
            Colour {
                r: hex_pair(code, 1)->Ok_0,
                g: hex_pair(code, 3)->Ok_0,
                b: hex_pair(code, 5)->Ok_0,
                a: hex_pair(code, 7)->Ok_0,
            },
        )
    }
}

/// A colour in either notation. A text that is neither is refused with what is wrong with it
/// as `#RRGGBB`.
pub open spec fn parse_colour(code: Seq<char>) -> Result<Colour, ColourError> {
    if parse_rgba(code) is Ok {
        parse_rgba(code)
    } else {
        parse_rgb(code)
    }
}

fn digit_value(c: char) -> (value: Option<u8>)
    ensures
        value == hex_digit(c),
{
    let code: u32 = c as u32;
    if 0x30 <= code && code <= 0x39 {
        Some((code - 0x30) as u8)
    } else if 0x41 <= code && code <= 0x46 {
        Some((code - 0x41 + 10) as u8)
    } else if 0x61 <= code && code <= 0x66 {
        Some((code - 0x61 + 10) as u8)
    } else {
        None
    }
}

fn read_pair(code: &str, length: usize, at: usize) -> (byte: Result<u8, ColourError>)
    requires
        length == code@.len(),
        at < usize::MAX,
    ensures
        byte == hex_pair(code@, at as int),
{
    if length <= at {
        return Err(ColourError::InvalidStringLength);
    }
    let high: u8 = match digit_value(code.get_char(at)) {
        Some(value) => value,
        None => return Err(ColourError::InvalidCharacter),
    };
    if length <= at + 1 {
        return Err(ColourError::InvalidStringLength);
    }
    let low: u8 = match digit_value(code.get_char(at + 1)) {
        Some(value) => value,
        None => return Err(ColourError::InvalidCharacter),
    };
    Ok(high * 16 + low)
}

fn read_hash(code: &str, length: usize) -> (checked: Result<(), ColourError>)
    requires
        length == code@.len(),
    ensures
        checked == hash_checked(code@),
{
    if length == 0 {
        Err(ColourError::InvalidStringLength)
    } else if code.get_char(0) != '#' {
        Err(ColourError::MissingHash)
    } else {
        Ok(())
    }
}

fn read_rgb(code: &str, length: usize) -> (colour: Result<Colour, ColourError>)
    requires
        length == code@.len(),
    ensures
        colour == parse_rgb(code@),
{
    if let Err(error) = read_hash(code, length) {
        return Err(error);
    }
    let r: u8 = match read_pair(code, length, 1) {
        Ok(byte) => byte,
        Err(error) => return Err(error),
    };
    let g: u8 = match read_pair(code, length, 3) {
        Ok(byte) => byte,
        Err(error) => return Err(error),
    };
    let b: u8 = match read_pair(code, length, 5) {
        Ok(byte) => byte,
        Err(error) => return Err(error),
    };
    if length > 7 {
        return Err(ColourError::InvalidStringLength);
    }
    Ok(Colour { r, g, b, a: 255 })
}

fn read_rgba(code: &str, length: usize) -> (colour: Result<Colour, ColourError>)
    requires
        length == code@.len(),
    ensures
        colour == parse_rgba(code@),
{
    if let Err(error) = read_hash(code, length) {
        return Err(error);
    }
    let r: u8 = match read_pair(code, length, 1) {
        Ok(byte) => byte,
        Err(error) => return Err(error),
    };
    let g: u8 = match read_pair(code, length, 3) {
        Ok(byte) => byte,
        Err(error) => return Err(error),
    };
    let b: u8 = match read_pair(code, length, 5) {
        Ok(byte) => byte,
        Err(error) => return Err(error),
    };
    let a: u8 = match read_pair(code, length, 7) {
        Ok(byte) => byte,
        Err(error) => return Err(error),
    };
    if length > 9 {
        return Err(ColourError::InvalidStringLength);
    }
    Ok(Colour { r, g, b, a })
}

impl Colour {
    /// Reads `#RRGGBBAA` or `#RRGGBB`; the second is opaque.
    pub fn from_hex(code: &str) -> (colour: Result<Colour, ColourError>)
        ensures
            colour == parse_colour(code@),
    {
        let length: usize = code.unicode_len();
        match read_rgba(code, length) {
            Ok(colour) => Ok(colour),
            Err(_) => read_rgb(code, length),
        }
    }
}

impl From<(u8, u8, u8, u8)> for Colour {
    fn from(rgba: (u8, u8, u8, u8)) -> (colour: Colour) {
        Colour { r: rgba.0, g: rgba.1, b: rgba.2, a: rgba.3 }
    }
}

impl FromSpecImpl<(u8, u8, u8, u8)> for Colour {
    open spec fn obeys_from_spec() -> bool {
        true
    }

    open spec fn from_spec(rgba: (u8, u8, u8, u8)) -> Colour {
        Colour { r: rgba.0, g: rgba.1, b: rgba.2, a: rgba.3 }
    }
}

impl From<(u8, u8, u8)> for Colour {
    fn from(rgb: (u8, u8, u8)) -> (colour: Colour) {
        Colour { r: rgb.0, g: rgb.1, b: rgb.2, a: 255 }
    }
}

impl FromSpecImpl<(u8, u8, u8)> for Colour {
    open spec fn obeys_from_spec() -> bool {
        true
    }

    open spec fn from_spec(rgb: (u8, u8, u8)) -> Colour {
        Colour { r: rgb.0, g: rgb.1, b: rgb.2, a: 255 }
    }
}

impl Default for Glyph {
    fn default() -> (glyph: Glyph)
        ensures
            glyph.character == '\0',
            glyph.colour == (Colour { r: 0, g: 0, b: 0, a: 0 }),
    {
        Glyph { character: '\0', colour: Colour { r: 0, g: 0, b: 0, a: 0 } }
    }
}

impl View for Glyph {
    type V = Glyph;

    open spec fn view(&self) -> Glyph {
        *self
    }
}

} // verus!
