use protogue::components::description::Description;
use protogue::components::glyph::{Colour, ColourError, Glyph};
use protogue::components::weight::Weight;

#[test]
fn six_digits_give_an_opaque_colour() {
    assert_eq!(Colour::from_hex("#ff8000"), Ok(Colour { r: 255, g: 128, b: 0, a: 255 }));
    assert_eq!(Colour::from_hex("#000000"), Ok(Colour { r: 0, g: 0, b: 0, a: 255 }));
}

#[test]
fn eight_digits_give_a_colour_with_alpha() {
    assert_eq!(Colour::from_hex("#ff800080"), Ok(Colour { r: 255, g: 128, b: 0, a: 128 }));
    assert_eq!(Colour::from_hex("#01020304"), Ok(Colour { r: 1, g: 2, b: 3, a: 4 }));
}

#[test]
fn digits_of_either_case_are_read() {
    assert_eq!(Colour::from_hex("#AbCdEf"), Ok(Colour { r: 0xab, g: 0xcd, b: 0xef, a: 255 }));
    assert_eq!(Colour::from_hex("#ABCDEF12"), Ok(Colour { r: 0xab, g: 0xcd, b: 0xef, a: 0x12 }));
}

#[test]
fn an_empty_text_is_too_short() {
    assert_eq!(Colour::from_hex(""), Err(ColourError::InvalidStringLength));
}

#[test]
fn a_text_without_hash_is_refused() {
    assert_eq!(Colour::from_hex("ff8000"), Err(ColourError::MissingHash));
    assert_eq!(Colour::from_hex("x"), Err(ColourError::MissingHash));
}

#[test]
fn a_wrong_digit_is_refused() {
    assert_eq!(Colour::from_hex("#gg0000"), Err(ColourError::InvalidCharacter));
    assert_eq!(Colour::from_hex("#ff80zz"), Err(ColourError::InvalidCharacter));
    assert_eq!(Colour::from_hex("#ff 000"), Err(ColourError::InvalidCharacter));
}

#[test]
fn a_wrong_number_of_digits_is_refused() {
    assert_eq!(Colour::from_hex("#"), Err(ColourError::InvalidStringLength));
    assert_eq!(Colour::from_hex("#ff80"), Err(ColourError::InvalidStringLength));
    assert_eq!(Colour::from_hex("#ff80000"), Err(ColourError::InvalidStringLength));
    assert_eq!(Colour::from_hex("#ff8000800"), Err(ColourError::InvalidStringLength));
}

#[test]
fn the_first_thing_wrong_decides_the_error() {
    assert_eq!(Colour::from_hex("#f"), Err(ColourError::InvalidStringLength));
    assert_eq!(Colour::from_hex("#g"), Err(ColourError::InvalidCharacter));
    assert_eq!(Colour::from_hex("#fg"), Err(ColourError::InvalidCharacter));
}

#[test]
fn colours_from_tuples() {
    assert_eq!(Colour::from((1, 2, 3, 4)), Colour { r: 1, g: 2, b: 3, a: 4 });
    assert_eq!(Colour::from((1, 2, 3)), Colour { r: 1, g: 2, b: 3, a: 255 });
}

#[test]
fn defaults_of_the_small_components() {
    assert_eq!(Weight::default().grams, 1);
    let description = Description::default();
    assert_eq!(description.name, "?");
    assert_eq!(description.description, "");
    let glyph = Glyph::default();
    assert_eq!(glyph.character, '\0');
    assert_eq!(glyph.colour, Colour { r: 0, g: 0, b: 0, a: 0 });
}

#[test]
fn a_description_is_cloned_with_its_texts() {
    let description = Description { name: String::from("lamp"), description: String::from("It glows.") };
    let copy = description.clone();
    assert_eq!(copy.name, "lamp");
    assert_eq!(copy.description, "It glows.");
}
