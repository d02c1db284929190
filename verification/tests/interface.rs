use protogue::components::glyph::{Colour, Glyph};
use protogue::interface::{Element, Fragment, Label, List, Placement};

const RED: Colour = Colour { r: 255, g: 0, b: 0, a: 255 };

#[test]
fn fragments_keep_text_and_colour() {
    let plain = Fragment::plain("You ");
    assert_eq!(plain.text, "You ");
    assert_eq!(plain.colour, None);
    let coloured = Fragment::coloured("lamp", RED);
    assert_eq!(coloured.text, "lamp");
    assert_eq!(coloured.colour, Some(RED));
    let made = Fragment::new(String::from("x"), Some(RED));
    assert_eq!(made.text, "x");
    assert_eq!(made.colour, Some(RED));
}

#[test]
fn fragments_from_other_values() {
    let from_string = Fragment::from(String::from("abc"));
    assert_eq!(from_string.text, "abc");
    assert_eq!(from_string.colour, None);
    let from_pair = Fragment::from((String::from("abc"), RED));
    assert_eq!(from_pair.text, "abc");
    assert_eq!(from_pair.colour, Some(RED));
    let from_glyph = Fragment::from_glyph(Glyph { character: '@', colour: RED });
    assert_eq!(from_glyph.text, "@");
    assert_eq!(from_glyph.colour, Some(RED));
}

#[test]
fn a_label_is_built_fragment_by_fragment() {
    let label = Label::new().with(Fragment::plain("You ")).with(Fragment::coloured("win", RED));
    assert_eq!(label.fragments.len(), 2);
    assert_eq!(label.fragments[0].text, "You ");
    assert_eq!(label.fragments[1].text, "win");
    assert_eq!(label.text(), "You win");
    assert_eq!(Label::new().text(), "");
    assert_eq!(Label::plain("alone").fragments.len(), 1);
}

#[test]
fn appending_keeps_the_order() {
    let mut label = Label::plain("a").with(Fragment::plain("b"));
    label.append(Label::plain("c").with(Fragment::plain("d")));
    assert_eq!(label.text(), "abcd");
    assert_eq!(label.fragments.len(), 4);
    label.append(Label::new());
    assert_eq!(label.text(), "abcd");
}

#[test]
fn a_label_is_cloned_with_its_fragments() {
    let label = Label::plain("a").with(Fragment::coloured("b", RED));
    let copy = label.clone();
    assert_eq!(copy.text(), "ab");
    assert_eq!(copy.fragments[1].colour, Some(RED));
}

#[test]
fn a_list_keeps_what_it_was_made_with() {
    let list = List::new((3, 4), (20, 10), 2);
    assert_eq!(list.position(), (3, 4));
    assert_eq!(list.scale(), (20, 10));
    assert_eq!(list.entry_padding(), 2);
    assert_eq!(list.entries().len(), 0);
    assert_eq!(list.foreground_colour(), (255, 255, 255));
    assert_eq!(list.background_colour(), (10, 10, 15));
}

#[test]
fn a_list_adds_at_the_end() {
    let mut list = List::new((0, 0), (10, 10), 0);
    list.add(Label::plain("one"));
    list.add(Label::plain("two"));
    assert_eq!(list.entries().len(), 2);
    assert_eq!(list.entries()[0].text(), "one");
    assert_eq!(list.entries()[1].text(), "two");
}

#[test]
fn remove_takes_the_first_entry_with_the_text() {
    let mut list = List::new((0, 0), (10, 10), 0);
    list.add(Label::plain("one"));
    list.add(Label::plain("t").with(Fragment::plain("wo")));
    list.add(Label::plain("three"));
    list.add(Label::plain("two"));
    list.remove("two");
    assert_eq!(list.entries().len(), 3);
    assert_eq!(list.entries()[0].text(), "one");
    assert_eq!(list.entries()[1].text(), "three");
    assert_eq!(list.entries()[2].text(), "two");
}

#[test]
fn remove_of_a_text_that_is_not_there_changes_nothing() {
    let mut list = List::new((0, 0), (10, 10), 0);
    list.add(Label::plain("one"));
    list.remove("two");
    assert_eq!(list.entries().len(), 1);
    assert_eq!(list.entries()[0].text(), "one");
}

#[test]
fn clear_empties_the_list() {
    let mut list = List::new((1, 2), (10, 10), 3);
    list.add(Label::plain("one"));
    list.add(Label::plain("two"));
    list.clear();
    assert_eq!(list.entries().len(), 0);
    assert_eq!(list.position(), (1, 2));
    assert_eq!(list.entry_padding(), 3);
}

#[test]
fn fragments_are_laid_out_one_after_the_other() {
    let mut list = List::new((10, 20), (30, 10), 2);
    list.add(Label::plain("You ").with(Fragment::coloured("win", RED)).with(Fragment::plain("!")));
    list.add(Label::new());
    list.add(Label::plain("").with(Fragment::plain("again")));
    let wanted = vec![
        Placement { x: 11, y: 23, entry: 0, fragment: 0 },
        Placement { x: 15, y: 23, entry: 0, fragment: 1 },
        Placement { x: 18, y: 23, entry: 0, fragment: 2 },
        Placement { x: 11, y: 25, entry: 2, fragment: 0 },
        Placement { x: 11, y: 25, entry: 2, fragment: 1 },
    ];
    assert_eq!(list.layout(), wanted);
    assert!(List::new((0, 0), (1, 1), 0).layout().is_empty());
}

#[test]
fn what_cannot_be_placed_is_left_out() {
    let mut far = List::new((i32::MAX - 3, 0), (5, 5), 0);
    far.add(Label::plain("ab").with(Fragment::plain("c")).with(Fragment::plain("d")));
    assert_eq!(
        far.layout(),
        vec![
            Placement { x: i32::MAX - 2, y: 1, entry: 0, fragment: 0 },
            Placement { x: i32::MAX, y: 1, entry: 0, fragment: 1 },
        ]
    );
    let mut edge = List::new((i32::MAX, 0), (5, 5), 0);
    edge.add(Label::plain("a"));
    assert!(edge.layout().is_empty());
    let mut low = List::new((0, i32::MAX), (5, 5), 0);
    low.add(Label::plain("a"));
    assert!(low.layout().is_empty());
    let mut high = List::new((0, i32::MIN), (5, 5), -2);
    high.add(Label::plain("a"));
    high.add(Label::plain("b"));
    assert_eq!(high.layout(), vec![Placement { x: 1, y: i32::MIN, entry: 1, fragment: 0 }]);
}

struct Banner;

impl Element for Banner {
    fn position(&self) -> (i32, i32) {
        (2, 3)
    }

    fn scale(&self) -> (i32, i32) {
        (40, 1)
    }

    fn foreground_colour(&self) -> (u8, u8, u8) {
        (200, 0, 0)
    }
}

#[test]
fn an_element_keeps_the_colours_it_does_not_replace() {
    let banner = Banner;
    assert_eq!(banner.position(), (2, 3));
    assert_eq!(banner.scale(), (40, 1));
    assert_eq!(banner.foreground_colour(), (200, 0, 0));
    assert_eq!(banner.background_colour(), (10, 10, 15));
}
