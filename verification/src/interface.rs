use vstd::prelude::*;
use vstd::std_specs::convert::FromSpecImpl;
use vstd::string::{StrSliceExecFns, StringExecFns};
use crate::components::glyph::{Colour, Glyph};

verus! {

/// A piece of text within a label, in a colour of its own or in the colour of the list.
#[derive(Debug)]
pub struct Fragment {
    pub text: String,
    pub colour: Option<Colour>,
}

/// A `Fragment` with its text as a sequence of characters.
pub struct FragmentView {
    pub text: Seq<char>,
    pub colour: Option<Colour>,
}

impl View for Fragment {
    type V = FragmentView;

    open spec fn view(&self) -> FragmentView {
        FragmentView { text: self.text@, colour: self.colour }
    }
}

/// `char::to_string`: the text of one character.
#[verifier::external_body]
fn char_text(character: char) -> (text: String)
    ensures
        text@ == seq![character],
{
    character.to_string()
}

impl Fragment {
    /// The text in the colour given, or in the colour of the list where none is given.
    pub fn new(text: String, colour: Option<Colour>) -> (fragment: Fragment)
        ensures
            fragment@ == (FragmentView { text: text@, colour }),
    {
        Self { text, colour }
    }

    /// The text in the colour of the list.
    pub fn plain(text: &str) -> (fragment: Fragment)
        ensures
            fragment@ == (FragmentView { text: text@, colour: None }),
    {
        Self { text: String::from_str(text), colour: None }
    }

    /// The text in `colour`.
    pub fn coloured(text: &str, colour: Colour) -> (fragment: Fragment)
        ensures
            fragment@ == (FragmentView { text: text@, colour: Some(colour) }),
    {
        Self { text: String::from_str(text), colour: Some(colour) }
    }
}

impl Clone for Fragment {
    fn clone(&self) -> (copy: Fragment)
        ensures
            copy@ == self@,
    {
        Self { text: self.text.clone(), colour: self.colour }
    }
}

impl From<String> for Fragment {
    fn from(string: String) -> (fragment: Fragment) {
        Self { text: string, colour: None }
    }
}

impl FromSpecImpl<String> for Fragment {
    open spec fn obeys_from_spec() -> bool {
        true
    }

    open spec fn from_spec(string: String) -> Fragment {
        Fragment { text: string, colour: None }
    }
}

impl From<(String, Colour)> for Fragment {
    fn from(pair: (String, Colour)) -> (fragment: Fragment) {
        Self { text: pair.0, colour: Some(pair.1) }
    }
}

impl FromSpecImpl<(String, Colour)> for Fragment {
    open spec fn obeys_from_spec() -> bool {
        true
    }

    open spec fn from_spec(pair: (String, Colour)) -> Fragment {
        Fragment { text: pair.0, colour: Some(pair.1) }
    }
}

impl Fragment {
    /// The character of the glyph in the colour of the glyph.
    pub fn from_glyph(glyph: Glyph) -> (fragment: Fragment)
        ensures
            fragment@ == (FragmentView { text: seq![glyph.character], colour: Some(glyph.colour) }),
    {
        Self { text: char_text(glyph.character), colour: Some(glyph.colour) }
    }
}

/// The views of `fragments`, in their order.
pub open spec fn fragment_views(fragments: Seq<Fragment>) -> Seq<FragmentView> {
    fragments.map_values(|fragment: Fragment| fragment@)
}

/// The texts of `fragments`, one after the other.
pub open spec fn joined_text(fragments: Seq<FragmentView>) -> Seq<char>
    decreases fragments.len(),
{
    if fragments.len() == 0 {
        Seq::empty()
    } else {
        joined_text(fragments.drop_last()) + fragments.last().text
    }
}

/// A line of text made of fragments.
#[derive(Debug)]
pub struct Label {
    pub fragments: Vec<Fragment>,
}

impl View for Label {
    type V = Seq<FragmentView>;

    open spec fn view(&self) -> Seq<FragmentView> {
        fragment_views(self.fragments@)
    }
}

impl Label {
    /// A label without fragments.
    pub fn new() -> (label: Label)
        ensures
            label@ == Seq::<FragmentView>::empty(),
    {
        let label = Self { fragments: Vec::new() };
        assert(label@ =~= Seq::<FragmentView>::empty());
        label
    }

    /// A label of one fragment: `text` in the colour of the list.
    pub fn plain(text: &str) -> (label: Label)
        ensures
            label@ == seq![FragmentView { text: text@, colour: None }],
    {
        Label::new().with(Fragment::plain(text))
    }

    /// The label with `fragment` at its end.
    pub fn with(self, fragment: Fragment) -> (label: Label)
        ensures
            label@ == self@.push(fragment@),
    {
        let mut fragments = self.fragments;
        fragments.push(fragment);
        let label = Self { fragments };
        assert(label@ =~= self@.push(fragment@));
        label
    }

    /// Puts the fragments of `rhs` at the end of this label.
    pub fn append(&mut self, rhs: Label)
        ensures
            final(self)@ == old(self)@ + rhs@,
    {
        let ghost before = self@;
        let ghost added = rhs@;
        let mut rest = rhs.fragments;
        let ghost mut count: int = 0;
        assert(before + added.take(0) =~= before);
        while rest.len() > 0
            invariant
                0 <= count <= added.len(),
                rest@.len() == added.len() - count,
                fragment_views(rest@) == added.skip(count),
                self@ == before + added.take(count),
            decreases rest@.len(),
        {
            let ghost remaining = rest@;
            let ghost current = self@;
            let fragment = rest.remove(0);
            proof {
                assert(fragment_views(remaining)[0] == remaining[0]@);
                assert forall|i: int| 0 <= i < rest@.len() implies fragment_views(rest@)[i]
                    == added.skip(count + 1)[i] by {
                    assert(rest@[i] == remaining[i + 1]);
                    assert(fragment_views(remaining)[i + 1] == remaining[i + 1]@);
                }
                assert(fragment_views(rest@) =~= added.skip(count + 1));
            }
            self.fragments.push(fragment);
            proof {
                assert(self@ =~= current.push(fragment@));
                assert(before + added.take(count + 1) =~= (before + added.take(count)).push(added[count]));
                count = count + 1;
            }
        }
        assert(added.take(count) =~= added);
    }

    /// The text of the label without its colours.
    pub fn text(&self) -> (text: String)
        ensures
            text@ == joined_text(self@),
    {
        let mut text = String::new();
        let mut next: usize = 0;
        assert(self@.take(0) =~= Seq::<FragmentView>::empty());
        while next < self.fragments.len()
            invariant
                next <= self.fragments@.len(),
                self@.len() == self.fragments@.len(),
                text@ == joined_text(self@.take(next as int)),
            decreases self.fragments@.len() - next,
        {
            proof {
                assert(self@.take(next + 1).drop_last() =~= self@.take(next as int));
                assert(self@.take(next + 1).last() == self.fragments@[next as int]@);
            }
            text.append(self.fragments[next].text.as_str());
            next += 1;
        }
        assert(self@.take(next as int) =~= self@);
        text
    }
}

impl Clone for Label {
    fn clone(&self) -> (copy: Label)
        ensures
            copy@ == self@,
    {
        let mut fragments: Vec<Fragment> = Vec::new();
        let mut next: usize = 0;
        while next < self.fragments.len()
            invariant
                next <= self.fragments@.len(),
                fragments@.len() == next,
                forall|i: int| 0 <= i < next ==> (#[trigger] fragments@[i])@ == self.fragments@[i]@,
            decreases self.fragments@.len() - next,
        {
            fragments.push(self.fragments[next].clone());
            next += 1;
        }
        let copy = Self { fragments };
        assert(copy@ =~= self@);
        copy
    }
}

/// Something that is drawn in a rectangle of the screen.
pub trait Element {
    /// The left upper corner.
    fn position(&self) -> (i32, i32);

    /// The width and the height.
    fn scale(&self) -> (i32, i32);

    /// Whether the element keeps the foreground that every element has unless it says
    /// otherwise. An element with a foreground of its own answers `false`.
    open spec fn keeps_foreground(&self) -> bool {
        true
    }

    /// Whether the element keeps the background that every element has unless it says
    /// otherwise. An element with a background of its own answers `false`.
    open spec fn keeps_background(&self) -> bool {
        true
    }

    /// The colour of what has none of its own: white, unless the element says otherwise.
    fn foreground_colour(&self) -> (colour: (u8, u8, u8))
        ensures
            self.keeps_foreground() ==> colour == (255u8, 255u8, 255u8),
    {
        (255, 255, 255)
    }

    /// The colour behind the text: near black, unless the element says otherwise.
    fn background_colour(&self) -> (colour: (u8, u8, u8))
        ensures
            self.keeps_background() ==> colour == (10u8, 10u8, 15u8),
    {
        (10, 10, 15)
    }
}

/// A box with a list of labels, one to a line.
#[derive(Debug)]
pub struct List {
    position: (i32, i32),
    scale: (i32, i32),
    entries: Vec<Label>,
    entry_padding: i32,
}

/// A `List` as mathematics.
pub struct ListView {
    pub position: (i32, i32),
    pub scale: (i32, i32),
    pub entries: Seq<Seq<FragmentView>>,
    pub entry_padding: i32,
}

/// Where a fragment is written: the column and row of its first character, and which
/// fragment of which entry it is.
#[derive(Debug, Copy, Clone, PartialEq, Eq, Structural)]
pub struct Placement {
    pub x: i32,
    pub y: i32,
    pub entry: usize,
    pub fragment: usize,
}

/// The column in which the fragment at `fragment` of a label begins: the fragments stand
/// one after the other from the column `start`, each as wide as its text is long.
pub open spec fn column_of(label: Seq<FragmentView>, start: int, fragment: nat) -> int
    decreases fragment,
{
    if fragment == 0 {
        start
    } else {
        column_of(label, start, (fragment - 1) as nat) + label[fragment - 1].text.len()
    }
}

/// The row of the entry at `entry`: the entries stand one below the other inside the box,
/// the first one `entry_padding` lines below its upper edge.
pub open spec fn row_of(list: ListView, entry: int) -> int {
    list.position.1 + list.entry_padding + entry + 1
}

/// Where the first `count` fragments of the entry at `entry` are written. A fragment whose
/// column or row cannot be written as an `i32` is left out.
pub open spec fn entry_layout(list: ListView, entry: int, count: nat) -> Seq<Placement>
    decreases count,
{
    if count == 0 {
        Seq::empty()
    } else {
        let before = entry_layout(list, entry, (count - 1) as nat);
        let x = column_of(list.entries[entry], list.position.0 + 1, (count - 1) as nat);
        let y = row_of(list, entry);
        if i32::MIN <= x <= i32::MAX && i32::MIN <= y <= i32::MAX {
            before.push(
                Placement { x: x as i32, y: y as i32, entry: entry as usize, fragment: (count - 1) as usize },
            )
        } else {
            before
        }
    }
}

/// Where the fragments of the first `count` entries are written, entry by entry.
pub open spec fn list_layout(list: ListView, count: nat) -> Seq<Placement>
    decreases count,
{
    if count == 0 {
        Seq::empty()
    } else {
        list_layout(list, (count - 1) as nat) + entry_layout(
            list,
            count - 1,
            list.entries[count - 1].len(),
        )
    }
}

/// The views of `labels`, in their order.
pub open spec fn label_views(labels: Seq<Label>) -> Seq<Seq<FragmentView>> {
    labels.map_values(|label: Label| label@)
}

/// Whether `index` is the first entry whose text is `text`.
pub open spec fn is_first_with_text(entries: Seq<Seq<FragmentView>>, text: Seq<char>, index: int) -> bool {
    &&& 0 <= index < entries.len()
    &&& joined_text(entries[index]) == text
    &&& forall|before: int| 0 <= before < index ==> joined_text(#[trigger] entries[before]) != text
}

/// Whether some entry has the text `text`.
pub open spec fn has_text(entries: Seq<Seq<FragmentView>>, text: Seq<char>) -> bool {
    exists|index: int| is_first_with_text(entries, text, index)
}

/// The first entry whose text is `text`.
pub open spec fn first_with_text(entries: Seq<Seq<FragmentView>>, text: Seq<char>) -> int {
    choose|index: int| is_first_with_text(entries, text, index)
}

/// `entries` without the first one whose text is `text`, or as they are where there is none.
pub open spec fn without_text(entries: Seq<Seq<FragmentView>>, text: Seq<char>) -> Seq<
    Seq<FragmentView>,
> {
    if has_text(entries, text) {
        entries.remove(first_with_text(entries, text))
    } else {
        entries
    }
}

/// The first entry with a text is one entry only.
pub proof fn lemma_first_with_text_unique(entries: Seq<Seq<FragmentView>>, text: Seq<char>, index: int)
    requires
        is_first_with_text(entries, text, index),
    ensures
        has_text(entries, text),
        first_with_text(entries, text) == index,
{
    let chosen = first_with_text(entries, text);
    assert(is_first_with_text(entries, text, chosen));
    if chosen < index {
        assert(joined_text(entries[chosen]) != text);
    } else if index < chosen {
        assert(joined_text(entries[index]) != text);
    }
}

impl View for List {
    type V = ListView;

    closed spec fn view(&self) -> ListView {
        ListView {
            position: self.position,
            scale: self.scale,
            entries: label_views(self.entries@),
            entry_padding: self.entry_padding,
        }
    }
}

impl List {
    /// An empty list in the box of `scale` at `position`, its first entry `entry_padding`
    /// lines below the top.
    pub fn new(position: (i32, i32), scale: (i32, i32), entry_padding: i32) -> (list: List)
        ensures
            list@ == (ListView {
                position,
                scale,
                entries: Seq::<Seq<FragmentView>>::empty(),
                entry_padding,
            }),
    {
        let list = Self { position, scale, entries: Vec::new(), entry_padding };
        assert(list@.entries =~= Seq::<Seq<FragmentView>>::empty());
        list
    }

    /// Puts `element` at the end of the list.
    pub fn add(&mut self, element: Label)
        ensures
            final(self)@ == (ListView { entries: old(self)@.entries.push(element@), ..old(self)@ }),
    {
        self.entries.push(element);
        assert(self@.entries =~= old(self)@.entries.push(element@));
    }

    /// Takes the first entry whose text is `element` out of the list; a list without such
    /// an entry stays as it is.
    pub fn remove(&mut self, element: &str)
        ensures
            final(self)@ == (ListView {
                entries: without_text(old(self)@.entries, element@),
                ..old(self)@
            }),
    {
        let wanted = String::from_str(element);
        let ghost before = self@.entries;
        let mut index: usize = 0;
        while index < self.entries.len()
            invariant
                index <= self.entries@.len(),
                self@ == old(self)@,
                self@.entries == before,
                before.len() == self.entries@.len(),
                wanted@ == element@,
                forall|earlier: int| 0 <= earlier < index ==> joined_text(#[trigger] before[earlier]) != element@,
            decreases self.entries@.len() - index,
        {
            let text = self.entries[index].text();
            assert(before[index as int] == self.entries@[index as int]@);
            if text == wanted {
                proof {
                    lemma_first_with_text_unique(before, element@, index as int);
                }
                self.entries.remove(index);
                assert(self@.entries =~= before.remove(index as int));
                return ;
            }
            index += 1;
        }
        assert(!has_text(before, element@)) by {
            if has_text(before, element@) {
                let found = first_with_text(before, element@);
                assert(joined_text(before[found]) != element@);
            }
        }
    }

    /// Empties the list.
    pub fn clear(&mut self)
        ensures
            final(self)@ == (ListView { entries: Seq::<Seq<FragmentView>>::empty(), ..old(self)@ }),
    {
        self.entries.clear();
        assert(self@.entries =~= Seq::<Seq<FragmentView>>::empty());
    }

    /// Where each fragment of each entry is written, entry by entry and fragment by
    /// fragment. A fragment that would begin beyond what an `i32` can count is left out.
    pub fn layout(&self) -> (placements: Vec<Placement>)
        ensures
            placements@ == list_layout(self@, self@.entries.len()),
    {
        let mut placements: Vec<Placement> = Vec::new();
        let mut entry: usize = 0;
        while entry < self.entries.len()
            invariant
                entry <= self.entries@.len(),
                self@.entries.len() == self.entries@.len(),
                placements@ == list_layout(self@, entry as nat),
            decreases self.entries@.len() - entry,
        {
            let label = &self.entries[entry];
            let ghost text = self@.entries[entry as int];
            assert(text == label@);
            let row: i64 = self.position.1 as i64 + self.entry_padding as i64 + 1;
            let y: Option<i32> = if entry as u64 <= 0x1_ffff_ffff && i32::MIN as i64 <= row + entry as i64
                && row + entry as i64 <= i32::MAX as i64 {
                Some((row + entry as i64) as i32)
            } else {
                None
            };
            let mut x: Option<i32> = if self.position.0 < i32::MAX {
                Some(self.position.0 + 1)
            } else {
                None
            };
            let ghost before = placements@;
            let mut fragment: usize = 0;
            assert(before + entry_layout(self@, entry as int, 0) =~= before);
            while fragment < label.fragments.len()
                invariant
                    fragment <= label.fragments@.len(),
                    entry < self.entries@.len(),
                    text == label@,
                    text == self@.entries[entry as int],
                    text.len() == label.fragments@.len(),
                    y == (if i32::MIN <= row_of(self@, entry as int) <= i32::MAX {
                        Some(row_of(self@, entry as int) as i32)
                    } else {
                        None
                    }),
                    x == (if column_of(text, self@.position.0 + 1, fragment as nat) <= i32::MAX {
                        Some(column_of(text, self@.position.0 + 1, fragment as nat) as i32)
                    } else {
                        None
                    }),
                    i32::MIN < column_of(text, self@.position.0 + 1, fragment as nat),
                    placements@ == before + entry_layout(self@, entry as int, fragment as nat),
                decreases label.fragments@.len() - fragment,
            {
                let ghost laid = entry_layout(self@, entry as int, fragment as nat);
                if let Some(column) = x {
                    if let Some(line) = y {
                        placements.push(Placement { x: column, y: line, entry, fragment });
                    }
                }
                assert(placements@ =~= before + entry_layout(self@, entry as int, (fragment + 1) as nat));
                let width: usize = label.fragments[fragment].text.as_str().unicode_len();
                assert(width == text[fragment as int].text.len());
                x = match x {
                    Some(column) => {
                        if width as u64 <= 0x1_ffff_ffff && column as i64 + width as i64 <= i32::MAX as i64 {
                            Some((column as i64 + width as i64) as i32)
                        } else {
                            None
                        }
                    },
                    None => None,
                };
                fragment += 1;
            }
            entry += 1;
        }
        placements
    }

    /// The entries, first to last.
    pub fn entries(&self) -> (entries: &Vec<Label>)
        ensures
            label_views(entries@) == self@.entries,
    {
        &self.entries
    }

    /// The number of lines between the top of the box and the first entry.
    pub fn entry_padding(&self) -> (padding: i32)
        ensures
            padding == self@.entry_padding,
    {
        self.entry_padding
    }
}

impl Element for List {
    fn position(&self) -> (position: (i32, i32))
        ensures
            position == self@.position,
    {
        self.position
    }

    fn scale(&self) -> (scale: (i32, i32))
        ensures
            scale == self@.scale,
    {
        self.scale
    }
}

} // verus!
