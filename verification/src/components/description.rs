use vstd::prelude::*;
use vstd::string::StringExecFns;

verus! {

/// What an entity is called and what is told about it.
#[derive(Debug)]
pub struct Description {
    pub name: String,
    pub description: String,
}

/// A `Description` as two sequences of characters.
pub struct DescriptionView {
    pub name: Seq<char>,
    pub description: Seq<char>,
}

impl View for Description {
    type V = DescriptionView;

    open spec fn view(&self) -> DescriptionView {
        DescriptionView { name: self.name@, description: self.description@ }
    }
}

impl Default for Description {
    /// The description of something unknown: the name `?` and no text.
    fn default() -> (description: Description)
        ensures
            description@.name == seq!['?'],
            description@.description == Seq::<char>::empty(),
    {
        proof {
            reveal_strlit("?");
        }
        let name = String::from_str("?");
        assert(name@ =~= seq!['?']);
        Self { name, description: String::new() }
    }
}

impl Clone for Description {
    fn clone(&self) -> (copy: Description)
        ensures
            copy@ == self@,
    {
        Self { name: self.name.clone(), description: self.description.clone() }
    }
}

} // verus!
