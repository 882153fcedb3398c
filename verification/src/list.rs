//! Which list an export is: bread, or freezer.
//!
//! Both come out of the same exporter in the same shape, and nothing inside
//! the sheet tells them apart. The only thing that does is the word in the
//! filename: `PSR-BREAD-…` against `PSR-FREEZER-…`. A file whose name carries
//! no kind is read as bread, because that is what this app was built for.

use vstd::prelude::*;

use crate::chars::{
    ascii_lower, char_lower, char_upper, chars_of, eq_ignore_ascii_case, lower_of, push_str,
    same_ignoring_ascii_case, upper_of,
};
use crate::date;

verus! {

/// The list an export holds.
#[derive(Debug, Clone, PartialEq, Eq)]
pub enum Kind {
    /// The morning's bread, from the two bakeries.
    Bread,
    /// Frozen goods, from whoever supplies them.
    Freezer,
    /// A word this app has not met. Treated as freezer in everything it
    /// touches, because the bread-shaped parts of the app are the ones that
    /// would be confidently wrong.
    Other(String),
}

/// A word with its first character in upper case and the rest in lower.
pub open spec fn title_word(word: Seq<char>) -> Seq<char> {
    if word.len() == 0 {
        Seq::empty()
    } else {
        upper_of(word[0]) + word.drop_first().map_values(|c: char| lower_of(c)).flatten()
    }
}

impl Kind {
    /// Whether this is the kind a word names.
    pub open spec fn named(self, word: Seq<char>) -> bool {
        if same_ignoring_ascii_case(word, "bread"@) {
            self is Bread
        } else if same_ignoring_ascii_case(word, "freezer"@) {
            self is Freezer
        } else {
            self matches Kind::Other(w) && w@ == word
        }
    }

    /// The word the exporter used.
    pub open spec fn word_of(self) -> Seq<char> {
        match self {
            Kind::Bread => "BREAD"@,
            Kind::Freezer => "FREEZER"@,
            Kind::Other(word) => word@,
        }
    }

    /// The name a heading or a finding spells out.
    pub open spec fn name_of(self) -> Seq<char> {
        match self {
            Kind::Bread => "Bread"@,
            Kind::Freezer => "Freezer"@,
            Kind::Other(word) => title_word(word@),
        }
    }

    /// Which list the file called `filename` holds, read from its name.
    pub fn of(filename: &str) -> (kind: Self)
        ensures
            match date::list_word_of(filename@) {
                Some(word) => kind.named(word),
                None => kind is Bread,
            },
    {
        match date::list_word(filename) {
            Some(word) => Self::from_word(word.as_str()),
            None => Kind::Bread,
        }
    }

    /// The word out of a filename, whatever its case.
    pub fn from_word(word: &str) -> (kind: Self)
        ensures
            kind.named(word@),
    {
        let text = chars_of(word);
        let bread = chars_of("bread");
        if eq_ignore_ascii_case(text.as_slice(), bread.as_slice()) {
            return Kind::Bread;
        }
        let freezer = chars_of("freezer");
        if eq_ignore_ascii_case(text.as_slice(), freezer.as_slice()) {
            return Kind::Freezer;
        }
        let mut owned = String::new();
        push_str(&mut owned, word);
        Kind::Other(owned)
    }

    /// Whether crates mean anything on this list. The arithmetic is
    /// bread-shaped, and a wrong crate count on a sheet the driver trusts is
    /// worse than none at all.
    pub fn has_crates(&self) -> (crates: bool)
        ensures
            crates == (*self is Bread),
    {
        match self {
            Kind::Bread => true,
            _ => false,
        }
    }

    /// The word that goes in front of a count of them: `11 bread types`,
    /// `18 frozen types`. Empty for a kind this app has no word for.
    pub fn modifier(&self) -> (word: &'static str)
        ensures
            word@ == match *self {
                Kind::Bread => "bread"@,
                Kind::Freezer => "frozen"@,
                Kind::Other(_) => ""@,
            },
    {
        match self {
            Kind::Bread => "bread",
            Kind::Freezer => "frozen",
            Kind::Other(_) => "",
        }
    }

    /// Whether the masthead needs to say which list this is. Bread is what a
    /// sheet is unless it says otherwise.
    pub fn names_itself(&self) -> (names: bool)
        ensures
            names == !(*self is Bread),
    {
        match self {
            Kind::Bread => false,
            _ => true,
        }
    }

    /// The word the exporter used, for a filename or a pattern.
    pub fn word(&self) -> (word: &str)
        ensures
            word@ == self.word_of(),
    {
        match self {
            Kind::Bread => "BREAD",
            Kind::Freezer => "FREEZER",
            Kind::Other(word) => word.as_str(),
        }
    }

    /// The name a heading or a finding spells out: `Bread`, `Freezer`, or an
    /// unknown word in title case, so that it reads like the two known ones
    /// rather than shouting.
    pub fn to_text(&self) -> (name: String)
        ensures
            name@ == self.name_of(),
    {
        match self {
            Kind::Bread => {
                let mut name = String::new();
                push_str(&mut name, "Bread");
                name
            },
            Kind::Freezer => {
                let mut name = String::new();
                push_str(&mut name, "Freezer");
                name
            },
            Kind::Other(word) => title_case(word.as_str()),
        }
    }
}

/// `SOMETHING` -> `Something`.
fn title_case(word: &str) -> (text: String)
    ensures
        text@ == title_word(word@),
{
    let chars = chars_of(word);
    let mut text = String::new();
    if chars.len() == 0 {
        return text;
    }
    let first = char_upper(chars[0]);
    push_str(&mut text, first.as_str());
    let ghost rest = chars@.drop_first();
    let mut i: usize = 1;
    while i < chars.len()
        invariant
            1 <= i <= chars@.len(),
            rest == chars@.drop_first(),
            text@ == upper_of(chars@[0]) + rest.take(i - 1).map_values(|c: char| lower_of(c)).flatten(),
        decreases chars@.len() - i,
    {
        let lower = char_lower(chars[i]);
        push_str(&mut text, lower.as_str());
        proof {
            let before = rest.take(i - 1).map_values(|c: char| lower_of(c));
            let after = rest.take(i as int).map_values(|c: char| lower_of(c));
            assert(after =~= before.push(lower_of(chars@[i as int])));
            before.lemma_flatten_push(lower_of(chars@[i as int]));
        }
        i = i + 1;
    }
    proof {
        assert(rest.take(chars@.len() - 1) =~= rest);
    }
    text
}

/// Every kind names itself: the word a kind was read from reads back as that
/// kind, as long as a word nobody knows is not one of the two known ones in
/// another case.
pub proof fn lemma_kind_names_itself(k: Kind)
    requires
        k matches Kind::Other(w) ==> !same_ignoring_ascii_case(w@, "bread"@)
            && !same_ignoring_ascii_case(w@, "freezer"@),
    ensures
        k.named(k.word_of()),
        Kind::Bread.word_of() == "BREAD"@,
        Kind::Freezer.word_of() == "FREEZER"@,
        forall|j: Kind|
            #[trigger] j.named(k.word_of()) ==> (j is Bread <==> k is Bread) && (j is Freezer
                <==> k is Freezer) && j.word_of() == k.word_of(),
{
    reveal_strlit("bread");
    reveal_strlit("freezer");
    reveal_strlit("BREAD");
    reveal_strlit("FREEZER");
    assert(same_ignoring_ascii_case("BREAD"@, "bread"@)) by {
        assert forall|i: int| 0 <= i < 5 implies ascii_lower(#[trigger] "BREAD"@[i]) == ascii_lower(
            "bread"@[i],
        ) by {}
    }
    assert(same_ignoring_ascii_case("FREEZER"@, "freezer"@)) by {
        assert forall|i: int| 0 <= i < 7 implies ascii_lower(#[trigger] "FREEZER"@[i]) == ascii_lower(
            "freezer"@[i],
        ) by {}
    }
    assert(!same_ignoring_ascii_case("FREEZER"@, "bread"@));
}

} // verus!
