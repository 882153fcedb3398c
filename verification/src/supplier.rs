//! The bakeries, as the printed page refers to them.
//!
//! The export spells a supplier in lower case (`sandnes bakeri`); the page
//! uses a two-letter code on every bread line, because spelling the name out
//! on each row is what would cost the body text its size.

use vstd::prelude::*;

use crate::chars::{
    char_upper, chars_of, eq_ignore_ascii_case, lower_text, push_char, push_chars, push_str,
    same_ignoring_ascii_case, spaced, split_words, string_of, text_lower, text_upper, upper_of,
    upper_text, words,
};

verus! {

/// The bakeries this app knows: the export's spelling, the code the page
/// uses, and the name a heading spells out. The order is the order their
/// columns print in.
pub const KNOWN: [(&'static str, &'static str, &'static str); 2] = [
    ("sandnes bakeri", "SB", "Sandnes Bakeri"),
    ("bakehuset", "BH", "Bakehuset"),
];

/// Which known bakery a supplier is, by position in [`KNOWN`].
pub open spec fn known_at(supplier: Seq<char>) -> Option<int> {
    if same_ignoring_ascii_case(KNOWN[0].0@, supplier) {
        Some(0)
    } else if same_ignoring_ascii_case(KNOWN[1].0@, supplier) {
        Some(1)
    } else {
        None
    }
}

/// The first letter of each word.
pub open spec fn initials(supplier: Seq<char>) -> Seq<char> {
    words(supplier).map_values(|w: Seq<char>| w.take(1)).flatten()
}

/// The code a bakery nobody has configured gets, before upper-casing: its
/// initials, or its first two characters when it is a single word.
pub open spec fn derived_code(supplier: Seq<char>) -> Seq<char> {
    if initials(supplier).len() >= 2 {
        initials(supplier)
    } else if supplier.len() >= 2 {
        supplier.take(2)
    } else {
        supplier
    }
}

/// The two-letter code for a bread line.
pub open spec fn code_of(supplier: Seq<char>) -> Seq<char> {
    match known_at(supplier) {
        Some(i) => KNOWN[i].1@,
        None => upper_text(derived_code(supplier)),
    }
}

/// Each word with its first character in upper case, joined by single spaces.
pub open spec fn title_of(text: Seq<char>) -> Seq<char> {
    spaced(words(text).map_values(|w: Seq<char>| upper_of(w[0]) + w.drop_first()))
}

/// The name spelled out.
pub open spec fn name_of(supplier: Seq<char>) -> Seq<char> {
    match known_at(supplier) {
        Some(i) => KNOWN[i].2@,
        None => title_of(supplier),
    }
}

/// The known bakery a supplier is, as its position in [`KNOWN`].
fn known(supplier: &str) -> (at: Option<usize>)
    ensures
        match known_at(supplier@) {
            Some(i) => at == Some(i as usize),
            None => at is None,
        },
{
    let name = chars_of(supplier);
    let first = chars_of(KNOWN[0].0);
    if eq_ignore_ascii_case(first.as_slice(), name.as_slice()) {
        return Some(0);
    }
    let second = chars_of(KNOWN[1].0);
    if eq_ignore_ascii_case(second.as_slice(), name.as_slice()) {
        return Some(1);
    }
    None
}

/// The two-letter code for a bread line.
///
/// A bakery nobody has configured yet falls back to its initials, or its
/// first two letters when it is a single word.
pub fn code(supplier: &str) -> (code: String)
    ensures
        code@ == code_of(supplier@),
{
    if let Some(at) = known(supplier) {
        let mut code = String::new();
        push_str(&mut code, KNOWN[at].1);
        return code;
    }
    let chars = chars_of(supplier);
    let ws = split_words(chars.as_slice());
    let mut letters: Vec<char> = Vec::new();
    let ghost all = words(supplier@);
    let mut i: usize = 0;
    while i < ws.len()
        invariant
            0 <= i <= ws@.len(),
            ws@.len() == all.len(),
            forall|k: int| 0 <= k < ws@.len() ==> (#[trigger] ws@[k])@ == all[k],
            all == words(supplier@),
            letters@ == all.take(i as int).map_values(|w: Seq<char>| w.take(1)).flatten(),
        decreases ws@.len() - i,
    {
        let word = &ws[i];
        proof {
            assert(word@ == all[i as int]);
            crate::chars::lemma_words_nonempty(supplier@, i as int);
        }
        let first: Vec<char> = if word.len() > 0 {
            let mut one: Vec<char> = Vec::new();
            one.push(word[0]);
            one
        } else {
            Vec::new()
        };
        proof {
            assert(first@ =~= all[i as int].take(1));
            let before = all.take(i as int).map_values(|w: Seq<char>| w.take(1));
            assert(all.take(i + 1).map_values(|w: Seq<char>| w.take(1)) =~= before.push(first@));
            before.lemma_flatten_push(first@);
        }
        let mut k: usize = 0;
        let ghost start = letters@;
        while k < first.len()
            invariant
                0 <= k <= first@.len(),
                letters@ == start + first@.take(k as int),
            decreases first@.len() - k,
        {
            letters.push(first[k]);
            proof {
                assert(first@.take(k + 1) =~= first@.take(k as int).push(first@[k as int]));
            }
            k = k + 1;
        }
        proof {
            assert(first@.take(first@.len() as int) =~= first@);
        }
        i = i + 1;
    }
    proof {
        assert(all.take(ws@.len() as int) =~= all);
    }
    let derived: Vec<char> = if letters.len() >= 2 {
        letters
    } else if chars.len() >= 2 {
        crate::chars::slice_of(chars.as_slice(), 0, 2)
    } else {
        chars
    };
    proof {
        if derived@.len() >= 2 && initials(supplier@).len() < 2 && supplier@.len() >= 2 {
            assert(derived@ =~= supplier@.take(2));
        }
    }
    let text = string_of(derived.as_slice());
    text_upper(text.as_str())
}

/// The name spelled out, for the legend and the route total.
pub fn display_name(supplier: &str) -> (name: String)
    ensures
        name@ == name_of(supplier@),
{
    if let Some(at) = known(supplier) {
        let mut name = String::new();
        push_str(&mut name, KNOWN[at].2);
        return name;
    }
    title_case(supplier)
}

/// Where a supplier's column sits: the house order first, then anything new,
/// alphabetically.
pub fn column_position(supplier: &str) -> (position: (usize, String))
    ensures
        position.0 == match known_at(supplier@) {
            Some(i) => i,
            None => 2,
        },
        position.1@ == lower_text(supplier@),
{
    let rank: usize = match known(supplier) {
        Some(at) => at,
        None => 2,
    };
    (rank, text_lower(supplier))
}

/// Every word with its first character in upper case.
fn title_case(text: &str) -> (title: String)
    ensures
        title@ == title_of(text@),
{
    let chars = chars_of(text);
    let ws = split_words(chars.as_slice());
    let ghost all = words(text@);
    let ghost titled = all.map_values(|w: Seq<char>| upper_of(w[0]) + w.drop_first());
    let mut title = String::new();
    let mut i: usize = 0;
    while i < ws.len()
        invariant
            0 <= i <= ws@.len(),
            ws@.len() == all.len(),
            forall|k: int| 0 <= k < ws@.len() ==> (#[trigger] ws@[k])@ == all[k],
            all == words(text@),
            titled == all.map_values(|w: Seq<char>| upper_of(w[0]) + w.drop_first()),
            title@ == spaced(titled.take(i as int)),
        decreases ws@.len() - i,
    {
        let word = &ws[i];
        proof {
            crate::chars::lemma_words_nonempty(text@, i as int);
        }
        if i > 0 {
            push_char(&mut title, ' ');
        }
        let upper = char_upper(word[0]);
        push_str(&mut title, upper.as_str());
        let rest = crate::chars::slice_of(word.as_slice(), 1, word.len());
        push_chars(&mut title, rest.as_slice());
        proof {
            assert(rest@ =~= all[i as int].drop_first());
            let next = titled.take(i + 1);
            assert(next.drop_last() =~= titled.take(i as int));
            assert(next.last() == titled[i as int]);
            if i == 0 {
                assert(next.len() == 1);
            }
        }
        i = i + 1;
    }
    proof {
        assert(titled.take(ws@.len() as int) =~= titled);
    }
    title
}

} // verus!
