//! Where the crate rules live between runs.
//!
//! How many slots a crate holds and how much room each bread takes are facts
//! about the bakery, not choices about today's print, so they are kept in a
//! few lines of text that a person can open, read and fix by hand. Anything
//! the reader does not understand is skipped rather than refused: a settings
//! file is never worth failing a print over.
//!
//! Finding the file and writing it are the program's business; this module is
//! the text itself — what a file says, and what is written for given rules.

use std::collections::{BTreeMap, HashMap};

use vstd::prelude::*;
use vstd::std_specs::iter::IteratorSpec;

use crate::chars::{
    all_digits, chars_of, decimal, decimal_text, is_white, lemma_decimal_reads_back,
    lemma_digits_not_white, lemma_first_word, lemma_newline_at, lemma_words_lead,
    lemma_words_none, lemma_words_skip_white, lines, parse_number, parse_unsigned, push_char,
    push_str, spaced, split_lines, split_words, strip_cr, words,
};
use crate::crates::{CrateRules, STANDARD_SIZE};

verus! {

broadcast use vstd::std_specs::hash::group_hash_axioms;

// ---------------------------------------------------------------------------
// Reading
// ---------------------------------------------------------------------------

/// The part of the rules a settings file carries: the two capacities and the
/// sizes somebody set.
pub type Kept = (u32, u32, Map<u32, u32>);

/// What the rules keep of themselves in a file.
pub open spec fn kept(rules: CrateRules) -> Kept {
    (rules.large_capacity, rules.small_capacity, rules.size_percent@)
}

/// The rules a file starts from: crates of ten and five, no sizes.
pub open spec fn defaults() -> Kept {
    (10, 5, Map::empty())
}

/// What one line of a settings file does to the rules. `large N` and
/// `small N` set a capacity, `size ID PERCENT` sets a bread's size (a whole
/// slot forgets it); the words after those are the reader's and are ignored,
/// and so is any line that does not parse.
pub open spec fn apply_line(rules: Kept, line: Seq<char>) -> Kept {
    let w = words(line);
    if w.len() < 2 {
        rules
    } else if w[0] == "large"@ {
        match parse_unsigned(w[1], u32::MAX as nat) {
            Some(n) => (n as u32, rules.1, rules.2),
            None => rules,
        }
    } else if w[0] == "small"@ {
        match parse_unsigned(w[1], u32::MAX as nat) {
            Some(n) => (rules.0, n as u32, rules.2),
            None => rules,
        }
    } else if w[0] == "size"@ && w.len() >= 3 {
        match (parse_unsigned(w[1], u32::MAX as nat), parse_unsigned(w[2], u32::MAX as nat)) {
            (Some(id), Some(percent)) => (
                rules.0,
                rules.1,
                if percent == STANDARD_SIZE {
                    rules.2.remove(id as u32)
                } else {
                    rules.2.insert(id as u32, percent as u32)
                },
            ),
            _ => rules,
        }
    } else {
        rules
    }
}

/// The lines of a file, applied in order.
pub open spec fn apply_lines(rules: Kept, ls: Seq<Seq<char>>) -> Kept
    decreases ls.len(),
{
    if ls.len() == 0 {
        rules
    } else {
        apply_lines(apply_line(rules, ls[0]), ls.drop_first())
    }
}

/// The rules a settings file describes.
pub open spec fn read_text(text: Seq<char>) -> Kept {
    apply_lines(defaults(), lines(text))
}

/// The bread name a `size` line carries after its two numbers, if it has one
/// and its id parses.
pub open spec fn label_on(line: Seq<char>) -> Option<(u32, Seq<char>)> {
    let t = crate::chars::trim(line);
    if !crate::chars::starts_with(t, "size "@) {
        None
    } else {
        let w = words(t.skip(5));
        if w.len() < 2 {
            None
        } else {
            match parse_unsigned(w[0], u32::MAX as nat) {
                Some(id) => if w.len() > 2 {
                    Some((id as u32, spaced(w.skip(2))))
                } else {
                    None
                },
                None => None,
            }
        }
    }
}

/// The names a run of lines carries, a later line for the same bread
/// replacing an earlier one.
pub open spec fn labels_on(ls: Seq<Seq<char>>) -> Map<u32, Seq<char>>
    decreases ls.len(),
{
    if ls.len() == 0 {
        Map::empty()
    } else {
        match label_on(ls.last()) {
            Some((id, name)) => labels_on(ls.drop_last()).insert(id, name),
            None => labels_on(ls.drop_last()),
        }
    }
}

/// The rules a settings file describes. Lines it does not understand are
/// skipped, and anything missing keeps its default.
pub fn read(text: &str) -> (rules: CrateRules)
    ensures
        kept(rules) == read_text(text@),
{
    let all = chars_of(text);
    let ls = split_lines(&all);
    let large = chars_of("large");
    let small = chars_of("small");
    let size = chars_of("size");
    let mut rules = CrateRules::default();
    let ghost whole = lines(text@);
    proof {
        assert(ls@.len() == whole.len());
        assert(whole.skip(0) =~= whole);
    }
    let mut i: usize = 0;
    while i < ls.len()
        invariant
            0 <= i <= ls@.len(),
            ls@.len() == whole.len(),
            forall|k: int| 0 <= k < ls@.len() ==> (#[trigger] ls@[k])@ == whole[k],
            large@ == "large"@,
            small@ == "small"@,
            size@ == "size"@,
            read_text(text@) == apply_lines(kept(rules), whole.skip(i as int)),
            whole == lines(text@),
        decreases ls@.len() - i,
    {
        let w = split_words(&ls[i]);
        let ghost before = kept(rules);
        proof {
            assert(w@.len() == words(whole[i as int]).len());
        }
        if w.len() >= 2 {
            if crate::chars::equal_text(&w[0], &large) {
                if let Some(n) = parse_number(&w[1], 4294967295) {
                    rules.large_capacity = n as u32;
                }
            } else if crate::chars::equal_text(&w[0], &small) {
                if let Some(n) = parse_number(&w[1], 4294967295) {
                    rules.small_capacity = n as u32;
                }
            } else if crate::chars::equal_text(&w[0], &size) && w.len() >= 3 {
                let id = parse_number(&w[1], 4294967295);
                let percent = parse_number(&w[2], 4294967295);
                if let (Some(id), Some(percent)) = (id, percent) {
                    rules.set_size(id as u32, percent as u32);
                }
            }
        }
        proof {
            let line = whole[i as int];
            assert(kept(rules) == apply_line(before, line)) by {
                if w@.len() >= 2 {
                    assert(w@[0]@ == words(line)[0]);
                    assert(w@[1]@ == words(line)[1]);
                }
                if w@.len() >= 3 {
                    assert(w@[2]@ == words(line)[2]);
                }
                assert(kept(rules).2 =~= apply_line(before, line).2);
            }
            assert(whole.skip(i as int).drop_first() =~= whole.skip(i + 1));
        }
        i = i + 1;
    }
    rules
}

/// Joins words with single spaces.
fn join_spaced(ws: &Vec<Vec<char>>, from: usize) -> (text: String)
    requires
        from <= ws@.len(),
    ensures
        text@ == spaced(ws@.map_values(|w: Vec<char>| w@).skip(from as int)),
{
    let ghost all = ws@.map_values(|w: Vec<char>| w@);
    let mut text = String::new();
    let mut i: usize = from;
    while i < ws.len()
        invariant
            from <= i <= ws@.len(),
            all == ws@.map_values(|w: Vec<char>| w@),
            text@ == spaced(all.subrange(from as int, i as int)),
        decreases ws@.len() - i,
    {
        if i > from {
            push_char(&mut text, ' ');
        }
        crate::chars::push_chars(&mut text, ws[i].as_slice());
        proof {
            let next = all.subrange(from as int, i + 1);
            assert(next.drop_last() =~= all.subrange(from as int, i as int));
            assert(next.last() == ws@[i as int]@);
            if i == from {
                assert(all.subrange(from as int, i as int).len() == 0);
            }
        }
        i = i + 1;
    }
    proof {
        assert(all.subrange(from as int, ws@.len() as int) =~= all.skip(from as int));
    }
    text
}

/// The bread names a settings file carries, so that saving over it does not
/// throw away the name of a bread that is not in today's export.
pub fn read_labels(text: &str) -> (labels: BTreeMap<u32, String>)
    ensures
        labels@.dom() == labels_on(lines(text@)).dom(),
        forall|id: u32| #[trigger] labels@.contains_key(id) ==> labels@[id]@ == labels_on(lines(text@))[id],
{
    let all = chars_of(text);
    let ls = split_lines(&all);
    let prefix = chars_of("size ");
    let ghost whole = lines(text@);
    let mut labels: BTreeMap<u32, String> = BTreeMap::new();
    let mut i: usize = 0;
    while i < ls.len()
        invariant
            0 <= i <= ls@.len(),
            ls@.len() == whole.len(),
            forall|k: int| 0 <= k < ls@.len() ==> (#[trigger] ls@[k])@ == whole[k],
            prefix@ == "size "@,
            labels@.dom() == labels_on(whole.take(i as int)).dom(),
            forall|id: u32| #[trigger] labels@.contains_key(id) ==> labels@[id]@ == labels_on(whole.take(i as int))[id],
        decreases ls@.len() - i,
    {
        let line = crate::chars::trimmed(ls[i].as_slice());
        let ghost expected = label_on(whole[i as int]);
        proof {
            reveal_strlit("size ");
            assert(whole.take(i + 1).drop_last() =~= whole.take(i as int));
            assert(whole.take(i + 1).last() == whole[i as int]);
        }
        if crate::chars::has_prefix(line.as_slice(), prefix.as_slice()) {
            let rest = crate::chars::slice_of(line.as_slice(), 5, line.len());
            let w = split_words(rest.as_slice());
            proof {
                assert(rest@ =~= line@.skip(5));
            }
            if w.len() >= 2 {
                if let Some(id) = parse_number(w[0].as_slice(), 4294967295) {
                    if w.len() > 2 {
                        let name = join_spaced(&w, 2);
                        proof {
                            let ws = words(line@.skip(5));
                            assert(w@.map_values(|x: Vec<char>| x@).skip(2) =~= ws.skip(2));
                            assert(expected == Some((id as u32, name@)));
                        }
                        insert_label(&mut labels, id as u32, name);
                    }
                }
            }
        }
        i = i + 1;
    }
    proof {
        assert(whole.take(ls@.len() as int) =~= whole);
    }
    labels
}

/// Keeps a bread's name, replacing any it had.
fn insert_label(labels: &mut BTreeMap<u32, String>, id: u32, name: String)
    ensures
        final(labels)@ == old(labels)@.insert(id, name),
{
    broadcast use vstd::laws_cmp::group_laws_cmp, vstd::std_specs::btree::group_btree_axioms;
    labels.insert(id, name);
}

// ---------------------------------------------------------------------------
// Writing
// ---------------------------------------------------------------------------

pub const HEADER_TITLE: &'static str = "# Breadify — how the bakery's crates work.";
pub const HEADER_GAP: &'static str = "#";
pub const HEADER_WHO: &'static str = "# Written by the app when you change something on the Configure step, and safe";
pub const HEADER_SIZES: &'static str = "# to edit by hand. Sizes are a percentage of one slot: 50 is a half, 200 takes";
pub const HEADER_WHOLE: &'static str = "# the room of two. A bread that is not listed is a whole slot.";
pub const ALL_WHOLE: &'static str = "# Every bread is a whole slot.";
pub const SIZE_KEY: &'static str = "# size <product id> <percent of one slot>   <name, for you not the app>";

/// The comment the file opens with, a line at a time.
pub open spec fn header_lines() -> Seq<Seq<char>> {
    seq![HEADER_TITLE@, HEADER_GAP@, HEADER_WHO@, HEADER_SIZES@, HEADER_WHOLE@]
}

/// Whether each number is smaller than the next.
pub open spec fn ascending(ids: Seq<u32>) -> bool {
    forall|i: int, j: int| 0 <= i < j < ids.len() ==> ids[i] < ids[j]
}

/// The members of a set of ids, smallest first.
pub open spec fn in_order(ids: Set<u32>) -> Seq<u32> {
    choose|s: Seq<u32>| ascending(s) && s.to_set() == ids
}

/// One bread's size, with its name when one is known, for the reader.
pub open spec fn size_line(id: u32, percent: u32, labels: Map<u32, Seq<char>>) -> Seq<char> {
    "size "@ + decimal(id as nat) + " "@ + decimal(percent as nat) + if labels.contains_key(id) {
        "   "@ + labels[id]
    } else {
        Seq::<char>::empty()
    }
}

/// Every line of the file for `rules`, the sizes in product order.
pub open spec fn rendered_lines(rules: CrateRules, labels: Map<u32, Seq<char>>) -> Seq<Seq<char>> {
    let sizes = rules.size_percent@;
    header_lines() + seq![
        Seq::<char>::empty(),
        "large "@ + decimal(rules.large_capacity as nat),
        "small "@ + decimal(rules.small_capacity as nat),
        Seq::<char>::empty(),
    ] + if sizes.len() == 0 {
        seq![ALL_WHOLE@]
    } else {
        seq![SIZE_KEY@] + in_order(sizes.dom()).map_values(
            |id: u32| size_line(id, sizes[id], labels),
        )
    }
}

/// The names a map of strings holds, as text.
pub open spec fn names_of(labels: Map<u32, String>) -> Map<u32, Seq<char>> {
    labels.map_values(|name: String| name@)
}

/// Lines written one after another, each ended by a newline.
pub open spec fn joined(ls: Seq<Seq<char>>) -> Seq<char>
    decreases ls.len(),
{
    if ls.len() == 0 {
        Seq::empty()
    } else {
        joined(ls.drop_last()) + ls.last() + seq!['\n']
    }
}

/// Two ascending runs with the same members are the same run.
pub proof fn lemma_ascending_unique(a: Seq<u32>, b: Seq<u32>)
    requires
        ascending(a),
        ascending(b),
        a.to_set() == b.to_set(),
    ensures
        a == b,
    decreases a.len(),
{
    if a.len() == 0 {
        if b.len() > 0 {
            assert(b.to_set().contains(b[0]));
        }
        assert(a =~= b);
    } else if b.len() == 0 {
        assert(a.to_set().contains(a[0]));
    } else {
        assert(a.to_set().contains(a[0]));
        assert(b.to_set().contains(b[0]));
        let i = choose|i: int| 0 <= i < b.len() && b[i] == a[0];
        let j = choose|j: int| 0 <= j < a.len() && a[j] == b[0];
        assert(a[0] == b[0]) by {
            if a[0] < b[0] {
                assert(i > 0 ==> b[0] < b[i]);
            } else if b[0] < a[0] {
                assert(j > 0 ==> a[0] < a[j]);
            }
        }
        let x = a[0];
        assert(a.drop_first().to_set() =~= b.drop_first().to_set()) by {
            assert forall|y: u32| a.drop_first().to_set().contains(y) implies b.drop_first().to_set().contains(y) by {
                let k = choose|k: int| 0 <= k < a.drop_first().len() && a.drop_first()[k] == y;
                assert(a[k + 1] == y);
                assert(b.to_set().contains(y));
                let m = choose|m: int| 0 <= m < b.len() && b[m] == y;
                assert(m != 0);
                assert(b.drop_first()[m - 1] == y);
            }
            assert forall|y: u32| b.drop_first().to_set().contains(y) implies a.drop_first().to_set().contains(y) by {
                let k = choose|k: int| 0 <= k < b.drop_first().len() && b.drop_first()[k] == y;
                assert(b[k + 1] == y);
                assert(a.to_set().contains(y));
                let m = choose|m: int| 0 <= m < a.len() && a[m] == y;
                assert(m != 0);
                assert(a.drop_first()[m - 1] == y);
            }
        }
        lemma_ascending_unique(a.drop_first(), b.drop_first());
        assert(a =~= seq![x] + a.drop_first());
        assert(b =~= seq![x] + b.drop_first());
    }
}

/// The ids a map holds, smallest first.
fn ascending_keys(sizes: &HashMap<u32, u32>) -> (ids: Vec<u32>)
    ensures
        ascending(ids@),
        ids@.to_set() == sizes@.dom(),
        ids@ == in_order(sizes@.dom()),
{
    let mut ids: Vec<u32> = Vec::new();
    let keys = sizes.keys();
    proof {
        let r = keys.remaining();
        assert(r.unref().to_set() == sizes@.dom());
    }
    let ghost mut count: int = 0;
    for id in it: keys
        invariant
            ascending(ids@),
            forall|x: u32| #[trigger] ids@.contains(x) <==> keys.remaining().take(count).unref().contains(x),
            it.seq() == keys.remaining(),
            count == it.index(),
    {
        let key: u32 = *id;
        let ghost before = ids@;
        let ghost seen = keys.remaining().take(count).unref();
        assert(key == *keys.remaining()[count]);
        assert(forall|x: u32| #[trigger] before.contains(x) <==> seen.contains(x));
        let mut at: usize = 0;
        while at < ids.len() && ids[at] < key
            invariant
                0 <= at <= ids@.len(),
                ids@ == before,
                forall|k: int| 0 <= k < at ==> ids@[k] < key,
            decreases ids@.len() - at,
        {
            at = at + 1;
        }
        if at == ids.len() || ids[at] != key {
            ids.insert(at, key);
            proof {
                assert forall|i: int, j: int| 0 <= i < j < ids@.len() implies ids@[i] < ids@[j] by {
                    if j < at {
                    } else if i < at && j == at {
                    } else if i < at {
                        assert(ids@[j] == before[j - 1]);
                        assert(before[i] < before[at as int] || at == i);
                    } else if i == at {
                        assert(ids@[j] == before[j - 1]);
                        assert(before[at as int] <= before[j - 1]);
                    } else {
                        assert(ids@[j] == before[j - 1]);
                        assert(ids@[i] == before[i - 1]);
                    }
                }
                assert forall|x: u32| ids@.contains(x) <==> (before.contains(x) || x == key) by {
                    if ids@.contains(x) {
                        let k = choose|k: int| 0 <= k < ids@.len() && ids@[k] == x;
                        if k < at {
                            assert(before[k] == x);
                        } else if k > at {
                            assert(before[k - 1] == x);
                        }
                    }
                    if before.contains(x) {
                        let k = choose|k: int| 0 <= k < before.len() && before[k] == x;
                        if k < at {
                            assert(ids@[k] == x);
                        } else {
                            assert(ids@[k + 1] == x);
                        }
                    }
                    if x == key {
                        assert(ids@[at as int] == x);
                    }
                }
            }
        } else {
            proof {
                assert(ids@[at as int] == key);
                assert(forall|x: u32| ids@.contains(x) <==> (before.contains(x) || x == key));
            }
        }
        proof {
            let now = keys.remaining().take(count + 1).unref();
            assert(now =~= seen.push(key));
            assert forall|x: u32| now.contains(x) <==> (seen.contains(x) || x == key) by {
                if now.contains(x) {
                    let k = choose|k: int| 0 <= k < now.len() && now[k] == x;
                    if k < seen.len() {
                        assert(seen[k] == x);
                    }
                }
                if seen.contains(x) {
                    let k = choose|k: int| 0 <= k < seen.len() && seen[k] == x;
                    assert(now[k] == x);
                }
                if x == key {
                    assert(now[seen.len() as int] == x);
                }
            }
            assert forall|x: u32| #[trigger] ids@.contains(x) <==> now.contains(x) by {
                assert(ids@.contains(x) <==> (before.contains(x) || x == key));
                assert(before.contains(x) <==> seen.contains(x));
                assert(now.contains(x) <==> (seen.contains(x) || x == key));
            }
            count = count + 1;
        }
    }
    proof {
        let all = keys.remaining().unref();
        assert(keys.remaining().take(count) =~= keys.remaining());
        assert forall|x: u32| ids@.to_set().contains(x) <==> sizes@.dom().contains(x) by {
            assert(all.to_set().contains(x) <==> all.contains(x));
        }
        assert(ids@.to_set() =~= sizes@.dom());
        let chosen = in_order(sizes@.dom());
        assert(ascending(chosen) && chosen.to_set() == sizes@.dom());
        lemma_ascending_unique(ids@, chosen);
    }
    ids
}

/// The file's whole text. The sizes are in product order, so the same rules
/// and names always give the same bytes.
pub fn render(rules: &CrateRules, labels: &BTreeMap<u32, String>) -> (text: String)
    ensures
        text@ == joined(rendered_lines(*rules, names_of(labels@))),
{
    let mut out = String::new();
    let ghost mut written: Seq<Seq<char>> = Seq::empty();
    push_line(&mut out, HEADER_TITLE, Ghost(written));
    proof { written = written.push(HEADER_TITLE@); }
    push_line(&mut out, HEADER_GAP, Ghost(written));
    proof { written = written.push(HEADER_GAP@); }
    push_line(&mut out, HEADER_WHO, Ghost(written));
    proof { written = written.push(HEADER_WHO@); }
    push_line(&mut out, HEADER_SIZES, Ghost(written));
    proof { written = written.push(HEADER_SIZES@); }
    push_line(&mut out, HEADER_WHOLE, Ghost(written));
    proof { written = written.push(HEADER_WHOLE@); }
    push_line(&mut out, "", Ghost(written));
    proof { written = written.push(""@); }
    let mut large = String::new();
    push_str(&mut large, "large ");
    push_str(&mut large, decimal_text(rules.large_capacity as u64).as_str());
    push_line(&mut out, large.as_str(), Ghost(written));
    proof { written = written.push(large@); }
    let mut small = String::new();
    push_str(&mut small, "small ");
    push_str(&mut small, decimal_text(rules.small_capacity as u64).as_str());
    push_line(&mut out, small.as_str(), Ghost(written));
    proof { written = written.push(small@); }
    push_line(&mut out, "", Ghost(written));
    proof { written = written.push(""@); }
    let ghost sizes = rules.size_percent@;
    let ghost names = names_of(labels@);
    if rules.size_percent.is_empty() {
        push_line(&mut out, ALL_WHOLE, Ghost(written));
        proof { written = written.push(ALL_WHOLE@); }
    } else {
        push_line(&mut out, SIZE_KEY, Ghost(written));
        proof { written = written.push(SIZE_KEY@); }
        let ids = ascending_keys(&rules.size_percent);
        let ghost start = written;
        let mut i: usize = 0;
        while i < ids.len()
            invariant
                0 <= i <= ids@.len(),
                out@ == joined(written),
                ids@ == in_order(sizes.dom()),
                ids@.to_set() == sizes.dom(),
                sizes == rules.size_percent@,
                names == names_of(labels@),
                written == start + ids@.take(i as int).map_values(
                    |id: u32| size_line(id, sizes[id], names),
                ),
            decreases ids@.len() - i,
        {
            let id = ids[i];
            proof {
                assert(ids@.to_set().contains(id));
            }
            let percent: u32 = match rules.size_percent.get(&id) {
                Some(percent) => *percent,
                None => STANDARD_SIZE,
            };
            let mut line = String::new();
            push_str(&mut line, "size ");
            push_str(&mut line, decimal_text(id as u64).as_str());
            push_str(&mut line, " ");
            push_str(&mut line, decimal_text(percent as u64).as_str());
            match label_of(labels, id) {
                Some(name) => {
                    push_str(&mut line, "   ");
                    push_str(&mut line, name.as_str());
                },
                None => {},
            }
            proof {
                assert(line@ =~= size_line(id, sizes[id], names));
            }
            push_line(&mut out, line.as_str(), Ghost(written));
            proof {
                assert(start + ids@.take(i + 1).map_values(|id: u32| size_line(id, sizes[id], names))
                    =~= written.push(line@));
                written = written.push(line@);
            }
            i = i + 1;
        }
        proof {
            assert(ids@.take(ids@.len() as int) =~= ids@);
        }
    }
    proof {
        reveal_strlit("");
        assert(""@ =~= Seq::<char>::empty());
        assert(written =~= rendered_lines(*rules, names_of(labels@)));
    }
    out
}

/// The name kept for a bread, if there is one.
fn label_of(labels: &BTreeMap<u32, String>, id: u32) -> (name: Option<&String>)
    ensures
        match name {
            Some(name) => labels@.contains_key(id) && *name == labels@[id],
            None => !labels@.contains_key(id),
        },
{
    broadcast use vstd::laws_cmp::group_laws_cmp, vstd::std_specs::btree::group_btree_axioms;
    labels.get(&id)
}

/// The text to write over a settings file that said `previous`: the rules,
/// with the names the file already had and the names the caller knows, the
/// caller's winning where both name a bread. A name already in the file
/// stays, so a size set from Monday's export is still legible after
/// Tuesday's is saved over it.
pub fn rewritten(rules: &CrateRules, previous: &str, names: &BTreeMap<u32, String>) -> (text: String)
    ensures
        text@ == joined(
            rendered_lines(*rules, labels_on(lines(previous@)).union_prefer_right(names_of(names@))),
        ),
{
    let mut labels = read_labels(previous);
    let ghost base = labels_on(lines(previous@));
    let keys = names_keys(names);
    proof {
        assert(keys@.take(0).to_set() =~= Set::<u32>::empty());
        assert(names_of(labels@) =~= base.union_prefer_right(
            names_of(names@).restrict(keys@.take(0).to_set()),
        ));
    }
    let mut i: usize = 0;
    while i < keys.len()
        invariant
            0 <= i <= keys@.len(),
            keys@.to_set() == names@.dom(),
            keys@.no_duplicates(),
            names_of(labels@) == base.union_prefer_right(
                names_of(names@).restrict(keys@.take(i as int).to_set()),
            ),
        decreases keys@.len() - i,
    {
        let id = keys[i];
        proof {
            assert(keys@.to_set().contains(id));
        }
        let ghost before = labels@;
        if let Some(name) = label_of(names, id) {
            insert_label(&mut labels, id, name.clone());
        }
        proof {
            assert(labels@ == before.insert(id, names@[id]));
            lemma_push_to_set(keys@.take(i as int), id);
            assert(keys@.take(i + 1) =~= keys@.take(i as int).push(id));
            assert(names_of(labels@) =~= names_of(before).insert(id, names@[id]@));
            let seen = keys@.take(i as int).to_set();
            assert(names_of(names@).restrict(seen.insert(id)) =~= names_of(names@).restrict(seen).insert(
                id,
                names@[id]@,
            ));
            assert(names_of(labels@) =~= base.union_prefer_right(
                names_of(names@).restrict(keys@.take(i + 1).to_set()),
            ));
        }
        i = i + 1;
    }
    proof {
        assert(keys@.take(keys@.len() as int) =~= keys@);
        assert(names_of(names@).restrict(keys@.to_set()) =~= names_of(names@));
    }
    render(rules, &labels)
}

proof fn lemma_push_to_set(s: Seq<u32>, x: u32)
    ensures
        s.push(x).to_set() == s.to_set().insert(x),
{
    assert forall|y: u32| s.push(x).to_set().contains(y) <==> s.to_set().insert(x).contains(y) by {
        if s.push(x).contains(y) {
            let k = choose|k: int| 0 <= k < s.push(x).len() && s.push(x)[k] == y;
            if k < s.len() {
                assert(s[k] == y);
            }
        }
        if s.contains(y) {
            let k = choose|k: int| 0 <= k < s.len() && s[k] == y;
            assert(s.push(x)[k] == y);
        }
        if y == x {
            assert(s.push(x)[s.len() as int] == y);
        }
    }
    assert(s.push(x).to_set() =~= s.to_set().insert(x));
}

/// The ids a map of names holds.
fn names_keys(names: &BTreeMap<u32, String>) -> (ids: Vec<u32>)
    ensures
        ids@.to_set() == names@.dom(),
        ids@.no_duplicates(),
{
    broadcast use vstd::laws_cmp::group_laws_cmp, vstd::std_specs::btree::group_btree_axioms;
    let mut ids: Vec<u32> = Vec::new();
    let keys = names.keys();
    let ghost mut count: int = 0;
    for id in it: keys
        invariant
            ids@ == keys.remaining().take(count).unref(),
            it.seq() == keys.remaining(),
            count == it.index(),
    {
        ids.push(*id);
        proof {
            assert(keys.remaining().take(count + 1).unref() =~= ids@);
            count = count + 1;
        }
    }
    proof {
        assert(keys.remaining().take(count) =~= keys.remaining());
        let r = keys.remaining();
        assert(r.unref().no_duplicates()) by {
            assert forall|a: int, b: int| 0 <= a < b < r.len() implies r.unref()[a] != r.unref()[b] by {
                assert(r[a] != r[b]);
            }
        }
    }
    ids
}

/// Appends one line and its newline.
fn push_line(out: &mut String, line: &str, Ghost(before): Ghost<Seq<Seq<char>>>)
    requires
        old(out)@ == joined(before),
    ensures
        final(out)@ == joined(before.push(line@)),
{
    push_str(out, line);
    push_char(out, '\n');
    proof {
        assert(before.push(line@).drop_last() =~= before);
    }
}

// ---------------------------------------------------------------------------
// What is written is what comes back
// ---------------------------------------------------------------------------

/// Whether a run of text fits on one line.
pub open spec fn one_line(line: Seq<char>) -> bool {
    forall|k: int| 0 <= k < line.len() ==> line[k] != '\n'
}

proof fn lemma_joined_front(a: Seq<char>, rest: Seq<Seq<char>>)
    ensures
        joined(seq![a] + rest) == a + seq!['\n'] + joined(rest),
    decreases rest.len(),
{
    let all = seq![a] + rest;
    if rest.len() == 0 {
        assert(all =~= seq![a]);
        assert(all.drop_last() =~= Seq::<Seq<char>>::empty());
        assert(joined(all) == joined(all.drop_last()) + all.last() + seq!['\n']);
        assert(joined(all.drop_last()) == Seq::<char>::empty());
        assert(joined(rest) == Seq::<char>::empty());
        assert(joined(all) =~= a + seq!['\n'] + joined(rest));
    } else {
        assert(all.drop_last() =~= seq![a] + rest.drop_last());
        assert(all.last() == rest.last());
        lemma_joined_front(a, rest.drop_last());
        assert(joined(all) == joined(all.drop_last()) + all.last() + seq!['\n']);
        assert(joined(rest) == joined(rest.drop_last()) + rest.last() + seq!['\n']);
        assert(joined(all) =~= a + seq!['\n'] + joined(rest));
    }
}

/// A line, its newline, and what follows.
proof fn lemma_lines_cons(a: Seq<char>, rest: Seq<char>)
    requires
        one_line(a),
    ensures
        lines(a + seq!['\n'] + rest) == seq![strip_cr(a)] + lines(rest),
{
    let s = a + seq!['\n'] + rest;
    let k = a.len() as int;
    assert(s[k] == '\n');
    assert forall|i: int| 0 <= i < k implies s[i] != '\n' by {
        assert(s[i] == a[i]);
    }
    lemma_newline_at(s, k);
    assert(s.take(k) =~= a);
    assert(s.skip(k + 1) =~= rest);
    reveal(lines);
}

/// Lines written with [`joined`] split back into themselves.
proof fn lemma_lines_of_joined(ls: Seq<Seq<char>>)
    requires
        forall|i: int| 0 <= i < ls.len() ==> one_line(#[trigger] ls[i]),
    ensures
        lines(joined(ls)) == ls.map_values(|l: Seq<char>| strip_cr(l)),
    decreases ls.len(),
{
    if ls.len() == 0 {
        crate::chars::lemma_lines_empty(joined(ls));
        assert(ls.map_values(|l: Seq<char>| strip_cr(l)) =~= Seq::<Seq<char>>::empty());
    } else {
        let a = ls[0];
        let rest = ls.drop_first();
        assert(ls =~= seq![a] + rest);
        lemma_joined_front(a, rest);
        assert forall|i: int| 0 <= i < rest.len() implies one_line(#[trigger] rest[i]) by {
            assert(rest[i] == ls[i + 1]);
        }
        lemma_lines_of_joined(rest);
        assert(one_line(ls[0]));
        lemma_lines_cons(a, joined(rest));
        assert(ls.map_values(|l: Seq<char>| strip_cr(l)) =~= seq![strip_cr(a)] + rest.map_values(
            |l: Seq<char>| strip_cr(l),
        ));
    }
}

/// Applying two runs of lines is applying one after the other.
proof fn lemma_apply_append(rules: Kept, a: Seq<Seq<char>>, b: Seq<Seq<char>>)
    ensures
        apply_lines(rules, a + b) == apply_lines(apply_lines(rules, a), b),
    decreases a.len(),
{
    if a.len() == 0 {
        assert(a + b =~= b);
    } else {
        assert((a + b).drop_first() =~= a.drop_first() + b);
        assert((a + b)[0] == a[0]);
        lemma_apply_append(apply_line(rules, a[0]), a.drop_first(), b);
    }
}

proof fn lemma_keywords()
    ensures
        "large"@.len() > 0 && "large"@[0] == 'l',
        "small"@.len() > 0 && "small"@[0] == 's' && "small"@ != "size"@,
        "size"@.len() > 0 && "size"@[0] == 's',
        "large "@ == "large"@ + seq![' '],
        "small "@ == "small"@ + seq![' '],
        "size "@ == "size"@ + seq![' '],
        " "@ == seq![' '],
        "   "@ == seq![' ', ' ', ' '],
        forall|i: int| 0 <= i < "large"@.len() ==> !is_white(#[trigger] "large"@[i]),
        forall|i: int| 0 <= i < "small"@.len() ==> !is_white(#[trigger] "small"@[i]),
        forall|i: int| 0 <= i < "size"@.len() ==> !is_white(#[trigger] "size"@[i]),
{
    reveal_strlit("large");
    reveal_strlit("small");
    reveal_strlit("size");
    reveal_strlit("large ");
    reveal_strlit("small ");
    reveal_strlit("size ");
    reveal_strlit(" ");
    reveal_strlit("   ");
    assert("small"@[2] != "size"@[2]);
    assert("large "@ =~= "large"@ + seq![' ']);
    assert("small "@ =~= "small"@ + seq![' ']);
    assert("size "@ =~= "size"@ + seq![' ']);
    assert(" "@ =~= seq![' ']);
    assert("   "@ =~= seq![' ', ' ', ' ']);
}

/// A line that starts with `#` changes nothing, carriage return or not.
proof fn lemma_comment(rules: Kept, line: Seq<char>)
    requires
        line.len() > 0,
        line[0] == '#',
    ensures
        apply_line(rules, strip_cr(line)) == rules,
{
    let l = strip_cr(line);
    assert(l.len() > 0 && l[0] == '#');
    lemma_first_word(l);
    lemma_keywords();
}

/// An empty line changes nothing.
proof fn lemma_blank(rules: Kept, line: Seq<char>)
    requires
        line.len() == 0,
    ensures
        apply_line(rules, strip_cr(line)) == rules,
{
    lemma_words_none(strip_cr(line));
}

/// The words of a number followed by white space and more, or by nothing.
proof fn lemma_number_lead(n: nat, rest: Seq<char>)
    requires
        rest.len() == 0 || is_white(rest[0]),
    ensures
        words(decimal(n) + rest) == seq![decimal(n)] + words(rest),
        parse_unsigned(decimal(n), u32::MAX as nat) == (if n <= u32::MAX { Some(n) } else { None::<nat> }),
{
    lemma_decimal_reads_back(n);
    lemma_digits_not_white(decimal(n));
    lemma_words_lead(decimal(n), rest);
}

/// The words of a keyword, a space, and what follows.
proof fn lemma_keyword_lead(word: Seq<char>, rest: Seq<char>)
    requires
        word.len() > 0,
        forall|i: int| 0 <= i < word.len() ==> !is_white(#[trigger] word[i]),
    ensures
        words(word + seq![' '] + rest) == seq![word] + words(rest),
{
    let tail = seq![' '] + rest;
    assert(word + seq![' '] + rest =~= word + tail);
    lemma_words_lead(word, tail);
    lemma_words_skip_white(tail, 1);
    assert(tail.skip(1) =~= rest);
}

/// `large N` and `small N` set their capacity.
proof fn lemma_capacity_lines(rules: Kept, large: u32, small: u32)
    ensures
        apply_line(rules, strip_cr("large "@ + decimal(large as nat))) == (large, rules.1, rules.2),
        apply_line(rules, strip_cr("small "@ + decimal(small as nat))) == (rules.0, small, rules.2),
{
    lemma_keywords();
    lemma_decimal_reads_back(large as nat);
    lemma_decimal_reads_back(small as nat);
    let big = "large "@ + decimal(large as nat);
    let little = "small "@ + decimal(small as nat);
    assert(is_digit_last(big)) by {
        assert(big.last() == decimal(large as nat).last());
        assert(crate::chars::is_digit(decimal(large as nat)[decimal(large as nat).len() - 1]));
    }
    assert(is_digit_last(little)) by {
        assert(little.last() == decimal(small as nat).last());
        assert(crate::chars::is_digit(decimal(small as nat)[decimal(small as nat).len() - 1]));
    }
    assert(big =~= "large"@ + seq![' '] + (decimal(large as nat) + Seq::<char>::empty()));
    assert(little =~= "small"@ + seq![' '] + (decimal(small as nat) + Seq::<char>::empty()));
    lemma_keyword_lead("large"@, decimal(large as nat) + Seq::<char>::empty());
    lemma_keyword_lead("small"@, decimal(small as nat) + Seq::<char>::empty());
    lemma_number_lead(large as nat, Seq::<char>::empty());
    lemma_number_lead(small as nat, Seq::<char>::empty());
    lemma_words_none(Seq::<char>::empty());
}

/// Whether text ends in a digit, so no carriage return can be stripped.
spec fn is_digit_last(s: Seq<char>) -> bool {
    s.len() > 0 && crate::chars::is_digit(s.last())
}

proof fn lemma_header_comments()
    ensures
        forall|i: int| 0 <= i < header_lines().len() ==> one_line(#[trigger] header_lines()[i]) && header_lines()[i].len() > 0 && header_lines()[i][0] == '#',
{
    reveal_strlit("# Breadify — how the bakery's crates work.");
    reveal_strlit("#");
    reveal_strlit("# Written by the app when you change something on the Configure step, and safe");
    reveal_strlit("# to edit by hand. Sizes are a percentage of one slot: 50 is a half, 200 takes");
    reveal_strlit("# the room of two. A bread that is not listed is a whole slot.");
    assert(one_line(HEADER_TITLE@));
    assert(one_line(HEADER_GAP@));
    assert(one_line(HEADER_WHO@));
    assert(one_line(HEADER_SIZES@));
    assert(one_line(HEADER_WHOLE@));
}

/// `ids` with `x` put where it belongs.
spec fn insert_sorted(ids: Seq<u32>, x: u32) -> Seq<u32>
    decreases ids.len(),
{
    if ids.len() == 0 {
        seq![x]
    } else if x < ids[0] {
        seq![x] + ids
    } else {
        seq![ids[0]] + insert_sorted(ids.drop_first(), x)
    }
}

proof fn lemma_insert_sorted(ids: Seq<u32>, x: u32)
    requires
        ascending(ids),
        !ids.contains(x),
    ensures
        ascending(insert_sorted(ids, x)),
        insert_sorted(ids, x).to_set() == ids.to_set().insert(x),
        insert_sorted(ids, x).len() == ids.len() + 1,
        forall|y: u32| #[trigger] insert_sorted(ids, x).contains(y) <==> (ids.contains(y) || y == x),
    decreases ids.len(),
{
    let r = insert_sorted(ids, x);
    if ids.len() == 0 {
        assert forall|y: u32| r.contains(y) <==> (ids.contains(y) || y == x) by {
            if r.contains(y) {
                assert(r[0] == y);
            }
            if y == x {
                assert(r[0] == y);
            }
        }
    } else if x < ids[0] {
        assert forall|i: int, j: int| 0 <= i < j < r.len() implies r[i] < r[j] by {
            if i > 0 {
                assert(r[i] == ids[i - 1] && r[j] == ids[j - 1]);
            } else {
                assert(r[j] == ids[j - 1]);
                assert(ids[0] <= ids[j - 1]);
            }
        }
        assert forall|y: u32| r.contains(y) <==> (ids.contains(y) || y == x) by {
            if r.contains(y) {
                let k = choose|k: int| 0 <= k < r.len() && r[k] == y;
                if k > 0 {
                    assert(ids[k - 1] == y);
                }
            }
            if ids.contains(y) {
                let k = choose|k: int| 0 <= k < ids.len() && ids[k] == y;
                assert(r[k + 1] == y);
            }
            if y == x {
                assert(r[0] == y);
            }
        }
    } else {
        let tail = ids.drop_first();
        assert(ascending(tail)) by {
            assert forall|i: int, j: int| 0 <= i < j < tail.len() implies tail[i] < tail[j] by {
                assert(tail[i] == ids[i + 1] && tail[j] == ids[j + 1]);
            }
        }
        assert(!tail.contains(x)) by {
            if tail.contains(x) {
                let k = choose|k: int| 0 <= k < tail.len() && tail[k] == x;
                assert(ids[k + 1] == x);
            }
        }
        assert(x != ids[0]) by {
            assert(ids.contains(ids[0]));
        }
        lemma_insert_sorted(tail, x);
        let rest = insert_sorted(tail, x);
        assert forall|i: int, j: int| 0 <= i < j < r.len() implies r[i] < r[j] by {
            if i > 0 {
                assert(r[i] == rest[i - 1] && r[j] == rest[j - 1]);
            } else {
                assert(r[j] == rest[j - 1]);
                assert(rest.contains(rest[j - 1]));
                if rest[j - 1] == x {
                } else {
                    let k = choose|k: int| 0 <= k < tail.len() && tail[k] == rest[j - 1];
                    assert(ids[k + 1] == tail[k]);
                }
            }
        }
        assert forall|y: u32| r.contains(y) <==> (ids.contains(y) || y == x) by {
            if r.contains(y) {
                let k = choose|k: int| 0 <= k < r.len() && r[k] == y;
                if k > 0 {
                    assert(rest[k - 1] == y);
                    assert(rest.contains(y));
                    if tail.contains(y) {
                        let m = choose|m: int| 0 <= m < tail.len() && tail[m] == y;
                        assert(ids[m + 1] == y);
                    }
                } else {
                    assert(ids[0] == y);
                }
            }
            if ids.contains(y) {
                let k = choose|k: int| 0 <= k < ids.len() && ids[k] == y;
                if k == 0 {
                    assert(r[0] == y);
                } else {
                    assert(tail[k - 1] == y);
                    assert(rest.contains(y));
                    let m = choose|m: int| 0 <= m < rest.len() && rest[m] == y;
                    assert(r[m + 1] == y);
                }
            }
            if y == x {
                assert(rest.contains(y));
                let m = choose|m: int| 0 <= m < rest.len() && rest[m] == y;
                assert(r[m + 1] == y);
            }
        }
    }
    assert(r.to_set() =~= ids.to_set().insert(x));
}

/// Every finite set of ids has an ascending run of its members.
proof fn lemma_in_order(ids: Set<u32>)
    requires
        ids.finite(),
    ensures
        ascending(in_order(ids)),
        in_order(ids).to_set() == ids,
    decreases ids.len(),
{
    let witness = order_of(ids);
    lemma_order_of(ids);
    assert(ascending(witness) && witness.to_set() == ids);
}

/// An ascending run of a finite set's members, built one member at a time.
spec fn order_of(ids: Set<u32>) -> Seq<u32>
    decreases ids.len(),
    when ids.finite()
{
    if ids.len() == 0 {
        Seq::empty()
    } else {
        let x = ids.choose();
        insert_sorted(order_of(ids.remove(x)), x)
    }
}

proof fn lemma_order_of(ids: Set<u32>)
    requires
        ids.finite(),
    ensures
        ascending(order_of(ids)),
        order_of(ids).to_set() == ids,
    decreases ids.len(),
{
    if ids.len() == 0 {
        assert(ids =~= Set::<u32>::empty());
        assert(order_of(ids).to_set() =~= ids);
    } else {
        let x = ids.choose();
        assert(ids.contains(x));
        lemma_order_of(ids.remove(x));
        let q = order_of(ids.remove(x));
        assert(!q.contains(x)) by {
            if q.contains(x) {
                assert(q.to_set().contains(x));
            }
        }
        lemma_insert_sorted(q, x);
        assert(ids.remove(x).insert(x) =~= ids);
    }
}

/// A `size` line sets the size it names.
proof fn lemma_size_line(rules: Kept, id: u32, percent: u32, labels: Map<u32, Seq<char>>)
    requires
        percent != STANDARD_SIZE,
    ensures
        apply_line(rules, strip_cr(size_line(id, percent, labels))) == (
            rules.0,
            rules.1,
            rules.2.insert(id, percent),
        ),
{
    lemma_keywords();
    let d1 = decimal(id as nat);
    let d2 = decimal(percent as nat);
    lemma_decimal_reads_back(id as nat);
    lemma_decimal_reads_back(percent as nat);
    let t = if labels.contains_key(id) {
        "   "@ + labels[id]
    } else {
        Seq::<char>::empty()
    };
    let line = size_line(id, percent, labels);
    assert(line =~= "size"@ + seq![' '] + d1 + seq![' '] + d2 + t);
    let t2 = if t.len() > 0 && line.last() == '\r' {
        t.drop_last()
    } else {
        t
    };
    assert(strip_cr(line) =~= "size"@ + seq![' '] + (d1 + (seq![' '] + (d2 + t2)))) by {
        if t.len() == 0 {
            assert(line.last() == d2.last());
            assert(crate::chars::is_digit(d2[d2.len() - 1]));
        }
    }
    assert(t2.len() == 0 || is_white(t2[0]));
    lemma_keyword_lead("size"@, d1 + (seq![' '] + (d2 + t2)));
    lemma_number_lead(id as nat, seq![' '] + (d2 + t2));
    lemma_words_skip_white(seq![' '] + (d2 + t2), 1);
    assert((seq![' '] + (d2 + t2)).skip(1) =~= d2 + t2);
    lemma_number_lead(percent as nat, t2);
    let w = words(strip_cr(line));
    assert(w =~= seq!["size"@, d1, d2] + words(t2));
    assert(w[0] != "large"@) by {
        assert(w[0][0] != "large"@[0]);
    }
}

/// The `size` lines for a run of ids set exactly those sizes.
proof fn lemma_size_lines(rules: Kept, ids: Seq<u32>, sizes: Map<u32, u32>, labels: Map<u32, Seq<char>>)
    requires
        forall|i: int| 0 <= i < ids.len() ==> #[trigger] sizes.contains_key(ids[i]) && sizes[ids[i]] != STANDARD_SIZE,
    ensures
        apply_lines(
            rules,
            ids.map_values(|id: u32| size_line(id, sizes[id], labels)).map_values(|l: Seq<char>| strip_cr(l)),
        ) == (rules.0, rules.1, rules.2.union_prefer_right(sizes.restrict(ids.to_set()))),
    decreases ids.len(),
{
    let ls = ids.map_values(|id: u32| size_line(id, sizes[id], labels)).map_values(|l: Seq<char>| strip_cr(l));
    if ids.len() == 0 {
        assert(ids.to_set() =~= Set::<u32>::empty());
        assert(rules.2.union_prefer_right(sizes.restrict(ids.to_set())) =~= rules.2);
    } else {
        let x = ids[0];
        let rest = ids.drop_first();
        assert(sizes.contains_key(ids[0]));
        lemma_size_line(rules, x, sizes[x], labels);
        let next = (rules.0, rules.1, rules.2.insert(x, sizes[x]));
        assert forall|i: int| 0 <= i < rest.len() implies #[trigger] sizes.contains_key(rest[i]) && sizes[rest[i]] != STANDARD_SIZE by {
            assert(rest[i] == ids[i + 1]);
            assert(sizes.contains_key(ids[i + 1]));
        }
        lemma_size_lines(next, rest, sizes, labels);
        assert(ls.drop_first() =~= rest.map_values(|id: u32| size_line(id, sizes[id], labels)).map_values(
            |l: Seq<char>| strip_cr(l),
        ));
        assert(ids =~= seq![x] + rest);
        assert(ids.to_set() =~= rest.to_set().insert(x)) by {
            assert forall|y: u32| ids.to_set().contains(y) <==> rest.to_set().insert(x).contains(y) by {
                if ids.contains(y) {
                    let k = choose|k: int| 0 <= k < ids.len() && ids[k] == y;
                    if k > 0 {
                        assert(rest[k - 1] == y);
                    }
                }
                if rest.contains(y) {
                    let k = choose|k: int| 0 <= k < rest.len() && rest[k] == y;
                    assert(ids[k + 1] == y);
                }
                if y == x {
                    assert(ids[0] == y);
                }
            }
        }
        assert(rules.2.insert(x, sizes[x]).union_prefer_right(sizes.restrict(rest.to_set()))
            =~= rules.2.union_prefer_right(sizes.restrict(ids.to_set())));
    }
}

/// What is written depends on the rules' values alone: two sets of rules
/// with the same crates and the same sizes write the same file, whatever
/// order their sizes happen to be held in.
pub proof fn lemma_written_from_values(first: CrateRules, second: CrateRules, labels: Map<u32, Seq<char>>)
    requires
        kept(first) == kept(second),
    ensures
        joined(rendered_lines(first, labels)) == joined(rendered_lines(second, labels)),
{
    assert(rendered_lines(first, labels) =~= rendered_lines(second, labels));
}

/// What is written is what comes back: reading the text `render` writes
/// for some rules gives those rules again, whatever names the lines carry,
/// as long as no name runs over two lines and no size is a whole slot (which
/// [`CrateRules::set_size`] never keeps).
#[verifier::spinoff_prover]
#[verifier::rlimit(40)]
pub proof fn lemma_written_reads_back(rules: CrateRules, labels: Map<u32, Seq<char>>)
    requires
        forall|id: u32| #[trigger] rules.size_percent@.contains_key(id) ==> rules.size_percent@[id] != STANDARD_SIZE,
        forall|id: u32| #[trigger] labels.contains_key(id) ==> one_line(labels[id]),
    ensures
        read_text(joined(rendered_lines(rules, labels))) == kept(rules),
{
    let sizes = rules.size_percent@;
    let ls = rendered_lines(rules, labels);
    let large = "large "@ + decimal(rules.large_capacity as nat);
    let small = "small "@ + decimal(rules.small_capacity as nat);
    let middle = seq![Seq::<char>::empty(), large, small, Seq::<char>::empty()];
    let tail = ls.skip(9);
    assert(ls =~= header_lines() + middle + tail);
    lemma_header_comments();
    lemma_keywords();
    lemma_decimal_reads_back(rules.large_capacity as nat);
    lemma_decimal_reads_back(rules.small_capacity as nat);
    lemma_in_order(sizes.dom());
    let ids = in_order(sizes.dom());
    assert(forall|i: int| 0 <= i < ids.len() ==> ids.to_set().contains(#[trigger] ids[i]));
    // Every line is one line.
    assert forall|i: int| 0 <= i < ls.len() implies one_line(#[trigger] ls[i]) by {
        if i < 5 {
            assert(ls[i] == header_lines()[i]);
        } else if i < 9 {
            reveal_strlit("large ");
            reveal_strlit("small ");
            lemma_digits_not_white(decimal(rules.large_capacity as nat));
            lemma_digits_not_white(decimal(rules.small_capacity as nat));
            assert(ls[i] == middle[i - 5]);
        } else if sizes.len() == 0 {
            reveal_strlit("# Every bread is a whole slot.");
        } else if i == 9 {
            reveal_strlit("# size <product id> <percent of one slot>   <name, for you not the app>");
        } else {
            let id = ids[i - 10];
            assert(ls[i] == size_line(id, sizes[id], labels));
            reveal_strlit("size ");
            reveal_strlit(" ");
            reveal_strlit("   ");
            lemma_decimal_reads_back(id as nat);
            lemma_decimal_reads_back(sizes[id] as nat);
            lemma_digits_not_white(decimal(id as nat));
            lemma_digits_not_white(decimal(sizes[id] as nat));
            assert(one_line(size_line(id, sizes[id], labels)));
        }
    }
    lemma_lines_of_joined(ls);
    let strip = |l: Seq<char>| strip_cr(l);
    assert(ls.map_values(strip) =~= header_lines().map_values(strip) + middle.map_values(strip)
        + tail.map_values(strip));
    lemma_apply_append(defaults(), header_lines().map_values(strip) + middle.map_values(strip), tail.map_values(strip));
    lemma_apply_append(defaults(), header_lines().map_values(strip), middle.map_values(strip));
    // The header is comments.
    assert(apply_lines(defaults(), header_lines().map_values(strip)) == defaults()) by {
        let h = header_lines().map_values(strip);
        assert forall|i: int| 0 <= i < 5 implies apply_line(defaults(), #[trigger] h[i]) == defaults() by {
            lemma_comment(defaults(), header_lines()[i]);
        }
        reveal_with_fuel(apply_lines, 6);
    }
    // Then the capacities.
    let after = (rules.large_capacity, rules.small_capacity, Map::<u32, u32>::empty());
    assert(apply_lines(defaults(), middle.map_values(strip)) == after) by {
        let m = middle.map_values(strip);
        lemma_blank(defaults(), Seq::<char>::empty());
        lemma_capacity_lines(defaults(), rules.large_capacity, rules.small_capacity);
        lemma_capacity_lines((10, rules.small_capacity, Map::empty()), rules.large_capacity, rules.small_capacity);
        lemma_blank(after, Seq::<char>::empty());
        assert(m[0] == strip_cr(Seq::<char>::empty()));
        assert(m[1] == strip_cr(large));
        assert(m[2] == strip_cr(small));
        assert(m[3] == strip_cr(Seq::<char>::empty()));
        reveal_with_fuel(apply_lines, 5);
    }
    // Then the sizes.
    if sizes.len() == 0 {
        assert(tail =~= seq![ALL_WHOLE@]);
        reveal_strlit("# Every bread is a whole slot.");
        lemma_comment(after, ALL_WHOLE@);
        assert(tail.map_values(strip) =~= seq![strip_cr(ALL_WHOLE@)]);
        reveal_with_fuel(apply_lines, 2);
        assert(sizes.dom() =~= Set::<u32>::empty());
        assert(sizes =~= Map::<u32, u32>::empty());
    } else {
        reveal_strlit("# size <product id> <percent of one slot>   <name, for you not the app>");
        let body = ids.map_values(|id: u32| size_line(id, sizes[id], labels));
        assert(tail =~= seq![SIZE_KEY@] + body);
        assert(tail.map_values(strip) =~= seq![strip_cr(SIZE_KEY@)] + body.map_values(strip));
        lemma_comment(after, SIZE_KEY@);
        lemma_apply_append(after, seq![strip_cr(SIZE_KEY@)], body.map_values(strip));
        reveal_with_fuel(apply_lines, 2);
        assert forall|i: int| 0 <= i < ids.len() implies #[trigger] sizes.contains_key(ids[i]) && sizes[ids[i]] != STANDARD_SIZE by {
            assert(ids.to_set().contains(ids[i]));
        }
        lemma_size_lines(after, ids, sizes, labels);
        assert(Map::<u32, u32>::empty().union_prefer_right(sizes.restrict(ids.to_set())) =~= sizes);
    }
}

} // verus!
