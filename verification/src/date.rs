//! The delivery date, which lives only in the filename.
//!
//! No column of the export carries a date. The exporter names its files
//! `PSR-<LIST>-<from>-to-<to>.xlsx`, and a browser that has downloaded the
//! same file twice appends ` (1)`. Anything that does not match is not an
//! error to throw at the user: it is a date to ask them for.

use vstd::prelude::*;

use crate::chars::{
    all_digits, chars_of, contains, contains_text, debug_quoted, debug_text, decimal,
    decimal_text, ends_with, find, first_occurrence, has_prefix, last_occurrence, parse_number,
    parse_unsigned, push_char, push_chars, push_str, rfind, slice_of, starts_with, trim_end,
    trimmed_end, eq_ignore_ascii_case, same_ignoring_ascii_case, digits_value, is_digit,
    lemma_decimal_reads_back, natural, occurs_at,
};

verus! {

/// A calendar day, to the precision the filename gives.
#[derive(Debug, Clone, Copy, PartialEq, Eq, Structural, PartialOrd, Ord, Hash)]
pub struct Date {
    pub year: u16,
    pub month: u8,
    pub day: u8,
}

/// The span a file covers. Every export seen so far covers a single day.
#[derive(Debug, Clone, Copy, PartialEq, Eq, Structural)]
pub struct DeliveryDates {
    pub from: Date,
    pub to: Date,
}

/// A filename that does not carry dates. The caller should ask the user for
/// the delivery date rather than treat this as a failure.
#[derive(Debug, Clone, PartialEq, Eq)]
pub struct UnnamedDates {
    pub filename: String,
}

/// `n` in decimal, with zeros in front to make it at least `width` long.
pub open spec fn padded(n: nat, width: nat) -> Seq<char> {
    let digits = decimal(n);
    if digits.len() < width {
        Seq::new((width - digits.len()) as nat, |i: int| '0') + digits
    } else {
        digits
    }
}

/// A day as ISO writes it: `2026-03-04`.
pub open spec fn iso(date: Date) -> Seq<char> {
    padded(date.year as nat, 4) + seq!['-'] + padded(date.month as nat, 2) + seq!['-'] + padded(
        date.day as nat,
        2,
    )
}

/// A span as the page shows it: one day, or `from to to`.
pub open spec fn span_text(dates: DeliveryDates) -> Seq<char> {
    if dates.from == dates.to {
        iso(dates.from)
    } else {
        iso(dates.from) + " to "@ + iso(dates.to)
    }
}

/// Writes a number in decimal, zero-padded to `width`.
fn padded_text(n: u64, width: usize) -> (text: String)
    ensures
        text@ == padded(n as nat, width as nat),
{
    let digits = decimal_text(n);
    let chars = chars_of(digits.as_str());
    let mut text = String::new();
    if chars.len() < width {
        let zeros: usize = width - chars.len();
        let mut i: usize = 0;
        while i < zeros
            invariant
                0 <= i <= zeros,
                text@ == Seq::new(i as nat, |k: int| '0'),
            decreases zeros - i,
        {
            push_char(&mut text, '0');
            proof {
                assert(text@ =~= Seq::new((i + 1) as nat, |k: int| '0'));
            }
            i = i + 1;
        }
    }
    push_str(&mut text, digits.as_str());
    text
}

impl Date {
    /// ISO, which is how the printed page shows a day.
    pub fn to_text(&self) -> (text: String)
        ensures
            text@ == iso(*self),
    {
        let mut text = padded_text(self.year as u64, 4);
        push_char(&mut text, '-');
        push_str(&mut text, padded_text(self.month as u64, 2).as_str());
        push_char(&mut text, '-');
        push_str(&mut text, padded_text(self.day as u64, 2).as_str());
        text
    }
}

impl DeliveryDates {
    /// Whether both ends are the same day, which is the ordinary case.
    pub fn is_single_day(&self) -> (single: bool)
        ensures
            single == (self.from == self.to),
    {
        self.from == self.to
    }

    /// The span as the page shows it: `2026-03-04`, or
    /// `2026-03-04 to 2026-03-06`.
    pub fn to_text(&self) -> (text: String)
        ensures
            text@ == span_text(*self),
    {
        if self.is_single_day() {
            return self.from.to_text();
        }
        let mut text = self.from.to_text();
        push_str(&mut text, " to ");
        push_str(&mut text, self.to.to_text().as_str());
        text
    }
}

impl UnnamedDates {
    /// What to tell the user.
    pub fn to_text(&self) -> (text: String)
        ensures
            text@ == debug_text(self.filename@)
                + " does not look like an export: expected PSR-BREAD-<from>-to-<to>.xlsx"@,
    {
        let mut text = debug_quoted(self.filename.as_str());
        push_str(&mut text, " does not look like an export: expected PSR-BREAD-<from>-to-<to>.xlsx");
        text
    }
}

/// A filename without its extension: everything before the last dot.
pub open spec fn stem_of(filename: Seq<char>) -> Seq<char> {
    match last_occurrence(filename, seq!['.']) {
        Some(i) => filename.take(i),
        None => filename,
    }
}

/// A stem without the ` (1)` a browser adds to a second download, and
/// without trailing white space.
pub open spec fn without_download_suffix(stem: Seq<char>) -> Seq<char> {
    let t = trim_end(stem);
    match last_occurrence(t, seq![' ', '(']) {
        Some(open) => {
            let inside = t.skip(open + 2);
            if ends_with(inside, seq![')']) && inside.len() > 1 && all_digits(inside.drop_last()) {
                trim_end(t.take(open))
            } else {
                t
            }
        },
        None => t,
    }
}

/// The word after `PSR-` that says which list a file is, if the name has one.
pub open spec fn list_word_of(name: Seq<char>) -> Option<Seq<char>> {
    if starts_with(name, "PSR-"@) {
        let rest = name.skip(4);
        match first_occurrence(rest, seq!['-']) {
            Some(k) => if k > 0 {
                Some(rest.take(k))
            } else {
                None
            },
            None => None,
        }
    } else {
        None
    }
}

/// A plausible calendar day from its three numbers.
pub open spec fn calendar_day(year: Seq<char>, month: Seq<char>, day: Seq<char>) -> Option<Date> {
    match (parse_unsigned(year, 65535), parse_unsigned(month, 255), parse_unsigned(day, 255)) {
        (Some(y), Some(m), Some(d)) => if 1 <= m <= 12 && 1 <= d <= 31 {
            Some(Date { year: y as u16, month: m as u8, day: d as u8 })
        } else {
            None
        },
        _ => None,
    }
}

/// `2026-03-04`: exactly three numbers between dashes, a plausible day.
pub open spec fn date_of(text: Seq<char>) -> Option<Date> {
    match first_occurrence(text, seq!['-']) {
        Some(a) => {
            let rest = text.skip(a + 1);
            match first_occurrence(rest, seq!['-']) {
                Some(b) => {
                    let day = rest.skip(b + 1);
                    if contains_text(day, seq!['-']) {
                        None
                    } else {
                        calendar_day(text.take(a), rest.take(b), day)
                    }
                },
                None => None,
            }
        },
        None => None,
    }
}

/// `PSR-BREAD-2026-03-04-to-2026-03-04` -> the two dates.
pub open spec fn dates_of(stem: Seq<char>) -> Option<DeliveryDates> {
    match list_word_of(stem) {
        Some(word) => {
            let dates = stem.skip(word.len() + 5int);
            match first_occurrence(dates, "-to-"@) {
                Some(j) => match (date_of(dates.take(j)), date_of(dates.skip(j + 4))) {
                    (Some(from), Some(to)) => Some(DeliveryDates { from, to }),
                    _ => None,
                },
                None => None,
            }
        },
        None => None,
    }
}

/// Reads the delivery dates out of an export's filename.
///
/// A name that does not carry two dates gives back [`UnnamedDates`], which
/// means asking the user, not giving up.
pub fn from_filename(filename: &str) -> (dates: Result<DeliveryDates, UnnamedDates>)
    ensures
        match dates_of(without_download_suffix(stem_of(filename@))) {
            Some(d) => dates == Ok::<DeliveryDates, UnnamedDates>(d),
            None => dates matches Err(e) && e.filename@ == filename@,
        },
{
    let name = chars_of(filename);
    let bare = stem(name.as_slice());
    let kept = strip_download_suffix(bare.as_slice());
    match parse_stem(kept.as_slice()) {
        Some(dates) => Ok(dates),
        None => {
            let mut owned = String::new();
            push_str(&mut owned, filename);
            Err(UnnamedDates { filename: owned })
        },
    }
}

/// Whether a file's name is a bread export's: `PSR-BREAD-….xlsx`.
pub fn is_export(name: &str) -> (export: bool)
    ensures
        export == (starts_with(name@, "PSR-BREAD-"@) && ends_with(name@, ".xlsx"@)),
{
    let text = chars_of(name);
    let prefix = chars_of("PSR-BREAD-");
    let suffix = chars_of(".xlsx");
    has_prefix(text.as_slice(), prefix.as_slice()) && crate::chars::has_suffix(text.as_slice(), suffix.as_slice())
}

/// The word after `PSR-` in a filename, which says which list it is.
pub fn list_word(filename: &str) -> (word: Option<String>)
    ensures
        match list_word_of(filename@) {
            Some(w) => word matches Some(s) && s@ == w,
            None => word is None,
        },
{
    let name = chars_of(filename);
    match word_end(name.as_slice()) {
        Some(end) => {
            let word = slice_of(name.as_slice(), 4, end);
            let mut text = String::new();
            push_chars(&mut text, word.as_slice());
            proof {
                assert(name@ == filename@);
                assert(list_word_of(name@) is Some);
                let w = list_word_of(name@)->0;
                assert(end == w.len() + 4);
                assert(word@ == w);
                assert(text@ =~= w);
            }
            Some(text)
        },
        None => None,
    }
}

/// Where the list word after `PSR-` ends, if there is one.
fn word_end(name: &[char]) -> (end: Option<usize>)
    ensures
        match list_word_of(name@) {
            Some(w) => end matches Some(e) && e == w.len() + 4 && w == name@.subrange(4, w.len() + 4int),
            None => end is None,
        },
        match end {
            Some(e) => 4 < e < name@.len() && name@[e as int] == '-',
            None => true,
        },
{
    let prefix = chars_of("PSR-");
    proof {
        reveal_strlit("PSR-");
    }
    if !has_prefix(name, prefix.as_slice()) {
        return None;
    }
    let rest = slice_of(name, 4, name.len());
    proof {
        assert(rest@ =~= name@.skip(4));
    }
    match find(rest.as_slice(), one('-').as_slice()) {
        Some(k) => {
            proof {
                assert(first_occurrence(rest@, seq!['-']) == Some(k as int));
            }
            if k > 0 {
                proof {
                    assert(rest@.take(k as int) =~= name@.subrange(4, k + 4));
                    assert(crate::chars::occurs_at(rest@, seq!['-'], k as int));
                    assert(rest@.subrange(k as int, k + 1)[0] == rest@[k as int]);
                }
                Some(k + 4)
            } else {
                None
            }
        },
        None => None,
    }
}

/// `PSR-BREAD-2026-03-04-to-2026-03-04 (1).xlsx` -> `PSR-BREAD-…-to-… (1)`.
fn stem(filename: &[char]) -> (s: Vec<char>)
    ensures
        s@ == stem_of(filename@),
{
    match rfind(filename, one('.').as_slice()) {
        Some(i) => slice_of(filename, 0, i),
        None => slice_of(filename, 0, filename.len()),
    }
}

/// A run of one character.
fn one(c: char) -> (v: Vec<char>)
    ensures
        v@ == seq![c],
{
    let mut v: Vec<char> = Vec::new();
    v.push(c);
    proof {
        assert(v@ =~= seq![c]);
    }
    v
}

/// ` (`, which opens a browser's duplicate marker.
fn space_paren() -> (v: Vec<char>)
    ensures
        v@ == seq![' ', '('],
{
    let mut v: Vec<char> = Vec::new();
    v.push(' ');
    v.push('(');
    proof {
        assert(v@ =~= seq![' ', '(']);
    }
    v
}

/// Drops a browser's ` (1)` duplicate marker.
fn strip_download_suffix(stem: &[char]) -> (s: Vec<char>)
    ensures
        s@ == without_download_suffix(stem@),
{
    let end = trimmed_end(stem);
    let trimmed = slice_of(stem, 0, end);
    proof {
        assert(trimmed@ =~= trim_end(stem@));
    }
    let open = match rfind(trimmed.as_slice(), space_paren().as_slice()) {
        Some(open) => open,
        None => return trimmed,
    };
    let inside = slice_of(trimmed.as_slice(), open + 2, trimmed.len());
    proof {
        assert(inside@ =~= trimmed@.skip(open + 2));
    }
    if !crate::chars::has_suffix(inside.as_slice(), one(')').as_slice()) || inside.len() <= 1 {
        return trimmed;
    }
    let number = slice_of(inside.as_slice(), 0, inside.len() - 1);
    proof {
        assert(number@ =~= inside@.drop_last());
    }
    if !crate::chars::only_digits(number.as_slice()) {
        return trimmed;
    }
    let head = slice_of(trimmed.as_slice(), 0, open);
    let cut = trimmed_end(head.as_slice());
    let out = slice_of(head.as_slice(), 0, cut);
    proof {
        assert(head@ =~= trimmed@.take(open as int));
        assert(out@ =~= trim_end(head@));
    }
    out
}

/// `PSR-BREAD-2026-03-04-to-2026-03-04` -> the two dates.
fn parse_stem(stem: &[char]) -> (dates: Option<DeliveryDates>)
    ensures
        dates == dates_of(stem@),
{
    let end = match word_end(stem) {
        Some(end) => end,
        None => return None,
    };
    let ghost word = list_word_of(stem@)->0;
    let length = stem.len();
    assert(end < length);
    let dates = slice_of(stem, end + 1, length);
    proof {
        assert(dates@ =~= stem@.skip(word.len() + 5int));
    }
    let (from_text, to_text) = match split_span(dates.as_slice()) {
        Some(parts) => parts,
        None => return None,
    };
    let from = parse_date(from_text.as_slice());
    let to = parse_date(to_text.as_slice());
    match (from, to) {
        (Some(from), Some(to)) => Some(DeliveryDates { from, to }),
        _ => None,
    }
}

/// The two sides of the first `-to-`, if there is one.
fn split_span(dates: &[char]) -> (parts: Option<(Vec<char>, Vec<char>)>)
    ensures
        match first_occurrence(dates@, "-to-"@) {
            Some(j) => parts matches Some((a, b)) && a@ == dates@.take(j) && b@ == dates@.skip(j + 4),
            None => parts is None,
        },
{
    let separator = chars_of("-to-");
    proof {
        reveal_strlit("-to-");
    }
    let j = match find(dates, separator.as_slice()) {
        Some(j) => j,
        None => return None,
    };
    proof {
        assert(crate::chars::occurs_at(dates@, "-to-"@, j as int));
    }
    let length = dates.len();
    assert(j + 4 <= length);
    let from_text = slice_of(dates, 0, j);
    let to_text = slice_of(dates, j + 4, length);
    proof {
        assert(from_text@ =~= dates@.take(j as int));
        assert(to_text@ =~= dates@.skip(j + 4));
    }
    Some((from_text, to_text))
}

/// `2026-03-04`, rejecting anything that is not a plausible calendar day.
fn parse_date(text: &[char]) -> (date: Option<Date>)
    ensures
        date == date_of(text@),
{
    let dash = one('-');
    let a = match find(text, dash.as_slice()) {
        Some(a) => a,
        None => return None,
    };
    proof {
        assert(first_occurrence(text@, seq!['-']) == Some(a as int));
        assert(crate::chars::occurs_at(text@, seq!['-'], a as int));
        assert(seq!['-'].len() == 1);
        assert(a + 1 <= text@.len());
    }
    let length = text.len();
    assert(a < length);
    let rest = slice_of(text, a + 1, length);
    proof {
        assert(rest@ =~= text@.skip(a + 1));
    }
    let b = match find(rest.as_slice(), dash.as_slice()) {
        Some(b) => b,
        None => return None,
    };
    proof {
        assert(first_occurrence(rest@, seq!['-']) == Some(b as int));
        assert(crate::chars::occurs_at(rest@, seq!['-'], b as int));
    }
    let day_text = slice_of(rest.as_slice(), b + 1, rest.len());
    proof {
        assert(day_text@ =~= rest@.skip(b + 1));
    }
    if contains(day_text.as_slice(), dash.as_slice()) {
        return None;
    }
    let year_text = slice_of(text, 0, a);
    let month_text = slice_of(rest.as_slice(), 0, b);
    proof {
        assert(year_text@ =~= text@.take(a as int));
        assert(month_text@ =~= rest@.take(b as int));
    }
    let year = parse_number(year_text.as_slice(), 65535);
    let month = parse_number(month_text.as_slice(), 255);
    let day = parse_number(day_text.as_slice(), 255);
    match (year, month, day) {
        (Some(y), Some(m), Some(d)) => {
            if 1 <= m && m <= 12 && 1 <= d && d <= 31 {
                Some(Date { year: y as u16, month: m as u8, day: d as u8 })
            } else {
                None
            }
        },
        _ => None,
    }
}

/// The two exports this app reads.
#[derive(Debug, Clone, Copy, PartialEq, Eq, Structural)]
pub enum ExportKind {
    /// `PSR-BREAD-…`: the bread list, packed in crates.
    Bread,
    /// `PSR-FREEZER-…`: the freezer list, which arrives packed.
    Freezer,
}

/// Which of the two exports a filename names, whatever its case, if either.
pub open spec fn export_kind_of(name: Seq<char>) -> Option<ExportKind> {
    match list_word_of(name) {
        Some(w) => if same_ignoring_ascii_case(w, "bread"@) {
            Some(ExportKind::Bread)
        } else if same_ignoring_ascii_case(w, "freezer"@) {
            Some(ExportKind::Freezer)
        } else {
            None
        },
        None => None,
    }
}

/// Which export a file is, by the word after `PSR-` in its name; nothing for
/// a name that does not say, or names a list that is neither.
pub fn export_kind(filename: &str) -> (kind: Option<ExportKind>)
    ensures
        kind == export_kind_of(filename@),
{
    match list_word(filename) {
        Some(word) => {
            let text = chars_of(word.as_str());
            let bread = chars_of("bread");
            if eq_ignore_ascii_case(text.as_slice(), bread.as_slice()) {
                return Some(ExportKind::Bread);
            }
            let freezer = chars_of("freezer");
            if eq_ignore_ascii_case(text.as_slice(), freezer.as_slice()) {
                return Some(ExportKind::Freezer);
            }
            None
        },
        None => None,
    }
}

/// Zeros in front of a number do not change it.
proof fn lemma_leading_zeros(k: nat, s: Seq<char>)
    ensures
        digits_value(Seq::new(k, |i: int| '0') + s) == digits_value(s),
    decreases s.len(), k,
{
    let z = Seq::new(k, |i: int| '0');
    if s.len() > 0 {
        lemma_leading_zeros(k, s.drop_last());
        assert((z + s).drop_last() =~= z + s.drop_last());
        assert((z + s).last() == s.last());
    } else {
        assert(z + s =~= z);
        if k > 0 {
            lemma_leading_zeros((k - 1) as nat, s);
            assert(z.drop_last() =~= Seq::new((k - 1) as nat, |i: int| '0') + s);
            assert(z.last() == '0');
        }
    }
}

/// A number written zero-padded is digits alone and reads back as itself.
proof fn lemma_padded_reads_back(n: nat, width: nat)
    ensures
        padded(n, width).len() > 0,
        all_digits(padded(n, width)),
        natural(padded(n, width)) == Some(n),
        !contains_text(padded(n, width), seq!['-']),
{
    lemma_decimal_reads_back(n);
    let digits = decimal(n);
    let p = padded(n, width);
    if digits.len() < width {
        lemma_leading_zeros((width - digits.len()) as nat, digits);
        assert forall|i: int| 0 <= i < p.len() implies is_digit(#[trigger] p[i]) by {
            if i >= width - digits.len() {
                assert(p[i] == digits[i - (width - digits.len())]);
            }
        }
    }
    assert(p[0] != '+');
    lemma_digits_have_no_dash(p);
}

/// Digits hold no dash.
proof fn lemma_digits_have_no_dash(s: Seq<char>)
    requires
        all_digits(s),
    ensures
        !contains_text(s, seq!['-']),
{
    if contains_text(s, seq!['-']) {
        let i = choose|i: int| occurs_at(s, seq!['-'], i);
        assert(s.subrange(i, i + 1)[0] == s[i]);
        assert(is_digit(s[i]));
    }
}

/// The first dash after a run of digits is the one that ends it.
proof fn lemma_first_dash(a: Seq<char>, b: Seq<char>)
    requires
        all_digits(a),
    ensures
        first_occurrence(a + seq!['-'] + b, seq!['-']) == Some(a.len() as int),
{
    let t = a + seq!['-'] + b;
    let dash = seq!['-'];
    assert(t.subrange(a.len() as int, a.len() + 1int) =~= dash);
    assert(occurs_at(t, dash, a.len() as int));
    assert forall|j: int| 0 <= j < a.len() implies !occurs_at(t, dash, j) by {
        assert(t[j] == a[j]);
        assert(t.subrange(j, j + 1)[0] == t[j]);
    }
    let i = choose|i: int| occurs_at(t, dash, i) && forall|j: int| 0 <= j < i ==> !occurs_at(t, dash, j);
    if i > a.len() {
        assert(!occurs_at(t, dash, a.len() as int));
    }
}

/// A day written as the exporter writes it, `YYYY-MM-DD`, reads back as that
/// day, for every month of the year and every day up to the 31st.
#[verifier::rlimit(40)]
pub proof fn lemma_iso_reads_back(date: Date)
    requires
        1 <= date.month <= 12,
        1 <= date.day <= 31,
    ensures
        date_of(iso(date)) == Some(date),
{
    let y = padded(date.year as nat, 4);
    let m = padded(date.month as nat, 2);
    let d = padded(date.day as nat, 2);
    lemma_padded_reads_back(date.year as nat, 4);
    lemma_padded_reads_back(date.month as nat, 2);
    lemma_padded_reads_back(date.day as nat, 2);
    let dash = seq!['-'];
    let text = iso(date);
    assert(text =~= y + dash + (m + dash + d));
    lemma_first_dash(y, m + dash + d);
    let rest = text.skip(y.len() + 1int);
    assert(rest =~= m + dash + d);
    assert(text.take(y.len() as int) =~= y);
    lemma_first_dash(m, d);
    assert(rest.skip(m.len() + 1int) =~= d);
    assert(rest.take(m.len() as int) =~= m);
    assert(calendar_day(y, m, d) == Some(date));
    assert(date_of(text) == calendar_day(y, m, d));
}

/// Where a pattern first occurs, given a place where it occurs and none
/// before.
proof fn lemma_first_at(t: Seq<char>, p: Seq<char>, i: int)
    requires
        occurs_at(t, p, i),
        forall|j: int| 0 <= j < i ==> !occurs_at(t, p, j),
    ensures
        first_occurrence(t, p) == Some(i),
{
    let c = choose|c: int| occurs_at(t, p, c) && forall|j: int| 0 <= j < c ==> !occurs_at(t, p, j);
    if c < i {
        assert(!occurs_at(t, p, c));
    } else if c > i {
        assert(!occurs_at(t, p, i));
    }
}

/// Where a pattern last occurs, given a place where it occurs and none
/// after.
proof fn lemma_last_at(t: Seq<char>, p: Seq<char>, i: int)
    requires
        occurs_at(t, p, i),
        forall|j: int| i < j ==> !occurs_at(t, p, j),
    ensures
        last_occurrence(t, p) == Some(i),
{
    let c = choose|c: int| occurs_at(t, p, c) && forall|j: int| c < j ==> !occurs_at(t, p, j);
    if c < i {
        assert(!occurs_at(t, p, i));
    } else if c > i {
        assert(!occurs_at(t, p, c));
    }
}

/// A pattern whose first character a text never holds does not occur in it.
proof fn lemma_absent(t: Seq<char>, p: Seq<char>)
    requires
        p.len() > 0,
        forall|i: int| 0 <= i < t.len() ==> t[i] != p[0],
    ensures
        !contains_text(t, p),
{
    if contains_text(t, p) {
        let i = choose|i: int| occurs_at(t, p, i);
        assert(t.subrange(i, i + p.len())[0] == t[i]);
    }
}

/// A day as ISO writes it holds only digits and dashes, and ends in a digit.
proof fn lemma_iso_chars(date: Date)
    ensures
        forall|i: int| 0 <= i < iso(date).len() ==> is_digit(#[trigger] iso(date)[i]) || iso(date)[i] == '-',
        iso(date).len() > 0,
        is_digit(iso(date).last()),
{
    let y = padded(date.year as nat, 4);
    let m = padded(date.month as nat, 2);
    let d = padded(date.day as nat, 2);
    lemma_padded_reads_back(date.year as nat, 4);
    lemma_padded_reads_back(date.month as nat, 2);
    lemma_padded_reads_back(date.day as nat, 2);
    let t = iso(date);
    assert forall|i: int| 0 <= i < t.len() implies is_digit(#[trigger] t[i]) || t[i] == '-' by {
        if i < y.len() {
            assert(t[i] == y[i]);
        } else if i == y.len() {
        } else if i < y.len() + 1 + m.len() {
            assert(t[i] == m[i - y.len() - 1]);
        } else if i == y.len() + 1 + m.len() {
        } else {
            assert(t[i] == d[i - y.len() - 2 - m.len()]);
        }
    }
    assert(t.last() == d.last());
}

/// A file's name without its extension as the exporter writes it:
/// `PSR-<LIST>-<from>-to-<to>`.
pub open spec fn export_stem(word: Seq<char>, from: Date, to: Date) -> Seq<char> {
    "PSR-"@ + word + "-"@ + (iso(from) + "-to-"@ + iso(to))
}

/// The name the exporter gives a file, `PSR-<LIST>-<from>-to-<to>.xlsx`.
pub open spec fn export_name(word: Seq<char>, from: Date, to: Date) -> Seq<char> {
    export_stem(word, from, to) + ".xlsx"@
}

/// An export's stem holds neither a dot nor a space, and ends in a digit.
proof fn lemma_stem_plain(word: Seq<char>, from: Date, to: Date)
    requires
        forall|i: int| 0 <= i < word.len() ==> 'A' <= #[trigger] word[i] <= 'Z',
    ensures
        forall|i: int|
            0 <= i < export_stem(word, from, to).len() ==> #[trigger] export_stem(word, from, to)[i]
                != '.' && export_stem(word, from, to)[i] != ' ',
        export_stem(word, from, to).len() > 0,
        is_digit(export_stem(word, from, to).last()),
{
    reveal_strlit("PSR-");
    reveal_strlit("-");
    reveal_strlit("-to-");
    lemma_iso_chars(from);
    lemma_iso_chars(to);
    let a = iso(from);
    let b = iso(to);
    let stem = export_stem(word, from, to);
    assert forall|i: int| 0 <= i < stem.len() implies #[trigger] stem[i] != '.' && stem[i] != ' ' by {
        if i < 4 {
        } else if i < 4 + word.len() {
            assert(stem[i] == word[i - 4]);
        } else if i == 4 + word.len() {
        } else if i < 5 + word.len() + a.len() {
            assert(stem[i] == a[i - 5 - word.len()]);
        } else if i < 9 + word.len() + a.len() {
        } else {
            assert(stem[i] == b[i - 9 - word.len() - a.len()]);
        }
    }
    assert(stem.last() == b.last());
}

/// An export's name loses its extension and nothing else.
proof fn lemma_export_stem(word: Seq<char>, from: Date, to: Date)
    requires
        forall|i: int| 0 <= i < word.len() ==> 'A' <= #[trigger] word[i] <= 'Z',
    ensures
        without_download_suffix(stem_of(export_name(word, from, to))) == export_stem(word, from, to),
{
    reveal_strlit(".xlsx");
    lemma_stem_plain(word, from, to);
    let stem = export_stem(word, from, to);
    let name = export_name(word, from, to);
    let dot = seq!['.'];
    assert(name.subrange(stem.len() as int, stem.len() + 1int) =~= dot);
    assert forall|j: int| stem.len() < j implies !occurs_at(name, dot, j) by {
        if occurs_at(name, dot, j) {
            assert(name.subrange(j, j + 1)[0] == name[j]);
            assert(name[j] == ".xlsx"@[j - stem.len()]);
        }
    }
    lemma_last_at(name, dot, stem.len() as int);
    assert(name.take(stem.len() as int) =~= stem);
    assert(crate::chars::trailing_white(stem) == 0);
    assert(trim_end(stem) =~= stem);
    lemma_absent(stem, seq![' ', '(']);
}

/// The list word of a name that starts `PSR-<WORD>-`, and what follows it.
proof fn lemma_export_stem_word(word: Seq<char>, dates: Seq<char>)
    requires
        word.len() > 0,
        forall|i: int| 0 <= i < word.len() ==> 'A' <= #[trigger] word[i] <= 'Z',
    ensures
        list_word_of("PSR-"@ + word + "-"@ + dates) == Some(word),
        ("PSR-"@ + word + "-"@ + dates).skip(word.len() + 5int) == dates,
{
    reveal_strlit("PSR-");
    reveal_strlit("-");
    let stem = "PSR-"@ + word + "-"@ + dates;
    assert(stem.take(4) =~= "PSR-"@);
    let rest = stem.skip(4);
    assert(rest =~= word + seq!['-'] + dates);
    lemma_first_dash_after_word(word, dates);
    assert(rest.take(word.len() as int) =~= word);
    assert(stem.skip(word.len() + 5int) =~= dates);
}

/// The two days of an export's name split at the first `-to-`.
proof fn lemma_export_days(from: Date, to: Date)
    ensures
        first_occurrence(iso(from) + "-to-"@ + iso(to), "-to-"@) == Some(iso(from).len() as int),
{
    reveal_strlit("-to-");
    lemma_iso_chars(from);
    let a = iso(from);
    let b = iso(to);
    let sep = "-to-"@;
    let dates = a + sep + b;
    assert(dates.subrange(a.len() as int, a.len() + 4int) =~= sep);
    assert forall|j: int| 0 <= j < a.len() implies !occurs_at(dates, sep, j) by {
        if occurs_at(dates, sep, j) {
            assert(dates.subrange(j, j + 4)[1] == dates[j + 1]);
            if j + 1 < a.len() {
                assert(dates[j + 1] == a[j + 1]);
            } else {
                assert(dates[j + 1] == '-');
            }
        }
    }
    lemma_first_at(dates, sep, a.len() as int);
}

/// Two days either side of `-to-`, after a list word, read as those days.
#[verifier::rlimit(100)]
proof fn lemma_dates_from_parts(word: Seq<char>, a: Seq<char>, b: Seq<char>, from: Date, to: Date)
    requires
        word.len() > 0,
        forall|i: int| 0 <= i < word.len() ==> 'A' <= #[trigger] word[i] <= 'Z',
        first_occurrence(a + "-to-"@ + b, "-to-"@) == Some(a.len() as int),
        date_of(a) == Some(from),
        date_of(b) == Some(to),
    ensures
        dates_of("PSR-"@ + word + "-"@ + (a + "-to-"@ + b)) == Some(DeliveryDates { from, to }),
{
    reveal_strlit("-to-");
    let dates = a + "-to-"@ + b;
    lemma_export_stem_word(word, dates);
    assert(dates.take(a.len() as int) =~= a);
    assert(dates.skip(a.len() + 4int) =~= b);
}

/// An export's stem reads as its two days.
proof fn lemma_export_stem_dates(word: Seq<char>, from: Date, to: Date)
    requires
        word.len() > 0,
        forall|i: int| 0 <= i < word.len() ==> 'A' <= #[trigger] word[i] <= 'Z',
        1 <= from.month <= 12,
        1 <= from.day <= 31,
        1 <= to.month <= 12,
        1 <= to.day <= 31,
    ensures
        dates_of(export_stem(word, from, to)) == Some(DeliveryDates { from, to }),
{
    lemma_export_days(from, to);
    lemma_iso_reads_back(from);
    lemma_iso_reads_back(to);
    lemma_dates_from_parts(word, iso(from), iso(to), from, to);
}

/// A file named as the exporter names it, `PSR-<LIST>-<from>-to-<to>.xlsx`
/// with a list word of capital letters, reads back as the days it was named
/// for: [`from_filename`] gives exactly those, for every month of the year
/// and every day up to the 31st.
pub proof fn lemma_export_name_reads_back(word: Seq<char>, from: Date, to: Date)
    requires
        word.len() > 0,
        forall|i: int| 0 <= i < word.len() ==> 'A' <= #[trigger] word[i] <= 'Z',
        1 <= from.month <= 12,
        1 <= from.day <= 31,
        1 <= to.month <= 12,
        1 <= to.day <= 31,
    ensures
        dates_of(without_download_suffix(stem_of(export_name(word, from, to)))) == Some(
            DeliveryDates { from, to },
        ),
{
    lemma_export_stem(word, from, to);
    lemma_export_stem_dates(word, from, to);
}

/// The first dash after a word of letters is the one that ends it.
proof fn lemma_first_dash_after_word(word: Seq<char>, tail: Seq<char>)
    requires
        forall|i: int| 0 <= i < word.len() ==> 'A' <= #[trigger] word[i] <= 'Z',
    ensures
        first_occurrence(word + seq!['-'] + tail, seq!['-']) == Some(word.len() as int),
{
    let t = word + seq!['-'] + tail;
    let dash = seq!['-'];
    assert(t.subrange(word.len() as int, word.len() + 1int) =~= dash);
    assert forall|j: int| 0 <= j < word.len() implies !occurs_at(t, dash, j) by {
        assert(t[j] == word[j]);
        assert(t.subrange(j, j + 1)[0] == t[j]);
    }
    lemma_first_at(t, dash, word.len() as int);
}

} // verus!
