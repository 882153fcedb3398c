//! Text as sequences of characters: reading it, cutting it up, and writing
//! numbers into it.
//!
//! Every parser in the crate works on the characters of its input, so what it
//! accepts is stated over `Seq<char>` and proved, rather than left to how a
//! string method happens to behave.

use vstd::prelude::*;

verus! {

// ---------------------------------------------------------------------------
// Classes of character
// ---------------------------------------------------------------------------

/// Unicode's `White_Space` property: the characters `char::is_whitespace`
/// answers `true` for, which is what splitting on whitespace and trimming
/// use.
pub open spec fn is_white(c: char) -> bool {
    ||| ('\u{9}' <= c && c <= '\u{d}')
    ||| c == ' '
    ||| c == '\u{85}'
    ||| c == '\u{a0}'
    ||| c == '\u{1680}'
    ||| ('\u{2000}' <= c && c <= '\u{200a}')
    ||| c == '\u{2028}'
    ||| c == '\u{2029}'
    ||| c == '\u{202f}'
    ||| c == '\u{205f}'
    ||| c == '\u{3000}'
}

/// An ASCII decimal digit.
pub open spec fn is_digit(c: char) -> bool {
    '0' <= c && c <= '9'
}

/// The value of an ASCII digit.
pub open spec fn digit_value(c: char) -> nat {
    (c as int - '0' as int) as nat
}

/// The character for a value below ten.
pub open spec fn digit_char(d: nat) -> char {
    (d + '0' as nat) as char
}

/// Whether a character is white space.
pub fn white(c: char) -> (b: bool)
    ensures
        b == is_white(c),
{
    ('\u{9}' <= c && c <= '\u{d}') || c == ' ' || c == '\u{85}' || c == '\u{a0}' || c
        == '\u{1680}' || ('\u{2000}' <= c && c <= '\u{200a}') || c == '\u{2028}' || c
        == '\u{2029}' || c == '\u{202f}' || c == '\u{205f}' || c == '\u{3000}'
}

/// Whether a character is an ASCII digit.
pub fn digit(c: char) -> (b: bool)
    ensures
        b == is_digit(c),
{
    '0' <= c && c <= '9'
}

/// ASCII letters folded to lower case; everything else unchanged.
pub open spec fn ascii_lower(c: char) -> char {
    if 'A' <= c && c <= 'Z' {
        ((c as int) + 32) as char
    } else {
        c
    }
}

/// `str::eq_ignore_ascii_case`: equal once ASCII letters are folded.
pub open spec fn same_ignoring_ascii_case(a: Seq<char>, b: Seq<char>) -> bool {
    &&& a.len() == b.len()
    &&& forall|i: int| 0 <= i < a.len() ==> ascii_lower(#[trigger] a[i]) == ascii_lower(b[i])
}

fn lower_ascii(c: char) -> (l: char)
    ensures
        l == ascii_lower(c),
{
    if 'A' <= c && c <= 'Z' {
        let code: u8 = c as u8;
        assert(code == c as int);
        (code + 32) as char
    } else {
        c
    }
}

/// The character for a decimal digit.
fn digit_of(d: u64) -> (c: char)
    requires
        d < 10,
    ensures
        c == digit_char(d as nat),
        is_digit(c),
{
    let code: u8 = 48 + d as u8;
    code as char
}

/// Whether two runs of text are equal once ASCII letters are folded.
pub fn eq_ignore_ascii_case(a: &[char], b: &[char]) -> (same: bool)
    ensures
        same == same_ignoring_ascii_case(a@, b@),
{
    if a.len() != b.len() {
        return false;
    }
    let mut i: usize = 0;
    while i < a.len()
        invariant
            a@.len() == b@.len(),
            0 <= i <= a@.len(),
            forall|j: int| 0 <= j < i ==> ascii_lower(#[trigger] a@[j]) == ascii_lower(b@[j]),
        decreases a@.len() - i,
    {
        if lower_ascii(a[i]) != lower_ascii(b[i]) {
            return false;
        }
        i = i + 1;
    }
    true
}

// ---------------------------------------------------------------------------
// Between strings and characters
// ---------------------------------------------------------------------------

/// The characters of a string, in order.
///
/// Wraps `str::chars` collected into a vector; the contract claims only that
/// the vector holds exactly the string's characters, which is what `chars`
/// yields.
#[verifier::external_body]
pub(crate) fn chars_of(s: &str) -> (v: Vec<char>)
    ensures
        v@ == s@,
{
    s.chars().collect()
}

/// A string made of the given characters.
///
/// Wraps `String::from_iter` over the characters; the contract claims only
/// that the string's characters are the given ones, in order.
#[verifier::external_body]
pub(crate) fn string_of(v: &[char]) -> (s: String)
    ensures
        s@ == v@,
{
    v.iter().collect()
}

/// What `char::to_uppercase` yields for a character: Unicode's upper-case
/// mapping, one character or several.
pub uninterp spec fn upper_of(c: char) -> Seq<char>;

/// What `char::to_lowercase` yields for a character.
pub uninterp spec fn lower_of(c: char) -> Seq<char>;

/// What `str::to_uppercase` gives for a run of text.
pub uninterp spec fn upper_text(s: Seq<char>) -> Seq<char>;

/// What `str::to_lowercase` gives for a run of text.
pub uninterp spec fn lower_text(s: Seq<char>) -> Seq<char>;

/// A character in upper case.
///
/// Wraps `char::to_uppercase`, collected into a string; the contract only
/// names the result as Unicode's mapping of that character.
#[verifier::external_body]
pub(crate) fn char_upper(c: char) -> (s: String)
    ensures
        s@ == upper_of(c),
{
    c.to_uppercase().collect()
}

/// A character in lower case.
///
/// Wraps `char::to_lowercase`, collected into a string; the contract only
/// names the result as Unicode's mapping of that character.
#[verifier::external_body]
pub(crate) fn char_lower(c: char) -> (s: String)
    ensures
        s@ == lower_of(c),
{
    c.to_lowercase().collect()
}

/// A run of text in upper case.
///
/// Wraps `str::to_uppercase`; the contract only names the result as
/// Unicode's mapping of that text.
#[verifier::external_body]
pub(crate) fn text_upper(s: &str) -> (t: String)
    ensures
        t@ == upper_text(s@),
{
    s.to_uppercase()
}

/// A run of text in lower case.
///
/// Wraps `str::to_lowercase`; the contract only names the result as
/// Unicode's mapping of that text.
#[verifier::external_body]
pub(crate) fn text_lower(s: &str) -> (t: String)
    ensures
        t@ == lower_text(s@),
{
    s.to_lowercase()
}

/// What `{:?}` writes for a string: the text in double quotes, with quotes,
/// backslashes and characters that do not print escaped.
pub uninterp spec fn debug_text(s: Seq<char>) -> Seq<char>;

/// A string as `{:?}` writes it.
///
/// Wraps the `Debug` impl of `str`; the contract only names the result as
/// that function of the text.
#[verifier::external_body]
pub(crate) fn debug_quoted(s: &str) -> (t: String)
    ensures
        t@ == debug_text(s@),
{
    format!("{s:?}")
}

/// Appends one character.
///
/// Wraps `String::push`; the contract claims the string grows by exactly that
/// character at its end.
#[verifier::external_body]
pub(crate) fn push_char(s: &mut String, c: char)
    ensures
        final(s)@ == old(s)@.push(c),
{
    s.push(c)
}

/// Appends the characters of a slice.
pub fn push_chars(s: &mut String, v: &[char])
    ensures
        final(s)@ == old(s)@ + v@,
{
    let mut i: usize = 0;
    while i < v.len()
        invariant
            0 <= i <= v@.len(),
            s@ == old(s)@ + v@.take(i as int),
        decreases v@.len() - i,
    {
        push_char(s, v[i]);
        assert(v@.take(i as int).push(v@[i as int]) =~= v@.take(i + 1));
        i = i + 1;
    }
    assert(v@.take(v@.len() as int) =~= v@);
}

/// Appends a string.
pub fn push_str(s: &mut String, t: &str)
    ensures
        final(s)@ == old(s)@ + t@,
{
    s.append(t);
}

// ---------------------------------------------------------------------------
// Searching
// ---------------------------------------------------------------------------

/// Whether `p` is where `s` starts.
pub open spec fn starts_with(s: Seq<char>, p: Seq<char>) -> bool {
    p.len() <= s.len() && s.take(p.len() as int) == p
}

/// Whether `p` is where `s` ends.
pub open spec fn ends_with(s: Seq<char>, p: Seq<char>) -> bool {
    p.len() <= s.len() && s.skip(s.len() - p.len()) == p
}

/// Whether `p` occurs in `s` starting at `i`.
pub open spec fn occurs_at(s: Seq<char>, p: Seq<char>, i: int) -> bool {
    0 <= i && i + p.len() <= s.len() && s.subrange(i, i + p.len()) == p
}

/// Whether `p` occurs anywhere in `s`.
pub open spec fn contains_text(s: Seq<char>, p: Seq<char>) -> bool {
    exists|i: int| occurs_at(s, p, i)
}

/// Whether a run of text starts with a given prefix.
pub fn has_prefix(s: &[char], p: &[char]) -> (b: bool)
    ensures
        b == starts_with(s@, p@),
{
    if p.len() > s.len() {
        return false;
    }
    let mut i: usize = 0;
    while i < p.len()
        invariant
            p@.len() <= s@.len(),
            0 <= i <= p@.len(),
            forall|j: int| 0 <= j < i ==> s@[j] == p@[j],
        decreases p@.len() - i,
    {
        if s[i] != p[i] {
            assert(s@.take(p@.len() as int)[i as int] != p@[i as int]);
            return false;
        }
        i = i + 1;
    }
    assert(s@.take(p@.len() as int) =~= p@);
    true
}

/// Whether a run of text ends with a given suffix.
pub fn has_suffix(s: &[char], p: &[char]) -> (b: bool)
    ensures
        b == ends_with(s@, p@),
{
    if p.len() > s.len() {
        return false;
    }
    let start: usize = s.len() - p.len();
    let mut i: usize = 0;
    while i < p.len()
        invariant
            p@.len() <= s@.len(),
            s@.len() == s.len(),
            start + p@.len() == s@.len(),
            0 <= i <= p@.len(),
            forall|j: int| 0 <= j < i ==> s@[start + j] == p@[j],
        decreases p@.len() - i,
    {
        if s[start + i] != p[i] {
            assert(s@.skip(start as int)[i as int] != p@[i as int]);
            return false;
        }
        i = i + 1;
    }
    assert(s@.skip(start as int) =~= p@);
    true
}

/// Whether `p` occurs in `s` starting at `i`.
pub fn matches_at(s: &[char], p: &[char], i: usize) -> (b: bool)
    ensures
        b == occurs_at(s@, p@, i as int),
{
    if i > s.len() || p.len() > s.len() - i {
        return false;
    }
    let mut k: usize = 0;
    while k < p.len()
        invariant
            i + p@.len() <= s@.len(),
            s@.len() == s.len(),
            0 <= k <= p@.len(),
            forall|j: int| 0 <= j < k ==> s@[i + j] == p@[j],
        decreases p@.len() - k,
    {
        if s[i + k] != p[k] {
            assert(s@.subrange(i as int, i + p@.len())[k as int] != p@[k as int]);
            return false;
        }
        k = k + 1;
    }
    assert(s@.subrange(i as int, i + p@.len()) =~= p@);
    true
}

/// The first place `p` occurs in `s`, if it does.
pub open spec fn first_occurrence(s: Seq<char>, p: Seq<char>) -> Option<int> {
    if contains_text(s, p) {
        Some(choose|i: int| occurs_at(s, p, i) && forall|j: int| 0 <= j < i ==> !occurs_at(s, p, j))
    } else {
        None
    }
}

/// The last place `p` occurs in `s`, if it does.
pub open spec fn last_occurrence(s: Seq<char>, p: Seq<char>) -> Option<int> {
    if contains_text(s, p) {
        Some(choose|i: int| occurs_at(s, p, i) && forall|j: int| i < j ==> !occurs_at(s, p, j))
    } else {
        None
    }
}

/// Where `p` first occurs in `s`, as `str::find` reports it.
pub fn find(s: &[char], p: &[char]) -> (at: Option<usize>)
    ensures
        match at {
            Some(i) => occurs_at(s@, p@, i as int) && forall|j: int| 0 <= j < i ==> !occurs_at(s@, p@, j),
            None => !contains_text(s@, p@),
        },
        at matches Some(i) ==> first_occurrence(s@, p@) == Some(i as int),
        at is None ==> first_occurrence(s@, p@) is None,
{
    if p.len() == 0 {
        assert(occurs_at(s@, p@, 0)) by {
            assert(s@.subrange(0, 0) =~= p@);
        }
        return Some(0);
    }
    if p.len() > s.len() {
        assert forall|j: int| !occurs_at(s@, p@, j) by {}
        return None;
    }
    let mut i: usize = 0;
    while i <= s.len() - p.len()
        invariant
            1 <= p@.len() <= s@.len(),
            s@.len() == s.len(),
            0 <= i <= s@.len() - p@.len() + 1,
            forall|j: int| 0 <= j < i ==> !occurs_at(s@, p@, j),
        decreases s@.len() + 1 - i,
    {
        if matches_at(s, p, i) {
            proof {
                let w = choose|w: int| occurs_at(s@, p@, w) && forall|j: int| 0 <= j < w ==> !occurs_at(s@, p@, j);
                assert(occurs_at(s@, p@, w));
                if w < i {
                    assert(!occurs_at(s@, p@, w));
                }
                if w > i {
                    assert(!occurs_at(s@, p@, i as int));
                }
            }
            return Some(i);
        }
        i = i + 1;
    }
    assert forall|j: int| !occurs_at(s@, p@, j) by {
        if 0 <= j < i {
        }
    }
    None
}

/// Where `p` last occurs in `s`, as `str::rfind` reports it.
pub fn rfind(s: &[char], p: &[char]) -> (at: Option<usize>)
    ensures
        match at {
            Some(i) => occurs_at(s@, p@, i as int) && forall|j: int| i < j ==> !occurs_at(s@, p@, j),
            None => !contains_text(s@, p@),
        },
        at matches Some(i) ==> last_occurrence(s@, p@) == Some(i as int),
        at is None ==> last_occurrence(s@, p@) is None,
{
    if p.len() == 0 {
        assert(occurs_at(s@, p@, s@.len() as int)) by {
            assert(s@.subrange(s@.len() as int, s@.len() as int) =~= p@);
        }
        return Some(s.len());
    }
    if p.len() > s.len() {
        assert forall|j: int| !occurs_at(s@, p@, j) by {}
        return None;
    }
    let mut i: usize = s.len() - p.len() + 1;
    while i > 0
        invariant
            p@.len() <= s@.len(),
            0 <= i <= s@.len() - p@.len() + 1,
            forall|j: int| i <= j ==> !occurs_at(s@, p@, j),
        decreases i,
    {
        i = i - 1;
        if matches_at(s, p, i) {
            proof {
                let w = choose|w: int| occurs_at(s@, p@, w) && forall|j: int| w < j ==> !occurs_at(s@, p@, j);
                assert(occurs_at(s@, p@, w));
                if w < i {
                    assert(!occurs_at(s@, p@, i as int));
                }
                if w > i {
                    assert(!occurs_at(s@, p@, w));
                }
            }
            return Some(i);
        }
    }
    assert forall|j: int| !occurs_at(s@, p@, j) by {
        if j < 0 {
        }
    }
    None
}

/// Whether `p` occurs anywhere in `s`.
pub fn contains(s: &[char], p: &[char]) -> (b: bool)
    ensures
        b == contains_text(s@, p@),
{
    find(s, p).is_some()
}

/// The characters `s[from..to]`.
pub fn slice_of(s: &[char], from: usize, to: usize) -> (v: Vec<char>)
    requires
        from <= to <= s@.len(),
    ensures
        v@ == s@.subrange(from as int, to as int),
{
    let mut v: Vec<char> = Vec::new();
    let mut i: usize = from;
    while i < to
        invariant
            from <= i <= to <= s@.len(),
            v@ == s@.subrange(from as int, i as int),
        decreases to - i,
    {
        v.push(s[i]);
        assert(s@.subrange(from as int, i as int).push(s@[i as int]) =~= s@.subrange(
            from as int,
            i + 1,
        ));
        i = i + 1;
    }
    v
}

// ---------------------------------------------------------------------------
// Trimming
// ---------------------------------------------------------------------------

/// How many white characters `s` starts with.
pub open spec fn leading_white(s: Seq<char>) -> nat
    decreases s.len(),
{
    if s.len() > 0 && is_white(s[0]) {
        1 + leading_white(s.drop_first())
    } else {
        0
    }
}

/// How many white characters `s` ends with.
pub open spec fn trailing_white(s: Seq<char>) -> nat
    decreases s.len(),
{
    if s.len() > 0 && is_white(s.last()) {
        1 + trailing_white(s.drop_last())
    } else {
        0
    }
}

/// `str::trim_end`.
pub open spec fn trim_end(s: Seq<char>) -> Seq<char> {
    s.take(s.len() - trailing_white(s))
}

/// `str::trim_start`.
pub open spec fn trim_start(s: Seq<char>) -> Seq<char> {
    s.skip(leading_white(s) as int)
}

/// `str::trim`.
pub open spec fn trim(s: Seq<char>) -> Seq<char> {
    trim_start(trim_end(s))
}

proof fn lemma_leading_white_bound(s: Seq<char>)
    ensures
        leading_white(s) <= s.len(),
        forall|i: int| 0 <= i < leading_white(s) ==> is_white(#[trigger] s[i]),
        leading_white(s) < s.len() ==> !is_white(s[leading_white(s) as int]),
    decreases s.len(),
{
    if s.len() > 0 && is_white(s[0]) {
        lemma_leading_white_bound(s.drop_first());
        assert forall|i: int| 0 <= i < leading_white(s) implies is_white(#[trigger] s[i]) by {
            if i > 0 {
                assert(s[i] == s.drop_first()[i - 1]);
            }
        }
    }
}

/// The leading run of white characters is the longest prefix of them.
pub proof fn lemma_leading_white_is(s: Seq<char>, n: int)
    requires
        0 <= n <= s.len(),
        forall|i: int| 0 <= i < n ==> is_white(#[trigger] s[i]),
        n < s.len() ==> !is_white(s[n]),
    ensures
        leading_white(s) == n,
    decreases s.len(),
{
    if n > 0 {
        assert(s.len() > 0 && is_white(s[0]));
        assert forall|i: int| 0 <= i < n - 1 implies is_white(#[trigger] s.drop_first()[i]) by {
            assert(s.drop_first()[i] == s[i + 1]);
        }
        if n - 1 < s.drop_first().len() {
            assert(s.drop_first()[n - 1] == s[n]);
        }
        lemma_leading_white_is(s.drop_first(), n - 1);
    }
}

/// The trailing run of white characters is the longest suffix of them.
pub proof fn lemma_trailing_white_is(s: Seq<char>, n: int)
    requires
        0 <= n <= s.len(),
        forall|i: int| s.len() - n <= i < s.len() ==> is_white(#[trigger] s[i]),
        n < s.len() ==> !is_white(s[s.len() - n - 1]),
    ensures
        trailing_white(s) == n,
    decreases s.len(),
{
    if n > 0 {
        assert(is_white(s[s.len() - 1]));
        assert forall|i: int|
            s.drop_last().len() - (n - 1) <= i < s.drop_last().len() implies is_white(
            #[trigger] s.drop_last()[i],
        ) by {
            assert(s.drop_last()[i] == s[i]);
        }
        if n - 1 < s.drop_last().len() {
            assert(s.drop_last()[s.drop_last().len() - (n - 1) - 1] == s[s.len() - n - 1]);
        }
        lemma_trailing_white_is(s.drop_last(), n - 1);
    } else {
        if s.len() > 0 {
            assert(!is_white(s.last()));
        }
    }
}

/// Where the text of `s` ends once trailing white space is dropped.
pub fn trimmed_end(s: &[char]) -> (end: usize)
    ensures
        end as int == s@.len() - trailing_white(s@),
        end <= s@.len(),
{
    let mut end: usize = s.len();
    while end > 0 && white(s[end - 1])
        invariant
            0 <= end <= s@.len(),
            forall|i: int| end <= i < s@.len() ==> is_white(#[trigger] s@[i]),
        decreases end,
    {
        end = end - 1;
    }
    proof {
        lemma_trailing_white_is(s@, s@.len() - end);
    }
    end
}

/// Where the text of `s` starts once leading white space is dropped.
pub fn trimmed_start(s: &[char]) -> (start: usize)
    ensures
        start as int == leading_white(s@),
        start <= s@.len(),
{
    let mut start: usize = 0;
    while start < s.len() && white(s[start])
        invariant
            0 <= start <= s@.len(),
            forall|i: int| 0 <= i < start ==> is_white(#[trigger] s@[i]),
        decreases s@.len() - start,
    {
        start = start + 1;
    }
    proof {
        lemma_leading_white_is(s@, start as int);
    }
    start
}

/// `str::trim`, as characters.
pub fn trimmed(s: &[char]) -> (v: Vec<char>)
    ensures
        v@ == trim(s@),
{
    let end = trimmed_end(s);
    let head = slice_of(s, 0, end);
    assert(head@ == trim_end(s@));
    let start = trimmed_start(head.as_slice());
    slice_of(head.as_slice(), start, head.len())
}

/// `str::trim_end`, as characters.
pub fn trimmed_at_end(s: &[char]) -> (v: Vec<char>)
    ensures
        v@ == trim_end(s@),
{
    let end = trimmed_end(s);
    slice_of(s, 0, end)
}

// ---------------------------------------------------------------------------
// Words and lines
// ---------------------------------------------------------------------------

/// How many characters at the start of `s` are not white.
pub open spec fn word_length(s: Seq<char>) -> nat
    decreases s.len(),
{
    if s.len() > 0 && !is_white(s[0]) {
        1 + word_length(s.drop_first())
    } else {
        0
    }
}

/// `str::split_whitespace`: the maximal runs of characters that are not
/// white, in order.
pub open spec fn words(s: Seq<char>) -> Seq<Seq<char>>
    decreases s.len(),
{
    if s.len() == 0 {
        seq![]
    } else if is_white(s[0]) {
        words(s.drop_first())
    } else {
        let n = word_length(s);
        if n == 0 || n > s.len() {
            seq![]
        } else {
            seq![s.take(n as int)] + words(s.skip(n as int))
        }
    }
}

proof fn lemma_word_length_bound(s: Seq<char>)
    ensures
        word_length(s) <= s.len(),
        forall|i: int| 0 <= i < word_length(s) ==> !is_white(#[trigger] s[i]),
        word_length(s) < s.len() ==> is_white(s[word_length(s) as int]),
    decreases s.len(),
{
    if s.len() > 0 && !is_white(s[0]) {
        lemma_word_length_bound(s.drop_first());
        assert forall|i: int| 0 <= i < word_length(s) implies !is_white(#[trigger] s[i]) by {
            if i > 0 {
                assert(s[i] == s.drop_first()[i - 1]);
            }
        }
    }
}

/// The word at the start of `s` is the longest run without white space.
pub proof fn lemma_word_length_is(s: Seq<char>, n: int)
    requires
        0 <= n <= s.len(),
        forall|i: int| 0 <= i < n ==> !is_white(#[trigger] s[i]),
        n < s.len() ==> is_white(s[n]),
    ensures
        word_length(s) == n,
    decreases s.len(),
{
    if n > 0 {
        assert(!is_white(s[0]));
        assert forall|i: int| 0 <= i < n - 1 implies !is_white(#[trigger] s.drop_first()[i]) by {
            assert(s.drop_first()[i] == s[i + 1]);
        }
        if n - 1 < s.drop_first().len() {
            assert(s.drop_first()[n - 1] == s[n]);
        }
        lemma_word_length_is(s.drop_first(), n - 1);
    }
}

/// Skipping white space at the start does not change the words.
pub proof fn lemma_words_skip_white(s: Seq<char>, n: int)
    requires
        0 <= n <= s.len(),
        forall|i: int| 0 <= i < n ==> is_white(#[trigger] s[i]),
    ensures
        words(s) == words(s.skip(n)),
    decreases n,
{
    if n > 0 {
        assert(is_white(s[0]));
        assert(s.drop_first().skip(n - 1) =~= s.skip(n));
        assert forall|i: int| 0 <= i < n - 1 implies is_white(#[trigger] s.drop_first()[i]) by {
            assert(s.drop_first()[i] == s[i + 1]);
        }
        lemma_words_skip_white(s.drop_first(), n - 1);
    } else {
        assert(s.skip(0) =~= s);
    }
}

/// The words of text that starts with a word.
pub proof fn lemma_words_take_word(s: Seq<char>, n: int)
    requires
        0 < n <= s.len(),
        forall|i: int| 0 <= i < n ==> !is_white(#[trigger] s[i]),
        n < s.len() ==> is_white(s[n]),
    ensures
        words(s) == seq![s.take(n)] + words(s.skip(n)),
{
    lemma_word_length_is(s, n);
}

/// The first word of text that starts with something other than white space
/// starts with that character.
pub proof fn lemma_first_word(s: Seq<char>)
    requires
        s.len() > 0,
        !is_white(s[0]),
    ensures
        words(s).len() > 0,
        words(s)[0].len() > 0,
        words(s)[0][0] == s[0],
{
    lemma_word_length_bound(s);
    let n = word_length(s);
    assert(n >= 1) by {
        assert(word_length(s) == 1 + word_length(s.drop_first()));
    }
    assert(words(s) == seq![s.take(n as int)] + words(s.skip(n as int)));
}

/// No word is empty.
pub proof fn lemma_words_nonempty(s: Seq<char>, i: int)
    requires
        0 <= i < words(s).len(),
    ensures
        words(s)[i].len() > 0,
    decreases s.len(),
{
    if s.len() > 0 {
        if is_white(s[0]) {
            lemma_words_nonempty(s.drop_first(), i);
        } else {
            lemma_word_length_bound(s);
            let n = word_length(s);
            if n > 0 && n <= s.len() {
                assert(words(s) == seq![s.take(n as int)] + words(s.skip(n as int)));
                if i > 0 {
                    assert(words(s)[i] == words(s.skip(n as int))[i - 1]);
                    lemma_words_nonempty(s.skip(n as int), i - 1);
                }
            }
        }
    }
}

/// A word, then white space or nothing, then the rest.
pub proof fn lemma_words_lead(w: Seq<char>, rest: Seq<char>)
    requires
        w.len() > 0,
        forall|i: int| 0 <= i < w.len() ==> !is_white(#[trigger] w[i]),
        rest.len() == 0 || is_white(rest[0]),
    ensures
        words(w + rest) == seq![w] + words(rest),
{
    let s = w + rest;
    assert forall|i: int| 0 <= i < w.len() implies !is_white(#[trigger] s[i]) by {
        assert(s[i] == w[i]);
    }
    if w.len() < s.len() {
        assert(s[w.len() as int] == rest[0]);
    }
    lemma_words_take_word(s, w.len() as int);
    assert(s.take(w.len() as int) =~= w);
    assert(s.skip(w.len() as int) =~= rest);
}

/// Text with no words.
pub proof fn lemma_words_none(s: Seq<char>)
    requires
        s.len() == 0,
    ensures
        words(s) == Seq::<Seq<char>>::empty(),
{
}

/// The words of a run of text, as `str::split_whitespace` gives them.
pub fn split_words(s: &[char]) -> (out: Vec<Vec<char>>)
    ensures
        out@.len() == words(s@).len(),
        forall|i: int| 0 <= i < out@.len() ==> (#[trigger] out@[i])@ == words(s@)[i],
{
    let mut out: Vec<Vec<char>> = Vec::new();
    let mut i: usize = 0;
    let ghost done: Seq<Seq<char>> = seq![];
    assert(s@.skip(0) =~= s@);
    assert(done + words(s@) =~= words(s@));
    while i < s.len()
        invariant
            0 <= i <= s@.len(),
            out@.len() == done.len(),
            forall|k: int| 0 <= k < out@.len() ==> (#[trigger] out@[k])@ == done[k],
            words(s@) == done + words(s@.skip(i as int)),
        decreases s@.len() - i,
    {
        if white(s[i]) {
            proof {
                let rest = s@.skip(i as int);
                assert(is_white(rest[0]));
                assert(rest.drop_first() =~= s@.skip(i + 1));
            }
            i = i + 1;
        } else {
            let mut j: usize = i;
            while j < s.len() && !white(s[j])
                invariant
                    i <= j <= s@.len(),
                    forall|k: int| i <= k < j ==> !is_white(#[trigger] s@[k]),
                decreases s@.len() - j,
            {
                j = j + 1;
            }
            let word = slice_of(s, i, j);
            proof {
                let rest = s@.skip(i as int);
                assert forall|k: int| 0 <= k < j - i implies !is_white(#[trigger] rest[k]) by {
                    assert(rest[k] == s@[i + k]);
                }
                if j < s@.len() {
                    assert(rest[j - i] == s@[j as int]);
                }
                lemma_words_take_word(rest, j - i);
                assert(rest.take(j - i) =~= s@.subrange(i as int, j as int));
                assert(rest.skip(j - i) =~= s@.skip(j as int));
                assert(done + words(rest) =~= done.push(word@) + words(s@.skip(j as int)));
                done = done.push(word@);
            }
            out.push(word);
            i = j;
        }
    }
    proof {
        assert(s@.skip(i as int).len() == 0);
        assert(done + seq![] =~= done);
    }
    out
}

/// Words joined by single spaces.
pub open spec fn spaced(ws: Seq<Seq<char>>) -> Seq<char>
    decreases ws.len(),
{
    if ws.len() == 0 {
        Seq::empty()
    } else if ws.len() == 1 {
        ws[0]
    } else {
        spaced(ws.drop_last()) + seq![' '] + ws.last()
    }
}

/// A line of `str::lines` loses a carriage return before its newline.
pub open spec fn strip_cr(line: Seq<char>) -> Seq<char> {
    if line.len() > 0 && line.last() == '\r' {
        line.drop_last()
    } else {
        line
    }
}

/// Where the first newline in `s` is, if there is one.
pub open spec fn newline_in(s: Seq<char>) -> Option<int> {
    first_occurrence(s, seq!['\n'])
}

/// `str::lines`: the text between newlines, each line without its `\n` or
/// `\r\n`, and no empty line after a final newline.
#[verifier::opaque]
pub open spec fn lines(s: Seq<char>) -> Seq<Seq<char>>
    decreases s.len(),
{
    if s.len() == 0 {
        seq![]
    } else {
        match newline_in(s) {
            Some(k) => if 0 <= k < s.len() {
                seq![strip_cr(s.take(k))] + lines(s.skip(k + 1))
            } else {
                seq![]
            },
            None => seq![s],
        }
    }
}

/// The newline a line ends at, when there is no other before it.
pub proof fn lemma_newline_at(s: Seq<char>, k: int)
    requires
        0 <= k < s.len(),
        s[k] == '\n',
        forall|i: int| 0 <= i < k ==> s[i] != '\n',
    ensures
        newline_in(s) == Some(k),
{
    assert(occurs_at(s, seq!['\n'], k)) by {
        assert(s.subrange(k, k + 1) =~= seq!['\n']);
    }
    assert forall|j: int| 0 <= j < k implies !occurs_at(s, seq!['\n'], j) by {
        if occurs_at(s, seq!['\n'], j) {
            assert(s.subrange(j, j + 1)[0] == s[j]);
        }
    }
    let w = choose|i: int|
        occurs_at(s, seq!['\n'], i) && forall|j: int| 0 <= j < i ==> !occurs_at(s, seq!['\n'], j);
    assert(occurs_at(s, seq!['\n'], w));
    if w < k {
        assert(s.subrange(w, w + 1)[0] == s[w]);
    }
    if w > k {
        assert(!occurs_at(s, seq!['\n'], k));
    }
}

/// Text with no newline in it is one line, or none when it is empty.
pub proof fn lemma_no_newline(s: Seq<char>)
    requires
        forall|i: int| 0 <= i < s.len() ==> s[i] != '\n',
    ensures
        newline_in(s) is None,
{
    assert forall|j: int| !occurs_at(s, seq!['\n'], j) by {
        if occurs_at(s, seq!['\n'], j) {
            assert(s.subrange(j, j + 1)[0] == s[j]);
        }
    }
}

/// A line that ends at a newline.
#[verifier::spinoff_prover]
proof fn lemma_lines_step(s: Seq<char>, i: int, j: int)
    requires
        0 <= i <= j < s.len(),
        s[j] == '\n',
        forall|k: int| i <= k < j ==> s[k] != '\n',
    ensures
        lines(s.skip(i)) == seq![strip_cr(s.subrange(i, j))] + lines(s.skip(j + 1)),
{
    let rest = s.skip(i);
    assert(rest[j - i] == s[j]);
    assert forall|k: int| 0 <= k < j - i implies rest[k] != '\n' by {
        assert(rest[k] == s[i + k]);
    }
    lemma_newline_at(rest, j - i);
    assert(rest.take(j - i) =~= s.subrange(i, j));
    assert(rest.skip(j - i + 1) =~= s.skip(j + 1));
    reveal(lines);
}

/// The last line, with no newline after it.
proof fn lemma_lines_last(s: Seq<char>, i: int)
    requires
        0 <= i < s.len(),
        forall|k: int| i <= k < s.len() ==> s[k] != '\n',
    ensures
        lines(s.skip(i)) == seq![s.skip(i)],
{
    let rest = s.skip(i);
    assert forall|k: int| 0 <= k < rest.len() implies rest[k] != '\n' by {
        assert(rest[k] == s[i + k]);
    }
    lemma_no_newline(rest);
    reveal(lines);
}

/// Empty text has no lines.
pub proof fn lemma_lines_empty(s: Seq<char>)
    requires
        s.len() == 0,
    ensures
        lines(s) == Seq::<Seq<char>>::empty(),
{
    reveal(lines);
}

/// The lines of a run of text, as `str::lines` gives them.
pub fn split_lines(s: &[char]) -> (out: Vec<Vec<char>>)
    ensures
        out@.len() == lines(s@).len(),
        forall|i: int| 0 <= i < out@.len() ==> (#[trigger] out@[i])@ == lines(s@)[i],
{
    let mut out: Vec<Vec<char>> = Vec::new();
    let mut i: usize = 0;
    let ghost done: Seq<Seq<char>> = seq![];
    assert(s@.skip(0) =~= s@);
    assert(done + lines(s@) =~= lines(s@));
    while i < s.len()
        invariant
            0 <= i <= s@.len(),
            out@.len() == done.len(),
            forall|k: int| 0 <= k < out@.len() ==> (#[trigger] out@[k])@ == done[k],
            lines(s@) == done + lines(s@.skip(i as int)),
        decreases s@.len() - i,
    {
        let mut j: usize = i;
        while j < s.len() && s[j] != '\n'
            invariant
                i <= j <= s@.len(),
                forall|k: int| i <= k < j ==> s@[k] != '\n',
            decreases s@.len() - j,
        {
            j = j + 1;
        }
        if j < s.len() {
            let mut end: usize = j;
            if end > i && s[end - 1] == '\r' {
                end = end - 1;
            }
            let line = slice_of(s, i, end);
            proof {
                lemma_lines_step(s@, i as int, j as int);
                assert(strip_cr(s@.subrange(i as int, j as int)) =~= line@);
                assert(done + lines(s@.skip(i as int)) =~= done.push(line@) + lines(
                    s@.skip(j + 1),
                ));
                done = done.push(line@);
            }
            out.push(line);
            i = j + 1;
        } else {
            let line = slice_of(s, i, j);
            proof {
                lemma_lines_last(s@, i as int);
                assert(s@.skip(i as int) =~= line@);
                lemma_lines_empty(s@.skip(j as int));
                assert(done + lines(s@.skip(i as int)) =~= done.push(line@) + lines(
                    s@.skip(j as int),
                ));
                done = done.push(line@);
            }
            out.push(line);
            i = j;
        }
    }
    proof {
        lemma_lines_empty(s@.skip(i as int));
        assert(done + Seq::<Seq<char>>::empty() =~= done);
    }
    out
}

// ---------------------------------------------------------------------------
// Numbers
// ---------------------------------------------------------------------------

/// The value of a run of ASCII digits.
pub open spec fn digits_value(s: Seq<char>) -> nat
    decreases s.len(),
{
    if s.len() == 0 {
        0
    } else {
        digits_value(s.drop_last()) * 10 + digit_value(s.last())
    }
}

/// Whether every character is an ASCII digit.
pub open spec fn all_digits(s: Seq<char>) -> bool {
    forall|i: int| 0 <= i < s.len() ==> is_digit(#[trigger] s[i])
}

/// The unsigned number `str::parse` reads out of `s`: an optional `+`, then
/// at least one ASCII digit and nothing else. Unbounded; a caller narrows it
/// to its type.
pub open spec fn natural(s: Seq<char>) -> Option<nat> {
    let body = if s.len() > 0 && s[0] == '+' {
        s.drop_first()
    } else {
        s
    };
    if body.len() > 0 && all_digits(body) {
        Some(digits_value(body))
    } else {
        None
    }
}

/// `str::parse::<T>` for an unsigned `T` whose largest value is `max`.
pub open spec fn parse_unsigned(s: Seq<char>, max: nat) -> Option<nat> {
    match natural(s) {
        Some(n) => if n <= max {
            Some(n)
        } else {
            None
        },
        None => None,
    }
}

proof fn lemma_digits_value_step(s: Seq<char>, i: int)
    requires
        0 <= i < s.len(),
    ensures
        digits_value(s.take(i + 1)) == digits_value(s.take(i)) * 10 + digit_value(s[i]),
{
    assert(s.take(i + 1).drop_last() =~= s.take(i));
}

proof fn lemma_digits_value_monotone(s: Seq<char>, i: int)
    requires
        0 <= i <= s.len(),
        all_digits(s),
    ensures
        digits_value(s.take(i)) <= digits_value(s),
    decreases s.len() - i,
{
    if i < s.len() {
        lemma_digits_value_step(s, i);
        lemma_digits_value_monotone(s, i + 1);
    } else {
        assert(s.take(i) =~= s);
    }
}

/// Whether every character is an ASCII digit.
pub fn only_digits(s: &[char]) -> (all: bool)
    ensures
        all == all_digits(s@),
{
    let mut i: usize = 0;
    while i < s.len()
        invariant
            0 <= i <= s@.len(),
            forall|k: int| 0 <= k < i ==> is_digit(#[trigger] s@[k]),
        decreases s@.len() - i,
    {
        if !digit(s[i]) {
            return false;
        }
        i = i + 1;
    }
    true
}

/// Whether two runs of characters are the same.
pub fn equal_text(a: &[char], b: &[char]) -> (same: bool)
    ensures
        same == (a@ == b@),
{
    if a.len() != b.len() {
        return false;
    }
    let mut i: usize = 0;
    while i < a.len()
        invariant
            a@.len() == b@.len(),
            0 <= i <= a@.len(),
            forall|k: int| 0 <= k < i ==> a@[k] == b@[k],
        decreases a@.len() - i,
    {
        if a[i] != b[i] {
            return false;
        }
        i = i + 1;
    }
    assert(a@ =~= b@);
    true
}

/// Reads an unsigned number the way `str::parse` does, giving up past `max`.
pub fn parse_number(s: &[char], max: u64) -> (n: Option<u64>)
    ensures
        match n {
            Some(v) => parse_unsigned(s@, max as nat) == Some(v as nat),
            None => parse_unsigned(s@, max as nat) is None,
        },
{
    let start: usize = if s.len() > 0 && s[0] == '+' {
        1
    } else {
        0
    };
    let ghost body = s@.skip(start as int);
    proof {
        if start == 1 {
            assert(body =~= s@.drop_first());
        } else {
            assert(body =~= s@);
        }
        assert(natural(s@) == (if body.len() > 0 && all_digits(body) {
            Some(digits_value(body))
        } else {
            None::<nat>
        }));
    }
    if start == s.len() {
        return None;
    }
    let mut value: u64 = 0;
    let mut i: usize = start;
    while i < s.len()
        invariant
            start <= i <= s@.len(),
            body == s@.skip(start as int),
            natural(s@) == (if body.len() > 0 && all_digits(body) {
                Some(digits_value(body))
            } else {
                None::<nat>
            }),
            start < s@.len(),
            value as nat == digits_value(body.take(i - start)),
            value <= max,
            forall|k: int| 0 <= k < i - start ==> is_digit(#[trigger] body[k]),
        decreases s@.len() - i,
    {
        let c = s[i];
        assert(c == body[i - start]);
        if !digit(c) {
            assert(!is_digit(body[i - start]));
            assert(!all_digits(body));
            return None;
        }
        let d: u64 = (c as u32 - '0' as u32) as u64;
        proof {
            lemma_digits_value_step(body, i - start);
        }
        if d > max || value > (max - d) / 10 {
            proof {
                if d <= max {
                    assert(value * 10 + d > max) by (nonlinear_arith)
                        requires
                            value > (max - d) / 10,
                            d <= max,
                    ;
                }
                let ghost j = (i - start + 1) as int;
                assert(digits_value(body.take(j)) > max);
                if all_digits(body) {
                    lemma_digits_value_monotone(body, j);
                }
            }
            return None;
        }
        proof {
            assert(value * 10 + d <= max) by (nonlinear_arith)
                requires
                    value <= (max - d) / 10,
                    d <= max,
            ;
        }
        value = value * 10 + d;
        i = i + 1;
    }
    proof {
        assert(body.take(i - start) =~= body);
        assert(all_digits(body));
    }
    Some(value)
}

/// The decimal digits of a number, most significant first, without leading
/// zeros: how `{}` writes an unsigned integer.
pub open spec fn decimal(n: nat) -> Seq<char>
    decreases n,
{
    if n < 10 {
        seq![digit_char(n)]
    } else {
        decimal(n / 10).push(digit_char(n % 10))
    }
}

/// What `{}` writes for a number reads back as that number.
pub proof fn lemma_decimal_reads_back(n: nat)
    ensures
        decimal(n).len() > 0,
        all_digits(decimal(n)),
        digits_value(decimal(n)) == n,
        natural(decimal(n)) == Some(n),
    decreases n,
{
    if n < 10 {
        let s = decimal(n);
        assert(s =~= seq![digit_char(n)]);
        assert(s.drop_last() =~= Seq::<char>::empty());
        assert(digit_value(digit_char(n)) == n);
        assert(digits_value(s) == digits_value(s.drop_last()) * 10 + digit_value(s.last()));
    } else {
        lemma_decimal_reads_back(n / 10);
        let head = decimal(n / 10);
        let c = digit_char(n % 10);
        let s = head.push(c);
        assert(s.drop_last() =~= head);
        assert(digit_value(c) == n % 10);
        assert(digits_value(s) == digits_value(head) * 10 + digit_value(c));
        assert((n / 10) * 10 + n % 10 == n);
        assert(all_digits(s)) by {
            assert forall|i: int| 0 <= i < s.len() implies is_digit(#[trigger] s[i]) by {
                if i < head.len() {
                    assert(s[i] == head[i]);
                }
            }
        }
    }
    let s = decimal(n);
    assert(is_digit(s[0]));
    assert(s[0] != '+');
}

/// Digits are never white space.
pub proof fn lemma_digits_not_white(s: Seq<char>)
    requires
        all_digits(s),
    ensures
        forall|i: int| 0 <= i < s.len() ==> !is_white(#[trigger] s[i]),
{
    assert forall|i: int| 0 <= i < s.len() implies !is_white(#[trigger] s[i]) by {
        assert(is_digit(s[i]));
    }
}

/// Writes an unsigned number in decimal.
pub fn decimal_text(n: u64) -> (s: String)
    ensures
        s@ == decimal(n as nat),
{
    let mut digits: Vec<char> = Vec::new();
    let mut rest: u64 = n;
    // The digits come out least significant first.
    let ghost mut lows: Seq<char> = seq![];
    while rest >= 10
        invariant
            decimal(n as nat) == decimal(rest as nat) + digits@.reverse(),
        decreases rest,
    {
        let d: u64 = rest % 10;
        let c = digit_of(d);
        proof {
            assert(decimal(rest as nat) == decimal((rest / 10) as nat).push(digit_char((rest % 10) as nat)));
            assert(c == digit_char(d as nat));
            assert(digits@.push(c).reverse() =~= seq![c] + digits@.reverse());
            assert(decimal((rest / 10) as nat).push(c) + digits@.reverse() =~= decimal(
                (rest / 10) as nat,
            ) + (seq![c] + digits@.reverse()));
        }
        digits.push(c);
        rest = rest / 10;
    }
    let first = digit_of(rest);
    let mut out = String::new();
    push_char(&mut out, first);
    let mut k: usize = digits.len();
    while k > 0
        invariant
            k <= digits@.len(),
            decimal(n as nat) == decimal(rest as nat) + digits@.reverse(),
            rest < 10,
            out@ == seq![first] + digits@.skip(k as int).reverse(),
            first == digit_char(rest as nat),
        decreases k,
    {
        k = k - 1;
        proof {
            assert(digits@.skip(k as int) =~= seq![digits@[k as int]] + digits@.skip(k + 1));
            assert((seq![digits@[k as int]] + digits@.skip(k + 1)).reverse() =~= digits@.skip(
                k + 1,
            ).reverse().push(digits@[k as int]));
        }
        push_char(&mut out, digits[k]);
    }
    assert(digits@.skip(0) =~= digits@);
    out
}

} // verus!

verus! {

// ---------------------------------------------------------------------------
// Order
// ---------------------------------------------------------------------------

/// How `str` orders text: character by character, a prefix before anything
/// that extends it. Comparing UTF-8 bytes, which is what `str`'s `Ord` does,
/// gives the same order as comparing code points.
pub open spec fn text_le(a: Seq<char>, b: Seq<char>) -> bool
    decreases a.len(),
{
    if a.len() == 0 {
        true
    } else if b.len() == 0 {
        false
    } else if a[0] != b[0] {
        a[0] < b[0]
    } else {
        text_le(a.drop_first(), b.drop_first())
    }
}

/// Strictly before, in text order.
pub open spec fn text_lt(a: Seq<char>, b: Seq<char>) -> bool {
    text_le(a, b) && a != b
}

/// Text order is a total order.
pub proof fn lemma_text_order(a: Seq<char>, b: Seq<char>, c: Seq<char>)
    ensures
        text_le(a, a),
        text_le(a, b) || text_le(b, a),
        text_le(a, b) && text_le(b, a) ==> a == b,
        text_le(a, b) && text_le(b, c) ==> text_le(a, c),
    decreases a.len(),
{
    if a.len() > 0 && b.len() > 0 && c.len() > 0 {
        lemma_text_order(a.drop_first(), b.drop_first(), c.drop_first());
        if text_le(a, b) && text_le(b, a) {
            assert(a[0] == b[0]);
            assert(a =~= seq![a[0]] + a.drop_first());
            assert(b =~= seq![b[0]] + b.drop_first());
        }
    } else if a.len() > 0 && b.len() > 0 {
        lemma_text_order(a.drop_first(), b.drop_first(), b.drop_first());
        if text_le(a, b) && text_le(b, a) {
            assert(a =~= seq![a[0]] + a.drop_first());
            assert(b =~= seq![b[0]] + b.drop_first());
        }
    } else if a.len() > 0 {
        lemma_text_order(a.drop_first(), a.drop_first(), a.drop_first());
    } else if b.len() == 0 {
        assert(a =~= b);
    }
}

/// Whether `a` comes no later than `b` in text order.
pub fn text_at_most(a: &[char], b: &[char]) -> (le: bool)
    ensures
        le == text_le(a@, b@),
{
    let mut i: usize = 0;
    assert(a@.skip(0) =~= a@);
    assert(b@.skip(0) =~= b@);
    assert(a@.take(0) =~= b@.take(0));
    while i < a.len() && i < b.len() && a[i] == b[i]
        invariant
            0 <= i <= a@.len(),
            i <= b@.len(),
            a@.take(i as int) == b@.take(i as int),
            text_le(a@, b@) == text_le(a@.skip(i as int), b@.skip(i as int)),
        decreases a@.len() - i,
    {
        proof {
            let sa = a@.skip(i as int);
            let sb = b@.skip(i as int);
            assert(sa.drop_first() =~= a@.skip(i + 1));
            assert(sb.drop_first() =~= b@.skip(i + 1));
            assert(a@.take(i + 1) =~= a@.take(i as int).push(a@[i as int]));
            assert(b@.take(i + 1) =~= b@.take(i as int).push(b@[i as int]));
        }
        i = i + 1;
    }
    if i == a.len() {
        return true;
    }
    if i == b.len() {
        return false;
    }
    assert(a@.skip(i as int)[0] == a@[i as int]);
    assert(b@.skip(i as int)[0] == b@[i as int]);
    a[i] < b[i]
}

/// Whether two strings hold the same text.
pub fn same_text(a: &str, b: &str) -> (same: bool)
    ensures
        same == (a@ == b@),
{
    let x = chars_of(a);
    let y = chars_of(b);
    if x.len() != y.len() {
        assert(x@.len() != y@.len());
        return false;
    }
    let mut i: usize = 0;
    while i < x.len()
        invariant
            x@ == a@,
            y@ == b@,
            x@.len() == y@.len(),
            0 <= i <= x@.len(),
            forall|j: int| 0 <= j < i ==> x@[j] == y@[j],
        decreases x@.len() - i,
    {
        if x[i] != y[i] {
            assert(x@[i as int] != y@[i as int]);
            return false;
        }
        i = i + 1;
    }
    assert(x@ =~= y@);
    true
}

} // verus!
