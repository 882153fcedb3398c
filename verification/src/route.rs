//! Grouping orders into routes, and putting both into printing order.
//!
//! Two sorts, and the first is the one most likely to go wrong: route
//! nicknames are text even when they look like numbers, so sorting them as
//! text gives `1, 10, 11, … 2`.

use vstd::prelude::*;
use vstd::multiset::Multiset;
use vstd::relations::sorted_by;

use crate::chars::{
    all_digits, chars_of, digit, digits_value, is_digit, lemma_text_order, parse_number,
    parse_unsigned, same_text, slice_of, text_at_most, text_le, trailing_white, trim_end,
    trimmed_end,
};
use crate::order::Order;
use crate::sorting::{sort_by, total_preorder};

verus! {

broadcast use vstd::seq_lib::group_to_multiset_ensures;

/// One route's worth of work, with its stops already in delivery order.
#[derive(Debug, PartialEq, Eq)]
pub struct Route {
    /// Exactly as the file spells it — `7`, `hau 2`.
    pub nickname: String,
    /// Sequenced stops first in delivery order, then the unsequenced ones.
    pub stops: Vec<Order>,
}

/// Every order line on a run of stops.
pub open spec fn lines_on(stops: Seq<Order>) -> nat
    decreases stops.len(),
{
    if stops.len() == 0 {
        0
    } else {
        lines_on(stops.drop_last()) + stops.last().lines@.len()
    }
}

impl Route {
    /// Stops the export gave no position to. They print after the rest, under
    /// a flag, because nobody chose to put them last.
    pub fn unsequenced(&self) -> (stops: Vec<&Order>)
        ensures
            stops@.len() == self.stops@.filter(|stop: Order| stop.sequence == 0).len(),
            forall|k: int|
                0 <= k < stops@.len() ==> *(#[trigger] stops@[k]) == self.stops@.filter(
                    |stop: Order| stop.sequence == 0,
                )[k],
    {
        let ghost pred = |stop: Order| stop.sequence == 0;
        let mut out: Vec<&Order> = Vec::new();
        let mut i: usize = 0;
        while i < self.stops.len()
            invariant
                pred == (|stop: Order| stop.sequence == 0),
                0 <= i <= self.stops@.len(),
                out@.len() == self.stops@.take(i as int).filter(pred).len(),
                forall|k: int| 0 <= k < out@.len() ==> *(#[trigger] out@[k]) == self.stops@.take(i as int).filter(pred)[k],
            decreases self.stops@.len() - i,
        {
            proof {
                assert(self.stops@.take(i + 1) =~= self.stops@.take(i as int).push(self.stops@[i as int]));
                self.stops@.take(i as int).lemma_filter_push(self.stops@[i as int], pred);
            }
            let ghost before = out@;
            let ghost grown = self.stops@.take(i + 1).filter(pred);
            let ghost earlier = self.stops@.take(i as int).filter(pred);
            if self.stops[i].sequence == 0 {
                out.push(&self.stops[i]);
                proof {
                    assert(grown == earlier.push(self.stops@[i as int]));
                    assert forall|k: int| 0 <= k < out@.len() implies *(#[trigger] out@[k]) == grown[k] by {
                        if k < before.len() {
                            assert(out@[k] == before[k]);
                        }
                    }
                }
            } else {
                proof {
                    assert(grown == earlier);
                }
            }
            i = i + 1;
        }
        assert(self.stops@.take(i as int) =~= self.stops@);
        out
    }

    /// Every order line on the route, which is what fills the page.
    pub fn line_count(&self) -> (count: usize)
        requires
            lines_on(self.stops@) <= usize::MAX,
        ensures
            count == lines_on(self.stops@),
    {
        let mut count: usize = 0;
        let mut i: usize = 0;
        while i < self.stops.len()
            invariant
                0 <= i <= self.stops@.len(),
                lines_on(self.stops@) <= usize::MAX,
                count == lines_on(self.stops@.take(i as int)),
            decreases self.stops@.len() - i,
        {
            proof {
                assert(self.stops@.take(i + 1).drop_last() =~= self.stops@.take(i as int));
                lemma_lines_on_prefix(self.stops@, i + 1);
            }
            count = count + self.stops[i].lines.len();
            i = i + 1;
        }
        assert(self.stops@.take(i as int) =~= self.stops@);
        count
    }
}

pub(crate) proof fn lemma_lines_on_prefix(stops: Seq<Order>, n: int)
    requires
        0 <= n <= stops.len(),
    ensures
        lines_on(stops.take(n)) <= lines_on(stops),
    decreases stops.len() - n,
{
    if n < stops.len() {
        lemma_lines_on_prefix(stops, n + 1);
        assert(stops.take(n + 1).drop_last() =~= stops.take(n));
    } else {
        assert(stops.take(n) =~= stops);
    }
}

// ---------------------------------------------------------------------------
// Route nicknames
// ---------------------------------------------------------------------------

/// The sortable shape of a route nickname. Numbered routes come first,
/// because every route that is only a number belongs to the home town and the
/// named ones are elsewhere.
#[derive(Debug, Clone, Copy, PartialEq, Eq, PartialOrd, Ord)]
pub enum RouteKey<'a> {
    /// `14` -> `Numbered(14, "")`.
    Numbered(u64, &'a str),
    /// `hau 2` -> `Named("hau", 2)`.
    Named(&'a str, u64),
}

/// A route key as plain values.
pub enum KeyView {
    Numbered(nat, Seq<char>),
    Named(Seq<char>, nat),
}

impl<'a> RouteKey<'a> {
    /// The key as plain values.
    pub open spec fn plain(self) -> KeyView {
        match self {
            RouteKey::Numbered(number, rest) => KeyView::Numbered(number as nat, rest@),
            RouteKey::Named(name, number) => KeyView::Named(name@, number as nat),
        }
    }
}

/// How many ASCII digits `s` starts with.
pub open spec fn leading_digits(s: Seq<char>) -> nat
    decreases s.len(),
{
    if s.len() > 0 && is_digit(s[0]) {
        1 + leading_digits(s.drop_first())
    } else {
        0
    }
}

/// How many ASCII digits `s` ends with.
pub open spec fn trailing_digits(s: Seq<char>) -> nat
    decreases s.len(),
{
    if s.len() > 0 && is_digit(s.last()) {
        1 + trailing_digits(s.drop_last())
    } else {
        0
    }
}

/// Whether a nickname starts with a number that fits a `u64`.
pub open spec fn starts_numbered(s: Seq<char>) -> bool {
    let d = leading_digits(s);
    d > 0 && digits_value(s.take(d as int)) <= u64::MAX
}

/// Where the trailing number of a name starts: just after its last
/// character that is not a digit, once trailing white space is gone.
pub open spec fn number_start(s: Seq<char>) -> int {
    let t = trim_end(s);
    t.len() - trailing_digits(t)
}

/// The key a nickname sorts by: its leading number where it has one,
/// otherwise its name and then the number that follows it, or zero.
pub open spec fn nickname_key(s: Seq<char>) -> KeyView {
    let d = leading_digits(s);
    if starts_numbered(s) {
        KeyView::Numbered(digits_value(s.take(d as int)), s.skip(d as int))
    } else {
        let t = trim_end(s);
        let start = number_start(s);
        let digits = t.skip(start);
        if digits.len() > 0 && digits_value(digits) <= u64::MAX {
            KeyView::Named(trim_end(t.take(start)), digits_value(digits))
        } else {
            KeyView::Named(t, 0)
        }
    }
}

/// Whether a nickname can be keyed at all. Cutting the trailing number off a
/// name splits the text just after its last character that is not a digit,
/// counted in bytes, so that character has to be a single byte (ASCII) — any
/// other leaves the cut inside a character, which `str` refuses.
pub open spec fn keyable(s: Seq<char>) -> bool {
    starts_numbered(s) || number_start(s) == 0 || (trim_end(s)[number_start(s) - 1] as u32) < 0x80
}

proof fn lemma_leading_digits_is(s: Seq<char>, n: int)
    requires
        0 <= n <= s.len(),
        forall|i: int| 0 <= i < n ==> is_digit(#[trigger] s[i]),
        n < s.len() ==> !is_digit(s[n]),
    ensures
        leading_digits(s) == n,
    decreases s.len(),
{
    if n > 0 {
        assert forall|i: int| 0 <= i < n - 1 implies is_digit(#[trigger] s.drop_first()[i]) by {
            assert(s.drop_first()[i] == s[i + 1]);
        }
        if n - 1 < s.drop_first().len() {
            assert(s.drop_first()[n - 1] == s[n]);
        }
        lemma_leading_digits_is(s.drop_first(), n - 1);
    }
}

proof fn lemma_trailing_digits_is(s: Seq<char>, n: int)
    requires
        0 <= n <= s.len(),
        forall|i: int| s.len() - n <= i < s.len() ==> is_digit(#[trigger] s[i]),
        n < s.len() ==> !is_digit(s[s.len() - n - 1]),
    ensures
        trailing_digits(s) == n,
    decreases s.len(),
{
    if n > 0 {
        assert forall|i: int|
            s.drop_last().len() - (n - 1) <= i < s.drop_last().len() implies is_digit(
            #[trigger] s.drop_last()[i],
        ) by {
            assert(s.drop_last()[i] == s[i]);
        }
        if n - 1 < s.drop_last().len() {
            assert(s.drop_last()[s.drop_last().len() - (n - 1) - 1] == s[s.len() - n - 1]);
        }
        lemma_trailing_digits_is(s.drop_last(), n - 1);
    } else if s.len() > 0 {
        assert(!is_digit(s.last()));
    }
}

/// How a route nickname sorts: by its leading number where it has one,
/// otherwise by name and then by the number that follows it.
///
/// `1, 2, … 14, hau 1, hau 2` — never `1, 10, 11, … 2`.
pub fn natural_key(nickname: &str) -> (key: RouteKey<'_>)
    requires
        keyable(nickname@),
    ensures
        key.plain() == nickname_key(nickname@),
{
    key_for(nickname)
}

/// The key of a nickname, computed on its characters.
fn key_for(nickname: &str) -> (key: RouteKey<'_>)
    ensures
        key.plain() == nickname_key(nickname@),
{
    let text = chars_of(nickname);
    let n = text.len();
    let mut d: usize = 0;
    while d < n && digit(text[d])
        invariant
            n == text@.len(),
            0 <= d <= n,
            forall|i: int| 0 <= i < d ==> is_digit(#[trigger] text@[i]),
        decreases n - d,
    {
        d = d + 1;
    }
    proof {
        lemma_leading_digits_is(text@, d as int);
    }
    if d > 0 {
        let lead = slice_of(text.as_slice(), 0, d);
        proof {
            assert(lead@ == text@.take(d as int));
            assert(all_digits(lead@));
            assert(!(lead@.len() > 0 && lead@[0] == '+'));
        }
        if let Some(number) = parse_number(lead.as_slice(), u64::MAX) {
            let rest = nickname.substring_char(d, n);
            return RouteKey::Numbered(number, rest);
        }
    }
    let end = trimmed_end(text.as_slice());
    let ghost t = trim_end(text@);
    let mut start: usize = end;
    while start > 0 && digit(text[start - 1])
        invariant
            end <= n == text@.len(),
            0 <= start <= end,
            forall|i: int| start <= i < end ==> is_digit(#[trigger] text@[i]),
        decreases start,
    {
        start = start - 1;
    }
    proof {
        assert(t =~= text@.take(end as int));
        assert forall|i: int| t.len() - (end - start) <= i < t.len() implies is_digit(
            #[trigger] t[i],
        ) by {
            assert(t[i] == text@[i]);
        }
        if start > 0 {
            assert(t[t.len() - (end - start) - 1] == text@[start - 1]);
        }
        lemma_trailing_digits_is(t, (end - start) as int);
        assert(number_start(nickname@) == start);
    }
    let digits = slice_of(text.as_slice(), start, end);
    proof {
        assert(digits@ =~= t.skip(start as int));
        assert(all_digits(digits@));
    }
    match parse_number(digits.as_slice(), u64::MAX) {
        None => {
            proof {
                if digits@.len() > 0 {
                    assert(!(digits@[0] == '+'));
                }
            }
            RouteKey::Named(nickname.substring_char(0, end), 0)
        },
        Some(number) => {
            let head = slice_of(text.as_slice(), 0, start);
            let name_end = trimmed_end(head.as_slice());
            let name = nickname.substring_char(0, name_end);
            proof {
                assert(head@ =~= t.take(start as int));
                assert(!(digits@[0] == '+'));
                assert(name@ =~= trim_end(head@)) by {
                    assert(nickname@.subrange(0, name_end as int) =~= head@.take(name_end as int));
                }
            }
            RouteKey::Named(name, number)
        },
    }
}

/// Whether a nickname can be keyed: see [`keyable`]. Grouping two or more
/// routes needs every nickname to pass this; see [`groupable`].
pub fn keyable_nickname(nickname: &str) -> (ok: bool)
    ensures
        ok == keyable(nickname@),
{
    let text = chars_of(nickname);
    let n = text.len();
    let mut d: usize = 0;
    while d < n && digit(text[d])
        invariant
            n == text@.len(),
            0 <= d <= n,
            forall|i: int| 0 <= i < d ==> is_digit(#[trigger] text@[i]),
        decreases n - d,
    {
        d = d + 1;
    }
    proof {
        lemma_leading_digits_is(text@, d as int);
    }
    if d > 0 {
        let lead = slice_of(text.as_slice(), 0, d);
        proof {
            assert(lead@ == text@.take(d as int));
            assert(all_digits(lead@));
            assert(!(lead@.len() > 0 && lead@[0] == '+'));
        }
        if parse_number(lead.as_slice(), u64::MAX).is_some() {
            return true;
        }
    }
    let end = trimmed_end(text.as_slice());
    let ghost t = trim_end(text@);
    let mut start: usize = end;
    while start > 0 && digit(text[start - 1])
        invariant
            end <= n == text@.len(),
            0 <= start <= end,
            forall|i: int| start <= i < end ==> is_digit(#[trigger] text@[i]),
        decreases start,
    {
        start = start - 1;
    }
    proof {
        assert(t =~= text@.take(end as int));
        assert forall|i: int| t.len() - (end - start) <= i < t.len() implies is_digit(
            #[trigger] t[i],
        ) by {
            assert(t[i] == text@[i]);
        }
        if start > 0 {
            assert(t[t.len() - (end - start) - 1] == text@[start - 1]);
        }
        lemma_trailing_digits_is(t, (end - start) as int);
        assert(number_start(nickname@) == start);
    }
    if start == 0 {
        return true;
    }
    proof {
        assert(t[start - 1] == text@[start - 1]);
    }
    (text[start - 1] as u32) < 0x80
}

/// How two keys compare, the way the derived order of [`RouteKey`] compares
/// them: every numbered key before every named one, numbers by value, names by
/// text, and the other half of the key breaking a tie.
pub open spec fn key_le(a: KeyView, b: KeyView) -> bool {
    match (a, b) {
        (KeyView::Numbered(n1, r1), KeyView::Numbered(n2, r2)) => n1 < n2 || (n1 == n2 && text_le(
            r1,
            r2,
        )),
        (KeyView::Numbered(_, _), KeyView::Named(_, _)) => true,
        (KeyView::Named(_, _), KeyView::Numbered(_, _)) => false,
        (KeyView::Named(s1, n1), KeyView::Named(s2, n2)) => (s1 != s2 && text_le(s1, s2)) || (s1
            == s2 && n1 <= n2),
    }
}

/// The key order is a total order.
pub proof fn lemma_key_order(a: KeyView, b: KeyView, c: KeyView)
    ensures
        key_le(a, a),
        key_le(a, b) || key_le(b, a),
        key_le(a, b) && key_le(b, a) ==> a == b,
        key_le(a, b) && key_le(b, c) ==> key_le(a, c),
{
    match (a, b, c) {
        (KeyView::Numbered(_, r1), KeyView::Numbered(_, r2), KeyView::Numbered(_, r3)) => {
            lemma_text_order(r1, r2, r3);
        },
        (KeyView::Named(s1, _), KeyView::Named(s2, _), KeyView::Named(s3, _)) => {
            lemma_text_order(s1, s2, s3);
            lemma_text_order(s1, s3, s2);
            lemma_text_order(s2, s1, s3);
        },
        (KeyView::Numbered(_, r1), KeyView::Numbered(_, r2), _) => {
            lemma_text_order(r1, r2, r2);
        },
        (KeyView::Named(s1, _), KeyView::Named(s2, _), _) => {
            lemma_text_order(s1, s2, s2);
        },
        (KeyView::Numbered(_, r1), _, _) => {
            lemma_text_order(r1, r1, r1);
        },
        (KeyView::Named(s1, _), _, _) => {
            lemma_text_order(s1, s1, s1);
        },
    }
}

/// Natural order of route nicknames: a nickname of digits alone is keyed by
/// its number, so numbered routes order by value (`2` before `10`), every one
/// of them before a named route, and a name followed by a space and a number
/// is keyed by the name, trimmed, and that number.
pub proof fn lemma_natural_order(a: Seq<char>, b: Seq<char>, m: Seq<char>)
    requires
        a.len() > 0,
        all_digits(a),
        digits_value(a) <= u64::MAX,
        b.len() > 0,
        all_digits(b),
        digits_value(b) <= u64::MAX,
        m.len() > 0,
        !is_digit(m[0]),
    ensures
        nickname_key(a) == KeyView::Numbered(digits_value(a), Seq::empty()),
        key_le(nickname_key(a), nickname_key(b)) <==> digits_value(a) <= digits_value(b),
        key_le(nickname_key(a), nickname_key(b)) && !key_le(nickname_key(b), nickname_key(a))
            <==> digits_value(a) < digits_value(b),
        key_le(nickname_key(a), nickname_key(m)) && !key_le(nickname_key(m), nickname_key(a)),
        nickname_key(m + " "@ + a) == KeyView::Named(trim_end(m), digits_value(a)),
{
    lemma_digits_keyed(a);
    lemma_digits_keyed(b);
    lemma_text_order(Seq::empty(), Seq::empty(), Seq::empty());
    lemma_leading_digits_is(m, 0);
    reveal_strlit(" ");
    assert(" "@ =~= seq![' ']);
    let x = m + " "@ + a;
    let space = m.len() as int;
    assert(x.len() == space + 1 + a.len());
    assert(x[0] == m[0]);
    lemma_leading_digits_is(x, 0);
    assert(x.last() == a.last());
    assert(x.drop_last().len() + 1 == x.len());
    assert(trailing_white(x) == 0);
    assert(trim_end(x) =~= x);
    assert forall|i: int| x.len() - a.len() <= i < x.len() implies is_digit(#[trigger] x[i]) by {
        assert(x[i] == a[i - space - 1]);
    }
    assert(x[x.len() - a.len() - 1] == ' ');
    lemma_trailing_digits_is(x, a.len() as int);
    assert(number_start(x) == space + 1);
    assert(x.skip(space + 1) =~= a);
    let front = x.take(space + 1);
    assert(front =~= m.push(' '));
    assert(front.drop_last() =~= m);
    assert(trailing_white(front) == 1 + trailing_white(m));
    lemma_trailing_white_within(m);
    assert(trim_end(front) =~= trim_end(m));
}

/// A run of text ends in no more white space than it has characters.
proof fn lemma_trailing_white_within(s: Seq<char>)
    ensures
        trailing_white(s) <= s.len(),
    decreases s.len(),
{
    if s.len() > 0 {
        lemma_trailing_white_within(s.drop_last());
    }
}

/// A nickname of digits alone is keyed by its number, with nothing after it.
proof fn lemma_digits_keyed(a: Seq<char>)
    requires
        a.len() > 0,
        all_digits(a),
        digits_value(a) <= u64::MAX,
    ensures
        nickname_key(a) == KeyView::Numbered(digits_value(a), Seq::empty()),
{
    lemma_leading_digits_is(a, a.len() as int);
    assert(a.take(a.len() as int) =~= a);
    assert(a.skip(a.len() as int) =~= Seq::<char>::empty());
}

/// Named routes with one name come in the order of their numbers: `hau 1`
/// strictly before `hau 2`, and in any run of routes in printing order a
/// route whose key is a name and a number never follows one with the same
/// name and a larger number.
pub proof fn lemma_named_routes_by_number(s: Seq<char>, n1: nat, n2: nat, routes: Seq<Route>, i: int, j: int)
    ensures
        n1 < n2 ==> key_le(KeyView::Named(s, n1), KeyView::Named(s, n2)) && !key_le(
            KeyView::Named(s, n2),
            KeyView::Named(s, n1),
        ),
        sorted_by(routes, |a: Route, b: Route| route_le(a, b)) && 0 <= i < j < routes.len()
            && nickname_key(routes[i].nickname@) == KeyView::Named(s, n1) && nickname_key(
            routes[j].nickname@,
        ) == KeyView::Named(s, n2) ==> n1 <= n2,
{
    if sorted_by(routes, |a: Route, b: Route| route_le(a, b)) && 0 <= i < j < routes.len() {
        let le = |a: Route, b: Route| route_le(a, b);
        assert(le(routes[i], routes[j]));
    }
}

/// Whether one key comes no later than another.
fn key_at_most(a: &RouteKey, b: &RouteKey) -> (le: bool)
    ensures
        le == key_le(a.plain(), b.plain()),
{
    match (a, b) {
        (RouteKey::Numbered(n1, r1), RouteKey::Numbered(n2, r2)) => {
            if *n1 != *n2 {
                return *n1 < *n2;
            }
            let x = chars_of(r1);
            let y = chars_of(r2);
            text_at_most(x.as_slice(), y.as_slice())
        },
        (RouteKey::Numbered(_, _), RouteKey::Named(_, _)) => true,
        (RouteKey::Named(_, _), RouteKey::Numbered(_, _)) => false,
        (RouteKey::Named(s1, n1), RouteKey::Named(s2, n2)) => {
            if same_text(s1, s2) {
                return *n1 <= *n2;
            }
            let x = chars_of(s1);
            let y = chars_of(s2);
            text_at_most(x.as_slice(), y.as_slice())
        },
    }
}

// ---------------------------------------------------------------------------
// Stops
// ---------------------------------------------------------------------------

/// Two optional departments, absent before present, present ones by text.
pub open spec fn department_le(a: Option<String>, b: Option<String>) -> bool {
    match (a, b) {
        (None, _) => true,
        (Some(_), None) => false,
        (Some(x), Some(y)) => text_le(x@, y@),
    }
}

/// What decides where a stop prints: sequenced stops in ascending sequence,
/// then the unsequenced ones, with address, department and order id breaking
/// ties so two runs of one file print identically.
pub open spec fn stop_le(a: Order, b: Order) -> bool {
    let sa = a.sequence != 0;
    let sb = b.sequence != 0;
    if sa != sb {
        sa
    } else if a.sequence != b.sequence {
        a.sequence < b.sequence
    } else if a.delivery_street@ != b.delivery_street@ {
        text_le(a.delivery_street@, b.delivery_street@)
    } else if !same_department(a.department, b.department) {
        department_le(a.department, b.department)
    } else {
        a.id <= b.id
    }
}

/// Stops in printing order are in the order a driver drives them: every
/// stop with a position before every stop without one, positions rising,
/// and stops that share a position in address order.
pub proof fn lemma_driving_order(stops: Seq<Order>, i: int, j: int)
    requires
        sorted_by(stops, |a: Order, b: Order| stop_le(a, b)),
        0 <= i < j < stops.len(),
    ensures
        stops[i].sequence == 0 ==> stops[j].sequence == 0,
        stops[i].sequence != 0 && stops[j].sequence != 0 ==> stops[i].sequence <= stops[j].sequence,
        stops[i].sequence == stops[j].sequence && stops[i].delivery_street@ != stops[j].delivery_street@
            ==> text_le(stops[i].delivery_street@, stops[j].delivery_street@),
{
    let le = |a: Order, b: Order| stop_le(a, b);
    assert(le(stops[i], stops[j]));
}

/// Whether two optional departments say the same.
pub open spec fn same_department(a: Option<String>, b: Option<String>) -> bool {
    match (a, b) {
        (None, None) => true,
        (Some(x), Some(y)) => x@ == y@,
        _ => false,
    }
}

proof fn lemma_department_order(a: Option<String>, b: Option<String>, c: Option<String>)
    ensures
        department_le(a, b) || department_le(b, a),
        department_le(a, b) && department_le(b, a) ==> same_department(a, b),
        department_le(a, b) && department_le(b, c) ==> department_le(a, c),
        same_department(a, b) && same_department(b, c) ==> same_department(a, c),
        same_department(a, b) ==> same_department(b, a),
        same_department(a, b) ==> (department_le(a, c) == department_le(b, c)),
        same_department(a, b) ==> (department_le(c, a) == department_le(c, b)),
{
    match (a, b, c) {
        (Some(x), Some(y), Some(z)) => {
            lemma_text_order(x@, y@, z@);
        },
        (Some(x), Some(y), None) => {
            lemma_text_order(x@, y@, y@);
        },
        _ => {},
    }
}

/// Printing order is a total preorder on stops.
pub proof fn lemma_stop_order()
    ensures
        total_preorder(|a: Order, b: Order| stop_le(a, b)),
{
    let le = |a: Order, b: Order| stop_le(a, b);
    assert forall|a: Order, b: Order, c: Order| #[trigger] le(a, b) && #[trigger] le(b, c) implies le(
        a,
        c,
    ) by {
        lemma_text_order(a.delivery_street@, b.delivery_street@, c.delivery_street@);
        lemma_text_order(b.delivery_street@, a.delivery_street@, c.delivery_street@);
        lemma_department_order(a.department, b.department, c.department);
        lemma_department_order(b.department, a.department, c.department);
        lemma_department_order(a.department, c.department, b.department);
    }
    assert forall|a: Order, b: Order| #[trigger] le(a, b) || #[trigger] le(b, a) by {
        lemma_text_order(a.delivery_street@, b.delivery_street@, b.delivery_street@);
        lemma_department_order(a.department, b.department, b.department);
        lemma_department_order(b.department, a.department, a.department);
    }
}

/// Whether two optional departments say the same, computed.
fn departments_match(a: &Option<String>, b: &Option<String>) -> (same: bool)
    ensures
        same == same_department(*a, *b),
{
    match (a, b) {
        (None, None) => true,
        (Some(x), Some(y)) => same_text(x.as_str(), y.as_str()),
        _ => false,
    }
}

/// Whether one optional department comes no later than another, computed.
fn department_at_most(a: &Option<String>, b: &Option<String>) -> (le: bool)
    ensures
        le == department_le(*a, *b),
{
    match (a, b) {
        (None, _) => true,
        (Some(_), None) => false,
        (Some(x), Some(y)) => {
            let p = chars_of(x.as_str());
            let q = chars_of(y.as_str());
            text_at_most(p.as_slice(), q.as_slice())
        },
    }
}

/// Whether one stop prints no later than another.
fn stop_at_most(a: &Order, b: &Order) -> (le: bool)
    ensures
        le == stop_le(*a, *b),
{
    let sa = a.sequence != 0;
    let sb = b.sequence != 0;
    if sa != sb {
        return sa;
    }
    if a.sequence != b.sequence {
        return a.sequence < b.sequence;
    }
    if !same_text(a.delivery_street.as_str(), b.delivery_street.as_str()) {
        let p = chars_of(a.delivery_street.as_str());
        let q = chars_of(b.delivery_street.as_str());
        return text_at_most(p.as_slice(), q.as_slice());
    }
    if !departments_match(&a.department, &b.department) {
        return department_at_most(&a.department, &b.department);
    }
    a.id <= b.id
}

/// Puts a route's stops into the order a driver drives them: sequenced stops
/// in ascending sequence, then the unsequenced ones, with address, department
/// and order id breaking ties.
pub fn sort_stops(stops: &mut Vec<Order>)
    ensures
        final(stops)@.to_multiset() == old(stops)@.to_multiset(),
        sorted_by(final(stops)@, |a: Order, b: Order| stop_le(a, b)),
{
    let mut items: Vec<Order> = Vec::new();
    std::mem::swap(&mut items, stops);
    proof {
        lemma_stop_order();
    }
    let sorted = sort_by(items, stop_at_most, Ghost(|a: Order, b: Order| stop_le(a, b)));
    *stops = sorted;
}

// ---------------------------------------------------------------------------
// Routes
// ---------------------------------------------------------------------------

/// The orders on the route called `nickname`, in the order given.
pub open spec fn on_route(orders: Seq<Order>, nickname: Seq<char>) -> Seq<Order>
    decreases orders.len(),
{
    if orders.len() == 0 {
        seq![]
    } else {
        let rest = on_route(orders.drop_first(), nickname);
        if orders[0].route@ == nickname {
            seq![orders[0]] + rest
        } else {
            rest
        }
    }
}

/// The key a route sorts by.
pub open spec fn route_key(route: Route) -> KeyView {
    nickname_key(route.nickname@)
}

/// Printing order for routes: by the key of their nickname, and two
/// nicknames with the same key by their text.
pub open spec fn route_le(a: Route, b: Route) -> bool {
    key_le(route_key(a), route_key(b)) && (key_le(route_key(b), route_key(a)) ==> text_le(
        a.nickname@,
        b.nickname@,
    ))
}

/// Printing order for routes is a total preorder.
pub proof fn lemma_route_order()
    ensures
        total_preorder(|a: Route, b: Route| route_le(a, b)),
{
    let le = |a: Route, b: Route| route_le(a, b);
    assert forall|a: Route, b: Route, c: Route| #[trigger] le(a, b) && #[trigger] le(b, c) implies le(
        a,
        c,
    ) by {
        lemma_key_order(route_key(a), route_key(b), route_key(c));
        lemma_key_order(route_key(b), route_key(c), route_key(a));
        lemma_key_order(route_key(c), route_key(a), route_key(b));
        lemma_text_order(a.nickname@, b.nickname@, c.nickname@);
    }
    assert forall|a: Route, b: Route| #[trigger] le(a, b) || #[trigger] le(b, a) by {
        lemma_key_order(route_key(a), route_key(b), route_key(b));
        lemma_text_order(a.nickname@, b.nickname@, b.nickname@);
    }
}

/// Whether one route prints no later than another.
fn route_at_most(a: &Route, b: &Route) -> (le: bool)
    ensures
        le == route_le(*a, *b),
{
    let ka = key_for(a.nickname.as_str());
    let kb = key_for(b.nickname.as_str());
    if !key_at_most(&ka, &kb) {
        return false;
    }
    if !key_at_most(&kb, &ka) {
        return true;
    }
    let x = chars_of(a.nickname.as_str());
    let y = chars_of(b.nickname.as_str());
    text_at_most(x.as_slice(), y.as_slice())
}

/// Nothing on a route but the orders of that route.
proof fn lemma_on_route_skip(orders: Seq<Order>, m: int, nickname: Seq<char>)
    requires
        0 < m <= orders.len(),
    ensures
        on_route(orders.skip(m - 1), nickname) == (if orders[m - 1].route@ == nickname {
            seq![orders[m - 1]] + on_route(orders.skip(m), nickname)
        } else {
            on_route(orders.skip(m), nickname)
        }),
{
    assert(orders.skip(m - 1).drop_first() =~= orders.skip(m));
    assert(orders.skip(m - 1)[0] == orders[m - 1]);
}

/// Whether orders can be put into routes: putting routes in order keys every
/// nickname once there are two routes to compare, so then each nickname has
/// to be [`keyable`]. A single route is never compared with anything.
pub open spec fn groupable(orders: Seq<Order>) -> bool {
    forall|j: int, k: int|
        0 <= j < orders.len() && 0 <= k < orders.len() && (#[trigger] orders[j]).route@ != (
        #[trigger] orders[k]).route@ ==> keyable(orders[j].route@)
}

/// Whether orders can be put into routes: see [`groupable`].
pub fn can_group(orders: &Vec<Order>) -> (ok: bool)
    ensures
        ok == groupable(orders@),
{
    if orders.len() == 0 {
        return true;
    }
    let first = &orders[0];
    let mut several = false;
    let mut i: usize = 0;
    while i < orders.len()
        invariant
            0 <= i <= orders@.len(),
            orders@.len() > 0,
            *first == orders@[0],
            several == exists|k: int| 0 <= k < i && (#[trigger] orders@[k]).route@ != first.route@,
        decreases orders@.len() - i,
    {
        if !same_text(orders[i].route.as_str(), first.route.as_str()) {
            several = true;
        }
        i = i + 1;
    }
    if !several {
        proof {
            assert forall|j: int, k: int|
                0 <= j < orders@.len() && 0 <= k < orders@.len() && (#[trigger] orders@[j]).route@ != (
                #[trigger] orders@[k]).route@ implies keyable(orders@[j].route@) by {
                assert(orders@[j].route@ == first.route@);
                assert(orders@[k].route@ == first.route@);
            }
        }
        return true;
    }
    let ghost other = choose|k: int| 0 <= k < orders@.len() && (#[trigger] orders@[k]).route@ != first.route@;
    let mut m: usize = 0;
    while m < orders.len()
        invariant
            0 <= m <= orders@.len(),
            orders@.len() > 0,
            *first == orders@[0],
            0 <= other < orders@.len(),
            orders@[other].route@ != first.route@,
            forall|j: int| 0 <= j < m ==> keyable((#[trigger] orders@[j]).route@),
        decreases orders@.len() - m,
    {
        if !keyable_nickname(orders[m].route.as_str()) {
            proof {
                if orders@[m as int].route@ != first.route@ {
                    assert(orders@[m as int].route@ != orders@[0].route@);
                } else {
                    assert(orders@[m as int].route@ != orders@[other].route@);
                }
            }
            return false;
        }
        m = m + 1;
    }
    true
}

/// Groups orders into routes, both in printing order.
///
/// Each route holds exactly the orders whose route it is, sorted by
/// [`sort_stops`]; every order's route is there, once; and the routes come
/// out in natural order of their nicknames (see [`natural_key`]), two
/// nicknames with the same key in text order.
pub fn group(orders: Vec<Order>) -> (routes: Vec<Route>)
    requires
        groupable(orders@),
    ensures
        forall|i: int, k: int|
            0 <= i < routes@.len() && 0 <= k < routes@[i].stops@.len() ==> (#[trigger] routes@[i].stops@[k]).route@
                == routes@[i].nickname@,
        forall|i: int|
            0 <= i < routes@.len() ==> (#[trigger] routes@[i]).stops@.to_multiset() == on_route(
                orders@,
                routes@[i].nickname@,
            ).to_multiset(),
        forall|i: int| 0 <= i < routes@.len() ==> (#[trigger] routes@[i]).stops@.len() > 0,
        forall|i: int, j: int|
            0 <= i < j < routes@.len() ==> (#[trigger] routes@[i]).nickname@ != (
            #[trigger] routes@[j]).nickname@,
        forall|k: int|
            0 <= k < orders@.len() ==> exists|i: int|
                0 <= i < routes@.len() && (#[trigger] routes@[i]).nickname@ == (
                #[trigger] orders@[k]).route@,
        sorted_by(routes@, |a: Route, b: Route| route_le(a, b)),
        forall|i: int|
            0 <= i < routes@.len() ==> sorted_by(
                (#[trigger] routes@[i]).stops@,
                |a: Order, b: Order| stop_le(a, b),
            ),
{
    let ghost all = orders@;
    let mut rest = orders;
    let mut groups: Vec<Route> = Vec::new();
    while rest.len() > 0
        invariant
            rest@ == all.take(rest@.len() as int),
            rest@.len() <= all.len(),
            forall|g: int|
                0 <= g < groups@.len() ==> (#[trigger] groups@[g]).stops@.to_multiset() == on_route(
                    all.skip(rest@.len() as int),
                    groups@[g].nickname@,
                ).to_multiset(),
            forall|g: int| 0 <= g < groups@.len() ==> (#[trigger] groups@[g]).stops@.len() > 0,
            forall|g: int, h: int|
                0 <= g < groups@.len() && 0 <= h < groups@.len() && g != h ==> (
                #[trigger] groups@[g]).nickname@ != (#[trigger] groups@[h]).nickname@,
            forall|k: int|
                rest@.len() <= k < all.len() ==> exists|g: int|
                    0 <= g < groups@.len() && (#[trigger] groups@[g]).nickname@ == (
                    #[trigger] all[k]).route@,
        decreases rest@.len(),
    {
        let ghost m = rest@.len() as int;
        let order = rest.pop().unwrap();
        proof {
            assert(all.take(m)[m - 1] == all[m - 1]);
            assert(rest@ =~= all.take(m - 1));
        }
        let mut found: Option<usize> = None;
        let mut g: usize = 0;
        while g < groups.len()
            invariant
                0 <= g <= groups@.len(),
                found matches Some(f) ==> f < groups@.len() && groups@[f as int].nickname@
                    == order.route@,
                found is None ==> forall|h: int| 0 <= h < g ==> (#[trigger] groups@[h]).nickname@
                    != order.route@,
            decreases groups@.len() - g,
        {
            if found.is_none() && same_text(groups[g].nickname.as_str(), order.route.as_str()) {
                found = Some(g);
            }
            g = g + 1;
        }
        let ghost old_groups = groups@;
        match found {
            Some(f) => {
                let mut route = groups.remove(f);
                let ghost old_stops = route.stops@;
                route.stops.push(order);
                groups.insert(f, route);
                proof {
                    assert(groups@ =~= old_groups.update(f as int, groups@[f as int]));
                    assert forall|h: int| 0 <= h < groups@.len() implies (#[trigger] groups@[h]).stops@.to_multiset()
                        == on_route(all.skip(m - 1), groups@[h].nickname@).to_multiset() by {
                        lemma_on_route_skip(all, m, groups@[h].nickname@);
                        if h == f {
                            assert(groups@[h].stops@ =~= old_stops.push(all[m - 1]));
                            assert(old_groups[h].nickname@ == all[m - 1].route@);
                            let tail = on_route(all.skip(m), groups@[h].nickname@);
                            vstd::seq_lib::lemma_multiset_commutative(seq![all[m - 1]], tail);
                            assert(seq![all[m - 1]].to_multiset() =~= Multiset::empty().insert(all[m - 1])) by {
                                assert(Seq::<Order>::empty().push(all[m - 1]) =~= seq![all[m - 1]]);
                            }
                            assert(groups@[h].stops@.to_multiset() =~= old_stops.to_multiset().insert(all[m - 1]));
                        } else {
                            assert(groups@[h] == old_groups[h]);
                            assert(old_groups[h].nickname@ != old_groups[f as int].nickname@);
                        }
                    }
                    assert forall|k: int| m - 1 <= k < all.len() implies exists|g: int|
                        0 <= g < groups@.len() && (#[trigger] groups@[g]).nickname@ == (
                        #[trigger] all[k]).route@ by {
                        if k == m - 1 {
                            assert(groups@[f as int].nickname@ == all[k].route@);
                        } else {
                            let w = choose|w: int| 0 <= w < old_groups.len() && (#[trigger] old_groups[w]).nickname@ == all[k].route@;
                            assert(groups@[w].nickname@ == old_groups[w].nickname@);
                        }
                    }
                }
            },
            None => {
                let nickname = order.route.clone();
                let route = Route { nickname, stops: vec![order] };
                groups.push(route);
                proof {
                    let n = groups@.len() - 1;
                    assert forall|h: int| 0 <= h < groups@.len() implies (#[trigger] groups@[h]).stops@.to_multiset()
                        == on_route(all.skip(m - 1), groups@[h].nickname@).to_multiset() by {
                        lemma_on_route_skip(all, m, groups@[h].nickname@);
                        if h == n {
                            lemma_on_route_absent(all.skip(m), groups@[h].nickname@, old_groups, m, all);
                            assert(groups@[h].stops@ =~= seq![all[m - 1]]);
                            assert(seq![all[m - 1]] + Seq::<Order>::empty() =~= seq![all[m - 1]]);
                        } else {
                            assert(groups@[h] == old_groups[h]);
                        }
                    }
                    assert forall|k: int| m - 1 <= k < all.len() implies exists|g: int|
                        0 <= g < groups@.len() && (#[trigger] groups@[g]).nickname@ == (
                        #[trigger] all[k]).route@ by {
                        if k == m - 1 {
                            assert(groups@[n].nickname@ == all[k].route@);
                        } else {
                            let w = choose|w: int| 0 <= w < old_groups.len() && (#[trigger] old_groups[w]).nickname@ == all[k].route@;
                            assert(groups@[w] == old_groups[w]);
                        }
                    }
                }
            },
        }
    }
    proof {
        assert(all.skip(0) =~= all);
    }
    // Each route's stops into delivery order.
    let mut ready: Vec<Route> = Vec::new();
    let ghost grouped = groups@;
    while groups.len() > 0
        invariant
            groups@ =~= grouped.take(groups@.len() as int),
            groups@.len() <= grouped.len(),
            ready@.len() + groups@.len() == grouped.len(),
            forall|r: int|
                0 <= r < ready@.len() ==> (#[trigger] ready@[r]).nickname == grouped[grouped.len() - 1 - r].nickname
                    && ready@[r].stops@.to_multiset() == grouped[grouped.len() - 1 - r].stops@.to_multiset()
                    && sorted_by(ready@[r].stops@, |a: Order, b: Order| stop_le(a, b)),
        decreases groups@.len(),
    {
        let ghost before = groups@;
        let mut route = groups.pop().unwrap();
        proof {
            assert(before[before.len() - 1] == route);
            assert(groups@ =~= grouped.take(groups@.len() as int));
        }
        sort_stops(&mut route.stops);
        ready.push(route);
    }
    // Routes into natural order.
    let ghost unsorted = ready@;
    let routes = sort_routes(ready);
    proof {
        assert forall|i: int| 0 <= i < routes@.len() implies exists|r: int|
            0 <= r < unsorted.len() && (#[trigger] routes@[i]) == unsorted[r] by {
            assert(routes@.contains(routes@[i]));
            assert(routes@.to_multiset().count(routes@[i]) > 0);
            assert(unsorted.contains(routes@[i]));
        }
        assert forall|i: int|
            0 <= i < routes@.len() implies (#[trigger] routes@[i]).stops@.to_multiset() == on_route(
            all,
            routes@[i].nickname@,
        ).to_multiset() && routes@[i].stops@.len() > 0 && sorted_by(
            routes@[i].stops@,
            |a: Order, b: Order| stop_le(a, b),
        ) by {
            let r = choose|r: int| 0 <= r < unsorted.len() && routes@[i] == unsorted[r];
            let g = grouped.len() - 1 - r;
            assert(unsorted[r].stops@.len() == unsorted[r].stops@.to_multiset().len());
            assert(grouped[g].stops@.len() == grouped[g].stops@.to_multiset().len());
        }
        // No two routes share a nickname.
        lemma_reversed_distinct(grouped, unsorted);
        unsorted.lemma_multiset_has_no_duplicates();
        routes@.lemma_multiset_has_no_duplicates_conv();
        assert forall|i: int, j: int|
            0 <= i < j < routes@.len() implies (#[trigger] routes@[i]).nickname@ != (
            #[trigger] routes@[j]).nickname@ by {
            let r = choose|r: int| 0 <= r < unsorted.len() && routes@[i] == unsorted[r];
            let q = choose|q: int| 0 <= q < unsorted.len() && routes@[j] == unsorted[q];
            assert(routes@[i] != routes@[j]);
        }
        assert forall|k: int| 0 <= k < all.len() implies exists|i: int|
            0 <= i < routes@.len() && (#[trigger] routes@[i]).nickname@ == (#[trigger] all[k]).route@ by {
            let g = choose|g: int| 0 <= g < grouped.len() && (#[trigger] grouped[g]).nickname@ == all[k].route@;
            let r = grouped.len() - 1 - g;
            assert(unsorted[r].nickname == grouped[g].nickname);
            assert(unsorted.contains(unsorted[r]));
            assert(unsorted.to_multiset().count(unsorted[r]) > 0);
            assert(routes@.contains(unsorted[r]));
        }
        assert forall|i: int, k: int|
            0 <= i < routes@.len() && 0 <= k < routes@[i].stops@.len() implies (
            #[trigger] routes@[i].stops@[k]).route@ == routes@[i].nickname@ by {
            let stops = routes@[i].stops@;
            assert(stops.contains(stops[k]));
            assert(stops.to_multiset().count(stops[k]) > 0);
            lemma_on_route_has_route(all, routes@[i].nickname@, stops[k]);
        }
    }
    routes
}

/// Sorts routes into printing order.
fn sort_routes(routes: Vec<Route>) -> (sorted: Vec<Route>)
    ensures
        sorted@.to_multiset() == routes@.to_multiset(),
        sorted_by(sorted@, |a: Route, b: Route| route_le(a, b)),
{
    proof {
        lemma_route_order();
    }
    sort_by(routes, route_at_most, Ghost(|a: Route, b: Route| route_le(a, b)))
}

/// A route absent from the groups so far has no orders among those seen.
proof fn lemma_on_route_absent(seen: Seq<Order>, nickname: Seq<char>, groups: Seq<Route>, m: int, all: Seq<Order>)
    requires
        seen == all.skip(m),
        0 < m <= all.len(),
        forall|k: int| m <= k < all.len() ==> exists|g: int|
            0 <= g < groups.len() && (#[trigger] groups[g]).nickname@ == (#[trigger] all[k]).route@,
        forall|h: int| 0 <= h < groups.len() ==> (#[trigger] groups[h]).nickname@ != nickname,
    ensures
        on_route(seen, nickname) == Seq::<Order>::empty(),
{
    assert forall|k: int| 0 <= k < seen.len() implies (#[trigger] seen[k]).route@ != nickname by {
        assert(seen[k] == all[m + k]);
        let g = choose|g: int| 0 <= g < groups.len() && (#[trigger] groups[g]).nickname@ == all[m + k].route@;
    }
    lemma_on_route_none(seen, nickname);
}

proof fn lemma_on_route_none(seen: Seq<Order>, nickname: Seq<char>)
    requires
        forall|k: int| 0 <= k < seen.len() ==> (#[trigger] seen[k]).route@ != nickname,
    ensures
        on_route(seen, nickname) == Seq::<Order>::empty(),
    decreases seen.len(),
{
    if seen.len() > 0 {
        assert forall|k: int| 0 <= k < seen.drop_first().len() implies (
        #[trigger] seen.drop_first()[k]).route@ != nickname by {
            assert(seen.drop_first()[k] == seen[k + 1]);
        }
        lemma_on_route_none(seen.drop_first(), nickname);
    }
}

/// Everything on a route is an order of that route, from the given orders.
proof fn lemma_on_route_has_route(orders: Seq<Order>, nickname: Seq<char>, order: Order)
    requires
        on_route(orders, nickname).to_multiset().count(order) > 0,
    ensures
        order.route@ == nickname,
        orders.contains(order),
    decreases orders.len(),
{
    if orders.len() > 0 {
        let rest = on_route(orders.drop_first(), nickname);
        if orders[0].route@ == nickname && order == orders[0] {
        } else {
            if orders[0].route@ == nickname {
                vstd::seq_lib::lemma_multiset_commutative(seq![orders[0]], rest);
            }
            lemma_on_route_has_route(orders.drop_first(), nickname, order);
            let w = choose|w: int| 0 <= w < orders.drop_first().len() && orders.drop_first()[w] == order;
            assert(orders[w + 1] == order);
        }
    }
}

/// Reversing a list of routes keeps them distinct.
proof fn lemma_reversed_distinct(grouped: Seq<Route>, reversed: Seq<Route>)
    requires
        grouped.len() == reversed.len(),
        forall|r: int| 0 <= r < reversed.len() ==> (#[trigger] reversed[r]).nickname == grouped[grouped.len() - 1 - r].nickname,
        forall|g: int, h: int|
            0 <= g < grouped.len() && 0 <= h < grouped.len() && g != h ==> (
            #[trigger] grouped[g]).nickname@ != (#[trigger] grouped[h]).nickname@,
    ensures
        reversed.no_duplicates(),
{
    assert forall|i: int, j: int| 0 <= i < reversed.len() && 0 <= j < reversed.len() && i != j implies reversed[i] != reversed[j] by {
        assert(grouped[grouped.len() - 1 - i].nickname@ != grouped[grouped.len() - 1 - j].nickname@);
    }
}

} // verus!
