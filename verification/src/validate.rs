//! Checking a file that read cleanly for the things that would make its
//! printed pages wrong.
//!
//! Every rule the printed page relies on held across the exports seen so
//! far. That is not proof, so the loader checks rather than assumes, and
//! reports what it finds instead of refusing the file.

use vstd::prelude::*;

use crate::chars::{
    all_digits, chars_of, debug_quoted, debug_text, decimal, decimal_text, last_occurrence,
    push_char, push_chars, push_str, rfind, slice_of,
};
use crate::grouping::{
    copy_key, distinct_keys, key_less, key_lt, key_view, lemma_key_order, lemma_ordered_members,
    ordered, views, Key,
};
use crate::sheet::SheetRow;

verus! {

/// How much a finding should worry the user.
#[derive(Debug, Clone, Copy, PartialEq, Eq, Structural, PartialOrd, Ord)]
pub enum Severity {
    /// The printed pages would be wrong. Do not print until it is resolved.
    Blocking,
    /// Something to look at, but the pages are still usable.
    Warning,
    /// The file contains something this app has not seen before.
    Notice,
}

/// Which check produced a finding. The text is for the reader; this is for
/// grouping, filtering and tests.
#[derive(Debug, Clone, Copy, PartialEq, Eq, Structural, PartialOrd, Ord)]
pub enum FindingKind {
    /// A required cell holds an empty string.
    BlankRequiredField,
    /// Lines of one order disagree about something that belongs to the order.
    OrderLinesDisagree,
    /// One delivery address appears on more than one route.
    AddressOnTwoRoutes,
    /// A stop sequence other than `0` is used by more than one address
    /// within one route.
    RepeatedStopSequence,
    /// One product identifier carries more than one name, SKU or supplier.
    ProductDetailsDisagree,
    /// A value this app has never seen in that column before.
    UnfamiliarValue,
}

/// Something worth telling the user about the file they opened.
#[derive(Debug, Clone, PartialEq, Eq)]
pub struct Finding {
    pub severity: Severity,
    pub kind: FindingKind,
    /// One line, for the findings list.
    pub headline: String,
    /// The specifics, for when they open it.
    pub detail: String,
    /// Worksheet rows involved, so the user can go and look.
    pub rows: Vec<usize>,
}

/// A finding as its reader sees it.
pub type Seen = (Severity, FindingKind, Seq<char>, Seq<char>, Seq<usize>);

impl Finding {
    /// What the finding says.
    pub open spec fn seen(self) -> Seen {
        (self.severity, self.kind, self.headline@, self.detail@, self.rows@)
    }
}

/// What a run of findings says.
pub open spec fn seen_all(findings: Seq<Finding>) -> Seq<Seen> {
    findings.map_values(|f: Finding| f.seen())
}

// ---------------------------------------------------------------------------
// Text
// ---------------------------------------------------------------------------

/// An integer as `{}` writes it.
pub open spec fn signed(n: int) -> Seq<char> {
    if n < 0 {
        seq!['-'] + decimal((-n) as nat)
    } else {
        decimal(n as nat)
    }
}

/// Texts with a separator between each two.
pub open spec fn joined_by(ws: Seq<Seq<char>>, separator: Seq<char>) -> Seq<char>
    decreases ws.len(),
{
    if ws.len() == 0 {
        Seq::empty()
    } else if ws.len() == 1 {
        ws[0]
    } else {
        joined_by(ws.drop_last(), separator) + separator + ws.last()
    }
}

/// `"a", "b" and "c"`: each text quoted, for a sentence.
pub open spec fn quoted_list(texts: Seq<Seq<char>>) -> Seq<char> {
    let quoted = texts.map_values(|t: Seq<char>| debug_text(t));
    if quoted.len() == 0 {
        Seq::empty()
    } else if quoted.len() == 1 {
        quoted[0]
    } else {
        joined_by(quoted.drop_last(), ", "@) + " and "@ + quoted.last()
    }
}

/// The distinct texts of a run, in text order, as a sorted set gives them.
pub open spec fn ordered_texts(texts: Seq<Seq<char>>) -> Seq<Seq<char>> {
    ordered(texts.map_values(|t: Seq<char>| (t, 0int)).to_set()).map_values(|k: Key| k.0)
}

/// Writes an integer.
pub(crate) fn signed_text(n: i64) -> (text: String)
    ensures
        text@ == signed(n as int),
{
    if n < 0 {
        let magnitude: u64 = if n == i64::MIN {
            9223372036854775808
        } else {
            (-n) as u64
        };
        let mut text = String::new();
        push_char(&mut text, '-');
        push_str(&mut text, decimal_text(magnitude).as_str());
        text
    } else {
        decimal_text(n as u64)
    }
}

/// Appends texts with a separator between each two.
fn push_joined(out: &mut String, texts: &Vec<Vec<char>>, separator: &str)
    ensures
        final(out)@ == old(out)@ + joined_by(texts@.map_values(|t: Vec<char>| t@), separator@),
{
    let ghost all = texts@.map_values(|t: Vec<char>| t@);
    let ghost start = out@;
    let mut i: usize = 0;
    while i < texts.len()
        invariant
            0 <= i <= texts@.len(),
            all == texts@.map_values(|t: Vec<char>| t@),
            out@ == start + joined_by(all.take(i as int), separator@),
        decreases texts@.len() - i,
    {
        if i > 0 {
            push_str(out, separator);
        }
        push_chars(out, texts[i].as_slice());
        proof {
            let next = all.take(i + 1);
            assert(next.drop_last() =~= all.take(i as int));
            assert(next.last() == texts@[i as int]@);
            if i == 0 {
                assert(next.len() == 1);
                assert(all.take(0).len() == 0);
            }
        }
        i = i + 1;
    }
    proof {
        assert(all.take(texts@.len() as int) =~= all);
    }
}

/// `"a", "b" and "c"`.
fn quoted(texts: &Vec<Vec<char>>) -> (text: String)
    ensures
        text@ == quoted_list(texts@.map_values(|t: Vec<char>| t@)),
{
    let ghost all = texts@.map_values(|t: Vec<char>| t@);
    let mut marks: Vec<Vec<char>> = Vec::new();
    let mut i: usize = 0;
    while i < texts.len()
        invariant
            0 <= i <= texts@.len(),
            all == texts@.map_values(|t: Vec<char>| t@),
            marks@.map_values(|t: Vec<char>| t@) == all.take(i as int).map_values(|t: Seq<char>| debug_text(t)),
        decreases texts@.len() - i,
    {
        let text = crate::chars::string_of(texts[i].as_slice());
        let mark = debug_quoted(text.as_str());
        let ghost before = marks@.map_values(|t: Vec<char>| t@);
        let piece = chars_of(mark.as_str());
        marks.push(piece);
        proof {
            assert(piece@ == debug_text(all[i as int]));
            assert(marks@.map_values(|t: Vec<char>| t@) =~= before.push(piece@));
            assert(marks@.map_values(|t: Vec<char>| t@) =~= all.take(i + 1).map_values(
                |t: Seq<char>| debug_text(t),
            ));
        }
        i = i + 1;
    }
    proof {
        assert(all.take(texts@.len() as int) =~= all);
    }
    let ghost marked = marks@.map_values(|t: Vec<char>| t@);
    let mut text = String::new();
    if marks.len() == 0 {
        return text;
    }
    if marks.len() == 1 {
        push_chars(&mut text, marks[0].as_slice());
        return text;
    }
    let last = marks.pop().unwrap();
    proof {
        assert(marks@.map_values(|t: Vec<char>| t@) =~= marked.drop_last());
    }
    push_joined(&mut text, &marks, ", ");
    push_str(&mut text, " and ");
    push_chars(&mut text, last.as_slice());
    text
}

// ---------------------------------------------------------------------------
// Groups
// ---------------------------------------------------------------------------

/// What rows are grouped by.
#[derive(Debug, Clone, Copy, PartialEq, Eq, Structural)]
pub enum Grouping {
    /// The order a line belongs to.
    Order,
    /// The delivery address.
    Street,
    /// The stop: the route's nickname and the position on it.
    Stop,
    /// The product.
    Product,
}

/// A row's key under a grouping.
pub open spec fn group_key(row: SheetRow, by: Grouping) -> Key {
    match by {
        Grouping::Order => (Seq::<char>::empty(), row.order_id as int),
        Grouping::Street => (row.delivery_street@, 0int),
        Grouping::Stop => (row.route_nickname@, row.route_ordering as int),
        Grouping::Product => (Seq::<char>::empty(), row.product_id as int),
    }
}

/// Each distinct key once, in key order, as a sorted map holds them.
pub open spec fn groups(rows: Seq<SheetRow>, by: Grouping) -> Seq<Key> {
    ordered(rows.map_values(|row: SheetRow| group_key(row, by)).to_set())
}

/// The rows with a given key, in file order.
pub open spec fn members(rows: Seq<SheetRow>, by: Grouping, key: Key) -> Seq<SheetRow>
    decreases rows.len(),
{
    if rows.len() == 0 {
        Seq::empty()
    } else {
        let earlier = members(rows.drop_last(), by, key);
        if group_key(rows.last(), by) == key {
            earlier.push(rows.last())
        } else {
            earlier
        }
    }
}

/// The worksheet rows a run of lines came from.
pub open spec fn excel_rows(lines: Seq<SheetRow>) -> Seq<usize> {
    lines.map_values(|row: SheetRow| row.excel_row)
}

/// Whether some row has a given key.
pub open spec fn some_row_has(rows: Seq<SheetRow>, by: Grouping, key: Key) -> bool {
    exists|i: int| 0 <= i < rows.len() && group_key(rows[i], by) == key
}

/// A row's key under a grouping.
fn key_of(row: &SheetRow, by: Grouping) -> (key: (Vec<char>, i64))
    ensures
        key_view(key) == group_key(*row, by),
{
    match by {
        Grouping::Order => (Vec::new(), row.order_id),
        Grouping::Street => (chars_of(row.delivery_street.as_str()), 0),
        Grouping::Stop => (chars_of(row.route_nickname.as_str()), row.route_ordering as i64),
        Grouping::Product => (Vec::new(), row.product_id as i64),
    }
}

/// Whether two keys are the same.
fn same_key(a: &(Vec<char>, i64), b: &(Vec<char>, i64)) -> (same: bool)
    ensures
        same == (key_view(*a) == key_view(*b)),
{
    proof {
        lemma_key_order(key_view(*a), key_view(*b), key_view(*a));
    }
    !key_less(a, b) && !key_less(b, a)
}

/// The keys a grouping finds, each once, in key order.
pub(crate) fn group_keys(rows: &Vec<SheetRow>, by: Grouping) -> (keys: Vec<(Vec<char>, i64)>)
    ensures
        views(keys@) == groups(rows@, by),
        forall|j: int| 0 <= j < keys@.len() ==> some_row_has(rows@, by, key_view(#[trigger] keys@[j])),
{
    let mut all: Vec<(Vec<char>, i64)> = Vec::new();
    let mut i: usize = 0;
    while i < rows.len()
        invariant
            0 <= i <= rows@.len(),
            views(all@) == rows@.take(i as int).map_values(|row: SheetRow| group_key(row, by)),
        decreases rows@.len() - i,
    {
        let ghost before = all@;
        let key = key_of(&rows[i], by);
        all.push(key);
        proof {
            assert(views(all@) =~= views(before).push(key_view(key)));
            assert(views(all@) =~= rows@.take(i + 1).map_values(|row: SheetRow| group_key(row, by)));
        }
        i = i + 1;
    }
    proof {
        assert(rows@.take(rows@.len() as int) =~= rows@);
    }
    let keys = distinct_keys(&all);
    proof {
        let listed = rows@.map_values(|row: SheetRow| group_key(row, by));
        assert forall|j: int| 0 <= j < keys@.len() implies some_row_has(rows@, by, key_view(#[trigger] keys@[j])) by {
            assert(views(keys@)[j] == key_view(keys@[j]));
            assert(views(keys@).to_set().contains(key_view(keys@[j])));
            assert(listed.to_set().contains(key_view(keys@[j])));
            let i = choose|i: int| 0 <= i < listed.len() && listed[i] == key_view(keys@[j]);
            assert(group_key(rows@[i], by) == key_view(keys@[j]));
        }
    }
    keys
}

/// Where the rows with a given key sit, in file order.
fn members_of(rows: &Vec<SheetRow>, by: Grouping, key: &(Vec<char>, i64)) -> (at: Vec<usize>)
    ensures
        at@.len() == members(rows@, by, key_view(*key)).len(),
        forall|j: int| 0 <= j < at@.len() ==> #[trigger] at@[j] < rows@.len() && rows@[at@[j] as int] == members(rows@, by, key_view(*key))[j],
{
    let ghost k = key_view(*key);
    let mut at: Vec<usize> = Vec::new();
    let mut i: usize = 0;
    while i < rows.len()
        invariant
            0 <= i <= rows@.len(),
            k == key_view(*key),
            at@.len() == members(rows@.take(i as int), by, k).len(),
            forall|j: int| 0 <= j < at@.len() ==> #[trigger] at@[j] < i && rows@[at@[j] as int] == members(rows@.take(i as int), by, k)[j],
        decreases rows@.len() - i,
    {
        let here = key_of(&rows[i], by);
        proof {
            let next = rows@.take(i + 1);
            assert(next.drop_last() =~= rows@.take(i as int));
            assert(next.last() == rows@[i as int]);
        }
        if same_key(&here, key) {
            at.push(i);
        }
        i = i + 1;
    }
    proof {
        assert(rows@.take(rows@.len() as int) =~= rows@);
    }
    at
}

/// The rows with a given key, copied out in file order.
fn member_rows(rows: &Vec<SheetRow>, by: Grouping, key: &(Vec<char>, i64)) -> (lines: Vec<SheetRow>)
    ensures
        lines@ == members(rows@, by, key_view(*key)),
{
    let at = members_of(rows, by, key);
    let ghost all = members(rows@, by, key_view(*key));
    let mut lines: Vec<SheetRow> = Vec::new();
    let mut j: usize = 0;
    while j < at.len()
        invariant
            0 <= j <= at@.len(),
            at@.len() == all.len(),
            all == members(rows@, by, key_view(*key)),
            forall|m: int| 0 <= m < at@.len() ==> #[trigger] at@[m] < rows@.len() && rows@[at@[m] as int] == all[m],
            lines@ == all.take(j as int),
        decreases at@.len() - j,
    {
        let place = at[j];
        assert(place < rows@.len() && rows@[place as int] == all[j as int]);
        lines.push(rows[place].clone());
        proof {
            assert(lines@ =~= all.take(j + 1));
        }
        j = j + 1;
    }
    proof {
        assert(all.take(at@.len() as int) =~= all);
    }
    lines
}

/// The worksheet rows a run of lines came from.
fn rows_of(lines: &Vec<SheetRow>) -> (rows: Vec<usize>)
    ensures
        rows@ == excel_rows(lines@),
{
    let mut rows: Vec<usize> = Vec::new();
    let mut i: usize = 0;
    while i < lines.len()
        invariant
            0 <= i <= lines@.len(),
            rows@ == excel_rows(lines@.take(i as int)),
        decreases lines@.len() - i,
    {
        rows.push(lines[i].excel_row);
        proof {
            assert(rows@ =~= excel_rows(lines@.take(i + 1)));
        }
        i = i + 1;
    }
    proof {
        assert(lines@.take(lines@.len() as int) =~= lines@);
    }
    rows
}

// ---------------------------------------------------------------------------
// Columns read as text
// ---------------------------------------------------------------------------

/// A column a check reads as text.
#[derive(Debug, Clone, Copy, PartialEq, Eq, Structural)]
pub enum Column {
    ProductName,
    SupplierSku,
    Supplier,
    Customer,
    Department,
    DeliveryStreet,
    RouteNickname,
    RouteOrdering,
    AcceptAlternatives,
}

/// A column's value on a row, as text: an absent department is empty, a
/// number in decimal, a flag `true` or `false`.
pub open spec fn text_in(row: SheetRow, column: Column) -> Seq<char> {
    match column {
        Column::ProductName => row.product_name@,
        Column::SupplierSku => row.supplier_sku@,
        Column::Supplier => row.supplier@,
        Column::Customer => row.customer@,
        Column::Department => match row.department {
            Some(d) => d@,
            None => Seq::empty(),
        },
        Column::DeliveryStreet => row.delivery_street@,
        Column::RouteNickname => row.route_nickname@,
        Column::RouteOrdering => decimal(row.route_ordering as nat),
        Column::AcceptAlternatives => if row.accept_alternatives {
            "true"@
        } else {
            "false"@
        },
    }
}

/// A column's values over a run of lines.
pub open spec fn texts_in(lines: Seq<SheetRow>, column: Column) -> Seq<Seq<char>> {
    lines.map_values(|row: SheetRow| text_in(row, column))
}

/// A column's value on a row, as text.
fn text_of(row: &SheetRow, column: Column) -> (text: Vec<char>)
    ensures
        text@ == text_in(*row, column),
{
    match column {
        Column::ProductName => chars_of(row.product_name.as_str()),
        Column::SupplierSku => chars_of(row.supplier_sku.as_str()),
        Column::Supplier => chars_of(row.supplier.as_str()),
        Column::Customer => chars_of(row.customer.as_str()),
        Column::Department => match &row.department {
            Some(d) => chars_of(d.as_str()),
            None => Vec::new(),
        },
        Column::DeliveryStreet => chars_of(row.delivery_street.as_str()),
        Column::RouteNickname => chars_of(row.route_nickname.as_str()),
        Column::RouteOrdering => chars_of(decimal_text(row.route_ordering as u64).as_str()),
        Column::AcceptAlternatives => if row.accept_alternatives {
            chars_of("true")
        } else {
            chars_of("false")
        },
    }
}

/// Each distinct text of a run once, in text order.
fn distinct_texts(texts: &Vec<Vec<char>>) -> (out: Vec<Vec<char>>)
    ensures
        out@.map_values(|t: Vec<char>| t@) == ordered_texts(texts@.map_values(|t: Vec<char>| t@)),
{
    let ghost all = texts@.map_values(|t: Vec<char>| t@);
    let mut keys: Vec<(Vec<char>, i64)> = Vec::new();
    let mut i: usize = 0;
    while i < texts.len()
        invariant
            0 <= i <= texts@.len(),
            all == texts@.map_values(|t: Vec<char>| t@),
            views(keys@) == all.take(i as int).map_values(|t: Seq<char>| (t, 0int)),
        decreases texts@.len() - i,
    {
        let ghost before = keys@;
        let key = (slice_of(texts[i].as_slice(), 0, texts[i].len()), 0i64);
        keys.push(key);
        proof {
            assert(views(keys@) =~= views(before).push(key_view(key)));
            assert(key_view(key) == (all[i as int], 0int));
            assert(views(keys@) =~= all.take(i + 1).map_values(|t: Seq<char>| (t, 0int)));
        }
        i = i + 1;
    }
    proof {
        assert(all.take(texts@.len() as int) =~= all);
    }
    let distinct = distinct_keys(&keys);
    let ghost sorted = views(distinct@);
    let mut out: Vec<Vec<char>> = Vec::new();
    let mut j: usize = 0;
    while j < distinct.len()
        invariant
            0 <= j <= distinct@.len(),
            sorted == views(distinct@),
            out@.map_values(|t: Vec<char>| t@) == sorted.take(j as int).map_values(|k: Key| k.0),
        decreases distinct@.len() - j,
    {
        let ghost before = out@.map_values(|t: Vec<char>| t@);
        let text = slice_of(distinct[j].0.as_slice(), 0, distinct[j].0.len());
        out.push(text);
        proof {
            assert(sorted[j as int] == key_view(distinct@[j as int]));
            assert(text@ == sorted[j as int].0);
            assert(out@.map_values(|t: Vec<char>| t@) =~= before.push(text@));
            assert(out@.map_values(|t: Vec<char>| t@) =~= sorted.take(j + 1).map_values(|k: Key| k.0));
        }
        j = j + 1;
    }
    proof {
        assert(sorted.take(distinct@.len() as int) =~= sorted);
    }
    out
}

/// Each distinct value a column takes over a run of lines, in text order.
fn values_of(lines: &Vec<SheetRow>, column: Column) -> (values: Vec<Vec<char>>)
    ensures
        values@.map_values(|t: Vec<char>| t@) == ordered_texts(texts_in(lines@, column)),
{
    let mut texts: Vec<Vec<char>> = Vec::new();
    let mut i: usize = 0;
    while i < lines.len()
        invariant
            0 <= i <= lines@.len(),
            texts@.map_values(|t: Vec<char>| t@) == texts_in(lines@.take(i as int), column),
        decreases lines@.len() - i,
    {
        let ghost before = texts@.map_values(|t: Vec<char>| t@);
        let text = text_of(&lines[i], column);
        texts.push(text);
        proof {
            assert(texts@.map_values(|t: Vec<char>| t@) =~= before.push(text@));
            assert(texts@.map_values(|t: Vec<char>| t@) =~= texts_in(lines@.take(i + 1), column));
        }
        i = i + 1;
    }
    proof {
        assert(lines@.take(lines@.len() as int) =~= lines@);
    }
    distinct_texts(&texts)
}

// ---------------------------------------------------------------------------
// Blank required cells
// ---------------------------------------------------------------------------

/// The columns that must carry text, by position: a cell can exist and
/// still be blank, which the reader cannot catch on its own.
pub open spec fn required_column(c: int) -> Column {
    if c == 0 {
        Column::ProductName
    } else if c == 1 {
        Column::SupplierSku
    } else if c == 2 {
        Column::Supplier
    } else if c == 3 {
        Column::Customer
    } else if c == 4 {
        Column::DeliveryStreet
    } else {
        Column::RouteNickname
    }
}

/// A required column's header.
pub open spec fn required_name(c: int) -> Seq<char> {
    if c == 0 {
        "Product Name"@
    } else if c == 1 {
        "Supplier SKU"@
    } else if c == 2 {
        "Supplier"@
    } else if c == 3 {
        "Customer"@
    } else if c == 4 {
        "Delivery street"@
    } else {
        "Route nickname"@
    }
}

/// A required cell that is empty.
pub open spec fn blank_finding(row: SheetRow, c: int) -> Seen {
    (
        Severity::Blocking,
        FindingKind::BlankRequiredField,
        required_name(c) + " is empty on row "@ + decimal(row.excel_row as nat),
        "Row "@ + decimal(row.excel_row as nat) + " of order "@ + signed(row.order_id as int)
            + " has no "@ + required_name(c) + ". Every line needs one."@,
        seq![row.excel_row],
    )
}

/// The empty cells among the first `n` required columns of a row.
pub open spec fn blanks_through(row: SheetRow, n: nat) -> Seq<Seen>
    decreases n,
{
    if n == 0 {
        Seq::empty()
    } else {
        blanks_through(row, (n - 1) as nat) + if text_in(row, required_column(n - 1)).len() == 0 {
            seq![blank_finding(row, n - 1)]
        } else {
            Seq::<Seen>::empty()
        }
    }
}

/// Every empty required cell, row by row.
pub open spec fn blank_fields(rows: Seq<SheetRow>) -> Seq<Seen> {
    rows.map_values(|row: SheetRow| blanks_through(row, 6)).flatten()
}

/// The blank findings over the first `n` required columns include the one
/// for every blank column among them.
proof fn lemma_blank_in_through(row: SheetRow, c: int, n: nat)
    requires
        0 <= c < n,
        text_in(row, required_column(c)).len() == 0,
    ensures
        blanks_through(row, n).contains(blank_finding(row, c)),
    decreases n,
{
    let earlier = blanks_through(row, (n - 1) as nat);
    if c == n - 1 {
        assert(blanks_through(row, n)[earlier.len() as int] == blank_finding(row, c));
    } else {
        lemma_blank_in_through(row, c, (n - 1) as nat);
        let x = choose|x: int| 0 <= x < earlier.len() && earlier[x] == blank_finding(row, c);
        assert(blanks_through(row, n)[x] == earlier[x]);
    }
}

/// A row missing any of the six texts every line needs (product name,
/// supplier SKU, supplier, customer, delivery street, route nickname) is
/// caught: the checks find a blocking blank-field finding pointing at that
/// row alone.
pub proof fn lemma_blank_field_is_caught(rows: Seq<SheetRow>, j: int)
    requires
        0 <= j < rows.len(),
        rows[j].product_name@.len() == 0 || rows[j].supplier_sku@.len() == 0
            || rows[j].supplier@.len() == 0 || rows[j].customer@.len() == 0
            || rows[j].delivery_street@.len() == 0 || rows[j].route_nickname@.len() == 0,
    ensures
        exists|f: Seen|
            #[trigger] all_findings(rows).contains(f) && f.0 == Severity::Blocking && f.1
                == FindingKind::BlankRequiredField && f.4 == seq![rows[j].excel_row],
{
    let row = rows[j];
    let c: int = if row.product_name@.len() == 0 {
        0
    } else if row.supplier_sku@.len() == 0 {
        1
    } else if row.supplier@.len() == 0 {
        2
    } else if row.customer@.len() == 0 {
        3
    } else if row.delivery_street@.len() == 0 {
        4
    } else {
        5
    };
    lemma_blank_in_through(row, c, 6);
    let f = blank_finding(row, c);
    let parts = rows.map_values(|r: SheetRow| blanks_through(r, 6));
    assert(parts[j] == blanks_through(row, 6));
    let i = choose|i: int| 0 <= i < parts[j].len() && parts[j][i] == f;
    lemma_flatten_has(parts, j, i);
    let b = blank_fields(rows);
    let x = choose|x: int| 0 <= x < b.len() && b[x] == f;
    assert(all_findings(rows)[x] == f);
    assert(all_findings(rows).contains(f));
}

/// The header of the required column at a position.
fn required_header(c: usize) -> (name: &'static str)
    requires
        c < 6,
    ensures
        name@ == required_name(c as int),
{
    if c == 0 {
        "Product Name"
    } else if c == 1 {
        "Supplier SKU"
    } else if c == 2 {
        "Supplier"
    } else if c == 3 {
        "Customer"
    } else if c == 4 {
        "Delivery street"
    } else {
        "Route nickname"
    }
}

/// The required column at a position.
fn required_at(c: usize) -> (column: Column)
    requires
        c < 6,
    ensures
        column == required_column(c as int),
{
    if c == 0 {
        Column::ProductName
    } else if c == 1 {
        Column::SupplierSku
    } else if c == 2 {
        Column::Supplier
    } else if c == 3 {
        Column::Customer
    } else if c == 4 {
        Column::DeliveryStreet
    } else {
        Column::RouteNickname
    }
}

/// Every required column that holds an empty string.
fn blank_required_fields(rows: &Vec<SheetRow>) -> (findings: Vec<Finding>)
    ensures
        seen_all(findings@) == blank_fields(rows@),
{
    let mut findings: Vec<Finding> = Vec::new();
    let mut i: usize = 0;
    while i < rows.len()
        invariant
            0 <= i <= rows@.len(),
            seen_all(findings@) == rows@.take(i as int).map_values(|row: SheetRow| blanks_through(row, 6)).flatten(),
        decreases rows@.len() - i,
    {
        let row = &rows[i];
        let ghost start = seen_all(findings@);
        let mut c: usize = 0;
        while c < 6
            invariant
                0 <= c <= 6,
                *row == rows@[i as int],
                seen_all(findings@) == start + blanks_through(*row, c as nat),
            decreases 6 - c,
        {
            let ghost before = seen_all(findings@);
            let text = text_of(row, required_at(c));
            if text.len() == 0 {
                let name = required_header(c);
                let mut headline = String::new();
                push_str(&mut headline, name);
                push_str(&mut headline, " is empty on row ");
                push_str(&mut headline, decimal_text(row.excel_row as u64).as_str());
                let mut detail = String::new();
                push_str(&mut detail, "Row ");
                push_str(&mut detail, decimal_text(row.excel_row as u64).as_str());
                push_str(&mut detail, " of order ");
                push_str(&mut detail, signed_text(row.order_id).as_str());
                push_str(&mut detail, " has no ");
                push_str(&mut detail, name);
                push_str(&mut detail, ". Every line needs one.");
                let mut at: Vec<usize> = Vec::new();
                at.push(row.excel_row);
                let finding = Finding {
                    severity: Severity::Blocking,
                    kind: FindingKind::BlankRequiredField,
                    headline,
                    detail,
                    rows: at,
                };
                proof {
                    assert(at@ =~= seq![row.excel_row]);
                    assert(finding.seen() == blank_finding(*row, c as int));
                }
                findings.push(finding);
                proof {
                    assert(seen_all(findings@) =~= before.push(finding.seen()));
                }
            }
            proof {
                assert(seen_all(findings@) =~= start + blanks_through(*row, (c + 1) as nat));
            }
            c = c + 1;
        }
        proof {
            let done = rows@.take(i as int).map_values(|row: SheetRow| blanks_through(row, 6));
            let next = rows@.take(i + 1).map_values(|row: SheetRow| blanks_through(row, 6));
            assert(next =~= done.push(blanks_through(*row, 6)));
            done.lemma_flatten_push(blanks_through(*row, 6));
        }
        i = i + 1;
    }
    proof {
        assert(rows@.take(rows@.len() as int) =~= rows@);
    }
    findings
}

// ---------------------------------------------------------------------------
// Orders whose lines disagree
// ---------------------------------------------------------------------------

/// Everything except the product and the quantity belongs to the order and
/// is repeated onto each of its lines: these columns, by position.
pub open spec fn order_column(a: int) -> Column {
    if a == 0 {
        Column::Customer
    } else if a == 1 {
        Column::Department
    } else if a == 2 {
        Column::DeliveryStreet
    } else if a == 3 {
        Column::RouteNickname
    } else if a == 4 {
        Column::RouteOrdering
    } else {
        Column::AcceptAlternatives
    }
}

/// How a finding names an order's column.
pub open spec fn order_column_name(a: int) -> Seq<char> {
    if a == 0 {
        "customer"@
    } else if a == 1 {
        "department"@
    } else if a == 2 {
        "delivery street"@
    } else if a == 3 {
        "route"@
    } else if a == 4 {
        "route ordering"@
    } else {
        "accept alternatives"@
    }
}

/// The finding for an order whose lines give a column two or more values.
pub open spec fn order_disagreement(id: int, lines: Seq<SheetRow>, a: int) -> Seq<Seen> {
    let values = ordered_texts(texts_in(lines, order_column(a)));
    if values.len() >= 2 {
        seq![
            (
                Severity::Blocking,
                FindingKind::OrderLinesDisagree,
                "Order "@ + signed(id) + " has two values for "@ + order_column_name(a),
                "The lines of order "@ + signed(id) + " disagree about "@ + order_column_name(a)
                    + ": "@ + quoted_list(values)
                    + ". Everything but the product and the quantity belongs to the order."@,
                excel_rows(lines),
            ),
        ]
    } else {
        Seq::empty()
    }
}

/// The disagreements over the first `n` of an order's columns.
pub open spec fn order_disagreements_through(id: int, lines: Seq<SheetRow>, n: nat) -> Seq<Seen>
    decreases n,
{
    if n == 0 {
        Seq::empty()
    } else {
        order_disagreements_through(id, lines, (n - 1) as nat) + order_disagreement(id, lines, n - 1)
    }
}

/// The notes a run of lines carries, leaving out the lines without one.
pub open spec fn notes_in(lines: Seq<SheetRow>) -> Seq<Seq<char>>
    decreases lines.len(),
{
    if lines.len() == 0 {
        Seq::empty()
    } else {
        notes_in(lines.drop_last()) + match lines.last().comment {
            Some(note) => seq![note@],
            None => Seq::<Seq<char>>::empty(),
        }
    }
}

/// The finding for an order that carries two different notes. A line may
/// simply not carry the note; only two different ones are a problem,
/// because then there is no saying which one the customer meant.
pub open spec fn two_notes(id: int, lines: Seq<SheetRow>) -> Seq<Seen> {
    let notes = ordered_texts(notes_in(lines));
    if notes.len() >= 2 {
        seq![
            (
                Severity::Blocking,
                FindingKind::OrderLinesDisagree,
                "Order "@ + signed(id) + " carries two different notes"@,
                "The lines of order "@ + signed(id) + " carry "@ + quoted_list(notes)
                    + ". Only one can be printed."@,
                excel_rows(lines),
            ),
        ]
    } else {
        Seq::empty()
    }
}

/// What one order's lines disagree about.
pub open spec fn order_findings(rows: Seq<SheetRow>, key: Key) -> Seq<Seen> {
    let lines = members(rows, Grouping::Order, key);
    order_disagreements_through(key.1, lines, 6) + two_notes(key.1, lines)
}

/// Every order whose lines disagree, in order id order.
pub open spec fn disagreeing_orders(rows: Seq<SheetRow>) -> Seq<Seen> {
    groups(rows, Grouping::Order).map_values(|key: Key| order_findings(rows, key)).flatten()
}

/// Whatever is in one part of a run of runs is in the whole run.
proof fn lemma_flatten_has(parts: Seq<Seq<Seen>>, g: int, i: int)
    requires
        0 <= g < parts.len(),
        0 <= i < parts[g].len(),
    ensures
        parts.flatten().contains(parts[g][i]),
    decreases parts.len(),
{
    let front = parts.drop_last();
    assert(front.push(parts.last()) =~= parts);
    front.lemma_flatten_push(parts.last());
    if g == parts.len() - 1 {
        assert((front.flatten() + parts.last())[front.flatten().len() + i] == parts[g][i]);
    } else {
        lemma_flatten_has(front, g, i);
        assert(front[g] == parts[g]);
        let k = choose|k: int| 0 <= k < front.flatten().len() && front.flatten()[k] == parts[g][i];
        assert((front.flatten() + parts.last())[k] == parts[g][i]);
    }
}

/// A row is among the rows that share its key.
proof fn lemma_members_has(rows: Seq<SheetRow>, by: Grouping, j: int)
    requires
        0 <= j < rows.len(),
    ensures
        members(rows, by, group_key(rows[j], by)).contains(rows[j]),
    decreases rows.len(),
{
    let key = group_key(rows[j], by);
    if j == rows.len() - 1 {
        let earlier = members(rows.drop_last(), by, key);
        assert(earlier.push(rows.last())[earlier.len() as int] == rows[j]);
    } else {
        lemma_members_has(rows.drop_last(), by, j);
        assert(rows.drop_last()[j] == rows[j]);
        let earlier = members(rows.drop_last(), by, key);
        let k = choose|k: int| 0 <= k < earlier.len() && earlier[k] == rows[j];
        if group_key(rows.last(), by) == key {
            assert(earlier.push(rows.last())[k] == rows[j]);
        }
    }
}

/// A key some row has is one of the groups.
proof fn lemma_groups_has(rows: Seq<SheetRow>, by: Grouping, j: int)
    requires
        0 <= j < rows.len(),
    ensures
        groups(rows, by).contains(group_key(rows[j], by)),
{
    let keys = rows.map_values(|row: SheetRow| group_key(row, by));
    lemma_ordered_members(keys);
    assert(keys[j] == group_key(rows[j], by));
    assert(keys.to_set().contains(keys[j]));
    assert(ordered(keys.to_set()).to_set().contains(keys[j]));
}

/// Two different values among a run make at least two distinct values.
proof fn lemma_two_values(texts: Seq<Seq<char>>, p: int, q: int)
    requires
        0 <= p < texts.len(),
        0 <= q < texts.len(),
        texts[p] != texts[q],
    ensures
        ordered_texts(texts).len() >= 2,
{
    let keys = texts.map_values(|t: Seq<char>| (t, 0int));
    lemma_ordered_members(keys);
    let run = ordered(keys.to_set());
    assert(keys.to_set().contains(keys[p]));
    assert(keys.to_set().contains(keys[q]));
    assert(run.to_set().contains(keys[p]));
    assert(run.to_set().contains(keys[q]));
    let a = choose|a: int| 0 <= a < run.len() && run[a] == keys[p];
    let b = choose|b: int| 0 <= b < run.len() && run[b] == keys[q];
    assert(a != b);
}

/// Lines of one order that disagree about any of the six columns that belong
/// to the order (customer, department, delivery street, route, route
/// ordering, accept alternatives) are caught: the checks find a blocking
/// disagreement for that order naming the column, pointing at both rows.
pub proof fn lemma_order_disagreement_is_caught(rows: Seq<SheetRow>, j: int, k: int, a: int)
    requires
        0 <= j < rows.len(),
        0 <= k < rows.len(),
        0 <= a < 6,
        rows[j].order_id == rows[k].order_id,
        text_in(rows[j], order_column(a)) != text_in(rows[k], order_column(a)),
    ensures
        exists|f: Seen|
            #[trigger] all_findings(rows).contains(f) && f.0 == Severity::Blocking && f.1
                == FindingKind::OrderLinesDisagree && f.2 == "Order "@ + signed(
                rows[j].order_id as int,
            ) + " has two values for "@ + order_column_name(a) && f.4.contains(rows[j].excel_row)
                && f.4.contains(rows[k].excel_row),
{
    let key = group_key(rows[j], Grouping::Order);
    assert(group_key(rows[k], Grouping::Order) == key);
    let lines = members(rows, Grouping::Order, key);
    lemma_members_has(rows, Grouping::Order, j);
    lemma_members_has(rows, Grouping::Order, k);
    let pj = choose|x: int| 0 <= x < lines.len() && lines[x] == rows[j];
    let pk = choose|x: int| 0 <= x < lines.len() && lines[x] == rows[k];
    let texts = texts_in(lines, order_column(a));
    assert(texts[pj] != texts[pk]);
    lemma_two_values(texts, pj, pk);
    let id = key.1;
    assert(id == rows[j].order_id as int);
    let found = order_disagreement(id, lines, a);
    assert(found.len() == 1);
    let f = found[0];
    assert(excel_rows(lines)[pj] == rows[j].excel_row);
    assert(excel_rows(lines)[pk] == rows[k].excel_row);
    assert(f.4.contains(rows[j].excel_row));
    assert(f.4.contains(rows[k].excel_row));
    let through = order_disagreements_through(id, lines, 6);
    lemma_disagreement_in_through(id, lines, a, 6);
    let at = choose|x: int| 0 <= x < through.len() && through[x] == f;
    let mine = order_findings(rows, key);
    assert(mine[at] == f);
    lemma_groups_has(rows, Grouping::Order, j);
    let gs = groups(rows, Grouping::Order);
    let g = choose|g: int| 0 <= g < gs.len() && gs[g] == key;
    let parts = gs.map_values(|key: Key| order_findings(rows, key));
    assert(parts[g] == mine);
    lemma_flatten_has(parts, g, at);
    let d = disagreeing_orders(rows);
    let x = choose|x: int| 0 <= x < d.len() && d[x] == f;
    let before = blank_fields(rows);
    assert(all_findings(rows)[before.len() + x] == f);
    assert(all_findings(rows).contains(f));
}

/// The finding for a column is among the findings for the first `n` columns
/// once `n` is past it.
proof fn lemma_disagreement_in_through(id: int, lines: Seq<SheetRow>, a: int, n: nat)
    requires
        0 <= a < n,
        order_disagreement(id, lines, a).len() == 1,
    ensures
        order_disagreements_through(id, lines, n).contains(order_disagreement(id, lines, a)[0]),
    decreases n,
{
    let earlier = order_disagreements_through(id, lines, (n - 1) as nat);
    let here = order_disagreement(id, lines, n - 1);
    if a == n - 1 {
        assert((earlier + here)[earlier.len() as int] == here[0]);
    } else {
        lemma_disagreement_in_through(id, lines, a, (n - 1) as nat);
        let x = choose|x: int| 0 <= x < earlier.len() && earlier[x] == order_disagreement(id, lines, a)[0];
        assert((earlier + here)[x] == earlier[x]);
    }
}

/// Lines of one order that disagree about accepting substitutes are caught:
/// whenever two rows of the same order differ in that column, the checks
/// find a blocking disagreement for that order naming it, and point at both
/// rows.
pub proof fn lemma_substitutes_disagreement_is_caught(rows: Seq<SheetRow>, j: int, k: int)
    requires
        0 <= j < rows.len(),
        0 <= k < rows.len(),
        rows[j].order_id == rows[k].order_id,
        rows[j].accept_alternatives != rows[k].accept_alternatives,
    ensures
        exists|f: Seen|
            #[trigger] all_findings(rows).contains(f) && f.0 == Severity::Blocking && f.1
                == FindingKind::OrderLinesDisagree && f.2 == "Order "@ + signed(
                rows[j].order_id as int,
            ) + " has two values for "@ + "accept alternatives"@ && f.4.contains(rows[j].excel_row)
                && f.4.contains(rows[k].excel_row),
{
    reveal_strlit("true");
    reveal_strlit("false");
    assert(text_in(rows[j], order_column(5)) != text_in(rows[k], order_column(5))) by {
        assert("true"@.len() != "false"@.len());
    }
    lemma_order_disagreement_is_caught(rows, j, k, 5);
}

/// A finding from its parts.
fn finding(severity: Severity, kind: FindingKind, headline: String, detail: String, rows: Vec<usize>) -> (f: Finding)
    ensures
        f.seen() == (severity, kind, headline@, detail@, rows@),
{
    Finding { severity, kind, headline, detail, rows }
}

/// An order's column at a position.
fn order_column_at(a: usize) -> (column: Column)
    requires
        a < 6,
    ensures
        column == order_column(a as int),
{
    if a == 0 {
        Column::Customer
    } else if a == 1 {
        Column::Department
    } else if a == 2 {
        Column::DeliveryStreet
    } else if a == 3 {
        Column::RouteNickname
    } else if a == 4 {
        Column::RouteOrdering
    } else {
        Column::AcceptAlternatives
    }
}

/// How a finding names an order's column at a position.
fn order_column_title(a: usize) -> (name: &'static str)
    requires
        a < 6,
    ensures
        name@ == order_column_name(a as int),
{
    if a == 0 {
        "customer"
    } else if a == 1 {
        "department"
    } else if a == 2 {
        "delivery street"
    } else if a == 3 {
        "route"
    } else if a == 4 {
        "route ordering"
    } else {
        "accept alternatives"
    }
}

/// The notes a run of lines carries.
fn notes_of(lines: &Vec<SheetRow>) -> (notes: Vec<Vec<char>>)
    ensures
        notes@.map_values(|t: Vec<char>| t@) == notes_in(lines@),
{
    let mut notes: Vec<Vec<char>> = Vec::new();
    let mut i: usize = 0;
    while i < lines.len()
        invariant
            0 <= i <= lines@.len(),
            notes@.map_values(|t: Vec<char>| t@) == notes_in(lines@.take(i as int)),
        decreases lines@.len() - i,
    {
        let ghost before = notes@.map_values(|t: Vec<char>| t@);
        proof {
            let next = lines@.take(i + 1);
            assert(next.drop_last() =~= lines@.take(i as int));
            assert(next.last() == lines@[i as int]);
        }
        match &lines[i].comment {
            Some(note) => {
                let text = chars_of(note.as_str());
                notes.push(text);
                proof {
                    assert(notes@.map_values(|t: Vec<char>| t@) =~= before + seq![text@]);
                }
            },
            None => {
                proof {
                    assert(before + Seq::<Seq<char>>::empty() =~= before);
                }
            },
        }
        i = i + 1;
    }
    proof {
        assert(lines@.take(lines@.len() as int) =~= lines@);
    }
    notes
}

/// Everything except the product and the quantity belongs to the order. If
/// two lines disagree, folding them into one order would silently pick a
/// winner.
fn orders_that_disagree(rows: &Vec<SheetRow>) -> (findings: Vec<Finding>)
    ensures
        seen_all(findings@) == disagreeing_orders(rows@),
{
    let keys = group_keys(rows, Grouping::Order);
    let ghost all = groups(rows@, Grouping::Order);
    let mut findings: Vec<Finding> = Vec::new();
    let mut g: usize = 0;
    while g < keys.len()
        invariant
            0 <= g <= keys@.len(),
            views(keys@) == all,
            all == groups(rows@, Grouping::Order),
            seen_all(findings@) == all.take(g as int).map_values(|key: Key| order_findings(rows@, key)).flatten(),
        decreases keys@.len() - g,
    {
        let key = &keys[g];
        let ghost k = key_view(*key);
        proof {
            assert(k == all[g as int]);
        }
        let lines = member_rows(rows, Grouping::Order, key);
        let id = key.1;
        let ghost start = seen_all(findings@);
        let mut a: usize = 0;
        while a < 6
            invariant
                0 <= a <= 6,
                lines@ == members(rows@, Grouping::Order, k),
                k == key_view(*key),
                id == key.1,
                seen_all(findings@) == start + order_disagreements_through(k.1, lines@, a as nat),
            decreases 6 - a,
        {
            let ghost before = seen_all(findings@);
            let values = values_of(&lines, order_column_at(a));
            if values.len() >= 2 {
                let name = order_column_title(a);
                let mut headline = String::new();
                push_str(&mut headline, "Order ");
                push_str(&mut headline, signed_text(id).as_str());
                push_str(&mut headline, " has two values for ");
                push_str(&mut headline, name);
                let mut detail = String::new();
                push_str(&mut detail, "The lines of order ");
                push_str(&mut detail, signed_text(id).as_str());
                push_str(&mut detail, " disagree about ");
                push_str(&mut detail, name);
                push_str(&mut detail, ": ");
                push_str(&mut detail, quoted(&values).as_str());
                push_str(&mut detail, ". Everything but the product and the quantity belongs to the order.");
                let f = finding(Severity::Blocking, FindingKind::OrderLinesDisagree, headline, detail, rows_of(&lines));
                findings.push(f);
                proof {
                    assert(seen_all(findings@) =~= before + order_disagreement(k.1, lines@, a as int));
                }
            } else {
                proof {
                    assert(before + order_disagreement(k.1, lines@, a as int) =~= before);
                }
            }
            proof {
                assert(seen_all(findings@) =~= start + order_disagreements_through(k.1, lines@, (a + 1) as nat));
            }
            a = a + 1;
        }
        let notes = distinct_texts(&notes_of(&lines));
        let ghost before = seen_all(findings@);
        if notes.len() >= 2 {
            let mut headline = String::new();
            push_str(&mut headline, "Order ");
            push_str(&mut headline, signed_text(id).as_str());
            push_str(&mut headline, " carries two different notes");
            let mut detail = String::new();
            push_str(&mut detail, "The lines of order ");
            push_str(&mut detail, signed_text(id).as_str());
            push_str(&mut detail, " carry ");
            push_str(&mut detail, quoted(&notes).as_str());
            push_str(&mut detail, ". Only one can be printed.");
            let f = finding(Severity::Blocking, FindingKind::OrderLinesDisagree, headline, detail, rows_of(&lines));
            findings.push(f);
            proof {
                assert(seen_all(findings@) =~= before + two_notes(k.1, lines@));
            }
        } else {
            proof {
                assert(before + two_notes(k.1, lines@) =~= before);
            }
        }
        proof {
            let done = all.take(g as int).map_values(|key: Key| order_findings(rows@, key));
            let next = all.take(g + 1).map_values(|key: Key| order_findings(rows@, key));
            assert(next =~= done.push(order_findings(rows@, k)));
            done.lemma_flatten_push(order_findings(rows@, k));
            assert(seen_all(findings@) =~= start + order_findings(rows@, k));
        }
        g = g + 1;
    }
    proof {
        assert(all.take(keys@.len() as int) =~= all);
    }
    findings
}

// ---------------------------------------------------------------------------
// Addresses on two routes
// ---------------------------------------------------------------------------

/// The finding for an address that is on more than one route.
pub open spec fn address_findings(rows: Seq<SheetRow>, key: Key) -> Seq<Seen> {
    let lines = members(rows, Grouping::Street, key);
    let routes = ordered_texts(texts_in(lines, Column::RouteNickname));
    if routes.len() >= 2 {
        seq![
            (
                Severity::Blocking,
                FindingKind::AddressOnTwoRoutes,
                key.0 + " is on more than one route"@,
                key.0 + " appears on routes "@ + joined_by(routes, ", "@)
                    + ". One address belongs to one route."@,
                excel_rows(lines),
            ),
        ]
    } else {
        Seq::empty()
    }
}

/// Every address on more than one route, in address order.
pub open spec fn shared_addresses(rows: Seq<SheetRow>) -> Seq<Seen> {
    groups(rows, Grouping::Street).map_values(|key: Key| address_findings(rows, key)).flatten()
}

/// The address is the most reliable identity a stop has, and the printed
/// order of a route depends on it belonging to exactly one route.
fn addresses_on_two_routes(rows: &Vec<SheetRow>) -> (findings: Vec<Finding>)
    ensures
        seen_all(findings@) == shared_addresses(rows@),
{
    let keys = group_keys(rows, Grouping::Street);
    let ghost all = groups(rows@, Grouping::Street);
    let mut findings: Vec<Finding> = Vec::new();
    let mut g: usize = 0;
    while g < keys.len()
        invariant
            0 <= g <= keys@.len(),
            views(keys@) == all,
            all == groups(rows@, Grouping::Street),
            seen_all(findings@) == all.take(g as int).map_values(|key: Key| address_findings(rows@, key)).flatten(),
        decreases keys@.len() - g,
    {
        let key = &keys[g];
        let ghost k = key_view(*key);
        proof {
            assert(k == all[g as int]);
        }
        let lines = member_rows(rows, Grouping::Street, key);
        let routes = values_of(&lines, Column::RouteNickname);
        let ghost before = seen_all(findings@);
        if routes.len() >= 2 {
            let mut headline = String::new();
            push_chars(&mut headline, key.0.as_slice());
            push_str(&mut headline, " is on more than one route");
            let mut detail = String::new();
            push_chars(&mut detail, key.0.as_slice());
            push_str(&mut detail, " appears on routes ");
            push_joined(&mut detail, &routes, ", ");
            push_str(&mut detail, ". One address belongs to one route.");
            let f = finding(Severity::Blocking, FindingKind::AddressOnTwoRoutes, headline, detail, rows_of(&lines));
            findings.push(f);
            proof {
                assert(seen_all(findings@) =~= before + address_findings(rows@, k));
            }
        } else {
            proof {
                assert(before + address_findings(rows@, k) =~= before);
            }
        }
        proof {
            let done = all.take(g as int).map_values(|key: Key| address_findings(rows@, key));
            let next = all.take(g + 1).map_values(|key: Key| address_findings(rows@, key));
            assert(next =~= done.push(address_findings(rows@, k)));
            done.lemma_flatten_push(address_findings(rows@, k));
        }
        g = g + 1;
    }
    proof {
        assert(all.take(keys@.len() as int) =~= all);
    }
    findings
}

// ---------------------------------------------------------------------------
// Stop sequences shared by several addresses
// ---------------------------------------------------------------------------

/// The finding for a position on a route that several addresses share.
/// Unsequenced stops share position `0` by design and are left out.
pub open spec fn stop_findings(rows: Seq<SheetRow>, key: Key) -> Seq<Seen> {
    let lines = members(rows, Grouping::Stop, key);
    let addresses = ordered_texts(texts_in(lines, Column::DeliveryStreet));
    if key.1 != 0 && addresses.len() >= 2 {
        seq![
            (
                Severity::Warning,
                FindingKind::RepeatedStopSequence,
                "Route "@ + key.0 + " has "@ + decimal(addresses.len()) + " stops at "@ + decimal(
                    key.1 as nat,
                ),
                "Position "@ + decimal(key.1 as nat) + " on route "@ + key.0 + " is shared by "@
                    + quoted_list(addresses) + ", across "@ + decimal(
                    groups(lines, Grouping::Order).len(),
                ) + " stops. They print in address order."@,
                excel_rows(lines),
            ),
        ]
    } else {
        Seq::empty()
    }
}

/// Every shared stop sequence, in route and position order.
pub open spec fn shared_positions(rows: Seq<SheetRow>) -> Seq<Seen> {
    groups(rows, Grouping::Stop).map_values(|key: Key| stop_findings(rows, key)).flatten()
}

/// Two stops sharing a sequence number is legitimate (one site with several
/// delivery points) but worth seeing, because the printed order between them
/// then rests entirely on the tiebreak.
fn repeated_stop_sequences(rows: &Vec<SheetRow>) -> (findings: Vec<Finding>)
    ensures
        seen_all(findings@) == shared_positions(rows@),
{
    let keys = group_keys(rows, Grouping::Stop);
    let ghost all = groups(rows@, Grouping::Stop);
    let mut findings: Vec<Finding> = Vec::new();
    let mut g: usize = 0;
    while g < keys.len()
        invariant
            0 <= g <= keys@.len(),
            views(keys@) == all,
            all == groups(rows@, Grouping::Stop),
            forall|j: int| 0 <= j < keys@.len() ==> some_row_has(rows@, Grouping::Stop, key_view(#[trigger] keys@[j])),
            seen_all(findings@) == all.take(g as int).map_values(|key: Key| stop_findings(rows@, key)).flatten(),
        decreases keys@.len() - g,
    {
        let key = &keys[g];
        let ghost k = key_view(*key);
        proof {
            assert(k == all[g as int]);
            assert(some_row_has(rows@, Grouping::Stop, key_view(keys@[g as int])));
            let i = choose|i: int| 0 <= i < rows@.len() && group_key(rows@[i], Grouping::Stop) == key_view(keys@[g as int]);
            assert(0 <= key.1 <= u32::MAX);
        }
        let lines = member_rows(rows, Grouping::Stop, key);
        let addresses = values_of(&lines, Column::DeliveryStreet);
        let ghost before = seen_all(findings@);
        if key.1 != 0 && addresses.len() >= 2 {
            let position = decimal_text(key.1 as u64);
            let stops = group_keys(&lines, Grouping::Order).len();
            let mut headline = String::new();
            push_str(&mut headline, "Route ");
            push_chars(&mut headline, key.0.as_slice());
            push_str(&mut headline, " has ");
            push_str(&mut headline, decimal_text(addresses.len() as u64).as_str());
            push_str(&mut headline, " stops at ");
            push_str(&mut headline, position.as_str());
            let mut detail = String::new();
            push_str(&mut detail, "Position ");
            push_str(&mut detail, position.as_str());
            push_str(&mut detail, " on route ");
            push_chars(&mut detail, key.0.as_slice());
            push_str(&mut detail, " is shared by ");
            push_str(&mut detail, quoted(&addresses).as_str());
            push_str(&mut detail, ", across ");
            push_str(&mut detail, decimal_text(stops as u64).as_str());
            push_str(&mut detail, " stops. They print in address order.");
            let f = finding(Severity::Warning, FindingKind::RepeatedStopSequence, headline, detail, rows_of(&lines));
            findings.push(f);
            proof {
                assert(seen_all(findings@) =~= before + stop_findings(rows@, k));
            }
        } else {
            proof {
                assert(before + stop_findings(rows@, k) =~= before);
            }
        }
        proof {
            let done = all.take(g as int).map_values(|key: Key| stop_findings(rows@, key));
            let next = all.take(g + 1).map_values(|key: Key| stop_findings(rows@, key));
            assert(next =~= done.push(stop_findings(rows@, k)));
            done.lemma_flatten_push(stop_findings(rows@, k));
        }
        g = g + 1;
    }
    proof {
        assert(all.take(keys@.len() as int) =~= all);
    }
    findings
}

// ---------------------------------------------------------------------------
// Products that mean two things
// ---------------------------------------------------------------------------

/// The product columns that must agree, by position.
pub open spec fn product_column(a: int) -> Column {
    if a == 0 {
        Column::ProductName
    } else if a == 1 {
        Column::SupplierSku
    } else {
        Column::Supplier
    }
}

/// How a finding names a product column.
pub open spec fn product_column_name(a: int) -> Seq<char> {
    if a == 0 {
        "name"@
    } else if a == 1 {
        "SKU"@
    } else {
        "supplier"@
    }
}

/// The finding for a product that carries two or more values in a column.
pub open spec fn product_disagreement(id: int, lines: Seq<SheetRow>, a: int) -> Seq<Seen> {
    let values = ordered_texts(texts_in(lines, product_column(a)));
    if values.len() >= 2 {
        seq![
            (
                Severity::Blocking,
                FindingKind::ProductDetailsDisagree,
                "Product "@ + decimal(id as nat) + " has two values for "@ + product_column_name(a),
                "Product "@ + decimal(id as nat) + " appears with "@ + quoted_list(values) + " as its "@
                    + product_column_name(a) + "."@,
                excel_rows(lines),
            ),
        ]
    } else {
        Seq::empty()
    }
}

/// The disagreements over the first `n` product columns.
pub open spec fn product_disagreements_through(id: int, lines: Seq<SheetRow>, n: nat) -> Seq<Seen>
    decreases n,
{
    if n == 0 {
        Seq::empty()
    } else {
        product_disagreements_through(id, lines, (n - 1) as nat) + product_disagreement(id, lines, n - 1)
    }
}

/// What one product's lines disagree about.
pub open spec fn product_findings(rows: Seq<SheetRow>, key: Key) -> Seq<Seen> {
    product_disagreements_through(key.1, members(rows, Grouping::Product, key), 3)
}

/// Every product that means two things, in product id order.
pub open spec fn disagreeing_products(rows: Seq<SheetRow>) -> Seq<Seen> {
    groups(rows, Grouping::Product).map_values(|key: Key| product_findings(rows, key)).flatten()
}

/// A product column at a position.
fn product_column_at(a: usize) -> (column: Column)
    requires
        a < 3,
    ensures
        column == product_column(a as int),
{
    if a == 0 {
        Column::ProductName
    } else if a == 1 {
        Column::SupplierSku
    } else {
        Column::Supplier
    }
}

/// How a finding names the product column at a position.
fn product_column_title(a: usize) -> (name: &'static str)
    requires
        a < 3,
    ensures
        name@ == product_column_name(a as int),
{
    if a == 0 {
        "name"
    } else if a == 1 {
        "SKU"
    } else {
        "supplier"
    }
}

/// A product identifier that means two different things would put the
/// wrong bread on a page.
fn products_that_disagree(rows: &Vec<SheetRow>) -> (findings: Vec<Finding>)
    ensures
        seen_all(findings@) == disagreeing_products(rows@),
{
    let keys = group_keys(rows, Grouping::Product);
    let ghost all = groups(rows@, Grouping::Product);
    let mut findings: Vec<Finding> = Vec::new();
    let mut g: usize = 0;
    while g < keys.len()
        invariant
            0 <= g <= keys@.len(),
            views(keys@) == all,
            all == groups(rows@, Grouping::Product),
            forall|j: int| 0 <= j < keys@.len() ==> some_row_has(rows@, Grouping::Product, key_view(#[trigger] keys@[j])),
            seen_all(findings@) == all.take(g as int).map_values(|key: Key| product_findings(rows@, key)).flatten(),
        decreases keys@.len() - g,
    {
        let key = &keys[g];
        let ghost k = key_view(*key);
        proof {
            assert(k == all[g as int]);
            assert(some_row_has(rows@, Grouping::Product, key_view(keys@[g as int])));
            let i = choose|i: int| 0 <= i < rows@.len() && group_key(rows@[i], Grouping::Product) == key_view(keys@[g as int]);
            assert(0 <= key.1 <= u32::MAX);
        }
        let lines = member_rows(rows, Grouping::Product, key);
        let id = decimal_text(key.1 as u64);
        let ghost start = seen_all(findings@);
        let mut a: usize = 0;
        while a < 3
            invariant
                0 <= a <= 3,
                lines@ == members(rows@, Grouping::Product, k),
                k == key_view(*key),
                0 <= k.1,
                id@ == decimal(k.1 as nat),
                seen_all(findings@) == start + product_disagreements_through(k.1, lines@, a as nat),
            decreases 3 - a,
        {
            let ghost before = seen_all(findings@);
            let values = values_of(&lines, product_column_at(a));
            if values.len() >= 2 {
                let name = product_column_title(a);
                let mut headline = String::new();
                push_str(&mut headline, "Product ");
                push_str(&mut headline, id.as_str());
                push_str(&mut headline, " has two values for ");
                push_str(&mut headline, name);
                let mut detail = String::new();
                push_str(&mut detail, "Product ");
                push_str(&mut detail, id.as_str());
                push_str(&mut detail, " appears with ");
                push_str(&mut detail, quoted(&values).as_str());
                push_str(&mut detail, " as its ");
                push_str(&mut detail, name);
                push_str(&mut detail, ".");
                let f = finding(Severity::Blocking, FindingKind::ProductDetailsDisagree, headline, detail, rows_of(&lines));
                findings.push(f);
                proof {
                    assert(seen_all(findings@) =~= before + product_disagreement(k.1, lines@, a as int));
                }
            } else {
                proof {
                    assert(before + product_disagreement(k.1, lines@, a as int) =~= before);
                }
            }
            proof {
                assert(seen_all(findings@) =~= start + product_disagreements_through(k.1, lines@, (a + 1) as nat));
            }
            a = a + 1;
        }
        proof {
            let done = all.take(g as int).map_values(|key: Key| product_findings(rows@, key));
            let next = all.take(g + 1).map_values(|key: Key| product_findings(rows@, key));
            assert(next =~= done.push(product_findings(rows@, k)));
            done.lemma_flatten_push(product_findings(rows@, k));
        }
        g = g + 1;
    }
    proof {
        assert(all.take(keys@.len() as int) =~= all);
    }
    findings
}

// ---------------------------------------------------------------------------
// Values never seen before
// ---------------------------------------------------------------------------

/// A route nickname is familiar if it is a number, or a name followed by a
/// space and a number: `7`, `hau 2`. Both sort naturally; anything else
/// needs a human.
pub open spec fn familiar_route(nickname: Seq<char>) -> bool {
    if all_digits(nickname) {
        nickname.len() > 0
    } else {
        match last_occurrence(nickname, seq![' ']) {
            Some(i) => 0 < i && i + 1 < nickname.len() && all_digits(nickname.skip(i + 1)),
            None => false,
        }
    }
}

/// The value a row has in a watched column that no export so far has had:
/// the region (column `0`), the supplier (`1`), the route nickname (`2`).
pub open spec fn odd_one_out(row: SheetRow, c: int) -> Option<Seq<char>> {
    if c == 0 {
        if row.region@ == "Stavanger"@ {
            None
        } else {
            Some(row.region@)
        }
    } else if c == 1 {
        if row.supplier@ == "sandnes bakeri"@ || row.supplier@ == "bakehuset"@ {
            None
        } else {
            Some(row.supplier@)
        }
    } else if familiar_route(row.route_nickname@) {
        None
    } else {
        Some(row.route_nickname@)
    }
}

/// How a finding names a watched column.
pub open spec fn watched_name(c: int) -> Seq<char> {
    if c == 0 {
        "region"@
    } else if c == 1 {
        "supplier"@
    } else {
        "route nickname"@
    }
}

/// The unfamiliar values of a watched column, row by row.
pub open spec fn odd_values(rows: Seq<SheetRow>, c: int) -> Seq<Seq<char>>
    decreases rows.len(),
{
    if rows.len() == 0 {
        Seq::empty()
    } else {
        odd_values(rows.drop_last(), c) + match odd_one_out(rows.last(), c) {
            Some(v) => seq![v],
            None => Seq::<Seq<char>>::empty(),
        }
    }
}

/// The worksheet rows an unfamiliar value is on.
pub open spec fn rows_with_value(rows: Seq<SheetRow>, c: int, value: Seq<char>) -> Seq<usize>
    decreases rows.len(),
{
    if rows.len() == 0 {
        Seq::empty()
    } else {
        rows_with_value(rows.drop_last(), c, value) + if odd_one_out(rows.last(), c) == Some(value) {
            seq![rows.last().excel_row]
        } else {
            Seq::<usize>::empty()
        }
    }
}

/// The notice for one unfamiliar value.
pub open spec fn unfamiliar_finding(rows: Seq<SheetRow>, c: int, value: Seq<char>) -> Seen {
    let at = rows_with_value(rows, c, value);
    (
        Severity::Notice,
        FindingKind::UnfamiliarValue,
        "New "@ + watched_name(c) + ": "@ + value,
        value + " has not appeared in this column before. It appears on "@ + decimal(at.len())
            + " row(s)."@,
        at,
    )
}

/// One notice per unfamiliar value of a watched column, in text order.
pub open spec fn unfamiliar_in(rows: Seq<SheetRow>, c: int) -> Seq<Seen> {
    ordered_texts(odd_values(rows, c)).map_values(|v: Seq<char>| unfamiliar_finding(rows, c, v))
}

/// The notices for all three watched columns.
pub open spec fn unfamiliar_all(rows: Seq<SheetRow>) -> Seq<Seen> {
    unfamiliar_in(rows, 0) + unfamiliar_in(rows, 1) + unfamiliar_in(rows, 2)
}

/// A route nickname is familiar if it is a number, or a name followed by a
/// space and a number.
pub fn is_familiar_route(nickname: &str) -> (familiar: bool)
    ensures
        familiar == familiar_route(nickname@),
{
    let text = chars_of(nickname);
    if crate::chars::only_digits(text.as_slice()) {
        return text.len() > 0;
    }
    let mut space: Vec<char> = Vec::new();
    space.push(' ');
    proof {
        assert(space@ =~= seq![' ']);
    }
    match rfind(text.as_slice(), space.as_slice()) {
        Some(i) => {
            proof {
                assert(crate::chars::occurs_at(text@, seq![' '], i as int));
            }
            let length = text.len();
            assert(i < length);
            if i == 0 || i + 1 >= length {
                return false;
            }
            let number = slice_of(text.as_slice(), i + 1, length);
            proof {
                assert(number@ =~= text@.skip(i + 1));
            }
            crate::chars::only_digits(number.as_slice())
        },
        None => false,
    }
}

/// A watched column's unfamiliar value on a row, if it has one.
fn odd_of(row: &SheetRow, c: usize) -> (value: Option<Vec<char>>)
    requires
        c < 3,
    ensures
        match odd_one_out(*row, c as int) {
            Some(v) => value matches Some(t) && t@ == v,
            None => value is None,
        },
{
    if c == 0 {
        let region = chars_of(row.region.as_str());
        let home = chars_of("Stavanger");
        if crate::chars::equal_text(region.as_slice(), home.as_slice()) {
            None
        } else {
            Some(region)
        }
    } else if c == 1 {
        let supplier = chars_of(row.supplier.as_str());
        let sandnes = chars_of("sandnes bakeri");
        let bakehuset = chars_of("bakehuset");
        if crate::chars::equal_text(supplier.as_slice(), sandnes.as_slice())
            || crate::chars::equal_text(supplier.as_slice(), bakehuset.as_slice()) {
            None
        } else {
            Some(supplier)
        }
    } else if is_familiar_route(row.route_nickname.as_str()) {
        None
    } else {
        Some(chars_of(row.route_nickname.as_str()))
    }
}

/// How a finding names the watched column at a position.
fn watched_title(c: usize) -> (name: &'static str)
    requires
        c < 3,
    ensures
        name@ == watched_name(c as int),
{
    if c == 0 {
        "region"
    } else if c == 1 {
        "supplier"
    } else {
        "route nickname"
    }
}

/// Collects one notice per unfamiliar value, naming every row it is on.
#[verifier::spinoff_prover]
#[verifier::rlimit(40)]
fn unfamiliar(rows: &Vec<SheetRow>, c: usize) -> (findings: Vec<Finding>)
    requires
        c < 3,
    ensures
        seen_all(findings@) == unfamiliar_in(rows@, c as int),
{
    let mut odd: Vec<Vec<char>> = Vec::new();
    let mut i: usize = 0;
    while i < rows.len()
        invariant
            0 <= i <= rows@.len(),
            c < 3,
            odd@.map_values(|t: Vec<char>| t@) == odd_values(rows@.take(i as int), c as int),
        decreases rows@.len() - i,
    {
        let ghost before = odd@.map_values(|t: Vec<char>| t@);
        proof {
            let next = rows@.take(i + 1);
            assert(next.drop_last() =~= rows@.take(i as int));
            assert(next.last() == rows@[i as int]);
        }
        match odd_of(&rows[i], c) {
            Some(value) => {
                odd.push(value);
                proof {
                    assert(odd@.map_values(|t: Vec<char>| t@) =~= before + seq![value@]);
                }
            },
            None => {
                proof {
                    assert(before + Seq::<Seq<char>>::empty() =~= before);
                }
            },
        }
        i = i + 1;
    }
    proof {
        assert(rows@.take(rows@.len() as int) =~= rows@);
    }
    let values = distinct_texts(&odd);
    let ghost sorted = values@.map_values(|t: Vec<char>| t@);
    let mut findings: Vec<Finding> = Vec::new();
    let mut v: usize = 0;
    while v < values.len()
        invariant
            0 <= v <= values@.len(),
            c < 3,
            sorted == values@.map_values(|t: Vec<char>| t@),
            sorted == ordered_texts(odd_values(rows@, c as int)),
            seen_all(findings@) == sorted.take(v as int).map_values(
                |value: Seq<char>| unfamiliar_finding(rows@, c as int, value),
            ),
        decreases values@.len() - v,
    {
        let value = &values[v];
        let mut at: Vec<usize> = Vec::new();
        let mut i: usize = 0;
        while i < rows.len()
            invariant
                0 <= i <= rows@.len(),
                c < 3,
                at@ == rows_with_value(rows@.take(i as int), c as int, value@),
            decreases rows@.len() - i,
        {
            proof {
                let next = rows@.take(i + 1);
                assert(next.drop_last() =~= rows@.take(i as int));
                assert(next.last() == rows@[i as int]);
            }
            let ghost before = at@;
            let matches = match odd_of(&rows[i], c) {
                Some(other) => crate::chars::equal_text(other.as_slice(), value.as_slice()),
                None => false,
            };
            if matches {
                at.push(rows[i].excel_row);
                proof {
                    assert(at@ =~= before + seq![rows@[i as int].excel_row]);
                }
            } else {
                proof {
                    assert(before + Seq::<usize>::empty() =~= before);
                }
            }
            i = i + 1;
        }
        proof {
            assert(rows@.take(rows@.len() as int) =~= rows@);
        }
        let name = watched_title(c);
        let mut headline = String::new();
        push_str(&mut headline, "New ");
        push_str(&mut headline, name);
        push_str(&mut headline, ": ");
        push_chars(&mut headline, value.as_slice());
        let mut detail = String::new();
        push_chars(&mut detail, value.as_slice());
        push_str(&mut detail, " has not appeared in this column before. It appears on ");
        push_str(&mut detail, decimal_text(at.len() as u64).as_str());
        push_str(&mut detail, " row(s).");
        let ghost before = seen_all(findings@);
        let f = finding(Severity::Notice, FindingKind::UnfamiliarValue, headline, detail, at);
        findings.push(f);
        proof {
            assert(value@ == sorted[v as int]);
            assert(f.seen() == unfamiliar_finding(rows@, c as int, sorted[v as int]));
            assert(seen_all(findings@) =~= before.push(f.seen()));
            assert(seen_all(findings@) =~= sorted.take(v + 1).map_values(
                |value: Seq<char>| unfamiliar_finding(rows@, c as int, value),
            ));
        }
        v = v + 1;
    }
    proof {
        assert(sorted.take(values@.len() as int) =~= sorted);
    }
    findings
}

/// Values outside what every export so far has contained. Not wrong; the
/// app has simply never seen them, and someone should look before printing.
fn unfamiliar_values(rows: &Vec<SheetRow>) -> (findings: Vec<Finding>)
    ensures
        seen_all(findings@) == unfamiliar_all(rows@),
{
    let mut findings = unfamiliar(rows, 0);
    let mut suppliers = unfamiliar(rows, 1);
    let mut routes = unfamiliar(rows, 2);
    let ghost a = findings@;
    let ghost b = suppliers@;
    findings.append(&mut suppliers);
    proof {
        assert(seen_all(findings@) =~= seen_all(a) + seen_all(b));
    }
    let ghost ab = findings@;
    let ghost r = routes@;
    findings.append(&mut routes);
    proof {
        assert(seen_all(findings@) =~= seen_all(ab) + seen_all(r));
    }
    findings
}

// ---------------------------------------------------------------------------
// Every check, most severe first
// ---------------------------------------------------------------------------

/// Every check's findings, check by check.
pub open spec fn all_findings(rows: Seq<SheetRow>) -> Seq<Seen> {
    blank_fields(rows) + disagreeing_orders(rows) + shared_addresses(rows) + shared_positions(rows)
        + disagreeing_products(rows) + unfamiliar_all(rows)
}

/// Most severe first.
pub open spec fn severity_rank(severity: Severity) -> int {
    match severity {
        Severity::Blocking => 0,
        Severity::Warning => 1,
        Severity::Notice => 2,
    }
}

/// Kinds in the order they are declared.
pub open spec fn kind_rank(kind: FindingKind) -> int {
    match kind {
        FindingKind::BlankRequiredField => 0,
        FindingKind::OrderLinesDisagree => 1,
        FindingKind::AddressOnTwoRoutes => 2,
        FindingKind::RepeatedStopSequence => 3,
        FindingKind::ProductDetailsDisagree => 4,
        FindingKind::UnfamiliarValue => 5,
    }
}

/// Row lists in dictionary order, a list before anything that extends it.
pub open spec fn rows_lt(a: Seq<usize>, b: Seq<usize>) -> bool
    decreases a.len(),
{
    if a.len() == 0 {
        b.len() > 0
    } else if b.len() == 0 {
        false
    } else if a[0] != b[0] {
        a[0] < b[0]
    } else {
        rows_lt(a.drop_first(), b.drop_first())
    }
}

/// Whether one finding is listed strictly before another: by severity, then
/// by kind, then by the rows involved.
pub open spec fn comes_before(a: Seen, b: Seen) -> bool {
    if severity_rank(a.0) != severity_rank(b.0) {
        severity_rank(a.0) < severity_rank(b.0)
    } else if kind_rank(a.1) != kind_rank(b.1) {
        kind_rank(a.1) < kind_rank(b.1)
    } else {
        rows_lt(a.4, b.4)
    }
}

/// A finding put into a listed run: after everything that does not come
/// after it, so findings that tie keep the order they were found in.
pub open spec fn insert_stable(listed: Seq<Seen>, x: Seen) -> Seq<Seen>
    decreases listed.len(),
{
    if listed.len() == 0 {
        seq![x]
    } else if comes_before(x, listed.last()) {
        insert_stable(listed.drop_last(), x).push(listed.last())
    } else {
        listed.push(x)
    }
}

/// A run of findings in listing order; ties keep the order they came in.
pub open spec fn stable_sorted(findings: Seq<Seen>) -> Seq<Seen>
    decreases findings.len(),
{
    if findings.len() == 0 {
        Seq::empty()
    } else {
        insert_stable(stable_sorted(findings.drop_last()), findings.last())
    }
}

/// Where [`insert_stable`] puts a finding: before the run at the end of the
/// list that it comes before.
proof fn lemma_insert_at(listed: Seq<Seen>, x: Seen, p: int)
    requires
        0 <= p <= listed.len(),
        forall|j: int| p <= j < listed.len() ==> comes_before(x, #[trigger] listed[j]),
        p > 0 ==> !comes_before(x, listed[p - 1]),
    ensures
        insert_stable(listed, x) == listed.take(p) + seq![x] + listed.skip(p),
    decreases listed.len(),
{
    if listed.len() == 0 {
        assert(listed.take(p) + seq![x] + listed.skip(p) =~= seq![x]);
    } else if comes_before(x, listed.last()) {
        let front = listed.drop_last();
        assert(p < listed.len());
        assert forall|j: int| p <= j < front.len() implies comes_before(x, #[trigger] front[j]) by {
            assert(front[j] == listed[j]);
        }
        if p > 0 {
            assert(front[p - 1] == listed[p - 1]);
        }
        lemma_insert_at(front, x, p);
        assert((front.take(p) + seq![x] + front.skip(p)).push(listed.last()) =~= listed.take(p) + seq![x]
            + listed.skip(p));
    } else {
        assert(p == listed.len());
        assert(listed.take(p) + seq![x] + listed.skip(p) =~= listed.push(x));
    }
}

/// A run of findings in which nothing comes before a finding listed ahead of it.
pub open spec fn listed_in_order(findings: Seq<Seen>) -> bool {
    forall|i: int, j: int|
        0 <= i < j < findings.len() ==> !comes_before(#[trigger] findings[j], #[trigger] findings[i])
}

/// Row lists never come before each other both ways, and when the first
/// comes before the third, it comes before the second or the second before
/// the third.
proof fn lemma_rows_order(a: Seq<usize>, b: Seq<usize>, c: Seq<usize>)
    ensures
        rows_lt(a, b) ==> !rows_lt(b, a),
        rows_lt(a, c) ==> rows_lt(a, b) || rows_lt(b, c),
    decreases a.len(),
{
    if a.len() > 0 && b.len() > 0 && c.len() > 0 && a[0] == b[0] && b[0] == c[0] {
        lemma_rows_order(a.drop_first(), b.drop_first(), c.drop_first());
    } else if a.len() > 0 && b.len() > 0 && a[0] == b[0] {
        lemma_rows_order(a.drop_first(), b.drop_first(), b.drop_first());
    }
}

/// Listing order is a strict weak order: never both ways, and "not before"
/// carries over.
proof fn lemma_listing_order(a: Seen, b: Seen, c: Seen)
    ensures
        comes_before(a, b) ==> !comes_before(b, a),
        !comes_before(a, b) && !comes_before(b, c) ==> !comes_before(a, c),
{
    lemma_rows_order(a.4, b.4, c.4);
}

/// Putting a finding into an ordered run keeps it ordered, adds that finding
/// and loses none.
proof fn lemma_insert_in_order(listed: Seq<Seen>, x: Seen)
    requires
        listed_in_order(listed),
    ensures
        listed_in_order(insert_stable(listed, x)),
        insert_stable(listed, x).to_multiset() == listed.to_multiset().insert(x),
        forall|y: Seen| #[trigger] insert_stable(listed, x).contains(y) ==> y == x || listed.contains(y),
    decreases listed.len(),
{
    broadcast use vstd::seq_lib::group_to_multiset_ensures;

    if listed.len() == 0 {
        assert(seq![x] =~= Seq::<Seen>::empty().push(x));
        assert forall|y: Seen| #[trigger] seq![x].contains(y) implies y == x by {
            let k = choose|k: int| 0 <= k < 1 && seq![x][k] == y;
        }
    } else {
        let front = listed.drop_last();
        let last = listed.last();
        assert(front.push(last) =~= listed);
        assert(listed_in_order(front)) by {
            assert forall|i: int, j: int| 0 <= i < j < front.len() implies !comes_before(
                #[trigger] front[j],
                #[trigger] front[i],
            ) by {
                assert(front[i] == listed[i] && front[j] == listed[j]);
            }
        }
        if comes_before(x, last) {
            lemma_insert_in_order(front, x);
            let inner = insert_stable(front, x);
            let result = inner.push(last);
            assert(result == insert_stable(listed, x));
            assert forall|i: int, j: int| 0 <= i < j < result.len() implies !comes_before(
                #[trigger] result[j],
                #[trigger] result[i],
            ) by {
                if j == inner.len() {
                    assert(inner.contains(inner[i]));
                    lemma_listing_order(x, last, last);
                    if inner[i] != x {
                        let k = choose|k: int| 0 <= k < front.len() && front[k] == inner[i];
                        assert(listed[k] == front[k]);
                        assert(listed[listed.len() - 1] == last);
                    }
                } else {
                    assert(result[i] == inner[i] && result[j] == inner[j]);
                }
            }
            assert(listed.to_multiset() =~= front.to_multiset().insert(last));
            assert forall|y: Seen| #[trigger] result.contains(y) implies y == x || listed.contains(
                y,
            ) by {
                let k = choose|k: int| 0 <= k < result.len() && result[k] == y;
                if k < inner.len() {
                    assert(inner[k] == y);
                    assert(inner.contains(y));
                    if y != x {
                        let m = choose|m: int| 0 <= m < front.len() && front[m] == y;
                        assert(listed[m] == y);
                    }
                } else {
                    assert(listed[listed.len() - 1] == y);
                }
            }
        } else {
            let result = listed.push(x);
            assert forall|i: int, j: int| 0 <= i < j < result.len() implies !comes_before(
                #[trigger] result[j],
                #[trigger] result[i],
            ) by {
                if j == listed.len() {
                    if i < listed.len() - 1 {
                        lemma_listing_order(x, last, listed[i]);
                        assert(!comes_before(listed[listed.len() - 1], listed[i]));
                    }
                } else {
                    assert(result[i] == listed[i] && result[j] == listed[j]);
                }
            }
            assert forall|y: Seen| #[trigger] result.contains(y) implies y == x || listed.contains(
                y,
            ) by {
                let k = choose|k: int| 0 <= k < result.len() && result[k] == y;
                if k < listed.len() {
                    assert(listed[k] == y);
                }
            }
        }
    }
}

/// What the listing does to a run of findings: it comes out ordered, most
/// severe first, and holds exactly the findings that went in, each as often.
pub proof fn lemma_listing_is_ordered(findings: Seq<Seen>)
    ensures
        listed_in_order(stable_sorted(findings)),
        stable_sorted(findings).to_multiset() == findings.to_multiset(),
        forall|i: int, j: int|
            0 <= i < j < stable_sorted(findings).len() ==> severity_rank(
                (#[trigger] stable_sorted(findings)[i]).0,
            ) <= severity_rank((#[trigger] stable_sorted(findings)[j]).0),
    decreases findings.len(),
{
    broadcast use vstd::seq_lib::group_to_multiset_ensures;

    let sorted = stable_sorted(findings);
    if findings.len() == 0 {
        assert(findings =~= Seq::<Seen>::empty());
    } else {
        lemma_listing_is_ordered(findings.drop_last());
        lemma_insert_in_order(stable_sorted(findings.drop_last()), findings.last());
        assert(findings.drop_last().push(findings.last()) =~= findings);
    }
    assert forall|i: int, j: int| 0 <= i < j < sorted.len() implies severity_rank(
        (#[trigger] sorted[i]).0,
    ) <= severity_rank((#[trigger] sorted[j]).0) by {
        assert(!comes_before(sorted[j], sorted[i]));
    }
}

/// A severity's place in the listing.
fn severity_place(severity: Severity) -> (place: u8)
    ensures
        place == severity_rank(severity),
{
    match severity {
        Severity::Blocking => 0,
        Severity::Warning => 1,
        Severity::Notice => 2,
    }
}

/// A kind's place in the listing.
fn kind_place(kind: FindingKind) -> (place: u8)
    ensures
        place == kind_rank(kind),
{
    match kind {
        FindingKind::BlankRequiredField => 0,
        FindingKind::OrderLinesDisagree => 1,
        FindingKind::AddressOnTwoRoutes => 2,
        FindingKind::RepeatedStopSequence => 3,
        FindingKind::ProductDetailsDisagree => 4,
        FindingKind::UnfamiliarValue => 5,
    }
}

/// Whether one list of rows sorts strictly before another.
fn rows_before(a: &Vec<usize>, b: &Vec<usize>) -> (before: bool)
    ensures
        before == rows_lt(a@, b@),
{
    let mut i: usize = 0;
    proof {
        assert(a@.skip(0) =~= a@);
        assert(b@.skip(0) =~= b@);
    }
    while i < a.len() && i < b.len()
        invariant
            0 <= i <= a@.len(),
            i <= b@.len(),
            rows_lt(a@, b@) == rows_lt(a@.skip(i as int), b@.skip(i as int)),
        decreases a@.len() - i,
    {
        if a[i] != b[i] {
            proof {
                assert(a@.skip(i as int)[0] == a@[i as int]);
                assert(b@.skip(i as int)[0] == b@[i as int]);
            }
            return a[i] < b[i];
        }
        proof {
            assert(a@.skip(i as int).drop_first() =~= a@.skip(i + 1));
            assert(b@.skip(i as int).drop_first() =~= b@.skip(i + 1));
        }
        i = i + 1;
    }
    i < b.len()
}

/// Whether one finding is listed strictly before another.
fn listed_before(a: &Finding, b: &Finding) -> (before: bool)
    ensures
        before == comes_before(a.seen(), b.seen()),
{
    let sa = severity_place(a.severity);
    let sb = severity_place(b.severity);
    if sa != sb {
        return sa < sb;
    }
    let ka = kind_place(a.kind);
    let kb = kind_place(b.kind);
    if ka != kb {
        return ka < kb;
    }
    rows_before(&a.rows, &b.rows)
}

/// Runs every check over a file's rows.
///
/// The findings come most severe first, then by kind, then by the rows
/// involved; findings that tie keep the order the checks found them in. An
/// empty list means the file matches every rule the printed page relies on.
pub fn run(rows: &Vec<SheetRow>) -> (findings: Vec<Finding>)
    ensures
        seen_all(findings@) == stable_sorted(all_findings(rows@)),
        seen_all(findings@).to_multiset() == all_findings(rows@).to_multiset(),
        forall|i: int, j: int|
            0 <= i < j < findings@.len() ==> severity_rank((#[trigger] findings@[i]).severity)
                <= severity_rank((#[trigger] findings@[j]).severity),
{
    let mut found = blank_required_fields(rows);
    let mut more = orders_that_disagree(rows);
    let ghost a = found@;
    found.append(&mut more);
    let ghost a = seen_all(a) + seen_all(more@);
    let mut more = addresses_on_two_routes(rows);
    let ghost b = found@;
    found.append(&mut more);
    let mut more = repeated_stop_sequences(rows);
    let ghost c = found@;
    found.append(&mut more);
    let mut more = products_that_disagree(rows);
    let ghost d = found@;
    found.append(&mut more);
    let mut more = unfamiliar_values(rows);
    let ghost e = found@;
    found.append(&mut more);
    proof {
        assert(seen_all(found@) =~= all_findings(rows@));
    }
    let ghost everything_found = seen_all(found@);
    let total = found.len();
    let mut listed: Vec<Finding> = Vec::new();
    let mut k: usize = 0;
    proof {
        assert(everything_found.take(0) =~= Seq::<Seen>::empty());
        assert(seen_all(found@) =~= everything_found.skip(0));
    }
    while found.len() > 0
        invariant
            k <= everything_found.len(),
            k + found@.len() == everything_found.len(),
            everything_found.len() == total,
            seen_all(found@) == everything_found.skip(k as int),
            seen_all(listed@) == stable_sorted(everything_found.take(k as int)),
        decreases found@.len(),
    {
        let ghost rest = found@;
        let x = found.remove(0);
        proof {
            assert(seen_all(rest)[0] == rest[0].seen());
            assert(everything_found.skip(k as int)[0] == everything_found[k as int]);
            assert(x.seen() == everything_found[k as int]);
            assert(found@ =~= rest.drop_first());
            assert(seen_all(found@) =~= seen_all(rest).drop_first());
            assert(everything_found.skip(k as int).drop_first() =~= everything_found.skip(k + 1));
            assert(seen_all(found@) =~= everything_found.skip(k + 1));
        }
        let ghost before = seen_all(listed@);
        let mut at: usize = listed.len();
        while at > 0 && listed_before(&x, &listed[at - 1])
            invariant
                0 <= at <= listed@.len(),
                seen_all(listed@) == before,
                forall|j: int| at <= j < listed@.len() ==> comes_before(x.seen(), #[trigger] before[j]),
            decreases at,
        {
            at = at - 1;
        }
        proof {
            lemma_insert_at(before, x.seen(), at as int);
            let next = everything_found.take(k + 1);
            assert(next.drop_last() =~= everything_found.take(k as int));
            assert(next.last() == x.seen());
        }
        listed.insert(at, x);
        proof {
            assert(seen_all(listed@) =~= before.take(at as int) + seq![x.seen()] + before.skip(at as int));
        }
        k = k + 1;
    }
    proof {
        assert(everything_found.take(k as int) =~= everything_found);
        lemma_listing_is_ordered(everything_found);
        assert forall|i: int, j: int| 0 <= i < j < listed@.len() implies severity_rank(
            (#[trigger] listed@[i]).severity,
        ) <= severity_rank((#[trigger] listed@[j]).severity) by {
            assert(seen_all(listed@)[i] == listed@[i].seen());
            assert(seen_all(listed@)[j] == listed@[j].seen());
        }
    }
    listed
}

} // verus!
