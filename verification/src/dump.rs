//! A route written out as plain text for the terminal, in the shape of the
//! printed sheet: the same content, so the model can be read and checked by
//! eye before any of it is drawn.

use vstd::prelude::*;

use crate::chars::{decimal, decimal_text, push_char, push_str, trim_end, trimmed_at_end};
use crate::crates::{self, crates_for, hundredths, slots_reported, CrateRules};
use crate::date::{span_text, DeliveryDates};
use crate::list::Kind;
use crate::order::{units_of, Line, Order};
use crate::route::{lines_on, Route};
use crate::supplier::{code, code_of, display_name, name_of};
use crate::total::{
    self, column_units, summary_text, totals_described, types_in, units_in, RouteTotal,
    SupplierColumn, TotalLine,
};
use crate::validate::signed;

verus! {

/// The flag over the stops nobody gave a position.
pub const NO_POSITION: &'static str = "\n─── no position assigned — driver decides the order ───\n";

/// Text right-aligned in a field of `width` characters.
pub open spec fn right_aligned(text: Seq<char>, width: nat) -> Seq<char> {
    if text.len() < width {
        Seq::new((width - text.len()) as nat, |i: int| ' ') + text
    } else {
        text
    }
}

/// A piece of text `n` times over.
pub open spec fn repeated(piece: Seq<char>, n: nat) -> Seq<char>
    decreases n,
{
    if n == 0 {
        Seq::empty()
    } else {
        repeated(piece, (n - 1) as nat) + piece
    }
}

/// The dates as the heading gives them.
pub open spec fn date_label(dates: Option<DeliveryDates>) -> Seq<char> {
    match dates {
        Some(d) => span_text(d),
        None => "date unknown"@,
    }
}

/// The heading a crate label is copied from: the customer, and the
/// department when there is one.
pub open spec fn heading_of(stop: Order) -> Seq<char> {
    match stop.department {
        Some(d) => stop.customer@ + " — "@ + d@,
        None => stop.customer@,
    }
}

/// `■` for each large crate and `◪` for each small one.
pub open spec fn glyphs_for(count: (nat, nat)) -> Seq<char> {
    trim_end(repeated("■ "@, count.0) + repeated("◪ "@, count.1))
}

/// How many times a character occurs in a run of text.
pub open spec fn occurrences(s: Seq<char>, c: char) -> nat
    decreases s.len(),
{
    if s.len() == 0 {
        0
    } else {
        occurrences(s.drop_last(), c) + if s.last() == c {
            1nat
        } else {
            0nat
        }
    }
}

proof fn lemma_occurrences_add(a: Seq<char>, b: Seq<char>, c: char)
    ensures
        occurrences(a + b, c) == occurrences(a, c) + occurrences(b, c),
    decreases b.len(),
{
    if b.len() > 0 {
        lemma_occurrences_add(a, b.drop_last(), c);
        assert((a + b).drop_last() =~= a + b.drop_last());
        assert((a + b).last() == b.last());
    } else {
        assert(a + b =~= a);
    }
}

proof fn lemma_occurrences_repeated(piece: Seq<char>, n: nat, c: char)
    ensures
        occurrences(repeated(piece, n), c) == n * occurrences(piece, c),
    decreases n,
{
    if n > 0 {
        lemma_occurrences_repeated(piece, (n - 1) as nat, c);
        lemma_occurrences_add(repeated(piece, (n - 1) as nat), piece, c);
        assert(repeated(piece, n) == repeated(piece, (n - 1) as nat) + piece);
        let m = (n - 1) as nat;
        let o = occurrences(piece, c);
        assert(m * o + o == n * o) by (nonlinear_arith)
            requires
                m + 1 == n,
        ;
    } else {
        assert(repeated(piece, n) =~= Seq::<char>::empty());
        assert(n * occurrences(piece, c) == 0) by (nonlinear_arith)
            requires
                n == 0,
        ;
    }
}

proof fn lemma_occurrences_pair(a: char, b: char, c: char)
    ensures
        occurrences(seq![a, b], c) == (if a == c { 1nat } else { 0nat }) + (if b == c { 1nat } else { 0nat }),
{
    reveal_with_fuel(occurrences, 3);
    assert(seq![a, b].drop_last() =~= seq![a]);
    assert(seq![a].drop_last() =~= Seq::<char>::empty());
}

/// Only white space is cut off the end of a text.
proof fn lemma_trim_end_keeps(s: Seq<char>, c: char)
    requires
        !crate::chars::is_white(c),
    ensures
        occurrences(trim_end(s), c) == occurrences(s, c),
        crate::chars::trailing_white(s) <= s.len(),
    decreases s.len(),
{
    if s.len() > 0 && crate::chars::is_white(s.last()) {
        lemma_trim_end_keeps(s.drop_last(), c);
        assert(s.last() != c);
        assert(trim_end(s) =~= trim_end(s.drop_last()));
    } else {
        assert(trim_end(s) =~= s);
    }
}

/// The glyphs beside a customer are the crates `count` gives: one `■` for
/// each large crate and one `◪` for each small one, and no other crate
/// drawn.
pub proof fn lemma_glyphs_count_the_crates(count: (nat, nat))
    ensures
        occurrences(glyphs_for(count), '■') == count.0,
        occurrences(glyphs_for(count), '◪') == count.1,
{
    reveal_strlit("■ ");
    reveal_strlit("◪ ");
    let large = repeated("■ "@, count.0);
    let small = repeated("◪ "@, count.1);
    assert("■ "@ =~= seq!['■', ' ']);
    assert("◪ "@ =~= seq!['◪', ' ']);
    lemma_occurrences_pair('■', ' ', '■');
    lemma_occurrences_pair('■', ' ', '◪');
    lemma_occurrences_pair('◪', ' ', '■');
    lemma_occurrences_pair('◪', ' ', '◪');
    lemma_occurrences_repeated("■ "@, count.0, '■');
    lemma_occurrences_repeated("■ "@, count.0, '◪');
    lemma_occurrences_repeated("◪ "@, count.1, '■');
    lemma_occurrences_repeated("◪ "@, count.1, '◪');
    lemma_occurrences_add(large, small, '■');
    lemma_occurrences_add(large, small, '◪');
    lemma_trim_end_keeps(large + small, '■');
    lemma_trim_end_keeps(large + small, '◪');
    assert(occurrences("■ "@, '■') == 1);
    assert(occurrences("■ "@, '◪') == 0);
    assert(occurrences(large, '■') == count.0) by {
        assert(occurrences(large, '■') == count.0 * occurrences("■ "@, '■'));
        assert(count.0 * 1 == count.0);
    }
    assert(occurrences(large, '◪') == 0) by {
        assert(occurrences(large, '◪') == count.0 * occurrences("■ "@, '◪'));
        assert(count.0 * 0 == 0);
    }
    assert(occurrences("◪ "@, '◪') == 1);
    assert(occurrences("◪ "@, '■') == 0);
    assert(occurrences(small, '◪') == count.1) by {
        assert(occurrences(small, '◪') == count.1 * occurrences("◪ "@, '◪'));
        assert(count.1 * 1 == count.1);
    }
    assert(occurrences(small, '■') == 0) by {
        assert(occurrences(small, '■') == count.1 * occurrences("◪ "@, '■'));
        assert(count.1 * 0 == 0);
    }
}

/// Quiet when substitutes are fine, loud when they are not: the state that
/// changes what a driver does.
pub open spec fn marker_of(stop: Order) -> Seq<char> {
    if stop.accept_alternatives {
        "want substitute: true"@
    } else {
        "WANT SUBSTITUTE: FALSE"@
    }
}

/// One bread line of a stop.
pub open spec fn line_row(line: Line) -> Seq<char> {
    "  "@ + right_aligned(decimal(line.quantity as nat), 3) + "  "@ + code_of(line.product.supplier@)
        + "  "@ + line.product.name@ + "\n"@
}

/// The customer's note, when there is one.
pub open spec fn note_of(stop: Order) -> Seq<char> {
    match stop.comment {
        Some(c) => "       note: "@ + c@ + "\n"@,
        None => Seq::empty(),
    }
}

/// The crates a stop is packed in, after its heading, on a list that packs
/// bread in crates; nothing on one that does not.
pub open spec fn crates_piece(stop: Order, rules: CrateRules, crates: bool) -> Seq<char> {
    if crates {
        "  "@ + glyphs_for(crates_for(slots_reported(stop, rules), rules))
    } else {
        Seq::empty()
    }
}

/// One stop: its heading, then its bread, then its note.
pub open spec fn stop_text(stop: Order, rules: CrateRules, crates: bool) -> Seq<char> {
    heading_of(stop) + crates_piece(stop, rules, crates) + "  "@ + marker_of(stop) + "  "@ + signed(stop.id as int) + "\n"@ + stop.lines@.map_values(
        |line: Line| line_row(line),
    ).flatten() + note_of(stop)
}

/// Whether the flag goes before a stop: it is the first stop with no
/// position.
pub open spec fn flag_before(stops: Seq<Order>, i: int) -> bool {
    stops[i].sequence == 0 && forall|j: int| 0 <= j < i ==> stops[j].sequence != 0
}

/// A stop as the dump lists it.
pub open spec fn stop_piece(stops: Seq<Order>, i: int, rules: CrateRules, crates: bool) -> Seq<char> {
    (if flag_before(stops, i) {
        NO_POSITION@
    } else {
        Seq::empty()
    }) + "\n"@ + stop_text(stops[i], rules, crates)
}

/// One row of a route total.
pub open spec fn total_row(line: TotalLine) -> Seq<char> {
    "    "@ + right_aligned(decimal(line.units as nat), 3) + "  "@ + line.product.name@ + repeated(
        "  ●"@,
        line.full_tens as nat,
    ) + "\n"@
}

/// One bakery's column of a route total.
pub open spec fn column_text(column: SupplierColumn) -> Seq<char> {
    "  "@ + code_of(column.supplier@) + " "@ + name_of(column.supplier@) + " — "@ + summary_text(
        column.lines@.len() as usize,
        units_in(column.lines@) as u32,
    ) + "\n"@ + column.lines@.map_values(|line: TotalLine| total_row(line)).flatten()
}

/// The route's closing cross-check, one column per bakery.
pub open spec fn total_text(route: Route, total: RouteTotal) -> Seq<char> {
    "Route "@ + route.nickname@ + " total — "@ + summary_text(
        types_in(total.columns@) as usize,
        column_units(total.columns@) as u32,
    ) + "\n"@ + total.columns@.map_values(|column: SupplierColumn| column_text(column)).flatten()
}

/// The whole dump of a route; `crates` says whether the list packs its bread
/// in crates, as bread does and freezer goods, which come packed, do not.
pub open spec fn dump_text(
    route: Route,
    dates: Option<DeliveryDates>,
    rules: CrateRules,
    crates: bool,
    total: RouteTotal,
) -> Seq<char> {
    let stops = route.stops@;
    "ROUTE "@ + route.nickname@ + " — "@ + date_label(dates) + " — "@ + decimal(stops.len())
        + " stops, "@ + decimal(lines_on(stops)) + " lines\n"@ + Seq::new(
        stops.len(),
        |i: int| stop_piece(stops, i, rules, crates),
    ).flatten() + "\n"@ + total_text(route, total)
}

/// Whether a route total's counts fit the numbers the dump writes them in.
pub open spec fn total_fits(total: RouteTotal) -> bool {
    &&& types_in(total.columns@) <= usize::MAX
    &&& column_units(total.columns@) <= u32::MAX
    &&& forall|c: int| 0 <= c < total.columns@.len() ==> units_in((#[trigger] total.columns@[c]).lines@) <= u32::MAX
}

/// Whether a route can be dumped without a count running over; the crates
/// are only counted on a list that packs in crates.
pub open spec fn dumpable(route: Route, rules: CrateRules, crates: bool) -> bool {
    &&& lines_on(route.stops@) <= usize::MAX
    &&& total::totals_fit(total::all_lines(route.stops@))
    &&& crates ==> forall|i: int| 0 <= i < route.stops@.len() ==> hundredths((#[trigger] route.stops@[i]).lines@, rules) <= u64::MAX
    &&& forall|t: RouteTotal| totals_described(route, t) ==> total_fits(t)
}

/// Appends text right-aligned in a field of `width` characters.
fn push_right_aligned(out: &mut String, text: &str, width: usize)
    ensures
        final(out)@ == old(out)@ + right_aligned(text@, width as nat),
{
    let length = crate::chars::chars_of(text).len();
    if length < width {
        let mut i: usize = 0;
        let ghost start = out@;
        while i < width - length
            invariant
                0 <= i <= width - length,
                length == text@.len(),
                length < width,
                out@ == start + Seq::new(i as nat, |k: int| ' '),
            decreases width - length - i,
        {
            push_char(out, ' ');
            proof {
                assert(Seq::new((i + 1) as nat, |k: int| ' ') =~= Seq::new(i as nat, |k: int| ' ').push(' '));
            }
            i = i + 1;
        }
        proof {
            assert(start + Seq::new((width - length) as nat, |k: int| ' ') + text@ =~= start + right_aligned(text@, width as nat));
        }
    }
    push_str(out, text);
}

/// Appends a piece of text `n` times over.
fn push_repeated(out: &mut String, piece: &str, n: usize)
    ensures
        final(out)@ == old(out)@ + repeated(piece@, n as nat),
{
    let ghost start = out@;
    let mut i: usize = 0;
    while i < n
        invariant
            0 <= i <= n,
            out@ == start + repeated(piece@, i as nat),
        decreases n - i,
    {
        push_str(out, piece);
        proof {
            assert(start + repeated(piece@, (i + 1) as nat) =~= start + repeated(piece@, i as nat) + piece@);
        }
        i = i + 1;
    }
}

/// `■` for a crate of ten, `◪` for a crate of five.
fn crate_glyphs(stop: &Order, rules: &CrateRules) -> (glyphs: String)
    requires
        hundredths(stop.lines@, *rules) <= u64::MAX,
    ensures
        glyphs@ == glyphs_for(crates_for(slots_reported(*stop, *rules), *rules)),
{
    let count = crates::count(stop, rules);
    let mut all = String::new();
    push_repeated(&mut all, "■ ", count.large as usize);
    push_repeated(&mut all, "◪ ", count.small as usize);
    let chars = crate::chars::chars_of(all.as_str());
    let kept = trimmed_at_end(chars.as_slice());
    crate::chars::string_of(kept.as_slice())
}

/// Quiet when substitutes are fine, loud when they are not.
fn substitute_marker(stop: &Order) -> (marker: &'static str)
    ensures
        marker@ == marker_of(*stop),
{
    if stop.accept_alternatives {
        return "want substitute: true";
    }
    "WANT SUBSTITUTE: FALSE"
}

/// One stop: the heading a crate label is copied from, then its bread.
fn stop_block(stop: &Order, rules: &CrateRules, crates: bool) -> (block: String)
    requires
        crates ==> hundredths(stop.lines@, *rules) <= u64::MAX,
    ensures
        block@ == stop_text(*stop, *rules, crates),
{
    let mut out = String::new();
    push_str(&mut out, stop.customer.as_str());
    match &stop.department {
        Some(department) => {
            push_str(&mut out, " — ");
            push_str(&mut out, department.as_str());
        },
        None => {},
    }
    if crates {
        push_str(&mut out, "  ");
        push_str(&mut out, crate_glyphs(stop, rules).as_str());
    }
    push_str(&mut out, "  ");
    push_str(&mut out, substitute_marker(stop));
    push_str(&mut out, "  ");
    push_str(&mut out, crate::validate::signed_text(stop.id).as_str());
    push_str(&mut out, "\n");
    let ghost start = out@;
    let ghost rows = stop.lines@.map_values(|line: Line| line_row(line));
    let mut i: usize = 0;
    while i < stop.lines.len()
        invariant
            0 <= i <= stop.lines@.len(),
            rows == stop.lines@.map_values(|line: Line| line_row(line)),
            out@ == start + rows.take(i as int).flatten(),
        decreases stop.lines@.len() - i,
    {
        let line = &stop.lines[i];
        let ghost before = out@;
        push_str(&mut out, "  ");
        push_right_aligned(&mut out, decimal_text(line.quantity as u64).as_str(), 3);
        push_str(&mut out, "  ");
        push_str(&mut out, code(line.product.supplier.as_str()).as_str());
        push_str(&mut out, "  ");
        push_str(&mut out, line.product.name.as_str());
        push_str(&mut out, "\n");
        proof {
            assert(out@ =~= before + line_row(*line));
            assert(rows.take(i + 1) =~= rows.take(i as int).push(rows[i as int]));
            rows.take(i as int).lemma_flatten_push(rows[i as int]);
        }
        i = i + 1;
    }
    proof {
        assert(rows.take(stop.lines@.len() as int) =~= rows);
    }
    match &stop.comment {
        Some(comment) => {
            push_str(&mut out, "       note: ");
            push_str(&mut out, comment.as_str());
            push_str(&mut out, "\n");
        },
        None => {},
    }
    out
}

/// The route's closing cross-check, one column per bakery.
fn route_total(route: &Route, total: &RouteTotal) -> (text: String)
    requires
        total_fits(*total),
    ensures
        text@ == total_text(*route, *total),
{
    let mut out = String::new();
    push_str(&mut out, "Route ");
    push_str(&mut out, route.nickname.as_str());
    push_str(&mut out, " total — ");
    push_str(&mut out, total::summary(total.types(), total.units()).as_str());
    push_str(&mut out, "\n");
    let ghost start = out@;
    let ghost parts = total.columns@.map_values(|column: SupplierColumn| column_text(column));
    let mut c: usize = 0;
    while c < total.columns.len()
        invariant
            0 <= c <= total.columns@.len(),
            total_fits(*total),
            parts == total.columns@.map_values(|column: SupplierColumn| column_text(column)),
            out@ == start + parts.take(c as int).flatten(),
        decreases total.columns@.len() - c,
    {
        let column = &total.columns[c];
        let ghost before = out@;
        assert(units_in(column.lines@) <= u32::MAX);
        push_str(&mut out, "  ");
        push_str(&mut out, code(column.supplier.as_str()).as_str());
        push_str(&mut out, " ");
        push_str(&mut out, display_name(column.supplier.as_str()).as_str());
        push_str(&mut out, " — ");
        push_str(&mut out, total::summary(column.types(), column.units()).as_str());
        push_str(&mut out, "\n");
        let ghost middle = out@;
        let ghost rows = column.lines@.map_values(|line: TotalLine| total_row(line));
        let mut i: usize = 0;
        while i < column.lines.len()
            invariant
                0 <= i <= column.lines@.len(),
                rows == column.lines@.map_values(|line: TotalLine| total_row(line)),
                out@ == middle + rows.take(i as int).flatten(),
            decreases column.lines@.len() - i,
        {
            let line = &column.lines[i];
            let ghost here = out@;
            push_str(&mut out, "    ");
            push_right_aligned(&mut out, decimal_text(line.units as u64).as_str(), 3);
            push_str(&mut out, "  ");
            push_str(&mut out, line.product.name.as_str());
            push_repeated(&mut out, "  ●", line.full_tens as usize);
            push_str(&mut out, "\n");
            proof {
                assert(out@ =~= here + total_row(*line));
                assert(rows.take(i + 1) =~= rows.take(i as int).push(rows[i as int]));
                rows.take(i as int).lemma_flatten_push(rows[i as int]);
            }
            i = i + 1;
        }
        proof {
            assert(rows.take(column.lines@.len() as int) =~= rows);
            assert(out@ =~= before + column_text(*column));
            assert(parts.take(c + 1) =~= parts.take(c as int).push(parts[c as int]));
            parts.take(c as int).lemma_flatten_push(parts[c as int]);
        }
        c = c + 1;
    }
    proof {
        assert(parts.take(total.columns@.len() as int) =~= parts);
    }
    out
}

/// Renders one route of a bread list: its stops in delivery order, the
/// unsequenced ones under a flag, then the route total. Each stop's heading
/// carries the crates it is packed in.
pub fn route(trip: &Route, dates: Option<DeliveryDates>, rules: &CrateRules) -> (text: String)
    requires
        dumpable(*trip, *rules, true),
    ensures
        exists|total: RouteTotal| totals_described(*trip, total) && text@ == dump_text(*trip, dates, *rules, true, total),
{
    dump_route(trip, dates, rules, true)
}

/// Renders one route of a list of the given kind. A list that does not pack
/// in crates (the freezer list: its goods arrive packed) draws no crates.
pub fn route_for(trip: &Route, dates: Option<DeliveryDates>, rules: &CrateRules, kind: &Kind) -> (text: String)
    requires
        dumpable(*trip, *rules, *kind is Bread),
    ensures
        exists|total: RouteTotal|
            totals_described(*trip, total) && text@ == dump_text(*trip, dates, *rules, *kind is Bread, total),
{
    dump_route(trip, dates, rules, kind.has_crates())
}

fn dump_route(trip: &Route, dates: Option<DeliveryDates>, rules: &CrateRules, crates: bool) -> (text: String)
    requires
        dumpable(*trip, *rules, crates),
    ensures
        exists|total: RouteTotal| totals_described(*trip, total) && text@ == dump_text(*trip, dates, *rules, crates, total),
{
    let mut out = String::new();
    push_str(&mut out, "ROUTE ");
    push_str(&mut out, trip.nickname.as_str());
    push_str(&mut out, " — ");
    match dates {
        Some(d) => push_str(&mut out, d.to_text().as_str()),
        None => push_str(&mut out, "date unknown"),
    }
    push_str(&mut out, " — ");
    push_str(&mut out, decimal_text(trip.stops.len() as u64).as_str());
    push_str(&mut out, " stops, ");
    push_str(&mut out, decimal_text(trip.line_count() as u64).as_str());
    push_str(&mut out, " lines\n");
    let ghost start = out@;
    let ghost stops = trip.stops@;
    let ghost pieces = Seq::new(stops.len(), |i: int| stop_piece(stops, i, *rules, crates));
    let mut flagged = false;
    let mut i: usize = 0;
    while i < trip.stops.len()
        invariant
            0 <= i <= stops.len(),
            stops == trip.stops@,
            dumpable(*trip, *rules, crates),
            pieces == Seq::new(stops.len(), |i: int| stop_piece(stops, i, *rules, crates)),
            flagged == exists|j: int| 0 <= j < i && #[trigger] stops[j].sequence == 0,
            out@ == start + pieces.take(i as int).flatten(),
        decreases stops.len() - i,
    {
        let stop = &trip.stops[i];
        let ghost before = out@;
        let ghost was = flagged;
        if !stop.is_sequenced() && !flagged {
            flagged = true;
            push_str(&mut out, NO_POSITION);
        }
        proof {
            if flag_before(stops, i as int) {
                assert(!was);
            } else if stops[i as int].sequence == 0 {
                let j = choose|j: int| 0 <= j < i && stops[j].sequence != 0 == false;
                assert(was);
            }
        }
        push_str(&mut out, "\n");
        push_str(&mut out, stop_block(stop, rules, crates).as_str());
        proof {
            assert(out@ =~= before + pieces[i as int]);
            assert(pieces.take(i + 1) =~= pieces.take(i as int).push(pieces[i as int]));
            pieces.take(i as int).lemma_flatten_push(pieces[i as int]);
            assert(flagged == exists|j: int| 0 <= j < i + 1 && #[trigger] stops[j].sequence == 0);
        }
        i = i + 1;
    }
    proof {
        assert(pieces.take(stops.len() as int) =~= pieces);
    }
    let total = total::of(trip);
    push_str(&mut out, "\n");
    push_str(&mut out, route_total(trip, &total).as_str());
    proof {
        assert(out@ =~= dump_text(*trip, dates, *rules, crates, total));
    }
    out
}

/// Renders one route of a list of the given kind, or nothing when its counts
/// would run over the numbers they are kept in: more units on the route than
/// a `u32` holds, or more lines than a `usize` does.
pub fn route_checked(trip: &Route, dates: Option<DeliveryDates>, rules: &CrateRules, kind: &Kind) -> (text: Option<String>)
    ensures
        match text {
            Some(t) => exists|total: RouteTotal|
                totals_described(*trip, total) && t@ == dump_text(*trip, dates, *rules, *kind is Bread, total),
            None => !(units_of(total::all_lines(trip.stops@)) <= u32::MAX && lines_on(trip.stops@) <= usize::MAX),
        },
{
    let ghost stops = trip.stops@;
    let mut lines: usize = 0;
    let mut units: u64 = 0;
    let mut i: usize = 0;
    while i < trip.stops.len()
        invariant
            0 <= i <= stops.len(),
            stops == trip.stops@,
            lines == lines_on(stops.take(i as int)),
            units == units_of(total::all_lines(stops.take(i as int))),
            units <= u32::MAX,
        decreases stops.len() - i,
    {
        let stop = &trip.stops[i];
        proof {
            assert(stops.take(i + 1).drop_last() =~= stops.take(i as int));
            assert(stops.take(i + 1).last() == stops[i as int]);
        }
        if lines > usize::MAX - stop.lines.len() {
            proof {
                crate::route::lemma_lines_on_prefix(stops, i + 1);
            }
            return None;
        }
        lines = lines + stop.lines.len();
        let ghost before = units;
        let mut j: usize = 0;
        while j < stop.lines.len()
            invariant
                0 <= j <= stop.lines@.len(),
                stops == trip.stops@,
                0 <= i < stops.len(),
                *stop == stops[i as int],
                before == units_of(total::all_lines(stops.take(i as int))),
                units == before + units_of(stop.lines@.take(j as int)),
                units <= u32::MAX,
            decreases stop.lines@.len() - j,
        {
            proof {
                assert(stop.lines@.take(j + 1).drop_last() =~= stop.lines@.take(j as int));
            }
            units = units + stop.lines[j].quantity as u64;
            if units > 4294967295 {
                proof {
                    assert(stops.take(i + 1).drop_last() =~= stops.take(i as int));
                    assert(stops.take(i + 1).last() == stops[i as int]);
                    assert(units == before + units_of(stop.lines@.take(j + 1)));
                    crate::order::lemma_units_prefix(stop.lines@, j + 1);
                    crate::tally::lemma_units_of_concat(total::all_lines(stops.take(i as int)), stop.lines@);
                    crate::tally::lemma_route_prefix(stops, i + 1);
                }
                return None;
            }
            j = j + 1;
        }
        proof {
            assert(stop.lines@.take(stop.lines@.len() as int) =~= stop.lines@);
            crate::tally::lemma_units_of_concat(total::all_lines(stops.take(i as int)), stop.lines@);
        }
        i = i + 1;
    }
    proof {
        assert(stops.take(stops.len() as int) =~= stops);
        crate::tally::lemma_small_route_dumps(*trip, *rules, *kind is Bread);
    }
    Some(route_for(trip, dates, rules, kind))
}

} // verus!
