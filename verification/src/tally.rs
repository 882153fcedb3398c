//! Every bread counted exactly once: the route total is a true cross-check
//! of the lines it was made from.
//!
//! The total regroups a route's lines three times over (by product, by
//! bakery, by size of order), and the sheet prints it as a check a person
//! can do by hand. These are the facts that make the check mean something:
//! nothing is lost or counted twice on the way.

use vstd::prelude::*;

use crate::crates::{hundredths, CrateRules};
use crate::order::{folds_into, line_of, lines_for, order_ids, units_of, Line, Order};
use crate::sheet::SheetRow;
use crate::route::lines_on;
use crate::route::Route;
use crate::total::{
    all_lines, column_units, of_supplier, product_ids, total_line_for, totals_described,
    totals_fit, totals_of, types_in, units_for, units_in, RouteTotal, SupplierColumn, TotalLine,
};

verus! {

broadcast use vstd::seq_lib::group_to_multiset_ensures;

/// The sum of a weight over a run.
pub open spec fn sum_of<A>(s: Seq<A>, w: spec_fn(A) -> int) -> int
    decreases s.len(),
{
    if s.len() == 0 {
        0
    } else {
        sum_of(s.drop_last(), w) + w(s.last())
    }
}

proof fn lemma_sum_one<A>(x: A, w: spec_fn(A) -> int)
    ensures
        sum_of(seq![x], w) == w(x),
{
    assert(seq![x].drop_last() =~= Seq::<A>::empty());
    assert(seq![x].last() == x);
    assert(sum_of(seq![x], w) == sum_of(seq![x].drop_last(), w) + w(seq![x].last()));
}

proof fn lemma_sum_ext<A>(s: Seq<A>, f: spec_fn(A) -> int, g: spec_fn(A) -> int)
    requires
        forall|i: int| 0 <= i < s.len() ==> f(#[trigger] s[i]) == g(s[i]),
    ensures
        sum_of(s, f) == sum_of(s, g),
    decreases s.len(),
{
    if s.len() > 0 {
        assert forall|i: int| 0 <= i < s.drop_last().len() implies f(#[trigger] s.drop_last()[i]) == g(
            s.drop_last()[i],
        ) by {
            assert(s.drop_last()[i] == s[i]);
        }
        lemma_sum_ext(s.drop_last(), f, g);
        assert(f(s[s.len() - 1]) == g(s[s.len() - 1]));
    }
}

proof fn lemma_sum_add<A>(s: Seq<A>, f: spec_fn(A) -> int, g: spec_fn(A) -> int, h: spec_fn(A) -> int)
    requires
        forall|x: A| #[trigger] h(x) == f(x) + g(x),
    ensures
        sum_of(s, h) == sum_of(s, f) + sum_of(s, g),
    decreases s.len(),
{
    if s.len() > 0 {
        lemma_sum_add(s.drop_last(), f, g, h);
        assert(h(s.last()) == f(s.last()) + g(s.last()));
    }
}

proof fn lemma_sum_concat<A>(a: Seq<A>, b: Seq<A>, w: spec_fn(A) -> int)
    ensures
        sum_of(a + b, w) == sum_of(a, w) + sum_of(b, w),
    decreases b.len(),
{
    if b.len() == 0 {
        assert(a + b =~= a);
    } else {
        assert((a + b).drop_last() =~= a + b.drop_last());
        assert((a + b).last() == b.last());
        lemma_sum_concat(a, b.drop_last(), w);
    }
}

/// A sum where every term but one is zero is that one term.
proof fn lemma_sum_single<A>(s: Seq<A>, w: spec_fn(A) -> int, k: int)
    requires
        0 <= k < s.len(),
        forall|i: int| 0 <= i < s.len() && i != k ==> w(#[trigger] s[i]) == 0,
    ensures
        sum_of(s, w) == w(s[k]),
    decreases s.len(),
{
    if k < s.len() - 1 {
        assert forall|i: int| 0 <= i < s.drop_last().len() && i != k implies w(#[trigger] s.drop_last()[i]) == 0 by {
            assert(s.drop_last()[i] == s[i]);
        }
        lemma_sum_single(s.drop_last(), w, k);
        assert(w(s[s.len() - 1]) == 0);
    } else {
        lemma_sum_zero(s.drop_last(), w);
    }
}

proof fn lemma_sum_zero<A>(s: Seq<A>, w: spec_fn(A) -> int)
    requires
        forall|i: int| 0 <= i < s.len() ==> w(#[trigger] s[i]) == 0,
    ensures
        sum_of(s, w) == 0,
    decreases s.len(),
{
    if s.len() > 0 {
        assert forall|i: int| 0 <= i < s.drop_last().len() implies w(#[trigger] s.drop_last()[i]) == 0 by {
            assert(s.drop_last()[i] == s[i]);
        }
        lemma_sum_zero(s.drop_last(), w);
        assert(w(s[s.len() - 1]) == 0);
    }
}

/// Taking one element out of a run takes its weight out of the sum.
proof fn lemma_sum_remove<A>(s: Seq<A>, w: spec_fn(A) -> int, k: int)
    requires
        0 <= k < s.len(),
    ensures
        sum_of(s, w) == sum_of(s.remove(k), w) + w(s[k]),
{
    let front = s.take(k);
    let back = s.skip(k + 1);
    assert(s =~= front + seq![s[k]] + back);
    assert(s.remove(k) =~= front + back);
    lemma_sum_concat(front + seq![s[k]], back, w);
    lemma_sum_concat(front, seq![s[k]], w);
    lemma_sum_concat(front, back, w);
    lemma_sum_one(s[k], w);
}

/// A sum does not depend on the order of what it adds.
proof fn lemma_sum_permutation<A>(a: Seq<A>, b: Seq<A>, w: spec_fn(A) -> int)
    requires
        a.to_multiset() == b.to_multiset(),
    ensures
        sum_of(a, w) == sum_of(b, w),
    decreases a.len(),
{
    if a.len() == 0 {
        assert(a.to_multiset().len() == a.len());
        assert(b.to_multiset().len() == b.len());
        assert(b.len() == 0);
    } else {
        let x = a.last();
        assert(a =~= a.drop_last().push(x));
        assert(a.to_multiset().count(x) > 0);
        assert(b.contains(x));
        let k = choose|k: int| 0 <= k < b.len() && b[k] == x;
        assert(b.remove(k).to_multiset() =~= b.to_multiset().remove(x));
        assert(a.drop_last().to_multiset() =~= a.to_multiset().remove(x));
        lemma_sum_permutation(a.drop_last(), b.remove(k), w);
        lemma_sum_remove(b, w, k);
    }
}

/// A sum over a mapped run is the sum of the composed weight.
proof fn lemma_sum_map<A, B>(s: Seq<A>, f: spec_fn(A) -> B, w: spec_fn(B) -> int, v: spec_fn(A) -> int)
    requires
        forall|x: A| #[trigger] v(x) == w(f(x)),
    ensures
        sum_of(s.map_values(f), w) == sum_of(s, v),
    decreases s.len(),
{
    if s.len() > 0 {
        assert(s.map_values(f).drop_last() =~= s.drop_last().map_values(f));
        lemma_sum_map(s.drop_last(), f, w, v);
        assert(v(s.last()) == w(f(s.last())));
    }
}

// ---------------------------------------------------------------------------
// Weights
// ---------------------------------------------------------------------------

/// A total line's units.
pub open spec fn units_weight() -> spec_fn(TotalLine) -> int {
    |t: TotalLine| t.units as int
}

/// One for every total line.
pub open spec fn one_each() -> spec_fn(TotalLine) -> int {
    |t: TotalLine| 1int
}

/// A supplier's share of a weight over some totals.
pub open spec fn supplier_share(totals: Seq<TotalLine>, f: spec_fn(TotalLine) -> int) -> spec_fn(Seq<char>) -> int {
    |s: Seq<char>| sum_of(of_supplier(totals, s), f)
}

/// A column's share of a weight.
pub open spec fn column_share(f: spec_fn(TotalLine) -> int) -> spec_fn(SupplierColumn) -> int {
    |c: SupplierColumn| sum_of(c.lines@, f)
}

/// The weight of one total line, if it is a given supplier's.
pub open spec fn if_supplier(t: TotalLine, f: spec_fn(TotalLine) -> int) -> spec_fn(Seq<char>) -> int {
    |s: Seq<char>| if t.product.supplier@ == s {
        f(t)
    } else {
        0int
    }
}

/// A product's units on a run of lines.
pub open spec fn product_units(lines: Seq<Line>) -> spec_fn(u32) -> int {
    |id: u32| units_for(lines, id) as int
}

/// The units of one line, if it is a given product's.
pub open spec fn if_product(line: Line) -> spec_fn(u32) -> int {
    |id: u32| if line.product.id == id {
        line.quantity as int
    } else {
        0int
    }
}

proof fn lemma_units_in_is_sum(t: Seq<TotalLine>)
    ensures
        units_in(t) == sum_of(t, units_weight()),
    decreases t.len(),
{
    if t.len() > 0 {
        lemma_units_in_is_sum(t.drop_last());
    }
}

proof fn lemma_len_is_sum(t: Seq<TotalLine>)
    ensures
        t.len() == sum_of(t, one_each()),
    decreases t.len(),
{
    if t.len() > 0 {
        lemma_len_is_sum(t.drop_last());
    }
}

proof fn lemma_column_units_is_sum(c: Seq<SupplierColumn>)
    ensures
        column_units(c) == sum_of(c, column_share(units_weight())),
    decreases c.len(),
{
    if c.len() > 0 {
        lemma_column_units_is_sum(c.drop_last());
        lemma_units_in_is_sum(c.last().lines@);
    }
}

proof fn lemma_types_in_is_sum(c: Seq<SupplierColumn>)
    ensures
        types_in(c) == sum_of(c, column_share(one_each())),
    decreases c.len(),
{
    if c.len() > 0 {
        lemma_types_in_is_sum(c.drop_last());
        lemma_len_is_sum(c.last().lines@);
    }
}

proof fn lemma_units_of_is_sum(lines: Seq<Line>)
    ensures
        units_of(lines) == sum_of(lines, |l: Line| l.quantity as int),
    decreases lines.len(),
{
    if lines.len() > 0 {
        lemma_units_of_is_sum(lines.drop_last());
    }
}

// ---------------------------------------------------------------------------
// Splitting by bakery loses nothing
// ---------------------------------------------------------------------------

/// Summing each bakery's share, over bakeries that are each named once and
/// between them name every line, is summing every line.
proof fn lemma_shares_add_up(totals: Seq<TotalLine>, suppliers: Seq<Seq<char>>, f: spec_fn(TotalLine) -> int)
    requires
        suppliers.no_duplicates(),
        forall|k: int| 0 <= k < totals.len() ==> suppliers.contains(#[trigger] totals[k].product.supplier@),
    ensures
        sum_of(suppliers, supplier_share(totals, f)) == sum_of(totals, f),
    decreases totals.len(),
{
    if totals.len() == 0 {
        assert forall|i: int| 0 <= i < suppliers.len() implies #[trigger] supplier_share(totals, f)(suppliers[i]) == 0 by {
            assert(of_supplier(totals, suppliers[i]) =~= Seq::<TotalLine>::empty());
        }
        lemma_sum_zero(suppliers, supplier_share(totals, f));
    } else {
        let t = totals[0];
        let rest = totals.drop_first();
        assert forall|k: int| 0 <= k < rest.len() implies suppliers.contains(#[trigger] rest[k].product.supplier@) by {
            assert(rest[k] == totals[k + 1]);
        }
        lemma_shares_add_up(rest, suppliers, f);
        assert forall|s: Seq<char>| #[trigger] supplier_share(totals, f)(s) == if_supplier(t, f)(s) + supplier_share(rest, f)(s) by {
            let head: Seq<TotalLine> = if t.product.supplier@ == s {
                seq![t]
            } else {
                Seq::empty()
            };
            assert(of_supplier(totals, s) =~= head + of_supplier(rest, s));
            lemma_sum_concat(head, of_supplier(rest, s), f);
            if t.product.supplier@ == s {
                lemma_sum_one(t, f);
            } else {
                assert(sum_of(head, f) == 0);
            }
        }
        lemma_sum_add(suppliers, if_supplier(t, f), supplier_share(rest, f), supplier_share(totals, f));
        assert(suppliers.contains(t.product.supplier@));
        let k = choose|k: int| 0 <= k < suppliers.len() && suppliers[k] == t.product.supplier@;
        assert forall|i: int| 0 <= i < suppliers.len() && i != k implies #[trigger] if_supplier(t, f)(suppliers[i]) == 0 by {
            assert(suppliers[i] != suppliers[k]);
        }
        lemma_sum_single(suppliers, if_supplier(t, f), k);
        assert(totals =~= seq![t] + rest);
        lemma_sum_concat(seq![t], rest, f);
        lemma_sum_one(t, f);
    }
}

// ---------------------------------------------------------------------------
// Totalling by product loses nothing
// ---------------------------------------------------------------------------

proof fn lemma_product_ids_distinct(lines: Seq<Line>)
    ensures
        product_ids(lines).no_duplicates(),
        forall|k: int| 0 <= k < lines.len() ==> product_ids(lines).contains(#[trigger] lines[k].product.id),
        product_ids(lines).len() <= lines.len(),
    decreases lines.len(),
{
    if lines.len() > 0 {
        let front = lines.drop_last();
        lemma_product_ids_distinct(front);
        let ids = product_ids(front);
        assert forall|k: int| 0 <= k < lines.len() implies product_ids(lines).contains(#[trigger] lines[k].product.id) by {
            if k < front.len() {
                assert(front[k] == lines[k]);
                let w = choose|w: int| 0 <= w < ids.len() && ids[w] == front[k].product.id;
                assert(product_ids(lines)[w] == lines[k].product.id);
            } else if ids.contains(lines.last().product.id) {
            } else {
                assert(product_ids(lines)[ids.len() as int] == lines.last().product.id);
            }
        }
    }
}

/// Adding up every product's units is adding up every line.
proof fn lemma_products_add_up(lines: Seq<Line>)
    ensures
        sum_of(product_ids(lines), product_units(lines)) == units_of(lines),
    decreases lines.len(),
{
    if lines.len() > 0 {
        let front = lines.drop_last();
        let x = lines.last();
        let ids = product_ids(lines);
        let before = product_ids(front);
        lemma_products_add_up(front);
        lemma_product_ids_distinct(lines);
        lemma_product_ids_distinct(front);
        assert forall|id: u32| #[trigger] product_units(lines)(id) == product_units(front)(id) + if_product(x)(id) by {
        }
        lemma_sum_add(ids, product_units(front), if_product(x), product_units(lines));
        assert(ids.contains(x.product.id)) by {
            assert(lines[lines.len() - 1] == x);
        }
        let k = choose|k: int| 0 <= k < ids.len() && ids[k] == x.product.id;
        assert forall|i: int| 0 <= i < ids.len() && i != k implies #[trigger] if_product(x)(ids[i]) == 0 by {
            assert(ids[i] != ids[k]);
        }
        lemma_sum_single(ids, if_product(x), k);
        if before.contains(x.product.id) {
            assert(ids == before);
        } else {
            assert(ids == before.push(x.product.id));
            crate::total::lemma_absent_product(front, x.product.id);
            assert(before.push(x.product.id).drop_last() =~= before);
        }
    }
}

// ---------------------------------------------------------------------------
// The law
// ---------------------------------------------------------------------------

/// Every bread on a route is counted exactly once in its total: the columns
/// add up to the units of every line of every stop, and hold one row for
/// each product on the route.
pub proof fn lemma_total_counts_every_bread(route: Route, total: RouteTotal)
    requires
        totals_described(route, total),
        totals_fit(all_lines(route.stops@)),
    ensures
        column_units(total.columns@) == units_of(all_lines(route.stops@)),
        types_in(total.columns@) == product_ids(all_lines(route.stops@)).len(),
        types_in(total.columns@) <= all_lines(route.stops@).len(),
{
    let lines = all_lines(route.stops@);
    let totals = totals_of(lines);
    let columns = total.columns@;
    let supplier_of = |c: SupplierColumn| c.supplier@;
    let suppliers = columns.map_values(supplier_of);
    assert(suppliers.no_duplicates()) by {
        assert forall|i: int, j: int| 0 <= i < suppliers.len() && 0 <= j < suppliers.len() && i != j implies suppliers[i] != suppliers[j] by {
            if i < j {
                assert(columns[i].supplier@ != columns[j].supplier@);
            } else {
                assert(columns[j].supplier@ != columns[i].supplier@);
            }
        }
    }
    assert forall|k: int| 0 <= k < totals.len() implies suppliers.contains(#[trigger] totals[k].product.supplier@) by {
        assert(crate::total::has_column(columns, totals[k].product.supplier@));
        let c = choose|c: int| 0 <= c < columns.len() && (#[trigger] columns[c]).supplier@ == totals[k].product.supplier@;
        assert(suppliers[c] == totals[k].product.supplier@);
    }
    // Units.
    lemma_column_units_is_sum(columns);
    assert forall|c: int| 0 <= c < columns.len() implies column_share(units_weight())(#[trigger] columns[c])
        == supplier_share(totals, units_weight())(supplier_of(columns[c])) by {
        lemma_sum_permutation(columns[c].lines@, of_supplier(totals, columns[c].supplier@), units_weight());
    }
    let by_column = |c: SupplierColumn| supplier_share(totals, units_weight())(supplier_of(c));
    lemma_sum_ext(columns, column_share(units_weight()), by_column);
    lemma_sum_map(columns, supplier_of, supplier_share(totals, units_weight()), by_column);
    lemma_shares_add_up(totals, suppliers, units_weight());
    let line_of = |id: u32| total_line_for(lines, id);
    let product_weight = |id: u32| units_weight()(line_of(id));
    lemma_sum_map(product_ids(lines), line_of, units_weight(), product_weight);
    assert forall|i: int| 0 <= i < product_ids(lines).len() implies product_weight(#[trigger] product_ids(lines)[i])
        == product_units(lines)(product_ids(lines)[i]) by {
        assert(units_for(lines, product_ids(lines)[i]) <= u32::MAX);
    }
    lemma_sum_ext(product_ids(lines), product_weight, product_units(lines));
    lemma_products_add_up(lines);
    // Rows.
    lemma_types_in_is_sum(columns);
    assert forall|c: int| 0 <= c < columns.len() implies column_share(one_each())(#[trigger] columns[c])
        == supplier_share(totals, one_each())(supplier_of(columns[c])) by {
        lemma_sum_permutation(columns[c].lines@, of_supplier(totals, columns[c].supplier@), one_each());
    }
    let rows_by_column = |c: SupplierColumn| supplier_share(totals, one_each())(supplier_of(c));
    lemma_sum_ext(columns, column_share(one_each()), rows_by_column);
    lemma_sum_map(columns, supplier_of, supplier_share(totals, one_each()), rows_by_column);
    lemma_shares_add_up(totals, suppliers, one_each());
    lemma_len_is_sum(totals);
    lemma_product_ids_distinct(lines);
}

// ---------------------------------------------------------------------------
// Bounds
// ---------------------------------------------------------------------------

/// One product's units are no more than all the units.
pub proof fn lemma_product_within_all(lines: Seq<Line>, id: u32)
    ensures
        units_for(lines, id) <= units_of(lines),
    decreases lines.len(),
{
    if lines.len() > 0 {
        lemma_product_within_all(lines.drop_last(), id);
    }
}

/// The units of a run of lines followed by another.
pub proof fn lemma_units_of_concat(a: Seq<Line>, b: Seq<Line>)
    ensures
        units_of(a + b) == units_of(a) + units_of(b),
    decreases b.len(),
{
    if b.len() > 0 {
        assert((a + b).drop_last() =~= a + b.drop_last());
        lemma_units_of_concat(a, b.drop_last());
    } else {
        assert(a + b =~= a);
    }
}

/// One stop's units are no more than the route's.
pub proof fn lemma_stop_within_route(stops: Seq<Order>, i: int)
    requires
        0 <= i < stops.len(),
    ensures
        units_of(stops[i].lines@) <= units_of(all_lines(stops)),
    decreases stops.len(),
{
    let front = stops.drop_last();
    lemma_units_of_concat(all_lines(front), stops.last().lines@);
    if i < stops.len() - 1 {
        assert(front[i] == stops[i]);
        lemma_stop_within_route(front, i);
    }
}

/// A route's lines, counted.
pub proof fn lemma_all_lines_len(stops: Seq<Order>)
    ensures
        all_lines(stops).len() == lines_on(stops),
    decreases stops.len(),
{
    if stops.len() > 0 {
        lemma_all_lines_len(stops.drop_last());
    }
}

/// Hundredths of a slot are at most the units times the largest size.
pub proof fn lemma_hundredths_bound(lines: Seq<Line>, rules: CrateRules)
    ensures
        hundredths(lines, rules) <= units_of(lines) * (u32::MAX as nat),
    decreases lines.len(),
{
    if lines.len() > 0 {
        lemma_hundredths_bound(lines.drop_last(), rules);
        let q = lines.last().quantity as nat;
        let size = rules.size_in(lines.last().product.id) as nat;
        assert(q * size <= q * (u32::MAX as nat)) by (nonlinear_arith)
            requires
                size <= u32::MAX,
        ;
        assert(units_of(lines) * (u32::MAX as nat) == units_of(lines.drop_last()) * (u32::MAX as nat)
            + q * (u32::MAX as nat)) by (nonlinear_arith)
            requires
                units_of(lines) == units_of(lines.drop_last()) + q,
        ;
    }
}

/// Each column's units are no more than the whole total's.
pub proof fn lemma_column_within_total(columns: Seq<SupplierColumn>, c: int)
    requires
        0 <= c < columns.len(),
    ensures
        units_in(columns[c].lines@) <= column_units(columns),
    decreases columns.len(),
{
    if c < columns.len() - 1 {
        assert(columns.drop_last()[c] == columns[c]);
        lemma_column_within_total(columns.drop_last(), c);
    }
}

/// The units of the first stops are no more than the route's.
pub proof fn lemma_route_prefix(stops: Seq<Order>, k: int)
    requires
        0 <= k <= stops.len(),
    ensures
        units_of(all_lines(stops.take(k))) <= units_of(all_lines(stops)),
    decreases stops.len(),
{
    if k == stops.len() {
        assert(stops.take(k) =~= stops);
    } else {
        let front = stops.drop_last();
        assert(stops.take(k) =~= front.take(k));
        lemma_route_prefix(front, k);
        lemma_units_of_concat(all_lines(front), stops.last().lines@);
    }
}

/// A route whose units fit a `u32` can be dumped.
pub proof fn lemma_small_route_dumps(route: Route, rules: CrateRules, crates: bool)
    requires
        units_of(all_lines(route.stops@)) <= u32::MAX,
        lines_on(route.stops@) <= usize::MAX,
    ensures
        crate::dump::dumpable(route, rules, crates),
{
    let stops = route.stops@;
    let lines = all_lines(stops);
    assert forall|id: u32| units_for(lines, id) <= u32::MAX by {
        lemma_product_within_all(lines, id);
    }
    assert forall|i: int| 0 <= i < stops.len() implies hundredths((#[trigger] stops[i]).lines@, rules) <= u64::MAX by {
        lemma_stop_within_route(stops, i);
        lemma_hundredths_bound(stops[i].lines@, rules);
        let u = units_of(stops[i].lines@);
        assert(u * (u32::MAX as nat) <= (u32::MAX as nat) * (u32::MAX as nat)) by (nonlinear_arith)
            requires
                u <= u32::MAX,
        ;
    }
    assert forall|t: RouteTotal| totals_described(route, t) implies crate::dump::total_fits(t) by {
        lemma_total_counts_every_bread(route, t);
        lemma_all_lines_len(stops);
        assert forall|c: int| 0 <= c < t.columns@.len() implies units_in((#[trigger] t.columns@[c]).lines@) <= u32::MAX by {
            lemma_column_within_total(t.columns@, c);
        }
    }
}

// ---------------------------------------------------------------------------
// Folding rows into orders loses nothing
// ---------------------------------------------------------------------------

/// A row's line count and units, as a weight on an order id.
pub open spec fn order_lines(rows: Seq<SheetRow>) -> spec_fn(i64) -> int {
    |id: i64| lines_for(rows, id).len() as int
}

/// An order's units, as a weight on an order id.
pub open spec fn order_units(rows: Seq<SheetRow>) -> spec_fn(i64) -> int {
    |id: i64| units_of(lines_for(rows, id)) as int
}

/// One row's line, if it is a given order's.
pub open spec fn if_order(row: SheetRow, w: int) -> spec_fn(i64) -> int {
    |id: i64| if row.order_id == id {
        w
    } else {
        0int
    }
}

proof fn lemma_order_ids_distinct(rows: Seq<SheetRow>)
    ensures
        order_ids(rows).no_duplicates(),
        forall|k: int| 0 <= k < rows.len() ==> order_ids(rows).contains(#[trigger] rows[k].order_id),
    decreases rows.len(),
{
    if rows.len() > 0 {
        let front = rows.drop_last();
        lemma_order_ids_distinct(front);
        let ids = order_ids(front);
        assert forall|k: int| 0 <= k < rows.len() implies order_ids(rows).contains(#[trigger] rows[k].order_id) by {
            if k < front.len() {
                assert(front[k] == rows[k]);
                let w = choose|w: int| 0 <= w < ids.len() && ids[w] == front[k].order_id;
                assert(order_ids(rows)[w] == rows[k].order_id);
            } else if ids.contains(rows.last().order_id) {
            } else {
                assert(order_ids(rows)[ids.len() as int] == rows.last().order_id);
            }
        }
    }
}

/// Adding up every order's lines and units is adding up every row.
proof fn lemma_orders_add_up(rows: Seq<SheetRow>)
    ensures
        sum_of(order_ids(rows), order_lines(rows)) == rows.len(),
        sum_of(order_ids(rows), order_units(rows)) == sum_of(rows, |r: SheetRow| r.quantity as int),
    decreases rows.len(),
{
    if rows.len() > 0 {
        let front = rows.drop_last();
        let x = rows.last();
        let ids = order_ids(rows);
        let before = order_ids(front);
        lemma_orders_add_up(front);
        lemma_order_ids_distinct(rows);
        lemma_order_ids_distinct(front);
        assert(ids.contains(x.order_id)) by {
            assert(rows[rows.len() - 1] == x);
        }
        let k = choose|k: int| 0 <= k < ids.len() && ids[k] == x.order_id;
        // Lines.
        assert forall|id: i64| #[trigger] order_lines(rows)(id) == order_lines(front)(id) + if_order(x, 1)(id) by {
        }
        lemma_sum_add(ids, order_lines(front), if_order(x, 1), order_lines(rows));
        assert forall|i: int| 0 <= i < ids.len() && i != k implies #[trigger] if_order(x, 1)(ids[i]) == 0 by {
            assert(ids[i] != ids[k]);
        }
        lemma_sum_single(ids, if_order(x, 1), k);
        // Units.
        assert forall|id: i64| #[trigger] order_units(rows)(id) == order_units(front)(id) + if_order(x, x.quantity as int)(id) by {
            if x.order_id == id {
                assert(lines_for(rows, id) == lines_for(front, id).push(line_of(x)));
                assert(lines_for(rows, id).push(line_of(x)).drop_last() =~= lines_for(rows, id));
                assert(lines_for(front, id).push(line_of(x)).drop_last() =~= lines_for(front, id));
            }
        }
        lemma_sum_add(ids, order_units(front), if_order(x, x.quantity as int), order_units(rows));
        assert forall|i: int| 0 <= i < ids.len() && i != k implies #[trigger] if_order(x, x.quantity as int)(ids[i]) == 0 by {
            assert(ids[i] != ids[k]);
        }
        lemma_sum_single(ids, if_order(x, x.quantity as int), k);
        if before.contains(x.order_id) {
            assert(ids == before);
        } else {
            assert(ids == before.push(x.order_id));
            crate::order::lemma_lines_need_order(front, x.order_id);
            assert(before.push(x.order_id).drop_last() =~= before);
        }
    }
}

/// Folding rows into orders keeps every row: each order has a different id,
/// and between them the orders hold one line for every row and every unit
/// of every row.
pub proof fn lemma_fold_keeps_every_row(rows: Seq<SheetRow>, orders: Seq<Order>)
    requires
        orders.len() == order_ids(rows).len(),
        forall|i: int| 0 <= i < orders.len() ==> folds_into(rows, order_ids(rows)[i], #[trigger] orders[i]),
    ensures
        forall|i: int, j: int| 0 <= i < j < orders.len() ==> (#[trigger] orders[i]).id != (#[trigger] orders[j]).id,
        sum_of(orders, |o: Order| o.lines@.len() as int) == rows.len(),
        sum_of(orders, |o: Order| units_of(o.lines@) as int) == sum_of(rows, |r: SheetRow| r.quantity as int),
{
    let ids = order_ids(rows);
    lemma_order_ids_distinct(rows);
    lemma_orders_add_up(rows);
    assert forall|i: int, j: int| 0 <= i < j < orders.len() implies (#[trigger] orders[i]).id != (#[trigger] orders[j]).id by {
        assert(orders[i].id == ids[i]);
        assert(orders[j].id == ids[j]);
    }
    lemma_sum_paired(orders, ids, |o: Order| o.lines@.len() as int, order_lines(rows));
    lemma_sum_paired(orders, ids, |o: Order| units_of(o.lines@) as int, order_units(rows));
}

/// Sums over two runs that pair off term by term are equal.
proof fn lemma_sum_paired<A, B>(a: Seq<A>, b: Seq<B>, f: spec_fn(A) -> int, g: spec_fn(B) -> int)
    requires
        a.len() == b.len(),
        forall|i: int| 0 <= i < a.len() ==> f(#[trigger] a[i]) == g(b[i]),
    ensures
        sum_of(a, f) == sum_of(b, g),
    decreases a.len(),
{
    if a.len() > 0 {
        assert forall|i: int| 0 <= i < a.drop_last().len() implies f(#[trigger] a.drop_last()[i]) == g(b.drop_last()[i]) by {
            assert(a.drop_last()[i] == a[i]);
            assert(b.drop_last()[i] == b[i]);
        }
        lemma_sum_paired(a.drop_last(), b.drop_last(), f, g);
        assert(f(a[a.len() - 1]) == g(b[b.len() - 1]));
    }
}

} // verus!
