//! The total that closes each route's last page.
//!
//! How much of each bread the whole route needs — a cross-check for the
//! bakery rather than picking work.

use vstd::multiset::Multiset;
use vstd::prelude::*;
use vstd::relations::sorted_by;

use crate::chars::{
    chars_of, decimal, decimal_text, eq_ignore_ascii_case, lemma_text_order, push_str,
    same_ignoring_ascii_case, same_text, text_at_most, text_le,
};
use crate::order::{Line, Order, Product};
use crate::route::Route;
use crate::sorting::{sort_by, total_preorder};

verus! {

broadcast use vstd::seq_lib::group_to_multiset_ensures;

/// The order supplier columns print in. Anything not named here follows,
/// alphabetically.
pub const SUPPLIER_ORDER: [&'static str; 2] = ["sandnes bakeri", "bakehuset"];

/// How many of one bread the route needs.
#[derive(Debug, PartialEq, Eq)]
pub struct TotalLine {
    pub product: Product,
    pub units: u32,
    /// Full tens *inside a single order* — how many trays can be pulled whole.
    /// An order of 11 and an order of 9 make one, not two.
    pub full_tens: u32,
}

impl Clone for TotalLine {
    fn clone(&self) -> (copy: Self)
        ensures
            copy == *self,
    {
        TotalLine { product: self.product.clone(), units: self.units, full_tens: self.full_tens }
    }
}

/// One bakery's column of the total.
#[derive(Debug, PartialEq, Eq)]
pub struct SupplierColumn {
    pub supplier: String,
    /// Most needed first, ties broken by name so two runs match.
    pub lines: Vec<TotalLine>,
}

/// Breads on a run of total lines, counted individually.
pub open spec fn units_in(lines: Seq<TotalLine>) -> nat
    decreases lines.len(),
{
    if lines.len() == 0 {
        0
    } else {
        units_in(lines.drop_last()) + lines.last().units as nat
    }
}

/// Full tens on a run of total lines.
pub open spec fn tens_in(lines: Seq<TotalLine>) -> nat
    decreases lines.len(),
{
    if lines.len() == 0 {
        0
    } else {
        tens_in(lines.drop_last()) + lines.last().full_tens as nat
    }
}

impl SupplierColumn {
    /// Distinct breads in this column.
    pub fn types(&self) -> (types: usize)
        ensures
            types == self.lines@.len(),
    {
        self.lines.len()
    }

    /// Breads in this column, counted individually.
    pub fn units(&self) -> (units: u32)
        requires
            units_in(self.lines@) <= u32::MAX,
        ensures
            units == units_in(self.lines@),
    {
        let mut total: u32 = 0;
        let mut i: usize = 0;
        while i < self.lines.len()
            invariant
                0 <= i <= self.lines@.len(),
                units_in(self.lines@) <= u32::MAX,
                total == units_in(self.lines@.take(i as int)),
            decreases self.lines@.len() - i,
        {
            proof {
                assert(self.lines@.take(i + 1).drop_last() =~= self.lines@.take(i as int));
                lemma_units_in_prefix(self.lines@, i + 1);
            }
            total = total + self.lines[i].units;
            i = i + 1;
        }
        assert(self.lines@.take(i as int) =~= self.lines@);
        total
    }
}

proof fn lemma_units_in_prefix(lines: Seq<TotalLine>, n: int)
    requires
        0 <= n <= lines.len(),
    ensures
        units_in(lines.take(n)) <= units_in(lines),
        tens_in(lines.take(n)) <= tens_in(lines),
    decreases lines.len() - n,
{
    if n < lines.len() {
        lemma_units_in_prefix(lines, n + 1);
        assert(lines.take(n + 1).drop_last() =~= lines.take(n));
    } else {
        assert(lines.take(n) =~= lines);
    }
}

/// Everything the route needs, split by bakery.
#[derive(Debug, PartialEq, Eq)]
pub struct RouteTotal {
    pub columns: Vec<SupplierColumn>,
}

/// Distinct breads across a run of columns.
pub open spec fn types_in(columns: Seq<SupplierColumn>) -> nat
    decreases columns.len(),
{
    if columns.len() == 0 {
        0
    } else {
        types_in(columns.drop_last()) + columns.last().lines@.len()
    }
}

/// Breads across a run of columns, counted individually.
pub open spec fn column_units(columns: Seq<SupplierColumn>) -> nat
    decreases columns.len(),
{
    if columns.len() == 0 {
        0
    } else {
        column_units(columns.drop_last()) + units_in(columns.last().lines@)
    }
}

/// Full tens across a run of columns.
pub open spec fn column_tens(columns: Seq<SupplierColumn>) -> nat
    decreases columns.len(),
{
    if columns.len() == 0 {
        0
    } else {
        column_tens(columns.drop_last()) + tens_in(columns.last().lines@)
    }
}

proof fn lemma_columns_prefix(columns: Seq<SupplierColumn>, n: int)
    requires
        0 <= n <= columns.len(),
    ensures
        types_in(columns.take(n)) <= types_in(columns),
        column_units(columns.take(n)) <= column_units(columns),
        column_tens(columns.take(n)) <= column_tens(columns),
        n < columns.len() ==> units_in(columns[n].lines@) <= column_units(columns),
        n < columns.len() ==> tens_in(columns[n].lines@) <= column_tens(columns),
    decreases columns.len() - n,
{
    if n < columns.len() {
        lemma_columns_prefix(columns, n + 1);
        assert(columns.take(n + 1).drop_last() =~= columns.take(n));
    } else {
        assert(columns.take(n) =~= columns);
    }
}

impl RouteTotal {
    /// Distinct breads across every column.
    pub fn types(&self) -> (types: usize)
        requires
            types_in(self.columns@) <= usize::MAX,
        ensures
            types == types_in(self.columns@),
    {
        let mut total: usize = 0;
        let mut i: usize = 0;
        while i < self.columns.len()
            invariant
                0 <= i <= self.columns@.len(),
                types_in(self.columns@) <= usize::MAX,
                total == types_in(self.columns@.take(i as int)),
            decreases self.columns@.len() - i,
        {
            proof {
                assert(self.columns@.take(i + 1).drop_last() =~= self.columns@.take(i as int));
                lemma_columns_prefix(self.columns@, i + 1);
            }
            total = total + self.columns[i].types();
            i = i + 1;
        }
        assert(self.columns@.take(i as int) =~= self.columns@);
        total
    }

    /// Breads across every column, counted individually.
    pub fn units(&self) -> (units: u32)
        requires
            column_units(self.columns@) <= u32::MAX,
        ensures
            units == column_units(self.columns@),
    {
        let mut total: u32 = 0;
        let mut i: usize = 0;
        while i < self.columns.len()
            invariant
                0 <= i <= self.columns@.len(),
                column_units(self.columns@) <= u32::MAX,
                total == column_units(self.columns@.take(i as int)),
            decreases self.columns@.len() - i,
        {
            proof {
                assert(self.columns@.take(i + 1).drop_last() =~= self.columns@.take(i as int));
                lemma_columns_prefix(self.columns@, i + 1);
                lemma_columns_prefix(self.columns@, i as int);
            }
            total = total + self.columns[i].units();
            i = i + 1;
        }
        assert(self.columns@.take(i as int) =~= self.columns@);
        total
    }

    /// Full trays across the whole route.
    pub fn full_tens(&self) -> (tens: u32)
        requires
            column_tens(self.columns@) <= u32::MAX,
        ensures
            tens == column_tens(self.columns@),
    {
        let mut total: u32 = 0;
        let mut i: usize = 0;
        while i < self.columns.len()
            invariant
                0 <= i <= self.columns@.len(),
                column_tens(self.columns@) <= u32::MAX,
                total == column_tens(self.columns@.take(i as int)),
            decreases self.columns@.len() - i,
        {
            proof {
                assert(self.columns@.take(i + 1).drop_last() =~= self.columns@.take(i as int));
                lemma_columns_prefix(self.columns@, i + 1);
                lemma_columns_prefix(self.columns@, i as int);
            }
            let lines = &self.columns[i].lines;
            let mut column_total: u32 = 0;
            let mut j: usize = 0;
            while j < lines.len()
                invariant
                    0 <= j <= lines@.len(),
                    tens_in(lines@) <= u32::MAX,
                    column_total == tens_in(lines@.take(j as int)),
                decreases lines@.len() - j,
            {
                proof {
                    assert(lines@.take(j + 1).drop_last() =~= lines@.take(j as int));
                    lemma_units_in_prefix(lines@, j + 1);
                }
                column_total = column_total + lines[j].full_tens;
                j = j + 1;
            }
            assert(lines@.take(j as int) =~= lines@);
            total = total + column_total;
            i = i + 1;
        }
        assert(self.columns@.take(i as int) =~= self.columns@);
        total
    }
}

// ---------------------------------------------------------------------------
// What a route needs
// ---------------------------------------------------------------------------

/// Every line of every stop, in order.
pub open spec fn all_lines(stops: Seq<Order>) -> Seq<Line>
    decreases stops.len(),
{
    if stops.len() == 0 {
        seq![]
    } else {
        all_lines(stops.drop_last()) + stops.last().lines@
    }
}

/// The products on a run of lines, each once, in the order first seen.
pub open spec fn product_ids(lines: Seq<Line>) -> Seq<u32>
    decreases lines.len(),
{
    if lines.len() == 0 {
        seq![]
    } else {
        let ids = product_ids(lines.drop_last());
        if ids.contains(lines.last().product.id) {
            ids
        } else {
            ids.push(lines.last().product.id)
        }
    }
}

/// How many of product `id` the lines add up to.
pub open spec fn units_for(lines: Seq<Line>, id: u32) -> nat
    decreases lines.len(),
{
    if lines.len() == 0 {
        0
    } else {
        units_for(lines.drop_last(), id) + if lines.last().product.id == id {
            lines.last().quantity as nat
        } else {
            0
        }
    }
}

/// How many full tens of product `id` the lines hold, each line counted on
/// its own.
pub open spec fn tens_for(lines: Seq<Line>, id: u32) -> nat
    decreases lines.len(),
{
    if lines.len() == 0 {
        0
    } else {
        tens_for(lines.drop_last(), id) + if lines.last().product.id == id {
            lines.last().quantity as nat / 10
        } else {
            0
        }
    }
}

/// The product as the first line of it describes it.
pub open spec fn first_product(lines: Seq<Line>, id: u32) -> Product
    decreases lines.len(),
{
    if lines.len() == 0 {
        arbitrary()
    } else if product_ids(lines.drop_last()).contains(id) {
        first_product(lines.drop_last(), id)
    } else {
        lines.last().product
    }
}

/// The total line for product `id`.
pub open spec fn total_line_for(lines: Seq<Line>, id: u32) -> TotalLine {
    TotalLine {
        product: first_product(lines, id),
        units: units_for(lines, id) as u32,
        full_tens: tens_for(lines, id) as u32,
    }
}

/// Every product's count fits a `u32`.
pub open spec fn totals_fit(lines: Seq<Line>) -> bool {
    forall|id: u32| units_for(lines, id) <= u32::MAX
}

/// Where a supplier's column sits: the house order first, then anything new.
pub open spec fn supplier_rank(supplier: Seq<char>) -> nat {
    if same_ignoring_ascii_case(SUPPLIER_ORDER[0]@, supplier) {
        0
    } else if same_ignoring_ascii_case(SUPPLIER_ORDER[1]@, supplier) {
        1
    } else {
        2
    }
}

/// Column order: by rank, then alphabetically.
pub open spec fn column_le(a: SupplierColumn, b: SupplierColumn) -> bool {
    let ra = supplier_rank(a.supplier@);
    let rb = supplier_rank(b.supplier@);
    if ra != rb {
        ra < rb
    } else {
        text_le(a.supplier@, b.supplier@)
    }
}

/// Row order inside a column: most needed first, then by name, then by
/// product id.
pub open spec fn line_le(a: TotalLine, b: TotalLine) -> bool {
    if a.units != b.units {
        a.units > b.units
    } else if a.product.name@ != b.product.name@ {
        text_le(a.product.name@, b.product.name@)
    } else {
        a.product.id <= b.product.id
    }
}

/// The totals of one supplier, among the totals given.
pub open spec fn of_supplier(totals: Seq<TotalLine>, supplier: Seq<char>) -> Seq<TotalLine>
    decreases totals.len(),
{
    if totals.len() == 0 {
        seq![]
    } else {
        let rest = of_supplier(totals.drop_first(), supplier);
        if totals[0].product.supplier@ == supplier {
            seq![totals[0]] + rest
        } else {
            rest
        }
    }
}

/// Whether one of the columns is the supplier's.
pub open spec fn has_column(columns: Seq<SupplierColumn>, supplier: Seq<char>) -> bool {
    exists|c: int| 0 <= c < columns.len() && (#[trigger] columns[c]).supplier@ == supplier
}

/// The total line of every product on the lines, in the order first seen.
pub open spec fn totals_of(lines: Seq<Line>) -> Seq<TotalLine> {
    product_ids(lines).map_values(|id: u32| total_line_for(lines, id))
}

/// Every line of every stop, copied out in order.
fn flatten_lines(stops: &Vec<Order>) -> (flat: Vec<Line>)
    ensures
        flat@ == all_lines(stops@),
{
    let mut flat: Vec<Line> = Vec::new();
    let mut s: usize = 0;
    while s < stops.len()
        invariant
            0 <= s <= stops@.len(),
            flat@ == all_lines(stops@.take(s as int)),
        decreases stops@.len() - s,
    {
        let lines = &stops[s].lines;
        let ghost start = flat@;
        let mut l: usize = 0;
        while l < lines.len()
            invariant
                0 <= l <= lines@.len(),
                flat@ == start + lines@.take(l as int),
            decreases lines@.len() - l,
        {
            flat.push(lines[l].clone());
            assert(start + lines@.take(l + 1) =~= (start + lines@.take(l as int)).push(lines@[l as int]));
            l = l + 1;
        }
        proof {
            assert(lines@.take(l as int) =~= lines@);
            assert(stops@.take(s + 1).drop_last() =~= stops@.take(s as int));
        }
        s = s + 1;
    }
    assert(stops@.take(s as int) =~= stops@);
    flat
}

/// One more line, as the per-product totals see it.
proof fn lemma_total_step(lines: Seq<Line>, k: int)
    requires
        0 <= k < lines.len(),
    ensures
        ({
            let before = lines.take(k);
            let after = lines.take(k + 1);
            let line = lines[k];
            &&& product_ids(after) == (if product_ids(before).contains(line.product.id) {
                product_ids(before)
            } else {
                product_ids(before).push(line.product.id)
            })
            &&& forall|id: u32| #[trigger]
                units_for(after, id) == units_for(before, id) + if line.product.id == id {
                    line.quantity as nat
                } else {
                    0
                }
            &&& forall|id: u32| #[trigger]
                tens_for(after, id) == tens_for(before, id) + if line.product.id == id {
                    line.quantity as nat / 10
                } else {
                    0
                }
            &&& forall|id: u32| #[trigger]
                first_product(after, id) == (if product_ids(before).contains(id) {
                    first_product(before, id)
                } else {
                    line.product
                })
        }),
{
    assert(lines.take(k + 1).drop_last() =~= lines.take(k));
    assert(lines.take(k + 1).last() == lines[k]);
}

proof fn lemma_units_for_prefix(lines: Seq<Line>, n: int, id: u32)
    requires
        0 <= n <= lines.len(),
    ensures
        units_for(lines.take(n), id) <= units_for(lines, id),
        tens_for(lines.take(n), id) <= units_for(lines.take(n), id),
    decreases lines.len() - n,
{
    if n < lines.len() {
        lemma_units_for_prefix(lines, n + 1, id);
        assert(lines.take(n + 1).drop_last() =~= lines.take(n));
    } else {
        assert(lines.take(n) =~= lines);
    }
    lemma_tens_below_units(lines.take(n), id);
}

proof fn lemma_tens_below_units(lines: Seq<Line>, id: u32)
    ensures
        tens_for(lines, id) <= units_for(lines, id),
    decreases lines.len(),
{
    if lines.len() > 0 {
        lemma_tens_below_units(lines.drop_last(), id);
    }
}

/// A product the lines never mention has no units yet.
pub(crate) proof fn lemma_absent_product(lines: Seq<Line>, id: u32)
    requires
        !product_ids(lines).contains(id),
    ensures
        units_for(lines, id) == 0,
        tens_for(lines, id) == 0,
    decreases lines.len(),
{
    if lines.len() > 0 {
        let ids = product_ids(lines.drop_last());
        if ids.contains(id) {
            let w = choose|w: int| 0 <= w < ids.len() && ids[w] == id;
            assert(product_ids(lines)[w] == id);
        }
        if lines.last().product.id == id && !ids.contains(id) {
            assert(product_ids(lines)[ids.len() as int] == id);
        }
        lemma_absent_product(lines.drop_last(), id);
    }
}

/// Adds up each product across the lines, in the order products are first
/// seen.
fn aggregate(flat: &Vec<Line>) -> (totals: Vec<TotalLine>)
    requires
        totals_fit(flat@),
    ensures
        totals@ == totals_of(flat@),
{
    let mut totals: Vec<TotalLine> = Vec::new();
    let mut k: usize = 0;
    while k < flat.len()
        invariant
            0 <= k <= flat@.len(),
            totals_fit(flat@),
            totals@.len() == product_ids(flat@.take(k as int)).len(),
            forall|i: int|
                0 <= i < totals@.len() ==> #[trigger] totals@[i] == total_line_for(
                    flat@.take(k as int),
                    product_ids(flat@.take(k as int))[i],
                ),
            forall|i: int|
                0 <= i < totals@.len() ==> (#[trigger] totals@[i]).product.id == product_ids(
                    flat@.take(k as int),
                )[i],
            product_ids(flat@.take(k as int)).no_duplicates(),
        decreases flat@.len() - k,
    {
        let line = &flat[k];
        let ghost before = flat@.take(k as int);
        let ghost after = flat@.take(k + 1);
        let ghost ids = product_ids(before);
        proof {
            lemma_total_step(flat@, k as int);
            lemma_units_for_prefix(flat@, k + 1, line.product.id);
            lemma_units_for_prefix(flat@, k as int, line.product.id);
        }
        let mut found: Option<usize> = None;
        let mut p: usize = 0;
        while p < totals.len()
            invariant
                0 <= p <= totals@.len(),
                found matches Some(f) ==> f < totals@.len() && totals@[f as int].product.id
                    == line.product.id,
                found is None ==> forall|h: int| 0 <= h < p ==> (#[trigger] totals@[h]).product.id
                    != line.product.id,
            decreases totals@.len() - p,
        {
            if found.is_none() && totals[p].product.id == line.product.id {
                found = Some(p);
            }
            p = p + 1;
        }
        let ghost old_totals = totals@;
        match found {
            Some(f) => {
                proof {
                    assert(ids.contains(line.product.id));
                    assert(units_for(after, line.product.id) <= u32::MAX);
                }
                let mut entry = totals.remove(f);
                entry.units = entry.units + line.quantity;
                entry.full_tens = entry.full_tens + line.quantity / 10;
                totals.insert(f, entry);
                proof {
                    assert(totals@ =~= old_totals.update(f as int, totals@[f as int]));
                    assert forall|i: int| 0 <= i < totals@.len() implies #[trigger] totals@[i]
                        == total_line_for(after, product_ids(after)[i]) by {
                        if i != f {
                            assert(ids[i] != ids[f as int]);
                        }
                    }
                }
            },
            None => {
                proof {
                    assert forall|w: int| 0 <= w < ids.len() implies ids[w] != line.product.id by {
                        assert(old_totals[w].product.id == ids[w]);
                    }
                    assert(!ids.contains(line.product.id));
                    lemma_absent_product(before, line.product.id);
                }
                totals.push(
                    TotalLine {
                        product: line.product.clone(),
                        units: line.quantity,
                        full_tens: line.quantity / 10,
                    },
                );
                proof {
                    let ids2 = product_ids(after);
                    assert(ids2 == ids.push(line.product.id));
                    assert forall|i: int| 0 <= i < totals@.len() implies #[trigger] totals@[i]
                        == total_line_for(after, ids2[i]) by {
                        if i < ids.len() {
                            assert(ids2[i] == ids[i]);
                            assert(ids[i] != line.product.id) by {
                                assert(old_totals[i].product.id == ids[i]);
                            }
                            assert(ids.contains(ids[i]));
                        }
                    }
                }
            },
        }
        k = k + 1;
    }
    assert(flat@.take(k as int) =~= flat@);
    assert(totals@ =~= totals_of(flat@));
    totals
}

proof fn lemma_of_supplier_skip(totals: Seq<TotalLine>, m: int, supplier: Seq<char>)
    requires
        0 < m <= totals.len(),
    ensures
        of_supplier(totals.skip(m - 1), supplier) == (if totals[m - 1].product.supplier@ == supplier {
            seq![totals[m - 1]] + of_supplier(totals.skip(m), supplier)
        } else {
            of_supplier(totals.skip(m), supplier)
        }),
{
    assert(totals.skip(m - 1).drop_first() =~= totals.skip(m));
    assert(totals.skip(m - 1)[0] == totals[m - 1]);
}

proof fn lemma_of_supplier_none(seen: Seq<TotalLine>, supplier: Seq<char>)
    requires
        forall|k: int| 0 <= k < seen.len() ==> (#[trigger] seen[k]).product.supplier@ != supplier,
    ensures
        of_supplier(seen, supplier) == Seq::<TotalLine>::empty(),
    decreases seen.len(),
{
    if seen.len() > 0 {
        assert forall|k: int| 0 <= k < seen.drop_first().len() implies (
        #[trigger] seen.drop_first()[k]).product.supplier@ != supplier by {
            assert(seen.drop_first()[k] == seen[k + 1]);
        }
        lemma_of_supplier_none(seen.drop_first(), supplier);
    }
}

/// Splits the totals into one column per supplier.
fn bucket(totals: Vec<TotalLine>) -> (columns: Vec<SupplierColumn>)
    ensures
        forall|c: int|
            0 <= c < columns@.len() ==> (#[trigger] columns@[c]).lines@.to_multiset() == of_supplier(
                totals@,
                columns@[c].supplier@,
            ).to_multiset(),
        forall|c: int| 0 <= c < columns@.len() ==> (#[trigger] columns@[c]).lines@.len() > 0,
        forall|c: int, d: int|
            0 <= c < columns@.len() && 0 <= d < columns@.len() && c != d ==> (
            #[trigger] columns@[c]).supplier@ != (#[trigger] columns@[d]).supplier@,
        forall|k: int|
            0 <= k < totals@.len() ==> has_column(columns@, (#[trigger] totals@[k]).product.supplier@),
{
    let ghost all = totals@;
    let mut rest = totals;
    let mut columns: Vec<SupplierColumn> = Vec::new();
    while rest.len() > 0
        invariant
            rest@ == all.take(rest@.len() as int),
            rest@.len() <= all.len(),
            forall|g: int|
                0 <= g < columns@.len() ==> (#[trigger] columns@[g]).lines@.to_multiset()
                    == of_supplier(all.skip(rest@.len() as int), columns@[g].supplier@).to_multiset(),
            forall|g: int| 0 <= g < columns@.len() ==> (#[trigger] columns@[g]).lines@.len() > 0,
            forall|g: int, h: int|
                0 <= g < columns@.len() && 0 <= h < columns@.len() && g != h ==> (
                #[trigger] columns@[g]).supplier@ != (#[trigger] columns@[h]).supplier@,
            forall|k: int|
                rest@.len() <= k < all.len() ==> has_column(columns@, (#[trigger] all[k]).product.supplier@),
        decreases rest@.len(),
    {
        let ghost m = rest@.len() as int;
        let total = rest.pop().unwrap();
        proof {
            assert(all.take(m)[m - 1] == all[m - 1]);
            assert(rest@ =~= all.take(m - 1));
        }
        let mut found: Option<usize> = None;
        let mut g: usize = 0;
        while g < columns.len()
            invariant
                0 <= g <= columns@.len(),
                found matches Some(f) ==> f < columns@.len() && columns@[f as int].supplier@
                    == total.product.supplier@,
                found is None ==> forall|h: int| 0 <= h < g ==> (#[trigger] columns@[h]).supplier@
                    != total.product.supplier@,
            decreases columns@.len() - g,
        {
            if found.is_none() && same_text(
                columns[g].supplier.as_str(),
                total.product.supplier.as_str(),
            ) {
                found = Some(g);
            }
            g = g + 1;
        }
        let ghost old_columns = columns@;
        match found {
            Some(f) => {
                let mut column = columns.remove(f);
                let ghost old_lines = column.lines@;
                column.lines.push(total);
                columns.insert(f, column);
                proof {
                    assert(columns@ =~= old_columns.update(f as int, columns@[f as int]));
                    assert forall|h: int| 0 <= h < columns@.len() implies (
                    #[trigger] columns@[h]).lines@.to_multiset() == of_supplier(
                        all.skip(m - 1),
                        columns@[h].supplier@,
                    ).to_multiset() by {
                        lemma_of_supplier_skip(all, m, columns@[h].supplier@);
                        if h == f {
                            assert(columns@[h].lines@ =~= old_lines.push(all[m - 1]));
                            let tail = of_supplier(all.skip(m), columns@[h].supplier@);
                            vstd::seq_lib::lemma_multiset_commutative(seq![all[m - 1]], tail);
                            assert(seq![all[m - 1]].to_multiset() =~= Multiset::empty().insert(
                                all[m - 1],
                            )) by {
                                assert(Seq::<TotalLine>::empty().push(all[m - 1]) =~= seq![all[m - 1]]);
                            }
                        } else {
                            assert(columns@[h] == old_columns[h]);
                            assert(old_columns[h].supplier@ != old_columns[f as int].supplier@);
                        }
                    }
                    assert forall|k: int| m - 1 <= k < all.len() implies has_column(columns@, (#[trigger] all[k]).product.supplier@) by {
                        if k == m - 1 {
                            assert(columns@[f as int].supplier@ == all[k].product.supplier@);
                        } else {
                            assert(has_column(old_columns, all[k].product.supplier@));
                            let w = choose|w: int|
                                0 <= w < old_columns.len() && (#[trigger] old_columns[w]).supplier@
                                    == all[k].product.supplier@;
                            assert(columns@[w].supplier@ == old_columns[w].supplier@);
                        }
                    }
                }
            },
            None => {
                let supplier = total.product.supplier.clone();
                columns.push(SupplierColumn { supplier, lines: vec![total] });
                proof {
                    let n = columns@.len() - 1;
                    assert forall|h: int| 0 <= h < columns@.len() implies (
                    #[trigger] columns@[h]).lines@.to_multiset() == of_supplier(
                        all.skip(m - 1),
                        columns@[h].supplier@,
                    ).to_multiset() by {
                        lemma_of_supplier_skip(all, m, columns@[h].supplier@);
                        if h == n {
                            assert forall|k: int| 0 <= k < all.skip(m).len() implies (
                            #[trigger] all.skip(m)[k]).product.supplier@ != columns@[h].supplier@ by {
                                assert(all.skip(m)[k] == all[m + k]);
                                assert(has_column(old_columns, all[m + k].product.supplier@));
                                let w = choose|w: int|
                                    0 <= w < old_columns.len() && (#[trigger] old_columns[w]).supplier@
                                        == all[m + k].product.supplier@;
                            }
                            lemma_of_supplier_none(all.skip(m), columns@[h].supplier@);
                            assert(columns@[h].lines@ =~= seq![all[m - 1]]);
                            assert(seq![all[m - 1]] + Seq::<TotalLine>::empty() =~= seq![all[m - 1]]);
                        } else {
                            assert(columns@[h] == old_columns[h]);
                        }
                    }
                    assert forall|k: int| m - 1 <= k < all.len() implies has_column(columns@, (#[trigger] all[k]).product.supplier@) by {
                        if k == m - 1 {
                            assert(columns@[n].supplier@ == all[k].product.supplier@);
                        } else {
                            assert(has_column(old_columns, all[k].product.supplier@));
                            let w = choose|w: int|
                                0 <= w < old_columns.len() && (#[trigger] old_columns[w]).supplier@
                                    == all[k].product.supplier@;
                            assert(columns@[w] == old_columns[w]);
                        }
                    }
                }
            },
        }
    }
    assert(all.skip(0) =~= all);
    columns
}

/// The rank a supplier's column sorts by, computed.
fn rank_of(supplier: &str) -> (rank: u32)
    ensures
        rank == supplier_rank(supplier@),
{
    let name = chars_of(supplier);
    let first = chars_of(SUPPLIER_ORDER[0]);
    if eq_ignore_ascii_case(first.as_slice(), name.as_slice()) {
        return 0;
    }
    let second = chars_of(SUPPLIER_ORDER[1]);
    if eq_ignore_ascii_case(second.as_slice(), name.as_slice()) {
        return 1;
    }
    2
}

/// Whether one column prints no later than another.
fn column_at_most(a: &SupplierColumn, b: &SupplierColumn) -> (le: bool)
    ensures
        le == column_le(*a, *b),
{
    let ra = rank_of(a.supplier.as_str());
    let rb = rank_of(b.supplier.as_str());
    if ra != rb {
        return ra < rb;
    }
    let x = chars_of(a.supplier.as_str());
    let y = chars_of(b.supplier.as_str());
    text_at_most(x.as_slice(), y.as_slice())
}

/// Whether one total row prints no later than another.
fn line_at_most(a: &TotalLine, b: &TotalLine) -> (le: bool)
    ensures
        le == line_le(*a, *b),
{
    if a.units != b.units {
        return a.units > b.units;
    }
    if !same_text(a.product.name.as_str(), b.product.name.as_str()) {
        let x = chars_of(a.product.name.as_str());
        let y = chars_of(b.product.name.as_str());
        return text_at_most(x.as_slice(), y.as_slice());
    }
    a.product.id <= b.product.id
}

/// Column order is a total preorder.
proof fn lemma_column_order()
    ensures
        total_preorder(|a: SupplierColumn, b: SupplierColumn| column_le(a, b)),
{
    let le = |a: SupplierColumn, b: SupplierColumn| column_le(a, b);
    assert forall|a: SupplierColumn, b: SupplierColumn, c: SupplierColumn|
        #[trigger] le(a, b) && #[trigger] le(b, c) implies le(a, c) by {
        lemma_text_order(a.supplier@, b.supplier@, c.supplier@);
    }
    assert forall|a: SupplierColumn, b: SupplierColumn| #[trigger] le(a, b) || #[trigger] le(b, a) by {
        lemma_text_order(a.supplier@, b.supplier@, b.supplier@);
    }
}

/// Row order is a total preorder.
proof fn lemma_line_order()
    ensures
        total_preorder(|a: TotalLine, b: TotalLine| line_le(a, b)),
{
    let le = |a: TotalLine, b: TotalLine| line_le(a, b);
    assert forall|a: TotalLine, b: TotalLine, c: TotalLine|
        #[trigger] le(a, b) && #[trigger] le(b, c) implies le(a, c) by {
        lemma_text_order(a.product.name@, b.product.name@, c.product.name@);
        lemma_text_order(b.product.name@, a.product.name@, c.product.name@);
    }
    assert forall|a: TotalLine, b: TotalLine| #[trigger] le(a, b) || #[trigger] le(b, a) by {
        lemma_text_order(a.product.name@, b.product.name@, b.product.name@);
    }
}

/// Whether `total` is a route's closing cross-check: one column per
/// bakery on the route, each holding exactly that bakery's totals, the
/// columns in house order and the rows in each most needed first.
pub open spec fn totals_described(route: Route, total: RouteTotal) -> bool {
    let totals = totals_of(all_lines(route.stops@));
    &&& forall|c: int|
        0 <= c < total.columns@.len() ==> (#[trigger] total.columns@[c]).lines@.to_multiset()
            == of_supplier(totals, total.columns@[c].supplier@).to_multiset()
    &&& forall|c: int| 0 <= c < total.columns@.len() ==> (#[trigger] total.columns@[c]).lines@.len() > 0
    &&& forall|c: int, d: int|
        0 <= c < d < total.columns@.len() ==> (#[trigger] total.columns@[c]).supplier@ != (
        #[trigger] total.columns@[d]).supplier@
    &&& forall|k: int|
        0 <= k < totals.len() ==> has_column(total.columns@, (#[trigger] totals[k]).product.supplier@)
    &&& sorted_by(total.columns@, |a: SupplierColumn, b: SupplierColumn| column_le(a, b))
    &&& forall|c: int|
        0 <= c < total.columns@.len() ==> sorted_by(
            (#[trigger] total.columns@[c]).lines@,
            |a: TotalLine, b: TotalLine| line_le(a, b),
        )
}

/// Totals one route: one row per bread, holding its units and its full tens
/// counted order by order, split into one column per supplier.
///
/// Columns come in the house order — Sandnes Bakeri, then Bakehuset, then
/// anything new alphabetically — and rows most needed first, ties by name
/// and then by product id.
pub fn of(route: &Route) -> (total: RouteTotal)
    requires
        totals_fit(all_lines(route.stops@)),
    ensures
        totals_described(*route, total),
{
    let flat = flatten_lines(&route.stops);
    let totals = aggregate(&flat);
    let ghost all = totals@;
    let mut grouped = bucket(totals);
    let ghost bucketed = grouped@;
    proof {
        lemma_line_order();
        lemma_column_order();
    }
    let mut ready: Vec<SupplierColumn> = Vec::new();
    while grouped.len() > 0
        invariant
            grouped@ =~= bucketed.take(grouped@.len() as int),
            grouped@.len() <= bucketed.len(),
            ready@.len() + grouped@.len() == bucketed.len(),
            total_preorder(|a: TotalLine, b: TotalLine| line_le(a, b)),
            forall|r: int|
                0 <= r < ready@.len() ==> (#[trigger] ready@[r]).supplier == bucketed[bucketed.len()
                    - 1 - r].supplier && ready@[r].lines@.to_multiset() == bucketed[bucketed.len() - 1
                    - r].lines@.to_multiset() && sorted_by(
                    ready@[r].lines@,
                    |a: TotalLine, b: TotalLine| line_le(a, b),
                ),
        decreases grouped@.len(),
    {
        let ghost before = grouped@;
        let column = grouped.pop().unwrap();
        proof {
            assert(before[before.len() - 1] == column);
            assert(grouped@ =~= bucketed.take(grouped@.len() as int));
        }
        let SupplierColumn { supplier, lines } = column;
        let lines = sort_by(lines, line_at_most, Ghost(|a: TotalLine, b: TotalLine| line_le(a, b)));
        ready.push(SupplierColumn { supplier, lines });
    }
    let ghost unsorted = ready@;
    let columns = sort_by(
        ready,
        column_at_most,
        Ghost(|a: SupplierColumn, b: SupplierColumn| column_le(a, b)),
    );
    proof {
        assert forall|i: int| 0 <= i < columns@.len() implies exists|r: int|
            0 <= r < unsorted.len() && (#[trigger] columns@[i]) == unsorted[r] by {
            assert(columns@.contains(columns@[i]));
            assert(columns@.to_multiset().count(columns@[i]) > 0);
            assert(unsorted.contains(columns@[i]));
        }
        assert forall|i: int|
            0 <= i < columns@.len() implies (#[trigger] columns@[i]).lines@.to_multiset()
            == of_supplier(all, columns@[i].supplier@).to_multiset() && columns@[i].lines@.len() > 0
            && sorted_by(columns@[i].lines@, |a: TotalLine, b: TotalLine| line_le(a, b)) by {
            let r = choose|r: int| 0 <= r < unsorted.len() && columns@[i] == unsorted[r];
            let g = bucketed.len() - 1 - r;
            assert(unsorted[r].lines@.len() == unsorted[r].lines@.to_multiset().len());
            assert(bucketed[g].lines@.len() == bucketed[g].lines@.to_multiset().len());
        }
        assert(unsorted.no_duplicates()) by {
            assert forall|i: int, j: int|
                0 <= i < unsorted.len() && 0 <= j < unsorted.len() && i != j implies unsorted[i]
                != unsorted[j] by {
                assert(bucketed[bucketed.len() - 1 - i].supplier@ != bucketed[bucketed.len() - 1
                    - j].supplier@);
            }
        }
        unsorted.lemma_multiset_has_no_duplicates();
        columns@.lemma_multiset_has_no_duplicates_conv();
        assert forall|i: int, j: int|
            0 <= i < j < columns@.len() implies (#[trigger] columns@[i]).supplier@ != (
            #[trigger] columns@[j]).supplier@ by {
            let r = choose|r: int| 0 <= r < unsorted.len() && columns@[i] == unsorted[r];
            let q = choose|q: int| 0 <= q < unsorted.len() && columns@[j] == unsorted[q];
            assert(columns@[i] != columns@[j]);
        }
        assert forall|k: int| 0 <= k < all.len() implies has_column(columns@, (#[trigger] all[k]).product.supplier@) by {
            assert(has_column(bucketed, all[k].product.supplier@));
            let g = choose|g: int|
                0 <= g < bucketed.len() && (#[trigger] bucketed[g]).supplier@
                    == all[k].product.supplier@;
            let r = bucketed.len() - 1 - g;
            assert(unsorted[r].supplier == bucketed[g].supplier);
            assert(unsorted.contains(unsorted[r]));
            assert(unsorted.to_multiset().count(unsorted[r]) > 0);
            assert(columns@.contains(unsorted[r]));
            let c = choose|c: int| 0 <= c < columns@.len() && columns@[c] == unsorted[r];
            assert(columns@[c].supplier@ == all[k].product.supplier@);
        }
    }
    RouteTotal { columns }
}

/// `word`, with an `s` unless there is exactly one.
pub open spec fn plural_text(count: u32, word: Seq<char>) -> Seq<char> {
    if count == 1 {
        word
    } else {
        word.push('s')
    }
}

fn plural(count: u32, word: &str) -> (text: String)
    ensures
        text@ == plural_text(count, word@),
{
    let mut text = String::new();
    push_str(&mut text, word);
    if count != 1 {
        crate::chars::push_char(&mut text, 's');
    }
    text
}

/// The summary line of a column or a route.
pub open spec fn summary_text(types: usize, units: u32) -> Seq<char> {
    decimal(types as nat) + " "@ + plural_text(types as u32, "type"@) + " · "@ + decimal(units as nat)
        + " "@ + plural_text(units, "unit"@)
}

/// `6 types · 33 units`, pluralised — a route with one bread reads
/// `1 type · 10 units`.
pub fn summary(types: usize, units: u32) -> (text: String)
    ensures
        text@ == summary_text(types, units),
{
    let mut text = decimal_text(types as u64);
    push_str(&mut text, " ");
    let kinds = plural(types as u32, "type");
    push_str(&mut text, kinds.as_str());
    push_str(&mut text, " · ");
    let count = decimal_text(units as u64);
    push_str(&mut text, count.as_str());
    push_str(&mut text, " ");
    let breads = plural(units, "unit");
    push_str(&mut text, breads.as_str());
    text
}

} // verus!
