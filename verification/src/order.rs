//! Folding order lines into orders.
//!
//! A row of the export is one product on one order; everything else on the row
//! belongs to the order and is repeated onto each of its lines. An order is
//! also a stop and a crate label: one customer, or one department of a
//! customer.

use std::collections::HashMap;

use vstd::prelude::*;
use vstd::relations::sorted_by;

use crate::chars::{chars_of, text_at_most, text_le};
use crate::sheet::SheetRow;
use crate::sorting::sort_by;

verus! {

broadcast use {vstd::std_specs::hash::group_hash_axioms, vstd::seq_lib::group_to_multiset_ensures};

/// A bread, as the export identifies it.
#[derive(Debug, PartialEq, Eq)]
pub struct Product {
    pub id: u32,
    /// Printed exactly as the file has it, trailing bakery name and all.
    pub name: String,
    pub sku: String,
    pub supplier: String,
}

impl Clone for Product {
    fn clone(&self) -> (copy: Self)
        ensures
            copy == *self,
    {
        Product {
            id: self.id,
            name: self.name.clone(),
            sku: self.sku.clone(),
            supplier: self.supplier.clone(),
        }
    }
}

/// One bread on one order, and how many of it.
#[derive(Debug, PartialEq, Eq)]
pub struct Line {
    pub product: Product,
    pub quantity: u32,
}

impl Clone for Line {
    fn clone(&self) -> (copy: Self)
        ensures
            copy == *self,
    {
        Line { product: self.product.clone(), quantity: self.quantity }
    }
}

/// One order: one stop, one crate label, one block on the printed page.
#[derive(Debug, PartialEq, Eq)]
pub struct Order {
    pub id: i64,
    pub customer: String,
    /// The sub-location inside a customer. Absent for most orders; where it is
    /// present it is what gets written on the crate.
    pub department: Option<String>,
    pub delivery_street: String,
    /// The route nickname exactly as the file spells it — `7`, `hau 2`. Never
    /// the integer parsed out of it.
    pub route: String,
    /// Where the stop falls in the route's delivery order, higher being later.
    /// `0` means no position was assigned; see [`is_sequenced`](Self::is_sequenced).
    pub sequence: u32,
    /// Whether a replacement product is acceptable when a bread is sold out.
    pub accept_alternatives: bool,
    /// The customer's note, carried once rather than once per line.
    pub comment: Option<String>,
    /// In the order the export lists them.
    pub lines: Vec<Line>,
}

impl Clone for Order {
    fn clone(&self) -> (copy: Self)
        ensures
            copy.same_as(*self),
    {
        let lines = self.lines.clone();
        assert(lines@ =~= self.lines@);
        Order {
            id: self.id,
            customer: self.customer.clone(),
            department: self.department.clone(),
            delivery_street: self.delivery_street.clone(),
            route: self.route.clone(),
            sequence: self.sequence,
            accept_alternatives: self.accept_alternatives,
            comment: self.comment.clone(),
            lines,
        }
    }
}

impl Order {
    /// Two orders that say the same thing: every field, and the same lines in
    /// the same order.
    pub open spec fn same_as(self, other: Order) -> bool {
        &&& self.id == other.id
        &&& self.customer == other.customer
        &&& self.department == other.department
        &&& self.delivery_street == other.delivery_street
        &&& self.route == other.route
        &&& self.sequence == other.sequence
        &&& self.accept_alternatives == other.accept_alternatives
        &&& self.comment == other.comment
        &&& self.lines@ == other.lines@
    }
}

/// Breads on a run of lines, counted individually.
pub open spec fn units_of(lines: Seq<Line>) -> nat
    decreases lines.len(),
{
    if lines.len() == 0 {
        0
    } else {
        units_of(lines.drop_last()) + lines.last().quantity as nat
    }
}

/// Whether some line of a run of lines is from `supplier`.
pub open spec fn draws_from(lines: Seq<Line>, supplier: Seq<char>) -> bool {
    exists|i: int| 0 <= i < lines.len() && (#[trigger] lines[i]).product.supplier@ == supplier
}

impl Order {
    /// Whether the export gave this stop a position in its route.
    pub open spec fn spec_is_sequenced(&self) -> bool {
        self.sequence != 0
    }

    /// Total breads on the order, across every line. This is what the crate
    /// arithmetic counts.
    pub fn units(&self) -> (units: u32)
        requires
            units_of(self.lines@) <= u32::MAX,
        ensures
            units == units_of(self.lines@),
    {
        let mut total: u32 = 0;
        let mut i: usize = 0;
        while i < self.lines.len()
            invariant
                0 <= i <= self.lines@.len(),
                units_of(self.lines@) <= u32::MAX,
                total == units_of(self.lines@.take(i as int)),
            decreases self.lines@.len() - i,
        {
            proof {
                assert(self.lines@.take(i + 1).drop_last() =~= self.lines@.take(i as int));
                lemma_units_prefix(self.lines@, i + 1);
            }
            total = total + self.lines[i].quantity;
            i = i + 1;
        }
        assert(self.lines@.take(i as int) =~= self.lines@);
        total
    }

    /// Whether the export gave this stop a position in its route.
    ///
    /// Unsequenced stops print after the sequenced ones, under a flag, because
    /// nobody chose to put them last.
    #[verifier::when_used_as_spec(spec_is_sequenced)]
    pub fn is_sequenced(&self) -> (sequenced: bool)
        ensures
            sequenced == (self.sequence != 0),
    {
        self.sequence != 0
    }

    /// The bakeries this order draws from, each once, in text order.
    pub fn suppliers(&self) -> (suppliers: Vec<&str>)
        ensures
            forall|i: int, j: int|
                0 <= i < j < suppliers@.len() ==> text_le(suppliers@[i]@, suppliers@[j]@)
                    && suppliers@[i]@ != suppliers@[j]@,
            forall|i: int|
                0 <= i < suppliers@.len() ==> draws_from(self.lines@, (#[trigger] suppliers@[i])@),
            forall|i: int|
                0 <= i < self.lines@.len() ==> exists|j: int|
                    0 <= j < suppliers@.len() && (#[trigger] suppliers@[j])@ == (
                    #[trigger] self.lines@[i]).product.supplier@,
    {
        let mut names: Vec<&str> = Vec::new();
        let mut i: usize = 0;
        while i < self.lines.len()
            invariant
                0 <= i <= self.lines@.len(),
                names@.len() == i,
                forall|k: int| 0 <= k < i ==> (#[trigger] names@[k])@ == self.lines@[k].product.supplier@,
            decreases self.lines@.len() - i,
        {
            names.push(self.lines[i].product.supplier.as_str());
            i = i + 1;
        }
        let ghost le = |a: &str, b: &str| text_le(a@, b@);
        proof {
            lemma_str_order();
        }
        let sorted = sort_by(names, str_at_most, Ghost(le));
        proof {
            assert forall|k: int| 0 <= k < sorted@.len() implies draws_from(
                self.lines@,
                (#[trigger] sorted@[k])@,
            ) by {
                assert(sorted@.contains(sorted@[k]));
                assert(sorted@.to_multiset().count(sorted@[k]) > 0);
                assert(names@.contains(sorted@[k]));
                let w = choose|w: int| 0 <= w < names@.len() && names@[w] == sorted@[k];
                assert(self.lines@[w].product.supplier@ == sorted@[k]@);
            }
        }
        let mut out: Vec<&str> = Vec::new();
        let mut k: usize = 0;
        while k < sorted.len()
            invariant
                0 <= k <= sorted@.len(),
                sorted_by(sorted@, |a: &str, b: &str| text_le(a@, b@)),
                forall|a: int| 0 <= a < sorted@.len() ==> draws_from(self.lines@, (#[trigger] sorted@[a])@),
                forall|a: int, b: int|
                    0 <= a < b < out@.len() ==> text_le(out@[a]@, out@[b]@) && out@[a]@ != out@[b]@,
                forall|a: int| 0 <= a < out@.len() ==> draws_from(self.lines@, (#[trigger] out@[a])@),
                forall|a: int| 0 <= a < k ==> exists|b: int| 0 <= b < out@.len() && (#[trigger] out@[b])@ == (#[trigger] sorted@[a])@,
                k > 0 ==> out@.len() > 0 && out@.last()@ == sorted@[k - 1]@,
                k == 0 ==> out@.len() == 0,
            decreases sorted@.len() - k,
        {
            let name = sorted[k];
            let fresh = if out.len() == 0 {
                true
            } else {
                let last = out[out.len() - 1];
                !crate::chars::same_text(last, name)
            };
            let ghost before = out@;
            proof {
                if k > 0 {
                    let le = |a: &str, b: &str| text_le(a@, b@);
                    assert(le(sorted@[k - 1], sorted@[k as int]));
                    assert(text_le(before.last()@, name@));
                }
            }
            if fresh {
                proof {
                    if before.len() > 0 {
                        assert forall|a: int| 0 <= a < before.len() implies text_le(
                            before[a]@,
                            name@,
                        ) && before[a]@ != name@ by {
                            if a < before.len() - 1 {
                                crate::chars::lemma_text_order(before[a]@, before.last()@, name@);
                                crate::chars::lemma_text_order(before.last()@, name@, name@);
                            }
                        }
                    }
                }
                out.push(name);
                proof {
                    assert(out@.last() == name);
                    assert forall|a: int| 0 <= a < k + 1 implies exists|b: int|
                        0 <= b < out@.len() && (#[trigger] out@[b])@ == (#[trigger] sorted@[a])@ by {
                        if a == k {
                            assert(out@[out@.len() - 1]@ == sorted@[a]@);
                        } else {
                            let b = choose|b: int| 0 <= b < before.len() && (#[trigger] before[b])@ == sorted@[a]@;
                            assert(out@[b] == before[b]);
                        }
                    }
                }
            } else {
                proof {
                    assert(before.last()@ == name@);
                    assert(out@[out@.len() - 1]@ == sorted@[k as int]@);
                }
            }
            k = k + 1;
        }
        proof {
            assert forall|i: int| 0 <= i < self.lines@.len() implies exists|j: int|
                0 <= j < out@.len() && (#[trigger] out@[j])@ == (
                #[trigger] self.lines@[i]).product.supplier@ by {
                assert(names@[i]@ == self.lines@[i].product.supplier@);
                assert(names@.to_multiset().count(names@[i]) > 0);
                assert(sorted@.contains(names@[i]));
                let w = choose|w: int| 0 <= w < sorted@.len() && sorted@[w] == names@[i];
                assert(exists|b: int| 0 <= b < out@.len() && (#[trigger] out@[b])@ == sorted@[w]@);
            }
        }
        out
    }
}

/// Text order on string slices is a total preorder.
proof fn lemma_str_order()
    ensures
        crate::sorting::total_preorder(|a: &str, b: &str| text_le(a@, b@)),
{
    let le = |a: &str, b: &str| text_le(a@, b@);
    assert forall|a: &str, b: &str, c: &str| #[trigger] le(a, b) && #[trigger] le(b, c) implies le(a, c) by {
        crate::chars::lemma_text_order(a@, b@, c@);
    }
    assert forall|a: &str, b: &str| #[trigger] le(a, b) || #[trigger] le(b, a) by {
        crate::chars::lemma_text_order(a@, b@, b@);
    }
}

/// Whether one name comes no later than another in text order.
fn str_at_most(a: &&str, b: &&str) -> (le: bool)
    ensures
        le == text_le(a@, b@),
{
    let x = chars_of(a);
    let y = chars_of(b);
    text_at_most(x.as_slice(), y.as_slice())
}

/// The line a row becomes.
pub open spec fn line_of(row: SheetRow) -> Line {
    Line {
        product: Product {
            id: row.product_id,
            name: row.product_name,
            sku: row.supplier_sku,
            supplier: row.supplier,
        },
        quantity: row.quantity,
    }
}

/// The orders' identifiers, each once, in the order the rows first mention
/// them.
pub open spec fn order_ids(rows: Seq<SheetRow>) -> Seq<i64>
    decreases rows.len(),
{
    if rows.len() == 0 {
        seq![]
    } else {
        let ids = order_ids(rows.drop_last());
        if ids.contains(rows.last().order_id) {
            ids
        } else {
            ids.push(rows.last().order_id)
        }
    }
}

/// The lines of order `id`, in the order the rows list them.
pub open spec fn lines_for(rows: Seq<SheetRow>, id: i64) -> Seq<Line>
    decreases rows.len(),
{
    if rows.len() == 0 {
        seq![]
    } else {
        let lines = lines_for(rows.drop_last(), id);
        if rows.last().order_id == id {
            lines.push(line_of(rows.last()))
        } else {
            lines
        }
    }
}

/// The first row of order `id`, which its order-level values are taken from.
pub open spec fn first_row(rows: Seq<SheetRow>, id: i64) -> SheetRow
    decreases rows.len(),
{
    if rows.len() == 0 {
        arbitrary()
    } else if order_ids(rows.drop_last()).contains(id) {
        first_row(rows.drop_last(), id)
    } else {
        rows.last()
    }
}

/// The note order `id` carries: the first comment any of its lines has.
pub open spec fn note_for(rows: Seq<SheetRow>, id: i64) -> Option<String>
    decreases rows.len(),
{
    if rows.len() == 0 {
        None
    } else {
        let earlier = note_for(rows.drop_last(), id);
        if earlier is Some {
            earlier
        } else if rows.last().order_id == id {
            rows.last().comment
        } else {
            None
        }
    }
}

/// Whether `order` is what the rows say order `id` is: its values from its
/// first line, its note from the first line that has one, and every one of
/// its lines in file order.
pub open spec fn folds_into(rows: Seq<SheetRow>, id: i64, order: Order) -> bool {
    let first = first_row(rows, id);
    &&& order.id == id
    &&& order.customer == first.customer
    &&& order.department == first.department
    &&& order.delivery_street == first.delivery_street
    &&& order.route == first.route_nickname
    &&& order.sequence == first.route_ordering
    &&& order.accept_alternatives == first.accept_alternatives
    &&& order.comment == note_for(rows, id)
    &&& order.lines@ == lines_for(rows, id)
}

/// One more row, as the folded orders see it.
proof fn lemma_fold_step(rows: Seq<SheetRow>, k: int)
    requires
        0 <= k < rows.len(),
    ensures
        ({
            let before = rows.take(k);
            let after = rows.take(k + 1);
            let row = rows[k];
            &&& order_ids(after) == (if order_ids(before).contains(row.order_id) {
                order_ids(before)
            } else {
                order_ids(before).push(row.order_id)
            })
            &&& forall|id: i64| #[trigger]
                lines_for(after, id) == (if row.order_id == id {
                    lines_for(before, id).push(line_of(row))
                } else {
                    lines_for(before, id)
                })
            &&& forall|id: i64| #[trigger]
                note_for(after, id) == (if note_for(before, id) is Some {
                    note_for(before, id)
                } else if row.order_id == id {
                    row.comment
                } else {
                    None
                })
            &&& forall|id: i64| #[trigger]
                first_row(after, id) == (if order_ids(before).contains(id) {
                    first_row(before, id)
                } else {
                    row
                })
        }),
{
    assert(rows.take(k + 1).drop_last() =~= rows.take(k));
    assert(rows.take(k + 1).last() == rows[k]);
}

/// Folds rows into orders, keeping both the orders and their lines in the
/// order the file lists them.
///
/// Order-level values are taken from the order's first line, and the note
/// from the first line that carries one. Lines that disagree are a defect in
/// the export rather than something to resolve here; `validate::run` reports
/// them, and it should run first.
pub fn fold(rows: &[SheetRow]) -> (orders: Vec<Order>)
    ensures
        orders@.len() == order_ids(rows@).len(),
        forall|i: int|
            0 <= i < orders@.len() ==> folds_into(rows@, order_ids(rows@)[i], #[trigger] orders@[i]),
{
    let mut orders: Vec<Order> = Vec::new();
    let mut position_of: HashMap<i64, usize> = HashMap::new();
    let mut k: usize = 0;
    while k < rows.len()
        invariant
            0 <= k <= rows@.len(),
            orders@.len() == order_ids(rows@.take(k as int)).len(),
            forall|i: int|
                0 <= i < orders@.len() ==> folds_into(
                    rows@.take(k as int),
                    order_ids(rows@.take(k as int))[i],
                    #[trigger] orders@[i],
                ),
            forall|id: i64|
                #[trigger] position_of@.contains_key(id) <==> order_ids(rows@.take(k as int)).contains(id),
            forall|i: int|
                0 <= i < orders@.len() ==> #[trigger] position_of@[order_ids(rows@.take(k as int))[i]] == i,
        decreases rows@.len() - k,
    {
        let row = &rows[k];
        let ghost before = rows@.take(k as int);
        let ghost after = rows@.take(k + 1);
        proof {
            lemma_fold_step(rows@, k as int);
        }
        let line = Line {
            product: Product {
                id: row.product_id,
                name: row.product_name.clone(),
                sku: row.supplier_sku.clone(),
                supplier: row.supplier.clone(),
            },
            quantity: row.quantity,
        };
        assert(line == line_of(*row));
        match position_of.get(&row.order_id) {
            Some(found) => {
                let position: usize = *found;
                let ghost ids = order_ids(before);
                proof {
                    assert(ids.contains(row.order_id));
                    let w = choose|w: int| 0 <= w < ids.len() && ids[w] == row.order_id;
                    assert(position_of@[ids[w]] == w);
                    assert(position == w);
                }
                let ghost old_orders = orders@;
                let mut order = orders.remove(position);
                order.lines.push(line);
                if order.comment.is_none() {
                    order.comment = row.comment.clone();
                }
                orders.insert(position, order);
                proof {
                    assert(orders@ =~= old_orders.update(position as int, orders@[position as int]));
                    assert(order_ids(after) == ids);
                    assert forall|i: int| 0 <= i < orders@.len() implies folds_into(
                        after,
                        order_ids(after)[i],
                        #[trigger] orders@[i],
                    ) by {
                        let id = ids[i];
                        assert(folds_into(before, id, old_orders[i]));
                        assert(first_row(after, id) == first_row(before, id));
                        if i != position {
                            assert(id != row.order_id) by {
                                assert(position_of@[ids[i]] == i);
                            }
                        }
                    }
                }
            }
            None => {
                let ghost ids = order_ids(before);
                proof {
                    assert(!ids.contains(row.order_id));
                }
                position_of.insert(row.order_id, orders.len());
                orders.push(Order {
                    id: row.order_id,
                    customer: row.customer.clone(),
                    department: row.department.clone(),
                    delivery_street: row.delivery_street.clone(),
                    route: row.route_nickname.clone(),
                    sequence: row.route_ordering,
                    accept_alternatives: row.accept_alternatives,
                    comment: row.comment.clone(),
                    lines: vec![line],
                });
                proof {
                    let ids2 = order_ids(after);
                    assert(ids2 == ids.push(row.order_id));
                    assert forall|i: int| 0 <= i < orders@.len() implies folds_into(
                        after,
                        ids2[i],
                        #[trigger] orders@[i],
                    ) by {
                        let id = ids2[i];
                        if i < ids.len() {
                            assert(id == ids[i]);
                            assert(ids.contains(id));
                            assert(id != row.order_id);
                            assert(folds_into(before, id, orders@[i]));
                        } else {
                            assert(id == row.order_id);
                            assert(note_for(before, id) is None) by {
                                lemma_note_needs_order(before, id);
                            }
                            assert(lines_for(before, id) =~= Seq::<Line>::empty()) by {
                                lemma_lines_need_order(before, id);
                            }
                            assert(orders@[i].lines@ =~= seq![line]);
                        }
                    }
                    assert forall|id: i64| #[trigger]
                        position_of@.contains_key(id) <==> ids2.contains(id) by {
                        if ids2.contains(id) && id != row.order_id {
                            let w = choose|w: int| 0 <= w < ids2.len() && ids2[w] == id;
                            assert(w < ids.len());
                            assert(ids.contains(id));
                        }
                        if ids.contains(id) {
                            let w = choose|w: int| 0 <= w < ids.len() && ids[w] == id;
                            assert(ids2[w] == id);
                        }
                        assert(ids2[ids.len() as int] == row.order_id);
                    }
                    assert forall|i: int| 0 <= i < orders@.len() implies #[trigger] position_of@[ids2[i]] == i by {
                        if i < ids.len() {
                            assert(ids2[i] == ids[i]);
                            assert(ids.contains(ids[i]));
                        }
                    }
                }
            }
        }
        k = k + 1;
    }
    assert(rows@.take(rows@.len() as int) =~= rows@);
    orders
}

/// An order with no lines so far has no note yet.
proof fn lemma_note_needs_order(rows: Seq<SheetRow>, id: i64)
    requires
        !order_ids(rows).contains(id),
    ensures
        note_for(rows, id) is None,
    decreases rows.len(),
{
    if rows.len() > 0 {
        let ids = order_ids(rows.drop_last());
        if ids.contains(id) {
            let w = choose|w: int| 0 <= w < ids.len() && ids[w] == id;
            assert(order_ids(rows)[w] == id);
            assert(order_ids(rows).contains(id));
        }
        lemma_note_needs_order(rows.drop_last(), id);
        if rows.last().order_id == id {
            assert(order_ids(rows).contains(id)) by {
                if !ids.contains(id) {
                    assert(order_ids(rows)[ids.len() as int] == id);
                }
            }
        }
    }
}

/// An order the rows never mention has no lines.
pub(crate) proof fn lemma_lines_need_order(rows: Seq<SheetRow>, id: i64)
    requires
        !order_ids(rows).contains(id),
    ensures
        lines_for(rows, id) == Seq::<Line>::empty(),
    decreases rows.len(),
{
    if rows.len() > 0 {
        let ids = order_ids(rows.drop_last());
        if ids.contains(id) {
            let w = choose|w: int| 0 <= w < ids.len() && ids[w] == id;
            assert(order_ids(rows)[w] == id);
            assert(order_ids(rows).contains(id));
        }
        lemma_lines_need_order(rows.drop_last(), id);
        if rows.last().order_id == id {
            assert(order_ids(rows).contains(id)) by {
                if !ids.contains(id) {
                    assert(order_ids(rows)[ids.len() as int] == id);
                }
            }
        }
    }
}

pub(crate) proof fn lemma_units_prefix(lines: Seq<Line>, n: int)
    requires
        0 <= n <= lines.len(),
    ensures
        units_of(lines.take(n)) <= units_of(lines),
    decreases lines.len() - n,
{
    if n < lines.len() {
        lemma_units_prefix(lines, n + 1);
        assert(lines.take(n + 1).drop_last() =~= lines.take(n));
    } else {
        assert(lines.take(n) =~= lines);
    }
}

} // verus!
