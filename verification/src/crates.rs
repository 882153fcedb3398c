//! How many crates an order needs.
//!
//! Crates come in two sizes and the rule is fewest containers. Breads are not
//! all the same size, so each one carries a size modifier — a percentage of a
//! standard slot — and the arithmetic runs on slots rather than raw loaves.
//! With every modifier left at 100 % it reduces exactly to counting loaves.

use std::collections::HashMap;

use vstd::prelude::*;

use crate::order::{Line, Order};
use crate::route::Route;

verus! {

broadcast use vstd::std_specs::hash::group_hash_axioms;

/// A bread that takes exactly one slot. Half-size items are `50`, bulky ones
/// above `100`.
pub const STANDARD_SIZE: u32 = 100;

/// More crates than this on one route, and the sheet says to take a pallet.
pub const PALLET_THRESHOLD: u32 = 16;

/// The crate sizes, and how much room each bread takes in one.
#[derive(Debug, Clone, PartialEq, Eq)]
pub struct CrateRules {
    /// Slots in a large crate.
    pub large_capacity: u32,
    /// Slots in a small crate. Smaller than [`large_capacity`](Self::large_capacity).
    pub small_capacity: u32,
    /// Per-product size, as a percentage of one slot. Anything absent is a
    /// standard bread.
    pub size_percent: HashMap<u32, u32>,
}

impl Default for CrateRules {
    /// Crates of ten and five, every bread a standard size.
    fn default() -> (rules: Self)
        ensures
            rules.large_capacity == 10,
            rules.small_capacity == 5,
            rules.size_percent@ == Map::<u32, u32>::empty(),
    {
        CrateRules { large_capacity: 10, small_capacity: 5, size_percent: HashMap::new() }
    }
}

impl CrateRules {
    /// How much room one of `product_id` takes, as a percentage of a slot.
    pub open spec fn size_in(self, product_id: u32) -> u32 {
        if self.size_percent@.contains_key(product_id) {
            self.size_percent@[product_id]
        } else {
            STANDARD_SIZE
        }
    }

    /// How much room one of `product_id` takes, as a percentage of a slot.
    pub fn size_of(&self, product_id: u32) -> (percent: u32)
        ensures
            percent == self.size_in(product_id),
    {
        match self.size_percent.get(&product_id) {
            Some(percent) => *percent,
            None => STANDARD_SIZE,
        }
    }

    /// Marks a bread as taking `percent` of a slot: `50` for a roll, `200` for
    /// something that takes the room of two. Saying a bread is a whole slot
    /// forgets it, so only the breads somebody said something about are kept.
    pub fn set_size(&mut self, product_id: u32, percent: u32)
        ensures
            final(self).large_capacity == old(self).large_capacity,
            final(self).small_capacity == old(self).small_capacity,
            final(self).size_percent@ == (if percent == STANDARD_SIZE {
                old(self).size_percent@.remove(product_id)
            } else {
                old(self).size_percent@.insert(product_id, percent)
            }),
    {
        if percent == STANDARD_SIZE {
            self.size_percent.remove(&product_id);
        } else {
            self.size_percent.insert(product_id, percent);
        }
    }

    /// Whether somebody has said this bread is not a whole slot.
    pub fn is_custom(&self, product_id: u32) -> (custom: bool)
        ensures
            custom == self.size_percent@.contains_key(product_id),
    {
        self.size_percent.contains_key(&product_id)
    }
}

/// The crates one order needs.
#[derive(Debug, Clone, Copy, PartialEq, Eq, Default)]
pub struct CrateCount {
    pub large: u32,
    pub small: u32,
}

impl CrateCount {
    /// Crates to carry, of either size — what the glyphs beside a customer
    /// name add up to.
    pub fn total(&self) -> (total: u32)
        requires
            self.large + self.small <= u32::MAX,
        ensures
            total == self.large + self.small,
    {
        self.large + self.small
    }
}

/// Hundredths of a slot a run of lines fills.
pub open spec fn hundredths(lines: Seq<Line>, rules: CrateRules) -> nat
    decreases lines.len(),
{
    if lines.len() == 0 {
        0
    } else {
        hundredths(lines.drop_last(), rules) + lines.last().quantity as nat * rules.size_in(
            lines.last().product.id,
        ) as nat
    }
}

/// Slots an order fills: its hundredths, a part-slot rounded up to a whole.
pub open spec fn slots_needed(order: Order, rules: CrateRules) -> nat {
    (hundredths(order.lines@, rules) + 99) / 100
}

/// The slots a count is made from, as `slots` reports them: never more than
/// a `u32` holds.
pub open spec fn slots_reported(order: Order, rules: CrateRules) -> nat {
    if slots_needed(order, rules) <= u32::MAX {
        slots_needed(order, rules)
    } else {
        u32::MAX as nat
    }
}

/// Slots an order fills, rounding a part-slot up to a whole one.
///
/// A bread at 50 % and a quantity of 3 fills two slots, not one and a half:
/// half a slot still occupies a slot's worth of crate. An order too big to
/// count in a `u32` reports `u32::MAX`.
pub fn slots(order: &Order, rules: &CrateRules) -> (slots: u32)
    requires
        hundredths(order.lines@, *rules) <= u64::MAX,
    ensures
        slots == slots_reported(*order, *rules),
{
    let mut total: u64 = 0;
    let mut i: usize = 0;
    while i < order.lines.len()
        invariant
            0 <= i <= order.lines@.len(),
            hundredths(order.lines@, *rules) <= u64::MAX,
            total == hundredths(order.lines@.take(i as int), *rules),
        decreases order.lines@.len() - i,
    {
        let line = &order.lines[i];
        proof {
            assert(order.lines@.take(i + 1).drop_last() =~= order.lines@.take(i as int));
            lemma_hundredths_prefix(order.lines@, i + 1, *rules);
        }
        let product: u64 = line.quantity as u64 * rules.size_of(line.product.id) as u64;
        total = total + product;
        i = i + 1;
    }
    assert(order.lines@.take(i as int) =~= order.lines@);
    let whole: u64 = total / 100 + if total % 100 == 0 {
        0
    } else {
        1
    };
    assert(whole == (total + 99) / 100);
    if whole <= u32::MAX as u64 {
        whole as u32
    } else {
        u32::MAX
    }
}

proof fn lemma_hundredths_prefix(lines: Seq<Line>, n: int, rules: CrateRules)
    requires
        0 <= n <= lines.len(),
    ensures
        hundredths(lines.take(n), rules) <= hundredths(lines, rules),
    decreases lines.len() - n,
{
    if n < lines.len() {
        lemma_hundredths_prefix(lines, n + 1, rules);
        assert(lines.take(n + 1).drop_last() =~= lines.take(n));
    } else {
        assert(lines.take(n) =~= lines);
    }
}

/// The large crate's capacity, as the count uses it: at least one slot.
pub open spec fn large_room(rules: CrateRules) -> nat {
    if rules.large_capacity >= 1 {
        rules.large_capacity as nat
    } else {
        1
    }
}

/// The small crate's capacity, as the count uses it: at least one slot, and
/// smaller than a large crate where a large crate holds more than one.
pub open spec fn small_room(rules: CrateRules) -> nat {
    let below = if large_room(rules) >= 1 {
        (large_room(rules) - 1) as nat
    } else {
        0
    };
    let capped = if (rules.small_capacity as nat) < below {
        rules.small_capacity as nat
    } else {
        below
    };
    if capped >= 1 {
        capped
    } else {
        1
    }
}

/// The crates a number of slots needs: as many full large crates as it
/// fills, then one more crate for what is left — small where it fits.
pub open spec fn crates_for(slots: nat, rules: CrateRules) -> (nat, nat) {
    let large = slots / large_room(rules);
    let remainder = slots % large_room(rules);
    if remainder == 0 {
        (large, 0)
    } else if remainder <= small_room(rules) {
        (large, 1)
    } else {
        (large + 1, 0)
    }
}

/// How many crates of each size an order needs, in the fewest containers.
///
/// A remainder that fits a small crate takes one; a remainder too big for one
/// takes a large crate rather than two smalls.
pub fn count(order: &Order, rules: &CrateRules) -> (count: CrateCount)
    requires
        hundredths(order.lines@, *rules) <= u64::MAX,
    ensures
        (count.large as nat, count.small as nat) == crates_for(slots_reported(*order, *rules), *rules),
{
    let capacity: u32 = if rules.large_capacity >= 1 {
        rules.large_capacity
    } else {
        1
    };
    let below: u32 = capacity - 1;
    let capped: u32 = if rules.small_capacity < below {
        rules.small_capacity
    } else {
        below
    };
    let small_capacity: u32 = if capped >= 1 {
        capped
    } else {
        1
    };
    let slots = slots(order, rules);
    let large = slots / capacity;
    let remainder = slots % capacity;
    if remainder == 0 {
        CrateCount { large, small: 0 }
    } else if remainder <= small_capacity {
        CrateCount { large, small: 1 }
    } else {
        assert(capacity >= 2);
        assert(large <= slots / 2) by (nonlinear_arith)
            requires
                capacity >= 2,
                large == slots / capacity,
        ;
        CrateCount { large: large + 1, small: 0 }
    }
}

/// Crates a whole route needs: each stop's count, added up.
pub open spec fn route_crates(stops: Seq<Order>, rules: CrateRules) -> nat
    decreases stops.len(),
{
    if stops.len() == 0 {
        0
    } else {
        let (large, small) = crates_for(slots_reported(stops.last(), rules), rules);
        route_crates(stops.drop_last(), rules) + large + small
    }
}

/// Every stop of a route small enough to count in hundredths.
pub open spec fn countable(stops: Seq<Order>, rules: CrateRules) -> bool {
    forall|i: int| 0 <= i < stops.len() ==> hundredths((#[trigger] stops[i]).lines@, rules) <= u64::MAX
}

/// The crates a route needs: each stop counted on its own, then summed —
/// two stops of 14 are four crates, not the three 28 pooled units would make.
pub fn route_total(route: &Route, rules: &CrateRules) -> (total: u32)
    requires
        countable(route.stops@, *rules),
        route_crates(route.stops@, *rules) <= u32::MAX,
    ensures
        total == route_crates(route.stops@, *rules),
{
    let mut total: u32 = 0;
    let mut i: usize = 0;
    while i < route.stops.len()
        invariant
            0 <= i <= route.stops@.len(),
            countable(route.stops@, *rules),
            route_crates(route.stops@, *rules) <= u32::MAX,
            total == route_crates(route.stops@.take(i as int), *rules),
        decreases route.stops@.len() - i,
    {
        proof {
            assert(route.stops@.take(i + 1).drop_last() =~= route.stops@.take(i as int));
            lemma_route_crates_prefix(route.stops@, i + 1, *rules);
        }
        let count = count(&route.stops[i], rules);
        total = total + count.large + count.small;
        i = i + 1;
    }
    assert(route.stops@.take(i as int) =~= route.stops@);
    total
}

proof fn lemma_route_crates_prefix(stops: Seq<Order>, n: int, rules: CrateRules)
    requires
        0 <= n <= stops.len(),
    ensures
        route_crates(stops.take(n), rules) <= route_crates(stops, rules),
    decreases stops.len() - n,
{
    if n < stops.len() {
        lemma_route_crates_prefix(stops, n + 1, rules);
        assert(stops.take(n + 1).drop_last() =~= stops.take(n));
    } else {
        assert(stops.take(n) =~= stops);
    }
}

/// The small crate never holds more than the large one.
proof fn lemma_small_fits_large(rules: CrateRules)
    ensures
        1 <= small_room(rules) <= large_room(rules),
        large_room(rules) >= 2 ==> small_room(rules) < large_room(rules),
{
}

/// A count holds every slot it was made for, in as many crates as it takes
/// to fill large ones and start one more: a slot count divided by the large
/// capacity, rounded up.
pub proof fn lemma_count_holds_every_slot(slots: nat, rules: CrateRules)
    ensures
        crates_for(slots, rules).0 * large_room(rules) + crates_for(slots, rules).1 * small_room(
            rules,
        ) >= slots,
        crates_for(slots, rules).0 + crates_for(slots, rules).1 == (slots + large_room(rules) - 1)
            / (large_room(rules) as int),
{
    let l = large_room(rules);
    let sm = small_room(rules);
    lemma_small_fits_large(rules);
    let q = slots / l;
    let r = slots % l;
    assert(slots == q * l + r && 0 <= r < l) by (nonlinear_arith)
        requires
            l >= 1,
            q == slots / l,
            r == slots % l,
    ;
    if r == 0 {
        assert((slots + l - 1) / (l as int) == q) by (nonlinear_arith)
            requires
                l >= 1,
                slots == q * l,
        ;
    } else {
        assert((slots + l - 1) / (l as int) == q + 1) by (nonlinear_arith)
            requires
                l >= 1,
                slots == q * l + r,
                0 < r < l,
        ;
        if r <= sm {
            assert(q * l + 1 * sm >= slots);
        } else {
            assert((q + 1) * l >= slots) by (nonlinear_arith)
                requires
                    slots == q * l + r,
                    r < l,
            ;
        }
    }
}

/// No way of packing the slots uses fewer crates: any mix of large and small
/// crates with room for them all is at least as many crates as the count.
pub proof fn lemma_count_is_fewest(slots: nat, rules: CrateRules, large: nat, small: nat)
    requires
        large * large_room(rules) + small * small_room(rules) >= slots,
    ensures
        large + small >= crates_for(slots, rules).0 + crates_for(slots, rules).1,
{
    let l = large_room(rules);
    let sm = small_room(rules);
    lemma_small_fits_large(rules);
    lemma_count_holds_every_slot(slots, rules);
    assert((large + small) * l >= slots) by (nonlinear_arith)
        requires
            large * l + small * sm >= slots,
            sm <= l,
    ;
    assert(large + small >= (slots + l - 1) / (l as int)) by (nonlinear_arith)
        requires
            (large + small) * l >= slots,
            l >= 1,
    ;
}

/// Each line of a run takes at least as much room under one set of rules as
/// under another.
pub open spec fn takes_no_less_room(lines: Seq<Line>, smaller: CrateRules, larger: CrateRules) -> bool {
    forall|i: int|
        0 <= i < lines.len() ==> smaller.size_in((#[trigger] lines[i]).product.id) <= larger.size_in(
            lines[i].product.id,
        )
}

proof fn lemma_hundredths_grow(lines: Seq<Line>, smaller: CrateRules, larger: CrateRules)
    requires
        takes_no_less_room(lines, smaller, larger),
    ensures
        hundredths(lines, smaller) <= hundredths(lines, larger),
    decreases lines.len(),
{
    if lines.len() > 0 {
        let front = lines.drop_last();
        assert forall|i: int| 0 <= i < front.len() implies smaller.size_in(
            (#[trigger] front[i]).product.id,
        ) <= larger.size_in(front[i].product.id) by {
            assert(front[i] == lines[i]);
        }
        lemma_hundredths_grow(front, smaller, larger);
        let q = lines.last().quantity as nat;
        let a = smaller.size_in(lines.last().product.id) as nat;
        let b = larger.size_in(lines.last().product.id) as nat;
        assert(lines.last() == lines[lines.len() - 1]);
        assert(q * a <= q * b) by (nonlinear_arith)
            requires
                a <= b,
        ;
    }
}

/// A bread that takes more room never needs fewer crates: with the same
/// crates, an order whose every bread takes at least as much room under one
/// set of rules as under another needs at least as many crates under it.
pub proof fn lemma_more_room_more_crates(order: Order, smaller: CrateRules, larger: CrateRules)
    requires
        smaller.large_capacity == larger.large_capacity,
        smaller.small_capacity == larger.small_capacity,
        takes_no_less_room(order.lines@, smaller, larger),
    ensures
        slots_reported(order, smaller) <= slots_reported(order, larger),
        crates_for(slots_reported(order, smaller), smaller).0 + crates_for(
            slots_reported(order, smaller),
            smaller,
        ).1 <= crates_for(slots_reported(order, larger), larger).0 + crates_for(
            slots_reported(order, larger),
            larger,
        ).1,
{
    lemma_hundredths_grow(order.lines@, smaller, larger);
    let h1 = hundredths(order.lines@, smaller) as int;
    let h2 = hundredths(order.lines@, larger) as int;
    vstd::arithmetic::div_mod::lemma_div_is_ordered(h1 + 99, h2 + 99, 100);
    let s1 = slots_reported(order, smaller);
    let s2 = slots_reported(order, larger);
    lemma_count_holds_every_slot(s1, smaller);
    lemma_count_holds_every_slot(s2, larger);
    let l = large_room(larger);
    assert(large_room(smaller) == l);
    vstd::arithmetic::div_mod::lemma_div_is_ordered(s1 + l - 1, s2 + l - 1, l as int);
}

/// With every bread a standard size, slots are loaves: the arithmetic reduces
/// exactly to counting units.
pub proof fn lemma_standard_sizes_count_loaves(order: Order, rules: CrateRules)
    requires
        forall|i: int|
            0 <= i < order.lines@.len() ==> rules.size_in((#[trigger] order.lines@[i]).product.id)
                == STANDARD_SIZE,
    ensures
        slots_needed(order, rules) == crate::order::units_of(order.lines@),
{
    lemma_standard_hundredths(order.lines@, rules);
    let u = crate::order::units_of(order.lines@);
    assert((u * 100 + 99) / 100 == u) by (nonlinear_arith);
}

proof fn lemma_standard_hundredths(lines: Seq<Line>, rules: CrateRules)
    requires
        forall|i: int|
            0 <= i < lines.len() ==> rules.size_in((#[trigger] lines[i]).product.id) == STANDARD_SIZE,
    ensures
        hundredths(lines, rules) == crate::order::units_of(lines) * 100,
    decreases lines.len(),
{
    if lines.len() > 0 {
        assert forall|i: int| 0 <= i < lines.drop_last().len() implies rules.size_in(
            (#[trigger] lines.drop_last()[i]).product.id,
        ) == STANDARD_SIZE by {
            assert(lines.drop_last()[i] == lines[i]);
        }
        lemma_standard_hundredths(lines.drop_last(), rules);
        assert(rules.size_in(lines.last().product.id) == STANDARD_SIZE);
    }
}

} // verus!
