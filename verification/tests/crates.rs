//! Crate counts: the fewest containers, on slots rather than loaves.

use breadify::crates::{self, CrateCount, CrateRules, STANDARD_SIZE};
use breadify::order::{Line, Order, Product};
use breadify::route::Route;

/// An order of one product per quantity given, for exercising the arithmetic.
fn order_of(quantities: &[u32]) -> Order {
    order_of_products(
        &quantities
            .iter()
            .enumerate()
            .map(|(index, quantity)| (index as u32 + 1, *quantity))
            .collect::<Vec<_>>(),
    )
}

fn order_of_products(lines: &[(u32, u32)]) -> Order {
    Order {
        id: 1,
        customer: "Test".to_owned(),
        department: None,
        delivery_street: "Testveien 1".to_owned(),
        route: "1".to_owned(),
        sequence: 100,
        accept_alternatives: true,
        comment: None,
        lines: lines
            .iter()
            .map(|(product_id, quantity)| Line {
                product: Product {
                    id: *product_id,
                    name: format!("Product {product_id}"),
                    sku: product_id.to_string(),
                    supplier: "sandnes bakeri".to_owned(),
                },
                quantity: *quantity,
            })
            .collect(),
    }
}

/// One stop per quantity, each a single line of a standard bread.
fn synthetic_route(nickname: &str, quantities: &[u32]) -> Route {
    Route {
        nickname: nickname.to_owned(),
        stops: quantities
            .iter()
            .enumerate()
            .map(|(index, &quantity)| Order {
                id: 1_000_700_000 + index as i64,
                customer: format!("Customer {index:03}"),
                department: None,
                delivery_street: format!("Gate {index}"),
                route: nickname.to_owned(),
                sequence: 100 * (index as u32 + 1),
                accept_alternatives: true,
                comment: None,
                lines: vec![Line {
                    product: Product {
                        id: 1,
                        name: "Havrebrød Oppdelt Sandnes Bakeri".to_owned(),
                        sku: "101".to_owned(),
                        supplier: "sandnes bakeri".to_owned(),
                    },
                    quantity,
                }],
            })
            .collect(),
    }
}

#[test]
fn the_remainder_rule_prefers_the_fewest_containers() {
    let rules = CrateRules::default();
    let cases = [
        (1, CrateCount { large: 0, small: 1 }),
        (5, CrateCount { large: 0, small: 1 }),
        (6, CrateCount { large: 1, small: 0 }),
        (10, CrateCount { large: 1, small: 0 }),
        (11, CrateCount { large: 1, small: 1 }),
        (16, CrateCount { large: 2, small: 0 }),
        (20, CrateCount { large: 2, small: 0 }),
        (48, CrateCount { large: 5, small: 0 }),
    ];

    for (units, expected) in cases {
        let order = order_of(&[units]);
        assert_eq!(crates::count(&order, &rules), expected, "{units} units");
    }
}

#[test]
fn half_size_breads_take_half_a_slot() {
    let mut rules = CrateRules::default();
    rules.set_size(1, 50);

    let rolls_only = order_of_products(&[(1, 12)]);
    assert_eq!(crates::slots(&rolls_only, &rules), 6);
    assert_eq!(
        crates::count(&rolls_only, &rules),
        CrateCount { large: 1, small: 0 }
    );

    let mixed = order_of_products(&[(1, 3), (2, 4)]);
    assert_eq!(crates::slots(&mixed, &rules), 6);
}

#[test]
fn a_bulky_bread_can_take_more_than_one_slot() {
    let mut rules = CrateRules::default();
    rules.set_size(1, 200);

    let order = order_of_products(&[(1, 6)]);
    assert_eq!(crates::slots(&order, &rules), 12);
    assert_eq!(
        crates::count(&order, &rules),
        CrateCount { large: 1, small: 1 }
    );
}

#[test]
fn saying_a_bread_is_standard_forgets_it() {
    let mut rules = CrateRules::default();
    assert!(!rules.is_custom(7));

    rules.set_size(7, 50);
    assert!(rules.is_custom(7));
    assert_eq!(rules.size_of(7), 50);

    rules.set_size(7, STANDARD_SIZE);
    assert!(!rules.is_custom(7));
    assert_eq!(rules.size_of(7), STANDARD_SIZE);
    assert_eq!(rules, CrateRules::default(), "and nothing is left behind");
}

#[test]
fn a_route_total_sums_stops_not_units() {
    let rules = CrateRules::default();
    assert_eq!(
        crates::route_total(&synthetic_route("6", &[14, 14]), &rules),
        4
    );
    assert_eq!(
        crates::route_total(&synthetic_route("6", &[90, 90]), &rules),
        18
    );
}

#[test]
fn sixteen_crates_is_the_pallet_threshold() {
    let at_threshold = synthetic_route("6", &[80, 80]);
    assert_eq!(
        crates::route_total(&at_threshold, &CrateRules::default()),
        crates::PALLET_THRESHOLD
    );
}

#[test]
fn a_crate_count_adds_up_both_sizes() {
    assert_eq!(CrateCount { large: 3, small: 1 }.total(), 4);
}

#[test]
fn with_every_size_standard_the_slots_are_the_loaves() {
    let order = order_of(&[3, 4, 5]);
    assert_eq!(crates::slots(&order, &CrateRules::default()), 12);
}

#[test]
fn smaller_crates_change_the_count() {
    let rules = CrateRules {
        large_capacity: 8,
        small_capacity: 4,
        ..CrateRules::default()
    };
    assert_eq!(
        crates::count(&order_of(&[13]), &rules),
        CrateCount { large: 2, small: 0 }
    );
    assert_eq!(
        crates::count(&order_of(&[12]), &rules),
        CrateCount { large: 1, small: 1 }
    );
}

#[test]
fn a_bread_that_takes_more_room_needs_more_crates() {
    let stop = order_of(&[10, 3]);
    let plain = CrateRules::default();
    let before = crates::count(&stop, &plain).total();

    let mut bulky = CrateRules::default();
    for line in &stop.lines {
        bulky.set_size(line.product.id, 300);
    }
    let after = crates::count(&stop, &bulky).total();

    assert!(after > before, "tripling every bread's size should need more crates: {before} -> {after}");
}
