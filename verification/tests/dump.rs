//! The terminal dump of a route.

use breadify::crates::CrateRules;
use breadify::date;
use breadify::dump;
use breadify::list::Kind;
use breadify::order::{Line, Order, Product};
use breadify::route::Route;

fn line(id: u32, name: &str, supplier: &str, quantity: u32) -> Line {
    Line {
        product: Product {
            id,
            name: name.to_owned(),
            sku: id.to_string(),
            supplier: supplier.to_owned(),
        },
        quantity,
    }
}

fn route() -> Route {
    Route {
        nickname: "8".to_owned(),
        stops: vec![
            Order {
                id: 1000620628,
                customer: "Customer 005".to_owned(),
                department: Some("Avd. 2".to_owned()),
                delivery_street: "Street 5".to_owned(),
                route: "8".to_owned(),
                sequence: 100,
                accept_alternatives: false,
                comment: Some("Ring the bell".to_owned()),
                lines: vec![
                    line(2, "Barnehagebrødet - Oppskåret 750g", "bakehuset", 10),
                    line(1, "Grovbrød", "sandnes bakeri", 3),
                ],
            },
            Order {
                id: 1000620629,
                customer: "Customer 054".to_owned(),
                department: None,
                delivery_street: "Street 54".to_owned(),
                route: "8".to_owned(),
                sequence: 0,
                accept_alternatives: true,
                comment: None,
                lines: vec![line(1, "Grovbrød", "sandnes bakeri", 12)],
            },
        ],
    }
}

#[test]
fn a_route_dumps_in_the_shape_of_the_worked_example_text() {
    let dates = date::from_filename("PSR-BREAD-2026-03-04-to-2026-03-04.xlsx").ok();
    let text = dump::route(&route(), dates, &CrateRules::default());
    let expected = "\
ROUTE 8 — 2026-03-04 — 2 stops, 3 lines

Customer 005 — Avd. 2  ■ ◪  WANT SUBSTITUTE: FALSE  1000620628
   10  BH  Barnehagebrødet - Oppskåret 750g
    3  SB  Grovbrød
       note: Ring the bell

─── no position assigned — driver decides the order ───

Customer 054  ■ ◪  want substitute: true  1000620629
   12  SB  Grovbrød

Route 8 total — 2 types · 25 units
  SB Sandnes Bakeri — 1 type · 15 units
     15  Grovbrød  ●
  BH Bakehuset — 1 type · 10 units
     10  Barnehagebrødet - Oppskåret 750g  ●
";
    assert_eq!(text, expected);
}

#[test]
fn a_route_with_every_stop_placed_shows_no_flag() {
    let mut placed = route();
    placed.stops[1].sequence = 200;
    let text = dump::route(&placed, None, &CrateRules::default());
    assert!(!text.contains("no position assigned"));
    assert!(text.starts_with("ROUTE 8 — date unknown — 2 stops, 3 lines"));
}

#[test]
fn a_freezer_route_dumps_without_crates() {
    let freezer = dump::route_for(&route(), None, &CrateRules::default(), &Kind::Freezer);
    assert!(!freezer.contains('■') && !freezer.contains('◪'), "{freezer}");
    assert!(freezer.contains("\nCustomer 005 — Avd. 2  WANT SUBSTITUTE: FALSE  1000620628\n"));

    // The same route read as bread does draw them, so the assertion above is
    // about the list and not about the route being small.
    let bread = dump::route_for(&route(), None, &CrateRules::default(), &Kind::Bread);
    assert!(bread.contains('■') || bread.contains('◪'));
    assert_eq!(bread, dump::route(&route(), None, &CrateRules::default()));
}

#[test]
fn the_checked_dump_follows_the_kind_of_list() {
    let freezer = dump::route_checked(&route(), None, &CrateRules::default(), &Kind::Freezer).unwrap();
    assert!(!freezer.contains('■'));
    let bread = dump::route_checked(&route(), None, &CrateRules::default(), &Kind::Bread).unwrap();
    assert!(bread.contains('■'));
}
