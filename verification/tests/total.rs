//! The route total and its summary line.

use breadify::order::{Line, Order, Product};
use breadify::route::Route;
use breadify::total;

#[test]
fn the_summary_line_pluralises() {
    assert_eq!(total::summary(1, 10), "1 type · 10 units");
    assert_eq!(total::summary(6, 33), "6 types · 33 units");
    assert_eq!(total::summary(1, 1), "1 type · 1 unit");
}

fn line(id: u32, name: &str, supplier: &str, quantity: u32) -> Line {
    Line {
        product: Product {
            id,
            name: name.to_owned(),
            sku: id.to_string(),
            supplier: supplier.to_owned(),
        },
        quantity,
    }
}

fn order(id: i64, lines: Vec<Line>) -> Order {
    Order {
        id,
        customer: format!("Customer {id}"),
        department: None,
        delivery_street: format!("Gate {id}"),
        route: "8".to_owned(),
        sequence: 100,
        accept_alternatives: true,
        comment: None,
        lines,
    }
}

#[test]
fn a_route_total_has_one_column_per_bakery_in_house_order() {
    let route = Route {
        nickname: "8".to_owned(),
        stops: vec![
            order(1, vec![line(2, "Rug", "bakehuset", 11), line(1, "Grov", "sandnes bakeri", 3)]),
            order(2, vec![line(2, "Rug", "bakehuset", 9), line(3, "Fin", "sandnes bakeri", 5)]),
        ],
    };
    let totals = total::of(&route);
    let suppliers: Vec<&str> = totals.columns.iter().map(|c| c.supplier.as_str()).collect();
    assert_eq!(suppliers, ["sandnes bakeri", "bakehuset"]);
    assert_eq!(totals.types(), 3);
    assert_eq!(totals.units(), 28);
    assert_eq!(totals.full_tens(), 1, "an order of 11 and one of 9 make one full ten, not two");
    let sandnes: Vec<&str> = totals.columns[0].lines.iter().map(|l| l.product.name.as_str()).collect();
    assert_eq!(sandnes, ["Fin", "Grov"], "most needed first");
}
