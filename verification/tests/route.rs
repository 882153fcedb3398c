//! Routes in their natural order, and stops in delivery order.

use breadify::order::{Line, Order, Product};
use breadify::route::{self, natural_key, RouteKey};

#[test]
fn nicknames_this_export_has_never_seen_still_sort_sensibly() {
    assert_eq!(natural_key("7"), RouteKey::Numbered(7, ""));
    assert_eq!(natural_key("hau 10"), RouteKey::Named("hau", 10));
    assert_eq!(natural_key("nord"), RouteKey::Named("nord", 0));
    assert!(natural_key("14") < natural_key("hau 1"));
    assert!(natural_key("hau 2") < natural_key("hau 10"));
    assert!(natural_key("2") < natural_key("10"));
}

fn stop(id: i64, route: &str, sequence: u32, street: &str) -> Order {
    Order {
        id,
        customer: format!("Customer {id}"),
        department: None,
        delivery_street: street.to_owned(),
        route: route.to_owned(),
        sequence,
        accept_alternatives: true,
        comment: None,
        lines: vec![Line {
            product: Product {
                id: 1,
                name: "Grovbrød".to_owned(),
                sku: "1".to_owned(),
                supplier: "sandnes bakeri".to_owned(),
            },
            quantity: 2,
        }],
    }
}

#[test]
fn routes_come_in_natural_order_with_unsequenced_stops_last() {
    let orders = vec![
        stop(1, "10", 300, "C"),
        stop(2, "2", 0, "A"),
        stop(3, "2", 500, "B"),
        stop(4, "hau 1", 100, "D"),
        stop(5, "2", 200, "E"),
    ];
    let routes = route::group(orders);
    let names: Vec<&str> = routes.iter().map(|r| r.nickname.as_str()).collect();
    assert_eq!(names, ["2", "10", "hau 1"]);

    let two: Vec<i64> = routes[0].stops.iter().map(|s| s.id).collect();
    assert_eq!(two, [5, 3, 2], "by sequence, then the unsequenced one");
    assert_eq!(routes[0].unsequenced().len(), 1);
    assert_eq!(routes[0].line_count(), 3);
}

#[test]
fn numbered_routes_order_by_value_and_before_named_ones() {
    for (a, b) in [("2", "10"), ("9", "09"), ("100", "99"), ("0", "18446744073709551615")] {
        let (x, y): (u64, u64) = (a.parse().unwrap(), b.parse().unwrap());
        assert_eq!(natural_key(a), RouteKey::Numbered(x, ""));
        assert_eq!(natural_key(a) < natural_key(b), x < y, "{a} against {b}");
        assert!(natural_key(a) < natural_key("hau"));
        assert_eq!(natural_key(&format!("hau  {a}")), RouteKey::Named("hau", x));
    }
}

#[test]
fn a_single_route_groups_whatever_its_nickname() {
    let orders = vec![stop(1, "Bø2", 200, "Street 1"), stop(2, "Bø2", 100, "Street 2")];
    assert!(!route::keyable_nickname("Bø2"));
    assert!(route::can_group(&orders));
    let routes = route::group(orders);
    assert_eq!(routes.len(), 1);
    assert_eq!(routes[0].nickname, "Bø2");
    let ids: Vec<i64> = routes[0].stops.iter().map(|s| s.id).collect();
    assert_eq!(ids, vec![2, 1]);
}

#[test]
fn two_routes_need_nicknames_that_can_be_keyed() {
    assert!(!route::can_group(&vec![stop(1, "Bø2", 100, "A"), stop(2, "7", 100, "B")]));
    assert!(route::can_group(&vec![stop(1, "hau 2", 100, "A"), stop(2, "7", 100, "B")]));
    assert!(route::can_group(&Vec::new()));
}

#[test]
fn every_stop_is_on_the_route_that_holds_it() {
    let orders = vec![
        stop(1, "8", 100, "A"),
        stop(2, "hau 1", 100, "B"),
        stop(3, "8", 0, "C"),
        stop(4, "10", 100, "D"),
    ];
    let routes = route::group(orders);
    let names: Vec<&str> = routes.iter().map(|r| r.nickname.as_str()).collect();
    assert_eq!(names, vec!["8", "10", "hau 1"]);
    let total: usize = routes.iter().map(|r| r.stops.len()).sum();
    assert_eq!(total, 4);
    for r in &routes {
        assert!(r.stops.iter().all(|s| s.route == r.nickname));
    }
}
