//! The checks a file that read cleanly still has to pass.

use breadify::sheet::SheetRow;
use breadify::validate::{self, is_familiar_route, FindingKind, Severity};

fn row(excel_row: usize, order_id: i64, product_id: u32, street: &str, route: &str, ordering: u32) -> SheetRow {
    SheetRow {
        excel_row,
        order_id,
        quantity: 4,
        product_id,
        product_name: format!("Bread {product_id}"),
        supplier_sku: format!("{product_id}_san"),
        position: "X-Sandnes Bakeri".to_owned(),
        supplier: "sandnes bakeri".to_owned(),
        customer: format!("Customer {order_id}"),
        department: None,
        delivery_street: street.to_owned(),
        comment: None,
        route_nickname: route.to_owned(),
        route_ordering: ordering,
        accept_alternatives: true,
        region: "Stavanger".to_owned(),
    }
}

fn clean() -> Vec<SheetRow> {
    vec![
        row(2, 1000, 7, "Street 1", "1", 100),
        row(3, 1000, 8, "Street 1", "1", 100),
        row(4, 1001, 7, "Street 2", "hau 2", 0),
        row(5, 1002, 9, "Street 3", "hau 2", 0),
    ]
}

#[test]
fn a_clean_file_has_nothing_to_say() {
    assert!(validate::run(&clean()).is_empty());
}

#[test]
fn a_blank_required_cell_is_blocking() {
    let mut rows = clean();
    rows[0].customer = String::new();
    rows[1].customer = String::new();
    let findings = validate::run(&rows);
    let blanks: Vec<&str> = findings
        .iter()
        .filter(|f| f.kind == FindingKind::BlankRequiredField)
        .map(|f| f.headline.as_str())
        .collect();
    assert_eq!(blanks, ["Customer is empty on row 2", "Customer is empty on row 3"]);
    assert_eq!(findings[0].detail, "Row 2 of order 1000 has no Customer. Every line needs one.");
    assert_eq!(findings[0].severity, Severity::Blocking);
    assert_eq!(findings[0].rows, [2]);
}

#[test]
fn an_order_whose_lines_disagree_is_caught() {
    let mut rows = clean();
    rows[1].route_ordering = 999;
    let findings = validate::run(&rows);
    let disagreements: Vec<&validate::Finding> = findings
        .iter()
        .filter(|f| f.kind == FindingKind::OrderLinesDisagree)
        .collect();
    assert_eq!(disagreements.len(), 1);
    assert_eq!(disagreements[0].headline, "Order 1000 has two values for route ordering");
    assert_eq!(
        disagreements[0].detail,
        "The lines of order 1000 disagree about route ordering: \"100\" and \"999\". Everything but the product and the quantity belongs to the order."
    );
    assert_eq!(disagreements[0].rows, [2, 3]);
}

#[test]
fn two_notes_on_one_order_are_caught_but_one_missing_is_not() {
    let mut rows = clean();
    rows[0].comment = Some("Ring the bell".to_owned());
    assert!(validate::run(&rows).is_empty(), "a line without the note is fine");
    rows[1].comment = Some("Back door".to_owned());
    let findings = validate::run(&rows);
    assert_eq!(findings.len(), 1);
    assert_eq!(findings[0].headline, "Order 1000 carries two different notes");
    assert_eq!(
        findings[0].detail,
        "The lines of order 1000 carry \"Back door\" and \"Ring the bell\". Only one can be printed."
    );
}

#[test]
fn an_address_on_two_routes_is_blocking() {
    let mut rows = clean();
    rows.push(row(6, 1003, 7, "Street 1", "hau 1", 0));
    let findings = validate::run(&rows);
    let shared: Vec<&validate::Finding> = findings
        .iter()
        .filter(|f| f.kind == FindingKind::AddressOnTwoRoutes)
        .collect();
    assert_eq!(shared.len(), 1);
    assert_eq!(shared[0].headline, "Street 1 is on more than one route");
    assert_eq!(shared[0].detail, "Street 1 appears on routes 1, hau 1. One address belongs to one route.");
    assert_eq!(shared[0].rows, [2, 3, 6]);
}

#[test]
fn a_stop_sequence_shared_by_several_addresses_is_a_warning() {
    let rows = vec![
        row(2, 2000, 7, "Street 17", "11", 1400),
        row(3, 2001, 7, "Street 17b", "11", 1400),
        row(4, 2002, 7, "Steet 17", "11", 1400),
        row(5, 2003, 7, "Street 9", "9", 0),
        row(6, 2004, 7, "Street 10", "9", 0),
    ];
    let findings = validate::run(&rows);
    assert_eq!(findings.len(), 1, "position 0 is not a shared position");
    assert_eq!(findings[0].severity, Severity::Warning);
    assert_eq!(findings[0].headline, "Route 11 has 3 stops at 1400");
    assert_eq!(
        findings[0].detail,
        "Position 1400 on route 11 is shared by \"Steet 17\", \"Street 17\" and \"Street 17b\", across 3 stops. They print in address order."
    );
}

#[test]
fn a_product_that_means_two_things_is_caught() {
    let mut rows = clean();
    rows[2].product_name = "Bread 7 (new)".to_owned();
    let findings = validate::run(&rows);
    assert_eq!(findings.len(), 1);
    assert_eq!(findings[0].kind, FindingKind::ProductDetailsDisagree);
    assert_eq!(findings[0].headline, "Product 7 has two values for name");
    assert_eq!(
        findings[0].detail,
        "Product 7 appears with \"Bread 7\" and \"Bread 7 (new)\" as its name."
    );
}

#[test]
fn an_unfamiliar_route_nickname_is_a_notice() {
    let mut rows = clean();
    rows[0].route_nickname = "north-east".to_owned();
    rows[1].route_nickname = "north-east".to_owned();
    let findings = validate::run(&rows);
    let notices: Vec<&validate::Finding> = findings
        .iter()
        .filter(|f| f.kind == FindingKind::UnfamiliarValue)
        .collect();
    assert_eq!(notices.len(), 1);
    assert_eq!(notices[0].headline, "New route nickname: north-east");
    assert_eq!(
        notices[0].detail,
        "north-east has not appeared in this column before. It appears on 2 row(s)."
    );
    assert_eq!(notices[0].severity, Severity::Notice);
}

#[test]
fn findings_come_most_severe_first() {
    let mut rows = clean();
    rows[3].region = "Bergen".to_owned();
    rows[0].supplier_sku = String::new();
    rows.push(row(6, 2000, 11, "Street 5", "3", 700));
    rows.push(row(7, 2001, 11, "Street 6", "3", 700));
    let findings = validate::run(&rows);
    let kinds: Vec<FindingKind> = findings.iter().map(|f| f.kind).collect();
    assert_eq!(
        kinds,
        [
            FindingKind::BlankRequiredField,
            FindingKind::ProductDetailsDisagree,
            FindingKind::RepeatedStopSequence,
            FindingKind::UnfamiliarValue
        ]
    );
    assert_eq!(findings[1].headline, "Product 7 has two values for SKU");
    assert_eq!(findings[3].headline, "New region: Bergen");
}

#[test]
fn familiar_nicknames_are_numbers_or_a_name_and_a_number() {
    assert!(is_familiar_route("7"));
    assert!(is_familiar_route("hau 2"));
    assert!(!is_familiar_route(""));
    assert!(!is_familiar_route("north-east"));
    assert!(!is_familiar_route("hau "));
    assert!(!is_familiar_route(" 2"));
    assert!(!is_familiar_route("hau 2b"));
}
