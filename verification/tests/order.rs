//! Folding order lines into orders.

use breadify::order;
use breadify::sheet::SheetRow;

fn row(excel_row: usize, order_id: i64, product_id: u32, quantity: u32, comment: Option<&str>) -> SheetRow {
    SheetRow {
        excel_row,
        order_id,
        quantity,
        product_id,
        product_name: format!("Bread {product_id}"),
        supplier_sku: format!("{product_id}_san"),
        position: String::new(),
        supplier: "sandnes bakeri".to_owned(),
        customer: format!("Customer {order_id}"),
        department: None,
        delivery_street: "Street 1".to_owned(),
        comment: comment.map(str::to_owned),
        route_nickname: "1".to_owned(),
        route_ordering: 0,
        accept_alternatives: true,
        region: "Stavanger".to_owned(),
    }
}

#[test]
fn lines_fold_into_their_orders_in_file_order() {
    let rows = vec![
        row(2, 1001, 7, 3, None),
        row(3, 1000, 8, 2, Some("Back door")),
        row(4, 1001, 9, 5, None),
    ];
    let orders = order::fold(&rows);
    let ids: Vec<i64> = orders.iter().map(|o| o.id).collect();
    assert_eq!(ids, [1001, 1000]);
    assert_eq!(orders[0].lines.len(), 2);
    assert_eq!(orders[0].units(), 8);
    assert_eq!(orders[1].comment.as_deref(), Some("Back door"));
    assert!(!orders[0].is_sequenced());
    assert_eq!(orders[0].suppliers(), ["sandnes bakeri"]);
}
