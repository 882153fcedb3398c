//! Reading rows of cells into sheet rows.

use breadify::sheet::{self, Cell, CellValue, ReadError, HEADERS};

fn text(s: &str) -> Cell {
    Cell { value: CellValue::Text(s.to_owned()), shown: s.to_owned() }
}

fn whole(n: i64) -> Cell {
    Cell { value: CellValue::Whole(n), shown: n.to_string() }
}

fn empty() -> Cell {
    Cell { value: CellValue::Empty, shown: String::new() }
}

fn flag(b: bool) -> Cell {
    Cell { value: CellValue::Flag(b), shown: b.to_string() }
}

fn cells() -> Vec<Cell> {
    vec![
        whole(1000620628),
        whole(4),
        whole(107),
        text(" Grovbrød Sandnes Bakeri "),
        text("107_san"),
        empty(),
        text("sandnes bakeri"),
        text("Customer 005"),
        empty(),
        text("Street 5"),
        text("Ring the bell"),
        text("8"),
        whole(1400),
        flag(false),
        text("Stavanger"),
    ]
}

#[test]
fn a_row_reads_each_column_as_what_it_is() {
    let row = sheet::read_row(2, &cells()).expect("the row reads");
    assert_eq!(row.excel_row, 2);
    assert_eq!(row.order_id, 1000620628);
    assert_eq!(row.quantity, 4);
    assert_eq!(row.product_name, "Grovbrød Sandnes Bakeri", "text is trimmed");
    assert_eq!(row.position, "", "an absent position is empty");
    assert_eq!(row.department, None, "an absent department is none, not blank");
    assert_eq!(row.comment.as_deref(), Some("Ring the bell"));
    assert_eq!(row.route_ordering, 1400);
    assert!(!row.accept_alternatives);
    assert_eq!(row.region, "Stavanger");
}

#[test]
fn the_first_cell_that_does_not_fit_is_the_error() {
    let mut bad = cells();
    bad[1] = whole(-3);
    bad[9] = whole(5);
    match sheet::read_row(7, &bad) {
        Err(ReadError::WrongCellType { column, row, expected, found }) => {
            assert_eq!(column, 'B');
            assert_eq!(row, 7);
            assert_eq!(expected, "a whole number of zero or more");
            assert_eq!(found, "-3");
        }
        other => panic!("expected a cell type error, got {other:?}"),
    }
    let mut flagless = cells();
    flagless[13] = text("yes");
    assert!(matches!(
        sheet::read_row(3, &flagless),
        Err(ReadError::WrongCellType { column: 'N', expected: "true or false", .. })
    ));
}

#[test]
fn the_header_row_must_say_what_the_columns_are() {
    let mut header: Vec<Cell> = HEADERS.iter().map(|h| text(h)).collect();
    header.push(empty());
    assert!(sheet::check_headers(&header).is_ok());

    header[3] = text("Name");
    match sheet::check_headers(&header) {
        Err(ReadError::WrongHeader { column, expected, found }) => {
            assert_eq!(column, 'D');
            assert_eq!(expected, "Product Name");
            assert_eq!(found, "Name");
        }
        other => panic!("expected a header error, got {other:?}"),
    }

    let mut trailing: Vec<Cell> = HEADERS.iter().map(|h| text(h)).collect();
    trailing.push(text("Region"));
    assert!(matches!(
        sheet::check_headers(&trailing),
        Err(ReadError::UnexpectedHeader { column: 'O', .. })
    ));
}

#[test]
fn the_sheet_must_start_at_a1_and_be_fifteen_wide() {
    assert!(matches!(sheet::check_shape(None, 15), Err(ReadError::EmptySheet)));
    assert!(matches!(
        sheet::check_shape(Some((1, 0)), 15),
        Err(ReadError::NotAnchoredAtA1 { row: 1, column: 0 })
    ));
    assert!(matches!(
        sheet::check_shape(Some((0, 0)), 14),
        Err(ReadError::WrongColumnCount { found: 14 })
    ));
    assert!(sheet::check_shape(Some((0, 0)), 15).is_ok());
}

#[test]
fn every_data_row_is_read_and_numbered_from_the_header() {
    let mut header: Vec<Cell> = HEADERS.iter().map(|h| text(h)).collect();
    header.push(empty());
    let rows = vec![header, cells(), cells()];
    let read = sheet::read_rows(&rows).expect("both rows read");
    assert_eq!(read.len(), 2);
    assert_eq!(read[0].excel_row, 2);
    assert_eq!(read[1].excel_row, 3);
    assert_eq!(sheet::column_letter(0), 'A');
    assert_eq!(sheet::column_letter(14), 'O');
}
