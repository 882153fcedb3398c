//! The export's one worksheet, as rows.
//!
//! The file is an ordinary `.xlsx` with a single sheet named `Data`: 14
//! headers in `A1:N1` and a fifteenth column that carries data in every row
//! but has no header. Empty cells are *absent* rather than blank, so
//! `Department` and `Comment` are read as `Option<String>` and everything
//! else is required.

use vstd::prelude::*;

use crate::chars::{chars_of, push_chars, push_str, trim, trimmed};

verus! {

/// One row of the export: a single order line, one product for one order.
///
/// Everything except the quantity, the product id and the product's names is
/// an attribute of the *order*, repeated onto each of its lines.
#[derive(Debug, PartialEq, Eq)]
pub struct SheetRow {
    /// 1-based row number in the worksheet, for pointing at a row in a
    /// validation finding.
    pub excel_row: usize,
    pub order_id: i64,
    pub quantity: u32,
    pub product_id: u32,
    pub product_name: String,
    /// Text, never a number: `107_san`, `10022_bhb`, bare `115`, `21061bhb`.
    pub supplier_sku: String,
    /// Where the goods sit. Empty means the export gave none. Nothing is
    /// grouped by it and nothing prints it.
    pub position: String,
    pub supplier: String,
    pub customer: String,
    /// The sub-location inside a customer, and the crate label.
    pub department: Option<String>,
    pub delivery_street: String,
    /// Order-level free text, repeated onto every line of that order.
    pub comment: Option<String>,
    /// Text even when it looks numeric: `1`..`14`, `hau 1`, `hau 2`.
    pub route_nickname: String,
    /// Stop sequence within the route, higher being later. `0` means no
    /// position was assigned, not position zero.
    pub route_ordering: u32,
    /// Whether the customer accepts a replacement product when a bread is
    /// sold out.
    pub accept_alternatives: bool,
    /// The unlabelled fifteenth column, carried through and never keyed off.
    pub region: String,
}

impl Clone for SheetRow {
    fn clone(&self) -> (copy: Self)
        ensures
            copy == *self,
    {
        SheetRow {
            excel_row: self.excel_row,
            order_id: self.order_id,
            quantity: self.quantity,
            product_id: self.product_id,
            product_name: self.product_name.clone(),
            supplier_sku: self.supplier_sku.clone(),
            position: self.position.clone(),
            supplier: self.supplier.clone(),
            customer: self.customer.clone(),
            department: self.department.clone(),
            delivery_street: self.delivery_street.clone(),
            comment: self.comment.clone(),
            route_nickname: self.route_nickname.clone(),
            route_ordering: self.route_ordering,
            accept_alternatives: self.accept_alternatives,
            region: self.region.clone(),
        }
    }
}

/// The sheet every export carries its data on.
pub const SHEET_NAME: &'static str = "Data";

/// The 14 headers in `A1:N1`, in order. A fifteenth column follows them with
/// data but no header, which is why this is shorter than [`COLUMN_COUNT`].
pub const HEADERS: [&'static str; 14] = [
    "Order ID",
    "Quantity",
    "Product ID",
    "Product Name",
    "Supplier SKU",
    "Position",
    "Supplier",
    "Customer",
    "Department",
    "Delivery street",
    "Comment",
    "Route nickname",
    "Route ordering",
    "Accept alternatives",
];

/// Columns `A` through `O`: one more than there are headers.
pub const COLUMN_COUNT: usize = 15;

/// What the workbook reader found in a cell, as far as reading a row cares.
#[derive(Debug, Clone, PartialEq, Eq)]
pub enum CellValue {
    /// No cell at all.
    Empty,
    /// A string.
    Text(String),
    /// A whole number: an integer cell, or a number cell with no fraction.
    Whole(i64),
    /// A real Excel boolean.
    Flag(bool),
    /// Anything else: a number with a fraction, a date, an error.
    Other,
}

/// One cell: what it holds, and how the workbook reader shows it, for
/// headers and for messages that quote a cell.
#[derive(Debug, Clone, PartialEq, Eq)]
pub struct Cell {
    pub value: CellValue,
    pub shown: String,
}

/// The error the workbook reader gives for a file it cannot open.
#[verifier::external_type_specification]
#[verifier::external_body]
pub struct ExXlsxError(calamine::XlsxError);

/// Everything that can stop an export being read at all. Problems within a
/// readable file are validation findings, not errors.
#[derive(Debug)]
pub enum ReadError {
    Open { path: String, source: calamine::XlsxError },
    NoDataSheet,
    EmptySheet,
    NotAnchoredAtA1 { row: u32, column: u32 },
    WrongColumnCount { found: usize },
    WrongHeader { column: char, expected: &'static str, found: String },
    UnexpectedHeader { column: char, found: String },
    WrongCellType { column: char, row: usize, expected: &'static str, found: String },
}

/// The letter of a column: `0` is `A`, `14` is `O`. Past 255 the index does
/// not fit a byte and reads as `A`.
pub open spec fn letter_of(index: int) -> char {
    if index > 255 {
        'A'
    } else {
        (65 + index) as char
    }
}

/// `0` -> `A`, `14` -> `O`.
pub fn column_letter(index: usize) -> (letter: char)
    requires
        index <= 190 || index > 255,
    ensures
        letter == letter_of(index as int),
{
    if index > 255 {
        'A'
    } else {
        let byte: u8 = 65 + index as u8;
        byte as char
    }
}

/// Fails unless the used range starts at `A1` and is exactly
/// [`COLUMN_COUNT`] wide, which is what makes a positional read of each row
/// safe. `start` is where the used range starts, if anywhere.
pub fn check_shape(start: Option<(u32, u32)>, width: usize) -> (checked: Result<(), ReadError>)
    ensures
        match start {
            None => checked matches Err(ReadError::EmptySheet),
            Some((row, column)) => if row != 0 || column != 0 {
                checked matches Err(ReadError::NotAnchoredAtA1 { row: r, column: c }) && r == row
                    && c == column
            } else if width != COLUMN_COUNT {
                checked matches Err(ReadError::WrongColumnCount { found }) && found == width
            } else {
                checked is Ok
            },
        },
{
    match start {
        None => Err(ReadError::EmptySheet),
        Some((row, column)) => {
            if row != 0 || column != 0 {
                return Err(ReadError::NotAnchoredAtA1 { row, column });
            }
            if width != COLUMN_COUNT {
                return Err(ReadError::WrongColumnCount { found: width });
            }
            Ok(())
        },
    }
}

/// The first header cell that does not read as it should.
pub open spec fn first_wrong_header(header: Seq<Cell>) -> Option<int> {
    if exists|i: int| 0 <= i < 14 && #[trigger] header[i].shown@ != HEADERS[i]@ {
        Some(choose|i: int| 0 <= i < 14 && header[i].shown@ != HEADERS[i]@ && forall|j: int| 0 <= j < i ==> header[j].shown@ == HEADERS[j]@)
    } else {
        None
    }
}

/// Fails unless row 1 carries [`HEADERS`] in `A1:N1` and nothing in `O1`.
pub fn check_headers(header: &[Cell]) -> (checked: Result<(), ReadError>)
    requires
        header@.len() >= COLUMN_COUNT,
    ensures
        match first_wrong_header(header@) {
            Some(i) => checked matches Err(ReadError::WrongHeader { column, expected, found }) && column
                == letter_of(i) && expected@ == HEADERS[i]@ && found@ == header@[i].shown@,
            None => if header@[14].value != CellValue::Empty {
                checked matches Err(ReadError::UnexpectedHeader { column, found }) && column == 'O'
                    && found@ == header@[14].shown@
            } else {
                checked is Ok
            },
        },
{
    let mut i: usize = 0;
    while i < 14
        invariant
            0 <= i <= 14,
            header@.len() >= 15,
            forall|j: int| 0 <= j < i ==> header@[j].shown@ == HEADERS[j]@,
        decreases 14 - i,
    {
        let expected = HEADERS[i];
        let found = chars_of(header[i].shown.as_str());
        let wanted = chars_of(expected);
        if !crate::chars::equal_text(found.as_slice(), wanted.as_slice()) {
            proof {
                assert(header@[i as int].shown@ != HEADERS[i as int]@);
                let w = choose|w: int| 0 <= w < 14 && header@[w].shown@ != HEADERS[w]@ && forall|j: int|
                    0 <= j < w ==> header@[j].shown@ == HEADERS[j]@;
                if w < i {
                } else if w > i {
                    assert(header@[i as int].shown@ == HEADERS[i as int]@);
                }
            }
            return Err(ReadError::WrongHeader {
                column: column_letter(i),
                expected,
                found: header[i].shown.clone(),
            });
        }
        i = i + 1;
    }
    match &header[14].value {
        CellValue::Empty => Ok(()),
        _ => Err(ReadError::UnexpectedHeader { column: column_letter(14), found: header[14].shown.clone() }),
    }
}

/// What a column of the sheet calls for.
#[derive(Debug, Clone, Copy, PartialEq, Eq, Structural)]
pub enum Want {
    /// A required string.
    Text,
    /// A string that may have no cell at all.
    OptionalText,
    /// A whole number.
    Whole,
    /// A whole number of zero or more: a quantity, an identifier, a stop
    /// sequence.
    Count,
    /// A real Excel boolean.
    Flag,
}

/// What each column of a row calls for.
pub open spec fn wanted(i: int) -> Want {
    if i == 0 {
        Want::Whole
    } else if i == 1 || i == 2 || i == 12 {
        Want::Count
    } else if i == 5 || i == 8 || i == 10 {
        Want::OptionalText
    } else if i == 13 {
        Want::Flag
    } else {
        Want::Text
    }
}

/// Whether a cell holds what its column calls for.
pub open spec fn fits(cell: Cell, want: Want) -> bool {
    match want {
        Want::Text => cell.value is Text,
        Want::OptionalText => cell.value is Text || cell.value is Empty,
        Want::Whole => cell.value is Whole,
        Want::Count => cell.value matches CellValue::Whole(v) && 0 <= v <= u32::MAX,
        Want::Flag => cell.value is Flag,
    }
}

/// How a message says what a column called for.
pub open spec fn complaint(cell: Cell, want: Want) -> Seq<char> {
    match want {
        Want::Text => "text"@,
        Want::OptionalText => "text or nothing"@,
        Want::Whole => "a whole number"@,
        Want::Count => if cell.value is Whole {
            "a whole number of zero or more"@
        } else {
            "a whole number"@
        },
        Want::Flag => "true or false"@,
    }
}

/// The first cell of a row that does not hold what its column calls for.
#[verifier::opaque]
pub open spec fn first_misfit(cells: Seq<Cell>) -> Option<int> {
    if exists|i: int| 0 <= i < 15 && !fits(#[trigger] cells[i], wanted(i)) {
        Some(choose|i: int| 0 <= i < 15 && !fits(cells[i], wanted(i)) && forall|j: int| 0 <= j < i ==> fits(cells[j], wanted(j)))
    } else {
        None
    }
}

/// A string cell's text, trimmed.
pub open spec fn cell_text(cell: Cell) -> Seq<char> {
    match cell.value {
        CellValue::Text(t) => trim(t@),
        _ => Seq::empty(),
    }
}

/// A whole-number cell's value.
pub open spec fn cell_whole(cell: Cell) -> int {
    match cell.value {
        CellValue::Whole(v) => v as int,
        _ => 0,
    }
}

/// Whether a row was read from the given cells.
#[verifier::opaque]
pub open spec fn read_from(row: SheetRow, excel_row: usize, cells: Seq<Cell>) -> bool {
    &&& row.excel_row == excel_row
    &&& row.order_id == cell_whole(cells[0])
    &&& row.quantity == cell_whole(cells[1])
    &&& row.product_id == cell_whole(cells[2])
    &&& row.product_name@ == cell_text(cells[3])
    &&& row.supplier_sku@ == cell_text(cells[4])
    &&& row.position@ == cell_text(cells[5])
    &&& row.supplier@ == cell_text(cells[6])
    &&& row.customer@ == cell_text(cells[7])
    &&& (match row.department {
        Some(d) => cells[8].value is Text && d@ == cell_text(cells[8]),
        None => cells[8].value is Empty,
    })
    &&& row.delivery_street@ == cell_text(cells[9])
    &&& (match row.comment {
        Some(c) => cells[10].value is Text && c@ == cell_text(cells[10]),
        None => cells[10].value is Empty,
    })
    &&& row.route_nickname@ == cell_text(cells[11])
    &&& row.route_ordering == cell_whole(cells[12])
    &&& cells[13].value == CellValue::Flag(row.accept_alternatives)
    &&& row.region@ == cell_text(cells[14])
}

/// Whether an error is the one a row's first misfit gives.
#[verifier::opaque]
pub open spec fn complains_of(error: ReadError, excel_row: usize, cells: Seq<Cell>, i: int) -> bool {
    error matches ReadError::WrongCellType { column, row, expected, found } && column == letter_of(i)
        && row == excel_row && expected@ == complaint(cells[i], wanted(i)) && found@ == cells[i].shown@
}

/// The shape of a row of the export, column by column: the order id a whole
/// number; quantity, product id and route ordering whole numbers of zero or
/// more; position, department and comment text or no cell at all; the
/// accept-alternatives column a true-or-false; every other column text.
pub open spec fn export_row_shape(cells: Seq<Cell>) -> bool {
    &&& cells[0].value is Whole
    &&& cells[1].value matches CellValue::Whole(v) && 0 <= v <= u32::MAX
    &&& cells[2].value matches CellValue::Whole(v) && 0 <= v <= u32::MAX
    &&& cells[3].value is Text
    &&& cells[4].value is Text
    &&& (cells[5].value is Text || cells[5].value is Empty)
    &&& cells[6].value is Text
    &&& cells[7].value is Text
    &&& (cells[8].value is Text || cells[8].value is Empty)
    &&& cells[9].value is Text
    &&& (cells[10].value is Text || cells[10].value is Empty)
    &&& cells[11].value is Text
    &&& cells[12].value matches CellValue::Whole(v) && 0 <= v <= u32::MAX
    &&& cells[13].value is Flag
    &&& cells[14].value is Text
}

/// A row reads exactly when its cells have the export's shape, and a row
/// that reads has a department and a comment exactly when their cells hold
/// text: an order with no note, or a customer with no department, reads as
/// `None` rather than failing.
pub proof fn lemma_rows_of_the_export_read(cells: Seq<Cell>, excel_row: usize, row: SheetRow)
    requires
        cells.len() >= 15,
    ensures
        first_misfit(cells) is None <==> export_row_shape(cells),
        read_from(row, excel_row, cells) ==> (row.comment is None <==> cells[10].value is Empty)
            && (row.department is None <==> cells[8].value is Empty),
{
    reveal(first_misfit);
    reveal(read_from);
    if export_row_shape(cells) {
        assert forall|i: int| 0 <= i < 15 implies fits(#[trigger] cells[i], wanted(i)) by {}
    } else {
        if !(cells[0].value is Whole) {
            assert(!fits(cells[0], wanted(0)));
        } else if !(cells[1].value matches CellValue::Whole(v) && 0 <= v <= u32::MAX) {
            assert(!fits(cells[1], wanted(1)));
        } else if !(cells[2].value matches CellValue::Whole(v) && 0 <= v <= u32::MAX) {
            assert(!fits(cells[2], wanted(2)));
        } else if !(cells[3].value is Text) {
            assert(!fits(cells[3], wanted(3)));
        } else if !(cells[4].value is Text) {
            assert(!fits(cells[4], wanted(4)));
        } else if !(cells[5].value is Text || cells[5].value is Empty) {
            assert(!fits(cells[5], wanted(5)));
        } else if !(cells[6].value is Text) {
            assert(!fits(cells[6], wanted(6)));
        } else if !(cells[7].value is Text) {
            assert(!fits(cells[7], wanted(7)));
        } else if !(cells[8].value is Text || cells[8].value is Empty) {
            assert(!fits(cells[8], wanted(8)));
        } else if !(cells[9].value is Text) {
            assert(!fits(cells[9], wanted(9)));
        } else if !(cells[10].value is Text || cells[10].value is Empty) {
            assert(!fits(cells[10], wanted(10)));
        } else if !(cells[11].value is Text) {
            assert(!fits(cells[11], wanted(11)));
        } else if !(cells[12].value matches CellValue::Whole(v) && 0 <= v <= u32::MAX) {
            assert(!fits(cells[12], wanted(12)));
        } else if !(cells[13].value is Flag) {
            assert(!fits(cells[13], wanted(13)));
        } else {
            assert(!fits(cells[14], wanted(14)));
        }
    }
}

/// What a column at a position calls for.
fn want_at(i: usize) -> (want: Want)
    ensures
        want == wanted(i as int),
{
    if i == 0 {
        Want::Whole
    } else if i == 1 || i == 2 || i == 12 {
        Want::Count
    } else if i == 5 || i == 8 || i == 10 {
        Want::OptionalText
    } else if i == 13 {
        Want::Flag
    } else {
        Want::Text
    }
}

/// Whether a cell holds what its column calls for.
fn cell_fits(cell: &Cell, want: Want) -> (ok: bool)
    ensures
        ok == fits(*cell, want),
{
    match want {
        Want::Text => matches!(cell.value, CellValue::Text(_)),
        Want::OptionalText => matches!(cell.value, CellValue::Text(_) | CellValue::Empty),
        Want::Whole => matches!(cell.value, CellValue::Whole(_)),
        Want::Count => match cell.value {
            CellValue::Whole(v) => 0 <= v && v <= 4294967295,
            _ => false,
        },
        Want::Flag => matches!(cell.value, CellValue::Flag(_)),
    }
}

/// How a message says what a column called for.
fn complaint_for(cell: &Cell, want: Want) -> (text: &'static str)
    ensures
        text@ == complaint(*cell, want),
{
    match want {
        Want::Text => "text",
        Want::OptionalText => "text or nothing",
        Want::Whole => "a whole number",
        Want::Count => match cell.value {
            CellValue::Whole(_) => "a whole number of zero or more",
            _ => "a whole number",
        },
        Want::Flag => "true or false",
    }
}

/// A string cell's text, trimmed; empty for anything else.
fn text_in(cell: &Cell) -> (text: String)
    ensures
        text@ == cell_text(*cell),
{
    match &cell.value {
        CellValue::Text(t) => {
            let chars = chars_of(t.as_str());
            let kept = trimmed(chars.as_slice());
            let mut text = String::new();
            push_chars(&mut text, kept.as_slice());
            text
        },
        _ => String::new(),
    }
}

/// A string cell's text, trimmed, or nothing for an absent cell.
fn optional_text_in(cell: &Cell) -> (text: Option<String>)
    ensures
        match text {
            Some(t) => cell.value is Text && t@ == cell_text(*cell),
            None => !(cell.value is Text),
        },
{
    match &cell.value {
        CellValue::Text(_) => Some(text_in(cell)),
        _ => None,
    }
}

/// A whole-number cell's value; zero for anything else.
fn whole_in(cell: &Cell) -> (value: i64)
    ensures
        value == cell_whole(*cell),
{
    match cell.value {
        CellValue::Whole(v) => v,
        _ => 0,
    }
}

/// Reads one row of cells, each checked against what its column calls for.
/// The first cell that does not fit is the error.
pub fn read_row(excel_row: usize, cells: &[Cell]) -> (row: Result<SheetRow, ReadError>)
    requires
        cells@.len() >= COLUMN_COUNT,
    ensures
        match first_misfit(cells@) {
            Some(i) => row matches Err(e) && complains_of(e, excel_row, cells@, i),
            None => row matches Ok(r) && read_from(r, excel_row, cells@),
        },
{
    proof {
        reveal(first_misfit);
        reveal(complains_of);
    }
    let mut i: usize = 0;
    while i < COLUMN_COUNT
        invariant
            0 <= i <= 15,
            cells@.len() >= 15,
            forall|j: int| 0 <= j < i ==> fits(#[trigger] cells@[j], wanted(j)),
        decreases 15 - i,
    {
        let want = want_at(i);
        if !cell_fits(&cells[i], want) {
            proof {
                reveal(first_misfit);
                reveal(complains_of);
                let w = choose|w: int| 0 <= w < 15 && !fits(cells@[w], wanted(w)) && forall|j: int|
                    0 <= j < w ==> fits(cells@[j], wanted(j));
                if w < i {
                } else if w > i {
                    assert(fits(cells@[i as int], wanted(i as int)));
                }
            }
            return Err(ReadError::WrongCellType {
                column: column_letter(i),
                row: excel_row,
                expected: complaint_for(&cells[i], want),
                found: cells[i].shown.clone(),
            });
        }
        i = i + 1;
    }
    proof {
        assert(fits(cells@[1], wanted(1)));
        assert(fits(cells@[2], wanted(2)));
        assert(fits(cells@[5], wanted(5)));
        assert(fits(cells@[8], wanted(8)));
        assert(fits(cells@[10], wanted(10)));
        assert(fits(cells@[12], wanted(12)));
        assert(fits(cells@[13], wanted(13)));
    }
    proof {
        reveal(read_from);
    }
    let accept = match cells[13].value {
        CellValue::Flag(b) => b,
        _ => false,
    };
    let position = match optional_text_in(&cells[5]) {
        Some(t) => t,
        None => String::new(),
    };
    Ok(SheetRow {
        excel_row,
        order_id: whole_in(&cells[0]),
        quantity: whole_in(&cells[1]) as u32,
        product_id: whole_in(&cells[2]) as u32,
        product_name: text_in(&cells[3]),
        supplier_sku: text_in(&cells[4]),
        position,
        supplier: text_in(&cells[6]),
        customer: text_in(&cells[7]),
        department: optional_text_in(&cells[8]),
        delivery_street: text_in(&cells[9]),
        comment: optional_text_in(&cells[10]),
        route_nickname: text_in(&cells[11]),
        route_ordering: whole_in(&cells[12]) as u32,
        accept_alternatives: accept,
        region: text_in(&cells[14]),
    })
}

/// The first data row (after the header) whose cells do not fit.
pub open spec fn first_bad_row(rows: Seq<Seq<Cell>>) -> Option<int> {
    if exists|j: int| 1 <= j < rows.len() && (#[trigger] first_misfit(rows[j])) is Some {
        Some(choose|j: int| 1 <= j < rows.len() && first_misfit(rows[j]) is Some && forall|k: int| 1 <= k < j ==> first_misfit(rows[k]) is None)
    } else {
        None
    }
}

/// Reads every data row of a sheet whose shape and headers were checked, in
/// the order the file has them: the header row is skipped and row numbers
/// count from 1. The first row that does not read is the error.
pub fn read_rows(rows: &Vec<Vec<Cell>>) -> (read: Result<Vec<SheetRow>, ReadError>)
    requires
        forall|j: int| 0 <= j < rows@.len() ==> (#[trigger] rows@[j])@.len() >= COLUMN_COUNT,
        rows@.len() < usize::MAX,
    ensures
        match first_bad_row(rows@.map_values(|r: Vec<Cell>| r@)) {
            Some(j) => read matches Err(e) && complains_of(e, (j + 1) as usize, rows@[j]@, first_misfit(rows@[j]@)->0),
            None => read matches Ok(v) && v@.len() == (if rows@.len() == 0 { 0 } else { rows@.len() - 1 }) && forall|k: int|
                0 <= k < v@.len() ==> read_from(#[trigger] v@[k], (k + 2) as usize, rows@[k + 1]@),
        },
{
    let ghost all = rows@.map_values(|r: Vec<Cell>| r@);
    let mut out: Vec<SheetRow> = Vec::new();
    let mut j: usize = 1;
    while j < rows.len()
        invariant
            1 <= j,
            j <= rows@.len() || j == 1,
            rows@.len() < usize::MAX,
            all == rows@.map_values(|r: Vec<Cell>| r@),
            forall|m: int| 0 <= m < rows@.len() ==> (#[trigger] rows@[m])@.len() >= COLUMN_COUNT,
            forall|k: int| 1 <= k < j ==> (#[trigger] first_misfit(all[k])) is None,
            out@.len() == j - 1,
            forall|k: int| 0 <= k < out@.len() ==> read_from(#[trigger] out@[k], (k + 2) as usize, rows@[k + 1]@),
        decreases rows@.len() - j,
    {
        assert(all[j as int] == rows@[j as int]@);
        match read_row(j + 1, rows[j].as_slice()) {
            Ok(row) => {
                out.push(row);
            },
            Err(e) => {
                proof {
                    assert(first_misfit(all[j as int]) is Some);
                    let w = choose|w: int| 1 <= w < all.len() && first_misfit(all[w]) is Some && forall|k: int|
                        1 <= k < w ==> first_misfit(all[k]) is None;
                    if w < j {
                    } else if w > j {
                        assert(first_misfit(all[j as int]) is None);
                    }
                }
                return Err(e);
            },
        }
        j = j + 1;
    }
    proof {
        if rows@.len() > 0 {
            assert(j == rows@.len());
            assert(out@.len() == rows@.len() - 1);
        } else {
            assert(out@.len() == 0);
        }
        if exists|w: int| 1 <= w < all.len() && (#[trigger] first_misfit(all[w])) is Some {
            let w = choose|w: int| 1 <= w < all.len() && (#[trigger] first_misfit(all[w])) is Some;
            assert(first_misfit(all[w]) is None);
        }
    }
    Ok(out)
}

} // verus!
