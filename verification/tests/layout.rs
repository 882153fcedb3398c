//! What a sheet knows about its place in the day.

use breadify::date;
use breadify::layout::SheetContext;
use breadify::route::Route;

#[test]
fn a_single_sheet_neither_continues_nor_is_continued() {
    let route = Route { nickname: "3".to_owned(), stops: Vec::new() };
    let dates = date::from_filename("PSR-BREAD-2026-03-04-to-2026-03-04.xlsx").ok();
    let context = SheetContext::single(&route, dates, "PSR-BREAD.xlsx");
    assert_eq!(context.page, 1);
    assert_eq!(context.pages, 1);
    assert_eq!(context.route_stops, 0);
    assert_eq!(context.source, "PSR-BREAD.xlsx");
    assert!(!context.is_continuation());
    assert!(!context.continues());

    let second = SheetContext { page: 2, pages: 3, ..context };
    assert!(second.is_continuation());
    assert!(second.continues());
}
