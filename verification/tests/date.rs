//! Reading the delivery date, and which list it is, out of an export's
//! filename.

use breadify::date::{self, Date, ExportKind};
use breadify::list::Kind;

#[test]
fn a_name_without_a_download_suffix_reads_the_same() {
    let dates = date::from_filename("PSR-BREAD-2026-03-04-to-2026-03-04.xlsx")
        .expect("the plain name parses");

    assert_eq!(dates.to_text(), "2026-03-04");
}

#[test]
fn a_span_of_days_keeps_both_ends() {
    let dates = date::from_filename("PSR-BREAD-2026-03-04-to-2026-03-06.xlsx")
        .expect("a span parses");

    assert!(!dates.is_single_day());
    assert_eq!(dates.to_text(), "2026-03-04 to 2026-03-06");
}

#[test]
fn an_unrecognisable_name_asks_rather_than_guesses() {
    for name in [
        "orders.xlsx",
        "PSR-BREAD-2026-03-04.xlsx",
        "PSR-BREAD-2026-13-04-to-2026-03-06.xlsx",
        "PSR-BREAD-not-a-date-to-2026-03-06.xlsx",
        "PSR-FREEZER-2026-01-23.xlsx",
    ] {
        let outcome = date::from_filename(name);
        assert!(outcome.is_err(), "{name} should not parse");
        assert_eq!(outcome.unwrap_err().filename, name);
    }
}

#[test]
fn a_second_download_is_still_a_single_day() {
    let dates = date::from_filename("PSR-BREAD-2026-03-04-to-2026-03-04 (1).xlsx")
        .expect("the download suffix is dropped");
    assert_eq!(
        dates.from,
        Date {
            year: 2026,
            month: 3,
            day: 4
        }
    );
    assert!(dates.is_single_day());
}

#[test]
fn a_freezer_name_carries_its_dates_the_same_way() {
    let dates = date::from_filename("PSR-FREEZER-2026-01-23-to-2026-01-23.xlsx")
        .expect("the freezer list is named the same way");
    assert_eq!(dates.from, Date { year: 2026, month: 1, day: 23 });
    assert_eq!(Kind::of("PSR-FREEZER-2026-01-23-to-2026-01-23.xlsx"), Kind::Freezer);
}

#[test]
fn days_and_years_are_padded_like_iso() {
    let day = Date { year: 726, month: 1, day: 9 };
    assert_eq!(day.to_text(), "0726-01-09");
}

#[test]
fn a_bad_name_is_quoted_when_it_is_explained() {
    let error = date::from_filename("orders.xlsx").unwrap_err();
    assert_eq!(
        error.to_text(),
        "\"orders.xlsx\" does not look like an export: expected PSR-BREAD-<from>-to-<to>.xlsx"
    );
}

#[test]
fn the_list_word_comes_after_the_prefix() {
    assert_eq!(date::list_word("PSR-BREAD-2026-03-04-to-2026-03-04.xlsx").as_deref(), Some("BREAD"));
    assert_eq!(date::list_word("orders.xlsx"), None);
    assert_eq!(date::list_word("PSR--2026.xlsx"), None);
}

#[test]
fn the_filename_says_which_list_it_is() {
    assert_eq!(
        date::export_kind("PSR-BREAD-2026-03-04-to-2026-03-04.xlsx"),
        Some(ExportKind::Bread)
    );
    assert_eq!(
        date::export_kind("PSR-FREEZER-2026-01-23-to-2026-01-23.xlsx"),
        Some(ExportKind::Freezer)
    );
    assert_eq!(date::export_kind("orders.xlsx"), None);
}

#[test]
fn a_list_that_is_neither_export_has_no_export_kind() {
    assert_eq!(date::export_kind("psr-freezer-2026-01-23.xlsx"), None);
    assert_eq!(date::export_kind("PSR-freezer-2026-01-23.xlsx"), Some(ExportKind::Freezer));
    assert_eq!(date::export_kind("PSR-DRY-2026-01-23.xlsx"), None);
}
