//! Which list an export is, and what follows from it.

use breadify::list::Kind;

#[test]
fn a_nameless_file_is_bread() {
    assert_eq!(Kind::of("orders.xlsx"), Kind::Bread);
    assert_eq!(Kind::of(""), Kind::Bread);
}

#[test]
fn the_word_is_read_whatever_its_case() {
    assert_eq!(Kind::from_word("bread"), Kind::Bread);
    assert_eq!(Kind::from_word("Freezer"), Kind::Freezer);
    assert_eq!(Kind::from_word("FREEZER"), Kind::Freezer);
}

#[test]
fn only_bread_has_crates() {
    assert!(Kind::Bread.has_crates());
    assert!(!Kind::Freezer.has_crates());
    assert!(!Kind::Other("DRY".to_owned()).has_crates());
}

#[test]
fn every_kind_can_name_itself() {
    assert_eq!(Kind::Bread.to_text(), "Bread");
    assert_eq!(Kind::Freezer.to_text(), "Freezer");
    assert_eq!(Kind::Other("DRY-GOODS".to_owned()).to_text(), "Dry-goods");
    assert_eq!(Kind::Freezer.word(), "FREEZER");
}

#[test]
fn an_unknown_word_is_kept_as_written() {
    assert_eq!(Kind::from_word("Dry"), Kind::Other("Dry".to_owned()));
    assert_eq!(Kind::Other("Dry".to_owned()).word(), "Dry");
    assert_eq!(Kind::of("PSR-DRY-2026-01-23-to-2026-01-23.xlsx"), Kind::Other("DRY".to_owned()));
}

#[test]
fn each_kind_has_its_modifier() {
    assert_eq!(Kind::Bread.modifier(), "bread");
    assert_eq!(Kind::Freezer.modifier(), "frozen");
    assert_eq!(Kind::Other("DRY".to_owned()).modifier(), "");
    assert!(!Kind::Bread.names_itself());
    assert!(Kind::Freezer.names_itself());
}

#[test]
fn the_word_of_a_kind_reads_back_as_that_kind() {
    for kind in [Kind::Bread, Kind::Freezer, Kind::Other("DRY".to_owned())] {
        assert_eq!(Kind::from_word(kind.word()), kind);
    }
    assert_eq!(Kind::Bread.word(), "BREAD");
}
