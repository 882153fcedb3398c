//! The settings file: what it says, and what it survives.

use std::collections::BTreeMap;

use breadify::crates::{CrateRules, STANDARD_SIZE};
use breadify::store;

fn labels() -> BTreeMap<u32, String> {
    [
        (7, "Ryfylkebrød Sandnes Oppdelt Bakeri".to_owned()),
        (9, "Emballerte Skoleboller 2 Pk Sandnes Bakeri".to_owned()),
    ]
    .into_iter()
    .collect()
}

fn rules() -> CrateRules {
    let mut rules = CrateRules {
        large_capacity: 12,
        small_capacity: 6,
        ..CrateRules::default()
    };
    rules.set_size(7, 50);
    rules.set_size(9, 200);
    rules
}

#[test]
fn what_is_written_is_what_comes_back() {
    let written = store::render(&rules(), &labels());
    assert_eq!(store::read(&written), rules());
}

#[test]
fn saving_twice_without_changing_anything_writes_the_same_bytes() {
    assert_eq!(
        store::render(&rules(), &labels()),
        store::render(&rules(), &labels()),
        "a HashMap's order must not reach the file"
    );
}

#[test]
fn the_names_are_there_for_the_reader_and_ignored_by_the_app() {
    let written = store::render(&rules(), &labels());
    assert!(
        written.contains("Ryfylkebrød Sandnes Oppdelt Bakeri"),
        "a person opening the file can tell which bread is which:\n{written}"
    );

    let nameless = store::render(&rules(), &BTreeMap::new());
    assert_eq!(store::read(&nameless), store::read(&written));
}

#[test]
fn a_bread_at_a_whole_slot_is_not_written_at_all() {
    let mut rules = CrateRules::default();
    rules.set_size(7, STANDARD_SIZE);
    let written = store::render(&rules, &labels());

    assert!(!written.contains("size 7"), "{written}");
    assert_eq!(store::read(&written), CrateRules::default());
}

#[test]
fn a_file_someone_has_edited_badly_is_read_for_what_it_has() {
    let text = "\
# a comment
large 8
small
small four
size 7 50   Ryfylkebrød
size nine 25
size 11
size 12 abc
nonsense line here

size 13 300
";
    let read = store::read(text);

    assert_eq!(read.large_capacity, 8, "the line that parsed took effect");
    assert_eq!(
        read.small_capacity,
        CrateRules::default().small_capacity,
        "the lines that did not keep the default"
    );
    assert_eq!(read.size_of(7), 50);
    assert_eq!(read.size_of(13), 300);
    assert_eq!(read.size_percent.len(), 2, "and nothing else got through");
}

#[test]
fn an_empty_file_is_the_defaults() {
    assert_eq!(store::read(""), CrateRules::default());
    assert_eq!(
        store::read("# nothing but a comment\n"),
        CrateRules::default()
    );
}

#[test]
fn the_file_lists_sizes_in_product_order_with_their_names() {
    let mut rules = CrateRules::default();
    rules.set_size(30, 25);
    rules.set_size(4, 150);
    rules.set_size(12, 50);
    let names: BTreeMap<u32, String> = [(12, "Rundstykker".to_owned())].into_iter().collect();
    let written = store::render(&rules, &names);

    let expected = "\
# Breadify — how the bakery's crates work.
#
# Written by the app when you change something on the Configure step, and safe
# to edit by hand. Sizes are a percentage of one slot: 50 is a half, 200 takes
# the room of two. A bread that is not listed is a whole slot.

large 10
small 5

# size <product id> <percent of one slot>   <name, for you not the app>
size 4 150
size 12 50   Rundstykker
size 30 25
";
    assert_eq!(written, expected);
}

#[test]
fn rules_with_no_sizes_say_so() {
    let written = store::render(&CrateRules::default(), &BTreeMap::new());
    assert!(written.ends_with("\nlarge 10\nsmall 5\n\n# Every bread is a whole slot.\n"), "{written}");
}

#[test]
fn the_names_in_a_file_are_read_back_for_the_next_save() {
    let text = "size 7 50   Ryfylkebrød Sandnes\n  size 9 200 Skoleboller\nsize 11 50\nlarge 8\n";
    let names = store::read_labels(text);
    assert_eq!(names.len(), 2);
    assert_eq!(names[&7], "Ryfylkebrød Sandnes");
    assert_eq!(names[&9], "Skoleboller");
}

#[test]
fn saving_over_a_file_keeps_its_names_unless_told_otherwise() {
    let previous = "size 7 50   Old name\nsize 9 200   Kept name\n";
    let names: BTreeMap<u32, String> = [(7, "New name".to_owned())].into_iter().collect();
    let written = store::rewritten(&rules(), previous, &names);
    assert!(written.contains("size 7 50   New name\n"), "{written}");
    assert!(written.contains("size 9 200   Kept name\n"), "{written}");
    assert_eq!(store::read(&written), rules());
}
