//! The bakeries as the page names them.

use breadify::supplier;

#[test]
fn the_known_bakeries_have_their_codes_and_names() {
    assert_eq!(supplier::code("sandnes bakeri"), "SB");
    assert_eq!(supplier::code("Bakehuset"), "BH");
    assert_eq!(supplier::display_name("SANDNES BAKERI"), "Sandnes Bakeri");
}

#[test]
fn a_new_bakery_gets_its_initials_in_capitals() {
    assert_eq!(supplier::code("nye bakst"), "NB");
    assert_eq!(supplier::code("kornmo"), "KO");
    assert_eq!(supplier::code("å"), "Å");
    assert_eq!(supplier::display_name("nye  bakst"), "Nye Bakst");
}

#[test]
fn new_bakeries_print_after_the_known_ones() {
    assert_eq!(supplier::column_position("Bakehuset"), (1, "bakehuset".to_owned()));
    assert_eq!(supplier::column_position("Nye Bakst"), (2, "nye bakst".to_owned()));
}
