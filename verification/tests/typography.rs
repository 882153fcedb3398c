//! The faces the page sets type in.

use breadify::font::{Face, ALL};
use breadify::layout::{MarkerTreatment, Settings, ALL_TREATMENTS};
use breadify::page::Colour;

#[test]
fn the_weights_are_the_ones_the_design_asks_for() {
    let weights: Vec<u16> = ALL.iter().map(|face| face.weight()).collect();
    assert_eq!(weights, [800, 900, 400, 500, 400, 500, 600, 700]);
}

#[test]
fn every_face_names_its_family() {
    assert_eq!(Face::ArchivoBlack.family(), "Archivo");
    assert_eq!(Face::SpaceGroteskMedium.family(), "Space Grotesk");
    assert_eq!(Face::MonoSemiBold.family(), "IBM Plex Mono");
}

#[test]
fn each_marker_treatment_says_what_it_draws() {
    let labels: Vec<&str> = ALL_TREATMENTS.iter().map(|t| t.label()).collect();
    assert_eq!(labels, ["Inverted badge", "Heavy left rule", "Word only"]);
    assert!(MarkerTreatment::InvertedBadge.has_badge() && MarkerTreatment::InvertedBadge.has_rule());
    assert!(!MarkerTreatment::HeavyRule.has_badge() && MarkerTreatment::HeavyRule.has_rule());
    assert!(!MarkerTreatment::WordOnly.has_badge() && !MarkerTreatment::WordOnly.has_rule());
    let settings = Settings::default();
    assert!(settings.show_order_id);
    assert_eq!(settings.marker, MarkerTreatment::InvertedBadge);
}

#[test]
fn a_grey_is_the_same_on_every_channel() {
    assert_eq!(Colour::grey(80), Colour::rgb(80, 80, 80));
}
