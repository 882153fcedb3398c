//! What the user gets to change about the printed page.
//!
//! The printed form is fixed, so this is a short list on purpose: whether the
//! order id shows, how a refusal to accept substitutes is marked, and the
//! crate arithmetic.

use vstd::prelude::*;

use crate::crates::CrateRules;

verus! {

/// How the no-substitutes state is drawn. The quiet state is the same in
/// every case; these are the three treatments the design offers for the loud
/// one.
#[derive(Debug, Clone, Copy, PartialEq, Eq, Structural)]
pub enum MarkerTreatment {
    /// White on solid black, with a heavy bar down the block. Two channels,
    /// so it survives a photocopy.
    InvertedBadge,
    /// The bar alone.
    HeavyRule,
    /// The words alone, in the heading.
    WordOnly,
}

impl Default for MarkerTreatment {
    /// The badge, which survives a photocopy.
    fn default() -> (treatment: Self)
        ensures
            treatment == MarkerTreatment::InvertedBadge,
    {
        MarkerTreatment::InvertedBadge
    }
}

/// Every treatment, in the order the Configure step offers them.
pub const ALL_TREATMENTS: [MarkerTreatment; 3] = [
    MarkerTreatment::InvertedBadge,
    MarkerTreatment::HeavyRule,
    MarkerTreatment::WordOnly,
];

impl MarkerTreatment {
    /// The name the Configure step gives it.
    pub fn label(self) -> (label: &'static str)
        ensures
            label@ == match self {
                MarkerTreatment::InvertedBadge => "Inverted badge"@,
                MarkerTreatment::HeavyRule => "Heavy left rule"@,
                MarkerTreatment::WordOnly => "Word only"@,
            },
    {
        match self {
            MarkerTreatment::InvertedBadge => "Inverted badge",
            MarkerTreatment::HeavyRule => "Heavy left rule",
            MarkerTreatment::WordOnly => "Word only",
        }
    }

    /// Whether this treatment inverts the words into a filled badge.
    pub open spec fn badged(self) -> bool {
        self == MarkerTreatment::InvertedBadge
    }

    /// Whether this treatment runs a bar down the side of the block.
    pub open spec fn ruled(self) -> bool {
        self == MarkerTreatment::InvertedBadge || self == MarkerTreatment::HeavyRule
    }

    /// Whether this treatment inverts the words into a filled badge.
    pub fn has_badge(self) -> (badge: bool)
        ensures
            badge == self.badged(),
    {
        match self {
            MarkerTreatment::InvertedBadge => true,
            _ => false,
        }
    }

    /// Whether this treatment runs a bar down the side of the block.
    pub fn has_rule(self) -> (rule: bool)
        ensures
            rule == self.ruled(),
    {
        match self {
            MarkerTreatment::InvertedBadge | MarkerTreatment::HeavyRule => true,
            MarkerTreatment::WordOnly => false,
        }
    }
}

/// The badge keeps the bar, the heavy rule is the bar alone, and only the
/// words alone have neither: every treatment but the word has a bar.
pub proof fn lemma_badge_keeps_the_bar(t: MarkerTreatment)
    ensures
        t.ruled() <==> t != MarkerTreatment::WordOnly,
        t.badged() ==> t.ruled(),
        t == MarkerTreatment::HeavyRule ==> t.ruled() && !t.badged(),
{
}

/// Everything the user can change about a printed sheet.
#[derive(Debug, Clone)]
pub struct Settings {
    /// The one field that is the user's to show or hide.
    pub show_order_id: bool,
    pub marker: MarkerTreatment,
    pub crates: CrateRules,
}

impl Default for Settings {
    /// The order id shown, the badge, and the default crates.
    fn default() -> (settings: Self)
        ensures
            settings.show_order_id,
            settings.marker == MarkerTreatment::InvertedBadge,
            settings.crates.large_capacity == 10,
            settings.crates.small_capacity == 5,
            settings.crates.size_percent@ == Map::<u32, u32>::empty(),
    {
        Settings {
            show_order_id: true,
            marker: MarkerTreatment::InvertedBadge,
            crates: CrateRules::default(),
        }
    }
}

/// The fields that print whatever the user says, in the order the page sets
/// them.
pub const ALWAYS_PRINTED: [&'static str; 6] = [
    "Quantity",
    "Product Name",
    "Customer",
    "Department",
    "Accept alternatives",
    "Route nickname",
];

/// The field that is never printed, and why.
pub const NEVER_PRINTED: (&'static str, &'static str) = ("Route ordering", "the list order says it");

} // verus!
