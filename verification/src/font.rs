//! The typefaces the printed page sets type in.
//!
//! Archivo carries headings and anything that must be found at arm's length,
//! Space Grotesk the reading text, and IBM Plex Mono anything a machine
//! produced: quantities, codes, dates, identifiers.

use vstd::prelude::*;

verus! {

/// A face the page can set type in.
#[derive(Debug, Clone, Copy, PartialEq, Eq, Structural, Hash)]
pub enum Face {
    /// Customer names, department labels, badges.
    ArchivoExtraBold,
    /// The route number in the masthead.
    ArchivoBlack,
    /// Product names.
    SpaceGrotesk,
    /// Product names that need a little more weight.
    SpaceGroteskMedium,
    MonoRegular,
    MonoMedium,
    MonoSemiBold,
    MonoBold,
}

/// Every face, for tests and for embedding.
pub const ALL: [Face; 8] = [
    Face::ArchivoExtraBold,
    Face::ArchivoBlack,
    Face::SpaceGrotesk,
    Face::SpaceGroteskMedium,
    Face::MonoRegular,
    Face::MonoMedium,
    Face::MonoSemiBold,
    Face::MonoBold,
];

impl Face {
    /// The family name the font file declares.
    pub open spec fn family_of(self) -> Seq<char> {
        match self {
            Face::ArchivoExtraBold | Face::ArchivoBlack => "Archivo"@,
            Face::SpaceGrotesk | Face::SpaceGroteskMedium => "Space Grotesk"@,
            _ => "IBM Plex Mono"@,
        }
    }

    /// The CSS weight the design asks for.
    pub open spec fn weight_of(self) -> u16 {
        match self {
            Face::ArchivoExtraBold => 800,
            Face::ArchivoBlack => 900,
            Face::SpaceGrotesk | Face::MonoRegular => 400,
            Face::SpaceGroteskMedium | Face::MonoMedium => 500,
            Face::MonoSemiBold => 600,
            Face::MonoBold => 700,
        }
    }

    /// The family name the file declares.
    pub fn family(self) -> (family: &'static str)
        ensures
            family@ == self.family_of(),
    {
        match self {
            Face::ArchivoExtraBold | Face::ArchivoBlack => "Archivo",
            Face::SpaceGrotesk | Face::SpaceGroteskMedium => "Space Grotesk",
            _ => "IBM Plex Mono",
        }
    }

    /// The CSS weight the design asks for.
    pub fn weight(self) -> (weight: u16)
        ensures
            weight == self.weight_of(),
    {
        match self {
            Face::ArchivoExtraBold => 800,
            Face::ArchivoBlack => 900,
            Face::SpaceGrotesk | Face::MonoRegular => 400,
            Face::SpaceGroteskMedium | Face::MonoMedium => 500,
            Face::MonoSemiBold => 600,
            Face::MonoBold => 700,
        }
    }
}

} // verus!
