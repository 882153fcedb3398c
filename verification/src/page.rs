//! Ink colours and artwork that a printed page refers to.

use vstd::prelude::*;

verus! {

/// An ink colour. The printed page is black on white with a few greys and one
/// red rule.
#[derive(Debug, Clone, Copy, PartialEq, Eq)]
pub struct Colour {
    pub red: u8,
    pub green: u8,
    pub blue: u8,
}

impl Colour {
    /// A neutral grey: the same level on every channel.
    pub fn grey(level: u8) -> (colour: Self)
        ensures
            colour.red == level,
            colour.green == level,
            colour.blue == level,
    {
        Self { red: level, green: level, blue: level }
    }

    /// A colour from its three channels.
    pub fn rgb(red: u8, green: u8, blue: u8) -> (colour: Self)
        ensures
            colour.red == red,
            colour.green == green,
            colour.blue == blue,
    {
        Self { red, green, blue }
    }
}

/// Artwork the page places but does not draw itself. The layout decides
/// where it goes and how big it is; each renderer draws it however it can.
#[derive(Debug, Clone, Copy, PartialEq, Eq, Structural)]
pub enum Art {
    /// The Matvare Expressen mark. White type beside a red bag, so it only
    /// ever sits on a dark panel.
    Wordmark,
}

} // verus!
