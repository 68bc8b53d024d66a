//! How edges are inked: the palette slot per tag combination, or none when
//! colour is off, and how a cell where two unrelated edges cross is drawn.

use vstd::prelude::*;

use crate::layout::{EdgeColour, PALETTE_SIZE};

verus! {

/// How a cell where two unrelated edges cross is drawn.
#[derive(Debug, Clone, Copy, PartialEq, Eq, Structural)]
pub enum CrossingStyle {
    /// `───┼───`: the union of both edges' bits.
    Cross,
    /// `──╴│╶──`: the vertical passes over, the horizontal breaks either side.
    Bridge,
}

impl Default for CrossingStyle {
    fn default() -> (c: Self)
        ensures
            c == CrossingStyle::Cross,
    {
        CrossingStyle::Cross
    }
}

/// Edge colours by tag combination; monochrome when colour is off.
#[derive(Debug, Clone, Copy, PartialEq, Eq, Structural)]
pub struct Palette {
    colour: bool,
    crossing: CrossingStyle,
}

impl View for Palette {
    type V = (bool, CrossingStyle);

    /// Whether edges take hues, and how crossings are drawn.
    closed spec fn view(&self) -> (bool, CrossingStyle) {
        (self.colour, self.crossing)
    }
}

impl Default for Palette {
    fn default() -> (p: Self)
        ensures
            p@ == (true, CrossingStyle::Bridge),
    {
        Palette { colour: true, crossing: CrossingStyle::Bridge }
    }
}

/// What an edge of one colour slot is inked with.
#[derive(Debug, Clone, Copy, PartialEq, Eq, Structural)]
pub enum Ink {
    /// The slot's hue, an index into the six hues.
    Hue(u8),
    /// Bold, for a tagged edge when colour is off.
    Bold,
    /// Dim, for an untagged edge.
    Dim,
}

impl Palette {
    /// Colour unless the CLI flag or a non-empty `NO_COLOR` in the
    /// environment turns it off.
    pub fn detected(no_color: bool, env_no_color: bool) -> (p: Self)
        ensures
            p@ == (!(no_color || env_no_color), CrossingStyle::Bridge),
    {
        Palette { colour: !(no_color || env_no_color), ..Palette::default() }
    }

    pub fn monochrome() -> (p: Self)
        ensures
            p@ == (false, CrossingStyle::Bridge),
    {
        Palette { colour: false, ..Palette::default() }
    }

    pub fn with_crossing(self, crossing: CrossingStyle) -> (p: Self)
        ensures
            p@ == (self@.0, crossing),
    {
        Palette { crossing, ..self }
    }

    pub fn crossing(self) -> (c: CrossingStyle)
        ensures
            c == self@.1,
    {
        self.crossing
    }

    /// Untagged edges are dim; tagged edges take their slot's hue, or are
    /// bold when colour is off.
    pub fn ink(self, c: Option<EdgeColour>) -> (i: Ink)
        ensures
            i == match c {
                Some(k) => if self@.0 { Ink::Hue((k.0 % PALETTE_SIZE) as u8) } else { Ink::Bold },
                None => Ink::Dim,
            },
    {
        match c {
            Some(k) => if self.colour { Ink::Hue(k.0 % PALETTE_SIZE) } else { Ink::Bold },
            None => Ink::Dim,
        }
    }
}

} // verus!
