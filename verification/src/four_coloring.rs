//! The palette of four colours.

use vstd::prelude::*;

verus! {

#[derive(PartialEq, Eq, Structural, Clone, Copy, Debug)]
pub enum Color {
    Red,
    Blue,
    Green,
    Yellow,
}

impl Color {
    /// The palette, in the order in which colours are offered.
    pub open spec fn palette() -> Seq<Color> {
        seq![Color::Red, Color::Blue, Color::Green, Color::Yellow]
    }

    /// Size of the palette.
    pub fn num_colors() -> (n: usize)
        ensures
            n == 4,
            n == Self::palette().len(),
    {
        4
    }

    /// Every colour of the palette, once, in palette order.
    pub fn vector_of_colors() -> (v: Vec<Color>)
        ensures
            v@ == Self::palette(),
    {
        let v = vec![Color::Red, Color::Blue, Color::Green, Color::Yellow];
        assert(v@ =~= Self::palette());
        v
    }
}

} // verus!
