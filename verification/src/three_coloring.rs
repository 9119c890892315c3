//! The palette of three colours.

use vstd::prelude::*;

verus! {

#[derive(PartialEq, Eq, Structural, Clone, Copy, Debug)]
pub enum Color {
    Red,
    Blue,
    Green,
}

impl Color {
    /// The palette, in the order in which colours are offered.
    pub open spec fn palette() -> Seq<Color> {
        seq![Color::Red, Color::Blue, Color::Green]
    }

    /// Size of the palette.
    pub fn num_colors() -> (n: usize)
        ensures
            n == 3,
            n == Self::palette().len(),
    {
        3
    }

    /// Every colour of the palette, once, in palette order.
    pub fn vector_of_colors() -> (v: Vec<Color>)
        ensures
            v@ == Self::palette(),
    {
        let v = vec![Color::Red, Color::Blue, Color::Green];
        assert(v@ =~= Self::palette());
        v
    }
}

} // verus!
