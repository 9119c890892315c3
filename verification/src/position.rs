//! Domain values and the N-Queens constraint oracle.

use vstd::prelude::*;

verus! {

/// The value of one variable: nothing yet, or a column of the board.
#[derive(PartialEq, Eq, Structural, Clone, Copy, Debug)]
pub enum Position {
    Unass,
    Col(usize),
}

/// Two queens, given as (row, column), attack each other when they share a
/// column or a diagonal.
pub open spec fn attacks(ar: int, ac: int, br: int, bc: int) -> bool {
    ac == bc || ar - br == ac - bc || ar - br == bc - ac
}

/// The constraint between two variables: an unassigned side never
/// conflicts, two columns conflict exactly when the queens attack.
pub open spec fn spec_consistent(ar: usize, ac: Position, br: usize, bc: Position) -> bool {
    match (ac, bc) {
        (Position::Col(a), Position::Col(b)) => !attacks(ar as int, a as int, br as int, b as int),
        _ => true,
    }
}

/// The constraint does not depend on the order in which the two
/// assignments are given.
pub proof fn lemma_consistent_symmetric(ar: usize, ac: Position, br: usize, bc: Position)
    ensures
        spec_consistent(ar, ac, br, bc) == spec_consistent(br, bc, ar, ac),
{
}

/// Decides whether the assignments of two variables are compatible.
pub fn consistent(ar: usize, ac: Position, br: usize, bc: Position) -> (ok: bool)
    ensures
        ok == spec_consistent(ar, ac, br, bc),
{
    match ac {
        Position::Unass => true,
        Position::Col(cola) => match bc {
            Position::Unass => true,
            Position::Col(colb) => {
                if cola == colb {
                    return false;
                }
                let rows: usize = if ar >= br { ar - br } else { br - ar };
                let cols: usize = if cola >= colb { cola - colb } else { colb - cola };
                rows != cols
            },
        },
    }
}

} // verus!
