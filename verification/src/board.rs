//! Assignment vectors and the matching of nogoods against them.

use vstd::prelude::*;
use crate::position::Position;

verus! {

/// An assignment vector: one domain value for each agent, by agent id.
/// An agent's board is its local view of all agents; a nogood is a board
/// that covers only a prefix of the ids.
#[derive(Debug)]
pub struct Board {
    pub cells: Vec<Position>,
}

impl View for Board {
    type V = Seq<Position>;

    open spec fn view(&self) -> Seq<Position> {
        self.cells@
    }
}

impl Board {
    /// A board of `n` cells that all hold `fill`.
    pub fn new(n: usize, fill: Position) -> (board: Board)
        ensures
            board@ == Seq::new(n as nat, |i: int| fill),
    {
        let mut cells: Vec<Position> = Vec::new();
        let mut i: usize = 0;
        while i < n
            invariant
                i <= n,
                cells@ == Seq::new(i as nat, |k: int| fill),
            decreases n - i,
        {
            cells.push(fill);
            assert(cells@ =~= Seq::new((i + 1) as nat, |k: int| fill));
            i += 1;
        }
        Board { cells }
    }

    pub fn len(&self) -> (n: usize)
        ensures
            n == self@.len(),
    {
        self.cells.len()
    }

    /// The value of agent `i`.
    pub fn get(&self, i: usize) -> (p: Position)
        requires
            i < self@.len(),
        ensures
            p == self@[i as int],
    {
        self.cells[i]
    }

    /// Overwrites the value of agent `i`.
    pub fn set(&mut self, i: usize, p: Position)
        requires
            i < old(self)@.len(),
        ensures
            final(self)@ == old(self)@.update(i as int, p),
    {
        self.cells[i] = p;
        assert(self.cells@ =~= old(self)@.update(i as int, p));
    }

    /// The values of the agents `0..end`.
    pub fn prefix(&self, end: usize) -> (head: Board)
        requires
            end <= self@.len(),
        ensures
            head@ == self@.take(end as int),
    {
        let mut cells: Vec<Position> = Vec::new();
        let mut i: usize = 0;
        while i < end
            invariant
                i <= end <= self@.len(),
                cells@ == self@.take(i as int),
            decreases end - i,
        {
            cells.push(self.cells[i]);
            assert(cells@ =~= self@.take(i + 1));
            i += 1;
        }
        Board { cells }
    }

    /// A board with the same values.
    pub fn copy(&self) -> (twin: Board)
        ensures
            twin@ == self@,
    {
        let twin = self.prefix(self.cells.len());
        assert(self@.take(self@.len() as int) =~= self@);
        twin
    }

    /// Whether two boards hold the same values at the same ids.
    pub fn same(&self, other: &Board) -> (eq: bool)
        ensures
            eq == (self@ == other@),
    {
        if self.cells.len() != other.cells.len() {
            return false;
        }
        let mut i: usize = 0;
        while i < self.cells.len()
            invariant
                i <= self@.len(),
                self@.len() == other@.len(),
                forall|k: int| 0 <= k < i ==> self@[k] == other@[k],
            decreases self@.len() - i,
        {
            if self.cells[i] != other.cells[i] {
                return false;
            }
            i += 1;
        }
        assert(self@ =~= other@);
        true
    }
}

/// A nogood applies to a board when each value that the nogood fixes is
/// the value that the board holds at the same id. A cell that the nogood
/// leaves unassigned fits any value; a cell that the board leaves
/// unassigned fits none that the nogood fixes. Ids beyond the shorter of
/// the two are not compared.
pub open spec fn spec_eq_part_ass(nogood: Seq<Position>, board: Seq<Position>) -> bool {
    forall|i: int|
        0 <= i < nogood.len() && i < board.len() && nogood[i] != Position::Unass ==> #[trigger] board[i]
            == nogood[i]
}

/// Decides whether `nogood` applies to `curr_board`.
pub fn eq_part_ass(nogood: &Board, curr_board: &Board) -> (hit: bool)
    ensures
        hit == spec_eq_part_ass(nogood@, curr_board@),
{
    let small_length = if nogood.len() < curr_board.len() {
        nogood.len()
    } else {
        curr_board.len()
    };
    let mut i: usize = 0;
    while i < small_length
        invariant
            i <= small_length,
            small_length <= nogood@.len(),
            small_length <= curr_board@.len(),
            small_length == nogood@.len() || small_length == curr_board@.len(),
            forall|k: int|
                0 <= k < i && nogood@[k] != Position::Unass ==> #[trigger] curr_board@[k] == nogood@[k],
        decreases small_length - i,
    {
        match nogood.get(i) {
            Position::Unass => {},
            Position::Col(col1) => {
                match curr_board.get(i) {
                    Position::Unass => {
                        assert(curr_board@[i as int] != nogood@[i as int]);
                        return false;
                    },
                    Position::Col(col2) => {
                        if col1 != col2 {
                            assert(curr_board@[i as int] != nogood@[i as int]);
                            return false;
                        }
                    },
                }
            },
        }
        i += 1;
    }
    true
}

} // verus!
