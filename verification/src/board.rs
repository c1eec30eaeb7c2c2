//! The 3x3 tic-tac-toe grid.
//!
//! A [`Board`] is a row-major sequence of nine cells; its view is that
//! sequence. Marking is the only mutation, and it either fills one empty
//! cell or reports why it cannot.

use vstd::prelude::*;

verus! {

/// One cell of the 3x3 grid.
#[derive(Debug, Clone, Copy, PartialEq, Eq, Hash, Structural)]
pub enum Cell {
    X,
    O,
    Empty,
}

/// Why a request to mark a cell was rejected: the coordinates point
/// outside the grid, or the cell is already taken.
#[derive(Debug, Clone, Copy, PartialEq, Eq, Structural)]
pub enum BoardMarkError {
    OutOfBound,
    NonEmptyCell,
}

/// A 3x3 tic-tac-toe board, stored row-major: cell (row, col) lives at
/// index `3 * row + col`.
#[derive(Debug, Hash, Eq)]
pub struct Board {
    cells: Vec<Cell>,
}

impl View for Board {
    type V = Seq<Cell>;

    closed spec fn view(&self) -> Seq<Cell> {
        self.cells@
    }
}

impl PartialEq for Board {
    fn eq(&self, other: &Board) -> (r: bool) {
        if self.cells.len() != other.cells.len() {
            return false;
        }
        let mut i: usize = 0;
        while i < self.cells.len()
            invariant
                self.cells@.len() == other.cells@.len(),
                i <= self.cells@.len(),
                forall|j: int| 0 <= j < i ==> self.cells@[j] == other.cells@[j],
            decreases self.cells@.len() - i,
        {
            let a = self.cells[i];
            let b = other.cells[i];
            if a != b {
                return false;
            }
            i = i + 1;
        }
        proof {
            assert(self@ =~= other@);
        }
        true
    }
}

impl vstd::std_specs::cmp::PartialEqSpecImpl for Board {
    open spec fn obeys_eq_spec() -> bool {
        true
    }

    open spec fn eq_spec(&self, other: &Board) -> bool {
        self@ == other@
    }
}

impl Clone for Board {
    /// Copies the board cell by cell; the copy views equal.
    fn clone(&self) -> (r: Board)
        ensures
            r@ == self@,
    {
        let mut cells: Vec<Cell> = Vec::new();
        let mut i: usize = 0;
        while i < self.cells.len()
            invariant
                i <= self.cells@.len(),
                cells@ == self.cells@.take(i as int),
            decreases self.cells@.len() - i,
        {
            cells.push(self.cells[i]);
            proof {
                assert(cells@ =~= self.cells@.take(i + 1 as int));
            }
            i = i + 1;
        }
        proof {
            assert(cells@ =~= self.cells@);
        }
        Board { cells }
    }
}

impl Board {
    /// A board always holds exactly nine cells.
    pub open spec fn wf(&self) -> bool {
        self@.len() == 9
    }

    /// Constructs an empty board.
    pub fn new() -> (b: Board)
        ensures
            b.wf(),
            forall|i: int| 0 <= i < 9 ==> b@[i] == Cell::Empty,
    {
        let mut cells: Vec<Cell> = Vec::new();
        cells.push(Cell::Empty);
        cells.push(Cell::Empty);
        cells.push(Cell::Empty);
        cells.push(Cell::Empty);
        cells.push(Cell::Empty);
        cells.push(Cell::Empty);
        cells.push(Cell::Empty);
        cells.push(Cell::Empty);
        cells.push(Cell::Empty);
        Board { cells }
    }

    /// Writes `mark` into the cell at (`row_index`, `col_index`).
    /// Fails without touching the board when the location is outside the
    /// grid or the cell is not empty.
    pub fn mark(&mut self, mark: Cell, row_index: usize, col_index: usize) -> (r: Result<
        (),
        &'static str,
    >)
        requires
            old(self).wf(),
        ensures
            final(self).wf(),
            row_index > 2 || col_index > 2 ==> (r matches Err(m) && m@
                == "Index out-of-bound."@ && final(self)@ == old(self)@),
            row_index <= 2 && col_index <= 2 && old(self)@[3 * row_index + col_index]
                != Cell::Empty ==> (r matches Err(m) && m@
                == "Cannot mark a non-empty cell."@ && final(self)@ == old(self)@),
            row_index <= 2 && col_index <= 2 && old(self)@[3 * row_index + col_index]
                == Cell::Empty ==> (r matches Ok(u) && final(self)@ == old(self)@.update(
                3 * row_index + col_index,
                mark,
            )),
    {
        if row_index > 2 || col_index > 2 {
            return Err("Index out-of-bound.");
        }
        let idx = 3 * row_index + col_index;
        match self.cells[idx] {
            Cell::Empty => {
                self.cells[idx] = mark;
                Ok(())
            },
            _ => Err("Cannot mark a non-empty cell."),
        }
    }

    /// Reads the cell at (`row_index`, `col_index`), or fails when the
    /// location is outside the grid.
    pub fn get_cell(&self, row_index: usize, col_index: usize) -> (r: Result<Cell, &'static str>)
        requires
            self.wf(),
        ensures
            row_index <= 2 && col_index <= 2 ==> r == Ok::<Cell, &'static str>(
                self@[3 * row_index + col_index],
            ),
            row_index > 2 || col_index > 2 ==> (r matches Err(m) && m@
                == "Board index out of bound."@),
    {
        if row_index > 2 || col_index > 2 {
            return Err("Board index out of bound.");
        }
        Ok(self.cells[3 * row_index + col_index])
    }
}

} // verus!
