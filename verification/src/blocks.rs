//! The grid of blocks.
//!
//! The blocks stand in rows and columns. The rows are laid one after the
//! other from the first, and in each row the columns from the first.

use vstd::prelude::*;
use vstd::arithmetic::div_mod::{lemma_fundamental_div_mod_converse};

verus! {

/// A block's marker.
#[derive(Clone, Copy, Debug, PartialEq, Eq, Structural)]
pub struct Block;

/// The place of one block in the grid.
#[derive(Clone, Copy, Debug, PartialEq, Eq, Structural)]
pub struct Cell {
    pub row: i32,
    pub column: i32,
}

/// How many there are of a count that may be given below zero: none then.
pub open spec fn at_least_none(count: int) -> int {
    if count < 0 {
        0
    } else {
        count
    }
}

/// The cells of a grid of `rows` rows and `columns` columns in the order in
/// which the blocks are laid. A grid without rows or without columns has no
/// cells.
pub open spec fn grid(rows: int, columns: int) -> Seq<Cell> {
    Seq::new(
        (at_least_none(rows) * at_least_none(columns)) as nat,
        |k: int| Cell { row: (k / columns) as i32, column: (k % columns) as i32 },
    )
}

impl Block {
    /// The cells at which the blocks of a grid are to stand, in the order in
    /// which they are laid.
    pub fn spawn_blocks(rows: i32, columns: i32) -> (cells: Vec<Cell>)
        ensures
            cells@ == grid(rows as int, columns as int),
    {
        let mut cells: Vec<Cell> = Vec::new();
        let mut row: i32 = 0;
        while row < rows
            invariant
                0 <= row <= at_least_none(rows as int),
                cells@.len() == row * at_least_none(columns as int),
                forall|k: int|
                    0 <= k < cells@.len() ==> (#[trigger] cells@[k]).row == k / (columns as int)
                        && cells@[k].column == k % (columns as int),
            decreases rows - row,
        {
            let mut column: i32 = 0;
            while column < columns
                invariant
                    0 <= row < rows,
                    0 <= column <= at_least_none(columns as int),
                    cells@.len() == row * at_least_none(columns as int) + column,
                    forall|k: int|
                        0 <= k < cells@.len() ==> (#[trigger] cells@[k]).row == k / (
                        columns as int) && cells@[k].column == k % (columns as int),
                decreases columns - column,
            {
                proof {
                    lemma_fundamental_div_mod_converse(
                        row * columns + column,
                        columns as int,
                        row as int,
                        column as int,
                    );
                }
                cells.push(Cell { row, column });
                column = column + 1;
            }
            proof {
                assert(row * at_least_none(columns as int) + column == (row + 1) * at_least_none(
                    columns as int,
                )) by (nonlinear_arith)
                    requires
                        column == at_least_none(columns as int),
                ;
            }
            row = row + 1;
        }
        proof {
            assert(row == at_least_none(rows as int));
            assert(cells@ =~= grid(rows as int, columns as int));
        }
        cells
    }
}

/// A grid has a cell for each row and column, and no other: the cell of
/// row `row` and column `column` is the one laid after `row` full rows and
/// `column` cells of its own row.
pub proof fn lemma_grid_holds_each_cell_once(rows: int, columns: int, row: int, column: int)
    requires
        0 <= row < rows <= i32::MAX,
        0 <= column < columns <= i32::MAX,
    ensures
        grid(rows, columns).len() == rows * columns,
        0 <= row * columns + column < grid(rows, columns).len(),
        grid(rows, columns)[row * columns + column] == (Cell {
            row: row as i32,
            column: column as i32,
        }),
{
    lemma_fundamental_div_mod_converse(row * columns + column, columns, row, column);
    assert(0 <= row * columns + column < rows * columns) by (nonlinear_arith)
        requires
            0 <= row < rows,
            0 <= column < columns,
    ;
}

} // verus!
