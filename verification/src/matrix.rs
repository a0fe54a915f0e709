//! The table of chances, kept in a matrix of `nalgebra`.

use vstd::prelude::*;
use crate::probability::Probability;

verus! {

/// A table of chances with a row and a column for each position. Its cells
/// lie in a dynamically sized matrix of `nalgebra`, which Verus does not look
/// into: what it holds is known by [`table_rows`].
#[verifier::external_body]
pub struct Markov {
    cells: nalgebra::DMatrix<Probability>,
}

/// The cells of the table, row by row.
pub uninterp spec fn table_rows(markov: Markov) -> Seq<Seq<Probability>>;

impl Markov {
    /// `nalgebra::DMatrix::from_element`: a matrix of `size` rows and `size`
    /// columns that holds `cell` in every place. It allocates `size * size`
    /// cells of sixteen bytes, which must not be more than a vector can hold.
    #[verifier::external_body]
    pub(crate) fn filled(size: usize, cell: Probability) -> (markov: Markov)
        requires
            size * size * 16 <= isize::MAX,
        ensures
            table_rows(markov) == Seq::new(
                size as nat,
                |row: int| Seq::new(size as nat, |column: int| cell),
            ),
    {
        Markov { cells: nalgebra::DMatrix::from_element(size, size, cell) }
    }

    /// Assignment to `nalgebra::Matrix` indexed by a pair, which panics
    /// outside the matrix: the place in row `row` and column `column` takes
    /// `cell`, and every other place keeps what it held.
    #[verifier::external_body]
    pub(crate) fn put(&mut self, row: usize, column: usize, cell: Probability)
        requires
            row < table_rows(*old(self)).len(),
            column < table_rows(*old(self))[row as int].len(),
        ensures
            table_rows(*final(self)) == table_rows(*old(self)).update(
                row as int,
                table_rows(*old(self))[row as int].update(column as int, cell),
            ),
    {
        self.cells[(row, column)] = cell;
    }

    /// `nalgebra::Matrix` indexed by a pair, which panics outside the matrix:
    /// what the place in row `row` and column `column` holds.
    #[verifier::external_body]
    pub(crate) fn cell(&self, row: usize, column: usize) -> (cell: Probability)
        requires
            row < table_rows(*self).len(),
            column < table_rows(*self)[row as int].len(),
        ensures
            cell == table_rows(*self)[row as int][column as int],
    {
        self.cells[(row, column)]
    }

    /// `nalgebra::Matrix::shape`: the number of rows, and the number of
    /// columns, which is the length of every row.
    #[verifier::external_body]
    pub(crate) fn shape(&self) -> (shape: (usize, usize))
        ensures
            shape.0 == table_rows(*self).len(),
            forall|row: int|
                0 <= row < table_rows(*self).len() ==> (#[trigger] table_rows(*self)[row]).len()
                    == shape.1,
    {
        self.cells.shape()
    }

    /// The number of rows.
    pub fn size(&self) -> (size: usize)
        ensures
            size == table_rows(*self).len(),
    {
        self.shape().0
    }

    /// What the table holds in row `row` and column `column`; nothing
    /// outside the table.
    pub fn chance(&self, row: usize, column: usize) -> (chance: Option<Probability>)
        ensures
            chance == if row < table_rows(*self).len() && column < table_rows(
                *self,
            )[row as int].len() {
                Some(table_rows(*self)[row as int][column as int])
            } else {
                None
            },
    {
        let (rows, columns) = self.shape();
        if row < rows && column < columns {
            Some(self.cell(row, column))
        } else {
            None
        }
    }
}

} // verus!
