//! A finite monoid presented by its operation table: an independent
//! algebraic utility for language-theoretic analysis, not load-bearing
//! for matching.

use vstd::prelude::*;

use crate::error::ValidationError;

verus! {

/// A finite set `0..size` with a binary operation given by a full
/// `size` by `size` table.
pub struct Monoid {
    size: usize,
    operation: Vec<Vec<usize>>,
}

impl Monoid {
    /// The construction-time invariant: the table is square.
    pub closed spec fn wf(self) -> bool {
        &&& self.operation@.len() == self.size
        &&& forall|i: int|
            0 <= i < self.operation@.len() ==> (#[trigger] self.operation@[i])@.len() == self.size
    }

    /// Number of elements.
    pub closed spec fn spec_size(self) -> usize {
        self.size
    }

    /// The table entry at row `x`, column `y`.
    pub closed spec fn spec_op(self, x: int, y: int) -> usize {
        self.operation@[x]@[y]
    }

    /// Validates that the table has exactly `size` rows of `size` columns
    /// each and builds the monoid; construction succeeds exactly then, and
    /// a returned error names a violation present in the table.
    pub fn new(size: usize, matrix: Vec<Vec<usize>>) -> (r: Result<Monoid, ValidationError>)
        ensures
            r is Ok <==> (matrix@.len() == size && forall|i: int|
                0 <= i < matrix@.len() ==> (#[trigger] matrix@[i])@.len() == size),
            r matches Ok(m) ==> {
                &&& m.wf()
                &&& m.spec_size() == size
                &&& forall|x: int, y: int|
                    0 <= x < size && 0 <= y < size ==> m.spec_op(x, y) == matrix@[x]@[y]
            },
            r matches Err(e) ==> match e {
                ValidationError::RowCountMismatch { len, size: n } => len == matrix@.len() && n
                    == size && len != n,
                ValidationError::MatrixRowLengthMismatch { row, len, size: n } => n == size && 0
                    <= row < matrix@.len() && matrix@[row as int]@.len() == len && len != n,
                _ => false,
            },
    {
        if matrix.len() != size {
            return Err(ValidationError::RowCountMismatch { len: matrix.len(), size });
        }
        let mut i: usize = 0;
        while i < matrix.len()
            invariant
                i <= matrix@.len(),
                matrix@.len() == size,
                forall|a: int| 0 <= a < i ==> (#[trigger] matrix@[a])@.len() == size,
            decreases matrix@.len() - i,
        {
            let row_len = matrix[i].len();
            if row_len != size {
                return Err(
                    ValidationError::MatrixRowLengthMismatch { row: i, len: row_len, size },
                );
            }
            i = i + 1;
        }
        Ok(Monoid { size, operation: matrix })
    }

    /// The operation applied to `x` and `y`: the table entry at row `x`,
    /// column `y`.
    pub fn op(&self, x: usize, y: usize) -> (r: Result<usize, ValidationError>)
        requires
            self.wf(),
            x < self.spec_size(),
            y < self.spec_size(),
        ensures
            r == Ok::<usize, ValidationError>(self.spec_op(x as int, y as int)),
    {
        Ok(self.operation[x][y])
    }

    /// Number of elements.
    pub fn size(&self) -> (s: usize)
        ensures
            s == self.spec_size(),
    {
        self.size
    }
}

} // verus!
