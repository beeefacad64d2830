//! The distance matrix that every engine reads.

use vstd::prelude::*;

verus! {

/// A square, symmetric table with a zero diagonal and fewer than `u32::MAX`
/// rows: the shape every search in this crate works on.
pub open spec fn is_cost_table(m: Seq<Seq<u32>>) -> bool {
    &&& m.len() < u32::MAX
    &&& forall|i: int| 0 <= i < m.len() ==> (#[trigger] m[i]).len() == m.len()
    &&& forall|i: int| 0 <= i < m.len() ==> #[trigger] m[i][i] == 0
    &&& forall|i: int, j: int|
        0 <= i < m.len() && 0 <= j < m.len() ==> #[trigger] m[i][j] == m[j][i]
}

/// Why a table of rows was refused as a distance matrix.
#[derive(Debug, Clone, Copy, PartialEq, Eq, Structural)]
pub enum MatrixError {
    /// As many rows as `u32::MAX`, or more.
    TooLarge,
    /// A row whose length differs from the number of rows.
    NotSquare,
    /// A node whose distance to itself is not zero.
    NonZeroDiagonal,
    /// A pair of nodes whose two distances differ.
    Asymmetric,
}

/// Some row of `m` has another length than the number of rows.
pub open spec fn has_ragged_row(m: Seq<Seq<u32>>) -> bool {
    exists|i: int| 0 <= i < m.len() && (#[trigger] m[i]).len() != m.len()
}

/// Some diagonal entry of the square table `m` is not zero.
pub open spec fn has_nonzero_diagonal(m: Seq<Seq<u32>>) -> bool {
    exists|i: int| 0 <= i < m.len() && #[trigger] m[i][i] != 0
}

/// Some pair of entries of the square table `m` differs from its mirror.
pub open spec fn has_asymmetry(m: Seq<Seq<u32>>) -> bool {
    exists|i: int, j: int| 0 <= i < m.len() && 0 <= j < m.len() && #[trigger] m[i][j] != m[j][i]
}

/// The rows of a vector of vectors, as a sequence of sequences.
pub open spec fn rows_view(rows: Seq<Vec<u32>>) -> Seq<Seq<u32>> {
    Seq::new(rows.len(), |i: int| rows[i]@)
}

/// A dense symmetric matrix of non-negative integer costs with a zero
/// diagonal. Node `i` is row `i`.
pub struct DistanceMatrix {
    rows: Vec<Vec<u32>>,
}

impl View for DistanceMatrix {
    type V = Seq<Seq<u32>>;

    closed spec fn view(&self) -> Seq<Seq<u32>> {
        rows_view(self.rows@)
    }
}

impl DistanceMatrix {
    #[verifier::type_invariant]
    spec fn inv(&self) -> bool {
        is_cost_table(self@)
    }

    /// Takes `rows` as the matrix, or tells which requirement it breaks
    /// first: size, squareness, diagonal, symmetry.
    pub fn new(rows: Vec<Vec<u32>>) -> (r: Result<DistanceMatrix, MatrixError>)
        ensures
            match r {
                Ok(dm) => dm@ == rows_view(rows@) && is_cost_table(dm@),
                Err(MatrixError::TooLarge) => rows@.len() >= u32::MAX,
                Err(MatrixError::NotSquare) => rows@.len() < u32::MAX && has_ragged_row(
                    rows_view(rows@),
                ),
                Err(MatrixError::NonZeroDiagonal) => rows@.len() < u32::MAX && !has_ragged_row(
                    rows_view(rows@),
                ) && has_nonzero_diagonal(rows_view(rows@)),
                Err(MatrixError::Asymmetric) => rows@.len() < u32::MAX && !has_ragged_row(
                    rows_view(rows@),
                ) && !has_nonzero_diagonal(rows_view(rows@)) && has_asymmetry(
                    rows_view(rows@),
                ),
            },
            r is Ok <==> is_cost_table(rows_view(rows@)),
    {
        let ghost m = rows_view(rows@);
        let n = rows.len();
        if n >= u32::MAX as usize {
            return Err(MatrixError::TooLarge);
        }
        let mut i: usize = 0;
        while i < n
            invariant
                n == rows@.len(),
                n < u32::MAX,
                m == rows_view(rows@),
                0 <= i <= n,
                forall|k: int| 0 <= k < i ==> (#[trigger] m[k]).len() == n,
            decreases n - i,
        {
            if rows[i].len() != n {
                assert(m[i as int].len() != m.len());
                return Err(MatrixError::NotSquare);
            }
            i += 1;
        }
        let mut i: usize = 0;
        while i < n
            invariant
                n == rows@.len(),
                n < u32::MAX,
                m == rows_view(rows@),
                !has_ragged_row(m),
                0 <= i <= n,
                forall|k: int| 0 <= k < i ==> #[trigger] m[k][k] == 0,
            decreases n - i,
        {
            assert(m[i as int].len() == n);
            if rows[i][i] != 0 {
                assert(m[i as int][i as int] != 0);
                return Err(MatrixError::NonZeroDiagonal);
            }
            i += 1;
        }
        let mut i: usize = 0;
        while i < n
            invariant
                n == rows@.len(),
                n < u32::MAX,
                m == rows_view(rows@),
                !has_ragged_row(m),
                !has_nonzero_diagonal(m),
                0 <= i <= n,
                forall|a: int, b: int| 0 <= a < i && 0 <= b < n ==> #[trigger] m[a][b] == m[b][a],
            decreases n - i,
        {
            let mut j: usize = 0;
            while j < n
                invariant
                    n == rows@.len(),
                    n < u32::MAX,
                    m == rows_view(rows@),
                    !has_ragged_row(m),
                    !has_nonzero_diagonal(m),
                    0 <= i < n,
                    0 <= j <= n,
                    forall|a: int, b: int|
                        0 <= a < i && 0 <= b < n ==> #[trigger] m[a][b] == m[b][a],
                    forall|b: int| 0 <= b < j ==> #[trigger] m[i as int][b] == m[b][i as int],
                decreases n - j,
            {
                assert(m[i as int].len() == n && m[j as int].len() == n);
                if rows[i][j] != rows[j][i] {
                    assert(m[i as int][j as int] != m[j as int][i as int]);
                    return Err(MatrixError::Asymmetric);
                }
                j += 1;
            }
            i += 1;
        }
        let r = DistanceMatrix { rows };
        Ok(r)
    }

    /// The number of nodes. The matrix's shape comes with it.
    pub fn size(&self) -> (r: usize)
        ensures
            r == self@.len(),
            is_cost_table(self@),
    {
        proof {
            use_type_invariant(self);
        }
        self.rows.len()
    }

    /// The cost between nodes `i` and `j`.
    pub fn get(&self, i: usize, j: usize) -> (r: u32)
        requires
            i < self@.len(),
            j < self@.len(),
        ensures
            r == self@[i as int][j as int],
    {
        proof {
            use_type_invariant(self);
            assert(self@[i as int] == self.rows@[i as int]@);
        }
        self.rows[i][j]
    }
}

} // verus!
