//! The distance matrix of a list of points.
//!
//! Each row's cells right of the diagonal are computed into a buffer of the
//! row's own, the rows in parallel; the square matrix is then assembled from
//! those buffers, every computed distance standing in both mirrored cells.

use crate::metric::Distance;
use rayon::iter::IntoParallelIterator;
use rayon::iter::ParallelIterator;
use vstd::prelude::*;

verus! {

/// The rows of a matrix as sequences.
pub open spec fn grid(m: Seq<Vec<u32>>) -> Seq<Seq<u32>> {
    Seq::new(m.len(), |i: int| m[i]@)
}

/// Every row is as long as the matrix has rows.
pub open spec fn is_square(m: Seq<Seq<u32>>) -> bool {
    forall|i: int| 0 <= i < m.len() ==> (#[trigger] m[i]).len() == m.len()
}

/// Mirrored cells are equal.
pub open spec fn is_symmetric(m: Seq<Seq<u32>>) -> bool {
    forall|i: int, j: int| 0 <= i < m.len() && 0 <= j < m.len() ==> m[i][j] == m[j][i]
}

/// The cells on the diagonal are zero.
pub open spec fn has_zero_diagonal(m: Seq<Seq<u32>>) -> bool {
    forall|i: int| 0 <= i < m.len() ==> (#[trigger] m[i])[i] == 0
}

/// The distance that stands in cell (`i`, `j`): zero on the diagonal, and
/// elsewhere the metric applied to the two points, the one with the lower
/// index first.
pub open spec fn cell<P, D: Distance<P>>(points: Seq<P>, i: int, j: int) -> u32 {
    if i < j {
        D::metric(points[i], points[j])
    } else if j < i {
        D::metric(points[j], points[i])
    } else {
        0
    }
}

/// `m` is the distance matrix of `points` under the metric `D`.
pub open spec fn is_distance_matrix<P, D: Distance<P>>(points: Seq<P>, m: Seq<Seq<u32>>) -> bool {
    &&& m.len() == points.len()
    &&& is_square(m)
    &&& forall|i: int, j: int|
        0 <= i < m.len() && 0 <= j < m.len() ==> m[i][j] == cell::<P, D>(points, i, j)
}

/// `row` holds the distances from point `i` to the points after it, in order.
pub open spec fn is_upper_row<P, D: Distance<P>>(points: Seq<P>, i: int, row: Seq<u32>) -> bool {
    &&& row.len() == points.len() - i - 1
    &&& forall|k: int|
        0 <= k < row.len() ==> row[k] == D::metric(points[i], #[trigger] points[i + 1 + k])
}

/// A distance matrix is symmetric and has a zero diagonal.
pub proof fn lemma_distance_matrix_symmetric<P, D: Distance<P>>(points: Seq<P>, m: Seq<Seq<u32>>)
    requires
        is_distance_matrix::<P, D>(points, m),
    ensures
        is_symmetric(m),
        has_zero_diagonal(m),
{
    assert forall|i: int, j: int| 0 <= i < m.len() && 0 <= j < m.len() implies m[i][j]
        == m[j][i] by {
        assert(m[i][j] == cell::<P, D>(points, i, j));
        assert(m[j][i] == cell::<P, D>(points, j, i));
    }
    assert forall|i: int| 0 <= i < m.len() implies (#[trigger] m[i])[i] == 0 by {
        assert(m[i][i] == cell::<P, D>(points, i, i));
    }
}

/// The distances from point `i` to each point after it.
pub fn upper_row<P, D: Distance<P>>(points: &[P], i: usize) -> (row: Vec<u32>)
    requires
        i < points@.len(),
    ensures
        is_upper_row::<P, D>(points@, i as int, row@),
{
    let n: usize = points.len();
    let mut row: Vec<u32> = Vec::new();
    let mut j: usize = i + 1;
    while j < n
        invariant
            i < j <= n,
            n == points@.len(),
            row@.len() == j - i - 1,
            forall|k: int|
                0 <= k < row@.len() ==> row@[k] == D::metric(
                    points@[i as int],
                    #[trigger] points@[i + 1 + k],
                ),
        decreases n - j,
    {
        let d: u32 = D::distance(&points[i], &points[j]);
        row.push(d);
        j += 1;
    }
    row
}

/// Runs `upper_row` for every index of `points` on rayon's worker pool:
/// `into_par_iter` over the range of indices, `map`, and `collect` into a
/// vector. Collecting an indexed parallel iterator keeps the order of its
/// items, so the buffer at place `i` is the one that `upper_row` gave for `i`.
#[verifier::external_body]
fn upper_rows<P: Sync, D: Distance<P>>(points: &[P]) -> (rows: Vec<Vec<u32>>)
    ensures
        rows@.len() == points@.len(),
        forall|i: int|
            0 <= i < rows@.len() ==> is_upper_row::<P, D>(points@, i, (#[trigger] rows@[i])@),
{
    (0..points.len()).into_par_iter().map(|i| upper_row::<P, D>(points, i)).collect()
}

/// Builds the square matrix from the rows' buffers: cell (`i`, `j`) right of
/// the diagonal is taken from buffer `i`, its mirror image from the same
/// place, and the diagonal is zero.
pub fn assemble(rows: &Vec<Vec<u32>>) -> (m: Vec<Vec<u32>>)
    requires
        forall|i: int| 0 <= i < rows@.len() ==> (#[trigger] rows@[i])@.len() == rows@.len() - i - 1,
    ensures
        m@.len() == rows@.len(),
        is_square(grid(m@)),
        forall|i: int, j: int|
            0 <= i < m@.len() && 0 <= j < m@.len() ==> grid(m@)[i][j] == (if i < j {
                rows@[i]@[j - i - 1]
            } else if j < i {
                rows@[j]@[i - j - 1]
            } else {
                0u32
            }),
{
    let n: usize = rows.len();
    let mut m: Vec<Vec<u32>> = Vec::new();
    let mut i: usize = 0;
    while i < n
        invariant
            i <= n,
            n == rows@.len(),
            m@.len() == i,
            forall|a: int| 0 <= a < rows@.len() ==> (#[trigger] rows@[a])@.len() == n - a - 1,
            forall|a: int| 0 <= a < i ==> (#[trigger] m@[a])@.len() == n,
            forall|a: int, b: int|
                0 <= a < i && 0 <= b < n ==> m@[a]@[b] == (if a < b {
                    rows@[a]@[b - a - 1]
                } else if b < a {
                    rows@[b]@[a - b - 1]
                } else {
                    0u32
                }),
        decreases n - i,
    {
        let mut row: Vec<u32> = Vec::new();
        let mut j: usize = 0;
        while j < n
            invariant
                i < n,
                j <= n,
                n == rows@.len(),
                row@.len() == j,
                forall|a: int| 0 <= a < rows@.len() ==> (#[trigger] rows@[a])@.len() == n - a - 1,
                forall|b: int|
                    0 <= b < j ==> row@[b] == (if i < b {
                        rows@[i as int]@[b - i - 1]
                    } else if b < i {
                        rows@[b]@[i - b - 1]
                    } else {
                        0u32
                    }),
            decreases n - j,
        {
            let d: u32 = if i < j {
                rows[i][j - i - 1]
            } else if j < i {
                rows[j][i - j - 1]
            } else {
                0
            };
            row.push(d);
            j += 1;
        }
        m.push(row);
        i += 1;
    }
    m
}

/// The distance matrix of `points` under the metric `D`.
pub fn distance_matrix<P: Sync, D: Distance<P>>(points: &[P]) -> (m: Vec<Vec<u32>>)
    ensures
        is_distance_matrix::<P, D>(points@, grid(m@)),
        is_symmetric(grid(m@)),
        has_zero_diagonal(grid(m@)),
{
    let rows = upper_rows::<P, D>(points);
    let m = assemble(&rows);
    proof {
        let g = grid(m@);
        assert forall|i: int, j: int| 0 <= i < g.len() && 0 <= j < g.len() implies g[i][j]
            == cell::<P, D>(points@, i, j) by {
            if i < j {
                assert(is_upper_row::<P, D>(points@, i, rows@[i]@));
                assert(points@[i + 1 + (j - i - 1)] == points@[j]);
            } else if j < i {
                assert(is_upper_row::<P, D>(points@, j, rows@[j]@));
                assert(points@[j + 1 + (i - j - 1)] == points@[i]);
            }
        }
        lemma_distance_matrix_symmetric::<P, D>(points@, g);
    }
    m
}

} // verus!
