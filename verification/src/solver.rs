//! From points to tree: the distance matrix, then the spanning tree over it.

use crate::matrix::cell;
use crate::matrix::distance_matrix;
use crate::matrix::grid;
use crate::matrix::has_zero_diagonal;
use crate::matrix::is_distance_matrix;
use crate::matrix::is_symmetric;
use crate::metric::Distance;
use crate::optimal::is_lightest;
use crate::prim::is_greedy_tree;
use crate::prim::prim_edges;
use crate::prim::spanning_tree;
use crate::prim::tree_weight;
use crate::prim::TreeError;
use vstd::prelude::*;

verus! {

/// Computes the distance matrix of `points` under the metric `D` and a
/// minimum spanning tree over it, grown from `start`.
///
/// Returns the tree's edges (child, parent) together with the matrix. With
/// no points both are empty; otherwise `start` must be the index of a point.
pub fn solve<P: Sync, D: Distance<P>>(points: &[P], start: usize) -> (r: Result<
    (Vec<(usize, usize)>, Vec<Vec<u32>>),
    TreeError,
>)
    ensures
        match r {
            Ok((edges, m)) => {
                &&& (points@.len() == 0 || start < points@.len())
                &&& is_distance_matrix::<P, D>(points@, grid(m@))
                &&& is_symmetric(grid(m@))
                &&& has_zero_diagonal(grid(m@))
                &&& edges@ == prim_edges(grid(m@), start as int)
                &&& is_greedy_tree(grid(m@), start as int, edges@)
                &&& is_lightest(grid(m@), edges@)
            },
            Err(e) => e == TreeError::StartOutOfRange && 0 < points@.len() <= start,
        },
{
    let m = distance_matrix::<P, D>(points);
    match spanning_tree(&m, start) {
        Ok(edges) => Ok((edges, m)),
        Err(e) => Err(e),
    }
}

/// The same points under the same metric, with the same start vertex, give
/// the same matrix, the same edge list and the same total weight.
pub proof fn lemma_same_input_same_tree<P, D: Distance<P>>(
    points: Seq<P>,
    start: int,
    m1: Seq<Seq<u32>>,
    edges1: Seq<(usize, usize)>,
    m2: Seq<Seq<u32>>,
    edges2: Seq<(usize, usize)>,
)
    requires
        is_distance_matrix::<P, D>(points, m1),
        is_distance_matrix::<P, D>(points, m2),
        edges1 == prim_edges(m1, start),
        edges2 == prim_edges(m2, start),
    ensures
        m1 == m2,
        edges1 == edges2,
        tree_weight(m1, edges1) == tree_weight(m2, edges2),
{
    assert forall|i: int| 0 <= i < m1.len() implies m1[i] =~= m2[i] by {
        assert forall|j: int| 0 <= j < m1[i].len() implies m1[i][j] == m2[i][j] by {
            assert(m1[i][j] == cell::<P, D>(points, i, j));
            assert(m2[i][j] == cell::<P, D>(points, i, j));
        }
    }
    assert(m1 =~= m2);
}

} // verus!
