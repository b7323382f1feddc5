//! Why the tree that Prim's algorithm builds is a lightest one.
//!
//! A spanning tree is described by the parent of each vertex but the root,
//! with a rank that falls from child to parent. Any such tree is turned,
//! vertex by vertex in the order of attachment, into the greedy tree, and no
//! step makes it heavier.

use crate::matrix::is_square;
use crate::matrix::is_symmetric;
use crate::prim::child_at;
use crate::prim::edge_of;
use crate::prim::has_place;
use crate::prim::is_attachment_order;
use crate::prim::is_greedy_tree;
use crate::prim::lightest_across;
use crate::prim::tree_weight;
use vstd::prelude::*;

verus! {

/// `parent` gives each vertex but `root` a parent of lower rank, and every
/// rank lies below `bound`.
pub open spec fn is_ranked_tree(
    n: int,
    root: int,
    parent: Seq<int>,
    rank: Seq<int>,
    bound: int,
) -> bool {
    &&& parent.len() == n
    &&& rank.len() == n
    &&& 0 <= root < n
    &&& forall|u: int| 0 <= u < n ==> 0 <= #[trigger] rank[u] < bound
    &&& forall|u: int|
        0 <= u < n && u != root ==> 0 <= #[trigger] parent[u] < n && rank[parent[u]] < rank[u]
}

/// `parent` describes a spanning tree on `n` vertices rooted at `root`: each
/// other vertex has a parent, and following the parents never comes back.
pub open spec fn is_spanning_tree(n: int, root: int, parent: Seq<int>) -> bool {
    exists|rank: Seq<int>, bound: int| is_ranked_tree(n, root, parent, rank, bound)
}

/// No spanning tree on the vertices of `m`, whatever its root, weighs less
/// than `edges`.
pub open spec fn is_lightest(m: Seq<Seq<u32>>, edges: Seq<(usize, usize)>) -> bool {
    forall|root: int, parent: Seq<int>| #[trigger]
        is_spanning_tree(m.len() as int, root, parent) ==> tree_weight(m, edges) <= parent_weight(
            m,
            root,
            parent,
        )
}

/// The weight of the edges from the vertices below `k` to their parents.
pub open spec fn weight_upto(m: Seq<Seq<u32>>, root: int, parent: Seq<int>, k: nat) -> int
    decreases k,
{
    if k == 0 {
        0
    } else {
        weight_upto(m, root, parent, (k - 1) as nat) + (if k - 1 == root {
            0int
        } else {
            m[parent[k - 1]][k - 1] as int
        })
    }
}

/// The total weight of the tree that `parent` describes.
pub open spec fn parent_weight(m: Seq<Seq<u32>>, root: int, parent: Seq<int>) -> int {
    weight_upto(m, root, parent, m.len())
}

/// The parents that an edge list gives to the vertices.
pub open spec fn parents(edges: Seq<(usize, usize)>, start: int, n: nat) -> Seq<int> {
    Seq::new(
        n,
        |v: int|
            if v == start {
                start
            } else {
                edges[edge_of(start, v)].1 as int
            },
    )
}

/// A new parent for one vertex changes the weight by the difference of the
/// two edges.
proof fn lemma_weight_update(
    m: Seq<Seq<u32>>,
    root: int,
    parent: Seq<int>,
    u: int,
    a: int,
    k: nat,
)
    requires
        0 <= u < parent.len(),
        u != root,
        k <= parent.len(),
    ensures
        weight_upto(m, root, parent.update(u, a), k) == weight_upto(m, root, parent, k) + (if u
            < k {
            m[a][u] - m[parent[u]][u]
        } else {
            0int
        }),
    decreases k,
{
    if k > 0 {
        lemma_weight_update(m, root, parent, u, a, (k - 1) as nat);
    }
}

/// The weight depends only on the parents of the vertices other than the root.
proof fn lemma_weight_agree(m: Seq<Seq<u32>>, root: int, left: Seq<int>, right: Seq<int>, k: nat)
    requires
        k <= left.len(),
        k <= right.len(),
        forall|u: int| 0 <= u < k && u != root ==> left[u] == right[u],
    ensures
        weight_upto(m, root, left, k) == weight_upto(m, root, right, k),
    decreases k,
{
    if k > 0 {
        lemma_weight_agree(m, root, left, right, (k - 1) as nat);
    }
}

/// The weight of the first `i` edges of an edge list is the weight of the
/// parents that it gives to the vertices that those edges attach.
proof fn lemma_edges_weight(m: Seq<Seq<u32>>, start: int, edges: Seq<(usize, usize)>, i: nat)
    requires
        0 <= start < m.len(),
        edges.len() == m.len() - 1,
        forall|j: int| 0 <= j < edges.len() ==> (#[trigger] edges[j]).0 == child_at(start, j),
        i <= edges.len(),
    ensures
        tree_weight(m, edges.take(i as int)) == weight_upto(
            m,
            start,
            parents(edges, start, m.len()),
            if i <= start {
                i
            } else {
                (i + 1) as nat
            },
        ),
    decreases i,
{
    let p = parents(edges, start, m.len());
    if i > 0 {
        lemma_edges_weight(m, start, edges, (i - 1) as nat);
        let e = edges.take(i as int);
        assert(e.drop_last() =~= edges.take(i - 1));
        assert(e.last() == edges[i - 1]);
        let c = child_at(start, i - 1);
        assert(edges[i - 1].0 == c);
        assert(p[c] == edges[edge_of(start, c)].1);
        if i - 1 == start {
            assert(weight_upto(m, start, p, i) == weight_upto(m, start, p, (i - 1) as nat));
        }
    } else {
        assert(edges.take(0).len() == 0);
    }
}

/// Turns the path from `v` up to the first vertex placed before `k` around,
/// and gives `v` the parent `q`. The vertices placed before `k` keep their
/// parents and ranks; every vertex but `v` still has a parent of lower rank;
/// and the weight changes by the new edge less the edge at which the path
/// entered the vertices placed before `k`.
#[verifier::rlimit(50)]
proof fn lemma_reverse(
    m: Seq<Seq<u32>>,
    start: int,
    pos: Seq<int>,
    k: int,
    parent: Seq<int>,
    rank: Seq<int>,
    bound: int,
    v: int,
    q: int,
) -> (r: (Seq<int>, Seq<int>, int, int))
    requires
        is_square(m),
        is_symmetric(m),
        is_ranked_tree(m.len() as int, start, parent, rank, bound),
        pos.len() == m.len(),
        pos[start] < k,
        forall|u: int|
            0 <= u < m.len() && u != start && #[trigger] pos[u] < k ==> pos[parent[u]] < k,
        0 <= v < m.len(),
        pos[v] >= k,
        0 <= q < m.len(),
    ensures
        r.0.len() == m.len(),
        r.1.len() == m.len(),
        forall|u: int|
            0 <= u < m.len() && #[trigger] pos[u] < k ==> r.0[u] == parent[u] && r.1[u] == rank[u],
        forall|u: int| 0 <= u < m.len() && #[trigger] rank[u] > rank[v] ==> r.0[u] == parent[u],
        r.0[v] == q,
        r.1[v] == bound,
        forall|u: int|
            0 <= u < m.len() && #[trigger] pos[u] >= k ==> bound <= r.1[u] <= 2 * bound + rank[v],
        forall|u: int|
            0 <= u < m.len() && u != start && u != v ==> 0 <= #[trigger] r.0[u] < m.len()
                && r.1[r.0[u]] < r.1[u],
        0 <= r.2 < m.len(),
        0 <= r.3 < m.len(),
        pos[r.2] < k <= pos[r.3],
        parent_weight(m, start, r.0) == parent_weight(m, start, parent) + m[q][v] - m[r.2][r.3],
    decreases rank[v],
{
    let n = m.len();
    let x = parent[v];
    assert(v != start);
    assert(0 <= x < n && rank[x] < rank[v]);
    if pos[x] < k {
        let parent2 = parent.update(v, q);
        let rank2 = Seq::new(
            n,
            |u: int|
                if pos[u] < k {
                    rank[u]
                } else if u == v {
                    bound
                } else {
                    bound + 1 + rank[u]
                },
        );
        lemma_weight_update(m, start, parent, v, q, n);
        assert forall|u: int| 0 <= u < n && u != start && u != v implies 0 <= #[trigger] parent2[u]
            < n && rank2[parent2[u]] < rank2[u] by {
            assert(parent2[u] == parent[u]);
            assert(rank[parent[u]] < rank[u]);
            assert(0 <= rank[u] < bound);
            assert(0 <= rank[parent[u]] < bound);
            if pos[u] < k {
                assert(pos[parent[u]] < k);
            }
        }
        assert forall|u: int| 0 <= u < n && #[trigger] pos[u] >= k implies bound <= rank2[u] <= 2
            * bound + rank[v] by {
            assert(0 <= rank[u] < bound);
            assert(0 <= rank[v] < bound);
        }
        (parent2, rank2, x, v)
    } else {
        let (before, before_rank, y, z) = lemma_reverse(
            m,
            start,
            pos,
            k,
            parent,
            rank,
            bound,
            x,
            v,
        );
        let parent2 = before.update(v, q);
        let rank2 = Seq::new(
            n,
            |u: int|
                if pos[u] < k {
                    rank[u]
                } else if u == v {
                    bound
                } else {
                    before_rank[u] + 1
                },
        );
        lemma_weight_update(m, start, before, v, q, n);
        assert(before[v] == x);
        assert(m[v][x] == m[x][v]);
        assert forall|u: int| 0 <= u < n && u != start && u != v implies 0 <= #[trigger] parent2[u]
            < n && rank2[parent2[u]] < rank2[u] by {
            assert(parent2[u] == before[u]);
            if pos[u] < k {
                assert(before[u] == parent[u]);
                assert(pos[parent[u]] < k);
                assert(rank[parent[u]] < rank[u]);
            } else if u == x {
                assert(before[x] == v);
                assert(before_rank[x] == bound);
            } else {
                let a = before[u];
                assert(before_rank[a] < before_rank[u]);
                assert(bound <= before_rank[u]);
                if pos[a] < k {
                    assert(before_rank[a] == rank[a]);
                }
            }
        }
        assert forall|u: int| 0 <= u < n && #[trigger] pos[u] >= k implies bound <= rank2[u] <= 2
            * bound + rank[v] by {
            assert(0 <= rank[v] < bound);
            if u != v {
                assert(bound <= before_rank[u] <= 2 * bound + rank[x]);
            }
        }
        assert forall|u: int| 0 <= u < n && #[trigger] rank[u] > rank[v] implies parent2[u]
            == parent[u] by {
            assert(rank[u] > rank[x]);
        }
        (parent2, rank2, y, z)
    }
}

/// The parents that `parent` gives to the vertices attached in the rounds
/// 1 to `k` are those of the greedy tree.
pub open spec fn agrees(
    edges: Seq<(usize, usize)>,
    start: int,
    pos: Seq<int>,
    parent: Seq<int>,
    k: int,
) -> bool {
    forall|u: int|
        0 <= u < pos.len() && 0 < #[trigger] pos[u] <= k ==> parent[u] == edges[edge_of(
            start,
            u,
        )].1
}

/// One exchange: in a spanning tree whose vertices placed before `k` have
/// their parents among themselves, the vertex `v` placed at `k` is given the
/// parent `q`, the lightest edge across, and the tree gets no heavier.
#[verifier::rlimit(50)]
proof fn lemma_exchange(
    m: Seq<Seq<u32>>,
    start: int,
    pos: Seq<int>,
    parent: Seq<int>,
    rank: Seq<int>,
    bound: int,
    k: int,
    v: int,
    q: int,
) -> (r: (Seq<int>, Seq<int>, int))
    requires
        is_square(m),
        is_symmetric(m),
        is_ranked_tree(m.len() as int, start, parent, rank, bound),
        pos.len() == m.len(),
        pos[start] < k,
        forall|u: int|
            0 <= u < m.len() && u != start && #[trigger] pos[u] < k ==> pos[parent[u]] < k,
        0 <= v < m.len(),
        pos[v] == k,
        0 <= q < m.len(),
        pos[q] < k,
        forall|u: int, x: int|
            0 <= u < m.len() && 0 <= x < m.len() && pos[u] < k <= pos[x] ==> m[q][v]
                <= #[trigger] m[u][x],
    ensures
        is_ranked_tree(m.len() as int, start, r.0, r.1, r.2),
        parent_weight(m, start, r.0) <= parent_weight(m, start, parent),
        r.0[v] == q,
        forall|u: int| 0 <= u < m.len() && #[trigger] pos[u] < k ==> r.0[u] == parent[u],
{
    let n = m.len() as int;
    let (after, after_rank, y, z) = lemma_reverse(m, start, pos, k, parent, rank, bound, v, q);
    assert(m[q][v] <= m[y][z]);
    let after_bound = 3 * bound + 1;
    assert(0 <= rank[v] < bound);
    assert forall|u: int| 0 <= u < n implies 0 <= #[trigger] after_rank[u] < after_bound by {
        assert(0 <= rank[u] < bound);
        if pos[u] < k {
            assert(after_rank[u] == rank[u]);
        } else {
            assert(bound <= after_rank[u] <= 2 * bound + rank[v]);
        }
    }
    assert forall|u: int| 0 <= u < n && u != start implies 0 <= #[trigger] after[u] < n
        && after_rank[after[u]] < after_rank[u] by {
        if u == v {
            assert(after_rank[q] == rank[q]);
            assert(0 <= rank[q] < bound);
        }
    }
    (after, after_rank, after_bound)
}

/// Any spanning tree rooted at `start` can be turned, without making it
/// heavier, into one that gives the first `k` attached vertices the parents
/// that the greedy tree gives them.
#[verifier::rlimit(50)]
proof fn lemma_agree(
    m: Seq<Seq<u32>>,
    start: int,
    edges: Seq<(usize, usize)>,
    pos: Seq<int>,
    parent: Seq<int>,
    rank: Seq<int>,
    bound: int,
    k: nat,
) -> (r: (Seq<int>, Seq<int>, int))
    requires
        is_square(m),
        is_symmetric(m),
        0 <= start < m.len(),
        is_greedy_tree(m, start, edges),
        is_attachment_order(m, start, edges, pos),
        is_ranked_tree(m.len() as int, start, parent, rank, bound),
        k < m.len(),
    ensures
        is_ranked_tree(m.len() as int, start, r.0, r.1, r.2),
        parent_weight(m, start, r.0) <= parent_weight(m, start, parent),
        agrees(edges, start, pos, r.0, k as int),
    decreases k,
{
    if k == 0 {
        (parent, rank, bound)
    } else {
        let n = m.len() as int;
        let (before, before_rank, before_bound) = lemma_agree(
            m,
            start,
            edges,
            pos,
            parent,
            rank,
            bound,
            (k - 1) as nat,
        );
        assert(has_place(pos, k as int));
        let v = choose|v: int| 0 <= v < pos.len() && pos[v] == k;
        let e = edges[edge_of(start, v)];
        assert(e.0 == child_at(start, edge_of(start, v)));
        assert(lightest_across(m, pos, e));
        let q = e.1 as int;
        assert forall|u: int| 0 <= u < n && u != start && #[trigger] pos[u] < k implies
            pos[before[u]] < k by {
            assert(pos[u] != pos[start]);
            let f = edges[edge_of(start, u)];
            assert(f.0 == child_at(start, edge_of(start, u)));
            assert(lightest_across(m, pos, f));
        }
        let r = lemma_exchange(m, start, pos, before, before_rank, before_bound, k as int, v, q);
        assert forall|u: int| 0 <= u < n && 0 < #[trigger] pos[u] <= k implies r.0[u]
            == edges[edge_of(start, u)].1 by {
            if pos[u] < k {
                assert(r.0[u] == before[u]);
            } else {
                assert(u == v);
            }
        }
        r
    }
}

/// Moving the root from `x` to its child `v`, by giving `x` the parent `v`,
/// changes the weight by the difference of the edge between the two, read in
/// the two directions.
proof fn lemma_weight_shift(m: Seq<Seq<u32>>, x: int, v: int, parent: Seq<int>, k: nat)
    requires
        0 <= x < parent.len(),
        0 <= v < parent.len(),
        x != v,
        k <= parent.len(),
    ensures
        weight_upto(m, v, parent.update(x, v), k) == weight_upto(m, x, parent, k) + (if x < k {
            m[v][x] as int
        } else {
            0int
        }) - (if v < k {
            m[parent[v]][v] as int
        } else {
            0int
        }),
    decreases k,
{
    if k > 0 {
        lemma_weight_shift(m, x, v, parent, (k - 1) as nat);
    }
}

/// A spanning tree can be rooted at any vertex `v` without a change of
/// weight: the edges on the path from `v` to the old root are turned around.
proof fn lemma_reroot(
    m: Seq<Seq<u32>>,
    root: int,
    parent: Seq<int>,
    rank: Seq<int>,
    bound: int,
    v: int,
) -> (r: (Seq<int>, Seq<int>, int))
    requires
        is_square(m),
        is_symmetric(m),
        is_ranked_tree(m.len() as int, root, parent, rank, bound),
        0 <= v < m.len(),
    ensures
        is_ranked_tree(m.len() as int, v, r.0, r.1, r.2),
        parent_weight(m, v, r.0) == parent_weight(m, root, parent),
        forall|u: int| 0 <= u < m.len() && #[trigger] rank[u] > rank[v] ==> r.0[u] == parent[u],
    decreases rank[v],
{
    if v == root {
        (parent, rank, bound)
    } else {
        let n = m.len();
        let x = parent[v];
        assert(0 <= x < n && rank[x] < rank[v]);
        let (before, before_rank, before_bound) = lemma_reroot(m, root, parent, rank, bound, x);
        assert(before[v] == x);
        let after = before.update(x, v);
        let after_rank = Seq::new(
            n,
            |u: int|
                if u == v {
                    0int
                } else {
                    before_rank[u] + 1
                },
        );
        lemma_weight_shift(m, x, v, before, n);
        assert(m[v][x] == m[x][v]);
        assert forall|u: int| 0 <= u < n implies 0 <= #[trigger] after_rank[u] < before_bound
            + 1 by {
            assert(0 <= before_rank[u] < before_bound);
        }
        assert forall|u: int| 0 <= u < n && u != v implies 0 <= #[trigger] after[u] < n
            && after_rank[after[u]] < after_rank[u] by {
            assert(0 <= before_rank[u] < before_bound);
            if u != x {
                assert(after[u] == before[u]);
                assert(before_rank[before[u]] < before_rank[u]);
            }
        }
        assert forall|u: int| 0 <= u < n && #[trigger] rank[u] > rank[v] implies after[u]
            == parent[u] by {
            assert(rank[u] > rank[x]);
        }
        (after, after_rank, before_bound + 1)
    }
}

/// A greedy tree is a spanning tree rooted at its start vertex, and the
/// weight of its edge list is the weight of the parents that it gives.
pub proof fn lemma_greedy_tree_spans(m: Seq<Seq<u32>>, start: int, edges: Seq<(usize, usize)>)
    requires
        0 <= start < m.len(),
        is_greedy_tree(m, start, edges),
    ensures
        is_spanning_tree(m.len() as int, start, parents(edges, start, m.len())),
        tree_weight(m, edges) == parent_weight(m, start, parents(edges, start, m.len())),
{
    let n = m.len();
    let pos = choose|pos: Seq<int>| is_attachment_order(m, start, edges, pos);
    let g = parents(edges, start, n);
    assert forall|u: int| 0 <= u < n && u != start implies 0 <= #[trigger] g[u] < n && pos[g[u]]
        < pos[u] by {
        let e = edges[edge_of(start, u)];
        assert(e.0 == child_at(start, edge_of(start, u)));
        assert(lightest_across(m, pos, e));
    }
    assert(is_ranked_tree(n as int, start, g, pos, n as int));
    lemma_edges_weight(m, start, edges, (n - 1) as nat);
    assert(edges.take(n - 1) =~= edges);
    if n - 1 <= start {
        assert(weight_upto(m, start, g, n) == weight_upto(m, start, g, (n - 1) as nat));
    }
}

/// No spanning tree rooted at the start vertex weighs less than the greedy
/// tree.
#[verifier::rlimit(50)]
proof fn lemma_lightest_from_start(
    m: Seq<Seq<u32>>,
    start: int,
    edges: Seq<(usize, usize)>,
    parent: Seq<int>,
    rank: Seq<int>,
    bound: int,
)
    requires
        is_square(m),
        is_symmetric(m),
        0 <= start < m.len(),
        is_greedy_tree(m, start, edges),
        is_ranked_tree(m.len() as int, start, parent, rank, bound),
    ensures
        tree_weight(m, edges) <= parent_weight(m, start, parent),
{
    let n = m.len();
    let pos = choose|pos: Seq<int>| is_attachment_order(m, start, edges, pos);
    let (p, r, b) = lemma_agree(m, start, edges, pos, parent, rank, bound, (n - 1) as nat);
    let g = parents(edges, start, n);
    assert forall|u: int| 0 <= u < n && u != start implies p[u] == g[u] by {
        assert(pos[u] != pos[start]);
        assert(0 <= pos[u] < n);
    }
    lemma_weight_agree(m, start, p, g, n);
    lemma_greedy_tree_spans(m, start, edges);
}

/// The greedy tree is a lightest spanning tree: on a symmetric matrix, no
/// spanning tree, whatever its root, weighs less than it.
pub proof fn lemma_no_lighter_tree(
    m: Seq<Seq<u32>>,
    start: int,
    edges: Seq<(usize, usize)>,
    root: int,
    parent: Seq<int>,
)
    requires
        is_square(m),
        is_symmetric(m),
        0 <= start < m.len(),
        is_greedy_tree(m, start, edges),
        is_spanning_tree(m.len() as int, root, parent),
    ensures
        tree_weight(m, edges) <= parent_weight(m, root, parent),
{
    let (rank, bound) = choose|rank: Seq<int>, bound: int|
        is_ranked_tree(m.len() as int, root, parent, rank, bound);
    let (p, r, b) = lemma_reroot(m, root, parent, rank, bound, start);
    lemma_lightest_from_start(m, start, edges, p, r, b);
}

/// On a symmetric matrix a greedy tree is a lightest spanning tree.
pub proof fn lemma_greedy_is_lightest(m: Seq<Seq<u32>>, start: int, edges: Seq<(usize, usize)>)
    requires
        is_square(m),
        is_symmetric(m),
        m.len() == 0 || 0 <= start < m.len(),
        is_greedy_tree(m, start, edges),
    ensures
        is_lightest(m, edges),
{
    assert forall|root: int, parent: Seq<int>| #[trigger]
        is_spanning_tree(m.len() as int, root, parent) implies tree_weight(m, edges)
        <= parent_weight(m, root, parent) by {
        lemma_no_lighter_tree(m, start, edges, root, parent);
    }
}

/// The weight of the greedy tree does not depend on the start vertex: on a
/// symmetric matrix the greedy trees from two start vertices weigh the same.
pub proof fn lemma_weight_independent_of_start(
    m: Seq<Seq<u32>>,
    start1: int,
    edges1: Seq<(usize, usize)>,
    start2: int,
    edges2: Seq<(usize, usize)>,
)
    requires
        is_square(m),
        is_symmetric(m),
        0 <= start1 < m.len(),
        0 <= start2 < m.len(),
        is_greedy_tree(m, start1, edges1),
        is_greedy_tree(m, start2, edges2),
    ensures
        tree_weight(m, edges1) == tree_weight(m, edges2),
{
    let n = m.len();
    lemma_greedy_tree_spans(m, start1, edges1);
    lemma_greedy_tree_spans(m, start2, edges2);
    lemma_no_lighter_tree(m, start1, edges1, start2, parents(edges2, start2, n));
    lemma_no_lighter_tree(m, start2, edges2, start1, parents(edges1, start1, n));
}

} // verus!
