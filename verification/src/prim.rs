//! Prim's algorithm on a dense weight matrix.
//!
//! The tree grows from a start vertex, one vertex per round. Each vertex
//! outside the tree carries the weight of its lightest edge into the tree and
//! the tree vertex at the other end; a round attaches the vertex for which
//! that weight is least, the lowest index winning a tie.

use crate::matrix::grid;
use crate::matrix::is_square;
use crate::matrix::is_symmetric;
use crate::optimal::is_lightest;
use crate::optimal::lemma_greedy_is_lightest;
use crate::vertex_set::VertexSet;
use crate::vertex_set::members;
use vstd::prelude::*;

verus! {

/// The connection weight of a vertex that no edge joins to the tree yet:
/// above every weight that a matrix can hold.
pub const UNREACHED: u64 = 0x1_0000_0000;

/// Why no tree could be built.
#[derive(Clone, Copy, Debug, PartialEq, Eq)]
pub enum TreeError {
    /// A row of the matrix differs in length from the number of rows.
    NotSquare,
    /// The start vertex is not a vertex of the graph.
    StartOutOfRange,
}

/// The state between two rounds: for each vertex the weight of its cheapest
/// known connection and the tree vertex that offers it, and the set of
/// vertices in the tree.
pub ghost struct Frontier {
    pub key: Seq<u64>,
    pub parent: Seq<Option<usize>>,
    pub done: Set<int>,
}

/// The state before the first round.
pub open spec fn initial(n: nat, start: int) -> Frontier {
    Frontier {
        key: Seq::new(
            n,
            |v: int|
                if v == start {
                    0u64
                } else {
                    UNREACHED
                },
        ),
        parent: Seq::new(n, |v: int| None::<usize>),
        done: Set::<int>::empty(),
    }
}

/// `v` is the vertex outside `done` with the least key, and the lowest index
/// among those with that key.
pub open spec fn is_nearest(key: Seq<u64>, done: Set<int>, v: int) -> bool {
    &&& 0 <= v < key.len()
    &&& !done.contains(v)
    &&& forall|u: int|
        0 <= u < key.len() && !done.contains(u) ==> key[v] <= #[trigger] key[u] && (u < v
            ==> key[v] < key[u])
}

/// The vertex that the next round attaches.
pub open spec fn nearest(s: Frontier) -> int {
    choose|v: int| is_nearest(s.key, s.done, v)
}

/// The state after a round that attaches `v`: every vertex still outside the
/// tree to which `v` offers a strictly cheaper connection takes it.
pub open spec fn extend(m: Seq<Seq<u32>>, s: Frontier, v: int) -> Frontier {
    Frontier {
        key: Seq::new(
            s.key.len(),
            |w: int|
                if w != v && !s.done.contains(w) && (m[v][w] as u64) < s.key[w] {
                    m[v][w] as u64
                } else {
                    s.key[w]
                },
        ),
        parent: Seq::new(
            s.parent.len(),
            |w: int|
                if w != v && !s.done.contains(w) && (m[v][w] as u64) < s.key[w] {
                    Some(v as usize)
                } else {
                    s.parent[w]
                },
        ),
        done: s.done.insert(v),
    }
}

/// The state after `k` rounds.
pub open spec fn frontier(m: Seq<Seq<u32>>, start: int, k: nat) -> Frontier
    decreases k,
{
    if k == 0 {
        initial(m.len(), start)
    } else {
        let s = frontier(m, start, (k - 1) as nat);
        extend(m, s, nearest(s))
    }
}

/// The edges (child, parent) of the first `k` vertices, in the order of the
/// children's indices.
pub open spec fn edges_upto(parent: Seq<Option<usize>>, k: nat) -> Seq<(usize, usize)>
    decreases k,
{
    if k == 0 {
        Seq::<(usize, usize)>::empty()
    } else {
        let rest = edges_upto(parent, (k - 1) as nat);
        match parent[k - 1] {
            Some(p) => rest.push(((k - 1) as usize, p)),
            None => rest,
        }
    }
}

/// The edge list that Prim's algorithm gives on `m` from `start`.
pub open spec fn prim_edges(m: Seq<Seq<u32>>, start: int) -> Seq<(usize, usize)> {
    edges_upto(frontier(m, start, m.len()).parent, m.len())
}

/// The child of the `i`-th edge: the vertices but `start`, in rising order.
pub open spec fn child_at(start: int, i: int) -> int {
    if i < start {
        i
    } else {
        i + 1
    }
}

/// `pos` numbers the vertices in an order in which the edges build the tree
/// greedily: `start` comes first, each other vertex comes after its parent,
/// and when a vertex is attached, no edge from an earlier vertex to any
/// vertex not attached before is lighter than the edge that attaches it.
pub open spec fn is_attachment_order(
    m: Seq<Seq<u32>>,
    start: int,
    edges: Seq<(usize, usize)>,
    pos: Seq<int>,
) -> bool {
    &&& pos.len() == m.len()
    &&& forall|v: int| 0 <= v < m.len() ==> 0 <= #[trigger] pos[v] < m.len()
    &&& forall|u: int, v: int|
        0 <= u < m.len() && 0 <= v < m.len() && #[trigger] pos[u] == #[trigger] pos[v] ==> u == v
    &&& pos[start] == 0
    &&& forall|t: int| 0 <= t < m.len() ==> #[trigger] has_place(pos, t)
    &&& forall|i: int| 0 <= i < edges.len() ==> lightest_across(m, pos, #[trigger] edges[i])
}

/// Some vertex stands at place `t` of the order `pos`.
pub open spec fn has_place(pos: Seq<int>, t: int) -> bool {
    exists|v: int| 0 <= v < pos.len() && pos[v] == t
}

/// The edge `e` = (child, parent) joins the child to a vertex attached
/// before it, and is as light as any edge from a vertex attached before the
/// child to one not attached before it.
pub open spec fn lightest_across(m: Seq<Seq<u32>>, pos: Seq<int>, e: (usize, usize)) -> bool {
    let c = e.0 as int;
    let p = e.1 as int;
    &&& 0 <= c < m.len()
    &&& 0 <= p < m.len()
    &&& pos[p] < pos[c]
    &&& forall|u: int, x: int|
        0 <= u < m.len() && 0 <= x < m.len() && pos[u] < pos[c] <= pos[x] ==> m[p][c]
            <= #[trigger] m[u][x]
}

/// `edges` is a spanning tree of the complete graph on `m`'s vertices, rooted
/// at `start`, that some order of attachment builds greedily: every vertex
/// but `start` is the child of exactly one edge, the children in rising order.
pub open spec fn is_greedy_tree(m: Seq<Seq<u32>>, start: int, edges: Seq<(usize, usize)>) -> bool {
    if m.len() == 0 {
        edges.len() == 0
    } else {
        &&& edges.len() == m.len() - 1
        &&& forall|i: int| 0 <= i < edges.len() ==> (#[trigger] edges[i]).0 == child_at(start, i)
        &&& exists|pos: Seq<int>| is_attachment_order(m, start, edges, pos)
    }
}

/// The total weight of `edges`: the sum of the cells of `m` at (parent, child).
pub open spec fn tree_weight(m: Seq<Seq<u32>>, edges: Seq<(usize, usize)>) -> int
    decreases edges.len(),
{
    if edges.len() == 0 {
        0
    } else {
        tree_weight(m, edges.drop_last()) + m[edges.last().1 as int][edges.last().0 as int]
    }
}

/// The place in the edge list of the edge whose child is `v`.
pub open spec fn edge_of(start: int, v: int) -> int {
    if v < start {
        v
    } else {
        v - 1
    }
}

/// The vertex reached from `v` by `steps` steps from child to parent; the
/// start vertex, which has no parent, stays where it is.
pub open spec fn ancestor(edges: Seq<(usize, usize)>, start: int, v: int, steps: nat) -> int
    decreases steps,
{
    if steps == 0 || v == start {
        v
    } else {
        ancestor(edges, start, edges[edge_of(start, v)].1 as int, (steps - 1) as nat)
    }
}

/// In a greedy tree each vertex but the start vertex is the child of exactly
/// one edge.
pub proof fn lemma_child_of_one_edge(
    m: Seq<Seq<u32>>,
    start: int,
    edges: Seq<(usize, usize)>,
    v: int,
)
    requires
        0 <= start < m.len(),
        0 <= v < m.len(),
        v != start,
        is_greedy_tree(m, start, edges),
    ensures
        0 <= edge_of(start, v) < edges.len(),
        edges[edge_of(start, v)].0 == v,
        forall|j: int|
            0 <= j < edges.len() && (#[trigger] edges[j]).0 == v ==> j == edge_of(start, v),
        forall|j: int| 0 <= j < edges.len() ==> (#[trigger] edges[j]).0 != start,
{
}

/// In a greedy tree every vertex is joined to the start vertex: following
/// the edges from child to parent leads there, in fewer steps than there are
/// vertices. So the edges connect all vertices, and close no cycle.
pub proof fn lemma_joined_to_start(
    m: Seq<Seq<u32>>,
    start: int,
    edges: Seq<(usize, usize)>,
    v: int,
)
    requires
        0 <= start < m.len(),
        0 <= v < m.len(),
        is_greedy_tree(m, start, edges),
    ensures
        exists|steps: nat| steps < m.len() && ancestor(edges, start, v, steps) == start,
{
    let pos = choose|pos: Seq<int>| is_attachment_order(m, start, edges, pos);
    lemma_climb(m, start, edges, pos, v);
    assert(ancestor(edges, start, v, pos[v] as nat) == start);
}

/// Following the edges from `v` for as many steps as `v`'s place in the
/// order of attachment leads to the start vertex.
proof fn lemma_climb(
    m: Seq<Seq<u32>>,
    start: int,
    edges: Seq<(usize, usize)>,
    pos: Seq<int>,
    v: int,
)
    requires
        0 <= start < m.len(),
        0 <= v < m.len(),
        is_greedy_tree(m, start, edges),
        is_attachment_order(m, start, edges, pos),
    ensures
        ancestor(edges, start, v, pos[v] as nat) == start,
    decreases pos[v],
{
    if v != start {
        let e = edges[edge_of(start, v)];
        assert(e.0 == child_at(start, edge_of(start, v)));
        assert(lightest_across(m, pos, e));
        let p = e.1 as int;
        assert(pos[p] < pos[v]);
        lemma_climb(m, start, edges, pos, p);
        lemma_climb_on(edges, start, p, pos[p] as nat, (pos[v] - 1) as nat);
    }
}

/// Once the start vertex is reached, further steps stay there.
proof fn lemma_climb_on(edges: Seq<(usize, usize)>, start: int, v: int, a: nat, b: nat)
    requires
        a <= b,
        ancestor(edges, start, v, a) == start,
    ensures
        ancestor(edges, start, v, b) == start,
    decreases a,
{
    if a != 0 && v != start {
        lemma_climb_on(
            edges,
            start,
            edges[edge_of(start, v)].1 as int,
            (a - 1) as nat,
            (b - 1) as nat,
        );
    }
}

/// Vertex `w`, outside the tree after `k` rounds, knows its lightest edge
/// into the tree.
pub open spec fn reaches(m: Seq<Seq<u32>>, s: Frontier, pos: Seq<int>, k: int, w: int) -> bool {
    match s.parent[w] {
        Some(p) => {
            &&& 0 <= p < m.len()
            &&& pos[p as int] < k
            &&& s.key[w] == m[p as int][w]
            &&& forall|u: int|
                0 <= u < m.len() && pos[u] < k ==> s.key[w] <= #[trigger] m[u][w]
        },
        None => false,
    }
}

/// What holds of the state `s` after `k` rounds from `start`, where `pos`
/// gives the round in which each tree vertex was attached, and the number of
/// vertices for those still outside.
pub open spec fn grown(m: Seq<Seq<u32>>, start: int, s: Frontier, pos: Seq<int>, k: int) -> bool {
    let n = m.len() as int;
    &&& 0 <= k <= n
    &&& s.key.len() == n
    &&& s.parent.len() == n
    &&& pos.len() == n
    &&& s.done.finite()
    &&& s.done.len() == k
    &&& forall|v: int| s.done.contains(v) ==> 0 <= v < n
    &&& forall|v: int| 0 <= v < n ==> (s.done.contains(v) <==> #[trigger] pos[v] < k)
    &&& forall|v: int| 0 <= v < n ==> 0 <= #[trigger] pos[v] < k || pos[v] == n
    &&& forall|u: int, v: int|
        0 <= u < n && 0 <= v < n && #[trigger] pos[u] == #[trigger] pos[v] && pos[u] < k ==> u
            == v
    &&& k == 0 ==> s == initial(m.len(), start)
    &&& k > 0 ==> pos[start] == 0 && s.parent[start] is None
    &&& forall|w: int| 0 <= w < n && k > 0 && pos[w] >= k ==> #[trigger] reaches(m, s, pos, k, w)
    &&& forall|w: int| 0 <= w < n && k > 0 && w != start ==> (#[trigger] s.parent[w]) is Some
    &&& forall|w: int|
        0 <= w < n && 0 < pos[w] < k ==> #[trigger] lightest_across(
            m,
            pos,
            (w as usize, s.parent[w].unwrap()),
        )
}

/// While fewer rounds have run than there are vertices, some vertex is
/// outside the tree.
proof fn lemma_unfinished(m: Seq<Seq<u32>>, start: int, s: Frontier, pos: Seq<int>, k: int)
    requires
        grown(m, start, s, pos, k),
        k < m.len(),
    ensures
        exists|x: int| 0 <= x < s.key.len() && !s.done.contains(x),
{
    let n = m.len() as int;
    if forall|x: int| 0 <= x < n ==> s.done.contains(x) {
        let all = vstd::set_lib::set_int_range(0, n);
        vstd::set_lib::lemma_int_range(0, n);
        assert(all.subset_of(s.done));
        vstd::set_lib::lemma_len_subset(all, s.done);
        assert(false);
    }
}

/// After as many rounds as there are vertices, every vertex is in the tree.
proof fn lemma_finished(m: Seq<Seq<u32>>, start: int, s: Frontier, pos: Seq<int>)
    requires
        grown(m, start, s, pos, m.len() as int),
    ensures
        forall|x: int| 0 <= x < m.len() ==> s.done.contains(x),
{
    let n = m.len() as int;
    let all = vstd::set_lib::set_int_range(0, n);
    vstd::set_lib::lemma_int_range(0, n);
    assert(s.done.subset_of(all));
    vstd::set_lib::lemma_subset_equality(s.done, all);
    assert forall|x: int| 0 <= x < n implies s.done.contains(x) by {
        assert(all.contains(x));
    }
}

/// The nearest vertex is unique: a vertex that meets `is_nearest` is the one
/// that the next round attaches.
proof fn lemma_nearest_unique(s: Frontier, v: int)
    requires
        is_nearest(s.key, s.done, v),
    ensures
        nearest(s) == v,
{
    let c = nearest(s);
    assert(is_nearest(s.key, s.done, c));
    if c < v {
        assert(s.key[v] < s.key[c]);
        assert(s.key[c] <= s.key[v]);
    } else if v < c {
        assert(s.key[c] < s.key[v]);
        assert(s.key[v] <= s.key[c]);
    }
}

/// A round keeps what `grown` states.
#[verifier::rlimit(50)]
proof fn lemma_extend(m: Seq<Seq<u32>>, start: int, s: Frontier, pos: Seq<int>, k: int, v: int)
    requires
        is_square(m),
        m.len() <= usize::MAX,
        0 <= start < m.len(),
        grown(m, start, s, pos, k),
        k < m.len(),
        is_nearest(s.key, s.done, v),
    ensures
        grown(m, start, extend(m, s, v), pos.update(v, k), k + 1),
{
    let n = m.len() as int;
    let t = extend(m, s, v);
    let q = pos.update(v, k);
    assert(pos[v] == n);
    if k == 0 {
        assert(s.key[start] == 0);
        assert(!s.done.contains(start));
        assert(v == start);
    } else {
        assert(v != start);
    }
    assert forall|x: int| 0 <= x < n implies (t.done.contains(x) <==> #[trigger] q[x] < k + 1) by {
        assert(pos[x] < k || pos[x] == n);
    }
    assert forall|x: int| 0 <= x < n implies 0 <= #[trigger] q[x] < k + 1 || q[x] == n by {
        assert(pos[x] < k || pos[x] == n);
    }
    assert forall|a: int, b: int|
        0 <= a < n && 0 <= b < n && #[trigger] q[a] == #[trigger] q[b] && q[a] < k + 1 implies a
        == b by {
        assert(pos[a] < k || pos[a] == n);
        assert(pos[b] < k || pos[b] == n);
    }
    assert forall|w: int| 0 <= w < n && q[w] >= k + 1 implies #[trigger] reaches(
        m,
        t,
        q,
        k + 1,
        w,
    ) by {
        assert(w != v);
        assert(pos[w] == n);
        assert(!s.done.contains(w));
        assert(m[v].len() == n);
        if k == 0 {
            assert(s.key[w] == UNREACHED);
            assert(t.parent[w] == Some(v as usize));
            assert forall|u: int| 0 <= u < n && q[u] < k + 1 implies t.key[w]
                <= #[trigger] m[u][w] by {
                assert(pos[u] < k || pos[u] == n);
                assert(u == v);
            }
        } else {
            assert(reaches(m, s, pos, k, w));
            let p = s.parent[w].unwrap() as int;
            assert(p != v);
            assert forall|u: int| 0 <= u < n && q[u] < k + 1 implies t.key[w]
                <= #[trigger] m[u][w] by {
                if u != v {
                    assert(pos[u] < k);
                    assert(s.key[w] <= m[u][w]);
                }
            }
        }
    }
    assert forall|w: int| 0 <= w < n && w != start implies (#[trigger] t.parent[w]) is Some by {
        if k == 0 {
            assert(s.key[w] == UNREACHED);
            assert(m[v].len() == n);
        } else {
            assert(s.parent[w] is Some);
        }
    }
    assert forall|w: int| 0 <= w < n && 0 < q[w] < k + 1 implies #[trigger] lightest_across(
        m,
        q,
        (w as usize, t.parent[w].unwrap()),
    ) by {
        if w == v {
            assert(k > 0);
            assert(reaches(m, s, pos, k, v));
            assert(t.parent[v] == s.parent[v]);
            let p = s.parent[v].unwrap() as int;
            assert(p != v);
            assert forall|u: int, x: int|
                0 <= u < n && 0 <= x < n && q[u] < q[v] <= q[x] implies m[p][v]
                <= #[trigger] m[u][x] by {
                assert(u != v);
                assert(pos[u] < k);
                assert(pos[x] < k || pos[x] == n);
                assert(!s.done.contains(x));
                assert(s.key[v] <= s.key[x]);
                if x != v {
                    assert(reaches(m, s, pos, k, x));
                    assert(s.key[x] <= m[u][x]);
                } else {
                    assert(s.key[v] <= m[u][v]);
                }
            }
        } else {
            assert(pos[w] == q[w]);
            assert(s.done.contains(w));
            assert(t.parent[w] == s.parent[w]);
            assert(lightest_across(m, pos, (w as usize, s.parent[w].unwrap())));
            let p = s.parent[w].unwrap() as int;
            assert(pos[p] < pos[w]);
            assert(p != v);
            assert forall|u: int, x: int|
                0 <= u < n && 0 <= x < n && q[u] < q[w] <= q[x] implies m[p][w]
                <= #[trigger] m[u][x] by {
                assert(pos[u] < k || pos[u] == n);
                assert(u != v);
                assert(pos[x] < k || pos[x] == n);
            }
        }
    }
}

/// Whether every row of `matrix` is as long as the matrix has rows.
pub fn square(matrix: &Vec<Vec<u32>>) -> (b: bool)
    ensures
        b == is_square(grid(matrix@)),
{
    let n: usize = matrix.len();
    let mut i: usize = 0;
    while i < n
        invariant
            i <= n,
            n == matrix@.len(),
            forall|a: int| 0 <= a < i ==> (#[trigger] grid(matrix@)[a]).len() == n,
        decreases n - i,
    {
        if matrix[i].len() != n {
            assert(grid(matrix@)[i as int].len() != n);
            return false;
        }
        i += 1;
    }
    true
}

/// The vertex outside the tree with the least key, the lowest index among
/// equals.
fn nearest_outside(key: &Vec<u64>, in_tree: &VertexSet, Ghost(done): Ghost<Set<int>>) -> (v: usize)
    requires
        forall|x: usize| members(*in_tree).contains(x) <==> done.contains(x as int),
        exists|x: int| 0 <= x < key@.len() && !done.contains(x),
    ensures
        is_nearest(key@, done, v as int),
{
    let n: usize = key.len();
    let mut best: usize = 0;
    let mut found: bool = false;
    let mut i: usize = 0;
    while i < n
        invariant
            i <= n,
            n == key@.len(),
            forall|x: usize| members(*in_tree).contains(x) <==> done.contains(x as int),
            found ==> best < i && !done.contains(best as int) && forall|u: int|
                0 <= u < i && !done.contains(u) ==> key@[best as int] <= #[trigger] key@[u] && (u
                    < best ==> key@[best as int] < key@[u]),
            !found ==> forall|u: int| 0 <= u < i ==> done.contains(u),
        decreases n - i,
    {
        if !crate::vertex_set::contains(in_tree, i) && (!found || key[i] < key[best]) {
            best = i;
            found = true;
        }
        i += 1;
    }
    best
}

/// A vector of `n` copies of `value`.
fn filled<T: Copy>(n: usize, value: T) -> (v: Vec<T>)
    ensures
        v@ == Seq::new(n as nat, |i: int| value),
{
    let mut v: Vec<T> = Vec::new();
    let mut i: usize = 0;
    while i < n
        invariant
            i <= n,
            v@ == Seq::new(i as nat, |j: int| value),
        decreases n - i,
    {
        v.push(value);
        assert(v@ =~= Seq::new((i + 1) as nat, |j: int| value));
        i += 1;
    }
    v
}

/// The edges (child, parent) of the vertices that have a parent, in the
/// order of the children's indices.
fn collect_edges(parent: &Vec<Option<usize>>, start: usize) -> (edges: Vec<(usize, usize)>)
    requires
        start < parent@.len(),
        forall|w: int| 0 <= w < parent@.len() ==> (w != start <==> (#[trigger] parent@[w]) is Some),
    ensures
        edges@ == edges_upto(parent@, parent@.len()),
        edges@.len() == parent@.len() - 1,
        forall|i: int|
            0 <= i < edges@.len() ==> (#[trigger] edges@[i]).0 == child_at(start as int, i)
                && parent@[child_at(start as int, i)] == Some(edges@[i].1),
{
    let n: usize = parent.len();
    let mut edges: Vec<(usize, usize)> = Vec::new();
    let mut c: usize = 0;
    while c < n
        invariant
            c <= n,
            n == parent@.len(),
            start < n,
            forall|w: int| 0 <= w < n ==> (w != start <==> (#[trigger] parent@[w]) is Some),
            edges@ == edges_upto(parent@, c as nat),
            edges@.len() == (if c > start {
                c - 1
            } else {
                c as int
            }),
            forall|i: int|
                0 <= i < edges@.len() ==> (#[trigger] edges@[i]).0 == child_at(start as int, i)
                    && parent@[child_at(start as int, i)] == Some(edges@[i].1),
        decreases n - c,
    {
        assert(c != start <==> parent@[c as int] is Some);
        match parent[c] {
            Some(p) => {
                edges.push((c, p));
            },
            None => {},
        }
        c += 1;
    }
    edges
}

/// Builds a minimum spanning tree of the complete graph whose weights stand
/// in `matrix`, growing it from `start`.
///
/// The result lists one edge (child, parent) for each vertex but `start`. A
/// matrix without vertices gives an empty list, whatever `start` is.
pub fn spanning_tree(matrix: &Vec<Vec<u32>>, start: usize) -> (r: Result<
    Vec<(usize, usize)>,
    TreeError,
>)
    ensures
        match r {
            Ok(edges) => {
                &&& is_square(grid(matrix@))
                &&& (matrix@.len() == 0 || start < matrix@.len())
                &&& edges@ == prim_edges(grid(matrix@), start as int)
                &&& is_greedy_tree(grid(matrix@), start as int, edges@)
                &&& (is_symmetric(grid(matrix@)) ==> is_lightest(grid(matrix@), edges@))
            },
            Err(TreeError::NotSquare) => !is_square(grid(matrix@)),
            Err(TreeError::StartOutOfRange) => {
                &&& is_square(grid(matrix@))
                &&& 0 < matrix@.len() <= start
            },
        },
{
    let n: usize = matrix.len();
    if !square(matrix) {
        return Err(TreeError::NotSquare);
    }
    if n == 0 {
        let empty: Vec<(usize, usize)> = Vec::new();
        proof {
            if is_symmetric(grid(matrix@)) {
                lemma_greedy_is_lightest(grid(matrix@), start as int, empty@);
            }
        }
        return Ok(empty);
    }
    if start >= n {
        return Err(TreeError::StartOutOfRange);
    }
    let ghost g = grid(matrix@);
    let mut key: Vec<u64> = filled(n, UNREACHED);
    key.set(start, 0);
    let mut parent: Vec<Option<usize>> = filled(n, None);
    let mut in_tree: VertexSet = crate::vertex_set::with_capacity(n);
    let ghost mut s: Frontier = initial(n as nat, start as int);
    let ghost mut pos: Seq<int> = Seq::new(n as nat, |v: int| n as int);
    let ghost mut order: Seq<int> = Seq::empty();
    assert(key@ =~= s.key);
    assert(parent@ =~= s.parent);
    let mut k: usize = 0;
    while k < n
        invariant
            k <= n,
            n == matrix@.len(),
            g == grid(matrix@),
            is_square(g),
            start < n,
            grown(g, start as int, s, pos, k as int),
            order.len() == k,
            forall|t: int| 0 <= t < k ==> 0 <= #[trigger] order[t] < n && pos[order[t]] == t,
            s == frontier(g, start as int, k as nat),
            key@ == s.key,
            parent@ == s.parent,
            forall|x: usize| members(in_tree).contains(x) <==> s.done.contains(x as int),
        decreases n - k,
    {
        proof {
            lemma_unfinished(g, start as int, s, pos, k as int);
        }
        let v: usize = nearest_outside(&key, &in_tree, Ghost(s.done));
        proof {
            lemma_nearest_unique(s, v as int);
            lemma_extend(g, start as int, s, pos, k as int, v as int);
        }
        let ghost t = extend(g, s, v as int);
        crate::vertex_set::insert(&mut in_tree, v);
        let mut w: usize = 0;
        while w < n
            invariant
                w <= n,
                v < n,
                n == matrix@.len(),
                g == grid(matrix@),
                is_square(g),
                t == extend(g, s, v as int),
                key@.len() == n,
                parent@.len() == n,
                s.key.len() == n,
                s.parent.len() == n,
                forall|x: usize|
                    members(in_tree).contains(x) <==> (x == v || s.done.contains(x as int)),
                forall|x: int| 0 <= x < w ==> key@[x] == t.key[x] && parent@[x] == t.parent[x],
                forall|x: int| w <= x < n ==> key@[x] == s.key[x] && parent@[x] == s.parent[x],
            decreases n - w,
        {
            assert(g[v as int].len() == n);
            assert(g[v as int][w as int] == matrix@[v as int]@[w as int]);
            if !crate::vertex_set::contains(&in_tree, w) && (matrix[v][w] as u64) < key[w] {
                key.set(w, matrix[v][w] as u64);
                parent.set(w, Some(v));
            }
            w += 1;
        }
        proof {
            assert(key@ =~= t.key);
            assert(parent@ =~= t.parent);
            s = t;
            pos = pos.update(v as int, k as int);
            order = order.push(v as int);
        }
        k += 1;
    }
    proof {
        lemma_finished(g, start as int, s, pos);
        assert forall|w: int| 0 <= w < n implies (w != start <==> (
        #[trigger] parent@[w]) is Some) by {}
    }
    let edges = collect_edges(&parent, start);
    proof {
        assert forall|i: int| 0 <= i < edges@.len() implies lightest_across(
            g,
            pos,
            #[trigger] edges@[i],
        ) by {
            let c = child_at(start as int, i);
            assert(s.done.contains(c));
            assert(pos[c] != pos[start as int]);
            assert(lightest_across(g, pos, (c as usize, s.parent[c].unwrap())));
            assert(edges@[i] == (c as usize, s.parent[c].unwrap()));
        }
        assert forall|v: int| 0 <= v < n implies 0 <= #[trigger] pos[v] < n by {
            assert(s.done.contains(v));
        }
        assert forall|t: int| 0 <= t < n implies #[trigger] has_place(pos, t) by {
            assert(pos[order[t]] == t);
        }
        assert(is_attachment_order(g, start as int, edges@, pos));
        if is_symmetric(g) {
            lemma_greedy_is_lightest(g, start as int, edges@);
        }
    }
    Ok(edges)
}

} // verus!
