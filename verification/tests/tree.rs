use spanning_tree::matrix::{assemble, distance_matrix, upper_row};
use spanning_tree::metric::Distance;
use spanning_tree::prim::{spanning_tree, square, TreeError, UNREACHED};
use spanning_tree::solver::solve;

// Each metric below gives `metric`, the distance as a mathematical function,
// a body that is never run: only `distance` is called.

/// Points on a line; the distance is the gap between them.
struct Gap;

impl Distance<u32> for Gap {
    fn metric(_: u32, _: u32) -> u32 {
        unreachable!()
    }

    fn distance(a: &u32, b: &u32) -> u32 {
        if a < b { b - a } else { a - b }
    }
}

/// A metric that is not symmetric by itself.
struct Skew;

impl Distance<u32> for Skew {
    fn metric(_: u32, _: u32) -> u32 {
        unreachable!()
    }

    fn distance(a: &u32, b: &u32) -> u32 {
        a * 10 + b
    }
}

/// Points in the plane, with the Euclidean distance scaled by a thousand.
struct Milli;

impl Distance<(i64, i64)> for Milli {
    fn metric(_: (i64, i64), _: (i64, i64)) -> u32 {
        unreachable!()
    }

    fn distance(a: &(i64, i64), b: &(i64, i64)) -> u32 {
        let dx = (a.0 - b.0) as f64;
        let dy = (a.1 - b.1) as f64;
        ((dx * dx + dy * dy).sqrt() * 1000.0).round() as u32
    }
}

/// Points in the plane, with the Euclidean distance as the bits of an `f32`.
struct Bits;

impl Distance<(f32, f32)> for Bits {
    fn metric(_: (f32, f32), _: (f32, f32)) -> u32 {
        unreachable!()
    }

    fn distance(a: &(f32, f32), b: &(f32, f32)) -> u32 {
        let dx = a.0 - b.0;
        let dy = a.1 - b.1;
        (dx * dx + dy * dy).sqrt().to_bits()
    }
}

fn weight(m: &Vec<Vec<u32>>, edges: &Vec<(usize, usize)>) -> u64 {
    edges.iter().map(|&(c, p)| m[p][c] as u64).sum()
}

fn find(root: &mut Vec<usize>, mut v: usize) -> usize {
    while root[v] != v {
        root[v] = root[root[v]];
        v = root[v];
    }
    v
}

/// Kruskal's algorithm with union-find: the weight of a minimum spanning tree.
fn kruskal_weight(m: &Vec<Vec<u32>>) -> u64 {
    let n = m.len();
    let mut all: Vec<(u32, usize, usize)> = Vec::new();
    for i in 0..n {
        for j in (i + 1)..n {
            all.push((m[i][j], i, j));
        }
    }
    all.sort();
    let mut root: Vec<usize> = (0..n).collect();
    let mut total: u64 = 0;
    for (w, i, j) in all {
        let a = find(&mut root, i);
        let b = find(&mut root, j);
        if a != b {
            root[a] = b;
            total += w as u64;
        }
    }
    total
}

/// Whether adding the edges one by one never joins two vertices that are
/// joined already, and leaves all vertices in one component.
fn is_tree(n: usize, edges: &Vec<(usize, usize)>) -> bool {
    let mut root: Vec<usize> = (0..n).collect();
    for &(c, p) in edges {
        let a = find(&mut root, c);
        let b = find(&mut root, p);
        if a == b {
            return false;
        }
        root[a] = b;
    }
    let r = if n > 0 { find(&mut root, 0) } else { 0 };
    (0..n).all(|v| find(&mut root, v) == r)
}

fn random_matrix(n: usize, seed: &mut u64, span: u32) -> Vec<Vec<u32>> {
    let mut m = vec![vec![0u32; n]; n];
    for i in 0..n {
        for j in (i + 1)..n {
            *seed = seed.wrapping_mul(6364136223846793005).wrapping_add(1442695040888963407);
            let w = ((*seed >> 33) as u32) % span;
            m[i][j] = w;
            m[j][i] = w;
        }
    }
    m
}

#[test]
fn no_points_give_empty_outputs() {
    let points: Vec<u32> = Vec::new();
    let (edges, m) = solve::<u32, Gap>(&points, 0).unwrap();
    assert!(edges.is_empty());
    assert!(m.is_empty());
    let (edges, m) = solve::<u32, Gap>(&points, 7).unwrap();
    assert!(edges.is_empty());
    assert!(m.is_empty());
}

#[test]
fn single_point() {
    let (edges, m) = solve::<u32, Gap>(&[42], 0).unwrap();
    assert_eq!(m, vec![vec![0]]);
    assert_eq!(edges, Vec::<(usize, usize)>::new());
}

#[test]
fn two_points_five_apart() {
    let (edges, m) = solve::<u32, Gap>(&[10, 15], 0).unwrap();
    assert_eq!(m, vec![vec![0, 5], vec![5, 0]]);
    assert_eq!(edges, vec![(1, 0)]);
    assert_eq!(weight(&m, &edges), 5);
    let (edges, m) = solve::<u32, Gap>(&[10, 15], 1).unwrap();
    assert_eq!(m, vec![vec![0, 5], vec![5, 0]]);
    assert_eq!(edges, vec![(0, 1)]);
    assert_eq!(weight(&m, &edges), 5);
}

#[test]
fn unit_square_in_thousandths() {
    let corners = [(0, 0), (1, 0), (1, 1), (0, 1)];
    for start in 0..4 {
        let (edges, m) = solve::<(i64, i64), Milli>(&corners, start).unwrap();
        assert_eq!(m[0], vec![0, 1000, 1414, 1000]);
        assert_eq!(edges.len(), 3);
        assert_eq!(weight(&m, &edges), 3000);
        for &(c, p) in &edges {
            assert_eq!(m[p][c], 1000);
        }
    }
}

#[test]
fn unit_square_in_float_bits() {
    let corners = [(0.0f32, 0.0f32), (1.0, 0.0), (1.0, 1.0), (0.0, 1.0)];
    let (edges, m) = solve::<(f32, f32), Bits>(&corners, 0).unwrap();
    assert_eq!(edges, vec![(1, 0), (2, 1), (3, 0)]);
    let total: f32 = edges.iter().map(|&(c, p)| f32::from_bits(m[p][c])).sum();
    assert_eq!(total, 3.0);
    assert_eq!(f32::from_bits(m[0][2]), 2.0f32.sqrt());
    assert_eq!(m[1][1], 0);
}

#[test]
fn start_out_of_range_is_rejected() {
    assert_eq!(solve::<u32, Gap>(&[1, 2, 3], 3).unwrap_err(), TreeError::StartOutOfRange);
    assert_eq!(solve::<u32, Gap>(&[1], 536).unwrap_err(), TreeError::StartOutOfRange);
    let m = vec![vec![0, 1], vec![1, 0]];
    assert_eq!(spanning_tree(&m, 2), Err(TreeError::StartOutOfRange));
    assert_eq!(spanning_tree(&m, usize::MAX), Err(TreeError::StartOutOfRange));
}

#[test]
fn ragged_matrix_is_rejected() {
    let m = vec![vec![0, 1], vec![1]];
    assert!(!square(&m));
    assert_eq!(spanning_tree(&m, 0), Err(TreeError::NotSquare));
    let wide = vec![vec![0, 1, 2]];
    assert_eq!(spanning_tree(&wide, 0), Err(TreeError::NotSquare));
    assert_eq!(spanning_tree(&wide, 9), Err(TreeError::NotSquare));
    assert!(square(&vec![vec![0, 1], vec![1, 0]]));
    assert!(square(&Vec::new()));
}

#[test]
fn matrix_is_symmetric_with_zero_diagonal() {
    let points = [3u32, 1, 4, 1, 5, 9, 2, 6];
    let m = distance_matrix::<u32, Skew>(&points);
    assert_eq!(m.len(), 8);
    for i in 0..8 {
        assert_eq!(m[i].len(), 8);
        assert_eq!(m[i][i], 0);
        for j in 0..8 {
            assert_eq!(m[i][j], m[j][i]);
            if i < j {
                assert_eq!(m[i][j], points[i] * 10 + points[j]);
            }
        }
    }
}

#[test]
fn rows_right_of_the_diagonal() {
    let points = [1u32, 4, 9, 16];
    assert_eq!(upper_row::<u32, Gap>(&points, 0), vec![3, 8, 15]);
    assert_eq!(upper_row::<u32, Gap>(&points, 2), vec![7]);
    assert_eq!(upper_row::<u32, Gap>(&points, 3), Vec::<u32>::new());
    let m = assemble(&vec![vec![3, 8, 15], vec![5, 12], vec![7], vec![]]);
    assert_eq!(
        m,
        vec![vec![0, 3, 8, 15], vec![3, 0, 5, 12], vec![8, 5, 0, 7], vec![15, 12, 7, 0]]
    );
    assert_eq!(distance_matrix::<u32, Gap>(&points), m);
}

#[test]
fn large_matrix_matches_the_metric() {
    let points: Vec<u32> = (0..300u32).map(|i| (i * 7919) % 1009).collect();
    let m = distance_matrix::<u32, Gap>(&points);
    for i in 0..300 {
        for j in 0..300 {
            assert_eq!(m[i][j], Gap::distance(&points[i], &points[j]));
        }
    }
}

#[test]
fn every_other_vertex_is_a_child_once() {
    let mut seed = 11u64;
    for n in 1..=12usize {
        let m = random_matrix(n, &mut seed, 50);
        for start in 0..n {
            let edges = spanning_tree(&m, start).unwrap();
            assert_eq!(edges.len(), n - 1);
            let children: Vec<usize> = edges.iter().map(|e| e.0).collect();
            let expected: Vec<usize> = (0..n).filter(|&v| v != start).collect();
            assert_eq!(children, expected);
            assert!(edges.iter().all(|e| e.1 < n && e.1 != e.0));
            assert!(is_tree(n, &edges));
        }
    }
}

#[test]
fn same_input_same_tree() {
    let mut seed = 5u64;
    let m = random_matrix(10, &mut seed, 4);
    let first = spanning_tree(&m, 3).unwrap();
    let second = spanning_tree(&m, 3).unwrap();
    assert_eq!(first, second);
    assert_eq!(weight(&m, &first), weight(&m, &second));
    let points = [8u32, 3, 5, 13, 1];
    assert_eq!(solve::<u32, Gap>(&points, 2).unwrap(), solve::<u32, Gap>(&points, 2).unwrap());
}

#[test]
fn weight_equals_kruskal() {
    let mut seed = 2024u64;
    for round in 0..40usize {
        let n = 1 + round % 12;
        let span = if round % 2 == 0 { 5 } else { 1000 };
        let m = random_matrix(n, &mut seed, span);
        let edges = spanning_tree(&m, round % n).unwrap();
        assert_eq!(weight(&m, &edges), kruskal_weight(&m));
    }
}

#[test]
fn weight_does_not_depend_on_start() {
    let mut seed = 77u64;
    for n in 1..=12usize {
        let m = random_matrix(n, &mut seed, 6);
        let base = weight(&m, &spanning_tree(&m, 0).unwrap());
        for start in 1..n {
            assert_eq!(weight(&m, &spanning_tree(&m, start).unwrap()), base);
        }
    }
}

#[test]
fn ties_go_to_the_lowest_index() {
    let m = vec![vec![0, 1, 1, 1], vec![1, 0, 1, 1], vec![1, 1, 0, 1], vec![1, 1, 1, 0]];
    assert_eq!(spanning_tree(&m, 0).unwrap(), vec![(1, 0), (2, 0), (3, 0)]);
    assert_eq!(spanning_tree(&m, 2).unwrap(), vec![(0, 2), (1, 2), (3, 2)]);
}

#[test]
fn a_chain_is_followed() {
    let m = vec![
        vec![0, 9, 9, 1],
        vec![9, 0, 2, 9],
        vec![9, 2, 0, 3],
        vec![1, 9, 3, 0],
    ];
    assert_eq!(spanning_tree(&m, 0).unwrap(), vec![(1, 2), (2, 3), (3, 0)]);
    assert_eq!(spanning_tree(&m, 1).unwrap(), vec![(0, 3), (2, 1), (3, 2)]);
}

#[test]
fn heaviest_weights_still_connect() {
    let x = u32::MAX;
    let m = vec![vec![0, x, x], vec![x, 0, x], vec![x, x, 0]];
    assert_eq!(spanning_tree(&m, 1).unwrap(), vec![(0, 1), (2, 1)]);
    assert!(UNREACHED > x as u64);
}

#[test]
fn rows_of_an_asymmetric_matrix_are_read_from_the_tree_side() {
    let m = vec![vec![0, 5, 1], vec![1, 0, 1], vec![9, 2, 0]];
    assert_eq!(spanning_tree(&m, 0).unwrap(), vec![(1, 2), (2, 0)]);
}
