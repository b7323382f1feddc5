use spanning_tree::transport::{
    accepted, solve_exercise, solve_former_no_path, solve_former_not_optimal, solve_problem,
    Problem, M,
};

#[test]
fn exercise_instance() {
    let t = solve_exercise(true);
    assert!(t.check);
    assert_eq!(
        t.problem.costs,
        vec![vec![7, 5, 5, 0], vec![3, 10, 10, M], vec![3, 10, 10, 0], vec![M, M, 0, 0]]
    );
    assert_eq!(t.problem.supply, vec![30, 20, 80, 80]);
    assert_eq!(t.problem.demand, vec![40, 40, 20, 110]);
    assert!(!solve_exercise(false).check);
}

#[test]
fn former_no_path_instance() {
    let t = solve_former_no_path(false);
    assert!(!t.check);
    assert_eq!(
        t.problem.costs,
        vec![vec![7, 10, M, 10], vec![5, 4, 7, 4], vec![4, 6, 8, 4], vec![M, 1, 4, 4]]
    );
    assert_eq!(t.problem.supply, vec![1, 6, 10, 8]);
    assert_eq!(t.problem.demand, vec![M, 1, 4, 13]);
}

#[test]
fn former_not_optimal_instance() {
    let t = solve_former_not_optimal(true);
    assert!(t.check);
    assert_eq!(
        t.problem.costs,
        vec![vec![7, 10, M, 10], vec![5, 4, 7, 4], vec![4, 6, 8, 4], vec![M, 1, 4, 4]]
    );
    assert_eq!(t.problem.supply, vec![1, 6, 10, 8]);
    assert_eq!(t.problem.demand, vec![6, 2, 4, 13]);
    let total: u32 = t.problem.supply.iter().sum();
    assert_eq!(total, t.problem.demand.iter().sum::<u32>());
}

#[test]
fn problem_is_paired_with_the_request() {
    let p = Problem { costs: vec![vec![1, 2]], supply: vec![3], demand: vec![1, 2] };
    let t = solve_problem(p, true);
    assert!(t.check);
    assert_eq!(t.problem.costs, vec![vec![1, 2]]);
    assert_eq!(t.problem.supply, vec![3]);
    assert_eq!(t.problem.demand, vec![1, 2]);
}

#[test]
fn only_status_zero_accepts() {
    assert!(accepted(0));
    assert!(!accepted(1));
    assert!(!accepted(-1));
    assert!(!accepted(i32::MIN));
}
