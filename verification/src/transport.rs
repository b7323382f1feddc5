//! Transportation problems: the instances that a solver is exercised on.
//!
//! The solver and the program that checks its answers stand outside this
//! library. What is here is the data handed to them, and the reading of the
//! checker's verdict.

use vstd::prelude::*;

verus! {

/// The cost that closes a route, and the amount that stands for "without
/// bound" in a supply or demand.
pub const M: u32 = 1_000_000;

/// A transportation problem: the cost of each route from a supplier (row) to
/// a consumer (column), what each supplier offers and what each consumer asks.
pub struct Problem {
    pub costs: Vec<Vec<u32>>,
    pub supply: Vec<u32>,
    pub demand: Vec<u32>,
}

impl Problem {
    /// The cost table as sequences.
    pub open spec fn table(self) -> Seq<Seq<u32>> {
        Seq::new(self.costs@.len(), |i: int| self.costs@[i]@)
    }

    /// There is one row of costs for each supplier and one column for each
    /// consumer.
    pub open spec fn well_formed(self) -> bool {
        &&& self.costs@.len() == self.supply@.len()
        &&& forall|i: int|
            0 <= i < self.costs@.len() ==> (#[trigger] self.costs@[i])@.len() == self.demand@.len()
    }
}

/// A problem to be solved, and whether the answer is to be checked.
pub struct Task {
    pub problem: Problem,
    pub check: bool,
}

/// Whether the checker accepted an answer: it does so by ending with status
/// zero, and rejects with any other.
pub fn accepted(status: i32) -> (ok: bool)
    ensures
        ok == (status == 0),
{
    status == 0
}

/// Pairs `problem` with the request to check its answer.
pub fn solve_problem(problem: Problem, check: bool) -> (t: Task)
    ensures
        t.problem == problem,
        t.check == check,
{
    Task { problem, check }
}

/// The exercise instance: four suppliers and four consumers, with closed
/// routes in the second and the last row.
pub fn solve_exercise(check: bool) -> (t: Task)
    ensures
        t.check == check,
        t.problem.well_formed(),
        t.problem.table() == seq![
            seq![7u32, 5, 5, 0],
            seq![3u32, 10, 10, M],
            seq![3u32, 10, 10, 0],
            seq![M, M, 0, 0],
        ],
        t.problem.supply@ == seq![30u32, 20, 80, 80],
        t.problem.demand@ == seq![40u32, 40, 20, 110],
{
    let costs: Vec<Vec<u32>> = vec![
        vec![7, 5, 5, 0],
        vec![3, 10, 10, M],
        vec![3, 10, 10, 0],
        vec![M, M, 0, 0],
    ];
    let supply: Vec<u32> = vec![30, 20, 80, 80];
    let demand: Vec<u32> = vec![40, 40, 20, 110];
    let problem = Problem { costs, supply, demand };
    assert(problem.table() =~~= seq![
        seq![7u32, 5, 5, 0],
        seq![3u32, 10, 10, M],
        seq![3u32, 10, 10, 0],
        seq![M, M, 0, 0],
    ]);
    solve_problem(problem, check)
}

/// An instance on which one consumer asks without bound, so that supply
/// cannot meet demand.
pub fn solve_former_no_path(check: bool) -> (t: Task)
    ensures
        t.check == check,
        t.problem.well_formed(),
        t.problem.table() == seq![
            seq![7u32, 10, M, 10],
            seq![5u32, 4, 7, 4],
            seq![4u32, 6, 8, 4],
            seq![M, 1, 4, 4],
        ],
        t.problem.supply@ == seq![1u32, 6, 10, 8],
        t.problem.demand@ == seq![M, 1, 4, 13],
{
    let costs: Vec<Vec<u32>> = vec![
        vec![7, 10, M, 10],
        vec![5, 4, 7, 4],
        vec![4, 6, 8, 4],
        vec![M, 1, 4, 4],
    ];
    let supply: Vec<u32> = vec![1, 6, 10, 8];
    let demand: Vec<u32> = vec![M, 1, 4, 13];
    let problem = Problem { costs, supply, demand };
    assert(problem.table() =~~= seq![
        seq![7u32, 10, M, 10],
        seq![5u32, 4, 7, 4],
        seq![4u32, 6, 8, 4],
        seq![M, 1, 4, 4],
    ]);
    solve_problem(problem, check)
}

/// The same routes and supply with a balanced demand.
pub fn solve_former_not_optimal(check: bool) -> (t: Task)
    ensures
        t.check == check,
        t.problem.well_formed(),
        t.problem.table() == seq![
            seq![7u32, 10, M, 10],
            seq![5u32, 4, 7, 4],
            seq![4u32, 6, 8, 4],
            seq![M, 1, 4, 4],
        ],
        t.problem.supply@ == seq![1u32, 6, 10, 8],
        t.problem.demand@ == seq![6u32, 2, 4, 13],
{
    let costs: Vec<Vec<u32>> = vec![
        vec![7, 10, M, 10],
        vec![5, 4, 7, 4],
        vec![4, 6, 8, 4],
        vec![M, 1, 4, 4],
    ];
    let supply: Vec<u32> = vec![1, 6, 10, 8];
    let demand: Vec<u32> = vec![6, 2, 4, 13];
    let problem = Problem { costs, supply, demand };
    assert(problem.table() =~~= seq![
        seq![7u32, 10, M, 10],
        seq![5u32, 4, 7, 4],
        seq![4u32, 6, 8, 4],
        seq![M, 1, 4, 4],
    ]);
    solve_problem(problem, check)
}

} // verus!
