//! The recurrence that a solved table satisfies, stated over the views of the
//! cost table and the value table.

use crate::grid::{action_at, admissible, GridPoint, ACTION_COUNT};
use crate::table::{stage_keys, Cell};
use vstd::prelude::*;

verus! {

/// The view of a cost table.
pub type Costs = Map<(GridPoint, int), Option<u32>>;

/// The view of a value table.
pub type Cells = Map<(int, GridPoint), Cell>;

/// The time to the goal from `p` at `stage` when the displacement with
/// ordinal `a` is taken first: the time of that transition plus the
/// time-to-go recorded for the point it leads to at the next stage. `None`
/// stands for infinity: the move leaves the grid, or the transition has no
/// finite time, or no finite time-to-go is recorded for the next point.
pub open spec fn candidate(n: int, costs: Costs, cells: Cells, stage: int, p: GridPoint, a: int)
    -> Option<int> {
    if admissible(n, p, a) {
        match (costs[(p, a)], cells[(stage + 1, p.shifted(action_at(a)))].time()) {
            (Some(c), Some(t)) => Some(c + t),
            _ => None,
        }
    } else {
        None
    }
}

/// Whether `cell` records the least candidate among the displacements with
/// ordinals below `count`, and the lowest ordinal that attains it; or records
/// that none of them has a finite candidate.
pub open spec fn best_among(
    n: int,
    costs: Costs,
    cells: Cells,
    stage: int,
    p: GridPoint,
    count: int,
    cell: Cell,
) -> bool {
    match cell {
        Cell::Unreached => forall|a: int|
            0 <= a < count ==> (#[trigger] candidate(n, costs, cells, stage, p, a)).is_none(),
        Cell::Terminal => false,
        Cell::Reachable { value, action } => {
            &&& action < count
            &&& candidate(n, costs, cells, stage, p, action as int) == Some(value as int)
            &&& forall|a: int|
                0 <= a < count ==> match #[trigger] candidate(n, costs, cells, stage, p, a) {
                    Some(t) => value < t || (value == t && action <= a),
                    None => true,
                }
        },
    }
}

/// Whether the cell recorded for `p` at `stage` is the best over the whole
/// catalogue of displacements.
pub open spec fn optimal_at(n: int, costs: Costs, cells: Cells, stage: int, p: GridPoint) -> bool {
    best_among(n, costs, cells, stage, p, ACTION_COUNT as int, cells[(stage, p)])
}

/// What may stand in the cell for `p` at `stage`, solved or not: the goal is
/// marked at the last stage only, a chosen displacement stays inside the grid
/// and leads to a later stage, and a recorded time is bounded by the number
/// of stages left.
pub open spec fn cell_consistent(
    n: int,
    horizon: int,
    goal: GridPoint,
    stage: int,
    p: GridPoint,
    cell: Cell,
) -> bool {
    match cell {
        Cell::Unreached => true,
        Cell::Terminal => stage == horizon && p == goal,
        Cell::Reachable { value, action } => {
            &&& stage < horizon
            &&& admissible(n, p, action as int)
            &&& value <= (horizon - stage) * u32::MAX
        },
    }
}

/// Whether every cell of the table is consistent.
pub open spec fn consistent(n: int, horizon: int, goal: GridPoint, cells: Cells) -> bool {
    &&& cells.dom() == stage_keys(n, horizon)
    &&& forall|stage: int, p: GridPoint|
        0 <= stage <= horizon && p.within(n) ==> cell_consistent(
            n,
            horizon,
            goal,
            stage,
            p,
            #[trigger] cells[(stage, p)],
        )
}

/// Whether the table is solved: at the last stage the goal is marked and
/// every other point is unreached, and at every earlier stage every cell is
/// the best over the catalogue with respect to the next stage.
pub open spec fn solved(n: int, horizon: int, goal: GridPoint, costs: Costs, cells: Cells) -> bool {
    &&& cells[(horizon, goal)] == Cell::Terminal
    &&& forall|p: GridPoint|
        p.within(n) && p != goal ==> #[trigger] cells[(horizon, p)] == Cell::Unreached
    &&& forall|stage: int, p: GridPoint|
        0 <= stage < horizon && p.within(n) ==> #[trigger] optimal_at(n, costs, cells, stage, p)
}

/// A candidate at `stage` depends on the cells of the next stage only.
pub proof fn lemma_candidate_frame(
    n: int,
    costs: Costs,
    before: Cells,
    after: Cells,
    stage: int,
    p: GridPoint,
    a: int,
)
    requires
        forall|q: GridPoint| q.within(n) ==> before[(stage + 1, q)] == after[(stage + 1, q)],
    ensures
        candidate(n, costs, before, stage, p, a) == candidate(n, costs, after, stage, p, a),
{
    if admissible(n, p, a) {
        let q = p.shifted(action_at(a));
        assert(q.within(n));
    }
}

/// Being the best at `stage` depends on the cells of the next stage only.
pub proof fn lemma_best_frame(
    n: int,
    costs: Costs,
    before: Cells,
    after: Cells,
    stage: int,
    p: GridPoint,
    count: int,
    cell: Cell,
)
    requires
        forall|q: GridPoint| q.within(n) ==> before[(stage + 1, q)] == after[(stage + 1, q)],
        best_among(n, costs, before, stage, p, count, cell),
    ensures
        best_among(n, costs, after, stage, p, count, cell),
{
    assert forall|a: int|
        candidate(n, costs, before, stage, p, a) == #[trigger] candidate(
            n,
            costs,
            after,
            stage,
            p,
            a,
        ) by {
        lemma_candidate_frame(n, costs, before, after, stage, p, a);
    }
}

/// At most one cell is the best among the first `count` displacements.
pub proof fn lemma_best_unique(
    n: int,
    costs: Costs,
    cells: Cells,
    stage: int,
    p: GridPoint,
    count: int,
    first: Cell,
    second: Cell,
)
    requires
        best_among(n, costs, cells, stage, p, count, first),
        best_among(n, costs, cells, stage, p, count, second),
    ensures
        first == second,
{
    match (first, second) {
        (Cell::Reachable { value: v1, action: a1 }, Cell::Reachable { value: v2, action: a2 }) => {
            assert(candidate(n, costs, cells, stage, p, a1 as int) == Some(v1 as int));
            assert(candidate(n, costs, cells, stage, p, a2 as int) == Some(v2 as int));
        },
        (Cell::Reachable { value, action }, Cell::Unreached) => {
            assert(candidate(n, costs, cells, stage, p, action as int) == Some(value as int));
        },
        (Cell::Unreached, Cell::Reachable { value, action }) => {
            assert(candidate(n, costs, cells, stage, p, action as int) == Some(value as int));
        },
        _ => {},
    }
}

/// The recurrence has one solution: two solved tables over the same grid,
/// stage budget, goal and transition times hold the same cells.
pub proof fn lemma_solution_unique(
    n: int,
    horizon: int,
    goal: GridPoint,
    costs: Costs,
    first: Cells,
    second: Cells,
)
    requires
        0 <= horizon,
        goal.within(n),
        first.dom() == stage_keys(n, horizon),
        second.dom() == stage_keys(n, horizon),
        solved(n, horizon, goal, costs, first),
        solved(n, horizon, goal, costs, second),
    ensures
        first == second,
{
    lemma_stages_agree(n, horizon, goal, costs, first, second, 0);
    assert forall|key: (int, GridPoint)| first.dom().contains(key) implies first[key]
        == second[key] by {
        assert(first[(key.0, key.1)] == second[(key.0, key.1)]);
    }
    assert(first =~= second);
}

/// Two solved tables agree from stage `from` on.
proof fn lemma_stages_agree(
    n: int,
    horizon: int,
    goal: GridPoint,
    costs: Costs,
    first: Cells,
    second: Cells,
    from: int,
)
    requires
        0 <= from <= horizon,
        goal.within(n),
        solved(n, horizon, goal, costs, first),
        solved(n, horizon, goal, costs, second),
    ensures
        forall|stage: int, p: GridPoint|
            from <= stage <= horizon && p.within(n) ==> #[trigger] first[(stage, p)] == second[(
                stage,
                p,
            )],
    decreases horizon - from,
{
    if from < horizon {
        lemma_stages_agree(n, horizon, goal, costs, first, second, from + 1);
        assert forall|p: GridPoint| p.within(n) implies #[trigger] first[(from, p)] == second[(
            from,
            p,
        )] by {
            assert(optimal_at(n, costs, first, from, p));
            assert(optimal_at(n, costs, second, from, p));
            lemma_best_frame(
                n,
                costs,
                second,
                first,
                from,
                p,
                ACTION_COUNT as int,
                second[(from, p)],
            );
            lemma_best_unique(
                n,
                costs,
                first,
                from,
                p,
                ACTION_COUNT as int,
                first[(from, p)],
                second[(from, p)],
            );
        }
    } else {
        assert forall|p: GridPoint| p.within(n) implies #[trigger] first[(horizon, p)] == second[(
            horizon,
            p,
        )] by {
            if p != goal {
                assert(first[(horizon, p)] == Cell::Unreached);
                assert(second[(horizon, p)] == Cell::Unreached);
            }
        }
    }
}

} // verus!
