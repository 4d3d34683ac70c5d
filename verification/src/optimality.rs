//! What a solved table means: the time-to-go of a cell is the least total
//! time over all walks that reach the goal exactly at the last stage, and the
//! recorded displacements form such a walk.

use crate::grid::{action_at, admissible, GridPoint, ACTION_COUNT};
use crate::path::path_from;
use crate::recurrence::{candidate, optimal_at, solved, Cells, Costs};
use crate::table::Cell;
use vstd::prelude::*;

verus! {

/// The point reached from `p` by taking the displacements whose ordinals
/// `walk` lists, one per stage.
pub open spec fn walk_end(p: GridPoint, walk: Seq<int>) -> GridPoint
    decreases walk.len(),
{
    if walk.len() == 0 {
        p
    } else {
        walk_end(p.shifted(action_at(walk[0])), walk.skip(1))
    }
}

/// The total time of taking the displacements whose ordinals `walk` lists
/// from `p`, one per stage. `None` stands for infinity: some move leaves the
/// grid of resolution `n`, or some transition has no finite time.
pub open spec fn walk_time(n: int, costs: Costs, p: GridPoint, walk: Seq<int>) -> Option<int>
    decreases walk.len(),
{
    if walk.len() == 0 {
        Some(0)
    } else if admissible(n, p, walk[0]) {
        match (
            costs[(p, walk[0])],
            walk_time(n, costs, p.shifted(action_at(walk[0])), walk.skip(1)),
        ) {
            (Some(c), Some(t)) => Some(c + t),
            _ => None,
        }
    } else {
        None
    }
}

/// The ordinals of the displacements that the table records from `p` at
/// `stage` on, one per stage, as long as the cell holds a chosen displacement.
pub open spec fn chosen_walk(horizon: int, cells: Cells, stage: int, p: GridPoint) -> Seq<int>
    decreases horizon - stage,
{
    if 0 <= stage < horizon {
        match cells[(stage, p)] {
            Cell::Reachable { value, action } => seq![action as int] + chosen_walk(
                horizon,
                cells,
                stage + 1,
                p.shifted(action_at(action as int)),
            ),
            _ => Seq::empty(),
        }
    } else {
        Seq::empty()
    }
}

/// In a solved table a chosen displacement is recorded before the last stage
/// only.
pub proof fn lemma_reachable_before_last(
    n: int,
    horizon: int,
    goal: GridPoint,
    costs: Costs,
    cells: Cells,
    stage: int,
    p: GridPoint,
)
    requires
        solved(n, horizon, goal, costs, cells),
        0 <= stage <= horizon,
        p.within(n),
        cells[(stage, p)].choice().is_some(),
    ensures
        stage < horizon,
{
    if stage == horizon {
        if p != goal {
            assert(cells[(horizon, p)] == Cell::Unreached);
        }
    }
}

/// In a solved table the goal is marked at the last stage only.
pub proof fn lemma_terminal_is_goal(
    n: int,
    horizon: int,
    goal: GridPoint,
    costs: Costs,
    cells: Cells,
    stage: int,
    p: GridPoint,
)
    requires
        solved(n, horizon, goal, costs, cells),
        0 <= stage <= horizon,
        p.within(n),
        cells[(stage, p)] == Cell::Terminal,
    ensures
        stage == horizon,
        p == goal,
{
    if stage < horizon {
        assert(optimal_at(n, costs, cells, stage, p));
    } else if p != goal {
        assert(cells[(horizon, p)] == Cell::Unreached);
    }
}

/// No walk beats the table: a walk from `p` at `stage` that reaches the goal
/// exactly at the last stage in finite time shows that the cell for `p` at
/// `stage` has a finite time-to-go, and that this is at most the time of the
/// walk.
pub proof fn lemma_value_is_lower_bound(
    n: int,
    horizon: int,
    goal: GridPoint,
    costs: Costs,
    cells: Cells,
    stage: int,
    p: GridPoint,
    walk: Seq<int>,
)
    requires
        solved(n, horizon, goal, costs, cells),
        0 <= stage <= horizon,
        p.within(n),
        walk.len() == horizon - stage,
        walk_time(n, costs, p, walk).is_some(),
        walk_end(p, walk) == goal,
    ensures
        cells[(stage, p)].time().is_some(),
        cells[(stage, p)].time().unwrap() <= walk_time(n, costs, p, walk).unwrap(),
    decreases walk.len(),
{
    if walk.len() > 0 {
        let a = walk[0];
        let q = p.shifted(action_at(a));
        lemma_value_is_lower_bound(n, horizon, goal, costs, cells, stage + 1, q, walk.skip(1));
        assert(candidate(n, costs, cells, stage, p, a).is_some());
        assert(optimal_at(n, costs, cells, stage, p));
    }
}

/// The table is attained: from a cell with a chosen displacement the
/// recorded displacements make a walk of one step per stage left, which
/// reaches the goal exactly at the last stage and takes exactly the
/// time-to-go of the cell.
pub proof fn lemma_value_is_attained(
    n: int,
    horizon: int,
    goal: GridPoint,
    costs: Costs,
    cells: Cells,
    stage: int,
    p: GridPoint,
)
    requires
        solved(n, horizon, goal, costs, cells),
        0 <= stage <= horizon,
        p.within(n),
        cells[(stage, p)].choice().is_some(),
    ensures
        chosen_walk(horizon, cells, stage, p).len() == horizon - stage,
        walk_end(p, chosen_walk(horizon, cells, stage, p)) == goal,
        walk_time(n, costs, p, chosen_walk(horizon, cells, stage, p)) == cells[(stage, p)].time(),
    decreases horizon - stage,
{
    lemma_reachable_before_last(n, horizon, goal, costs, cells, stage, p);
    assert(optimal_at(n, costs, cells, stage, p));
    match cells[(stage, p)] {
        Cell::Reachable { value, action } => {
            let a = action as int;
            let q = p.shifted(action_at(a));
            assert(candidate(n, costs, cells, stage, p, a) == Some(value as int));
            assert(admissible(n, p, a));
            assert(q.within(n));
            let rest = chosen_walk(horizon, cells, stage + 1, q);
            let walk = chosen_walk(horizon, cells, stage, p);
            assert(walk == seq![a] + rest);
            assert(walk.skip(1) =~= rest);
            assert(walk.len() == 1 + rest.len());
            assert(walk[0] == a);
            assert(cells[(stage + 1, q)].time().is_some());
            match cells[(stage + 1, q)] {
                Cell::Reachable { value: later, action: then } => {
                    lemma_value_is_attained(n, horizon, goal, costs, cells, stage + 1, q);
                },
                Cell::Terminal => {
                    lemma_terminal_is_goal(n, horizon, goal, costs, cells, stage + 1, q);
                    assert(rest =~= Seq::<int>::empty());
                    assert(walk_end(q, rest) == q);
                    assert(walk_time(n, costs, q, rest) == Some(0int));
                },
                Cell::Unreached => {},
            }
            assert(walk_end(p, walk) == walk_end(q, rest));
            assert(walk_time(n, costs, p, walk) == Some(value as int));
        },
        _ => {},
    }
}

/// The time-to-go of a solved table is the least walk time: a cell is
/// unreached exactly when no walk of one step per stage left reaches the goal
/// in finite time, and otherwise its time-to-go is the time of some such walk
/// and at most the time of every such walk.
pub proof fn lemma_value_is_least_walk_time(
    n: int,
    horizon: int,
    goal: GridPoint,
    costs: Costs,
    cells: Cells,
    stage: int,
    p: GridPoint,
)
    requires
        solved(n, horizon, goal, costs, cells),
        0 <= stage <= horizon,
        p.within(n),
    ensures
        cells[(stage, p)].time().is_some() <==> exists|walk: Seq<int>|
            walk.len() == horizon - stage && walk_end(p, walk) == goal && (#[trigger] walk_time(
                n,
                costs,
                p,
                walk,
            )).is_some(),
        cells[(stage, p)].time().is_some() ==> exists|walk: Seq<int>|
            walk.len() == horizon - stage && walk_end(p, walk) == goal && #[trigger] walk_time(
                n,
                costs,
                p,
                walk,
            ) == cells[(stage, p)].time(),
        forall|walk: Seq<int>|
            walk.len() == horizon - stage && walk_end(p, walk) == goal && (#[trigger] walk_time(
                n,
                costs,
                p,
                walk,
            )).is_some() ==> cells[(stage, p)].time().is_some() && cells[(
                stage,
                p,
            )].time().unwrap() <= walk_time(n, costs, p, walk).unwrap(),
{
    if cells[(stage, p)].choice().is_some() {
        lemma_value_is_attained(n, horizon, goal, costs, cells, stage, p);
        let walk = chosen_walk(horizon, cells, stage, p);
        assert(walk_time(n, costs, p, walk).is_some());
    } else if cells[(stage, p)] == Cell::Terminal {
        lemma_terminal_is_goal(n, horizon, goal, costs, cells, stage, p);
        let walk = Seq::<int>::empty();
        assert(walk_end(p, walk) == goal);
        assert(walk_time(n, costs, p, walk) == Some(0int));
    }
    assert forall|walk: Seq<int>|
        walk.len() == horizon - stage && walk_end(p, walk) == goal && (#[trigger] walk_time(
            n,
            costs,
            p,
            walk,
        )).is_some() implies cells[(stage, p)].time().is_some() && cells[(
        stage,
        p,
    )].time().unwrap() <= walk_time(n, costs, p, walk).unwrap() by {
        lemma_value_is_lower_bound(n, horizon, goal, costs, cells, stage, p, walk);
    }
}

/// The extracted path lists the points of the recorded walk: it has one
/// element per recorded displacement.
pub proof fn lemma_path_matches_walk(horizon: int, cells: Cells, stage: int, p: GridPoint)
    requires
        0 <= stage <= horizon,
    ensures
        path_from(horizon, cells, stage, p).len() == chosen_walk(horizon, cells, stage, p).len(),
    decreases horizon - stage,
{
    if stage < horizon {
        match cells[(stage, p)] {
            Cell::Reachable { value, action } => {
                lemma_path_matches_walk(
                    horizon,
                    cells,
                    stage + 1,
                    p.shifted(action_at(action as int)),
                );
            },
            _ => {},
        }
    }
}

/// In a solved table the path extracted from a cell with a chosen
/// displacement has exactly one element per stage left: it does not stop
/// before the goal.
pub proof fn lemma_path_reaches_goal(
    n: int,
    horizon: int,
    goal: GridPoint,
    costs: Costs,
    cells: Cells,
    stage: int,
    p: GridPoint,
)
    requires
        solved(n, horizon, goal, costs, cells),
        0 <= stage <= horizon,
        p.within(n),
        cells[(stage, p)].choice().is_some(),
    ensures
        path_from(horizon, cells, stage, p).len() == horizon - stage,
{
    lemma_value_is_attained(n, horizon, goal, costs, cells, stage, p);
    lemma_path_matches_walk(horizon, cells, stage, p);
}

/// Every ordinal that a solved table records names a displacement of the
/// catalogue that stays inside the grid.
pub proof fn lemma_chosen_is_admissible(
    n: int,
    horizon: int,
    goal: GridPoint,
    costs: Costs,
    cells: Cells,
    stage: int,
    p: GridPoint,
)
    requires
        solved(n, horizon, goal, costs, cells),
        0 <= stage <= horizon,
        p.within(n),
        cells[(stage, p)].choice().is_some(),
    ensures
        admissible(n, p, cells[(stage, p)].choice().unwrap()),
        0 <= cells[(stage, p)].choice().unwrap() < ACTION_COUNT,
        p.shifted(action_at(cells[(stage, p)].choice().unwrap())).within(n),
{
    lemma_reachable_before_last(n, horizon, goal, costs, cells, stage, p);
    assert(optimal_at(n, costs, cells, stage, p));
}

} // verus!
