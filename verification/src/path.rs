//! Extraction of the path that a table records: from a starting point, follow
//! the displacement chosen in each cell, one stage at a time.

use crate::grid::{action, action_at, GridPoint};
use crate::recurrence::{cell_consistent, consistent, lemma_solution_unique, Cells};
use crate::solver::Brachistochrone;
use crate::table::Cell;
use vstd::prelude::*;

verus! {

/// The path recorded from `p` at `stage`: as long as the cell holds a chosen
/// displacement, its time-to-go paired with the point, followed by the path
/// from the point the displacement leads to at the next stage.
pub open spec fn path_from(horizon: int, cells: Cells, stage: int, p: GridPoint)
    -> Seq<(u64, GridPoint)>
    decreases horizon - stage,
{
    if 0 <= stage < horizon {
        match cells[(stage, p)] {
            Cell::Reachable { value, action } => seq![(value, p)] + path_from(
                horizon,
                cells,
                stage + 1,
                p.shifted(action_at(action as int)),
            ),
            _ => Seq::empty(),
        }
    } else {
        Seq::empty()
    }
}

/// A path never has more elements than there are stages left.
pub proof fn lemma_path_length(horizon: int, cells: Cells, stage: int, p: GridPoint)
    requires
        0 <= stage <= horizon,
    ensures
        path_from(horizon, cells, stage, p).len() <= horizon - stage,
    decreases horizon - stage,
{
    if stage < horizon {
        match cells[(stage, p)] {
            Cell::Reachable { value, action } => {
                lemma_path_length(horizon, cells, stage + 1, p.shifted(action_at(action as int)));
            },
            _ => {},
        }
    }
}

/// The path recorded from a cell without a chosen displacement, be it
/// unreached or the goal, is empty, and so is the path at the last stage of
/// a consistent table.
pub proof fn lemma_path_empty(
    n: int,
    horizon: int,
    goal: GridPoint,
    cells: Cells,
    stage: int,
    p: GridPoint,
)
    requires
        0 <= stage <= horizon,
        p.within(n),
    ensures
        cells[(stage, p)].choice().is_none() ==> path_from(horizon, cells, stage, p).len() == 0,
        consistent(n, horizon, goal, cells) && stage == horizon
            ==> cells[(stage, p)].choice().is_none(),
{
    if consistent(n, horizon, goal, cells) && stage == horizon {
        assert(cell_consistent(n, horizon, goal, stage, p, cells[(stage, p)]));
    }
}

/// Along a path of a consistent table every point lies in the grid, every
/// element but the last leads to the next by the displacement chosen in its
/// cell, and every element carries the time-to-go of its cell.
pub proof fn lemma_path_follows_choices(
    n: int,
    horizon: int,
    goal: GridPoint,
    cells: Cells,
    stage: int,
    p: GridPoint,
    i: int,
)
    requires
        0 <= stage <= horizon,
        p.within(n),
        consistent(n, horizon, goal, cells),
        0 <= i < path_from(horizon, cells, stage, p).len(),
    ensures
        stage + i < horizon,
        path_from(horizon, cells, stage, p)[i].1.within(n),
        cells[(stage + i, path_from(horizon, cells, stage, p)[i].1)].time() == Some(
            path_from(horizon, cells, stage, p)[i].0 as int,
        ),
        i + 1 < path_from(horizon, cells, stage, p).len() ==> path_from(
            horizon,
            cells,
            stage,
            p,
        )[i + 1].1 == path_from(horizon, cells, stage, p)[i].1.shifted(
            action_at(
                cells[(stage + i, path_from(horizon, cells, stage, p)[i].1)].choice().unwrap(),
            ),
        ),
    decreases i,
{
    assert(cell_consistent(n, horizon, goal, stage, p, cells[(stage, p)]));
    match cells[(stage, p)] {
        Cell::Reachable { value, action: chosen } => {
            let q = p.shifted(action_at(chosen as int));
            let rest = path_from(horizon, cells, stage + 1, q);
            assert(path_from(horizon, cells, stage, p) == seq![(value, p)] + rest);
            if i > 0 {
                lemma_path_follows_choices(n, horizon, goal, cells, stage + 1, q, i - 1);
                assert(path_from(horizon, cells, stage, p)[i] == rest[i - 1]);
                if i + 1 < path_from(horizon, cells, stage, p).len() {
                    assert(path_from(horizon, cells, stage, p)[i + 1] == rest[i]);
                }
            } else {
                if 1 < path_from(horizon, cells, stage, p).len() {
                    assert(path_from(horizon, cells, stage, p)[1] == rest[0]);
                    assert(stage + 1 < horizon);
                    assert(rest[0].1 == q);
                }
            }
        },
        _ => {},
    }
}

/// Solving is a function of the parameters: two solved problems on the same
/// grid, with the same goal and the same transition times, hold the same
/// table and record the same path from every point at every stage.
pub proof fn lemma_solve_is_deterministic(first: Brachistochrone, second: Brachistochrone)
    requires
        first.wf(),
        second.wf(),
        first.is_solved(),
        second.is_solved(),
        first.resolution() == second.resolution(),
        first.end() == second.end(),
        first.costs()@ == second.costs()@,
    ensures
        first.time_horizon() == second.time_horizon(),
        first.table()@ == second.table()@,
        forall|stage: int, p: GridPoint|
            path_from(first.time_horizon() as int, first.table()@, stage, p) == path_from(
                second.time_horizon() as int,
                second.table()@,
                stage,
                p,
            ),
{
    lemma_solution_unique(
        first.resolution() as int,
        first.time_horizon() as int,
        first.end(),
        first.costs()@,
        first.table()@,
        second.table()@,
    );
}

/// A single-pass cursor over the path that a problem's table records from a
/// starting point.
pub struct PathIter<'a> {
    problem: &'a Brachistochrone,
    current: GridPoint,
    stage: usize,
}

impl<'a> PathIter<'a> {
    /// The problem whose table the cursor reads.
    pub closed spec fn problem(&self) -> &Brachistochrone {
        self.problem
    }

    /// The stage the cursor stands at.
    pub closed spec fn stage(&self) -> usize {
        self.stage
    }

    /// The point the cursor stands at.
    pub closed spec fn position(&self) -> GridPoint {
        self.current
    }

    /// The cursor stands at a stage and a point of a well-formed problem.
    pub open spec fn wf(&self) -> bool {
        &&& self.problem().wf()
        &&& self.stage() <= self.problem().time_horizon()
        &&& self.position().within(self.problem().resolution() as int)
    }

    /// The elements that the cursor has yet to produce.
    pub open spec fn remaining(&self) -> Seq<(u64, GridPoint)> {
        path_from(
            self.problem().time_horizon() as int,
            self.problem().table()@,
            self.stage() as int,
            self.position(),
        )
    }

    /// A cursor over the path recorded from `start` at `stage`.
    pub fn new(problem: &'a Brachistochrone, stage: usize, start: GridPoint) -> (cursor:
        PathIter<'a>)
        requires
            problem.wf(),
            stage <= problem.time_horizon(),
            start.within(problem.resolution() as int),
        ensures
            cursor.wf(),
            cursor.problem() == problem,
            cursor.stage() == stage,
            cursor.position() == start,
    {
        PathIter { problem, current: start, stage }
    }

    /// Produces the next element of the path and moves on by the displacement
    /// chosen in the cell, or produces `None` and stays where the cell holds
    /// no chosen displacement.
    pub fn next(&mut self) -> (item: Option<(u64, GridPoint)>)
        requires
            old(self).wf(),
        ensures
            final(self).wf(),
            final(self).problem() == old(self).problem(),
            item.is_some() <==> old(self).remaining().len() > 0,
            item.is_some() ==> item.unwrap() == old(self).remaining()[0],
            item.is_some() ==> final(self).remaining() == old(self).remaining().skip(1),
            item.is_some() ==> final(self).stage() == old(self).stage() + 1,
            item.is_some() ==> final(self).position() == old(self).position().shifted(
                action_at(
                    old(self).problem().table()@[(
                        old(self).stage() as int,
                        old(self).position(),
                    )].choice().unwrap(),
                ),
            ),
            item.is_none() ==> final(self).stage() == old(self).stage() && final(self).position()
                == old(self).position(),
    {
        let horizon = self.problem.time_horizon();
        let cell = self.problem.table().get(self.stage, self.current);
        proof {
            assert(cell_consistent(
                self.problem.resolution() as int,
                horizon as int,
                self.problem.end(),
                self.stage as int,
                self.current,
                cell,
            ));
        }
        match cell {
            Cell::Reachable { value, action: chosen } => {
                let here = self.current;
                self.current = here.displaced(action(chosen as usize));
                self.stage = self.stage + 1;
                proof {
                    assert(old(self).remaining() == seq![(value, here)] + self.remaining());
                    assert(old(self).remaining().skip(1) =~= self.remaining());
                }
                Some((value, here))
            },
            _ => None,
        }
    }

    /// Produces all the elements that are left, in order.
    pub fn collect(self) -> (path: Vec<(u64, GridPoint)>)
        requires
            self.wf(),
        ensures
            path@ == self.remaining(),
            path@.len() <= self.problem().time_horizon() - self.stage(),
    {
        let ghost whole = self.remaining();
        let mut cursor = self;
        let mut path: Vec<(u64, GridPoint)> = Vec::new();
        proof {
            lemma_path_length(
                cursor.problem().time_horizon() as int,
                cursor.problem().table()@,
                cursor.stage() as int,
                cursor.position(),
            );
        }
        loop
            invariant
                cursor.wf(),
                cursor.problem() == self.problem(),
                whole == path@ + cursor.remaining(),
            ensures
                whole == path@,
            decreases cursor.problem().time_horizon() - cursor.stage(),
        {
            let ghost left = cursor.remaining();
            match cursor.next() {
                Some(item) => {
                    path.push(item);
                    proof {
                        assert(left =~= seq![item] + left.skip(1));
                        assert(whole =~= path@ + cursor.remaining());
                    }
                },
                None => {
                    proof {
                        assert(left =~= Seq::<(u64, GridPoint)>::empty());
                        assert(whole =~= path@);
                    }
                    break ;
                },
            }
        }
        path
    }
}

impl Brachistochrone {
    /// A cursor over the path recorded from `start` at stage 0.
    pub fn path_iter(&self, start: GridPoint) -> (cursor: PathIter<'_>)
        requires
            self.wf(),
            start.within(self.resolution() as int),
        ensures
            cursor.wf(),
            cursor.problem() == self,
            cursor.stage() == 0,
            cursor.position() == start,
            cursor.remaining() == path_from(
                self.time_horizon() as int,
                self.table()@,
                0,
                start,
            ),
            cursor.remaining().len() <= self.time_horizon(),
            self.table()@[(0, start)].choice().is_none() ==> cursor.remaining().len() == 0,
    {
        proof {
            lemma_path_length(self.time_horizon() as int, self.table()@, 0, start);
        }
        PathIter::new(self, 0, start)
    }

    /// A cursor over the path recorded from `start` at `stage`, for a partial
    /// trajectory.
    pub fn path_iter_from(&self, stage: usize, start: GridPoint) -> (cursor: PathIter<'_>)
        requires
            self.wf(),
            stage <= self.time_horizon(),
            start.within(self.resolution() as int),
        ensures
            cursor.wf(),
            cursor.problem() == self,
            cursor.stage() == stage,
            cursor.position() == start,
            cursor.remaining() == path_from(
                self.time_horizon() as int,
                self.table()@,
                stage as int,
                start,
            ),
            cursor.remaining().len() <= self.time_horizon() - stage,
            self.table()@[(stage as int, start)].choice().is_none() ==> cursor.remaining().len()
                == 0,
    {
        proof {
            lemma_path_length(self.time_horizon() as int, self.table()@, stage as int, start);
        }
        PathIter::new(self, stage, start)
    }
}

} // verus!
