//! The solver: backward induction from the goal at the last stage to stage 0.

use crate::cost::CostTable;
use crate::grid::{action, admissible, horizon_for, time_horizon, GridPoint, ACTION_COUNT};
use crate::recurrence::{
    best_among, candidate, cell_consistent, consistent, lemma_best_frame, optimal_at, solved,
};
use crate::table::{lemma_fits_sides, Cell, ValueTable};
use vstd::prelude::*;

verus! {

/// A least-time descent problem on the grid of resolution `n`, together with
/// the table that `solve` fills.
pub struct Brachistochrone {
    n: usize,
    time_horizon: usize,
    costs: CostTable,
    start: GridPoint,
    end: GridPoint,
    memo: ValueTable,
}

/// Why a problem cannot be set up.
#[derive(Clone, Copy, Debug, PartialEq, Eq, Structural)]
pub enum SetupError {
    /// The transition times are tabulated for another resolution.
    ResolutionMismatch,
    /// The start lies outside the grid.
    StartOutsideGrid,
    /// The goal lies outside the grid.
    EndOutsideGrid,
    /// The value table for this resolution cannot be addressed.
    TableTooLarge,
}

/// Whether the cell for `q` at stage `j` has been filled when the sweep
/// stands before `(x, y)` at `stage`: the sweep goes through the stages
/// downwards and through each stage by `x` and then `y` upwards.
spec fn swept(stage: int, x: int, y: int, j: int, q: GridPoint) -> bool {
    j > stage || (j == stage && (q.x < x || (q.x == x && q.y < y)))
}

/// A stage budget whose table can be addressed is small enough for the sum
/// of one transition time per stage to fit in 64 bits.
proof fn lemma_budget_bounds_time(n: int)
    requires
        0 <= n,
        ValueTable::fits(n, horizon_for(n)),
    ensures
        0 <= horizon_for(n) <= n,
        horizon_for(n) * u32::MAX <= u64::MAX,
{
    let h = horizon_for(n);
    assert((h + 1) * (h + 1) <= (h + 1) * (n + 1) * (n + 1)) by (nonlinear_arith)
        requires
            0 <= h <= n,
    ;
    assert(h < 0x1_0000_0000) by (nonlinear_arith)
        requires
            0 <= h,
            (h + 1) * (h + 1) <= 0xffff_ffff_ffff_ffff,
    ;
    assert(h * 0xffff_ffff <= 0xffff_ffff_ffff_ffff) by (nonlinear_arith)
        requires
            0 <= h < 0x1_0000_0000,
    ;
}

impl Brachistochrone {
    /// The grid resolution.
    pub closed spec fn spec_resolution(&self) -> usize {
        self.n
    }

    /// The last stage.
    pub closed spec fn spec_time_horizon(&self) -> usize {
        self.time_horizon
    }

    /// The transition times.
    pub closed spec fn spec_costs(&self) -> &CostTable {
        &self.costs
    }

    /// The point the descent starts from.
    pub closed spec fn spec_start(&self) -> GridPoint {
        self.start
    }

    /// The goal.
    pub closed spec fn spec_end(&self) -> GridPoint {
        self.end
    }

    /// The value table.
    pub closed spec fn spec_table(&self) -> &ValueTable {
        &self.memo
    }

    /// The stage budget is the one the resolution gives, both tables are made
    /// for the resolution, start and goal lie in the grid, and every cell is
    /// consistent.
    pub open spec fn wf(&self) -> bool {
        &&& self.time_horizon() == horizon_for(self.resolution() as int)
        &&& self.costs().wf()
        &&& self.costs().resolution() == self.resolution()
        &&& self.table().wf()
        &&& self.table().resolution() == self.resolution()
        &&& self.table().horizon() == self.time_horizon()
        &&& self.start().within(self.resolution() as int)
        &&& self.end().within(self.resolution() as int)
        &&& consistent(
            self.resolution() as int,
            self.time_horizon() as int,
            self.end(),
            self.table()@,
        )
    }

    /// Whether the table holds the solution of the problem.
    pub open spec fn is_solved(&self) -> bool {
        solved(
            self.resolution() as int,
            self.time_horizon() as int,
            self.end(),
            self.costs()@,
            self.table()@,
        )
    }

    /// A problem on the grid of resolution `n` with the transition times
    /// `costs`, not yet solved: every cell is `Unreached`.
    pub fn new(n: usize, costs: CostTable, start: GridPoint, end: GridPoint) -> (problem:
        Brachistochrone)
        requires
            costs.wf(),
            costs.resolution() == n,
            start.within(n as int),
            end.within(n as int),
            ValueTable::fits(n as int, horizon_for(n as int)),
        ensures
            problem.wf(),
            problem.resolution() == n,
            problem.time_horizon() == horizon_for(n as int),
            problem.costs() == costs,
            problem.start() == start,
            problem.end() == end,
            forall|stage: int, p: GridPoint|
                0 <= stage <= horizon_for(n as int) && p.within(n as int)
                    ==> #[trigger] problem.table()@[(stage, p)] == Cell::Unreached,
    {
        let time_horizon = time_horizon(n);
        let memo = ValueTable::new(n, time_horizon);
        let problem = Brachistochrone { n, time_horizon, costs, start, end, memo };
        proof {
            assert forall|stage: int, p: GridPoint|
                0 <= stage <= time_horizon && p.within(
                    n as int,
                ) implies #[trigger] problem.memo@[(stage, p)] == Cell::Unreached by {
                assert(problem.memo@.dom().contains((stage, p)));
            }
        }
        problem
    }

    /// A problem as `new` makes it, or the first reason in the order of
    /// `SetupError` for which it cannot be made.
    pub fn try_new(n: usize, costs: CostTable, start: GridPoint, end: GridPoint) -> (made:
        Result<Brachistochrone, SetupError>)
        requires
            costs.wf(),
        ensures
            match made {
                Ok(problem) => {
                    &&& costs.resolution() == n
                    &&& start.within(n as int)
                    &&& end.within(n as int)
                    &&& ValueTable::fits(n as int, horizon_for(n as int))
                    &&& problem.wf()
                    &&& problem.resolution() == n
                    &&& problem.time_horizon() == horizon_for(n as int)
                    &&& problem.costs() == costs
                    &&& problem.start() == start
                    &&& problem.end() == end
                    &&& forall|stage: int, p: GridPoint|
                        0 <= stage <= horizon_for(n as int) && p.within(n as int)
                            ==> #[trigger] problem.table()@[(stage, p)] == Cell::Unreached
                },
                Err(SetupError::ResolutionMismatch) => costs.resolution() != n,
                Err(SetupError::StartOutsideGrid) => costs.resolution() == n && !start.within(
                    n as int,
                ),
                Err(SetupError::EndOutsideGrid) => costs.resolution() == n && start.within(n as int)
                    && !end.within(n as int),
                Err(SetupError::TableTooLarge) => costs.resolution() == n && start.within(n as int)
                    && end.within(n as int) && !ValueTable::fits(n as int, horizon_for(n as int)),
            },
    {
        if costs.resolution() != n {
            return Err(SetupError::ResolutionMismatch);
        }
        if start.x > n || start.y > n {
            return Err(SetupError::StartOutsideGrid);
        }
        if end.x > n || end.y > n {
            return Err(SetupError::EndOutsideGrid);
        }
        let time_horizon = time_horizon(n);
        let memo = match ValueTable::try_new(n, time_horizon) {
            Some(memo) => memo,
            None => {
                return Err(SetupError::TableTooLarge);
            },
        };
        let problem = Brachistochrone { n, time_horizon, costs, start, end, memo };
        proof {
            assert forall|stage: int, p: GridPoint|
                0 <= stage <= time_horizon && p.within(
                    n as int,
                ) implies #[trigger] problem.memo@[(stage, p)] == Cell::Unreached by {
                assert(problem.memo@.dom().contains((stage, p)));
            }
        }
        Ok(problem)
    }

    /// The grid resolution.
    #[verifier::when_used_as_spec(spec_resolution)]
    pub fn resolution(&self) -> (n: usize)
        ensures
            n == self.resolution(),
    {
        self.n
    }

    /// The last stage.
    #[verifier::when_used_as_spec(spec_time_horizon)]
    pub fn time_horizon(&self) -> (h: usize)
        ensures
            h == self.time_horizon(),
    {
        self.time_horizon
    }

    /// The point the descent starts from.
    #[verifier::when_used_as_spec(spec_start)]
    pub fn start(&self) -> (p: GridPoint)
        ensures
            p == self.start(),
    {
        self.start
    }

    /// The goal.
    #[verifier::when_used_as_spec(spec_end)]
    pub fn end(&self) -> (p: GridPoint)
        ensures
            p == self.end(),
    {
        self.end
    }

    /// The transition times.
    #[verifier::when_used_as_spec(spec_costs)]
    pub fn costs(&self) -> (costs: &CostTable)
        ensures
            costs == self.costs(),
    {
        &self.costs
    }

    /// The value table.
    #[verifier::when_used_as_spec(spec_table)]
    pub fn table(&self) -> (table: &ValueTable)
        ensures
            table == self.table(),
    {
        &self.memo
    }

    /// The time to the goal from `p` at `stage` when the displacement with
    /// ordinal `index` is taken first, `None` standing for infinity.
    pub fn candidate_time(&self, stage: usize, p: GridPoint, index: usize) -> (time: Option<u64>)
        requires
            self.wf(),
            stage < self.time_horizon(),
            p.within(self.resolution() as int),
            index < ACTION_COUNT,
        ensures
            time.is_some() <==> candidate(
                self.resolution() as int,
                self.costs()@,
                self.table()@,
                stage as int,
                p,
                index as int,
            ).is_some(),
            time.is_some() ==> candidate(
                self.resolution() as int,
                self.costs()@,
                self.table()@,
                stage as int,
                p,
                index as int,
            ) == Some(time.unwrap() as int),
            time.is_some() ==> admissible(self.resolution() as int, p, index as int),
            time.is_some() ==> time.unwrap() <= (self.time_horizon() - stage) * u32::MAX,
    {
        let next = match p.step(action(index), self.n) {
            Some(next) => next,
            None => {
                return None;
            },
        };
        let step_time = match self.costs.get(p, index) {
            Some(step_time) => step_time,
            None => {
                return None;
            },
        };
        let cell = self.memo.get(stage + 1, next);
        let rest = match cell.value() {
            Some(rest) => rest,
            None => {
                return None;
            },
        };
        proof {
            self.memo.lemma_keys();
            lemma_budget_bounds_time(self.n as int);
            let h = self.time_horizon as int;
            assert(cell_consistent(self.n as int, h, self.end, stage + 1, next, cell));
            assert(rest <= (h - stage - 1) * u32::MAX);
            assert((h - stage - 1) * u32::MAX + u32::MAX == (h - stage) * u32::MAX)
                by (nonlinear_arith);
            assert((h - stage) * u32::MAX <= h * u32::MAX) by (nonlinear_arith)
                requires
                    0 <= stage,
            ;
        }
        Some(step_time as u64 + rest)
    }

    /// The cell for `p` at `stage` that the next stage of the table gives:
    /// the least candidate and the lowest ordinal that attains it, or
    /// `Unreached` when no candidate is finite.
    pub fn best_cell(&self, stage: usize, p: GridPoint) -> (cell: Cell)
        requires
            self.wf(),
            stage < self.time_horizon(),
            p.within(self.resolution() as int),
        ensures
            best_among(
                self.resolution() as int,
                self.costs()@,
                self.table()@,
                stage as int,
                p,
                ACTION_COUNT as int,
                cell,
            ),
            cell_consistent(
                self.resolution() as int,
                self.time_horizon() as int,
                self.end(),
                stage as int,
                p,
                cell,
            ),
    {
        let mut best = Cell::Unreached;
        let mut index: usize = 0;
        while index < ACTION_COUNT
            invariant
                self.wf(),
                stage < self.time_horizon(),
                p.within(self.resolution() as int),
                index <= ACTION_COUNT,
                best_among(
                    self.resolution() as int,
                    self.costs()@,
                    self.table()@,
                    stage as int,
                    p,
                    index as int,
                    best,
                ),
                cell_consistent(
                    self.resolution() as int,
                    self.time_horizon() as int,
                    self.end(),
                    stage as int,
                    p,
                    best,
                ),
            decreases ACTION_COUNT - index,
        {
            if let Some(time) = self.candidate_time(stage, p, index) {
                let improves = match best {
                    Cell::Reachable { value, action } => time < value,
                    _ => true,
                };
                if improves {
                    best = Cell::Reachable { value: time, action: index as u8 };
                }
            }
            index = index + 1;
        }
        best
    }

    /// Fills the table by backward induction: marks the goal at the last
    /// stage, then gives every cell of every earlier stage, from the last but
    /// one down to stage 0, the best over the catalogue with respect to the
    /// stage after it.
    pub fn solve(&mut self)
        requires
            old(self).wf(),
        ensures
            final(self).wf(),
            final(self).is_solved(),
            final(self).resolution() == old(self).resolution(),
            final(self).time_horizon() == old(self).time_horizon(),
            final(self).costs() == old(self).costs(),
            final(self).start() == old(self).start(),
            final(self).end() == old(self).end(),
            forall|p: GridPoint|
                p.within(old(self).resolution() as int) && p != old(self).end()
                    ==> final(self).table()@[(old(self).time_horizon() as int, p)]
                    == #[trigger] old(self).table()@[(old(self).time_horizon() as int, p)],
    {
        let n = self.n;
        let horizon = self.time_horizon;
        proof {
            self.memo.lemma_keys();
            lemma_fits_sides(n as int, horizon as int);
        }
        self.memo.set(horizon, self.end, Cell::Terminal);
        proof {
            self.memo.lemma_keys();
        }
        let mut stage: usize = horizon;
        while stage > 0
            invariant
                self.wf(),
                self.n == n,
                self.time_horizon == horizon,
                self.costs == old(self).costs,
                self.start == old(self).start,
                self.end == old(self).end,
                n == old(self).n,
                horizon == old(self).time_horizon,
                n + 1 <= usize::MAX,
                stage <= horizon,
                self.memo@[(horizon as int, self.end)] == Cell::Terminal,
                forall|p: GridPoint|
                    p.within(n as int) && p != self.end ==> self.memo@[(horizon as int, p)]
                        == #[trigger] old(self).memo@[(horizon as int, p)],
                forall|j: int, q: GridPoint|
                    0 <= j < horizon && q.within(n as int) && swept(stage as int - 1, 0, 0, j, q)
                        ==> #[trigger] optimal_at(n as int, self.costs@, self.memo@, j, q),
            decreases stage,
        {
            stage = stage - 1;
            let mut x: usize = 0;
            while x <= n
                invariant
                    self.wf(),
                    self.n == n,
                    self.time_horizon == horizon,
                    self.costs == old(self).costs,
                    self.start == old(self).start,
                    self.end == old(self).end,
                    n + 1 <= usize::MAX,
                    stage < horizon,
                    x <= n + 1,
                    self.memo@[(horizon as int, self.end)] == Cell::Terminal,
                    forall|p: GridPoint|
                        p.within(n as int) && p != self.end ==> self.memo@[(horizon as int, p)]
                            == #[trigger] old(self).memo@[(horizon as int, p)],
                    forall|j: int, q: GridPoint|
                        0 <= j < horizon && q.within(n as int) && swept(stage as int, x as int, 0, j, q)
                            ==> #[trigger] optimal_at(n as int, self.costs@, self.memo@, j, q),
                decreases n + 1 - x,
            {
                let mut y: usize = 0;
                while y <= n
                    invariant
                        self.wf(),
                        self.n == n,
                        self.time_horizon == horizon,
                        self.costs == old(self).costs,
                        self.start == old(self).start,
                        self.end == old(self).end,
                        n + 1 <= usize::MAX,
                        stage < horizon,
                        x <= n,
                        y <= n + 1,
                        self.memo@[(horizon as int, self.end)] == Cell::Terminal,
                        forall|p: GridPoint|
                            p.within(n as int) && p != self.end ==> self.memo@[(horizon as int, p)]
                                == #[trigger] old(self).memo@[(horizon as int, p)],
                        forall|j: int, q: GridPoint|
                            0 <= j < horizon && q.within(n as int) && swept(
                                stage as int,
                                x as int,
                                y as int,
                                j,
                                q,
                            ) ==> #[trigger] optimal_at(n as int, self.costs@, self.memo@, j, q),
                    decreases n + 1 - y,
                {
                    let p = GridPoint { x, y };
                    let cell = self.best_cell(stage, p);
                    let ghost before = self.memo@;
                    self.memo.set(stage, p, cell);
                    proof {
                        self.memo.lemma_keys();
                        let after = self.memo@;
                        assert forall|j: int, q: GridPoint|
                            0 <= j < horizon && q.within(n as int) && swept(
                                stage as int,
                                x as int,
                                y + 1,
                                j,
                                q,
                            ) implies #[trigger] optimal_at(n as int, self.costs@, after, j, q) by {
                            if j == stage && q == p {
                                lemma_best_frame(
                                    n as int,
                                    self.costs@,
                                    before,
                                    after,
                                    j,
                                    q,
                                    ACTION_COUNT as int,
                                    cell,
                                );
                            } else {
                                assert(optimal_at(n as int, self.costs@, before, j, q));
                                lemma_best_frame(
                                    n as int,
                                    self.costs@,
                                    before,
                                    after,
                                    j,
                                    q,
                                    ACTION_COUNT as int,
                                    before[(j, q)],
                                );
                            }
                        }
                    }
                    y = y + 1;
                }
                x = x + 1;
            }
        }
    }
}

} // verus!
