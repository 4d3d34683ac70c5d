use brachistochrone::{
    action, Brachistochrone, Cell, CostTable, Displacement, GridPoint, SetupError, ACTION_COUNT,
};

const G: f32 = 9.81;

/// Time in seconds of sliding from `p` by `d`, released at rest at height `start_y`.
fn seconds(scale: f32, start_y: usize, p: GridPoint, d: Displacement) -> f32 {
    let from = (p.x as f32 * scale, p.y as f32 * scale);
    let to = ((p.x as f32 + d.dx as f32) * scale, (p.y as f32 + d.dy as f32) * scale);
    let release = start_y as f32 * scale;
    let length = ((to.0 - from.0) * (to.0 - from.0) + (to.1 - from.1) * (to.1 - from.1)).sqrt();
    2. * length / ((2. * G * (release - to.1)).sqrt() + (2. * G * (release - from.1)).sqrt())
}

/// A time in whole microseconds, if it is finite.
fn ticks(time: f32) -> Option<u32> {
    let micros = (time as f64 * 1e6).round();
    if time.is_finite() && micros >= 0. && micros <= u32::MAX as f64 {
        Some(micros as u32)
    } else {
        None
    }
}

fn physical_costs(n: usize, scale: f32, start_y: usize) -> CostTable {
    let mut costs = CostTable::new(n);
    for x in 0..=n {
        for y in 0..=n {
            let p = GridPoint { x, y };
            for a in 0..ACTION_COUNT {
                if p.step(action(a), n).is_some() {
                    costs.set(p, a, ticks(seconds(scale, start_y, p, action(a))));
                }
            }
        }
    }
    costs
}

/// Costs that depend on the displacement only: `dx + |dy| + 1`.
fn taxicab_costs(n: usize) -> CostTable {
    let mut costs = CostTable::new(n);
    for x in 0..=n {
        for y in 0..=n {
            for a in 0..ACTION_COUNT {
                let d = action(a);
                let time = d.dx as u32 + d.dy.unsigned_abs() as u32 + 1;
                costs.set(GridPoint { x, y }, a, Some(time));
            }
        }
    }
    costs
}

fn solved(n: usize, costs: CostTable, start: GridPoint, end: GridPoint) -> Brachistochrone {
    let mut problem = Brachistochrone::new(n, costs, start, end);
    problem.solve();
    problem
}

/// The cell that the stage after `stage` gives for `p`, computed the plain way.
fn expected_cell(problem: &Brachistochrone, stage: usize, p: GridPoint) -> Cell {
    let n = problem.resolution();
    let mut best: Option<(u64, u8)> = None;
    for a in 0..ACTION_COUNT {
        let Some(next) = p.step(action(a), n) else { continue };
        let Some(step) = problem.costs().get(p, a) else { continue };
        let Some(rest) = problem.table().get(stage + 1, next).value() else { continue };
        let total = step as u64 + rest;
        let better = match best {
            Some((value, _)) => total < value,
            None => true,
        };
        if better {
            best = Some((total, a as u8));
        }
    }
    match best {
        Some((value, action)) => Cell::Reachable { value, action },
        None => Cell::Unreached,
    }
}

fn all_cells(problem: &Brachistochrone) -> Vec<Cell> {
    let n = problem.resolution();
    let mut cells = Vec::new();
    for stage in 0..=problem.time_horizon() {
        for x in 0..=n {
            for y in 0..=n {
                cells.push(problem.table().get(stage, GridPoint { x, y }));
            }
        }
    }
    cells
}

#[test]
fn new_problem_keeps_its_parameters() {
    let start = GridPoint { x: 0, y: 10 };
    let end = GridPoint { x: 10, y: 0 };
    let problem = Brachistochrone::new(10, CostTable::new(10), start, end);
    assert_eq!(problem.resolution(), 10);
    assert_eq!(problem.time_horizon(), 5);
    assert_eq!(problem.start(), start);
    assert_eq!(problem.end(), end);
    assert_eq!(problem.costs().resolution(), 10);
    assert_eq!(problem.table().resolution(), 10);
    assert_eq!(problem.table().horizon(), 5);
}

#[test]
fn new_problem_is_unreached_everywhere() {
    let problem =
        Brachistochrone::new(4, taxicab_costs(4), GridPoint { x: 0, y: 4 }, GridPoint { x: 4, y: 0 });
    assert!(all_cells(&problem).iter().all(|cell| *cell == Cell::Unreached));
}

#[test]
fn single_stage_descent_takes_the_one_step_time() {
    let n = 2;
    let start = GridPoint { x: 0, y: 2 };
    let end = GridPoint { x: 2, y: 0 };
    let problem = solved(n, physical_costs(n, 1.0, start.y), start, end);
    assert_eq!(problem.time_horizon(), 1);
    assert_eq!(problem.table().get(1, end), Cell::Terminal);
    assert_eq!(problem.table().get(1, end).value(), Some(0));

    let direct = Displacement { dx: 2, dy: -2 };
    assert_eq!(action(40), direct);
    let time = seconds(1.0, 2, start, direct);
    assert!(time.is_finite());
    // 2 * sqrt(8) / sqrt(2 * 9.81 * 2) seconds
    assert_eq!(ticks(time), Some(903_047));
    assert_eq!(
        problem.table().get(0, start),
        Cell::Reachable { value: 903_047, action: 40 }
    );
}

#[test]
fn climbing_above_the_release_height_is_never_chosen() {
    let n = 4;
    let start = GridPoint { x: 0, y: 1 };
    let end = GridPoint { x: 4, y: 3 };
    assert!(seconds(1.0, start.y, start, Displacement { dx: 1, dy: 1 }).is_nan());
    assert_eq!(ticks(f32::NAN), None);
    assert_eq!(ticks(f32::INFINITY), None);
    let problem = solved(n, physical_costs(n, 1.0, start.y), start, end);
    for stage in 0..problem.time_horizon() {
        for x in 0..=n {
            for y in 0..=n {
                let p = GridPoint { x, y };
                if let Cell::Reachable { action: a, .. } = problem.table().get(stage, p) {
                    let time = seconds(1.0, start.y, p, action(a as usize));
                    assert!(time.is_finite());
                }
            }
        }
    }
    assert_eq!(problem.table().get(0, start), Cell::Unreached);
    assert_eq!(problem.path_iter(start).collect(), vec![]);
}

#[test]
fn goal_is_terminal_and_the_rest_of_the_last_stage_is_untouched() {
    let n = 6;
    let end = GridPoint { x: 5, y: 1 };
    let problem = solved(n, taxicab_costs(n), GridPoint { x: 0, y: 6 }, end);
    let last = problem.time_horizon();
    for x in 0..=n {
        for y in 0..=n {
            let p = GridPoint { x, y };
            let expected = if p == end { Cell::Terminal } else { Cell::Unreached };
            assert_eq!(problem.table().get(last, p), expected);
        }
    }
}

#[test]
fn terminal_appears_at_the_last_stage_only() {
    let n = 6;
    let end = GridPoint { x: 5, y: 1 };
    let problem = solved(n, taxicab_costs(n), GridPoint { x: 0, y: 6 }, end);
    for stage in 0..problem.time_horizon() {
        for x in 0..=n {
            for y in 0..=n {
                assert_ne!(problem.table().get(stage, GridPoint { x, y }), Cell::Terminal);
            }
        }
    }
}

#[test]
fn every_cell_is_the_least_over_the_next_stage() {
    let n = 10;
    let start = GridPoint { x: 0, y: 10 };
    let problem = solved(n, physical_costs(n, 1.0, start.y), start, GridPoint { x: 10, y: 0 });
    for stage in 0..problem.time_horizon() {
        for x in 0..=n {
            for y in 0..=n {
                let p = GridPoint { x, y };
                assert_eq!(problem.table().get(stage, p), expected_cell(&problem, stage, p));
            }
        }
    }
}

#[test]
fn every_cell_is_the_least_with_uniform_costs() {
    let n = 7;
    let problem = solved(n, taxicab_costs(n), GridPoint { x: 0, y: 7 }, GridPoint { x: 6, y: 2 });
    for stage in 0..problem.time_horizon() {
        for x in 0..=n {
            for y in 0..=n {
                let p = GridPoint { x, y };
                assert_eq!(problem.table().get(stage, p), expected_cell(&problem, stage, p));
            }
        }
    }
}

#[test]
fn chosen_actions_stay_inside_the_grid() {
    let n = 9;
    let problem = solved(n, taxicab_costs(n), GridPoint { x: 0, y: 9 }, GridPoint { x: 9, y: 0 });
    let mut reachable = 0;
    for stage in 0..=problem.time_horizon() {
        for x in 0..=n {
            for y in 0..=n {
                let p = GridPoint { x, y };
                if let Some(a) = problem.table().get(stage, p).action() {
                    assert!((a as usize) < ACTION_COUNT);
                    assert!(p.step(action(a as usize), n).is_some());
                    reachable += 1;
                }
            }
        }
    }
    assert!(reachable > 0);
}

#[test]
fn ties_go_to_the_lowest_ordinal() {
    // Two stages, every transition takes one tick: from (0, 0) the goal
    // (2, 0) is reached through (0, 0), (1, 0) or (2, 0), and going down and
    // up are tied as well. The first listed displacement that works wins.
    let n = 4;
    let mut costs = CostTable::new(n);
    for x in 0..=n {
        for y in 0..=n {
            for a in 0..ACTION_COUNT {
                costs.set(GridPoint { x, y }, a, Some(1));
            }
        }
    }
    let end = GridPoint { x: 2, y: 0 };
    let problem = solved(n, costs, GridPoint { x: 0, y: 0 }, end);
    assert_eq!(problem.time_horizon(), 2);
    // Last but one stage: one displacement leads to the goal from each point.
    assert_eq!(
        problem.table().get(1, GridPoint { x: 0, y: 0 }),
        Cell::Reachable { value: 1, action: 2 * 17 + 8 }
    );
    assert_eq!(
        problem.table().get(1, end),
        Cell::Reachable { value: 1, action: 8 }
    );
    // Stage 0 from (0, 0): (0, 0) then (2, 0) is the first of many two-tick ways.
    assert_eq!(
        problem.table().get(0, GridPoint { x: 0, y: 0 }),
        Cell::Reachable { value: 2, action: 8 }
    );
    // Stage 0 from (0, 4): the lowest ordinal is (0, -4).
    assert_eq!(
        problem.table().get(0, GridPoint { x: 0, y: 4 }),
        Cell::Reachable { value: 2, action: 4 }
    );
}

#[test]
fn a_cheaper_later_action_beats_an_earlier_one() {
    let n = 2;
    let mut costs = CostTable::new(n);
    let start = GridPoint { x: 0, y: 2 };
    let end = GridPoint { x: 2, y: 0 };
    costs.set(start, 40, Some(9));
    let problem = solved(n, costs, start, end);
    assert_eq!(problem.table().get(0, start), Cell::Reachable { value: 9, action: 40 });
    // Nothing else has a finite transition time.
    let reachable = all_cells(&problem).iter().filter(|c| c.action().is_some()).count();
    assert_eq!(reachable, 1);
}

#[test]
fn without_finite_transitions_nothing_is_reachable() {
    let n = 5;
    let end = GridPoint { x: 3, y: 3 };
    let problem = solved(n, CostTable::new(n), GridPoint { x: 0, y: 5 }, end);
    let cells = all_cells(&problem);
    assert_eq!(cells.iter().filter(|c| **c == Cell::Terminal).count(), 1);
    assert_eq!(cells.iter().filter(|c| **c == Cell::Unreached).count(), cells.len() - 1);
    assert_eq!(problem.table().get(problem.time_horizon(), end), Cell::Terminal);
}

#[test]
fn points_right_of_the_goal_are_unreached() {
    let n = 6;
    let problem = solved(n, taxicab_costs(n), GridPoint { x: 0, y: 6 }, GridPoint { x: 3, y: 0 });
    for stage in 0..problem.time_horizon() {
        for y in 0..=n {
            assert_eq!(problem.table().get(stage, GridPoint { x: 4, y }), Cell::Unreached);
        }
    }
}

#[test]
fn largest_transition_times_do_not_overflow() {
    let n = 6;
    let mut costs = CostTable::new(n);
    for x in 0..=n {
        for y in 0..=n {
            for a in 0..ACTION_COUNT {
                costs.set(GridPoint { x, y }, a, Some(u32::MAX));
            }
        }
    }
    let end = GridPoint { x: 6, y: 0 };
    let problem = solved(n, costs, GridPoint { x: 0, y: 6 }, end);
    assert_eq!(problem.time_horizon(), 3);
    assert_eq!(problem.table().get(0, end).value(), Some(3 * u32::MAX as u64));
    assert_eq!(problem.table().get(1, end).value(), Some(2 * u32::MAX as u64));
    assert_eq!(problem.table().get(2, end).value(), Some(u32::MAX as u64));
}

#[test]
fn resolution_zero_has_a_single_terminal_cell() {
    let origin = GridPoint { x: 0, y: 0 };
    let problem = solved(0, taxicab_costs(0), origin, origin);
    assert_eq!(problem.time_horizon(), 0);
    assert_eq!(all_cells(&problem), vec![Cell::Terminal]);
    assert_eq!(problem.path_iter(origin).collect(), vec![]);
}

#[test]
fn solving_twice_with_equal_parameters_gives_equal_tables_and_paths() {
    let n = 12;
    let start = GridPoint { x: 0, y: 12 };
    let end = GridPoint { x: 12, y: 0 };
    let first = solved(n, physical_costs(n, 10. / 12., start.y), start, end);
    let second = solved(n, physical_costs(n, 10. / 12., start.y), start, end);
    assert_eq!(all_cells(&first), all_cells(&second));
    assert_eq!(first.path_iter(start).collect(), second.path_iter(start).collect());
    assert!(!first.path_iter(start).collect().is_empty());
}

#[test]
fn solving_again_changes_nothing() {
    let n = 8;
    let start = GridPoint { x: 0, y: 8 };
    let mut problem = solved(n, physical_costs(n, 1.0, start.y), start, GridPoint { x: 8, y: 0 });
    let before = all_cells(&problem);
    problem.solve();
    assert_eq!(all_cells(&problem), before);
}

#[test]
fn candidate_time_adds_the_step_to_the_rest() {
    let n = 4;
    let end = GridPoint { x: 2, y: 0 };
    let problem = solved(n, taxicab_costs(n), GridPoint { x: 0, y: 4 }, end);
    // Last but one stage, straight into the goal: (2, -4) takes 2 + 4 + 1 ticks.
    let p = GridPoint { x: 0, y: 4 };
    assert_eq!(problem.candidate_time(1, p, 2 * 17 + 4), Some(7));
    // Into a point that is not the goal: infinite.
    assert_eq!(problem.candidate_time(1, p, 8), None);
    // Leaving the grid: infinite.
    assert_eq!(problem.candidate_time(1, p, 16), None);
    // Stage 0, standing still at the goal, then standing still again.
    assert_eq!(problem.candidate_time(0, end, 8), Some(2));
}

#[test]
fn candidate_time_is_infinite_without_a_transition_time() {
    let n = 2;
    let start = GridPoint { x: 0, y: 2 };
    let end = GridPoint { x: 2, y: 0 };
    let mut costs = CostTable::new(n);
    costs.set(start, 40, Some(9));
    let problem = solved(n, costs, start, end);
    assert_eq!(problem.candidate_time(0, start, 40), Some(9));
    assert_eq!(problem.candidate_time(0, end, 8), None);
}

#[test]
fn best_cell_agrees_with_the_solved_table() {
    let n = 6;
    let start = GridPoint { x: 0, y: 6 };
    let problem = solved(n, physical_costs(n, 1.0, start.y), start, GridPoint { x: 6, y: 0 });
    for stage in 0..problem.time_horizon() {
        for x in 0..=n {
            for y in 0..=n {
                let p = GridPoint { x, y };
                assert_eq!(problem.best_cell(stage, p), problem.table().get(stage, p));
            }
        }
    }
}

#[test]
fn best_cell_before_solving_is_unreached() {
    let n = 3;
    let problem =
        Brachistochrone::new(n, taxicab_costs(n), GridPoint { x: 0, y: 3 }, GridPoint { x: 3, y: 0 });
    assert_eq!(problem.time_horizon(), 1);
    assert_eq!(problem.best_cell(0, GridPoint { x: 0, y: 3 }), Cell::Unreached);
}

#[test]
fn try_new_makes_the_problem_that_new_makes() {
    let start = GridPoint { x: 0, y: 10 };
    let end = GridPoint { x: 10, y: 0 };
    let Ok(mut problem) = Brachistochrone::try_new(10, taxicab_costs(10), start, end) else {
        panic!("a ten by ten grid is within reach");
    };
    assert_eq!(problem.resolution(), 10);
    assert_eq!(problem.time_horizon(), 5);
    assert_eq!(problem.start(), start);
    assert_eq!(problem.end(), end);
    assert!(all_cells(&problem).iter().all(|cell| *cell == Cell::Unreached));
    problem.solve();
    assert_eq!(all_cells(&problem), all_cells(&solved(10, taxicab_costs(10), start, end)));
}

#[test]
fn try_new_refuses_costs_of_another_resolution() {
    let p = GridPoint { x: 0, y: 0 };
    let made = Brachistochrone::try_new(4, CostTable::new(3), p, p);
    assert_eq!(made.err(), Some(SetupError::ResolutionMismatch));
    // The mismatch is reported before a point off the grid.
    let off = GridPoint { x: 9, y: 9 };
    let made = Brachistochrone::try_new(4, CostTable::new(3), off, off);
    assert_eq!(made.err(), Some(SetupError::ResolutionMismatch));
}

#[test]
fn try_new_refuses_a_start_outside_the_grid() {
    let inside = GridPoint { x: 4, y: 4 };
    for start in [GridPoint { x: 5, y: 0 }, GridPoint { x: 0, y: 5 }] {
        let made = Brachistochrone::try_new(4, CostTable::new(4), start, inside);
        assert_eq!(made.err(), Some(SetupError::StartOutsideGrid));
    }
    // Reported before the goal off the grid.
    let off = GridPoint { x: 5, y: 5 };
    let made = Brachistochrone::try_new(4, CostTable::new(4), off, off);
    assert_eq!(made.err(), Some(SetupError::StartOutsideGrid));
}

#[test]
fn try_new_refuses_a_goal_outside_the_grid() {
    let inside = GridPoint { x: 0, y: 4 };
    for end in [GridPoint { x: 5, y: 0 }, GridPoint { x: 0, y: 5 }] {
        let made = Brachistochrone::try_new(4, CostTable::new(4), inside, end);
        assert_eq!(made.err(), Some(SetupError::EndOutsideGrid));
    }
}
