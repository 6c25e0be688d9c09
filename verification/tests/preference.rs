use pref_polys::preference::{
    axis_iter, chunks, dir_iter, AxisDirection, worker_chunks, ApproxSolve, ApproxStep, ConstraintUse, LpAnswer, PrefFinder,
    PrefSizeApproximator, RoundStep, SetPreferences, SolveStep, Turn, Verdict,
};

#[test]
fn search_ends_when_all_paths_are_optimal() {
    let mut finder = PrefFinder::new(3);
    assert_eq!(finder.dim(), 3);
    finder.begin(2);
    assert!(!finder.solve_exact());
    assert_eq!(
        finder.after_solve(LpAnswer::Feasible { margin_ok: true }),
        SolveStep::UsePreference
    );
    assert_eq!(finder.note(Verdict::Optimal), ConstraintUse::Nothing);
    assert_eq!(finder.note(Verdict::Optimal), ConstraintUse::Nothing);
    assert_eq!(finder.after_round(true), RoundStep::Found);
}

#[test]
fn negative_margin_means_no_common_preference() {
    let mut finder = PrefFinder::new(3);
    finder.begin(5);
    assert_eq!(
        finder.after_solve(LpAnswer::Feasible { margin_ok: false }),
        SolveStep::Infeasible
    );
}

#[test]
fn equal_weights_are_tried_once_without_constraints() {
    let mut finder = PrefFinder::new(4);
    finder.begin(0);
    assert_eq!(finder.after_solve(LpAnswer::Infeasible), SolveStep::UseEqualWeights);
    assert_eq!(
        finder.note(Verdict::Violated { repeated: false }),
        ConstraintUse::AddAndRecord
    );
    assert_eq!(finder.after_round(false), RoundStep::SolveAgain { exact: false });
    assert_eq!(finder.after_solve(LpAnswer::Infeasible), SolveStep::Infeasible);

    let mut seeded = PrefFinder::new(4);
    seeded.begin(1);
    assert_eq!(seeded.after_solve(LpAnswer::Infeasible), SolveStep::Infeasible);
}

#[test]
fn new_constraints_keep_the_search_going() {
    let mut finder = PrefFinder::new(3);
    finder.begin(0);
    finder.after_solve(LpAnswer::Feasible { margin_ok: true });
    assert_eq!(finder.note(Verdict::Optimal), ConstraintUse::Nothing);
    assert_eq!(
        finder.note(Verdict::Violated { repeated: false }),
        ConstraintUse::AddAndRecord
    );
    assert_eq!(finder.after_round(false), RoundStep::SolveAgain { exact: false });
    assert!(!finder.solve_exact());
    // nothing violated beyond the tolerance, but nothing new either
    finder.after_solve(LpAnswer::Feasible { margin_ok: true });
    assert_eq!(finder.after_round(false), RoundStep::Infeasible);
}

#[test]
fn repeated_constraint_is_solved_exactly_once() {
    let mut finder = PrefFinder::new(3);
    finder.begin(1);
    finder.after_solve(LpAnswer::Feasible { margin_ok: true });
    assert_eq!(
        finder.note(Verdict::Violated { repeated: true }),
        ConstraintUse::AddToLp
    );
    // even if all were optimal in sum, a repeat asks for the exact solver
    assert_eq!(finder.after_round(true), RoundStep::SolveAgain { exact: true });
    assert!(finder.solve_exact());
    finder.after_solve(LpAnswer::Feasible { margin_ok: true });
    assert_eq!(
        finder.note(Verdict::Violated { repeated: true }),
        ConstraintUse::AddToLp
    );
    assert_eq!(finder.after_round(false), RoundStep::Infeasible);
    assert!(!finder.solve_exact());
}

#[test]
fn exact_solving_is_left_after_a_clean_round() {
    let mut finder = PrefFinder::new(3);
    finder.begin(1);
    finder.after_solve(LpAnswer::Feasible { margin_ok: true });
    finder.note(Verdict::Violated { repeated: true });
    assert_eq!(finder.after_round(false), RoundStep::SolveAgain { exact: true });
    finder.after_solve(LpAnswer::Feasible { margin_ok: true });
    finder.note(Verdict::Violated { repeated: false });
    assert_eq!(finder.after_round(false), RoundStep::SolveAgain { exact: false });
    assert!(!finder.solve_exact());
}

#[test]
fn lp_only_takes_equal_weights_without_constraints() {
    assert_eq!(PrefFinder::lp_only(0, LpAnswer::Infeasible), SolveStep::UseEqualWeights);
    assert_eq!(
        PrefFinder::lp_only(3, LpAnswer::Feasible { margin_ok: true }),
        SolveStep::UsePreference
    );
    assert_eq!(
        PrefFinder::lp_only(3, LpAnswer::Feasible { margin_ok: false }),
        SolveStep::Infeasible
    );
    assert_eq!(PrefFinder::lp_only(3, LpAnswer::Infeasible), SolveStep::Infeasible);
}

#[test]
fn approximation_accepts_optimal_and_stuck_weights() {
    let approx = PrefSizeApproximator::new(0);
    assert_eq!(approx.after_solve(true), ApproxSolve::UsePreference);
    assert_eq!(approx.after_solve(false), ApproxSolve::UseEqualWeights);
    assert_eq!(approx.after_oracle(Verdict::Optimal), ApproxStep::Accept);
    assert_eq!(
        approx.after_oracle(Verdict::Violated { repeated: false }),
        ApproxStep::AddConstraint
    );
    assert_eq!(
        approx.after_oracle(Verdict::Violated { repeated: true }),
        ApproxStep::Accept
    );
    let seeded = PrefSizeApproximator::new(2);
    assert_eq!(seeded.after_solve(false), ApproxSolve::Fail);
}

#[test]
fn all_paths_need_the_oracle_at_first() {
    let mut set = SetPreferences::new(4);
    for i in 0..4 {
        assert!(set.needs_dijkstra(i));
    }
    assert!(!set.needs_dijkstra(4));
    set.do_dijkstra(2, false);
    assert!(!set.needs_dijkstra(2));
    set.do_dijkstra(2, false);
    assert!(!set.needs_dijkstra(2));
    assert_eq!(set.only_with_dijkstra(&vec![3, 2, 0, 2, 1]), vec![3, 0, 1]);
    set.do_dijkstra(2, true);
    set.do_dijkstra(2, true);
    assert_eq!(set.only_with_dijkstra(&vec![3, 2, 0, 2, 1]), vec![3, 2, 0, 2, 1]);
    assert_eq!(set.only_with_dijkstra(&vec![]), Vec::<usize>::new());
}

#[test]
fn inner_points_of_every_path_are_needed_for_the_filter() {
    let set = SetPreferences::new(3);
    assert!(set.yes_filter_applies(&vec![2, 1, 4], &vec![0, 2]));
    assert!(!set.yes_filter_applies(&vec![2, 0, 4], &vec![0, 1, 2]));
    assert!(set.yes_filter_applies(&vec![0, 0, 0], &vec![]));
}

#[test]
fn paths_are_shared_out_evenly() {
    assert_eq!(chunks(10, 4), vec![(0, 3), (3, 6), (6, 8), (8, 10)]);
    assert_eq!(chunks(8, 4), vec![(0, 2), (2, 4), (4, 6), (6, 8)]);
    assert_eq!(chunks(3, 8), vec![(0, 1), (1, 2), (2, 3)]);
    assert_eq!(chunks(5, 1), vec![(0, 5)]);
    assert_eq!(chunks(1, 1), vec![(0, 1)]);
}

#[test]
fn workers_cover_all_paths() {
    assert_eq!(worker_chunks(0), None);
    let parts = worker_chunks(7).unwrap();
    assert!(!parts.is_empty() && parts.len() <= 7);
    assert_eq!(parts[0].0, 0);
    assert_eq!(parts.last().unwrap().1, 7);
    for pair in parts.windows(2) {
        assert_eq!(pair[0].1, pair[1].0);
    }
    let sizes: Vec<usize> = parts.iter().map(|p| p.1 - p.0).collect();
    let min = sizes.iter().min().unwrap();
    let max = sizes.iter().max().unwrap();
    assert!(*min >= 1 && max - min <= 1);
}

#[test]
fn test_dir_iter() {
    let dim = 3;
    let schedule = dir_iter(dim, 2);
    assert_eq!(
        schedule,
        vec![
            Turn { axis1: 0, axis2: 1, turns: 1 },
            Turn { axis1: 0, axis2: 1, turns: 2 },
            Turn { axis1: 0, axis2: 2, turns: 1 },
            Turn { axis1: 0, axis2: 2, turns: 2 },
            Turn { axis1: 1, axis2: 2, turns: 1 },
            Turn { axis1: 1, axis2: 2, turns: 2 },
        ]
    );
    // turning by half a circle once or twice leaves both halves on their axes
    for turn in schedule {
        let angle = (360.0f64 / 2.0).to_radians() * turn.turns as f64;
        let (sin, cos) = angle.sin_cos();
        let mut dir = vec![0.0f64; dim];
        dir[turn.axis1] = 0.5 * cos - 0.5 * sin;
        dir[turn.axis2] = 0.5 * sin + 0.5 * cos;
        let point_5s = dir.iter().filter(|v| (v.abs() - 0.5).abs() < 0.000005).count();
        let zeros = dir.iter().filter(|v| v.abs() < 0.000005).count();
        assert_eq!(point_5s, 2);
        assert_eq!(zeros, dim - 2);
    }
    assert_eq!(dir_iter(1, 5), vec![]);
    assert_eq!(dir_iter(4, 0), vec![]);
    assert_eq!(dir_iter(4, 1).len(), 6);
}

#[test]
fn axis_schedule_has_both_signs_of_every_axis() {
    assert_eq!(
        axis_iter(2),
        vec![
            AxisDirection { axis: 0, negative: false },
            AxisDirection { axis: 0, negative: true },
            AxisDirection { axis: 1, negative: false },
            AxisDirection { axis: 1, negative: true },
        ]
    );
    assert_eq!(axis_iter(0), vec![]);
    assert_eq!(axis_iter(5).len(), 10);
}
