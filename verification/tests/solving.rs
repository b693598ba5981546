use color_flood::problem::Problem;
use color_flood::search::{Action, Verdict};
use color_flood::solver::{init_solver, run_solver, solve};

fn problem(rows: &[&str]) -> Problem {
    let lines: Vec<String> = rows.iter().map(|s| s.to_string()).collect();
    Problem::from_lines(&lines).expect("valid grid")
}

fn replay_solves(instance: &Problem, colors: &[u8]) -> bool {
    let mut p = Problem { grid: instance.grid.clone() };
    for &c in colors {
        p.apply_color(c);
    }
    p.is_single_color()
}

#[test]
fn a_single_cell_needs_no_moves() {
    let p = Problem { grid: vec![vec![5]] };
    let (verdict, solution) = solve(&p, &Action::Min);
    assert_eq!(verdict, Verdict::Sat);
    assert_eq!(solution.unwrap().colors, Vec::<u8>::new());
}

#[test]
fn a_uniform_grid_needs_no_moves() {
    let p = problem(&["000", "000", "000"]);
    let (verdict, solution) = solve(&p, &Action::Min);
    assert_eq!(verdict, Verdict::Sat);
    assert_eq!(solution.unwrap().colors, Vec::<u8>::new());
}

#[test]
fn a_checkerboard_takes_two_moves() {
    let p = problem(&["01", "10"]);
    let (verdict, solution) = solve(&p, &Action::Min);
    assert_eq!(verdict, Verdict::Sat);
    let colors = solution.unwrap().colors;
    assert_eq!(colors.len(), 2);
    assert!(replay_solves(&p, &colors));
}

#[test]
fn exact_below_the_minimum_is_unsatisfiable_and_at_it_satisfiable() {
    let p = problem(&["01", "10"]);
    let (below, none) = solve(&p, &Action::Exact { size: 1 });
    assert_eq!(below, Verdict::Unsat);
    assert!(none.is_none());
    let (at, solution) = solve(&p, &Action::Exact { size: 2 });
    assert_eq!(at, Verdict::Sat);
    let colors = solution.unwrap().colors;
    assert_eq!(colors.len(), 2);
    assert!(replay_solves(&p, &colors));
}

#[test]
fn the_optimizer_finds_the_minimum_in_one_shot() {
    let p = problem(&["01", "10"]);
    let (verdict, solution) = solve(&p, &Action::Opt { upper_bound: Some(5) });
    assert_eq!(verdict, Verdict::Sat);
    let colors = solution.unwrap().colors;
    assert_eq!(colors.len(), 2);
    assert!(replay_solves(&p, &colors));
}

#[test]
fn bounded_search_respects_its_window() {
    let p = problem(&["012", "120", "201"]);
    let (verdict, solution) = solve(&p, &Action::Search { lower_bound: 0, upper_bound: 8 });
    assert_eq!(verdict, Verdict::Sat);
    let colors = solution.unwrap().colors;
    assert!(replay_solves(&p, &colors));
    // the found minimum is tight: one move fewer is unsatisfiable
    let shorter = solve(&p, &Action::Exact { size: colors.len() - 1 });
    assert_eq!(shorter.0, Verdict::Unsat);
}

#[test]
fn a_decoded_minimal_solution_is_not_solved_early() {
    let p = problem(&["0120", "1200", "2001", "0012"]);
    let (verdict, solution) = solve(&p, &Action::Min);
    assert_eq!(verdict, Verdict::Sat);
    let colors = solution.unwrap().colors;
    assert!(replay_solves(&p, &colors));
    for cut in 0..colors.len() {
        assert!(
            !replay_solves(&p, &colors[..cut]),
            "prefix of length {cut} must not already solve the grid"
        );
    }
}

#[test]
fn the_primed_solver_reports_its_assertions() {
    let p = problem(&["01", "10"]);
    let st = init_solver(&p, 2, false);
    assert!(st.get_asserts().len() > 0);
    let (verdict, solution) = run_solver(st);
    assert_eq!(verdict, Verdict::Sat);
    assert_eq!(solution.unwrap().colors.len(), 2);
}
