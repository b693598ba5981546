use color_flood::search::{ceil_sqrt, max_moves, Action, SearchState, Verdict};

#[test]
fn ceil_sqrt_hits_exact_squares_and_rounds_up() {
    assert_eq!(ceil_sqrt(0), 0);
    assert_eq!(ceil_sqrt(1), 1);
    assert_eq!(ceil_sqrt(2), 2);
    assert_eq!(ceil_sqrt(4), 2);
    assert_eq!(ceil_sqrt(5), 3);
    assert_eq!(ceil_sqrt(12), 4);
    assert_eq!(ceil_sqrt(65536), 256);
}

#[test]
fn max_moves_takes_the_least_of_the_three_bounds() {
    // 3 colors on a 3-row grid: min(4, 3 * 2, 2 * 3 + 3 + ceil(sqrt(6)) * 3)
    // = min(4, 6, 18) = 4
    assert_eq!(max_moves(4, 3, 3), 4);
    // a big cluster count leaves the closed-form bounds:
    // min(100, 2 * 1, 2 * 2 + 2 + 2 * 2) = 2
    assert_eq!(max_moves(100, 2, 2), 2);
}

#[test]
fn actions_pick_their_bounds() {
    assert_eq!(Action::Min.get_bounds(0, 9), (0, 9));
    assert_eq!(Action::Solve.get_bounds(0, 9), (9, 9));
    assert_eq!(Action::Exact { size: 4 }.get_bounds(0, 9), (4, 4));
    assert_eq!(
        Action::Search { lower_bound: 2, upper_bound: 5 }.get_bounds(0, 9),
        (2, 5)
    );
    assert_eq!(Action::Opt { upper_bound: None }.get_bounds(0, 9), (9, 9));
    assert_eq!(Action::Opt { upper_bound: Some(7) }.get_bounds(0, 9), (7, 7));
}

#[test]
fn only_opt_uses_the_optimizer() {
    assert!(Action::Opt { upper_bound: None }.use_optimizer());
    assert!(!Action::Min.use_optimizer());
    assert!(!Action::Exact { size: 1 }.use_optimizer());
}

#[test]
fn a_satisfiable_attempt_narrows_the_search_downward() {
    let s = SearchState::init(0, 9);
    let t = s.target();
    assert_eq!(t, 4);
    let s = s.step(t, Verdict::Sat, Some(vec![1, 2, 3, 4].into()));
    assert_eq!((s.lo, s.hi, s.done), (0, 3, false));
    assert_eq!(s.best.as_ref().unwrap().colors, vec![1, 2, 3, 4]);
}

#[test]
fn an_unsatisfiable_attempt_narrows_the_search_upward() {
    let s = SearchState::init(0, 9);
    let s = s.step(4, Verdict::Unsat, None);
    assert_eq!((s.lo, s.hi, s.done), (5, 9, false));
    assert!(s.best.is_none());
}

#[test]
fn an_unknown_verdict_is_treated_like_unsatisfiable() {
    let s = SearchState::init(3, 3);
    let s = s.step(3, Verdict::Unknown, None);
    assert_eq!((s.lo, s.hi), (4, 3));
    assert!(s.done);
}

#[test]
fn a_satisfiable_attempt_at_zero_ends_the_search() {
    let s = SearchState::init(0, 0);
    let s = s.step(0, Verdict::Sat, Some(vec![].into()));
    assert!(s.done);
    assert_eq!(s.best.unwrap().colors, Vec::<u8>::new());
}
