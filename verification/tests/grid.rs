use color_flood::problem::Problem;

fn problem(rows: &[&str]) -> Problem {
    let lines: Vec<String> = rows.iter().map(|s| s.to_string()).collect();
    Problem::from_lines(&lines).expect("valid grid")
}

#[test]
fn parses_a_rectangular_digit_grid() {
    let p = problem(&["010", "102", "201"]);
    assert_eq!(p.height(), 3);
    assert_eq!(p.width(), 3);
    assert_eq!(p.num_colors(), 3);
    assert_eq!(p.grid[1], vec![1, 0, 2]);
}

#[test]
fn rejects_an_empty_input() {
    let lines: Vec<String> = vec![];
    assert!(Problem::from_lines(&lines).is_none());
}

#[test]
fn rejects_an_empty_line() {
    let lines = vec![String::new()];
    assert!(Problem::from_lines(&lines).is_none());
}

#[test]
fn rejects_ragged_lines() {
    let lines = vec!["01".to_string(), "0".to_string()];
    assert!(Problem::from_lines(&lines).is_none());
}

#[test]
fn rejects_non_digit_characters() {
    let lines = vec!["0a".to_string()];
    assert!(Problem::from_lines(&lines).is_none());
}

#[test]
fn rejects_a_grid_without_color_zero() {
    let lines = vec!["12".to_string(), "21".to_string()];
    assert!(Problem::from_lines(&lines).is_none());
}

#[test]
fn num_colors_is_one_more_than_the_largest_color() {
    let p = problem(&["07"]);
    assert_eq!(p.num_colors(), 8);
}

#[test]
fn is_single_color_tells_uniform_grids_apart() {
    assert!(problem(&["000", "000"]).is_single_color());
    assert!(!problem(&["000", "010"]).is_single_color());
}

#[test]
fn region_of_collects_the_connected_same_color_cells() {
    let p = problem(&["010", "110", "002"]);
    let mut region = p.region_of(0, 0);
    region.sort();
    assert_eq!(region, vec![(0, 0)]);
    let mut region = p.region_of(1, 0);
    region.sort();
    assert_eq!(region, vec![(0, 1), (1, 0), (1, 1)]);
}

#[test]
fn apply_color_recolors_exactly_the_origin_region() {
    let mut p = problem(&["010", "110", "002"]);
    p.apply_color(1);
    assert_eq!(p.grid, vec![vec![1, 1, 0], vec![1, 1, 0], vec![0, 0, 2]]);
    p.apply_color(0);
    assert_eq!(p.grid, vec![vec![0, 0, 0], vec![0, 0, 0], vec![0, 0, 2]]);
    p.apply_color(2);
    assert_eq!(p.grid, vec![vec![2, 2, 2], vec![2, 2, 2], vec![2, 2, 2]]);
    assert!(p.is_single_color());
}
