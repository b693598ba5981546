use color_flood::cluster::ClusterGraph;
use color_flood::model::{build_model, check_assignment, decode, Assertion};
use color_flood::problem::Problem;

fn problem(rows: &[&str]) -> Problem {
    let lines: Vec<String> = rows.iter().map(|s| s.to_string()).collect();
    Problem::from_lines(&lines).expect("valid grid")
}

// A 1x2 grid "01": two clusters; index 0 holds (0,0).
fn two_cluster_graph() -> (Problem, ClusterGraph) {
    let p = problem(&["01"]);
    let g = ClusterGraph::build(&p);
    (p, g)
}

#[test]
fn a_valid_flood_run_satisfies_the_model() {
    let (p, g) = two_cluster_graph();
    let m = build_model(&g, p.num_colors(), 1, false);
    let origin = g.origin;
    let other = 1 - origin;
    // pick the other cluster's color at the one move slot
    let colors = vec![g.clusters[other].color];
    let mut floods = vec![vec![false; 2]; 2];
    floods[origin] = vec![true, true];
    floods[other] = vec![false, true];
    assert!(check_assignment(&g, &m, &colors, &floods));
}

#[test]
fn an_unflooded_end_state_violates_the_model() {
    let (p, g) = two_cluster_graph();
    let m = build_model(&g, p.num_colors(), 1, false);
    let origin = g.origin;
    let other = 1 - origin;
    // picking the origin's own color floods nothing
    let colors = vec![g.clusters[origin].color];
    let mut floods = vec![vec![false; 2]; 2];
    floods[origin] = vec![true, true];
    floods[other] = vec![false, true];
    assert!(!check_assignment(&g, &m, &colors, &floods));
}

#[test]
fn a_non_monotone_flood_violates_the_model() {
    let (p, g) = two_cluster_graph();
    let m = build_model(&g, p.num_colors(), 3, true);
    let origin = g.origin;
    let other = 1 - origin;
    let colors = vec![g.clusters[other].color, g.clusters[origin].color, g.clusters[other].color];
    let mut floods = vec![vec![false; 4]; 2];
    // the other cluster floods, un-floods, and floods again
    floods[origin] = vec![true, true, true, true];
    floods[other] = vec![false, true, false, true];
    assert!(!check_assignment(&g, &m, &colors, &floods));
}

#[test]
fn the_tightness_assertion_is_only_in_exact_mode() {
    let (p, g) = two_cluster_graph();
    let exact = build_model(&g, p.num_colors(), 3, false);
    let opt = build_model(&g, p.num_colors(), 3, true);
    let is_tightness = |a: &Assertion| matches!(a, Assertion::NotAllFlooded { t: 2 });
    assert!(exact.assertions.iter().any(is_tightness));
    assert!(!opt.assertions.iter().any(is_tightness));
}

#[test]
fn decode_truncates_to_the_first_fully_flooded_time() {
    // three clusters, fully flooded from time 2 on, horizon 4
    let colors = vec![Some(1), Some(2), Some(1), Some(2)];
    let row = |bits: [bool; 5]| bits.iter().map(|b| Some(*b)).collect::<Vec<_>>();
    let floods = vec![
        row([true, true, true, true, true]),
        row([false, true, true, true, true]),
        row([false, false, true, true, true]),
    ];
    let solution = decode(&colors, &floods, 4).expect("complete model");
    assert_eq!(solution.colors, vec![1, 2]);
}

#[test]
fn decode_defaults_to_the_whole_horizon() {
    // never fully flooded below the horizon
    let colors = vec![Some(3), Some(4)];
    let row = |bits: [bool; 3]| bits.iter().map(|b| Some(*b)).collect::<Vec<_>>();
    let floods = vec![row([true, true, true]), row([false, false, true])];
    let solution = decode(&colors, &floods, 2).expect("complete model");
    assert_eq!(solution.colors, vec![3, 4]);
}

#[test]
fn decode_reports_an_absent_color_value() {
    let colors = vec![Some(1), None];
    let row = |bits: [bool; 3]| bits.iter().map(|b| Some(*b)).collect::<Vec<_>>();
    let floods = vec![row([true, true, true])];
    assert!(decode(&colors, &floods, 2).is_none());
}

#[test]
fn decode_reports_an_absent_flood_value() {
    let colors = vec![Some(1)];
    let floods = vec![vec![Some(true), None]];
    assert!(decode(&colors, &floods, 1).is_none());
}
