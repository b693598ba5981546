use color_flood::cluster::{Cluster, ClusterGraph};
use color_flood::problem::Problem;

fn problem(rows: &[&str]) -> Problem {
    let lines: Vec<String> = rows.iter().map(|s| s.to_string()).collect();
    Problem::from_lines(&lines).expect("valid grid")
}

#[test]
fn every_cell_sits_in_exactly_one_cluster() {
    let p = problem(&["010", "102", "201"]);
    let clusters = Cluster::from_problem(&p);
    for y in 0..3u8 {
        for x in 0..3u8 {
            let owners = clusters
                .iter()
                .filter(|c| c.fields.contains(&(y, x)))
                .count();
            assert_eq!(owners, 1, "cell ({y}, {x}) must have one owner");
        }
    }
    for c in &clusters {
        for &(y, x) in &c.fields {
            assert_eq!(p.grid[y as usize][x as usize], c.color);
        }
    }
}

#[test]
fn a_checkerboard_has_a_cluster_per_cell() {
    let p = problem(&["01", "10"]);
    let clusters = Cluster::from_problem(&p);
    assert_eq!(clusters.len(), 4);
    for c in &clusters {
        assert_eq!(c.fields.len(), 1);
    }
}

#[test]
fn a_uniform_grid_is_one_cluster() {
    let p = problem(&["000", "000", "000"]);
    let clusters = Cluster::from_problem(&p);
    assert_eq!(clusters.len(), 1);
    assert_eq!(clusters[0].fields.len(), 9);
}

#[test]
fn neighbours_are_the_points_just_outside_a_cluster() {
    let p = problem(&["010", "110", "002"]);
    let clusters = Cluster::from_problem(&p);
    let big = clusters
        .iter()
        .find(|c| c.fields.len() == 3)
        .expect("three-cell cluster");
    let mut boundary = big.neighbours(3, 3);
    boundary.sort();
    boundary.dedup();
    assert_eq!(boundary, vec![(0, 0), (0, 2), (1, 2), (2, 0), (2, 1)]);
}

#[test]
fn cluster_adjacency_is_mutual() {
    let p = problem(&["010", "102", "201"]);
    let clusters = Cluster::from_problem(&p);
    let n = clusters.len();
    let lists: Vec<Vec<usize>> = clusters
        .iter()
        .map(|c| c.neighbour_clusters(&clusters, 3, 3))
        .collect();
    for i in 0..n {
        for j in 0..n {
            assert_eq!(
                lists[i].contains(&j),
                lists[j].contains(&i),
                "adjacency of {i} and {j} must be mutual"
            );
        }
    }
}

#[test]
fn the_graph_origin_owns_the_upper_left_cell() {
    let p = problem(&["010", "102", "201"]);
    let graph = ClusterGraph::build(&p);
    assert!(graph.clusters[graph.origin].fields.contains(&(0, 0)));
    assert_eq!(graph.neighbours.len(), graph.clusters.len());
}
