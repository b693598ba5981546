//! Replaying a color sequence on the grid.
//!
//! [`replay`] is the grid after some moves have been applied, each move
//! recoloring the origin's whole region as [`crate::problem::Problem::apply_color`]
//! does.  The lemmas connect that grid-level replay to the cluster-level
//! flood dynamics [`crate::model::sim_flood`] that the constraint model
//! pins down: after `t` moves the region of the origin cell is exactly the
//! union of the clusters flooded at time `t`, and the grid has become one
//! color exactly when every cluster is flooded.

use vstd::prelude::*;

use crate::cluster::ClusterGraph;
use crate::model::{
    assertion_holds, cluster_color, nb_contains, neighbour_flooded, sim_flood, Assertion,
    ConstraintModel,
};
use crate::reach::{
    color_at, connected, grid_height, grid_in, grid_wf, grid_width, GridView,
};
use crate::util::Point;

verus! {

/// Whether every cell of the grid carries the color of the origin cell.
pub open spec fn single_colored(g: GridView) -> bool {
    forall|q: Point| grid_in(g, q) ==> #[trigger] color_at(g, q) == color_at(g, (0u8, 0u8))
}

/// The grid after one move: every cell of the origin cell's region takes
/// the color `c`, every other cell keeps its color.
pub open spec fn recolor(g: GridView, c: u8) -> GridView {
    Seq::new(
        g.len(),
        |y: int|
            Seq::new(
                g[y].len(),
                |x: int|
                    if connected(g, (0u8, 0u8), ((y as u8), (x as u8))) {
                        c
                    } else {
                        g[y][x]
                    },
            ),
    )
}

/// The grid after the first `t` moves of the color sequence.
pub open spec fn replay(g0: GridView, colors: Seq<u8>, t: int) -> GridView
    decreases t,
{
    if t <= 0 {
        g0
    } else {
        recolor(replay(g0, colors, t - 1), colors[t - 1])
    }
}

/// The color of the flooded region after `t` moves: the origin cell's
/// color before any move, then the color of the last move.
pub open spec fn current_color(g0: GridView, colors: Seq<u8>, t: int) -> u8 {
    if t <= 0 {
        color_at(g0, (0u8, 0u8))
    } else {
        colors[t - 1]
    }
}

/// Whether cell `q` belongs to a cluster flooded at time `t`.
pub open spec fn in_flooded(g: ClusterGraph, colors: Seq<u8>, t: int, q: Point) -> bool {
    exists|i: int|
        0 <= i < g.clusters@.len() && #[trigger] sim_flood(g, colors, i, t)
            && g.clusters@[i].fields@.contains(q)
}

/// Whether every cluster is flooded at time `t`.
pub open spec fn all_clusters_flooded(g: ClusterGraph, colors: Seq<u8>, t: int) -> bool {
    forall|i: int| 0 <= i < g.clusters@.len() ==> #[trigger] sim_flood(g, colors, i, t)
}

/// The origin cluster is flooded at every time.
proof fn lemma_sim_origin(g: ClusterGraph, colors: Seq<u8>, t: int)
    ensures
        sim_flood(g, colors, g.origin as int, t),
    decreases t,
{
    if t > 0 {
        lemma_sim_origin(g, colors, t - 1);
    }
}

/// A cluster flooded at `t` stays flooded at `t + 1`.
proof fn lemma_sim_monotone(g: ClusterGraph, colors: Seq<u8>, i: int, t: int)
    requires
        sim_flood(g, colors, i, t),
        t >= 0,
    ensures
        sim_flood(g, colors, i, t + 1),
{
}

/// Recoloring keeps the grid's shape.
proof fn lemma_recolor_shape(g: GridView, c: u8)
    ensures
        recolor(g, c).len() == g.len(),
        forall|y: int| 0 <= y < g.len() ==> (#[trigger] recolor(g, c)[y]).len() == g[y].len(),
{
}

/// The replayed grid keeps the original's shape and well-formedness.
pub proof fn lemma_replay_shape(g0: GridView, colors: Seq<u8>, t: int)
    requires
        grid_wf(g0),
    ensures
        grid_wf(replay(g0, colors, t)),
        replay(g0, colors, t).len() == g0.len(),
        forall|y: int|
            0 <= y < g0.len() ==> (#[trigger] replay(g0, colors, t)[y]).len() == g0[y].len(),
        grid_height(replay(g0, colors, t)) == grid_height(g0),
        grid_width(replay(g0, colors, t)) == grid_width(g0),
    decreases t,
{
    if t > 0 {
        lemma_replay_shape(g0, colors, t - 1);
        lemma_recolor_shape(replay(g0, colors, t - 1), colors[t - 1]);
    }
}

/// Every point along a walk is connected to the walk's first point.
proof fn lemma_path_prefix_connected(g: GridView, path: Seq<Point>, c: u8, k: int)
    requires
        crate::reach::is_path(g, path, c),
        0 <= k < path.len(),
    ensures
        connected(g, path.first(), path[k]),
{
    let pre = path.subrange(0, k + 1);
    assert forall|k2: int| 0 <= k2 < pre.len() implies grid_in(g, #[trigger] pre[k2])
        && color_at(g, pre[k2]) == c by {
        assert(pre[k2] == path[k2]);
    }
    assert forall|k2: int| 0 <= k2 < pre.len() - 1 implies crate::util::adj4(
        #[trigger] pre[k2],
        pre[k2 + 1],
    ) by {
        assert(pre[k2] == path[k2] && pre[k2 + 1] == path[k2 + 1]);
        assert(crate::util::adj4(path[k2], path[k2 + 1]));
    }
    assert(color_at(g, path.first()) == c);
    assert(crate::reach::is_path(g, pre, c) && pre.first() == path.first() && pre.last()
        == path[k]);
}

/// A flooded cell's unflooded neighbour of the move's color cannot exist:
/// the neighbour's cluster is flooded too.
proof fn lemma_flood_absorbs(
    g0: GridView,
    g: ClusterGraph,
    colors: Seq<u8>,
    t: int,
    u: Point,
    v: Point,
)
    requires
        grid_wf(g0),
        g.wf(g0),
        t >= 1,
        grid_in(g0, u),
        grid_in(g0, v),
        crate::util::adj4(u, v),
        in_flooded(g, colors, t, u),
        !in_flooded(g, colors, t, v) ==> color_at(g0, v) == colors[t - 1],
    ensures
        in_flooded(g, colors, t, v),
{
    if !in_flooded(g, colors, t, v) {
        let cs = g.clusters@;
        let n = cs.len() as int;
        let i = choose|i: int| 0 <= i < n && #[trigger] cs[i].fields@.contains(v);
        assert(!sim_flood(g, colors, i, t));
        assert(cs[i].color == color_at(g0, v));
        let ju = choose|j: int|
            0 <= j < n && #[trigger] sim_flood(g, colors, j, t) && cs[j].fields@.contains(u);
        if ju == i {
            assert(false);
        }
        // cluster `ju` touches cluster `i` at the pair `(v, u)`
        assert(!cs[i].fields@.contains(u));
        crate::util::lemma_adj4_symmetric(u, v);
        assert(crate::cluster::boundary_point(
            cs[i],
            u,
            grid_height(g0),
            grid_width(g0),
        ));
        assert(crate::cluster::touches(cs[i], cs[ju], grid_height(g0), grid_width(g0)));
        assert(g.clusters.len() == g.clusters@.len());
        let juu = ju as usize;
        assert(juu as int == ju);
        assert(g.neighbours@[i]@.contains(juu));
        assert(nb_contains(g, i, juu));
        if sim_flood(g, colors, ju, t - 1) {
            assert(sim_flood(g, colors, i, t));
            assert(false);
        } else {
            // `ju` was itself just flooded, so the move carries its color,
            // which differs from `i`'s: two adjacent cells of one color
            // would sit in one cluster
            assert(colors[t - 1] == cluster_color(g, ju));
            if cs[ju].color == cs[i].color {
                crate::reach::lemma_connected_refl(g0, v);
                crate::reach::lemma_connected_step(g0, v, v, u);
                assert(cs[i].fields@.contains(u));
                assert(false);
            }
            assert(false);
        }
    }
}

/// Along a walk of the move's color in the replayed grid, flooding spreads
/// from the first cell to the last.
proof fn lemma_path_flooded(
    g0: GridView,
    g: ClusterGraph,
    colors: Seq<u8>,
    t: int,
    path: Seq<Point>,
)
    requires
        grid_wf(g0),
        g.wf(g0),
        t >= 1,
        forall|q: Point|
            grid_in(g0, q) ==> #[trigger] color_at(replay(g0, colors, t), q) == (if in_flooded(
                g,
                colors,
                t,
                q,
            ) {
                colors[t - 1]
            } else {
                color_at(g0, q)
            }),
        crate::reach::is_path(replay(g0, colors, t), path, colors[t - 1]),
        in_flooded(g, colors, t, path.first()),
    ensures
        in_flooded(g, colors, t, path.last()),
    decreases path.len(),
{
    lemma_replay_shape(g0, colors, t);
    let gt = replay(g0, colors, t);
    if path.len() > 1 {
        let u = path[0];
        let v = path[1];
        assert(grid_in(gt, v) && color_at(gt, v) == colors[t - 1]);
        assert(grid_in(g0, v));
        assert(grid_in(g0, u));
        let z: int = 0;
        assert(crate::util::adj4(path[z], path[z + 1]));
        lemma_flood_absorbs(g0, g, colors, t, u, v);
        let rest = path.subrange(1, path.len() as int);
        assert forall|k: int| 0 <= k < rest.len() implies grid_in(gt, #[trigger] rest[k])
            && color_at(gt, rest[k]) == colors[t - 1] by {
            assert(rest[k] == path[k + 1]);
        }
        assert forall|k: int| 0 <= k < rest.len() - 1 implies crate::util::adj4(
            #[trigger] rest[k],
            rest[k + 1],
        ) by {
            assert(rest[k] == path[k + 1] && rest[k + 1] == path[k + 2]);
            assert(crate::util::adj4(path[k + 1], path[k + 1 + 1]));
        }
        assert(crate::reach::is_path(gt, rest, colors[t - 1]));
        assert(rest.first() == v);
        lemma_path_flooded(g0, g, colors, t, rest);
        assert(rest.last() == path.last());
    }
}

/// After `t` moves the replayed grid is the original grid with every
/// flooded cluster recolored to the running color, and the origin cell's
/// region is exactly the union of the flooded clusters.
#[verifier::rlimit(100)]
#[verifier::spinoff_prover]
pub proof fn lemma_replay_floods(g0: GridView, g: ClusterGraph, colors: Seq<u8>, t: int)
    requires
        grid_wf(g0),
        g.wf(g0),
        t >= 0,
    ensures
        forall|q: Point|
            grid_in(g0, q) ==> #[trigger] color_at(replay(g0, colors, t), q) == (if in_flooded(
                g,
                colors,
                t,
                q,
            ) {
                current_color(g0, colors, t)
            } else {
                color_at(g0, q)
            }),
        forall|q: Point|
            grid_in(g0, q) ==> (#[trigger] connected(replay(g0, colors, t), (0u8, 0u8), q)
                <==> in_flooded(g, colors, t, q)),
    decreases t,
{
    lemma_replay_shape(g0, colors, t);
    let cs = g.clusters@;
    let n = cs.len() as int;
    let origin = g.origin as int;
    let zero: Point = (0u8, 0u8);
    let gt = replay(g0, colors, t);
    assert(grid_in(g0, zero));
    assert(cs[origin].fields@.contains(zero));
    if t == 0 {
        assert forall|q: Point|
            grid_in(g0, q) implies (in_flooded(g, colors, 0, q) <==> cs[origin].fields@.contains(
            q,
        )) by {
            if in_flooded(g, colors, 0, q) {
                let i = choose|i: int|
                    0 <= i < n && #[trigger] sim_flood(g, colors, i, 0)
                        && cs[i].fields@.contains(q);
                assert(i == origin);
            }
            if cs[origin].fields@.contains(q) {
                assert(sim_flood(g, colors, origin, 0));
            }
        }
        assert forall|q: Point|
            grid_in(g0, q) implies #[trigger] color_at(gt, q) == (if in_flooded(
            g,
            colors,
            0,
            q,
        ) {
            current_color(g0, colors, 0)
        } else {
            color_at(g0, q)
        }) by {
            if in_flooded(g, colors, 0, q) {
                assert(cs[origin].fields@.contains(q));
                assert(color_at(g0, q) == cs[origin].color);
                assert(color_at(g0, zero) == cs[origin].color);
            }
        }
        assert forall|q: Point|
            grid_in(g0, q) implies (#[trigger] connected(gt, zero, q) <==> in_flooded(
            g,
            colors,
            0,
            q,
        )) by {
            if connected(g0, zero, q) {
                assert(cs[origin].fields@.contains(q));
                assert(sim_flood(g, colors, origin, 0));
            }
            if in_flooded(g, colors, 0, q) {
                assert(cs[origin].fields@.contains(q));
                assert(connected(g0, zero, q));
            }
        }
    } else {
        lemma_replay_floods(g0, g, colors, t - 1);
        lemma_replay_shape(g0, colors, t - 1);
        let gs = replay(g0, colors, t - 1);
        let c = colors[t - 1];
        assert(gt == recolor(gs, c));
        assert forall|q: Point|
            grid_in(g0, q) implies #[trigger] color_at(gt, q) == (if connected(gs, zero, q) {
            c
        } else {
            color_at(gs, q)
        }) by {
            assert((((q.0 as int) as u8), ((q.1 as int) as u8)) == q);
        }
        lemma_sim_origin(g, colors, t);
        lemma_sim_origin(g, colors, t - 1);
        assert(in_flooded(g, colors, t, zero));
        assert(in_flooded(g, colors, t - 1, zero));
        assert forall|q: Point| #[trigger]
            in_flooded(g, colors, t - 1, q) implies in_flooded(g, colors, t, q) by {
            let i = choose|i: int|
                0 <= i < n && #[trigger] sim_flood(g, colors, i, t - 1) && cs[i].fields@.contains(
                    q,
                );
            lemma_sim_monotone(g, colors, i, t - 1);
        }
        // the cellwise color claim at time t
        assert forall|q: Point|
            grid_in(g0, q) implies #[trigger] color_at(gt, q) == (if in_flooded(
            g,
            colors,
            t,
            q,
        ) {
            current_color(g0, colors, t)
        } else {
            color_at(g0, q)
        }) by {
            if in_flooded(g, colors, t - 1, q) {
                assert(connected(gs, zero, q));
                assert(in_flooded(g, colors, t, q));
            } else {
                assert(!connected(gs, zero, q));
                assert(color_at(gt, q) == color_at(gs, q));
                if in_flooded(g, colors, t, q) {
                    let i = choose|i: int|
                        0 <= i < n && #[trigger] sim_flood(g, colors, i, t)
                            && cs[i].fields@.contains(q);
                    if sim_flood(g, colors, i, t - 1) {
                        assert(in_flooded(g, colors, t - 1, q));
                        assert(false);
                    }
                    assert(colors[t - 1] == cluster_color(g, i));
                    assert(color_at(g0, q) == cs[i].color);
                }
            }
        }
        // cells flooded before the move stay joined to the origin cell
        assert forall|q: Point|
            grid_in(g0, q) && #[trigger] in_flooded(g, colors, t - 1, q) implies connected(
            gt,
            zero,
            q,
        ) by {
            assert(connected(gs, zero, q));
            let path = choose|path: Seq<Point>|
                crate::reach::is_path(gs, path, color_at(gs, zero)) && path.first() == zero
                    && path.last() == q;
            assert forall|k: int| 0 <= k < path.len() implies grid_in(gt, #[trigger] path[k])
                && color_at(gt, path[k]) == c by {
                lemma_path_prefix_connected(gs, path, color_at(gs, zero), k);
                assert(connected(gs, zero, path[k]));
                assert(grid_in(gs, path[k]));
                assert(grid_in(g0, path[k]));
                assert(in_flooded(g, colors, t - 1, path[k]));
                assert(in_flooded(g, colors, t, path[k]));
            }
            assert forall|k: int| 0 <= k < path.len() - 1 implies crate::util::adj4(
                #[trigger] path[k],
                path[k + 1],
            ) by {
                assert(crate::util::adj4(path[k], path[k + 1]));
            }
            assert(color_at(gt, zero) == c);
            assert(crate::reach::is_path(gt, path, color_at(gt, zero)) && path.first() == zero
                && path.last() == q);
        }
        // the region claim at time t
        assert forall|q: Point|
            grid_in(g0, q) implies (#[trigger] connected(gt, zero, q) <==> in_flooded(
            g,
            colors,
            t,
            q,
        )) by {
            if connected(gt, zero, q) {
                let path = choose|path: Seq<Point>|
                    crate::reach::is_path(gt, path, color_at(gt, zero)) && path.first() == zero
                        && path.last() == q;
                assert(color_at(gt, zero) == c);
                lemma_path_flooded(g0, g, colors, t, path);
            }
            if in_flooded(g, colors, t, q) {
                let i = choose|i: int|
                    0 <= i < n && #[trigger] sim_flood(g, colors, i, t)
                        && cs[i].fields@.contains(q);
                if sim_flood(g, colors, i, t - 1) {
                    assert(in_flooded(g, colors, t - 1, q));
                    assert(connected(gt, zero, q));
                } else {
                    assert(colors[t - 1] == cluster_color(g, i));
                    let j = choose|j: usize|
                        #[trigger] nb_contains(g, i, j) && sim_flood(g, colors, j as int, t - 1);
                    assert(g.neighbours@[i]@.contains(j));
                    assert((j as int) < n && crate::cluster::touches(
                        cs[i],
                        cs[j as int],
                        grid_height(g0),
                        grid_width(g0),
                    ));
                    let p = choose|p: Point|
                        #![trigger cs[j as int].fields@.contains(p)]
                        crate::cluster::boundary_point(cs[i], p, grid_height(g0), grid_width(g0))
                            && cs[j as int].fields@.contains(p);
                    let u = choose|u: Point|
                        #![trigger cs[i].fields@.contains(u), crate::util::adj4(u, p)]
                        cs[i].fields@.contains(u) && crate::util::adj4(u, p);
                    assert(connected(g0, q, u));
                    let path0 = choose|path: Seq<Point>|
                        crate::reach::is_path(g0, path, color_at(g0, q)) && path.first() == q
                            && path.last() == u;
                    assert forall|k: int|
                        0 <= k < path0.len() implies grid_in(gt, #[trigger] path0[k]) && color_at(
                        gt,
                        path0[k],
                    ) == c by {
                        lemma_path_prefix_connected(g0, path0, color_at(g0, q), k);
                        assert(connected(g0, q, path0[k]));
                        assert(cs[i].fields@.contains(path0[k]));
                        assert(in_flooded(g, colors, t, path0[k]));
                        assert(grid_in(g0, path0[k]));
                    }
                    assert forall|k: int| 0 <= k < path0.len() - 1 implies crate::util::adj4(
                        #[trigger] path0[k],
                        path0[k + 1],
                    ) by {
                        assert(crate::util::adj4(path0[k], path0[k + 1]));
                    }
                    assert(color_at(gt, q) == c);
                    assert(crate::reach::is_path(gt, path0, color_at(gt, q)) && path0.first() == q
                        && path0.last() == u);
                    assert(connected(gt, q, u));
                    assert(cs[j as int].fields@.contains(p));
                    assert(in_flooded(g, colors, t - 1, p));
                    assert(in_flooded(g, colors, t, p));
                    assert(grid_in(g0, p));
                    assert(color_at(gt, p) == c);
                    crate::reach::lemma_connected_step(gt, q, u, p);
                    assert(connected(gt, zero, p));
                    crate::reach::lemma_connected_sym(gt, q, p);
                    crate::reach::lemma_connected_trans(gt, zero, p, q);
                }
            }
        }
    }
}

/// In a grid that looks like one color after `t` moves, flooding has in
/// fact reached every cell: walking from the origin cell, each neighbour
/// either was flooded or carries the move's color and is absorbed.
proof fn lemma_single_all_flooded_walk(
    g0: GridView,
    g: ClusterGraph,
    colors: Seq<u8>,
    t: int,
    q: Point,
)
    requires
        grid_wf(g0),
        g.wf(g0),
        t >= 1,
        single_colored(replay(g0, colors, t)),
        grid_in(g0, q),
    ensures
        in_flooded(g, colors, t, q),
    decreases (q.0 as int) + (q.1 as int),
{
    lemma_replay_floods(g0, g, colors, t);
    lemma_replay_shape(g0, colors, t);
    let gt = replay(g0, colors, t);
    let zero: Point = (0u8, 0u8);
    lemma_sim_origin(g, colors, t);
    assert(g.clusters@[g.origin as int].fields@.contains(zero));
    if q == zero {
        assert(in_flooded(g, colors, t, zero));
    } else {
        let prev: Point = if q.1 > 0 {
            (q.0, (q.1 - 1) as u8)
        } else {
            (((q.0 - 1) as u8), q.1)
        };
        assert(grid_in(g0, prev) && crate::util::adj4(prev, q));
        lemma_single_all_flooded_walk(g0, g, colors, t, prev);
        assert(in_flooded(g, colors, t, zero));
        assert(color_at(gt, q) == color_at(gt, zero));
        assert(color_at(gt, zero) == current_color(g0, colors, t));
        if !in_flooded(g, colors, t, q) {
            assert(color_at(g0, q) == colors[t - 1]);
        }
        lemma_flood_absorbs(g0, g, colors, t, prev, q);
    }
}

/// The round trip: after `t` moves the grid has become one color exactly
/// when every cluster is flooded at time `t` of the cluster-level flood
/// dynamics that the constraint model pins down.
pub proof fn lemma_replay_single_color(g0: GridView, g: ClusterGraph, colors: Seq<u8>, t: int)
    requires
        grid_wf(g0),
        g.wf(g0),
        t >= 0,
    ensures
        single_colored(replay(g0, colors, t)) <==> all_clusters_flooded(g, colors, t),
{
    lemma_replay_floods(g0, g, colors, t);
    lemma_replay_shape(g0, colors, t);
    let cs = g.clusters@;
    let n = cs.len() as int;
    let zero: Point = (0u8, 0u8);
    let gt = replay(g0, colors, t);
    lemma_sim_origin(g, colors, t);
    assert(cs[g.origin as int].fields@.contains(zero));
    assert(grid_in(g0, zero));
    assert(in_flooded(g, colors, t, zero));
    if all_clusters_flooded(g, colors, t) {
        assert forall|q: Point| grid_in(gt, q) implies #[trigger] color_at(gt, q) == color_at(
            gt,
            zero,
        ) by {
            assert(grid_in(g0, q));
            let i = choose|i: int| 0 <= i < n && #[trigger] cs[i].fields@.contains(q);
            assert(sim_flood(g, colors, i, t));
            assert(in_flooded(g, colors, t, q));
        }
        assert(single_colored(gt));
    }
    if single_colored(gt) {
        if t == 0 {
            assert forall|q: Point| grid_in(g0, q) implies #[trigger] color_at(g0, q) == color_at(
                g0,
                (0u8, 0u8),
            ) by {
                assert(color_at(gt, q) == color_at(gt, zero));
                assert(!in_flooded(g, colors, 0, q) ==> color_at(gt, q) == color_at(g0, q));
                if in_flooded(g, colors, 0, q) {
                    let i = choose|i: int|
                        0 <= i < n && #[trigger] sim_flood(g, colors, i, 0)
                            && cs[i].fields@.contains(q);
                    assert(i == g.origin as int);
                    assert(color_at(g0, q) == cs[i].color);
                    assert(color_at(g0, zero) == cs[i].color);
                }
            }
            crate::cluster::lemma_single_color_one_cluster(g0, cs);
            assert forall|i: int| 0 <= i < n implies #[trigger] sim_flood(g, colors, i, t) by {
                assert(i == g.origin as int);
            }
        } else {
            assert forall|i: int| 0 <= i < n implies #[trigger] sim_flood(g, colors, i, t) by {
                let q = cs[i].fields@[0];
                assert(cs[i].fields@.contains(q));
                assert(grid_in(g0, q));
                lemma_single_all_flooded_walk(g0, g, colors, t, q);
                let i2 = choose|i2: int|
                    0 <= i2 < n && #[trigger] sim_flood(g, colors, i2, t)
                        && cs[i2].fields@.contains(q);
                if i2 != i {
                    assert(!cs[i].fields@.contains(q));
                }
            }
        }
    }
}

/// What [`crate::problem::Problem::apply_color`] promises cell by cell is
/// exactly one [`recolor`] step.
pub proof fn lemma_recolor_pointwise(gold: GridView, gnew: GridView, c: u8)
    requires
        grid_wf(gold),
        grid_wf(gnew),
        grid_height(gnew) == grid_height(gold),
        grid_width(gnew) == grid_width(gold),
        forall|p: Point|
            grid_in(gold, p) ==> #[trigger] color_at(gnew, p) == (if connected(
                gold,
                (0u8, 0u8),
                p,
            ) {
                c
            } else {
                color_at(gold, p)
            }),
    ensures
        gnew == recolor(gold, c),
{
    let gr = recolor(gold, c);
    assert forall|y: int| 0 <= y < gnew.len() implies #[trigger] gnew[y] =~= gr[y] by {
        assert(gnew[y].len() == gold[y].len());
        assert forall|x: int| 0 <= x < gnew[y].len() implies #[trigger] gnew[y][x] == gr[y][x] by {
            let p: Point = ((y as u8), (x as u8));
            assert(grid_in(gold, p));
            assert(color_at(gnew, p) == gnew[y][x]);
            assert(color_at(gold, p) == gold[y][x]);
        }
    }
    assert(gnew =~~= gr);
}

/// Replaying `t` moves reads only the first `t` colors: two sequences
/// that agree there replay alike.
pub proof fn lemma_replay_prefix(g0: GridView, colors1: Seq<u8>, colors2: Seq<u8>, t: int)
    requires
        forall|t2: int| 0 <= t2 < t ==> colors1[t2] == colors2[t2],
    ensures
        replay(g0, colors1, t) == replay(g0, colors2, t),
    decreases t,
{
    if t > 0 {
        lemma_replay_prefix(g0, colors1, colors2, t - 1);
    }
}

/// The flood matrix that a color sequence itself determines.
pub open spec fn sim_matrix(g: ClusterGraph, colors: Seq<u8>, t_max: int) -> Seq<Seq<bool>> {
    Seq::new(
        g.clusters@.len(),
        |i: int| Seq::new((t_max + 1) as nat, |t: int| sim_flood(g, colors, i, t)),
    )
}

/// The converse of the round trip: the encoding is complete.  A color
/// sequence inside the color domain, with consecutive moves distinct,
/// that makes the grid one color at the horizon — and, when the model
/// pins the horizon as tight, not one move earlier — satisfies the model
/// together with the flood matrix it determines.  An unsatisfiable
/// verdict at a horizon therefore really means that no such sequence of
/// that length exists.
pub proof fn lemma_encoding_complete(
    g0: GridView,
    g: ClusterGraph,
    m: ConstraintModel,
    colors: Seq<u8>,
)
    requires
        grid_wf(g0),
        g.wf(g0),
        m.complete(g),
        colors.len() == m.t_max,
        forall|t: int| 0 <= t < m.t_max ==> (#[trigger] colors[t] as int) < m.num_colors,
        forall|t: int| 0 <= t && t + 1 < m.t_max ==> colors[t] != #[trigger] colors[t + 1],
        single_colored(replay(g0, colors, m.t_max as int)),
        m.optimize || m.t_max == 0 || !single_colored(replay(g0, colors, m.t_max - 1)),
    ensures
        m.satisfied_by(g, colors, sim_matrix(g, colors, m.t_max as int)),
{
    let n = g.clusters@.len() as int;
    let origin = g.origin as int;
    let t_max = m.t_max as int;
    let floods = sim_matrix(g, colors, t_max);
    assert forall|i: int, t: int|
        0 <= i < n && 0 <= t <= t_max implies #[trigger] floods[i][t] == sim_flood(
        g,
        colors,
        i,
        t,
    ) by {}
    assert forall|i: int, j: usize|
        0 <= i < g.neighbours@.len() && #[trigger] g.neighbours@[i]@.contains(j) implies (
    j as int) < n by {}
    lemma_replay_single_color(g0, g, colors, t_max);
    assert(all_clusters_flooded(g, colors, t_max));
    if !m.optimize && t_max >= 1 {
        lemma_replay_single_color(g0, g, colors, t_max - 1);
        assert(!all_clusters_flooded(g, colors, t_max - 1));
    }
    assert forall|a: Assertion| #[trigger]
        m.assertions@.contains(a) implies assertion_holds(
        a,
        g,
        m.num_colors as int,
        colors,
        floods,
    ) by {
        match a {
            Assertion::ColorDomain { t } => {},
            Assertion::ColorsDiffer { t } => {
                assert(colors[t as int] != colors[t as int + 1]);
            },
            Assertion::Flooded { i, t } => {
                if (i as int) == origin {
                    lemma_sim_origin(g, colors, t as int);
                } else {
                    assert((t as int) == t_max);
                    assert(sim_flood(g, colors, i as int, t_max));
                }
            },
            Assertion::NotFloodedAtStart { i } => {},
            Assertion::Monotone { i, t } => {},
            Assertion::Grows { i, t } => {
                let ii = i as int;
                let tt = t as int;
                if neighbour_flooded(g, floods, ii, tt) && colors[tt] == cluster_color(g, ii) {
                    let j = choose|j: usize|
                        #[trigger] nb_contains(g, ii, j) && floods[j as int][tt];
                    assert(sim_flood(g, colors, j as int, tt));
                    assert(sim_flood(g, colors, ii, tt + 1));
                }
            },
            Assertion::Stalls { i, t } => {
                let ii = i as int;
                let tt = t as int;
                if !floods[ii][tt] && (!neighbour_flooded(g, floods, ii, tt) || colors[tt]
                    != cluster_color(g, ii)) {
                    assert(!sim_flood(g, colors, ii, tt));
                    if sim_flood(g, colors, ii, tt + 1) {
                        let j = choose|j: usize|
                            #[trigger] nb_contains(g, ii, j) && sim_flood(
                                g,
                                colors,
                                j as int,
                                tt,
                            );
                        assert(floods[j as int][tt]);
                        assert(neighbour_flooded(g, floods, ii, tt));
                        assert(false);
                    }
                }
            },
            Assertion::NotAllFlooded { t } => {
                let tt = t as int;
                assert(tt == t_max - 1 && !m.optimize && t_max >= 1);
                if crate::model::all_flooded(floods, tt) {
                    assert forall|i: int| 0 <= i < n implies #[trigger] sim_flood(
                        g,
                        colors,
                        i,
                        tt,
                    ) by {
                        assert(floods[i][tt]);
                    }
                    assert(all_clusters_flooded(g, colors, tt));
                    assert(false);
                }
            },
        }
    }
}

/// The full round trip over a satisfying assignment of the constraint
/// model: replaying the color sequence makes the grid one color after
/// exactly the decoded solution length, and after no shorter prefix.
pub proof fn lemma_decoded_solution_round_trip(
    g0: GridView,
    g: ClusterGraph,
    m: crate::model::ConstraintModel,
    colors: Seq<u8>,
    floods: Seq<Seq<bool>>,
)
    requires
        grid_wf(g0),
        g.wf(g0),
        m.complete(g),
        m.satisfied_by(g, colors, floods),
        crate::model::nb_in_range(g),
        g.neighbours@.len() == g.clusters@.len(),
        floods.len() == g.clusters@.len(),
    ensures
        single_colored(replay(g0, colors, crate::model::solution_length(floods, m.t_max as int))),
        forall|t2: int|
            0 <= t2 < crate::model::solution_length(floods, m.t_max as int)
                ==> !single_colored(replay(g0, colors, t2)),
{
    let cs = g.clusters@;
    let n = cs.len() as int;
    let t_max = m.t_max as int;
    assert(g.clusters.len() == g.clusters@.len());
    assert((g.origin as int) < n);
    // the model requires the whole grid flooded at the horizon
    assert forall|i: int| 0 <= i < n implies #[trigger] floods[i][t_max] by {
        let a = crate::model::Assertion::Flooded { i: i as usize, t: m.t_max };
        assert(m.assertions@.contains(a));
        assert(crate::model::assertion_holds(a, g, m.num_colors as int, colors, floods));
    }
    assert(crate::model::all_flooded(floods, t_max));
    crate::model::lemma_solution_length_first(floods, t_max);
    crate::model::lemma_solution_length_range(floods, t_max);
    let len = crate::model::solution_length(floods, t_max);
    // the flood variables carry exactly the cluster-level dynamics
    assert forall|i: int, t2: int| 0 <= i < n && 0 <= t2 <= t_max implies #[trigger] floods[i][t2]
        == sim_flood(g, colors, i, t2) by {
        crate::model::lemma_model_pins_floods(g, m, colors, floods, i, t2);
    }
    assert forall|i: int| 0 <= i < n implies #[trigger] sim_flood(g, colors, i, len) by {
        assert(floods[i][len]);
    }
    assert(all_clusters_flooded(g, colors, len));
    lemma_replay_single_color(g0, g, colors, len);
    assert forall|t2: int| 0 <= t2 < len implies !single_colored(replay(g0, colors, t2)) by {
        assert(!crate::model::all_flooded(floods, t2));
        let i = choose|i: int| 0 <= i < floods.len() && !(#[trigger] floods[i][t2]);
        assert(!sim_flood(g, colors, i, t2));
        assert(!all_clusters_flooded(g, colors, t2));
        lemma_replay_single_color(g0, g, colors, t2);
    }
}

} // verus!
