//! Connectivity of equal-colored grid cells.
//!
//! A grid is a sequence of rows of colors.  Two cells are connected when a
//! path of pairwise 4-adjacent cells of one color leads from one to the
//! other.  Maximal connected regions are the clusters of [`crate::cluster`];
//! the lemmas here let the executable flood traversals conclude that the
//! region they collect is exactly one such connected region.

use vstd::prelude::*;

use crate::util::{adj4, in_bounds, Point};

verus! {

/// The rows of a grid of colors.
pub type GridView = Seq<Seq<u8>>;

/// A well formed grid: at least one row, all rows of one positive length,
/// and small enough that every cell has a `u8` coordinate pair.
pub open spec fn grid_wf(g: GridView) -> bool {
    &&& 0 < g.len() <= 256
    &&& 0 < g[0].len() <= 256
    &&& forall|i: int| 0 <= i < g.len() ==> #[trigger] g[i].len() == g[0].len()
}

/// The number of rows.
pub open spec fn grid_height(g: GridView) -> int {
    g.len() as int
}

/// The number of columns.
pub open spec fn grid_width(g: GridView) -> int {
    g[0].len() as int
}

/// Whether `p` is a cell of the grid.
pub open spec fn grid_in(g: GridView, p: Point) -> bool {
    in_bounds(p, grid_height(g), grid_width(g))
}

/// The color of the cell at `p`.
pub open spec fn color_at(g: GridView, p: Point) -> u8 {
    g[p.0 as int][p.1 as int]
}

/// Whether `path` is a walk over cells of color `c`: nonempty, inside the
/// grid, and stepping between 4-adjacent cells.
pub open spec fn is_path(g: GridView, path: Seq<Point>, c: u8) -> bool {
    &&& path.len() > 0
    &&& forall|k: int|
        0 <= k < path.len() ==> grid_in(g, #[trigger] path[k]) && color_at(g, path[k]) == c
    &&& forall|k: int| 0 <= k < path.len() - 1 ==> adj4(#[trigger] path[k], path[k + 1])
}

/// Whether a path of cells of `p`'s color leads from `p` to `q`.
pub open spec fn connected(g: GridView, p: Point, q: Point) -> bool {
    exists|path: Seq<Point>|
        is_path(g, path, color_at(g, p)) && path.first() == p && path.last() == q
}

/// Every cell is connected to itself.
pub proof fn lemma_connected_refl(g: GridView, p: Point)
    requires
        grid_in(g, p),
    ensures
        connected(g, p, p),
{
    let path = seq![p];
    assert(is_path(g, path, color_at(g, p)) && path.first() == p && path.last() == p);
}

/// A connected region grows by one 4-adjacent cell of the same color.
pub proof fn lemma_connected_step(g: GridView, p: Point, q: Point, r: Point)
    requires
        connected(g, p, q),
        adj4(q, r),
        grid_in(g, r),
        color_at(g, r) == color_at(g, p),
    ensures
        connected(g, p, r),
{
    let path = choose|path: Seq<Point>|
        is_path(g, path, color_at(g, p)) && path.first() == p && path.last() == q;
    let longer = path.push(r);
    assert forall|k: int| 0 <= k < longer.len() - 1 implies adj4(
        #[trigger] longer[k],
        longer[k + 1],
    ) by {
        if k < path.len() - 1 {
            assert(adj4(path[k], path[k + 1]));
        }
    }
    assert(is_path(g, longer, color_at(g, p)) && longer.first() == p && longer.last() == r);
}

/// Connected cells carry one color.
pub proof fn lemma_connected_color(g: GridView, p: Point, q: Point)
    requires
        connected(g, p, q),
    ensures
        color_at(g, q) == color_at(g, p),
        grid_in(g, p),
        grid_in(g, q),
{
    let path = choose|path: Seq<Point>|
        is_path(g, path, color_at(g, p)) && path.first() == p && path.last() == q;
    assert(path[0] == p && path[path.len() - 1] == q);
}

/// Whether `s` contains every in-grid 4-neighbour of color `c` of each of
/// its members.
pub open spec fn closed_region(g: GridView, s: Set<Point>, c: u8) -> bool {
    forall|u: Point, v: Point|
        #![trigger s.contains(u), adj4(u, v)]
        s.contains(u) && adj4(u, v) && grid_in(g, v) && color_at(g, v) == c ==> s.contains(v)
}

/// A walk that starts inside a closed region ends inside it.
pub proof fn lemma_path_in_closed(g: GridView, s: Set<Point>, path: Seq<Point>, c: u8)
    requires
        closed_region(g, s, c),
        is_path(g, path, c),
        s.contains(path.first()),
    ensures
        s.contains(path.last()),
    decreases path.len(),
{
    if path.len() > 1 {
        let rest = path.subrange(1, path.len() as int);
        assert(adj4(path[0], path[1]));
        assert(grid_in(g, path[1]) && color_at(g, path[1]) == c);
        assert(s.contains(path[1]));
        assert forall|k: int| 0 <= k < rest.len() implies grid_in(g, #[trigger] rest[k])
            && color_at(g, rest[k]) == c by {
            assert(rest[k] == path[k + 1]);
        }
        assert forall|k: int| 0 <= k < rest.len() - 1 implies adj4(
            #[trigger] rest[k],
            rest[k + 1],
        ) by {
            assert(rest[k] == path[k + 1] && rest[k + 1] == path[k + 2]);
            assert(adj4(path[k + 1], path[k + 1 + 1]));
        }
        lemma_path_in_closed(g, s, rest, c);
        assert(rest.last() == path.last());
    }
}

/// A closed region holds everything connected to any of its members.
pub proof fn lemma_closed_connected(g: GridView, s: Set<Point>, p: Point, q: Point)
    requires
        closed_region(g, s, color_at(g, p)),
        s.contains(p),
        connected(g, p, q),
    ensures
        s.contains(q),
{
    let path = choose|path: Seq<Point>|
        is_path(g, path, color_at(g, p)) && path.first() == p && path.last() == q;
    lemma_path_in_closed(g, s, path, color_at(g, p));
}

/// Connectivity does not depend on the order of the two cells.
pub proof fn lemma_connected_sym(g: GridView, p: Point, q: Point)
    requires
        connected(g, p, q),
    ensures
        connected(g, q, p),
{
    let path = choose|path: Seq<Point>|
        is_path(g, path, color_at(g, p)) && path.first() == p && path.last() == q;
    let back = Seq::new(path.len(), |i: int| path[path.len() - 1 - i]);
    lemma_connected_color(g, p, q);
    assert forall|k: int| 0 <= k < back.len() - 1 implies adj4(
        #[trigger] back[k],
        back[k + 1],
    ) by {
        let j = path.len() - 2 - k;
        assert(adj4(path[j], path[j + 1]));
        crate::util::lemma_adj4_symmetric(path[j], path[j + 1]);
    }
    assert(is_path(g, back, color_at(g, q)) && back.first() == q && back.last() == p);
}

/// Connectivity runs along concatenated walks.
pub proof fn lemma_connected_trans(g: GridView, p: Point, q: Point, r: Point)
    requires
        connected(g, p, q),
        connected(g, q, r),
    ensures
        connected(g, p, r),
{
    lemma_connected_color(g, p, q);
    let path1 = choose|path: Seq<Point>|
        is_path(g, path, color_at(g, p)) && path.first() == p && path.last() == q;
    let path2 = choose|path: Seq<Point>|
        is_path(g, path, color_at(g, q)) && path.first() == q && path.last() == r;
    let joined = path1 + path2.subrange(1, path2.len() as int);
    if path2.len() == 1 {
        assert(joined =~= path1);
        assert(is_path(g, joined, color_at(g, p)) && joined.first() == p && joined.last() == r);
    } else {
        assert forall|k: int| 0 <= k < joined.len() implies grid_in(g, #[trigger] joined[k])
            && color_at(g, joined[k]) == color_at(g, p) by {
            if k < path1.len() {
                assert(joined[k] == path1[k]);
            } else {
                assert(joined[k] == path2[k - path1.len() + 1]);
            }
        }
        assert forall|k: int| 0 <= k < joined.len() - 1 implies adj4(
            #[trigger] joined[k],
            joined[k + 1],
        ) by {
            if k < path1.len() - 1 {
                assert(joined[k] == path1[k] && joined[k + 1] == path1[k + 1]);
                assert(adj4(path1[k], path1[k + 1]));
            } else if k == path1.len() - 1 {
                assert(joined[k] == path1.last() && joined[k + 1] == path2[1]);
                let z: int = 0;
                assert(adj4(path2[z], path2[z + 1]));
            } else {
                let j = k - path1.len() + 1;
                assert(joined[k] == path2[j] && joined[k + 1] == path2[j + 1]);
                assert(adj4(path2[j], path2[j + 1]));
            }
        }
        assert(joined.first() == p && joined.last() == r);
    }
}

} // verus!
