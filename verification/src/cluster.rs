//! Clusters: maximal 4-connected regions of equal-colored cells, and the
//! adjacency graph between them.

use vstd::prelude::*;

use crate::problem::{marked, pidx, Color, Problem};
use crate::reach::{
    color_at, connected, grid_height, grid_in, grid_width, lemma_connected_color,
    lemma_connected_refl, lemma_connected_step, lemma_connected_sym, lemma_connected_trans,
    GridView,
};
use crate::util::{adj4, in_bounds, Point};

verus! {

broadcast use vstd::seq_lib::lemma_seq_contains_after_push;

/// A cluster is a set of connected points with a common color.
#[derive(Debug)]
pub struct Cluster {
    pub color: Color,
    pub fields: Vec<Point>,
}

/// The clusters cover every cell of the grid exactly once, and each carries
/// the color of its cells.
pub open spec fn clusters_partition(g: GridView, cs: Seq<Cluster>) -> bool {
    &&& forall|i: int, p: Point|
        0 <= i < cs.len() && #[trigger] cs[i].fields@.contains(p) ==> grid_in(g, p) && color_at(
            g,
            p,
        ) == cs[i].color
    &&& forall|p: Point|
        grid_in(g, p) ==> exists|i: int| 0 <= i < cs.len() && #[trigger] cs[i].fields@.contains(p)
    &&& forall|i: int, j: int, p: Point|
        #![trigger cs[i].fields@.contains(p), cs[j].fields@.contains(p)]
        0 <= i < cs.len() && 0 <= j < cs.len() && i != j && cs[i].fields@.contains(p) ==> !cs[j].fields@.contains(p)
    &&& forall|i: int| 0 <= i < cs.len() ==> (#[trigger] cs[i].fields@).no_duplicates()
    &&& forall|i: int| 0 <= i < cs.len() ==> (#[trigger] cs[i].fields@).len() > 0
}

/// Each cluster holds exactly one connected region: any two of its points
/// are connected, and everything connected to one of its points is in it.
pub open spec fn clusters_connected(g: GridView, cs: Seq<Cluster>) -> bool {
    &&& forall|i: int, p: Point, q: Point|
        #![trigger cs[i].fields@.contains(p), cs[i].fields@.contains(q)]
        0 <= i < cs.len() && cs[i].fields@.contains(p) && cs[i].fields@.contains(q) ==> connected(
            g,
            p,
            q,
        )
    &&& forall|i: int, p: Point, q: Point|
        #![trigger cs[i].fields@.contains(p), connected(g, p, q)]
        0 <= i < cs.len() && cs[i].fields@.contains(p) && connected(g, p, q)
            ==> cs[i].fields@.contains(q)
}

impl Cluster {
    /// Extract the list of clusters of the problem's grid: its maximal
    /// 4-connected same-colored regions, each cell in exactly one of them.
    #[verifier::rlimit(100)]
    #[verifier::spinoff_prover]
    pub fn from_problem(instance: &Problem) -> (r: Vec<Cluster>)
        requires
            instance.wf(),
        ensures
            clusters_partition(instance@, r@),
            clusters_connected(instance@, r@),
    {
        let ghost g = instance@;
        let height = instance.height();
        let width = instance.width();
        proof {
            assert(height * width <= 65536) by (nonlinear_arith)
                requires
                    height <= 256,
                    width <= 256,
            {}
        }
        let total = height * width;
        let mut seen: Vec<bool> = Vec::new();
        let mut i: usize = 0;
        while i < total
            invariant
                seen@.len() == i,
                i <= total,
                forall|k: int| 0 <= k < i ==> !(#[trigger] seen@[k]),
            decreases total - i,
        {
            seen.push(false);
            i += 1;
        }
        let mut clusters: Vec<Cluster> = Vec::new();
        let ghost mut starts: Seq<Point> = Seq::empty();
        proof {
            assert forall|p: Point| grid_in(g, p) implies !marked(g, seen@, p) by {
                crate::problem::lemma_pidx_bound(g, p);
            }
        }
        let mut y: usize = 0;
        while y < height
            invariant
                instance.wf(),
                g == instance@,
                height == grid_height(g),
                width == grid_width(g),
                height * width <= 65536,
                y <= height,
                seen@.len() == height * width,
                starts.len() == clusters@.len(),
                forall|i2: int|
                    0 <= i2 < clusters@.len() ==> grid_in(g, #[trigger] starts[i2]) && color_at(
                        g,
                        starts[i2],
                    ) == clusters@[i2].color,
                forall|i2: int, p: Point|
                    0 <= i2 < clusters@.len() ==> (#[trigger] clusters@[i2].fields@.contains(p)
                        <==> connected(g, starts[i2], p)),
                forall|i2: int|
                    0 <= i2 < clusters@.len() ==> (#[trigger] clusters@[i2].fields@).no_duplicates(),
                forall|p: Point|
                    grid_in(g, p) ==> (#[trigger] marked(g, seen@, p) <==> exists|i2: int|
                        0 <= i2 < clusters@.len() && clusters@[i2].fields@.contains(p)),
                forall|i2: int, j2: int, p: Point|
                    #![trigger clusters@[i2].fields@.contains(p), clusters@[j2].fields@.contains(p)]
                    0 <= i2 < clusters@.len() && 0 <= j2 < clusters@.len() && i2 != j2
                        && clusters@[i2].fields@.contains(p) ==> !clusters@[j2].fields@.contains(p),
                forall|p: Point|
                    grid_in(g, p) && (p.0 as int) < y ==> #[trigger] marked(g, seen@, p),
            decreases height - y,
        {
            let mut x: usize = 0;
            while x < width
                invariant
                    instance.wf(),
                    g == instance@,
                    height == grid_height(g),
                    width == grid_width(g),
                    height * width <= 65536,
                    y < height,
                    x <= width,
                    seen@.len() == height * width,
                    starts.len() == clusters@.len(),
                    forall|i2: int|
                        0 <= i2 < clusters@.len() ==> grid_in(g, #[trigger] starts[i2]) && color_at(
                            g,
                            starts[i2],
                        ) == clusters@[i2].color,
                    forall|i2: int, p: Point|
                        0 <= i2 < clusters@.len() ==> (#[trigger] clusters@[i2].fields@.contains(p)
                            <==> connected(g, starts[i2], p)),
                    forall|i2: int|
                        0 <= i2 < clusters@.len() ==> (
                        #[trigger] clusters@[i2].fields@).no_duplicates(),
                    forall|p: Point|
                        grid_in(g, p) ==> (#[trigger] marked(g, seen@, p) <==> exists|i2: int|
                            0 <= i2 < clusters@.len() && clusters@[i2].fields@.contains(p)),
                    forall|i2: int, j2: int, p: Point|
                        #![trigger clusters@[i2].fields@.contains(p), clusters@[j2].fields@.contains(p)]
                        0 <= i2 < clusters@.len() && 0 <= j2 < clusters@.len() && i2 != j2
                            && clusters@[i2].fields@.contains(p)
                            ==> !clusters@[j2].fields@.contains(p),
                    forall|p: Point|
                        grid_in(g, p) && (p.0 as int) < y ==> #[trigger] marked(g, seen@, p),
                    forall|p: Point|
                        grid_in(g, p) && p.0 == y && (p.1 as int) < x ==> #[trigger] marked(
                            g,
                            seen@,
                            p,
                        ),
                decreases width - x,
            {
                let ghost cell: Point = (y as u8, x as u8);
                proof {
                    crate::problem::lemma_pidx_bound(g, cell);
                }
                let ci = y * width + x;
                assert(ci == pidx(g, cell));
                if !seen[ci] {
                    let region = instance.region_of(y as u8, x as u8);
                    assert(instance@[y as int] == instance.grid@[y as int]@);
                    let color = instance.grid[y][x];
                    proof {
                        lemma_connected_refl(g, cell);
                        assert(region@.contains(cell));
                        assert forall|p: Point| #[trigger]
                            region@.contains(p) implies grid_in(g, p) && color_at(g, p)
                            == color by {
                            lemma_connected_color(g, cell, p);
                        }
                        // a cell of an existing cluster cannot sit in this
                        // region: its cluster would already hold `cell`
                        assert forall|i2: int, p: Point|
                            0 <= i2 < clusters@.len() && #[trigger] clusters@[i2].fields@.contains(
                            p,
                        ) implies !region@.contains(p) by {
                            if region@.contains(p) {
                                lemma_connected_sym(g, cell, p);
                                assert(connected(g, p, cell));
                                assert(connected(g, starts[i2], p));
                                lemma_connected_trans(g, starts[i2], p, cell);
                                assert(clusters@[i2].fields@.contains(cell));
                                assert(marked(g, seen@, cell));
                            }
                        }
                    }
                    // mark the whole region as seen
                    let ghost seen_entry = seen@;
                    let mut k: usize = 0;
                    while k < region.len()
                        invariant
                            instance.wf(),
                            g == instance@,
                            height == grid_height(g),
                            width == grid_width(g),
                            height * width <= 65536,
                            seen@.len() == height * width,
                            k <= region@.len(),
                            forall|p: Point| #[trigger]
                                region@.contains(p) ==> grid_in(g, p),
                            forall|p: Point|
                                grid_in(g, p) ==> (#[trigger] marked(g, seen@, p) <==> (marked(
                                    g,
                                    seen_entry,
                                    p,
                                ) || exists|j2: int| 0 <= j2 < k && region@[j2] == p)),
                        decreases region@.len() - k,
                    {
                        let p = region[k];
                        proof {
                            assert(region@.contains(region@[k as int]));
                            crate::problem::lemma_pidx_bound(g, p);
                        }
                        let ghost seen_before = seen@;
                        seen.set((p.0 as usize) * width + (p.1 as usize), true);
                        proof {
                            assert forall|pt: Point|
                                grid_in(g, pt) implies (#[trigger] marked(g, seen@, pt) <==> (
                            marked(g, seen_entry, pt) || exists|j2: int|
                                0 <= j2 < k + 1 && region@[j2] == pt)) by {
                                crate::problem::lemma_pidx_bound(g, pt);
                                if pidx(g, pt) == pidx(g, p) {
                                    crate::problem::lemma_pidx_injective(g, pt, p);
                                    assert(region@[k as int] == pt);
                                } else {
                                    assert(marked(g, seen@, pt) == marked(g, seen_before, pt));
                                }
                            }
                        }
                        k += 1;
                    }
                    proof {
                        assert forall|pt: Point|
                            grid_in(g, pt) implies (#[trigger] marked(g, seen@, pt) <==> (marked(
                            g,
                            seen_entry,
                            pt,
                        ) || region@.contains(pt))) by {
                            if exists|j2: int| 0 <= j2 < region@.len() && region@[j2] == pt {
                                let j2 = choose|j2: int|
                                    0 <= j2 < region@.len() && region@[j2] == pt;
                                assert(region@.contains(pt));
                            }
                            if region@.contains(pt) {
                                let j2 = choose|j2: int|
                                    0 <= j2 < region@.len() && region@[j2] == pt;
                            }
                        }
                    }
                    let ghost clusters_before = clusters@;
                    clusters.push(Cluster { color, fields: region });
                    proof {
                        starts = starts.push(cell);
                        assert forall|p: Point|
                            grid_in(g, p) implies (#[trigger] marked(g, seen@, p)
                            <==> exists|i2: int|
                            0 <= i2 < clusters@.len() && clusters@[i2].fields@.contains(p)) by {
                            let n0 = clusters_before.len() as int;
                            assert(clusters@[n0].fields@ == region@);
                            if marked(g, seen@, p) {
                                if marked(g, seen_entry, p) {
                                    let i2 = choose|i2: int|
                                        0 <= i2 < clusters_before.len()
                                            && clusters_before[i2].fields@.contains(p);
                                    assert(clusters@[i2].fields@.contains(p));
                                } else {
                                    assert(region@.contains(p));
                                    assert(clusters@[n0].fields@.contains(p));
                                }
                            }
                            if exists|i2: int|
                                0 <= i2 < clusters@.len() && clusters@[i2].fields@.contains(p) {
                                let i2 = choose|i2: int|
                                    0 <= i2 < clusters@.len() && clusters@[i2].fields@.contains(
                                        p,
                                    );
                                if i2 < n0 {
                                    assert(clusters_before[i2].fields@.contains(p));
                                    assert(marked(g, seen_entry, p));
                                } else {
                                    assert(region@.contains(p));
                                }
                            }
                        }
                    }
                }
                x += 1;
            }
            y += 1;
        }
        proof {
            assert forall|i2: int, p: Point, q: Point|
                #![trigger clusters@[i2].fields@.contains(p), clusters@[i2].fields@.contains(q)]
                0 <= i2 < clusters@.len() && clusters@[i2].fields@.contains(p)
                && clusters@[i2].fields@.contains(q) implies connected(g, p, q) by {
                lemma_connected_sym(g, starts[i2], p);
                lemma_connected_trans(g, p, starts[i2], q);
            }
            assert forall|i2: int, p: Point, q: Point|
                #![trigger clusters@[i2].fields@.contains(p), connected(g, p, q)]
                0 <= i2 < clusters@.len() && clusters@[i2].fields@.contains(p) && connected(
                g,
                p,
                q,
            ) implies clusters@[i2].fields@.contains(q) by {
                lemma_connected_trans(g, starts[i2], p, q);
            }
            assert forall|i2: int|
                0 <= i2 < clusters@.len() implies (#[trigger] clusters@[i2].fields@).len() > 0 by {
                lemma_connected_refl(g, starts[i2]);
                assert(clusters@[i2].fields@.contains(starts[i2]));
            }
            assert forall|i2: int, p: Point|
                0 <= i2 < clusters@.len() && #[trigger] clusters@[i2].fields@.contains(
                p,
            ) implies grid_in(g, p) && color_at(g, p) == clusters@[i2].color by {
                lemma_connected_color(g, starts[i2], p);
            }
            assert forall|p: Point| grid_in(g, p) implies exists|i2: int|
                0 <= i2 < clusters@.len() && #[trigger] clusters@[i2].fields@.contains(p) by {
                assert(marked(g, seen@, p));
            }
        }
        clusters
    }

    /// Returns points adjacent to this cluster: every in-grid 4-neighbour
    /// of one of its cells that lies outside the cluster.  A point may
    /// occur more than once.
    #[verifier::rlimit(100)]
    #[verifier::spinoff_prover]
    pub fn neighbours(&self, height: usize, width: usize) -> (r: Vec<Point>)
        requires
            height <= 256,
            width <= 256,
            forall|p: Point|
                #[trigger] self.fields@.contains(p) ==> in_bounds(p, height as int, width as int),
        ensures
            forall|p: Point|
                #![trigger r@.contains(p)]
                r@.contains(p) <==> boundary_point(*self, p, height as int, width as int),
    {
        let mut r: Vec<Point> = Vec::new();
        let mut i: usize = 0;
        while i < self.fields.len()
            invariant
                height <= 256,
                width <= 256,
                i <= self.fields@.len(),
                forall|p: Point|
                    #[trigger] self.fields@.contains(p) ==> in_bounds(
                        p,
                        height as int,
                        width as int,
                    ),
                forall|p: Point|
                    #![trigger r@.contains(p)]
                    r@.contains(p) ==> boundary_point(*self, p, height as int, width as int),
                forall|j: int, p: Point|
                    #![trigger adj4(self.fields@[j], p)]
                    0 <= j < i && adj4(self.fields@[j], p) && in_bounds(
                        p,
                        height as int,
                        width as int,
                    ) && !self.fields@.contains(p) ==> r@.contains(p),
            decreases self.fields@.len() - i,
        {
            let q = self.fields[i];
            proof {
                assert(self.fields@.contains(self.fields@[i as int]));
            }
            let nq = crate::util::neighbours(q.0, q.1, height, width);
            let mut k: usize = 0;
            while k < nq.len()
                invariant
                    height <= 256,
                    width <= 256,
                    i < self.fields@.len(),
                    q == self.fields@[i as int],
                    self.fields@.contains(q),
                    k <= nq@.len(),
                    forall|p: Point|
                        #![trigger nq@.contains(p)]
                        nq@.contains(p) <==> (adj4(q, p) && in_bounds(
                            p,
                            height as int,
                            width as int,
                        )),
                    forall|p: Point|
                        #[trigger] self.fields@.contains(p) ==> in_bounds(
                            p,
                            height as int,
                            width as int,
                        ),
                    forall|p: Point|
                        #![trigger r@.contains(p)]
                        r@.contains(p) ==> boundary_point(*self, p, height as int, width as int),
                    forall|j: int, p: Point|
                        #![trigger adj4(self.fields@[j], p)]
                        0 <= j < i && adj4(self.fields@[j], p) && in_bounds(
                            p,
                            height as int,
                            width as int,
                        ) && !self.fields@.contains(p) ==> r@.contains(p),
                    forall|kk: int|
                        0 <= kk < k ==> (self.fields@.contains(#[trigger] nq@[kk])
                            || r@.contains(nq@[kk])),
                decreases nq@.len() - k,
            {
                let p = nq[k];
                proof {
                    assert(nq@.contains(nq@[k as int]));
                }
                if !contains_point(&self.fields, p) {
                    r.push(p);
                    proof {
                        assert(self.fields@.contains(q) && adj4(q, p));
                        assert(boundary_point(*self, p, height as int, width as int));
                    }
                }
                k += 1;
            }
            proof {
                assert forall|p: Point|
                    adj4(self.fields@[i as int], p) && in_bounds(p, height as int, width as int)
                    && !self.fields@.contains(p) implies r@.contains(p) by {
                    assert(nq@.contains(p));
                    let kk = choose|kk: int| 0 <= kk < nq@.len() && nq@[kk] == p;
                }
            }
            i += 1;
        }
        proof {
            assert forall|p: Point|
                boundary_point(*self, p, height as int, width as int) implies r@.contains(p) by {
                let q = choose|q: Point|
                    #![trigger self.fields@.contains(q), adj4(q, p)]
                    self.fields@.contains(q) && adj4(q, p);
                let j = choose|j: int| 0 <= j < self.fields@.len() && self.fields@[j] == q;
                assert(adj4(self.fields@[j], p));
            }
        }
        r
    }

    /// Returns the positions (indices in `clusters`) of all clusters that
    /// hold a point adjacent to this cluster, each position once.
    #[verifier::rlimit(100)]
    #[verifier::spinoff_prover]
    pub fn neighbour_clusters(
        &self,
        clusters: &Vec<Cluster>,
        height: usize,
        width: usize,
    ) -> (r: Vec<usize>)
        requires
            height <= 256,
            width <= 256,
            forall|p: Point|
                #[trigger] self.fields@.contains(p) ==> in_bounds(p, height as int, width as int),
            forall|p: Point|
                in_bounds(p, height as int, width as int) ==> exists|j: int|
                    0 <= j < clusters@.len() && #[trigger] clusters@[j].fields@.contains(p),
            forall|i: int, j: int, p: Point|
                #![trigger clusters@[i].fields@.contains(p), clusters@[j].fields@.contains(p)]
                0 <= i < clusters@.len() && 0 <= j < clusters@.len() && i != j
                    && clusters@[i].fields@.contains(p) ==> !clusters@[j].fields@.contains(p),
        ensures
            forall|j: usize|
                #![trigger r@.contains(j)]
                r@.contains(j) <==> ((j as int) < clusters@.len() && touches(
                    *self,
                    clusters@[j as int],
                    height as int,
                    width as int,
                )),
            r@.no_duplicates(),
    {
        let boundary = self.neighbours(height, width);
        let mut r: Vec<usize> = Vec::new();
        let mut i: usize = 0;
        while i < boundary.len()
            invariant
                height <= 256,
                width <= 256,
                i <= boundary@.len(),
                forall|p: Point|
                    #![trigger boundary@.contains(p)]
                    boundary@.contains(p) <==> boundary_point(
                        *self,
                        p,
                        height as int,
                        width as int,
                    ),
                forall|p: Point|
                    in_bounds(p, height as int, width as int) ==> exists|j: int|
                        0 <= j < clusters@.len() && #[trigger] clusters@[j].fields@.contains(p),
                forall|i2: int, j2: int, p: Point|
                    #![trigger clusters@[i2].fields@.contains(p), clusters@[j2].fields@.contains(p)]
                    0 <= i2 < clusters@.len() && 0 <= j2 < clusters@.len() && i2 != j2
                        && clusters@[i2].fields@.contains(p)
                        ==> !clusters@[j2].fields@.contains(p),
                forall|j: usize|
                    #![trigger r@.contains(j)]
                    r@.contains(j) ==> ((j as int) < clusters@.len() && touches(
                        *self,
                        clusters@[j as int],
                        height as int,
                        width as int,
                    )),
                forall|k: int, j: usize|
                    #![trigger clusters@[j as int].fields@.contains(boundary@[k])]
                    0 <= k < i && (j as int) < clusters@.len()
                        && clusters@[j as int].fields@.contains(boundary@[k]) ==> r@.contains(j),
                r@.no_duplicates(),
            decreases boundary@.len() - i,
        {
            let p = boundary[i];
            proof {
                assert(boundary@.contains(boundary@[i as int]));
                assert(boundary_point(*self, p, height as int, width as int));
            }
            let j = owner_of(clusters, p);
            if !contains_usize(&r, j) {
                proof {
                    assert(touches(*self, clusters@[j as int], height as int, width as int));
                    crate::util::lemma_push_no_dup(r@, j);
                }
                r.push(j);
            }
            proof {
                assert forall|k: int, j2: usize|
                    #![trigger clusters@[j2 as int].fields@.contains(boundary@[k])]
                    0 <= k < i + 1 && (j2 as int) < clusters@.len()
                        && clusters@[j2 as int].fields@.contains(boundary@[k]) implies r@.contains(
                    j2,
                ) by {
                    if k == i {
                        assert(clusters@[j2 as int].fields@.contains(p));
                        assert(clusters@[j as int].fields@.contains(p));
                        if j2 != j {
                            assert(!clusters@[j2 as int].fields@.contains(p));
                        }
                    }
                }
            }
            i += 1;
        }
        proof {
            assert forall|j: usize|
                (j as int) < clusters@.len() && touches(
                    *self,
                    clusters@[j as int],
                    height as int,
                    width as int,
                ) implies r@.contains(j) by {
                let p = choose|p: Point|
                    #![trigger clusters@[j as int].fields@.contains(p)]
                    boundary_point(*self, p, height as int, width as int)
                        && clusters@[j as int].fields@.contains(p);
                assert(boundary@.contains(p));
                let k = choose|k: int| 0 <= k < boundary@.len() && boundary@[k] == p;
                assert(clusters@[j as int].fields@.contains(boundary@[k]));
            }
        }
        r
    }
}

/// In a grid of one color, every cell is connected to the origin cell.
proof fn lemma_single_color_connected(g: GridView, p: Point)
    requires
        crate::reach::grid_wf(g),
        forall|q: Point| grid_in(g, q) ==> #[trigger] color_at(g, q) == color_at(g, (0u8, 0u8)),
        grid_in(g, p),
    ensures
        connected(g, (0u8, 0u8), p),
    decreases (p.0 as int) + (p.1 as int),
{
    if p.1 > 0 {
        let prev: Point = ((p.0), (p.1 - 1) as u8);
        lemma_single_color_connected(g, prev);
        lemma_connected_step(g, (0u8, 0u8), prev, p);
    } else if p.0 > 0 {
        let prev: Point = (((p.0 - 1) as u8), p.1);
        lemma_single_color_connected(g, prev);
        lemma_connected_step(g, (0u8, 0u8), prev, p);
    } else {
        lemma_connected_refl(g, p);
    }
}

/// A grid that is entirely one color decomposes into exactly one cluster.
pub proof fn lemma_single_color_one_cluster(g: GridView, cs: Seq<Cluster>)
    requires
        crate::reach::grid_wf(g),
        clusters_partition(g, cs),
        clusters_connected(g, cs),
        forall|q: Point| grid_in(g, q) ==> #[trigger] color_at(g, q) == color_at(g, (0u8, 0u8)),
    ensures
        cs.len() == 1,
{
    let zero: Point = (0u8, 0u8);
    assert(grid_in(g, zero));
    let i0 = choose|i: int| 0 <= i < cs.len() && #[trigger] cs[i].fields@.contains(zero);
    if cs.len() >= 2 {
        let j = if i0 == 0 {
            1int
        } else {
            0int
        };
        let q = cs[j].fields@[0];
        assert(cs[j].fields@.contains(q));
        lemma_single_color_connected(g, q);
        assert(cs[i0].fields@.contains(q));
        assert(!cs[j].fields@.contains(q));
    }
}

/// Whether `p` lies just outside cluster `c`: on the grid, not in `c`, and
/// 4-adjacent to one of `c`'s cells.
pub open spec fn boundary_point(c: Cluster, p: Point, height: int, width: int) -> bool {
    &&& !c.fields@.contains(p)
    &&& in_bounds(p, height, width)
    &&& exists|q: Point| #![trigger c.fields@.contains(q), adj4(q, p)] c.fields@.contains(q) && adj4(q, p)
}

/// Whether cluster `b` holds a point just outside cluster `a`.
pub open spec fn touches(a: Cluster, b: Cluster, height: int, width: int) -> bool {
    exists|p: Point|
        #![trigger b.fields@.contains(p)]
        boundary_point(a, p, height, width) && b.fields@.contains(p)
}

/// One direction of the symmetry of cluster adjacency.
proof fn lemma_touches_one_way(g: GridView, cs: Seq<Cluster>, i: int, j: int)
    requires
        clusters_partition(g, cs),
        0 <= i < cs.len(),
        0 <= j < cs.len(),
        i != j,
        touches(cs[i], cs[j], grid_height(g), grid_width(g)),
    ensures
        touches(cs[j], cs[i], grid_height(g), grid_width(g)),
{
    let height = grid_height(g);
    let width = grid_width(g);
    let p = choose|p: Point|
        #![trigger cs[j].fields@.contains(p)]
        boundary_point(cs[i], p, height, width) && cs[j].fields@.contains(p);
    let q = choose|q: Point|
        #![trigger cs[i].fields@.contains(q), adj4(q, p)]
        cs[i].fields@.contains(q) && adj4(q, p);
    assert(!cs[j].fields@.contains(q));
    assert(in_bounds(q, height, width));
    crate::util::lemma_adj4_symmetric(q, p);
    assert(cs[j].fields@.contains(p) && adj4(p, q));
    assert(boundary_point(cs[j], q, height, width));
    assert(cs[i].fields@.contains(q));
}

/// Cluster adjacency is mutual: in any partition of the grid into clusters,
/// cluster `B` is adjacent to cluster `A` exactly when `A` is adjacent to
/// `B`.
pub proof fn lemma_adjacency_symmetric(g: GridView, cs: Seq<Cluster>, i: int, j: int)
    requires
        clusters_partition(g, cs),
        0 <= i < cs.len(),
        0 <= j < cs.len(),
        i != j,
    ensures
        touches(cs[i], cs[j], grid_height(g), grid_width(g)) <==> touches(
            cs[j],
            cs[i],
            grid_height(g),
            grid_width(g),
        ),
{
    if touches(cs[i], cs[j], grid_height(g), grid_width(g)) {
        lemma_touches_one_way(g, cs, i, j);
    }
    if touches(cs[j], cs[i], grid_height(g), grid_width(g)) {
        lemma_touches_one_way(g, cs, j, i);
    }
}

/// Whether `v` holds the point `p`.
pub fn contains_point(v: &Vec<Point>, p: Point) -> (r: bool)
    ensures
        r == v@.contains(p),
{
    let mut i: usize = 0;
    while i < v.len()
        invariant
            i <= v@.len(),
            forall|k: int| 0 <= k < i ==> v@[k] != p,
        decreases v@.len() - i,
    {
        let q = v[i];
        if q.0 == p.0 && q.1 == p.1 {
            proof {
                assert(v@[i as int] == p);
            }
            return true;
        }
        i += 1;
    }
    proof {
        if v@.contains(p) {
            let k = choose|k: int| 0 <= k < v@.len() && v@[k] == p;
        }
    }
    false
}

/// Whether `v` holds the number `j`.
pub fn contains_usize(v: &Vec<usize>, j: usize) -> (r: bool)
    ensures
        r == v@.contains(j),
{
    let mut i: usize = 0;
    while i < v.len()
        invariant
            i <= v@.len(),
            forall|k: int| 0 <= k < i ==> v@[k] != j,
        decreases v@.len() - i,
    {
        if v[i] == j {
            proof {
                assert(v@[i as int] == j);
            }
            return true;
        }
        i += 1;
    }
    proof {
        if v@.contains(j) {
            let k = choose|k: int| 0 <= k < v@.len() && v@[k] == j;
        }
    }
    false
}

/// The position in `clusters` of the cluster that holds `p`.
pub fn owner_of(clusters: &Vec<Cluster>, p: Point) -> (j: usize)
    requires
        exists|j: int| 0 <= j < clusters@.len() && #[trigger] clusters@[j].fields@.contains(p),
    ensures
        (j as int) < clusters@.len(),
        clusters@[j as int].fields@.contains(p),
{
    let mut j: usize = 0;
    while j < clusters.len()
        invariant
            j <= clusters@.len(),
            exists|k: int| 0 <= k < clusters@.len() && #[trigger] clusters@[k].fields@.contains(p),
            forall|k: int| 0 <= k < j ==> !(#[trigger] clusters@[k].fields@.contains(p)),
        decreases clusters@.len() - j,
    {
        if contains_point(&clusters[j].fields, p) {
            return j;
        }
        j += 1;
    }
    proof {
        let k = choose|k: int|
            0 <= k < clusters@.len() && #[trigger] clusters@[k].fields@.contains(p);
        assert(false);
    }
    vstd::pervasive::unreached()
}

/// The cluster decomposition of a grid, with each cluster's adjacent
/// cluster positions and the position of the cluster that holds the origin
/// cell `(0, 0)`.
pub struct ClusterGraph {
    pub clusters: Vec<Cluster>,
    pub neighbours: Vec<Vec<usize>>,
    pub origin: usize,
}

impl ClusterGraph {
    /// Well formed with respect to the grid `g`: the clusters partition the
    /// grid into maximal connected regions, each adjacency list holds
    /// exactly the positions of the touching clusters, and `origin` is the
    /// position of the cluster of the origin cell.
    pub open spec fn wf(self, g: GridView) -> bool {
        &&& clusters_partition(g, self.clusters@)
        &&& clusters_connected(g, self.clusters@)
        &&& self.neighbours@.len() == self.clusters@.len()
        &&& forall|i: int|
            0 <= i < self.clusters@.len() ==> (#[trigger] self.neighbours@[i]@).no_duplicates()
        &&& forall|i: int, j: usize|
            #![trigger self.neighbours@[i]@.contains(j)]
            0 <= i < self.clusters@.len() ==> (self.neighbours@[i]@.contains(j) <==> ((j as int)
                < self.clusters@.len() && touches(
                self.clusters@[i],
                self.clusters@[j as int],
                grid_height(g),
                grid_width(g),
            )))
        &&& (self.origin as int) < self.clusters@.len()
        &&& self.clusters@[self.origin as int].fields@.contains((0u8, 0u8))
    }

    /// The number of clusters.
    pub fn len(&self) -> (r: usize)
        ensures
            r == self.clusters@.len(),
    {
        self.clusters.len()
    }

    /// Builds the cluster graph of a problem's grid.
    #[verifier::rlimit(100)]
    #[verifier::spinoff_prover]
    pub fn build(instance: &Problem) -> (r: ClusterGraph)
        requires
            instance.wf(),
        ensures
            r.wf(instance@),
    {
        let ghost g = instance@;
        let height = instance.height();
        let width = instance.width();
        let clusters = Cluster::from_problem(instance);
        proof {
            assert forall|i: int, p: Point|
                0 <= i < clusters@.len() && #[trigger] clusters@[i].fields@.contains(
                p,
            ) implies in_bounds(p, height as int, width as int) by {}
        }
        let mut neighbour_lists: Vec<Vec<usize>> = Vec::new();
        let mut i: usize = 0;
        while i < clusters.len()
            invariant
                instance.wf(),
                g == instance@,
                height == grid_height(g),
                width == grid_width(g),
                clusters_partition(g, clusters@),
                clusters_connected(g, clusters@),
                i <= clusters@.len(),
                neighbour_lists@.len() == i,
                forall|i2: int|
                    0 <= i2 < i ==> (#[trigger] neighbour_lists@[i2]@).no_duplicates(),
                forall|i2: int, j: usize|
                    #![trigger neighbour_lists@[i2]@.contains(j)]
                    0 <= i2 < i ==> (neighbour_lists@[i2]@.contains(j) <==> ((j as int)
                        < clusters@.len() && touches(
                        clusters@[i2],
                        clusters@[j as int],
                        height as int,
                        width as int,
                    ))),
            decreases clusters@.len() - i,
        {
            proof {
                assert forall|p: Point| #[trigger] clusters@[i as int].fields@.contains(
                    p,
                ) implies in_bounds(p, height as int, width as int) by {}
                assert forall|p: Point|
                    in_bounds(p, height as int, width as int) implies exists|j: int|
                    0 <= j < clusters@.len() && #[trigger] clusters@[j].fields@.contains(p) by {
                    assert(grid_in(g, p));
                }
            }
            let nb = clusters[i].neighbour_clusters(&clusters, height, width);
            neighbour_lists.push(nb);
            i += 1;
        }
        proof {
            let zero: Point = (0u8, 0u8);
            assert(grid_in(g, zero));
        }
        let origin = owner_of(&clusters, (0, 0));
        ClusterGraph { clusters, neighbours: neighbour_lists, origin }
    }
}

} // verus!
